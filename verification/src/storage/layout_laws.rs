//! Laws of what is written on disk: which byte of a header, a record or an entry holds
//! what. Numbers are written with their lowest byte first.

use super::error::StorageError;
use super::header;
use super::header::{HeapHeader, IndexHeader, PageKind, WalHeader};
use super::wal;
use super::wal::{DirtyPageEntry, RecordType, RecordView, TxnEntry, WalRecordHeader};
use vstd::bytes::*;
use vstd::prelude::*;

verus! {

/// The byte of each kind of index page.
pub proof fn lemma_page_kind(k: PageKind, v: u8)
    ensures
        k.code() == 0 <==> k is Root,
        k.code() == 1 <==> k is Internal,
        k.code() == 2 <==> k is Leaf,
        PageKind::decode(v) == Some(k) <==> v == k.code(),
        PageKind::decode(v) is None <==> v > 2,
{
}

/// The byte of each type of log record.
pub proof fn lemma_record_type(t: RecordType, v: u8)
    ensures
        t.code() == 1 <==> t is Begin,
        t.code() == 2 <==> t is Update,
        t.code() == 3 <==> t is Commit,
        t.code() == 4 <==> t is Abort,
        t.code() == 5 <==> t is Clr,
        t.code() == 6 <==> t is Checkpoint,
        wal::record_type_of(v) == Ok::<RecordType, u8>(t) <==> v == t.code(),
        wal::record_type_of(v) is Err <==> v == 0 || v > 6,
        wal::record_type_of(v) matches Err(e) ==> e == v,
{
}

/// Where the fields of an index page header are.
pub proof fn lemma_index_header(h: IndexHeader)
    ensures
        ({
            let e = h.encoding();
            &&& e.len() == 22
            &&& e.subrange(0, 8) == spec_u64_to_le_bytes(h.id)
            &&& e.subrange(8, 10) == spec_u16_to_le_bytes(h.free_start)
            &&& e.subrange(10, 12) == spec_u16_to_le_bytes(h.free_end)
            &&& e[12] == h.page_ty.code()
            &&& e[13] == h.flags
            &&& e.subrange(14, 22) == spec_u64_to_le_bytes(h.ptr)
        }),
{
    lemma_auto_spec_u16_to_from_le_bytes();
    lemma_auto_spec_u32_to_from_le_bytes();
    lemma_auto_spec_u64_to_from_le_bytes();
    let e = h.encoding();
    assert(e.subrange(0, 8) =~= spec_u64_to_le_bytes(h.id));
    assert(e.subrange(8, 10) =~= spec_u16_to_le_bytes(h.free_start));
    assert(e.subrange(10, 12) =~= spec_u16_to_le_bytes(h.free_end));
    assert(e.subrange(14, 22) =~= spec_u64_to_le_bytes(h.ptr));
}

/// Where the fields of a heap page header are.
pub proof fn lemma_heap_header(h: HeapHeader)
    ensures
        ({
            let e = h.encoding();
            &&& e.len() == 21
            &&& e.subrange(0, 8) == spec_u64_to_le_bytes(h.id)
            &&& e.subrange(8, 10) == spec_u16_to_le_bytes(h.free_start)
            &&& e.subrange(10, 12) == spec_u16_to_le_bytes(h.free_end)
            &&& e[12] == h.flags
            &&& e.subrange(13, 21) == spec_u64_to_le_bytes(h.ptr)
        }),
{
    lemma_auto_spec_u16_to_from_le_bytes();
    lemma_auto_spec_u32_to_from_le_bytes();
    lemma_auto_spec_u64_to_from_le_bytes();
    let e = h.encoding();
    assert(e.subrange(0, 8) =~= spec_u64_to_le_bytes(h.id));
    assert(e.subrange(8, 10) =~= spec_u16_to_le_bytes(h.free_start));
    assert(e.subrange(10, 12) =~= spec_u16_to_le_bytes(h.free_end));
    assert(e.subrange(13, 21) =~= spec_u64_to_le_bytes(h.ptr));
}

/// Where the fields of the log file header are.
pub proof fn lemma_wal_header(h: WalHeader)
    ensures
        ({
            let e = h.encoding();
            &&& e.len() == 24
            &&& e.subrange(0, 8) == spec_u64_to_le_bytes(h.last_checkpoint_lsn)
            &&& e.subrange(8, 16) == spec_u64_to_le_bytes(h.next_lsn)
            &&& e.subrange(16, 24) == spec_u64_to_le_bytes(h.next_txn_id)
        }),
{
    lemma_auto_spec_u16_to_from_le_bytes();
    lemma_auto_spec_u32_to_from_le_bytes();
    lemma_auto_spec_u64_to_from_le_bytes();
    let e = h.encoding();
    assert(e.subrange(0, 8) =~= spec_u64_to_le_bytes(h.last_checkpoint_lsn));
    assert(e.subrange(8, 16) =~= spec_u64_to_le_bytes(h.next_lsn));
    assert(e.subrange(16, 24) =~= spec_u64_to_le_bytes(h.next_txn_id));
}

/// Where the fields of a log record header are.
pub proof fn lemma_record_header(h: WalRecordHeader)
    ensures
        ({
            let e = h.encoding();
            &&& e.len() == 36
            &&& e.subrange(0, 8) == spec_u64_to_le_bytes(h.lsn)
            &&& e.subrange(8, 12) == spec_u32_to_le_bytes(h.prev_record_len)
            &&& e.subrange(12, 20) == spec_u64_to_le_bytes(h.txn_id)
            &&& e[20] == h.record_type.code()
            &&& e[21] == (if h.is_index { 1u8 } else { 0u8 })
            &&& e.subrange(22, 30) == spec_u64_to_le_bytes(h.page_id)
            &&& e.subrange(30, 34) == spec_u32_to_le_bytes(h.payload_len)
            &&& e.subrange(34, 36) == spec_u16_to_le_bytes(h.payload_page_offset)
        }),
{
    lemma_auto_spec_u16_to_from_le_bytes();
    lemma_auto_spec_u32_to_from_le_bytes();
    lemma_auto_spec_u64_to_from_le_bytes();
    let e = h.encoding();
    assert(e.subrange(0, 8) =~= spec_u64_to_le_bytes(h.lsn));
    assert(e.subrange(8, 12) =~= spec_u32_to_le_bytes(h.prev_record_len));
    assert(e.subrange(12, 20) =~= spec_u64_to_le_bytes(h.txn_id));
    assert(e.subrange(22, 30) =~= spec_u64_to_le_bytes(h.page_id));
    assert(e.subrange(30, 34) =~= spec_u32_to_le_bytes(h.payload_len));
    assert(e.subrange(34, 36) =~= spec_u16_to_le_bytes(h.payload_page_offset));
}

/// What is read from the start of an index page.
pub proof fn lemma_index_header_read(s: Seq<u8>)
    requires
        s.len() >= 22,
    ensures
        header::index_header_at(s) matches Some(h) ==> {
            &&& s.subrange(0, 8) == spec_u64_to_le_bytes(h.id)
            &&& s.subrange(8, 10) == spec_u16_to_le_bytes(h.free_start)
            &&& s.subrange(10, 12) == spec_u16_to_le_bytes(h.free_end)
            &&& s[12] == h.page_ty.code()
            &&& s[13] == h.flags
            &&& s.subrange(14, 22) == spec_u64_to_le_bytes(h.ptr)
        },
        header::index_header_at(s) is None <==> s[12] > 2,
{
    lemma_auto_spec_u16_to_from_le_bytes();
    lemma_auto_spec_u32_to_from_le_bytes();
    lemma_auto_spec_u64_to_from_le_bytes();
    assert(s.subrange(0, 8).len() == 8);
    assert(s.subrange(8, 10).len() == 2);
    assert(s.subrange(10, 12).len() == 2);
    assert(s.subrange(14, 22).len() == 8);
}

/// What is read from the start of a heap page.
pub proof fn lemma_heap_header_read(s: Seq<u8>)
    requires
        s.len() >= 21,
    ensures
        ({
            let h = header::heap_header_at(s);
            &&& s.subrange(0, 8) == spec_u64_to_le_bytes(h.id)
            &&& s.subrange(8, 10) == spec_u16_to_le_bytes(h.free_start)
            &&& s.subrange(10, 12) == spec_u16_to_le_bytes(h.free_end)
            &&& s[12] == h.flags
            &&& s.subrange(13, 21) == spec_u64_to_le_bytes(h.ptr)
        }),
{
    lemma_auto_spec_u16_to_from_le_bytes();
    lemma_auto_spec_u32_to_from_le_bytes();
    lemma_auto_spec_u64_to_from_le_bytes();
    assert(s.subrange(0, 8).len() == 8);
    assert(s.subrange(8, 10).len() == 2);
    assert(s.subrange(10, 12).len() == 2);
    assert(s.subrange(13, 21).len() == 8);
}

/// What is read from the start of the log file.
pub proof fn lemma_wal_header_read(s: Seq<u8>)
    requires
        s.len() >= 24,
    ensures
        ({
            let h = header::wal_header_at(s);
            &&& s.subrange(0, 8) == spec_u64_to_le_bytes(h.last_checkpoint_lsn)
            &&& s.subrange(8, 16) == spec_u64_to_le_bytes(h.next_lsn)
            &&& s.subrange(16, 24) == spec_u64_to_le_bytes(h.next_txn_id)
        }),
{
    lemma_auto_spec_u16_to_from_le_bytes();
    lemma_auto_spec_u32_to_from_le_bytes();
    lemma_auto_spec_u64_to_from_le_bytes();
    assert(s.subrange(0, 8).len() == 8);
    assert(s.subrange(8, 16).len() == 8);
    assert(s.subrange(16, 24).len() == 8);
}

/// What is read from the start of a log record.
pub proof fn lemma_record_header_read(s: Seq<u8>)
    requires
        s.len() >= 36,
    ensures
        wal::record_header_at(s) matches Some(h) ==> {
            &&& s.subrange(0, 8) == spec_u64_to_le_bytes(h.lsn)
            &&& s.subrange(8, 12) == spec_u32_to_le_bytes(h.prev_record_len)
            &&& s.subrange(12, 20) == spec_u64_to_le_bytes(h.txn_id)
            &&& s[20] == h.record_type.code()
            &&& s.subrange(22, 30) == spec_u64_to_le_bytes(h.page_id)
            &&& s.subrange(30, 34) == spec_u32_to_le_bytes(h.payload_len)
            &&& s.subrange(34, 36) == spec_u16_to_le_bytes(h.payload_page_offset)
        },
        wal::record_header_at(s) matches Some(h) ==> (h.is_index <==> s[21] == 1),
        wal::record_header_at(s) is None <==> s[20] == 0 || s[20] > 6,
{
    lemma_auto_spec_u16_to_from_le_bytes();
    lemma_auto_spec_u32_to_from_le_bytes();
    lemma_auto_spec_u64_to_from_le_bytes();
    assert(s.subrange(0, 8).len() == 8);
    assert(s.subrange(8, 12).len() == 4);
    assert(s.subrange(12, 20).len() == 8);
    assert(s.subrange(22, 30).len() == 8);
    assert(s.subrange(30, 34).len() == 4);
    assert(s.subrange(34, 36).len() == 2);
}

/// A record is its header and then its payload.
pub proof fn lemma_record(r: RecordView)
    ensures
        r.encoding().len() == 36 + r.payload.len(),
        r.encoding().take(36) == r.header.encoding(),
        r.encoding().skip(36) == r.payload,
{
    lemma_record_header(r.header);
    assert(r.encoding().take(36) =~= r.header.encoding());
    assert(r.encoding().skip(36) =~= r.payload);
}

/// The bytes of a change stand behind their length.
pub proof fn lemma_sized(b: Seq<u8>)
    requires
        b.len() <= u16::MAX,
    ensures
        wal::sized(b).len() == 2 + b.len(),
        wal::sized(b).take(2) == spec_u16_to_le_bytes(b.len() as u16),
        wal::sized(b).skip(2) == b,
{
    lemma_auto_spec_u16_to_from_le_bytes();
    lemma_auto_spec_u32_to_from_le_bytes();
    lemma_auto_spec_u64_to_from_le_bytes();
    assert(wal::sized(b).take(2) =~= spec_u16_to_le_bytes(b.len() as u16));
    assert(wal::sized(b).skip(2) =~= b);
}

/// Where the fields of the entries of a checkpoint are.
pub proof fn lemma_checkpoint_entries(d: DirtyPageEntry, t: TxnEntry)
    ensures
        wal::dpt_entry(d).len() == 17,
        wal::dpt_entry(d)[0] == (if d.is_index { 1u8 } else { 0u8 }),
        wal::dpt_entry(d).subrange(1, 9) == spec_u64_to_le_bytes(d.page_id),
        wal::dpt_entry(d).subrange(9, 17) == spec_u64_to_le_bytes(d.rec_lsn),
        wal::att_entry(t).len() == 16,
        wal::att_entry(t).subrange(0, 8) == spec_u64_to_le_bytes(t.txn_id),
        wal::att_entry(t).subrange(8, 16) == spec_u64_to_le_bytes(t.last_lsn),
{
    lemma_auto_spec_u16_to_from_le_bytes();
    lemma_auto_spec_u32_to_from_le_bytes();
    lemma_auto_spec_u64_to_from_le_bytes();
    assert(wal::dpt_entry(d).subrange(1, 9) =~= spec_u64_to_le_bytes(d.page_id));
    assert(wal::dpt_entry(d).subrange(9, 17) =~= spec_u64_to_le_bytes(d.rec_lsn));
    assert(wal::att_entry(t).subrange(0, 8) =~= spec_u64_to_le_bytes(t.txn_id));
    assert(wal::att_entry(t).subrange(8, 16) =~= spec_u64_to_le_bytes(t.last_lsn));
}

/// The bits of the flags of pages: a root that is a leaf, a heap page that others do not
/// point to as their overflow page, a heap page that has an overflow page.
pub proof fn lemma_flags(h: HeapHeader, i: IndexHeader)
    ensures
        h.primary_bit() <==> h.flags % 2 == 1,
        h.overflow_bit() <==> (h.flags / 2) % 2 == 1,
        header::root_leaf_bit(i.flags) <==> i.flags % 2 == 1,
        i.leaf_level() <==> i.page_ty is Leaf || (i.page_ty is Root && i.flags % 2 == 1),
{
    let f = h.flags;
    let g = i.flags;
    assert(f & 0x01 == f % 2) by (bit_vector);
    assert((f & 0x02 == 0x02) == ((f / 2) % 2 == 1)) by (bit_vector);
    assert(g & 0x01 == g % 2) by (bit_vector);
}

/// Each error has its own message.
pub proof fn lemma_message(e: StorageError)
    ensures
        e is HeaderCorrupt <==> e.text() == "Couldn't deserialize the header"@,
        e is PageOverflow <==> e.text() == "Page overflow"@,
        e is DuplicateKey <==> e.text() == "duplicate key"@,
        e is MissingHeapPointer <==> e.text() == "Leaf cell missing heap pointer"@,
        e is NoHeapPointer <==> e.text() == "Couldn't find the header pointer"@,
        e is MissingChildPointer <==> e.text() == "Internal cell missing child pointer"@,
        e is CellOutOfBounds <==> e.text() == "Cell index out of bounds"@,
        e is HeapPageOverflow <==> e.text() == "Heap page overflow!"@,
        e is PoolFull <==> e.text() == "Buffer pool full: all pages are pinned"@,
        e is ShortRead <==> e.text() == "failed to fill whole buffer"@,
        e is EntryNotFound <==> e.text() == "Entry not found"@,
        e is KeyExists <==> e.text() == "Key already exists"@,
        e is KeyNotFound <==> e.text() == "Key not found"@,
        e is NoPage <==> e.text() == "No page found"@,
        e is WalTruncated <==> e.text() == "wal file exists but header is truncated/corrupt"@,
{
    reveal_strlit("Couldn't deserialize the header");
    reveal_strlit("Page overflow");
    reveal_strlit("duplicate key");
    reveal_strlit("Leaf cell missing heap pointer");
    reveal_strlit("Couldn't find the header pointer");
    reveal_strlit("Internal cell missing child pointer");
    reveal_strlit("Cell index out of bounds");
    reveal_strlit("Heap page overflow!");
    reveal_strlit("Buffer pool full: all pages are pinned");
    reveal_strlit("failed to fill whole buffer");
    reveal_strlit("Entry not found");
    reveal_strlit("Key already exists");
    reveal_strlit("Key not found");
    reveal_strlit("No page found");
    reveal_strlit("wal file exists but header is truncated/corrupt");
    assert("Couldn't deserialize the header"@.len() == 31);
    assert("Page overflow"@.len() == 13);
    assert("duplicate key"@.len() == 13);
    assert("Leaf cell missing heap pointer"@.len() == 30);
    assert("Couldn't find the header pointer"@.len() == 32);
    assert("Internal cell missing child pointer"@.len() == 35);
    assert("Cell index out of bounds"@.len() == 24);
    assert("Heap page overflow!"@.len() == 19);
    assert("Buffer pool full: all pages are pinned"@.len() == 38);
    assert("failed to fill whole buffer"@.len() == 27);
    assert("Entry not found"@.len() == 15);
    assert("Key already exists"@.len() == 18);
    assert("Key not found"@.len() == 13);
    assert("No page found"@.len() == 13);
    assert("wal file exists but header is truncated/corrupt"@.len() == 47);
    assert("Page overflow"@[0] == 'P');
    assert("duplicate key"@[0] == 'd');
    assert("Key not found"@[0] == 'K');
    assert("No page found"@[0] == 'N');
}

} // verus!
