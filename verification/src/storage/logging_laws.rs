//! Laws of logging: what the record of a change says, and that it says enough to make the
//! change again and to take it back.

use super::error::StorageError;
use super::pager;
use super::restart_laws;
use super::wal;
use super::wal::{LogView, RecordType};
use super::wal_laws;
use vstd::prelude::*;

verus! {

/// The next record of a log has its next LSN, says how long the record before it is, and
/// else what it is given.
pub proof fn lemma_next_record(
    log: LogView,
    txn: u64,
    t: RecordType,
    page: u64,
    is_index: bool,
    offset: u16,
    payload: Seq<u8>,
)
    requires
        payload.len() <= u32::MAX,
    ensures
        ({
            let r = wal::next_record(log, txn, t, page, is_index, offset, payload);
            &&& r.header.lsn == log.header.next_lsn
            &&& r.header.prev_record_len == log.last_len
            &&& r.header.txn_id == txn
            &&& r.header.record_type == t
            &&& r.header.page_id == page
            &&& r.header.is_index == is_index
            &&& r.header.payload_page_offset == offset
            &&& r.header.payload_len == payload.len()
            &&& r.payload == payload
        }),
{
}

/// A change that is logged is the last record of the log, which says who made it, where,
/// which bytes were there and which came.
pub proof fn lemma_change_logged(
    log: LogView,
    txn: u64,
    page: u64,
    is_index: bool,
    offset: u16,
    undo: Seq<u8>,
    redo: Seq<u8>,
)
    requires
        wal_laws::in_parts(log),
        log.header.next_lsn < u64::MAX,
        undo.len() <= u16::MAX,
        redo.len() <= u16::MAX,
    ensures
        ({
            let r = wal::next_record(
                log,
                txn,
                RecordType::Update,
                page,
                is_index,
                offset,
                wal::sized(undo) + wal::sized(redo),
            );
            let now = wal::records_in(log.push(r).all());
            &&& now == wal::records_in(log.all()).push(now.last())
            &&& now.last().header.record_type == RecordType::Update
            &&& now.last().header.txn_id == txn
            &&& now.last().header.is_index == is_index
            &&& now.last().header.page_id == page
            &&& now.last().header.lsn == log.header.next_lsn
            &&& forall|k: int|
                offset <= k < offset + redo.len() ==> #[trigger] restart_laws::changes(
                    now.last(),
                    is_index,
                    page as int,
                    k,
                ) && restart_laws::new_byte(now.last(), k) == redo[k - offset]
            &&& forall|k: int|
                txn != 0 && offset <= k < offset + undo.len() ==> #[trigger] restart_laws::recalls(
                    now.last(),
                    is_index,
                    page as int,
                    k,
                ) && restart_laws::old_byte(now.last(), k) == undo[k - offset]
            &&& forall|i: bool, p: int, k: int|
                !(i == is_index && p == page && offset <= k < offset + redo.len())
                    ==> !#[trigger] restart_laws::changes(now.last(), i, p, k)
            &&& forall|i: bool, p: int, k: int|
                !(i == is_index && p == page && offset <= k < offset + undo.len())
                    ==> !#[trigger] restart_laws::recalls(now.last(), i, p, k)
        }),
{
    let r = wal::next_record(
        log,
        txn,
        RecordType::Update,
        page,
        is_index,
        offset,
        wal::sized(undo) + wal::sized(redo),
    );
    wal::lemma_update_read_back(undo, redo);
    lemma_sized_len(undo);
    lemma_sized_len(redo);
    wal_laws::lemma_pushed(log, r);
}

proof fn lemma_sized_len(b: Seq<u8>)
    ensures
        wal::sized(b).len() == 2 + b.len(),
{
    vstd::bytes::lemma_auto_spec_u16_to_from_le_bytes();
}

/// Logging the difference of two versions of a page: nothing is logged where they are the
/// same. Else one record is, which sets each byte that differs to what it is now and
/// recalls what it was; what it says of other bytes is what both versions have.
pub proof fn lemma_difference_logged(
    log: LogView,
    log2: LogView,
    txn: u64,
    page: u64,
    is_index: bool,
    old: Seq<u8>,
    new: Seq<u8>,
    r: Result<Option<u64>, StorageError>,
)
    requires
        wal_laws::in_parts(log),
        log.header.next_lsn < u64::MAX,
        old.len() == new.len(),
        old.len() <= u16::MAX,
        txn != 0,
        pager::diff_logged(log, log2, txn, page, is_index, old, new, r),
    ensures
        old == new ==> log2 == log && r == Ok::<Option<u64>, StorageError>(None),
        old != new ==> {
            let now = wal::records_in(log2.all());
            let c = now.last();
            &&& r == Ok::<Option<u64>, StorageError>(Some(log.header.next_lsn))
            &&& now == wal::records_in(log.all()).push(c)
            &&& c.header.record_type == RecordType::Update
            &&& c.header.txn_id == txn
            &&& c.header.lsn == log.header.next_lsn
            &&& forall|k: int|
                0 <= k < old.len() && old[k] != new[k] ==> #[trigger] restart_laws::changes(
                    c,
                    is_index,
                    page as int,
                    k,
                ) && restart_laws::recalls(c, is_index, page as int, k)
            &&& forall|k: int| #[trigger]
                restart_laws::changes(c, is_index, page as int, k) ==> 0 <= k < new.len()
                    && restart_laws::new_byte(c, k) == new[k]
            &&& forall|k: int| #[trigger]
                restart_laws::recalls(c, is_index, page as int, k) ==> 0 <= k < old.len()
                    && restart_laws::old_byte(c, k) == old[k]
            &&& forall|i: bool, p: int, k: int|
                !(i == is_index && p == page) ==> !#[trigger] restart_laws::changes(c, i, p, k)
            &&& forall|i: bool, p: int, k: int|
                !(i == is_index && p == page) ==> !#[trigger] restart_laws::recalls(c, i, p, k)
        },
{
    if forall|i: int| 0 <= i < old.len() ==> #[trigger] old[i] == new[i] {
        assert(old =~= new);
    } else {
        let (start, end) = choose|start: int, end: int| #[trigger]
            pager::logged_between(log, log2, txn, page, is_index, old, new, start, end);
        assert(old[start] != new[start]);
        let undo = old.subrange(start, end);
        let redo = new.subrange(start, end);
        let offset = start as u16;
        assert(wal::short_len(start as nat) == offset);
        lemma_change_logged(log, txn, page, is_index, offset, undo, redo);
        let c = wal::records_in(log2.all()).last();
        assert forall|k: int|
            0 <= k < old.len() && old[k] != new[k] implies #[trigger] restart_laws::changes(
            c,
            is_index,
            page as int,
            k,
        ) && restart_laws::recalls(c, is_index, page as int, k) by {
            assert(start <= k < end);
        }
        assert forall|k: int| #[trigger]
            restart_laws::changes(c, is_index, page as int, k) implies 0 <= k < new.len()
            && restart_laws::new_byte(c, k) == new[k] by {
            assert(start <= k < end);
        }
        assert forall|k: int| #[trigger]
            restart_laws::recalls(c, is_index, page as int, k) implies 0 <= k < old.len()
            && restart_laws::old_byte(c, k) == old[k] by {
            assert(start <= k < end);
        }
    }
}

} // verus!
