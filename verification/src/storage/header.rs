//! The headers at the start of index pages, heap pages and the log file.

use super::bytes;
use vstd::bytes::*;
use vstd::prelude::*;

verus! {

/// Size of an index page.
pub const PAGE_SIZE: usize = 4096;

/// Size of an index page header.
pub const HEADER_SIZE: usize = 22;

/// Size of a heap page.
pub const HEAP_PAGE_SIZE: usize = 8192;

/// Size of a heap page header.
pub const HEAP_HEADER_SIZE: usize = 21;

/// Size of the header of the log file.
pub const WAL_HEADER_SIZE: usize = 24;

/// Size of a cell pointer: the offset and the size of its cell.
pub const SLOT_SIZE: usize = 4;

/// The role of an index page in the tree.
#[derive(Clone, Copy, Debug, PartialEq, Eq, Structural)]
pub enum PageKind {
    Root,
    Internal,
    Leaf,
}

impl PageKind {
    /// The byte that stands for this kind on disk.
    pub open spec fn code(self) -> u8 {
        match self {
            PageKind::Root => 0,
            PageKind::Internal => 1,
            PageKind::Leaf => 2,
        }
    }

    /// The kind that a byte stands for.
    pub open spec fn decode(v: u8) -> Option<PageKind> {
        if v == 0 {
            Some(PageKind::Root)
        } else if v == 1 {
            Some(PageKind::Internal)
        } else if v == 2 {
            Some(PageKind::Leaf)
        } else {
            None
        }
    }

    pub fn from_u8(v: u8) -> (r: Option<PageKind>)
        ensures
            r == PageKind::decode(v),
    {
        match v {
            0 => Some(PageKind::Root),
            1 => Some(PageKind::Internal),
            2 => Some(PageKind::Leaf),
            _ => None,
        }
    }

    pub fn to_u8(self) -> (v: u8)
        ensures
            v == self.code(),
    {
        match self {
            PageKind::Root => 0,
            PageKind::Internal => 1,
            PageKind::Leaf => 2,
        }
    }
}

/// The header of an index page.
///
/// `ptr` is the rightmost child of an internal node, and the right sibling of
/// a leaf.
#[derive(Clone, Copy, Debug, PartialEq, Eq, Structural)]
pub struct IndexHeader {
    pub id: u64,
    pub free_start: u16,
    pub free_end: u16,
    pub page_ty: PageKind,
    pub flags: u8,
    pub ptr: u64,
}

/// The header that a buffer starts with, if its kind byte is one.
pub open spec fn index_header_at(s: Seq<u8>) -> Option<IndexHeader> {
    match PageKind::decode(s[12]) {
        None => None,
        Some(page_ty) => Some(
            IndexHeader {
                id: bytes::u64_at(s, 0),
                free_start: bytes::u16_at(s, 8),
                free_end: bytes::u16_at(s, 10),
                page_ty,
                flags: s[13],
                ptr: bytes::u64_at(s, 14),
            },
        ),
    }
}

/// Whether the root leaf bit is set.
pub open spec fn root_leaf_bit(flags: u8) -> bool {
    flags & 0x01 == 0x01
}

impl IndexHeader {
    /// The bytes of the header on disk.
    pub open spec fn encoding(self) -> Seq<u8> {
        spec_u64_to_le_bytes(self.id) + spec_u16_to_le_bytes(self.free_start)
            + spec_u16_to_le_bytes(self.free_end) + seq![self.page_ty.code(), self.flags]
            + spec_u64_to_le_bytes(self.ptr)
    }

    /// A leaf, or a root that is one.
    pub open spec fn leaf_level(self) -> bool {
        self.page_ty == PageKind::Leaf || (self.page_ty == PageKind::Root && root_leaf_bit(
            self.flags,
        ))
    }

    /// The encoding of a header decodes to that header, whatever follows it.
    pub proof fn lemma_round_trip(self, s: Seq<u8>)
        requires
            s.len() >= HEADER_SIZE,
            s.subrange(0, HEADER_SIZE as int) == self.encoding(),
        ensures
            index_header_at(s) == Some(self),
    {
        lemma_auto_spec_u64_to_from_le_bytes();
        lemma_auto_spec_u16_to_from_le_bytes();
        let e = self.encoding();
        assert(e.len() == 22);
        assert forall|i: int| 0 <= i < 22 implies s[i] == e[i] by {
            assert(s.subrange(0, 22)[i] == s[i]);
        }
        assert(s.subrange(0, 8) =~= spec_u64_to_le_bytes(self.id));
        assert(s.subrange(8, 10) =~= spec_u16_to_le_bytes(self.free_start));
        assert(s.subrange(10, 12) =~= spec_u16_to_le_bytes(self.free_end));
        assert(s.subrange(14, 22) =~= spec_u64_to_le_bytes(self.ptr));
    }

    pub fn deserialize(buf: &[u8]) -> (r: Option<IndexHeader>)
        requires
            buf@.len() >= HEADER_SIZE,
        ensures
            r == index_header_at(buf@),
    {
        match PageKind::from_u8(buf[12]) {
            None => None,
            Some(page_ty) => Some(
                IndexHeader {
                    id: bytes::get_u64(buf, 0),
                    free_start: bytes::get_u16(buf, 8),
                    free_end: bytes::get_u16(buf, 10),
                    page_ty,
                    flags: buf[13],
                    ptr: bytes::get_u64(buf, 14),
                },
            ),
        }
    }

    pub fn serialize(&self, buf: &mut [u8])
        requires
            old(buf)@.len() >= HEADER_SIZE,
        ensures
            final(buf)@ == bytes::written(old(buf)@, 0, self.encoding()),
    {
        proof {
            lemma_auto_spec_u64_to_from_le_bytes();
            lemma_auto_spec_u16_to_from_le_bytes();
        }
        bytes::put_u64(buf, 0, self.id);
        bytes::put_u16(buf, 8, self.free_start);
        bytes::put_u16(buf, 10, self.free_end);
        buf[12] = self.page_ty.to_u8();
        buf[13] = self.flags;
        bytes::put_u64(buf, 14, self.ptr);
        assert(buf@ =~= bytes::written(old(buf)@, 0, self.encoding()));
    }

    pub fn is_root_leaf(&self) -> (b: bool)
        ensures
            b == root_leaf_bit(self.flags),
    {
        self.flags & 0x01 == 0x01
    }

    pub fn set_root_leaf(&mut self)
        ensures
            *final(self) == (IndexHeader { flags: old(self).flags | 0x01, ..*old(self) }),
            root_leaf_bit(final(self).flags),
    {
        let f: u8 = self.flags;
        assert((f | 0x01) & 0x01 == 0x01) by (bit_vector);
        self.flags = f | 0x01;
    }

    pub fn clear_root_leaf(&mut self)
        ensures
            *final(self) == (IndexHeader { flags: old(self).flags & !0x01, ..*old(self) }),
            !root_leaf_bit(final(self).flags),
    {
        let f: u8 = self.flags;
        assert((f & !0x01) & 0x01 != 0x01) by (bit_vector);
        self.flags = f & !0x01;
    }
}

/// The header of a heap page.
///
/// The first bit of `flags` is set on a primary page and clear on an overflow
/// page. The second bit is set when the page has an overflow page, whose id is
/// then in `ptr`; otherwise `ptr` means nothing.
#[derive(Clone, Copy, Debug, PartialEq, Eq, Structural)]
pub struct HeapHeader {
    pub id: u64,
    pub free_start: u16,
    pub free_end: u16,
    pub flags: u8,
    pub ptr: u64,
}

/// The heap page header that a buffer starts with.
pub open spec fn heap_header_at(s: Seq<u8>) -> HeapHeader {
    HeapHeader {
        id: bytes::u64_at(s, 0),
        free_start: bytes::u16_at(s, 8),
        free_end: bytes::u16_at(s, 10),
        flags: s[12],
        ptr: bytes::u64_at(s, 13),
    }
}

impl HeapHeader {
    /// The bytes of the header on disk.
    pub open spec fn encoding(self) -> Seq<u8> {
        spec_u64_to_le_bytes(self.id) + spec_u16_to_le_bytes(self.free_start)
            + spec_u16_to_le_bytes(self.free_end) + seq![self.flags] + spec_u64_to_le_bytes(
            self.ptr,
        )
    }

    /// Whether the primary bit is set.
    pub open spec fn primary_bit(self) -> bool {
        self.flags & 0x01 == 0x01
    }

    /// Whether the overflow bit is set.
    pub open spec fn overflow_bit(self) -> bool {
        self.flags & 0x02 == 0x02
    }

    /// The encoding of a header decodes to that header, whatever follows it.
    pub proof fn lemma_round_trip(self, s: Seq<u8>)
        requires
            s.len() >= HEAP_HEADER_SIZE,
            s.subrange(0, HEAP_HEADER_SIZE as int) == self.encoding(),
        ensures
            heap_header_at(s) == self,
    {
        lemma_auto_spec_u64_to_from_le_bytes();
        lemma_auto_spec_u16_to_from_le_bytes();
        let e = self.encoding();
        assert(e.len() == 21);
        assert forall|i: int| 0 <= i < 21 implies s[i] == e[i] by {
            assert(s.subrange(0, 21)[i] == s[i]);
        }
        assert(s.subrange(0, 8) =~= spec_u64_to_le_bytes(self.id));
        assert(s.subrange(8, 10) =~= spec_u16_to_le_bytes(self.free_start));
        assert(s.subrange(10, 12) =~= spec_u16_to_le_bytes(self.free_end));
        assert(s.subrange(13, 21) =~= spec_u64_to_le_bytes(self.ptr));
    }

    pub fn deserialize(buf: &[u8]) -> (r: Option<HeapHeader>)
        requires
            buf@.len() >= HEAP_HEADER_SIZE,
        ensures
            r == Some(heap_header_at(buf@)),
    {
        Some(
            HeapHeader {
                id: bytes::get_u64(buf, 0),
                free_start: bytes::get_u16(buf, 8),
                free_end: bytes::get_u16(buf, 10),
                flags: buf[12],
                ptr: bytes::get_u64(buf, 13),
            },
        )
    }

    pub fn serialize(&self, buf: &mut [u8])
        requires
            old(buf)@.len() >= HEAP_HEADER_SIZE,
        ensures
            final(buf)@ == bytes::written(old(buf)@, 0, self.encoding()),
    {
        proof {
            lemma_auto_spec_u64_to_from_le_bytes();
            lemma_auto_spec_u16_to_from_le_bytes();
        }
        bytes::put_u64(buf, 0, self.id);
        bytes::put_u16(buf, 8, self.free_start);
        bytes::put_u16(buf, 10, self.free_end);
        buf[12] = self.flags;
        bytes::put_u64(buf, 13, self.ptr);
        assert(buf@ =~= bytes::written(old(buf)@, 0, self.encoding()));
    }

    /// The room that is left once one more cell pointer is accounted for.
    pub fn remaining_space(&self) -> (n: usize)
        ensures
            n == (if self.free_end >= self.free_start + SLOT_SIZE {
                self.free_end - (self.free_start + SLOT_SIZE)
            } else {
                0
            }),
    {
        let start: usize = self.free_start as usize + SLOT_SIZE;
        let end: usize = self.free_end as usize;
        if end >= start {
            end - start
        } else {
            0
        }
    }

    pub fn new_primary(id: u64) -> (h: HeapHeader)
        ensures
            h == (HeapHeader {
                id,
                free_start: HEAP_HEADER_SIZE as u16,
                free_end: HEAP_PAGE_SIZE as u16,
                flags: 0x01,
                ptr: 0,
            }),
    {
        HeapHeader {
            id,
            free_start: HEAP_HEADER_SIZE as u16,
            free_end: HEAP_PAGE_SIZE as u16,
            flags: 0x01,
            ptr: 0,
        }
    }

    pub fn new_overflow(id: u64) -> (h: HeapHeader)
        ensures
            h == (HeapHeader {
                id,
                free_start: HEAP_HEADER_SIZE as u16,
                free_end: HEAP_PAGE_SIZE as u16,
                flags: 0x00,
                ptr: 0,
            }),
    {
        HeapHeader {
            id,
            free_start: HEAP_HEADER_SIZE as u16,
            free_end: HEAP_PAGE_SIZE as u16,
            flags: 0x00,
            ptr: 0,
        }
    }

    pub fn set_has_overflow(&mut self, overflow_page_id: u64)
        ensures
            *final(self) == (HeapHeader {
                flags: old(self).flags | 0x02,
                ptr: overflow_page_id,
                ..*old(self)
            }),
            final(self).overflow_bit(),
            final(self).primary_bit() == old(self).primary_bit(),
    {
        let f: u8 = self.flags;
        assert((f | 0x02) & 0x02 == 0x02) by (bit_vector);
        assert(((f | 0x02) & 0x01 == 0x01) == (f & 0x01 == 0x01)) by (bit_vector);
        self.flags = f | 0x02;
        self.ptr = overflow_page_id;
    }

    /// Whether this is an overflow page and not a primary one.
    pub fn is_overflow_page(&self) -> (b: bool)
        ensures
            b == !self.primary_bit(),
    {
        self.flags & 0x01 != 0x01
    }

    /// Whether `ptr` holds the id of an overflow page of this page.
    pub fn has_overflow_page(&self) -> (b: bool)
        ensures
            b == self.overflow_bit(),
    {
        self.flags & 0x02 == 0x02
    }
}

/// The header of the log file.
#[derive(Clone, Copy, Debug, PartialEq, Eq, Structural)]
pub struct WalHeader {
    pub last_checkpoint_lsn: u64,
    pub next_lsn: u64,
    pub next_txn_id: u64,
}

/// The log file header that a buffer starts with.
pub open spec fn wal_header_at(s: Seq<u8>) -> WalHeader {
    WalHeader {
        last_checkpoint_lsn: bytes::u64_at(s, 0),
        next_lsn: bytes::u64_at(s, 8),
        next_txn_id: bytes::u64_at(s, 16),
    }
}

impl WalHeader {
    /// The bytes of the header on disk.
    pub open spec fn encoding(self) -> Seq<u8> {
        spec_u64_to_le_bytes(self.last_checkpoint_lsn) + spec_u64_to_le_bytes(self.next_lsn)
            + spec_u64_to_le_bytes(self.next_txn_id)
    }

    /// The encoding of a header decodes to that header, whatever follows it.
    pub proof fn lemma_round_trip(self, s: Seq<u8>)
        requires
            s.len() >= WAL_HEADER_SIZE,
            s.subrange(0, WAL_HEADER_SIZE as int) == self.encoding(),
        ensures
            wal_header_at(s) == self,
    {
        lemma_auto_spec_u64_to_from_le_bytes();
        let e = self.encoding();
        assert(e.len() == 24);
        assert forall|i: int| 0 <= i < 24 implies s[i] == e[i] by {
            assert(s.subrange(0, 24)[i] == s[i]);
        }
        assert(s.subrange(0, 8) =~= spec_u64_to_le_bytes(self.last_checkpoint_lsn));
        assert(s.subrange(8, 16) =~= spec_u64_to_le_bytes(self.next_lsn));
        assert(s.subrange(16, 24) =~= spec_u64_to_le_bytes(self.next_txn_id));
    }

    pub fn deserialize(buf: &[u8]) -> (r: Option<WalHeader>)
        requires
            buf@.len() >= WAL_HEADER_SIZE,
        ensures
            r == Some(wal_header_at(buf@)),
    {
        Some(
            WalHeader {
                last_checkpoint_lsn: bytes::get_u64(buf, 0),
                next_lsn: bytes::get_u64(buf, 8),
                next_txn_id: bytes::get_u64(buf, 16),
            },
        )
    }

    pub fn serialize(&self, buf: &mut [u8])
        requires
            old(buf)@.len() >= WAL_HEADER_SIZE,
        ensures
            final(buf)@ == bytes::written(old(buf)@, 0, self.encoding()),
    {
        proof {
            lemma_auto_spec_u64_to_from_le_bytes();
        }
        bytes::put_u64(buf, 0, self.last_checkpoint_lsn);
        bytes::put_u64(buf, 8, self.next_lsn);
        bytes::put_u64(buf, 16, self.next_txn_id);
        assert(buf@ =~= bytes::written(old(buf)@, 0, self.encoding()));
    }
}

} // verus!
