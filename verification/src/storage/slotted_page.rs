//! Slotted pages.
//!
//! A page starts with a header. The cell pointers (slots) follow it and grow
//! upwards, in the order of their keys; the cells grow downwards from the end
//! of the page.

use super::bytes;
use super::error::StorageError;
use super::header;
use super::header::{
    HeapHeader, IndexHeader, PageKind, HEADER_SIZE, HEAP_HEADER_SIZE, HEAP_PAGE_SIZE, PAGE_SIZE,
    SLOT_SIZE,
};
use vstd::bytes::*;
use vstd::prelude::*;

verus! {

/// Size of a key.
pub const KEY_SIZE: usize = 8;

/// Size of a child or heap pointer.
pub const PTR_SIZE: usize = 8;

/// Size of a cell: a key and a pointer.
pub const CELL_SIZE: usize = 16;

/// The number of cells that fill an index page.
pub const ORDER: usize = 203;

/// As many cells fill a page as have room there, each with its cell pointer.
pub proof fn lemma_order()
    ensures
        CELL_SIZE == KEY_SIZE + PTR_SIZE,
        ORDER == (PAGE_SIZE - HEADER_SIZE) as int / (CELL_SIZE + SLOT_SIZE) as int,
        HEADER_SIZE + ORDER * (CELL_SIZE + SLOT_SIZE) <= PAGE_SIZE,
        HEADER_SIZE + (ORDER + 1) * (CELL_SIZE + SLOT_SIZE) > PAGE_SIZE,
{
}

/// A pointer into the heap file.
#[derive(Clone, Copy, Debug, PartialEq, Eq, Structural)]
pub struct HeapPointer {
    pub index: u64,
}

/// A cell of an index page: a key with a child page on an internal page, and
/// with a heap page on a leaf.
#[derive(Clone, Copy, Debug, PartialEq, Eq, Structural)]
pub struct Cell {
    pub key: u64,
    pub c_ptr: Option<u64>,
    pub h_ptr: Option<HeapPointer>,
}

/// Where a cell lies in its page.
#[derive(Clone, Copy, Debug, PartialEq, Eq, Structural)]
pub struct CellPointer {
    pub cell_offset: u16,
    pub cell_size: u16,
}

/// What an index page says: the fields of its header, and its cells as pairs
/// of a key and a pointer in slot order.
#[verifier::ext_equal]
pub struct Node {
    pub id: u64,
    pub kind: PageKind,
    pub flags: u8,
    pub ptr: u64,
    pub cells: Seq<(u64, u64)>,
}

impl Node {
    /// A leaf, or a root that is one.
    pub open spec fn leaf_level(self) -> bool {
        self.kind == PageKind::Leaf || (self.kind == PageKind::Root && header::root_leaf_bit(
            self.flags,
        ))
    }

    /// Whether some cell has the key.
    pub open spec fn has_key(self, key: u64) -> bool {
        exists|i: int| 0 <= i < self.cells.len() && (#[trigger] self.cells[i]).0 == key
    }
}

/// Keys strictly increase along the cells.
pub open spec fn sorted(cells: Seq<(u64, u64)>) -> bool {
    forall|i: int, j: int| 0 <= i < j < cells.len() ==> (#[trigger] cells[i]).0 < (
    #[trigger] cells[j]).0
}

/// The number of leading cells whose keys are below `key`, for sorted cells.
pub open spec fn rank(cells: Seq<(u64, u64)>, key: u64) -> int
    decreases cells.len(),
{
    if cells.len() == 0 {
        0
    } else if cells.last().0 < key {
        cells.len() as int
    } else {
        rank(cells.drop_last(), key)
    }
}

/// The cells with one more at its place in key order.
pub open spec fn with_cell(cells: Seq<(u64, u64)>, key: u64, value: u64) -> Seq<(u64, u64)> {
    cells.insert(rank(cells, key), (key, value))
}

/// `rank` parts the sorted cells into those below the key and the others.
pub proof fn lemma_rank(cells: Seq<(u64, u64)>, key: u64)
    requires
        sorted(cells),
    ensures
        0 <= rank(cells, key) <= cells.len(),
        forall|i: int| 0 <= i < rank(cells, key) ==> (#[trigger] cells[i]).0 < key,
        forall|i: int| rank(cells, key) <= i < cells.len() ==> (#[trigger] cells[i]).0 >= key,
    decreases cells.len(),
{
    if cells.len() > 0 && cells.last().0 >= key {
        let rest = cells.drop_last();
        assert(sorted(rest)) by {
            assert forall|i: int, j: int| 0 <= i < j < rest.len() implies (#[trigger] rest[i]).0 < (
            #[trigger] rest[j]).0 by {
                assert(rest[i] == cells[i] && rest[j] == cells[j]);
            }
        }
        lemma_rank(rest, key);
        assert forall|i: int| 0 <= i < rank(cells, key) implies (#[trigger] cells[i]).0 < key by {
            assert(rest[i] == cells[i]);
        }
        assert forall|i: int| rank(cells, key) <= i < cells.len() implies (#[trigger] cells[i]).0
            >= key by {
            if i < rest.len() {
                assert(rest[i] == cells[i]);
            }
        }
    }
}

/// A place that parts the cells around the key is its rank.
pub proof fn lemma_rank_unique(cells: Seq<(u64, u64)>, key: u64, p: int)
    requires
        sorted(cells),
        0 <= p <= cells.len(),
        forall|i: int| 0 <= i < p ==> (#[trigger] cells[i]).0 < key,
        forall|i: int| p <= i < cells.len() ==> (#[trigger] cells[i]).0 >= key,
    ensures
        rank(cells, key) == p,
{
    lemma_rank(cells, key);
    let r = rank(cells, key);
    if r < p {
        assert(cells[r].0 < key);
    }
    if p < r {
        assert(cells[p].0 < key);
    }
}

/// A new key keeps the cells sorted.
pub proof fn lemma_with_cell_sorted(cells: Seq<(u64, u64)>, key: u64, value: u64)
    requires
        sorted(cells),
        forall|i: int| 0 <= i < cells.len() ==> (#[trigger] cells[i]).0 != key,
    ensures
        sorted(with_cell(cells, key, value)),
{
    lemma_rank(cells, key);
    let p = rank(cells, key);
    let out = with_cell(cells, key, value);
    assert forall|i: int, j: int| 0 <= i < j < out.len() implies (#[trigger] out[i]).0 < (
    #[trigger] out[j]).0 by {
        let a = if i < p {
            cells[i]
        } else if i == p {
            (key, value)
        } else {
            cells[i - 1]
        };
        let b = if j < p {
            cells[j]
        } else if j == p {
            (key, value)
        } else {
            cells[j - 1]
        };
        assert(out[i] == a);
        assert(out[j] == b);
    }
}

/// The place in the page of the cell that slot `i` points at.
pub open spec fn slot_offset(d: Seq<u8>, i: int) -> u16 {
    bytes::u16_at(d, HEADER_SIZE + i * 4)
}

/// The key of the cell that slot `i` points at.
pub open spec fn key_at(d: Seq<u8>, i: int) -> u64 {
    bytes::u64_at(d, slot_offset(d, i) as int)
}

/// The pointer of the cell that slot `i` points at.
pub open spec fn value_at(d: Seq<u8>, i: int) -> u64 {
    bytes::u64_at(d, slot_offset(d, i) + 8)
}

/// The number of slots below `free_start`.
pub open spec fn slots_below(free_start: u16) -> int {
    if free_start >= HEADER_SIZE {
        (free_start - HEADER_SIZE) / 4
    } else {
        0
    }
}

/// The cell that a page of that level makes of a pair.
pub open spec fn cell_of(leaf_level: bool, pair: (u64, u64)) -> Cell {
    if leaf_level {
        Cell { key: pair.0, c_ptr: None, h_ptr: Some(HeapPointer { index: pair.1 }) }
    } else {
        Cell { key: pair.0, c_ptr: Some(pair.1), h_ptr: None }
    }
}

/// The cells that a page of that level makes of pairs.
pub open spec fn cells_of(leaf_level: bool, pairs: Seq<(u64, u64)>) -> Seq<Cell> {
    Seq::new(pairs.len(), |i: int| cell_of(leaf_level, pairs[i]))
}

/// The pair that is stored for a cell, if it has the pointer that is asked for.
pub open spec fn pair_of(use_heap_ptr: bool, cell: Cell) -> Result<(u64, u64), StorageError> {
    if use_heap_ptr {
        match cell.h_ptr {
            Some(h) => Ok((cell.key, h.index)),
            None => Err(StorageError::MissingHeapPointer),
        }
    } else {
        match cell.c_ptr {
            Some(c) => Ok((cell.key, c)),
            None => Err(StorageError::MissingChildPointer),
        }
    }
}

/// What adding one cell to `cells` gives.
pub open spec fn add_pair(cells: Seq<(u64, u64)>, key: u64, value: u64) -> Result<
    Seq<(u64, u64)>,
    StorageError,
> {
    if cells.len() >= ORDER {
        Err(StorageError::PageOverflow)
    } else if exists|i: int| 0 <= i < cells.len() && (#[trigger] cells[i]).0 == key {
        Err(StorageError::DuplicateKey)
    } else {
        Ok(with_cell(cells, key, value))
    }
}

/// What adding cells one after the other to an empty page gives.
pub open spec fn build(use_heap_ptr: bool, cells: Seq<Cell>) -> Result<
    Seq<(u64, u64)>,
    StorageError,
>
    decreases cells.len(),
{
    if cells.len() == 0 {
        Ok(Seq::empty())
    } else {
        match build(use_heap_ptr, cells.drop_last()) {
            Err(e) => Err(e),
            Ok(pairs) => match pair_of(use_heap_ptr, cells.last()) {
                Err(e) => Err(e),
                Ok(pair) => add_pair(pairs, pair.0, pair.1),
            },
        }
    }
}

/// A refused prefix is what refuses the whole.
pub proof fn lemma_build_prefix(use_heap_ptr: bool, cells: Seq<Cell>, k: int)
    requires
        0 <= k <= cells.len(),
        build(use_heap_ptr, cells.take(k)) is Err,
    ensures
        build(use_heap_ptr, cells) == build(use_heap_ptr, cells.take(k)),
    decreases cells.len() - k,
{
    if k < cells.len() {
        assert(cells.take(k + 1).drop_last() =~= cells.take(k));
        lemma_build_prefix(use_heap_ptr, cells, k + 1);
    } else {
        assert(cells.take(k) =~= cells);
    }
}

/// Sorted pairs that fit on a page are what a page built from their cells
/// holds.
pub proof fn lemma_build_sorted(leaf_level: bool, pairs: Seq<(u64, u64)>)
    requires
        sorted(pairs),
        pairs.len() <= ORDER,
    ensures
        build(leaf_level, cells_of(leaf_level, pairs)) == Ok::<_, StorageError>(pairs),
    decreases pairs.len(),
{
    let cells = cells_of(leaf_level, pairs);
    if pairs.len() > 0 {
        let rest = pairs.drop_last();
        assert(sorted(rest)) by {
            assert forall|i: int, j: int| 0 <= i < j < rest.len() implies (#[trigger] rest[i]).0 < (
            #[trigger] rest[j]).0 by {
                assert(rest[i] == pairs[i] && rest[j] == pairs[j]);
            }
        }
        assert(cells.drop_last() =~= cells_of(leaf_level, rest));
        lemma_build_sorted(leaf_level, rest);
        let last = pairs.last();
        assert forall|i: int| 0 <= i < rest.len() implies (#[trigger] rest[i]).0 < last.0 by {
            assert(rest[i] == pairs[i]);
        }
        lemma_rank_unique(rest, last.0, rest.len() as int);
        assert(rest.insert(rest.len() as int, last) =~= pairs);
    } else {
        assert(pairs =~= Seq::empty());
    }
}

/// Sorted pairs that do not fit fill the page and are refused.
pub proof fn lemma_build_overflow(leaf_level: bool, pairs: Seq<(u64, u64)>)
    requires
        sorted(pairs),
        pairs.len() > ORDER,
    ensures
        build(leaf_level, cells_of(leaf_level, pairs)) == Err::<Seq<(u64, u64)>, _>(
            StorageError::PageOverflow,
        ),
    decreases pairs.len(),
{
    let cells = cells_of(leaf_level, pairs);
    let rest = pairs.drop_last();
    assert(sorted(rest)) by {
        assert forall|i: int, j: int| 0 <= i < j < rest.len() implies (#[trigger] rest[i]).0 < (
        #[trigger] rest[j]).0 by {
            assert(rest[i] == pairs[i] && rest[j] == pairs[j]);
        }
    }
    assert(cells.drop_last() =~= cells_of(leaf_level, rest));
    if rest.len() > ORDER {
        lemma_build_overflow(leaf_level, rest);
    } else {
        lemma_build_sorted(leaf_level, rest);
    }
}

/// Where the page is full when sorted pairs do not fit.
pub proof fn lemma_build_stuck(leaf_level: bool, pairs: Seq<(u64, u64)>, k: int)
    requires
        sorted(pairs),
        0 <= k < pairs.len(),
        build(leaf_level, cells_of(leaf_level, pairs).take(k)) is Ok,
        build(leaf_level, cells_of(leaf_level, pairs).take(k + 1)) is Err,
    ensures
        k == ORDER,
        build(leaf_level, cells_of(leaf_level, pairs).take(k)) == Ok::<_, StorageError>(
            pairs.take(k),
        ),
{
    let cells = cells_of(leaf_level, pairs);
    assert(cells.take(k) =~= cells_of(leaf_level, pairs.take(k)));
    assert(cells.take(k + 1) =~= cells_of(leaf_level, pairs.take(k + 1)));
    assert(sorted(pairs.take(k)) && sorted(pairs.take(k + 1)));
    if k < ORDER {
        lemma_build_sorted(leaf_level, pairs.take(k + 1));
    } else if k > ORDER {
        lemma_build_overflow(leaf_level, pairs.take(k));
    } else {
        lemma_build_sorted(leaf_level, pairs.take(k));
    }
}

/// The page took the first `k` cells, and refused the next one.
pub open spec fn stopped_at(
    leaf_level: bool,
    cells: Seq<Cell>,
    on_page: Seq<(u64, u64)>,
    k: int,
) -> bool {
    &&& 0 <= k < cells.len()
    &&& build(leaf_level, cells.take(k)) == Ok::<_, StorageError>(on_page)
    &&& build(leaf_level, cells.take(k + 1)) is Err
}

/// A page that refuses one of some sorted pairs is full.
pub proof fn lemma_stopped(
    leaf_level: bool,
    pairs: Seq<(u64, u64)>,
    on_page: Seq<(u64, u64)>,
    k: int,
)
    requires
        sorted(pairs),
        stopped_at(leaf_level, cells_of(leaf_level, pairs), on_page, k),
    ensures
        k == ORDER,
        on_page == pairs.take(k),
{
    lemma_build_stuck(leaf_level, pairs, k);
}

/// What can be read off a well-formed page.
pub broadcast proof fn lemma_page_wf(p: Page)
    requires
        #[trigger] p.wf(),
    ensures
        p.has_header(),
        p.in_bounds(),
        sorted(p@.cells),
        p@.cells.len() <= ORDER,
        header::index_header_at(p.data@).unwrap().free_start >= HEADER_SIZE,
{
}

/// The slots of a page and its cells have no gaps: each cell takes up a slot behind
/// the header and its bytes at the end of the page.
pub proof fn lemma_free_range(p: Page)
    requires
        p.wf(),
    ensures
        ({
            let h = header::index_header_at(p.data@).unwrap();
            &&& p.has_header()
            &&& h.free_start == HEADER_SIZE + SLOT_SIZE * p@.cells.len()
            &&& h.free_end == PAGE_SIZE - CELL_SIZE * p@.cells.len()
        }),
{
}

/// Where an index page keeps its cells: cell `i` starts where the two bytes behind the
/// header and the slots before it say, with its key and then its pointer.
pub proof fn lemma_index_cell(p: Page, i: int)
    requires
        p.wf(),
        0 <= i < p@.cells.len(),
    ensures
        ({
            let at = bytes::u16_at(p.data@, 22 + 4 * i) as int;
            &&& p@.cells[i].0 == bytes::u64_at(p.data@, at)
            &&& p@.cells[i].1 == bytes::u64_at(p.data@, at + 8)
            &&& at + 16 <= 4096
        }),
{
}

/// A page says what its header says.
pub proof fn lemma_index_fields(p: Page)
    requires
        p.has_header(),
    ensures
        ({
            let h = header::index_header_at(p.data@).unwrap();
            &&& p@.id == h.id
            &&& p@.kind == h.page_ty
            &&& p@.flags == h.flags
            &&& p@.ptr == h.ptr
            &&& h.free_start >= 22 ==> p@.cells.len() == (h.free_start - 22) / 4
        }),
{
}

/// A page of the index file.
#[derive(Clone, Copy)]
pub struct Page {
    pub data: [u8; PAGE_SIZE],
}

impl View for Page {
    type V = Node;

    closed spec fn view(&self) -> Node {
        let d = self.data@;
        let h = header::index_header_at(d).unwrap();
        Node {
            id: h.id,
            kind: h.page_ty,
            flags: h.flags,
            ptr: h.ptr,
            cells: Seq::new(
                slots_below(h.free_start) as nat,
                |i: int| (key_at(d, i), value_at(d, i)),
            ),
        }
    }
}

impl Page {
    /// The header decodes.
    pub open spec fn has_header(self) -> bool {
        header::index_header_at(self.data@) is Some
    }

    /// Every slot lies on the page and points at a cell on the page.
    pub closed spec fn in_bounds(self) -> bool {
        let d = self.data@;
        let h = header::index_header_at(d).unwrap();
        let n = slots_below(h.free_start);
        &&& HEADER_SIZE + 4 * n <= PAGE_SIZE
        &&& forall|i: int| 0 <= i < n ==> #[trigger] slot_offset(d, i) + CELL_SIZE <= PAGE_SIZE
    }

    /// The invariant of index pages: slots and cells fill the page from its two
    /// ends, and the slots are in key order.
    pub closed spec fn wf(self) -> bool {
        let d = self.data@;
        let h = header::index_header_at(d).unwrap();
        let n = slots_below(h.free_start);
        &&& self.has_header()
        &&& n <= ORDER
        &&& h.free_start == HEADER_SIZE + 4 * n
        &&& h.free_end == PAGE_SIZE - CELL_SIZE * n
        &&& forall|i: int|
            0 <= i < n ==> h.free_end <= #[trigger] slot_offset(d, i) && slot_offset(d, i)
                + CELL_SIZE <= PAGE_SIZE
        &&& sorted(self@.cells)
    }

    /// The header of the page.
    pub fn header(&self) -> (r: Result<IndexHeader, StorageError>)
        ensures
            match header::index_header_at(self.data@) {
                Some(h) => r == Ok::<_, StorageError>(h),
                None => r == Err::<IndexHeader, _>(StorageError::HeaderCorrupt),
            },
            r matches Ok(h) ==> h.id == self@.id && h.page_ty == self@.kind && h.flags
                == self@.flags && h.ptr == self@.ptr,
    {
        match IndexHeader::deserialize(&self.data) {
            Some(h) => Ok(h),
            None => Err(StorageError::HeaderCorrupt),
        }
    }

    /// The cell pointer of slot `i`.
    fn slot(&self, i: u16) -> (p: CellPointer)
        requires
            HEADER_SIZE + 4 * i + 4 <= PAGE_SIZE,
        ensures
            p.cell_offset == slot_offset(self.data@, i as int),
            p.cell_size == bytes::u16_at(self.data@, HEADER_SIZE + 4 * i + 2),
    {
        let off: usize = HEADER_SIZE + i as usize * SLOT_SIZE;
        CellPointer {
            cell_offset: bytes::get_u16(&self.data, off),
            cell_size: bytes::get_u16(&self.data, off + 2),
        }
    }

    /// The cells of the page in slot order.
    pub fn get_cells(&self) -> (r: Result<Vec<Cell>, StorageError>)
        requires
            self.has_header() ==> self.in_bounds(),
        ensures
            r is Ok == self.has_header(),
            r matches Ok(cells) ==> cells@ == cells_of(self@.leaf_level(), self@.cells),
            r matches Err(e) ==> e == StorageError::HeaderCorrupt,
    {
        let hdr = match self.header() {
            Ok(h) => h,
            Err(e) => return Err(e),
        };
        let n: u16 = if hdr.free_start as usize >= HEADER_SIZE {
            (hdr.free_start - 22) / 4
        } else {
            0
        };
        let is_leaf_level: bool = hdr.page_ty == PageKind::Leaf || (hdr.page_ty == PageKind::Root
            && hdr.is_root_leaf());
        let mut cells: Vec<Cell> = Vec::with_capacity(n as usize);
        let mut i: u16 = 0;
        while i < n
            invariant
                i <= n,
                self.has_header(),
                self.in_bounds(),
                n == slots_below(hdr.free_start),
                header::index_header_at(self.data@) == Some(hdr),
                is_leaf_level == self@.leaf_level(),
                cells@.len() == i,
                forall|j: int|
                    0 <= j < i ==> cells@[j] == cell_of(is_leaf_level, self@.cells[j]),
            decreases n - i,
        {
            let slot = self.slot(i);
            assert(slot_offset(self.data@, i as int) + CELL_SIZE <= PAGE_SIZE);
            let start: usize = slot.cell_offset as usize;
            let key: u64 = bytes::get_u64(&self.data, start);
            let value: u64 = bytes::get_u64(&self.data, start + 8);
            if is_leaf_level {
                cells.push(Cell { key, c_ptr: None, h_ptr: Some(HeapPointer { index: value }) });
            } else {
                cells.push(Cell { key, c_ptr: Some(value), h_ptr: None });
            }
            i = i + 1;
        }
        assert(cells@ =~= cells_of(self@.leaf_level(), self@.cells));
        Ok(cells)
    }

    /// The number of cells.
    pub fn num_cells(&self) -> (r: Result<usize, StorageError>)
        requires
            self.has_header() ==> header::index_header_at(self.data@).unwrap().free_start
                >= HEADER_SIZE,
        ensures
            r is Ok == self.has_header(),
            r matches Ok(n) ==> n == self@.cells.len(),
            r matches Err(e) ==> e == StorageError::HeaderCorrupt,
    {
        match self.header() {
            Ok(h) => Ok((h.free_start as usize - HEADER_SIZE) / SLOT_SIZE),
            Err(e) => Err(e),
        }
    }

    /// Writes the header of a page without cells.
    pub fn init_header(&mut self, id: u64, page_ty: PageKind, ptr: u64)
        ensures
            final(self).wf(),
            final(self)@ == (Node { id, kind: page_ty, flags: 0, ptr, cells: Seq::empty() }),
    {
        let hdr = IndexHeader {
            id,
            free_start: HEADER_SIZE as u16,
            free_end: PAGE_SIZE as u16,
            page_ty,
            flags: 0,
            ptr,
        };
        self.write_header(&hdr);
        assert(self@.cells =~= Seq::empty());
    }

    /// Replaces the header and leaves the rest of the page as it is.
    fn write_header(&mut self, hdr: &IndexHeader)
        ensures
            header::index_header_at(final(self).data@) == Some(*hdr),
            forall|i: int|
                HEADER_SIZE <= i < PAGE_SIZE ==> final(self).data@[i] == old(self).data@[i],
    {
        hdr.serialize(&mut self.data);
        proof {
            lemma_auto_spec_u64_to_from_le_bytes();
            lemma_auto_spec_u16_to_from_le_bytes();
            bytes::lemma_written_range(old(self).data@, 0, hdr.encoding());
            hdr.lemma_round_trip(self.data@);
        }
    }

    /// Two pages with the same header and the same bytes behind it say the
    /// same.
    proof fn lemma_same_cells(self, other: Page)
        requires
            self.wf(),
            other.has_header(),
            forall|i: int| HEADER_SIZE <= i < PAGE_SIZE ==> self.data@[i] == other.data@[i],
            ({
                let h = header::index_header_at(self.data@).unwrap();
                let g = header::index_header_at(other.data@).unwrap();
                g.free_start == h.free_start && g.free_end == h.free_end
            }),
        ensures
            other.wf(),
            other@.cells == self@.cells,
    {
        let d = self.data@;
        let e = other.data@;
        let h = header::index_header_at(d).unwrap();
        let n = slots_below(h.free_start);
        assert forall|i: int| 0 <= i < n implies #[trigger] slot_offset(e, i) == slot_offset(d, i)
            && key_at(e, i) == key_at(d, i) && value_at(e, i) == value_at(d, i) by {
            bytes::lemma_u16_eq(e, HEADER_SIZE + i * 4, d, HEADER_SIZE + i * 4);
            let o = slot_offset(d, i) as int;
            bytes::lemma_u64_eq(e, o, d, o);
            bytes::lemma_u64_eq(e, o + 8, d, o + 8);
        }
        assert(other@.cells =~= self@.cells);
    }

    /// Adds a cell at its place in key order and returns how many there are.
    pub fn add_cell(&mut self, key: u64, h_ptr: u64) -> (r: Result<usize, StorageError>)
        requires
            old(self).wf(),
        ensures
            final(self).wf(),
            match add_pair(old(self)@.cells, key, h_ptr) {
                Ok(cells) => {
                    &&& r == Ok::<usize, StorageError>(cells.len() as usize)
                    &&& final(self)@ == (Node { cells, ..old(self)@ })
                },
                Err(e) => {
                    &&& r == Err::<usize, _>(e)
                    &&& final(self)@ == old(self)@
                    &&& ({
                        let end = PAGE_SIZE - CELL_SIZE * old(self)@.cells.len();
                        forall|i: int|
                            0 <= i < PAGE_SIZE && !(end - CELL_SIZE <= i < end)
                                ==> final(self).data@[i] == old(self).data@[i]
                    })
                    &&& e == StorageError::PageOverflow ==> *final(self) == *old(self)
                },
            },
    {
        let ghost d0 = self.data@;
        let ghost cells0 = self@.cells;
        let mut hdr = match self.header() {
            Ok(h) => h,
            Err(e) => return Err(e),
        };
        let ghost hdr0 = hdr;
        let n: u16 = (hdr.free_start - 22) / 4;
        let end: usize = hdr.free_end as usize;
        if end < CELL_SIZE || end - CELL_SIZE < hdr.free_start as usize + 4 {
            return Err(StorageError::PageOverflow);
        }
        let start: usize = end - CELL_SIZE;
        bytes::put_u64(&mut self.data, start, key);
        bytes::put_u64(&mut self.data, start + 8, h_ptr);
        let ghost d1 = self.data@;
        proof {
            lemma_auto_spec_u64_to_from_le_bytes();
            assert(forall|k: int|
                0 <= k < PAGE_SIZE && !(start <= k < start + 16) ==> d1[k] == d0[k]);
            assert(bytes::u64_at(d1, start + 8) == h_ptr);
            assert(bytes::u64_at(d1, start as int) == key) by {
                let mid = bytes::written(d0, start as int, spec_u64_to_le_bytes(key));
                bytes::lemma_written_range(d0, start as int, spec_u64_to_le_bytes(key));
                bytes::lemma_u64_eq(d1, start as int, mid, start as int);
            }
            self.lemma_unread_bytes(d0, start as int, end as int);
        }
        let mut lo: u16 = 0;
        let mut hi: u16 = n;
        while lo < hi
            invariant
                lo <= hi <= n,
                n < ORDER,
                self.data@ == d1,
                n == cells0.len(),
                cells0 == old(self)@.cells,
                sorted(cells0),
                self@ == old(self)@,
                self.wf(),
                end == PAGE_SIZE - CELL_SIZE * n,
                start == end - CELL_SIZE,
                forall|i: int|
                    0 <= i < PAGE_SIZE && !(start <= i < end) ==> d1[i] == old(self).data@[i],
                forall|i: int| 0 <= i < lo ==> (#[trigger] cells0[i]).0 < key,
                forall|i: int| hi <= i < n ==> (#[trigger] cells0[i]).0 > key,
            decreases hi - lo,
        {
            let mid: u16 = lo + (hi - lo) / 2;
            let mid_slot = self.slot(mid);
            assert(slot_offset(d1, mid as int) + CELL_SIZE <= PAGE_SIZE);
            let mid_key: u64 = bytes::get_u64(&self.data, mid_slot.cell_offset as usize);
            assert(self@.cells[mid as int].0 == mid_key);
            if mid_key < key {
                lo = mid + 1;
            } else if mid_key > key {
                hi = mid;
            } else {
                assert(cells0[mid as int].0 == key);
                return Err(StorageError::DuplicateKey);
            }
        }
        let from: usize = HEADER_SIZE + lo as usize * 4;
        let to: usize = HEADER_SIZE + n as usize * 4;
        bytes::shift_up(&mut self.data, from, to, 4);
        let ghost d2 = self.data@;
        bytes::put_u16(&mut self.data, from, start as u16);
        let ghost d3 = self.data@;
        bytes::put_u16(&mut self.data, from + 2, CELL_SIZE as u16);
        let ghost d4 = self.data@;
        hdr.free_start = hdr.free_start + 4;
        hdr.free_end = start as u16;
        self.write_header(&hdr);
        proof {
            let d5 = self.data@;
            lemma_auto_spec_u16_to_from_le_bytes();
            assert(forall|k: int|
                HEADER_SIZE <= k < from ==> d5[k] == d0[k]);
            assert(forall|k: int| from + 4 <= k < to + 4 ==> d5[k] == d0[k - 4]);
            assert(forall|k: int| to + 4 <= k < PAGE_SIZE ==> d5[k] == d1[k]);
            assert(slot_offset(d5, lo as int) == start) by {
                bytes::lemma_u16_eq(d5, from as int, d3, from as int);
            }
            lemma_rank_unique(cells0, key, lo as int);
            assert forall|i: int| 0 <= i < n + 1 implies #[trigger] slot_offset(d5, i) == (if i
                < lo {
                slot_offset(d0, i)
            } else if i == lo {
                start as u16
            } else {
                slot_offset(d0, i - 1)
            }) by {
                if i < lo {
                    bytes::lemma_u16_eq(d5, HEADER_SIZE + i * 4, d0, HEADER_SIZE + i * 4);
                } else if i > lo {
                    bytes::lemma_u16_eq(d5, HEADER_SIZE + i * 4, d0, HEADER_SIZE + (i - 1) * 4);
                }
            }
            let out = with_cell(cells0, key, h_ptr);
            assert forall|i: int| 0 <= i < n + 1 implies #[trigger] key_at(d5, i) == out[i].0
                && value_at(d5, i) == out[i].1 by {
                if i == lo {
                    bytes::lemma_u64_eq(d5, start as int, d1, start as int);
                    bytes::lemma_u64_eq(d5, start + 8, d1, start + 8);
                } else {
                    let j = if i < lo {
                        i
                    } else {
                        i - 1
                    };
                    let o = slot_offset(d0, j) as int;
                    assert(slot_offset(d5, i) == o);
                    bytes::lemma_u64_eq(d5, o, d0, o);
                    bytes::lemma_u64_eq(d5, o + 8, d0, o + 8);
                    assert(cells0[j] == (key_at(d0, j), value_at(d0, j)));
                }
            }
            assert(self@.cells =~= out);
            lemma_with_cell_sorted(cells0, key, h_ptr);
        }
        Ok(n as usize + 1)
    }

    /// Clears the page and fills it with the given cells.
    ///
    /// A root leaf that is rebuilt as a root stays one.
    pub fn rebuild_from_cells(
        &mut self,
        cells: &[Cell],
        page_ty: PageKind,
        id: u64,
        ptr: u64,
    ) -> (r: Result<(), StorageError>)
        ensures
            final(self).wf(),
            ({
                let use_heap_ptr = old(self).rebuilt_leaf_level(page_ty);
                let flags: u8 = if old(self).stays_root_leaf(page_ty) {
                    1
                } else {
                    0
                };
                &&& final(self)@.leaf_level() == use_heap_ptr
                &&& final(self)@ == (Node { id, kind: page_ty, flags, ptr, ..final(self)@ })
                &&& match build(use_heap_ptr, cells@) {
                    Ok(pairs) => r is Ok && final(self)@.cells == pairs,
                    Err(e) => {
                        &&& r == Err::<(), _>(e)
                        &&& exists|k: int| #[trigger]
                            stopped_at(use_heap_ptr, cells@, final(self)@.cells, k)
                    },
                }
            }),
    {
        let is_root_leaf: bool = match self.header() {
            Ok(h) => h.page_ty == PageKind::Root && h.is_root_leaf(),
            Err(_) => false,
        };
        let keep: bool = is_root_leaf && page_ty == PageKind::Root;
        assert(keep == self.stays_root_leaf(page_ty));
        self.data = [0u8; PAGE_SIZE];
        self.init_header(id, page_ty, ptr);
        assert(0u8 | 1u8 == 1u8) by (bit_vector);
        assert(1u8 & 1u8 == 1u8) by (bit_vector);
        assert(0u8 & 1u8 != 1u8) by (bit_vector);
        if keep {
            let mut hdr = match self.header() {
                Ok(h) => h,
                Err(e) => return Err(e),
            };
            let ghost before = *self;
            hdr.set_root_leaf();
            self.write_header(&hdr);
            proof {
                before.lemma_same_cells(*self);
            }
        }
        let use_heap_ptr: bool = page_ty == PageKind::Leaf || keep;
        assert(use_heap_ptr == old(self).rebuilt_leaf_level(page_ty));
        let ghost flags: u8 = if keep {
            1
        } else {
            0
        };
        let mut i: usize = 0;
        assert(cells@.take(0) =~= Seq::empty());
        while i < cells.len()
            invariant
                i <= cells@.len(),
                self.wf(),
                self@ == (Node { id, kind: page_ty, flags, ptr, ..self@ }),
                flags == (if keep { 1u8 } else { 0u8 }),
                1u8 & 1u8 == 1u8,
                0u8 & 1u8 != 1u8,
                keep ==> page_ty == PageKind::Root,
                keep == old(self).stays_root_leaf(page_ty),
                use_heap_ptr == (page_ty == PageKind::Leaf || keep),
                use_heap_ptr == old(self).rebuilt_leaf_level(page_ty),
                build(use_heap_ptr, cells@.take(i as int)) == Ok::<_, StorageError>(self@.cells),
            decreases cells@.len() - i,
        {
            let cell: Cell = cells[i];
            let ghost done = cells@.take(i as int);
            let ghost more = cells@.take(i + 1);
            proof {
                assert(more.drop_last() =~= done);
                assert(more.last() == cell);
                assert(build(use_heap_ptr, done) == Ok::<_, StorageError>(self@.cells));
                if build(use_heap_ptr, more) is Err {
                    lemma_build_prefix(use_heap_ptr, cells@, i + 1);
                    assert(stopped_at(use_heap_ptr, cells@, self@.cells, i as int));
                }
            }
            let value: u64 = if use_heap_ptr {
                match cell.h_ptr {
                    Some(h) => h.index,
                    None => return Err(StorageError::MissingHeapPointer),
                }
            } else {
                match cell.c_ptr {
                    Some(c) => c,
                    None => return Err(StorageError::MissingChildPointer),
                }
            };
            match self.add_cell(cell.key, value) {
                Ok(_) => {},
                Err(e) => return Err(e),
            }
            i = i + 1;
        }
        assert(cells@.take(cells@.len() as int) =~= cells@);
        Ok(())
    }

    /// Whether a rebuild of this page as `page_ty` leaves a root leaf.
    pub open spec fn stays_root_leaf(self, page_ty: PageKind) -> bool {
        self.has_header() && self@.kind == PageKind::Root && header::root_leaf_bit(self@.flags)
            && page_ty == PageKind::Root
    }

    /// Whether a rebuild of this page as `page_ty` leaves a page of the leaf
    /// level.
    pub open spec fn rebuilt_leaf_level(self, page_ty: PageKind) -> bool {
        page_ty == PageKind::Leaf || self.stays_root_leaf(page_ty)
    }

    /// The flags of this page after a rebuild with its own kind.
    pub open spec fn rebuilt_flags(self) -> u8 {
        if self.stays_root_leaf(self@.kind) {
            1
        } else {
            0
        }
    }

    /// Takes the cell at `idx` off the page.
    pub fn remove_cell_at(&mut self, idx: usize) -> (r: Result<Cell, StorageError>)
        requires
            old(self).wf(),
        ensures
            final(self).wf(),
            if idx < old(self)@.cells.len() {
                &&& r == Ok::<_, StorageError>(
                    cell_of(old(self)@.leaf_level(), old(self)@.cells[idx as int]),
                )
                &&& final(self)@ == (Node {
                    flags: old(self).rebuilt_flags(),
                    cells: old(self)@.cells.remove(idx as int),
                    ..old(self)@
                })
                &&& final(self)@.leaf_level() == old(self)@.leaf_level()
            } else {
                &&& r == Err::<Cell, _>(StorageError::CellOutOfBounds)
                &&& *final(self) == *old(self)
            },
    {
        let ghost before = *self;
        let hdr = match self.header() {
            Ok(h) => h,
            Err(e) => return Err(e),
        };
        let all_cells = match self.get_cells() {
            Ok(c) => c,
            Err(e) => return Err(e),
        };
        if idx >= all_cells.len() {
            return Err(StorageError::CellOutOfBounds);
        }
        let mut remaining = all_cells;
        let removed = remaining.remove(idx);
        proof {
            let leaf = before@.leaf_level();
            let pairs = before@.cells.remove(idx as int);
            assert(remaining@ =~= cells_of(leaf, pairs));
            assert(sorted(pairs)) by {
                assert forall|i: int, j: int| 0 <= i < j < pairs.len() implies (#[trigger] pairs[i]).0
                    < (#[trigger] pairs[j]).0 by {
                    let a = if i < idx {
                        i
                    } else {
                        i + 1
                    };
                    let b = if j < idx {
                        j
                    } else {
                        j + 1
                    };
                    assert(pairs[i] == before@.cells[a] && pairs[j] == before@.cells[b]);
                }
            }
            lemma_build_sorted(leaf, pairs);
            assert(leaf == (hdr.page_ty == PageKind::Leaf || before.stays_root_leaf(hdr.page_ty)));
        }
        match self.rebuild_from_cells(remaining.as_slice(), hdr.page_ty, hdr.id, hdr.ptr) {
            Ok(_) => Ok(removed),
            Err(e) => Err(e),
        }
    }

    /// Replaces the rightmost child or right sibling pointer.
    pub fn set_header_ptr(&mut self, ptr: u64) -> (r: Result<(), StorageError>)
        requires
            old(self).wf(),
        ensures
            r is Ok,
            final(self).wf(),
            final(self)@ == (Node { ptr, ..old(self)@ }),
            forall|i: int|
                HEADER_SIZE <= i < PAGE_SIZE ==> final(self).data@[i] == old(self).data@[i],
    {
        let ghost before = *self;
        let mut hdr = match self.header() {
            Ok(h) => h,
            Err(e) => return Err(e),
        };
        hdr.ptr = ptr;
        self.write_header(&hdr);
        proof {
            before.lemma_same_cells(*self);
        }
        Ok(())
    }

    /// Marks a root without children as a leaf.
    pub fn set_root_leaf(&mut self) -> (r: Result<(), StorageError>)
        requires
            old(self).wf(),
        ensures
            r is Ok,
            final(self).wf(),
            final(self)@ == (Node { flags: old(self)@.flags | 0x01, ..old(self)@ }),
            header::root_leaf_bit(final(self)@.flags),
            forall|i: int|
                HEADER_SIZE <= i < PAGE_SIZE ==> final(self).data@[i] == old(self).data@[i],
    {
        let mut hdr = match self.header() {
            Ok(h) => h,
            Err(e) => return Err(e),
        };
        hdr.set_root_leaf();
        self.write_header(&hdr);
        proof {
            old(self).lemma_same_cells(*self);
        }
        Ok(())
    }

    /// Changes the role of the page. A leaf that becomes the root is a root
    /// leaf, and no other kind of page is one.
    pub fn set_page_kind(&mut self, page_ty: PageKind) -> (r: Result<(), StorageError>)
        requires
            old(self).wf(),
        ensures
            r is Ok,
            final(self).wf(),
            final(self)@ == (Node {
                kind: page_ty,
                flags: if page_ty == PageKind::Root {
                    if old(self)@.leaf_level() {
                        old(self)@.flags | 0x01
                    } else {
                        old(self)@.flags
                    }
                } else {
                    old(self)@.flags & !0x01
                },
                ..old(self)@
            }),
            page_ty == PageKind::Root && old(self)@.leaf_level() ==> header::root_leaf_bit(
                final(self)@.flags,
            ),
            page_ty != PageKind::Root ==> !header::root_leaf_bit(final(self)@.flags),
            forall|i: int|
                HEADER_SIZE <= i < PAGE_SIZE ==> final(self).data@[i] == old(self).data@[i],
    {
        let ghost before = *self;
        let mut hdr = match self.header() {
            Ok(h) => h,
            Err(e) => return Err(e),
        };
        let was_leaf: bool = hdr.page_ty == PageKind::Leaf || (hdr.page_ty == PageKind::Root
            && hdr.is_root_leaf());
        hdr.page_ty = page_ty;
        if page_ty == PageKind::Root && was_leaf {
            hdr.set_root_leaf();
        } else if page_ty != PageKind::Root {
            hdr.clear_root_leaf();
        }
        self.write_header(&hdr);
        proof {
            before.lemma_same_cells(*self);
        }
        Ok(())
    }

    /// Bytes between the slots and the cells mean nothing.
    proof fn lemma_unread_bytes(self, d0: Seq<u8>, from: int, to: int)
        requires
            d0.len() == PAGE_SIZE,
            header::index_header_at(d0) is Some,
            ({
                let h = header::index_header_at(d0).unwrap();
                let n = slots_below(h.free_start);
                &&& n <= ORDER
                &&& h.free_start == HEADER_SIZE + 4 * n
                &&& h.free_end == PAGE_SIZE - CELL_SIZE * n
                &&& h.free_start <= from <= to <= h.free_end
                &&& forall|i: int|
                    0 <= i < n ==> h.free_end <= #[trigger] slot_offset(d0, i) && slot_offset(
                        d0,
                        i,
                    ) + CELL_SIZE <= PAGE_SIZE
                &&& sorted(
                    Seq::new(n as nat, |i: int| (key_at(d0, i), value_at(d0, i))),
                )
            }),
            forall|k: int|
                0 <= k < PAGE_SIZE && !(from <= k < to) ==> self.data@[k] == d0[k],
        ensures
            self.wf(),
            header::index_header_at(self.data@) == header::index_header_at(d0),
            self@.cells == Seq::new(
                slots_below(header::index_header_at(d0).unwrap().free_start) as nat,
                |i: int| (key_at(d0, i), value_at(d0, i)),
            ),
    {
        let d = self.data@;
        let h = header::index_header_at(d0).unwrap();
        let n = slots_below(h.free_start);
        bytes::lemma_u64_eq(d, 0, d0, 0);
        bytes::lemma_u16_eq(d, 8, d0, 8);
        bytes::lemma_u16_eq(d, 10, d0, 10);
        bytes::lemma_u64_eq(d, 14, d0, 14);
        assert forall|i: int| 0 <= i < n implies #[trigger] slot_offset(d, i) == slot_offset(d0, i)
            && key_at(d, i) == key_at(d0, i) && value_at(d, i) == value_at(d0, i) by {
            bytes::lemma_u16_eq(d, HEADER_SIZE + i * 4, d0, HEADER_SIZE + i * 4);
            let o = slot_offset(d0, i) as int;
            bytes::lemma_u64_eq(d, o, d0, o);
            bytes::lemma_u64_eq(d, o + 8, d0, o + 8);
        }
        assert(self@.cells =~= Seq::new(n as nat, |i: int| (key_at(d0, i), value_at(d0, i))));
    }
}

/// The place of record `i` of a heap page.
pub open spec fn heap_slot(d: Seq<u8>, i: int) -> CellPointer {
    CellPointer {
        cell_offset: bytes::u16_at(d, HEAP_HEADER_SIZE + i * 4),
        cell_size: bytes::u16_at(d, HEAP_HEADER_SIZE + i * 4 + 2),
    }
}

/// The record that a cell pointer of a heap page points at.
pub open spec fn record_at(d: Seq<u8>, p: CellPointer) -> Seq<u8> {
    d.subrange(p.cell_offset as int, p.cell_offset + p.cell_size)
}

/// The room that records take up on a heap page: their bytes and their slots.
pub open spec fn records_room(records: Seq<Seq<u8>>) -> int
    decreases records.len(),
{
    if records.len() == 0 {
        0
    } else {
        records_room(records.drop_last()) + records.last().len() + SLOT_SIZE
    }
}

/// The contents of a list of byte vectors.
pub open spec fn contents(v: Seq<Vec<u8>>) -> Seq<Seq<u8>> {
    Seq::new(v.len(), |i: int| v[i]@)
}

/// A page of the heap file.
#[derive(Clone, Copy)]
pub struct HeapPage {
    pub data: [u8; HEAP_PAGE_SIZE],
}

impl HeapPage {
    /// The header fields.
    pub open spec fn hdr(self) -> HeapHeader {
        header::heap_header_at(self.data@)
    }

    /// How many records there are.
    pub open spec fn count(self) -> int {
        if self.hdr().free_start >= HEAP_HEADER_SIZE {
            (self.hdr().free_start - HEAP_HEADER_SIZE) / 4
        } else {
            0
        }
    }

    /// The records in slot order.
    pub open spec fn records(self) -> Seq<Seq<u8>> {
        Seq::new(self.count() as nat, |i: int| record_at(self.data@, heap_slot(self.data@, i)))
    }

    /// The bytes between the slots and the records.
    pub open spec fn room(self) -> int {
        self.hdr().free_end - self.hdr().free_start
    }

    /// The slots begin behind the header, and the records end with the page.
    pub open spec fn range_ok(self) -> bool {
        HEAP_HEADER_SIZE <= self.hdr().free_start && self.hdr().free_end <= HEAP_PAGE_SIZE
    }

    /// The page after a record was added: the bytes of the record stand before those
    /// of the others, and its slot behind the others.
    pub open spec fn has_more(self, data: Seq<u8>, other: HeapPage) -> bool {
        let s = self.hdr().free_start as int;
        let e = self.hdr().free_end as int;
        let n = data.len() as int;
        &&& other.hdr() == (HeapHeader {
            free_start: (s + SLOT_SIZE) as u16,
            free_end: (e - n) as u16,
            ..self.hdr()
        })
        &&& bytes::u16_at(other.data@, s) == e - n
        &&& bytes::u16_at(other.data@, s + 2) == n
        &&& other.data@.subrange(e - n, e) == data
        &&& forall|i: int|
            HEAP_HEADER_SIZE <= i < HEAP_PAGE_SIZE && !(s <= i < s + SLOT_SIZE) && !(e - n <= i
                < e) ==> #[trigger] other.data@[i] == self.data@[i]
    }

    /// The page after records were added. The slots take up more of the page behind
    /// the others and the bytes before the others, and the rest of the page stays.
    pub open spec fn has_records(self, new: Seq<Seq<u8>>, other: HeapPage) -> bool {
        let s = self.hdr().free_start as int;
        let e = self.hdr().free_end as int;
        let s2 = s + SLOT_SIZE * new.len();
        let e2 = e - (records_room(new) - SLOT_SIZE * new.len());
        &&& other.hdr() == (HeapHeader {
            free_start: s2 as u16,
            free_end: e2 as u16,
            ..self.hdr()
        })
        &&& other.room() == self.room() - records_room(new)
        &&& forall|i: int|
            HEAP_HEADER_SIZE <= i < HEAP_PAGE_SIZE && !(s <= i < s2) && !(e2 <= i < e)
                ==> #[trigger] other.data@[i] == self.data@[i]
        &&& self.wf() ==> other.wf() && other.records() == self.records() + new
    }

    /// The invariant of heap pages.
    pub open spec fn wf(self) -> bool {
        let d = self.data@;
        let n = self.count();
        &&& self.hdr().free_start == HEAP_HEADER_SIZE + 4 * n
        &&& self.hdr().free_start <= self.hdr().free_end <= HEAP_PAGE_SIZE
        &&& forall|i: int|
            0 <= i < n ==> {
                let p = #[trigger] heap_slot(d, i);
                self.hdr().free_end <= p.cell_offset && p.cell_offset + p.cell_size
                    <= HEAP_PAGE_SIZE
            }
    }

    /// The header of the page.
    pub fn header(&self) -> (r: Result<HeapHeader, StorageError>)
        ensures
            r == Ok::<_, StorageError>(self.hdr()),
    {
        match HeapHeader::deserialize(&self.data) {
            Some(h) => Ok(h),
            None => Err(StorageError::HeaderCorrupt),
        }
    }

    /// Replaces the header and leaves the rest of the page as it is.
    pub fn write_header(&mut self, h: &HeapHeader)
        ensures
            final(self).hdr() == *h,
            forall|i: int|
                HEAP_HEADER_SIZE <= i < HEAP_PAGE_SIZE ==> final(self).data@[i] == old(
                    self,
                ).data@[i],
    {
        h.serialize(&mut self.data);
        proof {
            lemma_auto_spec_u64_to_from_le_bytes();
            lemma_auto_spec_u16_to_from_le_bytes();
            bytes::lemma_written_range(old(self).data@, 0, h.encoding());
            h.lemma_round_trip(self.data@);
        }
    }

    /// Pages that differ in their headers, but not in where their records
    /// are, have the same records.
    pub proof fn lemma_same_records(self, other: HeapPage)
        requires
            self.wf(),
            forall|i: int|
                HEAP_HEADER_SIZE <= i < HEAP_PAGE_SIZE ==> self.data@[i] == other.data@[i],
            other.hdr().free_start == self.hdr().free_start,
            other.hdr().free_end == self.hdr().free_end,
        ensures
            other.wf(),
            other.records() == self.records(),
    {
        let d = self.data@;
        let e = other.data@;
        assert forall|i: int| 0 <= i < self.count() implies #[trigger] heap_slot(e, i) == heap_slot(
            d,
            i,
        ) by {
            bytes::lemma_u16_eq(e, HEAP_HEADER_SIZE + i * 4, d, HEAP_HEADER_SIZE + i * 4);
            bytes::lemma_u16_eq(e, HEAP_HEADER_SIZE + i * 4 + 2, d, HEAP_HEADER_SIZE + i * 4 + 2);
        }
        assert forall|i: int| 0 <= i < self.count() implies other.records()[i] == self.records()[i] by {
            let p = heap_slot(d, i);
            assert(heap_slot(e, i) == p);
            assert(record_at(e, p) =~= record_at(d, p));
        }
        assert(other.records() =~= self.records());
    }

    /// A page with the given header and no records.
    pub fn empty(h: &HeapHeader) -> (p: HeapPage)
        requires
            h.free_start == HEAP_HEADER_SIZE,
            h.free_end == HEAP_PAGE_SIZE,
        ensures
            p.wf(),
            p.hdr() == *h,
            p.records() == Seq::<Seq<u8>>::empty(),
    {
        let mut p = HeapPage { data: [0u8; HEAP_PAGE_SIZE] };
        p.write_header(h);
        assert(p.records() =~= Seq::<Seq<u8>>::empty());
        p
    }

    /// Adds a record behind the others.
    pub fn add_cell(&mut self, data: Vec<u8>) -> (r: Result<(), StorageError>)
        requires
            old(self).range_ok(),
        ensures
            final(self).range_ok(),
            if data@.len() + SLOT_SIZE <= old(self).room() {
                &&& r is Ok
                &&& old(self).has_more(data@, *final(self))
            } else {
                &&& r == Err::<(), _>(StorageError::HeapPageOverflow)
                &&& *final(self) == *old(self)
            },
            old(self).wf() ==> final(self).wf(),
            old(self).wf() && r is Ok ==> final(self).records() == old(self).records().push(
                data@,
            ),
    {
        let ghost d0 = self.data@;
        let d_len: usize = data.len();
        let mut h = match self.header() {
            Ok(h) => h,
            Err(e) => return Err(e),
        };
        let ghost n = self.count();
        let end: usize = h.free_end as usize;
        let c_start: usize = h.free_start as usize;
        if end < d_len || end - d_len < c_start + SLOT_SIZE {
            return Err(StorageError::HeapPageOverflow);
        }
        let start: usize = end - d_len;
        bytes::put_bytes(&mut self.data, start, data.as_slice());
        let ghost d1 = self.data@;
        bytes::put_u16(&mut self.data, c_start, start as u16);
        let ghost d2 = self.data@;
        bytes::put_u16(&mut self.data, c_start + 2, d_len as u16);
        let ghost d3 = self.data@;
        h.free_start = h.free_start + 4;
        h.free_end = start as u16;
        self.write_header(&h);
        proof {
            let d = self.data@;
            lemma_auto_spec_u16_to_from_le_bytes();
            assert(forall|k: int| HEAP_HEADER_SIZE <= k < c_start ==> d[k] == d0[k]);
            assert(forall|k: int| end <= k < HEAP_PAGE_SIZE ==> d[k] == d0[k]);
            assert(forall|k: int| start <= k < end ==> d[k] == data@[k - start]);
            assert(bytes::u16_at(d, c_start as int) == start) by {
                bytes::lemma_u16_eq(d, c_start as int, d2, c_start as int);
            }
            assert(bytes::u16_at(d, c_start + 2) == d_len) by {
                bytes::lemma_u16_eq(d, c_start + 2, d3, c_start + 2);
            }
            assert(d.subrange(start as int, end as int) =~= data@);
            if old(self).wf() {
                assert(self.count() == n + 1);
                assert forall|i: int| 0 <= i < n implies #[trigger] heap_slot(d, i) == heap_slot(
                    d0,
                    i,
                ) by {
                    bytes::lemma_u16_eq(d, HEAP_HEADER_SIZE + i * 4, d0, HEAP_HEADER_SIZE + i * 4);
                    bytes::lemma_u16_eq(
                        d,
                        HEAP_HEADER_SIZE + i * 4 + 2,
                        d0,
                        HEAP_HEADER_SIZE + i * 4 + 2,
                    );
                }
                let old_records = old(self).records();
                assert forall|i: int| 0 <= i < n + 1 implies self.records()[i] == old_records.push(
                    data@,
                )[i] by {
                    let p = heap_slot(d, i);
                    if i < n {
                        assert(p == heap_slot(d0, i));
                        assert(record_at(d, p) =~= record_at(d0, p));
                    } else {
                        assert(record_at(d, p) =~= data@);
                    }
                }
                assert(self.records() =~= old_records.push(data@));
            }
        }
        Ok(())
    }

    /// Adds records one after the other, up to the first that does not fit.
    pub fn add_records(&mut self, data_records: Vec<Vec<u8>>) -> (r: Result<(), StorageError>)
        requires
            old(self).range_ok(),
        ensures
            final(self).range_ok(),
            ({
                let new = contents(data_records@);
                if new.len() == 0 || records_room(new) <= old(self).room() {
                    &&& r is Ok
                    &&& old(self).has_records(new, *final(self))
                } else {
                    &&& r == Err::<(), _>(StorageError::HeapPageOverflow)
                    &&& exists|k: int|
                        #![trigger new.take(k)]
                        {
                            &&& 0 <= k < new.len()
                            &&& records_room(new.take(k + 1)) > old(self).room()
                            &&& k == 0 || records_room(new.take(k)) <= old(self).room()
                            &&& old(self).has_records(new.take(k), *final(self))
                        }
                }
            }),
    {
        let ghost new = contents(data_records@);
        let ghost mut i: int = 0;
        assert(new.take(0) =~= Seq::<Seq<u8>>::empty());
        assert(self.records() + new.take(0) =~= self.records());
        for record in it: data_records
            invariant
                i == it.index(),
                it.seq() == data_records@,
                new == contents(data_records@),
                0 <= i <= new.len(),
                old(self).range_ok(),
                self.range_ok(),
                i == 0 || records_room(new.take(i)) <= old(self).room(),
                old(self).has_records(new.take(i), *self),
        {
            proof {
                assert(new.take(i + 1).drop_last() =~= new.take(i));
                assert(new.take(i + 1).last() == record@);
                lemma_room_monotone(new, i + 1);
                lemma_room_slots(new.take(i));
            }
            let ghost before = *self;
            match self.add_cell(record) {
                Ok(_) => {},
                Err(e) => {
                    assert(old(self).has_records(new.take(i), *self));
                    return Err(e);
                },
            }
            proof {
                assert((old(self).records() + new.take(i)).push(record@) =~= old(self).records()
                    + new.take(i + 1));
                assert(before.has_more(record@, *self));
                assert(old(self).has_records(new.take(i + 1), *self));
                i = i + 1;
            }
        }
        assert(new.take(new.len() as int) =~= new);
        Ok(())
    }
}

/// Records take up room for their slots at least.
proof fn lemma_room_slots(records: Seq<Seq<u8>>)
    ensures
        records_room(records) >= SLOT_SIZE * records.len(),
    decreases records.len(),
{
    if records.len() > 0 {
        lemma_room_slots(records.drop_last());
    }
}

/// A prefix takes up no more room than the whole.
pub proof fn lemma_room_monotone(records: Seq<Seq<u8>>, k: int)
    requires
        0 <= k <= records.len(),
    ensures
        0 <= records_room(records.take(k)) <= records_room(records),
    decreases records.len(),
{
    if k == records.len() {
        assert(records.take(k) =~= records);
        if k > 0 {
            lemma_room_monotone(records.drop_last(), records.len() - 1);
            assert(records.drop_last().take(records.len() - 1) =~= records.drop_last());
        }
    } else {
        lemma_room_monotone(records.drop_last(), k);
        assert(records.drop_last().take(k) =~= records.take(k));
    }
}

} // verus!
