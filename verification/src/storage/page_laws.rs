//! Laws of index pages and heap pages: which cells and records they hold, and where.

use super::bytes;
use super::error::StorageError;
use super::header::PageKind;
use super::slotted_page;
use super::slotted_page::{Cell, HeapPage, HeapPointer, Node, Page, ORDER};
use vstd::prelude::*;

verus! {

/// A cell that is added stands among the others in key order, and the others stay.
pub proof fn lemma_cell_added(cells: Seq<(u64, u64)>, key: u64, value: u64)
    requires
        slotted_page::sorted(cells),
        forall|i: int| 0 <= i < cells.len() ==> (#[trigger] cells[i]).0 != key,
    ensures
        ({
            let more = slotted_page::with_cell(cells, key, value);
            &&& more.len() == cells.len() + 1
            &&& forall|i: int, j: int|
                0 <= i < j < more.len() ==> (#[trigger] more[i]).0 < (#[trigger] more[j]).0
            &&& forall|c: (u64, u64)| #[trigger]
                more.contains(c) <==> cells.contains(c) || c == (key, value)
        }),
{
    let more = slotted_page::with_cell(cells, key, value);
    let p = slotted_page::rank(cells, key);
    slotted_page::lemma_rank(cells, key);
    slotted_page::lemma_with_cell_sorted(cells, key, value);
    assert(slotted_page::sorted(more));
    assert forall|c: (u64, u64)| #[trigger]
        more.contains(c) <==> cells.contains(c) || c == (key, value) by {
        if more.contains(c) {
            let i = choose|i: int| 0 <= i < more.len() && more[i] == c;
            if i < p {
                assert(cells[i] == c);
            } else if i > p {
                assert(cells[i - 1] == c);
            }
        }
        if cells.contains(c) {
            let i = choose|i: int| 0 <= i < cells.len() && cells[i] == c;
            if i < p {
                assert(more[i] == c);
            } else {
                assert(more[i + 1] == c);
            }
        }
        assert(more[p] == (key, value));
    }
}

/// Adding a cell: a page takes 203 cells, and no key twice.
pub proof fn lemma_pair_added(cells: Seq<(u64, u64)>, key: u64, value: u64)
    ensures
        ({
            let r = slotted_page::add_pair(cells, key, value);
            let there = exists|i: int| 0 <= i < cells.len() && (#[trigger] cells[i]).0 == key;
            &&& r is Ok <==> cells.len() < 203 && !there
            &&& r == Err::<Seq<(u64, u64)>, StorageError>(StorageError::PageOverflow)
                <==> cells.len() >= 203
            &&& r == Err::<Seq<(u64, u64)>, StorageError>(StorageError::DuplicateKey)
                <==> cells.len() < 203 && there
            &&& r matches Ok(more) ==> more == slotted_page::with_cell(cells, key, value)
        }),
{
}

/// A cell of a leaf leads to the heap and a cell of another page to a page below it, each
/// with its key.
pub proof fn lemma_cell(pair: (u64, u64))
    ensures
        slotted_page::cell_of(true, pair) == (Cell {
            key: pair.0,
            c_ptr: None,
            h_ptr: Some(HeapPointer { index: pair.1 }),
        }),
        slotted_page::cell_of(false, pair) == (Cell { key: pair.0, c_ptr: Some(pair.1),
            h_ptr: None }),
        slotted_page::pair_of(true, slotted_page::cell_of(true, pair)) == Ok::<
            (u64, u64),
            StorageError,
        >(pair),
        slotted_page::pair_of(false, slotted_page::cell_of(false, pair)) == Ok::<
            (u64, u64),
            StorageError,
        >(pair),
{
}

/// Which pair is stored for a cell: its key and the pointer that is asked for, which the
/// cell must have.
pub proof fn lemma_pair(c: Cell, p: (u64, u64))
    ensures
        slotted_page::pair_of(true, c) == Ok::<(u64, u64), StorageError>(p) <==> c.key == p.0
            && c.h_ptr == Some(HeapPointer { index: p.1 }),
        slotted_page::pair_of(false, c) == Ok::<(u64, u64), StorageError>(p) <==> c.key == p.0
            && c.c_ptr == Some(p.1),
        slotted_page::pair_of(true, c) == Err::<(u64, u64), StorageError>(
            StorageError::MissingHeapPointer,
        ) <==> c.h_ptr is None,
        slotted_page::pair_of(false, c) == Err::<(u64, u64), StorageError>(
            StorageError::MissingChildPointer,
        ) <==> c.c_ptr is None,
{
}

/// A page that is built from cells holds the pair of each of them and no others, in key
/// order.
pub proof fn lemma_built(heap: bool, cells: Seq<Cell>, pairs: Seq<(u64, u64)>)
    requires
        slotted_page::build(heap, cells) == Ok::<Seq<(u64, u64)>, StorageError>(pairs),
    ensures
        pairs.len() == cells.len(),
        pairs.len() <= 203,
        slotted_page::sorted(pairs),
        forall|i: int|
            0 <= i < cells.len() ==> (slotted_page::pair_of(heap, #[trigger] cells[i]) matches Ok(
                p,
            ) && pairs.contains(p)),
    decreases cells.len(),
{
    if cells.len() > 0 {
        let init = cells.drop_last();
        let n = init.len() as int;
        let before = slotted_page::build(heap, init)->Ok_0;
        lemma_built(heap, init, before);
        let pair = slotted_page::pair_of(heap, cells[n])->Ok_0;
        assert forall|i: int| 0 <= i < before.len() implies (#[trigger] before[i]).0 != pair.0 by {}
        lemma_cell_added(before, pair.0, pair.1);
        assert forall|i: int| 0 <= i < cells.len() implies (slotted_page::pair_of(
            heap,
            #[trigger] cells[i],
        ) matches Ok(p) && pairs.contains(p)) by {
            if i < n {
                assert(init[i] == cells[i]);
                assert(before.contains(slotted_page::pair_of(heap, init[i])->Ok_0));
            } else {
                assert(pairs.contains(pair));
            }
        }
    }
}

/// Cells that have the pointers that are asked for, and no key twice, make a page if
/// there are not more than 203.
pub proof fn lemma_buildable(heap: bool, cells: Seq<Cell>)
    requires
        cells.len() <= 203,
        forall|i: int|
            0 <= i < cells.len() ==> if heap {
                (#[trigger] cells[i]).h_ptr is Some
            } else {
                cells[i].c_ptr is Some
            },
        forall|i: int, j: int|
            0 <= i < j < cells.len() ==> (#[trigger] cells[i]).key != (#[trigger] cells[j]).key,
    ensures
        slotted_page::build(heap, cells) is Ok,
    decreases cells.len(),
{
    if cells.len() > 0 {
        let init = cells.drop_last();
        let n = init.len() as int;
        assert forall|i: int| 0 <= i < init.len() implies if heap {
            (#[trigger] init[i]).h_ptr is Some
        } else {
            init[i].c_ptr is Some
        } by {
            assert(init[i] == cells[i]);
        }
        assert forall|i: int, j: int| 0 <= i < j < init.len() implies (
        #[trigger] init[i]).key != (#[trigger] init[j]).key by {
            assert(init[i] == cells[i] && init[j] == cells[j]);
        }
        lemma_buildable(heap, init);
        let before = slotted_page::build(heap, init)->Ok_0;
        lemma_built(heap, init, before);
        let key = cells[n].key;
        assert forall|i: int| 0 <= i < before.len() implies (#[trigger] before[i]).0 != key by {
            let j = lemma_built_key(heap, init, before, i);
            assert(init[j] == cells[j]);
            assert(cells[j].key != cells[n].key);
        }
        assert(if heap {
            cells[n].h_ptr is Some
        } else {
            cells[n].c_ptr is Some
        });
    }
}

proof fn lemma_built_key(
    heap: bool,
    cells: Seq<Cell>,
    pairs: Seq<(u64, u64)>,
    i: int,
) -> (j: int)
    requires
        slotted_page::build(heap, cells) == Ok::<Seq<(u64, u64)>, StorageError>(pairs),
        0 <= i < pairs.len(),
    ensures
        0 <= j < cells.len(),
        cells[j].key == pairs[i].0,
    decreases cells.len(),
{
    if cells.len() == 0 {
        0
    } else {
        let init = cells.drop_last();
        let n = init.len() as int;
        let before = slotted_page::build(heap, init)->Ok_0;
        let pair = slotted_page::pair_of(heap, cells[n])->Ok_0;
        lemma_built(heap, init, before);
        assert forall|k: int| 0 <= k < before.len() implies (#[trigger] before[k]).0 != pair.0 by {}
        lemma_cell_added(before, pair.0, pair.1);
        assert(pairs.contains(pairs[i]));
        if pairs[i] == pair {
            n
        } else {
            let k = choose|k: int| 0 <= k < before.len() && before[k] == pairs[i];
            let j = lemma_built_key(heap, init, before, k);
            assert(init[j] == cells[j]);
            j
        }
    }
}

/// A page that is built again as what it was stays a leaf where it was one: a root that
/// is a leaf has the first bit of its flags set, and no other page has it.
pub proof fn lemma_rebuilt(p: Page)
    requires
        p.has_header(),
    ensures
        p.rebuilt_flags() == 1 <==> p@.kind is Root && p@.flags % 2 == 1,
        p.rebuilt_flags() == 0 <==> !(p@.kind is Root && p@.flags % 2 == 1),
        p.rebuilt_leaf_level(PageKind::Leaf),
        !p.rebuilt_leaf_level(PageKind::Internal),
        p.rebuilt_leaf_level(PageKind::Root) <==> p@.kind is Root && p@.flags % 2 == 1,
        p@.leaf_level() ==> p.rebuilt_leaf_level(p@.kind),
        p.rebuilt_leaf_level(p@.kind) ==> p@.leaf_level(),
{
    let f = p@.flags;
    assert(f & 0x01 == f % 2) by (bit_vector);
}

/// Where a heap page keeps its records: record `i` is found through the four bytes behind
/// the header and the slots before it, which say where it starts and how long it is.
pub proof fn lemma_heap_record(p: HeapPage, i: int)
    requires
        p.wf(),
        0 <= i < p.records().len(),
    ensures
        ({
            let at = bytes::u16_at(p.data@, 21 + 4 * i) as int;
            let n = bytes::u16_at(p.data@, 21 + 4 * i + 2) as int;
            p.records()[i] == p.data@.subrange(at, at + n)
        }),
        p.hdr().free_start == 21 + 4 * p.records().len(),
        p.room() == p.hdr().free_end - p.hdr().free_start,
{
}

/// A node is a leaf if its kind says so, or if it is the root and the first bit of its
/// flags is set.
pub proof fn lemma_leaf_level(n: Node)
    ensures
        n.leaf_level() <==> n.kind is Leaf || (n.kind is Root && n.flags % 2 == 1),
{
    let f = n.flags;
    assert(f & 0x01 == f % 2) by (bit_vector);
}

/// A page is full with 203 cells: so many cells of 16 bytes, each with a slot of 4, go
/// behind a header of 22 bytes on a page of 4096, and no more.
pub proof fn lemma_order()
    ensures
        22 + 20 * ORDER <= 4096,
        22 + 20 * (ORDER + 1) > 4096,
{
}

} // verus!
