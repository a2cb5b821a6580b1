//! Laws of heap files: which pages a chain has, and how records are laid out on them.

use super::error::StorageError;
use super::heap;
use super::heap::Heap;
use super::slotted_page;
use super::slotted_page::HeapPage;
use vstd::prelude::*;

verus! {

/// Whether a page has an overflow page: the second bit of its flags.
pub open spec fn goes_on(page: HeapPage) -> bool {
    (page.hdr().flags / 2) % 2 == 1
}

proof fn lemma_goes_on(page: HeapPage)
    ensures
        page.hdr().overflow_bit() == goes_on(page),
{
    let f = page.hdr().flags;
    assert((f & 0x02 == 0x02) == ((f / 2) % 2 == 1)) by (bit_vector);
}

/// Pages that point at one another, of which the last alone has no overflow page, are
/// the chain of the first one.
pub proof fn lemma_chain(pages: Seq<HeapPage>, ids: Seq<u64>)
    requires
        0 < ids.len() <= pages.len() + 1,
        forall|i: int| 0 <= i < ids.len() ==> (#[trigger] ids[i]) < pages.len(),
        forall|i: int|
            0 <= i < ids.len() - 1 ==> goes_on(pages[(#[trigger] ids[i]) as int])
                && pages[ids[i] as int].hdr().ptr == ids[i + 1],
        !goes_on(pages[ids.last() as int]),
    ensures
        heap::ends(pages, ids[0]),
        heap::complete(pages, ids[0]),
        heap::chain(pages, ids[0]) == ids,
{
    lemma_walked(pages, ids, pages.len());
}

proof fn lemma_walked(pages: Seq<HeapPage>, ids: Seq<u64>, fuel: nat)
    requires
        0 < ids.len() <= fuel + 1,
        forall|i: int| 0 <= i < ids.len() ==> (#[trigger] ids[i]) < pages.len(),
        forall|i: int|
            0 <= i < ids.len() - 1 ==> goes_on(pages[(#[trigger] ids[i]) as int])
                && pages[ids[i] as int].hdr().ptr == ids[i + 1],
        !goes_on(pages[ids.last() as int]),
    ensures
        heap::walk(pages, ids[0], fuel) == Some((ids, true)),
    decreases ids.len(),
{
    let first = ids[0];
    lemma_goes_on(pages[first as int]);
    if ids.len() == 1 {
        assert(ids =~= seq![first]);
    } else {
        let rest = ids.skip(1);
        assert(goes_on(pages[ids[0] as int]));
        assert(rest[0] == ids[1]);
        assert forall|i: int| 0 <= i < rest.len() implies (#[trigger] rest[i]) < pages.len() by {
            assert(rest[i] == ids[i + 1]);
        }
        assert forall|i: int| 0 <= i < rest.len() - 1 implies goes_on(
            pages[(#[trigger] rest[i]) as int],
        ) && pages[rest[i] as int].hdr().ptr == rest[i + 1] by {
            assert(rest[i] == ids[i + 1]);
        }
        assert(rest.last() == ids.last());
        lemma_walked(pages, rest, (fuel - 1) as nat);
        assert(seq![first] + rest =~= ids);
    }
}

/// Pages that point at one another, of which the last points behind the file, are what
/// is found of the chain, and the chain is not complete.
pub proof fn lemma_chain_cut(pages: Seq<HeapPage>, ids: Seq<u64>)
    requires
        0 < ids.len() <= pages.len(),
        forall|i: int| 0 <= i < ids.len() ==> (#[trigger] ids[i]) < pages.len(),
        forall|i: int|
            0 <= i < ids.len() - 1 ==> goes_on(pages[(#[trigger] ids[i]) as int])
                && pages[ids[i] as int].hdr().ptr == ids[i + 1],
        goes_on(pages[ids.last() as int]),
        pages[ids.last() as int].hdr().ptr >= pages.len(),
    ensures
        heap::ends(pages, ids[0]),
        !heap::complete(pages, ids[0]),
        heap::chain(pages, ids[0]) == ids,
{
    lemma_walked_cut(pages, ids, pages.len());
}

proof fn lemma_walked_cut(pages: Seq<HeapPage>, ids: Seq<u64>, fuel: nat)
    requires
        0 < ids.len() <= fuel,
        forall|i: int| 0 <= i < ids.len() ==> (#[trigger] ids[i]) < pages.len(),
        forall|i: int|
            0 <= i < ids.len() - 1 ==> goes_on(pages[(#[trigger] ids[i]) as int])
                && pages[ids[i] as int].hdr().ptr == ids[i + 1],
        goes_on(pages[ids.last() as int]),
        pages[ids.last() as int].hdr().ptr >= pages.len(),
    ensures
        heap::walk(pages, ids[0], fuel) == Some((ids, false)),
    decreases ids.len(),
{
    let first = ids[0];
    lemma_goes_on(pages[first as int]);
    if ids.len() == 1 {
        reveal_with_fuel(heap::walk, 2);
        assert(seq![first] + Seq::empty() =~= ids);
    } else {
        let rest = ids.skip(1);
        assert(goes_on(pages[ids[0] as int]));
        assert(rest[0] == ids[1]);
        assert forall|i: int| 0 <= i < rest.len() implies (#[trigger] rest[i]) < pages.len() by {
            assert(rest[i] == ids[i + 1]);
        }
        assert forall|i: int| 0 <= i < rest.len() - 1 implies goes_on(
            pages[(#[trigger] rest[i]) as int],
        ) && pages[rest[i] as int].hdr().ptr == rest[i + 1] by {
            assert(rest[i] == ids[i + 1]);
        }
        assert(rest.last() == ids.last());
        lemma_walked_cut(pages, rest, (fuel - 1) as nat);
        assert(seq![first] + rest =~= ids);
    }
}

/// The records of a chain are those of its pages, one page after the other.
pub proof fn lemma_gathered(pages: Seq<HeapPage>, ids: Seq<u64>)
    ensures
        heap::gather(pages, ids) == ids.map_values(|x: u64| pages[x as int].records()).flatten(),
    decreases ids.len(),
{
    let f = |x: u64| pages[x as int].records();
    let all = ids.map_values(f);
    all.lemma_flatten_and_flatten_alt_are_equivalent();
    if ids.len() > 0 {
        let init = ids.drop_last();
        lemma_gathered(pages, init);
        init.map_values(f).lemma_flatten_and_flatten_alt_are_equivalent();
        assert(all.drop_last() =~= init.map_values(f));
    }
}

/// A record and its slot take up their room on a page.
pub proof fn lemma_records_room(records: Seq<Seq<u8>>, r: Seq<u8>)
    ensures
        slotted_page::records_room(Seq::empty()) == 0,
        slotted_page::records_room(records.push(r)) == slotted_page::records_room(records) + r.len()
            + 4,
{
    assert(records.push(r).drop_last() =~= records);
}

/// A record fits on a page of its own if it has at most 8167 bytes. The records are
/// taken up to the first that does not.
pub proof fn lemma_fits(records: Seq<Seq<u8>>, n: int)
    requires
        0 <= n <= records.len(),
        forall|i: int| 0 <= i < n ==> (#[trigger] records[i]).len() <= 8167,
        n < records.len() ==> records[n].len() > 8167,
    ensures
        heap::fitting(records) == n,
{
    heap::lemma_fitting(records);
    let m = heap::fitting(records);
    if m < n {
        assert(records[m].len() <= 8167);
    } else if n < m {
        assert(records[n].len() + 4 <= 8171);
    }
}

/// Records are laid out in their order, and none is left out or twice.
pub proof fn lemma_spread_all(room: int, records: Seq<Seq<u8>>)
    ensures
        heap::spread(room, records).flatten() == records,
        heap::spread(room, records).len() > 0,
    decreases records.len(),
{
    let groups = heap::spread(room, records);
    groups.lemma_flatten_and_flatten_alt_are_equivalent();
    if records.len() == 0 {
        assert(groups.drop_last() =~= Seq::empty());
        assert(groups.drop_last().flatten_alt() =~= Seq::empty());
        assert(groups.flatten_alt() =~= records);
    } else {
        let init = records.drop_last();
        let rec = records.last();
        let before = heap::spread(room, init);
        lemma_spread_all(room, init);
        before.lemma_flatten_and_flatten_alt_are_equivalent();
        if rec.len() + 8 <= heap::room_behind(room, before) {
            assert(groups.drop_last() =~= before.drop_last());
            assert(groups.last() == before.last().push(rec));
            assert(groups.flatten_alt() =~= before.flatten_alt().push(rec));
        } else {
            assert(groups.drop_last() =~= before);
            assert(groups.flatten_alt() =~= before.flatten_alt() + seq![rec]);
        }
        assert(init.push(rec) =~= records);
    }
}

/// Where the next record goes: behind the others on the last page, if its bytes, its slot
/// and one more slot fit there; else on a new page. The first page has the given room,
/// each other one 8171 bytes.
pub proof fn lemma_spread_more(room: int, records: Seq<Seq<u8>>, r: Seq<u8>)
    ensures
        heap::spread(room, Seq::empty()) == seq![Seq::<Seq<u8>>::empty()],
        ({
            let groups = heap::spread(room, records);
            let more = heap::spread(room, records.push(r));
            let size = if groups.len() == 1 {
                room
            } else {
                8171
            };
            if slotted_page::records_room(groups.last()) + r.len() + 8 <= size {
                more == groups.drop_last().push(groups.last().push(r))
            } else {
                more == groups.push(seq![r])
            }
        }),
{
    lemma_spread_all(room, records);
    let groups = heap::spread(room, records);
    let more = heap::spread(room, records.push(r));
    assert(records.push(r).drop_last() =~= records);
    if slotted_page::records_room(groups.last()) + r.len() + 8 <= (if groups.len() == 1 {
        room
    } else {
        8171
    }) {
        assert(more =~= groups.drop_last().push(groups.last().push(r)));
    }
}

/// Records that all fit are laid out; where one does not, those before it are, and an
/// empty page stays behind them.
pub proof fn lemma_laid_out(room: int, records: Seq<Seq<u8>>, n: int)
    requires
        0 <= n <= records.len(),
        forall|i: int| 0 <= i < n ==> (#[trigger] records[i]).len() <= 8167,
        n < records.len() ==> records[n].len() > 8167,
    ensures
        n == records.len() ==> heap::laid_out(room, records) == heap::spread(room, records),
        n < records.len() ==> heap::laid_out(room, records) == heap::spread(
            room,
            records.take(n),
        ).push(Seq::empty()),
        heap::laid_out(room, records).flatten() == records.take(n),
{
    lemma_fits(records, n);
    let head = records.take(n);
    lemma_spread_all(room, head);
    if n == records.len() {
        assert(head =~= records);
    } else {
        let groups = heap::spread(room, head);
        let all = groups.push(Seq::empty());
        groups.lemma_flatten_and_flatten_alt_are_equivalent();
        all.lemma_flatten_and_flatten_alt_are_equivalent();
        assert(all.drop_last() =~= groups);
        assert(all.flatten_alt() =~= groups.flatten_alt());
    }
}

/// What a chain has once groups of records were added: its records, then the new ones.
pub proof fn lemma_groups_added(
    pages: Seq<HeapPage>,
    other: Seq<HeapPage>,
    id: u64,
    groups: Seq<Seq<Seq<u8>>>,
)
    requires
        heap::complete(pages, id),
        heap::has_groups(pages, other, id, groups),
        other.len() <= u64::MAX,
        forall|i: int|
            0 <= i < heap::chain(pages, id).len() - 1 ==> other[(#[trigger] heap::chain(
                pages,
                id,
            )[i]) as int].records() == pages[heap::chain(pages, id)[i] as int].records(),
    ensures
        heap::records_of(other, id) == heap::records_of(pages, id) + groups.flatten(),
{
    heap::lemma_walk(pages, id, pages.len());
    let ids = heap::chain(pages, id);
    let n = pages.len() as int;
    lemma_added_from(pages, other, id, groups, groups.len() as int);
    let new = Seq::new((groups.len() - 1) as nat, |j: int| (n + j) as u64);
    assert(new.take(groups.len() - 1) =~= new);
    assert(groups.take(groups.len() as int) =~= groups);
}

proof fn lemma_added_from(
    pages: Seq<HeapPage>,
    other: Seq<HeapPage>,
    id: u64,
    groups: Seq<Seq<Seq<u8>>>,
    m: int,
)
    requires
        heap::complete(pages, id),
        heap::has_groups(pages, other, id, groups),
        other.len() <= u64::MAX,
        1 <= m <= groups.len(),
        forall|i: int|
            0 <= i < heap::chain(pages, id).len() - 1 ==> other[(#[trigger] heap::chain(
                pages,
                id,
            )[i]) as int].records() == pages[heap::chain(pages, id)[i] as int].records(),
    ensures
        heap::gather(
            other,
            heap::chain(pages, id) + Seq::new(
                (groups.len() - 1) as nat,
                |j: int| (pages.len() + j) as u64,
            ).take(m - 1),
        ) == heap::records_of(pages, id) + groups.take(m).flatten(),
    decreases m,
{
    let ids = heap::chain(pages, id);
    let n = pages.len() as int;
    let new = Seq::new((groups.len() - 1) as nat, |j: int| (n + j) as u64);
    heap::lemma_walk(pages, id, pages.len());
    groups.take(m).lemma_flatten_and_flatten_alt_are_equivalent();
    if m == 1 {
        assert(ids + new.take(0) =~= ids);
        let init = ids.drop_last();
        assert forall|i: int| 0 <= i < init.len() implies other[(
        #[trigger] init[i]) as int].records() == pages[init[i] as int].records() by {
            assert(ids[i] == init[i]);
        }
        lemma_gather_alike(pages, other, init);
        let g = groups.take(1);
        assert(g.drop_last() =~= Seq::empty());
        assert(g.drop_last().flatten_alt() =~= Seq::empty());
        assert(g.flatten_alt() =~= groups[0]);
        assert(heap::gather(other, ids) =~= heap::gather(pages, ids) + groups[0]);
    } else {
        lemma_added_from(pages, other, id, groups, m - 1);
        groups.take(m - 1).lemma_flatten_and_flatten_alt_are_equivalent();
        let now = ids + new.take(m - 1);
        assert(now.drop_last() =~= ids + new.take(m - 2));
        assert(now.last() == n + m - 2);
        assert(other[n + (m - 1) - 1].records() == groups[m - 1]);
        assert(groups.take(m).drop_last() =~= groups.take(m - 1));
        assert(heap::gather(other, now) =~= heap::records_of(pages, id) + groups.take(
            m,
        ).flatten_alt());
    }
}

proof fn lemma_gather_alike(pages: Seq<HeapPage>, other: Seq<HeapPage>, ids: Seq<u64>)
    requires
        forall|i: int|
            0 <= i < ids.len() ==> other[(#[trigger] ids[i]) as int].records()
                == pages[ids[i] as int].records(),
    ensures
        heap::gather(other, ids) == heap::gather(pages, ids),
    decreases ids.len(),
{
    if ids.len() > 0 {
        let init = ids.drop_last();
        assert forall|i: int| 0 <= i < init.len() implies other[(
        #[trigger] init[i]) as int].records() == pages[init[i] as int].records() by {
            assert(ids[i] == init[i]);
        }
        lemma_gather_alike(pages, other, init);
        assert(other[ids[ids.len() - 1] as int].records() == pages[ids[ids.len() - 1]
            as int].records());
    }
}

/// Reading a page of a heap file gives the page if the file has it and the pool can hold
/// a page.
pub proof fn lemma_page_fetched(h: Heap, id: u64, page: HeapPage)
    ensures
        h.fetched(id) == Ok::<HeapPage, StorageError>(page) <==> id < h@.len() && h.capacity() > 0
            && page == h@[id as int],
        h.fetched(id) == Err::<HeapPage, StorageError>(StorageError::ShortRead) <==> id >= h@.len(),
        h.fetched(id) == Err::<HeapPage, StorageError>(StorageError::PoolFull) <==> id < h@.len()
            && h.capacity() == 0,
{
}

} // verus!
