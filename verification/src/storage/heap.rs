//! The heap file behind its buffer pool.
//!
//! A leaf of the index points at a heap page, which holds the records of a
//! key. Records that do not fit go to overflow pages: each page of such a chain
//! but the last points at the next one.
//!
//! A heap page is written to its file only when the log is on disk up to the
//! LSN of the page.

use super::buffer_pool;
use super::buffer_pool::{BufferPool, FrameEntry, PoolView};
use super::bytes;
use super::error::StorageError;
use super::file::{PageFile, MAX_PAGES};
use super::header::{HeapHeader, HEAP_HEADER_SIZE, HEAP_PAGE_SIZE, SLOT_SIZE};
use super::paging;
use super::paging::FileState;
use super::slotted_page;
use super::slotted_page::{CellPointer, HeapPage};
use super::wal::{LogView, Wal};
use vstd::prelude::*;

verus! {

/// How many heap pages the pool holds.
pub const HEAP_POOL_CAPACITY: usize = 10_000;

/// A chain of pages: those from page `id` on that are in the file, and whether
/// the chain ends on a page of the file. `None` where it does not end within
/// `fuel` steps.
pub open spec fn walk(pages: Seq<HeapPage>, id: u64, fuel: nat) -> Option<(Seq<u64>, bool)>
    decreases fuel,
{
    if id >= pages.len() {
        Some((Seq::empty(), false))
    } else if !pages[id as int].hdr().overflow_bit() {
        Some((seq![id], true))
    } else if fuel == 0 {
        None
    } else {
        match walk(pages, pages[id as int].hdr().ptr, (fuel - 1) as nat) {
            None => None,
            Some((ids, complete)) => Some((seq![id] + ids, complete)),
        }
    }
}

/// The chain of overflow pages from `id` on comes to an end.
pub open spec fn ends(pages: Seq<HeapPage>, id: u64) -> bool {
    walk(pages, id, pages.len()) is Some
}

/// The page and its overflow pages.
pub open spec fn chain(pages: Seq<HeapPage>, id: u64) -> Seq<u64> {
    walk(pages, id, pages.len()).unwrap().0
}

/// No page of the chain is missing.
pub open spec fn complete(pages: Seq<HeapPage>, id: u64) -> bool {
    ends(pages, id) && walk(pages, id, pages.len()).unwrap().1
}

/// The records of some pages, one page after the other.
pub open spec fn gather(pages: Seq<HeapPage>, ids: Seq<u64>) -> Seq<Seq<u8>>
    decreases ids.len(),
{
    if ids.len() == 0 {
        Seq::empty()
    } else {
        gather(pages, ids.drop_last()) + pages[ids.last() as int].records()
    }
}

/// The records of a page and its overflow pages.
pub open spec fn records_of(pages: Seq<HeapPage>, id: u64) -> Seq<Seq<u8>> {
    gather(pages, chain(pages, id))
}

/// Every page of the chain is well-formed.
pub open spec fn sound(pages: Seq<HeapPage>, id: u64) -> bool {
    forall|i: int|
        0 <= i < chain(pages, id).len() ==> pages[(#[trigger] chain(pages, id)[i]) as int].wf()
}

/// More fuel changes nothing.
pub proof fn lemma_walk_fuel(pages: Seq<HeapPage>, id: u64, f: nat, g: nat)
    requires
        walk(pages, id, f) is Some,
        f <= g,
    ensures
        walk(pages, id, g) == walk(pages, id, f),
    decreases f,
{
    if id < pages.len() && pages[id as int].hdr().overflow_bit() {
        lemma_walk_fuel(pages, pages[id as int].hdr().ptr, (f - 1) as nat, (g - 1) as nat);
    }
}

/// What a chain consists of: pages of the file, linked to one another, and
/// only the last page of a complete chain has no overflow page.
pub proof fn lemma_walk(pages: Seq<HeapPage>, id: u64, fuel: nat)
    requires
        walk(pages, id, fuel) is Some,
    ensures
        ({
            let (ids, complete) = walk(pages, id, fuel).unwrap();
            &&& ids.len() <= fuel + 1
            &&& complete ==> ids.len() > 0
            &&& ids.len() > 0 ==> ids[0] == id
            &&& forall|i: int| 0 <= i < ids.len() ==> (#[trigger] ids[i]) < pages.len()
            &&& forall|i: int|
                0 <= i < ids.len() ==> pages[(#[trigger] ids[i]) as int].hdr().overflow_bit() == !(
                complete && i == ids.len() - 1)
        }),
    decreases fuel,
{
    if id < pages.len() && pages[id as int].hdr().overflow_bit() {
        let next = pages[id as int].hdr().ptr;
        lemma_walk(pages, next, (fuel - 1) as nat);
        let (rest, complete) = walk(pages, next, (fuel - 1) as nat).unwrap();
        let ids = seq![id] + rest;
        assert forall|i: int| 0 <= i < ids.len() implies (#[trigger] ids[i]) < pages.len()
            && pages[ids[i] as int].hdr().overflow_bit() == !(complete && i == ids.len() - 1) by {
            if i > 0 {
                assert(ids[i] == rest[i - 1]);
            }
        }
    }
}

/// Pages that agree on their links have the same chains.
pub proof fn lemma_walk_same(pages: Seq<HeapPage>, other: Seq<HeapPage>, id: u64, fuel: nat)
    requires
        pages.len() <= other.len(),
        forall|i: int|
            0 <= i < pages.len() ==> (#[trigger] other[i]).hdr().flags == pages[i].hdr().flags
                && other[i].hdr().ptr == pages[i].hdr().ptr,
        walk(pages, id, fuel) matches Some((ids, complete)) && complete,
    ensures
        walk(other, id, fuel) == walk(pages, id, fuel),
    decreases fuel,
{
    if id < pages.len() {
        assert(other[id as int].hdr().flags == pages[id as int].hdr().flags);
        if pages[id as int].hdr().overflow_bit() {
            lemma_walk_same(pages, other, pages[id as int].hdr().ptr, (fuel - 1) as nat);
        }
    }
}

/// A new page that the last page of a chain is linked to extends the chain.
pub proof fn lemma_walk_extend(
    pages: Seq<HeapPage>,
    other: Seq<HeapPage>,
    id: u64,
    fuel: nat,
)
    requires
        walk(pages, id, fuel) matches Some((ids, complete)) && complete,
        other.len() == pages.len() + 1,
        other.len() <= u64::MAX,
        !other.last().hdr().overflow_bit(),
        ({
            let tail = walk(pages, id, fuel).unwrap().0.last();
            &&& other[tail as int].hdr().overflow_bit()
            &&& other[tail as int].hdr().ptr == pages.len()
            &&& forall|i: int|
                0 <= i < pages.len() && i != tail ==> (#[trigger] other[i]).hdr().flags
                    == pages[i].hdr().flags && other[i].hdr().ptr == pages[i].hdr().ptr
        }),
    ensures
        walk(other, id, fuel + 1) == Some(
            (walk(pages, id, fuel).unwrap().0.push(pages.len() as u64), true),
        ),
    decreases fuel,
{
    lemma_walk(pages, id, fuel);
    let (ids, _) = walk(pages, id, fuel).unwrap();
    let fresh = pages.len() as u64;
    if pages[id as int].hdr().overflow_bit() {
        let next = pages[id as int].hdr().ptr;
        let rest = walk(pages, next, (fuel - 1) as nat).unwrap().0;
        lemma_walk(pages, next, (fuel - 1) as nat);
        assert(ids.last() == rest.last());
        lemma_walk_extend(pages, other, next, (fuel - 1) as nat);
        assert(other[id as int].hdr().flags == pages[id as int].hdr().flags);
        assert(seq![id] + rest.push(fresh) =~= ids.push(fresh));
    } else {
        assert(ids.last() == id);
        assert(walk(other, fresh, fuel) == Some((seq![fresh], true)));
        assert(seq![id] + seq![fresh] =~= ids.push(fresh));
    }
}

/// Pages with the same records give the same records.
pub proof fn lemma_gather_same(pages: Seq<HeapPage>, other: Seq<HeapPage>, ids: Seq<u64>)
    requires
        forall|i: int|
            0 <= i < ids.len() ==> other[(#[trigger] ids[i]) as int].records()
                == pages[ids[i] as int].records(),
    ensures
        gather(other, ids) == gather(pages, ids),
    decreases ids.len(),
{
    if ids.len() > 0 {
        assert forall|i: int| 0 <= i < ids.drop_last().len() implies other[(
        #[trigger] ids.drop_last()[i]) as int].records() == pages[ids.drop_last()[i] as int].records()
            by {
            assert(ids[i] == ids.drop_last()[i]);
        }
        lemma_gather_same(pages, other, ids.drop_last());
        assert(ids[ids.len() - 1] == ids.last());
    }
}

/// A chain stays when only a page that does not belong to it changes.
proof fn lemma_walk_apart(
    pages: Seq<HeapPage>,
    other: Seq<HeapPage>,
    changed: u64,
    id: u64,
    fuel: nat,
)
    requires
        pages.len() <= other.len(),
        forall|i: int| 0 <= i < pages.len() && i != changed ==> #[trigger] other[i] == pages[i],
        walk(pages, id, fuel) matches Some((ids, complete)) && complete && !ids.contains(changed),
    ensures
        walk(other, id, fuel) == walk(pages, id, fuel),
    decreases fuel,
{
    lemma_walk(pages, id, fuel);
    let ids = walk(pages, id, fuel).unwrap().0;
    assert(ids.contains(ids[0]));
    assert(other[id as int] == pages[id as int]);
    if pages[id as int].hdr().overflow_bit() {
        let next = pages[id as int].hdr().ptr;
        let rest = walk(pages, next, (fuel - 1) as nat).unwrap().0;
        assert(!rest.contains(changed)) by {
            if rest.contains(changed) {
                let i = choose|i: int| 0 <= i < rest.len() && rest[i] == changed;
                assert(ids[i + 1] == changed);
            }
        }
        lemma_walk_apart(pages, other, changed, next, (fuel - 1) as nat);
    }
}

/// A page, its overflow pages and their records are what they were.
pub open spec fn kept(pages: Seq<HeapPage>, other: Seq<HeapPage>, id: u64) -> bool {
    &&& complete(other, id)
    &&& chain(other, id) == chain(pages, id)
    &&& records_of(other, id) == records_of(pages, id)
    &&& sound(pages, id) ==> sound(other, id)
}

/// The records of a page and its overflow pages stay when only another page changes.
proof fn lemma_others_kept(pages: Seq<HeapPage>, other: Seq<HeapPage>, changed: u64)
    requires
        pages.len() <= other.len(),
        forall|i: int| 0 <= i < pages.len() && i != changed ==> #[trigger] other[i] == pages[i],
    ensures
        forall|q: u64|
            complete(pages, q) && !chain(pages, q).contains(changed) ==> #[trigger] kept(
                pages,
                other,
                q,
            ),
{
    assert forall|q: u64|
        complete(pages, q) && !chain(pages, q).contains(changed) implies #[trigger] kept(
        pages,
        other,
        q,
    ) by {
        lemma_walk(pages, q, pages.len());
        lemma_walk_apart(pages, other, changed, q, pages.len());
        lemma_walk_fuel(other, q, pages.len(), other.len());
        let ids = chain(pages, q);
        assert forall|i: int| 0 <= i < ids.len() implies other[(#[trigger] ids[i]) as int]
            == pages[ids[i] as int] by {
            assert(ids.contains(ids[i]));
        }
        lemma_gather_same(pages, other, ids);
        if sound(pages, q) {
            assert forall|i: int| 0 <= i < ids.len() implies other[(
            #[trigger] chain(other, q)[i]) as int].wf() by {
                assert(pages[chain(pages, q)[i] as int].wf());
            }
        }
    }
}

/// The room for records on an empty page.
pub const RECORD_ROOM: usize = 8171;

/// How many leading records fit on a page each.
pub open spec fn fitting(records: Seq<Seq<u8>>) -> int
    decreases records.len(),
{
    if records.len() == 0 {
        0
    } else if fitting(records.drop_last()) == records.len() - 1 && records.last().len() + SLOT_SIZE
        <= RECORD_ROOM {
        records.len() as int
    } else {
        fitting(records.drop_last())
    }
}

/// The room that is left behind the last of some groups of records: the first group
/// stands on a page with the given room, each other one on a page of its own.
pub open spec fn room_behind(room: int, groups: Seq<Seq<Seq<u8>>>) -> int {
    (if groups.len() == 1 {
        room
    } else {
        RECORD_ROOM as int
    }) - slotted_page::records_room(groups.last())
}

/// Groups with a record more: it goes into the last one if there is room for it and
/// another slot behind it, and starts a new one otherwise.
pub open spec fn with_record(room: int, groups: Seq<Seq<Seq<u8>>>, rec: Seq<u8>) -> Seq<
    Seq<Seq<u8>>,
> {
    if rec.len() + 2 * SLOT_SIZE <= room_behind(room, groups) {
        groups.update(groups.len() - 1, groups.last().push(rec))
    } else {
        groups.push(seq![rec])
    }
}

/// How records are laid out behind those of a page with the given room: the first
/// group goes on that page, each other one on a new page. A new page is started by a
/// record that finds no room on the last one.
pub open spec fn spread(room: int, records: Seq<Seq<u8>>) -> Seq<Seq<Seq<u8>>>
    decreases records.len(),
{
    if records.len() == 0 {
        seq![Seq::empty()]
    } else {
        with_record(room, spread(room, records.drop_last()), records.last())
    }
}

/// The same where the records end at the first that fits on no page: a new page was
/// started for it, and stays without records.
pub open spec fn laid_out(room: int, records: Seq<Seq<u8>>) -> Seq<Seq<Seq<u8>>> {
    let groups = spread(room, records.take(fitting(records)));
    if fitting(records) == records.len() {
        groups
    } else {
        groups.push(Seq::empty())
    }
}

/// The chain of a page has groups of records more: the first one on its last page, and
/// each other one on a new overflow page.
pub open spec fn has_groups(
    pages: Seq<HeapPage>,
    other: Seq<HeapPage>,
    id: u64,
    groups: Seq<Seq<Seq<u8>>>,
) -> bool {
    let n = pages.len() as int;
    let ids = chain(pages, id);
    let tail = ids.last() as int;
    &&& groups.len() > 0
    &&& other.len() == n + groups.len() - 1
    &&& chain(other, id) == ids + Seq::new((groups.len() - 1) as nat, |j: int| (n + j) as u64)
    &&& other[tail].records() == pages[tail].records() + groups[0]
    &&& forall|j: int| 0 < j < groups.len() ==> other[n + j - 1].records() == #[trigger] groups[j]
    &&& forall|i: int|
        0 <= i < n ==> (#[trigger] other[i]).hdr().primary_bit() == pages[i].hdr().primary_bit()
    &&& forall|i: int| n <= i < other.len() ==> !(#[trigger] other[i]).hdr().primary_bit()
}

/// The last page of the chain.
proof fn lemma_groups_last(
    pages: Seq<HeapPage>,
    other: Seq<HeapPage>,
    id: u64,
    groups: Seq<Seq<Seq<u8>>>,
)
    requires
        complete(pages, id),
        has_groups(pages, other, id, groups),
        other.len() <= u64::MAX,
    ensures
        chain(other, id).last() == (if groups.len() == 1 {
            chain(pages, id).last() as int
        } else {
            pages.len() + groups.len() - 2
        }),
        chain(pages, id).last() < pages.len(),
{
    lemma_walk(pages, id, pages.len());
    let ids = chain(pages, id);
    assert(ids[ids.len() - 1] == ids.last());
    if groups.len() == 1 {
        assert(chain(other, id) =~= ids);
    }
}

/// A record more in the last group.
proof fn lemma_groups_append(
    pages: Seq<HeapPage>,
    cur: Seq<HeapPage>,
    next: Seq<HeapPage>,
    id: u64,
    groups: Seq<Seq<Seq<u8>>>,
    rec: Seq<u8>,
)
    requires
        complete(pages, id),
        has_groups(pages, cur, id, groups),
        cur.len() <= u64::MAX,
        chain(next, id) == chain(cur, id),
        ({
            let last = chain(cur, id).last() as int;
            &&& next == cur.update(last, next[last])
            &&& next[last].records() == cur[last].records().push(rec)
            &&& next[last].hdr().flags == cur[last].hdr().flags
        }),
    ensures
        has_groups(
            pages,
            next,
            id,
            groups.update(groups.len() - 1, groups.last().push(rec)),
        ),
{
    lemma_groups_last(pages, cur, id, groups);
    let n = pages.len() as int;
    let last = chain(cur, id).last() as int;
    let tail = chain(pages, id).last() as int;
    let groups2 = groups.update(groups.len() - 1, groups.last().push(rec));
    assert(next[tail].records() =~= pages[tail].records() + groups2[0]);
    assert forall|j: int| 0 < j < groups2.len() implies next[n + j - 1].records()
        == #[trigger] groups2[j] by {
        assert(cur[n + j - 1].records() == groups[j]);
    }
    assert forall|i: int| 0 <= i < n implies (#[trigger] next[i]).hdr().primary_bit()
        == pages[i].hdr().primary_bit() by {
        assert(cur[i].hdr().primary_bit() == pages[i].hdr().primary_bit());
    }
    assert forall|i: int| n <= i < next.len() implies !(
    #[trigger] next[i]).hdr().primary_bit() by {
        assert(!cur[i].hdr().primary_bit());
    }
}

/// A page more without records.
proof fn lemma_groups_push(
    pages: Seq<HeapPage>,
    cur: Seq<HeapPage>,
    next: Seq<HeapPage>,
    id: u64,
    groups: Seq<Seq<Seq<u8>>>,
)
    requires
        complete(pages, id),
        has_groups(pages, cur, id, groups),
        next.len() == cur.len() + 1,
        next.len() <= u64::MAX,
        chain(next, id) == chain(cur, id).push(cur.len() as u64),
        next.last().records() == Seq::<Seq<u8>>::empty(),
        !next.last().hdr().primary_bit(),
        ({
            let last = chain(cur, id).last() as int;
            &&& forall|i: int|
                0 <= i < cur.len() && i != last ==> #[trigger] next[i] == cur[i]
            &&& next[last].records() == cur[last].records()
            &&& next[last].hdr().primary_bit() == cur[last].hdr().primary_bit()
        }),
    ensures
        has_groups(pages, next, id, groups.push(Seq::empty())),
{
    lemma_groups_last(pages, cur, id, groups);
    let n = pages.len() as int;
    let tail = chain(pages, id).last() as int;
    let groups2 = groups.push(Seq::empty());
    let ids = chain(pages, id);
    assert(chain(next, id) =~= ids + Seq::new(
        (groups2.len() - 1) as nat,
        |j: int| (n + j) as u64,
    ));
    assert(next[tail].records() == cur[tail].records());
    assert(groups2[0] == groups[0]);
    assert forall|j: int| 0 < j < groups2.len() implies next[n + j - 1].records()
        == #[trigger] groups2[j] by {
        if j < groups.len() {
            assert(cur[n + j - 1].records() == groups[j]);
        }
    }
    assert forall|i: int| 0 <= i < n implies (#[trigger] next[i]).hdr().primary_bit()
        == pages[i].hdr().primary_bit() by {
        assert(cur[i].hdr().primary_bit() == pages[i].hdr().primary_bit());
    }
    assert forall|i: int| n <= i < next.len() implies !(
    #[trigger] next[i]).hdr().primary_bit() by {
        if i < cur.len() {
            assert(!cur[i].hdr().primary_bit());
        }
    }
}

/// The room of records and one more.
proof fn lemma_group_room(records: Seq<Seq<u8>>, rec: Seq<u8>)
    ensures
        slotted_page::records_room(records.push(rec)) == slotted_page::records_room(records)
            + rec.len() + SLOT_SIZE,
{
    assert(records.push(rec).drop_last() =~= records);
}

/// The chains of the primary pages are complete and well-formed, and share no page.
pub open spec fn apart(pages: Seq<HeapPage>) -> bool {
    &&& forall|p: u64|
        p < pages.len() && #[trigger] pages[p as int].hdr().primary_bit() ==> complete(pages, p)
            && sound(pages, p)
    &&& forall|p: u64, q: u64, x: u64|
        p < pages.len() && q < pages.len() && p != q && pages[p as int].hdr().primary_bit()
            && pages[q as int].hdr().primary_bit() && #[trigger] chain(pages, p).contains(x)
            ==> !#[trigger] chain(pages, q).contains(x)
}

/// Records more on the chain of a primary page leave the chains apart, and the other
/// chains as they are.
pub proof fn lemma_apart_grown(
    pages: Seq<HeapPage>,
    other: Seq<HeapPage>,
    id: u64,
    groups: Seq<Seq<Seq<u8>>>,
)
    requires
        apart(pages),
        id < pages.len(),
        pages[id as int].hdr().primary_bit(),
        other.len() <= u64::MAX,
        has_groups(pages, other, id, groups),
        complete(other, id),
        sound(other, id),
        forall|i: int|
            0 <= i < pages.len() && i != chain(pages, id).last() ==> #[trigger] other[i]
                == pages[i],
    ensures
        apart(other),
        forall|q: u64|
            q < pages.len() && q != id && pages[q as int].hdr().primary_bit() ==> #[trigger] kept(
                pages,
                other,
                q,
            ),
{
    let n = pages.len() as int;
    let ids = chain(pages, id);
    let tail = ids.last();
    assert(complete(pages, id));
    lemma_walk(pages, id, pages.len());
    lemma_others_kept(pages, other, tail);
    assert(ids.contains(tail)) by {
        assert(ids[ids.len() - 1] == tail);
    }
    assert forall|q: u64|
        q < pages.len() && q != id && pages[q as int].hdr().primary_bit() implies #[trigger] kept(
        pages,
        other,
        q,
    ) by {
        assert(complete(pages, q));
        assert(chain(pages, id).contains(tail));
        assert(!chain(pages, q).contains(tail));
    }
    assert forall|p: u64|
        p < other.len() && #[trigger] other[p as int].hdr().primary_bit() implies complete(
        other,
        p,
    ) && sound(other, p) by {
        assert(p < n);
        assert(pages[p as int].hdr().primary_bit());
        if p != id {
            assert(kept(pages, other, p));
        }
    }
    assert forall|p: u64, q: u64, x: u64|
        p < other.len() && q < other.len() && p != q && other[p as int].hdr().primary_bit()
            && other[q as int].hdr().primary_bit() && #[trigger] chain(other, p).contains(
            x,
        ) implies !#[trigger] chain(other, q).contains(x) by {
        assert(p < n && q < n);
        assert(pages[p as int].hdr().primary_bit() && pages[q as int].hdr().primary_bit());
        lemma_grown_ids(pages, other, id, groups, p, x);
        if chain(other, q).contains(x) {
            lemma_grown_ids(pages, other, id, groups, q, x);
            if x < n {
                assert(chain(pages, p).contains(x));
                assert(chain(pages, q).contains(x));
            }
        }
    }
}

/// The pages of a chain, after records were added to one.
proof fn lemma_grown_ids(
    pages: Seq<HeapPage>,
    other: Seq<HeapPage>,
    id: u64,
    groups: Seq<Seq<Seq<u8>>>,
    p: u64,
    x: u64,
)
    requires
        has_groups(pages, other, id, groups),
        complete(pages, p),
        other.len() <= u64::MAX,
        p == id || kept(pages, other, p),
        chain(other, p).contains(x),
    ensures
        x < pages.len() ==> chain(pages, p).contains(x),
        x >= pages.len() ==> p == id,
{
    lemma_walk(pages, p, pages.len());
    let i = choose|i: int| 0 <= i < chain(other, p).len() && chain(other, p)[i] == x;
    if p == id {
        let ids = chain(pages, id);
        if i < ids.len() {
            assert(ids[i] == x);
        }
    } else {
        assert(chain(pages, p)[i] == x);
    }
}

/// A new primary page without records leaves the chains apart and as they are.
pub proof fn lemma_apart_allocated(pages: Seq<HeapPage>, other: Seq<HeapPage>)
    requires
        apart(pages),
        other.len() == pages.len() + 1,
        other.len() <= u64::MAX,
        other.drop_last() == pages,
        other.last().wf(),
        !other.last().hdr().overflow_bit(),
    ensures
        apart(other),
        forall|q: u64|
            q < pages.len() && pages[q as int].hdr().primary_bit() ==> #[trigger] kept(
                pages,
                other,
                q,
            ),
{
    let n = pages.len() as u64;
    assert forall|i: int| 0 <= i < pages.len() && i != n implies #[trigger] other[i] == pages[i] by {
        assert(other.drop_last()[i] == other[i]);
    }
    lemma_others_kept(pages, other, n);
    assert forall|q: u64|
        q < pages.len() && pages[q as int].hdr().primary_bit() implies #[trigger] kept(
        pages,
        other,
        q,
    ) && !chain(other, q).contains(n) by {
        assert(complete(pages, q));
        lemma_walk(pages, q, pages.len());
        assert(!chain(pages, q).contains(n));
    }
    assert(chain(other, n) =~= seq![n]);
    assert forall|p: u64|
        p < other.len() && #[trigger] other[p as int].hdr().primary_bit() implies complete(
        other,
        p,
    ) && sound(other, p) by {
        if p != n {
            assert(other[p as int] == pages[p as int]);
            assert(pages[p as int].hdr().primary_bit());
            assert(kept(pages, other, p));
        } else {
            assert(other[n as int] == other.last());
        }
    }
    assert forall|p: u64, q: u64, x: u64|
        p < other.len() && q < other.len() && p != q && other[p as int].hdr().primary_bit()
            && other[q as int].hdr().primary_bit() && #[trigger] chain(other, p).contains(
            x,
        ) implies !#[trigger] chain(other, q).contains(x) by {
        if p != n {
            assert(other[p as int] == pages[p as int]);
            assert(kept(pages, other, p));
        }
        if q != n {
            assert(other[q as int] == pages[q as int]);
            assert(kept(pages, other, q));
        }
        if p != n && q != n {
            assert(chain(pages, p).contains(x));
        } else if p == n {
            assert(x == n);
        }
    }
}

/// The leading records fit, and the one behind them does not.
pub proof fn lemma_fitting(records: Seq<Seq<u8>>)
    ensures
        0 <= fitting(records) <= records.len(),
        forall|i: int|
            0 <= i < fitting(records) ==> (#[trigger] records[i]).len() + SLOT_SIZE <= RECORD_ROOM,
        fitting(records) < records.len() ==> records[fitting(records)].len() + SLOT_SIZE
            > RECORD_ROOM,
    decreases records.len(),
{
    if records.len() > 0 {
        let rest = records.drop_last();
        lemma_fitting(rest);
        assert forall|i: int| 0 <= i < fitting(records) implies (#[trigger] records[i]).len()
            + SLOT_SIZE <= RECORD_ROOM by {
            if i < rest.len() {
                assert(rest[i] == records[i]);
            }
        }
        if fitting(rest) < rest.len() {
            assert(rest[fitting(rest)] == records[fitting(rest)]);
        }
    }
}

/// A place where all records before fit and the one there does not.
proof fn lemma_fitting_unique(records: Seq<Seq<u8>>, k: int)
    requires
        0 <= k <= records.len(),
        forall|i: int| 0 <= i < k ==> (#[trigger] records[i]).len() + SLOT_SIZE <= RECORD_ROOM,
        k < records.len() ==> records[k].len() + SLOT_SIZE > RECORD_ROOM,
    ensures
        fitting(records) == k,
{
    lemma_fitting(records);
    let f = fitting(records);
    if f < k {
        assert(records[f].len() + SLOT_SIZE <= RECORD_ROOM);
    }
    if k < f {
        assert(records[k].len() + SLOT_SIZE <= RECORD_ROOM);
    }
}

/// A record that is added to the last page of a chain is the last record of
/// the chain.
proof fn lemma_chain_append(pages: Seq<HeapPage>, id: u64, page: HeapPage, rec: Seq<u8>)
    requires
        complete(pages, id),
        ({
            let tail = chain(pages, id).last();
            &&& page.records() == pages[tail as int].records().push(rec)
            &&& page.hdr().flags == pages[tail as int].hdr().flags
            &&& page.hdr().ptr == pages[tail as int].hdr().ptr
        }),
    ensures
        ({
            let tail = chain(pages, id).last();
            let other = pages.update(tail as int, page);
            &&& complete(other, id)
            &&& chain(other, id) == chain(pages, id)
            &&& records_of(other, id) == records_of(pages, id).push(rec)
        }),
{
    let ids = chain(pages, id);
    let tail = ids.last();
    let other = pages.update(tail as int, page);
    lemma_walk(pages, id, pages.len());
    lemma_walk_same(pages, other, id, pages.len());
    assert(ids[ids.len() - 1] == tail);
    let front = ids.drop_last();
    assert forall|i: int| 0 <= i < front.len() implies other[(
    #[trigger] front[i]) as int].records() == pages[front[i] as int].records() by {
        assert(ids[i] == front[i]);
        assert(pages[ids[i] as int].hdr().overflow_bit());
        assert(!pages[ids[ids.len() - 1] as int].hdr().overflow_bit());
    }
    lemma_gather_same(pages, other, front);
    assert(records_of(other, id) =~= records_of(pages, id).push(rec));
}

/// A new page without records at the end of a chain adds no records.
proof fn lemma_chain_link(pages: Seq<HeapPage>, other: Seq<HeapPage>, id: u64)
    requires
        complete(pages, id),
        other.len() == pages.len() + 1,
        other.len() <= u64::MAX,
        !other.last().hdr().overflow_bit(),
        other.last().records() == Seq::<Seq<u8>>::empty(),
        ({
            let tail = chain(pages, id).last();
            &&& other[tail as int].hdr().overflow_bit()
            &&& other[tail as int].hdr().ptr == pages.len()
            &&& other[tail as int].records() == pages[tail as int].records()
            &&& forall|i: int|
                0 <= i < pages.len() && i != tail ==> #[trigger] other[i] == pages[i]
        }),
    ensures
        complete(other, id),
        chain(other, id) == chain(pages, id).push(pages.len() as u64),
        records_of(other, id) == records_of(pages, id),
{
    let ids = chain(pages, id);
    let fresh = pages.len() as u64;
    lemma_walk(pages, id, pages.len());
    lemma_walk_extend(pages, other, id, pages.len());
    assert(chain(other, id) == ids.push(fresh));
    assert forall|i: int| 0 <= i < ids.len() implies other[(#[trigger] ids[i]) as int].records()
        == pages[ids[i] as int].records() by {}
    lemma_gather_same(pages, other, ids);
    assert(ids.push(fresh).drop_last() =~= ids);
    assert(records_of(other, id) =~= records_of(pages, id));
}

/// The records of a page come before those of its overflow pages.
proof fn lemma_gather_front(pages: Seq<HeapPage>, id: u64, rest: Seq<u64>)
    ensures
        gather(pages, seq![id] + rest) == pages[id as int].records() + gather(pages, rest),
    decreases rest.len(),
{
    let ids = seq![id] + rest;
    if rest.len() == 0 {
        assert(ids.drop_last() =~= Seq::empty());
        assert(gather(pages, ids.drop_last()) == Seq::<Seq<u8>>::empty());
        assert(gather(pages, ids) =~= pages[id as int].records() + gather(pages, rest));
    } else {
        assert(ids.drop_last() =~= seq![id] + rest.drop_last());
        lemma_gather_front(pages, id, rest.drop_last());
        assert(gather(pages, ids) =~= pages[id as int].records() + gather(pages, rest));
    }
}

/// A copy of a page is that page.
proof fn lemma_copied(a: HeapPage, b: HeapPage)
    requires
        cloned(a, b),
    ensures
        a == b,
{
}

/// The bytes of an empty page.
pub open spec fn no_data() -> [u8; HEAP_PAGE_SIZE] {
    [0u8; HEAP_PAGE_SIZE]
}

/// The heap file: its view is the sequence of its pages as they are now,
/// whether in the pool or in the file.
pub struct Heap {
    heap_file: PageFile<HeapPage>,
    pool: BufferPool<HeapPage>,
    next_id: u64,
}

impl View for Heap {
    type V = Seq<HeapPage>;

    closed spec fn view(&self) -> Seq<HeapPage> {
        paging::current(self.heap_file@, self.pool@)
    }
}

impl Heap {
    spec fn pinned(self, pin: Option<u64>) -> bool {
        &&& paging::in_step(self.heap_file@, self.pool@)
        &&& self.next_id == self.heap_file@.len()
        &&& forall|id: u64| #[trigger]
            self.pool@.frames.contains_key(id) ==> self.pool@.frames[id].pin_count == (if pin
                == Some(id) {
                1u32
            } else {
                0u32
            })
        &&& pin matches Some(id) ==> self.pool@.frames.contains_key(id)
    }

    /// The invariant of the heap file.
    pub closed spec fn wf(self) -> bool {
        self.pinned(None)
    }

    /// The invariant while page `id` is being changed.
    pub closed spec fn held(self, id: u64) -> bool {
        self.pinned(Some(id)) && self.pool@.dirty.contains(id)
    }

    /// How many pages the pool may hold.
    pub open spec fn capacity(self) -> nat {
        self.pool_view().max_frames
    }

    /// The pages of the file on disk.
    pub closed spec fn stored(self) -> Seq<HeapPage> {
        self.heap_file@
    }

    /// The ids of the pages that were written to the file and not taken yet.
    pub closed spec fn written(self) -> Seq<u64> {
        self.heap_file.written()
    }

    /// The ids of the pages that differ from the file or may do so.
    pub open spec fn dirty(self) -> Set<u64> {
        self.pool_view().dirty
    }

    /// Whether the page is in the pool.
    pub open spec fn resident(self, id: u64) -> bool {
        self.pool_view().frames.contains_key(id)
    }

    /// The state of the pool.
    pub closed spec fn pool_view(self) -> PoolView<HeapPage> {
        self.pool@
    }

    /// The state of the heap file with its pool and the log.
    pub open spec fn state(self, wal: Wal) -> FileState<HeapPage> {
        FileState {
            pool: self.pool_view(),
            stored: self.stored(),
            written: self.written(),
            log: wal@,
        }
    }

    /// The LSN of the last log record that changed the page, or 0.
    pub open spec fn lsn_of(self, id: u64) -> u64 {
        if self.resident(id) {
            self.pool_view().frames[id].page_lsn
        } else {
            0
        }
    }

    /// The LSN of the first log record since the page was clean, if there is one.
    pub open spec fn rec_lsn_of(self, id: u64) -> Option<u64> {
        if self.resident(id) {
            self.pool_view().frames[id].rec_lsn
        } else {
            None
        }
    }

    /// The log comes first: a dirty page stays dirty, under the same LSN, until the
    /// log is on disk up to that LSN.
    pub open spec fn log_first(self, next: Heap, wal: Wal) -> bool {
        forall|id: u64| #[trigger]
            self.dirty().contains(id) ==> {
                ||| next.dirty().contains(id) && next.lsn_of(id) == self.lsn_of(id)
                ||| wal@.covers(self.lsn_of(id))
            }
    }

    /// Steps in which the log comes first make up such a step.
    proof fn lemma_log_first(self, mid: Heap, next: Heap, wal1: Wal, wal2: Wal)
        requires
            self.log_first(mid, wal1),
            mid.log_first(next, wal2),
            wal2@.flushes(wal1@),
        ensures
            self.log_first(next, wal2),
    {
        assert forall|id: u64| #[trigger] self.dirty().contains(id) implies ({
            ||| next.dirty().contains(id) && next.lsn_of(id) == self.lsn_of(id)
            ||| wal2@.covers(self.lsn_of(id))
        }) by {
            if mid.dirty().contains(id) && mid.lsn_of(id) == self.lsn_of(id) {
                assert(mid.dirty().contains(id));
            }
        }
    }

    /// There are not more pages than a file can have.
    pub proof fn lemma_len(self)
        requires
            self.wf(),
        ensures
            self@.len() <= MAX_PAGES,
    {
    }

    /// A page that is not dirty is in the file as it is.
    pub proof fn lemma_stored(self)
        requires
            self.wf(),
        ensures
            self.stored().len() == self@.len(),
            forall|id: u64|
                id < self@.len() && !#[trigger] self.dirty().contains(id) ==> self@[id as int]
                    == self.stored()[id as int],
    {
        assert forall|id: u64|
            id < self@.len() && !#[trigger] self.dirty().contains(id) implies self@[id as int]
            == self.stored()[id as int] by {
            if self.pool@.frames.contains_key(id) {
                assert(self.pool@.frames.contains_key(id) && !self.pool@.dirty.contains(id));
            }
        }
    }

    /// Opens a heap file.
    pub fn new(heap_file: PageFile<HeapPage>) -> (heap: Heap)
        requires
            heap_file@.len() <= MAX_PAGES,
        ensures
            heap.wf(),
            heap@ == heap_file@,
            heap.stored() == heap_file@,
            heap.dirty() == Set::<u64>::empty(),
            heap.capacity() == HEAP_POOL_CAPACITY,
    {
        Heap::new_with_capacity(heap_file, HEAP_POOL_CAPACITY)
    }

    /// Opens a heap file with a pool of that many pages.
    pub fn new_with_capacity(heap_file: PageFile<HeapPage>, capacity: usize) -> (heap: Heap)
        requires
            heap_file@.len() <= MAX_PAGES,
        ensures
            heap.wf(),
            heap@ == heap_file@,
            heap.stored() == heap_file@,
            heap.dirty() == Set::<u64>::empty(),
            heap.capacity() == capacity,
    {
        let next_id: u64 = heap_file.len();
        let heap = Heap { heap_file, pool: BufferPool::new(capacity), next_id };
        assert(heap@ =~= heap_file@);
        heap
    }

    /// The id of the next page.
    pub fn next_id(&self) -> (id: u64)
        requires
            self.wf(),
        ensures
            id == self@.len(),
            id <= MAX_PAGES,
    {
        self.next_id
    }

    /// Writes a page to the file. The log must be on disk up to its LSN.
    fn write_back(&mut self, wal: &Wal, id: u64, page: HeapPage, lsn: u64)
        requires
            id < old(self).heap_file@.len(),
            wal@.covers(lsn),
        ensures
            final(self).heap_file@ == old(self).heap_file@.update(id as int, page),
            final(self).heap_file.written() == old(self).heap_file.written().push(id),
            final(self).pool == old(self).pool,
            final(self).next_id == old(self).next_id,
    {
        self.heap_file.write(id, page);
    }

    /// Some page can leave the pool when it is full.
    proof fn lemma_can_insert(self)
        requires
            self.wf(),
            self.capacity() > 0,
        ensures
            self.pool@.can_insert(),
    {
        let frames = self.pool@.frames;
        if frames.len() >= self.pool@.max_frames {
            assert(frames.dom().len() > 0);
            let id = frames.dom().choose();
            assert(frames.dom().contains(id)) by {
                if frames.dom() =~= Set::<u64>::empty() {
                }
            }
            assert(frames.contains_key(id));
            self.pool@.lemma_victim_exists(id);
        }
    }

    /// Takes a page into the pool. A dirty page that leaves is written back,
    /// once the log is on disk up to its LSN.
    fn take_in(&mut self, wal: &mut Wal, id: u64, page: HeapPage, dirty: bool)
        requires
            old(self).wf(),
            old(wal).wf(),
            old(self).capacity() > 0,
            id < old(self)@.len(),
            !old(self).pool@.frames.contains_key(id),
            dirty || page == old(self)@[id as int],
        ensures
            final(self).wf(),
            final(wal).wf(),
            final(wal)@.flushes(old(wal)@),
            old(self).log_first(*final(self), *final(wal)),
            final(self).capacity() == old(self).capacity(),
            final(self).pool@.frames.contains_key(id),
            final(self)@ == old(self)@.update(id as int, page),
            final(self).state(*final(wal)) == old(self).state(*old(wal)).take_in(id, page, dirty),
    {
        proof {
            self.lemma_can_insert();
            paging::lemma_take_in(self.heap_file@, self.pool@, id, page, dirty);
            self.pool@.lemma_victim(0);
        }
        match self.pool.insert(id, page) {
            Ok(Some(evicted)) => {
                if evicted.was_dirty {
                    wal.flush_up_to(evicted.page_lsn);
                    self.write_back(wal, evicted.id, evicted.page, evicted.page_lsn);
                }
            },
            Ok(None) => {},
            Err(_) => {},
        }
        if dirty {
            self.pool.mark_dirty(id);
        }
        proof {
            assert forall|x: u64| #[trigger] old(self).dirty().contains(x) implies ({
                ||| self.dirty().contains(x) && self.lsn_of(x) == old(self).lsn_of(x)
                ||| wal@.covers(old(self).lsn_of(x))
            }) by {
                assert(old(self).pool@.frames.contains_key(x));
            }
        }
    }

    /// What reading a page gives.
    pub open spec fn fetched(self, id: u64) -> Result<HeapPage, StorageError> {
        if id >= self@.len() {
            Err(StorageError::ShortRead)
        } else if self.capacity() == 0 {
            Err(StorageError::PoolFull)
        } else {
            Ok(self@[id as int])
        }
    }

    /// Reads a page.
    pub fn fetch(&mut self, wal: &mut Wal, id: u64) -> (r: Result<HeapPage, StorageError>)
        requires
            old(self).wf(),
            old(wal).wf(),
        ensures
            final(self).wf(),
            final(wal).wf(),
            final(wal)@.flushes(old(wal)@),
            old(self).log_first(*final(self), *final(wal)),
            final(self)@ == old(self)@,
            final(self).capacity() == old(self).capacity(),
            final(self).state(*final(wal)) == old(self).state(*old(wal)).fetch(id),
            r == old(self).fetched(id),
    {
        let found = self.pool.get(id);
        proof {
            paging::lemma_bookkeeping(self.heap_file@, old(self).pool@, self.pool@);
        }
        if let Some(page) = found {
            proof {
                lemma_copied(old(self).pool@.frames[id].page, page);
                if self.pool@.max_frames == 0 {
                    assert(self.pool@.frames.dom().len() == 0);
                    assert(self.pool@.frames.dom() =~= Set::<u64>::empty());
                    assert(self.pool@.frames.dom().contains(id));
                }
            }
            return Ok(page);
        }
        let page = match self.read_page_from_disk(id) {
            Ok(page) => page,
            Err(e) => return Err(e),
        };
        if self.max_frames() == 0 {
            return Err(StorageError::PoolFull);
        }
        let ghost mid = *self;
        self.take_in(wal, id, page, false);
        assert(self@ =~= old(self)@);
        proof {
            assert(old(self).log_first(mid, *old(wal)));
            old(self).lemma_log_first(mid, *self, *old(wal), *wal);
        }
        Ok(page)
    }

    fn max_frames(&self) -> (n: usize)
        ensures
            n == self.capacity(),
    {
        self.pool.capacity()
    }

    /// Reads a page of the file.
    fn read_page_from_disk(&self, id: u64) -> (r: Result<HeapPage, StorageError>)
        ensures
            r == (if id < self.stored().len() {
                Ok::<HeapPage, StorageError>(self.stored()[id as int])
            } else {
                Err::<HeapPage, StorageError>(StorageError::ShortRead)
            }),
    {
        self.heap_file.read(id)
    }

    /// Reads a page that is about to be changed and keeps it in the pool until
    /// `release` takes it back.
    pub fn fetch_mut(&mut self, wal: &mut Wal, id: u64) -> (r: Result<HeapPage, StorageError>)
        requires
            old(self).wf(),
            old(wal).wf(),
        ensures
            final(wal).wf(),
            final(wal)@.flushes(old(wal)@),
            old(self).log_first(*final(self), *final(wal)),
            final(self)@ == old(self)@,
            final(self).capacity() == old(self).capacity(),
            final(self).state(*final(wal)) == (if r is Ok {
                old(self).state(*old(wal)).fetch(id).hold(id)
            } else {
                old(self).state(*old(wal)).fetch(id)
            }),
            r == old(self).fetched(id),
            r is Ok ==> final(self).held(id),
            r is Err ==> final(self).wf(),
    {
        let page = match self.fetch(wal, id) {
            Ok(page) => page,
            Err(e) => return Err(e),
        };
        if !self.pool.contains(id) {
            self.take_in(wal, id, page, false);
            assert(self@ =~= old(self)@);
        }
        let ghost mid = *self;
        self.pool.pin(id);
        self.pool.mark_dirty(id);
        proof {
            assert(self.pool@.frames.dom() =~= mid.pool@.frames.dom());
            paging::lemma_bookkeeping(self.heap_file@, mid.pool@, self.pool@);
        }
        Ok(page)
    }

    /// Takes a page back that `fetch_mut` gave out.
    pub fn release(&mut self, id: u64, page: HeapPage)
        requires
            old(self).held(id),
        ensures
            final(self).wf(),
            final(self)@ == old(self)@.update(id as int, page),
            final(self).capacity() == old(self).capacity(),
            final(self).dirty().contains(id),
            final(self).resident(id),
            forall|wal: Wal| #[trigger] old(self).log_first(*final(self), wal),
            final(self).stored() == old(self).stored(),
            final(self).written() == old(self).written(),
            ({
                let pool = old(self).pool_view().update_page(id, page);
                final(self).pool_view() == pool.set_frame(
                    id,
                    FrameEntry { pin_count: 0, ..pool.frames[id] },
                )
            }),
    {
        self.pool.update_page(id, page);
        proof {
            paging::lemma_update(self.heap_file@, old(self).pool@, id, page);
        }
        let ghost mid = *self;
        self.pool.unpin(id);
        proof {
            assert(self.pool@.frames.dom() =~= mid.pool@.frames.dom());
            paging::lemma_bookkeeping(self.heap_file@, mid.pool@, self.pool@);
        }
    }

    /// Replaces a page.
    pub fn write_page(&mut self, wal: &mut Wal, id: u64, page: HeapPage)
        requires
            old(self).wf(),
            old(wal).wf(),
            id < old(self)@.len(),
            old(self).capacity() > 0,
        ensures
            final(self).wf(),
            final(wal).wf(),
            final(wal)@.flushes(old(wal)@),
            old(self).log_first(*final(self), *final(wal)),
            final(self)@ == old(self)@.update(id as int, page),
            final(self).capacity() == old(self).capacity(),
            final(self).dirty().contains(id),
            ({
                let s = old(self).state(*old(wal));
                final(self).state(*final(wal)) == (if s.pool.frames.contains_key(id) {
                    FileState { pool: s.pool.update_page(id, page), ..s }
                } else {
                    s.take_in(id, page, true)
                })
            }),
    {
        if self.pool.contains(id) {
            self.pool.update_page(id, page);
            proof {
                paging::lemma_update(self.heap_file@, old(self).pool@, id, page);
            }
        } else {
            self.take_in(wal, id, page, true);
            let ghost mid = *self;
            self.pool.mark_dirty(id);
            proof {
                paging::lemma_bookkeeping(self.heap_file@, mid.pool@, self.pool@);
            }
        }
    }

    /// Adds a page without records at the end of the file.
    pub fn allocate(&mut self, wal: &mut Wal) -> (id: u64)
        requires
            old(self).wf(),
            old(wal).wf(),
            old(self)@.len() < MAX_PAGES,
            old(self).capacity() > 0,
        ensures
            final(self).wf(),
            final(wal).wf(),
            final(wal)@.flushes(old(wal)@),
            old(self).log_first(*final(self), *final(wal)),
            final(self).capacity() == old(self).capacity(),
            id == old(self)@.len(),
            final(self)@.len() == id + 1,
            final(self)@.drop_last() == old(self)@,
            final(self)@.last().wf(),
            final(self)@.last().records() == Seq::<Seq<u8>>::empty(),
            final(self)@.last().hdr() == (HeapHeader {
                id,
                ptr: 0,
                free_start: HEAP_HEADER_SIZE as u16,
                free_end: HEAP_PAGE_SIZE as u16,
                flags: 0,
            }),
            final(self).state(*final(wal)) == old(self).state(*old(wal)).allocate(
                HeapPage { data: no_data() },
                final(self)@.last(),
            ),
    {
        let id: u64 = self.next_id;
        self.heap_file.extend(HeapPage { data: [0u8; HEAP_PAGE_SIZE] });
        self.next_id = id + 1;
        let header = HeapHeader {
            id,
            ptr: 0,
            free_start: HEAP_HEADER_SIZE as u16,
            free_end: HEAP_PAGE_SIZE as u16,
            flags: 0,
        };
        let page = HeapPage::empty(&header);
        proof {
            assert forall|x: u64| #[trigger]
                self.pool@.frames.contains_key(x) && !self.pool@.dirty.contains(
                    x,
                ) implies self.pool@.frames[x].page == self.heap_file@[x as int] by {
                assert(old(self).pool@.frames.contains_key(x) && !old(self).pool@.dirty.contains(
                    x,
                ));
            }
        }
        let ghost mid = *self;
        self.take_in(wal, id, page, true);
        proof {
            assert(self@.drop_last() =~= old(self)@);
            assert(old(self).log_first(mid, *old(wal)));
            old(self).lemma_log_first(mid, *self, *old(wal), *wal);
        }
        id
    }

    /// Adds a page with the given header and no records at the end of the file.
    fn allocate_with(&mut self, wal: &mut Wal, primary: bool) -> (id: u64)
        requires
            old(self).wf(),
            old(wal).wf(),
            old(self)@.len() < MAX_PAGES,
            old(self).capacity() > 0,
        ensures
            final(self).wf(),
            final(wal).wf(),
            final(wal)@.flushes(old(wal)@),
            old(self).log_first(*final(self), *final(wal)),
            final(self).capacity() == old(self).capacity(),
            id == old(self)@.len(),
            final(self)@.len() == id + 1,
            final(self)@.drop_last() == old(self)@,
            final(self)@.last().wf(),
            final(self)@.last().records() == Seq::<Seq<u8>>::empty(),
            final(self)@.last().hdr() == (HeapHeader {
                id,
                ptr: 0,
                free_start: HEAP_HEADER_SIZE as u16,
                free_end: HEAP_PAGE_SIZE as u16,
                flags: if primary {
                    1
                } else {
                    0
                },
            }),
    {
        let id: u64 = self.allocate(wal);
        let ghost mid = *self;
        let ghost wal1 = *wal;
        let fetched = self.fetch_mut(wal, id);
        proof {
            old(self).lemma_log_first(mid, *self, wal1, *wal);
        }
        let ghost held = *self;
        match fetched {
            Ok(p) => {
                let mut page: HeapPage = p;
                let header = if primary {
                    HeapHeader::new_primary(id)
                } else {
                    HeapHeader::new_overflow(id)
                };
                page.write_header(&header);
                proof {
                    p.lemma_same_records(page);
                }
                self.release(id, page);
                assert(self@.drop_last() =~= old(self)@) by {
                    assert(self@.drop_last() =~= mid@.drop_last());
                }
                proof {
                    old(self).lemma_log_first(held, *self, *wal, *wal);
                }
            },
            Err(_) => {},
        }
        id
    }

    /// Adds a primary page at the end of the file.
    pub fn allocate_primary(&mut self, wal: &mut Wal) -> (id: u64)
        requires
            old(self).wf(),
            old(wal).wf(),
            old(self)@.len() < MAX_PAGES,
            old(self).capacity() > 0,
        ensures
            final(self).wf(),
            final(wal).wf(),
            final(wal)@.flushes(old(wal)@),
            old(self).log_first(*final(self), *final(wal)),
            final(self).capacity() == old(self).capacity(),
            id == old(self)@.len(),
            final(self)@.len() == id + 1,
            final(self)@.drop_last() == old(self)@,
            final(self)@.last().wf(),
            final(self)@.last().records() == Seq::<Seq<u8>>::empty(),
            final(self)@.last().hdr() == (HeapHeader {
                id,
                ptr: 0,
                free_start: HEAP_HEADER_SIZE as u16,
                free_end: HEAP_PAGE_SIZE as u16,
                flags: 1,
            }),
            final(self)@.last().hdr().primary_bit(),
            records_of(final(self)@, id) == Seq::<Seq<u8>>::empty(),
            apart(old(self)@) ==> {
                &&& apart(final(self)@)
                &&& forall|q: u64|
                    #![trigger kept(old(self)@, final(self)@, q)]
                    #![trigger records_of(final(self)@, q)]
                    q < old(self)@.len() && old(self)@[q as int].hdr().primary_bit() ==> kept(
                        old(self)@,
                        final(self)@,
                        q,
                    )
            },
    {
        let id: u64 = self.allocate_with(wal, true);
        proof {
            assert(1u8 & 0x01 == 0x01) by (bit_vector);
            assert(1u8 & 0x02 != 0x02) by (bit_vector);
            assert(self@[id as int] == self@.last());
            assert(chain(self@, id) =~= seq![id]);
            assert(chain(self@, id).drop_last() =~= Seq::<u64>::empty());
            assert(gather(self@, Seq::<u64>::empty()) =~= Seq::<Seq<u8>>::empty());
            assert(records_of(self@, id) =~= Seq::<Seq<u8>>::empty());
            if apart(old(self)@) {
                lemma_apart_allocated(old(self)@, self@);
            }
        }
        id
    }

    /// Adds an overflow page at the end of the file.
    pub fn allocate_overflow(&mut self, wal: &mut Wal) -> (id: u64)
        requires
            old(self).wf(),
            old(wal).wf(),
            old(self)@.len() < MAX_PAGES,
            old(self).capacity() > 0,
        ensures
            final(self).wf(),
            final(wal).wf(),
            final(wal)@.flushes(old(wal)@),
            old(self).log_first(*final(self), *final(wal)),
            final(self).capacity() == old(self).capacity(),
            id == old(self)@.len(),
            final(self)@.len() == id + 1,
            final(self)@.drop_last() == old(self)@,
            final(self)@.last().wf(),
            final(self)@.last().records() == Seq::<Seq<u8>>::empty(),
            final(self)@.last().hdr() == (HeapHeader {
                id,
                ptr: 0,
                free_start: HEAP_HEADER_SIZE as u16,
                free_end: HEAP_PAGE_SIZE as u16,
                flags: 0,
            }),
    {
        self.allocate_with(wal, false)
    }

    /// The cell pointer of slot `i`.
    fn slot(i: u16, page: &HeapPage) -> (p: CellPointer)
        requires
            HEAP_HEADER_SIZE + 4 * i + 4 <= HEAP_PAGE_SIZE,
        ensures
            p == slotted_page::heap_slot(page.data@, i as int),
    {
        let off: usize = HEAP_HEADER_SIZE + i as usize * SLOT_SIZE;
        CellPointer {
            cell_offset: bytes::get_u16(&page.data, off),
            cell_size: bytes::get_u16(&page.data, off + 2),
        }
    }

    /// The cell pointers of a page.
    fn get_cell_ptr(page: &HeapPage, header: &HeapHeader) -> (ptrs: Vec<CellPointer>)
        requires
            page.wf(),
            *header == page.hdr(),
        ensures
            ptrs@ == Seq::new(
                page.count() as nat,
                |i: int| slotted_page::heap_slot(page.data@, i),
            ),
    {
        let range: u16 = (header.free_start - HEAP_HEADER_SIZE as u16) / 4;
        let mut ptrs: Vec<CellPointer> = Vec::with_capacity(range as usize);
        let mut i: u16 = 0;
        while i < range
            invariant
                i <= range,
                page.wf(),
                range == page.count(),
                ptrs@ == Seq::new(i as nat, |j: int| slotted_page::heap_slot(page.data@, j)),
            decreases range - i,
        {
            ptrs.push(Self::slot(i, page));
            i = i + 1;
            assert(ptrs@ =~= Seq::new(i as nat, |j: int| slotted_page::heap_slot(page.data@, j)));
        }
        ptrs
    }

    /// Appends the records of a page to `out`.
    fn push_records(page: &HeapPage, header: &HeapHeader, out: &mut Vec<Vec<u8>>)
        requires
            page.wf(),
            *header == page.hdr(),
        ensures
            slotted_page::contents(final(out)@) == slotted_page::contents(old(out)@)
                + page.records(),
    {
        let ptrs = Self::get_cell_ptr(page, header);
        let ghost before = slotted_page::contents(out@);
        let mut i: usize = 0;
        assert(before =~= before + page.records().take(0));
        while i < ptrs.len()
            invariant
                i <= ptrs@.len(),
                page.wf(),
                ptrs@ == Seq::new(
                    page.count() as nat,
                    |j: int| slotted_page::heap_slot(page.data@, j),
                ),
                slotted_page::contents(out@) == before + page.records().take(i as int),
            decreases ptrs@.len() - i,
        {
            let off: usize = ptrs[i].cell_offset as usize;
            let size: usize = ptrs[i].cell_size as usize;
            let ghost mid = slotted_page::contents(out@);
            assert(ptrs@[i as int] == slotted_page::heap_slot(page.data@, i as int));
            let mut data: Vec<u8> = Vec::with_capacity(size);
            data.extend_from_slice(&page.data.as_slice()[off..off + size]);
            proof {
                assert(data@ =~= page.records()[i as int]);
            }
            out.push(data);
            i = i + 1;
            proof {
                assert(slotted_page::contents(out@) =~= mid.push(data@));
                assert(before + page.records().take(i as int) =~= mid.push(data@));
            }
        }
        assert(page.records().take(i as int) =~= page.records());
    }

    /// Appends the records of a page and of its overflow pages to
    /// `data_records`.
    pub fn get_record(
        &mut self,
        wal: &mut Wal,
        id: u64,
        data_records: &mut Vec<Vec<u8>>,
    ) -> (r: Result<(), StorageError>)
        requires
            old(self).wf(),
            old(wal).wf(),
            ends(old(self)@, id),
            sound(old(self)@, id),
        ensures
            final(self).wf(),
            final(wal).wf(),
            final(wal)@.flushes(old(wal)@),
            old(self).log_first(*final(self), *final(wal)),
            final(self)@ == old(self)@,
            final(self).capacity() == old(self).capacity(),
            if old(self).fetched(id) is Err {
                &&& r == Err::<(), StorageError>(old(self).fetched(id)->Err_0)
                &&& final(data_records)@ == old(data_records)@
            } else {
                &&& slotted_page::contents(final(data_records)@) == slotted_page::contents(
                    old(data_records)@,
                ) + records_of(old(self)@, id)
                &&& r == (if complete(old(self)@, id) {
                    Ok::<(), StorageError>(())
                } else {
                    Err::<(), StorageError>(StorageError::ShortRead)
                })
            },
    {
        let page = match self.fetch(wal, id) {
            Ok(page) => page,
            Err(e) => return Err(e),
        };
        let header = match page.header() {
            Ok(h) => h,
            Err(e) => return Err(e),
        };
        let ghost pages = old(self)@;
        let ghost before = slotted_page::contents(data_records@);
        let ghost n = pages.len();
        assert(page == pages[id as int]);
        assert(chain(pages, id)[0] == id);
        Self::push_records(&page, &header, data_records);
        if header.has_overflow_page() {
            proof {
                let next = header.ptr;
                assert(walk(pages, id, n) is Some);
                assert(walk(pages, next, (n - 1) as nat) is Some);
                lemma_walk_fuel(pages, next, (n - 1) as nat, n);
                let rest = chain(pages, next);
                assert(chain(pages, id) =~= seq![id] + rest);
                lemma_gather_front(pages, id, rest);
                assert forall|i: int| 0 <= i < rest.len() implies pages[(
                #[trigger] rest[i]) as int].wf() by {
                    assert(chain(pages, id)[i + 1] == rest[i]);
                }
            }
            let ghost mid = slotted_page::contents(data_records@);
            let r = self.collect_overflow_records(wal, header.ptr, data_records);
            proof {
                assert(slotted_page::contents(data_records@) =~= before + records_of(pages, id));
            }
            r
        } else {
            proof {
                assert(chain(pages, id) =~= seq![id]);
                lemma_gather_front(pages, id, Seq::empty());
                assert(seq![id] + Seq::<u64>::empty() =~= seq![id]);
                assert(records_of(pages, id) =~= page.records());
            }
            Ok(())
        }
    }

    /// Appends the records of a chain of overflow pages to `data_records`.
    pub fn collect_overflow_records(
        &mut self,
        wal: &mut Wal,
        overflow_id: u64,
        data_records: &mut Vec<Vec<u8>>,
    ) -> (r: Result<(), StorageError>)
        requires
            old(self).wf(),
            old(wal).wf(),
            ends(old(self)@, overflow_id),
            sound(old(self)@, overflow_id),
        ensures
            final(self).wf(),
            final(wal).wf(),
            final(wal)@.flushes(old(wal)@),
            old(self).log_first(*final(self), *final(wal)),
            final(self)@ == old(self)@,
            final(self).capacity() == old(self).capacity(),
            if old(self).fetched(overflow_id) is Err {
                &&& r == Err::<(), StorageError>(old(self).fetched(overflow_id)->Err_0)
                &&& final(data_records)@ == old(data_records)@
            } else {
                &&& slotted_page::contents(final(data_records)@) == slotted_page::contents(
                    old(data_records)@,
                ) + records_of(old(self)@, overflow_id)
                &&& r == (if complete(old(self)@, overflow_id) {
                    Ok::<(), StorageError>(())
                } else {
                    Err::<(), StorageError>(StorageError::ShortRead)
                })
            },
    {
        if self.max_frames() == 0 || overflow_id >= self.next_id() {
            match self.fetch(wal, overflow_id) {
                Ok(_) => {},
                Err(e) => return Err(e),
            }
        }
        let mut cur_id: u64 = overflow_id;
        let ghost pages = self@;
        let ghost mut fuel: nat = pages.len();
        let ghost before = slotted_page::contents(data_records@);
        let ghost all = walk(pages, overflow_id, fuel).unwrap();
        let ghost mut done: Seq<u64> = Seq::empty();
        assert(done + all.0 =~= all.0);
        assert(before + gather(pages, done) =~= before);
        loop
            invariant
                self.wf(),
                wal.wf(),
                wal@.flushes(old(wal)@),
                old(self).log_first(*self, *wal),
                self@ == pages,
                self@ == old(self)@,
                self.capacity() == old(self).capacity(),
                self.capacity() > 0,
                sound(pages, overflow_id),
                overflow_id < pages.len(),
                walk(pages, overflow_id, pages.len()) == Some(all),
                before == slotted_page::contents(old(data_records)@),
                walk(pages, cur_id, fuel) matches Some((rest, c)) && done + rest == all.0 && c
                    == all.1,
                slotted_page::contents(data_records@) == before + gather(pages, done),
            decreases fuel,
        {
            let page = match self.fetch(wal, cur_id) {
                Ok(page) => page,
                Err(e) => {
                    assert(done + Seq::<u64>::empty() =~= done);
                    return Err(e);
                },
            };
            let header = match page.header() {
                Ok(h) => h,
                Err(e) => return Err(e),
            };
            proof {
                let rest = walk(pages, cur_id, fuel).unwrap().0;
                lemma_walk(pages, cur_id, fuel);
                assert(all.0[done.len() as int] == rest[0]);
                assert(chain(pages, overflow_id)[done.len() as int] == cur_id);
            }
            Self::push_records(&page, &header, data_records);
            proof {
                let was = done;
                done = done.push(cur_id);
                assert(done.drop_last() =~= was);
                assert(before + gather(pages, done) =~= (before + gather(pages, was))
                    + page.records());
            }
            if header.has_overflow_page() {
                proof {
                    let rest = walk(pages, cur_id, fuel).unwrap().0;
                    let next = walk(pages, header.ptr, (fuel - 1) as nat).unwrap().0;
                    assert(done + next =~= done.drop_last() + rest);
                    fuel = (fuel - 1) as nat;
                }
                cur_id = header.ptr;
            } else {
                assert(done =~= all.0);
                return Ok(());
            }
        }
    }

    /// The last page of a chain.
    fn find_tail_id(&mut self, wal: &mut Wal, id: u64) -> (r: Result<u64, StorageError>)
        requires
            old(self).wf(),
            old(wal).wf(),
            old(self).capacity() > 0,
            ends(old(self)@, id),
        ensures
            final(self).wf(),
            final(wal).wf(),
            final(wal)@.flushes(old(wal)@),
            old(self).log_first(*final(self), *final(wal)),
            final(self)@ == old(self)@,
            final(self).capacity() == old(self).capacity(),
            r == (if complete(old(self)@, id) {
                Ok::<u64, StorageError>(chain(old(self)@, id).last())
            } else {
                Err::<u64, StorageError>(StorageError::ShortRead)
            }),
    {
        let mut cur_id: u64 = id;
        let ghost pages = self@;
        let ghost mut fuel: nat = pages.len();
        let ghost all = walk(pages, id, fuel).unwrap();
        loop
            invariant
                self.wf(),
                wal.wf(),
                wal@.flushes(old(wal)@),
                old(self).log_first(*self, *wal),
                self@ == pages,
                self@ == old(self)@,
                self.capacity() == old(self).capacity(),
                self.capacity() > 0,
                walk(pages, id, pages.len()) == Some(all),
                walk(pages, cur_id, fuel) matches Some((rest, c)) && (c ==> rest.len() > 0
                    && rest.last() == all.0.last()) && c == all.1,
            decreases fuel,
        {
            let hdr = match self.fetch(wal, cur_id) {
                Ok(page) => match page.header() {
                    Ok(h) => h,
                    Err(e) => return Err(e),
                },
                Err(e) => return Err(e),
            };
            if hdr.has_overflow_page() {
                proof {
                    lemma_walk(pages, hdr.ptr, (fuel - 1) as nat);
                    fuel = (fuel - 1) as nat;
                }
                cur_id = hdr.ptr;
            } else {
                return Ok(cur_id);
            }
        }
    }

    /// The page and its overflow pages, in order.
    pub fn free_chain(&mut self, wal: &mut Wal, primary_id: u64) -> (r: Result<
        Vec<u64>,
        StorageError,
    >)
        requires
            old(self).wf(),
            old(wal).wf(),
            ends(old(self)@, primary_id),
        ensures
            final(self).wf(),
            final(wal).wf(),
            final(wal)@.flushes(old(wal)@),
            old(self).log_first(*final(self), *final(wal)),
            final(self)@ == old(self)@,
            final(self).capacity() == old(self).capacity(),
            if old(self).fetched(primary_id) is Err {
                r == Err::<Vec<u64>, StorageError>(old(self).fetched(primary_id)->Err_0)
            } else {
                &&& r is Ok == complete(old(self)@, primary_id)
                &&& r matches Ok(ids) ==> ids@ == chain(old(self)@, primary_id)
                &&& r matches Err(e) ==> e == StorageError::ShortRead
            },
    {
        if self.max_frames() == 0 || primary_id >= self.next_id() {
            match self.fetch(wal, primary_id) {
                Ok(_) => {},
                Err(e) => return Err(e),
            }
        }
        let mut ids: Vec<u64> = Vec::new();
        ids.push(primary_id);
        let mut cur_id: u64 = primary_id;
        let ghost pages = self@;
        let ghost mut fuel: nat = pages.len();
        let ghost all = walk(pages, primary_id, fuel).unwrap();
        assert(ids@.drop_last() + all.0 =~= all.0);
        loop
            invariant
                self.wf(),
                wal.wf(),
                wal@.flushes(old(wal)@),
                old(self).log_first(*self, *wal),
                self@ == pages,
                self@ == old(self)@,
                self.capacity() == old(self).capacity(),
                self.capacity() > 0,
                walk(pages, primary_id, pages.len()) == Some(all),
                ids@.len() > 0,
                ids@.last() == cur_id,
                walk(pages, cur_id, fuel) matches Some((rest, c)) && ids@.drop_last() + rest
                    == all.0 && c == all.1,
            decreases fuel,
        {
            let hdr = match self.fetch(wal, cur_id) {
                Ok(page) => match page.header() {
                    Ok(h) => h,
                    Err(e) => return Err(e),
                },
                Err(e) => return Err(e),
            };
            if hdr.has_overflow_page() {
                let ghost was = ids@;
                let ghost rest = walk(pages, cur_id, fuel).unwrap().0;
                cur_id = hdr.ptr;
                ids.push(cur_id);
                proof {
                    let next = walk(pages, cur_id, (fuel - 1) as nat).unwrap().0;
                    assert(ids@.drop_last() + next =~= was.drop_last() + rest);
                    fuel = (fuel - 1) as nat;
                }
            } else {
                assert(ids@ =~= all.0);
                return Ok(ids);
            }
        }
    }

    /// Adds a record to a page of the file.
    fn add_to(&mut self, wal: &mut Wal, id: u64, record: Vec<u8>) -> (r: Result<(), StorageError>)
        requires
            old(self).wf(),
            old(wal).wf(),
            old(self).capacity() > 0,
            id < old(self)@.len(),
            old(self)@[id as int].wf(),
        ensures
            final(self).wf(),
            final(wal).wf(),
            final(wal)@.flushes(old(wal)@),
            old(self).log_first(*final(self), *final(wal)),
            final(self).capacity() == old(self).capacity(),
            final(self)@ == old(self)@.update(id as int, final(self)@[id as int]),
            final(self)@[id as int].wf(),
            final(self)@[id as int].hdr().flags == old(self)@[id as int].hdr().flags,
            final(self)@[id as int].hdr().ptr == old(self)@[id as int].hdr().ptr,
            if record@.len() + SLOT_SIZE <= old(self)@[id as int].room() {
                &&& r is Ok
                &&& final(self)@[id as int].records() == old(self)@[id as int].records().push(
                    record@,
                )
                &&& final(self)@[id as int].room() == old(self)@[id as int].room() - record@.len()
                    - SLOT_SIZE
            } else {
                &&& r == Err::<(), StorageError>(StorageError::HeapPageOverflow)
                &&& final(self)@ == old(self)@
            },
    {
        match self.fetch_mut(wal, id) {
            Ok(p) => {
                let mut page: HeapPage = p;
                let r = page.add_cell(record);
                let ghost held = *self;
                self.release(id, page);
                proof {
                    assert(old(self)@.update(id as int, p) =~= old(self)@);
                    old(self).lemma_log_first(held, *self, *wal, *wal);
                }
                r
            },
            Err(e) => Err(e),
        }
    }

    /// Appends a record to the last page of a chain, or to a new overflow page where it
    /// does not fit. Returns the last page of the chain then.
    fn append_one(
        &mut self,
        wal: &mut Wal,
        primary_id: u64,
        current_id: u64,
        record: Vec<u8>,
        Ghost(pages): Ghost<Seq<HeapPage>>,
        Ghost(room0): Ghost<int>,
        Ghost(groups): Ghost<Seq<Seq<Seq<u8>>>>,
    ) -> (r: Result<u64, StorageError>)
        requires
            old(self).wf(),
            old(wal).wf(),
            old(self).capacity() > 0,
            old(self)@.len() < MAX_PAGES,
            complete(pages, primary_id),
            complete(old(self)@, primary_id),
            sound(old(self)@, primary_id),
            chain(old(self)@, primary_id).last() == current_id,
            has_groups(pages, old(self)@, primary_id, groups),
            old(self)@[current_id as int].room() == room_behind(room0, groups),
        ensures
            final(self).wf(),
            final(wal).wf(),
            final(wal)@.flushes(old(wal)@),
            old(self).log_first(*final(self), *final(wal)),
            final(self).capacity() == old(self).capacity(),
            complete(final(self)@, primary_id),
            sound(final(self)@, primary_id),
            old(self)@.len() <= final(self)@.len() <= old(self)@.len() + 1,
            forall|i: int|
                0 <= i < pages.len() && i != chain(pages, primary_id).last()
                    ==> #[trigger] final(self)@[i] == old(self)@[i],
            match r {
                Ok(id) => {
                    let more = with_record(room0, groups, record@);
                    &&& record@.len() + SLOT_SIZE <= RECORD_ROOM
                    &&& chain(final(self)@, primary_id).last() == id
                    &&& records_of(final(self)@, primary_id) == records_of(
                        old(self)@,
                        primary_id,
                    ).push(record@)
                    &&& has_groups(pages, final(self)@, primary_id, more)
                    &&& final(self)@[id as int].room() == room_behind(room0, more)
                },
                Err(e) => {
                    &&& e == StorageError::HeapPageOverflow
                    &&& record@.len() + SLOT_SIZE > RECORD_ROOM
                    &&& records_of(final(self)@, primary_id) == records_of(
                        old(self)@,
                        primary_id,
                    )
                    &&& has_groups(
                        pages,
                        final(self)@,
                        primary_id,
                        groups.push(Seq::empty()),
                    )
                },
            },
    {
        let ghost cur = self@;
        let d_len: usize = record.len();
        proof {
            lemma_walk(cur, primary_id, cur.len());
            let ids = chain(cur, primary_id);
            assert(ids[ids.len() - 1] == current_id);
            assert(current_id < cur.len());
            assert(cur[chain(cur, primary_id)[ids.len() - 1] as int].wf());
            lemma_groups_last(pages, cur, primary_id, groups);
        }
        let fetched = self.fetch(wal, current_id);
        let ghost h1 = *self;
        let ghost w1 = *wal;
        proof {
            assert(old(self).log_first(h1, w1));
        }
        let remaining: usize = match fetched {
            Ok(page) => match page.header() {
                Ok(h) => h.remaining_space(),
                Err(e) => return Err(e),
            },
            Err(e) => return Err(e),
        };
        if d_len <= remaining && remaining - d_len >= SLOT_SIZE {
            let added = self.add_to(wal, current_id, record);
            proof {
                old(self).lemma_log_first(h1, *self, w1, *wal);
            }
            match added {
                Ok(()) => {},
                Err(e) => return Err(e),
            }
            proof {
                lemma_chain_append(
                    cur,
                    primary_id,
                    self@[current_id as int],
                    record@,
                );
                lemma_groups_append(pages, cur, self@, primary_id, groups, record@);
                lemma_group_room(groups.last(), record@);
                let ids = chain(cur, primary_id);
                assert forall|i: int| 0 <= i < ids.len() implies self@[(
                #[trigger] ids[i]) as int].wf() by {
                    assert(cur[chain(cur, primary_id)[i] as int].wf());
                }
            }
            proof {
                let more = with_record(room0, groups, record@);
                assert(more.last() == groups.last().push(record@));
                assert(self@[current_id as int].room() == room_behind(room0, more));
            }
            Ok(current_id)
        } else {
            assert(record@.len() + 2 * SLOT_SIZE > room_behind(room0, groups));
            let overflow_id: u64 = self.allocate_overflow(wal);
            let ghost h2 = *self;
            let ghost w2 = *wal;
            let ghost mid = self@;
            assert(mid =~= cur.push(mid.last()));
            assert(forall|i: int| 0 <= i < cur.len() ==> mid[i] == cur[i]);
            let fetched = self.fetch_mut(wal, current_id);
            let ghost h3 = *self;
            let ghost w3 = *wal;
            proof {
                old(self).lemma_log_first(h1, h2, w1, w2);
                old(self).lemma_log_first(h2, h3, w2, w3);
            }
            match fetched {
                Ok(p) => {
                    let mut current_page: HeapPage = p;
                    let mut hdr = match current_page.header() {
                        Ok(h) => h,
                        Err(e) => return Err(e),
                    };
                    hdr.set_has_overflow(overflow_id);
                    current_page.write_header(&hdr);
                    proof {
                        p.lemma_same_records(current_page);
                    }
                    self.release(current_id, current_page);
                    proof {
                        old(self).lemma_log_first(h3, *self, w3, *wal);
                    }
                },
                Err(e) => return Err(e),
            }
            let ghost h4 = *self;
            let ghost linked = self@;
            proof {
                assert(linked.last() == mid.last());
                assert(0u8 & 0x02 != 0x02) by (bit_vector);
                assert forall|i: int| 0 <= i < cur.len() && i != current_id implies linked[i]
                    == cur[i] by {}
                lemma_chain_link(cur, linked, primary_id);
                assert(linked[overflow_id as int] == linked.last());
                assert(linked[overflow_id as int].room() == RECORD_ROOM);
                assert(0u8 & 0x01 != 0x01) by (bit_vector);
                lemma_groups_push(pages, cur, linked, primary_id, groups);
                let ids = chain(linked, primary_id);
                assert forall|i: int| 0 <= i < ids.len() implies linked[(
                #[trigger] ids[i]) as int].wf() by {
                    if i < chain(cur, primary_id).len() {
                        assert(ids[i] == chain(cur, primary_id)[i]);
                        assert(cur[chain(cur, primary_id)[i] as int].wf());
                    }
                }
            }
            let added = self.add_to(wal, overflow_id, record);
            proof {
                old(self).lemma_log_first(h4, *self, w3, *wal);
            }
            match added {
                Ok(()) => {},
                Err(e) => return Err(e),
            }
            proof {
                lemma_chain_append(
                    linked,
                    primary_id,
                    self@[overflow_id as int],
                    record@,
                );
                let more = groups.push(Seq::empty());
                lemma_groups_append(pages, linked, self@, primary_id, more, record@);
                lemma_group_room(Seq::empty(), record@);
                assert(Seq::empty().push(record@) =~= seq![record@]);
                assert(more.update(more.len() - 1, seq![record@]) =~= groups.push(
                    seq![record@],
                ));
                let ids = chain(linked, primary_id);
                assert forall|i: int| 0 <= i < ids.len() implies self@[(
                #[trigger] ids[i]) as int].wf() by {
                    assert(linked[chain(linked, primary_id)[i] as int].wf());
                }
            }
            proof {
                let more = with_record(room0, groups, record@);
                assert(more == groups.push(seq![record@]));
                assert(more.last() == seq![record@]);
                assert(slotted_page::records_room(Seq::<Seq<u8>>::empty()) == 0);
                assert(self@[overflow_id as int].room() == room_behind(room0, more));
            }
            Ok(overflow_id)
        }
    }

    /// Appends records to a page and its overflow pages. A record that does not
    /// fit on the last page starts a new one.
    pub fn insert_records(
        &mut self,
        wal: &mut Wal,
        primary_page_id: u64,
        data_record: Vec<Vec<u8>>,
    ) -> (r: Result<(), StorageError>)
        requires
            old(self).wf(),
            old(wal).wf(),
            ends(old(self)@, primary_page_id),
            sound(old(self)@, primary_page_id),
            old(self)@.len() + data_record@.len() <= MAX_PAGES,
        ensures
            final(self).wf(),
            final(wal).wf(),
            final(wal)@.flushes(old(wal)@),
            old(self).log_first(*final(self), *final(wal)),
            final(self).capacity() == old(self).capacity(),
            if old(self).fetched(primary_page_id) is Err {
                &&& r == Err::<(), StorageError>(old(self).fetched(primary_page_id)->Err_0)
                &&& final(self)@ == old(self)@
            } else if !complete(old(self)@, primary_page_id) {
                &&& r == Err::<(), StorageError>(StorageError::ShortRead)
                &&& final(self)@ == old(self)@
            } else {
                let new = slotted_page::contents(data_record@);
                let tail = chain(old(self)@, primary_page_id).last();
                &&& r == (if fitting(new) == new.len() {
                    Ok::<(), StorageError>(())
                } else {
                    Err::<(), StorageError>(StorageError::HeapPageOverflow)
                })
                &&& sound(final(self)@, primary_page_id)
                &&& complete(final(self)@, primary_page_id)
                &&& records_of(final(self)@, primary_page_id) == records_of(
                    old(self)@,
                    primary_page_id,
                ) + new.take(fitting(new))
                &&& has_groups(
                    old(self)@,
                    final(self)@,
                    primary_page_id,
                    laid_out(old(self)@[tail as int].room(), new),
                )
                &&& forall|i: int|
                    0 <= i < old(self)@.len() && i != tail ==> #[trigger] final(self)@[i] == old(
                        self,
                    )@[i]
                &&& forall|q: u64|
                    #![trigger kept(old(self)@, final(self)@, q)]
                    #![trigger records_of(final(self)@, q)]
                    complete(old(self)@, q) && !chain(old(self)@, q).contains(tail) ==> kept(
                        old(self)@,
                        final(self)@,
                        q,
                    )
                &&& apart(old(self)@) && old(self)@[primary_page_id as int].hdr().primary_bit()
                    ==> {
                    &&& apart(final(self)@)
                    &&& forall|q: u64|
                        #![trigger kept(old(self)@, final(self)@, q)]
                        #![trigger records_of(final(self)@, q)]
                        q < old(self)@.len() && q != primary_page_id && old(
                            self,
                        )@[q as int].hdr().primary_bit() ==> kept(old(self)@, final(self)@, q)
                }
            },
    {
        let header = match self.fetch(wal, primary_page_id) {
            Ok(page) => match page.header() {
                Ok(h) => h,
                Err(e) => return Err(e),
            },
            Err(e) => return Err(e),
        };
        let mut current_id: u64 = primary_page_id;
        let ghost pages = old(self)@;
        proof {
            lemma_walk(pages, primary_page_id, pages.len());
        }
        if header.has_overflow_page() {
            proof {
                let n = pages.len();
                assert(walk(pages, header.ptr, (n - 1) as nat) is Some);
                lemma_walk_fuel(pages, header.ptr, (n - 1) as nat, n);
                lemma_walk(pages, header.ptr, n);
            }
            current_id = match self.find_tail_id(wal, header.ptr) {
                Ok(id) => id,
                Err(e) => return Err(e),
            };
        }
        let ghost new = slotted_page::contents(data_record@);
        let ghost tail = chain(pages, primary_page_id).last();
        let ghost before = records_of(pages, primary_page_id);
        let ghost room0 = pages[tail as int].room();
        let ghost mut groups: Seq<Seq<Seq<u8>>> = spread(room0, Seq::empty());
        assert(current_id == tail);
        proof {
            assert(chain(pages, primary_page_id) + Seq::new(0, |j: int| (pages.len() + j) as u64)
                =~= chain(pages, primary_page_id));
            assert(pages[tail as int].records() + Seq::<Seq<u8>>::empty()
                =~= pages[tail as int].records());
            assert(has_groups(pages, pages, primary_page_id, groups));
        }
        assert(new.take(0) =~= Seq::empty());
        assert(before + Seq::<Seq<u8>>::empty() =~= before);
        for record in it: data_record
            invariant
                it.seq() == data_record@,
                new == slotted_page::contents(data_record@),
                self.wf(),
                wal.wf(),
                wal@.flushes(old(wal)@),
                old(self).log_first(*self, *wal),
                self.capacity() == old(self).capacity(),
                self.capacity() > 0,
                pages == old(self)@,
                complete(pages, primary_page_id),
                tail == chain(pages, primary_page_id).last(),
                before == records_of(pages, primary_page_id),
                sound(self@, primary_page_id),
                complete(self@, primary_page_id),
                chain(self@, primary_page_id).last() == current_id,
                records_of(self@, primary_page_id) == before + new.take(it.index() as int),
                pages.len() <= self@.len() <= pages.len() + it.index(),
                room0 == pages[tail as int].room(),
                groups == spread(room0, new.take(it.index() as int)),
                has_groups(pages, self@, primary_page_id, groups),
                self@[current_id as int].room() == room_behind(room0, groups),
                pages.len() + new.len() <= MAX_PAGES,
                forall|i: int|
                    0 <= i < it.index() ==> (#[trigger] new[i]).len() + SLOT_SIZE <= RECORD_ROOM,
                forall|i: int|
                    0 <= i < pages.len() && i != tail ==> #[trigger] self@[i] == pages[i],
        {
            let ghost k = it.index() as int;
            proof {
                assert(new[k] == record@);
                assert(new.take(k + 1) =~= new.take(k).push(record@));
                assert(before + new.take(k + 1) =~= (before + new.take(k)).push(record@));
                assert(new.take(k + 1).drop_last() =~= new.take(k));
            }
            let ghost h0 = *self;
            let ghost w0 = *wal;
            let added = self.append_one(
                wal,
                primary_page_id,
                current_id,
                record,
                Ghost(pages),
                Ghost(room0),
                Ghost(groups),
            );
            proof {
                old(self).lemma_log_first(h0, *self, w0, *wal);
            }
            match added {
                Ok(id) => {
                    current_id = id;
                },
                Err(e) => {
                    proof {
                        lemma_fitting_unique(new, k);
                        lemma_others_kept(pages, self@, tail);
                        if apart(pages) && pages[primary_page_id as int].hdr().primary_bit() {
                            lemma_apart_grown(
                                pages,
                                self@,
                                primary_page_id,
                                groups.push(Seq::empty()),
                            );
                        }
                    }
                    return Err(e);
                },
            }
            proof {
                groups = with_record(room0, groups, record@);
            }
        }
        proof {
            lemma_fitting_unique(new, new.len() as int);
            assert(new.take(new.len() as int) =~= new);
            lemma_others_kept(pages, self@, tail);
            if apart(pages) && pages[primary_page_id as int].hdr().primary_bit() {
                lemma_apart_grown(pages, self@, primary_page_id, groups);
            }
        }
        Ok(())
    }

    /// Writes a dirty page to the file, once the log is on disk up to its LSN.
    pub fn flush(&mut self, wal: &mut Wal, id: u64)
        requires
            old(self).wf(),
            old(wal).wf(),
        ensures
            final(self).wf(),
            final(wal).wf(),
            final(wal)@.flushes(old(wal)@),
            old(self).log_first(*final(self), *final(wal)),
            final(self)@ == old(self)@,
            final(self).capacity() == old(self).capacity(),
            final(self).dirty() == old(self).dirty().remove(id),
            old(self).dirty().contains(id) ==> final(wal)@.covers(old(self).lsn_of(id)),
            final(self).state(*final(wal)) == old(self).state(*old(wal)).flush(id),
            final(self).stored() == (if id < old(self)@.len() {
                old(self).stored().update(id as int, old(self)@[id as int])
            } else {
                old(self).stored()
            }),
    {
        if self.pool.is_dirty(id) {
            if let Some(page) = self.pool.get(id) {
                proof {
                    lemma_copied(old(self).pool@.frames[id].page, page);
                }
                let lsn: u64 = self.pool.page_lsn(id);
                wal.flush_up_to(lsn);
                self.write_back(wal, id, page, lsn);
                self.pool.clear_dirty_single(id);
                proof {
                    assert forall|x: u64| #[trigger]
                        self.pool@.frames.contains_key(x) && !self.pool@.dirty.contains(
                            x,
                        ) implies self.pool@.frames[x].page == self.heap_file@[x as int] by {
                        if x != id {
                            assert(old(self).pool@.frames.contains_key(x)
                                && !old(self).pool@.dirty.contains(x));
                        }
                    }
                    assert forall|x: u64| #[trigger]
                        self.pool@.dirty.contains(x) implies self.pool@.frames.contains_key(x) by {
                        assert(old(self).pool@.dirty.contains(x));
                    }
                }
                assert(self@ =~= old(self)@);
            }
        }
        proof {
            assert(old(self).pool@.dirty.remove(id) =~= self.pool@.dirty);
            if !old(self).pool@.dirty.contains(id) && id < old(self)@.len() {
                if old(self).pool@.frames.contains_key(id) {
                    assert(old(self).pool@.frames.contains_key(id)
                        && !old(self).pool@.dirty.contains(id));
                }
                assert(self.heap_file@ =~= old(self).stored().update(
                    id as int,
                    old(self)@[id as int],
                ));
            }
        }
    }

    /// Writes all dirty pages to the file, each once the log is on disk up to
    /// its LSN.
    pub fn flush_all(&mut self, wal: &mut Wal)
        requires
            old(self).wf(),
            old(wal).wf(),
        ensures
            final(self).wf(),
            final(wal).wf(),
            final(wal)@.flushes(old(wal)@),
            old(self).log_first(*final(self), *final(wal)),
            final(self)@ == old(self)@,
            final(self).capacity() == old(self).capacity(),
            final(self).stored() == old(self)@,
            final(self).dirty() == Set::<u64>::empty(),
            forall|id: u64| #[trigger]
                old(self).dirty().contains(id) ==> final(wal)@.covers(old(self).lsn_of(id)),
            exists|ids: Seq<u64>|
                #[trigger] paging::lists(ids, old(self).dirty()) && final(self).state(*final(wal))
                    == old(self).state(*old(wal)).flush_all(ids),
    {
        let dirty_ids = self.pool.dirty_page_ids();
        let ghost frames = self.pool@.frames;
        assert forall|j: int| 0 <= j < dirty_ids@.len() implies frames.contains_key(
            #[trigger] dirty_ids@[j],
        ) by {
            assert(dirty_ids@.to_set().contains(dirty_ids@[j]));
            assert(self.pool@.dirty.contains(dirty_ids@[j]));
        }
        let mut i: usize = 0;
        assert(dirty_ids@.take(0) =~= Seq::empty());
        while i < dirty_ids.len()
            invariant
                i <= dirty_ids@.len(),
                forall|j: int|
                    0 <= j < dirty_ids@.len() ==> frames.contains_key(#[trigger] dirty_ids@[j])
                        && dirty_ids@[j] < old(self).heap_file@.len(),
                old(self).wf(),
                wal.wf(),
                wal@.flushes(old(wal)@),
                old(self).log_first(*self, *wal),
                frames == old(self).pool@.frames,
                dirty_ids@.to_set() == old(self).pool@.dirty,
                self.pool@.inv(),
                self.pool@.frames == frames,
                self.pool@.dirty == old(self).pool@.dirty,
                self.pool@.max_frames == old(self).pool@.max_frames,
                self.next_id == old(self).next_id,
                self.heap_file@.len() == old(self).heap_file@.len(),
                forall|j: int|
                    0 <= j < i ==> self.heap_file@[#[trigger] dirty_ids@[j] as int]
                        == frames[dirty_ids@[j]].page,
                forall|j: int|
                    0 <= j < i ==> wal@.covers(frames[#[trigger] dirty_ids@[j]].page_lsn),
                self.state(*wal) == old(self).state(*old(wal)).write_each(
                    dirty_ids@.take(i as int),
                ),
                forall|x: u64| #[trigger]
                    frames.contains_key(x) && !old(self).pool@.dirty.contains(x)
                        ==> self.heap_file@[x as int] == frames[x].page,
                forall|x: int|
                    0 <= x < self.heap_file@.len() && !frames.contains_key(x as u64)
                        ==> #[trigger] self.heap_file@[x] == old(self).heap_file@[x],
            decreases dirty_ids@.len() - i,
        {
            let id: u64 = dirty_ids[i];
            assert(dirty_ids@.contains(id));
            assert(dirty_ids@.to_set().contains(id));
            assert(old(self).pool@.dirty.contains(id));
            if let Some(page) = self.pool.get(id) {
                proof {
                    lemma_copied(frames[id].page, page);
                }
                let lsn: u64 = self.pool.page_lsn(id);
                wal.flush_up_to(lsn);
                self.write_back(wal, id, page, lsn);
            }
            proof {
                assert(dirty_ids@.take(i + 1).drop_last() =~= dirty_ids@.take(i as int));
                assert(dirty_ids@.take(i + 1).last() == id);
            }
            i = i + 1;
        }
        assert(dirty_ids@.take(i as int) =~= dirty_ids@);
        self.pool.clear_dirty();
        proof {
            assert forall|id: u64| #[trigger] old(self).dirty().contains(id) implies wal@.covers(
                old(self).lsn_of(id),
            ) by {
                assert(dirty_ids@.to_set().contains(id));
                assert(dirty_ids@.contains(id));
                let j = choose|j: int| 0 <= j < dirty_ids@.len() && dirty_ids@[j] == id;
                assert(wal@.covers(frames[dirty_ids@[j]].page_lsn));
            }
            assert(paging::lists(dirty_ids@, old(self).dirty()));
            assert forall|x: u64| #[trigger] frames.contains_key(x) implies self.heap_file@[
                x as int
            ] == frames[x].page by {
                if old(self).pool@.dirty.contains(x) {
                    assert(dirty_ids@.to_set().contains(x));
                    assert(dirty_ids@.contains(x));
                    let j = choose|j: int| 0 <= j < dirty_ids@.len() && dirty_ids@[j] == x;
                    assert(self.heap_file@[dirty_ids@[j] as int] == frames[dirty_ids@[j]].page);
                } else {
                    assert(frames.contains_key(x) && !old(self).pool@.dirty.contains(x));
                }
            }
            assert(self@ =~= old(self)@);
            assert(self.stored() =~= old(self)@);
        }
    }

    /// Forgets all changes that are not in the file.
    pub fn discard_dirty(&mut self)
        requires
            old(self).wf(),
        ensures
            final(self).wf(),
            final(self)@ == old(self).stored(),
            final(self).stored() == old(self).stored(),
            final(self).dirty() == Set::<u64>::empty(),
            final(self).capacity() == old(self).capacity(),
            final(self).written() == old(self).written(),
            exists|ids: Seq<u64>|
                #[trigger] paging::lists(ids, old(self).dirty()) && final(self).pool_view()
                    == paging::drop_each(old(self).pool_view(), ids),
    {
        let dirty_ids = self.pool.dirty_page_ids();
        let mut i: usize = 0;
        assert(dirty_ids@.take(0) =~= Seq::empty());
        while i < dirty_ids.len()
            invariant
                i <= dirty_ids@.len(),
                dirty_ids@.to_set() == old(self).pool@.dirty,
                self.wf(),
                self.heap_file == old(self).heap_file,
                self.pool@ == paging::drop_each(old(self).pool@, dirty_ids@.take(i as int)),
                self.pool@.max_frames == old(self).pool@.max_frames,
                self.pool@.dirty.subset_of(old(self).pool@.dirty),
                forall|j: int| 0 <= j < i ==> !self.pool@.dirty.contains(#[trigger] dirty_ids@[j]),
            decreases dirty_ids@.len() - i,
        {
            let id: u64 = dirty_ids[i];
            let ghost mid = self.pool@;
            let _ = self.pool.remove(id);
            proof {
                assert(dirty_ids@.take(i + 1).drop_last() =~= dirty_ids@.take(i as int));
                assert(dirty_ids@.take(i + 1).last() == id);
                assert forall|x: u64| #[trigger]
                    self.pool@.frames.contains_key(x) && !self.pool@.dirty.contains(
                        x,
                    ) implies self.pool@.frames[x].page == self.heap_file@[x as int] by {
                    assert(mid.frames.contains_key(x) && !mid.dirty.contains(x));
                }
                assert forall|x: u64| #[trigger]
                    self.pool@.dirty.contains(x) implies self.pool@.frames.contains_key(x) by {
                    assert(mid.dirty.contains(x));
                }
            }
            i = i + 1;
        }
        proof {
            assert forall|x: u64| !self.pool@.dirty.contains(x) by {
                if self.pool@.dirty.contains(x) {
                    assert(dirty_ids@.to_set().contains(x));
                    assert(dirty_ids@.contains(x));
                    let j = choose|j: int| 0 <= j < dirty_ids@.len() && dirty_ids@[j] == x;
                    assert(!self.pool@.dirty.contains(dirty_ids@[j]));
                }
            }
            assert(self.pool@.dirty =~= Set::<u64>::empty());
            assert forall|k: int| 0 <= k < self@.len() implies self@[k] == self.heap_file@[k] by {
                if self.pool@.frames.contains_key(k as u64) {
                    assert(self.pool@.frames.contains_key(k as u64) && !self.pool@.dirty.contains(
                        k as u64,
                    ));
                }
            }
            assert(self@ =~= self.heap_file@);
            assert(dirty_ids@.take(i as int) =~= dirty_ids@);
            assert(paging::lists(dirty_ids@, old(self).dirty()));
        }
    }

    /// The LSN of the last log record that changed the page, or 0.
    pub fn page_lsn(&self, id: u64) -> (lsn: u64)
        ensures
            lsn == self.lsn_of(id),
    {
        self.pool.page_lsn(id)
    }

    /// Records that a log record changed the page.
    pub fn update_lsn(&mut self, id: u64, lsn: u64)
        requires
            old(self).wf(),
        ensures
            final(self).wf(),
            final(self)@ == old(self)@,
            final(self).stored() == old(self).stored(),
            final(self).written() == old(self).written(),
            final(self).pool_view() == old(self).pool_view().update_lsn(id, lsn),
    {
        self.pool.update_lsn(id, lsn);
        proof {
            assert(self.pool@.frames.dom() =~= old(self).pool@.frames.dom());
            paging::lemma_bookkeeping(self.heap_file@, old(self).pool@, self.pool@);
        }
    }

    /// The ids of the dirty pages, each once.
    pub fn dirty_page_ids(&self) -> (ids: Vec<u64>)
        ensures
            ids@.no_duplicates(),
            ids@.to_set() == self.dirty(),
    {
        self.pool.dirty_page_ids()
    }

    /// The dirty pages, each once, with their recovery LSNs.
    pub fn dirty_page_table(&self) -> (dpt: Vec<(u64, u64)>)
        ensures
            Seq::new(dpt@.len(), |i: int| dpt@[i].0).no_duplicates(),
            Seq::new(dpt@.len(), |i: int| dpt@[i].0).to_set() == self.dirty(),
            forall|i: int|
                0 <= i < dpt@.len() ==> (#[trigger] dpt@[i]).1 == buffer_pool::lsn_or_zero(
                    self.rec_lsn_of(dpt@[i].0),
                ),
    {
        self.pool.dirty_page_table()
    }

    /// Lets the file have at least `n` pages.
    pub fn grow_to(&mut self, n: u64)
        requires
            old(self).wf(),
            n <= MAX_PAGES,
        ensures
            final(self).wf(),
            final(self).capacity() == old(self).capacity(),
            final(self)@.len() == (if n > old(self)@.len() {
                n as int
            } else {
                old(self)@.len() as int
            }),
            final(self)@.take(old(self)@.len() as int) == old(self)@,
            forall|i: int|
                old(self)@.len() <= i < final(self)@.len() ==> (#[trigger] final(self)@[i]).data@
                    == Seq::new(HEAP_PAGE_SIZE as nat, |k: int| 0u8),
            final(self).pool_view() == old(self).pool_view(),
            final(self).stored().len() == final(self)@.len(),
            final(self).stored().take(old(self)@.len() as int) == old(self).stored(),
    {
        assert(self.heap_file@.take(self@.len() as int) =~= self.heap_file@);
        while self.next_id < n
            invariant
                self.wf(),
                self.pool == old(self).pool,
                old(self).heap_file@.len() == old(self)@.len(),
                self.heap_file@.len() == self@.len(),
                self.heap_file@.take(old(self)@.len() as int) == old(self).heap_file@,
                self.capacity() == old(self).capacity(),
                n <= MAX_PAGES,
                old(self)@.len() <= self@.len(),
                self@.len() <= n || self@.len() == old(self)@.len(),
                self@.take(old(self)@.len() as int) == old(self)@,
                forall|i: int|
                    old(self)@.len() <= i < self@.len() ==> (#[trigger] self@[i]).data@ == Seq::new(
                        HEAP_PAGE_SIZE as nat,
                        |k: int| 0u8,
                    ),
            decreases n - self.next_id,
        {
            let page = HeapPage { data: [0u8; HEAP_PAGE_SIZE] };
            let ghost mid = *self;
            self.heap_file.extend(page);
            self.next_id = self.next_id + 1;
            proof {
                assert forall|x: u64| #[trigger]
                    self.pool@.frames.contains_key(x) && !self.pool@.dirty.contains(
                        x,
                    ) implies self.pool@.frames[x].page == self.heap_file@[x as int] by {
                    assert(mid.pool@.frames.contains_key(x) && !mid.pool@.dirty.contains(x));
                }
                assert(page.data@ =~= Seq::new(HEAP_PAGE_SIZE as nat, |k: int| 0u8));
                assert(self@ =~= mid@.push(page));
                assert(self@.take(old(self)@.len() as int) =~= mid@.take(old(self)@.len() as int));
                assert(self.heap_file@.take(old(self)@.len() as int) =~= mid.heap_file@.take(
                    old(self)@.len() as int,
                ));
            }
        }
        assert(self@.take(old(self)@.len() as int) =~= old(self)@);
    }

    /// Hands out the ids of the pages that were written to the file, the
    /// earliest first.
    pub fn take_written(&mut self) -> (ids: Vec<u64>)
        requires
            old(self).wf(),
        ensures
            final(self).wf(),
            final(self)@ == old(self)@,
            final(self).stored() == old(self).stored(),
            final(self).pool_view() == old(self).pool_view(),
            final(self).capacity() == old(self).capacity(),
            ids@ == old(self).written(),
            final(self).written() == Seq::<u64>::empty(),
    {
        self.heap_file.take_written()
    }

    /// Where a page starts in the file.
    pub fn page_offset(id: u64) -> (offset: u64)
        requires
            id <= MAX_PAGES,
        ensures
            offset == id * HEAP_PAGE_SIZE,
    {
        let size: u64 = HEAP_PAGE_SIZE as u64;
        assert(size * id == 8192 * id) by (nonlinear_arith)
            requires
                size == 8192,
        ;
        size * id
    }

    /// A page as it is in the file.
    pub fn stored_page(&self, id: u64) -> (r: Result<HeapPage, StorageError>)
        ensures
            r == (if id < self.stored().len() {
                Ok::<HeapPage, StorageError>(self.stored()[id as int])
            } else {
                Err::<HeapPage, StorageError>(StorageError::ShortRead)
            }),
    {
        self.heap_file.read(id)
    }
}

} // verus!
