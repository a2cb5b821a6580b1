//! Laws of the buffer pool, and of files whose pages go through it.

use super::buffer_pool;
use super::buffer_pool::{FrameEntry, PoolView};
use super::heap::Heap;
use super::index::Index;
use super::paging;
use super::paging::FileState;
use super::wal;
use super::wal::{LogView, Wal};
use super::wal_laws;
use vstd::prelude::*;

verus! {

/// The ids but for one, in their order.
pub open spec fn others(s: Seq<u64>, id: u64) -> Seq<u64> {
    s.filter(|x: u64| x != id)
}

/// Taking an id out of a list keeps the others in their order.
pub proof fn lemma_kept(s: Seq<u64>, id: u64)
    ensures
        buffer_pool::without(s, id) == others(s, id),
    decreases s.len(),
{
    reveal(Seq::filter);
    if s.len() > 0 {
        lemma_kept(s.drop_last(), id);
    } else {
        assert(s.filter(|x: u64| x != id) =~= s);
    }
}

/// A page that is used is the most recently used one then. The others keep their order,
/// and nothing else changes.
pub proof fn lemma_touched<P>(p: PoolView<P>, id: u64)
    ensures
        p.touch(id).lru == others(p.lru, id).push(id),
        p.touch(id).frames == p.frames,
        p.touch(id).dirty == p.dirty,
        p.touch(id).max_frames == p.max_frames,
{
    lemma_kept(p.lru, id);
}

/// The page that leaves is, of those that nobody has pinned, the one that was not used
/// for the longest time.
pub proof fn lemma_least_recent<P>(p: PoolView<P>, i: int)
    requires
        p.lru.no_duplicates(),
        0 <= i < p.lru.len(),
    ensures
        p.victim() == Some(p.lru[i]) <==> p.frames.contains_key(p.lru[i])
            && p.frames[p.lru[i]].pin_count == 0 && forall|j: int|
            0 <= j < i && p.frames.contains_key(#[trigger] p.lru[j])
                ==> p.frames[p.lru[j]].pin_count > 0,
{
    lemma_first(p, 0, i);
}

proof fn lemma_first<P>(p: PoolView<P>, from: int, i: int)
    requires
        p.lru.no_duplicates(),
        0 <= from <= i < p.lru.len(),
    ensures
        p.first_unpinned(from) == Some(p.lru[i]) <==> p.frames.contains_key(p.lru[i])
            && p.frames[p.lru[i]].pin_count == 0 && forall|j: int|
            from <= j < i && p.frames.contains_key(#[trigger] p.lru[j])
                ==> p.frames[p.lru[j]].pin_count > 0,
    decreases p.lru.len() - from,
{
    let x = p.lru[from];
    if p.frames.contains_key(x) && p.frames[x].pin_count == 0 {
        if from < i {
            assert(p.lru[from] != p.lru[i]);
        }
    } else if from < i {
        lemma_first(p, from + 1, i);
    } else {
        lemma_first_later(p, from + 1, i);
    }
}

proof fn lemma_first_later<P>(p: PoolView<P>, from: int, i: int)
    requires
        p.lru.no_duplicates(),
        0 <= i < from,
        i < p.lru.len(),
    ensures
        p.first_unpinned(from) != Some(p.lru[i]),
    decreases p.lru.len() - from,
{
    if from < p.lru.len() {
        assert(p.lru[from] != p.lru[i]);
        lemma_first_later(p, from + 1, i);
    }
}

/// No page leaves where all pages are pinned.
pub proof fn lemma_no_victim<P>(p: PoolView<P>)
    requires
        p.inv(),
    ensures
        p.victim() is None <==> forall|id: u64| #[trigger]
            p.frames.contains_key(id) ==> p.frames[id].pin_count > 0,
{
    p.lemma_victim(0);
    if p.victim() is None {
        assert forall|id: u64| #[trigger]
            p.frames.contains_key(id) implies p.frames[id].pin_count > 0 by {
            if p.frames[id].pin_count == 0 {
                p.lemma_victim_exists(id);
            }
        }
    }
}

/// What is known of a page that was just taken in: nobody has pinned or changed it.
pub open spec fn fresh<P>(e: FrameEntry<P>, page: P) -> bool {
    e.page == page && e.pin_count == 0 && e.page_lsn == 0 && e.rec_lsn is None
}

/// Taking a page in: a page that is there stays as it is; else it comes in fresh, and if
/// the pool is full the least recently used page that is not pinned leaves for it. No
/// other page changes, and none becomes dirty. It is the most recently used one then.
pub proof fn lemma_inserted<P>(p: PoolView<P>, id: u64, page: P)
    requires
        p.inv(),
    ensures
        ({
            let q = p.insert(id, page);
            let full = p.frames.len() >= p.max_frames;
            &&& q.max_frames == p.max_frames
            &&& p.frames.contains_key(id) ==> q.frames == p.frames && q.dirty == p.dirty
            &&& !p.frames.contains_key(id) && !full ==> {
                &&& q.frames.contains_key(id) && fresh(q.frames[id], page)
                &&& q.frames.remove(id) == p.frames
                &&& q.dirty == p.dirty
            }
            &&& !p.frames.contains_key(id) && full ==> match p.victim() {
                None => q == p,
                Some(v) => {
                    &&& q.frames.contains_key(id) && fresh(q.frames[id], page)
                    &&& q.frames.remove(id) == p.frames.remove(v)
                    &&& v != id && !q.frames.contains_key(v)
                    &&& q.dirty == p.dirty.remove(v)
                    &&& q.lru == others(others(p.lru, v), id).push(id)
                },
            }
            &&& (p.frames.contains_key(id) || !full || p.victim() is Some) ==> q.lru.last() == id
                && q.lru.len() > 0
            &&& (p.frames.contains_key(id) || !full) ==> q.lru == others(p.lru, id).push(id)
        }),
{
    lemma_kept(p.lru, id);
    let q = p.insert(id, page);
    p.lemma_victim(0);
    if !p.frames.contains_key(id) {
        if p.frames.len() < p.max_frames {
            assert(q.frames.remove(id) =~= p.frames);
        } else if let Some(v) = p.victim() {
            lemma_kept(p.lru, v);
            lemma_kept(buffer_pool::without(p.lru, v), id);
            assert(q.frames.remove(id) =~= p.frames.remove(v));
        }
    }
}

/// Changing a page of the pool: it is dirty then and has the new contents, and its LSNs
/// and pins stay. No other page changes.
pub proof fn lemma_page_updated<P>(p: PoolView<P>, id: u64, page: P)
    requires
        p.frames.contains_key(id),
    ensures
        ({
            let q = p.update_page(id, page);
            &&& q.frames[id].page == page
            &&& q.frames[id].pin_count == p.frames[id].pin_count
            &&& q.frames[id].page_lsn == p.frames[id].page_lsn
            &&& q.frames[id].rec_lsn == p.frames[id].rec_lsn
            &&& q.frames.contains_key(id)
            &&& q.frames.remove(id) == p.frames.remove(id)
            &&& q.dirty == p.dirty.insert(id)
            &&& q.lru == others(p.lru, id).push(id)
            &&& q.max_frames == p.max_frames
        }),
{
    lemma_kept(p.lru, id);
    assert(p.update_page(id, page).frames.remove(id) =~= p.frames.remove(id));
}

/// Changing a page that the pool does not have takes it in, and marks it dirty.
pub proof fn lemma_page_added<P>(p: PoolView<P>, id: u64, page: P)
    requires
        !p.frames.contains_key(id),
    ensures
        p.update_page(id, page).frames == p.insert(id, page).frames,
        p.update_page(id, page).lru == p.insert(id, page).lru,
        p.update_page(id, page).dirty == p.insert(id, page).dirty.insert(id),
        p.update_page(id, page).max_frames == p.max_frames,
{
}

/// Logging a change of a page: it is dirty then and has the LSN of the change; the LSN of
/// the first change since it was clean stays, and is this one where there was none.
pub proof fn lemma_lsn_updated<P>(p: PoolView<P>, id: u64, lsn: u64)
    requires
        p.frames.contains_key(id),
    ensures
        ({
            let q = p.update_lsn(id, lsn);
            &&& q.frames[id].page_lsn == lsn
            &&& p.frames[id].rec_lsn is Some ==> q.frames[id].rec_lsn == p.frames[id].rec_lsn
            &&& p.frames[id].rec_lsn is None ==> q.frames[id].rec_lsn == Some(lsn)
            &&& q.frames[id].page == p.frames[id].page
            &&& q.frames[id].pin_count == p.frames[id].pin_count
            &&& q.frames.contains_key(id)
            &&& q.frames.remove(id) == p.frames.remove(id)
            &&& q.dirty == p.dirty.insert(id)
            &&& q.max_frames == p.max_frames
        }),
{
    assert(p.update_lsn(id, lsn).frames.remove(id) =~= p.frames.remove(id));
}

/// Logging changes one after the other: the page has the LSN of the last one, and lacks
/// in its file what came from the first one on.
pub proof fn lemma_lsn_first<P>(p: PoolView<P>, id: u64, first: u64, second: u64)
    requires
        p.frames.contains_key(id),
        p.frames[id].rec_lsn is None,
    ensures
        p.update_lsn(id, first).update_lsn(id, second).frames[id].page_lsn == second,
        p.update_lsn(id, first).update_lsn(id, second).frames[id].rec_lsn == Some(first),
{
}

/// Logging a change of a page that the pool does not have changes no page and marks none.
pub proof fn lemma_lsn_absent<P>(p: PoolView<P>, id: u64, lsn: u64)
    requires
        !p.frames.contains_key(id),
    ensures
        p.update_lsn(id, lsn).frames == p.frames,
        p.update_lsn(id, lsn).dirty == p.dirty,
        p.update_lsn(id, lsn).max_frames == p.max_frames,
{
}

/// Once the dirty marks are cleared no page is dirty or lacks a change; all pages stay,
/// with their contents, their pins and their LSNs.
pub proof fn lemma_cleared<P>(p: PoolView<P>)
    ensures
        ({
            let q = p.clear_dirty();
            &&& forall|id: u64| !(#[trigger] q.dirty.contains(id))
            &&& q.frames.dom() == p.frames.dom()
            &&& forall|id: u64| #[trigger]
                p.frames.contains_key(id) ==> {
                    &&& q.frames[id].rec_lsn is None
                    &&& q.frames[id].page == p.frames[id].page
                    &&& q.frames[id].pin_count == p.frames[id].pin_count
                    &&& q.frames[id].page_lsn == p.frames[id].page_lsn
                }
            &&& q.lru == p.lru
            &&& q.max_frames == p.max_frames
        }),
{
    assert(p.clear_dirty().frames.dom() =~= p.frames.dom());
}

/// Clearing the mark of one page leaves the others as they are.
pub proof fn lemma_cleared_one<P>(p: PoolView<P>, id: u64)
    ensures
        ({
            let q = p.clear_dirty_single(id);
            &&& q.dirty == p.dirty.remove(id)
            &&& q.frames.dom() == p.frames.dom()
            &&& q.frames.remove(id) == p.frames.remove(id)
            &&& p.frames.contains_key(id) ==> {
                &&& q.frames[id].rec_lsn is None
                &&& q.frames[id].page == p.frames[id].page
                &&& q.frames[id].pin_count == p.frames[id].pin_count
                &&& q.frames[id].page_lsn == p.frames[id].page_lsn
            }
            &&& q.lru == p.lru
            &&& q.max_frames == p.max_frames
        }),
{
    let q = p.clear_dirty_single(id);
    assert(q.frames.dom() =~= p.frames.dom());
    assert(q.frames.remove(id) =~= p.frames.remove(id));
}

/// A page that is removed leaves nothing behind; the others stay as they are.
pub proof fn lemma_dropped<P>(p: PoolView<P>, id: u64)
    ensures
        ({
            let q = p.drop_page(id);
            &&& !q.frames.contains_key(id) && !q.dirty.contains(id)
            &&& forall|x: u64|
                x != id ==> (#[trigger] q.frames.contains_key(x) <==> p.frames.contains_key(x))
            &&& forall|x: u64|
                x != id && p.frames.contains_key(x) ==> #[trigger] q.frames[x] == p.frames[x]
            &&& forall|x: u64|
                x != id ==> (#[trigger] q.dirty.contains(x) <==> p.dirty.contains(x))
            &&& q.lru == others(p.lru, id)
            &&& q.max_frames == p.max_frames
        }),
{
    lemma_kept(p.lru, id);
}

/// Taking in a page writes at most the page that leaves to the file, and that one with
/// the contents that it had in the pool. It is written if it was dirty, and the log is on
/// disk up to its LSN then.
pub proof fn lemma_taken_in<P>(s: FileState<P>, id: u64, page: P, dirty: bool)
    requires
        paging::in_step(s.stored, s.pool),
        wal_laws::in_parts(s.log),
        s.pool.frames.contains_key(id) || s.pool.frames.len() < s.pool.max_frames
            || s.pool.victim() is Some,
    ensures
        ({
            let t = s.take_in(id, page, dirty);
            let leaves = !s.pool.frames.contains_key(id) && s.pool.frames.len()
                >= s.pool.max_frames;
            let v = s.pool.victim()->0;
            &&& t.pool.frames == s.pool.insert(id, page).frames
            &&& t.pool.lru == s.pool.insert(id, page).lru
            &&& t.pool.max_frames == s.pool.max_frames
            &&& forall|x: u64| #[trigger]
                t.pool.dirty.contains(x) <==> (s.pool.dirty.contains(x) && !(leaves && x == v)) || (
                dirty && x == id)
            &&& leaves && s.pool.dirty.contains(v) ==> {
                &&& t.stored == s.stored.update(v as int, s.pool.frames[v].page)
                &&& t.written == s.written.push(v)
                &&& t.log == s.log.flush(s.pool.frames[v].page_lsn)
                &&& forall|i: int|
                    0 <= i < wal::records_in(t.log.pending).len() ==> (#[trigger] wal::records_in(
                        t.log.pending,
                    )[i]).header.lsn > s.pool.frames[v].page_lsn
            }
            &&& !(leaves && s.pool.dirty.contains(v)) ==> {
                &&& t.stored == s.stored
                &&& t.written == s.written
                &&& t.log == s.log
            }
        }),
{
    let t = s.take_in(id, page, dirty);
    let leaves = !s.pool.frames.contains_key(id) && s.pool.frames.len() >= s.pool.max_frames;
    if leaves {
        let v = s.pool.victim()->0;
        s.pool.lemma_victim(0);
        if s.pool.dirty.contains(v) {
            let lsn = s.pool.frames[v].page_lsn;
            wal_laws::lemma_flushed(s.log, lsn);
            let all = wal::records_in(s.log.all());
            let now = wal::records_in(t.log.durable).len() as int;
            assert forall|i: int| 0 <= i < wal::records_in(t.log.pending).len() implies (
            #[trigger] wal::records_in(t.log.pending)[i]).header.lsn > lsn by {
                assert(wal::records_in(t.log.pending)[i] == all[now + i]);
            }
        }
    }
}

/// Reading a page: one that the pool has is used, and one that it has not is taken in as
/// the file holds it, and is not dirty.
pub proof fn lemma_fetched<P>(s: FileState<P>, id: u64)
    requires
        paging::in_step(s.stored, s.pool),
    ensures
        s.pool.frames.contains_key(id) ==> s.fetch(id) == (FileState {
            pool: PoolView { lru: others(s.pool.lru, id).push(id), ..s.pool },
            ..s
        }),
        !s.pool.frames.contains_key(id) && id < s.stored.len() && s.pool.max_frames > 0 ==> s.fetch(
            id,
        ) == (FileState {
            pool: PoolView { lru: others(s.pool.lru, id).push(id), ..s.pool },
            ..s
        }).take_in(id, s.stored[id as int], false),
{
    lemma_kept(s.pool.lru, id);
}

/// Holding a page pins it once more and marks it dirty; all else stays.
pub proof fn lemma_held<P>(s: FileState<P>, id: u64)
    requires
        s.pool.frames.contains_key(id),
        s.pool.frames[id].pin_count < u32::MAX,
    ensures
        ({
            let t = s.hold(id);
            &&& t.pool.frames[id].pin_count == s.pool.frames[id].pin_count + 1
            &&& t.pool.frames[id].page == s.pool.frames[id].page
            &&& t.pool.frames[id].page_lsn == s.pool.frames[id].page_lsn
            &&& t.pool.frames[id].rec_lsn == s.pool.frames[id].rec_lsn
            &&& t.pool.frames.contains_key(id)
            &&& t.pool.frames.remove(id) == s.pool.frames.remove(id)
            &&& t.pool.dirty == s.pool.dirty.insert(id)
            &&& t.pool.lru == s.pool.lru
            &&& t.pool.max_frames == s.pool.max_frames
            &&& t.stored == s.stored && t.written == s.written && t.log == s.log
        }),
{
    assert(s.hold(id).pool.frames.remove(id) =~= s.pool.frames.remove(id));
}

/// Writing pages out one after the other: the file has their contents then, and what it
/// had of all other pages; the log is on disk up to the LSN of each; the pool still has
/// all pages.
pub proof fn lemma_written_out<P>(s: FileState<P>, ids: Seq<u64>)
    requires
        wal_laws::in_parts(s.log),
        forall|i: int|
            0 <= i < ids.len() ==> s.pool.frames.contains_key(#[trigger] ids[i]) && ids[i]
                < s.stored.len(),
    ensures
        ({
            let t = s.write_each(ids);
            &&& t.stored.len() == s.stored.len()
            &&& forall|i: int|
                0 <= i < ids.len() ==> t.stored[#[trigger] ids[i] as int]
                    == s.pool.frames[ids[i]].page
            &&& forall|x: u64|
                x < s.stored.len() && !#[trigger] ids.contains(x) ==> t.stored[x as int]
                    == s.stored[x as int]
            &&& t.written == s.written + ids
            &&& wal_laws::in_parts(t.log)
            &&& wal::records_in(t.log.all()) == wal::records_in(s.log.all())
            &&& t.log.header == s.log.header
            &&& forall|i: int|
                0 <= i < ids.len() ==> t.log.covers(s.pool.frames[#[trigger] ids[i]].page_lsn)
            &&& forall|lsn: u64| s.log.covers(lsn) ==> #[trigger] t.log.covers(lsn)
            &&& t.pool.frames == s.pool.frames
            &&& t.pool.dirty == s.pool.dirty
            &&& t.pool.max_frames == s.pool.max_frames
        }),
    decreases ids.len(),
{
    if ids.len() == 0 {
        assert(s.written + ids =~= s.written);
    } else {
        let init = ids.drop_last();
        let n = init.len() as int;
        let id = ids[n];
        assert forall|i: int| 0 <= i < init.len() implies s.pool.frames.contains_key(
            #[trigger] init[i],
        ) && init[i] < s.stored.len() by {
            assert(init[i] == ids[i]);
        }
        lemma_written_out(s, init);
        let m = s.write_each(init);
        let t = s.write_each(ids);
        let lsn = s.pool.frames[id].page_lsn;
        assert(s.pool.frames.contains_key(ids[n]));
        wal_laws::lemma_flushed(m.log, lsn);
        lemma_flush_covers(m.log, lsn);
        assert(t.written =~= s.written + ids);
        assert forall|i: int| 0 <= i < ids.len() implies t.stored[#[trigger] ids[i] as int]
            == s.pool.frames[ids[i]].page && t.log.covers(s.pool.frames[ids[i]].page_lsn) by {
            if i < n {
                assert(init[i] == ids[i]);
                assert(m.stored[init[i] as int] == s.pool.frames[init[i]].page);
                assert(m.log.covers(s.pool.frames[init[i]].page_lsn));
            }
        }
        assert forall|x: u64|
            x < s.stored.len() && !#[trigger] ids.contains(x) implies t.stored[x as int]
            == s.stored[x as int] by {
            assert(x != ids[n]);
            if init.contains(x) {
                let i = choose|i: int| 0 <= i < init.len() && init[i] == x;
                assert(ids[i] == x);
            }
            assert(!init.contains(x));
        }
        assert forall|l: u64| s.log.covers(l) implies #[trigger] t.log.covers(l) by {
            assert(m.log.covers(l));
        }
    }
}

/// A log that is written out up to an LSN covers it, and what it covered before.
pub proof fn lemma_flush_covers(log: LogView, lsn: u64)
    requires
        wal_laws::in_parts(log),
    ensures
        log.flush(lsn).covers(lsn),
        forall|l: u64| log.covers(l) ==> #[trigger] log.flush(lsn).covers(l),
{
    let log2 = log.flush(lsn);
    wal_laws::lemma_flushed(log, lsn);
    let all = wal::records_in(log.all());
    let now = wal::records_in(log2.durable).len() as int;
    let was = wal::records_in(log.durable).len() as int;
    wal_laws::lemma_covers(log2, lsn);
    wal_laws::lemma_all_records(log);
    assert forall|i: int| 0 <= i < wal::records_in(log2.pending).len() implies (
    #[trigger] wal::records_in(log2.pending)[i]).header.lsn > lsn by {
        assert(wal::records_in(log2.pending)[i] == all[now + i]);
    }
    assert forall|l: u64| log.covers(l) implies #[trigger] log2.covers(l) by {
        wal_laws::lemma_covers(log, l);
        wal_laws::lemma_covers(log2, l);
        assert forall|i: int| 0 <= i < wal::records_in(log2.pending).len() implies (
        #[trigger] wal::records_in(log2.pending)[i]).header.lsn > l by {
            assert(wal::records_in(log2.pending)[i] == all[now + i]);
            assert(wal::records_in(log.pending)[now + i - was] == all[now + i]);
        }
    }
}

/// Flushing a page that is dirty writes it to the file, with the log before it, and
/// clears its mark alone. One that is not dirty is left as it is.
pub proof fn lemma_flushed_page<P>(s: FileState<P>, id: u64)
    requires
        wal_laws::in_parts(s.log),
        paging::in_step(s.stored, s.pool),
    ensures
        !s.pool.dirty.contains(id) ==> s.flush(id) == s,
        s.pool.dirty.contains(id) ==> {
            let t = s.flush(id);
            &&& t.stored == s.stored.update(id as int, s.pool.frames[id].page)
            &&& t.written == s.written.push(id)
            &&& t.log == s.log.flush(s.pool.frames[id].page_lsn)
            &&& t.log.covers(s.pool.frames[id].page_lsn)
            &&& t.pool.dirty == s.pool.dirty.remove(id)
            &&& t.pool.frames.dom() == s.pool.frames.dom()
            &&& t.pool.frames.remove(id) == s.pool.frames.remove(id)
            &&& t.pool.frames[id].page == s.pool.frames[id].page
            &&& t.pool.frames[id].page_lsn == s.pool.frames[id].page_lsn
            &&& t.pool.frames[id].pin_count == s.pool.frames[id].pin_count
            &&& t.pool.frames[id].rec_lsn is None
        },
{
    if s.pool.dirty.contains(id) {
        lemma_flush_covers(s.log, s.pool.frames[id].page_lsn);
        lemma_cleared_one(s.pool.touch(id), id);
    }
}

/// Flushing the dirty pages, in whatever order: the file is the pages as they are in the
/// pool then, the log is on disk up to the LSN of each, and no page is dirty.
pub proof fn lemma_flushed_pages<P>(s: FileState<P>, ids: Seq<u64>)
    requires
        wal_laws::in_parts(s.log),
        paging::in_step(s.stored, s.pool),
        ids.to_set() == s.pool.dirty,
    ensures
        ({
            let t = s.flush_all(ids);
            &&& t.stored == paging::current(s.stored, s.pool)
            &&& forall|id: u64| !(#[trigger] t.pool.dirty.contains(id))
            &&& forall|id: u64| #[trigger]
                s.pool.dirty.contains(id) ==> t.log.covers(s.pool.frames[id].page_lsn)
            &&& t.written == s.written + ids
            &&& t.pool.frames.dom() == s.pool.frames.dom()
            &&& forall|id: u64| #[trigger]
                s.pool.frames.contains_key(id) ==> t.pool.frames[id].page
                    == s.pool.frames[id].page && t.pool.frames[id].rec_lsn is None
                    && t.pool.frames[id].page_lsn == s.pool.frames[id].page_lsn
                    && t.pool.frames[id].pin_count == s.pool.frames[id].pin_count
        }),
{
    let t = s.flush_all(ids);
    assert forall|i: int| 0 <= i < ids.len() implies s.pool.frames.contains_key(
        #[trigger] ids[i],
    ) && ids[i] < s.stored.len() by {
        assert(ids.to_set().contains(ids[i]));
        assert(s.pool.dirty.contains(ids[i]));
    }
    lemma_written_out(s, ids);
    lemma_cleared(s.write_each(ids).pool);
    let now = paging::current(s.stored, s.pool);
    assert forall|i: int| 0 <= i < now.len() implies t.stored[i] == now[i] by {
        let x = i as u64;
        if s.pool.dirty.contains(x) {
            assert(ids.to_set().contains(x));
            let j = choose|j: int| 0 <= j < ids.len() && ids[j] == x;
            assert(t.stored[ids[j] as int] == s.pool.frames[ids[j]].page);
        } else {
            assert(!ids.contains(x)) by {
                if ids.contains(x) {
                    assert(ids.to_set().contains(x));
                }
            }
            if s.pool.frames.contains_key(x) {
                assert(s.pool.frames[x].page == s.stored[x as int]);
            }
        }
    }
    assert(t.stored =~= now);
    assert forall|id: u64| #[trigger] s.pool.dirty.contains(id) implies t.log.covers(
        s.pool.frames[id].page_lsn,
    ) by {
        assert(ids.to_set().contains(id));
        let j = choose|j: int| 0 <= j < ids.len() && ids[j] == id;
        assert(t.log.covers(s.pool.frames[ids[j]].page_lsn));
    }
}

/// A page that is allocated is the last of the file, empty there, and in the pool with
/// its contents and dirty.
pub proof fn lemma_allocated<P>(s: FileState<P>, empty: P, page: P)
    requires
        s.stored.len() < u64::MAX,
        !s.pool.frames.contains_key(s.stored.len() as u64),
        s.pool.frames.len() < s.pool.max_frames,
    ensures
        ({
            let t = s.allocate(empty, page);
            let id = s.stored.len() as u64;
            &&& t.stored == s.stored.push(empty)
            &&& t.written == s.written.push(id)
            &&& t.log == s.log
            &&& t.pool.frames.contains_key(id) && fresh(t.pool.frames[id], page)
            &&& t.pool.frames.remove(id) == s.pool.frames
            &&& t.pool.dirty == s.pool.dirty.insert(id)
        }),
{
    let id = s.stored.len() as u64;
    assert(s.allocate(empty, page).pool.frames.remove(id) =~= s.pool.frames);
}

/// A page that is allocated in a full pool is taken in behind the page that leaves.
pub proof fn lemma_allocated_full<P>(s: FileState<P>, empty: P, page: P)
    ensures
        s.allocate(empty, page) == (FileState {
            stored: s.stored.push(empty),
            written: s.written.push(s.stored.len() as u64),
            ..s
        }).take_in(s.stored.len() as u64, page, true),
{
}

/// Pages that are dropped are gone from the pool, and the others stay as they are.
pub proof fn lemma_dropped_each<P>(p: PoolView<P>, ids: Seq<u64>, x: u64)
    ensures
        ({
            let q = paging::drop_each(p, ids);
            &&& ids.contains(x) ==> !q.frames.contains_key(x) && !q.dirty.contains(x)
            &&& !ids.contains(x) ==> {
                &&& q.frames.contains_key(x) == p.frames.contains_key(x)
                &&& p.frames.contains_key(x) ==> q.frames[x] == p.frames[x]
                &&& q.dirty.contains(x) == p.dirty.contains(x)
            }
            &&& q.max_frames == p.max_frames
        }),
    decreases ids.len(),
{
    if ids.len() > 0 {
        let init = ids.drop_last();
        lemma_dropped_each(p, init, x);
        assert(ids.contains(x) <==> init.contains(x) || ids.last() == x) by {
            if init.contains(x) {
                let i = choose|i: int| 0 <= i < init.len() && init[i] == x;
                assert(ids[i] == x);
            }
            if ids.contains(x) {
                let i = choose|i: int| 0 <= i < ids.len() && ids[i] == x;
                if i < init.len() {
                    assert(init[i] == x);
                }
            }
        }
    }
}

/// The pages of a file are as the pool has them, and those that it does not have as they
/// are stored.
pub proof fn lemma_current<P>(stored: Seq<P>, p: PoolView<P>, id: u64)
    requires
        id < stored.len(),
    ensures
        paging::current(stored, p).len() == stored.len(),
        p.frames.contains_key(id) ==> paging::current(stored, p)[id as int] == p.frames[id].page,
        !p.frames.contains_key(id) ==> paging::current(stored, p)[id as int] == stored[id as int],
{
}

/// The log comes first: once a dirty page of the index file has left the pool or was written,
/// no record up to its LSN is in the buffer of the log any more.
pub proof fn lemma_index_log_first(a: Index, b: Index, wal: Wal, id: u64)
    requires
        wal.wf(),
        a.log_first(b, wal),
        a.pool_view().dirty.contains(id),
        a.pool_view().frames.contains_key(id),
        !b.pool_view().dirty.contains(id) || !b.pool_view().frames.contains_key(id)
            || b.pool_view().frames[id].page_lsn != a.pool_view().frames[id].page_lsn,
        b.pool_view().dirty.contains(id) ==> b.pool_view().frames.contains_key(id),
    ensures
        forall|i: int|
            0 <= i < wal::records_in(wal@.pending).len() ==> (#[trigger] wal::records_in(
                wal@.pending,
            )[i]).header.lsn > a.pool_view().frames[id].page_lsn,
{
    wal.lemma_parts();
    assert(a.dirty().contains(id));
    wal_laws::lemma_covers(wal@, a.lsn_of(id));
}

/// What the index file says of its pages is what its pool says.
pub proof fn lemma_index_marks(a: Index, wal: Wal, id: u64)
    ensures
        a.dirty() == a.pool_view().dirty,
        a.resident(id) <==> a.pool_view().frames.contains_key(id),
        a.resident(id) ==> a.lsn_of(id) == a.pool_view().frames[id].page_lsn && a.rec_lsn_of(id)
            == a.pool_view().frames[id].rec_lsn,
        !a.resident(id) ==> a.lsn_of(id) == 0 && a.rec_lsn_of(id) is None,
        a.state(wal).pool == a.pool_view(),
        a.state(wal).stored == a.stored(),
        a.state(wal).written == a.written(),
        a.state(wal).log == wal@,
{
}

/// The log comes first: once a dirty page of the heap file has left the pool or was written,
/// no record up to its LSN is in the buffer of the log any more.
pub proof fn lemma_heap_log_first(a: Heap, b: Heap, wal: Wal, id: u64)
    requires
        wal.wf(),
        a.log_first(b, wal),
        a.pool_view().dirty.contains(id),
        a.pool_view().frames.contains_key(id),
        !b.pool_view().dirty.contains(id) || !b.pool_view().frames.contains_key(id)
            || b.pool_view().frames[id].page_lsn != a.pool_view().frames[id].page_lsn,
        b.pool_view().dirty.contains(id) ==> b.pool_view().frames.contains_key(id),
    ensures
        forall|i: int|
            0 <= i < wal::records_in(wal@.pending).len() ==> (#[trigger] wal::records_in(
                wal@.pending,
            )[i]).header.lsn > a.pool_view().frames[id].page_lsn,
{
    wal.lemma_parts();
    assert(a.dirty().contains(id));
    wal_laws::lemma_covers(wal@, a.lsn_of(id));
}

/// What the heap file says of its pages is what its pool says.
pub proof fn lemma_heap_marks(a: Heap, wal: Wal, id: u64)
    ensures
        a.dirty() == a.pool_view().dirty,
        a.resident(id) <==> a.pool_view().frames.contains_key(id),
        a.resident(id) ==> a.lsn_of(id) == a.pool_view().frames[id].page_lsn && a.rec_lsn_of(id)
            == a.pool_view().frames[id].rec_lsn,
        !a.resident(id) ==> a.lsn_of(id) == 0 && a.rec_lsn_of(id) is None,
        a.state(wal).pool == a.pool_view(),
        a.state(wal).stored == a.stored(),
        a.state(wal).written == a.written(),
        a.state(wal).log == wal@,
{
}

/// A page of the index file that the pool does not have is taken in as it is stored.
pub proof fn lemma_index_loaded(a: Index, wal: Wal, id: u64)
    ensures
        a.pool_view().frames.contains_key(id) ==> a.loaded(wal, id) == a.state(wal),
        !a.pool_view().frames.contains_key(id) ==> a.loaded(wal, id) == a.state(wal).take_in(
            id,
            a.stored()[id as int],
            false,
        ),
{
}

} // verus!
