//! How the pages of a file lie between the file and its buffer pool.

use super::buffer_pool::{EvictedPage, FrameEntry, PoolView};
use super::file::MAX_PAGES;
use super::wal::LogView;
use vstd::prelude::*;

verus! {

/// The pages of a file, those in the pool before those in the file.
pub open spec fn current<P>(file: Seq<P>, pool: PoolView<P>) -> Seq<P> {
    Seq::new(
        file.len(),
        |i: int|
            if pool.frames.contains_key(i as u64) {
                pool.frames[i as u64].page
            } else {
                file[i]
            },
    )
}

/// The pool holds pages of the file, and those that are not dirty are as in
/// the file.
pub open spec fn in_step<P>(file: Seq<P>, pool: PoolView<P>) -> bool {
    &&& pool.inv()
    &&& file.len() <= MAX_PAGES
    &&& forall|id: u64| #[trigger] pool.frames.contains_key(id) ==> id < file.len()
    &&& forall|id: u64| #[trigger] pool.dirty.contains(id) ==> pool.frames.contains_key(id)
    &&& forall|id: u64| #[trigger]
        pool.frames.contains_key(id) && !pool.dirty.contains(id) ==> pool.frames[id].page
            == file[id as int]
}

/// What the file holds after a page left the pool.
pub open spec fn after_eviction<P>(file: Seq<P>, evicted: Option<EvictedPage<P>>) -> Seq<P> {
    match evicted {
        Some(e) => if e.was_dirty {
            file.update(e.id as int, e.page)
        } else {
            file
        },
        None => file,
    }
}

/// The page that leaves for a new one, if any.
pub open spec fn evicted_by<P>(pool: PoolView<P>, id: u64) -> Option<EvictedPage<P>> {
    if pool.frames.contains_key(id) || pool.frames.len() < pool.max_frames {
        None
    } else {
        let v = pool.victim().unwrap();
        Some(
            EvictedPage {
                id: v,
                page: pool.frames[v].page,
                was_dirty: pool.dirty.contains(v),
                page_lsn: pool.frames[v].page_lsn,
                rec_lsn: pool.frames[v].rec_lsn,
            },
        )
    }
}

/// The state of a file of pages with its pool and the log.
#[verifier::ext_equal]
#[verifier::reject_recursive_types(P)]
pub struct FileState<P> {
    pub pool: PoolView<P>,
    /// The pages of the file on disk.
    pub stored: Seq<P>,
    /// The ids of the pages that were written to the file and not taken yet.
    pub written: Seq<u64>,
    pub log: LogView,
}

impl<P> FileState<P> {
    /// The page becomes the most recently used one.
    pub open spec fn touch(self, id: u64) -> FileState<P> {
        FileState { pool: self.pool.touch(id), ..self }
    }

    /// A page is taken into the pool. A dirty page that leaves for it is written to
    /// the file, once the log is on disk up to its LSN.
    pub open spec fn take_in(self, id: u64, page: P, dirty: bool) -> FileState<P> {
        let evicted = evicted_by(self.pool, id);
        let pool = self.pool.insert(id, page);
        let back = evicted is Some && evicted->0.was_dirty;
        FileState {
            pool: if dirty {
                pool.add_dirty(id)
            } else {
                pool
            },
            stored: after_eviction(self.stored, evicted),
            written: if back {
                self.written.push(evicted->0.id)
            } else {
                self.written
            },
            log: if back {
                self.log.flush(evicted->0.page_lsn)
            } else {
                self.log
            },
        }
    }

    /// A page is read: if the pool does not have it, it is taken in.
    pub open spec fn fetch(self, id: u64) -> FileState<P> {
        let s = self.touch(id);
        if s.pool.frames.contains_key(id) || id >= s.stored.len() || s.pool.max_frames == 0 {
            s
        } else {
            s.take_in(id, s.stored[id as int], false)
        }
    }

    /// A page of the pool is pinned and marked dirty.
    pub open spec fn hold(self, id: u64) -> FileState<P> {
        let e = self.pool.frames[id];
        FileState {
            pool: self.pool.set_frame(
                id,
                FrameEntry { pin_count: (e.pin_count + 1) as u32, ..e },
            ).add_dirty(id),
            ..self
        }
    }

    /// A page of the pool is written to the file, once the log is on disk up to its
    /// LSN.
    pub open spec fn write_out(self, id: u64) -> FileState<P> {
        let e = self.pool.frames[id];
        FileState {
            pool: self.pool.touch(id),
            stored: self.stored.update(id as int, e.page),
            written: self.written.push(id),
            log: self.log.flush(e.page_lsn),
        }
    }

    /// Pages of the pool are written to the file, one after the other.
    pub open spec fn write_each(self, ids: Seq<u64>) -> FileState<P>
        decreases ids.len(),
    {
        if ids.len() == 0 {
            self
        } else {
            self.write_each(ids.drop_last()).write_out(ids.last())
        }
    }

    /// A dirty page is written to the file, and is not dirty any more.
    pub open spec fn flush(self, id: u64) -> FileState<P> {
        if self.pool.dirty.contains(id) {
            let s = self.write_out(id);
            FileState { pool: s.pool.clear_dirty_single(id), ..s }
        } else {
            self
        }
    }

    /// The dirty pages are written to the file in the given order, and no page is
    /// dirty any more.
    pub open spec fn flush_all(self, ids: Seq<u64>) -> FileState<P> {
        let s = self.write_each(ids);
        FileState { pool: s.pool.clear_dirty(), ..s }
    }

    /// The page `empty` is added at the end of the file, and then `page` takes its
    /// place in the pool.
    pub open spec fn allocate(self, empty: P, page: P) -> FileState<P> {
        let id = self.stored.len() as u64;
        FileState {
            stored: self.stored.push(empty),
            written: self.written.push(id),
            ..self
        }.take_in(id, page, true)
    }
}

/// A pool without the given pages.
pub open spec fn drop_each<P>(pool: PoolView<P>, ids: Seq<u64>) -> PoolView<P>
    decreases ids.len(),
{
    if ids.len() == 0 {
        pool
    } else {
        drop_each(pool, ids.drop_last()).drop_page(ids.last())
    }
}

/// The ids of a set in some order, each once.
pub open spec fn lists(ids: Seq<u64>, set: Set<u64>) -> bool {
    ids.no_duplicates() && ids.to_set() == set
}

/// No page but `id` became dirty, and the dirty ones have the LSNs that they had.
pub open spec fn same_marks<P>(pool: PoolView<P>, pool2: PoolView<P>, id: u64) -> bool {
    forall|x: u64| #[trigger]
        pool2.dirty.contains(x) && x != id ==> {
            &&& pool.dirty.contains(x)
            &&& pool2.frames.contains_key(x) == pool.frames.contains_key(x)
            &&& pool2.frames[x].page_lsn == pool.frames[x].page_lsn
        }
}

/// Taking a page into the pool marks no other page.
pub proof fn lemma_take_in_marks<P>(s: FileState<P>, id: u64, page: P, dirty: bool)
    ensures
        same_marks(s.pool, s.take_in(id, page, dirty).pool, id),
{
}

/// Taking a page into the pool, and writing back the page that leaves, changes
/// no other page.
pub proof fn lemma_take_in<P>(file: Seq<P>, pool: PoolView<P>, id: u64, page: P, dirty: bool)
    requires
        in_step(file, pool),
        pool.can_insert(),
        !pool.frames.contains_key(id),
        id < file.len(),
        dirty || page == file[id as int],
    ensures
        ({
            let file2 = after_eviction(file, evicted_by(pool, id));
            let pool1 = pool.insert(id, page);
            let pool2 = if dirty {
                pool1.add_dirty(id)
            } else {
                pool1
            };
            &&& file2.len() == file.len()
            &&& pool1.frames.contains_key(id)
            &&& in_step(file2, pool2)
            &&& current(file2, pool2) == current(file, pool).update(id as int, page)
        }),
{
    let evicted = evicted_by(pool, id);
    let file2 = after_eviction(file, evicted);
    let pool1 = pool.insert(id, page);
    let pool2 = if dirty {
        pool1.add_dirty(id)
    } else {
        pool1
    };
    pool.lemma_insert_inv(id, page);
    if pool.frames.len() >= pool.max_frames {
        pool.lemma_victim(0);
        let v = pool.victim().unwrap();
        assert(pool.frames.contains_key(v));
        assert(v != id);
    }
    assert(!pool.dirty.contains(id));
    assert forall|x: u64| #[trigger]
        pool2.frames.contains_key(x) && !pool2.dirty.contains(x) implies pool2.frames[x].page
        == file2[x as int] by {
        if x != id {
            assert(pool.frames.contains_key(x) && !pool.dirty.contains(x));
        }
    }
    assert forall|x: u64| #[trigger] pool2.dirty.contains(x) implies pool2.frames.contains_key(
        x,
    ) by {
        if x != id {
            assert(pool.dirty.contains(x));
        }
    }
    assert(current(file2, pool2) =~= current(file, pool).update(id as int, page)) by {
        assert forall|i: int| 0 <= i < file.len() implies current(file2, pool2)[i] == current(
            file,
            pool,
        ).update(id as int, page)[i] by {
            let x = i as u64;
            if i != id && evicted is Some && x == evicted.unwrap().id {
                if !pool.dirty.contains(x) {
                    assert(pool.frames.contains_key(x) && !pool.dirty.contains(x));
                }
            }
        }
    }
}

/// New contents for a page of the pool change no other page.
pub proof fn lemma_update<P>(file: Seq<P>, pool: PoolView<P>, id: u64, page: P)
    requires
        in_step(file, pool),
        pool.frames.contains_key(id),
        pool.update_page(id, page).inv(),
    ensures
        in_step(file, pool.update_page(id, page)),
        current(file, pool.update_page(id, page)) == current(file, pool).update(id as int, page),
{
    let pool2 = pool.update_page(id, page);
    assert forall|x: u64| #[trigger]
        pool2.frames.contains_key(x) && !pool2.dirty.contains(x) implies pool2.frames[x].page
        == file[x as int] by {
        assert(pool.frames.contains_key(x) && !pool.dirty.contains(x));
    }
    assert forall|x: u64| #[trigger] pool2.dirty.contains(x) implies pool2.frames.contains_key(
        x,
    ) by {
        if x != id {
            assert(pool.dirty.contains(x));
        }
    }
    assert(current(file, pool2) =~= current(file, pool).update(id as int, page));
}

/// Bookkeeping that keeps the pages, the dirty ids and the invariant of the
/// pool keeps the two in step.
pub proof fn lemma_bookkeeping<P>(file: Seq<P>, pool: PoolView<P>, pool2: PoolView<P>)
    requires
        in_step(file, pool),
        pool2.inv(),
        pool2.frames.dom() == pool.frames.dom(),
        forall|id: u64| #[trigger]
            pool2.frames.contains_key(id) ==> pool2.frames[id].page == pool.frames[id].page,
        pool.dirty.subset_of(pool2.dirty),
        pool2.dirty.subset_of(pool.frames.dom()),
    ensures
        in_step(file, pool2),
        current(file, pool2) == current(file, pool),
{
    assert forall|id: u64| #[trigger] pool2.frames.contains_key(id) implies id < file.len() by {
        assert(pool.frames.dom().contains(id));
        assert(pool.frames.contains_key(id));
    }
    assert forall|id: u64| #[trigger] pool2.dirty.contains(id) implies pool2.frames.contains_key(
        id,
    ) by {
        assert(pool.frames.dom().contains(id));
    }
    assert forall|id: u64| #[trigger]
        pool2.frames.contains_key(id) && !pool2.dirty.contains(id) implies pool2.frames[id].page
        == file[id as int] by {
        assert(pool.frames.dom().contains(id));
        assert(pool.frames.contains_key(id) && !pool.dirty.contains(id));
    }
    assert forall|i: int| 0 <= i < file.len() implies current(file, pool2)[i] == current(
        file,
        pool,
    )[i] by {
        assert(pool2.frames.dom().contains(i as u64) == pool.frames.dom().contains(i as u64));
    }
    assert(current(file, pool2) =~= current(file, pool));
}

} // verus!
