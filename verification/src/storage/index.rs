//! The index file behind its buffer pool.

use super::buffer_pool;
use super::buffer_pool::{BufferPool, PoolView};
use super::error::StorageError;
use super::file::{PageFile, MAX_PAGES};
use super::header::{PageKind, PAGE_SIZE};
use super::paging;
use super::paging::FileState;
use super::slotted_page::{Node, Page};
use super::wal::Wal;
use vstd::prelude::*;

verus! {

/// How many index pages the pool holds.
pub const INDEX_POOL_CAPACITY: usize = 10_000;

/// The index file: its view is the sequence of its pages as they are now,
/// whether in the pool or in the file.
pub struct Index {
    index_file: PageFile<Page>,
    pool: BufferPool<Page>,
    next_id: u64,
}

impl View for Index {
    type V = Seq<Page>;

    closed spec fn view(&self) -> Seq<Page> {
        paging::current(self.index_file@, self.pool@)
    }
}

/// The bytes of an empty page.
pub open spec fn no_data() -> [u8; PAGE_SIZE] {
    [0u8; PAGE_SIZE]
}

/// A copy of a page is that page.
proof fn lemma_copied(a: Page, b: Page)
    requires
        cloned(a, b),
    ensures
        a == b,
{
}

impl Index {
    /// The invariant of the index file.
    pub closed spec fn wf(self) -> bool {
        &&& paging::in_step(self.index_file@, self.pool@)
        &&& self.pool@.max_frames == INDEX_POOL_CAPACITY
        &&& self.next_id == self.index_file@.len()
        &&& forall|id: u64| #[trigger]
            self.pool@.frames.contains_key(id) ==> self.pool@.frames[id].pin_count == 0
    }

    /// The pages of the file on disk.
    pub closed spec fn stored(self) -> Seq<Page> {
        self.index_file@
    }

    /// The ids of the pages that were written to the file and not taken yet.
    pub closed spec fn written(self) -> Seq<u64> {
        self.index_file.written()
    }

    /// The ids of the pages that differ from the file or may do so.
    pub open spec fn dirty(self) -> Set<u64> {
        self.pool_view().dirty
    }

    /// Whether the page is in the pool.
    pub open spec fn resident(self, id: u64) -> bool {
        self.pool_view().frames.contains_key(id)
    }

    /// The state of the pool.
    pub closed spec fn pool_view(self) -> PoolView<Page> {
        self.pool@
    }

    /// The state of the index file with its pool and the log.
    pub open spec fn state(self, wal: Wal) -> FileState<Page> {
        FileState {
            pool: self.pool_view(),
            stored: self.stored(),
            written: self.written(),
            log: wal@,
        }
    }

    /// The state after the page was brought into the pool.
    pub open spec fn loaded(self, wal: Wal, id: u64) -> FileState<Page> {
        let s = self.state(wal);
        if s.pool.frames.contains_key(id) {
            s
        } else {
            s.take_in(id, s.stored[id as int], false)
        }
    }

    /// The LSN of the last log record that changed the page, or 0.
    pub open spec fn lsn_of(self, id: u64) -> u64 {
        if self.resident(id) {
            self.pool_view().frames[id].page_lsn
        } else {
            0
        }
    }

    /// The LSN of the first log record since the page was clean, if there is one.
    pub open spec fn rec_lsn_of(self, id: u64) -> Option<u64> {
        if self.resident(id) {
            self.pool_view().frames[id].rec_lsn
        } else {
            None
        }
    }

    /// The pages as the tree reads them.
    pub open spec fn nodes(self) -> Seq<Node> {
        Seq::new(self@.len(), |i: int| self@[i]@)
    }

    /// The log comes first: a dirty page stays dirty, under the same LSN, until the
    /// log is on disk up to that LSN.
    pub open spec fn log_first(self, next: Index, wal: Wal) -> bool {
        forall|id: u64| #[trigger]
            self.dirty().contains(id) ==> {
                ||| next.dirty().contains(id) && next.lsn_of(id) == self.lsn_of(id)
                ||| wal@.covers(self.lsn_of(id))
            }
    }

    /// Steps in which the log comes first make up such a step.
    pub proof fn lemma_log_first(self, mid: Index, next: Index, wal1: Wal, wal2: Wal)
        requires
            self.log_first(mid, wal1),
            mid.log_first(next, wal2),
            wal2@.flushes(wal1@),
        ensures
            self.log_first(next, wal2),
    {
        assert forall|id: u64| #[trigger] self.dirty().contains(id) implies ({
            ||| next.dirty().contains(id) && next.lsn_of(id) == self.lsn_of(id)
            ||| wal2@.covers(self.lsn_of(id))
        }) by {
            if mid.dirty().contains(id) && mid.lsn_of(id) == self.lsn_of(id) {
                assert(mid.dirty().contains(id));
            }
        }
    }

    /// There are not more pages than a file can have.
    pub proof fn lemma_len(self)
        requires
            self.wf(),
        ensures
            self@.len() <= MAX_PAGES,
    {
    }

    /// A page that is not dirty is in the file as it is.
    pub proof fn lemma_stored(self)
        requires
            self.wf(),
        ensures
            self.stored().len() == self@.len(),
            forall|id: u64|
                id < self@.len() && !#[trigger] self.dirty().contains(id) ==> self@[id as int]
                    == self.stored()[id as int],
    {
        assert forall|id: u64|
            id < self@.len() && !#[trigger] self.dirty().contains(id) implies self@[id as int]
            == self.stored()[id as int] by {
            if self.pool@.frames.contains_key(id) {
                assert(self.pool@.frames.contains_key(id) && !self.pool@.dirty.contains(id));
            }
        }
    }

    /// Opens an index file.
    pub fn new(index_file: PageFile<Page>) -> (index: Index)
        requires
            index_file@.len() <= MAX_PAGES,
        ensures
            index.wf(),
            index@ == index_file@,
            index.stored() == index_file@,
            index.dirty() == Set::<u64>::empty(),
    {
        let next_id: u64 = index_file.len();
        let index = Index { index_file, pool: BufferPool::new(INDEX_POOL_CAPACITY), next_id };
        assert(index@ =~= index_file@);
        index
    }

    /// The id of the next page.
    pub fn next_id(&self) -> (id: u64)
        requires
            self.wf(),
        ensures
            id == self@.len(),
            id <= MAX_PAGES,
    {
        self.next_id
    }

    /// Some page can leave the pool when it is full.
    proof fn lemma_can_insert(self)
        requires
            self.wf(),
        ensures
            self.pool@.can_insert(),
    {
        let frames = self.pool@.frames;
        if frames.len() >= self.pool@.max_frames {
            assert(frames.dom().len() > 0);
            let id = frames.dom().choose();
            assert(frames.dom().contains(id)) by {
                if frames.dom() =~= Set::<u64>::empty() {
                }
            }
            assert(frames.contains_key(id));
            self.pool@.lemma_victim_exists(id);
        }
    }

    /// Writes a page to the file. The log must be on disk up to its LSN.
    fn write_back(&mut self, wal: &Wal, id: u64, page: Page, lsn: u64)
        requires
            id < old(self).index_file@.len(),
            wal@.covers(lsn),
        ensures
            final(self).index_file@ == old(self).index_file@.update(id as int, page),
            final(self).index_file.written() == old(self).index_file.written().push(id),
            final(self).pool == old(self).pool,
            final(self).next_id == old(self).next_id,
    {
        self.index_file.write(id, page);
    }

    /// Takes a page into the pool. A dirty page that leaves is written back, once
    /// the log is on disk up to its LSN.
    fn take_in(&mut self, wal: &mut Wal, id: u64, page: Page, dirty: bool)
        requires
            old(self).wf(),
            old(wal).wf(),
            id < old(self)@.len(),
            !old(self).pool@.frames.contains_key(id),
            dirty || page == old(self)@[id as int],
        ensures
            final(self).wf(),
            final(wal).wf(),
            final(wal)@.flushes(old(wal)@),
            old(self).log_first(*final(self), *final(wal)),
            final(self).state(*final(wal)) == old(self).state(*old(wal)).take_in(id, page, dirty),
            final(self).pool@.frames.contains_key(id),
            final(self)@ == old(self)@.update(id as int, page),
    {
        proof {
            self.lemma_can_insert();
            paging::lemma_take_in(self.index_file@, self.pool@, id, page, dirty);
            self.pool@.lemma_victim(0);
        }
        match self.pool.insert(id, page) {
            Ok(Some(evicted)) => {
                if evicted.was_dirty {
                    wal.flush_up_to(evicted.page_lsn);
                    self.write_back(wal, evicted.id, evicted.page, evicted.page_lsn);
                }
            },
            Ok(None) => {},
            Err(_) => {},
        }
        if dirty {
            self.pool.mark_dirty(id);
        }
        proof {
            assert forall|x: u64| #[trigger] old(self).dirty().contains(x) implies ({
                ||| self.dirty().contains(x) && self.lsn_of(x) == old(self).lsn_of(x)
                ||| wal@.covers(old(self).lsn_of(x))
            }) by {
                assert(old(self).pool@.frames.contains_key(x));
            }
        }
    }

    /// Adds a page without cells at the end of the file.
    pub fn allocate(&mut self, wal: &mut Wal, page_ty: PageKind) -> (id: u64)
        requires
            old(self).wf(),
            old(wal).wf(),
            old(self)@.len() < MAX_PAGES,
        ensures
            final(self).wf(),
            final(wal).wf(),
            final(wal)@.flushes(old(wal)@),
            old(self).log_first(*final(self), *final(wal)),
            final(self).state(*final(wal)) == old(self).state(*old(wal)).allocate(
                Page { data: no_data() },
                final(self)@.last(),
            ),
            id == old(self)@.len(),
            final(self)@.len() == id + 1,
            final(self)@.drop_last() == old(self)@,
            final(self)@.last().wf(),
            final(self)@.last()@ == (Node {
                id,
                kind: page_ty,
                flags: 0,
                ptr: 0,
                cells: Seq::empty(),
            }),
    {
        let id: u64 = self.next_id;
        let mut page = Page { data: [0u8; PAGE_SIZE] };
        self.index_file.extend(page);
        self.next_id = id + 1;
        page.init_header(id, page_ty, 0);
        proof {
            let f = old(self).index_file@;
            assert forall|x: u64| #[trigger]
                self.pool@.frames.contains_key(x) && !self.pool@.dirty.contains(
                    x,
                ) implies self.pool@.frames[x].page == self.index_file@[x as int] by {
                assert(old(self).pool@.frames.contains_key(x) && !old(self).pool@.dirty.contains(
                    x,
                ));
            }
        }
        let ghost mid = *self;
        self.take_in(wal, id, page, true);
        proof {
            assert(self@.drop_last() =~= old(self)@);
            assert(old(self).log_first(mid, *old(wal)));
            old(self).lemma_log_first(mid, *self, *old(wal), *wal);
        }
        id
    }

    /// Brings a page into the pool.
    fn load(&mut self, wal: &mut Wal, id: u64)
        requires
            old(self).wf(),
            old(wal).wf(),
            id < old(self)@.len(),
        ensures
            final(self).wf(),
            final(wal).wf(),
            final(wal)@.flushes(old(wal)@),
            old(self).log_first(*final(self), *final(wal)),
            final(self).state(*final(wal)) == old(self).loaded(*old(wal), id),
            final(self)@ == old(self)@,
            final(self).pool@.frames.contains_key(id),
    {
        if !self.pool.contains(id) {
            match self.index_file.read(id) {
                Ok(page) => {
                    self.take_in(wal, id, page, false);
                    assert(self@ =~= old(self)@);
                },
                Err(_) => {},
            }
        }
    }

    /// Reads a page.
    pub fn fetch(&mut self, wal: &mut Wal, id: u64) -> (page: Page)
        requires
            old(self).wf(),
            old(wal).wf(),
            id < old(self)@.len(),
        ensures
            final(self).wf(),
            final(wal).wf(),
            final(wal)@.flushes(old(wal)@),
            old(self).log_first(*final(self), *final(wal)),
            final(self).state(*final(wal)) == old(self).loaded(*old(wal), id).touch(id),
            final(self).resident(id),
            final(self)@ == old(self)@,
            page == old(self)@[id as int],
    {
        self.load(wal, id);
        let ghost mid = *self;
        match self.pool.get(id) {
            Some(page) => {
                proof {
                    paging::lemma_bookkeeping(self.index_file@, mid.pool@, self.pool@);
                    lemma_copied(mid.pool@.frames[id].page, page);
                }
                page
            },
            None => Page { data: [0u8; PAGE_SIZE] },
        }
    }

    /// Reads a page that is about to be changed; `store` takes it back.
    pub fn fetch_mut(&mut self, wal: &mut Wal, id: u64) -> (page: Page)
        requires
            old(self).wf(),
            old(wal).wf(),
            id < old(self)@.len(),
        ensures
            final(self).wf(),
            final(wal).wf(),
            final(wal)@.flushes(old(wal)@),
            old(self).log_first(*final(self), *final(wal)),
            ({
                let s = old(self).loaded(*old(wal), id).touch(id);
                final(self).state(*final(wal)) == (FileState { pool: s.pool.add_dirty(id), ..s })
            }),
            final(self)@ == old(self)@,
            page == old(self)@[id as int],
            final(self).dirty().contains(id),
    {
        let page = self.fetch(wal, id);
        let ghost mid = *self;
        self.pool.mark_dirty(id);
        proof {
            paging::lemma_bookkeeping(self.index_file@, mid.pool@, self.pool@);
        }
        page
    }

    /// Puts a changed page back.
    pub fn store(&mut self, wal: &mut Wal, id: u64, page: Page)
        requires
            old(self).wf(),
            old(wal).wf(),
            id < old(self)@.len(),
        ensures
            final(self).wf(),
            final(wal).wf(),
            final(wal)@.flushes(old(wal)@),
            old(self).log_first(*final(self), *final(wal)),
            ({
                let s = old(self).loaded(*old(wal), id);
                final(self).state(*final(wal)) == (FileState {
                    pool: s.pool.update_page(id, page),
                    ..s
                })
            }),
            final(self)@ == old(self)@.update(id as int, page),
            final(self).dirty().contains(id),
            final(self).resident(id),
    {
        self.load(wal, id);
        let ghost mid = *self;
        self.pool.update_page(id, page);
        proof {
            paging::lemma_update(self.index_file@, mid.pool@, id, page);
        }
    }

    /// Writes a dirty page to the file, once the log is on disk up to its LSN.
    pub fn flush(&mut self, wal: &mut Wal, id: u64)
        requires
            old(self).wf(),
            old(wal).wf(),
        ensures
            final(self).wf(),
            final(wal).wf(),
            final(wal)@.flushes(old(wal)@),
            old(self).log_first(*final(self), *final(wal)),
            old(self).dirty().contains(id) ==> final(wal)@.covers(old(self).lsn_of(id)),
            final(self).state(*final(wal)) == old(self).state(*old(wal)).flush(id),
            final(self)@ == old(self)@,
            final(self).dirty() == old(self).dirty().remove(id),
            final(self).stored() == (if id < old(self)@.len() {
                old(self).stored().update(id as int, old(self)@[id as int])
            } else {
                old(self).stored()
            }),
    {
        if self.pool.is_dirty(id) {
            if let Some(page) = self.pool.get(id) {
                proof {
                    lemma_copied(old(self).pool@.frames[id].page, page);
                }
                let lsn: u64 = self.pool.page_lsn(id);
                wal.flush_up_to(lsn);
                self.write_back(wal, id, page, lsn);
                self.pool.clear_dirty_single(id);
                proof {
                    assert forall|x: u64| #[trigger]
                        self.pool@.frames.contains_key(x) && !self.pool@.dirty.contains(
                            x,
                        ) implies self.pool@.frames[x].page == self.index_file@[x as int] by {
                        if x != id {
                            assert(old(self).pool@.frames.contains_key(x)
                                && !old(self).pool@.dirty.contains(x));
                        }
                    }
                    assert forall|x: u64| #[trigger]
                        self.pool@.dirty.contains(x) implies self.pool@.frames.contains_key(x) by {
                        assert(old(self).pool@.dirty.contains(x));
                    }
                }
                assert(self@ =~= old(self)@);
            }
        }
        proof {
            assert(old(self).pool@.dirty.remove(id) =~= self.pool@.dirty);
            if !old(self).pool@.dirty.contains(id) && id < old(self)@.len() {
                if old(self).pool@.frames.contains_key(id) {
                    assert(old(self).pool@.frames.contains_key(id)
                        && !old(self).pool@.dirty.contains(id));
                }
                assert(self.index_file@ =~= old(self).stored().update(
                    id as int,
                    old(self)@[id as int],
                ));
            }
        }
    }

    /// Writes all dirty pages to the file, each once the log is on disk up to
    /// its LSN.
    pub fn flush_all(&mut self, wal: &mut Wal)
        requires
            old(self).wf(),
            old(wal).wf(),
        ensures
            final(self).wf(),
            final(wal).wf(),
            final(wal)@.flushes(old(wal)@),
            old(self).log_first(*final(self), *final(wal)),
            final(self)@ == old(self)@,
            final(self).stored() == old(self)@,
            final(self).dirty() == Set::<u64>::empty(),
            forall|id: u64| #[trigger]
                old(self).dirty().contains(id) ==> final(wal)@.covers(old(self).lsn_of(id)),
            exists|ids: Seq<u64>|
                #[trigger] paging::lists(ids, old(self).dirty()) && final(self).state(*final(wal))
                    == old(self).state(*old(wal)).flush_all(ids),
    {
        let dirty_ids = self.pool.dirty_page_ids();
        let ghost frames = self.pool@.frames;
        assert forall|j: int| 0 <= j < dirty_ids@.len() implies frames.contains_key(
            #[trigger] dirty_ids@[j],
        ) by {
            assert(dirty_ids@.to_set().contains(dirty_ids@[j]));
            assert(self.pool@.dirty.contains(dirty_ids@[j]));
        }
        let mut i: usize = 0;
        assert(dirty_ids@.take(0) =~= Seq::empty());
        while i < dirty_ids.len()
            invariant
                i <= dirty_ids@.len(),
                forall|j: int|
                    0 <= j < dirty_ids@.len() ==> frames.contains_key(#[trigger] dirty_ids@[j])
                        && dirty_ids@[j] < old(self).index_file@.len(),
                old(self).wf(),
                wal.wf(),
                wal@.flushes(old(wal)@),
                old(self).log_first(*self, *wal),
                frames == old(self).pool@.frames,
                dirty_ids@.to_set() == old(self).pool@.dirty,
                self.pool@.inv(),
                self.pool@.frames == frames,
                self.pool@.dirty == old(self).pool@.dirty,
                self.pool@.max_frames == old(self).pool@.max_frames,
                self.next_id == old(self).next_id,
                self.index_file@.len() == old(self).index_file@.len(),
                forall|j: int|
                    0 <= j < i ==> self.index_file@[#[trigger] dirty_ids@[j] as int]
                        == frames[dirty_ids@[j]].page,
                forall|j: int|
                    0 <= j < i ==> wal@.covers(frames[#[trigger] dirty_ids@[j]].page_lsn),
                self.state(*wal) == old(self).state(*old(wal)).write_each(
                    dirty_ids@.take(i as int),
                ),
                forall|x: u64| #[trigger]
                    frames.contains_key(x) && !old(self).pool@.dirty.contains(x)
                        ==> self.index_file@[x as int] == frames[x].page,
                forall|x: int|
                    0 <= x < self.index_file@.len() && !frames.contains_key(x as u64)
                        ==> #[trigger] self.index_file@[x] == old(self).index_file@[x],
            decreases dirty_ids@.len() - i,
        {
            let id: u64 = dirty_ids[i];
            assert(dirty_ids@.contains(id));
            assert(dirty_ids@.to_set().contains(id));
            assert(old(self).pool@.dirty.contains(id));
            if let Some(page) = self.pool.get(id) {
                proof {
                    lemma_copied(frames[id].page, page);
                }
                let lsn: u64 = self.pool.page_lsn(id);
                wal.flush_up_to(lsn);
                self.write_back(wal, id, page, lsn);
            }
            proof {
                assert(dirty_ids@.take(i + 1).drop_last() =~= dirty_ids@.take(i as int));
                assert(dirty_ids@.take(i + 1).last() == id);
            }
            i = i + 1;
        }
        assert(dirty_ids@.take(i as int) =~= dirty_ids@);
        self.pool.clear_dirty();
        proof {
            assert forall|id: u64| #[trigger] old(self).dirty().contains(id) implies wal@.covers(
                old(self).lsn_of(id),
            ) by {
                assert(dirty_ids@.to_set().contains(id));
                assert(dirty_ids@.contains(id));
                let j = choose|j: int| 0 <= j < dirty_ids@.len() && dirty_ids@[j] == id;
                assert(wal@.covers(frames[dirty_ids@[j]].page_lsn));
            }
            assert(paging::lists(dirty_ids@, old(self).dirty()));
            assert forall|x: u64| #[trigger] frames.contains_key(x) implies self.index_file@[
                x as int
            ] == frames[x].page by {
                if old(self).pool@.dirty.contains(x) {
                    assert(dirty_ids@.to_set().contains(x));
                    assert(dirty_ids@.contains(x));
                    let j = choose|j: int| 0 <= j < dirty_ids@.len() && dirty_ids@[j] == x;
                    assert(self.index_file@[dirty_ids@[j] as int] == frames[dirty_ids@[j]].page);
                } else {
                    assert(frames.contains_key(x) && !old(self).pool@.dirty.contains(x));
                }
            }
            assert(self@ =~= old(self)@);
            assert(self.stored() =~= old(self)@);
        }
    }

    /// Forgets all changes that are not in the file.
    pub fn discard_dirty(&mut self)
        requires
            old(self).wf(),
        ensures
            final(self).wf(),
            final(self)@ == old(self).stored(),
            final(self).stored() == old(self).stored(),
            final(self).dirty() == Set::<u64>::empty(),
            final(self).written() == old(self).written(),
            exists|ids: Seq<u64>|
                #[trigger] paging::lists(ids, old(self).dirty()) && final(self).pool_view()
                    == paging::drop_each(old(self).pool_view(), ids),
    {
        let dirty_ids = self.pool.dirty_page_ids();
        let mut i: usize = 0;
        assert(dirty_ids@.take(0) =~= Seq::empty());
        while i < dirty_ids.len()
            invariant
                i <= dirty_ids@.len(),
                dirty_ids@.to_set() == old(self).pool@.dirty,
                self.wf(),
                self.index_file == old(self).index_file,
                self.pool@ == paging::drop_each(old(self).pool@, dirty_ids@.take(i as int)),
                self.pool@.dirty.subset_of(old(self).pool@.dirty),
                forall|j: int| 0 <= j < i ==> !self.pool@.dirty.contains(#[trigger] dirty_ids@[j]),
            decreases dirty_ids@.len() - i,
        {
            let id: u64 = dirty_ids[i];
            let ghost mid = self.pool@;
            let _ = self.pool.remove(id);
            proof {
                assert(dirty_ids@.take(i + 1).drop_last() =~= dirty_ids@.take(i as int));
                assert(dirty_ids@.take(i + 1).last() == id);
                assert forall|x: u64| #[trigger]
                    self.pool@.frames.contains_key(x) && !self.pool@.dirty.contains(
                        x,
                    ) implies self.pool@.frames[x].page == self.index_file@[x as int] by {
                    assert(mid.frames.contains_key(x) && !mid.dirty.contains(x));
                }
                assert forall|x: u64| #[trigger]
                    self.pool@.dirty.contains(x) implies self.pool@.frames.contains_key(x) by {
                    assert(mid.dirty.contains(x));
                }
            }
            i = i + 1;
        }
        proof {
            assert forall|x: u64| !self.pool@.dirty.contains(x) by {
                if self.pool@.dirty.contains(x) {
                    assert(dirty_ids@.to_set().contains(x));
                    assert(dirty_ids@.contains(x));
                    let j = choose|j: int| 0 <= j < dirty_ids@.len() && dirty_ids@[j] == x;
                    assert(!self.pool@.dirty.contains(dirty_ids@[j]));
                }
            }
            assert(self.pool@.dirty =~= Set::<u64>::empty());
            assert forall|k: int| 0 <= k < self@.len() implies self@[k] == self.index_file@[k] by {
                if self.pool@.frames.contains_key(k as u64) {
                    assert(self.pool@.frames.contains_key(k as u64) && !self.pool@.dirty.contains(
                        k as u64,
                    ));
                }
            }
            assert(self@ =~= self.index_file@);
            assert(dirty_ids@.take(i as int) =~= dirty_ids@);
            assert(paging::lists(dirty_ids@, old(self).dirty()));
        }
    }

    /// The LSN of the last log record that changed the page, or 0.
    pub fn page_lsn(&self, id: u64) -> (lsn: u64)
        ensures
            lsn == self.lsn_of(id),
    {
        self.pool.page_lsn(id)
    }

    /// Records that a log record changed the page.
    pub fn update_lsn(&mut self, id: u64, lsn: u64)
        requires
            old(self).wf(),
        ensures
            final(self).wf(),
            final(self)@ == old(self)@,
            final(self).stored() == old(self).stored(),
            final(self).written() == old(self).written(),
            final(self).pool_view() == old(self).pool_view().update_lsn(id, lsn),
    {
        self.pool.update_lsn(id, lsn);
        proof {
            assert(self.pool@.frames.dom() =~= old(self).pool@.frames.dom());
            paging::lemma_bookkeeping(self.index_file@, old(self).pool@, self.pool@);
        }
    }

    /// The ids of the dirty pages, each once.
    pub fn dirty_page_ids(&self) -> (ids: Vec<u64>)
        ensures
            ids@.no_duplicates(),
            ids@.to_set() == self.dirty(),
    {
        self.pool.dirty_page_ids()
    }

    /// The dirty pages, each once, with their recovery LSNs.
    pub fn dirty_page_table(&self) -> (dpt: Vec<(u64, u64)>)
        ensures
            Seq::new(dpt@.len(), |i: int| dpt@[i].0).no_duplicates(),
            Seq::new(dpt@.len(), |i: int| dpt@[i].0).to_set() == self.dirty(),
            forall|i: int|
                0 <= i < dpt@.len() ==> (#[trigger] dpt@[i]).1 == buffer_pool::lsn_or_zero(
                    self.rec_lsn_of(dpt@[i].0),
                ),
    {
        self.pool.dirty_page_table()
    }

    /// Lets the file have at least `n` pages.
    pub fn grow_to(&mut self, n: u64)
        requires
            old(self).wf(),
            n <= MAX_PAGES,
        ensures
            final(self).wf(),
            final(self)@.len() == (if n > old(self)@.len() {
                n as int
            } else {
                old(self)@.len() as int
            }),
            final(self)@.take(old(self)@.len() as int) == old(self)@,
            forall|i: int|
                old(self)@.len() <= i < final(self)@.len() ==> (#[trigger] final(self)@[i]).data@
                    == Seq::new(PAGE_SIZE as nat, |k: int| 0u8),
            final(self).pool_view() == old(self).pool_view(),
            final(self).stored().len() == final(self)@.len(),
            final(self).stored().take(old(self)@.len() as int) == old(self).stored(),
    {
        assert(self.index_file@.take(self@.len() as int) =~= self.index_file@);
        while self.next_id < n
            invariant
                self.wf(),
                self.pool == old(self).pool,
                old(self).index_file@.len() == old(self)@.len(),
                self.index_file@.len() == self@.len(),
                self.index_file@.take(old(self)@.len() as int) == old(self).index_file@,
                n <= MAX_PAGES,
                old(self)@.len() <= self@.len(),
                self@.len() <= n || self@.len() == old(self)@.len(),
                self@.take(old(self)@.len() as int) == old(self)@,
                forall|i: int|
                    old(self)@.len() <= i < self@.len() ==> (#[trigger] self@[i]).data@ == Seq::new(
                        PAGE_SIZE as nat,
                        |k: int| 0u8,
                    ),
            decreases n - self.next_id,
        {
            let page = Page { data: [0u8; PAGE_SIZE] };
            let ghost mid = *self;
            self.index_file.extend(page);
            self.next_id = self.next_id + 1;
            proof {
                assert forall|x: u64| #[trigger]
                    self.pool@.frames.contains_key(x) && !self.pool@.dirty.contains(
                        x,
                    ) implies self.pool@.frames[x].page == self.index_file@[x as int] by {
                    assert(mid.pool@.frames.contains_key(x) && !mid.pool@.dirty.contains(x));
                }
                assert(page.data@ =~= Seq::new(PAGE_SIZE as nat, |k: int| 0u8));
                assert(self@ =~= mid@.push(page));
                assert(self@.take(old(self)@.len() as int) =~= mid@.take(old(self)@.len() as int));
                assert(self.index_file@.take(old(self)@.len() as int) =~= mid.index_file@.take(
                    old(self)@.len() as int,
                ));
            }
        }
        assert(self@.take(old(self)@.len() as int) =~= old(self)@);
    }

    /// Hands out the ids of the pages that were written to the file, the
    /// earliest first.
    pub fn take_written(&mut self) -> (ids: Vec<u64>)
        requires
            old(self).wf(),
        ensures
            final(self).wf(),
            final(self)@ == old(self)@,
            final(self).stored() == old(self).stored(),
            final(self).pool_view() == old(self).pool_view(),
            ids@ == old(self).written(),
            final(self).written() == Seq::<u64>::empty(),
    {
        self.index_file.take_written()
    }

    /// Where a page starts in the file.
    pub fn page_offset(id: u64) -> (offset: u64)
        requires
            id <= MAX_PAGES,
        ensures
            offset == id * PAGE_SIZE,
    {
        let size: u64 = PAGE_SIZE as u64;
        assert(size * id == 4096 * id) by (nonlinear_arith)
            requires
                size == 4096,
        ;
        size * id
    }

    /// A page as it is in the file.
    pub fn stored_page(&self, id: u64) -> (r: Result<Page, StorageError>)
        ensures
            r == (if id < self.stored().len() {
                Ok::<Page, StorageError>(self.stored()[id as int])
            } else {
                Err::<Page, StorageError>(StorageError::ShortRead)
            }),
    {
        self.index_file.read(id)
    }
}

} // verus!
