//! The buffer pool.
//!
//! The pool follows a STEAL, NO-FORCE policy: a changed page may leave the pool
//! before its transaction has committed. Whoever takes an evicted page must
//! write it back if it was dirty, and only once the log is on disk up to the
//! page's LSN.

use super::error::StorageError;
use std::collections::{HashMap, HashSet};
use vstd::prelude::*;

verus! {

broadcast use vstd::std_specs::hash::group_hash_axioms;

/// A page in the pool with its bookkeeping.
pub struct FrameEntry<P> {
    pub page: P,
    pub pin_count: u32,
    /// The LSN of the last log record that changed the page, or 0.
    pub page_lsn: u64,
    /// The LSN of the first log record that changed the page since it was clean, if
    /// there is one. It may be 0.
    pub rec_lsn: Option<u64>,
}

/// A page that had to leave the pool.
pub struct EvictedPage<P> {
    pub id: u64,
    pub page: P,
    pub was_dirty: bool,
    pub page_lsn: u64,
    pub rec_lsn: Option<u64>,
}

/// An LSN, or 0 where there is none.
pub open spec fn lsn_or_zero(lsn: Option<u64>) -> u64 {
    match lsn {
        Some(lsn) => lsn,
        None => 0,
    }
}

/// The state of a pool.
#[verifier::ext_equal]
#[verifier::reject_recursive_types(P)]
pub struct PoolView<P> {
    /// The pages that are in the pool.
    pub frames: Map<u64, FrameEntry<P>>,
    /// The ids that are marked dirty.
    pub dirty: Set<u64>,
    /// The ids from the least to the most recently used.
    pub lru: Seq<u64>,
    /// How many pages the pool may hold.
    pub max_frames: nat,
}

/// `s` without the occurrences of `id`.
pub open spec fn without(s: Seq<u64>, id: u64) -> Seq<u64>
    decreases s.len(),
{
    if s.len() == 0 {
        s
    } else if s.last() == id {
        without(s.drop_last(), id)
    } else {
        without(s.drop_last(), id).push(s.last())
    }
}

/// What `without` keeps.
pub proof fn lemma_without(s: Seq<u64>, id: u64)
    ensures
        forall|x: u64| #[trigger] without(s, id).contains(x) <==> s.contains(x) && x != id,
        s.no_duplicates() ==> without(s, id).no_duplicates(),
        without(s, id).len() <= s.len(),
    decreases s.len(),
{
    if s.len() > 0 {
        let rest = s.drop_last();
        lemma_without(rest, id);
        let out = without(s, id);
        let kept = without(rest, id);
        assert(s =~= rest.push(s.last()));
        assert forall|x: u64| #[trigger] out.contains(x) <==> s.contains(x) && x != id by {
            if out.contains(x) {
                let i = choose|i: int| 0 <= i < out.len() && out[i] == x;
                if i < kept.len() {
                    assert(kept[i] == x);
                    assert(kept.contains(x));
                    let j = choose|j: int| 0 <= j < rest.len() && rest[j] == x;
                    assert(s[j] == x);
                } else {
                    assert(s[s.len() - 1] == x);
                }
            }
            if s.contains(x) && x != id {
                let i = choose|i: int| 0 <= i < s.len() && s[i] == x;
                if i < rest.len() {
                    assert(rest[i] == x);
                    assert(rest.contains(x));
                    assert(kept.contains(x));
                    let j = choose|j: int| 0 <= j < kept.len() && kept[j] == x;
                    assert(out[j] == x);
                } else {
                    assert(out[out.len() - 1] == x);
                }
            }
        }
        if s.no_duplicates() {
            assert(rest.no_duplicates());
            if s.last() != id {
                assert(!kept.contains(s.last())) by {
                    if kept.contains(s.last()) {
                        assert(rest.contains(s.last()));
                        let j = choose|j: int| 0 <= j < rest.len() && rest[j] == s.last();
                        assert(s[j] == s[s.len() - 1]);
                    }
                }
                assert forall|i: int, j: int|
                    0 <= i < out.len() && 0 <= j < out.len() && i != j implies out[i] != out[j] by {
                    if i < kept.len() {
                        assert(kept.contains(kept[i]));
                    }
                    if j < kept.len() {
                        assert(kept.contains(kept[j]));
                    }
                }
            }
        }
    }
}

impl<P> PoolView<P> {
    /// The invariant of pools: every page is in the LRU order, no id is there
    /// twice, and there are not too many pages.
    pub open spec fn inv(self) -> bool {
        &&& self.frames.dom().finite()
        &&& self.lru.no_duplicates()
        &&& forall|id: u64| #[trigger] self.frames.contains_key(id) ==> self.lru.contains(id)
        &&& self.frames.len() <= self.max_frames
    }

    /// `id` becomes the most recently used one.
    pub open spec fn touch(self, id: u64) -> PoolView<P> {
        PoolView { lru: without(self.lru, id).push(id), ..self }
    }

    /// The least recently used page from place `from` on that is not pinned.
    pub open spec fn first_unpinned(self, from: int) -> Option<u64>
        decreases self.lru.len() - from,
    {
        if from < 0 || from >= self.lru.len() {
            None
        } else if self.frames.contains_key(self.lru[from]) && self.frames[self.lru[from]].pin_count
            == 0 {
            Some(self.lru[from])
        } else {
            self.first_unpinned(from + 1)
        }
    }

    /// The page that leaves when room is needed.
    pub open spec fn victim(self) -> Option<u64> {
        self.first_unpinned(0)
    }

    /// Without the page `id` and all that is known of it.
    pub open spec fn drop_page(self, id: u64) -> PoolView<P> {
        PoolView {
            frames: self.frames.remove(id),
            dirty: self.dirty.remove(id),
            lru: without(self.lru, id),
            ..self
        }
    }

    /// With a fresh page `id`.
    pub open spec fn add_page(self, id: u64, page: P) -> PoolView<P> {
        PoolView {
            frames: self.frames.insert(
                id,
                FrameEntry { page, pin_count: 0, page_lsn: 0, rec_lsn: None },
            ),
            ..self
        }.touch(id)
    }

    /// With another entry for a page of the pool.
    pub open spec fn set_frame(self, id: u64, entry: FrameEntry<P>) -> PoolView<P> {
        PoolView { frames: self.frames.insert(id, entry), ..self }
    }

    /// With `id` marked dirty.
    pub open spec fn add_dirty(self, id: u64) -> PoolView<P> {
        PoolView { dirty: self.dirty.insert(id), ..self }
    }

    /// Whether a page that is not there can be taken in.
    pub open spec fn can_insert(self) -> bool {
        self.frames.len() < self.max_frames || self.victim() is Some
    }

    /// The state after `insert`.
    pub open spec fn insert(self, id: u64, page: P) -> PoolView<P> {
        if self.frames.contains_key(id) {
            self.touch(id)
        } else if self.frames.len() < self.max_frames {
            self.add_page(id, page)
        } else {
            match self.victim() {
                Some(v) => self.drop_page(v).add_page(id, page),
                None => self,
            }
        }
    }

    /// The state after `update_page`.
    pub open spec fn update_page(self, id: u64, page: P) -> PoolView<P> {
        if self.frames.contains_key(id) {
            self.set_frame(id, FrameEntry { page, ..self.frames[id] }).add_dirty(id).touch(id)
        } else {
            self.insert(id, page).add_dirty(id)
        }
    }

    /// The state after `update_lsn`.
    pub open spec fn update_lsn(self, id: u64, lsn: u64) -> PoolView<P> {
        if self.frames.contains_key(id) {
            let e = self.frames[id];
            let rec_lsn = if e.rec_lsn is None {
                Some(lsn)
            } else {
                e.rec_lsn
            };
            self.set_frame(id, FrameEntry { page_lsn: lsn, rec_lsn, ..e }).add_dirty(id).touch(id)
        } else {
            self.touch(id)
        }
    }

    /// The state after `clear_dirty`.
    pub open spec fn clear_dirty(self) -> PoolView<P> {
        PoolView {
            frames: Map::new(
                |id: u64| self.frames.contains_key(id),
                |id: u64| FrameEntry { rec_lsn: None, ..self.frames[id] },
            ),
            dirty: Set::empty(),
            ..self
        }
    }

    /// The state after `clear_dirty_single`.
    pub open spec fn clear_dirty_single(self, id: u64) -> PoolView<P> {
        let frames = if self.frames.contains_key(id) {
            self.frames.insert(id, FrameEntry { rec_lsn: None, ..self.frames[id] })
        } else {
            self.frames
        };
        PoolView { frames, dirty: self.dirty.remove(id), ..self }
    }

    /// A page that is evicted is in the pool and nobody has pinned it.
    pub proof fn lemma_victim(self, from: int)
        requires
            0 <= from,
        ensures
            self.first_unpinned(from) matches Some(v) ==> self.frames.contains_key(v)
                && self.frames[v].pin_count == 0 && self.lru.contains(v),
        decreases self.lru.len() - from,
    {
        if from < self.lru.len() {
            if !(self.frames.contains_key(self.lru[from]) && self.frames[self.lru[from]].pin_count
                == 0) {
                self.lemma_victim(from + 1);
            }
        }
    }

    /// Where some page is not pinned, one can be evicted.
    pub proof fn lemma_victim_exists(self, id: u64)
        requires
            self.inv(),
            self.frames.contains_key(id),
            self.frames[id].pin_count == 0,
        ensures
            self.victim() is Some,
    {
        let at = choose|i: int| 0 <= i < self.lru.len() && self.lru[i] == id;
        assert(self.lru.contains(id));
        self.lemma_victim_before(0, at);
    }

    proof fn lemma_victim_before(self, from: int, at: int)
        requires
            0 <= from <= at < self.lru.len(),
            self.frames.contains_key(self.lru[at]),
            self.frames[self.lru[at]].pin_count == 0,
        ensures
            self.first_unpinned(from) is Some,
        decreases at - from,
    {
        if from < at {
            self.lemma_victim_before(from + 1, at);
        }
    }

    proof fn lemma_touch_inv(self, id: u64)
        requires
            self.lru.no_duplicates(),
            self.frames.dom().finite(),
            self.frames.len() <= self.max_frames,
            forall|x: u64| #[trigger]
                self.frames.contains_key(x) ==> x == id || self.lru.contains(x),
        ensures
            self.touch(id).inv(),
    {
        lemma_without(self.lru, id);
        let kept = without(self.lru, id);
        let out = kept.push(id);
        assert forall|x: u64| #[trigger] self.frames.contains_key(x) implies out.contains(x) by {
            if x == id {
                assert(out[kept.len() as int] == id);
            } else {
                assert(kept.contains(x));
                let j = choose|j: int| 0 <= j < kept.len() && kept[j] == x;
                assert(out[j] == x);
            }
        }
        assert forall|i: int, j: int|
            0 <= i < out.len() && 0 <= j < out.len() && i != j implies out[i] != out[j] by {
            if i < kept.len() {
                assert(kept.contains(kept[i]));
            }
            if j < kept.len() {
                assert(kept.contains(kept[j]));
            }
        }
    }

    proof fn lemma_drop_inv(self, id: u64)
        requires
            self.inv(),
        ensures
            self.drop_page(id).inv(),
            self.frames.contains_key(id) ==> self.drop_page(id).frames.len() + 1
                == self.frames.len(),
    {
        lemma_without(self.lru, id);
    }

    /// Every operation keeps the invariant of the pool.
    pub proof fn lemma_insert_inv(self, id: u64, page: P)
        requires
            self.inv(),
        ensures
            self.insert(id, page).inv(),
    {
        if self.frames.contains_key(id) {
            self.lemma_touch_inv(id);
        } else if self.frames.len() < self.max_frames {
            let e = FrameEntry { page, pin_count: 0, page_lsn: 0, rec_lsn: None };
            self.set_frame(id, e).lemma_touch_inv(id);
        } else {
            match self.victim() {
                Some(v) => {
                    self.lemma_victim(0);
                    self.lemma_drop_inv(v);
                    let e = FrameEntry { page, pin_count: 0, page_lsn: 0, rec_lsn: None };
                    self.drop_page(v).set_frame(id, e).lemma_touch_inv(id);
                },
                None => {},
            }
        }
    }
}

/// Takes `id` out of `v`.
fn retain_others(v: &mut Vec<u64>, id: u64)
    ensures
        final(v)@ == without(old(v)@, id),
{
    let mut out: Vec<u64> = Vec::new();
    let mut i: usize = 0;
    assert(v@.take(0) =~= Seq::empty());
    while i < v.len()
        invariant
            i <= v@.len(),
            v@ == old(v)@,
            out@ == without(v@.take(i as int), id),
        decreases v@.len() - i,
    {
        assert(v@.take(i + 1).drop_last() =~= v@.take(i as int));
        if v[i] != id {
            out.push(v[i]);
        }
        i = i + 1;
    }
    assert(v@.take(i as int) =~= v@);
    *v = out;
}

/// A pool of at most `max_frames` pages.
#[verifier::reject_recursive_types(P)]
pub struct BufferPool<P> {
    frames: HashMap<u64, FrameEntry<P>>,
    dirty: HashSet<u64>,
    lru_order: Vec<u64>,
    max_frames: usize,
}

impl<P> View for BufferPool<P> {
    type V = PoolView<P>;

    closed spec fn view(&self) -> PoolView<P> {
        PoolView {
            frames: self.frames@,
            dirty: self.dirty@,
            lru: self.lru_order@,
            max_frames: self.max_frames as nat,
        }
    }
}

impl<P> BufferPool<P> {
    /// An empty pool.
    pub fn new(max_frames: usize) -> (pool: BufferPool<P>)
        ensures
            pool@ == (PoolView {
                frames: Map::<u64, FrameEntry<P>>::empty(),
                dirty: Set::empty(),
                lru: Seq::empty(),
                max_frames: max_frames as nat,
            }),
            pool@.inv(),
    {
        let pool = BufferPool {
            frames: HashMap::new(),
            dirty: HashSet::new(),
            lru_order: Vec::new(),
            max_frames,
        };
        assert(pool@.frames =~= Map::<u64, FrameEntry<P>>::empty());
        assert(pool@.dirty =~= Set::empty());
        pool
    }
}

impl<P: Clone> BufferPool<P> {
    pub fn contains(&self, id: u64) -> (b: bool)
        ensures
            b == self@.frames.contains_key(id),
    {
        self.frames.contains_key(&id)
    }

    fn touch(&mut self, id: u64)
        ensures
            final(self)@ == old(self)@.touch(id),
    {
        retain_others(&mut self.lru_order, id);
        self.lru_order.push(id);
        assert(self@ =~= old(self)@.touch(id));
    }

    /// A copy of a page; asking for it makes it the most recently used one.
    pub fn get(&mut self, id: u64) -> (r: Option<P>)
        requires
            old(self)@.inv(),
        ensures
            final(self)@ == old(self)@.touch(id),
            final(self)@.inv(),
            r is Some == old(self)@.frames.contains_key(id),
            r matches Some(page) ==> cloned(old(self)@.frames[id].page, page),
    {
        proof {
            self@.lemma_touch_inv(id);
        }
        self.touch(id);
        match self.frames.get(&id) {
            Some(e) => Some(e.page.clone()),
            None => None,
        }
    }

    /// Takes a page in; the page that had to leave for it is handed back.
    pub fn insert(&mut self, id: u64, page: P) -> (r: Result<Option<EvictedPage<P>>, StorageError>)
        requires
            old(self)@.inv(),
        ensures
            final(self)@ == old(self)@.insert(id, page),
            final(self)@.inv(),
            ({
                let o = old(self)@;
                if o.frames.contains_key(id) || o.frames.len() < o.max_frames {
                    r == Ok::<_, StorageError>(None::<EvictedPage<P>>)
                } else {
                    match o.victim() {
                        Some(v) => r == Ok::<_, StorageError>(
                            Some(
                                EvictedPage {
                                    id: v,
                                    page: o.frames[v].page,
                                    was_dirty: o.dirty.contains(v),
                                    page_lsn: o.frames[v].page_lsn,
                                    rec_lsn: o.frames[v].rec_lsn,
                                },
                            ),
                        ),
                        None => r == Err::<Option<EvictedPage<P>>, _>(StorageError::PoolFull),
                    }
                }
            }),
    {
        proof {
            self@.lemma_insert_inv(id, page);
        }
        if self.frames.contains_key(&id) {
            self.touch(id);
            return Ok(None);
        }
        let evicted = if self.frames.len() >= self.max_frames {
            match self.evict_one() {
                Some(e) => Some(e),
                None => return Err(StorageError::PoolFull),
            }
        } else {
            None
        };
        let ghost mid = self@;
        self.frames.insert(id, FrameEntry { page, pin_count: 0, page_lsn: 0, rec_lsn: None });
        assert(self@ =~= mid.set_frame(
            id,
            FrameEntry { page, pin_count: 0, page_lsn: 0, rec_lsn: None },
        ));
        self.touch(id);
        assert(self@ =~= old(self)@.insert(id, page));
        Ok(evicted)
    }

    /// Removes the least recently used page that is not pinned.
    fn evict_one(&mut self) -> (r: Option<EvictedPage<P>>)
        requires
            old(self)@.inv(),
        ensures
            match old(self)@.victim() {
                Some(v) => {
                    let o = old(self)@;
                    &&& final(self)@ == o.drop_page(v)
                    &&& r == Some(
                        EvictedPage {
                            id: v,
                            page: o.frames[v].page,
                            was_dirty: o.dirty.contains(v),
                            page_lsn: o.frames[v].page_lsn,
                            rec_lsn: o.frames[v].rec_lsn,
                        },
                    )
                },
                None => final(self)@ == old(self)@ && r is None,
            },
    {
        let mut i: usize = 0;
        let mut found: Option<u64> = None;
        while i < self.lru_order.len() && found.is_none()
            invariant
                i <= self.lru_order@.len(),
                self@ == old(self)@,
                found is None ==> self@.first_unpinned(i as int) == self@.victim(),
                found is Some ==> self@.victim() == found,
            decreases self.lru_order@.len() - i, found is None as int,
        {
            let id: u64 = self.lru_order[i];
            if let Some(e) = self.frames.get(&id) {
                if e.pin_count == 0 {
                    found = Some(id);
                }
            }
            i = i + 1;
        }
        proof {
            self@.lemma_victim(0);
        }
        match found {
            Some(id) => {
                retain_others(&mut self.lru_order, id);
                let was_dirty: bool = self.dirty.contains(&id);
                self.dirty.remove(&id);
                match self.frames.remove(&id) {
                    Some(entry) => {
                        assert(self@ =~= old(self)@.drop_page(id));
                        Some(
                            EvictedPage {
                                id,
                                page: entry.page,
                                was_dirty,
                                page_lsn: entry.page_lsn,
                                rec_lsn: entry.rec_lsn,
                            },
                        )
                    },
                    None => None,
                }
            },
            None => None,
        }
    }

    /// Stores new contents for a page and marks it dirty.
    pub fn update_page(&mut self, id: u64, page: P)
        requires
            old(self)@.inv(),
        ensures
            final(self)@ == old(self)@.update_page(id, page),
            final(self)@.inv(),
    {
        match self.frames.remove(&id) {
            Some(e) => {
                let entry = FrameEntry {
                    page,
                    pin_count: e.pin_count,
                    page_lsn: e.page_lsn,
                    rec_lsn: e.rec_lsn,
                };
                self.frames.insert(id, entry);
                self.dirty.insert(id);
                proof {
                    let mid = old(self)@.set_frame(id, entry).add_dirty(id);
                    assert(self@.frames =~= mid.frames);
                    assert(self@ =~= mid);
                    mid.lemma_touch_inv(id);
                }
                self.touch(id);
            },
            None => {
                assert(self@.frames =~= old(self)@.frames);
                assert(self@ =~= old(self)@);
                let _ = self.insert(id, page);
                self.dirty.insert(id);
                assert(self@ =~= old(self)@.update_page(id, page));
            },
        }
    }

    pub fn mark_dirty(&mut self, id: u64)
        ensures
            final(self)@ == old(self)@.add_dirty(id),
    {
        self.dirty.insert(id);
        assert(self@ =~= old(self)@.add_dirty(id));
    }

    pub fn is_dirty(&self, id: u64) -> (b: bool)
        ensures
            b == self@.dirty.contains(id),
    {
        self.dirty.contains(&id)
    }

    /// Records that the log record `lsn` changed the page. The first such
    /// record since the page was clean is its recovery LSN.
    pub fn update_lsn(&mut self, id: u64, lsn: u64)
        requires
            old(self)@.inv(),
        ensures
            final(self)@ == old(self)@.update_lsn(id, lsn),
            final(self)@.inv(),
    {
        match self.frames.remove(&id) {
            Some(e) => {
                let entry = FrameEntry {
                    page: e.page,
                    pin_count: e.pin_count,
                    page_lsn: lsn,
                    rec_lsn: match e.rec_lsn {
                        Some(first) => Some(first),
                        None => Some(lsn),
                    },
                };
                self.frames.insert(id, entry);
                self.dirty.insert(id);
                proof {
                    let mid = old(self)@.set_frame(id, entry).add_dirty(id);
                    assert(self@.frames =~= mid.frames);
                    assert(self@ =~= mid);
                    mid.lemma_touch_inv(id);
                }
            },
            None => {
                assert(self@.frames =~= old(self)@.frames);
                assert(self@ =~= old(self)@);
                proof {
                    self@.lemma_touch_inv(id);
                }
            },
        }
        self.touch(id);
    }

    /// The LSN of the last log record that changed the page, or 0.
    pub fn page_lsn(&self, id: u64) -> (lsn: u64)
        ensures
            lsn == (if self@.frames.contains_key(id) {
                self@.frames[id].page_lsn
            } else {
                0
            }),
    {
        match self.frames.get(&id) {
            Some(e) => e.page_lsn,
            None => 0,
        }
    }

    /// The LSN of the first log record that made the page dirty, or 0.
    pub fn rec_lsn(&self, id: u64) -> (lsn: u64)
        ensures
            lsn == (if self@.frames.contains_key(id) {
                lsn_or_zero(self@.frames[id].rec_lsn)
            } else {
                0
            }),
    {
        match self.frames.get(&id) {
            Some(e) => match e.rec_lsn {
                Some(lsn) => lsn,
                None => 0,
            },
            None => 0,
        }
    }

    pub fn set_lsn_explicit(&mut self, id: u64, page_lsn: u64, rec_lsn: u64)
        requires
            old(self)@.inv(),
        ensures
            final(self)@ == (if old(self)@.frames.contains_key(id) {
                old(self)@.set_frame(
                    id,
                    FrameEntry { page_lsn, rec_lsn: Some(rec_lsn), ..old(self)@.frames[id] },
                )
            } else {
                old(self)@
            }),
            final(self)@.inv(),
    {
        match self.frames.remove(&id) {
            Some(e) => {
                let entry = FrameEntry {
                    page: e.page,
                    pin_count: e.pin_count,
                    page_lsn,
                    rec_lsn: Some(rec_lsn),
                };
                self.frames.insert(id, entry);
                assert(self@ =~= old(self)@.set_frame(id, entry));
            },
            None => {
                assert(self@ =~= old(self)@);
            },
        }
    }

    /// The dirty pages, each once, with their recovery LSNs.
    pub fn dirty_page_table(&self) -> (dpt: Vec<(u64, u64)>)
        ensures
            Seq::new(dpt@.len(), |i: int| dpt@[i].0).no_duplicates(),
            Seq::new(dpt@.len(), |i: int| dpt@[i].0).to_set() == self@.dirty,
            forall|i: int|
                0 <= i < dpt@.len() ==> (#[trigger] dpt@[i]).1 == (if self@.frames.contains_key(
                    dpt@[i].0,
                ) {
                    lsn_or_zero(self@.frames[dpt@[i].0].rec_lsn)
                } else {
                    0
                }),
    {
        let ids = self.dirty_page_ids();
        let mut dpt: Vec<(u64, u64)> = Vec::new();
        let mut i: usize = 0;
        while i < ids.len()
            invariant
                i <= ids@.len(),
                dpt@.len() == i,
                forall|j: int|
                    0 <= j < i ==> (#[trigger] dpt@[j]).0 == ids@[j] && dpt@[j].1 == (
                    if self@.frames.contains_key(ids@[j]) {
                        lsn_or_zero(self@.frames[ids@[j]].rec_lsn)
                    } else {
                        0
                    }),
            decreases ids@.len() - i,
        {
            let id: u64 = ids[i];
            let rec_lsn: u64 = self.rec_lsn(id);
            dpt.push((id, rec_lsn));
            i = i + 1;
        }
        assert(Seq::new(dpt@.len(), |i: int| dpt@[i].0) =~= ids@);
        dpt
    }

    /// Copies of the dirty pages that are in the pool, each once.
    pub fn drain_dirty(&self) -> (out: Vec<(u64, P)>)
        ensures
            Seq::new(out@.len(), |i: int| out@[i].0).no_duplicates(),
            forall|i: int|
                0 <= i < out@.len() ==> self@.frames.contains_key((#[trigger] out@[i]).0)
                    && self@.dirty.contains(out@[i].0) && cloned(
                    self@.frames[out@[i].0].page,
                    out@[i].1,
                ),
            forall|id: u64| #[trigger]
                self@.dirty.contains(id) && self@.frames.contains_key(id) ==> exists|i: int|
                    0 <= i < out@.len() && (#[trigger] out@[i]).0 == id,
    {
        let ids = self.dirty_page_ids();
        let mut out: Vec<(u64, P)> = Vec::new();
        let mut i: usize = 0;
        while i < ids.len()
            invariant
                i <= ids@.len(),
                ids@.no_duplicates(),
                ids@.to_set() == self@.dirty,
                forall|j: int|
                    0 <= j < out@.len() ==> self@.frames.contains_key((#[trigger] out@[j]).0)
                        && cloned(self@.frames[out@[j].0].page, out@[j].1) && exists|k: int|
                        0 <= k < i && (#[trigger] ids@[k]) == out@[j].0,
                forall|j: int, k: int|
                    0 <= j < k < out@.len() ==> (#[trigger] out@[j]).0 != (#[trigger] out@[k]).0,
                forall|k: int|
                    0 <= k < i && self@.frames.contains_key(#[trigger] ids@[k]) ==> exists|j: int|
                        0 <= j < out@.len() && (#[trigger] out@[j]).0 == ids@[k],
            decreases ids@.len() - i,
        {
            let id: u64 = ids[i];
            let ghost before = out@;
            if let Some(e) = self.frames.get(&id) {
                out.push((id, e.page.clone()));
            }
            proof {
                assert forall|k: int|
                    0 <= k < i + 1 && self@.frames.contains_key(#[trigger] ids@[k]) implies exists|
                    j: int,
                |
                    0 <= j < out@.len() && (#[trigger] out@[j]).0 == ids@[k] by {
                    if k < i {
                        let j = choose|j: int|
                            0 <= j < before.len() && (#[trigger] before[j]).0 == ids@[k];
                        assert(out@[j].0 == ids@[k]);
                    } else {
                        assert(out@[out@.len() - 1].0 == ids@[k]);
                    }
                }
                assert forall|j: int| 0 <= j < out@.len() implies exists|k: int|
                    0 <= k < i + 1 && (#[trigger] ids@[k]) == (#[trigger] out@[j]).0 by {
                    if j < before.len() {
                        let k = choose|k: int| 0 <= k < i && (#[trigger] ids@[k]) == before[j].0;
                        assert(ids@[k] == out@[j].0);
                    } else {
                        assert(ids@[i as int] == out@[j].0);
                    }
                }
            }
            i = i + 1;
        }
        proof {
            assert forall|id: u64| #[trigger]
                self@.dirty.contains(id) && self@.frames.contains_key(id) implies exists|j: int|
                0 <= j < out@.len() && (#[trigger] out@[j]).0 == id by {
                assert(ids@.contains(id));
                let k = choose|k: int| 0 <= k < ids@.len() && ids@[k] == id;
                assert(self@.frames.contains_key(ids@[k]));
            }
            assert forall|j: int| 0 <= j < out@.len() implies self@.dirty.contains(
                (#[trigger] out@[j]).0,
            ) by {
                let k = choose|k: int| 0 <= k < i && (#[trigger] ids@[k]) == out@[j].0;
                assert(ids@.contains(ids@[k]));
            }
        }
        out
    }

    /// No page is dirty any more.
    pub fn clear_dirty(&mut self)
        requires
            old(self)@.inv(),
        ensures
            final(self)@ == old(self)@.clear_dirty(),
            final(self)@.inv(),
    {
        self.dirty = HashSet::new();
        let ids = self.all_page_ids();
        let ghost before = old(self)@.frames;
        let mut i: usize = 0;
        while i < ids.len()
            invariant
                i <= ids@.len(),
                ids@.no_duplicates(),
                ids@.to_set() == before.dom(),
                self@ == (PoolView { frames: self@.frames, dirty: Set::empty(), ..old(self)@ }),
                self@.frames.dom() == before.dom(),
                before == old(self)@.frames,
                forall|k: int|
                    0 <= k < i ==> self@.frames[#[trigger] ids@[k]] == (FrameEntry {
                        rec_lsn: None,
                        ..before[ids@[k]]
                    }),
                forall|k: int|
                    i <= k < ids@.len() ==> self@.frames[#[trigger] ids@[k]] == before[ids@[k]],
            decreases ids@.len() - i,
        {
            let id: u64 = ids[i];
            assert(ids@.contains(id));
            assert(ids@.to_set().contains(id));
            let ghost mid = self@;
            if let Some(e) = self.frames.remove(&id) {
                self.frames.insert(
                    id,
                    FrameEntry {
                        page: e.page,
                        pin_count: e.pin_count,
                        page_lsn: e.page_lsn,
                        rec_lsn: None,
                    },
                );
            }
            assert(self@.frames.dom() =~= before.dom());
            assert(self@ =~= (PoolView { frames: self@.frames, ..mid }));
            i = i + 1;
        }
        proof {
            let target = old(self)@.clear_dirty();
            assert forall|id: u64| #[trigger] before.contains_key(id) implies self@.frames[id]
                == target.frames[id] by {
                assert(ids@.to_set().contains(id));
                assert(ids@.contains(id));
                let k = choose|k: int| 0 <= k < ids@.len() && ids@[k] == id;
                assert(self@.frames[ids@[k]] == (FrameEntry { rec_lsn: None, ..before[ids@[k]] }));
            }
            assert(self@.frames =~= target.frames);
            assert(target.frames.dom() =~= before.dom());
            assert(self@ =~= target);
        }
    }

    /// One page is not dirty any more.
    pub fn clear_dirty_single(&mut self, id: u64)
        requires
            old(self)@.inv(),
        ensures
            final(self)@ == old(self)@.clear_dirty_single(id),
            final(self)@.inv(),
    {
        self.dirty.remove(&id);
        if let Some(e) = self.frames.remove(&id) {
            self.frames.insert(
                id,
                FrameEntry {
                    page: e.page,
                    pin_count: e.pin_count,
                    page_lsn: e.page_lsn,
                    rec_lsn: None,
                },
            );
        }
        assert(self@ =~= old(self)@.clear_dirty_single(id));
    }

    /// Keeps the page in the pool until it is unpinned as often.
    pub fn pin(&mut self, id: u64)
        requires
            old(self)@.inv(),
            old(self)@.frames.contains_key(id) ==> old(self)@.frames[id].pin_count < u32::MAX,
        ensures
            final(self)@ == (if old(self)@.frames.contains_key(id) {
                old(self)@.set_frame(
                    id,
                    FrameEntry {
                        pin_count: (old(self)@.frames[id].pin_count + 1) as u32,
                        ..old(self)@.frames[id]
                    },
                )
            } else {
                old(self)@
            }),
            final(self)@.inv(),
    {
        match self.frames.remove(&id) {
            Some(e) => {
                let entry = FrameEntry {
                    page: e.page,
                    pin_count: e.pin_count + 1,
                    page_lsn: e.page_lsn,
                    rec_lsn: e.rec_lsn,
                };
                self.frames.insert(id, entry);
                assert(self@ =~= old(self)@.set_frame(id, entry));
            },
            None => {
                assert(self@ =~= old(self)@);
            },
        }
    }

    pub fn unpin(&mut self, id: u64)
        requires
            old(self)@.inv(),
        ensures
            final(self)@ == (if old(self)@.frames.contains_key(id) {
                let n = old(self)@.frames[id].pin_count;
                old(self)@.set_frame(
                    id,
                    FrameEntry {
                        pin_count: if n == 0 {
                            0
                        } else {
                            (n - 1) as u32
                        },
                        ..old(self)@.frames[id]
                    },
                )
            } else {
                old(self)@
            }),
            final(self)@.inv(),
    {
        match self.frames.remove(&id) {
            Some(e) => {
                let entry = FrameEntry {
                    page: e.page,
                    pin_count: if e.pin_count == 0 {
                        0
                    } else {
                        e.pin_count - 1
                    },
                    page_lsn: e.page_lsn,
                    rec_lsn: e.rec_lsn,
                };
                self.frames.insert(id, entry);
                assert(self@ =~= old(self)@.set_frame(id, entry));
            },
            None => {
                assert(self@ =~= old(self)@);
            },
        }
    }

    /// Takes a page out of the pool.
    pub fn remove(&mut self, id: u64) -> (r: Option<P>)
        requires
            old(self)@.inv(),
        ensures
            final(self)@ == old(self)@.drop_page(id),
            final(self)@.inv(),
            r == (if old(self)@.frames.contains_key(id) {
                Some(old(self)@.frames[id].page)
            } else {
                None
            }),
    {
        proof {
            self@.lemma_drop_inv(id);
        }
        self.dirty.remove(&id);
        retain_others(&mut self.lru_order, id);
        let r = match self.frames.remove(&id) {
            Some(e) => Some(e.page),
            None => None,
        };
        assert(self@ =~= old(self)@.drop_page(id));
        r
    }

    /// The dirty ids, each once.
    pub fn dirty_page_ids(&self) -> (ids: Vec<u64>)
        ensures
            ids@.no_duplicates(),
            ids@.to_set() == self@.dirty,
    {
        let mut ids: Vec<u64> = Vec::new();
        for id in it: self.dirty.iter()
            invariant
                it.seq().unref().to_set() == self.dirty@,
                it.seq().no_duplicates(),
                ids@.len() == it.index(),
                forall|i: int| 0 <= i < ids@.len() ==> ids@[i] == *it.seq()[i],
                it.index() == it.seq().len() ==> ids@ =~= it.seq().unref(),
        {
            ids.push(*id);
        }
        ids
    }

    /// The ids of the pages in the pool, each once.
    pub fn all_page_ids(&self) -> (ids: Vec<u64>)
        ensures
            ids@.no_duplicates(),
            ids@.to_set() == self@.frames.dom(),
    {
        let mut ids: Vec<u64> = Vec::new();
        for id in it: self.frames.keys()
            invariant
                it.seq().unref().to_set() == self.frames@.dom(),
                it.seq().no_duplicates(),
                ids@.len() == it.index(),
                forall|i: int| 0 <= i < ids@.len() ==> ids@[i] == *it.seq()[i],
                it.index() == it.seq().len() ==> ids@ =~= it.seq().unref(),
        {
            ids.push(*id);
        }
        ids
    }

    /// How many pages the pool may hold.
    pub fn capacity(&self) -> (n: usize)
        ensures
            n == self@.max_frames,
    {
        self.max_frames
    }

    pub fn len(&self) -> (n: usize)
        ensures
            n == self@.frames.len(),
    {
        self.frames.len()
    }

    pub fn is_empty(&self) -> (b: bool)
        ensures
            b == (self@.frames.len() == 0),
    {
        self.frames.len() == 0
    }
}

} // verus!
