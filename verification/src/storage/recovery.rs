//! Recovery from the log: analysis, redo and undo.

use super::bytes;
use super::error::StorageError;
use super::file::MAX_PAGES;
use super::header::{WalHeader, HEAP_PAGE_SIZE, PAGE_SIZE, WAL_HEADER_SIZE};
use super::pager::{Pager, RecoveryReport};
use super::paging;
use super::slotted_page::{HeapPage, Page};
use super::wal;
use super::wal::{
    CheckpointData, DirtyPageEntry, LogView, RecordType, RecordView, TxnEntry, Wal, WalRecord,
    WAL_RECORD_HEADER_SIZE,
};
use std::collections::HashMap;
use vstd::bytes::*;
use vstd::prelude::*;

verus! {

broadcast use vstd::std_specs::hash::group_hash_axioms;

/// What the analysis of a log finds out.
#[verifier::ext_equal]
pub struct Analysis {
    /// The index pages that may be behind the log, and the first record that
    /// they may lack.
    pub index: Map<u64, u64>,
    /// The same for heap pages.
    pub heap: Map<u64, u64>,
    /// The transactions that have not ended, and their last records.
    pub att: Map<u64, u64>,
}

/// The analysis of an empty log.
pub open spec fn nothing_known() -> Analysis {
    Analysis { index: Map::empty(), heap: Map::empty(), att: Map::empty() }
}

/// A page table with one more page; an earlier entry stays.
pub open spec fn noted(pages: Map<u64, u64>, page_id: u64, lsn: u64) -> Map<u64, u64> {
    if pages.contains_key(page_id) {
        pages
    } else {
        pages.insert(page_id, lsn)
    }
}

/// What one more record adds.
pub open spec fn note(a: Analysis, r: RecordView) -> Analysis {
    let h = r.header;
    match h.record_type {
        RecordType::Begin => Analysis { att: a.att.insert(h.txn_id, h.lsn), ..a },
        RecordType::Update | RecordType::Clr => Analysis {
            index: if h.is_index {
                noted(a.index, h.page_id, h.lsn)
            } else {
                a.index
            },
            heap: if h.is_index {
                a.heap
            } else {
                noted(a.heap, h.page_id, h.lsn)
            },
            att: if h.txn_id != 0 {
                a.att.insert(h.txn_id, h.lsn)
            } else {
                a.att
            },
        },
        RecordType::Commit | RecordType::Abort => Analysis { att: a.att.remove(h.txn_id), ..a },
        RecordType::Checkpoint => a,
    }
}

/// The analysis of the records from LSN `start` on.
pub open spec fn analyse(a: Analysis, records: Seq<RecordView>, start: int) -> Analysis
    decreases records.len(),
{
    if records.len() == 0 {
        a
    } else {
        let before = analyse(a, records.drop_last(), start);
        if records.last().header.lsn >= start {
            note(before, records.last())
        } else {
            before
        }
    }
}

/// A list that holds each entry of a map once.
pub open spec fn lists(entries: Seq<TxnEntry>, m: Map<u64, u64>) -> bool {
    &&& forall|i: int, j: int|
        0 <= i < j < entries.len() ==> (#[trigger] entries[i]).txn_id != (
        #[trigger] entries[j]).txn_id
    &&& forall|i: int|
        0 <= i < entries.len() ==> m.contains_key((#[trigger] entries[i]).txn_id)
            && m[entries[i].txn_id] == entries[i].last_lsn
    &&& forall|txn: u64| #[trigger]
        m.contains_key(txn) ==> exists|i: int|
            0 <= i < entries.len() && (#[trigger] entries[i]).txn_id == txn
}

/// Such a list is as long as the map.
pub proof fn lemma_lists_len(entries: Seq<TxnEntry>, m: Map<u64, u64>)
    requires
        lists(entries, m),
    ensures
        m.dom().len() == entries.len(),
        m.dom().finite(),
{
    let ids = Seq::new(entries.len(), |i: int| entries[i].txn_id);
    assert(ids.no_duplicates());
    assert forall|txn: u64| #[trigger] m.dom().contains(txn) == ids.to_set().contains(txn) by {
        if m.dom().contains(txn) {
            assert(m.contains_key(txn));
            let i = choose|i: int| 0 <= i < entries.len() && (#[trigger] entries[i]).txn_id == txn;
            assert(ids[i] == txn);
        }
        if ids.to_set().contains(txn) {
            let i = choose|i: int| 0 <= i < ids.len() && ids[i] == txn;
            assert(m.contains_key(entries[i].txn_id));
        }
    }
    assert(m.dom() =~= ids.to_set());
    ids.unique_seq_to_set();
}

/// The tables of the analysis while it goes on.
pub struct Tables {
    pub index: HashMap<u64, u64>,
    pub heap: HashMap<u64, u64>,
    pub att: HashMap<u64, u64>,
}

impl View for Tables {
    type V = Analysis;

    open spec fn view(&self) -> Analysis {
        Analysis { index: self.index@, heap: self.heap@, att: self.att@ }
    }
}

/// Adds a page to a page table; an earlier entry stays.
fn note_page(pages: &mut HashMap<u64, u64>, page_id: u64, lsn: u64)
    ensures
        final(pages)@ == noted(old(pages)@, page_id, lsn),
{
    if !pages.contains_key(&page_id) {
        pages.insert(page_id, lsn);
    }
}

impl Tables {
    /// Empty tables.
    pub fn new() -> (t: Tables)
        ensures
            t@ == nothing_known(),
    {
        let t = Tables { index: HashMap::new(), heap: HashMap::new(), att: HashMap::new() };
        assert(t@ =~= nothing_known());
        t
    }

    /// Takes the records from LSN `start` on into account.
    pub fn analyse(&mut self, records: &Vec<WalRecord>, start: u64)
        ensures
            final(self)@ == analyse(old(self)@, wal::views(records@), start as int),
    {
        let ghost all = wal::views(records@);
        let mut i: usize = 0;
        assert(all.take(0) =~= Seq::empty());
        while i < records.len()
            invariant
                i <= records@.len(),
                all == wal::views(records@),
                self@ == analyse(old(self)@, all.take(i as int), start as int),
            decreases records@.len() - i,
        {
            let h = records[i].header;
            let ghost before = self@;
            proof {
                assert(all.take(i + 1).drop_last() =~= all.take(i as int));
                assert(all.take(i + 1).last() == records@[i as int]@);
            }
            if h.lsn >= start {
                match h.record_type {
                    RecordType::Begin => {
                        self.att.insert(h.txn_id, h.lsn);
                    },
                    RecordType::Update | RecordType::Clr => {
                        if h.txn_id != 0 {
                            self.att.insert(h.txn_id, h.lsn);
                        }
                        if h.is_index {
                            note_page(&mut self.index, h.page_id, h.lsn);
                        } else {
                            note_page(&mut self.heap, h.page_id, h.lsn);
                        }
                    },
                    RecordType::Commit | RecordType::Abort => {
                        self.att.remove(&h.txn_id);
                    },
                    RecordType::Checkpoint => {},
                }
                assert(self@ =~= note(before, records@[i as int]@));
            }
            i = i + 1;
        }
        assert(all.take(i as int) =~= all);
    }
}

/// The entries of a map, each once.
fn entries_of(m: &HashMap<u64, u64>) -> (entries: Vec<TxnEntry>)
    ensures
        lists(entries@, m@),
{
    let mut keys: Vec<u64> = Vec::new();
    for k in it: m.keys()
        invariant
            it.seq().unref().to_set() == m@.dom(),
            it.seq().no_duplicates(),
            keys@.len() == it.index(),
            forall|i: int| 0 <= i < keys@.len() ==> keys@[i] == *it.seq()[i],
            it.index() == it.seq().len() ==> keys@ =~= it.seq().unref(),
    {
        keys.push(*k);
    }
    let mut entries: Vec<TxnEntry> = Vec::new();
    let mut i: usize = 0;
    while i < keys.len()
        invariant
            i <= keys@.len(),
            keys@.no_duplicates(),
            keys@.to_set() == m@.dom(),
            entries@.len() == i,
            forall|j: int|
                0 <= j < i ==> (#[trigger] entries@[j]).txn_id == keys@[j] && m@.contains_key(
                    keys@[j],
                ) && entries@[j].last_lsn == m@[keys@[j]],
        decreases keys@.len() - i,
    {
        let txn_id: u64 = keys[i];
        assert(keys@.to_set().contains(txn_id));
        if let Some(last_lsn) = m.get(&txn_id) {
            entries.push(TxnEntry { txn_id, last_lsn: *last_lsn });
        }
        i = i + 1;
    }
    proof {
        assert forall|txn: u64| #[trigger] m@.contains_key(txn) implies exists|i: int|
            0 <= i < entries@.len() && (#[trigger] entries@[i]).txn_id == txn by {
            assert(keys@.to_set().contains(txn));
            assert(keys@.contains(txn));
            let j = choose|j: int| 0 <= j < keys@.len() && keys@[j] == txn;
            assert(entries@[j].txn_id == txn);
        }
    }
    entries
}

/// The transactions that have not ended according to the log.
pub fn active_transactions(wal: &Wal) -> (att: Vec<TxnEntry>)
    requires
        wal.wf(),
    ensures
        lists(
            att@,
            analyse(
                nothing_known(),
                wal::records_in(wal@.durable) + wal::records_in(wal@.pending),
                0,
            ).att,
        ),
{
    let mut tables = Tables::new();
    let durable = wal.read_all_records();
    let pending = wal.read_pending_records();
    tables.analyse(&durable, 0);
    tables.analyse(&pending, 0);
    proof {
        lemma_analyse_append(
            nothing_known(),
            wal::views(durable@),
            wal::views(pending@),
            0,
        );
    }
    entries_of(&tables.att)
}

/// The analysis of a log can be done in two parts.
pub proof fn lemma_analyse_append(
    a: Analysis,
    s: Seq<RecordView>,
    t: Seq<RecordView>,
    start: int,
)
    ensures
        analyse(a, s + t, start) == analyse(analyse(a, s, start), t, start),
    decreases t.len(),
{
    if t.len() == 0 {
        assert(s + t =~= s);
    } else {
        assert((s + t).drop_last() =~= s + t.drop_last());
        lemma_analyse_append(a, s, t.drop_last(), start);
    }
}

/// The bytes of the pages of the two files.
#[verifier::ext_equal]
pub struct Disk {
    pub index: Seq<Seq<u8>>,
    pub heap: Seq<Seq<u8>>,
}

/// The bytes of index pages.
pub open spec fn index_data(pages: Seq<Page>) -> Seq<Seq<u8>> {
    Seq::new(pages.len(), |i: int| pages[i].data@)
}

/// The bytes of heap pages.
pub open spec fn heap_data(pages: Seq<HeapPage>) -> Seq<Seq<u8>> {
    Seq::new(pages.len(), |i: int| pages[i].data@)
}

/// The bytes of the pages of a pager.
pub open spec fn disk_of(pager: Pager) -> Disk {
    Disk { index: index_data(pager.index@), heap: heap_data(pager.heap@) }
}

/// The pages with as many empty ones behind them as it takes to have `n`.
pub open spec fn grow(pages: Seq<Seq<u8>>, n: int, size: nat) -> Seq<Seq<u8>> {
    if n <= pages.len() {
        pages
    } else {
        Seq::new(
            n as nat,
            |i: int|
                if i < pages.len() {
                    pages[i]
                } else {
                    Seq::new(size, |k: int| 0u8)
                },
        )
    }
}

/// The pages with some bytes of one page replaced.
pub open spec fn patch(pages: Seq<Seq<u8>>, id: u64, offset: u16, b: Seq<u8>) -> Seq<Seq<u8>> {
    pages.update(id as int, bytes::written(pages[id as int], offset as int, b))
}

/// Whether a record is about a change of a page.
pub open spec fn is_change(r: RecordView) -> bool {
    r.header.record_type == RecordType::Update || r.header.record_type == RecordType::Clr
}

/// The page table that a record is to be looked up in.
pub open spec fn table(a: Analysis, r: RecordView) -> Map<u64, u64> {
    if r.header.is_index {
        a.index
    } else {
        a.heap
    }
}

/// Whether a record is redone: its page may lack the change.
pub open spec fn redoes(a: Analysis, r: RecordView) -> bool {
    &&& is_change(r)
    &&& table(a, r).contains_key(r.header.page_id)
    &&& r.header.lsn >= table(a, r)[r.header.page_id]
    &&& wal::update_of(r.payload) is Some
}

/// The files after a record was redone.
pub open spec fn redo_one(d: Disk, a: Analysis, r: RecordView) -> Disk {
    let h = r.header;
    let b = wal::update_of(r.payload).unwrap().1;
    if !redoes(a, r) {
        d
    } else if h.is_index {
        Disk {
            index: patch(
                grow(d.index, h.page_id + 1, PAGE_SIZE as nat),
                h.page_id,
                h.payload_page_offset,
                b,
            ),
            ..d
        }
    } else {
        Disk {
            heap: patch(
                grow(d.heap, h.page_id + 1, HEAP_PAGE_SIZE as nat),
                h.page_id,
                h.payload_page_offset,
                b,
            ),
            ..d
        }
    }
}

/// The files after some records were redone, the earliest first.
pub open spec fn redo(d: Disk, a: Analysis, records: Seq<RecordView>) -> Disk
    decreases records.len(),
{
    if records.len() == 0 {
        d
    } else {
        redo_one(redo(d, a, records.drop_last()), a, records.last())
    }
}

/// How many of some records are redone.
pub open spec fn redo_count(a: Analysis, records: Seq<RecordView>) -> nat
    decreases records.len(),
{
    if records.len() == 0 {
        0
    } else {
        redo_count(a, records.drop_last()) + if redoes(a, records.last()) {
            1nat
        } else {
            0nat
        }
    }
}

/// Whether a transaction is rolled back: it has not ended.
pub open spec fn is_loser(a: Analysis, txn: u64) -> bool {
    txn != 0 && a.att.contains_key(txn)
}

/// Whether a record is undone.
pub open spec fn undoes(a: Analysis, r: RecordView) -> bool {
    &&& is_loser(a, r.header.txn_id)
    &&& r.header.record_type == RecordType::Update
    &&& wal::update_of(r.payload) is Some
}

/// The files after a record was undone.
pub open spec fn undo_one(d: Disk, a: Analysis, r: RecordView) -> Disk {
    let h = r.header;
    let b = wal::update_of(r.payload).unwrap().0;
    if !undoes(a, r) {
        d
    } else if h.is_index {
        Disk { index: patch(d.index, h.page_id, h.payload_page_offset, b), ..d }
    } else {
        Disk { heap: patch(d.heap, h.page_id, h.payload_page_offset, b), ..d }
    }
}

/// The files after some records were undone, the latest first.
pub open spec fn undo(d: Disk, a: Analysis, records: Seq<RecordView>) -> Disk
    decreases records.len(),
{
    if records.len() == 0 {
        d
    } else {
        undo(undo_one(d, a, records.last()), a, records.drop_last())
    }
}

/// The records that are undone, the latest first.
pub open spec fn undone(a: Analysis, records: Seq<RecordView>) -> Seq<RecordView>
    decreases records.len(),
{
    if records.len() == 0 {
        Seq::empty()
    } else if undoes(a, records.last()) {
        seq![records.last()] + undone(a, records.drop_last())
    } else {
        undone(a, records.drop_last())
    }
}

/// The LSN of the last record that changed each page.
#[verifier::ext_equal]
pub struct Marks {
    pub index: Map<u64, u64>,
    pub heap: Map<u64, u64>,
}

/// No page was changed.
pub open spec fn unmarked() -> Marks {
    Marks { index: Map::empty(), heap: Map::empty() }
}

/// The record, or the one with LSN `lsn` that undoes it, changed its page.
pub open spec fn mark(m: Marks, r: RecordView, lsn: u64) -> Marks {
    if r.header.is_index {
        Marks { index: m.index.insert(r.header.page_id, lsn), ..m }
    } else {
        Marks { heap: m.heap.insert(r.header.page_id, lsn), ..m }
    }
}

/// The pages that redo has changed, with the last record of each.
pub open spec fn redo_marks(a: Analysis, records: Seq<RecordView>) -> Marks
    decreases records.len(),
{
    if records.len() == 0 {
        unmarked()
    } else {
        let m = redo_marks(a, records.drop_last());
        if redoes(a, records.last()) {
            mark(m, records.last(), records.last().header.lsn)
        } else {
            m
        }
    }
}

/// The pages that were changed when some records were undone one after the other, and
/// the compensation records have LSNs from `lsn` on.
pub open spec fn undo_marks(m: Marks, undone: Seq<RecordView>, lsn: int) -> Marks
    decreases undone.len(),
{
    if undone.len() == 0 {
        m
    } else {
        mark(
            undo_marks(m, undone.drop_last(), lsn),
            undone.last(),
            (lsn + undone.len() - 1) as u64,
        )
    }
}

/// A dirty page has the LSN of the last record that changed it. No page is dirty but
/// those and the ones that were dirty before, which have the LSNs that they had.
pub open spec fn marked(before: Pager, now: Pager, m: Marks) -> bool {
    &&& forall|p: u64| #[trigger]
        now.index.dirty().contains(p) ==> (if m.index.contains_key(p) {
            now.index.lsn_of(p) == m.index[p]
        } else {
            before.index.dirty().contains(p) && now.index.lsn_of(p) == before.index.lsn_of(p)
        })
    &&& forall|p: u64| #[trigger]
        now.heap.dirty().contains(p) ==> (if m.heap.contains_key(p) {
            now.heap.lsn_of(p) == m.heap[p]
        } else {
            before.heap.dirty().contains(p) && now.heap.lsn_of(p) == before.heap.lsn_of(p)
        })
}

/// Records were undone in files `d` with the log `w`: the pages have the bytes that
/// they had and the LSNs of the compensation records, which are in the log.
pub open spec fn undid(
    before: Pager,
    now: Pager,
    d: Disk,
    w: LogView,
    m: Marks,
    a: Analysis,
    records: Seq<RecordView>,
) -> bool {
    &&& disk_of(now) == undo(d, a, records)
    &&& marked(before, now, undo_marks(m, undone(a, records), w.header.next_lsn as int))
    &&& exists|cs: Seq<RecordView>| #[trigger]
        compensate(cs, undone(a, records)) && extends(w, now.wal@, cs) && wal::log_of(cs).len()
            == clr_size(a, records)
}

/// Undo cannot go on: the heap page of record `k` is not in the file.
pub open spec fn stuck_at(d: Disk, a: Analysis, records: Seq<RecordView>, k: int) -> bool {
    &&& 0 <= k < records.len()
    &&& undoes(a, records[k])
    &&& !records[k].header.is_index
    &&& records[k].header.page_id >= d.heap.len()
    &&& undoable(d, a, records.skip(k + 1))
}

/// Records can be undone in two parts, the later ones first.
pub proof fn lemma_undo_split(d: Disk, a: Analysis, s: Seq<RecordView>, t: Seq<RecordView>)
    ensures
        undo(d, a, s + t) == undo(undo(d, a, t), a, s),
        undone(a, s + t) == undone(a, t) + undone(a, s),
        clr_size(a, s + t) == clr_size(a, s) + clr_size(a, t),
    decreases t.len(),
{
    if t.len() == 0 {
        assert(s + t =~= s);
        assert(undone(a, t) + undone(a, s) =~= undone(a, s));
    } else {
        assert((s + t).drop_last() =~= s + t.drop_last());
        lemma_undo_split(undo_one(d, a, t.last()), a, s, t.drop_last());
        assert(undone(a, s + t) =~= undone(a, t) + undone(a, s));
    }
}

/// One more record is undone before the later ones.
proof fn lemma_undo_next(d: Disk, a: Analysis, records: Seq<RecordView>, i: int)
    requires
        0 <= i < records.len(),
    ensures
        undo(d, a, records.skip(i)) == undo_one(undo(d, a, records.skip(i + 1)), a, records[i]),
        undone(a, records.skip(i)) == (if undoes(a, records[i]) {
            undone(a, records.skip(i + 1)).push(records[i])
        } else {
            undone(a, records.skip(i + 1))
        }),
        clr_size(a, records) == clr_size(a, records.take(i)) + clr_size(a, records.skip(i)),
{
    let r = seq![records[i]];
    let t = records.skip(i + 1);
    assert(records.skip(i) =~= r + t);
    lemma_undo_split(d, a, r, t);
    assert(r.drop_last() =~= Seq::empty());
    let e = undo(d, a, t);
    assert(undo(e, a, r) == undo(undo_one(e, a, r.last()), a, r.drop_last()));
    assert(undone(a, r.drop_last()) =~= Seq::empty());
    assert(undone(a, r) =~= if undoes(a, records[i]) {
        r
    } else {
        Seq::empty()
    });
    assert(undone(a, t) + r =~= undone(a, t).push(records[i]));
    assert(undone(a, t) + Seq::<RecordView>::empty() =~= undone(a, t));
    assert(records =~= records.take(i) + records.skip(i));
    lemma_undo_split(d, a, records.take(i), records.skip(i));
}

/// The size of the log records that the undo phase writes.
pub open spec fn clr_size(a: Analysis, records: Seq<RecordView>) -> nat
    decreases records.len(),
{
    if records.len() == 0 {
        0
    } else {
        clr_size(a, records.drop_last()) + if undoes(a, records.last()) {
            WAL_RECORD_HEADER_SIZE as nat + 4 + wal::update_of(
                records.last().payload,
            ).unwrap().0.len()
        } else {
            0nat
        }
    }
}

/// `c` is the compensation record for `r`: redoing it undoes `r`.
pub open spec fn compensates(c: RecordView, r: RecordView) -> bool {
    &&& c.header.record_type == RecordType::Clr
    &&& c.header.txn_id == r.header.txn_id
    &&& c.header.is_index == r.header.is_index
    &&& c.header.page_id == r.header.page_id
    &&& c.header.payload_page_offset == r.header.payload_page_offset
    &&& c.payload == wal::sized(Seq::empty()) + wal::sized(
        wal::update_of(r.payload).unwrap().0,
    )
}

/// The compensation records for some records, in the same order.
pub open spec fn compensate(cs: Seq<RecordView>, rs: Seq<RecordView>) -> bool {
    &&& cs.len() == rs.len()
    &&& forall|i: int| 0 <= i < cs.len() ==> compensates(#[trigger] cs[i], rs[i])
}

/// The records that say that some transactions were rolled back.
pub open spec fn aborts(rs: Seq<RecordView>, txns: Seq<u64>) -> bool {
    &&& rs.len() == txns.len()
    &&& forall|i: int|
        0 <= i < rs.len() ==> (#[trigger] rs[i]).header.record_type == RecordType::Abort
            && rs[i].header.txn_id == txns[i]
}

/// The records say how long they are, and have LSNs from `lsn` on.
pub open spec fn numbered(records: Seq<RecordView>, lsn: int) -> bool {
    forall|i: int|
        0 <= i < records.len() ==> (#[trigger] records[i]).header.lsn == lsn + i
            && records[i].sized()
}

/// The log `w2` is the log `w` with some records appended.
pub open spec fn extends(w: LogView, w2: LogView, records: Seq<RecordView>) -> bool {
    &&& w2.all() == w.all() + wal::log_of(records)
    &&& numbered(records, w.header.next_lsn as int)
    &&& w2.header.next_lsn == w.header.next_lsn + records.len()
    &&& w2.header.last_checkpoint_lsn == w.header.last_checkpoint_lsn
    &&& w2.header.next_txn_id == w.header.next_txn_id
}

/// What is known from a checkpoint's tables.
pub open spec fn load_dpt(a: Analysis, dpt: Seq<DirtyPageEntry>) -> Analysis
    decreases dpt.len(),
{
    if dpt.len() == 0 {
        a
    } else {
        let b = load_dpt(a, dpt.drop_last());
        let e = dpt.last();
        if e.is_index {
            Analysis { index: b.index.insert(e.page_id, e.rec_lsn), ..b }
        } else {
            Analysis { heap: b.heap.insert(e.page_id, e.rec_lsn), ..b }
        }
    }
}

/// What is known from a checkpoint's tables.
pub open spec fn load_att(a: Analysis, att: Seq<TxnEntry>) -> Analysis
    decreases att.len(),
{
    if att.len() == 0 {
        a
    } else {
        let b = load_att(a, att.drop_last());
        Analysis { att: b.att.insert(att.last().txn_id, att.last().last_lsn), ..b }
    }
}

/// The place of the first record with an LSN.
pub open spec fn place_of(records: Seq<RecordView>, lsn: u64) -> int
    decreases records.len(),
{
    if records.len() == 0 {
        0
    } else if records[0].header.lsn == lsn {
        0
    } else {
        1 + place_of(records.skip(1), lsn)
    }
}

/// What the last checkpoint says, and the LSN that the analysis starts from.
pub open spec fn from_checkpoint(records: Seq<RecordView>, lsn: u64) -> (Analysis, int) {
    let i = place_of(records, lsn);
    if lsn > 0 && i < records.len() && wal::checkpoint_of(records[i].payload) is Some {
        let (dpt, att) = wal::checkpoint_of(records[i].payload).unwrap();
        (load_att(load_dpt(nothing_known(), dpt), att), lsn + 1)
    } else {
        (nothing_known(), 0)
    }
}

/// What recovery knows of a log.
pub open spec fn analysis_of(log: LogView) -> Analysis {
    let records = wal::records_in(log.durable);
    let (a, start) = from_checkpoint(records, log.header.last_checkpoint_lsn);
    analyse(a, records, start)
}

/// Whether the bytes of a change lie on its page.
pub open spec fn on_page(r: RecordView, b: Seq<u8>) -> bool {
    r.header.payload_page_offset + b.len() <= (if r.header.is_index {
        PAGE_SIZE as int
    } else {
        HEAP_PAGE_SIZE as int
    })
}

/// Whether a log can be replayed: changes lie on their pages, and index pages
/// that are to be undone are in the file.
pub open spec fn replayable(d: Disk, a: Analysis, records: Seq<RecordView>) -> bool {
    &&& forall|i: int|
        0 <= i < records.len() && redoes(a, #[trigger] records[i]) ==> on_page(
            records[i],
            wal::update_of(records[i].payload).unwrap().1,
        ) && records[i].header.page_id < MAX_PAGES
    &&& forall|i: int|
        0 <= i < records.len() && undoes(a, #[trigger] records[i]) ==> on_page(
            records[i],
            wal::update_of(records[i].payload).unwrap().0,
        )
    &&& forall|i: int|
        0 <= i < records.len() && undoes(a, #[trigger] records[i]) && records[i].header.is_index
            ==> records[i].header.page_id < redo(d, a, records).index.len()
}

/// Whether the heap pages that are to be undone are in the file.
pub open spec fn undoable(d: Disk, a: Analysis, records: Seq<RecordView>) -> bool {
    forall|i: int|
        0 <= i < records.len() && undoes(a, #[trigger] records[i]) && !records[i].header.is_index
            ==> records[i].header.page_id < d.heap.len()
}

/// Whether LSNs and offsets last for the records that recovery writes.
pub open spec fn recovery_room(log: LogView, a: Analysis, records: Seq<RecordView>) -> bool {
    let losers = a.att.dom().len();
    &&& log.header.next_lsn + undone(a, records).len() + losers <= u64::MAX
    &&& WAL_HEADER_SIZE + log.all().len() + clr_size(a, records) + WAL_RECORD_HEADER_SIZE * losers
        <= usize::MAX
}

impl Tables {
    /// Takes the tables of a checkpoint into account.
    fn load(&mut self, data: &CheckpointData)
        ensures
            final(self)@ == load_att(load_dpt(old(self)@, data.dpt@), data.att@),
    {
        let mut i: usize = 0;
        assert(data.dpt@.take(0) =~= Seq::empty());
        while i < data.dpt.len()
            invariant
                i <= data.dpt@.len(),
                self@ == load_dpt(old(self)@, data.dpt@.take(i as int)),
            decreases data.dpt@.len() - i,
        {
            let e = data.dpt[i];
            let ghost before = self@;
            if e.is_index {
                self.index.insert(e.page_id, e.rec_lsn);
            } else {
                self.heap.insert(e.page_id, e.rec_lsn);
            }
            proof {
                assert(data.dpt@.take(i + 1).drop_last() =~= data.dpt@.take(i as int));
                assert(self@ =~= load_dpt(old(self)@, data.dpt@.take(i + 1)));
            }
            i = i + 1;
        }
        assert(data.dpt@.take(i as int) =~= data.dpt@);
        let ghost mid = self@;
        let mut j: usize = 0;
        assert(data.att@.take(0) =~= Seq::empty());
        while j < data.att.len()
            invariant
                j <= data.att@.len(),
                self@ == load_att(mid, data.att@.take(j as int)),
            decreases data.att@.len() - j,
        {
            let e = data.att[j];
            self.att.insert(e.txn_id, e.last_lsn);
            proof {
                assert(data.att@.take(j + 1).drop_last() =~= data.att@.take(j as int));
                assert(self@ =~= load_att(mid, data.att@.take(j + 1)));
            }
            j = j + 1;
        }
        assert(data.att@.take(j as int) =~= data.att@);
    }

    /// The first LSN that some page may lack, or `default` where there are no
    /// such pages.
    fn min_rec_lsn(&self, default: u64) -> (m: u64)
        ensures
            forall|id: u64| #[trigger] self@.index.contains_key(id) ==> m <= self@.index[id],
            forall|id: u64| #[trigger] self@.heap.contains_key(id) ==> m <= self@.heap[id],
            (exists|id: u64| #[trigger] self@.index.contains_key(id) && self@.index[id] == m) || (
            exists|id: u64| #[trigger] self@.heap.contains_key(id) && self@.heap[id] == m) || (m
                == default && self@.index.dom() == Set::<u64>::empty() && self@.heap.dom() == Set::<
                u64,
            >::empty()),
    {
        let a = entries_of(&self.index);
        let b = entries_of(&self.heap);
        if a.len() == 0 && b.len() == 0 {
            proof {
                assert forall|id: u64| #[trigger]
                    self@.index.contains_key(id) implies default <= self@.index[id] by {
                    let i = choose|i: int| 0 <= i < a@.len() && (#[trigger] a@[i]).txn_id == id;
                }
                assert forall|id: u64| #[trigger]
                    self@.heap.contains_key(id) implies default <= self@.heap[id] by {
                    let i = choose|i: int| 0 <= i < b@.len() && (#[trigger] b@[i]).txn_id == id;
                }
                assert(forall|id: u64| !self@.index.contains_key(id));
                assert(forall|id: u64| !self@.heap.contains_key(id));
                assert(self@.index.dom() =~= Set::<u64>::empty());
                assert(self@.heap.dom() =~= Set::<u64>::empty());
            }
            return default;
        }
        let x: u64 = least(&a);
        let y: u64 = least(&b);
        let m: u64 = if x <= y {
            x
        } else {
            y
        };
        proof {
            assert forall|id: u64| #[trigger] self@.index.contains_key(id) implies m
                <= self@.index[id] by {
                let i = choose|i: int| 0 <= i < a@.len() && (#[trigger] a@[i]).txn_id == id;
                assert(x <= a@[i].last_lsn);
            }
            assert forall|id: u64| #[trigger] self@.heap.contains_key(id) implies m
                <= self@.heap[id] by {
                let i = choose|i: int| 0 <= i < b@.len() && (#[trigger] b@[i]).txn_id == id;
                assert(y <= b@[i].last_lsn);
            }
            if a@.len() > 0 && x == m {
                let i = choose|i: int| 0 <= i < a@.len() && (#[trigger] a@[i]).last_lsn == x;
                assert(self@.index.contains_key(a@[i].txn_id));
            } else {
                let i = choose|i: int| 0 <= i < b@.len() && (#[trigger] b@[i]).last_lsn == y;
                assert(self@.heap.contains_key(b@[i].txn_id));
            }
        }
        m
    }

    /// The transactions to roll back, in increasing order.
    fn losers(&self) -> (txns: Vec<u64>)
        ensures
            forall|i: int, j: int| 0 <= i < j < txns@.len() ==> txns@[i] < txns@[j],
            forall|txn: u64| #[trigger] txns@.contains(txn) == is_loser(self@, txn),
            txns@.len() <= self@.att.dom().len(),
    {
        let entries = entries_of(&self.att);
        let mut txns: Vec<u64> = Vec::new();
        let mut i: usize = 0;
        while i < entries.len()
            invariant
                i <= entries@.len(),
                lists(entries@, self@.att),
                txns@.len() <= i,
                forall|x: int, y: int| 0 <= x < y < txns@.len() ==> txns@[x] < txns@[y],
                forall|txn: u64| #[trigger]
                    txns@.contains(txn) == (txn != 0 && exists|k: int|
                        0 <= k < i && (#[trigger] entries@[k]).txn_id == txn),
            decreases entries@.len() - i,
        {
            let txn: u64 = entries[i].txn_id;
            let ghost before = txns@;
            if txn != 0 {
                insert_sorted(&mut txns, txn);
            }
            proof {
                assert forall|t: u64| #[trigger]
                    txns@.contains(t) == (t != 0 && exists|k: int|
                        0 <= k < i + 1 && (#[trigger] entries@[k]).txn_id == t) by {
                    if before.contains(t) {
                        let k = choose|k: int| 0 <= k < i && (#[trigger] entries@[k]).txn_id == t;
                        assert(entries@[k].txn_id == t);
                    }
                    if t == txn {
                        assert(entries@[i as int].txn_id == t);
                    }
                }
            }
            i = i + 1;
        }
        proof {
            lemma_lists_len(entries@, self@.att);
            assert forall|txn: u64| #[trigger] txns@.contains(txn) == is_loser(self@, txn) by {
                if self@.att.contains_key(txn) {
                    let k = choose|k: int|
                        0 <= k < entries@.len() && (#[trigger] entries@[k]).txn_id == txn;
                    assert(entries@[k].txn_id == txn);
                }
            }
        }
        txns
    }
}

/// The least LSN of some entries, or the greatest possible one.
fn least(entries: &Vec<TxnEntry>) -> (m: u64)
    ensures
        forall|i: int| 0 <= i < entries@.len() ==> m <= (#[trigger] entries@[i]).last_lsn,
        entries@.len() > 0 ==> exists|i: int|
            0 <= i < entries@.len() && (#[trigger] entries@[i]).last_lsn == m,
        entries@.len() == 0 ==> m == u64::MAX,
{
    let mut m: u64 = u64::MAX;
    let mut i: usize = 0;
    while i < entries.len()
        invariant
            i <= entries@.len(),
            forall|j: int| 0 <= j < i ==> m <= (#[trigger] entries@[j]).last_lsn,
            i == 0 ==> m == u64::MAX,
            i > 0 ==> exists|j: int| 0 <= j < i && (#[trigger] entries@[j]).last_lsn == m,
        decreases entries@.len() - i,
    {
        let ghost before = m;
        if entries[i].last_lsn < m {
            m = entries[i].last_lsn;
        }
        proof {
            if m != before || i == 0 {
                assert(entries@[i as int].last_lsn == m);
            } else {
                let j = choose|j: int| 0 <= j < i && (#[trigger] entries@[j]).last_lsn == before;
                assert(entries@[j].last_lsn == m);
            }
        }
        i = i + 1;
    }
    m
}

/// Adds a number that is not there yet to numbers in increasing order.
fn insert_sorted(v: &mut Vec<u64>, x: u64)
    requires
        forall|i: int, j: int| 0 <= i < j < old(v)@.len() ==> old(v)@[i] < old(v)@[j],
    ensures
        forall|i: int, j: int| 0 <= i < j < final(v)@.len() ==> final(v)@[i] < final(v)@[j],
        forall|y: u64| #[trigger] final(v)@.contains(y) == (y == x || old(v)@.contains(y)),
        final(v)@.len() <= old(v)@.len() + 1,
{
    let mut i: usize = 0;
    while i < v.len() && v[i] < x
        invariant
            i <= v@.len(),
            v@ == old(v)@,
            forall|j: int| 0 <= j < i ==> #[trigger] v@[j] < x,
        decreases v@.len() - i,
    {
        i = i + 1;
    }
    let ghost before = v@;
    if i < v.len() && v[i] == x {
        assert(before[i as int] == x);
    } else {
        v.insert(i, x);
        proof {
            assert(v@ =~= before.insert(i as int, x));
            assert forall|y: u64| #[trigger] v@.contains(y) == (y == x || before.contains(y)) by {
                if before.contains(y) {
                    let j = choose|j: int| 0 <= j < before.len() && before[j] == y;
                    let k = if j < i {
                        j
                    } else {
                        j + 1
                    };
                    assert(v@[k] == y);
                }
                if y == x {
                    assert(v@[i as int] == y);
                }
                if v@.contains(y) && y != x {
                    let k = choose|k: int| 0 <= k < v@.len() && v@[k] == y;
                    let j = if k < i {
                        k
                    } else {
                        k - 1
                    };
                    assert(before[j] == y);
                }
            }
            assert forall|a: int, b: int| 0 <= a < b < v@.len() implies v@[a] < v@[b] by {
                let a1 = if a < i {
                    a
                } else {
                    a - 1
                };
                let b1 = if b < i {
                    b
                } else {
                    b - 1
                };
                if a != i && b != i {
                    assert(before[a1] < before[b1]);
                } else if a == i {
                    assert(before[b1] >= before[i as int]);
                }
            }
        }
    }
}

/// The place of the first record with an LSN.
fn find_lsn(records: &Vec<WalRecord>, lsn: u64) -> (i: usize)
    ensures
        i == place_of(wal::views(records@), lsn),
        i <= records@.len(),
{
    let ghost all = wal::views(records@);
    let mut i: usize = 0;
    assert(all.skip(0) =~= all);
    while i < records.len() && records[i].header.lsn != lsn
        invariant
            i <= records@.len(),
            all == wal::views(records@),
            place_of(all, lsn) == i + place_of(all.skip(i as int), lsn),
        decreases records@.len() - i,
    {
        proof {
            let rest = all.skip(i as int);
            assert(rest[0] == records@[i as int]@);
            assert(rest.skip(1) =~= all.skip(i + 1));
        }
        i = i + 1;
    }
    proof {
        let rest = all.skip(i as int);
        if i < records@.len() {
            assert(rest[0] == records@[i as int]@);
        }
    }
    i
}

impl Pager {
    /// Replaces some bytes of an index page.
    fn patch_index(&mut self, page_id: u64, offset: u16, b: &[u8])
        requires
            old(self).wf(),
            page_id < old(self).index@.len(),
            offset + b@.len() <= PAGE_SIZE,
        ensures
            final(self).wf(),
            final(self).heap == old(self).heap,
            final(self).wal@.flushes(old(self).wal@),
            final(self).index.resident(page_id),
            paging::same_marks(
                old(self).index.pool_view(),
                final(self).index.pool_view(),
                page_id,
            ),
            disk_of(*final(self)) == (Disk {
                index: patch(disk_of(*old(self)).index, page_id, offset, b@),
                ..disk_of(*old(self))
            }),
    {
        let mut page = self.index.fetch_mut(&mut self.wal, page_id);
        let ghost before = page.data@;
        bytes::put_bytes(&mut page.data, offset as usize, b);
        self.index.store(&mut self.wal, page_id, page);
        proof {
            let s = old(self).index.state(old(self).wal);
            paging::lemma_take_in_marks(s, page_id, s.stored[page_id as int], false);
            assert(disk_of(*self).index =~= patch(
                disk_of(*old(self)).index,
                page_id,
                offset,
                b@,
            ));
        }
    }

    /// Replaces some bytes of a heap page.
    fn patch_heap(&mut self, page_id: u64, offset: u16, b: &[u8]) -> (r: Result<(), StorageError>)
        requires
            old(self).wf(),
            offset + b@.len() <= HEAP_PAGE_SIZE,
        ensures
            final(self).wf(),
            final(self).index == old(self).index,
            final(self).wal@.flushes(old(self).wal@),
            r is Ok ==> final(self).heap.resident(page_id),
            paging::same_marks(
                old(self).heap.pool_view(),
                final(self).heap.pool_view(),
                page_id,
            ),
            r is Err ==> final(self).heap.dirty() == old(self).heap.dirty() && forall|p: u64|
                #[trigger] final(self).heap.lsn_of(p) == old(self).heap.lsn_of(p),
            r is Ok == (page_id < old(self).heap@.len()),
            r matches Err(e) ==> e == StorageError::ShortRead,
            r is Err ==> disk_of(*final(self)) == disk_of(*old(self)),
            r is Ok ==> disk_of(*final(self)) == (Disk {
                heap: patch(disk_of(*old(self)).heap, page_id, offset, b@),
                ..disk_of(*old(self))
            }),
    {
        proof {
            self.heap.lemma_stored();
            let s = self.heap.state(self.wal).touch(page_id);
            paging::lemma_take_in_marks(s, page_id, s.stored[page_id as int], false);
        }
        let mut page = match self.heap.fetch_mut(&mut self.wal, page_id) {
            Ok(page) => page,
            Err(e) => return Err(e),
        };
        bytes::put_bytes(&mut page.data, offset as usize, b);
        self.heap.release(page_id, page);
        proof {
            assert(disk_of(*self).heap =~= patch(disk_of(*old(self)).heap, page_id, offset, b@));
        }
        Ok(())
    }

    /// Redoes the changes that pages may lack.
    fn redo_log(&mut self, records: &Vec<WalRecord>, tables: &Tables, min_rec_lsn: u64) -> (n: usize)
        requires
            old(self).wf(),
            forall|i: int|
                0 <= i < records@.len() && redoes(tables@, #[trigger] wal::views(records@)[i])
                    ==> on_page(
                    wal::views(records@)[i],
                    wal::update_of(wal::views(records@)[i].payload).unwrap().1,
                ) && wal::views(records@)[i].header.page_id < MAX_PAGES,
            forall|id: u64| #[trigger]
                tables@.index.contains_key(id) ==> min_rec_lsn <= tables@.index[id],
            forall|id: u64| #[trigger]
                tables@.heap.contains_key(id) ==> min_rec_lsn <= tables@.heap[id],
        ensures
            final(self).wf(),
            final(self).wal@.flushes(old(self).wal@),
            disk_of(*final(self)) == redo(disk_of(*old(self)), tables@, wal::views(records@)),
            n == redo_count(tables@, wal::views(records@)),
            marked(*old(self), *final(self), redo_marks(tables@, wal::views(records@))),
    {
        let ghost all = wal::views(records@);
        let ghost d0 = disk_of(*self);
        let mut redone_records: usize = 0;
        let mut i: usize = 0;
        assert(all.take(0) =~= Seq::empty());
        while i < records.len()
            invariant
                i <= records@.len(),
                all == wal::views(records@),
                self.wf(),
                self.wal@.flushes(old(self).wal@),
                forall|i: int|
                    0 <= i < records@.len() && redoes(tables@, #[trigger] all[i]) ==> on_page(
                        all[i],
                        wal::update_of(all[i].payload).unwrap().1,
                    ) && all[i].header.page_id < MAX_PAGES,
                forall|id: u64| #[trigger]
                    tables@.index.contains_key(id) ==> min_rec_lsn <= tables@.index[id],
                forall|id: u64| #[trigger]
                    tables@.heap.contains_key(id) ==> min_rec_lsn <= tables@.heap[id],
                disk_of(*self) == redo(d0, tables@, all.take(i as int)),
                redone_records == redo_count(tables@, all.take(i as int)),
                marked(*old(self), *self, redo_marks(tables@, all.take(i as int))),
                redone_records <= i,
            decreases records@.len() - i,
        {
            let record = &records[i];
            let h = record.header;
            let ghost rv = all[i as int];
            proof {
                assert(rv == records@[i as int]@);
                assert(all.take(i + 1).drop_last() =~= all.take(i as int));
                assert(all.take(i + 1).last() == rv);
            }
            let change: bool = h.record_type == RecordType::Update || h.record_type
                == RecordType::Clr;
            let rec_lsn = if h.is_index {
                tables.index.get(&h.page_id)
            } else {
                tables.heap.get(&h.page_id)
            };
            let due: bool = match rec_lsn {
                Some(lsn) => h.lsn >= min_rec_lsn && h.lsn >= *lsn,
                None => false,
            };
            if change && due {
                if let Some((offset, _, redo)) = record.parse_update() {
                    let ghost before = disk_of(*self);
                    let ghost p1 = *self;
                    if h.is_index {
                        self.index.grow_to(h.page_id + 1);
                        proof {
                            assert(disk_of(*self).index =~= grow(
                                before.index,
                                h.page_id + 1,
                                PAGE_SIZE as nat,
                            ));
                        }
                        self.patch_index(h.page_id, offset, &redo);
                        self.index.update_lsn(h.page_id, h.lsn);
                    } else {
                        self.heap.grow_to(h.page_id + 1);
                        proof {
                            assert(disk_of(*self).heap =~= grow(
                                before.heap,
                                h.page_id + 1,
                                HEAP_PAGE_SIZE as nat,
                            ));
                        }
                        let _ = self.patch_heap(h.page_id, offset, &redo);
                        self.heap.update_lsn(h.page_id, h.lsn);
                    }
                    redone_records = redone_records + 1;
                    proof {
                        lemma_marked(
                            *old(self),
                            p1,
                            *self,
                            redo_marks(tables@, all.take(i as int)),
                            rv,
                            h.lsn,
                        );
                    }
                    assert(disk_of(*self) =~= redo_one(before, tables@, rv));
                }
            }
            i = i + 1;
        }
        assert(all.take(i as int) =~= all);
        redone_records
    }
}

/// The record that says that a change was undone.
pub open spec fn clr_of(w: LogView, r: RecordView) -> RecordView {
    wal::next_record(
        w,
        r.header.txn_id,
        RecordType::Clr,
        r.header.page_id,
        r.header.is_index,
        r.header.payload_page_offset,
        wal::sized(Seq::empty()) + wal::sized(wal::update_of(r.payload).unwrap().0),
    )
}

/// The page of a record has the LSN `lsn`, and no other page was marked.
pub open spec fn stamped(p1: Pager, p2: Pager, r: RecordView, lsn: u64) -> bool {
    let id = r.header.page_id;
    if r.header.is_index {
        &&& p2.heap == p1.heap
        &&& paging::same_marks(p1.index.pool_view(), p2.index.pool_view(), id)
        &&& p2.index.lsn_of(id) == lsn
    } else {
        &&& p2.index == p1.index
        &&& paging::same_marks(p1.heap.pool_view(), p2.heap.pool_view(), id)
        &&& p2.heap.lsn_of(id) == lsn
    }
}

/// One more page was changed, and has the LSN of the record.
proof fn lemma_marked(before: Pager, p1: Pager, p2: Pager, m: Marks, r: RecordView, lsn: u64)
    requires
        marked(before, p1, m),
        stamped(p1, p2, r, lsn),
    ensures
        marked(before, p2, mark(m, r, lsn)),
{
    let m2 = mark(m, r, lsn);
    assert forall|p: u64| #[trigger] p2.index.dirty().contains(p) implies (if m2.index.contains_key(
        p,
    ) {
        p2.index.lsn_of(p) == m2.index[p]
    } else {
        before.index.dirty().contains(p) && p2.index.lsn_of(p) == before.index.lsn_of(p)
    }) by {
        assert(p2.index.pool_view().dirty.contains(p));
        if !(r.header.is_index && p == r.header.page_id) {
            assert(p1.index.dirty().contains(p));
        }
    }
    assert forall|p: u64| #[trigger] p2.heap.dirty().contains(p) implies (if m2.heap.contains_key(
        p,
    ) {
        p2.heap.lsn_of(p) == m2.heap[p]
    } else {
        before.heap.dirty().contains(p) && p2.heap.lsn_of(p) == before.heap.lsn_of(p)
    }) by {
        assert(p2.heap.pool_view().dirty.contains(p));
        if r.header.is_index || p != r.header.page_id {
            assert(p1.heap.dirty().contains(p));
        }
    }
}

/// The marks stay when the pages keep theirs.
proof fn lemma_marked_same(before: Pager, p1: Pager, p2: Pager, m: Marks)
    requires
        marked(before, p1, m),
        p2.index == p1.index,
        p2.heap.dirty() == p1.heap.dirty(),
        forall|p: u64| #[trigger] p2.heap.lsn_of(p) == p1.heap.lsn_of(p),
    ensures
        marked(before, p2, m),
{
    assert forall|p: u64| #[trigger] p2.heap.dirty().contains(p) implies (if m.heap.contains_key(
        p,
    ) {
        p2.heap.lsn_of(p) == m.heap[p]
    } else {
        before.heap.dirty().contains(p) && p2.heap.lsn_of(p) == before.heap.lsn_of(p)
    }) by {
        assert(p1.heap.dirty().contains(p));
    }
}

/// A log that grew and then grew again.
proof fn lemma_extends(w: LogView, w1: LogView, w2: LogView, records: Seq<RecordView>, r: RecordView)
    requires
        extends(w, w1, records),
        w1.header.next_lsn < u64::MAX,
        w2 == w1.push(r),
        r.header.lsn == w1.header.next_lsn,
        r.sized(),
    ensures
        extends(w, w2, records.push(r)),
{
    wal::lemma_log_push(records, r);
    assert(w2.all() =~= w1.all() + r.encoding());
    assert(w2.all() =~= w.all() + wal::log_of(records.push(r)));
}

/// A log that grew in two steps.
proof fn lemma_extends_twice(
    w: LogView,
    w1: LogView,
    w2: LogView,
    records: Seq<RecordView>,
    r: RecordView,
)
    requires
        extends(w, w1, records),
        extends(w1, w2, seq![r]),
    ensures
        extends(w, w2, records.push(r)),
{
    wal::lemma_log_push(records, r);
    wal::lemma_log_push(Seq::<RecordView>::empty(), r);
    assert(Seq::<RecordView>::empty().push(r) =~= seq![r]);
    assert(wal::log_of(Seq::<RecordView>::empty()) =~= Seq::<u8>::empty());
    assert(wal::log_of(seq![r]) =~= r.encoding());
    assert(w2.all() =~= w.all() + wal::log_of(records.push(r)));
    assert(seq![r][0] == r);
    assert(r.header.lsn == w1.header.next_lsn);
}

/// A log that grew and was flushed.
proof fn lemma_extends_flush(w: LogView, w1: LogView, w2: LogView, records: Seq<RecordView>)
    requires
        extends(w, w1, records),
        w2.flushes(w1),
    ensures
        extends(w, w2, records),
{
}

impl Pager {
    /// Undoes a change, logs that, and gives the page the LSN of the log record.
    fn undo_record(&mut self, record: &WalRecord, offset: u16, undo_data: &Vec<u8>) -> (r: Result<
        (),
        StorageError,
    >)
        requires
            old(self).wf(),
            wal::update_of(record.payload@) matches Some((u, v)) && u == undo_data@,
            offset == record.header.payload_page_offset,
            on_page(record@, undo_data@),
            record.header.is_index ==> record.header.page_id < old(self).index@.len(),
            old(self).wal@.has_room(4 + undo_data@.len()),
        ensures
            final(self).wf(),
            ({
                let h = record.header;
                let d = disk_of(*old(self));
                let c = clr_of(old(self).wal@, record@);
                &&& r is Ok == (h.is_index || h.page_id < old(self).heap@.len())
                &&& r matches Err(e) ==> {
                    &&& e == StorageError::ShortRead
                    &&& disk_of(*final(self)) == d
                    &&& final(self).wal@.flushes(old(self).wal@)
                    &&& final(self).index == old(self).index
                    &&& final(self).heap.dirty() == old(self).heap.dirty()
                    &&& forall|p: u64| #[trigger]
                        final(self).heap.lsn_of(p) == old(self).heap.lsn_of(p)
                }
                &&& r is Ok ==> {
                    &&& disk_of(*final(self)) == (if h.is_index {
                        Disk { index: patch(d.index, h.page_id, offset, undo_data@), ..d }
                    } else {
                        Disk { heap: patch(d.heap, h.page_id, offset, undo_data@), ..d }
                    })
                    &&& extends(old(self).wal@, final(self).wal@, seq![c])
                    &&& stamped(*old(self), *final(self), record@, c.header.lsn)
                }
            }),
    {
        let h = record.header;
        let ghost w1 = self.wal@;
        if h.is_index {
            self.patch_index(h.page_id, offset, undo_data);
        } else {
            match self.patch_heap(h.page_id, offset, undo_data) {
                Ok(()) => {},
                Err(e) => return Err(e),
            }
        }
        let ghost w2 = self.wal@;
        let ghost c = clr_of(w1, record@);
        let lsn: u64 = self.wal.write_clr(h.txn_id, h.is_index, h.page_id, offset, undo_data);
        if h.is_index {
            self.index.update_lsn(h.page_id, lsn);
        } else {
            self.heap.update_lsn(h.page_id, lsn);
        }
        proof {
            lemma_clr_len(c, undo_data@);
            assert(self.wal@ == w2.push(c));
            assert(wal::log_of(Seq::<RecordView>::empty()) =~= Seq::<u8>::empty());
            assert(w1.all() + wal::log_of(Seq::<RecordView>::empty()) =~= w1.all());
            assert(extends(w1, w2, Seq::<RecordView>::empty()));
            lemma_extends(w1, w2, self.wal@, Seq::<RecordView>::empty(), c);
            assert(Seq::<RecordView>::empty().push(c) =~= seq![c]);
        }
        Ok(())
    }

    /// Undoes the changes of transactions that have not ended, the latest
    /// first, and logs each step.
    fn undo_log(
        &mut self,
        records: &Vec<WalRecord>,
        tables: &Tables,
        Ghost(before): Ghost<Pager>,
        Ghost(m): Ghost<Marks>,
    ) -> (r: Result<usize, StorageError>)
        requires
            old(self).wf(),
            marked(before, *old(self), m),
            ({
                let all = wal::views(records@);
                let a = tables@;
                &&& forall|i: int|
                    0 <= i < all.len() && undoes(a, #[trigger] all[i]) ==> on_page(
                        all[i],
                        wal::update_of(all[i].payload).unwrap().0,
                    )
                &&& forall|i: int|
                    0 <= i < all.len() && undoes(a, #[trigger] all[i]) && all[i].header.is_index
                        ==> all[i].header.page_id < old(self).index@.len()
                &&& old(self).wal@.header.next_lsn + undone(a, all).len() <= u64::MAX
                &&& WAL_HEADER_SIZE + old(self).wal@.all().len() + clr_size(a, all) <= usize::MAX
            }),
        ensures
            final(self).wf(),
            ({
                let all = wal::views(records@);
                let a = tables@;
                let d = disk_of(*old(self));
                &&& r is Ok == undoable(d, a, all)
                &&& r matches Err(e) ==> e == StorageError::ShortRead
                &&& r matches Ok(n) ==> {
                    &&& n == undone(a, all).len()
                    &&& undid(before, *final(self), d, old(self).wal@, m, a, all)
                }
                &&& r is Err ==> exists|k: int| #[trigger]
                    stuck_at(d, a, all, k) && undid(
                        before,
                        *final(self),
                        d,
                        old(self).wal@,
                        m,
                        a,
                        all.skip(k + 1),
                    )
            }),
    {
        let ghost all = wal::views(records@);
        let ghost a = tables@;
        let ghost d0 = disk_of(*self);
        let ghost w0 = self.wal@;
        let ghost mut done: Seq<RecordView> = Seq::empty();
        let ghost mut cs: Seq<RecordView> = Seq::empty();
        let mut undone_records: usize = 0;
        let total: usize = records.len();
        let mut i: usize = total;
        proof {
            assert(all.take(i as int) =~= all);
            assert(done + undone(a, all.take(i as int)) =~= undone(a, all));
            assert(wal::log_of(cs) =~= Seq::<u8>::empty());
            assert(w0.all() + wal::log_of(cs) =~= w0.all());
            assert(all.skip(i as int) =~= Seq::empty());
        }
        while i > 0
            invariant
                i <= records@.len(),
                all == wal::views(records@),
                a == tables@,
                self.wf(),
                forall|i: int|
                    0 <= i < all.len() && undoes(a, #[trigger] all[i]) ==> on_page(
                        all[i],
                        wal::update_of(all[i].payload).unwrap().0,
                    ),
                forall|i: int|
                    0 <= i < all.len() && undoes(a, #[trigger] all[i]) && all[i].header.is_index
                        ==> all[i].header.page_id < self.index@.len(),
                w0.header.next_lsn + undone(a, all).len() <= u64::MAX,
                WAL_HEADER_SIZE + w0.all().len() + clr_size(a, all) <= usize::MAX,
                w0 == old(self).wal@,
                d0 == disk_of(*old(self)),
                d0.heap.len() == self.heap@.len(),
                forall|k: int|
                    i <= k < all.len() && undoes(a, #[trigger] all[k]) && !all[k].header.is_index
                        ==> all[k].header.page_id < d0.heap.len(),
                undo(d0, a, all) == undo(disk_of(*self), a, all.take(i as int)),
                undone(a, all) == done + undone(a, all.take(i as int)),
                undone_records == done.len(),
                total == records@.len(),
                undone_records <= total - i,
                compensate(cs, done),
                extends(w0, self.wal@, cs),
                wal::log_of(cs).len() + clr_size(a, all.take(i as int)) == clr_size(a, all),
                disk_of(*self) == undo(d0, a, all.skip(i as int)),
                done == undone(a, all.skip(i as int)),
                marked(before, *self, undo_marks(m, done, w0.header.next_lsn as int)),
            decreases i,
        {
            i = i - 1;
            let record = &records[i];
            let h = record.header;
            let ghost rv = all[i as int];
            let ghost w1 = self.wal@;
            let ghost d1 = disk_of(*self);
            proof {
                assert(rv == records@[i as int]@);
                assert(all.take(i + 1).drop_last() =~= all.take(i as int));
                assert(all.take(i + 1).last() == rv);
                lemma_undo_next(d0, a, all, i as int);
                lemma_undo_split(d0, a, all.take(i + 1), all.skip(i + 1));
                assert(all.take(i + 1) + all.skip(i + 1) =~= all);
            }
            let ghost p1 = *self;
            if h.txn_id != 0 && tables.att.contains_key(&h.txn_id) && h.record_type
                == RecordType::Update {
                if let Some((offset, undo_data, _)) = record.parse_update() {
                    let ghost c = clr_of(w1, rv);
                    proof {
                        assert(undoes(a, all[i as int]));
                        lemma_clr_len(c, undo_data@);
                        assert(clr_size(a, all.take(i + 1)) == clr_size(a, all.take(i as int))
                            + 40 + undo_data@.len());
                        assert(done.len() + 1 + undone(a, all.take(i as int)).len() == undone(
                            a,
                            all,
                        ).len());
                    }
                    match self.undo_record(record, offset, &undo_data) {
                        Ok(()) => {},
                        Err(e) => {
                            proof {
                                lemma_extends_flush(w0, w1, self.wal@, cs);
                                let rest = all.skip(i + 1);
                                assert forall|k: int|
                                    0 <= k < rest.len() && undoes(a, #[trigger] rest[k])
                                        && !rest[k].header.is_index implies rest[k].header.page_id
                                    < d0.heap.len() by {
                                    assert(rest[k] == all[i + 1 + k]);
                                }
                                assert(stuck_at(d0, a, all, i as int));
                                assert(compensate(cs, undone(a, rest)));
                                lemma_marked_same(
                                    before,
                                    p1,
                                    *self,
                                    undo_marks(m, done, w0.header.next_lsn as int),
                                );
                                assert(undid(before, *self, d0, w0, m, a, rest));
                            }
                            return Err(e);
                        },
                    }
                    undone_records = undone_records + 1;
                    proof {
                        assert(disk_of(*self) =~= undo_one(d1, a, rv));
                        assert(disk_of(*self).heap.len() == d1.heap.len());
                        assert(disk_of(*self).index.len() == d1.index.len());
                        lemma_extends_twice(w0, w1, self.wal@, cs, c);
                        wal::lemma_log_push(cs, c);
                        assert(done.push(rv).drop_last() =~= done);
                        lemma_marked(
                            before,
                            p1,
                            *self,
                            undo_marks(m, done, w0.header.next_lsn as int),
                            rv,
                            c.header.lsn,
                        );
                        let was = done;
                        done = done.push(rv);
                        cs = cs.push(c);
                        assert(done + undone(a, all.take(i as int)) =~= was + (seq![rv] + undone(
                            a,
                            all.take(i as int),
                        )));
                        assert(compensate(cs, done));
                    }
                }
            }
        }
        proof {
            assert(all.take(0) =~= Seq::empty());
            assert(done =~= undone(a, all));
            assert(all.skip(0) =~= all);
            assert(compensate(cs, undone(a, all)));
        }
        Ok(undone_records)
    }
}

/// The size of a compensation record.
proof fn lemma_clr_len(c: RecordView, undo_data: Seq<u8>)
    requires
        c.payload == wal::sized(Seq::empty()) + wal::sized(undo_data),
    ensures
        c.encoding().len() == 40 + undo_data.len(),
        c.payload.len() == 4 + undo_data.len(),
{
    lemma_auto_spec_u64_to_from_le_bytes();
    lemma_auto_spec_u32_to_from_le_bytes();
    lemma_auto_spec_u16_to_from_le_bytes();
    assert(c.header.encoding().len() == 36);
}

impl Pager {
    /// Brings the files back to a consistent state after a crash: changes that
    /// the log has and the files may lack are redone, and those of transactions
    /// that have not ended are undone.
    pub fn recover(&mut self) -> (r: Result<RecoveryReport, StorageError>)
        requires
            old(self).wf(),
            old(self).wal@.header.last_checkpoint_lsn < u64::MAX,
            ({
                let records = wal::records_in(old(self).wal@.durable);
                let a = analysis_of(old(self).wal@);
                &&& replayable(disk_of(*old(self)), a, records)
                &&& recovery_room(old(self).wal@, a, records)
            }),
        ensures
            final(self).wf(),
            ({
                let records = wal::records_in(old(self).wal@.durable);
                let a = analysis_of(old(self).wal@);
                let redone = redo(disk_of(*old(self)), a, records);
                &&& r is Ok == undoable(redone, a, records)
                &&& r matches Err(e) ==> e == StorageError::ShortRead
                &&& r is Err ==> exists|k: int| #[trigger]
                    stuck_at(redone, a, records, k) && undid(
                        *old(self),
                        *final(self),
                        redone,
                        old(self).wal@,
                        redo_marks(a, records),
                        a,
                        records.skip(k + 1),
                    )
                &&& r matches Ok(report) ==> {
                    &&& disk_of(*final(self)) == undo(redone, a, records)
                    &&& marked(
                        *old(self),
                        *final(self),
                        undo_marks(
                            redo_marks(a, records),
                            undone(a, records),
                            old(self).wal@.header.next_lsn as int,
                        ),
                    )
                    &&& report.checkpoint_lsn == old(self).wal@.header.last_checkpoint_lsn
                    &&& report.redone_records == redo_count(a, records)
                    &&& report.undone_records == undone(a, records).len()
                    &&& forall|i: int, j: int|
                        0 <= i < j < report.active_txns@.len() ==> report.active_txns@[i]
                            < report.active_txns@[j]
                    &&& forall|txn: u64| #[trigger]
                        report.active_txns@.contains(txn) == is_loser(a, txn)
                    &&& final(self).wal@.pending.len() == 0
                    &&& log_rolled_back(
                        old(self).wal@,
                        final(self).wal@,
                        undone(a, records),
                        report.active_txns@,
                    )
                }
            }),
    {
        let chk_lsn: u64 = self.wal.header().last_checkpoint_lsn;
        let all_records = self.wal.read_all_records();
        let ghost all = wal::views(all_records@);
        let ghost w0 = self.wal@;
        let mut tables = Tables::new();
        let mut start_lsn: u64 = 0;
        if chk_lsn > 0 {
            let i: usize = find_lsn(&all_records, chk_lsn);
            if i < all_records.len() {
                assert(all[i as int] == all_records@[i as int]@);
                if let Some(chk_data) = all_records[i].parse_checkpoint() {
                    tables.load(&chk_data);
                    start_lsn = chk_lsn + 1;
                }
            }
        }
        tables.analyse(&all_records, start_lsn);
        let ghost a = tables@;
        assert(a == analysis_of(old(self).wal@));
        let min_rec_lsn: u64 = tables.min_rec_lsn(chk_lsn);
        let redone_records: usize = self.redo_log(&all_records, &tables, min_rec_lsn);
        let ghost w1 = self.wal@;
        let ghost redone = disk_of(*self);
        assert(redone.index.len() == self.index@.len());
        let loser_txns = tables.losers();
        let ghost m = redo_marks(a, all);
        let undone_records: usize = match self.undo_log(
            &all_records,
            &tables,
            Ghost(*old(self)),
            Ghost(m),
        ) {
            Ok(n) => n,
            Err(e) => {
                proof {
                    let k = choose|k: int| #[trigger]
                        stuck_at(redone, a, all, k) && undid(
                            *old(self),
                            *self,
                            redone,
                            w1,
                            m,
                            a,
                            all.skip(k + 1),
                        );
                    let rest = all.skip(k + 1);
                    let cs = choose|cs: Seq<RecordView>| #[trigger]
                        compensate(cs, undone(a, rest)) && extends(w1, self.wal@, cs)
                            && wal::log_of(cs).len() == clr_size(a, rest);
                    assert(extends(w0, self.wal@, cs));
                    assert(undid(*old(self), *self, redone, w0, m, a, rest));
                }
                return Err(e);
            },
        };
        let ghost w2 = self.wal@;
        let ghost cs = choose|cs: Seq<RecordView>| #[trigger]
            compensate(cs, undone(a, all)) && extends(w1, w2, cs) && wal::log_of(cs).len()
                == clr_size(a, all);
        let ends = self.abort_all(&loser_txns);
        let ghost w3 = self.wal@;
        self.wal.flush_all();
        proof {
            assert(self.wal@.all() =~= w3.all());
            assert(self.wal@.all() =~= w0.all() + wal::log_of(cs) + wal::log_of(ends@));
            assert(rolled_back(w0, self.wal@, cs, undone(a, all), ends@, loser_txns@));
            assert(log_rolled_back(w0, self.wal@, undone(a, all), loser_txns@));
        }
        Ok(
            RecoveryReport {
                checkpoint_lsn: chk_lsn,
                redone_records,
                undone_records,
                active_txns: loser_txns,
            },
        )
    }

    /// Logs that some transactions were rolled back.
    fn abort_all(&mut self, txns: &Vec<u64>) -> (ends: Ghost<Seq<RecordView>>)
        requires
            old(self).wf(),
            old(self).wal@.header.next_lsn + txns@.len() <= u64::MAX,
            WAL_HEADER_SIZE + old(self).wal@.all().len() + WAL_RECORD_HEADER_SIZE * txns@.len()
                <= usize::MAX,
        ensures
            final(self).wf(),
            final(self).index == old(self).index,
            final(self).heap == old(self).heap,
            aborts(ends@, txns@),
            extends(old(self).wal@, final(self).wal@, ends@),
    {
        let ghost w0 = self.wal@;
        let ghost mut ends: Seq<RecordView> = Seq::empty();
        let mut i: usize = 0;
        proof {
            assert(wal::log_of(ends) =~= Seq::<u8>::empty());
            assert(w0.all() + wal::log_of(ends) =~= w0.all());
        }
        while i < txns.len()
            invariant
                i <= txns@.len(),
                self.wf(),
                self.index == old(self).index,
                self.heap == old(self).heap,
                w0 == old(self).wal@,
                w0.header.next_lsn + txns@.len() <= u64::MAX,
                WAL_HEADER_SIZE + w0.all().len() + WAL_RECORD_HEADER_SIZE * txns@.len()
                    <= usize::MAX,
                aborts(ends, txns@.take(i as int)),
                extends(w0, self.wal@, ends),
                wal::log_of(ends).len() == WAL_RECORD_HEADER_SIZE * i,
            decreases txns@.len() - i,
        {
            let ghost w1 = self.wal@;
            let txn_id: u64 = txns[i];
            let ghost e = wal::next_record(
                w1,
                txn_id,
                RecordType::Abort,
                0,
                false,
                0,
                Seq::empty(),
            );
            proof {
                lemma_auto_spec_u64_to_from_le_bytes();
                lemma_auto_spec_u32_to_from_le_bytes();
                lemma_auto_spec_u16_to_from_le_bytes();
                assert(e.encoding().len() == 36);
                wal::lemma_log_push(ends, e);
                assert(w1.all().len() == w0.all().len() + WAL_RECORD_HEADER_SIZE * i);
            }
            let _ = self.wal.abort_transaction(txn_id);
            proof {
                lemma_extends(w0, w1, self.wal@, ends, e);
                ends = ends.push(e);
                assert(aborts(ends, txns@.take(i + 1)));
            }
            i = i + 1;
        }
        assert(txns@.take(i as int) =~= txns@);
        Ghost(ends)
    }
}

/// The log after recovery: a compensation record for each change that was
/// undone, and then the end of each transaction that was rolled back.
pub open spec fn rolled_back(
    w: LogView,
    w2: LogView,
    cs: Seq<RecordView>,
    undone: Seq<RecordView>,
    ends: Seq<RecordView>,
    txns: Seq<u64>,
) -> bool {
    &&& compensate(cs, undone)
    &&& aborts(ends, txns)
    &&& numbered(cs + ends, w.header.next_lsn as int)
    &&& w2.all() == w.all() + wal::log_of(cs) + wal::log_of(ends)
    &&& w2.header == (WalHeader {
        next_lsn: (w.header.next_lsn + cs.len() + ends.len()) as u64,
        ..w.header
    })
}

/// The log has the records of a rollback behind what it had before.
pub open spec fn log_rolled_back(
    w: LogView,
    w2: LogView,
    undone: Seq<RecordView>,
    txns: Seq<u64>,
) -> bool {
    exists|cs: Seq<RecordView>, ends: Seq<RecordView>| #[trigger]
        rolled_back(w, w2, cs, undone, ends, txns)
}

} // verus!
