//! What recovery reports, which LSNs the pages get and what the log says afterwards.

use super::pager::Pager;
use super::recovery;
use super::recovery::{Analysis, Marks};
use super::recovery_laws;
use super::restart_laws;
use super::wal;
use super::wal::{LogView, RecordType, RecordView};
use vstd::prelude::*;

verus! {

/// The record is about a change of a transaction that has not ended.
pub open spec fn open_change(records: Seq<RecordView>, r: RecordView) -> bool {
    &&& r.header.record_type == RecordType::Update
    &&& wal::update_of(r.payload) is Some
    &&& r.header.txn_id != 0
    &&& restart_laws::unfinished(records, r.header.txn_id)
}

/// Records that are picked alike, the last one first.
proof fn lemma_picked(a: Analysis, rs: Seq<RecordView>, pick: spec_fn(RecordView) -> bool)
    requires
        forall|x: int|
            0 <= x < rs.len() ==> (recovery::undoes(a, #[trigger] rs[x]) <==> pick(rs[x])),
    ensures
        recovery::undone(a, rs) == rs.filter(pick).reverse(),
    decreases rs.len(),
{
    reveal(Seq::filter);
    if rs.len() == 0 {
        assert(recovery::undone(a, rs) =~= rs.filter(pick).reverse());
    } else {
        let init = rs.drop_last();
        assert forall|x: int| 0 <= x < init.len() implies (recovery::undoes(
            a,
            #[trigger] init[x],
        ) <==> pick(init[x])) by {
            assert(init[x] == rs[x]);
        }
        lemma_picked(a, init, pick);
        let r = rs[rs.len() - 1];
        assert(recovery::undoes(a, r) <==> pick(r));
        let kept = init.filter(pick);
        if pick(r) {
            assert(rs.filter(pick) =~= kept.push(r));
            assert(kept.push(r).reverse() =~= seq![r] + kept.reverse());
        }
    }
}

/// The records that recovery undoes, the last one first, are those of changes of
/// transactions that have not ended: of pages of either file.
pub proof fn lemma_undone_records(w: LogView, at: Option<int>)
    requires
        at is Some ==> restart_laws::rising(wal::records_in(w.durable)),
        restart_laws::checkpoint_at(w, at),
        restart_laws::truthful(w, at),
    ensures
        ({
            let records = wal::records_in(w.durable);
            recovery::undone(recovery::analysis_of(w), records) == records.filter(
                |r: RecordView| open_change(records, r),
            ).reverse()
        }),
{
    let records = wal::records_in(w.durable);
    let a = recovery::analysis_of(w);
    let pick = |r: RecordView| open_change(records, r);
    assert forall|x: int| 0 <= x < records.len() implies (recovery::undoes(
        a,
        #[trigger] records[x],
    ) <==> pick(records[x])) by {
        restart_laws::lemma_losers(w, at, records[x].header.txn_id);
    }
    lemma_picked(a, records, pick);
}

/// The places of the records that are redone.
pub open spec fn redone_places(w: LogView, at: Option<int>, n: int) -> Set<int> {
    Set::new(
        |x: int|
            0 <= x < n && restart_laws::tells(wal::records_in(w.durable)[x])
                && restart_laws::lacks(w, at, x),
    )
}

/// Recovery counts the changes that it makes again: those that the files may lack.
pub proof fn lemma_redone_records(w: LogView, at: Option<int>, n: int)
    requires
        restart_laws::rising(wal::records_in(w.durable)),
        restart_laws::checkpoint_at(w, at),
        restart_laws::truthful(w, at),
        0 <= n <= wal::records_in(w.durable).len(),
    ensures
        redone_places(w, at, n).finite(),
        recovery::redo_count(
            recovery::analysis_of(w),
            wal::records_in(w.durable).take(n),
        ) == redone_places(w, at, n).len(),
    decreases n,
{
    let records = wal::records_in(w.durable);
    if n == 0 {
        assert(redone_places(w, at, 0) =~= Set::empty());
    } else {
        lemma_redone_records(w, at, n - 1);
        restart_laws::lemma_lacking(w, at, n - 1);
        assert(records.take(n).drop_last() =~= records.take(n - 1));
        assert(records.take(n).last() == records[n - 1]);
        let s = redone_places(w, at, n - 1);
        if restart_laws::tells(records[n - 1]) && restart_laws::lacks(w, at, n - 1) {
            assert(redone_places(w, at, n) =~= s.insert(n - 1));
        } else {
            assert(redone_places(w, at, n) =~= s);
        }
    }
}

/// The LSN that a page is marked with.
pub open spec fn mark_of(m: Marks, i: bool, p: u64) -> Option<u64> {
    let pages = if i {
        m.index
    } else {
        m.heap
    };
    if pages.contains_key(p) {
        Some(pages[p])
    } else {
        None
    }
}

/// The record is about a page.
pub open spec fn about(r: RecordView, i: bool, p: u64) -> bool {
    r.header.is_index == i && r.header.page_id == p
}

/// Redo marks a page with the LSN of the last record that it made again there: record
/// `x`, behind which none is about the page.
pub proof fn lemma_redo_mark(a: Analysis, records: Seq<RecordView>, x: int, i: bool, p: u64)
    requires
        0 <= x < records.len(),
        recovery::redoes(a, records[x]),
        about(records[x], i, p),
        forall|y: int|
            x < y < records.len() && #[trigger] about(records[y], i, p) ==> !recovery::redoes(
                a,
                records[y],
            ),
    ensures
        mark_of(recovery::redo_marks(a, records), i, p) == Some(records[x].header.lsn),
    decreases records.len(),
{
    let init = records.drop_last();
    let n = init.len() as int;
    if x < n {
        assert(init[x] == records[x]);
        assert(about(records[n], i, p) ==> !recovery::redoes(a, records[n]));
        assert forall|y: int| x < y < init.len() && #[trigger] about(
            init[y],
            i,
            p,
        ) implies !recovery::redoes(a, init[y]) by {
            assert(init[y] == records[y]);
            assert(about(records[y], i, p));
        }
        lemma_redo_mark(a, init, x, i, p);
    }
}

/// Redo marks no page on which it made no change again.
pub proof fn lemma_redo_unmarked(a: Analysis, records: Seq<RecordView>, i: bool, p: u64)
    requires
        forall|y: int|
            0 <= y < records.len() && #[trigger] about(records[y], i, p) ==> !recovery::redoes(
                a,
                records[y],
            ),
    ensures
        mark_of(recovery::redo_marks(a, records), i, p) is None,
    decreases records.len(),
{
    if records.len() > 0 {
        let init = records.drop_last();
        let n = init.len() as int;
        assert(about(records[n], i, p) ==> !recovery::redoes(a, records[n]));
        assert forall|y: int| 0 <= y < init.len() && #[trigger] about(
            init[y],
            i,
            p,
        ) implies !recovery::redoes(a, init[y]) by {
            assert(init[y] == records[y]);
            assert(about(records[y], i, p));
        }
        lemma_redo_unmarked(a, init, i, p);
    }
}

/// Undo marks a page with the LSN of the last compensation record of a change there:
/// that of change `x`, where none that is undone later is about the page.
pub proof fn lemma_undo_mark(
    m: Marks,
    undone: Seq<RecordView>,
    lsn: int,
    x: int,
    i: bool,
    p: u64,
)
    requires
        0 <= lsn,
        lsn + undone.len() <= u64::MAX,
        0 <= x < undone.len(),
        about(undone[x], i, p),
        forall|y: int| x < y < undone.len() ==> !#[trigger] about(undone[y], i, p),
    ensures
        mark_of(recovery::undo_marks(m, undone, lsn), i, p) == Some((lsn + x) as u64),
    decreases undone.len(),
{
    let init = undone.drop_last();
    let n = init.len() as int;
    if x < n {
        assert(init[x] == undone[x]);
        assert(!about(undone[n], i, p));
        assert forall|y: int| x < y < init.len() implies !#[trigger] about(init[y], i, p) by {
            assert(init[y] == undone[y]);
            assert(!about(undone[y], i, p));
        }
        lemma_undo_mark(m, init, lsn, x, i, p);
    }
}

/// Undo keeps the mark of a page on which it undid nothing.
pub proof fn lemma_undo_unmarked(m: Marks, undone: Seq<RecordView>, lsn: int, i: bool, p: u64)
    requires
        forall|y: int| 0 <= y < undone.len() ==> !#[trigger] about(undone[y], i, p),
    ensures
        mark_of(recovery::undo_marks(m, undone, lsn), i, p) == mark_of(m, i, p),
    decreases undone.len(),
{
    if undone.len() > 0 {
        let init = undone.drop_last();
        assert(!about(undone[undone.len() - 1], i, p));
        assert forall|y: int| 0 <= y < init.len() implies !#[trigger] about(init[y], i, p) by {
            assert(init[y] == undone[y]);
            assert(!about(undone[y], i, p));
        }
        lemma_undo_unmarked(m, init, lsn, i, p);
    }
}

/// A page that is dirty once the marks are made has the LSN of its mark; one without was
/// dirty before and keeps its LSN.
pub proof fn lemma_marked(before: Pager, now: Pager, m: Marks, p: u64)
    requires
        recovery::marked(before, now, m),
    ensures
        now.index.dirty().contains(p) ==> match mark_of(m, true, p) {
            Some(lsn) => now.index.lsn_of(p) == lsn,
            None => before.index.dirty().contains(p) && now.index.lsn_of(p)
                == before.index.lsn_of(p),
        },
        now.heap.dirty().contains(p) ==> match mark_of(m, false, p) {
            Some(lsn) => now.heap.lsn_of(p) == lsn,
            None => before.heap.dirty().contains(p) && now.heap.lsn_of(p) == before.heap.lsn_of(p),
        },
{
}

/// After recovery the log goes on with a compensation record for each change of a
/// transaction that had not ended, whose redo puts back what was there before, and ends
/// with an Abort record for each of these transactions. Nothing else was added.
pub proof fn lemma_log_after(w: LogView, w2: LogView, at: Option<int>, txns: Seq<u64>)
    requires
        recovery_laws::orderly(w),
        at is Some ==> restart_laws::rising(wal::records_in(w.durable)),
        restart_laws::checkpoint_at(w, at),
        restart_laws::truthful(w, at),
        recovery_laws::recovered(w, w2, txns),
    ensures
        ({
            let records = wal::records_in(w.durable);
            let now = wal::records_in(w2.durable);
            let undone = records.filter(|r: RecordView| open_change(records, r)).reverse();
            let n = records.len() as int;
            let m = undone.len() as int;
            &&& now.len() == n + m + txns.len()
            &&& now.take(n) == records
            &&& forall|x: int|
                n <= x < now.len() ==> (#[trigger] now[x]).header.lsn == w.header.next_lsn + (x - n)
            &&& forall|x: int|
                n <= x < n + m ==> {
                    let c = (#[trigger] now[x]);
                    let r = undone[x - n];
                    &&& c.header.record_type == RecordType::Clr
                    &&& c.header.txn_id == r.header.txn_id
                    &&& c.header.is_index == r.header.is_index
                    &&& c.header.page_id == r.header.page_id
                    &&& c.header.payload_page_offset == r.header.payload_page_offset
                    &&& wal::update_of(c.payload) == Some(
                        (Seq::<u8>::empty(), wal::update_of(r.payload).unwrap().0),
                    )
                }
            &&& forall|x: int|
                n + m <= x < now.len() ==> (#[trigger] now[x]).header.record_type
                    == RecordType::Abort && now[x].header.txn_id == txns[x - n - m]
            &&& forall|txn: u64| #[trigger]
                txns.contains(txn) <==> txn != 0 && restart_laws::unfinished(records, txn)
        }),
{
    let records = wal::records_in(w.durable);
    let now = wal::records_in(w2.durable);
    let a = recovery::analysis_of(w);
    let rs = recovery::undone(a, records);
    let (cs, ends) = recovery_laws::lemma_recovered_log(w, w2, txns);
    let n = records.len() as int;
    let m = rs.len() as int;
    lemma_undone_records(w, at);
    assert(now == records + (cs + ends));
    assert(now.take(n) =~= records);
    assert forall|x: int| n <= x < now.len() implies (#[trigger] now[x]).header.lsn
        == w.header.next_lsn + (x - n) by {
        assert(now[x] == (cs + ends)[x - n]);
    }
    recovery_laws::lemma_undone(a, records);
    assert forall|x: int| n <= x < n + m implies {
        let c = (#[trigger] now[x]);
        let r = rs[x - n];
        &&& c.header.record_type == RecordType::Clr
        &&& c.header.txn_id == r.header.txn_id
        &&& c.header.is_index == r.header.is_index
        &&& c.header.page_id == r.header.page_id
        &&& c.header.payload_page_offset == r.header.payload_page_offset
        &&& wal::update_of(c.payload) == Some(
            (Seq::<u8>::empty(), wal::update_of(r.payload).unwrap().0),
        )
    } by {
        assert(now[x] == cs[x - n]);
        assert(recovery::compensates(cs[x - n], rs[x - n]));
        assert(recovery::undoes(a, rs[x - n]));
        wal::lemma_update_read_back(
            Seq::empty(),
            wal::update_of(rs[x - n].payload).unwrap().0,
        );
    }
    assert forall|x: int| n + m <= x < now.len() implies (#[trigger] now[x]).header.record_type
        == RecordType::Abort && now[x].header.txn_id == txns[x - n - m] by {
        assert(now[x] == ends[x - n - m]);
    }
    assert forall|txn: u64| #[trigger] txns.contains(txn) <==> txn != 0
        && restart_laws::unfinished(records, txn) by {
        restart_laws::lemma_losers(w, at, txn);
    }
}

/// A checkpoint stays truthful when the log grows behind it, and what the files may lack
/// of the records before stays the same.
pub proof fn lemma_truthful_grows(w: LogView, w2: LogView, c: int)
    requires
        restart_laws::checkpoint_at(w, Some(c)),
        restart_laws::truthful(w, Some(c)),
        w2.header.last_checkpoint_lsn == w.header.last_checkpoint_lsn,
        wal::records_in(w2.durable).len() >= wal::records_in(w.durable).len(),
        wal::records_in(w2.durable).take(wal::records_in(w.durable).len() as int)
            == wal::records_in(w.durable),
    ensures
        restart_laws::checkpoint_at(w2, Some(c)),
        restart_laws::truthful(w2, Some(c)),
        forall|x: int|
            0 <= x < wal::records_in(w.durable).len() ==> #[trigger] restart_laws::lacks(
                w2,
                Some(c),
                x,
            ) == restart_laws::lacks(w, Some(c), x),
        forall|x: int|
            wal::records_in(w.durable).len() <= x < wal::records_in(w2.durable).len()
                ==> #[trigger] restart_laws::lacks(w2, Some(c), x),
{
    let records = wal::records_in(w.durable);
    let now = wal::records_in(w2.durable);
    let n = records.len() as int;
    assert(now.take(n)[c] == now[c]);
    assert(now.take(c) =~= records.take(c)) by {
        assert(now.take(n).take(c) =~= now.take(c));
    }
    assert(restart_laws::named_pages(w2, c) == restart_laws::named_pages(w, c));
    assert(restart_laws::named_txns(w2, c) == restart_laws::named_txns(w, c));
    assert(restart_laws::truthful(w2, Some(c))) by {
        assert forall|txn: u64| txn != 0 implies (#[trigger] restart_laws::unfinished(
            now.take(c),
            txn,
        ) <==> exists|j: int|
            0 <= j < restart_laws::named_txns(w2, c).len() && (
            #[trigger] restart_laws::named_txns(w2, c)[j]).txn_id == txn) by {
            assert(restart_laws::unfinished(records.take(c), txn) <==> exists|j: int|
                0 <= j < restart_laws::named_txns(w, c).len() && (
                #[trigger] restart_laws::named_txns(w, c)[j]).txn_id == txn);
        }
    }
    assert forall|x: int| 0 <= x < n implies #[trigger] restart_laws::lacks(w2, Some(c), x)
        == restart_laws::lacks(w, Some(c), x) by {
        assert(now.take(n)[x] == now[x]);
    }
}

} // verus!
