//! What recovery leaves in the files, said of the log alone: which transactions have not
//! ended, what their records say was there before, and what the others have written.

use super::recovery;
use super::recovery::{Analysis, Disk};
use super::recovery_history;
use super::recovery_laws;
use super::wal;
use super::wal::{DirtyPageEntry, LogView, RecordType, RecordView, TxnEntry};
use vstd::prelude::*;

verus! {

/// The record ends the transaction.
pub open spec fn ends(r: RecordView, txn: u64) -> bool {
    r.header.txn_id == txn && (r.header.record_type == RecordType::Commit
        || r.header.record_type == RecordType::Abort)
}

/// The record begins the transaction or is about a change that it made.
pub open spec fn works(r: RecordView, txn: u64) -> bool {
    r.header.txn_id == txn && (r.header.record_type == RecordType::Begin
        || r.header.record_type == RecordType::Update || r.header.record_type == RecordType::Clr)
}

/// The transaction has done something and has not ended since.
pub open spec fn unfinished(records: Seq<RecordView>, txn: u64) -> bool {
    exists|x: int|
        0 <= x < records.len() && #[trigger] works(records[x], txn) && forall|y: int|
            x < y < records.len() ==> !ends(#[trigger] records[y], txn)
}

/// The record is about a change, and says which bytes were there and which came.
pub open spec fn tells(r: RecordView) -> bool {
    (r.header.record_type == RecordType::Update || r.header.record_type == RecordType::Clr)
        && wal::update_of(r.payload) is Some
}

/// The record says what a byte was set to.
pub open spec fn changes(r: RecordView, i: bool, p: int, k: int) -> bool {
    &&& tells(r)
    &&& r.header.is_index == i && r.header.page_id == p
    &&& r.header.payload_page_offset <= k < r.header.payload_page_offset + wal::update_of(
        r.payload,
    ).unwrap().1.len()
}

/// The record says what a byte was before a transaction changed it.
pub open spec fn recalls(r: RecordView, i: bool, p: int, k: int) -> bool {
    &&& tells(r) && r.header.record_type == RecordType::Update && r.header.txn_id != 0
    &&& r.header.is_index == i && r.header.page_id == p
    &&& r.header.payload_page_offset <= k < r.header.payload_page_offset + wal::update_of(
        r.payload,
    ).unwrap().0.len()
}

/// What the byte was set to.
pub open spec fn new_byte(r: RecordView, k: int) -> u8 {
    wal::update_of(r.payload).unwrap().1[k - r.header.payload_page_offset]
}

/// What the byte was.
pub open spec fn old_byte(r: RecordView, k: int) -> u8 {
    wal::update_of(r.payload).unwrap().0[k - r.header.payload_page_offset]
}

/// The LSNs go up.
pub open spec fn rising(records: Seq<RecordView>) -> bool {
    forall|x: int, y: int|
        0 <= x < y < records.len() ==> (#[trigger] records[x]).header.lsn < (
        #[trigger] records[y]).header.lsn
}

/// The changes lie on their pages.
pub open spec fn on_pages(records: Seq<RecordView>) -> bool {
    forall|x: int|
        0 <= x < records.len() && tells(#[trigger] records[x]) ==> {
            let r = records[x];
            let (undo, redo) = wal::update_of(r.payload).unwrap();
            let size = recovery_laws::page_size(r.header.is_index);
            &&& r.header.payload_page_offset + undo.len() <= size
            &&& r.header.payload_page_offset + redo.len() <= size
        }
}

/// Where the log's last checkpoint is, or that there is none to be found.
pub open spec fn checkpoint_at(w: LogView, at: Option<int>) -> bool {
    let records = wal::records_in(w.durable);
    match at {
        None => w.header.last_checkpoint_lsn == 0 || forall|x: int|
            0 <= x < records.len() && (#[trigger] records[x]).header.lsn
                == w.header.last_checkpoint_lsn ==> wal::checkpoint_of(records[x].payload) is None,
        Some(c) => {
            &&& 0 <= c < records.len()
            &&& records[c].header.record_type == RecordType::Checkpoint
            &&& records[c].header.lsn == w.header.last_checkpoint_lsn
            &&& w.header.last_checkpoint_lsn > 0
            &&& wal::checkpoint_of(records[c].payload) is Some
        },
    }
}

/// The dirty pages that the checkpoint names.
pub open spec fn named_pages(w: LogView, c: int) -> Seq<DirtyPageEntry> {
    wal::checkpoint_of(wal::records_in(w.durable)[c].payload).unwrap().0
}

/// The transactions that the checkpoint names.
pub open spec fn named_txns(w: LogView, c: int) -> Seq<TxnEntry> {
    wal::checkpoint_of(wal::records_in(w.durable)[c].payload).unwrap().1
}

/// The checkpoint names the transactions that had not ended then, and each page once.
pub open spec fn truthful(w: LogView, at: Option<int>) -> bool {
    let records = wal::records_in(w.durable);
    match at {
        None => true,
        Some(c) => {
            &&& forall|txn: u64|
                txn != 0 ==> (#[trigger] unfinished(records.take(c), txn) <==> exists|j: int|
                    0 <= j < named_txns(w, c).len() && (#[trigger] named_txns(w, c)[j]).txn_id
                        == txn)
            &&& forall|x: int, y: int|
                0 <= x < y < named_pages(w, c).len() ==> (#[trigger] named_pages(w, c)[x]).is_index
                    != (#[trigger] named_pages(w, c)[y]).is_index || named_pages(w, c)[x].page_id
                    != named_pages(w, c)[y].page_id
            &&& forall|x: int|
                0 <= x < named_pages(w, c).len() ==> (#[trigger] named_pages(w, c)[x]).rec_lsn
                    <= records[c].header.lsn
        },
    }
}

/// The file may lack the change of a record: it came after the checkpoint, or no earlier
/// than the first change that the checkpoint says the page lacks.
pub open spec fn lacks(w: LogView, at: Option<int>, x: int) -> bool {
    let r = wal::records_in(w.durable)[x];
    match at {
        None => true,
        Some(c) => x > c || exists|j: int|
            0 <= j < named_pages(w, c).len() && (#[trigger] named_pages(w, c)[j]).is_index
                == r.header.is_index && named_pages(w, c)[j].page_id == r.header.page_id
                && named_pages(w, c)[j].rec_lsn <= r.header.lsn,
    }
}

/// Which transactions are known after reading some records.
pub proof fn lemma_att(a: Analysis, records: Seq<RecordView>, start: int, txn: u64)
    requires
        txn != 0,
        forall|x: int| 0 <= x < records.len() ==> (#[trigger] records[x]).header.lsn >= start,
    ensures
        recovery::analyse(a, records, start).att.contains_key(txn) <==> (unfinished(records, txn)
            || (a.att.contains_key(txn) && forall|y: int|
            0 <= y < records.len() ==> !ends(#[trigger] records[y], txn))),
    decreases records.len(),
{
    if records.len() > 0 {
        let init = records.drop_last();
        let n = init.len() as int;
        let r = records[n];
        assert forall|x: int| 0 <= x < init.len() implies (#[trigger] init[x]).header.lsn
            >= start by {
            assert(init[x] == records[x]);
        }
        lemma_att(a, init, start, txn);
        assert(r.header.lsn >= start);
        if works(r, txn) {
            assert(works(records[n], txn));
            assert(unfinished(records, txn));
        } else {
            if unfinished(init, txn) && !ends(r, txn) {
                let x = choose|x: int|
                    0 <= x < init.len() && #[trigger] works(init[x], txn) && forall|y: int|
                        x < y < init.len() ==> !ends(#[trigger] init[y], txn);
                assert(works(records[x], txn));
                assert forall|y: int| x < y < records.len() implies !ends(
                    #[trigger] records[y],
                    txn,
                ) by {
                    if y < n {
                        assert(init[y] == records[y]);
                    }
                }
            }
            if unfinished(records, txn) {
                let x = choose|x: int|
                    0 <= x < records.len() && #[trigger] works(records[x], txn) && forall|y: int|
                        x < y < records.len() ==> !ends(#[trigger] records[y], txn);
                assert(x < n);
                assert(!ends(records[n], txn));
                assert(works(init[x], txn));
                assert forall|y: int| x < y < init.len() implies !ends(
                    #[trigger] init[y],
                    txn,
                ) by {
                    assert(init[y] == records[y]);
                }
            }
            if forall|y: int| 0 <= y < records.len() ==> !ends(#[trigger] records[y], txn) {
                assert(!ends(records[n], txn));
                assert forall|y: int| 0 <= y < init.len() implies !ends(
                    #[trigger] init[y],
                    txn,
                ) by {
                    assert(init[y] == records[y]);
                }
            }
            if !ends(r, txn) && forall|y: int|
                0 <= y < init.len() ==> !ends(#[trigger] init[y], txn) {
                assert forall|y: int| 0 <= y < records.len() implies !ends(
                    #[trigger] records[y],
                    txn,
                ) by {
                    if y < n {
                        assert(init[y] == records[y]);
                    }
                }
            }
        }
    }
}

/// Records below the start are passed over.
proof fn lemma_passed(a: Analysis, records: Seq<RecordView>, start: int)
    requires
        forall|x: int| 0 <= x < records.len() ==> (#[trigger] records[x]).header.lsn < start,
    ensures
        recovery::analyse(a, records, start) == a,
    decreases records.len(),
{
    if records.len() > 0 {
        let init = records.drop_last();
        assert forall|x: int| 0 <= x < init.len() implies (
            #[trigger] init[x]).header.lsn < start by {
            assert(init[x] == records[x]);
        }
        assert(records[records.len() - 1].header.lsn < start);
        lemma_passed(a, init, start);
    }
}

/// A table of dirty pages.
pub open spec fn pages(a: Analysis, is_index: bool) -> Map<u64, u64> {
    if is_index {
        a.index
    } else {
        a.heap
    }
}

/// The record is about a page.
pub open spec fn touches(r: RecordView, i: bool, p: u64) -> bool {
    (r.header.record_type == RecordType::Update || r.header.record_type == RecordType::Clr)
        && r.header.is_index == i && r.header.page_id == p
}

/// Which pages are known after reading some records.
proof fn lemma_dpt(a: Analysis, records: Seq<RecordView>, start: int, i: bool, p: u64)
    requires
        rising(records),
        forall|x: int| 0 <= x < records.len() ==> (#[trigger] records[x]).header.lsn >= start,
    ensures
        ({
            let t = pages(recovery::analyse(a, records, start), i);
            let s = pages(a, i);
            &&& s.contains_key(p) ==> t.contains_key(p) && t[p] == s[p]
            &&& !s.contains_key(p) && t.contains_key(p) ==> t[p] >= start
            &&& !s.contains_key(p) ==> forall|x: int|
                0 <= x < records.len() && touches(#[trigger] records[x], i, p) ==> t.contains_key(p)
                    && t[p] <= records[x].header.lsn
            &&& !s.contains_key(p) && t.contains_key(p) ==> exists|x: int|
                0 <= x < records.len() && touches(#[trigger] records[x], i, p)
        }),
    decreases records.len(),
{
    if records.len() > 0 {
        let init = records.drop_last();
        let n = init.len() as int;
        let t = pages(recovery::analyse(a, records, start), i);
        let t0 = pages(recovery::analyse(a, init, start), i);
        let s = pages(a, i);
        assert(rising(init)) by {
            assert forall|x: int, y: int| 0 <= x < y < init.len() implies (
            #[trigger] init[x]).header.lsn < (#[trigger] init[y]).header.lsn by {
                assert(init[x] == records[x] && init[y] == records[y]);
            }
        }
        assert forall|x: int| 0 <= x < init.len() implies (#[trigger] init[x]).header.lsn
            >= start by {
            assert(init[x] == records[x]);
        }
        lemma_dpt(a, init, start, i, p);
        assert(records[n].header.lsn >= start);
        if !s.contains_key(p) {
            assert forall|x: int|
                0 <= x < records.len() && touches(#[trigger] records[x], i,
                    p) implies t.contains_key(
                p,
            ) && t[p] <= records[x].header.lsn by {
                if x < n {
                    assert(touches(init[x], i, p));
                } else if t0.contains_key(p) {
                    let y = choose|y: int| 0 <= y < init.len() && touches(#[trigger] init[y], i, p);
                    assert(touches(init[y], i, p));
                    assert(t0[p] <= init[y].header.lsn);
                    assert(records[y].header.lsn < records[n].header.lsn);
                }
            }
            if t.contains_key(p) {
                if t0.contains_key(p) {
                    let y = choose|y: int| 0 <= y < init.len() && touches(#[trigger] init[y], i, p);
                    assert(touches(records[y], i, p));
                } else {
                    assert(touches(records[n], i, p));
                }
            }
        }
    }
}

/// The checkpoint's transactions are known.
pub proof fn lemma_loaded_att(a: Analysis, att: Seq<TxnEntry>, txn: u64)
    ensures
        recovery::load_att(a, att).att.contains_key(txn) <==> (a.att.contains_key(txn)
            || exists|j: int| 0 <= j < att.len() && (#[trigger] att[j]).txn_id == txn),
        recovery::load_att(a, att).index == a.index,
        recovery::load_att(a, att).heap == a.heap,
    decreases att.len(),
{
    if att.len() > 0 {
        let init = att.drop_last();
        lemma_loaded_att(a, init, txn);
        if exists|j: int| 0 <= j < init.len() && (#[trigger] init[j]).txn_id == txn {
            let j = choose|j: int| 0 <= j < init.len() && (#[trigger] init[j]).txn_id == txn;
            assert(att[j].txn_id == txn);
        }
        if exists|j: int| 0 <= j < att.len() && (#[trigger] att[j]).txn_id == txn {
            let j = choose|j: int| 0 <= j < att.len() && (#[trigger] att[j]).txn_id == txn;
            if j < init.len() {
                assert(init[j].txn_id == txn);
            }
        }
        if att.last().txn_id == txn {
            assert(att[att.len() - 1].txn_id == txn);
        }
    }
}

/// The checkpoint's pages are known, each with the LSN that stands beside it.
pub proof fn lemma_loaded_dpt(a: Analysis, dpt: Seq<DirtyPageEntry>, i: bool, p: u64)
    requires
        forall|x: int, y: int|
            0 <= x < y < dpt.len() ==> (#[trigger] dpt[x]).is_index != (
            #[trigger] dpt[y]).is_index || dpt[x].page_id != dpt[y].page_id,
    ensures
        recovery::load_dpt(a, dpt).att == a.att,
        forall|j: int|
            0 <= j < dpt.len() && (#[trigger] dpt[j]).is_index == i && dpt[j].page_id == p
                ==> pages(
                recovery::load_dpt(a, dpt),
                i,
            ).contains_key(p) && pages(recovery::load_dpt(a, dpt), i)[p] == dpt[j].rec_lsn,
        pages(recovery::load_dpt(a, dpt), i).contains_key(p) <==> (pages(a, i).contains_key(p)
            || exists|j: int|
            0 <= j < dpt.len() && (#[trigger] dpt[j]).is_index == i && dpt[j].page_id == p),
    decreases dpt.len(),
{
    if dpt.len() > 0 {
        let init = dpt.drop_last();
        let n = init.len() as int;
        assert forall|x: int, y: int| 0 <= x < y < init.len() implies (
        #[trigger] init[x]).is_index != (#[trigger] init[y]).is_index || init[x].page_id
            != init[y].page_id by {
            assert(init[x] == dpt[x] && init[y] == dpt[y]);
        }
        lemma_loaded_dpt(a, init, i, p);
        assert forall|j: int|
            0 <= j < dpt.len() && (#[trigger] dpt[j]).is_index == i && dpt[j].page_id
                == p implies pages(recovery::load_dpt(a, dpt), i).contains_key(p) && pages(
            recovery::load_dpt(a, dpt),
            i,
        )[p] == dpt[j].rec_lsn by {
            if j < n {
                assert(init[j] == dpt[j]);
                assert(dpt[j].is_index != dpt[n].is_index || dpt[j].page_id != dpt[n].page_id);
            }
        }
        if exists|j: int|
            0 <= j < init.len() && (#[trigger] init[j]).is_index == i && init[j].page_id == p {
            let j = choose|j: int|
                0 <= j < init.len() && (#[trigger] init[j]).is_index == i && init[j].page_id == p;
            assert(dpt[j].is_index == i);
        }
        if exists|j: int|
            0 <= j < dpt.len() && (#[trigger] dpt[j]).is_index == i && dpt[j].page_id == p {
            let j = choose|j: int|
                0 <= j < dpt.len() && (#[trigger] dpt[j]).is_index == i && dpt[j].page_id == p;
            if j < n {
                assert(init[j].is_index == i);
            }
        }
        if dpt.last().is_index == i && dpt.last().page_id == p {
            assert(dpt[n].is_index == i);
        }
    }
}

/// The checkpoint is found by its LSN.
pub proof fn lemma_placed(records: Seq<RecordView>, c: int)
    requires
        rising(records),
        0 <= c < records.len(),
    ensures
        recovery::place_of(records, records[c].header.lsn) == c,
    decreases records.len(),
{
    if c > 0 {
        let rest = records.skip(1);
        assert(records[0].header.lsn < records[c].header.lsn);
        assert(rest[c - 1] == records[c]);
        assert(rising(rest)) by {
            assert forall|x: int, y: int| 0 <= x < y < rest.len() implies (
            #[trigger] rest[x]).header.lsn < (#[trigger] rest[y]).header.lsn by {
                assert(rest[x] == records[x + 1] && rest[y] == records[y + 1]);
            }
        }
        lemma_placed(rest, c - 1);
    }
}

/// The place that is looked at for a checkpoint.
proof fn lemma_looked_at(records: Seq<RecordView>, lsn: u64)
    ensures
        ({
            let i = recovery::place_of(records, lsn);
            0 <= i <= records.len() && (i < records.len() ==> records[i].header.lsn == lsn)
        }),
    decreases records.len(),
{
    if records.len() > 0 && records[0].header.lsn != lsn {
        lemma_looked_at(records.skip(1), lsn);
    }
}

/// Without a checkpoint the whole log is read.
proof fn lemma_not_found(w: LogView)
    requires
        checkpoint_at(w, None),
    ensures
        recovery::analysis_of(w) == recovery::analyse(
            recovery::nothing_known(),
            wal::records_in(w.durable),
            0,
        ),
{
    lemma_looked_at(wal::records_in(w.durable), w.header.last_checkpoint_lsn);
}

/// Recovery rolls back the transactions that have not ended, and no other: with or
/// without a checkpoint that names those that had not ended before it.
pub proof fn lemma_losers(w: LogView, at: Option<int>, txn: u64)
    requires
        at is Some ==> rising(wal::records_in(w.durable)),
        checkpoint_at(w, at),
        truthful(w, at),
    ensures
        recovery::is_loser(recovery::analysis_of(w), txn) <==> txn != 0 && unfinished(
            wal::records_in(w.durable),
            txn,
        ),
{
    let records = wal::records_in(w.durable);
    if txn != 0 {
        match at {
            None => {
                lemma_not_found(w);
                lemma_att(recovery::nothing_known(), records, 0, txn);
            },
            Some(c) => {
                let (dpt, att) = wal::checkpoint_of(records[c].payload).unwrap();
                let lsn = w.header.last_checkpoint_lsn;
                let known = recovery::load_dpt(recovery::nothing_known(), dpt);
                let a0 = recovery::load_att(known, att);
                lemma_placed(records, c);
                lemma_split(a0, records, c);
                lemma_loaded_att(known, att, txn);
                assert(named_pages(w, c) == dpt && named_txns(w, c) == att);
                assert forall|y: int, z: int| 0 <= y < z < dpt.len() implies (
                #[trigger] dpt[y]).is_index != (#[trigger] dpt[z]).is_index || dpt[y].page_id
                    != dpt[z].page_id by {
                    assert(named_pages(w, c)[y] == dpt[y] && named_pages(w, c)[z] == dpt[z]);
                }
                lemma_loaded_dpt(recovery::nothing_known(), dpt, true, 0);
                let rest = records.skip(c + 1);
                assert forall|x: int| 0 <= x < rest.len() implies (
                #[trigger] rest[x]).header.lsn >= lsn + 1 by {
                    assert(rest[x] == records[c + 1 + x]);
                    assert(records[c].header.lsn < records[c + 1 + x].header.lsn);
                }
                lemma_att(a0, rest, lsn + 1, txn);
                lemma_unfinished_split(records, c, txn);
                let before = unfinished(records.take(c), txn);
                let named = exists|j: int|
                    0 <= j < named_txns(w, c).len() && (#[trigger] named_txns(w, c)[j]).txn_id
                        == txn;
                assert(before <==> named);
                assert(recovery::analysis_of(w) == recovery::analyse(a0, rest, lsn + 1));
            },
        }
    }
}

/// Reading starts behind the checkpoint.
pub proof fn lemma_split(a: Analysis, records: Seq<RecordView>, c: int)
    requires
        rising(records),
        0 <= c < records.len(),
    ensures
        recovery::analyse(a, records, records[c].header.lsn + 1) == recovery::analyse(
            a,
            records.skip(c + 1),
            records[c].header.lsn + 1,
        ),
{
    let head = records.take(c + 1);
    let rest = records.skip(c + 1);
    assert(records =~= head + rest);
    assert forall|x: int| 0 <= x < head.len() implies (#[trigger] head[x]).header.lsn
        < records[c].header.lsn + 1 by {
        assert(head[x] == records[x]);
        if x < c {
            assert(records[x].header.lsn < records[c].header.lsn);
        }
    }
    lemma_passed(a, head, records[c].header.lsn + 1);
    recovery::lemma_analyse_append(a, head, rest, records[c].header.lsn + 1);
}

/// A transaction has not ended where it has not ended behind a place, or had not ended
/// there and did not end behind it.
proof fn lemma_unfinished_split(records: Seq<RecordView>, c: int, txn: u64)
    requires
        0 <= c < records.len(),
        records[c].header.record_type == RecordType::Checkpoint,
    ensures
        unfinished(records, txn) <==> (unfinished(records.skip(c + 1), txn) || (unfinished(
            records.take(c),
            txn,
        ) && forall|y: int|
            0 <= y < records.skip(c + 1).len() ==> !ends(#[trigger] records.skip(c + 1)[y], txn))),
{
    let head = records.take(c);
    let rest = records.skip(c + 1);
    if unfinished(records, txn) {
        let x = choose|x: int|
            0 <= x < records.len() && #[trigger] works(records[x], txn) && forall|y: int|
                x < y < records.len() ==> !ends(#[trigger] records[y], txn);
        assert(x != c);
        if x > c {
            assert(works(rest[x - c - 1], txn));
            assert forall|y: int| x - c - 1 < y < rest.len() implies !ends(
                #[trigger] rest[y],
                txn,
            ) by {
                assert(rest[y] == records[c + 1 + y]);
            }
        } else {
            assert(works(head[x], txn));
            assert forall|y: int| x < y < head.len() implies !ends(#[trigger] head[y], txn) by {
                assert(head[y] == records[y]);
            }
            assert forall|y: int| 0 <= y < rest.len() implies !ends(#[trigger] rest[y], txn) by {
                assert(rest[y] == records[c + 1 + y]);
            }
        }
    }
    if unfinished(rest, txn) {
        let x = choose|x: int|
            0 <= x < rest.len() && #[trigger] works(rest[x], txn) && forall|y: int|
                x < y < rest.len() ==> !ends(#[trigger] rest[y], txn);
        assert(works(records[c + 1 + x], txn));
        assert forall|y: int| c + 1 + x < y < records.len() implies !ends(
            #[trigger] records[y],
            txn,
        ) by {
            assert(rest[y - c - 1] == records[y]);
        }
    }
    if unfinished(head, txn) && forall|y: int|
        0 <= y < rest.len() ==> !ends(#[trigger] rest[y], txn) {
        let x = choose|x: int|
            0 <= x < head.len() && #[trigger] works(head[x], txn) && forall|y: int|
                x < y < head.len() ==> !ends(#[trigger] head[y], txn);
        assert(works(records[x], txn));
        assert forall|y: int| x < y < records.len() implies !ends(#[trigger] records[y], txn) by {
            if y < c {
                assert(head[y] == records[y]);
            } else if y > c {
                assert(rest[y - c - 1] == records[y]);
            }
        }
    }
}

/// Recovery makes again the changes that the files may lack, and no others: of pages of
/// either file.
pub proof fn lemma_lacking(w: LogView, at: Option<int>, x: int)
    requires
        rising(wal::records_in(w.durable)),
        checkpoint_at(w, at),
        truthful(w, at),
        0 <= x < wal::records_in(w.durable).len(),
    ensures
        recovery::redoes(recovery::analysis_of(w), wal::records_in(w.durable)[x]) <==> tells(
            wal::records_in(w.durable)[x],
        ) && lacks(w, at, x),
{
    let records = wal::records_in(w.durable);
    let r = records[x];
    let i = r.header.is_index;
    let p = r.header.page_id;
    if tells(r) {
        assert(touches(r, i, p));
        match at {
            None => {
                lemma_not_found(w);
                lemma_dpt(recovery::nothing_known(), records, 0, i, p);
                assert(touches(records[x], i, p));
            },
            Some(c) => {
                let (dpt, att) = wal::checkpoint_of(records[c].payload).unwrap();
                let lsn = w.header.last_checkpoint_lsn;
                let known = recovery::load_dpt(recovery::nothing_known(), dpt);
                let a0 = recovery::load_att(known, att);
                lemma_placed(records, c);
                lemma_split(a0, records, c);
                lemma_loaded_att(known, att, 0);
                assert forall|y: int, z: int| 0 <= y < z < dpt.len() implies (
                #[trigger] dpt[y]).is_index != (#[trigger] dpt[z]).is_index || dpt[y].page_id
                    != dpt[z].page_id by {
                    assert(named_pages(w, c)[y] == dpt[y] && named_pages(w, c)[z] == dpt[z]);
                }
                lemma_loaded_dpt(recovery::nothing_known(), dpt, i, p);
                let rest = records.skip(c + 1);
                assert forall|y: int| 0 <= y < rest.len() implies (
                #[trigger] rest[y]).header.lsn >= lsn + 1 by {
                    assert(rest[y] == records[c + 1 + y]);
                    assert(records[c].header.lsn < records[c + 1 + y].header.lsn);
                }
                assert(rising(rest)) by {
                    assert forall|y: int, z: int| 0 <= y < z < rest.len() implies (
                    #[trigger] rest[y]).header.lsn < (#[trigger] rest[z]).header.lsn by {
                        assert(rest[y] == records[c + 1 + y] && rest[z] == records[c + 1 + z]);
                    }
                }
                lemma_dpt(a0, rest, lsn + 1, i, p);
                if x > c {
                    assert(touches(rest[x - c - 1], i, p));
                    assert(records[c].header.lsn < records[x].header.lsn);
                } else if x < c {
                    assert(records[x].header.lsn < records[c].header.lsn);
                }
                if exists|j: int|
                    0 <= j < dpt.len() && (#[trigger] dpt[j]).is_index == i && dpt[j].page_id
                        == p {
                    let j = choose|j: int|
                        0 <= j < dpt.len() && (#[trigger] dpt[j]).is_index == i && dpt[j].page_id
                            == p;
                    assert(named_pages(w, c)[j] == dpt[j]);
                    assert(named_pages(w, c)[j].rec_lsn <= records[c].header.lsn);
                }
                assert(lacks(w, at, x) ==> x > c || exists|j: int|
                    0 <= j < dpt.len() && (#[trigger] dpt[j]).is_index == i && dpt[j].page_id
                        == p);
            },
        }
    }
}

/// What is redone last on a byte stands in it.
proof fn lemma_last_redone(
    a: Analysis,
    records: Seq<RecordView>,
    x: int,
    i: bool,
    p: int,
    k: int,
)
    requires
        0 <= x < records.len(),
        recovery::redoes(a, records[x]),
        recovery_laws::sets(recovery_laws::redo_write(records[x]), i, p, k),
        forall|y: int|
            x < y < records.len() && recovery::redoes(a, #[trigger] records[y])
                ==> !recovery_laws::sets(recovery_laws::redo_write(records[y]), i, p, k),
    ensures
        recovery_laws::last(recovery_laws::redo_writes(a, records), i, p, k) == Some(
            new_byte(records[x], k),
        ),
    decreases records.len(),
{
    let init = records.drop_last();
    let n = init.len() as int;
    let ws = recovery_laws::redo_writes(a, records);
    if recovery::redoes(a, records[n]) {
        assert(ws.drop_last() =~= recovery_laws::redo_writes(a, init));
    }
    if x < n {
        assert(init[x] == records[x]);
        assert forall|y: int|
            x < y < init.len() && recovery::redoes(
                a,
                #[trigger] init[y],
            ) implies !recovery_laws::sets(recovery_laws::redo_write(init[y]), i, p, k) by {
            assert(init[y] == records[y]);
        }
        lemma_last_redone(a, init, x, i, p, k);
    }
}

/// What is undone last on a byte, which is the change that came first, stands in it.
proof fn lemma_first_undone(
    a: Analysis,
    records: Seq<RecordView>,
    x: int,
    i: bool,
    p: int,
    k: int,
)
    requires
        0 <= x < records.len(),
        recovery::undoes(a, records[x]),
        recovery_laws::sets(recovery_laws::undo_write(records[x]), i, p, k),
        forall|y: int|
            0 <= y < x && recovery::undoes(a, #[trigger] records[y]) ==> !recovery_laws::sets(
                recovery_laws::undo_write(records[y]),
                i,
                p,
                k,
            ),
    ensures
        recovery_laws::last(
            recovery_laws::undo_writes(recovery::undone(a, records)),
            i,
            p,
            k,
        ) == Some(old_byte(records[x], k)),
{
    let head = records.take(x);
    let tail = records.skip(x);
    let rest = tail.skip(1);
    let one = seq![records[x]];
    let d = Disk { index: Seq::empty(), heap: Seq::empty() };
    assert(records =~= head + tail);
    assert(tail =~= one + rest);
    recovery::lemma_undo_split(d, a, head, tail);
    recovery::lemma_undo_split(d, a, one, rest);
    assert(one.drop_last() =~= Seq::empty());
    assert(recovery::undone(a, one.drop_last()) =~= Seq::empty());
    assert(recovery::undone(a, one) =~= one);
    let us = recovery_laws::undo_writes(recovery::undone(a, head));
    let vs = recovery_laws::undo_writes(recovery::undone(a, rest));
    let w = recovery_laws::undo_write(records[x]);
    let all = recovery_laws::undo_writes(recovery::undone(a, records));
    assert(all =~= vs.push(w) + us);
    recovery_laws::lemma_last_append(vs.push(w), us, i, p, k);
    if recovery_laws::last(us, i, p, k) is Some {
        let y = recovery_history::lemma_undone_by(a, head, i, p, k);
        assert(head[y] == records[y]);
    }
}

/// Which records are undone, said of the log alone.
proof fn lemma_undoes(w: LogView, at: Option<int>, x: int)
    requires
        at is Some ==> rising(wal::records_in(w.durable)),
        checkpoint_at(w, at),
        truthful(w, at),
        0 <= x < wal::records_in(w.durable).len(),
    ensures
        recovery::undoes(recovery::analysis_of(w), wal::records_in(w.durable)[x]) <==> {
            let r = wal::records_in(w.durable)[x];
            &&& tells(r)
            &&& r.header.record_type == RecordType::Update
            &&& r.header.txn_id != 0
            &&& unfinished(wal::records_in(w.durable), r.header.txn_id)
        },
{
    lemma_losers(w, at, wal::records_in(w.durable)[x].header.txn_id);
}

/// What redo and undo leave in a byte.
proof fn lemma_end_byte(f: Disk, a: Analysis, records: Seq<RecordView>, i: bool, p: int, k: int)
    requires
        recovery_laws::whole(f),
        recovery::replayable(f, a, records),
        recovery::undoable(recovery::redo(f, a, records), a, records),
    ensures
        ({
            let e = recovery::undo(recovery::redo(f, a, records), a, records);
            let ws = recovery_laws::redo_writes(a, records);
            let us = recovery_laws::undo_writes(recovery::undone(a, records));
            &&& recovery_laws::side(e, i).len() == recovery_laws::extent(
                ws,
                i,
                recovery_laws::side(f, i).len() as int,
            )
            &&& 0 <= p < recovery_laws::side(e, i).len() && 0 <= k < recovery_laws::page_size(i)
                ==> recovery_laws::side(e, i)[p][k] == (match recovery_laws::last(us, i, p, k) {
                Some(v) => v,
                None => match recovery_laws::last(ws, i, p, k) {
                    Some(v) => v,
                    None => recovery_laws::byte(f, i, p, k),
                },
            })
        }),
{
    let g = recovery::redo(f, a, records);
    let e = recovery::undo(g, a, records);
    let ws = recovery_laws::redo_writes(a, records);
    let us = recovery_laws::undo_writes(recovery::undone(a, records));
    recovery_laws::lemma_redo_writes(f, a, records);
    recovery_laws::lemma_redo_fits(a, records);
    recovery_laws::lemma_put_all(f, ws);
    assert forall|x: int| 0 <= x < records.len() && recovery::undoes(
        a,
        #[trigger] records[x],
    ) implies records[x].header.page_id < recovery_laws::side(
        g,
        records[x].header.is_index,
    ).len() by {}
    recovery_laws::lemma_undo_writes(g, a, records);
    recovery_laws::lemma_undone(a, records);
    assert forall|j: int| 0 <= j < us.len() implies recovery_laws::fits(#[trigger] us[j]) && us[
        j
    ].page < recovery_laws::side(g, us[j].is_index).len() by {
        let r = recovery::undone(a, records)[j];
        assert(recovery::undoes(a, r) && records.contains(r));
        let x = choose|x: int| 0 <= x < records.len() && records[x] == r;
        assert(recovery::undoes(a, records[x]));
    }
    recovery_laws::lemma_put_all(g, us);
    recovery_laws::lemma_extent_none(us, i, recovery_laws::side(g, i).len() as int);
    assert(recovery_laws::side(e, i).len() == recovery_laws::extent(
        us,
        i,
        recovery_laws::side(g, i).len() as int,
    ));
    if 0 <= p < recovery_laws::side(e, i).len() && 0 <= k < recovery_laws::page_size(i) {
        assert(recovery_laws::side(g, i)[p][k] == (match recovery_laws::last(ws, i, p, k) {
            Some(v) => v,
            None => recovery_laws::byte(f, i, p, k),
        }));
        assert(recovery_laws::side(e, i)[p][k] == (match recovery_laws::last(us, i, p, k) {
            Some(v) => v,
            None => recovery_laws::byte(g, i, p, k),
        }));
    }
}

/// A byte that transactions have changed which have not ended is, after recovery, what
/// it was before the first of these changes, on a page of either file.
pub proof fn lemma_rolled_back(
    f: Disk,
    w: LogView,
    at: Option<int>,
    x: int,
    i: bool,
    p: int,
    k: int,
)
    requires
        recovery_laws::whole(f),
        at is Some ==> rising(wal::records_in(w.durable)),
        checkpoint_at(w, at),
        truthful(w, at),
        recovery::replayable(f, recovery::analysis_of(w), wal::records_in(w.durable)),
        recovery::undoable(
            recovery::redo(f, recovery::analysis_of(w), wal::records_in(w.durable)),
            recovery::analysis_of(w),
            wal::records_in(w.durable),
        ),
        ({
            let records = wal::records_in(w.durable);
            &&& 0 <= x < records.len()
            &&& recalls(records[x], i, p, k)
            &&& unfinished(records, records[x].header.txn_id)
            &&& forall|y: int|
                0 <= y < x && #[trigger] recalls(records[y], i, p, k) ==> !unfinished(
                    records,
                    records[y].header.txn_id,
                )
        }),
    ensures
        ({
            let records = wal::records_in(w.durable);
            let a = recovery::analysis_of(w);
            let e = recovery::undo(recovery::redo(f, a, records), a, records);
            &&& p < recovery_laws::side(e, i).len()
            &&& recovery_laws::side(e, i)[p][k] == old_byte(records[x], k)
        }),
{
    let records = wal::records_in(w.durable);
    let a = recovery::analysis_of(w);
    let g = recovery::redo(f, a, records);
    lemma_undoes(w, at, x);
    assert forall|y: int| 0 <= y < x && recovery::undoes(
        a,
        #[trigger] records[y],
    ) implies !recovery_laws::sets(recovery_laws::undo_write(records[y]), i, p, k) by {
        lemma_undoes(w, at, y);
        assert(!recalls(records[y], i, p, k));
    }
    lemma_first_undone(a, records, x, i, p, k);
    recovery_laws::lemma_redo_writes(f, a, records);
    recovery_laws::lemma_redo_fits(a, records);
    recovery_laws::lemma_put_all(f, recovery_laws::redo_writes(a, records));
    assert(recovery_laws::side(g, i).len() == recovery_laws::extent(
        recovery_laws::redo_writes(a, records),
        i,
        recovery_laws::side(f, i).len() as int,
    ));
    lemma_end_byte(f, a, records, i, p, k);
}

/// A transaction of which the log holds an Update record, and neither a Commit nor an
/// Abort record, has not ended.
pub proof fn lemma_unended(records: Seq<RecordView>, x: int)
    requires
        0 <= x < records.len(),
        records[x].header.record_type == RecordType::Update,
        forall|y: int|
            0 <= y < records.len() && (#[trigger] records[y]).header.txn_id
                == records[x].header.txn_id ==> records[y].header.record_type
                != RecordType::Commit && records[y].header.record_type != RecordType::Abort,
    ensures
        unfinished(records, records[x].header.txn_id),
{
    let txn = records[x].header.txn_id;
    assert(works(records[x], txn));
    assert forall|y: int| x < y < records.len() implies !ends(#[trigger] records[y], txn) by {}
}

/// A change of a transaction of which the log holds neither a Commit nor an Abort record
/// is taken back, be it on an index page or on a heap page: each byte that it changed is
/// what it was before, where no earlier change of a transaction is about that byte.
pub proof fn lemma_never_ended(f: Disk, w: LogView, at: Option<int>, x: int, k: int)
    requires
        recovery_laws::whole(f),
        at is Some ==> rising(wal::records_in(w.durable)),
        checkpoint_at(w, at),
        truthful(w, at),
        recovery::replayable(f, recovery::analysis_of(w), wal::records_in(w.durable)),
        recovery::undoable(
            recovery::redo(f, recovery::analysis_of(w), wal::records_in(w.durable)),
            recovery::analysis_of(w),
            wal::records_in(w.durable),
        ),
        ({
            let records = wal::records_in(w.durable);
            let h = records[x].header;
            &&& 0 <= x < records.len()
            &&& h.record_type == RecordType::Update
            &&& h.txn_id != 0
            &&& wal::update_of(records[x].payload) is Some
            &&& h.payload_page_offset <= k < h.payload_page_offset + wal::update_of(
                records[x].payload,
            ).unwrap().0.len()
            &&& forall|y: int|
                0 <= y < records.len() && (#[trigger] records[y]).header.txn_id == h.txn_id
                    ==> records[y].header.record_type != RecordType::Commit
                    && records[y].header.record_type != RecordType::Abort
            &&& forall|y: int|
                0 <= y < x ==> !recalls(#[trigger] records[y], h.is_index, h.page_id as int, k)
        }),
    ensures
        ({
            let records = wal::records_in(w.durable);
            let h = records[x].header;
            let a = recovery::analysis_of(w);
            let e = recovery::undo(recovery::redo(f, a, records), a, records);
            let old = wal::update_of(records[x].payload).unwrap().0;
            &&& h.is_index ==> h.page_id < e.index.len() && e.index[h.page_id as int][k] == old[k
                - h.payload_page_offset]
            &&& !h.is_index ==> h.page_id < e.heap.len() && e.heap[h.page_id as int][k] == old[k
                - h.payload_page_offset]
        }),
{
    let records = wal::records_in(w.durable);
    let h = records[x].header;
    lemma_unended(records, x);
    lemma_rolled_back(f, w, at, x, h.is_index, h.page_id as int, k);
}

/// A transaction whose last record is a Commit or an Abort record has ended.
pub proof fn lemma_ended(records: Seq<RecordView>, y: int, txn: u64)
    requires
        0 <= y < records.len(),
        records[y].header.txn_id == txn,
        records[y].header.record_type == RecordType::Commit || records[y].header.record_type
            == RecordType::Abort,
        forall|z: int|
            y < z < records.len() ==> (#[trigger] records[z]).header.txn_id != txn,
    ensures
        !unfinished(records, txn),
{
    assert(ends(records[y], txn));
    assert forall|x: int| 0 <= x < records.len() && #[trigger] works(records[x], txn) implies x
        < y by {}
}

/// A byte that nobody changed who has not ended is, after recovery, what the last change
/// set it to, where the files may lack that change; and else as it was in the files.
pub proof fn lemma_brought_back(f: Disk, w: LogView, at: Option<int>, i: bool, p: int, k: int)
    requires
        recovery_laws::whole(f),
        rising(wal::records_in(w.durable)),
        checkpoint_at(w, at),
        truthful(w, at),
        recovery::replayable(f, recovery::analysis_of(w), wal::records_in(w.durable)),
        recovery::undoable(
            recovery::redo(f, recovery::analysis_of(w), wal::records_in(w.durable)),
            recovery::analysis_of(w),
            wal::records_in(w.durable),
        ),
        ({
            let records = wal::records_in(w.durable);
            &&& 0 <= k < recovery_laws::page_size(i)
            &&& 0 <= p
            &&& forall|y: int|
                0 <= y < records.len() && #[trigger] recalls(records[y], i, p, k) ==> !unfinished(
                    records,
                    records[y].header.txn_id,
                )
        }),
    ensures
        ({
            let records = wal::records_in(w.durable);
            let a = recovery::analysis_of(w);
            let e = recovery::undo(recovery::redo(f, a, records), a, records);
            &&& forall|x: int|
                0 <= x < records.len() && #[trigger] changes(records[x], i, p, k) && lacks(w, at, x)
                    && (forall|y: int|
                    x < y < records.len() ==> !changes(#[trigger] records[y], i, p, k)) ==> p
                    < recovery_laws::side(e, i).len() && recovery_laws::side(e, i)[p][k]
                    == new_byte(records[x], k)
            &&& p < recovery_laws::side(e, i).len() && (forall|x: int|
                0 <= x < records.len() && #[trigger] changes(records[x], i, p, k) ==> !lacks(
                    w,
                    at,
                    x,
                )) ==> recovery_laws::side(e, i)[p][k] == recovery_laws::byte(f, i, p, k)
        }),
{
    let records = wal::records_in(w.durable);
    let a = recovery::analysis_of(w);
    let e = recovery::undo(recovery::redo(f, a, records), a, records);
    let ws = recovery_laws::redo_writes(a, records);
    let us = recovery_laws::undo_writes(recovery::undone(a, records));
    lemma_end_byte(f, a, records, i, p, k);
    if recovery_laws::last(us, i, p, k) is Some {
        let y = recovery_history::lemma_undone_by(a, records, i, p, k);
        lemma_undoes(w, at, y);
        assert(recalls(records[y], i, p, k));
    }
    assert forall|x: int|
        0 <= x < records.len() && #[trigger] changes(records[x], i, p, k) && lacks(w, at, x) && (
        forall|y: int| x < y < records.len() ==> !changes(#[trigger] records[y], i, p, k)) implies p
        < recovery_laws::side(e, i).len() && recovery_laws::side(e, i)[p][k] == new_byte(
        records[x],
        k,
    ) by {
        lemma_lacking(w, at, x);
        assert forall|y: int| x < y < records.len() && recovery::redoes(
            a,
            #[trigger] records[y],
        ) implies !recovery_laws::sets(recovery_laws::redo_write(records[y]), i, p, k) by {
            lemma_lacking(w, at, y);
            assert(!changes(records[y], i, p, k));
        }
        lemma_last_redone(a, records, x, i, p, k);
        lemma_redone_page(a, records, x, recovery_laws::side(f, i).len() as int);
    }
    if forall|x: int|
        0 <= x < records.len() && #[trigger] changes(records[x], i, p, k) ==> !lacks(w, at, x) {
        if recovery_laws::last(ws, i, p, k) is Some {
            let y = recovery_history::lemma_redone_by(a, records, i, p, k);
            lemma_lacking(w, at, y);
            assert(changes(records[y], i, p, k));
        }
    }
}

/// A page that is redone is in the file then.
proof fn lemma_redone_page(a: Analysis, records: Seq<RecordView>, x: int, n: int)
    requires
        0 <= x < records.len(),
        recovery::redoes(a, records[x]),
    ensures
        records[x].header.page_id < recovery_laws::extent(
            recovery_laws::redo_writes(a, records),
            records[x].header.is_index,
            n,
        ),
    decreases records.len(),
{
    let ws = recovery_laws::redo_writes(a, records);
    let init = records.drop_last();
    if recovery::redoes(a, records.last()) {
        assert(ws.drop_last() =~= recovery_laws::redo_writes(a, init));
    }
    if x < records.len() - 1 {
        assert(init[x] == records[x]);
        lemma_redone_page(a, init, x, n);
    }
}

/// A file is longer after redo only by the pages that are redone.
pub proof fn lemma_grown_by(a: Analysis, records: Seq<RecordView>, i: bool, n: int)
    ensures
        ({
            let m = recovery_laws::extent(recovery_laws::redo_writes(a, records), i, n);
            &&& m >= n
            &&& m > n ==> exists|x: int|
                0 <= x < records.len() && recovery::redoes(a, #[trigger] records[x])
                    && records[x].header.is_index == i && records[x].header.page_id + 1 == m
        }),
    decreases records.len(),
{
    if records.len() > 0 {
        let init = records.drop_last();
        let ws = recovery_laws::redo_writes(a, records);
        let m = recovery_laws::extent(ws, i, n);
        let m0 = recovery_laws::extent(recovery_laws::redo_writes(a, init), i, n);
        lemma_grown_by(a, init, i, n);
        if recovery::redoes(a, records.last()) {
            assert(ws.drop_last() =~= recovery_laws::redo_writes(a, init));
        }
        if m > m0 {
            assert(recovery::redoes(a, records[records.len() - 1]));
        } else if m > n {
            let x = choose|x: int|
                0 <= x < init.len() && recovery::redoes(a, #[trigger] init[x])
                    && init[x].header.is_index == i && init[x].header.page_id + 1 == m0;
            assert(recovery::redoes(a, records[x]));
        }
    }
}

/// Recovery keeps the pages that a file has, adds those of the changes that it may lack,
/// and no more.
pub proof fn lemma_pages_after(f: Disk, w: LogView, at: Option<int>, i: bool)
    requires
        recovery_laws::whole(f),
        rising(wal::records_in(w.durable)),
        checkpoint_at(w, at),
        truthful(w, at),
        recovery::replayable(f, recovery::analysis_of(w), wal::records_in(w.durable)),
        recovery::undoable(
            recovery::redo(f, recovery::analysis_of(w), wal::records_in(w.durable)),
            recovery::analysis_of(w),
            wal::records_in(w.durable),
        ),
    ensures
        ({
            let records = wal::records_in(w.durable);
            let a = recovery::analysis_of(w);
            let e = recovery::undo(recovery::redo(f, a, records), a, records);
            let n = recovery_laws::side(f, i).len();
            let m = recovery_laws::side(e, i).len();
            &&& m >= n
            &&& forall|x: int|
                0 <= x < records.len() && tells(#[trigger] records[x]) && lacks(w, at, x)
                    && records[x].header.is_index == i ==> records[x].header.page_id < m
            &&& m > n ==> exists|x: int|
                0 <= x < records.len() && tells(#[trigger] records[x]) && lacks(w, at, x)
                    && records[x].header.is_index == i && records[x].header.page_id + 1 == m
        }),
{
    let records = wal::records_in(w.durable);
    let a = recovery::analysis_of(w);
    let n = recovery_laws::side(f, i).len() as int;
    let m = recovery_laws::extent(recovery_laws::redo_writes(a, records), i, n);
    lemma_end_byte(f, a, records, i, 0, 0);
    lemma_grown_by(a, records, i, n);
    assert forall|x: int|
        0 <= x < records.len() && tells(#[trigger] records[x]) && lacks(w, at, x)
            && records[x].header.is_index == i implies records[x].header.page_id < m by {
        lemma_lacking(w, at, x);
        lemma_redone_page(a, records, x, n);
    }
    if m > n {
        let x = choose|x: int|
            0 <= x < records.len() && recovery::redoes(a, #[trigger] records[x])
                && records[x].header.is_index == i && records[x].header.page_id + 1 == m;
        lemma_lacking(w, at, x);
        assert(tells(records[x]));
    }
}

/// A byte that a record sets which is redone is redone.
pub proof fn lemma_redone_sets(
    a: Analysis,
    records: Seq<RecordView>,
    x: int,
    i: bool,
    p: int,
    k: int,
)
    requires
        0 <= x < records.len(),
        recovery::redoes(a, records[x]),
        changes(records[x], i, p, k),
    ensures
        recovery_laws::last(recovery_laws::redo_writes(a, records), i, p, k) is Some,
    decreases records.len(),
{
    let ws = recovery_laws::redo_writes(a, records);
    let init = records.drop_last();
    if recovery::redoes(a, records.last()) {
        assert(ws.drop_last() =~= recovery_laws::redo_writes(a, init));
    }
    if x < records.len() - 1 {
        assert(init[x] == records[x]);
        lemma_redone_sets(a, init, x, i, p, k);
    }
}

/// A transaction that has not ended is known with the LSN of its last record.
pub proof fn lemma_last_lsn(a: Analysis, records: Seq<RecordView>, start: int, txn: u64, x: int)
    requires
        txn != 0,
        0 <= x < records.len(),
        works(records[x], txn),
        records[x].header.lsn >= start,
        forall|y: int|
            x < y < records.len() ==> !works(#[trigger] records[y], txn) && !ends(records[y], txn),
    ensures
        recovery::analyse(a, records, start).att.contains_key(txn),
        recovery::analyse(a, records, start).att[txn] == records[x].header.lsn,
    decreases records.len(),
{
    let init = records.drop_last();
    let n = init.len() as int;
    if x < n {
        assert(init[x] == records[x]);
        assert(!works(records[n], txn) && !ends(records[n], txn));
        assert forall|y: int| x < y < init.len() implies !works(#[trigger] init[y], txn) && !ends(
            init[y],
            txn,
        ) by {
            assert(init[y] == records[y]);
        }
        lemma_last_lsn(a, init, start, txn, x);
    }
}

/// A transaction that a checkpoint names is known with the LSN that stands beside it.
pub proof fn lemma_named_lsn(a: Analysis, att: Seq<TxnEntry>, j: int)
    requires
        0 <= j < att.len(),
        forall|x: int, y: int|
            0 <= x < y < att.len() ==> (#[trigger] att[x]).txn_id != (#[trigger] att[y]).txn_id,
    ensures
        recovery::load_att(a, att).att.contains_key(att[j].txn_id),
        recovery::load_att(a, att).att[att[j].txn_id] == att[j].last_lsn,
    decreases att.len(),
{
    let init = att.drop_last();
    let n = init.len() as int;
    if j < n {
        assert(init[j] == att[j]);
        assert(att[j].txn_id != att[n].txn_id);
        assert forall|x: int, y: int| 0 <= x < y < init.len() implies (
        #[trigger] init[x]).txn_id != (#[trigger] init[y]).txn_id by {
            assert(init[x] == att[x] && init[y] == att[y]);
        }
        lemma_named_lsn(a, init, j);
    }
}

} // verus!
