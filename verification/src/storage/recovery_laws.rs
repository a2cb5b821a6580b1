//! Recovery may be interrupted: recovering again leads to the same files.

use super::bytes;
use super::header::{HEAP_PAGE_SIZE, PAGE_SIZE, WAL_HEADER_SIZE};
use super::recovery;
use super::recovery::{Analysis, Disk};
use super::wal;
use super::wal::{LogView, RecordType, RecordView};
use vstd::prelude::*;

verus! {

/// Bytes that are written to a page.
#[verifier::ext_equal]
pub struct Write {
    pub is_index: bool,
    pub page: u64,
    pub offset: u16,
    pub data: Seq<u8>,
}

/// The pages of one of the files.
pub open spec fn side(d: Disk, is_index: bool) -> Seq<Seq<u8>> {
    if is_index {
        d.index
    } else {
        d.heap
    }
}

/// The size of the pages of a file.
pub open spec fn page_size(is_index: bool) -> nat {
    if is_index {
        PAGE_SIZE as nat
    } else {
        HEAP_PAGE_SIZE as nat
    }
}

/// All pages have their size.
pub open spec fn whole(d: Disk) -> bool {
    forall|i: bool, p: int|
        0 <= p < side(d, i).len() ==> (#[trigger] side(d, i)[p]).len() == page_size(i)
}

/// The bytes lie on the page.
pub open spec fn fits(w: Write) -> bool {
    w.offset + w.data.len() <= page_size(w.is_index)
}

/// The files after a write. A file that is too short grows.
pub open spec fn put(d: Disk, w: Write) -> Disk {
    let pages = recovery::patch(
        recovery::grow(side(d, w.is_index), w.page + 1, page_size(w.is_index)),
        w.page,
        w.offset,
        w.data,
    );
    if w.is_index {
        Disk { index: pages, ..d }
    } else {
        Disk { heap: pages, ..d }
    }
}

/// The files after some writes.
pub open spec fn put_all(d: Disk, ws: Seq<Write>) -> Disk
    decreases ws.len(),
{
    if ws.len() == 0 {
        d
    } else {
        put(put_all(d, ws.drop_last()), ws.last())
    }
}

/// Whether a write sets a byte.
pub open spec fn sets(w: Write, is_index: bool, p: int, k: int) -> bool {
    w.is_index == is_index && w.page == p && w.offset <= k < w.offset + w.data.len()
}

/// What the last of some writes that sets a byte sets it to.
pub open spec fn last(ws: Seq<Write>, is_index: bool, p: int, k: int) -> Option<u8>
    decreases ws.len(),
{
    if ws.len() == 0 {
        None
    } else if sets(ws.last(), is_index, p, k) {
        Some(ws.last().data[k - ws.last().offset])
    } else {
        last(ws.drop_last(), is_index, p, k)
    }
}

/// How many pages a file has after some writes.
pub open spec fn extent(ws: Seq<Write>, is_index: bool, n: int) -> int
    decreases ws.len(),
{
    if ws.len() == 0 {
        n
    } else {
        let m = extent(ws.drop_last(), is_index, n);
        if ws.last().is_index == is_index && ws.last().page + 1 > m {
            ws.last().page + 1
        } else {
            m
        }
    }
}

/// A byte of a file, or 0 where the file ends before it.
pub open spec fn byte(d: Disk, is_index: bool, p: int, k: int) -> u8 {
    if p < side(d, is_index).len() {
        side(d, is_index)[p][k]
    } else {
        0
    }
}

/// What the files hold after some writes, byte by byte.
pub proof fn lemma_put_all(d: Disk, ws: Seq<Write>)
    requires
        whole(d),
        forall|j: int| 0 <= j < ws.len() ==> fits(#[trigger] ws[j]),
    ensures
        whole(put_all(d, ws)),
        forall|i: bool|
            #[trigger] side(put_all(d, ws), i).len() == extent(ws, i, side(d, i).len() as int),
        forall|i: bool, p: int, k: int|
            0 <= p < side(put_all(d, ws), i).len() && 0 <= k < page_size(i) ==> #[trigger] side(
                put_all(d, ws),
                i,
            )[p][k] == (match last(ws, i, p, k) {
                Some(v) => v,
                None => byte(d, i, p, k),
            }),
    decreases ws.len(),
{
    if ws.len() > 0 {
        let init = ws.drop_last();
        let w = ws.last();
        let e = put_all(d, init);
        let f = put_all(d, ws);
        assert(fits(ws[ws.len() - 1]));
        assert forall|j: int| 0 <= j < init.len() implies fits(#[trigger] init[j]) by {
            assert(init[j] == ws[j]);
        }
        lemma_put_all(d, init);
        let grown = recovery::grow(side(e, w.is_index), w.page + 1, page_size(w.is_index));
        assert(grown[w.page as int].len() == page_size(w.is_index));
        assert(side(f, w.is_index) == grown.update(
            w.page as int,
            bytes::written(grown[w.page as int], w.offset as int, w.data),
        ));
        assert(side(f, !w.is_index) == side(e, !w.is_index));
        assert forall|i: bool, p: int| 0 <= p < side(f, i).len() implies (#[trigger] side(
            f,
            i,
        )[p]).len() == page_size(i) by {
            if i == w.is_index {
                if p < side(e, i).len() {
                    assert(side(e, i)[p].len() == page_size(i));
                }
            } else {
                assert(side(e, i)[p].len() == page_size(i));
            }
        }
        assert forall|i: bool|
            #[trigger] side(f, i).len() == extent(ws, i, side(d, i).len() as int) by {
            assert(side(e, i).len() == extent(init, i, side(d, i).len() as int));
        }
        assert forall|i: bool, p: int, k: int|
            0 <= p < side(f, i).len() && 0 <= k < page_size(i) implies #[trigger] side(
            f,
            i,
        )[p][k] == (match last(ws, i, p, k) {
            Some(v) => v,
            None => byte(d, i, p, k),
        }) by {
            if p < side(e, i).len() {
                assert(side(e, i)[p][k] == (match last(init, i, p, k) {
                    Some(v) => v,
                    None => byte(d, i, p, k),
                }));
            } else {
                assert(i == w.is_index);
                lemma_beyond(d, init, i, p, k);
            }
        }
    }
}

/// No write sets a byte behind the end of the file that the writes leave.
pub proof fn lemma_beyond(d: Disk, ws: Seq<Write>, is_index: bool, p: int, k: int)
    requires
        p >= extent(ws, is_index, side(d, is_index).len() as int),
    ensures
        last(ws, is_index, p, k) is None,
        p >= side(d, is_index).len(),
    decreases ws.len(),
{
    if ws.len() > 0 {
        lemma_beyond(d, ws.drop_last(), is_index, p, k);
    }
}

/// The files that some writes leave need no more pages for the same writes.
proof fn lemma_extent(ws: Seq<Write>, is_index: bool, n: int, m: int)
    requires
        n <= m <= extent(ws, is_index, n),
    ensures
        extent(ws, is_index, m) == extent(ws, is_index, n),
        extent(ws, is_index, n) >= n,
    decreases ws.len(),
{
    if ws.len() > 0 {
        let init = ws.drop_last();
        if m <= extent(init, is_index, n) {
            lemma_extent(init, is_index, n, m);
        } else {
            lemma_extent_grows(init, is_index, n, m);
        }
    }
}

proof fn lemma_extent_grows(ws: Seq<Write>, is_index: bool, n: int, m: int)
    requires
        n <= m,
        extent(ws, is_index, n) <= m,
    ensures
        extent(ws, is_index, m) == m,
        extent(ws, is_index, n) >= n,
    decreases ws.len(),
{
    if ws.len() > 0 {
        lemma_extent_grows(ws.drop_last(), is_index, n, m);
    }
}

/// Some pages of the files are as in `e`, the others as in `d`; a page that `d`
/// does not have is as in `e` or empty.
pub open spec fn mixture(d: Disk, e: Disk, f: Disk) -> bool {
    &&& whole(f)
    &&& forall|i: bool|
        side(d, i).len() <= #[trigger] side(f, i).len() && side(f, i).len() <= side(e, i).len()
    &&& forall|i: bool, p: int|
        0 <= p < side(f, i).len() ==> {
            ||| #[trigger] side(f, i)[p] == side(e, i)[p]
            ||| forall|k: int| 0 <= k < page_size(i) ==> side(f, i)[p][k] == byte(d, i, p, k)
        }
}

/// Some of the writes may have reached the files: bytes that none of them sets are as in
/// `d`.
pub open spec fn reached(d: Disk, ws: Seq<Write>, f: Disk) -> bool {
    &&& whole(f)
    &&& forall|i: bool|
        side(d, i).len() <= #[trigger] side(f, i).len() && side(f, i).len() <= extent(
            ws,
            i,
            side(d, i).len() as int,
        )
    &&& forall|i: bool, p: int, k: int|
        0 <= p < side(f, i).len() && 0 <= k < page_size(i) && last(ws, i, p, k) is None
            ==> #[trigger] side(f, i)[p][k] == byte(d, i, p, k)
}

/// Pages that are as before some writes or as after them.
proof fn lemma_mixture(d: Disk, ws: Seq<Write>, f: Disk)
    requires
        whole(d),
        forall|j: int| 0 <= j < ws.len() ==> fits(#[trigger] ws[j]),
        mixture(d, put_all(d, ws), f),
    ensures
        reached(d, ws, f),
{
    let e = put_all(d, ws);
    lemma_put_all(d, ws);
    assert forall|i: bool|
        side(d, i).len() <= #[trigger] side(f, i).len() && side(f, i).len() <= extent(
            ws,
            i,
            side(d, i).len() as int,
        ) by {
        assert(side(e, i).len() == extent(ws, i, side(d, i).len() as int));
    }
    assert forall|i: bool, p: int, k: int|
        0 <= p < side(f, i).len() && 0 <= k < page_size(i) && last(
            ws,
            i,
            p,
            k,
        ) is None implies #[trigger] side(f, i)[p][k] == byte(d, i, p, k) by {
        assert(side(f, i).len() <= side(e, i).len());
        assert(side(e, i)[p][k] == byte(d, i, p, k));
        assert(side(f, i)[p] == side(e, i)[p] || side(f, i)[p][k] == byte(d, i, p, k));
    }
}

/// The last write to a byte of writes one after the other.
pub proof fn lemma_last_append(ws: Seq<Write>, vs: Seq<Write>, i: bool, p: int, k: int)
    ensures
        last(ws + vs, i, p, k) == (if last(vs, i, p, k) is Some {
            last(vs, i, p, k)
        } else {
            last(ws, i, p, k)
        }),
    decreases vs.len(),
{
    if vs.len() == 0 {
        assert(ws + vs =~= ws);
    } else {
        assert((ws + vs).drop_last() =~= ws + vs.drop_last());
        lemma_last_append(ws, vs.drop_last(), i, p, k);
    }
}

/// How many pages a file has after writes one after the other.
pub proof fn lemma_extent_append(ws: Seq<Write>, vs: Seq<Write>, i: bool, n: int)
    ensures
        extent(ws + vs, i, n) == extent(vs, i, extent(ws, i, n)),
        extent(vs, i, n) >= n,
    decreases vs.len(),
{
    if vs.len() == 0 {
        assert(ws + vs =~= ws);
    } else {
        assert((ws + vs).drop_last() =~= ws + vs.drop_last());
        lemma_extent_append(ws, vs.drop_last(), i, n);
    }
}

/// Writes of which some were made before lead to the same files as without those.
proof fn lemma_put_twice(d: Disk, ws: Seq<Write>, vs: Seq<Write>, k: int, f: Disk)
    requires
        whole(d),
        forall|j: int| 0 <= j < ws.len() ==> fits(#[trigger] ws[j]),
        forall|j: int| 0 <= j < vs.len() ==> fits(#[trigger] vs[j]),
        0 <= k <= vs.len(),
        reached(d, ws + vs, f),
    ensures
        put_all(f, ws + vs.take(k) + vs) == put_all(d, ws + vs),
{
    let us = vs.take(k);
    let once = ws + vs;
    let all = ws + us + vs;
    assert(vs =~= us + vs.skip(k));
    assert forall|j: int| 0 <= j < once.len() implies fits(#[trigger] once[j]) by {
        if j < ws.len() {
            assert(once[j] == ws[j]);
        } else {
            assert(once[j] == vs[j - ws.len()]);
        }
    }
    assert forall|j: int| 0 <= j < all.len() implies fits(#[trigger] all[j]) by {
        if j < ws.len() {
            assert(all[j] == ws[j]);
        } else if j < ws.len() + k {
            assert(all[j] == vs[j - ws.len()]);
        } else {
            assert(all[j] == vs[j - ws.len() - k]);
        }
    }
    assert forall|i: bool, p: int, b: int| #[trigger]
        last(all, i, p, b) == last(once, i, p, b) by {
        lemma_last_append(ws + us, vs, i, p, b);
        lemma_last_append(ws, us, i, p, b);
        lemma_last_append(ws, vs, i, p, b);
        lemma_last_append(us, vs.skip(k), i, p, b);
    }
    assert forall|i: bool, n: int| #[trigger] extent(all, i, n) == extent(once, i, n) by {
        let e = extent(ws, i, n);
        lemma_extent_append(ws + us, vs, i, n);
        lemma_extent_append(ws, us, i, n);
        lemma_extent_append(ws, vs, i, n);
        lemma_extent_append(us, vs.skip(k), i, e);
        lemma_extent_append(us, vs.skip(k), i, extent(us, i, e));
        lemma_extent_append(ws, us, i, e);
        lemma_extent(vs, i, e, extent(us, i, e));
    }
    assert(reached(d, all, f)) by {
        assert forall|i: bool|
            side(d, i).len() <= #[trigger] side(f, i).len() && side(f, i).len() <= extent(
                all,
                i,
                side(d, i).len() as int,
            ) by {
            assert(extent(all, i, side(d, i).len() as int) == extent(
                once,
                i,
                side(d, i).len() as int,
            ));
        }
        assert forall|i: bool, p: int, b: int|
            0 <= p < side(f, i).len() && 0 <= b < page_size(i) && last(
                all,
                i,
                p,
                b,
            ) is None implies #[trigger] side(f, i)[p][b] == byte(d, i, p, b) by {
            assert(last(all, i, p, b) == last(once, i, p, b));
        }
    }
    lemma_put_again(d, all, f);
    lemma_put_all(d, all);
    lemma_put_all(d, once);
    let g = put_all(d, all);
    let e = put_all(d, once);
    assert forall|i: bool| #[trigger] side(g, i) =~~= side(e, i) by {
        assert(extent(all, i, side(d, i).len() as int) == extent(
            once,
            i,
            side(d, i).len() as int,
        ));
        assert(side(e, i).len() == extent(once, i, side(d, i).len() as int));
        assert(side(g, i).len() == extent(all, i, side(d, i).len() as int));
        assert forall|p: int| 0 <= p < side(g, i).len() implies side(g, i)[p] =~= side(e, i)[p] by {
            assert(side(g, i)[p].len() == page_size(i));
            assert(side(e, i)[p].len() == page_size(i));
            assert forall|b: int| 0 <= b < page_size(i) implies side(g, i)[p][b] == side(
                e,
                i,
            )[p][b] by {
                assert(last(all, i, p, b) == last(once, i, p, b));
            }
        }
    }
    assert(side(g, true) == g.index && side(g, false) == g.heap);
    assert(side(e, true) == e.index && side(e, false) == e.heap);
}

/// Writes lead to the same files again, whichever pages they already reached.
proof fn lemma_put_again(d: Disk, ws: Seq<Write>, f: Disk)
    requires
        whole(d),
        forall|j: int| 0 <= j < ws.len() ==> fits(#[trigger] ws[j]),
        reached(d, ws, f),
    ensures
        put_all(f, ws) == put_all(d, ws),
{
    let e = put_all(d, ws);
    let g = put_all(f, ws);
    lemma_put_all(d, ws);
    lemma_put_all(f, ws);
    assert forall|i: bool| #[trigger] side(g, i) =~~= side(e, i) by {
        assert(side(d, i).len() <= side(f, i).len());
        lemma_extent(ws, i, side(d, i).len() as int, side(f, i).len() as int);
        assert(side(e, i).len() == extent(ws, i, side(d, i).len() as int));
        assert(side(g, i).len() == extent(ws, i, side(f, i).len() as int));
        assert forall|p: int| 0 <= p < side(g, i).len() implies side(g, i)[p] =~= side(e, i)[p] by {
            assert(side(g, i)[p].len() == page_size(i));
            assert(side(e, i)[p].len() == page_size(i));
            assert forall|k: int| 0 <= k < page_size(i) implies side(g, i)[p][k] == side(
                e,
                i,
            )[p][k] by {
                if last(ws, i, p, k) is None {
                    assert(side(e, i)[p][k] == byte(d, i, p, k));
                    assert(side(g, i)[p][k] == byte(f, i, p, k));
                    if p < side(f, i).len() {
                        assert(side(f, i)[p][k] == byte(d, i, p, k));
                    } else {
                        assert(side(d, i).len() <= side(f, i).len());
                    }
                }
            }
        }
    }
    assert(side(g, true) == g.index && side(g, false) == g.heap);
    assert(side(e, true) == e.index && side(e, false) == e.heap);
}

/// Writes one after the other.
proof fn lemma_put_append(d: Disk, ws: Seq<Write>, vs: Seq<Write>)
    ensures
        put_all(d, ws + vs) == put_all(put_all(d, ws), vs),
    decreases vs.len(),
{
    if vs.len() == 0 {
        assert(ws + vs =~= ws);
    } else {
        assert((ws + vs).drop_last() =~= ws + vs.drop_last());
        lemma_put_append(d, ws, vs.drop_last());
    }
}

/// The write that redoes a record.
pub open spec fn redo_write(r: RecordView) -> Write {
    Write {
        is_index: r.header.is_index,
        page: r.header.page_id,
        offset: r.header.payload_page_offset,
        data: wal::update_of(r.payload).unwrap().1,
    }
}

/// The write that undoes a record.
pub open spec fn undo_write(r: RecordView) -> Write {
    Write { data: wal::update_of(r.payload).unwrap().0, ..redo_write(r) }
}

/// The writes that redo some records.
pub open spec fn redo_writes(a: Analysis, records: Seq<RecordView>) -> Seq<Write>
    decreases records.len(),
{
    if records.len() == 0 {
        Seq::empty()
    } else {
        let init = redo_writes(a, records.drop_last());
        if recovery::redoes(a, records.last()) {
            init.push(redo_write(records.last()))
        } else {
            init
        }
    }
}

/// The writes that undo some records.
pub open spec fn undo_writes(rs: Seq<RecordView>) -> Seq<Write> {
    Seq::new(rs.len(), |i: int| undo_write(rs[i]))
}

/// Redoing records is to do their writes.
pub proof fn lemma_redo_writes(d: Disk, a: Analysis, records: Seq<RecordView>)
    ensures
        recovery::redo(d, a, records) == put_all(d, redo_writes(a, records)),
    decreases records.len(),
{
    if records.len() > 0 {
        let init = records.drop_last();
        lemma_redo_writes(d, a, init);
        if recovery::redoes(a, records.last()) {
            let ws = redo_writes(a, records);
            assert(ws.drop_last() =~= redo_writes(a, init));
        }
    }
}

/// Undoing records whose pages are there is to do their writes.
pub proof fn lemma_undo_writes(d: Disk, a: Analysis, records: Seq<RecordView>)
    requires
        forall|i: int|
            0 <= i < records.len() && recovery::undoes(a, #[trigger] records[i])
                ==> records[i].header.page_id < side(d, records[i].header.is_index).len(),
    ensures
        recovery::undo(d, a, records) == put_all(d, undo_writes(recovery::undone(a, records))),
    decreases records.len(),
{
    let us = undo_writes(recovery::undone(a, records));
    if records.len() == 0 {
        assert(us.len() == 0);
    } else {
        let init = records.drop_last();
        let r = records.last();
        let e = recovery::undo_one(d, a, r);
        let rest = undo_writes(recovery::undone(a, init));
        assert forall|i: int| 0 <= i < init.len() && recovery::undoes(
            a,
            #[trigger] init[i],
        ) implies init[i].header.page_id < side(e, init[i].header.is_index).len() by {
            assert(init[i] == records[i]);
        }
        lemma_undo_writes(e, a, init);
        if recovery::undoes(a, r) {
            let w = undo_write(r);
            assert(recovery::undoes(a, records[records.len() - 1]));
            assert(us =~= seq![w] + rest);
            assert(recovery::grow(side(d, w.is_index), w.page + 1, page_size(w.is_index)) =~= side(
                d,
                w.is_index,
            ));
            assert(put_all(d, seq![w]) == put(d, w)) by {
                assert(seq![w].drop_last() =~= Seq::empty());
                assert(put_all(d, seq![w].drop_last()) == d);
            }
            assert(e == put(d, w));
            lemma_put_append(d, seq![w], rest);
        } else {
            assert(us =~= rest);
        }
    }
}

/// A log that can be recovered from: it ends in a whole record, and nothing in
/// it is later than the next LSN.
pub open spec fn orderly(w: LogView) -> bool {
    let records = wal::records_in(w.durable);
    &&& w.pending.len() == 0
    &&& wal::whole(w.durable)
    &&& forall|i: int|
        0 <= i < records.len() ==> (#[trigger] records[i]).header.lsn < w.header.next_lsn
    &&& checkpoint_ok(w)
}

/// Nothing that the last checkpoint says is later than the next LSN.
pub open spec fn checkpoint_ok(w: LogView) -> bool {
    let a = recovery::analysis_of(w);
    &&& w.header.last_checkpoint_lsn == 0 || w.header.last_checkpoint_lsn < w.header.next_lsn
    &&& forall|p: u64| #[trigger] a.index.contains_key(p) ==> a.index[p] < w.header.next_lsn
    &&& forall|p: u64| #[trigger] a.heap.contains_key(p) ==> a.heap[p] < w.header.next_lsn
}

/// A log that was opened can be recovered from, also where a crash has left a torn
/// record at the end of its file.
pub proof fn lemma_opened_orderly(file: Seq<u8>)
    requires
        file.len() == 0 || file.len() >= WAL_HEADER_SIZE,
        wal::opened(file).header.next_lsn < u64::MAX,
        checkpoint_ok(wal::opened(file)),
    ensures
        orderly(wal::opened(file)),
{
    let w = wal::opened(file);
    let records = wal::file_records(file);
    if file.len() > 0 {
        wal::lemma_whole_log(file.skip(WAL_HEADER_SIZE as int));
    } else {
        assert(wal::log_of(records) =~= Seq::<u8>::empty());
        assert(wal::records_in(wal::log_of(records)) =~= records);
    }
    assert(wal::records_in(w.durable) == records);
    assert forall|i: int| 0 <= i < records.len() implies (#[trigger] records[i]).header.lsn
        < w.header.next_lsn by {
        wal::lemma_next_lsn(file, i);
    }
}

/// The log after recovery: `w2` is `w` with the records of the rollback, and all
/// of it is in the file.
pub open spec fn recovered(w: LogView, w2: LogView, txns: Seq<u64>) -> bool {
    let a = recovery::analysis_of(w);
    &&& recovery::log_rolled_back(
        w,
        w2,
        recovery::undone(a, wal::records_in(w.durable)),
        txns,
    )
    &&& w2.pending.len() == 0
    &&& forall|txn: u64| #[trigger] txns.contains(txn) == recovery::is_loser(a, txn)
}

/// The records of a log, one log behind the other.
proof fn lemma_log_append(s: Seq<RecordView>, t: Seq<RecordView>)
    ensures
        wal::log_of(s + t) == wal::log_of(s) + wal::log_of(t),
    decreases t.len(),
{
    if t.len() == 0 {
        assert(s + t =~= s);
        assert(wal::log_of(s) + wal::log_of(t) =~= wal::log_of(s));
    } else {
        let init = t.drop_last();
        assert(s + t =~= (s + init).push(t.last()));
        assert(t =~= init.push(t.last()));
        wal::lemma_log_push(s + init, t.last());
        wal::lemma_log_push(init, t.last());
        lemma_log_append(s, init);
        assert(wal::log_of(s + t) =~= wal::log_of(s) + wal::log_of(t));
    }
}

/// Records with later LSNs do not hide the one that is looked for.
proof fn lemma_place(s: Seq<RecordView>, t: Seq<RecordView>, lsn: u64)
    requires
        forall|i: int| 0 <= i < t.len() ==> (#[trigger] t[i]).header.lsn != lsn,
    ensures
        recovery::place_of(s, lsn) < s.len() ==> recovery::place_of(s + t, lsn)
            == recovery::place_of(s, lsn),
        recovery::place_of(s, lsn) >= s.len() ==> recovery::place_of(s + t, lsn) >= (s + t).len(),
        0 <= recovery::place_of(s, lsn),
    decreases s.len() + t.len(),
{
    if s.len() > 0 {
        assert((s + t)[0] == s[0]);
        assert((s + t).skip(1) =~= s.skip(1) + t);
        lemma_place(s.skip(1), t, lsn);
    } else {
        assert(s + t =~= t);
        if t.len() > 0 {
            assert(t[0].header.lsn != lsn);
            assert forall|i: int| 0 <= i < t.skip(1).len() implies (
            #[trigger] t.skip(1)[i]).header.lsn != lsn by {
                assert(t.skip(1)[i] == t[i + 1]);
            }
            lemma_place(s, t.skip(1), lsn);
            assert(s + t.skip(1) =~= t.skip(1));
        }
    }
}

/// The analysis of the records of a rollback. It forgets the transactions that
/// were rolled back, and keeps what is known of pages.
proof fn lemma_analyse_rollback(
    a: Analysis,
    rs: Seq<RecordView>,
    cs: Seq<RecordView>,
    ends: Seq<RecordView>,
    txns: Seq<u64>,
    start: int,
    lsn: int,
)
    requires
        recovery::compensate(cs, rs),
        recovery::aborts(ends, txns),
        forall|i: int| 0 <= i < rs.len() ==> recovery::undoes(a, #[trigger] rs[i]),
        recovery::numbered(cs + ends, lsn),
        start <= lsn,
    ensures
        ({
            let b = recovery::analyse(a, cs + ends, start);
            &&& forall|txn: u64| #[trigger]
                b.att.contains_key(txn) == (a.att.contains_key(txn) && !txns.contains(txn))
            &&& table_grows(a.index, b.index, lsn, lsn + cs.len() + ends.len())
            &&& table_grows(a.heap, b.heap, lsn, lsn + cs.len() + ends.len())
            &&& forall|i: int|
                0 <= i < cs.len() ==> {
                    let t = recovery::table(b, #[trigger] cs[i]);
                    &&& t.contains_key(cs[i].header.page_id)
                    &&& t[cs[i].header.page_id] <= cs[i].header.lsn || recovery::table(
                        a,
                        cs[i],
                    ).contains_key(cs[i].header.page_id)
                }
        }),
    decreases cs.len() + ends.len(),
{
    let all = cs + ends;
    let b = recovery::analyse(a, all, start);
    if ends.len() > 0 {
        let e = ends.last();
        let init = ends.drop_last();
        let ids = txns.drop_last();
        assert(all.drop_last() =~= cs + init);
        assert(all.last() == e);
        assert(all[all.len() - 1] == e);
        assert forall|i: int| 0 <= i < (cs + init).len() implies (
        #[trigger] (cs + init)[i]).header.lsn == lsn + i && (cs + init)[i].sized() by {
            assert((cs + init)[i] == all[i]);
        }
        lemma_analyse_rollback(a, rs, cs, init, ids, start, lsn);
        assert(ends[ends.len() - 1] == e);
        assert(txns =~= ids.push(txns.last()));
        assert forall|txn: u64| #[trigger]
            b.att.contains_key(txn) == (a.att.contains_key(txn) && !txns.contains(txn)) by {
            assert(txns.contains(txn) == (ids.contains(txn) || txn == txns.last())) by {
                if ids.contains(txn) {
                    let j = choose|j: int| 0 <= j < ids.len() && ids[j] == txn;
                    assert(txns[j] == txn);
                }
                if txn == txns.last() {
                    assert(txns[txns.len() - 1] == txn);
                }
                if txns.contains(txn) {
                    let j = choose|j: int| 0 <= j < txns.len() && txns[j] == txn;
                    if j < ids.len() {
                        assert(ids[j] == txn);
                    }
                }
            }
        }
    } else if cs.len() > 0 {
        let c = cs.last();
        let init = cs.drop_last();
        assert(all =~= cs);
        assert(all.drop_last() =~= init + ends);
        assert(cs[cs.len() - 1] == c);
        assert(recovery::compensates(cs[cs.len() - 1], rs[cs.len() - 1]));
        assert(recovery::undoes(a, rs[rs.len() - 1]));
        assert(all[all.len() - 1] == c);
        assert forall|i: int| 0 <= i < (init + ends).len() implies (
        #[trigger] (init + ends)[i]).header.lsn == lsn + i && (init + ends)[i].sized() by {
            assert((init + ends)[i] == all[i]);
        }
        assert forall|i: int| 0 <= i < init.len() implies recovery::compensates(
            #[trigger] init[i],
            rs.drop_last()[i],
        ) by {
            assert(recovery::compensates(cs[i], rs[i]));
        }
        lemma_analyse_rollback(a, rs.drop_last(), init, ends, txns, start, lsn);
        let b1 = recovery::analyse(a, init + ends, start);
        assert(b == recovery::note(b1, c));
        assert forall|i: int| 0 <= i < cs.len() implies {
            let t = recovery::table(b, #[trigger] cs[i]);
            &&& t.contains_key(cs[i].header.page_id)
            &&& t[cs[i].header.page_id] <= cs[i].header.lsn || recovery::table(
                a,
                cs[i],
            ).contains_key(cs[i].header.page_id)
        } by {
            if i < init.len() {
                assert(init[i] == cs[i]);
            } else if recovery::table(b1, c).contains_key(c.header.page_id) {
                assert(all[i] == c);
            }
        }
    } else {
        assert(all =~= Seq::empty());
        assert(txns.len() == 0);
    }
}

/// A page table keeps its entries; the new ones are from `lo` to below `hi`.
pub open spec fn table_grows(t: Map<u64, u64>, t2: Map<u64, u64>, lo: int, hi: int) -> bool {
    &&& forall|p: u64| #[trigger] t.contains_key(p) ==> t2.contains_key(p) && t2[p] == t[p]
    &&& forall|p: u64| #[trigger]
        t2.contains_key(p) && !t.contains_key(p) ==> lo <= t2[p] < hi
}

/// A log behind which compensation records and the ends of transactions were written.
pub open spec fn grown_log(
    w: LogView,
    w2: LogView,
    rs: Seq<RecordView>,
    cs: Seq<RecordView>,
    ends: Seq<RecordView>,
    txns: Seq<u64>,
) -> bool {
    &&& w2.durable == w.durable + wal::log_of(cs + ends)
    &&& w2.header.last_checkpoint_lsn == w.header.last_checkpoint_lsn
    &&& recovery::compensate(cs, rs)
    &&& recovery::aborts(ends, txns)
    &&& recovery::numbered(cs + ends, w.header.next_lsn as int)
    &&& forall|i: int|
        0 <= i < rs.len() ==> recovery::undoes(recovery::analysis_of(w), #[trigger] rs[i])
            && wal::records_in(w.durable).contains(rs[i])
}

/// What is read from such a log, and what its analysis finds.
proof fn lemma_grown_log(
    w: LogView,
    w2: LogView,
    rs: Seq<RecordView>,
    cs: Seq<RecordView>,
    ends: Seq<RecordView>,
    txns: Seq<u64>,
)
    requires
        orderly(w),
        grown_log(w, w2, rs, cs, ends, txns),
    ensures
        ({
            let a = recovery::analysis_of(w);
            let a2 = recovery::analysis_of(w2);
            let lsn = w.header.next_lsn as int;
            &&& wal::records_in(w2.durable) == wal::records_in(w.durable) + (cs + ends)
            &&& forall|txn: u64| #[trigger]
                a2.att.contains_key(txn) == (a.att.contains_key(txn) && !txns.contains(txn))
            &&& table_grows(a.index, a2.index, lsn, lsn + cs.len() + ends.len())
            &&& table_grows(a.heap, a2.heap, lsn, lsn + cs.len() + ends.len())
            &&& forall|i: int|
                0 <= i < cs.len() ==> {
                    let t = recovery::table(a2, #[trigger] cs[i]);
                    &&& t.contains_key(cs[i].header.page_id)
                    &&& t[cs[i].header.page_id] <= cs[i].header.lsn || recovery::table(
                        a,
                        cs[i],
                    ).contains_key(cs[i].header.page_id)
                }
        }),
{
    let records = wal::records_in(w.durable);
    let a = recovery::analysis_of(w);
    let more = cs + ends;
    let all = records + more;
    let lsn = w.header.next_lsn as int;
    // the records
    lemma_log_append(records, more);
    assert(w2.durable =~= wal::log_of(all));
    wal::lemma_records_sized(w.durable);
    assert forall|i: int| 0 <= i < all.len() implies (#[trigger] all[i]).sized() by {
        if i < records.len() {
            assert(all[i] == records[i]);
        } else {
            assert(all[i] == more[i - records.len()]);
        }
    }
    wal::lemma_read_back(all);
    // the analysis
    let chk = w.header.last_checkpoint_lsn;
    let (a0, start) = recovery::from_checkpoint(records, chk);
    if chk > 0 {
        lemma_place(records, more, chk);
        let i = recovery::place_of(records, chk);
        if i < records.len() {
            assert(all[i] == records[i]);
        }
    }
    assert(recovery::from_checkpoint(all, chk) == (a0, start));
    recovery::lemma_analyse_append(a0, records, more, start);
    lemma_analyse_rollback(a, rs, cs, ends, txns, start, lsn);
}

/// What is known of a log after recovery.
pub proof fn lemma_recovered_log(w: LogView, w2: LogView, txns: Seq<u64>) -> (r: (
    Seq<RecordView>,
    Seq<RecordView>,
))
    requires
        orderly(w),
        recovered(w, w2, txns),
    ensures
        ({
            let (cs, ends) = r;
            let records = wal::records_in(w.durable);
            let a = recovery::analysis_of(w);
            let a2 = recovery::analysis_of(w2);
            let lsn = w.header.next_lsn as int;
            &&& wal::records_in(w2.durable) == records + (cs + ends)
            &&& recovery::compensate(cs, recovery::undone(a, records))
            &&& recovery::aborts(ends, txns)
            &&& recovery::numbered(cs + ends, lsn)
            &&& forall|txn: u64| !(#[trigger] recovery::is_loser(a2, txn))
            &&& table_grows(a.index, a2.index, lsn, lsn + cs.len() + ends.len())
            &&& table_grows(a.heap, a2.heap, lsn, lsn + cs.len() + ends.len())
            &&& forall|i: int|
                0 <= i < cs.len() ==> {
                    let t = recovery::table(a2, #[trigger] cs[i]);
                    &&& t.contains_key(cs[i].header.page_id)
                    &&& t[cs[i].header.page_id] <= cs[i].header.lsn || recovery::table(
                        a,
                        cs[i],
                    ).contains_key(cs[i].header.page_id)
                }
        }),
{
    let records = wal::records_in(w.durable);
    let a = recovery::analysis_of(w);
    let undone = recovery::undone(a, records);
    let (cs, ends) = choose|cs: Seq<RecordView>, ends: Seq<RecordView>| #[trigger]
        recovery::rolled_back(w, w2, cs, undone, ends, txns);
    lemma_log_append(cs, ends);
    assert(w2.durable =~= w2.all());
    assert(w.durable =~= w.all());
    assert(w2.durable =~= w.durable + wal::log_of(cs + ends));
    lemma_undone(a, records);
    lemma_grown_log(w, w2, undone, cs, ends, txns);
    (cs, ends)
}

/// The records that are undone are records that are to be undone.
pub proof fn lemma_undone(a: Analysis, records: Seq<RecordView>)
    ensures
        forall|i: int|
            0 <= i < recovery::undone(a, records).len() ==> recovery::undoes(
                a,
                #[trigger] recovery::undone(a, records)[i],
            ) && records.contains(recovery::undone(a, records)[i]),
    decreases records.len(),
{
    if records.len() > 0 {
        let init = records.drop_last();
        let us = recovery::undone(a, records);
        let vs = recovery::undone(a, init);
        lemma_undone(a, init);
        assert forall|i: int| 0 <= i < us.len() implies recovery::undoes(a, #[trigger] us[i])
            && records.contains(us[i]) by {
            if recovery::undoes(a, records.last()) && i == 0 {
                assert(records[records.len() - 1] == us[0]);
            } else {
                let j = if recovery::undoes(a, records.last()) {
                    i - 1
                } else {
                    i
                };
                assert(us[i] == vs[j]);
                assert(init.contains(vs[j]));
                let k = choose|k: int| 0 <= k < init.len() && init[k] == vs[j];
                assert(records[k] == vs[j]);
            }
        }
    }
}

/// Recovery ends all transactions: a second recovery has nothing to undo.
pub proof fn lemma_nothing_left(w: LogView, w2: LogView, txns: Seq<u64>)
    requires
        orderly(w),
        recovered(w, w2, txns),
    ensures
        forall|txn: u64| !(#[trigger] recovery::is_loser(recovery::analysis_of(w2), txn)),
        recovery::undone(recovery::analysis_of(w2), wal::records_in(w2.durable)).len() == 0,
{
    let _ = lemma_recovered_log(w, w2, txns);
    let a2 = recovery::analysis_of(w2);
    let us = recovery::undone(a2, wal::records_in(w2.durable));
    lemma_undone(a2, wal::records_in(w2.durable));
    if us.len() > 0 {
        assert(recovery::undoes(a2, us[0]));
    }
}

/// The writes of records, some behind the others.
proof fn lemma_writes_append(a: Analysis, s: Seq<RecordView>, t: Seq<RecordView>)
    ensures
        redo_writes(a, s + t) == redo_writes(a, s) + redo_writes(a, t),
    decreases t.len(),
{
    if t.len() == 0 {
        assert(s + t =~= s);
        assert(redo_writes(a, s) + redo_writes(a, t) =~= redo_writes(a, s));
    } else {
        assert((s + t).drop_last() =~= s + t.drop_last());
        lemma_writes_append(a, s, t.drop_last());
        assert(redo_writes(a, s + t) =~= redo_writes(a, s) + redo_writes(a, t));
    }
}

/// Records that are redone by both of two analyses or by neither give the same
/// writes.
proof fn lemma_writes_same(a: Analysis, b: Analysis, records: Seq<RecordView>)
    requires
        forall|i: int|
            0 <= i < records.len() ==> recovery::redoes(a, #[trigger] records[i])
                == recovery::redoes(b, records[i]),
    ensures
        redo_writes(a, records) == redo_writes(b, records),
    decreases records.len(),
{
    if records.len() > 0 {
        let init = records.drop_last();
        assert forall|i: int| 0 <= i < init.len() implies recovery::redoes(a, #[trigger] init[i])
            == recovery::redoes(b, init[i]) by {
            assert(init[i] == records[i]);
        }
        lemma_writes_same(a, b, init);
        assert(recovery::redoes(a, records[records.len() - 1]) == recovery::redoes(
            b,
            records[records.len() - 1],
        ));
    }
}

/// Records that are all redone, and what they write.
proof fn lemma_writes_all(a: Analysis, records: Seq<RecordView>, ws: Seq<Write>)
    requires
        records.len() == ws.len(),
        forall|i: int|
            0 <= i < records.len() ==> recovery::redoes(a, #[trigger] records[i]) && redo_write(
                records[i],
            ) == ws[i],
    ensures
        redo_writes(a, records) == ws,
    decreases records.len(),
{
    if records.len() > 0 {
        let init = records.drop_last();
        assert forall|i: int| 0 <= i < init.len() implies recovery::redoes(a, #[trigger] init[i])
            && redo_write(init[i]) == ws.drop_last()[i] by {
            assert(init[i] == records[i]);
        }
        lemma_writes_all(a, init, ws.drop_last());
        assert(recovery::redoes(a, records[records.len() - 1]));
        assert(redo_writes(a, records) =~= ws);
    } else {
        assert(ws =~= Seq::empty());
    }
}

/// Records that are not redone write nothing.
proof fn lemma_writes_none(a: Analysis, records: Seq<RecordView>)
    requires
        forall|i: int| 0 <= i < records.len() ==> !recovery::redoes(a, #[trigger] records[i]),
    ensures
        redo_writes(a, records) == Seq::<Write>::empty(),
    decreases records.len(),
{
    if records.len() > 0 {
        let init = records.drop_last();
        assert forall|i: int| 0 <= i < init.len() implies !recovery::redoes(
            a,
            #[trigger] init[i],
        ) by {
            assert(init[i] == records[i]);
        }
        lemma_writes_none(a, init);
        assert(!recovery::redoes(a, records[records.len() - 1]));
    }
}

/// The writes of records that are redone lie on their pages.
pub proof fn lemma_redo_fits(a: Analysis, records: Seq<RecordView>)
    requires
        forall|i: int|
            0 <= i < records.len() && recovery::redoes(a, #[trigger] records[i])
                ==> recovery::on_page(records[i], wal::update_of(records[i].payload).unwrap().1),
    ensures
        forall|j: int|
            0 <= j < redo_writes(a, records).len() ==> fits(#[trigger] redo_writes(a, records)[j]),
    decreases records.len(),
{
    if records.len() > 0 {
        let init = records.drop_last();
        assert forall|i: int| 0 <= i < init.len() && recovery::redoes(
            a,
            #[trigger] init[i],
        ) implies recovery::on_page(init[i], wal::update_of(init[i].payload).unwrap().1) by {
            assert(init[i] == records[i]);
        }
        lemma_redo_fits(a, init);
        let ws = redo_writes(a, records);
        assert forall|j: int| 0 <= j < ws.len() implies fits(#[trigger] ws[j]) by {
            if j < redo_writes(a, init).len() {
                assert(ws[j] == redo_writes(a, init)[j]);
            } else {
                assert(recovery::redoes(a, records[records.len() - 1]));
            }
        }
    }
}

/// What is redone from such a log: what was redone before, and then the compensation
/// records.
proof fn lemma_grown_writes(
    w: LogView,
    w2: LogView,
    rs: Seq<RecordView>,
    cs: Seq<RecordView>,
    ends: Seq<RecordView>,
    txns: Seq<u64>,
)
    requires
        orderly(w),
        grown_log(w, w2, rs, cs, ends, txns),
        ({
            let records = wal::records_in(w.durable);
            let a = recovery::analysis_of(w);
            forall|i: int|
                0 <= i < records.len() && recovery::undoes(a, #[trigger] records[i])
                    ==> recovery::on_page(
                    records[i],
                    wal::update_of(records[i].payload).unwrap().0,
                )
        }),
    ensures
        redo_writes(recovery::analysis_of(w2), wal::records_in(w2.durable)) == redo_writes(
            recovery::analysis_of(w),
            wal::records_in(w.durable),
        ) + undo_writes(rs),
{
    let records = wal::records_in(w.durable);
    let a = recovery::analysis_of(w);
    let a2 = recovery::analysis_of(w2);
    lemma_grown_log(w, w2, rs, cs, ends, txns);
    assert forall|i: int| 0 <= i < records.len() implies recovery::redoes(a, #[trigger] records[i])
        == recovery::redoes(a2, records[i]) by {
        let p = records[i].header.page_id;
        assert(records[i].header.lsn < w.header.next_lsn);
        assert(recovery::table(a, records[i]).contains_key(p) || !recovery::table(
            a2,
            records[i],
        ).contains_key(p) || recovery::table(a2, records[i])[p] >= w.header.next_lsn);
    }
    lemma_writes_same(a, a2, records);
    assert forall|i: int| 0 <= i < cs.len() implies recovery::redoes(a2, #[trigger] cs[i])
        && redo_write(cs[i]) == undo_writes(rs)[i] by {
        let r = rs[i];
        assert(recovery::compensates(cs[i], r));
        assert(recovery::undoes(a, r) && records.contains(r));
        let k = choose|k: int| 0 <= k < records.len() && records[k] == r;
        assert(recovery::undoes(a, records[k]));
        wal::lemma_update_read_back(Seq::empty(), wal::update_of(r.payload).unwrap().0);
        assert((cs + ends)[i] == cs[i]);
        let p = cs[i].header.page_id;
        let t = recovery::table(a2, cs[i]);
        assert(t.contains_key(p));
        if recovery::table(a, cs[i]).contains_key(p) {
            assert(t[p] == recovery::table(a, cs[i])[p]);
            assert(recovery::table(a, cs[i])[p] < w.header.next_lsn);
        }
    }
    lemma_writes_all(a2, cs, undo_writes(rs));
    assert forall|i: int| 0 <= i < ends.len() implies !recovery::redoes(
        a2,
        #[trigger] ends[i],
    ) by {
        assert(ends[i].header.record_type == RecordType::Abort);
    }
    lemma_writes_none(a2, ends);
    lemma_writes_append(a2, cs, ends);
    lemma_writes_append(a2, records, cs + ends);
    assert(redo_writes(a2, records + (cs + ends)) =~= redo_writes(a, records) + undo_writes(
        rs,
    ));
}

/// Redoing the log after recovery does all that recovery did.
proof fn lemma_recovered_writes(w: LogView, w2: LogView, txns: Seq<u64>)
    requires
        orderly(w),
        recovered(w, w2, txns),
        ({
            let records = wal::records_in(w.durable);
            let a = recovery::analysis_of(w);
            forall|i: int|
                0 <= i < records.len() && recovery::undoes(a, #[trigger] records[i])
                    ==> recovery::on_page(
                    records[i],
                    wal::update_of(records[i].payload).unwrap().0,
                )
        }),
    ensures
        ({
            let records = wal::records_in(w.durable);
            let a = recovery::analysis_of(w);
            redo_writes(recovery::analysis_of(w2), wal::records_in(w2.durable)) == redo_writes(
                a,
                records,
            ) + undo_writes(recovery::undone(a, records))
        }),
{
    let records = wal::records_in(w.durable);
    let a = recovery::analysis_of(w);
    let undone = recovery::undone(a, records);
    let (cs, ends) = choose|cs: Seq<RecordView>, ends: Seq<RecordView>| #[trigger]
        recovery::rolled_back(w, w2, cs, undone, ends, txns);
    lemma_undone(a, records);
    lemma_log_append(cs, ends);
    assert(w2.durable =~= w2.all());
    assert(w.durable =~= w.all());
    assert(w2.durable =~= w.durable + wal::log_of(cs + ends));
    assert(grown_log(w, w2, undone, cs, ends, txns));
    lemma_grown_writes(w, w2, undone, cs, ends, txns);
}

/// Recovery can be interrupted and started again: with the log that recovery
/// wrote, and whichever pages had reached the files, recovery leads to the same
/// files as before.
pub proof fn lemma_recover_again(d: Disk, w: LogView, w2: LogView, txns: Seq<u64>, f: Disk)
    requires
        whole(d),
        orderly(w),
        recovered(w, w2, txns),
        ({
            let records = wal::records_in(w.durable);
            let a = recovery::analysis_of(w);
            let redone = recovery::redo(d, a, records);
            &&& recovery::replayable(d, a, records)
            &&& recovery::undoable(redone, a, records)
            &&& mixture(d, recovery::undo(redone, a, records), f)
        }),
    ensures
        ({
            let records = wal::records_in(w.durable);
            let a = recovery::analysis_of(w);
            let e = recovery::undo(recovery::redo(d, a, records), a, records);
            let records2 = wal::records_in(w2.durable);
            let a2 = recovery::analysis_of(w2);
            recovery::undo(recovery::redo(f, a2, records2), a2, records2) == e
        }),
{
    let records = wal::records_in(w.durable);
    let a = recovery::analysis_of(w);
    let redone = recovery::redo(d, a, records);
    let undone = recovery::undone(a, records);
    let e = recovery::undo(redone, a, records);
    let records2 = wal::records_in(w2.durable);
    let a2 = recovery::analysis_of(w2);
    let rs = redo_writes(a, records);
    let us = undo_writes(undone);
    lemma_redo_writes(d, a, records);
    lemma_undo_writes(redone, a, records);
    lemma_put_append(d, rs, us);
    assert(e == put_all(d, rs + us));
    lemma_recovered_writes(w, w2, txns);
    lemma_redo_writes(f, a2, records2);
    lemma_redo_fits(a, records);
    lemma_undone(a, records);
    assert forall|j: int| 0 <= j < (rs + us).len() implies fits(#[trigger] (rs + us)[j]) by {
        if j < rs.len() {
            assert((rs + us)[j] == rs[j]);
        } else {
            let r = undone[j - rs.len()];
            assert(recovery::undoes(a, r) && records.contains(r));
            let k = choose|k: int| 0 <= k < records.len() && records[k] == r;
            assert(recovery::undoes(a, records[k]));
        }
    }
    lemma_mixture(d, rs + us, f);
    lemma_put_again(d, rs + us, f);
    assert(recovery::redo(f, a2, records2) == e);
    lemma_nothing_left(w, w2, txns);
    assert forall|i: int| 0 <= i < records2.len() && recovery::undoes(
        a2,
        #[trigger] records2[i],
    ) implies records2[i].header.page_id < side(e, records2[i].header.is_index).len() by {
        assert(!recovery::is_loser(a2, records2[i].header.txn_id));
    }
    lemma_undo_writes(e, a2, records2);
}

/// The log that a crash during recovery has left: `w2` is `w` with the first compensation
/// records of the rollback, and no transaction has been ended yet.
pub open spec fn partly_recovered(w: LogView, w2: LogView, cs: Seq<RecordView>) -> bool {
    let undone = recovery::undone(recovery::analysis_of(w), wal::records_in(w.durable));
    &&& cs.len() <= undone.len()
    &&& recovery::compensate(cs, undone.take(cs.len() as int))
    &&& recovery::numbered(cs, w.header.next_lsn as int)
    &&& w2.durable == w.durable + wal::log_of(cs)
    &&& w2.header.last_checkpoint_lsn == w.header.last_checkpoint_lsn
}

/// The same records are undone where the same transactions are rolled back.
proof fn lemma_undone_same(a: Analysis, b: Analysis, records: Seq<RecordView>)
    requires
        forall|txn: u64| #[trigger] b.att.contains_key(txn) == a.att.contains_key(txn),
    ensures
        recovery::undone(b, records) == recovery::undone(a, records),
    decreases records.len(),
{
    if records.len() > 0 {
        lemma_undone_same(a, b, records.drop_last());
    }
}

/// Compensation records are not undone.
proof fn lemma_none_undone(a: Analysis, records: Seq<RecordView>)
    requires
        forall|i: int| 0 <= i < records.len() ==> !recovery::undoes(a, #[trigger] records[i]),
    ensures
        recovery::undone(a, records) == Seq::<RecordView>::empty(),
    decreases records.len(),
{
    if records.len() > 0 {
        assert(!recovery::undoes(a, records[records.len() - 1]));
        assert forall|i: int| 0 <= i < records.drop_last().len() implies !recovery::undoes(
            a,
            #[trigger] records.drop_last()[i],
        ) by {
            assert(records.drop_last()[i] == records[i]);
        }
        lemma_none_undone(a, records.drop_last());
    }
}

/// A crash can strike during recovery: with as many compensation records as had reached
/// the log, and whatever had reached the files, recovery leads to the same files as
/// without the crash.
pub proof fn lemma_recover_interrupted(
    d: Disk,
    w: LogView,
    w2: LogView,
    cs: Seq<RecordView>,
    f: Disk,
)
    requires
        whole(d),
        orderly(w),
        partly_recovered(w, w2, cs),
        ({
            let records = wal::records_in(w.durable);
            let a = recovery::analysis_of(w);
            let redone = recovery::redo(d, a, records);
            &&& recovery::replayable(d, a, records)
            &&& recovery::undoable(redone, a, records)
            &&& reached(
                d,
                redo_writes(a, records) + undo_writes(recovery::undone(a, records)),
                f,
            )
        }),
    ensures
        ({
            let records = wal::records_in(w.durable);
            let a = recovery::analysis_of(w);
            let e = recovery::undo(recovery::redo(d, a, records), a, records);
            let records2 = wal::records_in(w2.durable);
            let a2 = recovery::analysis_of(w2);
            recovery::undo(recovery::redo(f, a2, records2), a2, records2) == e
        }),
{
    let records = wal::records_in(w.durable);
    let a = recovery::analysis_of(w);
    let redone = recovery::redo(d, a, records);
    let undone = recovery::undone(a, records);
    let k = cs.len() as int;
    let a2 = recovery::analysis_of(w2);
    let records2 = wal::records_in(w2.durable);
    let rs = redo_writes(a, records);
    let us = undo_writes(undone);
    let part = undone.take(k);
    let none = Seq::<RecordView>::empty();
    let no_txns = Seq::<u64>::empty();
    lemma_undone(a, records);
    assert(cs + none =~= cs);
    assert forall|i: int| 0 <= i < part.len() implies recovery::undoes(a, #[trigger] part[i])
        && records.contains(part[i]) by {
        assert(part[i] == undone[i]);
    }
    assert(grown_log(w, w2, part, cs, none, no_txns));
    lemma_grown_log(w, w2, part, cs, none, no_txns);
    lemma_grown_writes(w, w2, part, cs, none, no_txns);
    assert(undo_writes(part) =~= us.take(k));
    assert(records2 =~= records + cs);
    // what was to be done
    lemma_redo_writes(d, a, records);
    lemma_undo_writes(redone, a, records);
    lemma_put_append(d, rs, us);
    // what is done again
    assert forall|txn: u64| #[trigger] a2.att.contains_key(txn) == a.att.contains_key(txn) by {
        assert(!no_txns.contains(txn));
    }
    lemma_undone_same(a, a2, records);
    assert forall|i: int| 0 <= i < cs.len() implies !recovery::undoes(a2, #[trigger] cs[i]) by {
        assert(recovery::compensates(cs[i], part[i]));
    }
    lemma_none_undone(a2, cs);
    recovery::lemma_undo_split(d, a2, records, cs);
    assert(recovery::undone(a2, records2) =~= undone);
    let g = recovery::redo(f, a2, records2);
    lemma_redo_writes(f, a2, records2);
    lemma_redo_fits(a, records);
    assert forall|j: int| 0 <= j < us.len() implies fits(#[trigger] us[j]) by {
        let r = undone[j];
        assert(recovery::undoes(a, r) && records.contains(r));
        let i = choose|i: int| 0 <= i < records.len() && records[i] == r;
        assert(recovery::undoes(a, records[i]));
    }
    let ws = rs + us.take(k);
    assert forall|j: int| 0 <= j < ws.len() implies fits(#[trigger] ws[j]) by {
        if j < rs.len() {
            assert(ws[j] == rs[j]);
        } else {
            assert(ws[j] == us[j - rs.len()]);
        }
    }
    lemma_put_all(f, ws);
    lemma_put_all(d, rs);
    assert forall|i: int| 0 <= i < records2.len() && recovery::undoes(
        a2,
        #[trigger] records2[i],
    ) implies records2[i].header.page_id < side(g, records2[i].header.is_index).len() by {
        if i < records.len() {
            let s = records2[i].header.is_index;
            assert(records2[i] == records[i]);
            assert(recovery::undoes(a, records[i]));
            assert(records[i].header.page_id < side(redone, s).len());
            lemma_extent_append(rs, us.take(k), s, side(f, s).len() as int);
            lemma_extent_append(
                rs,
                us.take(k),
                s,
                extent(rs, s, side(f, s).len() as int),
            );
            lemma_extent_more(rs, s, side(d, s).len() as int, side(f, s).len() as int);
            assert(side(redone, s).len() == extent(rs, s, side(d, s).len() as int));
            assert(side(g, s).len() == extent(ws, s, side(f, s).len() as int));
        } else {
            assert(records2[i] == cs[i - records.len()]);
        }
    }
    lemma_undo_writes(g, a2, records2);
    lemma_put_append(f, ws, us);
    lemma_put_twice(d, rs, us, k, f);
}

/// A longer file is no shorter after some writes.
proof fn lemma_extent_more(ws: Seq<Write>, i: bool, n: int, m: int)
    requires
        n <= m,
    ensures
        extent(ws, i, n) <= extent(ws, i, m),
    decreases ws.len(),
{
    if ws.len() > 0 {
        lemma_extent_more(ws.drop_last(), i, n, m);
    }
}

/// No two transactions that are rolled back changed the same byte.
pub open spec fn isolated(a: Analysis, records: Seq<RecordView>) -> bool {
    forall|x: int, y: int, i: bool, p: int, k: int|
        0 <= x < records.len() && 0 <= y < records.len() && recovery::undoes(a, records[x])
            && recovery::undoes(a, records[y]) && #[trigger] sets(undo_write(records[x]), i, p, k)
            && #[trigger] sets(undo_write(records[y]), i, p, k) ==> records[x].header.txn_id
            == records[y].header.txn_id
}

/// Rolling back some of the transactions again sets bytes to what they were set to.
proof fn lemma_last_again(
    a: Analysis,
    b: Analysis,
    records: Seq<RecordView>,
    i: bool,
    p: int,
    k: int,
)
    requires
        isolated(a, records),
        forall|txn: u64| #[trigger] b.att.contains_key(txn) ==> a.att.contains_key(txn),
    ensures
        ({
            let again = last(undo_writes(recovery::undone(b, records)), i, p, k);
            again is None || again == last(undo_writes(recovery::undone(a, records)), i, p, k)
        }),
    decreases records.len(),
{
    let us = undo_writes(recovery::undone(a, records));
    let vs = undo_writes(recovery::undone(b, records));
    if records.len() > 0 {
        let r = records[0];
        let first = seq![r];
        let rest = records.skip(1);
        assert(records =~= first + rest);
        let d = Disk { index: Seq::empty(), heap: Seq::empty() };
        recovery::lemma_undo_split(d, a, first, rest);
        recovery::lemma_undo_split(d, b, first, rest);
        assert(first.drop_last() =~= Seq::empty());
        assert(recovery::undone(a, first.drop_last()) =~= Seq::empty());
        assert(recovery::undone(b, first.drop_last()) =~= Seq::empty());
        assert forall|x: int, y: int, i: bool, p: int, k: int|
            0 <= x < rest.len() && 0 <= y < rest.len() && recovery::undoes(a, rest[x])
                && recovery::undoes(a, rest[y]) && #[trigger] sets(undo_write(rest[x]), i, p, k)
                && #[trigger] sets(
                undo_write(rest[y]),
                i,
                p,
                k,
            ) implies rest[x].header.txn_id == rest[y].header.txn_id by {
            assert(rest[x] == records[x + 1] && rest[y] == records[y + 1]);
        }
        lemma_last_again(a, b, rest, i, p, k);
        let us1 = undo_writes(recovery::undone(a, rest));
        let vs1 = undo_writes(recovery::undone(b, rest));
        assert(us =~= us1 + undo_writes(recovery::undone(a, first)));
        assert(vs =~= vs1 + undo_writes(recovery::undone(b, first)));
        if recovery::undoes(a, r) {
            assert(recovery::undone(a, first) =~= first);
            assert(us.drop_last() =~= us1);
            assert(us.last() == undo_write(r));
        } else {
            assert(recovery::undone(a, first) =~= Seq::empty());
            assert(us =~= us1);
        }
        if recovery::undoes(b, r) {
            assert(recovery::undone(b, first) =~= first);
            assert(vs.drop_last() =~= vs1);
            assert(vs.last() == undo_write(r));
        } else {
            assert(recovery::undone(b, first) =~= Seq::empty());
            assert(vs =~= vs1);
            if recovery::undoes(a, r) && sets(undo_write(r), i, p, k) && last(
                vs1,
                i,
                p,
                k,
            ) is Some {
                let j = lemma_last_set(vs1, i, p, k);
                let q = recovery::undone(b, rest)[j];
                lemma_undone(b, rest);
                assert(recovery::undoes(b, q) && rest.contains(q));
                let y = choose|y: int| 0 <= y < rest.len() && rest[y] == q;
                assert(records[y + 1] == q);
                assert(sets(undo_write(records[y + 1]), i, p, k));
                assert(sets(undo_write(records[0]), i, p, k));
                assert(recovery::undoes(a, q));
            }
        }
    } else {
        assert(us =~= Seq::empty() && vs =~= Seq::empty());
    }
}

/// A byte that was set was set by one of the writes.
pub proof fn lemma_last_set(ws: Seq<Write>, i: bool, p: int, k: int) -> (j: int)
    requires
        last(ws, i, p, k) is Some,
    ensures
        0 <= j < ws.len(),
        sets(ws[j], i, p, k),
    decreases ws.len(),
{
    if sets(ws.last(), i, p, k) {
        ws.len() - 1
    } else {
        lemma_last_set(ws.drop_last(), i, p, k)
    }
}

/// A crash can strike while the ends of the transactions are being logged: where no two
/// of them changed the same byte, recovery leads to the same files as without the
/// crash, whichever of them have ended according to the log, and whatever had reached
/// the files.
pub proof fn lemma_recover_half_ended(
    d: Disk,
    w: LogView,
    w2: LogView,
    cs: Seq<RecordView>,
    ends: Seq<RecordView>,
    txns: Seq<u64>,
    f: Disk,
)
    requires
        whole(d),
        orderly(w),
        grown_log(
            w,
            w2,
            recovery::undone(recovery::analysis_of(w), wal::records_in(w.durable)),
            cs,
            ends,
            txns,
        ),
        ({
            let records = wal::records_in(w.durable);
            let a = recovery::analysis_of(w);
            let redone = recovery::redo(d, a, records);
            &&& isolated(a, records)
            &&& recovery::replayable(d, a, records)
            &&& recovery::undoable(redone, a, records)
            &&& reached(
                d,
                redo_writes(a, records) + undo_writes(recovery::undone(a, records)),
                f,
            )
        }),
    ensures
        ({
            let records = wal::records_in(w.durable);
            let a = recovery::analysis_of(w);
            let e = recovery::undo(recovery::redo(d, a, records), a, records);
            let records2 = wal::records_in(w2.durable);
            let a2 = recovery::analysis_of(w2);
            recovery::undo(recovery::redo(f, a2, records2), a2, records2) == e
        }),
{
    let records = wal::records_in(w.durable);
    let a = recovery::analysis_of(w);
    let redone = recovery::redo(d, a, records);
    let undone = recovery::undone(a, records);
    let e = recovery::undo(redone, a, records);
    let a2 = recovery::analysis_of(w2);
    let records2 = wal::records_in(w2.durable);
    let rs = redo_writes(a, records);
    let us = undo_writes(undone);
    let more = cs + ends;
    lemma_grown_log(w, w2, undone, cs, ends, txns);
    lemma_grown_writes(w, w2, undone, cs, ends, txns);
    // what was to be done
    lemma_redo_writes(d, a, records);
    lemma_undo_writes(redone, a, records);
    lemma_put_append(d, rs, us);
    // what is redone
    lemma_redo_writes(f, a2, records2);
    lemma_redo_fits(a, records);
    lemma_undone(a, records);
    let all = rs + us;
    assert forall|j: int| 0 <= j < all.len() implies fits(#[trigger] all[j]) by {
        if j < rs.len() {
            assert(all[j] == rs[j]);
        } else {
            let r = undone[j - rs.len()];
            assert(recovery::undoes(a, r) && records.contains(r));
            let i = choose|i: int| 0 <= i < records.len() && records[i] == r;
            assert(recovery::undoes(a, records[i]));
        }
    }
    lemma_put_again(d, all, f);
    assert(recovery::redo(f, a2, records2) == e);
    // what is undone
    assert forall|i: int| 0 <= i < more.len() implies !recovery::undoes(a2, #[trigger] more[i]) by {
        if i < cs.len() {
            assert(more[i] == cs[i]);
            assert(recovery::compensates(cs[i], undone[i]));
        } else {
            assert(more[i] == ends[i - cs.len()]);
            assert(ends[i - cs.len()].header.record_type == RecordType::Abort);
        }
    }
    lemma_none_undone(a2, more);
    recovery::lemma_undo_split(d, a2, records, more);
    let vs = undo_writes(recovery::undone(a2, records));
    assert(recovery::undone(a2, records2) =~= recovery::undone(a2, records));
    lemma_put_all(d, all);
    lemma_put_all(d, rs);
    assert forall|i: int| 0 <= i < records2.len() && recovery::undoes(
        a2,
        #[trigger] records2[i],
    ) implies records2[i].header.page_id < side(e, records2[i].header.is_index).len() by {
        if i < records.len() {
            let s = records2[i].header.is_index;
            assert(records2[i] == records[i]);
            assert(a2.att.contains_key(records[i].header.txn_id));
            assert(recovery::undoes(a, records[i]));
            assert(records[i].header.page_id < side(redone, s).len());
            lemma_extent_append(rs, us, s, side(d, s).len() as int);
            lemma_extent_append(rs, us, s, extent(rs, s, side(d, s).len() as int));
            assert(side(redone, s).len() == extent(rs, s, side(d, s).len() as int));
            assert(side(e, s).len() == extent(all, s, side(d, s).len() as int));
        } else {
            assert(records2[i] == more[i - records.len()]);
        }
    }
    lemma_undo_writes(e, a2, records2);
    assert(recovery::undo(e, a2, records2) == put_all(e, vs));
    lemma_undone(a2, records);
    assert forall|j: int| 0 <= j < vs.len() implies fits(#[trigger] vs[j]) && vs[j].page < side(
        e,
        vs[j].is_index,
    ).len() by {
        let r = recovery::undone(a2, records)[j];
        assert(recovery::undoes(a2, r) && records.contains(r));
        let i = choose|i: int| 0 <= i < records.len() && records[i] == r;
        assert(records2[i] == r);
        assert(a2.att.contains_key(r.header.txn_id));
        assert(recovery::undoes(a, records[i]));
    }
    lemma_put_all(e, vs);
    let g = put_all(e, vs);
    assert forall|i: bool| #[trigger] side(g, i) =~~= side(e, i) by {
        lemma_extent_none(vs, i, side(e, i).len() as int);
        assert(side(g, i).len() == extent(vs, i, side(e, i).len() as int));
        assert forall|p: int| 0 <= p < side(g, i).len() implies side(g, i)[p] =~= side(e, i)[p] by {
            assert(side(g, i)[p].len() == page_size(i));
            assert(side(e, i)[p].len() == page_size(i));
            assert forall|k: int| 0 <= k < page_size(i) implies side(g, i)[p][k] == side(
                e,
                i,
            )[p][k] by {
                lemma_last_again(a, a2, records, i, p, k);
                lemma_last_append(rs, us, i, p, k);
                assert(side(e, i)[p][k] == (match last(all, i, p, k) {
                    Some(v) => v,
                    None => byte(d, i, p, k),
                }));
                assert(side(g, i)[p][k] == (match last(vs, i, p, k) {
                    Some(v) => v,
                    None => byte(e, i, p, k),
                }));
            }
        }
    }
    assert(side(g, true) == g.index && side(g, false) == g.heap);
    assert(side(e, true) == e.index && side(e, false) == e.heap);
}

/// Writes to pages of a file leave its length.
pub proof fn lemma_extent_none(ws: Seq<Write>, i: bool, n: int)
    requires
        forall|j: int|
            0 <= j < ws.len() && (#[trigger] ws[j]).is_index == i ==> ws[j].page < n,
    ensures
        extent(ws, i, n) == n,
    decreases ws.len(),
{
    if ws.len() > 0 {
        assert forall|j: int|
            0 <= j < ws.drop_last().len() && (#[trigger] ws.drop_last()[j]).is_index
                == i implies ws.drop_last()[j].page < n by {
            assert(ws.drop_last()[j] == ws[j]);
        }
        lemma_extent_none(ws.drop_last(), i, n);
        assert(ws[ws.len() - 1] == ws.last());
    }
}

} // verus!
