//! What a checkpoint is good for: recovery that starts from it brings back every page
//! that was not in its file as it stood in memory.

use super::buffer_pool;
use super::error::StorageError;
use super::layout_laws;
use super::logging_laws;
use super::pager;
use super::pager::Pager;
use super::recovery;
use super::recovery::Disk;
use super::recovery_history;
use super::recovery_laws;
use super::restart_laws;
use super::wal;
use super::wal::{LogView, RecordType, RecordView, TxnEntry, Wal};
use super::wal_laws;
use vstd::prelude::*;

verus! {

/// The files as they are stored.
pub open spec fn stored_disk(pager: Pager) -> Disk {
    Disk {
        index: recovery::index_data(pager.index.stored()),
        heap: recovery::heap_data(pager.heap.stored()),
    }
}

/// Whether a page is dirty.
pub open spec fn is_dirty(pager: Pager, i: bool, p: u64) -> bool {
    if i {
        pager.index.dirty().contains(p)
    } else {
        pager.heap.dirty().contains(p)
    }
}

/// The LSN of the first change that a page's file may lack.
pub open spec fn first_lacking(pager: Pager, i: bool, p: u64) -> u64 {
    let lsn = if i {
        pager.index.rec_lsn_of(p)
    } else {
        pager.heap.rec_lsn_of(p)
    };
    match lsn {
        Some(n) => n,
        None => 0,
    }
}

/// Each dirty page is named once, with the LSN of the first change that its file may
/// lack, and no other page is.
proof fn lemma_named(
    pager: Pager,
    index_dpt: Seq<(u64, u64)>,
    heap_dpt: Seq<(u64, u64)>,
    att: Seq<TxnEntry>,
)
    requires
        pager::tables_of(pager, index_dpt, heap_dpt, att),
    ensures
        ({
            let dpt = pager::dirty_entries(true, index_dpt) + pager::dirty_entries(
                false,
                heap_dpt,
            );
            &&& forall|x: int, y: int|
                0 <= x < y < dpt.len() ==> (#[trigger] dpt[x]).is_index != (
                #[trigger] dpt[y]).is_index || dpt[x].page_id != dpt[y].page_id
            &&& forall|x: int|
                0 <= x < dpt.len() ==> is_dirty(
                    pager,
                    (#[trigger] dpt[x]).is_index,
                    dpt[x].page_id,
                ) && dpt[x].rec_lsn == first_lacking(pager, dpt[x].is_index, dpt[x].page_id)
            &&& forall|i: bool, p: u64| #[trigger]
                is_dirty(pager, i, p) ==> exists|x: int|
                    0 <= x < dpt.len() && (#[trigger] dpt[x]).is_index == i && dpt[x].page_id == p
        }),
{
    let a = pager::dirty_entries(true, index_dpt);
    let b = pager::dirty_entries(false, heap_dpt);
    let dpt = a + b;
    let ids = pager::ids_of(index_dpt);
    let hids = pager::ids_of(heap_dpt);
    assert forall|x: int| 0 <= x < dpt.len() implies is_dirty(
        pager,
        (#[trigger] dpt[x]).is_index,
        dpt[x].page_id,
    ) && dpt[x].rec_lsn == first_lacking(pager, dpt[x].is_index, dpt[x].page_id) && (if x
        < index_dpt.len() {
        dpt[x].is_index && dpt[x].page_id == ids[x]
    } else {
        !dpt[x].is_index && dpt[x].page_id == hids[x - index_dpt.len()]
    }) by {
        if x < index_dpt.len() {
            assert(dpt[x] == a[x]);
            assert(index_dpt[x].1 == buffer_pool::lsn_or_zero(
                pager.index.rec_lsn_of(index_dpt[x].0),
            ));
            assert(ids.to_set().contains(ids[x]));
        } else {
            let y = x - index_dpt.len();
            assert(dpt[x] == b[y]);
            assert(heap_dpt[y].1 == buffer_pool::lsn_or_zero(
                pager.heap.rec_lsn_of(heap_dpt[y].0),
            ));
            assert(hids.to_set().contains(hids[y]));
        }
    }
    assert forall|i: bool, p: u64| #[trigger] is_dirty(pager, i, p) implies exists|x: int|
        0 <= x < dpt.len() && (#[trigger] dpt[x]).is_index == i && dpt[x].page_id == p by {
        if i {
            assert(ids.to_set().contains(p));
            let x = choose|x: int| 0 <= x < ids.len() && ids[x] == p;
            assert(dpt[x] == a[x]);
        } else {
            assert(hids.to_set().contains(p));
            let y = choose|y: int| 0 <= y < hids.len() && hids[y] == p;
            assert(dpt[index_dpt.len() + y] == b[y]);
        }
    }
}

/// The log once it is written out behind a checkpoint: it holds what it held before and
/// the checkpoint, at which recovery starts. The checkpoint names the transactions that
/// have not ended, and each dirty page once.
pub proof fn lemma_checkpoint_truthful(
    pager: Pager,
    pager2: Pager,
    index_dpt: Seq<(u64, u64)>,
    heap_dpt: Seq<(u64, u64)>,
    att: Seq<TxnEntry>,
)
    requires
        pager.wf(),
        pager.wal@.has_room(pager.checkpoint_size()),
        pager::checkpointed(pager, pager2, index_dpt, heap_dpt, att),
        restart_laws::rising(wal::records_in(pager.wal@.all())),
        pager.wal@.header.next_lsn > 0,
        forall|i: bool, p: u64| #[trigger]
            is_dirty(pager, i, p) ==> first_lacking(pager, i, p) <= pager.wal@.header.next_lsn,
    ensures
        ({
            let w = pager2.wal@.flush_all();
            let before = wal::records_in(pager.wal@.all());
            let records = wal::records_in(w.durable);
            let at = Some(before.len() as int);
            &&& records.drop_last() == before
            &&& records.len() == before.len() + 1
            &&& records.last().header.record_type == RecordType::Checkpoint
            &&& restart_laws::rising(records)
            &&& restart_laws::checkpoint_at(w, at)
            &&& restart_laws::truthful(w, at)
            &&& forall|x: int|
                0 <= x < before.len() ==> (restart_laws::lacks(w, at, x) <==> is_dirty(
                    pager,
                    (#[trigger] before[x]).header.is_index,
                    before[x].header.page_id,
                ) && first_lacking(pager, before[x].header.is_index, before[x].header.page_id)
                    <= before[x].header.lsn)
        }),
{
    let log = pager.wal@;
    let w = pager2.wal@.flush_all();
    let before = wal::records_in(log.all());
    let c = before.len() as int;
    let at = Some(c);
    let dpt = pager::dirty_entries(true, index_dpt) + pager::dirty_entries(false, heap_dpt);
    let r = wal::next_record(
        log,
        0,
        RecordType::Checkpoint,
        0,
        false,
        0,
        wal::checkpoint_bytes(dpt, att),
    );
    pager.wal.lemma_parts();
    pager.wal.lemma_whole();
    lemma_checkpoint_sized(pager, index_dpt, heap_dpt, att);
    wal_laws::lemma_pushed(log, r);
    let records = wal::records_in(w.durable);
    assert(w.durable == log.push(r).all());
    assert(records == before.push(r));
    assert(records.drop_last() =~= before);
    assert(restart_laws::rising(records)) by {
        assert forall|x: int, y: int| 0 <= x < y < records.len() implies (
        #[trigger] records[x]).header.lsn < (#[trigger] records[y]).header.lsn by {
            assert(records[x] == before[x]);
            if y < c {
                assert(records[y] == before[y]);
            } else {
                assert(before[x].header.lsn < log.header.next_lsn);
            }
        }
    }
    assert(records[c] == r);
    assert(restart_laws::checkpoint_at(w, at));
    assert(restart_laws::named_pages(w, c) == dpt);
    assert(restart_laws::named_txns(w, c) == att);
    lemma_named(pager, index_dpt, heap_dpt, att);
    assert(records.take(c) =~= before);
    wal_laws::lemma_all_records(log);
    assert forall|txn: u64| txn != 0 implies (#[trigger] restart_laws::unfinished(
        records.take(c),
        txn,
    ) <==> exists|j: int|
        0 <= j < restart_laws::named_txns(w, c).len() && (#[trigger] restart_laws::named_txns(
            w,
            c,
        )[j]).txn_id == txn) by {
        restart_laws::lemma_att(recovery::nothing_known(), before, 0, txn);
        assert(pager.active().contains_key(txn) <==> restart_laws::unfinished(before, txn));
        if exists|j: int|
            0 <= j < restart_laws::named_txns(w, c).len() && (#[trigger] restart_laws::named_txns(
                w,
                c,
            )[j]).txn_id == txn {
            let j = choose|j: int|
                0 <= j < restart_laws::named_txns(w, c).len() && (
                #[trigger] restart_laws::named_txns(w, c)[j]).txn_id == txn;
            assert(pager.active().contains_key(att[j].txn_id));
        }
        if pager.active().contains_key(txn) {
            let j = choose|j: int| 0 <= j < att.len() && (#[trigger] att[j]).txn_id == txn;
            assert(restart_laws::named_txns(w, c)[j].txn_id == txn);
        }
    }
    assert(restart_laws::truthful(w, at));
    assert forall|x: int| 0 <= x < before.len() implies (restart_laws::lacks(w, at, x)
        <==> is_dirty(
        pager,
        (#[trigger] before[x]).header.is_index,
        before[x].header.page_id,
    ) && first_lacking(pager, before[x].header.is_index, before[x].header.page_id)
        <= before[x].header.lsn) by {
        assert(records[x] == before[x]);
        let i = before[x].header.is_index;
        let p = before[x].header.page_id;
        if is_dirty(pager, i, p) {
            let j = choose|j: int|
                0 <= j < dpt.len() && (#[trigger] dpt[j]).is_index == i && dpt[j].page_id == p;
            assert(restart_laws::named_pages(w, c)[j].is_index == i);
        }
    }
}

/// A checkpoint record says how long it is.
proof fn lemma_checkpoint_sized(
    pager: Pager,
    index_dpt: Seq<(u64, u64)>,
    heap_dpt: Seq<(u64, u64)>,
    att: Seq<TxnEntry>,
)
    requires
        pager.wal@.has_room(pager.checkpoint_size()),
        pager::tables_of(pager, index_dpt, heap_dpt, att),
    ensures
        wal::checkpoint_bytes(
            pager::dirty_entries(true, index_dpt) + pager::dirty_entries(false, heap_dpt),
            att,
        ).len() == pager.checkpoint_size(),
        wal::checkpoint_bytes(
            pager::dirty_entries(true, index_dpt) + pager::dirty_entries(false, heap_dpt),
            att,
        ).len() <= u32::MAX,
{
    recovery::lemma_lists_len(att, pager.active());
    pager::ids_of(index_dpt).unique_seq_to_set();
    pager::ids_of(heap_dpt).unique_seq_to_set();
    wal::lemma_checkpoint_read_back(
        pager::dirty_entries(true, index_dpt) + pager::dirty_entries(false, heap_dpt),
        att,
    );
}

/// Recovery from the checkpoint knows every page of either file that was dirty, under an
/// LSN no later than that of the first change that its file may lack.
pub proof fn lemma_dirty_known(
    pager: Pager,
    pager2: Pager,
    index_dpt: Seq<(u64, u64)>,
    heap_dpt: Seq<(u64, u64)>,
    att: Seq<TxnEntry>,
    p: u64,
)
    requires
        pager.wf(),
        pager.wal@.has_room(pager.checkpoint_size()),
        pager::checkpointed(pager, pager2, index_dpt, heap_dpt, att),
        restart_laws::rising(wal::records_in(pager.wal@.all())),
        pager.wal@.header.next_lsn > 0,
        forall|i: bool, q: u64| #[trigger]
            is_dirty(pager, i, q) ==> first_lacking(pager, i, q) <= pager.wal@.header.next_lsn,
    ensures
        ({
            let a = recovery::analysis_of(pager2.wal@.flush_all());
            &&& pager.index.dirty().contains(p) ==> a.index.contains_key(p)
                && a.index[p] <= first_lacking(pager, true, p)
            &&& pager.heap.dirty().contains(p) ==> a.heap.contains_key(p)
                && a.heap[p] <= first_lacking(pager, false, p)
        }),
{
    let w = pager2.wal@.flush_all();
    let records = wal::records_in(w.durable);
    let c = records.len() - 1;
    let lsn = w.header.last_checkpoint_lsn;
    let (dpt, named) = wal::checkpoint_of(records[c].payload).unwrap();
    let known = recovery::load_dpt(recovery::nothing_known(), dpt);
    let a0 = recovery::load_att(known, named);
    lemma_checkpoint_truthful(pager, pager2, index_dpt, heap_dpt, att);
    lemma_named(pager, index_dpt, heap_dpt, att);
    assert(wal::checkpoint_of(records[c].payload) == Some((dpt, named)));
    assert(dpt == pager::dirty_entries(true, index_dpt) + pager::dirty_entries(false, heap_dpt))
        by {
        lemma_checkpoint_record(pager, pager2, index_dpt, heap_dpt, att);
    }
    restart_laws::lemma_placed(records, c);
    restart_laws::lemma_split(a0, records, c);
    assert(records.skip(c + 1) =~= Seq::empty());
    assert(recovery::analysis_of(w) == a0);
    restart_laws::lemma_loaded_att(known, named, 0);
    restart_laws::lemma_loaded_dpt(recovery::nothing_known(), dpt, true, p);
    restart_laws::lemma_loaded_dpt(recovery::nothing_known(), dpt, false, p);
    if pager.index.dirty().contains(p) {
        assert(is_dirty(pager, true, p));
        let j = choose|j: int|
            0 <= j < dpt.len() && (#[trigger] dpt[j]).is_index == true && dpt[j].page_id == p;
        assert(restart_laws::pages(known, true).contains_key(p));
    }
    if pager.heap.dirty().contains(p) {
        assert(is_dirty(pager, false, p));
        let j = choose|j: int|
            0 <= j < dpt.len() && (#[trigger] dpt[j]).is_index == false && dpt[j].page_id == p;
        assert(restart_laws::pages(known, false).contains_key(p));
    }
}

/// The last record is the checkpoint.
proof fn lemma_checkpoint_record(
    pager: Pager,
    pager2: Pager,
    index_dpt: Seq<(u64, u64)>,
    heap_dpt: Seq<(u64, u64)>,
    att: Seq<TxnEntry>,
)
    requires
        pager.wf(),
        pager.wal@.has_room(pager.checkpoint_size()),
        pager::checkpointed(pager, pager2, index_dpt, heap_dpt, att),
    ensures
        wal::records_in(pager2.wal@.flush_all().durable).last().payload == wal::checkpoint_bytes(
            pager::dirty_entries(true, index_dpt) + pager::dirty_entries(false, heap_dpt),
            att,
        ),
{
    let dpt = pager::dirty_entries(true, index_dpt) + pager::dirty_entries(false, heap_dpt);
    let log = pager.wal@;
    let r = wal::next_record(
        log,
        0,
        RecordType::Checkpoint,
        0,
        false,
        0,
        wal::checkpoint_bytes(dpt, att),
    );
    pager.wal.lemma_parts();
    lemma_checkpoint_sized(pager, index_dpt, heap_dpt, att);
    wal_laws::lemma_pushed(log, r);
    assert(pager2.wal@.flush_all().durable == log.push(r).all());
}

/// The stored files have whole pages, and a page that is not dirty is there as it is.
proof fn lemma_stored_disk(pager: Pager)
    requires
        pager.wf(),
    ensures
        recovery_laws::whole(stored_disk(pager)),
        recovery_laws::whole(recovery::disk_of(pager)),
        forall|i: bool|
            #[trigger] recovery_laws::side(stored_disk(pager), i).len() == recovery_laws::side(
                recovery::disk_of(pager),
                i,
            ).len(),
        forall|i: bool, p: u64|
            p < recovery_laws::side(recovery::disk_of(pager), i).len() && !#[trigger] is_dirty(
                pager,
                i,
                p,
            ) ==> recovery_laws::side(stored_disk(pager), i)[p as int] == recovery_laws::side(
                recovery::disk_of(pager),
                i,
            )[p as int],
{
    pager.index.lemma_stored();
    pager.heap.lemma_stored();
    let f = stored_disk(pager);
    let d = recovery::disk_of(pager);
    assert forall|i: bool, p: int| 0 <= p < recovery_laws::side(f, i).len() implies (
    #[trigger] recovery_laws::side(f, i)[p]).len() == recovery_laws::page_size(i) by {
        if i {
            assert(f.index[p] == pager.index.stored()[p].data@);
        } else {
            assert(f.heap[p] == pager.heap.stored()[p].data@);
        }
    }
    assert forall|i: bool, p: int| 0 <= p < recovery_laws::side(d, i).len() implies (
    #[trigger] recovery_laws::side(d, i)[p]).len() == recovery_laws::page_size(i) by {
        if i {
            assert(d.index[p] == pager.index@[p].data@);
        } else {
            assert(d.heap[p] == pager.heap@[p].data@);
        }
    }
    assert forall|i: bool, p: u64|
        p < recovery_laws::side(d, i).len() && !#[trigger] is_dirty(
            pager,
            i,
            p,
        ) implies recovery_laws::side(f, i)[p as int] == recovery_laws::side(d, i)[p as int] by {
        if i {
            assert(!pager.index.dirty().contains(p));
            assert(f.index[p as int] == pager.index.stored()[p as int].data@);
        } else {
            assert(!pager.heap.dirty().contains(p));
            assert(f.heap[p as int] == pager.heap.stored()[p as int].data@);
        }
    }
}

/// After a checkpoint, with the log written out, recovery of the files as they are stored
/// gives back each byte that the pages had in memory, on a page of either file, dirty or
/// not; but for bytes that a transaction changed which has not ended. The pages in memory
/// have the changes of the log, and the files of dirty pages lack none that came before
/// the first one that they are said to lack.
pub proof fn lemma_checkpoint_restart(
    pager: Pager,
    pager2: Pager,
    index_dpt: Seq<(u64, u64)>,
    heap_dpt: Seq<(u64, u64)>,
    att: Seq<TxnEntry>,
    i: bool,
    p: u64,
    k: int,
)
    requires
        pager.wf(),
        pager.wal@.has_room(pager.checkpoint_size()),
        pager::checkpointed(pager, pager2, index_dpt, heap_dpt, att),
        restart_laws::rising(wal::records_in(pager.wal@.all())),
        pager.wal@.header.next_lsn > 0,
        forall|j: bool, q: u64| #[trigger]
            is_dirty(pager, j, q) ==> first_lacking(pager, j, q) <= pager.wal@.header.next_lsn,
        ({
            let f = stored_disk(pager);
            let w = pager2.wal@.flush_all();
            let a = recovery::analysis_of(w);
            let records = wal::records_in(w.durable);
            &&& recovery::replayable(f, a, records)
            &&& recovery::undoable(recovery::redo(f, a, records), a, records)
        }),
        ({
            let now = recovery::disk_of(pager);
            let f = stored_disk(pager);
            let records = wal::records_in(pager.wal@.all());
            &&& p < recovery_laws::side(now, i).len()
            &&& 0 <= k < recovery_laws::page_size(i)
            // nobody changed the byte who has not ended
            &&& forall|x: int|
                0 <= x < records.len() && #[trigger] restart_laws::recalls(
                    records[x],
                    i,
                    p as int,
                    k,
                ) ==> !restart_laws::unfinished(records, records[x].header.txn_id)
            // the byte in memory is what the last change set it to
            &&& forall|x: int|
                0 <= x < records.len() && #[trigger] restart_laws::changes(
                    records[x],
                    i,
                    p as int,
                    k,
                ) && (forall|y: int|
                    x < y < records.len() ==> !restart_laws::changes(
                        #[trigger] records[y],
                        i,
                        p as int,
                        k,
                    )) ==> recovery_laws::side(now, i)[p as int][k] == restart_laws::new_byte(
                    records[x],
                    k,
                )
            // and in the file too, unless a change came since the file may lack some
            &&& is_dirty(pager, i, p) && (forall|x: int|
                0 <= x < records.len() && #[trigger] restart_laws::changes(
                    records[x],
                    i,
                    p as int,
                    k,
                ) ==> records[x].header.lsn < first_lacking(pager, i, p)) ==> recovery_laws::side(
                f,
                i,
            )[p as int][k] == recovery_laws::side(now, i)[p as int][k]
        }),
    ensures
        ({
            let f = stored_disk(pager);
            let w = pager2.wal@.flush_all();
            let a = recovery::analysis_of(w);
            let records = wal::records_in(w.durable);
            let e = recovery::undo(recovery::redo(f, a, records), a, records);
            &&& p < recovery_laws::side(e, i).len()
            &&& recovery_laws::side(e, i)[p as int][k] == recovery_laws::side(
                recovery::disk_of(pager),
                i,
            )[p as int][k]
        }),
{
    let f = stored_disk(pager);
    let now = recovery::disk_of(pager);
    let w = pager2.wal@.flush_all();
    let before = wal::records_in(pager.wal@.all());
    let records = wal::records_in(w.durable);
    let c = before.len() as int;
    let at = Some(c);
    let q = p as int;
    lemma_stored_disk(pager);
    lemma_checkpoint_truthful(pager, pager2, index_dpt, heap_dpt, att);
    assert forall|x: int| 0 <= x < c implies #[trigger] records[x] == before[x] by {
        assert(records.drop_last()[x] == records[x]);
    }
    assert(records[c] == records.last());
    assert forall|x: int|
        0 <= x < records.len() && #[trigger] restart_laws::recalls(
            records[x],
            i,
            q,
            k,
        ) implies !restart_laws::unfinished(records, records[x].header.txn_id) by {
        let txn = records[x].header.txn_id;
        assert(restart_laws::recalls(before[x], i, q, k));
        if restart_laws::unfinished(records, txn) {
            let y = choose|y: int|
                0 <= y < records.len() && #[trigger] restart_laws::works(records[y], txn)
                    && forall|z: int|
                    y < z < records.len() ==> !restart_laws::ends(#[trigger] records[z], txn);
            assert(restart_laws::works(before[y], txn));
            assert forall|z: int| y < z < before.len() implies !restart_laws::ends(
                #[trigger] before[z],
                txn,
            ) by {
                assert(records[z] == before[z]);
            }
            assert(restart_laws::unfinished(before, txn));
        }
    }
    restart_laws::lemma_brought_back(f, w, at, i, q, k);
    restart_laws::lemma_pages_after(f, w, at, i);
    assert(recovery_laws::side(f, i).len() == recovery_laws::side(now, i).len());
    if exists|x: int|
        0 <= x < before.len() && restart_laws::changes(#[trigger] before[x], i, q, k)
            && restart_laws::lacks(w, at, x) {
        let x = choose|x: int|
            0 <= x < before.len() && restart_laws::changes(#[trigger] before[x], i, q, k)
                && restart_laws::lacks(w, at, x);
        let y = lemma_last_change(before, x, i, q, k);
        assert(records[y] == before[y] && records[x] == before[x]);
        assert(restart_laws::changes(records[y], i, q, k));
        assert(restart_laws::lacks(w, at, y)) by {
            if x < y {
                assert(before[x].header.lsn < before[y].header.lsn);
            }
        }
        assert forall|z: int| y < z < records.len() implies !restart_laws::changes(
            #[trigger] records[z],
            i,
            q,
            k,
        ) by {
            if z < c {
                assert(records[z] == before[z]);
            }
        }
        assert(restart_laws::changes(before[y], i, q, k));
    } else {
        assert forall|x: int|
            0 <= x < records.len() && #[trigger] restart_laws::changes(
                records[x],
                i,
                q,
                k,
            ) implies !restart_laws::lacks(w, at, x) by {
            assert(records[x] == before[x]);
        }
        if is_dirty(pager, i, p) {
            assert forall|x: int|
                0 <= x < before.len() && #[trigger] restart_laws::changes(
                    before[x],
                    i,
                    q,
                    k,
                ) implies before[x].header.lsn < first_lacking(pager, i, p) by {
                assert(!restart_laws::lacks(w, at, x));
            }
        }
    }
}

/// The last change of a byte.
proof fn lemma_last_change(
    records: Seq<RecordView>,
    x: int,
    i: bool,
    p: int,
    k: int,
) -> (y: int)
    requires
        0 <= x < records.len(),
        restart_laws::changes(records[x], i, p, k),
    ensures
        x <= y < records.len(),
        restart_laws::changes(records[y], i, p, k),
        forall|z: int|
            y < z < records.len() ==> !restart_laws::changes(#[trigger] records[z], i, p, k),
    decreases records.len() - x,
{
    if exists|z: int|
        x < z < records.len() && restart_laws::changes(#[trigger] records[z], i, p, k) {
        let z = choose|z: int|
            x < z < records.len() && restart_laws::changes(#[trigger] records[z], i, p, k);
        lemma_last_change(records, z, i, p, k)
    } else {
        x
    }
}

/// The files of dirty pages lack no change that came before the first one that they are
/// said to lack: a byte that no later change set is stored as it is in memory.
pub open spec fn lacks_no_more(pager: Pager) -> bool {
    let records = wal::records_in(pager.wal@.all());
    let now = recovery::disk_of(pager);
    let f = stored_disk(pager);
    forall|i: bool, p: u64, k: int|
        #![trigger recovery_laws::byte(f, i, p as int, k)]
        is_dirty(pager, i, p) && p < recovery_laws::side(now, i).len() && 0 <= k
            < recovery_laws::page_size(i) && (forall|x: int|
            0 <= x < records.len() && #[trigger] restart_laws::changes(records[x], i, p as int, k)
                ==> records[x].header.lsn < first_lacking(pager, i, p)) ==> recovery_laws::byte(
            f,
            i,
            p as int,
            k,
        ) == recovery_laws::byte(now, i, p as int, k)
}

/// The pages in memory are those that all changes of the log give, from files `d` on, and
/// the stored files lack no more than is said of them.
pub open spec fn all_logged(d: Disk, pager: Pager) -> bool {
    &&& recovery_history::history(d, wal::records_in(pager.wal@.all())) == recovery::disk_of(pager)
    &&& lacks_no_more(pager)
    &&& restart_laws::rising(wal::records_in(pager.wal@.all()))
    &&& restart_laws::on_pages(wal::records_in(pager.wal@.all()))
    &&& forall|i: bool, p: u64| #[trigger]
        is_dirty(pager, i, p) ==> first_lacking(pager, i, p) <= pager.wal@.header.next_lsn
}

/// The files as they are stored at a checkpoint are such as recovery needs them: it makes
/// every change again that has not reached them.
pub proof fn lemma_checkpoint_at_crash(
    d: Disk,
    pager: Pager,
    pager2: Pager,
    index_dpt: Seq<(u64, u64)>,
    heap_dpt: Seq<(u64, u64)>,
    att: Seq<TxnEntry>,
)
    requires
        pager.wf(),
        pager.wal@.has_room(pager.checkpoint_size()),
        pager::checkpointed(pager, pager2, index_dpt, heap_dpt, att),
        pager.wal@.header.next_lsn > 0,
        recovery_laws::whole(d),
        all_logged(d, pager),
    ensures
        ({
            let w = pager2.wal@.flush_all();
            let records = wal::records_in(w.durable);
            &&& recovery_history::at_crash(
                d,
                recovery::analysis_of(w),
                records,
                stored_disk(pager),
            )
            &&& recovery_history::all_fit(records)
            &&& recovery_history::in_order(records)
            &&& recovery::redo(stored_disk(pager), recovery::analysis_of(w), records)
                == recovery::disk_of(pager)
        }),
{
    let f = stored_disk(pager);
    let w = pager2.wal@.flush_all();
    let a = recovery::analysis_of(w);
    let before = wal::records_in(pager.wal@.all());
    let records = wal::records_in(w.durable);
    let c = before.len() as int;
    let at = Some(c);
    let all = recovery_history::everything();
    let ws = recovery_laws::redo_writes(a, records);
    let h = recovery_history::history(d, records);
    lemma_stored_disk(pager);
    lemma_checkpoint_truthful(pager, pager2, index_dpt, heap_dpt, att);
    assert forall|x: int| 0 <= x < c implies #[trigger] records[x] == before[x] by {
        assert(records.drop_last()[x] == records[x]);
    }
    assert(records[c] == records.last());
    assert(h == recovery_history::history(d, before));
    assert forall|x: int|
        0 <= x < records.len() && recovery::redoes(
            all,
            #[trigger] records[x],
        ) implies recovery_laws::fits(recovery_laws::redo_write(records[x]))
        && recovery_laws::fits(recovery_laws::undo_write(records[x])) by {
        assert(restart_laws::tells(before[x]));
    }
    assert(recovery_history::all_fit(records));
    assert forall|x: int| 0 <= x < records.len() && recovery::redoes(
        a,
        #[trigger] records[x],
    ) implies recovery::redoes(all, records[x]) by {}
    recovery_laws::lemma_redo_writes(d, all, records);
    recovery_history::lemma_all_fit(all, records);
    recovery_laws::lemma_put_all(d, recovery_laws::redo_writes(all, records));
    assert forall|i: bool|
        recovery_laws::extent(
            ws,
            i,
            #[trigger] recovery_laws::side(f, i).len() as int,
        ) == recovery_laws::side(h, i).len() by {
        let n = recovery_laws::side(f, i).len() as int;
        assert(n == recovery_laws::side(h, i).len());
        restart_laws::lemma_grown_by(a, records, i, n);
        if recovery_laws::extent(ws, i, n) > n {
            let x = choose|x: int|
                0 <= x < records.len() && recovery::redoes(a, #[trigger] records[x])
                    && records[x].header.is_index == i && records[x].header.page_id + 1
                    == recovery_laws::extent(ws, i, n);
            assert(recovery::redoes(all, records[x]));
            recovery_history::lemma_in_extent(
                records,
                x,
                i,
                recovery_laws::side(d, i).len() as int,
            );
            assert(recovery_laws::side(h, i).len() == recovery_laws::extent(
                recovery_laws::redo_writes(all, records),
                i,
                recovery_laws::side(d, i).len() as int,
            ));
        }
    }
    assert forall|i: bool, p: int, k: int|
        0 <= p < recovery_laws::side(h, i).len() && 0 <= k < recovery_laws::page_size(i)
            && recovery_laws::last(ws, i, p, k) is None implies #[trigger] recovery_laws::byte(
        f,
        i,
        p,
        k,
    ) == recovery_laws::byte(h, i, p, k) by {
        assert(recovery_laws::side(f, i).len() == recovery_laws::side(h, i).len());
        assert(recovery_laws::side(h, i).len() <= u64::MAX) by {
            lemma_few_pages(pager);
        }
        let q = p as u64;
        assert(q == p);
        if is_dirty(pager, i, q) {
            assert forall|x: int|
                0 <= x < before.len() && #[trigger] restart_laws::changes(
                    before[x],
                    i,
                    p,
                    k,
                ) implies before[x].header.lsn < first_lacking(pager, i, q) by {
                assert(records[x] == before[x]);
                restart_laws::lemma_lacking(w, at, x);
                if recovery::redoes(a, records[x]) {
                    restart_laws::lemma_redone_sets(a, records, x, i, p, k);
                }
                assert(!restart_laws::lacks(w, at, x));
            }
            assert(recovery_laws::byte(f, i, q as int, k) == recovery_laws::byte(h, i, q as int,
                k));
        }
    }
    assert(recovery_history::in_order(records));
    recovery_history::lemma_history_repeated(d, a, records, f);
}

/// Page ids are enough for all pages.
proof fn lemma_few_pages(pager: Pager)
    requires
        pager.wf(),
    ensures
        forall|i: bool| (#[trigger] recovery_laws::side(recovery::disk_of(pager), i)).len()
            <= u64::MAX,
{
    pager.index.lemma_len();
    pager.heap.lemma_len();
}

/// Recovery from a checkpoint gives each byte what the changes of the log have left in it,
/// but for those of transactions that have not ended. The log holds the bytes that were
/// there before, and nobody changed a byte behind a transaction that had not ended.
pub proof fn lemma_checkpoint_atomic(
    d: Disk,
    pager: Pager,
    pager2: Pager,
    index_dpt: Seq<(u64, u64)>,
    heap_dpt: Seq<(u64, u64)>,
    att: Seq<TxnEntry>,
    i: bool,
    p: int,
    k: int,
)
    requires
        pager.wf(),
        pager.wal@.has_room(pager.checkpoint_size()),
        pager::checkpointed(pager, pager2, index_dpt, heap_dpt, att),
        pager.wal@.header.next_lsn > 0,
        recovery_laws::whole(d),
        all_logged(d, pager),
        ({
            let w = pager2.wal@.flush_all();
            let a = recovery::analysis_of(w);
            let records = wal::records_in(w.durable);
            &&& recovery_history::undo_known(d, a, records)
            &&& recovery_history::locked(a, records)
        }),
        0 <= p < recovery_laws::side(recovery::disk_of(pager), i).len(),
        0 <= k < recovery_laws::page_size(i),
    ensures
        ({
            let w = pager2.wal@.flush_all();
            let a = recovery::analysis_of(w);
            let records = wal::records_in(w.durable);
            let e = recovery::undo(recovery::redo(stored_disk(pager), a, records), a, records);
            recovery_laws::side(e, i)[p][k] == (match recovery_laws::last(
                recovery_history::kept_writes(a, records),
                i,
                p,
                k,
            ) {
                Some(v) => v,
                None => recovery_laws::byte(d, i, p, k),
            })
        }),
{
    let w = pager2.wal@.flush_all();
    let a = recovery::analysis_of(w);
    let records = wal::records_in(w.durable);
    lemma_checkpoint_at_crash(d, pager, pager2, index_dpt, heap_dpt, att);
    assert(recovery_history::history(d, records) == recovery::disk_of(pager)) by {
        recovery_history::lemma_history_repeated(d, a, records, stored_disk(pager));
    }
    recovery_history::lemma_atomic(d, a, records, stored_disk(pager), i, p, k);
}

/// A log goes up in its LSNs when records are appended to it.
pub proof fn lemma_rising_appended(log: Wal, r: RecordView)
    requires
        log.wf(),
        r.sized(),
        r.header.lsn == log@.header.next_lsn,
        log@.header.next_lsn < u64::MAX,
        restart_laws::rising(wal::records_in(log@.all())),
    ensures
        restart_laws::rising(wal::records_in(log@.push(r).all())),
{
    let before = wal::records_in(log@.all());
    let now = wal::records_in(log@.push(r).all());
    log.lemma_parts();
    log.lemma_whole();
    wal_laws::lemma_pushed(log@, r);
    assert forall|x: int, y: int| 0 <= x < y < now.len() implies (#[trigger] now[x]).header.lsn < (
    #[trigger] now[y]).header.lsn by {
        assert(now[x] == before[x]);
        if y < before.len() {
            assert(now[y] == before[y]);
        }
    }
}

/// Where no page is dirty and the log is empty, all changes are logged.
pub proof fn lemma_all_logged_first(pager: Pager)
    requires
        wal::records_in(pager.wal@.all()).len() == 0,
        forall|i: bool, p: u64| !(#[trigger] is_dirty(pager, i, p)),
    ensures
        all_logged(recovery::disk_of(pager), pager),
{
    let records = wal::records_in(pager.wal@.all());
    assert(recovery_history::history(recovery::disk_of(pager), records) == recovery::disk_of(
        pager,
    ));
}

/// A change of a page that is logged keeps it so that all changes are logged: the page is
/// dirty then, and lacks in its file what it lacked before, or this change at least.
pub proof fn lemma_all_logged_kept(
    d: Disk,
    before: Pager,
    now: Pager,
    txn: u64,
    i: bool,
    p: u64,
    new: Seq<u8>,
    r: Result<Option<u64>, StorageError>,
)
    requires
        before.wf(),
        recovery_laws::whole(d),
        all_logged(d, before),
        txn != 0,
        before.wal@.header.next_lsn < u64::MAX,
        p < recovery_laws::side(recovery::disk_of(before), i).len(),
        ({
            let old = recovery_laws::side(recovery::disk_of(before), i)[p as int];
            &&& new.len() == old.len()
            &&& new != old
            &&& pager::diff_logged(before.wal@, now.wal@, txn, p, i, old, new, r)
        }),
        recovery_laws::side(recovery::disk_of(now), i) == recovery_laws::side(
            recovery::disk_of(before),
            i,
        ).update(p as int, new),
        recovery_laws::side(recovery::disk_of(now), !i) == recovery_laws::side(
            recovery::disk_of(before),
            !i,
        ),
        stored_disk(now) == stored_disk(before),
        is_dirty(now, i, p),
        first_lacking(now, i, p) == (if is_dirty(before, i, p) {
            first_lacking(before, i, p)
        } else {
            before.wal@.header.next_lsn
        }),
        forall|j: bool, q: u64|
            !(j == i && q == p) ==> (#[trigger] is_dirty(now, j, q) <==> is_dirty(before, j, q))
                && first_lacking(now, j, q) == first_lacking(before, j, q),
    ensures
        all_logged(d, now),
{
    let records = wal::records_in(before.wal@.all());
    let more = wal::records_in(now.wal@.all());
    let c = more.last();
    let b = recovery::disk_of(before);
    let e = recovery::disk_of(now);
    let f = stored_disk(before);
    let old = recovery_laws::side(b, i)[p as int];
    let all = recovery_history::everything();
    lemma_stored_disk(before);
    before.wal.lemma_parts();
    before.wal.lemma_whole();
    assert(old.len() == recovery_laws::page_size(i));
    logging_laws::lemma_difference_logged(before.wal@, now.wal@, txn, p, i, old, new, r);
    assert(more.drop_last() =~= records);
    assert(exists|k: int| 0 <= k < old.len() && #[trigger] old[k] != new[k]) by {
        if forall|k: int| 0 <= k < old.len() ==> #[trigger] old[k] == new[k] {
            assert(old =~= new);
        }
    }
    let (start, end) = choose|start: int, end: int| #[trigger]
        pager::logged_between(before.wal@, now.wal@, txn, p, i, old, new, start, end);
    lemma_logged_bytes(before.wal, now.wal@, txn, p, i, old, new, start, end);
    // the pages in memory
    assert(recovery::redoes(all, c));
    pager::lemma_diff(old, new, start, end);
    assert(recovery_history::history(d, more) == recovery::redo_one(b, all, c));
    let grown = recovery::grow(
        recovery_laws::side(b, i),
        p + 1,
        recovery_laws::page_size(i),
    );
    assert(grown =~= recovery_laws::side(b, i));
    assert(recovery::redo_one(b, all, c) =~= e);
    // the records
    assert forall|x: int, y: int| 0 <= x < y < more.len() implies (#[trigger] more[x]).header.lsn
        < (#[trigger] more[y]).header.lsn by {
        assert(more[x] == records[x]);
        if y < records.len() {
            assert(more[y] == records[y]);
        }
    }
    assert forall|x: int| 0 <= x < more.len() && restart_laws::tells(
        #[trigger] more[x],
    ) implies {
        let r = more[x];
        let (undo, redo) = wal::update_of(r.payload).unwrap();
        let size = recovery_laws::page_size(r.header.is_index);
        &&& r.header.payload_page_offset + undo.len() <= size
        &&& r.header.payload_page_offset + redo.len() <= size
    } by {
        if x < records.len() {
            assert(more[x] == records[x]);
        }
    }
    // the files
    assert(now.wal@.header.next_lsn >= before.wal@.header.next_lsn);
    assert forall|j: bool, q: u64| #[trigger] is_dirty(now, j, q) implies first_lacking(now, j, q)
        <= now.wal@.header.next_lsn by {
        if !(j == i && q == p) {
            assert(is_dirty(before, j, q));
        }
    }
    assert forall|j: bool, q: u64, k: int|
        #![trigger recovery_laws::byte(f, j, q as int, k)]
        is_dirty(now, j, q) && q < recovery_laws::side(e, j).len() && 0 <= k
            < recovery_laws::page_size(j) && (forall|x: int|
            0 <= x < more.len() && #[trigger] restart_laws::changes(more[x], j, q as int, k)
                ==> more[x].header.lsn < first_lacking(now, j, q)) implies recovery_laws::byte(
        f,
        j,
        q as int,
        k,
    ) == recovery_laws::byte(e, j, q as int, k) by {
        assert forall|x: int|
            0 <= x < records.len() && #[trigger] restart_laws::changes(
                records[x],
                j,
                q as int,
                k,
            ) implies records[x].header.lsn < first_lacking(now, j, q) by {
            assert(restart_laws::changes(more[x], j, q as int, k));
        }
        assert(recovery_laws::side(f, j).len() == recovery_laws::side(b, j).len());
        if j == i && q == p {
            if restart_laws::changes(c, i, p as int, k) {
                assert(restart_laws::changes(more[records.len() as int], j, q as int, k));
                assert(first_lacking(now, i, p) <= c.header.lsn) by {
                    if is_dirty(before, i, p) {
                        assert(first_lacking(before, i, p) <= before.wal@.header.next_lsn);
                    }
                }
            }
            assert(old[k] == new[k]);
            if is_dirty(before, i, p) {
                assert(recovery_laws::byte(f, j, q as int, k) == recovery_laws::byte(
                    b,
                    j,
                    q as int,
                    k,
                ));
            }
        } else {
            assert(is_dirty(before, j, q));
            assert(recovery_laws::byte(f, j, q as int, k) == recovery_laws::byte(
                b,
                j,
                q as int,
                k,
            ));
        }
    }
}

/// What the record of a difference holds.
proof fn lemma_logged_bytes(
    log: Wal,
    log2: LogView,
    txn: u64,
    p: u64,
    i: bool,
    old: Seq<u8>,
    new: Seq<u8>,
    start: int,
    end: int,
)
    requires
        log.wf(),
        log@.header.next_lsn < u64::MAX,
        old.len() == new.len(),
        old.len() <= recovery_laws::page_size(i),
        pager::logged_between(log@, log2, txn, p, i, old, new, start, end),
    ensures
        ({
            let c = wal::records_in(log2.all()).last();
            &&& c.header.record_type == RecordType::Update
            &&& c.header.is_index == i && c.header.page_id == p
            &&& c.header.payload_page_offset == start
            &&& wal::update_of(c.payload) == Some(
                (old.subrange(start, end), new.subrange(start, end)),
            )
            &&& log2.header.next_lsn == log@.header.next_lsn + 1
        }),
{
    let undo = old.subrange(start, end);
    let redo = new.subrange(start, end);
    log.lemma_parts();
    wal::lemma_update_read_back(undo, redo);
    layout_laws::lemma_sized(undo);
    layout_laws::lemma_sized(redo);
    assert(wal::short_len(start as nat) == start);
    let r = wal::next_record(
        log@,
        txn,
        RecordType::Update,
        p,
        i,
        start as u16,
        wal::sized(undo) + wal::sized(redo),
    );
    wal_laws::lemma_pushed(log@, r);
}

} // verus!
