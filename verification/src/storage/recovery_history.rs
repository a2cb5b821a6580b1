//! What recovery brings back: the changes that the log has, but for those of the
//! transactions that are rolled back.

use super::recovery;
use super::recovery::{Analysis, Disk};
use super::recovery_laws;
use super::recovery_laws::Write;
use super::wal;
use super::wal::RecordView;
use vstd::prelude::*;

verus! {

/// Every page may lack every change.
pub open spec fn everything() -> Analysis {
    Analysis {
        index: Map::new(|p: u64| true, |p: u64| 0u64),
        heap: Map::new(|p: u64| true, |p: u64| 0u64),
        att: Map::empty(),
    }
}

/// The files after all changes that some records are about.
pub open spec fn history(d: Disk, records: Seq<RecordView>) -> Disk {
    recovery::redo(d, everything(), records)
}

/// The changes that are not rolled back.
pub open spec fn kept_writes(a: Analysis, records: Seq<RecordView>) -> Seq<Write>
    decreases records.len(),
{
    if records.len() == 0 {
        Seq::empty()
    } else {
        let init = kept_writes(a, records.drop_last());
        let r = records.last();
        if recovery::redoes(everything(), r) && !recovery::undoes(a, r) {
            init.push(recovery_laws::redo_write(r))
        } else {
            init
        }
    }
}

/// The records are in the order of their LSNs.
pub open spec fn in_order(records: Seq<RecordView>) -> bool {
    forall|x: int, y: int|
        0 <= x < y < records.len() ==> (#[trigger] records[x]).header.lsn <= (
        #[trigger] records[y]).header.lsn
}

/// All changes lie on their pages.
pub open spec fn all_fit(records: Seq<RecordView>) -> bool {
    forall|x: int|
        0 <= x < records.len() && recovery::redoes(everything(), #[trigger] records[x])
            ==> recovery_laws::fits(recovery_laws::redo_write(records[x]))
            && recovery_laws::fits(recovery_laws::undo_write(records[x]))
}

/// The files at a crash: what is not redone has reached them.
pub open spec fn at_crash(d: Disk, a: Analysis, records: Seq<RecordView>, f: Disk) -> bool {
    let h = history(d, records);
    let ws = recovery_laws::redo_writes(a, records);
    &&& recovery_laws::whole(f)
    &&& forall|i: bool|
        recovery_laws::extent(
            ws,
            i,
            #[trigger] recovery_laws::side(f, i).len() as int,
        ) == recovery_laws::side(h, i).len()
    &&& forall|i: bool, p: int, k: int|
        0 <= p < recovery_laws::side(h, i).len() && 0 <= k < recovery_laws::page_size(i)
            && recovery_laws::last(ws, i, p, k) is None ==> #[trigger] recovery_laws::byte(
            f,
            i,
            p,
            k,
        ) == recovery_laws::byte(h, i, p, k)
}

/// The bytes that a rolled back change replaced are in its record.
pub open spec fn undo_known(d: Disk, a: Analysis, records: Seq<RecordView>) -> bool {
    forall|x: int, i: bool, p: int, k: int|
        #![trigger recovery_laws::sets(recovery_laws::undo_write(records[x]), i, p, k)]
        0 <= x < records.len() && recovery::undoes(a, records[x]) ==> {
            let w = recovery_laws::undo_write(records[x]);
            &&& recovery_laws::sets(w, i, p, k) == recovery_laws::sets(
                recovery_laws::redo_write(records[x]),
                i,
                p,
                k,
            )
            &&& recovery_laws::sets(w, i, p, k) ==> w.data[k - w.offset] == recovery_laws::byte(
                history(d, records.take(x)),
                i,
                p,
                k,
            )
        }
}

/// Nobody else changes a byte that a transaction has changed which is rolled back.
pub open spec fn locked(a: Analysis, records: Seq<RecordView>) -> bool {
    forall|x: int, y: int, i: bool, p: int, k: int|
        0 <= x < y < records.len() && recovery::undoes(a, records[x]) && recovery::redoes(
            everything(),
            records[y],
        ) && !recovery::undoes(a, records[y]) && #[trigger] recovery_laws::sets(
            recovery_laws::undo_write(records[x]),
            i,
            p,
            k,
        ) ==> !#[trigger] recovery_laws::sets(recovery_laws::redo_write(records[y]), i, p, k)
}

/// A byte that was redone was set by a record that is redone.
pub proof fn lemma_redone_by(
    a: Analysis,
    records: Seq<RecordView>,
    i: bool,
    p: int,
    k: int,
) -> (x: int)
    requires
        recovery_laws::last(recovery_laws::redo_writes(a, records), i, p, k) is Some,
    ensures
        0 <= x < records.len(),
        recovery::redoes(a, records[x]),
        recovery_laws::sets(recovery_laws::redo_write(records[x]), i, p, k),
    decreases records.len(),
{
    let ws = recovery_laws::redo_writes(a, records);
    if records.len() == 0 {
        0
    } else if recovery::redoes(a, records.last()) && recovery_laws::sets(
        recovery_laws::redo_write(records.last()),
        i,
        p,
        k,
    ) {
        records.len() - 1
    } else {
        if recovery::redoes(a, records.last()) {
            assert(ws.drop_last() =~= recovery_laws::redo_writes(a, records.drop_last()));
        }
        lemma_redone_by(a, records.drop_last(), i, p, k)
    }
}

/// A byte that was undone was set by a record that is undone.
pub proof fn lemma_undone_by(
    a: Analysis,
    records: Seq<RecordView>,
    i: bool,
    p: int,
    k: int,
) -> (x: int)
    requires
        recovery_laws::last(
            recovery_laws::undo_writes(recovery::undone(a, records)),
            i,
            p,
            k,
        ) is Some,
    ensures
        0 <= x < records.len(),
        recovery::undoes(a, records[x]),
        recovery_laws::sets(recovery_laws::undo_write(records[x]), i, p, k),
{
    let us = recovery_laws::undo_writes(recovery::undone(a, records));
    let j = recovery_laws::lemma_last_set(us, i, p, k);
    let r = recovery::undone(a, records)[j];
    recovery_laws::lemma_undone(a, records);
    assert(recovery::undoes(a, r) && records.contains(r));
    choose|x: int| 0 <= x < records.len() && records[x] == r
}

/// What redo sets a byte to is what the last change set it to.
proof fn lemma_redo_last(a: Analysis, records: Seq<RecordView>, i: bool, p: int, k: int)
    requires
        in_order(records),
    ensures
        ({
            let redone = recovery_laws::last(recovery_laws::redo_writes(a, records), i, p, k);
            let all = recovery_laws::last(
                recovery_laws::redo_writes(everything(), records),
                i,
                p,
                k,
            );
            redone is None || redone == all
        }),
    decreases records.len(),
{
    if records.len() > 0 {
        let init = records.drop_last();
        let r = records.last();
        let ws = recovery_laws::redo_writes(a, records);
        let vs = recovery_laws::redo_writes(everything(), records);
        assert forall|x: int, y: int| 0 <= x < y < init.len() implies (
        #[trigger] init[x]).header.lsn <= (#[trigger] init[y]).header.lsn by {
            assert(init[x] == records[x] && init[y] == records[y]);
        }
        lemma_redo_last(a, init, i, p, k);
        if recovery::redoes(everything(), r) {
            assert(vs.drop_last() =~= recovery_laws::redo_writes(everything(), init));
        }
        if recovery::redoes(a, r) {
            assert(ws.drop_last() =~= recovery_laws::redo_writes(a, init));
            assert(recovery::redoes(everything(), r));
        } else if recovery::redoes(everything(), r) && recovery_laws::sets(
            recovery_laws::redo_write(r),
            i,
            p,
            k,
        ) && recovery_laws::last(ws, i, p, k) is Some {
            let x = lemma_redone_by(a, init, i, p, k);
            assert(init[x] == records[x]);
            assert(records[x].header.lsn <= records[records.len() - 1].header.lsn);
        }
    }
}

/// Redo repeats history: whatever of the changes that are redone had reached the files
/// before a crash, they have all changes of the log then.
pub proof fn lemma_history_repeated(d: Disk, a: Analysis, records: Seq<RecordView>, f: Disk)
    requires
        recovery_laws::whole(d),
        in_order(records),
        all_fit(records),
        at_crash(d, a, records, f),
    ensures
        recovery::redo(f, a, records) == history(d, records),
{
    let h = history(d, records);
    let g = recovery::redo(f, a, records);
    let ws = recovery_laws::redo_writes(a, records);
    let vs = recovery_laws::redo_writes(everything(), records);
    recovery_laws::lemma_redo_writes(f, a, records);
    recovery_laws::lemma_redo_writes(d, everything(), records);
    lemma_all_fit(a, records);
    lemma_all_fit(everything(), records);
    recovery_laws::lemma_put_all(f, ws);
    recovery_laws::lemma_put_all(d, vs);
    assert forall|i: bool| #[trigger]
        recovery_laws::side(g, i) =~~= recovery_laws::side(h, i) by {
        assert(recovery_laws::side(g, i).len() == recovery_laws::extent(
            ws,
            i,
            recovery_laws::side(f, i).len() as int,
        ));
        assert forall|p: int| 0 <= p < recovery_laws::side(g, i).len() implies recovery_laws::side(
            g,
            i,
        )[p] =~= recovery_laws::side(h, i)[p] by {
            assert(recovery_laws::side(g, i)[p].len() == recovery_laws::page_size(i));
            assert(recovery_laws::side(h, i)[p].len() == recovery_laws::page_size(i));
            assert forall|k: int| 0 <= k < recovery_laws::page_size(i) implies recovery_laws::side(
                g,
                i,
            )[p][k] == recovery_laws::side(h, i)[p][k] by {
                lemma_redo_last(a, records, i, p, k);
                assert(recovery_laws::side(g, i)[p][k] == (match recovery_laws::last(
                    ws,
                    i,
                    p,
                    k,
                ) {
                    Some(v) => v,
                    None => recovery_laws::byte(f, i, p, k),
                }));
                assert(recovery_laws::side(h, i)[p][k] == (match recovery_laws::last(
                    vs,
                    i,
                    p,
                    k,
                ) {
                    Some(v) => v,
                    None => recovery_laws::byte(d, i, p, k),
                }));
                if recovery_laws::last(ws, i, p, k) is None {
                    assert(recovery_laws::byte(f, i, p, k) == recovery_laws::byte(h, i, p, k));
                }
            }
        }
    }
    assert(recovery_laws::side(g, true) == g.index && recovery_laws::side(g, false) == g.heap);
    assert(recovery_laws::side(h, true) == h.index && recovery_laws::side(h, false) == h.heap);
}

/// The changes that are redone lie on their pages.
pub proof fn lemma_all_fit(a: Analysis, records: Seq<RecordView>)
    requires
        all_fit(records),
    ensures
        forall|j: int|
            0 <= j < recovery_laws::redo_writes(a, records).len() ==> recovery_laws::fits(
                #[trigger] recovery_laws::redo_writes(a, records)[j],
            ),
{
    assert forall|x: int|
        0 <= x < records.len() && recovery::redoes(
            a,
            #[trigger] records[x],
        ) implies recovery::on_page(
        records[x],
        wal::update_of(records[x].payload).unwrap().1,
    ) by {
        assert(recovery::redoes(everything(), records[x]));
        assert(recovery_laws::fits(recovery_laws::redo_write(records[x])));
    }
    recovery_laws::lemma_redo_fits(a, records);
}

/// What is left of a byte when the rolled back changes are undone is what the other
/// changes have set it to.
proof fn lemma_kept_byte(
    d: Disk,
    a: Analysis,
    records: Seq<RecordView>,
    n: int,
    i: bool,
    p: int,
    k: int,
)
    requires
        recovery_laws::whole(d),
        0 <= n <= records.len(),
        0 <= p,
        0 <= k < recovery_laws::page_size(i),
        all_fit(records),
        undo_known(d, a, records),
        locked(a, records),
    ensures
        ({
            let rs = records.take(n);
            let undone = recovery_laws::last(
                recovery_laws::undo_writes(recovery::undone(a, rs)),
                i,
                p,
                k,
            );
            let kept = recovery_laws::last(kept_writes(a, rs), i, p, k);
            let all = recovery_laws::last(
                recovery_laws::redo_writes(everything(), rs),
                i,
                p,
                k,
            );
            match undone {
                None => kept == all,
                Some(v) => v == (match kept {
                    Some(x) => x,
                    None => recovery_laws::byte(d, i, p, k),
                }),
            }
        }),
    decreases n,
{
    let rs = records.take(n);
    if n == 0 {
        assert(rs =~= Seq::empty());
        assert(recovery_laws::undo_writes(recovery::undone(a, rs)) =~= Seq::empty());
    } else {
        let init = records.take(n - 1);
        let r = records[n - 1];
        lemma_kept_byte(d, a, records, n - 1, i, p, k);
        assert(rs.drop_last() =~= init);
        assert(rs.last() == r);
        let us = recovery_laws::undo_writes(recovery::undone(a, init));
        let us2 = recovery_laws::undo_writes(recovery::undone(a, rs));
        let kept = kept_writes(a, init);
        let kept2 = kept_writes(a, rs);
        let all = recovery_laws::redo_writes(everything(), init);
        let all2 = recovery_laws::redo_writes(everything(), rs);
        if recovery::redoes(everything(), r) {
            assert(all2.drop_last() =~= all);
        }
        if recovery::undoes(a, r) {
            let w = recovery_laws::undo_write(r);
            assert(recovery::redoes(everything(), r));
            assert(us2 =~= seq![w] + us);
            recovery_laws::lemma_last_append(seq![w], us, i, p, k);
            assert(seq![w].drop_last() =~= Seq::empty());
            assert(recovery_laws::sets(w, i, p, k) == recovery_laws::sets(
                recovery_laws::redo_write(records[n - 1]),
                i,
                p,
                k,
            ));
            if recovery_laws::last(us, i, p, k) is None && recovery_laws::sets(w, i, p, k) {
                // the byte before the change
                recovery_laws::lemma_redo_writes(d, everything(), init);
                assert(all_fit(init)) by {
                    assert forall|x: int|
                        0 <= x < init.len() && recovery::redoes(
                            everything(),
                            #[trigger] init[x],
                        ) implies recovery_laws::fits(recovery_laws::redo_write(init[x]))
                        && recovery_laws::fits(recovery_laws::undo_write(init[x])) by {
                        assert(init[x] == records[x]);
                    }
                }
                lemma_all_fit(everything(), init);
                lemma_history_byte(d, init, i, p, k);
                assert(recovery_laws::last(us2, i, p, k) == Some(w.data[k - w.offset]));
                assert(w.data[k - w.offset] == recovery_laws::byte(history(d, init), i, p, k));
            }
            assert(kept2 == kept);
            if !recovery_laws::sets(w, i, p, k) {
                assert(recovery_laws::last(seq![w].drop_last(), i, p, k) is None);
                assert(recovery_laws::last(all2, i, p, k) == recovery_laws::last(all, i, p, k));
                assert(recovery_laws::last(us2, i, p, k) == recovery_laws::last(us, i, p, k));
            }
            if recovery_laws::last(us, i, p, k) is Some {
                assert(recovery_laws::last(us2, i, p, k) == recovery_laws::last(us, i, p, k));
            }
        } else {
            assert(us2 =~= us);
            if recovery::redoes(everything(), r) {
                assert(kept2.drop_last() =~= kept);
                if recovery_laws::last(us, i, p, k) is Some {
                    let x = lemma_undone_by(a, init, i, p, k);
                    assert(init[x] == records[x]);
                    assert(recovery_laws::sets(
                        recovery_laws::undo_write(records[x]),
                        i,
                        p,
                        k,
                    ));
                    assert(!recovery_laws::sets(
                        recovery_laws::redo_write(records[n - 1]),
                        i,
                        p,
                        k,
                    ));
                }
            }
        }
    }
}

/// A byte of the files after all changes.
proof fn lemma_history_byte(d: Disk, records: Seq<RecordView>, i: bool, p: int, k: int)
    requires
        recovery_laws::whole(d),
        all_fit(records),
        0 <= p,
        0 <= k < recovery_laws::page_size(i),
    ensures
        recovery_laws::byte(history(d, records), i, p, k) == (match recovery_laws::last(
            recovery_laws::redo_writes(everything(), records),
            i,
            p,
            k,
        ) {
            Some(v) => v,
            None => recovery_laws::byte(d, i, p, k),
        }),
{
    let vs = recovery_laws::redo_writes(everything(), records);
    let h = history(d, records);
    recovery_laws::lemma_redo_writes(d, everything(), records);
    lemma_all_fit(everything(), records);
    recovery_laws::lemma_put_all(d, vs);
    if p < recovery_laws::side(h, i).len() {
        assert(recovery_laws::side(h, i)[p][k] == (match recovery_laws::last(vs, i, p, k) {
            Some(v) => v,
            None => recovery_laws::byte(d, i, p, k),
        }));
    } else {
        assert(recovery_laws::side(h, i).len() == recovery_laws::extent(
            vs,
            i,
            recovery_laws::side(d, i).len() as int,
        ));
        recovery_laws::lemma_beyond(d, vs, i, p, k);
    }
}

/// Recovery gives back every change that was logged, but for those of transactions that
/// have not ended: each byte is as the other changes have left it. This holds whatever
/// of the changes that are redone had reached the files, where the log holds the bytes
/// that were there before, and nobody changed a byte behind a transaction that had not
/// ended.
pub proof fn lemma_atomic(
    d: Disk,
    a: Analysis,
    records: Seq<RecordView>,
    f: Disk,
    i: bool,
    p: int,
    k: int,
)
    requires
        recovery_laws::whole(d),
        in_order(records),
        all_fit(records),
        at_crash(d, a, records, f),
        undo_known(d, a, records),
        locked(a, records),
        0 <= p < recovery_laws::side(history(d, records), i).len(),
        0 <= k < recovery_laws::page_size(i),
    ensures
        recovery_laws::side(
            recovery::undo(recovery::redo(f, a, records), a, records),
            i,
        )[p][k] == (match recovery_laws::last(kept_writes(a, records), i, p, k) {
            Some(v) => v,
            None => recovery_laws::byte(d, i, p, k),
        }),
{
    let h = history(d, records);
    let us = recovery_laws::undo_writes(recovery::undone(a, records));
    let vs = recovery_laws::redo_writes(everything(), records);
    lemma_history_repeated(d, a, records, f);
    recovery_laws::lemma_redo_writes(d, everything(), records);
    lemma_all_fit(everything(), records);
    recovery_laws::lemma_put_all(d, vs);
    assert forall|x: int| 0 <= x < records.len() && recovery::undoes(
        a,
        #[trigger] records[x],
    ) implies records[x].header.page_id < recovery_laws::side(
        h,
        records[x].header.is_index,
    ).len() by {
        let s = records[x].header.is_index;
        assert(recovery::redoes(everything(), records[x]));
        lemma_in_extent(records, x, s, recovery_laws::side(d, s).len() as int);
        assert(recovery_laws::side(h, s).len() == recovery_laws::extent(
            vs,
            s,
            recovery_laws::side(d, s).len() as int,
        ));
    }
    recovery_laws::lemma_undo_writes(h, a, records);
    recovery_laws::lemma_undone(a, records);
    assert forall|j: int| 0 <= j < us.len() implies recovery_laws::fits(#[trigger] us[j]) && us[
        j
    ].page < recovery_laws::side(h, us[j].is_index).len() by {
        let r = recovery::undone(a, records)[j];
        assert(recovery::undoes(a, r) && records.contains(r));
        let x = choose|x: int| 0 <= x < records.len() && records[x] == r;
        assert(recovery::redoes(everything(), records[x]));
        assert(recovery::undoes(a, records[x]));
    }
    recovery_laws::lemma_put_all(h, us);
    recovery_laws::lemma_extent_none(us, i, recovery_laws::side(h, i).len() as int);
    let g = recovery_laws::put_all(h, us);
    assert(recovery_laws::side(g, i).len() == recovery_laws::extent(
        us,
        i,
        recovery_laws::side(h, i).len() as int,
    ));
    assert(recovery_laws::side(g, i)[p][k] == (match recovery_laws::last(us, i, p, k) {
        Some(v) => v,
        None => recovery_laws::byte(h, i, p, k),
    }));
    assert(records.take(records.len() as int) =~= records);
    lemma_kept_byte(d, a, records, records.len() as int, i, p, k);
    lemma_history_byte(d, records, i, p, k);
}

/// A page that a change is on is in the file then.
pub proof fn lemma_in_extent(records: Seq<RecordView>, x: int, i: bool, n: int)
    requires
        0 <= x < records.len(),
        recovery::redoes(everything(), records[x]),
        records[x].header.is_index == i,
    ensures
        records[x].header.page_id < recovery_laws::extent(
            recovery_laws::redo_writes(everything(), records),
            i,
            n,
        ),
    decreases records.len(),
{
    let ws = recovery_laws::redo_writes(everything(), records);
    let init = records.drop_last();
    if recovery::redoes(everything(), records.last()) {
        assert(ws.drop_last() =~= recovery_laws::redo_writes(everything(), init));
    }
    if x < records.len() - 1 {
        assert(init[x] == records[x]);
        lemma_in_extent(init, x, i, n);
    }
}

} // verus!
