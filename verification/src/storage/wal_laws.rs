//! What is in the log file and what in the buffer.

use super::bytes;
use super::header::{WalHeader, WAL_HEADER_SIZE};
use super::wal;
use super::wal::{LogView, RecordView, WAL_POOL_CAPACITY};
use vstd::prelude::*;

verus! {

/// The log file and the buffer hold whole records. Those in the buffer have the last LSNs
/// that were given out, one behind the other.
#[verifier::opaque]
pub open spec fn in_parts(log: LogView) -> bool {
    let records = wal::records_in(log.pending);
    &&& wal::whole(log.durable)
    &&& wal::whole(log.pending)
    &&& records.len() == log.starts.len()
    &&& log.flushed + records.len() == log.header.next_lsn
    &&& forall|i: int|
        0 <= i < records.len() ==> (#[trigger] records[i]).header.lsn == log.flushed + i
    &&& forall|i: int|
        0 <= i < records.len() ==> #[trigger] log.starts[i] == wal::log_of(records.take(i)).len()
}

/// Records one behind the other.
pub proof fn lemma_log_append(s: Seq<RecordView>, t: Seq<RecordView>)
    ensures
        wal::log_of(s + t) == wal::log_of(s) + wal::log_of(t),
    decreases s.len(),
{
    if s.len() == 0 {
        assert(s + t =~= t);
        assert(wal::log_of(s) + wal::log_of(t) =~= wal::log_of(t));
    } else {
        assert((s + t).skip(1) =~= s.skip(1) + t);
        lemma_log_append(s.skip(1), t);
        assert(wal::log_of(s + t) =~= wal::log_of(s) + wal::log_of(t));
    }
}

/// Whole records behind whole records.
pub proof fn lemma_whole_append(a: Seq<u8>, b: Seq<u8>)
    requires
        wal::whole(a),
        wal::whole(b),
    ensures
        wal::whole(a + b),
        wal::records_in(a + b) == wal::records_in(a) + wal::records_in(b),
{
    let s = wal::records_in(a);
    let t = wal::records_in(b);
    wal::lemma_records_sized(a);
    wal::lemma_records_sized(b);
    lemma_log_append(s, t);
    assert forall|i: int| 0 <= i < (s + t).len() implies (#[trigger] (s + t)[i]).sized() by {
        if i < s.len() {
            assert((s + t)[i] == s[i]);
        } else {
            assert((s + t)[i] == t[i - s.len()]);
        }
    }
    wal::lemma_read_back(s + t);
}

/// The records of a log are those in its file, then those in the buffer.
pub proof fn lemma_all_records(log: LogView)
    requires
        in_parts(log),
    ensures
        wal::records_in(log.all()) == wal::records_in(log.durable) + wal::records_in(log.pending),
{
    reveal(in_parts);
    lemma_whole_append(log.durable, log.pending);
}

proof fn lemma_empty()
    ensures
        wal::records_in(Seq::empty()) == Seq::<RecordView>::empty(),
        wal::whole(Seq::empty()),
{
    assert(wal::log_of(Seq::empty()) =~= Seq::<u8>::empty());
    assert(wal::records_in(Seq::empty()) =~= Seq::empty());
}

/// A log that was read from its file.
pub proof fn lemma_opened_parts(file: Seq<u8>)
    ensures
        in_parts(wal::opened(file)),
{
    reveal(in_parts);
    lemma_empty();
    if file.len() > 0 {
        wal::lemma_whole_log(file.skip(WAL_HEADER_SIZE as int));
    } else {
        assert(wal::log_of(wal::file_records(file)) =~= Seq::<u8>::empty());
    }
}

/// Writing all records to the file leaves none in the buffer.
pub proof fn lemma_all_flushed(log: LogView)
    requires
        in_parts(log),
    ensures
        in_parts(log.flush_all()),
        wal::records_in(log.flush_all().durable) == wal::records_in(log.all()),
        wal::records_in(log.flush_all().pending).len() == 0,
        log.flush_all().header == log.header,
{
    reveal(in_parts);
    lemma_empty();
    lemma_whole_append(log.durable, log.pending);
}

/// A record that is appended is the last of the log, and the others stay. It waits in
/// the buffer; if that was full, what it held is in the file then, and else nothing was
/// written.
pub proof fn lemma_pushed(log: LogView, r: RecordView)
    requires
        in_parts(log),
        r.sized(),
        r.header.lsn == log.header.next_lsn,
        log.header.next_lsn < u64::MAX,
    ensures
        in_parts(log.push(r)),
        wal::records_in(log.push(r).all()) == wal::records_in(log.all()).push(r),
        wal::records_in(log.push(r).durable) == (if wal::records_in(log.pending).len()
            == WAL_POOL_CAPACITY {
            wal::records_in(log.all())
        } else {
            wal::records_in(log.durable)
        }),
        wal::records_in(log.push(r).pending).last() == r,
        log.push(r).header == (WalHeader {
            next_lsn: (log.header.next_lsn + 1) as u64,
            ..log.header
        }),
{
    reveal(in_parts);
    let room = if log.starts.len() == WAL_POOL_CAPACITY {
        log.flush_all()
    } else {
        log
    };
    lemma_all_flushed(log);
    assert(in_parts(room));
    lemma_all_records(log);
    lemma_all_records(room);
    wal::lemma_whole_push(room.pending, r);
    let records = wal::records_in(room.pending);
    let log2 = log.push(r);
    assert forall|i: int| 0 <= i < records.push(r).len() implies #[trigger] log2.starts[i]
        == wal::log_of(records.push(r).take(i)).len() by {
        assert(records.push(r).take(i) =~= records.take(i));
        if i == records.len() {
            assert(records.take(i) =~= records);
        } else {
            assert(room.starts[i] == log2.starts[i]);
        }
    }
    assert forall|i: int| 0 <= i < records.push(r).len() implies (#[trigger] records.push(
        r,
    )[i]).header.lsn == room.flushed + i by {
        if i < records.len() {
            assert(records[i] == records.push(r)[i]);
        }
    }
    lemma_all_records(log2);
    assert(wal::records_in(log2.all()) =~= wal::records_in(log.all()).push(r));
}

/// Writing the log out up to an LSN moves the records with an LSN up to that from the
/// buffer to the file, and those alone.
pub proof fn lemma_flushed(log: LogView, lsn: u64)
    requires
        in_parts(log),
    ensures
        in_parts(log.flush(lsn)),
        log.flush(lsn).header == log.header,
        wal::records_in(log.flush(lsn).all()) == wal::records_in(log.all()),
        ({
            let was = wal::records_in(log.durable).len() as int;
            let now = wal::records_in(log.flush(lsn).durable).len() as int;
            let all = wal::records_in(log.all());
            &&& was <= now <= all.len()
            &&& wal::records_in(log.flush(lsn).durable) == all.take(now)
            &&& wal::records_in(log.flush(lsn).pending) == all.skip(now)
            &&& forall|i: int| was <= i < now ==> (#[trigger] all[i]).header.lsn <= lsn
            &&& forall|i: int| now <= i < all.len() ==> (#[trigger] all[i]).header.lsn > lsn
        }),
{
    reveal(in_parts);
    let log2 = log.flush(lsn);
    let records = wal::records_in(log.pending);
    let n = log.count_up_to(lsn);
    let cut = log.start(n);
    let head = records.take(n);
    let tail = records.skip(n);
    wal::lemma_records_sized(log.pending);
    assert(records =~= head + tail);
    lemma_log_append(head, tail);
    if n == records.len() {
        assert(head =~= records);
    }
    assert(cut == wal::log_of(head).len());
    assert(log.pending.take(cut) =~= wal::log_of(head));
    assert(log.pending.skip(cut) =~= wal::log_of(tail));
    assert forall|i: int| 0 <= i < head.len() implies (#[trigger] head[i]).sized() by {
        assert(head[i] == records[i]);
    }
    assert forall|i: int| 0 <= i < tail.len() implies (#[trigger] tail[i]).sized() by {
        assert(tail[i] == records[n + i]);
    }
    wal::lemma_read_back(head);
    wal::lemma_read_back(tail);
    lemma_whole_append(log.durable, log.pending.take(cut));
    assert forall|i: int| 0 <= i < tail.len() implies #[trigger] log2.starts[i] == wal::log_of(
        tail.take(i),
    ).len() by {
        assert(records.take(n + i) =~= head + tail.take(i));
        lemma_log_append(head, tail.take(i));
        assert(log.starts[n + i] == wal::log_of(records.take(n + i)).len());
    }
    assert forall|i: int| 0 <= i < tail.len() implies (#[trigger] tail[i]).header.lsn
        == log2.flushed + i by {
        assert(tail[i] == records[n + i]);
    }
    assert(in_parts(log2));
    lemma_all_records(log);
    lemma_all_records(log2);
    let all = wal::records_in(log.all());
    let was = wal::records_in(log.durable).len() as int;
    assert(wal::records_in(log2.durable) =~= all.take(was + n));
    assert(wal::records_in(log2.pending) =~= all.skip(was + n));
    assert(log2.all() =~= log.all());
    assert forall|i: int| was <= i < was + n implies (#[trigger] all[i]).header.lsn <= lsn by {
        assert(all[i] == records[i - was]);
    }
    assert forall|i: int| was + n <= i < all.len() implies (#[trigger] all[i]).header.lsn
        > lsn by {
        assert(all[i] == records[i - was]);
    }
}

/// The log file covers an LSN exactly where every record in the buffer has a greater one.
pub proof fn lemma_covers(log: LogView, lsn: u64)
    requires
        in_parts(log),
    ensures
        log.covers(lsn) <==> forall|i: int|
            0 <= i < wal::records_in(log.pending).len() ==> (#[trigger] wal::records_in(
                log.pending,
            )[i]).header.lsn > lsn,
{
    reveal(in_parts);
    let records = wal::records_in(log.pending);
    if !log.covers(lsn) {
        assert(records[0].header.lsn == log.flushed);
    }
}

/// Records that were flushed stay so, and no records are lost or added.
pub proof fn lemma_flushes(log: LogView, log2: LogView)
    requires
        in_parts(log),
        in_parts(log2),
        log2.flushes(log),
    ensures
        wal::records_in(log2.all()) == wal::records_in(log.all()),
        wal::records_in(log2.durable).len() >= wal::records_in(log.durable).len(),
{
    reveal(in_parts);
    lemma_all_records(log);
    lemma_all_records(log2);
    let all = wal::records_in(log.durable) + wal::records_in(log.pending);
    let all2 = wal::records_in(log2.durable) + wal::records_in(log2.pending);
    assert(all.len() == all2.len());
}

/// What is found when a log file is opened: the fields of its header, and its records up
/// to the first that is torn. The next LSN is that of the header, or one above an LSN of
/// the log.
pub proof fn lemma_opened_log(file: Seq<u8>)
    requires
        file.len() >= 24,
    ensures
        ({
            let log = wal::opened(file);
            let records = wal::records_in(file.skip(24));
            &&& log.header.last_checkpoint_lsn == bytes::u64_at(file, 0)
            &&& log.header.next_txn_id == bytes::u64_at(file, 16)
            &&& log.header.next_lsn >= bytes::u64_at(file, 8)
            &&& wal::records_in(log.durable) == records
            &&& wal::records_in(log.all()) == records
            &&& log.header.next_lsn == bytes::u64_at(file, 8) || exists|i: int|
                0 <= i < records.len() && ((#[trigger] records[i]).header.lsn + 1
                    == log.header.next_lsn || records[i].header.lsn == u64::MAX)
        }),
{
    let log = wal::opened(file);
    let records = wal::records_in(file.skip(24));
    wal::lemma_whole_log(file.skip(24));
    lemma_opened_parts(file);
    assert(log.all() =~= log.durable);
    lemma_above(records, bytes::u64_at(file, 8));
}

proof fn lemma_above(records: Seq<RecordView>, lsn: u64)
    ensures
        wal::lsn_above(records, lsn) >= lsn,
        wal::lsn_above(records, lsn) == lsn || exists|i: int|
            0 <= i < records.len() && ((#[trigger] records[i]).header.lsn + 1 == wal::lsn_above(
                records,
                lsn,
            ) || records[i].header.lsn == u64::MAX),
    decreases records.len(),
{
    if records.len() > 0 {
        let init = records.drop_last();
        let n = init.len() as int;
        let now = wal::lsn_above(records, lsn);
        let before = wal::lsn_above(init, lsn);
        lemma_above(init, lsn);
        if now == before && before != lsn {
            let i = choose|i: int|
                0 <= i < init.len() && ((#[trigger] init[i]).header.lsn + 1 == before
                    || init[i].header.lsn == u64::MAX);
            assert(records[i] == init[i]);
        } else if now != before {
            assert(records[n].header.lsn + 1 == now || records[n].header.lsn == u64::MAX);
        }
    }
}

/// A log that was never used has no records and starts with LSN 0.
pub proof fn lemma_opened_new()
    ensures
        wal::opened(Seq::empty()).header == (WalHeader {
            last_checkpoint_lsn: 0,
            next_lsn: 0,
            next_txn_id: 0,
        }),
        wal::records_in(wal::opened(Seq::empty()).all()).len() == 0,
{
    lemma_empty();
    let log = wal::opened(Seq::empty());
    assert(log.durable =~= Seq::<u8>::empty());
    assert(log.all() =~= Seq::<u8>::empty());
}

} // verus!
