//! The buffer of the write-ahead log.
//!
//! Log records are not evicted. The buffer is written to the log file when
//! - a transaction commits,
//! - a data page with LSN x is about to be written, up to LSN x,
//! - the buffer is full.

use vstd::prelude::*;

verus! {

/// Log records that are not on disk yet.
pub struct WalBuffer {
    /// The records, one behind the other.
    pub buffer: Vec<u8>,
    /// The LSN of each record and its offset in the log file.
    pub offsets: Vec<(u64, usize)>,
    pub max_frames: usize,
}

impl WalBuffer {
    /// Where record `i` starts in the buffer; the place behind the last record
    /// for the number of records.
    pub open spec fn start(self, i: int) -> int {
        if i < self.offsets@.len() {
            self.offsets@[i].1 - self.offsets@[0].1
        } else {
            self.buffer@.len() as int
        }
    }

    /// The invariant of log buffers: LSNs are consecutive, and the offsets are
    /// those of the records in the buffer.
    pub open spec fn wf(self) -> bool {
        &&& self.offsets@.len() == 0 ==> self.buffer@.len() == 0
        &&& self.offsets@.len() <= self.max_frames
        &&& self.max_frames > 0
        &&& forall|i: int|
            0 <= i < self.offsets@.len() ==> (#[trigger] self.offsets@[i]).0
                == self.offsets@[0].0 + i
        &&& forall|i: int|
            0 <= i < self.offsets@.len() ==> self.offsets@[0].1 <= (
            #[trigger] self.offsets@[i]).1 <= self.offsets@[0].1 + self.buffer@.len()
        &&& forall|i: int, j: int|
            0 <= i <= j < self.offsets@.len() ==> (#[trigger] self.offsets@[i]).1 <= (
            #[trigger] self.offsets@[j]).1
    }

    /// How many records have an LSN up to `lsn`.
    pub open spec fn count_up_to(self, lsn: u64) -> int {
        if self.offsets@.len() == 0 || lsn < self.offsets@[0].0 {
            0
        } else if lsn - self.offsets@[0].0 < self.offsets@.len() {
            lsn - self.offsets@[0].0 + 1
        } else {
            self.offsets@.len() as int
        }
    }

    /// Whether the record with that LSN is in the buffer.
    pub fn contains(&self, lsn: u64) -> (b: bool)
        ensures
            b == (self.offsets@.len() > 0 && self.offsets@[0].0 <= lsn
                <= self.offsets@.last().0),
    {
        let n: usize = self.offsets.len();
        if n == 0 {
            return false;
        }
        self.offsets[0].0 <= lsn && lsn <= self.offsets[n - 1].0
    }

    /// Adds a record. The records of a full buffer are taken out first, for the
    /// log file.
    pub fn insert(&mut self, buf: &[u8], lsn: u64, rec_offset: usize) -> (out: Vec<u8>)
        ensures
            final(self).max_frames == old(self).max_frames,
            if old(self).offsets@.len() == old(self).max_frames {
                &&& out@ == old(self).buffer@
                &&& final(self).buffer@ == buf@
                &&& final(self).offsets@ == seq![(lsn, rec_offset)]
            } else {
                &&& out@ == Seq::<u8>::empty()
                &&& final(self).buffer@ == old(self).buffer@ + buf@
                &&& final(self).offsets@ == old(self).offsets@.push((lsn, rec_offset))
            },
    {
        let mut out: Vec<u8> = Vec::new();
        if self.max_frames == self.offsets.len() {
            std::mem::swap(&mut out, &mut self.buffer);
            self.offsets.clear();
        }
        let ghost rest = self.buffer@;
        self.buffer.extend_from_slice(buf);
        assert(self.buffer@ =~= rest + buf@);
        assert(Seq::<u8>::empty() + buf@ =~= buf@);
        self.offsets.push((lsn, rec_offset));
        assert(Seq::empty().push((lsn, rec_offset)) =~= seq![(lsn, rec_offset)]);
        out
    }

    /// Takes the records up to `lsn` out of the buffer.
    pub fn drain_up_to(&mut self, lsn: u64) -> (out: Vec<u8>)
        requires
            old(self).wf(),
        ensures
            final(self).wf(),
            final(self).max_frames == old(self).max_frames,
            ({
                let n = old(self).count_up_to(lsn);
                let cut = old(self).start(n);
                &&& 0 <= n <= old(self).offsets@.len()
                &&& 0 <= cut <= old(self).buffer@.len()
                &&& out@ == old(self).buffer@.take(cut)
                &&& final(self).buffer@ == old(self).buffer@.skip(cut)
                &&& final(self).offsets@ == old(self).offsets@.skip(n)
            }),
    {
        let total: usize = self.offsets.len();
        if total == 0 || lsn < self.offsets[0].0 {
            assert(total > 0 ==> self.start(0) == 0);
            assert(self.buffer@.take(0) =~= Seq::<u8>::empty());
            assert(self.buffer@.skip(0) =~= self.buffer@);
            assert(self.offsets@.skip(0) =~= self.offsets@);
            return Vec::new();
        }
        let first: u64 = self.offsets[0].0;
        let behind: u64 = lsn - first;
        let n: usize = if behind < total as u64 {
            behind as usize + 1
        } else {
            total
        };
        let cut: usize = if n < total {
            self.offsets[n].1 - self.offsets[0].1
        } else {
            self.buffer.len()
        };
        assert(n == self.count_up_to(lsn));
        assert(cut == self.start(n as int));
        let rest = self.buffer.split_off(cut);
        let offsets = self.offsets.split_off(n);
        let mut out: Vec<u8> = rest;
        std::mem::swap(&mut out, &mut self.buffer);
        self.offsets = offsets;
        proof {
            let o = old(self).offsets@;
            assert(self.buffer@ =~= old(self).buffer@.skip(cut as int));
            assert(self.offsets@ =~= o.skip(n as int));
            assert forall|i: int| 0 <= i < self.offsets@.len() implies (
            #[trigger] self.offsets@[i]) == o[n + i] by {}
        }
        out
    }
}

} // verus!
