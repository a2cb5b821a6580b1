//! The write-ahead log.
//!
//! Every log record has a log sequence number (LSN). A data page may be written
//! to its file only when the log is on disk up to the LSN of the page:
//!
//! `page LSN <= last flushed LSN`
//!
//! Where it is not, the log is flushed up to that LSN first.

use super::bytes;
use super::error::StorageError;
use super::header;
use super::header::{WalHeader, WAL_HEADER_SIZE};
use super::wal_buffer::WalBuffer;
use super::wal_laws;
use vstd::bytes::*;
use vstd::prelude::*;

verus! {

/// Size of the header of a log record.
pub const WAL_RECORD_HEADER_SIZE: usize = 36;

/// How many records the log buffer holds.
pub const WAL_POOL_CAPACITY: usize = 10_000;

/// What a log record is about.
#[derive(Clone, Copy, Debug, PartialEq, Eq, Structural)]
pub enum RecordType {
    /// A transaction begins.
    Begin,
    Update,
    Commit,
    Abort,
    /// A compensation log record: a change that recovery has undone.
    Clr,
    Checkpoint,
}

/// The record type with that code.
pub open spec fn record_type_of(v: u8) -> Result<RecordType, u8> {
    match v {
        1 => Ok(RecordType::Begin),
        2 => Ok(RecordType::Update),
        3 => Ok(RecordType::Commit),
        4 => Ok(RecordType::Abort),
        5 => Ok(RecordType::Clr),
        6 => Ok(RecordType::Checkpoint),
        _ => Err(v),
    }
}

impl TryFrom<u8> for RecordType {
    type Error = u8;

    fn try_from(value: u8) -> (r: Result<RecordType, u8>) {
        match value {
            1 => Ok(RecordType::Begin),
            2 => Ok(RecordType::Update),
            3 => Ok(RecordType::Commit),
            4 => Ok(RecordType::Abort),
            5 => Ok(RecordType::Clr),
            6 => Ok(RecordType::Checkpoint),
            _ => Err(value),
        }
    }
}

impl vstd::std_specs::convert::TryFromSpecImpl<u8> for RecordType {
    open spec fn obeys_try_from_spec() -> bool {
        true
    }

    open spec fn try_from_spec(value: u8) -> Result<RecordType, u8> {
        record_type_of(value)
    }
}

impl RecordType {
    /// The code of the record type on disk.
    pub open spec fn code(self) -> u8 {
        match self {
            RecordType::Begin => 1,
            RecordType::Update => 2,
            RecordType::Commit => 3,
            RecordType::Abort => 4,
            RecordType::Clr => 5,
            RecordType::Checkpoint => 6,
        }
    }

    pub fn to_u8(self) -> (v: u8)
        ensures
            v == self.code(),
            record_type_of(v) == Ok::<RecordType, u8>(self),
    {
        match self {
            RecordType::Begin => 1,
            RecordType::Update => 2,
            RecordType::Commit => 3,
            RecordType::Abort => 4,
            RecordType::Clr => 5,
            RecordType::Checkpoint => 6,
        }
    }
}

/// The header of a log record.
#[derive(Clone, Copy, Debug, PartialEq, Eq, Structural)]
pub struct WalRecordHeader {
    pub lsn: u64,
    /// The size of the record before this one, for walking the log backwards.
    pub prev_record_len: u32,
    pub txn_id: u64,
    pub record_type: RecordType,
    pub page_id: u64,
    /// Whether the page is one of the index file, not of the heap file.
    pub is_index: bool,
    pub payload_len: u32,
    /// Where in the page the change is.
    pub payload_page_offset: u16,
}

/// The record header that a buffer starts with.
pub open spec fn record_header_at(s: Seq<u8>) -> Option<WalRecordHeader> {
    match record_type_of(s[20]) {
        Ok(record_type) => Some(
            WalRecordHeader {
                lsn: bytes::u64_at(s, 0),
                prev_record_len: bytes::u32_at(s, 8),
                txn_id: bytes::u64_at(s, 12),
                record_type,
                is_index: s[21] == 1,
                page_id: bytes::u64_at(s, 22),
                payload_len: bytes::u32_at(s, 30),
                payload_page_offset: bytes::u16_at(s, 34),
            },
        ),
        Err(_) => None,
    }
}

impl WalRecordHeader {
    /// The bytes of the header on disk.
    pub open spec fn encoding(self) -> Seq<u8> {
        spec_u64_to_le_bytes(self.lsn) + spec_u32_to_le_bytes(self.prev_record_len)
            + spec_u64_to_le_bytes(self.txn_id) + seq![
            self.record_type.code(),
            if self.is_index {
                1u8
            } else {
                0u8
            },
        ] + spec_u64_to_le_bytes(self.page_id) + spec_u32_to_le_bytes(self.payload_len)
            + spec_u16_to_le_bytes(self.payload_page_offset)
    }

    /// The encoding of a header decodes to that header, whatever follows it.
    pub proof fn lemma_round_trip(self, s: Seq<u8>)
        requires
            s.len() >= WAL_RECORD_HEADER_SIZE,
            s.subrange(0, WAL_RECORD_HEADER_SIZE as int) == self.encoding(),
        ensures
            record_header_at(s) == Some(self),
    {
        lemma_auto_spec_u64_to_from_le_bytes();
        lemma_auto_spec_u32_to_from_le_bytes();
        lemma_auto_spec_u16_to_from_le_bytes();
        let e = self.encoding();
        assert(e.len() == 36);
        assert forall|i: int| 0 <= i < 36 implies s[i] == e[i] by {
            assert(s.subrange(0, 36)[i] == s[i]);
        }
        assert(s.subrange(0, 8) =~= spec_u64_to_le_bytes(self.lsn));
        assert(s.subrange(8, 12) =~= spec_u32_to_le_bytes(self.prev_record_len));
        assert(s.subrange(12, 20) =~= spec_u64_to_le_bytes(self.txn_id));
        assert(s.subrange(22, 30) =~= spec_u64_to_le_bytes(self.page_id));
        assert(s.subrange(30, 34) =~= spec_u32_to_le_bytes(self.payload_len));
        assert(s.subrange(34, 36) =~= spec_u16_to_le_bytes(self.payload_page_offset));
    }

    pub fn serialize(&self, buf: &mut [u8])
        requires
            old(buf)@.len() >= WAL_RECORD_HEADER_SIZE,
        ensures
            final(buf)@ == bytes::written(old(buf)@, 0, self.encoding()),
    {
        proof {
            lemma_auto_spec_u64_to_from_le_bytes();
            lemma_auto_spec_u32_to_from_le_bytes();
            lemma_auto_spec_u16_to_from_le_bytes();
        }
        let ty: u8 = self.record_type.to_u8();
        let flag: u8 = if self.is_index {
            1
        } else {
            0
        };
        bytes::put_u64(buf, 0, self.lsn);
        bytes::put_u32(buf, 8, self.prev_record_len);
        bytes::put_u64(buf, 12, self.txn_id);
        buf[20] = ty;
        buf[21] = flag;
        bytes::put_u64(buf, 22, self.page_id);
        bytes::put_u32(buf, 30, self.payload_len);
        bytes::put_u16(buf, 34, self.payload_page_offset);
        assert(buf@ =~= bytes::written(old(buf)@, 0, self.encoding()));
    }

    pub fn deserialize(buf: &[u8]) -> (r: Option<WalRecordHeader>)
        requires
            buf@.len() >= WAL_RECORD_HEADER_SIZE,
        ensures
            r == record_header_at(buf@),
    {
        let record_type = match RecordType::try_from(buf[20]) {
            Ok(t) => t,
            Err(_) => return None,
        };
        Some(
            WalRecordHeader {
                lsn: bytes::get_u64(buf, 0),
                prev_record_len: bytes::get_u32(buf, 8),
                txn_id: bytes::get_u64(buf, 12),
                record_type,
                is_index: buf[21] == 1,
                page_id: bytes::get_u64(buf, 22),
                payload_len: bytes::get_u32(buf, 30),
                payload_page_offset: bytes::get_u16(buf, 34),
            },
        )
    }
}

/// A change of a page: the bytes that were there and the bytes that are there
/// now.
#[derive(Clone, Debug)]
pub struct UpdatePayload<'a> {
    pub offset_in_page: u16,
    pub undo_data: &'a [u8],
    pub redo_data: &'a [u8],
}

/// The last sixteen bits of a length.
pub open spec fn short_len(n: nat) -> u16 {
    (n % 65536) as u16
}

/// Some bytes with their length in front.
pub open spec fn sized(b: Seq<u8>) -> Seq<u8> {
    spec_u16_to_le_bytes(short_len(b.len())) + b
}

/// Appends some bytes with their length in front.
fn push_sized(buf: &mut Vec<u8>, b: &[u8])
    ensures
        final(buf)@ == old(buf)@ + sized(b@),
{
    let len: u16 = (b.len() % 65536) as u16;
    let mut size: [u8; 2] = [0u8; 2];
    bytes::put_u16(&mut size, 0, len);
    proof {
        lemma_auto_spec_u16_to_from_le_bytes();
    }
    buf.extend_from_slice(&size);
    buf.extend_from_slice(b);
    assert(buf@ =~= old(buf)@ + sized(b@));
}

impl<'a> UpdatePayload<'a> {
    /// The payload behind the header of its log record.
    pub open spec fn encoding(self) -> Seq<u8> {
        sized(self.undo_data@) + sized(self.redo_data@)
    }

    /// Appends the payload, with the place of the change in front.
    pub fn serialize(&self, buf: &mut Vec<u8>)
        ensures
            final(buf)@ == old(buf)@ + spec_u16_to_le_bytes(self.offset_in_page)
                + self.encoding(),
    {
        let mut off: [u8; 2] = [0u8; 2];
        bytes::put_u16(&mut off, 0, self.offset_in_page);
        proof {
            lemma_auto_spec_u16_to_from_le_bytes();
        }
        buf.extend_from_slice(&off);
        push_sized(buf, self.undo_data);
        push_sized(buf, self.redo_data);
        assert(buf@ =~= old(buf)@ + spec_u16_to_le_bytes(self.offset_in_page) + self.encoding());
    }
}

/// A log record that was read back.
pub struct WalRecord {
    pub header: WalRecordHeader,
    pub payload: Vec<u8>,
}

/// What a log record says.
#[verifier::ext_equal]
pub struct RecordView {
    pub header: WalRecordHeader,
    pub payload: Seq<u8>,
}

impl View for WalRecord {
    type V = RecordView;

    open spec fn view(&self) -> RecordView {
        RecordView { header: self.header, payload: self.payload@ }
    }
}

/// The views of log records.
pub open spec fn views(records: Seq<WalRecord>) -> Seq<RecordView> {
    Seq::new(records.len(), |i: int| records[i]@)
}

impl RecordView {
    /// The header gives the size of the payload.
    pub open spec fn sized(self) -> bool {
        self.header.payload_len == self.payload.len()
    }

    /// The bytes of the record in the log.
    pub open spec fn encoding(self) -> Seq<u8> {
        self.header.encoding() + self.payload
    }
}

/// The records that some bytes of the log hold, up to the first that is torn.
pub open spec fn records_in(s: Seq<u8>) -> Seq<RecordView>
    decreases s.len(),
{
    match first_record(s) {
        None => Seq::empty(),
        Some(r) => seq![r] + records_in(s.skip(WAL_RECORD_HEADER_SIZE + r.payload.len())),
    }
}

/// The record that some bytes of the log start with.
pub open spec fn first_record(s: Seq<u8>) -> Option<RecordView> {
    if s.len() < WAL_RECORD_HEADER_SIZE {
        None
    } else {
        match record_header_at(s) {
            None => None,
            Some(h) => if WAL_RECORD_HEADER_SIZE + h.payload_len > s.len() {
                None
            } else {
                Some(
                    RecordView {
                        header: h,
                        payload: s.subrange(
                            WAL_RECORD_HEADER_SIZE as int,
                            WAL_RECORD_HEADER_SIZE + h.payload_len,
                        ),
                    },
                )
            },
        }
    }
}

/// The bytes of a log with the given records.
pub open spec fn log_of(records: Seq<RecordView>) -> Seq<u8>
    decreases records.len(),
{
    if records.len() == 0 {
        Seq::empty()
    } else {
        records[0].encoding() + log_of(records.skip(1))
    }
}

/// One more record goes at the end of the log.
pub proof fn lemma_log_push(records: Seq<RecordView>, r: RecordView)
    ensures
        log_of(records.push(r)) == log_of(records) + r.encoding(),
    decreases records.len(),
{
    if records.len() == 0 {
        assert(records.push(r).skip(1) =~= Seq::empty());
        assert(log_of(records.push(r).skip(1)) == Seq::<u8>::empty());
        assert(log_of(records.push(r)) =~= log_of(records) + r.encoding());
    } else {
        assert(records.push(r).skip(1) =~= records.skip(1).push(r));
        lemma_log_push(records.skip(1), r);
        assert(log_of(records.push(r)) =~= log_of(records) + r.encoding());
    }
}

/// Reading the log gives back the records that were written, in order.
pub proof fn lemma_read_back(records: Seq<RecordView>)
    requires
        forall|i: int| 0 <= i < records.len() ==> (#[trigger] records[i]).sized(),
    ensures
        records_in(log_of(records)) == records,
    decreases records.len(),
{
    let s = log_of(records);
    if records.len() == 0 {
        assert(records =~= Seq::empty());
    } else {
        let r = records[0];
        let rest = records.skip(1);
        assert(r.sized());
        assert forall|i: int| 0 <= i < rest.len() implies (#[trigger] rest[i]).sized() by {
            assert(rest[i] == records[i + 1]);
        }
        lemma_read_back(rest);
        lemma_auto_spec_u64_to_from_le_bytes();
        lemma_auto_spec_u32_to_from_le_bytes();
        lemma_auto_spec_u16_to_from_le_bytes();
        assert(r.header.encoding().len() == 36);
        assert(s.subrange(0, 36) =~= r.header.encoding());
        r.header.lemma_round_trip(s);
        let end: int = 36 + r.payload.len() as int;
        assert(s.subrange(36, end) =~= r.payload);
        assert(s.skip(end) =~= log_of(rest));
        assert(first_record(s) == Some(r));
        assert(seq![r] + rest =~= records);
    }
}

/// The records that are read from a log say how long they are.
pub proof fn lemma_records_sized(s: Seq<u8>)
    ensures
        forall|i: int| 0 <= i < records_in(s).len() ==> (#[trigger] records_in(s)[i]).sized(),
    decreases s.len(),
{
    if let Some(r) = first_record(s) {
        let rest = s.skip(WAL_RECORD_HEADER_SIZE + r.payload.len());
        lemma_records_sized(rest);
        let all = records_in(s);
        assert forall|i: int| 0 <= i < all.len() implies (#[trigger] all[i]).sized() by {
            if i > 0 {
                assert(all[i] == records_in(rest)[i - 1]);
            }
        }
    }
}

/// The bytes are those of whole records.
pub open spec fn whole(s: Seq<u8>) -> bool {
    s == log_of(records_in(s))
}

/// Whole records and one more are whole records.
pub proof fn lemma_whole_push(s: Seq<u8>, r: RecordView)
    requires
        whole(s),
        r.sized(),
    ensures
        whole(s + r.encoding()),
        records_in(s + r.encoding()) == records_in(s).push(r),
{
    let records = records_in(s);
    lemma_records_sized(s);
    lemma_log_push(records, r);
    lemma_read_back(records.push(r));
}

/// The bytes of records that were read are whole.
pub proof fn lemma_whole_log(s: Seq<u8>)
    ensures
        records_in(log_of(records_in(s))) == records_in(s),
        whole(log_of(records_in(s))),
{
    lemma_records_sized(s);
    lemma_read_back(records_in(s));
}

/// Reads the records of a log.
fn read_records(log: &[u8], from: usize) -> (records: Vec<WalRecord>)
    requires
        from <= log@.len(),
    ensures
        views(records@) == records_in(log@.skip(from as int)),
{
    let total: usize = log.len();
    let mut at: usize = from;
    let mut records: Vec<WalRecord> = Vec::new();
    let mut torn: bool = false;
    assert(views(records@) + records_in(log@.skip(at as int)) =~= records_in(
        log@.skip(from as int),
    ));
    while !torn
        invariant
            from <= at <= total,
            total == log@.len(),
            views(records@) + records_in(log@.skip(at as int)) == records_in(
                log@.skip(from as int),
            ),
            torn ==> records_in(log@.skip(at as int)) == Seq::<RecordView>::empty(),
        decreases total - at, !torn as int,
    {
        let ghost s = log@.skip(at as int);
        if total - at < WAL_RECORD_HEADER_SIZE {
            torn = true;
        } else {
            let rest = &log[at..total];
            assert(rest@ =~= s);
            match WalRecordHeader::deserialize(rest) {
                None => {
                    torn = true;
                },
                Some(header) => {
                    let len: usize = header.payload_len as usize;
                    if len > total - at - WAL_RECORD_HEADER_SIZE {
                        torn = true;
                    } else {
                        let start: usize = at + WAL_RECORD_HEADER_SIZE;
                        let mut payload: Vec<u8> = Vec::new();
                        payload.extend_from_slice(&log[start..start + len]);
                        assert(payload@ =~= s.subrange(36, 36 + len));
                        let ghost before = views(records@);
                        records.push(WalRecord { header, payload });
                        at = start + len;
                        proof {
                            let r = RecordView { header, payload: payload@ };
                            assert(first_record(s) == Some(r));
                            assert(s.skip(36 + len) =~= log@.skip(at as int));
                            assert(views(records@) =~= before.push(r));
                            assert(before.push(r) + records_in(log@.skip(at as int)) =~= before
                                + records_in(s));
                        }
                    }
                },
            }
        }
    }
    assert(views(records@) + Seq::<RecordView>::empty() =~= views(records@));
    records
}

/// The undo and redo bytes of an update payload.
pub open spec fn update_of(p: Seq<u8>) -> Option<(Seq<u8>, Seq<u8>)> {
    if p.len() < 4 {
        None
    } else {
        let n = bytes::u16_at(p, 0);
        if 4 + n > p.len() {
            None
        } else {
            let m = bytes::u16_at(p, 2 + n);
            if 4 + n + m > p.len() {
                None
            } else {
                Some((p.subrange(2, 2 + n), p.subrange(4 + n, 4 + n + m)))
            }
        }
    }
}

/// An update is read back as it was written.
pub proof fn lemma_update_read_back(undo: Seq<u8>, redo: Seq<u8>)
    requires
        undo.len() <= u16::MAX,
        redo.len() <= u16::MAX,
    ensures
        update_of(sized(undo) + sized(redo)) == Some((undo, redo)),
{
    lemma_auto_spec_u16_to_from_le_bytes();
    let p = sized(undo) + sized(redo);
    let n = undo.len() as int;
    assert(p.subrange(0, 2) =~= spec_u16_to_le_bytes(n as u16));
    assert(p.subrange(2 + n, 4 + n) =~= spec_u16_to_le_bytes(redo.len() as u16));
    assert(p.subrange(2, 2 + n) =~= undo);
    assert(p.subrange(4 + n, 4 + n + redo.len()) =~= redo);
}

impl WalRecord {
    /// The place of a change, and the bytes before and after it.
    pub fn parse_update(&self) -> (r: Option<(u16, Vec<u8>, Vec<u8>)>)
        ensures
            match update_of(self.payload@) {
                Some((undo, redo)) => r matches Some((off, u, v)) && off
                    == self.header.payload_page_offset && u@ == undo && v@ == redo,
                None => r is None,
            },
    {
        let total: usize = self.payload.len();
        if total < 4 {
            return None;
        }
        let n: usize = bytes::get_u16(&self.payload, 0) as usize;
        if n > total - 4 {
            return None;
        }
        let m: usize = bytes::get_u16(&self.payload, 2 + n) as usize;
        if m > total - 4 - n {
            return None;
        }
        let mut undo: Vec<u8> = Vec::new();
        undo.extend_from_slice(&self.payload.as_slice()[2..2 + n]);
        let mut redo: Vec<u8> = Vec::new();
        redo.extend_from_slice(&self.payload.as_slice()[4 + n..4 + n + m]);
        proof {
            assert(undo@ =~= self.payload@.subrange(2, 2 + n));
            assert(redo@ =~= self.payload@.subrange(4 + n, 4 + n + m));
        }
        Some((self.header.payload_page_offset, undo, redo))
    }
}

/// The write-ahead log: the log file and the records that are not in it yet.
pub struct Wal {
    log_file: Vec<u8>,
    wal_buffer: WalBuffer,
    header: WalHeader,
    last_wal_offset: u64,
    last_wal_len: u32,
}

/// The state of the log.
#[verifier::ext_equal]
pub struct LogView {
    pub header: WalHeader,
    /// The records in the log file.
    pub durable: Seq<u8>,
    /// The records in the buffer.
    pub pending: Seq<u8>,
    /// The LSNs from `flushed` on are in the buffer, those below in the file.
    pub flushed: u64,
    /// Where each record in the buffer starts.
    pub starts: Seq<int>,
    /// The size of the last record.
    pub last_len: u32,
}

impl LogView {
    /// Whether no record with an LSN up to `lsn` is missing in the log file.
    pub open spec fn covers(self, lsn: u64) -> bool {
        lsn < self.flushed || self.flushed >= self.header.next_lsn
    }

    /// All records.
    pub open spec fn all(self) -> Seq<u8> {
        self.durable + self.pending
    }

    /// The log differs from `other` only in that more of it may be in the file.
    pub open spec fn flushes(self, other: LogView) -> bool {
        &&& self.header == other.header
        &&& self.all() == other.all()
        &&& self.last_len == other.last_len
        &&& self.flushed >= other.flushed
    }

    /// How many of the records in the buffer have an LSN up to `lsn`.
    pub open spec fn count_up_to(self, lsn: u64) -> int {
        if lsn < self.flushed {
            0
        } else if lsn - self.flushed < self.starts.len() {
            lsn - self.flushed + 1
        } else {
            self.starts.len() as int
        }
    }

    /// Where record `i` starts in the buffer; the place behind the last record
    /// for the number of records.
    pub open spec fn start(self, i: int) -> int {
        if i < self.starts.len() {
            self.starts[i]
        } else {
            self.pending.len() as int
        }
    }

    /// With the records up to `lsn` in the file.
    pub open spec fn flush(self, lsn: u64) -> LogView {
        let n = self.count_up_to(lsn);
        let cut = self.start(n);
        LogView {
            durable: self.durable + self.pending.take(cut),
            pending: self.pending.skip(cut),
            flushed: (self.flushed + n) as u64,
            starts: Seq::new((self.starts.len() - n) as nat, |i: int| self.starts[n + i] - cut),
            ..self
        }
    }

    /// With all records in the file.
    pub open spec fn flush_all(self) -> LogView {
        LogView {
            durable: self.all(),
            pending: Seq::empty(),
            flushed: self.header.next_lsn,
            starts: Seq::empty(),
            ..self
        }
    }

    /// With one more record at the end. A full buffer is written out first.
    pub open spec fn push(self, rec: RecordView) -> LogView {
        let room = if self.starts.len() == WAL_POOL_CAPACITY {
            self.flush_all()
        } else {
            self
        };
        LogView {
            header: WalHeader { next_lsn: (self.header.next_lsn + 1) as u64, ..self.header },
            pending: room.pending + rec.encoding(),
            starts: room.starts.push(room.pending.len() as int),
            last_len: rec.encoding().len() as u32,
            ..room
        }
    }

    /// Whether a record with that many payload bytes can be written: LSNs and
    /// offsets have not run out.
    pub open spec fn has_room(self, payload: nat) -> bool {
        &&& self.header.next_lsn < u64::MAX
        &&& WAL_RECORD_HEADER_SIZE + payload <= u32::MAX
        &&& WAL_HEADER_SIZE + self.all().len() + WAL_RECORD_HEADER_SIZE + payload <= usize::MAX
    }
}

/// What a commit has written out is read back, and so is everything that was
/// logged before it.
pub proof fn lemma_commit_survives(log: LogView, records: Seq<RecordView>, commit: RecordView)
    requires
        log.all() == log_of(records),
        forall|i: int| 0 <= i < records.len() ==> (#[trigger] records[i]).sized(),
        commit.sized(),
    ensures
        records_in(log.push(commit).flush_all().durable) == records.push(commit),
{
    lemma_log_push(records, commit);
    assert(log.push(commit).all() =~= log_of(records.push(commit)));
    lemma_read_back(records.push(commit));
}

impl View for Wal {
    type V = LogView;

    closed spec fn view(&self) -> LogView {
        LogView {
            header: self.header,
            durable: self.log_file@.skip(WAL_HEADER_SIZE as int),
            pending: self.wal_buffer.buffer@,
            flushed: if self.wal_buffer.offsets@.len() == 0 {
                self.header.next_lsn
            } else {
                self.wal_buffer.offsets@[0].0
            },
            starts: Seq::new(
                self.wal_buffer.offsets@.len(),
                |i: int| self.wal_buffer.offsets@[i].1 - self.wal_buffer.offsets@[0].1,
            ),
            last_len: self.last_wal_len,
        }
    }
}

/// The records in a log file, up to the first that is torn.
pub open spec fn file_records(file: Seq<u8>) -> Seq<RecordView> {
    if file.len() == 0 {
        Seq::empty()
    } else {
        records_in(file.skip(WAL_HEADER_SIZE as int))
    }
}

/// The header of a log file; that of a log that was never used for a file without
/// any bytes.
pub open spec fn file_header(file: Seq<u8>) -> WalHeader {
    if file.len() == 0 {
        WalHeader { last_checkpoint_lsn: 0, next_lsn: 0, next_txn_id: 0 }
    } else {
        header::wal_header_at(file)
    }
}

/// The least LSN from `lsn` on that is above those of some records, as far as there is
/// one.
pub open spec fn lsn_above(records: Seq<RecordView>, lsn: u64) -> u64
    decreases records.len(),
{
    if records.len() == 0 {
        lsn
    } else {
        let before = lsn_above(records.drop_last(), lsn);
        let last = records.last().header.lsn;
        if last == u64::MAX {
            last
        } else if last < before {
            before
        } else {
            (last + 1) as u64
        }
    }
}

/// The log that a file holds. What follows the last whole record is not part of it: a
/// crash has left a record half written there. The header is written after the
/// records, so that it may be behind them: the next LSN is above all LSNs of the log.
pub open spec fn opened(file: Seq<u8>) -> LogView {
    let records = file_records(file);
    let next_lsn = lsn_above(records, file_header(file).next_lsn);
    LogView {
        header: WalHeader { next_lsn, ..file_header(file) },
        durable: log_of(records),
        pending: Seq::empty(),
        flushed: next_lsn,
        starts: Seq::empty(),
        last_len: last_len_of(log_of(records)),
    }
}

/// The bytes of a file once the log in it was opened.
pub open spec fn opened_file(file: Seq<u8>) -> Seq<u8> {
    opened(file).header.encoding() + opened(file).durable
}

/// The next LSN of a log that was opened is above all LSNs in it, unless LSNs have run
/// out.
pub proof fn lemma_next_lsn(file: Seq<u8>, i: int)
    requires
        0 <= i < file_records(file).len(),
    ensures
        file_records(file)[i].header.lsn < opened(file).header.next_lsn
            || opened(file).header.next_lsn == u64::MAX,
{
    lemma_lsn_above(file_records(file), file_header(file).next_lsn, i);
}

/// What is above the LSNs stays above them, and one more is above a record more.
proof fn lemma_lsn_push(records: Seq<RecordView>, lsn: u64, r: RecordView)
    requires
        lsn_above(records, lsn) == lsn,
        lsn < u64::MAX,
        r.header.lsn == lsn,
    ensures
        lsn_above(records.push(r), (lsn + 1) as u64) == lsn + 1,
{
    lemma_lsn_more(records, lsn);
    assert(records.push(r).drop_last() =~= records);
}

proof fn lemma_lsn_more(records: Seq<RecordView>, lsn: u64)
    requires
        lsn_above(records, lsn) == lsn,
        lsn < u64::MAX,
    ensures
        lsn_above(records, (lsn + 1) as u64) == lsn + 1,
    decreases records.len(),
{
    if records.len() > 0 {
        lemma_lsn_least(records.drop_last(), lsn);
        lemma_lsn_more(records.drop_last(), lsn);
    }
}

proof fn lemma_lsn_least(records: Seq<RecordView>, lsn: u64)
    ensures
        lsn_above(records, lsn) >= lsn,
    decreases records.len(),
{
    if records.len() > 0 {
        lemma_lsn_least(records.drop_last(), lsn);
    }
}

/// The LSNs that were found are below what is above them.
proof fn lemma_lsn_again(records: Seq<RecordView>, lsn: u64)
    ensures
        lsn_above(records, lsn_above(records, lsn)) == lsn_above(records, lsn),
    decreases records.len(),
{
    lemma_lsn_fixed(records, lsn_above(records, lsn), lsn);
}

proof fn lemma_lsn_fixed(records: Seq<RecordView>, next: u64, lsn: u64)
    requires
        next >= lsn_above(records, lsn),
    ensures
        lsn_above(records, next) == next,
    decreases records.len(),
{
    if records.len() > 0 {
        let before = lsn_above(records.drop_last(), lsn);
        lemma_lsn_least(records.drop_last(), lsn);
        lemma_lsn_fixed(records.drop_last(), next, lsn);
    }
}

proof fn lemma_lsn_above(records: Seq<RecordView>, lsn: u64, i: int)
    requires
        0 <= i < records.len(),
    ensures
        records[i].header.lsn < lsn_above(records, lsn) || lsn_above(records, lsn) == u64::MAX,
    decreases records.len(),
{
    if i < records.len() - 1 {
        assert(records.drop_last()[i] == records[i]);
        lemma_lsn_above(records.drop_last(), lsn, i);
    }
}

/// What a commit writes to a log that was opened is read back, and so is everything
/// that could be read from the file, also where a crash has left a torn record at its
/// end.
pub proof fn lemma_commit_survives_reopening(file: Seq<u8>, commit: RecordView)
    requires
        file.len() == 0 || file.len() >= WAL_HEADER_SIZE,
        commit.sized(),
    ensures
        records_in(opened(file).push(commit).flush_all().durable) == file_records(file).push(
            commit,
        ),
{
    let records = file_records(file);
    if file.len() > 0 {
        lemma_records_sized(file.skip(WAL_HEADER_SIZE as int));
    }
    assert(opened(file).all() =~= log_of(records));
    lemma_commit_survives(opened(file), records, commit);
}

impl Wal {
    /// The invariant of logs.
    pub closed spec fn wf(self) -> bool {
        let n = self.wal_buffer.offsets@.len();
        &&& self.wal_buffer.wf()
        &&& self.wal_buffer.max_frames == WAL_POOL_CAPACITY
        &&& self.log_file@.len() >= WAL_HEADER_SIZE
        &&& self.last_wal_offset + self.last_wal_len == self.log_file@.len()
            + self.wal_buffer.buffer@.len()
        &&& n > 0 ==> {
            &&& self.wal_buffer.offsets@[0].1 == self.log_file@.len()
            &&& self.wal_buffer.offsets@[0].0 + n == self.header.next_lsn
        }
        &&& whole(self@.all())
        &&& lsn_above(records_in(self@.all()), self.header.next_lsn) == self.header.next_lsn
        &&& self.last_wal_len == last_len_of(self@.all())
        &&& wal_laws::in_parts(self@)
    }

    /// The log file and the buffer hold whole records.
    pub proof fn lemma_parts(self)
        requires
            self.wf(),
        ensures
            wal_laws::in_parts(self@),
    {
    }

    /// A log consists of whole records, and its next LSN is above theirs unless LSNs
    /// have run out.
    pub proof fn lemma_whole(self)
        requires
            self.wf(),
        ensures
            whole(self@.all()),
            forall|i: int|
                0 <= i < records_in(self@.all()).len() ==> (#[trigger] records_in(
                    self@.all(),
                )[i]).header.lsn < self@.header.next_lsn || self@.header.next_lsn == u64::MAX,
    {
        let records = records_in(self@.all());
        assert forall|i: int| 0 <= i < records.len() implies (#[trigger] records[i]).header.lsn
            < self@.header.next_lsn || self@.header.next_lsn == u64::MAX by {
            lemma_lsn_above(records, self.header.next_lsn, i);
        }
    }

    /// A log that is in its file as a whole is the one that is found there when the file
    /// is opened.
    pub proof fn lemma_reopened(self)
        requires
            self.wf(),
            self@.starts.len() == 0,
            self.file() == self@.header.encoding() + self@.all(),
        ensures
            opened(self.file()) == self@,
    {
        lemma_auto_spec_u64_to_from_le_bytes();
        let f = self.file();
        let h = self@.header;
        assert(h.encoding().len() == 24);
        assert(f.subrange(0, 24) =~= h.encoding());
        h.lemma_round_trip(f);
        assert(f.skip(24) =~= self@.all());
        assert(self@.pending =~= Seq::empty());
        assert(self@.all() =~= self@.durable);
        assert(opened(f) =~= self@);
    }

    /// The bytes of the log file.
    pub closed spec fn file(self) -> Seq<u8> {
        self.log_file@
    }

    /// Opens the log whose file has the given bytes. A file without any is a
    /// log that was never used.
    pub fn new(log_file: Vec<u8>) -> (r: Result<Wal, StorageError>)
        ensures
            if log_file@.len() == 0 || log_file@.len() >= WAL_HEADER_SIZE {
                &&& r matches Ok(wal)
                &&& wal.wf()
                &&& wal@ == opened(log_file@)
                &&& wal.file() == opened_file(log_file@)
            } else {
                r matches Err(e) && e == StorageError::WalTruncated
            },
    {
        let existing_len: usize = log_file.len();
        let mut records: Vec<WalRecord> = Vec::new();
        let mut header = WalHeader { last_checkpoint_lsn: 0, next_lsn: 0, next_txn_id: 0 };
        if existing_len >= WAL_HEADER_SIZE {
            header = match WalHeader::deserialize(&log_file) {
                Some(h) => h,
                None => return Err(StorageError::HeaderCorrupt),
            };
            records = read_records(&log_file, WAL_HEADER_SIZE);
        } else if existing_len > 0 {
            return Err(StorageError::WalTruncated);
        }
        let ghost all = file_records(log_file@);
        assert(views(records@) =~= all);
        header.next_lsn = next_lsn_after(&records, header.next_lsn);
        let mut log: Vec<u8> = Vec::new();
        let mut buf: [u8; WAL_HEADER_SIZE] = [0u8; WAL_HEADER_SIZE];
        proof {
            lemma_auto_spec_u64_to_from_le_bytes();
        }
        header.serialize(&mut buf);
        log.extend_from_slice(&buf);
        assert(header.encoding().len() == 24);
        assert(log@ =~= header.encoding());
        push_records(&mut log, &records);
        assert(log@.skip(24) =~= log_of(all));
        let last_wal_len: u32 = last_record_len(&log);
        let wal_buffer = WalBuffer {
            buffer: Vec::new(),
            offsets: Vec::new(),
            max_frames: WAL_POOL_CAPACITY,
        };
        let last_wal_offset: u64 = log.len() as u64 - last_wal_len as u64;
        let wal = Wal { log_file: log, wal_buffer, header, last_wal_offset, last_wal_len };
        proof {
            if log_file@.len() > 0 {
                lemma_whole_log(log_file@.skip(WAL_HEADER_SIZE as int));
            } else {
                assert(log_of(all) =~= Seq::<u8>::empty());
                assert(records_in(log_of(all)) =~= Seq::empty());
            }
            assert(wal@.all() =~= log_of(all));
            lemma_lsn_again(all, file_header(log_file@).next_lsn);
            assert(wal@.durable =~= log_of(all));
            assert(wal@.starts =~= Seq::empty());
            assert(wal@.pending =~= Seq::empty());
            wal_laws::lemma_opened_parts(log_file@);
            assert(wal@ =~= opened(log_file@));
        }
        Ok(wal)
    }

    /// The bytes of the log file.
    pub fn log_bytes(&self) -> (b: &Vec<u8>)
        ensures
            b@ == self.file(),
    {
        &self.log_file
    }

    /// The header of the log.
    pub fn header(&self) -> (h: WalHeader)
        ensures
            h == self@.header,
    {
        self.header
    }

    /// Writes the buffered records up to `lsn` to the log file.
    #[verifier::rlimit(60)]
    pub fn flush_up_to(&mut self, lsn: u64)
        requires
            old(self).wf(),
        ensures
            final(self).wf(),
            final(self)@ == old(self)@.flush(lsn),
            final(self)@.flushes(old(self)@),
            final(self)@.covers(lsn),
            lsn == u64::MAX ==> final(self)@.pending.len() == 0 && final(self)@.starts.len() == 0,
            final(self).file() == old(self)@.header.encoding() + final(self)@.durable,
    {
        let out = self.wal_buffer.drain_up_to(lsn);
        self.log_file.extend_from_slice(&out);
        self.header.serialize(&mut self.log_file);
        proof {
            lemma_auto_spec_u64_to_from_le_bytes();
            let o = old(self).log_file@;
            let e = self.header.encoding();
            assert(e.len() == 24);
            let d = o.skip(24) + out@;
            assert(self.log_file@ =~= e + d);
            assert(self@.durable =~= d);
            assert(self@.all() =~= old(self)@.all());
            let buffer = old(self).wal_buffer;
            let n = buffer.count_up_to(lsn);
            assert(n == old(self)@.count_up_to(lsn));
            assert(n < buffer.offsets@.len() ==> old(self)@.starts[n] == buffer.start(n));
            assert(self@.starts =~= old(self)@.flush(lsn).starts);
            assert(self@ =~= old(self)@.flush(lsn));
            assert(wal_laws::in_parts(self@)) by {
                wal_laws::lemma_flushed(old(self)@, lsn);
            }
            assert(self.wf());
        }
    }

    /// Writes all buffered records to the log file.
    pub fn flush_all(&mut self)
        requires
            old(self).wf(),
        ensures
            final(self).wf(),
            final(self)@ == old(self)@.flush_all(),
            final(self)@.flushes(old(self)@),
            final(self).file() == old(self)@.header.encoding() + old(self)@.all(),
    {
        self.flush_up_to(u64::MAX);
        assert(self@.starts =~= Seq::empty());
        assert(self@.pending =~= Seq::empty());
        assert(self@.durable =~= self@.all());
    }

    /// Appends a record to the log. A full buffer is written out first.
    fn append_record(
        &mut self,
        txn_id: u64,
        record_type: RecordType,
        page_id: u64,
        is_index: bool,
        offset: u16,
        payload: &[u8],
    ) -> (lsn: u64)
        requires
            old(self).wf(),
            old(self)@.has_room(payload@.len()),
        ensures
            final(self).wf(),
            lsn == old(self)@.header.next_lsn,
            final(self)@ == old(self)@.push(
                next_record(
                    old(self)@,
                    txn_id,
                    record_type,
                    page_id,
                    is_index,
                    offset,
                    payload@,
                ),
            ),
            records_in(final(self)@.all()) == records_in(old(self)@.all()).push(
                next_record(
                    old(self)@,
                    txn_id,
                    record_type,
                    page_id,
                    is_index,
                    offset,
                    payload@,
                ),
            ),
    {
        let lsn: u64 = self.header.next_lsn;
        let rec_offset: u64 = self.last_wal_offset + self.last_wal_len as u64;
        let wal_rec_header = WalRecordHeader {
            lsn,
            prev_record_len: self.last_wal_len,
            txn_id,
            record_type,
            page_id,
            is_index,
            payload_len: payload.len() as u32,
            payload_page_offset: offset,
        };
        let mut wal_rec_buf: [u8; WAL_RECORD_HEADER_SIZE] = [0u8; WAL_RECORD_HEADER_SIZE];
        wal_rec_header.serialize(&mut wal_rec_buf);
        let mut buf: Vec<u8> = Vec::with_capacity(WAL_RECORD_HEADER_SIZE + payload.len());
        buf.extend_from_slice(&wal_rec_buf);
        buf.extend_from_slice(payload);
        proof {
            lemma_auto_spec_u64_to_from_le_bytes();
            lemma_auto_spec_u32_to_from_le_bytes();
            lemma_auto_spec_u16_to_from_le_bytes();
            let rec = next_record(
                old(self)@,
                txn_id,
                record_type,
                page_id,
                is_index,
                offset,
                payload@,
            );
            assert(wal_rec_header.encoding().len() == 36);
            assert(wal_rec_buf@ =~= wal_rec_header.encoding());
            assert(rec.header == wal_rec_header);
            assert(buf@ =~= rec.encoding());
        }
        let full: bool = self.wal_buffer.offsets.len() == self.wal_buffer.max_frames;
        let out = self.wal_buffer.insert(&buf, lsn, rec_offset as usize);
        if full {
            self.log_file.extend_from_slice(&out);
            self.header.serialize(&mut self.log_file);
        }
        proof {
            if full {
                let o = old(self).log_file@;
                let e = self.header.encoding();
                assert(e.len() == 24);
                assert(self.log_file@ =~= e + (o.skip(24) + out@));
                assert(self.log_file@.skip(24) =~= o.skip(24) + out@);
            }
            assert(Seq::<u8>::empty() + buf@ =~= buf@);
        }
        self.header.next_lsn = lsn + 1;
        self.last_wal_len = (payload.len() + WAL_RECORD_HEADER_SIZE) as u32;
        self.last_wal_offset = rec_offset;
        proof {
            let rec = next_record(
                old(self)@,
                txn_id,
                record_type,
                page_id,
                is_index,
                offset,
                payload@,
            );
            assert(self@.all() =~= old(self)@.all() + buf@);
            let records = records_in(old(self)@.all());
            lemma_whole_push(old(self)@.all(), rec);
            lemma_lsn_push(records, lsn, rec);
            lemma_records_sized(old(self)@.all());
            lemma_last_len(records, rec);
            lemma_log_push(records, rec);
            wal_laws::lemma_pushed(old(self)@, rec);
            assert(self@.starts =~= old(self)@.push(rec).starts);
            assert(self@ =~= old(self)@.push(rec));
        }
        lsn
    }

    /// Appends a record to the log. The log is written out when a transaction
    /// commits.
    pub fn write_record(
        &mut self,
        txn_id: u64,
        record_type: RecordType,
        page_id: u64,
        is_index: bool,
        payload: UpdatePayload,
    ) -> (r: Result<u64, StorageError>)
        requires
            old(self).wf(),
            old(self)@.has_room(4 + payload.undo_data@.len() + payload.redo_data@.len()),
        ensures
            final(self).wf(),
            r == Ok::<u64, StorageError>(old(self)@.header.next_lsn),
            ({
                let log = old(self)@.push(
                    next_record(
                        old(self)@,
                        txn_id,
                        record_type,
                        page_id,
                        is_index,
                        payload.offset_in_page,
                        payload.encoding(),
                    ),
                );
                final(self)@ == (if record_type == RecordType::Commit {
                    log.flush_all()
                } else {
                    log
                })
            }),
            record_type == RecordType::Commit ==> {
                &&& final(self)@.covers(old(self)@.header.next_lsn)
                &&& opened(final(self).file()) == final(self)@
                &&& file_records(final(self).file()) == records_in(old(self)@.all()).push(
                    next_record(
                        old(self)@,
                        txn_id,
                        record_type,
                        page_id,
                        is_index,
                        payload.offset_in_page,
                        payload.encoding(),
                    ),
                )
            },
    {
        proof {
            lemma_auto_spec_u16_to_from_le_bytes();
        }
        let mut buf: Vec<u8> = Vec::new();
        push_sized(&mut buf, payload.undo_data);
        push_sized(&mut buf, payload.redo_data);
        assert(buf@ =~= payload.encoding());
        let lsn: u64 = self.append_record(
            txn_id,
            record_type,
            page_id,
            is_index,
            payload.offset_in_page,
            &buf,
        );
        let ghost mid = self@;
        if record_type == RecordType::Commit {
            self.flush_all();
            proof {
                assert(self@.all() =~= mid.all());
                self.lemma_reopened();
                assert(self.file().skip(24) =~= self@.all()) by {
                    assert(mid.header.encoding().len() == 24) by {
                        lemma_auto_spec_u64_to_from_le_bytes();
                    }
                }
            }
        }
        Ok(lsn)
    }

    /// Logs that a change was undone: redoing the record undoes the change.
    pub fn write_clr(
        &mut self,
        txn_id: u64,
        is_index: bool,
        page_id: u64,
        offset: u16,
        undo: &[u8],
    ) -> (lsn: u64)
        requires
            old(self).wf(),
            old(self)@.has_room(4 + undo@.len()),
        ensures
            final(self).wf(),
            lsn == old(self)@.header.next_lsn,
            final(self)@ == old(self)@.push(
                next_record(
                    old(self)@,
                    txn_id,
                    RecordType::Clr,
                    page_id,
                    is_index,
                    offset,
                    sized(Seq::empty()) + sized(undo@),
                ),
            ),
    {
        proof {
            lemma_auto_spec_u16_to_from_le_bytes();
        }
        let none: [u8; 0] = [];
        let mut buf: Vec<u8> = Vec::new();
        push_sized(&mut buf, &none);
        push_sized(&mut buf, undo);
        assert(none@ =~= Seq::<u8>::empty());
        assert(buf@ =~= sized(Seq::empty()) + sized(undo@));
        self.append_record(txn_id, RecordType::Clr, page_id, is_index, offset, &buf)
    }

    /// Logs that a transaction was rolled back.
    pub fn abort_transaction(&mut self, txn_id: u64) -> (lsn: u64)
        requires
            old(self).wf(),
            old(self)@.has_room(0),
        ensures
            final(self).wf(),
            lsn == old(self)@.header.next_lsn,
            final(self)@ == old(self)@.push(
                next_record(old(self)@, txn_id, RecordType::Abort, 0, false, 0, Seq::empty()),
            ),
    {
        let none: [u8; 0] = [];
        assert(none@ =~= Seq::<u8>::empty());
        self.append_record(txn_id, RecordType::Abort, 0, false, 0, &none)
    }

    /// The records in the log file, the earliest first.
    pub fn read_all_records(&self) -> (records: Vec<WalRecord>)
        requires
            self.wf(),
        ensures
            views(records@) == records_in(self@.durable),
    {
        read_records(&self.log_file, WAL_HEADER_SIZE)
    }
}

/// The record that goes next into the log.
pub open spec fn next_record(
    log: LogView,
    txn_id: u64,
    record_type: RecordType,
    page_id: u64,
    is_index: bool,
    offset: u16,
    payload: Seq<u8>,
) -> RecordView {
    RecordView {
        header: WalRecordHeader {
            lsn: log.header.next_lsn,
            prev_record_len: log.last_len,
            txn_id,
            record_type,
            page_id,
            is_index,
            payload_len: payload.len() as u32,
            payload_page_offset: offset,
        },
        payload,
    }
}

/// Where record `i` starts in the log.
pub open spec fn place_of(records: Seq<RecordView>, i: int) -> int {
    log_of(records.take(i)).len() as int
}

/// Each record but the first has the size of the one before it.
pub open spec fn linked(records: Seq<RecordView>) -> bool {
    forall|i: int|
        0 < i < records.len() ==> (#[trigger] records[i]).header.prev_record_len == records[i
            - 1].encoding().len()
}

/// The log can be followed backwards: a record starts as many bytes behind the
/// one before it as it says.
pub proof fn lemma_track_back(records: Seq<RecordView>, i: int)
    requires
        linked(records),
        0 < i < records.len(),
    ensures
        place_of(records, i) - records[i].header.prev_record_len == place_of(records, i - 1),
{
    assert(records.take(i) =~= records.take(i - 1).push(records[i - 1]));
    lemma_log_push(records.take(i - 1), records[i - 1]);
}

/// A log to which records are only appended can be followed backwards, and its
/// LSNs count up.
pub proof fn lemma_append_linked(
    log: LogView,
    records: Seq<RecordView>,
    txn_id: u64,
    record_type: RecordType,
    page_id: u64,
    is_index: bool,
    offset: u16,
    payload: Seq<u8>,
)
    requires
        log.all() == log_of(records),
        linked(records),
        records.len() > 0 ==> log.last_len == records.last().encoding().len(),
        log.has_room(payload.len()),
    ensures
        ({
            let r = next_record(log, txn_id, record_type, page_id, is_index, offset, payload);
            &&& r.header.lsn == log.header.next_lsn
            &&& log.push(r).header.next_lsn == r.header.lsn + 1
            &&& linked(records.push(r))
            &&& log.push(r).all() == log_of(records.push(r))
            &&& log.push(r).last_len == r.encoding().len()
        }),
{
    lemma_auto_spec_u64_to_from_le_bytes();
    lemma_auto_spec_u32_to_from_le_bytes();
    lemma_auto_spec_u16_to_from_le_bytes();
    let r = next_record(log, txn_id, record_type, page_id, is_index, offset, payload);
    assert(r.header.encoding().len() == 36);
    lemma_log_push(records, r);
    assert(log.push(r).all() =~= log_of(records.push(r)));
    assert forall|i: int| 0 < i < records.push(r).len() implies (
    #[trigger] records.push(r)[i]).header.prev_record_len == records.push(r)[i
        - 1].encoding().len() by {
        if i < records.len() {
            assert(records.push(r)[i] == records[i]);
        }
    }
}

/// The size of the last record of a log, or 0 where it has none or ends in a
/// torn one.
pub open spec fn last_len_of(s: Seq<u8>) -> u32
    decreases s.len(),
{
    match first_record(s) {
        None => 0,
        Some(r) => {
            let len = WAL_RECORD_HEADER_SIZE + r.payload.len();
            if len == s.len() && len <= u32::MAX {
                len as u32
            } else {
                last_len_of(s.skip(len))
            }
        },
    }
}

/// The last record of a log is the one that was appended.
proof fn lemma_last_len(records: Seq<RecordView>, r: RecordView)
    requires
        r.sized(),
        forall|i: int| 0 <= i < records.len() ==> (#[trigger] records[i]).sized(),
        WAL_RECORD_HEADER_SIZE + r.payload.len() <= u32::MAX,
    ensures
        last_len_of(log_of(records.push(r))) == r.encoding().len(),
    decreases records.len(),
{
    lemma_auto_spec_u64_to_from_le_bytes();
    lemma_auto_spec_u32_to_from_le_bytes();
    lemma_auto_spec_u16_to_from_le_bytes();
    let all = records.push(r);
    let s = log_of(all);
    let x = all[0];
    let rest = all.skip(1);
    assert(x.sized());
    assert(x.header.encoding().len() == 36 && r.header.encoding().len() == 36);
    assert(s.subrange(0, 36) =~= x.header.encoding());
    x.header.lemma_round_trip(s);
    let end: int = 36 + x.payload.len() as int;
    assert(s.subrange(36, end) =~= x.payload);
    assert(s.skip(end) =~= log_of(rest));
    assert(first_record(s) == Some(x));
    if records.len() == 0 {
        assert(rest =~= Seq::empty());
        assert(log_of(rest) =~= Seq::<u8>::empty());
    } else {
        assert(rest =~= records.skip(1).push(r));
        assert forall|i: int| 0 <= i < records.skip(1).len() implies (
        #[trigger] records.skip(1)[i]).sized() by {
            assert(records.skip(1)[i] == records[i + 1]);
        }
        lemma_last_len(records.skip(1), r);
        lemma_log_push(records.skip(1), r);
        assert(log_of(rest).len() > 0);
    }
}

/// The size of the last record of a log file.
fn last_record_len(log: &[u8]) -> (n: u32)
    requires
        log@.len() >= WAL_HEADER_SIZE,
    ensures
        n == last_len_of(log@.skip(WAL_HEADER_SIZE as int)),
        n + WAL_HEADER_SIZE <= log@.len(),
{
    let total: usize = log.len();
    let mut at: usize = WAL_HEADER_SIZE;
    loop
        invariant
            WAL_HEADER_SIZE <= at <= total,
            total == log@.len(),
            last_len_of(log@.skip(at as int)) == last_len_of(log@.skip(WAL_HEADER_SIZE as int)),
        decreases total - at,
    {
        let ghost s = log@.skip(at as int);
        if total - at < WAL_RECORD_HEADER_SIZE {
            return 0;
        }
        let rest = &log[at..total];
        assert(rest@ =~= s);
        let len: usize = match WalRecordHeader::deserialize(rest) {
            None => return 0,
            Some(header) => header.payload_len as usize,
        };
        if len > total - at - WAL_RECORD_HEADER_SIZE {
            return 0;
        }
        let size: usize = WAL_RECORD_HEADER_SIZE + len;
        if size == total - at && size <= u32::MAX as usize {
            return size as u32;
        }
        at = at + size;
        assert(s.skip(size as int) =~= log@.skip(at as int));
    }
}

/// The least LSN from `lsn` on that is above those of some records, as far as there is
/// one.
fn next_lsn_after(records: &Vec<WalRecord>, lsn: u64) -> (next: u64)
    ensures
        next == lsn_above(views(records@), lsn),
{
    let ghost all = views(records@);
    let mut next: u64 = lsn;
    let mut i: usize = 0;
    assert(all.take(0) =~= Seq::empty());
    while i < records.len()
        invariant
            i <= records@.len(),
            all == views(records@),
            next == lsn_above(all.take(i as int), lsn),
        decreases records@.len() - i,
    {
        let last: u64 = records[i].header.lsn;
        proof {
            assert(all.take(i + 1).drop_last() =~= all.take(i as int));
            assert(all.take(i + 1).last() == records@[i as int]@);
        }
        if last == u64::MAX {
            next = last;
        } else if last >= next {
            next = last + 1;
        }
        i = i + 1;
    }
    assert(all.take(i as int) =~= all);
    next
}

/// Appends the bytes of records.
fn push_records(log: &mut Vec<u8>, records: &Vec<WalRecord>)
    ensures
        final(log)@ == old(log)@ + log_of(views(records@)),
{
    let ghost all = views(records@);
    let mut i: usize = 0;
    assert(all.take(0) =~= Seq::empty());
    assert(log@ + log_of(all.take(0)) =~= log@);
    while i < records.len()
        invariant
            i <= records@.len(),
            all == views(records@),
            log@ == old(log)@ + log_of(all.take(i as int)),
        decreases records@.len() - i,
    {
        let mut buf: [u8; WAL_RECORD_HEADER_SIZE] = [0u8; WAL_RECORD_HEADER_SIZE];
        records[i].header.serialize(&mut buf);
        log.extend_from_slice(&buf);
        log.extend_from_slice(&records[i].payload);
        proof {
            lemma_auto_spec_u64_to_from_le_bytes();
            lemma_auto_spec_u32_to_from_le_bytes();
            lemma_auto_spec_u16_to_from_le_bytes();
            let r = records@[i as int]@;
            assert(r.header.encoding().len() == 36);
            assert(buf@ =~= r.header.encoding());
            assert(all.take(i + 1) =~= all.take(i as int).push(r));
            lemma_log_push(all.take(i as int), r);
            assert(log@ =~= old(log)@ + log_of(all.take(i + 1)));
        }
        i = i + 1;
    }
    assert(all.take(i as int) =~= all);
}

/// A page that was dirty at a checkpoint.
#[derive(Clone, Copy, Debug, PartialEq, Eq, Structural)]
pub struct DirtyPageEntry {
    pub is_index: bool,
    pub page_id: u64,
    pub rec_lsn: u64,
}

/// A transaction that was active at a checkpoint.
#[derive(Clone, Copy, Debug, PartialEq, Eq, Structural)]
pub struct TxnEntry {
    pub txn_id: u64,
    pub last_lsn: u64,
}

/// What a checkpoint record holds.
pub struct CheckpointData {
    pub dpt: Vec<DirtyPageEntry>,
    pub att: Vec<TxnEntry>,
}

/// Size of a dirty page entry on disk.
pub const DPT_ENTRY_SIZE: usize = 17;

/// Size of a transaction entry on disk.
pub const ATT_ENTRY_SIZE: usize = 16;

/// The bytes of a dirty page entry.
pub open spec fn dpt_entry(e: DirtyPageEntry) -> Seq<u8> {
    seq![
        if e.is_index {
            1u8
        } else {
            0u8
        },
    ] + spec_u64_to_le_bytes(e.page_id) + spec_u64_to_le_bytes(e.rec_lsn)
}

/// The bytes of a transaction entry.
pub open spec fn att_entry(e: TxnEntry) -> Seq<u8> {
    spec_u64_to_le_bytes(e.txn_id) + spec_u64_to_le_bytes(e.last_lsn)
}

/// The bytes of dirty page entries.
pub open spec fn dpt_bytes(s: Seq<DirtyPageEntry>) -> Seq<u8>
    decreases s.len(),
{
    if s.len() == 0 {
        Seq::empty()
    } else {
        dpt_bytes(s.drop_last()) + dpt_entry(s.last())
    }
}

/// The bytes of transaction entries.
pub open spec fn att_bytes(s: Seq<TxnEntry>) -> Seq<u8>
    decreases s.len(),
{
    if s.len() == 0 {
        Seq::empty()
    } else {
        att_bytes(s.drop_last()) + att_entry(s.last())
    }
}

/// The payload of a checkpoint record.
pub open spec fn checkpoint_bytes(dpt: Seq<DirtyPageEntry>, att: Seq<TxnEntry>) -> Seq<u8> {
    spec_u32_to_le_bytes(dpt.len() as u32) + dpt_bytes(dpt) + spec_u32_to_le_bytes(
        att.len() as u32,
    ) + att_bytes(att)
}

/// The dirty page entry at a place.
pub open spec fn dpt_entry_at(p: Seq<u8>, at: int) -> DirtyPageEntry {
    DirtyPageEntry {
        is_index: p[at] == 1,
        page_id: bytes::u64_at(p, at + 1),
        rec_lsn: bytes::u64_at(p, at + 9),
    }
}

/// The transaction entry at a place.
pub open spec fn att_entry_at(p: Seq<u8>, at: int) -> TxnEntry {
    TxnEntry { txn_id: bytes::u64_at(p, at), last_lsn: bytes::u64_at(p, at + 8) }
}

/// The tables of a checkpoint payload.
pub open spec fn checkpoint_of(p: Seq<u8>) -> Option<(Seq<DirtyPageEntry>, Seq<TxnEntry>)> {
    if p.len() < 8 {
        None
    } else {
        let n = bytes::u32_at(p, 0) as int;
        if 8 + DPT_ENTRY_SIZE * n > p.len() {
            None
        } else {
            let base = 4 + DPT_ENTRY_SIZE * n;
            let m = bytes::u32_at(p, base) as int;
            if base + 4 + ATT_ENTRY_SIZE * m > p.len() {
                None
            } else {
                Some(
                    (
                        Seq::new(n as nat, |i: int| dpt_entry_at(p, 4 + DPT_ENTRY_SIZE * i)),
                        Seq::new(
                            m as nat,
                            |i: int| att_entry_at(p, base + 4 + ATT_ENTRY_SIZE * i),
                        ),
                    ),
                )
            }
        }
    }
}

proof fn lemma_dpt_bytes(s: Seq<DirtyPageEntry>)
    ensures
        dpt_bytes(s).len() == DPT_ENTRY_SIZE * s.len(),
        forall|i: int|
            0 <= i < s.len() ==> dpt_bytes(s).subrange(
                DPT_ENTRY_SIZE * i,
                DPT_ENTRY_SIZE * i + DPT_ENTRY_SIZE,
            ) == dpt_entry(#[trigger] s[i]),
    decreases s.len(),
{
    lemma_auto_spec_u64_to_from_le_bytes();
    if s.len() > 0 {
        let rest = s.drop_last();
        lemma_dpt_bytes(rest);
        let b = dpt_bytes(s);
        assert(dpt_entry(s.last()).len() == 17);
        assert forall|i: int| 0 <= i < s.len() implies b.subrange(
            DPT_ENTRY_SIZE * i,
            DPT_ENTRY_SIZE * i + DPT_ENTRY_SIZE,
        ) == dpt_entry(#[trigger] s[i]) by {
            if i < rest.len() {
                assert(rest[i] == s[i]);
                assert(b.subrange(DPT_ENTRY_SIZE * i, DPT_ENTRY_SIZE * i + DPT_ENTRY_SIZE)
                    =~= dpt_bytes(rest).subrange(
                    DPT_ENTRY_SIZE * i,
                    DPT_ENTRY_SIZE * i + DPT_ENTRY_SIZE,
                ));
            } else {
                assert(b.subrange(DPT_ENTRY_SIZE * i, DPT_ENTRY_SIZE * i + DPT_ENTRY_SIZE)
                    =~= dpt_entry(s.last()));
            }
        }
    }
}

proof fn lemma_att_bytes(s: Seq<TxnEntry>)
    ensures
        att_bytes(s).len() == ATT_ENTRY_SIZE * s.len(),
        forall|i: int|
            0 <= i < s.len() ==> att_bytes(s).subrange(
                ATT_ENTRY_SIZE * i,
                ATT_ENTRY_SIZE * i + ATT_ENTRY_SIZE,
            ) == att_entry(#[trigger] s[i]),
    decreases s.len(),
{
    lemma_auto_spec_u64_to_from_le_bytes();
    if s.len() > 0 {
        let rest = s.drop_last();
        lemma_att_bytes(rest);
        let b = att_bytes(s);
        assert(att_entry(s.last()).len() == 16);
        assert forall|i: int| 0 <= i < s.len() implies b.subrange(
            ATT_ENTRY_SIZE * i,
            ATT_ENTRY_SIZE * i + ATT_ENTRY_SIZE,
        ) == att_entry(#[trigger] s[i]) by {
            if i < rest.len() {
                assert(rest[i] == s[i]);
                assert(b.subrange(ATT_ENTRY_SIZE * i, ATT_ENTRY_SIZE * i + ATT_ENTRY_SIZE)
                    =~= att_bytes(rest).subrange(
                    ATT_ENTRY_SIZE * i,
                    ATT_ENTRY_SIZE * i + ATT_ENTRY_SIZE,
                ));
            } else {
                assert(b.subrange(ATT_ENTRY_SIZE * i, ATT_ENTRY_SIZE * i + ATT_ENTRY_SIZE)
                    =~= att_entry(s.last()));
            }
        }
    }
}

/// A checkpoint is read back as it was written.
pub proof fn lemma_checkpoint_read_back(dpt: Seq<DirtyPageEntry>, att: Seq<TxnEntry>)
    requires
        dpt.len() <= u32::MAX,
        att.len() <= u32::MAX,
    ensures
        checkpoint_of(checkpoint_bytes(dpt, att)) == Some((dpt, att)),
        checkpoint_bytes(dpt, att).len() == 8 + DPT_ENTRY_SIZE * dpt.len() + ATT_ENTRY_SIZE
            * att.len(),
{
    lemma_auto_spec_u64_to_from_le_bytes();
    lemma_auto_spec_u32_to_from_le_bytes();
    lemma_dpt_bytes(dpt);
    lemma_att_bytes(att);
    let p = checkpoint_bytes(dpt, att);
    let n = dpt.len() as int;
    let m = att.len() as int;
    let base = 4 + DPT_ENTRY_SIZE * n;
    assert(p.subrange(0, 4) =~= spec_u32_to_le_bytes(n as u32));
    assert(p.subrange(base, base + 4) =~= spec_u32_to_le_bytes(m as u32));
    assert forall|i: int| 0 <= i < n implies dpt_entry_at(p, 4 + DPT_ENTRY_SIZE * i)
        == #[trigger] dpt[i] by {
        let at = 4 + DPT_ENTRY_SIZE * i;
        let e = dpt_entry(dpt[i]);
        assert(p.subrange(at, at + 17) =~= dpt_bytes(dpt).subrange(
            DPT_ENTRY_SIZE * i,
            DPT_ENTRY_SIZE * i + DPT_ENTRY_SIZE,
        ));
        assert(p.subrange(at, at + 17) == e);
        assert(p[at] == p.subrange(at, at + 17)[0]);
        assert(p.subrange(at + 1, at + 9) =~= e.subrange(1, 9));
        assert(e.subrange(1, 9) =~= spec_u64_to_le_bytes(dpt[i].page_id));
        assert(p.subrange(at + 9, at + 17) =~= e.subrange(9, 17));
        assert(e.subrange(9, 17) =~= spec_u64_to_le_bytes(dpt[i].rec_lsn));
    }
    assert forall|i: int| 0 <= i < m implies att_entry_at(p, base + 4 + ATT_ENTRY_SIZE * i)
        == #[trigger] att[i] by {
        let at = base + 4 + ATT_ENTRY_SIZE * i;
        let e = att_entry(att[i]);
        assert(p.subrange(at, at + 16) =~= att_bytes(att).subrange(
            ATT_ENTRY_SIZE * i,
            ATT_ENTRY_SIZE * i + ATT_ENTRY_SIZE,
        ));
        assert(p.subrange(at, at + 8) =~= e.subrange(0, 8));
        assert(e.subrange(0, 8) =~= spec_u64_to_le_bytes(att[i].txn_id));
        assert(p.subrange(at + 8, at + 16) =~= e.subrange(8, 16));
        assert(e.subrange(8, 16) =~= spec_u64_to_le_bytes(att[i].last_lsn));
    }
    assert(checkpoint_of(p).unwrap().0 =~= dpt);
    assert(checkpoint_of(p).unwrap().1 =~= att);
}

/// Appends a 32 bit number.
fn push_u32(buf: &mut Vec<u8>, v: u32)
    ensures
        final(buf)@ == old(buf)@ + spec_u32_to_le_bytes(v),
{
    let mut b: [u8; 4] = [0u8; 4];
    bytes::put_u32(&mut b, 0, v);
    proof {
        lemma_auto_spec_u32_to_from_le_bytes();
        assert(b@ =~= spec_u32_to_le_bytes(v));
    }
    buf.extend_from_slice(&b);
    assert(buf@ =~= old(buf)@ + spec_u32_to_le_bytes(v));
}

/// Appends a 64 bit number.
fn push_u64(buf: &mut Vec<u8>, v: u64)
    ensures
        final(buf)@ == old(buf)@ + spec_u64_to_le_bytes(v),
{
    let mut b: [u8; 8] = [0u8; 8];
    bytes::put_u64(&mut b, 0, v);
    proof {
        lemma_auto_spec_u64_to_from_le_bytes();
        assert(b@ =~= spec_u64_to_le_bytes(v));
    }
    buf.extend_from_slice(&b);
    assert(buf@ =~= old(buf)@ + spec_u64_to_le_bytes(v));
}

/// The payload of a checkpoint record.
fn encode_checkpoint(dpt: &Vec<DirtyPageEntry>, att: &Vec<TxnEntry>) -> (buf: Vec<u8>)
    requires
        dpt@.len() <= u32::MAX,
        att@.len() <= u32::MAX,
    ensures
        buf@ == checkpoint_bytes(dpt@, att@),
{
    let mut buf: Vec<u8> = Vec::new();
    push_u32(&mut buf, dpt.len() as u32);
    let ghost head = buf@;
    let mut i: usize = 0;
    assert(dpt@.take(0) =~= Seq::empty());
    assert(head + dpt_bytes(dpt@.take(0)) =~= head);
    while i < dpt.len()
        invariant
            i <= dpt@.len(),
            buf@ == head + dpt_bytes(dpt@.take(i as int)),
        decreases dpt@.len() - i,
    {
        let e: DirtyPageEntry = dpt[i];
        let flag: u8 = if e.is_index {
            1
        } else {
            0
        };
        buf.push(flag);
        push_u64(&mut buf, e.page_id);
        push_u64(&mut buf, e.rec_lsn);
        proof {
            assert(dpt@.take(i + 1).drop_last() =~= dpt@.take(i as int));
            assert(buf@ =~= head + (dpt_bytes(dpt@.take(i as int)) + dpt_entry(e)));
        }
        i = i + 1;
    }
    assert(dpt@.take(i as int) =~= dpt@);
    push_u32(&mut buf, att.len() as u32);
    let ghost head2 = buf@;
    let mut j: usize = 0;
    assert(att@.take(0) =~= Seq::empty());
    assert(head2 + att_bytes(att@.take(0)) =~= head2);
    while j < att.len()
        invariant
            j <= att@.len(),
            buf@ == head2 + att_bytes(att@.take(j as int)),
        decreases att@.len() - j,
    {
        let e: TxnEntry = att[j];
        push_u64(&mut buf, e.txn_id);
        push_u64(&mut buf, e.last_lsn);
        proof {
            assert(att@.take(j + 1).drop_last() =~= att@.take(j as int));
            assert(buf@ =~= head2 + (att_bytes(att@.take(j as int)) + att_entry(e)));
        }
        j = j + 1;
    }
    assert(att@.take(j as int) =~= att@);
    assert(buf@ =~= checkpoint_bytes(dpt@, att@));
    buf
}

impl WalRecord {
    /// The tables of a checkpoint.
    pub fn parse_checkpoint(&self) -> (r: Option<CheckpointData>)
        ensures
            match checkpoint_of(self.payload@) {
                Some((dpt, att)) => r matches Some(c) && c.dpt@ == dpt && c.att@ == att,
                None => r is None,
            },
    {
        let p = self.payload.as_slice();
        let total: usize = p.len();
        if total < 8 {
            return None;
        }
        let n: usize = bytes::get_u32(p, 0) as usize;
        if n > (total - 8) / DPT_ENTRY_SIZE {
            return None;
        }
        let base: usize = 4 + DPT_ENTRY_SIZE * n;
        let m: usize = bytes::get_u32(p, base) as usize;
        if m > (total - base - 4) / ATT_ENTRY_SIZE {
            return None;
        }
        let mut dpt: Vec<DirtyPageEntry> = Vec::new();
        let mut i: usize = 0;
        while i < n
            invariant
                i <= n,
                p@ == self.payload@,
                8 + DPT_ENTRY_SIZE * n <= p@.len(),
                p@.len() <= usize::MAX,
                dpt@ == Seq::new(i as nat, |k: int| dpt_entry_at(p@, 4 + DPT_ENTRY_SIZE * k)),
            decreases n - i,
        {
            let at: usize = 4 + DPT_ENTRY_SIZE * i;
            dpt.push(
                DirtyPageEntry {
                    is_index: p[at] == 1,
                    page_id: bytes::get_u64(p, at + 1),
                    rec_lsn: bytes::get_u64(p, at + 9),
                },
            );
            i = i + 1;
            assert(dpt@ =~= Seq::new(i as nat, |k: int| dpt_entry_at(p@, 4 + DPT_ENTRY_SIZE * k)));
        }
        let mut att: Vec<TxnEntry> = Vec::new();
        let mut j: usize = 0;
        while j < m
            invariant
                j <= m,
                p@ == self.payload@,
                base + 4 + ATT_ENTRY_SIZE * m <= p@.len(),
                p@.len() <= usize::MAX,
                att@ == Seq::new(
                    j as nat,
                    |k: int| att_entry_at(p@, base + 4 + ATT_ENTRY_SIZE * k),
                ),
            decreases m - j,
        {
            let at: usize = base + 4 + ATT_ENTRY_SIZE * j;
            att.push(
                TxnEntry {
                    txn_id: bytes::get_u64(p, at),
                    last_lsn: bytes::get_u64(p, at + 8),
                },
            );
            j = j + 1;
            assert(att@ =~= Seq::new(
                j as nat,
                |k: int| att_entry_at(p@, base + 4 + ATT_ENTRY_SIZE * k),
            ));
        }
        Some(CheckpointData { dpt, att })
    }
}

impl Wal {
    /// Logs a checkpoint and remembers its LSN in the header.
    pub fn write_checkpoint(&mut self, dpt: &Vec<DirtyPageEntry>, att: &Vec<TxnEntry>) -> (lsn: u64)
        requires
            old(self).wf(),
            dpt@.len() <= u32::MAX,
            att@.len() <= u32::MAX,
            old(self)@.has_room(checkpoint_bytes(dpt@, att@).len()),
        ensures
            final(self).wf(),
            lsn == old(self)@.header.next_lsn,
            ({
                let w = old(self)@.push(
                    next_record(
                        old(self)@,
                        0,
                        RecordType::Checkpoint,
                        0,
                        false,
                        0,
                        checkpoint_bytes(dpt@, att@),
                    ),
                );
                final(self)@ == (LogView {
                    header: WalHeader { last_checkpoint_lsn: lsn, ..w.header },
                    ..w
                })
            }),
    {
        let payload = encode_checkpoint(dpt, att);
        let lsn: u64 = self.append_record(0, RecordType::Checkpoint, 0, false, 0, &payload);
        let ghost appended = self@;
        self.header.last_checkpoint_lsn = lsn;
        assert(wal_laws::in_parts(self@)) by {
            reveal(wal_laws::in_parts);
            assert(self@.starts =~= appended.starts);
        }
        lsn
    }

    /// The records that are not in the log file yet, the earliest first.
    pub fn read_pending_records(&self) -> (records: Vec<WalRecord>)
        ensures
            views(records@) == records_in(self@.pending),
    {
        assert(self.wal_buffer.buffer@.skip(0) =~= self.wal_buffer.buffer@);
        read_records(&self.wal_buffer.buffer, 0)
    }
}

} // verus!
