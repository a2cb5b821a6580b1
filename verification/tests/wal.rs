//! The write-ahead log.

use bplus_engine::storage::error::StorageError;
use bplus_engine::storage::header::WAL_HEADER_SIZE;
use bplus_engine::storage::wal::{
    DirtyPageEntry, RecordType, TxnEntry, UpdatePayload, Wal, WalRecordHeader, WAL_POOL_CAPACITY,
    WAL_RECORD_HEADER_SIZE,
};
use bplus_engine::storage::wal_buffer::WalBuffer;

fn new_log() -> Wal {
    Wal::new(Vec::new()).unwrap()
}

fn write(wal: &mut Wal, txn_id: u64, record_type: RecordType, undo: &[u8], redo: &[u8]) -> u64 {
    let payload = UpdatePayload {
        offset_in_page: 40,
        undo_data: undo,
        redo_data: redo,
    };
    wal.write_record(txn_id, record_type, 6, true, payload).unwrap()
}

#[test]
fn record_header_round_trip() {
    let header = WalRecordHeader {
        lsn: 1,
        prev_record_len: 2,
        txn_id: 3,
        record_type: RecordType::Clr,
        page_id: 4,
        is_index: true,
        payload_len: 5,
        payload_page_offset: 6,
    };
    let mut buf = [0u8; WAL_RECORD_HEADER_SIZE];
    header.serialize(&mut buf);
    assert_eq!(buf[0], 1);
    assert_eq!(buf[8], 2);
    assert_eq!(buf[12], 3);
    assert_eq!(buf[20], RecordType::Clr.to_u8());
    assert_eq!(buf[21], 1);
    assert_eq!(buf[22], 4);
    assert_eq!(buf[30], 5);
    assert_eq!(buf[34], 6);
    assert!(WalRecordHeader::deserialize(&buf) == Some(header));
    buf[20] = 200;
    assert!(WalRecordHeader::deserialize(&buf).is_none());
}

#[test]
fn record_types_have_codes() {
    for (record_type, code) in [
        (RecordType::Begin, 1u8),
        (RecordType::Update, 2),
        (RecordType::Commit, 3),
    ] {
        assert_eq!(record_type.to_u8(), code);
        assert!(RecordType::try_from(code) == Ok(record_type));
    }
    assert!(RecordType::try_from(0u8).is_err());
}

#[test]
fn lsns_count_up() {
    let mut wal = new_log();
    assert_eq!(write(&mut wal, 1, RecordType::Begin, b"", b""), 0);
    assert_eq!(write(&mut wal, 1, RecordType::Update, b"old", b"new"), 1);
    assert_eq!(wal.write_clr(1, true, 6, 40, b"old"), 2);
    assert_eq!(wal.abort_transaction(1), 3);
    assert_eq!(wal.header().next_lsn, 4);
    assert!(wal.read_all_records().is_empty());
    assert_eq!(wal.read_pending_records().len(), 4);
}

#[test]
fn records_are_read_back() {
    let mut wal = new_log();
    write(&mut wal, 9, RecordType::Update, b"before", b"after");
    wal.flush_all();
    let records = wal.read_all_records();
    assert_eq!(records.len(), 1);
    let h = records[0].header;
    assert_eq!(h.lsn, 0);
    assert_eq!(h.txn_id, 9);
    assert!(h.record_type == RecordType::Update);
    assert_eq!(h.page_id, 6);
    assert!(h.is_index);
    assert_eq!(h.payload_len, 4 + 6 + 5);
    assert_eq!(
        records[0].parse_update(),
        Some((40, b"before".to_vec(), b"after".to_vec()))
    );
}

#[test]
fn payload_is_written_with_sizes() {
    let payload = UpdatePayload {
        offset_in_page: 1,
        undo_data: b"ab",
        redo_data: b"c",
    };
    let mut buf: Vec<u8> = Vec::new();
    payload.serialize(&mut buf);
    assert_eq!(buf, vec![1, 0, 2, 0, b'a', b'b', 1, 0, b'c']);
}

#[test]
fn flush_stops_at_the_lsn() {
    let mut wal = new_log();
    for _ in 0..5 {
        write(&mut wal, 1, RecordType::Update, b"x", b"y");
    }
    let size = WAL_RECORD_HEADER_SIZE + 6;
    wal.flush_up_to(2);
    assert_eq!(wal.log_bytes().len(), WAL_HEADER_SIZE + 3 * size);
    assert_eq!(wal.read_all_records().len(), 3);
    assert_eq!(wal.read_pending_records().len(), 2);
    wal.flush_up_to(1);
    assert_eq!(wal.read_all_records().len(), 3);
    wal.flush_up_to(100);
    assert_eq!(wal.read_all_records().len(), 5);
    assert!(wal.read_pending_records().is_empty());
}

#[test]
fn commit_is_durable() {
    let mut wal = new_log();
    write(&mut wal, 1, RecordType::Begin, b"", b"");
    write(&mut wal, 1, RecordType::Update, b"a", b"b");
    write(&mut wal, 1, RecordType::Commit, b"", b"");
    write(&mut wal, 2, RecordType::Begin, b"", b"");
    let reopened = Wal::new(wal.log_bytes().clone()).unwrap();
    let records = reopened.read_all_records();
    assert_eq!(records.len(), 3);
    assert!(records[2].header.record_type == RecordType::Commit);
}

#[test]
fn full_buffer_is_written_out() {
    let mut wal = new_log();
    for _ in 0..WAL_POOL_CAPACITY {
        write(&mut wal, 1, RecordType::Update, b"", b"");
    }
    assert!(wal.read_all_records().is_empty());
    write(&mut wal, 1, RecordType::Update, b"", b"");
    assert_eq!(wal.read_all_records().len(), WAL_POOL_CAPACITY);
    assert_eq!(wal.read_pending_records().len(), 1);
}

#[test]
fn log_is_reopened() {
    let mut wal = new_log();
    write(&mut wal, 1, RecordType::Update, b"ab", b"cd");
    wal.flush_all();
    let mut reopened = Wal::new(wal.log_bytes().clone()).unwrap();
    assert_eq!(reopened.header().next_lsn, 1);
    assert_eq!(write(&mut reopened, 1, RecordType::Update, b"", b""), 1);
    reopened.flush_all();
    let records = reopened.read_all_records();
    assert_eq!(records.len(), 2);
    assert_eq!(
        records[1].header.prev_record_len as usize,
        WAL_RECORD_HEADER_SIZE + 8
    );
}

#[test]
fn log_is_followed_backwards() {
    let mut wal = new_log();
    write(&mut wal, 1, RecordType::Update, b"a", b"b");
    write(&mut wal, 1, RecordType::Update, b"abc", b"def");
    write(&mut wal, 1, RecordType::Update, b"", b"");
    wal.flush_all();
    let records = wal.read_all_records();
    let mut places: Vec<usize> = vec![WAL_HEADER_SIZE];
    for r in &records {
        let last = places[places.len() - 1];
        places.push(last + WAL_RECORD_HEADER_SIZE + r.payload.len());
    }
    for i in 1..records.len() {
        assert_eq!(
            places[i] - records[i].header.prev_record_len as usize,
            places[i - 1]
        );
    }
}

#[test]
fn torn_record_is_not_read() {
    let mut wal = new_log();
    write(&mut wal, 1, RecordType::Update, b"a", b"b");
    write(&mut wal, 1, RecordType::Update, b"c", b"d");
    wal.flush_all();
    let mut bytes = wal.log_bytes().clone();
    bytes.pop();
    let reopened = Wal::new(bytes).unwrap();
    assert_eq!(reopened.read_all_records().len(), 1);
}

#[test]
fn log_with_half_a_header() {
    let r = Wal::new(vec![0u8; WAL_HEADER_SIZE - 1]);
    assert!(matches!(r, Err(StorageError::WalTruncated)));
}

#[test]
fn checkpoint_is_read_back() {
    let mut wal = new_log();
    write(&mut wal, 1, RecordType::Begin, b"", b"");
    let dpt = vec![
        DirtyPageEntry {
            is_index: true,
            page_id: 3,
            rec_lsn: 7,
        },
        DirtyPageEntry {
            is_index: false,
            page_id: 4,
            rec_lsn: 8,
        },
    ];
    let att = vec![TxnEntry {
        txn_id: 1,
        last_lsn: 5,
    }];
    let lsn = wal.write_checkpoint(&dpt, &att);
    assert_eq!(lsn, 1);
    assert_eq!(wal.header().last_checkpoint_lsn, 1);
    wal.flush_all();
    let records = wal.read_all_records();
    let data = records[1].parse_checkpoint().unwrap();
    assert_eq!(data.dpt, dpt);
    assert_eq!(data.att, att);
}

#[test]
fn buffer_hands_out_a_prefix() {
    let mut buffer = WalBuffer {
        buffer: Vec::new(),
        offsets: Vec::new(),
        max_frames: 10,
    };
    assert!(!buffer.contains(0));
    buffer.insert(b"aa", 4, 100);
    buffer.insert(b"bbb", 5, 102);
    buffer.insert(b"c", 6, 105);
    assert!(buffer.contains(4));
    assert!(buffer.contains(6));
    assert!(!buffer.contains(3));
    assert!(!buffer.contains(7));
    assert_eq!(buffer.drain_up_to(3), Vec::<u8>::new());
    assert_eq!(buffer.drain_up_to(5), b"aabbb".to_vec());
    assert_eq!(buffer.buffer, b"c".to_vec());
    assert_eq!(buffer.drain_up_to(9), b"c".to_vec());
    assert!(!buffer.contains(6));
}

#[test]
fn full_buffer_makes_room() {
    let mut buffer = WalBuffer {
        buffer: Vec::new(),
        offsets: Vec::new(),
        max_frames: 2,
    };
    assert_eq!(buffer.insert(b"aa", 4, 100), Vec::<u8>::new());
    assert_eq!(buffer.insert(b"bbb", 5, 102), Vec::<u8>::new());
    assert_eq!(buffer.insert(b"c", 6, 105), b"aabbb".to_vec());
    assert!(buffer.contains(6));
    assert!(!buffer.contains(5));
    assert_eq!(buffer.buffer, b"c".to_vec());
    assert_eq!(buffer.offsets, vec![(6, 105)]);
}

#[test]
fn commit_behind_a_torn_record_is_durable() {
    let mut wal = new_log();
    write(&mut wal, 1, RecordType::Begin, b"", b"");
    write(&mut wal, 1, RecordType::Commit, b"", b"");
    let mut file = wal.log_bytes().clone();
    let whole = file.len();
    // a record that was not written to its end
    file.extend_from_slice(&[7u8; 50]);
    let mut wal = Wal::new(file).unwrap();
    assert_eq!(wal.log_bytes().len(), whole);
    assert_eq!(wal.read_all_records().len(), 2);
    assert_eq!(write(&mut wal, 2, RecordType::Commit, b"", b""), 2);
    let again = Wal::new(wal.log_bytes().clone()).unwrap();
    let records = again.read_all_records();
    assert_eq!(records.len(), 3);
    assert_eq!(records[2].header.txn_id, 2);
    assert_eq!(records[2].header.lsn, 2);
    assert_eq!(again.log_bytes(), wal.log_bytes());
}

#[test]
fn next_lsn_is_above_those_in_the_log() {
    let mut wal = new_log();
    let mut file = wal.log_bytes().clone();
    write(&mut wal, 1, RecordType::Begin, b"", b"");
    write(&mut wal, 1, RecordType::Commit, b"", b"");
    // the records are in the file, the header is not yet
    file.extend_from_slice(&wal.log_bytes()[file.len()..]);
    let reopened = Wal::new(file).unwrap();
    assert_eq!(reopened.header().next_lsn, 2);
    assert_eq!(reopened.log_bytes(), wal.log_bytes());
}
