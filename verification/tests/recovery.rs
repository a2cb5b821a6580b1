//! Logging changes of pages, and recovery.

use bplus_engine::storage::error::StorageError;
use bplus_engine::storage::file::PageFile;
use bplus_engine::storage::header::PageKind;
use bplus_engine::storage::pager::Pager;
use bplus_engine::storage::slotted_page::{Cell, HeapPage, Page};
use bplus_engine::storage::wal::{RecordType, UpdatePayload};

fn new_pager() -> Pager {
    Pager::new(
        PageFile::new(Vec::new()),
        PageFile::new(Vec::new()),
        Vec::new(),
    )
    .unwrap()
}

/// What the files hold now, as after a crash.
fn crash(pager: &Pager) -> Pager {
    let mut index_file: Vec<Page> = Vec::new();
    while let Ok(page) = pager.index.stored_page(index_file.len() as u64) {
        index_file.push(page);
    }
    let mut heap_file: Vec<HeapPage> = Vec::new();
    while let Ok(page) = pager.heap.stored_page(heap_file.len() as u64) {
        heap_file.push(page);
    }
    Pager::new(
        PageFile::new(index_file),
        PageFile::new(heap_file),
        pager.wal.log_bytes().clone(),
    )
    .unwrap()
}

fn mark(pager: &mut Pager, txn_id: u64, record_type: RecordType) {
    let payload = UpdatePayload {
        offset_in_page: 0,
        undo_data: b"",
        redo_data: b"",
    };
    pager
        .wal
        .write_record(txn_id, record_type, 0, false, payload)
        .unwrap();
}

/// Puts a byte on an index page, and logs the change.
fn set_byte(pager: &mut Pager, txn_id: u64, id: u64, at: usize, value: u8) -> Option<u64> {
    let old = pager.index.fetch_mut(&mut pager.wal, id);
    let mut new = old;
    new.data[at] = value;
    pager.index.store(&mut pager.wal, id, new);
    pager
        .log_index_diff(txn_id, id, &old.data, &new.data)
        .unwrap()
}

#[test]
fn committed_changes_are_redone() {
    let mut pager = new_pager();
    let id = pager.index.allocate(&mut pager.wal, PageKind::Leaf);
    pager.flush_all();
    mark(&mut pager, 1, RecordType::Begin);
    assert_eq!(set_byte(&mut pager, 1, id, 100, 7), Some(1));
    mark(&mut pager, 1, RecordType::Commit);

    let mut after = crash(&pager);
    assert_eq!(after.index.fetch(&mut after.wal, id).data[100], 0);
    let report = after.recover().unwrap();
    assert_eq!(report.redone_records, 1);
    assert_eq!(report.undone_records, 0);
    assert!(report.active_txns.is_empty());
    assert_eq!(report.checkpoint_lsn, 0);
    assert_eq!(after.index.fetch(&mut after.wal, id).data[100], 7);
}

#[test]
fn open_transactions_are_undone() {
    let mut pager = new_pager();
    let id = pager.index.allocate(&mut pager.wal, PageKind::Leaf);
    set_byte(&mut pager, 0, id, 100, 1);
    mark(&mut pager, 5, RecordType::Begin);
    set_byte(&mut pager, 5, id, 100, 2);
    set_byte(&mut pager, 5, id, 101, 3);
    mark(&mut pager, 6, RecordType::Begin);
    set_byte(&mut pager, 6, id, 102, 4);
    mark(&mut pager, 6, RecordType::Commit);
    pager.flush_all();

    let mut after = crash(&pager);
    assert_eq!(after.index.fetch(&mut after.wal, id).data[100], 2);
    let report = after.recover().unwrap();
    assert_eq!(report.active_txns, vec![5]);
    assert_eq!(report.redone_records, 4);
    assert_eq!(report.undone_records, 2);
    let page = after.index.fetch(&mut after.wal, id);
    assert_eq!(&page.data[100..103], &[1, 0, 4]);
    let records = after.wal.read_all_records();
    let n = records.len();
    assert!(records[n - 3].header.record_type == RecordType::Clr);
    assert_eq!(records[n - 3].header.payload_page_offset, 101);
    assert!(records[n - 2].header.record_type == RecordType::Clr);
    assert_eq!(records[n - 2].header.payload_page_offset, 100);
    assert!(records[n - 1].header.record_type == RecordType::Abort);
    assert_eq!(records[n - 1].header.txn_id, 5);
}

#[test]
fn recovery_can_be_repeated() {
    let mut pager = new_pager();
    let id = pager.index.allocate(&mut pager.wal, PageKind::Leaf);
    mark(&mut pager, 5, RecordType::Begin);
    set_byte(&mut pager, 5, id, 200, 9);
    mark(&mut pager, 6, RecordType::Begin);
    set_byte(&mut pager, 6, id, 201, 8);
    mark(&mut pager, 6, RecordType::Commit);

    let mut once = crash(&pager);
    once.recover().unwrap();
    let expected = once.index.fetch(&mut once.wal, id).data;
    assert_eq!(&expected[200..202], &[0, 8]);

    // the log was written, the pages were not
    let mut twice = crash(&once);
    let report = twice.recover().unwrap();
    assert_eq!(report.undone_records, 0);
    assert!(report.active_txns.is_empty());
    assert!(twice.index.fetch(&mut twice.wal, id).data == expected);

    // both were written
    twice.flush_all();
    let mut again = crash(&twice);
    assert_eq!(again.recover().unwrap().undone_records, 0);
    assert!(again.index.fetch(&mut again.wal, id).data == expected);
}

#[test]
fn file_grows_for_lost_pages() {
    let mut pager = new_pager();
    let undo = [0u8; 2];
    let redo = [1u8, 2];
    pager.heap.allocate_primary(&mut pager.wal);
    pager.heap.allocate_primary(&mut pager.wal);
    assert_eq!(pager.log_heap_update(0, 1, 50, &undo, &redo).unwrap(), 0);
    assert_eq!(pager.heap.page_lsn(1), 0);
    pager.wal.flush_all();

    let mut after = Pager::new(
        PageFile::new(Vec::new()),
        PageFile::new(Vec::new()),
        pager.wal.log_bytes().clone(),
    )
    .unwrap();
    let report = after.recover().unwrap();
    assert_eq!(report.redone_records, 1);
    assert_eq!(after.heap.next_id(), 2);
    let page = after.heap.fetch(&mut after.wal, 1).unwrap();
    assert_eq!(&page.data[49..53], &[0, 1, 2, 0]);
}

#[test]
fn recovery_starts_at_the_checkpoint() {
    let mut pager = new_pager();
    let id = pager.index.allocate(&mut pager.wal, PageKind::Leaf);
    mark(&mut pager, 3, RecordType::Begin);
    set_byte(&mut pager, 3, id, 60, 1);
    pager.flush_all();
    let lsn = pager.fuzzy_checkpoint().unwrap();
    assert_eq!(lsn, 2);
    set_byte(&mut pager, 3, id, 61, 2);
    mark(&mut pager, 3, RecordType::Commit);

    let mut after = crash(&pager);
    let report = after.recover().unwrap();
    assert_eq!(report.checkpoint_lsn, 2);
    // the first change was in the file, and the page was clean
    assert_eq!(report.redone_records, 1);
    assert_eq!(&after.index.fetch(&mut after.wal, id).data[60..62], &[1, 2]);
}

#[test]
fn checkpoint_lists_open_transactions() {
    let mut pager = new_pager();
    let id = pager.index.allocate(&mut pager.wal, PageKind::Leaf);
    mark(&mut pager, 3, RecordType::Begin);
    set_byte(&mut pager, 3, id, 60, 1);
    mark(&mut pager, 4, RecordType::Begin);
    mark(&mut pager, 4, RecordType::Commit);
    pager.fuzzy_checkpoint().unwrap();
    pager.wal.flush_all();
    let records = pager.wal.read_all_records();
    let data = records[records.len() - 1].parse_checkpoint().unwrap();
    assert_eq!(data.att.len(), 1);
    assert_eq!(data.att[0].txn_id, 3);
    assert_eq!(data.att[0].last_lsn, 1);
    assert_eq!(data.dpt.len(), 1);
    assert_eq!(data.dpt[0].page_id, id);
    assert_eq!(data.dpt[0].rec_lsn, 1);

    let mut after = crash(&pager);
    let report = after.recover().unwrap();
    assert_eq!(report.active_txns, vec![3]);
    assert_eq!(after.index.fetch(&mut after.wal, id).data[60], 0);
}

#[test]
fn same_pages_are_not_logged() {
    let mut pager = new_pager();
    let id = pager.index.allocate(&mut pager.wal, PageKind::Leaf);
    let page = pager.index.fetch(&mut pager.wal, id);
    assert_eq!(
        pager.log_index_diff(1, id, &page.data, &page.data).unwrap(),
        None
    );
    assert_eq!(pager.wal.header().next_lsn, 0);
}

#[test]
fn diff_covers_the_changed_bytes() {
    let mut pager = new_pager();
    let id = pager.index.allocate(&mut pager.wal, PageKind::Leaf);
    let old = pager.index.fetch(&mut pager.wal, id);
    let mut new = old;
    new.data[300] = 1;
    new.data[305] = 2;
    pager.log_index_diff(1, id, &old.data, &new.data).unwrap();
    let records = pager.wal.read_pending_records();
    assert_eq!(
        records[0].parse_update(),
        Some((300, vec![0u8; 6], vec![1, 0, 0, 0, 0, 2]))
    );
    assert_eq!(pager.dirty_pages(), (vec![id], Vec::new()));
}

#[test]
fn flushing_a_page_flushes_its_log() {
    let mut pager = new_pager();
    let id = pager.index.allocate(&mut pager.wal, PageKind::Leaf);
    mark(&mut pager, 1, RecordType::Begin);
    set_byte(&mut pager, 1, id, 90, 1);
    mark(&mut pager, 2, RecordType::Begin);
    pager.flush_index_page(id);
    assert_eq!(pager.wal.read_all_records().len(), 2);
    assert_eq!(pager.index.stored_page(id).unwrap().data[90], 1);
}

#[test]
fn first_record_is_flushed_with_its_page() {
    let mut pager = new_pager();
    let id = pager.index.allocate(&mut pager.wal, PageKind::Leaf);
    assert_eq!(set_byte(&mut pager, 1, id, 90, 1), Some(0));
    mark(&mut pager, 2, RecordType::Begin);
    pager.flush_index_page(id);
    assert_eq!(pager.wal.read_all_records().len(), 1);
    assert_eq!(pager.index.stored_page(id).unwrap().data[90], 1);
}

#[test]
fn checkpoint_names_the_first_record() {
    let mut pager = new_pager();
    let id = pager.index.allocate(&mut pager.wal, PageKind::Leaf);
    pager.index.flush_all(&mut pager.wal);
    assert_eq!(set_byte(&mut pager, 1, id, 90, 1), Some(0));
    assert_eq!(set_byte(&mut pager, 1, id, 91, 2), Some(1));
    mark(&mut pager, 1, RecordType::Commit);
    let lsn = pager.fuzzy_checkpoint().unwrap();
    pager.wal.flush_all();
    let records = pager.wal.read_all_records();
    let data = records[lsn as usize].parse_checkpoint().unwrap();
    assert_eq!(data.dpt[0].rec_lsn, 0);
    let mut pager = crash(&pager);
    let report = pager.recover().unwrap();
    assert_eq!(report.redone_records, 2);
    let page = pager.index.fetch(&mut pager.wal, id);
    assert_eq!(page.data[90..92], [1, 2]);
}

#[test]
fn undone_page_has_the_lsn_of_its_compensation_record() {
    let mut pager = new_pager();
    let id = pager.index.allocate(&mut pager.wal, PageKind::Leaf);
    mark(&mut pager, 1, RecordType::Begin);
    set_byte(&mut pager, 1, id, 90, 1);
    set_byte(&mut pager, 1, id, 91, 1);
    pager.flush_all();
    let mut pager = crash(&pager);
    let report = pager.recover().unwrap();
    assert_eq!(report.undone_records, 2);
    let records = pager.wal.read_all_records();
    assert_eq!(records[4].header.record_type, RecordType::Clr);
    assert_eq!(records[4].header.lsn, 4);
    assert_eq!(pager.index.page_lsn(id), 4);
    assert_eq!(pager.index.dirty_page_ids(), vec![id]);
}

#[test]
fn redone_page_has_the_lsn_of_its_last_record() {
    let mut pager = new_pager();
    let id = pager.index.allocate(&mut pager.wal, PageKind::Leaf);
    pager.index.flush_all(&mut pager.wal);
    mark(&mut pager, 1, RecordType::Begin);
    set_byte(&mut pager, 1, id, 90, 1);
    set_byte(&mut pager, 1, id, 91, 1);
    mark(&mut pager, 1, RecordType::Commit);
    let mut pager = crash(&pager);
    pager.recover().unwrap();
    assert_eq!(pager.index.page_lsn(id), 2);
    assert_eq!(pager.index.dirty_page_ids(), vec![id]);
}

#[test]
fn recovery_goes_on_behind_a_torn_record() {
    let mut pager = new_pager();
    let id = pager.index.allocate(&mut pager.wal, PageKind::Leaf);
    mark(&mut pager, 1, RecordType::Begin);
    set_byte(&mut pager, 1, id, 90, 1);
    pager.flush_all();
    let mut log = pager.wal.log_bytes().clone();
    log.extend_from_slice(&[1u8; 40]);
    let page = pager.index.stored_page(id).unwrap();
    let mut pager = Pager::new(
        PageFile::new(vec![page]),
        PageFile::new(Vec::new()),
        log,
    )
    .unwrap();
    let report = pager.recover().unwrap();
    assert_eq!(report.undone_records, 1);
    // the compensation record and the end of the transaction can be read
    let mut pager = crash(&pager);
    assert_eq!(pager.wal.read_all_records().len(), 4);
    let report = pager.recover().unwrap();
    assert_eq!(report.undone_records, 0);
    assert_eq!(pager.index.fetch(&mut pager.wal, id).data[90], 0);
}

#[test]
fn cell_without_a_heap_pointer() {
    let mut pager = new_pager();
    let cell = Cell {
        key: 1,
        c_ptr: None,
        h_ptr: None,
    };
    let mut out: Vec<Vec<u8>> = Vec::new();
    let e = pager.fetch_heap_data(&cell, &mut out).unwrap_err();
    assert_eq!(e, StorageError::NoHeapPointer);
    assert_eq!(e.message(), "Couldn't find the header pointer");
}
