//! The heap file, the index file and their buffer pools.

use bplus_engine::storage::error::StorageError;
use bplus_engine::storage::file::PageFile;
use bplus_engine::storage::header::{PageKind, HEAP_HEADER_SIZE, HEAP_PAGE_SIZE, PAGE_SIZE};
use bplus_engine::storage::heap::Heap;
use bplus_engine::storage::index::Index;
use bplus_engine::storage::wal::{RecordType, UpdatePayload, Wal};

fn new_log() -> Wal {
    Wal::new(Vec::new()).unwrap()
}

fn log_change(wal: &mut Wal) -> u64 {
    let payload = UpdatePayload {
        offset_in_page: 0,
        undo_data: b"",
        redo_data: b"",
    };
    wal.write_record(1, RecordType::Update, 0, false, payload)
        .unwrap()
}

fn records(heap: &mut Heap, wal: &mut Wal, id: u64) -> Vec<Vec<u8>> {
    let mut out: Vec<Vec<u8>> = Vec::new();
    heap.get_record(wal, id, &mut out).unwrap();
    out
}

#[test]
fn records_fill_overflow_pages() {
    let mut wal = new_log();
    let mut heap = Heap::new(PageFile::new(Vec::new()));
    let id = heap.allocate_primary(&mut wal);
    assert_eq!(id, 0);
    let first: Vec<Vec<u8>> = vec![vec![1u8; 5000], vec![2u8; 5000], b"three".to_vec()];
    heap.insert_records(&mut wal, id, first.clone()).unwrap();
    assert_eq!(records(&mut heap, &mut wal, id), first);
    assert_eq!(heap.free_chain(&mut wal, id).unwrap(), vec![0, 1]);

    heap.insert_records(&mut wal, id, vec![vec![4u8; 8000]]).unwrap();
    assert_eq!(heap.free_chain(&mut wal, id).unwrap(), vec![0, 1, 2]);
    let mut all = first;
    all.push(vec![4u8; 8000]);
    assert_eq!(records(&mut heap, &mut wal, id), all);

    let mut tail: Vec<Vec<u8>> = vec![b"kept".to_vec()];
    heap.collect_overflow_records(&mut wal, 2, &mut tail).unwrap();
    assert_eq!(tail, vec![b"kept".to_vec(), vec![4u8; 8000]]);
    let page = heap.fetch(&mut wal, 0).unwrap();
    assert!(page.header().unwrap().has_overflow_page());
    assert!(!page.header().unwrap().is_overflow_page());
    let page = heap.fetch(&mut wal, 1).unwrap();
    assert!(page.header().unwrap().is_overflow_page());
}

#[test]
fn records_of_other_pages_stay() {
    let mut wal = new_log();
    let mut heap = Heap::new(PageFile::new(Vec::new()));
    let a = heap.allocate_primary(&mut wal);
    let b = heap.allocate_primary(&mut wal);
    let of_a: Vec<Vec<u8>> = vec![vec![1u8; 6000], vec![2u8; 6000]];
    heap.insert_records(&mut wal, a, of_a.clone()).unwrap();
    let of_b: Vec<Vec<u8>> = vec![vec![3u8; 7000], vec![4u8; 7000], b"five".to_vec()];
    heap.insert_records(&mut wal, b, of_b.clone()).unwrap();
    assert_eq!(records(&mut heap, &mut wal, a), of_a);
    assert_eq!(records(&mut heap, &mut wal, b), of_b);
    assert_eq!(heap.free_chain(&mut wal, a).unwrap(), vec![0, 2]);
}

#[test]
fn record_that_fits_on_no_page() {
    let mut wal = new_log();
    let mut heap = Heap::new(PageFile::new(Vec::new()));
    let id = heap.allocate_primary(&mut wal);
    let room = HEAP_PAGE_SIZE - HEAP_HEADER_SIZE - 4;
    let data = vec![b"ok".to_vec(), vec![0u8; room + 1], b"not reached".to_vec()];
    assert_eq!(
        heap.insert_records(&mut wal, id, data),
        Err(StorageError::HeapPageOverflow)
    );
    assert_eq!(records(&mut heap, &mut wal, id), vec![b"ok".to_vec()]);
}

#[test]
fn page_behind_the_end_of_the_file() {
    let mut wal = new_log();
    let mut heap = Heap::new(PageFile::new(Vec::new()));
    assert!(matches!(
        heap.fetch(&mut wal, 0),
        Err(StorageError::ShortRead)
    ));
    let mut out: Vec<Vec<u8>> = Vec::new();
    assert_eq!(
        heap.get_record(&mut wal, 3, &mut out),
        Err(StorageError::ShortRead)
    );
}

#[test]
fn pool_without_room() {
    let mut wal = new_log();
    let page = {
        let mut heap = Heap::new(PageFile::new(Vec::new()));
        let id = heap.allocate_primary(&mut wal);
        heap.fetch(&mut wal, id).unwrap()
    };
    let mut heap = Heap::new_with_capacity(PageFile::new(vec![page]), 0);
    assert!(matches!(
        heap.fetch(&mut wal, 0),
        Err(StorageError::PoolFull)
    ));
    assert_eq!(
        heap.free_chain(&mut wal, 0),
        Err(StorageError::PoolFull)
    );
    assert_eq!(
        heap.free_chain(&mut wal, 1),
        Err(StorageError::ShortRead)
    );
    let mut out: Vec<Vec<u8>> = Vec::new();
    assert_eq!(
        heap.collect_overflow_records(&mut wal, 0, &mut out),
        Err(StorageError::PoolFull)
    );
    assert!(out.is_empty());
}

#[test]
fn log_goes_to_disk_before_a_stolen_page() {
    let mut wal = new_log();
    let mut heap = Heap::new_with_capacity(PageFile::new(Vec::new()), 1);
    let id = heap.allocate_primary(&mut wal);
    let early = log_change(&mut wal);
    let lsn = log_change(&mut wal);
    let later = log_change(&mut wal);
    assert_eq!((early, lsn, later), (0, 1, 2));
    heap.update_lsn(id, lsn);
    assert!(wal.read_all_records().is_empty());
    let other = heap.allocate_primary(&mut wal);
    assert_ne!(other, id);
    assert_eq!(wal.read_all_records().len(), 2);
    assert_eq!(heap.stored_page(id).unwrap().header().unwrap().flags, 1);
}

#[test]
fn first_record_goes_to_disk_before_its_page() {
    let mut wal = new_log();
    let mut heap = Heap::new_with_capacity(PageFile::new(Vec::new()), 1);
    let id = heap.allocate_primary(&mut wal);
    let lsn = log_change(&mut wal);
    assert_eq!(lsn, 0);
    heap.update_lsn(id, lsn);
    log_change(&mut wal);
    assert!(wal.read_all_records().is_empty());
    heap.allocate_primary(&mut wal);
    assert_eq!(wal.read_all_records().len(), 1);
    assert_eq!(heap.stored_page(id).unwrap().header().unwrap().flags, 1);
}

#[test]
fn first_record_goes_to_disk_before_a_flushed_page() {
    let mut wal = new_log();
    let mut heap = Heap::new(PageFile::new(Vec::new()));
    let id = heap.allocate_primary(&mut wal);
    let lsn = log_change(&mut wal);
    heap.update_lsn(id, lsn);
    heap.flush(&mut wal, id);
    assert_eq!(wal.read_all_records().len(), 1);

    let lsn = log_change(&mut wal);
    heap.update_lsn(id, lsn);
    heap.flush_all(&mut wal);
    assert_eq!(wal.read_all_records().len(), 2);
    assert!(heap.dirty_page_ids().is_empty());
}

#[test]
fn record_without_room_for_a_slot_behind_it_starts_a_page() {
    let mut wal = new_log();
    let mut heap = Heap::new(PageFile::new(Vec::new()));
    let room = HEAP_PAGE_SIZE - HEAP_HEADER_SIZE;
    let a = heap.allocate_primary(&mut wal);
    heap.insert_records(&mut wal, a, vec![vec![1u8; room - 8]]).unwrap();
    assert_eq!(heap.free_chain(&mut wal, a).unwrap(), vec![0]);
    let b = heap.allocate_primary(&mut wal);
    heap.insert_records(&mut wal, b, vec![vec![1u8; room - 7]]).unwrap();
    assert_eq!(heap.free_chain(&mut wal, b).unwrap(), vec![1, 2]);
    assert_eq!(records(&mut heap, &mut wal, b), vec![vec![1u8; room - 7]]);
}

#[test]
fn log_goes_to_disk_before_a_flushed_page() {
    let mut wal = new_log();
    let mut heap = Heap::new(PageFile::new(Vec::new()));
    let id = heap.allocate_primary(&mut wal);
    log_change(&mut wal);
    let lsn = log_change(&mut wal);
    heap.update_lsn(id, lsn);
    assert_eq!(heap.page_lsn(id), 1);
    heap.flush(&mut wal, id);
    assert_eq!(wal.read_all_records().len(), 2);
    assert!(heap.dirty_page_ids().is_empty());
    assert_eq!(heap.stored_page(id).unwrap().header().unwrap().flags, 1);
}

#[test]
fn pages_are_discarded() {
    let mut wal = new_log();
    let mut heap = Heap::new(PageFile::new(Vec::new()));
    let id = heap.allocate_primary(&mut wal);
    heap.insert_records(&mut wal, id, vec![b"kept".to_vec()]).unwrap();
    heap.flush_all(&mut wal);
    heap.insert_records(&mut wal, id, vec![b"lost".to_vec()]).unwrap();
    assert_eq!(heap.dirty_page_ids(), vec![0]);
    heap.discard_dirty();
    assert_eq!(records(&mut heap, &mut wal, id), vec![b"kept".to_vec()]);
}

#[test]
fn page_is_changed_in_place() {
    let mut wal = new_log();
    let mut heap = Heap::new(PageFile::new(Vec::new()));
    let id = heap.allocate_overflow(&mut wal);
    let mut page = heap.fetch_mut(&mut wal, id).unwrap();
    page.add_cell(b"x".to_vec()).unwrap();
    heap.release(id, page);
    assert_eq!(records(&mut heap, &mut wal, id), vec![b"x".to_vec()]);
    let mut page = heap.fetch(&mut wal, id).unwrap();
    page.add_cell(b"y".to_vec()).unwrap();
    heap.write_page(&mut wal, id, page);
    assert_eq!(
        records(&mut heap, &mut wal, id),
        vec![b"x".to_vec(), b"y".to_vec()]
    );
    assert_eq!(heap.next_id(), 1);
    assert_eq!(heap.dirty_page_table(), vec![(0, 0)]);
}

#[test]
fn index_pages_are_written_and_taken() {
    let mut wal = new_log();
    let mut index = Index::new(PageFile::new(Vec::new()));
    let root = index.allocate(&mut wal, PageKind::Root);
    let leaf = index.allocate(&mut wal, PageKind::Leaf);
    assert_eq!((root, leaf), (0, 1));
    let mut page = index.fetch_mut(&mut wal, leaf);
    page.add_cell(5, 6).unwrap();
    index.store(&mut wal, leaf, page);
    assert!(index.stored_page(leaf).unwrap().data.iter().all(|b| *b == 0));
    index.take_written();
    index.flush(&mut wal, leaf);
    assert_eq!(index.take_written(), vec![1]);
    assert_eq!(index.stored_page(leaf).unwrap().num_cells().unwrap(), 1);
    index.flush_all(&mut wal);
    assert!(index.dirty_page_ids().is_empty());
    index.grow_to(4);
    assert_eq!(index.next_id(), 4);
    assert!(index.stored_page(3).is_ok());
    assert!(index.stored_page(4).is_err());
}

#[test]
fn log_goes_to_disk_before_a_stolen_index_page() {
    let mut wal = new_log();
    let mut index = Index::new(PageFile::new(Vec::new()));
    let id = index.allocate(&mut wal, PageKind::Leaf);
    log_change(&mut wal);
    let lsn = log_change(&mut wal);
    log_change(&mut wal);
    index.update_lsn(id, lsn);
    for _ in 0..10_000 {
        index.allocate(&mut wal, PageKind::Leaf);
    }
    assert_eq!(wal.read_all_records().len(), 2);
    assert_eq!(wal.read_pending_records().len(), 1);
    assert!(index.stored_page(id).unwrap().header().unwrap().page_ty == PageKind::Leaf);
    assert!(!index.dirty_page_ids().contains(&id));
}

#[test]
fn pages_start_at_multiples_of_their_size() {
    assert_eq!(Index::page_offset(3), 3 * PAGE_SIZE as u64);
    assert_eq!(Heap::page_offset(3), 3 * HEAP_PAGE_SIZE as u64);
}
