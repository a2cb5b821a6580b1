//! Headers, index pages and heap pages.

use bplus_engine::storage::error::StorageError;
use bplus_engine::storage::header::{
    HeapHeader, IndexHeader, PageKind, WalHeader, HEADER_SIZE, HEAP_HEADER_SIZE, HEAP_PAGE_SIZE,
    PAGE_SIZE, WAL_HEADER_SIZE,
};
use bplus_engine::storage::slotted_page::{Cell, HeapPage, HeapPointer, Page, ORDER};

fn leaf_page() -> Page {
    let mut page = Page {
        data: [0u8; PAGE_SIZE],
    };
    page.init_header(7, PageKind::Leaf, 9);
    page
}

fn leaf_cell(key: u64, index: u64) -> Cell {
    Cell {
        key,
        c_ptr: None,
        h_ptr: Some(HeapPointer { index }),
    }
}

#[test]
fn index_header_round_trip() {
    let header = IndexHeader {
        id: 0x0102_0304_0506_0708,
        free_start: 0x1122,
        free_end: 0x3344,
        page_ty: PageKind::Internal,
        flags: 0x80,
        ptr: 5,
    };
    let mut buf = [0u8; HEADER_SIZE];
    header.serialize(&mut buf);
    assert_eq!(buf[0], 0x08);
    assert_eq!(buf[7], 0x01);
    assert_eq!(&buf[8..12], &[0x22, 0x11, 0x44, 0x33]);
    assert_eq!(buf[12], PageKind::Internal.to_u8());
    assert_eq!(buf[13], 0x80);
    assert_eq!(&buf[14..22], &[5, 0, 0, 0, 0, 0, 0, 0]);
    let back = IndexHeader::deserialize(&buf).unwrap();
    assert_eq!(back.id, header.id);
    assert_eq!(back.free_start, header.free_start);
    assert_eq!(back.free_end, header.free_end);
    assert!(back.page_ty == PageKind::Internal);
    assert_eq!(back.flags, header.flags);
    assert_eq!(back.ptr, header.ptr);
}

#[test]
fn index_header_of_no_kind() {
    let mut buf = [0u8; HEADER_SIZE];
    buf[12] = 77;
    assert!(IndexHeader::deserialize(&buf).is_none());
    assert!(PageKind::from_u8(77).is_none());
    for kind in [PageKind::Root, PageKind::Internal, PageKind::Leaf] {
        assert!(PageKind::from_u8(kind.to_u8()) == Some(kind));
    }
}

#[test]
fn root_leaf_flag() {
    let mut header = IndexHeader {
        id: 0,
        free_start: 0,
        free_end: 0,
        page_ty: PageKind::Root,
        flags: 0x10,
        ptr: 0,
    };
    assert!(!header.is_root_leaf());
    header.set_root_leaf();
    assert!(header.is_root_leaf());
    assert_eq!(header.flags, 0x11);
    header.clear_root_leaf();
    assert!(!header.is_root_leaf());
    assert_eq!(header.flags, 0x10);
}

#[test]
fn heap_header_flags() {
    let mut primary = HeapHeader::new_primary(3);
    assert!(!primary.is_overflow_page());
    assert!(!primary.has_overflow_page());
    assert_eq!(
        primary.remaining_space(),
        HEAP_PAGE_SIZE - HEAP_HEADER_SIZE - 4
    );
    primary.set_has_overflow(12);
    assert!(!primary.is_overflow_page());
    assert!(primary.has_overflow_page());
    assert_eq!(primary.ptr, 12);
    assert_eq!(primary.flags, 3);

    let overflow = HeapHeader::new_overflow(4);
    assert!(overflow.is_overflow_page());
    assert!(!overflow.has_overflow_page());
    assert_eq!(overflow.flags, 0);
}

#[test]
fn heap_header_round_trip() {
    let mut header = HeapHeader::new_primary(0xAABB);
    header.set_has_overflow(0xCC);
    let mut buf = [0u8; HEAP_HEADER_SIZE];
    header.serialize(&mut buf);
    assert_eq!(&buf[0..2], &[0xBB, 0xAA]);
    assert_eq!(buf[12], 3);
    assert_eq!(buf[13], 0xCC);
    let back = HeapHeader::deserialize(&buf).unwrap();
    assert_eq!(back.id, 0xAABB);
    assert_eq!(back.free_start as usize, HEAP_HEADER_SIZE);
    assert_eq!(back.free_end as usize, HEAP_PAGE_SIZE);
    assert_eq!(back.flags, 3);
    assert_eq!(back.ptr, 0xCC);
}

#[test]
fn wal_header_round_trip() {
    let header = WalHeader {
        last_checkpoint_lsn: 1,
        next_lsn: 0x0203,
        next_txn_id: 4,
    };
    let mut buf = [0u8; WAL_HEADER_SIZE];
    header.serialize(&mut buf);
    assert_eq!(buf[0], 1);
    assert_eq!(&buf[8..10], &[3, 2]);
    assert_eq!(buf[16], 4);
    let back = WalHeader::deserialize(&buf).unwrap();
    assert_eq!(back.last_checkpoint_lsn, 1);
    assert_eq!(back.next_lsn, 0x0203);
    assert_eq!(back.next_txn_id, 4);
}

#[test]
fn cells_are_kept_in_key_order() {
    let mut page = leaf_page();
    assert_eq!(page.add_cell(30, 3).unwrap(), 1);
    assert_eq!(page.add_cell(10, 1).unwrap(), 2);
    assert_eq!(page.add_cell(20, 2).unwrap(), 3);
    let cells = page.get_cells().unwrap();
    let keys: Vec<u64> = cells.iter().map(|c| c.key).collect();
    let heap: Vec<u64> = cells.iter().map(|c| c.h_ptr.unwrap().index).collect();
    assert_eq!(keys, vec![10, 20, 30]);
    assert_eq!(heap, vec![1, 2, 3]);
    let header = page.header().unwrap();
    assert_eq!(header.id, 7);
    assert_eq!(header.ptr, 9);
    assert_eq!(header.free_start as usize, HEADER_SIZE + 12);
    assert_eq!(header.free_end as usize, PAGE_SIZE - 48);
}

#[test]
fn page_takes_as_many_cells_as_the_order() {
    assert_eq!(ORDER, 203);
    let mut page = leaf_page();
    for key in 0..ORDER as u64 {
        assert_eq!(page.add_cell(key, key).unwrap(), key as usize + 1);
    }
    assert_eq!(page.add_cell(999, 0), Err(StorageError::PageOverflow));
    assert_eq!(page.num_cells().unwrap(), ORDER);
}

#[test]
fn cell_is_removed() {
    let mut page = leaf_page();
    for key in [1u64, 2, 3] {
        page.add_cell(key, key + 100).unwrap();
    }
    let removed = page.remove_cell_at(1).unwrap();
    assert_eq!(removed.key, 2);
    assert_eq!(removed.h_ptr.unwrap().index, 102);
    let keys: Vec<u64> = page.get_cells().unwrap().iter().map(|c| c.key).collect();
    assert_eq!(keys, vec![1, 3]);
    assert!(matches!(
        page.remove_cell_at(2),
        Err(StorageError::CellOutOfBounds)
    ));
    assert_eq!(page.num_cells().unwrap(), 2);
}

#[test]
fn page_is_rebuilt() {
    let mut page = leaf_page();
    page.add_cell(5, 5).unwrap();
    let cells = vec![leaf_cell(1, 11), leaf_cell(2, 22)];
    page.rebuild_from_cells(&cells, PageKind::Leaf, 8, 77).unwrap();
    let header = page.header().unwrap();
    assert_eq!(header.id, 8);
    assert_eq!(header.ptr, 77);
    let keys: Vec<u64> = page.get_cells().unwrap().iter().map(|c| c.key).collect();
    assert_eq!(keys, vec![1, 2]);
}

#[test]
fn page_is_not_rebuilt_from_cells_without_pointers() {
    let mut page = leaf_page();
    let bare = Cell {
        key: 1,
        c_ptr: None,
        h_ptr: None,
    };
    assert_eq!(
        page.rebuild_from_cells(&vec![bare], PageKind::Leaf, 1, 0),
        Err(StorageError::MissingHeapPointer)
    );
    assert_eq!(
        page.rebuild_from_cells(&vec![bare], PageKind::Internal, 1, 0),
        Err(StorageError::MissingChildPointer)
    );
}

#[test]
fn page_kind_changes() {
    let mut page = leaf_page();
    page.set_page_kind(PageKind::Root).unwrap();
    let header = page.header().unwrap();
    assert!(header.page_ty == PageKind::Root);
    assert!(header.is_root_leaf());
    page.set_header_ptr(1234).unwrap();
    assert_eq!(page.header().unwrap().ptr, 1234);
}

#[test]
fn page_without_a_header() {
    let mut page = leaf_page();
    page.data[12] = 99;
    assert!(matches!(page.header(), Err(StorageError::HeaderCorrupt)));
}

#[test]
fn heap_page_takes_records() {
    let mut page = HeapPage::empty(&HeapHeader::new_primary(1));
    page.add_records(vec![b"abc".to_vec(), b"de".to_vec()]).unwrap();
    let header = page.header().unwrap();
    assert_eq!(header.free_start as usize, HEAP_HEADER_SIZE + 8);
    assert_eq!(header.free_end as usize, HEAP_PAGE_SIZE - 5);
    assert_eq!(&page.data[HEAP_PAGE_SIZE - 3..], b"abc");
    assert_eq!(&page.data[HEAP_PAGE_SIZE - 5..HEAP_PAGE_SIZE - 3], b"de");
}

#[test]
fn records_are_added_up_to_the_first_that_is_too_long() {
    let mut page = HeapPage::empty(&HeapHeader::new_primary(1));
    assert_eq!(
        page.add_records(vec![
            b"abc".to_vec(),
            b"de".to_vec(),
            vec![0u8; HEAP_PAGE_SIZE],
            b"f".to_vec(),
        ]),
        Err(StorageError::HeapPageOverflow)
    );
    let header = page.header().unwrap();
    assert_eq!(header.free_start as usize, HEAP_HEADER_SIZE + 8);
    assert_eq!(header.free_end as usize, HEAP_PAGE_SIZE - 5);
    // the slot of the second record
    let slot = HEAP_HEADER_SIZE + 4;
    assert_eq!(page.data[slot..slot + 2], (HEAP_PAGE_SIZE as u16 - 5).to_le_bytes());
    assert_eq!(page.data[slot + 2..slot + 4], 2u16.to_le_bytes());
}

#[test]
fn heap_page_overflows() {
    let mut page = HeapPage::empty(&HeapHeader::new_primary(1));
    let room = HEAP_PAGE_SIZE - HEAP_HEADER_SIZE;
    assert_eq!(
        page.add_cell(vec![0u8; room - 3]),
        Err(StorageError::HeapPageOverflow)
    );
    assert_eq!(page.add_cell(vec![1u8; room - 4]), Ok(()));
    assert_eq!(
        page.add_cell(Vec::new()),
        Err(StorageError::HeapPageOverflow)
    );
}

#[test]
fn errors_have_messages() {
    assert_eq!(StorageError::KeyExists.message(), "Key already exists");
    assert_eq!(StorageError::EntryNotFound.message(), "Entry not found");
    assert_eq!(StorageError::PageOverflow.message(), "Page overflow");
    assert_eq!(
        StorageError::WalTruncated.message(),
        "wal file exists but header is truncated/corrupt"
    );
}
