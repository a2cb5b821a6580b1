//! The tree at its limits.

use bplus_engine::storage::bplus_tree::{BplusTree, LEAST};
use bplus_engine::storage::error::StorageError;
use bplus_engine::storage::file::PageFile;
use bplus_engine::storage::header::PageKind;
use bplus_engine::storage::slotted_page::ORDER;

fn new_tree() -> BplusTree {
    BplusTree::new(
        PageFile::new(Vec::new()),
        PageFile::new(Vec::new()),
        Vec::new(),
    )
    .unwrap()
}

fn value(key: u64) -> Vec<Vec<u8>> {
    vec![format!("v{}", key).into_bytes()]
}

#[test]
fn each_refusal_has_its_error() {
    let mut tree = new_tree();
    tree.insert(1, value(1)).unwrap();
    assert_eq!(tree.insert(1, value(2)), Err(StorageError::KeyExists));
    assert_eq!(tree.get(1), Ok(value(1)));
    assert_eq!(tree.get(2), Err(StorageError::EntryNotFound));
    assert_eq!(tree.delete(2), Err(StorageError::KeyNotFound));
    assert_eq!(
        tree.insert(3, vec![vec![0u8; 9000]]),
        Err(StorageError::HeapPageOverflow)
    );
    assert_eq!(tree.get(3), Err(StorageError::EntryNotFound));
}

#[test]
fn key_without_records() {
    let mut tree = new_tree();
    tree.insert(4, Vec::new()).unwrap();
    assert_eq!(tree.get(4), Ok(Vec::new()));
}

#[test]
fn tree_in_files_with_pages() {
    let mut first = new_tree();
    first.insert(1, value(1)).unwrap();
    first.pager.flush_all();
    let index = vec![first.pager.index.stored_page(0).unwrap()];
    let mut tree = BplusTree::new(
        PageFile::new(index),
        PageFile::new(Vec::new()),
        Vec::new(),
    )
    .unwrap();
    assert_eq!(tree.root_id, 1);
    assert_eq!(tree.get(1), Err(StorageError::EntryNotFound));
    tree.insert(1, value(9)).unwrap();
    assert_eq!(tree.get(1), Ok(value(9)));
}

#[test]
fn leaves_are_chained() {
    let mut tree = new_tree();
    let count = ORDER as u64 * 5;
    for key in 0..count {
        // neither ascending nor descending
        let k = key * 11 % count;
        tree.insert(k, value(k)).unwrap();
    }
    for key in (0..count).step_by(3) {
        tree.delete(key).unwrap();
    }
    let mut id = tree.root_id;
    loop {
        let page = tree.pager.index.fetch(&mut tree.pager.wal, id);
        let cells = page.get_cells().unwrap();
        match cells[0].c_ptr {
            Some(child) => id = child,
            None => break,
        }
    }
    let expected: Vec<u64> = (0..count).filter(|k| k % 3 != 0).collect();
    let mut found: Vec<u64> = Vec::new();
    while found.len() < expected.len() {
        let page = tree.pager.index.fetch(&mut tree.pager.wal, id);
        for cell in page.get_cells().unwrap() {
            found.push(cell.key);
        }
        id = page.header().unwrap().ptr;
    }
    assert_eq!(found, expected);
}

/// The kind of a page, its keys and its last pointer.
fn shape(tree: &mut BplusTree, id: u64) -> (PageKind, Vec<u64>, u64) {
    let page = tree.pager.index.fetch(&mut tree.pager.wal, id);
    let header = page.header().unwrap();
    let keys = page.get_cells().unwrap().iter().map(|c| c.key).collect();
    (header.page_ty, keys, header.ptr)
}

#[test]
fn full_root_is_split() {
    let mut tree = new_tree();
    for key in 1..ORDER as u64 {
        tree.insert(key, value(key)).unwrap();
    }
    assert_eq!(tree.root_id, 0);
    tree.insert(203, value(203)).unwrap();
    assert_eq!(tree.root_id, 2);
    assert_eq!(shape(&mut tree, 0), (PageKind::Leaf, (1..103).collect(), 1));
    assert_eq!(shape(&mut tree, 1), (PageKind::Leaf, (103..204).collect(), 0));
    assert_eq!(shape(&mut tree, 2), (PageKind::Root, vec![103], 1));
    let root = tree.pager.index.fetch(&mut tree.pager.wal, 2);
    assert_eq!(root.get_cells().unwrap()[0].c_ptr, Some(0));
    assert!(!root.header().unwrap().is_root_leaf());
}

#[test]
fn leaves_that_would_fill_a_page_stay_two() {
    let mut tree = new_tree();
    // the root is split into leaves of 102 and 101 cells, and the right one gets another
    for key in 1..=ORDER as u64 + 1 {
        tree.insert(key, value(key)).unwrap();
    }
    // the left leaf has 101 cells then, and gets the first one of the right leaf
    tree.delete(1).unwrap();
    assert_eq!(shape(&mut tree, 0).1, (2..104).collect::<Vec<u64>>());
    assert_eq!(shape(&mut tree, 1).1, (104..205).collect::<Vec<u64>>());
    assert_eq!(shape(&mut tree, 2).1, vec![104]);
    tree.insert(1, value(1)).unwrap();
    assert_eq!(tree.get(1), Ok(value(1)));
    for key in 2..=ORDER as u64 + 1 {
        assert_eq!(tree.get(key), Ok(value(key)));
    }
}

#[test]
fn small_leaves_are_merged() {
    let mut tree = new_tree();
    for key in 1..=ORDER as u64 {
        tree.insert(key, value(key)).unwrap();
    }
    // leaves of 101 and 101 cells become one, and the root makes way for it
    tree.delete(1).unwrap();
    assert_eq!(tree.root_id, 0);
    assert_eq!(shape(&mut tree, 0), (PageKind::Root, (2..204).collect(), 0));
    tree.insert(1, value(1)).unwrap();
    assert_eq!(tree.get(1), Ok(value(1)));
    assert_eq!(tree.get(203), Ok(value(203)));
}

#[test]
fn every_key_can_come_back() {
    let mut tree = new_tree();
    let count = ORDER as u64 * 4;
    for key in 0..count {
        tree.insert(key, value(key)).unwrap();
    }
    for round in 1..4u64 {
        for key in (0..count).step_by(round as usize + 1) {
            tree.delete(key).unwrap();
        }
        for key in (0..count).rev().filter(|k| k % (round + 1) == 0) {
            tree.insert(key, value(key + round)).unwrap();
            assert_eq!(tree.get(key), Ok(value(key + round)));
        }
    }
    for key in 0..count {
        assert!(tree.get(key).is_ok());
    }
}

/// Checks the number of cells of the pages below a page, and returns how many levels
/// of pages there are.
fn check_fill(tree: &mut BplusTree, id: u64) -> usize {
    let page = tree.pager.index.fetch(&mut tree.pager.wal, id);
    let cells = page.get_cells().unwrap();
    assert!(cells.len() < ORDER);
    if id != tree.root_id {
        assert!(cells.len() >= LEAST);
    }
    if page.header().unwrap().page_ty == PageKind::Leaf || page.header().unwrap().is_root_leaf() {
        return 1;
    }
    assert!(!cells.is_empty());
    let mut children: Vec<u64> = cells.iter().map(|c| c.c_ptr.unwrap()).collect();
    children.push(page.header().unwrap().ptr);
    let levels: Vec<usize> = children.iter().map(|c| check_fill(tree, *c)).collect();
    for level in &levels {
        assert_eq!(*level, levels[0]);
    }
    levels[0] + 1
}

#[test]
fn no_page_is_full_or_underfull() {
    let mut tree = new_tree();
    let count = ORDER as u64 * 6 + 1;
    for key in 0..count {
        tree.insert(key * 7 % count, value(key)).unwrap();
        if key % 50 == 0 {
            let root = tree.root_id;
            check_fill(&mut tree, root);
        }
    }
    let root = tree.root_id;
    assert_eq!(check_fill(&mut tree, root), 2);
    for key in 0..count {
        tree.delete(key * 11 % count).unwrap();
        if key % 50 == 0 {
            let root = tree.root_id;
            check_fill(&mut tree, root);
        }
    }
    let root = tree.root_id;
    assert_eq!(check_fill(&mut tree, root), 1);
}

#[test]
fn three_levels_grow_and_shrink() {
    let mut tree = new_tree();
    let count = 21_200u64;
    for key in 0..count {
        tree.insert(key, Vec::new()).unwrap();
    }
    let root = tree.root_id;
    assert_eq!(check_fill(&mut tree, root), 3);
    assert!(tree.pager.index.next_id() >= 2 * (LEAST as u64 + 1));
    for key in 0..count {
        tree.delete(key).unwrap();
        assert_eq!(tree.get(key), Err(StorageError::EntryNotFound));
        if key + 1 < count {
            assert_eq!(tree.get(key + 1), Ok(Vec::new()));
        }
    }
    let root = tree.root_id;
    assert_eq!(shape(&mut tree, root), (PageKind::Root, Vec::new(), 0));
    tree.insert(7, value(7)).unwrap();
    assert_eq!(tree.get(7), Ok(value(7)));
}

#[test]
fn deleted_keys_leave_the_rest() {
    let mut tree = new_tree();
    let count = ORDER as u64 * 6;
    for key in 0..count {
        tree.insert(key, value(key)).unwrap();
    }
    for key in (0..count).rev().step_by(2) {
        tree.delete(key).unwrap();
        assert_eq!(tree.delete(key), Err(StorageError::KeyNotFound));
    }
    for key in 0..count {
        if (count - 1 - key) % 2 == 0 {
            assert_eq!(tree.get(key), Err(StorageError::EntryNotFound));
        } else {
            assert_eq!(tree.get(key), Ok(value(key)));
        }
    }
}
