//! The tree on keys and records.

use bplus_engine::storage::bplus_tree::BplusTree;
use bplus_engine::storage::file::PageFile;
use bplus_engine::storage::pager::Pager;
use bplus_engine::storage::slotted_page::{HeapPage, Page, ORDER};

fn new_tree() -> BplusTree {
    BplusTree::new(
        PageFile::new(Vec::new()),
        PageFile::new(Vec::new()),
        Vec::new(),
    )
    .unwrap()
}

/// What the files of a tree hold.
fn files_of(btree: &BplusTree) -> (Vec<Page>, Vec<HeapPage>, Vec<u8>) {
    let mut index_file: Vec<Page> = Vec::new();
    while let Ok(page) = btree.pager.index.stored_page(index_file.len() as u64) {
        index_file.push(page);
    }
    let mut heap_file: Vec<HeapPage> = Vec::new();
    while let Ok(page) = btree.pager.heap.stored_page(heap_file.len() as u64) {
        heap_file.push(page);
    }
    (index_file, heap_file, btree.pager.wal.log_bytes().clone())
}

#[test]
fn single_insert_and_get() {
    let mut btree = new_tree();

    btree.insert(1u64, vec![b"hello".to_vec()]).unwrap();

    let result = btree.get(1u64).unwrap();
    assert_eq!(result, vec![b"hello".to_vec()]);
}

#[test]
fn insert_and_get_multiple_keys_in_root() {
    let mut btree = new_tree();

    btree.insert(5u64, vec![b"five".to_vec()]).unwrap();
    btree.insert(3u64, vec![b"three".to_vec()]).unwrap();
    btree.insert(7u64, vec![b"seven".to_vec()]).unwrap();
    btree.insert(1u64, vec![b"one".to_vec()]).unwrap();

    assert_eq!(btree.get(1u64).unwrap(), vec![b"one".to_vec()]);
    assert_eq!(btree.get(3u64).unwrap(), vec![b"three".to_vec()]);
    assert_eq!(btree.get(5u64).unwrap(), vec![b"five".to_vec()]);
    assert_eq!(btree.get(7u64).unwrap(), vec![b"seven".to_vec()]);
}

#[test]
fn get_nonexistent_key_returns_error() {
    let mut btree = new_tree();

    btree.insert(1u64, vec![b"one".to_vec()]).unwrap();

    let result = btree.get(999u64);
    assert!(result.is_err());
}

#[test]
fn duplicate_insert_returns_error() {
    let mut btree = new_tree();

    btree.insert(1u64, vec![b"one".to_vec()]).unwrap();
    let result = btree.insert(1u64, vec![b"one again".to_vec()]);
    assert!(result.is_err());
}

#[test]
fn insert_and_get_multiple_data_records() {
    let mut btree = new_tree();

    let records = vec![b"field1".to_vec(), b"field2".to_vec(), b"field3".to_vec()];
    btree.insert(42u64, records.clone()).unwrap();

    let result = btree.get(42u64).unwrap();
    assert_eq!(result, records);
}

#[test]
fn delete_from_root_leaf() {
    let mut btree = new_tree();

    btree.insert(1u64, vec![b"one".to_vec()]).unwrap();
    btree.insert(2u64, vec![b"two".to_vec()]).unwrap();
    btree.insert(3u64, vec![b"three".to_vec()]).unwrap();

    btree.delete(2u64).unwrap();

    assert!(btree.get(2u64).is_err());
    assert_eq!(btree.get(1u64).unwrap(), vec![b"one".to_vec()]);
    assert_eq!(btree.get(3u64).unwrap(), vec![b"three".to_vec()]);
}

#[test]
fn delete_nonexistent_key_returns_error() {
    let mut btree = new_tree();

    btree.insert(1u64, vec![b"one".to_vec()]).unwrap();
    let result = btree.delete(999u64);
    assert!(result.is_err());
}

#[test]
fn delete_all_from_root() {
    let mut btree = new_tree();

    btree.insert(1u64, vec![b"one".to_vec()]).unwrap();
    btree.insert(2u64, vec![b"two".to_vec()]).unwrap();

    btree.delete(1u64).unwrap();
    btree.delete(2u64).unwrap();

    assert!(btree.get(1u64).is_err());
    assert!(btree.get(2u64).is_err());
}

#[test]
fn insert_ascending_order() {
    let mut btree = new_tree();

    for i in 1..=20u64 {
        btree
            .insert(i, vec![format!("val-{}", i).into_bytes()])
            .unwrap();
    }

    for i in 1..=20u64 {
        let result = btree.get(i).unwrap();
        assert_eq!(result, vec![format!("val-{}", i).into_bytes()]);
    }
}

#[test]
fn insert_descending_order() {
    let mut btree = new_tree();

    for i in (1..=20u64).rev() {
        btree
            .insert(i, vec![format!("val-{}", i).into_bytes()])
            .unwrap();
    }

    for i in 1..=20u64 {
        let result = btree.get(i).unwrap();
        assert_eq!(result, vec![format!("val-{}", i).into_bytes()]);
    }
}

#[test]
fn many_inserts_cause_splits() {
    let mut btree = new_tree();

    let count = ORDER as u64 * 4;
    for i in 1..=count {
        btree
            .insert(i, vec![format!("data-{}", i).into_bytes()])
            .unwrap();
    }

    for i in 1..=count {
        let result = btree.get(i).unwrap();
        assert_eq!(
            result,
            vec![format!("data-{}", i).into_bytes()],
            "Failed to get key {}",
            i
        );
    }

    assert!(btree.get(0).is_err());
    assert!(btree.get(count + 1).is_err());
}

#[test]
fn internal_node_exact_separator_lookups() {
    let mut btree = new_tree();

    let count = ORDER as u64 * 3;
    for i in (1..=count).step_by(2) {
        btree
            .insert(i, vec![format!("val-{}", i).into_bytes()])
            .unwrap();
    }

    for i in (1..=count).step_by(2) {
        let result = btree.get(i);
        assert!(result.is_ok(), "Key {} should exist", i);
        assert_eq!(result.unwrap(), vec![format!("val-{}", i).into_bytes()]);
    }

    for i in (2..=count).step_by(2) {
        let result = btree.get(i);
        assert!(result.is_err(), "Key {} should not exist", i);
    }
}

#[test]
fn internal_node_deletion_and_merge() {
    let mut btree = new_tree();

    let count = ORDER as u64 * 3;
    for i in 1..=count {
        btree
            .insert(i, vec![format!("data-{}", i).into_bytes()])
            .unwrap();
    }

    // delete odd keys to trigger leaf/internal redistributions and merges
    for i in (1..=count).step_by(2) {
        btree.delete(i).unwrap();
    }

    // check odd keys are gone and even keys remain
    for i in 1..=count {
        if i % 2 == 1 {
            assert!(btree.get(i).is_err(), "Key {} should be deleted", i);
        } else {
            let result = btree.get(i);
            assert!(result.is_ok(), "Key {} should still exist", i);
            assert_eq!(result.unwrap(), vec![format!("data-{}", i).into_bytes()]);
        }
    }

    // reinsert deleted keys and check
    for i in (1..=count).step_by(2) {
        btree
            .insert(i, vec![format!("re-data-{}", i).into_bytes()])
            .unwrap();
    }

    for i in 1..=count {
        let result = btree.get(i).unwrap();
        if i % 2 == 1 {
            assert_eq!(result, vec![format!("re-data-{}", i).into_bytes()]);
        } else {
            assert_eq!(result, vec![format!("data-{}", i).into_bytes()]);
        }
    }
}

#[test]
fn internal_node_root_collapse_on_deletion() {
    let mut btree = new_tree();

    let count = ORDER as u64 * 2;
    for i in 1..=count {
        btree
            .insert(i, vec![format!("v-{}", i).into_bytes()])
            .unwrap();
    }

    // delete almost all keys except a few, triggering multiple merges and root collapse
    for i in 4..=count {
        btree.delete(i).unwrap();
    }

    assert_eq!(btree.get(1).unwrap(), vec![b"v-1".to_vec()]);
    assert_eq!(btree.get(2).unwrap(), vec![b"v-2".to_vec()]);
    assert_eq!(btree.get(3).unwrap(), vec![b"v-3".to_vec()]);
    assert!(btree.get(4).is_err());

    // insert new keys into the collapsed root
    btree.insert(100, vec![b"v-100".to_vec()]).unwrap();
    assert_eq!(btree.get(100).unwrap(), vec![b"v-100".to_vec()]);
}

#[test]
fn multi_level_mixed_workload() {
    let mut btree = new_tree();

    let count = 300u64;
    for i in 1..=count {
        btree
            .insert(i, vec![format!("val-{}", i).into_bytes()])
            .unwrap();
    }

    for i in 100..=200 {
        btree.delete(i).unwrap();
    }

    for i in 1..=count {
        if (100..=200).contains(&i) {
            assert!(btree.get(i).is_err(), "Key {} should be deleted", i);
        } else {
            assert_eq!(
                btree.get(i).unwrap(),
                vec![format!("val-{}", i).into_bytes()]
            );
        }
    }

    for i in 500..=600 {
        btree
            .insert(i, vec![format!("val-{}", i).into_bytes()])
            .unwrap();
    }

    for i in 500..=600 {
        assert_eq!(
            btree.get(i).unwrap(),
            vec![format!("val-{}", i).into_bytes()]
        );
    }
}

#[test]
fn delete_all_from_multi_level_tree() {
    let mut btree = new_tree();

    let count = ORDER as u64 * 2;
    for i in 1..=count {
        btree
            .insert(i, vec![format!("data-{}", i).into_bytes()])
            .unwrap();
    }

    for i in 1..=count {
        btree.delete(i).unwrap();
        assert!(btree.get(i).is_err());
    }

    // tree is empty... getting any key should return error
    for i in 1..=count {
        assert!(btree.get(i).is_err());
    }

    // can insert again into empty root
    btree.insert(42, vec![b"forty-two".to_vec()]).unwrap();
    assert_eq!(btree.get(42).unwrap(), vec![b"forty-two".to_vec()]);
}

#[test]
fn insert_delete_reinsert() {
    let mut btree = new_tree();

    btree.insert(1u64, vec![b"first".to_vec()]).unwrap();
    btree.delete(1u64).unwrap();
    btree.insert(1u64, vec![b"second".to_vec()]).unwrap();

    assert_eq!(btree.get(1u64).unwrap(), vec![b"second".to_vec()]);
}

#[test]
fn empty_tree_get_returns_error() {
    let mut btree = new_tree();

    assert!(btree.get(1u64).is_err());
}

#[test]
fn large_data_records() {
    let mut btree = new_tree();

    let big_data = vec![0xABu8; 4000];
    btree.insert(1u64, vec![big_data.clone()]).unwrap();

    let result = btree.get(1u64).unwrap();
    assert_eq!(result, vec![big_data]);
}

#[test]
fn interleaved_insert_and_get() {
    let mut btree = new_tree();

    for i in 1..=10u64 {
        btree
            .insert(i, vec![format!("v{}", i).into_bytes()])
            .unwrap();
        let result = btree.get(i).unwrap();
        assert_eq!(result, vec![format!("v{}", i).into_bytes()]);
    }
}

#[test]
fn boundary_keys() {
    let mut btree = new_tree();

    btree.insert(0u64, vec![b"zero".to_vec()]).unwrap();
    btree.insert(u64::MAX, vec![b"max".to_vec()]).unwrap();
    btree.insert(1u64, vec![b"one".to_vec()]).unwrap();

    assert_eq!(btree.get(0u64).unwrap(), vec![b"zero".to_vec()]);
    assert_eq!(btree.get(u64::MAX).unwrap(), vec![b"max".to_vec()]);
    assert_eq!(btree.get(1u64).unwrap(), vec![b"one".to_vec()]);
}

#[test]
fn buffer_pool_flush_and_reopen() {
    let (index_file, heap_file, log_file) = {
        let mut btree = new_tree();
        for i in 1..=50u64 {
            btree
                .insert(i, vec![format!("value-{}", i).into_bytes()])
                .unwrap();
        }
        btree.pager.flush_all();
        files_of(&btree)
    };

    {
        let reopened = Pager::new(
            PageFile::new(index_file),
            PageFile::new(heap_file),
            log_file,
        )
        .unwrap();
        let mut btree = BplusTree {
            root_id: 0,
            pager: reopened,
        };
        for i in 1..=50u64 {
            let res = btree.get(i).unwrap();
            assert_eq!(res, vec![format!("value-{}", i).into_bytes()]);
        }
    }
}

#[test]
fn buffer_pool_discard_dirty_simulation() {
    let mut btree = new_tree();

    btree.insert(1, vec![b"first".to_vec()]).unwrap();
    btree.pager.flush_all();

    btree.insert(2, vec![b"uncommitted shit".to_vec()]).unwrap();
    btree.pager.discard_all_dirty();

    // The first key was flushed, so it is read from the files again.
    assert_eq!(btree.get(1).unwrap(), vec![b"first".to_vec()]);
}
