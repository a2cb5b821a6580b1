//! The buffer pool.

use bplus_engine::storage::buffer_pool::BufferPool;

#[test]
fn steal_evicts_dirty_pages_and_returns_them() {
    let mut pool: BufferPool<Vec<u8>> = BufferPool::new(2);

    pool.insert(1, vec![1, 1, 1]).unwrap();
    pool.mark_dirty(1);

    pool.insert(2, vec![2, 2, 2]).unwrap();
    pool.mark_dirty(2);

    // pool is full of dirty pages.. STEAL lets them be evicted
    let result = pool.insert(3, vec![3, 3, 3]);
    assert!(result.is_ok());
    let evicted = result.unwrap();
    assert!(evicted.is_some());
    let evicted = evicted.unwrap();
    assert_eq!(evicted.id, 1);
    assert!(evicted.was_dirty);
    assert_eq!(evicted.page, vec![1, 1, 1]);

    assert!(!pool.contains(1));
    assert!(pool.contains(2));
    assert!(pool.contains(3));
}

#[test]
fn steal_refuses_to_evict_pinned_pages() {
    let mut pool: BufferPool<Vec<u8>> = BufferPool::new(2);

    pool.insert(1, vec![1, 1, 1]).unwrap();
    pool.pin(1);

    pool.insert(2, vec![2, 2, 2]).unwrap();
    pool.pin(2);

    // here both the pages are pinned... so they can't evict even under STEAL
    let err = pool.insert(3, vec![3, 3, 3]);
    assert!(err.is_err());

    // Unpin page 1; now it can be evicted
    pool.unpin(1);
    assert!(pool.insert(3, vec![3, 3, 3]).is_ok());
    assert!(!pool.contains(1));
    assert!(pool.contains(2));
    assert!(pool.contains(3));
}

#[test]
fn steal_evicts_clean_page_without_dirty_flag() {
    let mut pool: BufferPool<Vec<u8>> = BufferPool::new(2);

    pool.insert(1, vec![1, 1, 1]).unwrap();
    pool.insert(2, vec![2, 2, 2]).unwrap();

    let result = pool.insert(3, vec![3, 3, 3]).unwrap();
    assert!(result.is_some());
    let evicted = result.unwrap();
    assert_eq!(evicted.id, 1);
    assert!(!evicted.was_dirty);
}

#[test]
fn least_recently_used_page_leaves() {
    let mut pool: BufferPool<u8> = BufferPool::new(2);
    pool.insert(1, 11).unwrap();
    pool.insert(2, 22).unwrap();
    assert_eq!(pool.get(1), Some(11));
    let evicted = pool.insert(3, 33).unwrap().unwrap();
    assert_eq!((evicted.id, evicted.page), (2, 22));
    assert_eq!(pool.len(), 2);
    assert_eq!(pool.capacity(), 2);
    assert_eq!(pool.get(2), None);
}

#[test]
fn page_that_is_there_is_not_replaced() {
    let mut pool: BufferPool<u8> = BufferPool::new(1);
    pool.insert(1, 11).unwrap();
    assert!(pool.insert(1, 99).unwrap().is_none());
    assert_eq!(pool.get(1), Some(11));
    pool.update_page(1, 12);
    assert_eq!(pool.get(1), Some(12));
    assert!(pool.is_dirty(1));
}

#[test]
fn first_lsn_is_kept() {
    let mut pool: BufferPool<u8> = BufferPool::new(4);
    pool.insert(1, 11).unwrap();
    pool.insert(2, 22).unwrap();
    pool.update_lsn(1, 5);
    pool.update_lsn(1, 9);
    assert_eq!((pool.page_lsn(1), pool.rec_lsn(1)), (9, 5));
    assert_eq!((pool.page_lsn(7), pool.rec_lsn(7)), (0, 0));
    assert_eq!(pool.dirty_page_table(), vec![(1, 5)]);
    assert_eq!(pool.drain_dirty(), vec![(1, 11)]);
    pool.clear_dirty();
    assert_eq!((pool.page_lsn(1), pool.rec_lsn(1)), (9, 0));
    assert!(pool.dirty_page_ids().is_empty());
    pool.set_lsn_explicit(2, 3, 2);
    assert_eq!((pool.page_lsn(2), pool.rec_lsn(2)), (3, 2));
}

#[test]
fn first_lsn_may_be_zero() {
    let mut pool: BufferPool<u8> = BufferPool::new(4);
    pool.insert(1, 11).unwrap();
    pool.update_lsn(1, 0);
    pool.update_lsn(1, 1);
    assert_eq!((pool.page_lsn(1), pool.rec_lsn(1)), (1, 0));
    assert_eq!(pool.dirty_page_table(), vec![(1, 0)]);
    pool.clear_dirty_single(1);
    pool.update_lsn(1, 2);
    assert_eq!(pool.rec_lsn(1), 2);
}

#[test]
fn pins_are_counted() {
    let mut pool: BufferPool<u8> = BufferPool::new(1);
    pool.insert(1, 11).unwrap();
    pool.pin(1);
    pool.pin(1);
    pool.unpin(1);
    assert!(pool.insert(2, 22).is_err());
    pool.unpin(1);
    assert!(pool.insert(2, 22).is_ok());
    assert_eq!(pool.remove(2), Some(22));
    assert!(pool.is_empty());
    assert_eq!(pool.all_page_ids(), Vec::<u64>::new());
}
