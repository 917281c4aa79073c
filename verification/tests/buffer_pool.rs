//! The buffer pool.

use grumpydb::buffer::pool::BufferPool;
use grumpydb::page::manager::PageManager;
use grumpydb::GrumpyError;

fn setup(capacity: usize) -> BufferPool {
    BufferPool::new(capacity, PageManager::new(&[]))
}

#[test]
fn test_new_page_and_fetch() {
    let mut pool = setup(10);

    // Allocate a new page
    let (page_id, fidx) = pool.new_page().unwrap();
    assert!(page_id >= 1);

    // Write data to the frame
    pool.get_frame_mut(fidx).data[100] = 0xAB;
    pool.unpin(page_id, true).unwrap();

    // Fetch it back — should be a cache hit
    let fidx2 = pool.fetch_page(page_id).unwrap();
    assert_eq!(pool.get_frame(fidx2).data[100], 0xAB);
    assert_eq!(pool.read_count, 0); // no disk read — cache hit
    pool.unpin(page_id, false).unwrap();
}

#[test]
fn test_cache_hit_no_disk_read() {
    let mut pool = setup(10);
    let (pid, _) = pool.new_page().unwrap();
    pool.unpin(pid, true).unwrap();

    let reads_before = pool.read_count;
    let _fidx = pool.fetch_page(pid).unwrap();
    assert_eq!(pool.read_count, reads_before); // cache hit
    pool.unpin(pid, false).unwrap();
}

#[test]
fn test_eviction_lru() {
    // Pool with capacity 3
    let mut pool = setup(3);

    let (p1, _) = pool.new_page().unwrap();
    pool.unpin(p1, true).unwrap();
    let (p2, _) = pool.new_page().unwrap();
    pool.unpin(p2, true).unwrap();
    let (p3, _) = pool.new_page().unwrap();
    pool.unpin(p3, true).unwrap();

    assert_eq!(pool.cached_count(), 3);

    // Loading a 4th page should evict p1 (oldest)
    let (p4, _) = pool.new_page().unwrap();
    pool.unpin(p4, true).unwrap();

    assert_eq!(pool.cached_count(), 3); // still 3
    assert!(!pool.page_table.contains_key(&p1)); // p1 evicted
    assert!(pool.page_table.contains_key(&p4)); // p4 cached
}

#[test]
fn test_eviction_dirty_flush() {
    let mut pool = setup(2);

    let (p1, fidx1) = pool.new_page().unwrap();
    pool.get_frame_mut(fidx1).data[50] = 0xFF;
    pool.unpin(p1, true).unwrap(); // dirty

    let (p2, _) = pool.new_page().unwrap();
    pool.unpin(p2, false).unwrap();

    // Evict p1 by loading p3 — p1 is dirty so it must be flushed
    let writes_before = pool.write_count;
    let (p3, _) = pool.new_page().unwrap();
    pool.unpin(p3, false).unwrap();

    assert!(
        pool.write_count > writes_before,
        "dirty page should have been flushed"
    );

    // Reload p1 from disk — should have the written data
    let fidx = pool.fetch_page(p1).unwrap();
    assert_eq!(pool.get_frame(fidx).data[50], 0xFF);
    pool.unpin(p1, false).unwrap();
}

#[test]
fn test_pinned_not_evicted() {
    let mut pool = setup(2);

    let (p1, _) = pool.new_page().unwrap(); // pinned
    let (p2, _) = pool.new_page().unwrap(); // pinned

    // Both frames are pinned — no eviction possible
    let result = pool.new_page();
    assert!(
        matches!(result, Err(GrumpyError::BufferPoolExhausted)),
        "should fail when all frames are pinned"
    );

    // Unpin one — now eviction should work
    pool.unpin(p1, false).unwrap();
    let (p3, _) = pool.new_page().unwrap();
    pool.unpin(p3, false).unwrap();
    pool.unpin(p2, false).unwrap();
}

#[test]
fn test_flush_all() {
    let mut pool = setup(10);

    let (p1, fidx1) = pool.new_page().unwrap();
    pool.get_frame_mut(fidx1).data[0] = 1;
    pool.unpin(p1, true).unwrap();

    let (p2, fidx2) = pool.new_page().unwrap();
    pool.get_frame_mut(fidx2).data[0] = 2;
    pool.unpin(p2, true).unwrap();

    pool.flush_all().unwrap();

    // Verify both pages are no longer dirty
    let f1 = pool.page_table[&p1];
    let f2 = pool.page_table[&p2];
    assert!(!pool.frames[f1].dirty);
    assert!(!pool.frames[f2].dirty);
}

#[test]
fn test_flush_page_single() {
    let mut pool = setup(10);

    let (pid, fidx) = pool.new_page().unwrap();
    pool.get_frame_mut(fidx).data[42] = 0xCC;
    pool.unpin(pid, true).unwrap();

    assert!(pool.frames[pool.page_table[&pid]].dirty);
    pool.flush_page(pid).unwrap();
    assert!(!pool.frames[pool.page_table[&pid]].dirty);
}

#[test]
fn test_multiple_pins() {
    let mut pool = setup(10);

    let (pid, _) = pool.new_page().unwrap(); // pin_count = 1
    let _fidx2 = pool.fetch_page(pid).unwrap(); // pin_count = 2

    let fidx = pool.page_table[&pid];
    assert_eq!(pool.frames[fidx].pin_count, 2);

    pool.unpin(pid, false).unwrap(); // 1
    pool.unpin(pid, false).unwrap(); // 0
    assert!(!pool.frames[fidx].is_pinned());
}

#[test]
fn test_io_counters() {
    let mut pool = setup(2);

    assert_eq!(pool.read_count, 0);
    assert_eq!(pool.write_count, 0);

    let (p1, _) = pool.new_page().unwrap();
    pool.unpin(p1, true).unwrap();

    // Flush writes 1 page
    pool.flush_page(p1).unwrap();
    assert_eq!(pool.write_count, 1);

    // Evict p1 by filling the pool, then fetch p1 again — triggers a disk read
    let (p2, _) = pool.new_page().unwrap();
    pool.unpin(p2, false).unwrap();
    let (p3, _) = pool.new_page().unwrap();
    pool.unpin(p3, false).unwrap();

    // p1 was evicted (clean), now fetch it from disk
    let _fidx = pool.fetch_page(p1).unwrap();
    assert!(pool.read_count >= 1);
    pool.unpin(p1, false).unwrap();
}
