use atlas_mem::allocator::AllocError;
use atlas_mem::linked_list::{LinkedListAllocator, NODE_SIZE};

fn heap_over(start: usize, size: usize) -> LinkedListAllocator {
    let mut h = LinkedListAllocator::new();
    h.init(start, size);
    h
}

#[test]
fn free_list_reuses_freed_gap() {
    let mut h = heap_over(0, 200);
    assert_eq!(h.allocate(50, 1), Ok(0));
    assert_eq!(h.allocate(100, 1), Ok(50));
    h.deallocate(0, 50);
    // The freed 50-byte block at the head serves the next request that leaves no
    // untrackable tail behind.
    assert_eq!(h.allocate(34, 1), Ok(0));
}

#[test]
fn free_list_rejects_untrackable_tail() {
    let mut h = heap_over(0, 200);
    assert_eq!(h.allocate(50, 1), Ok(0));
    assert_eq!(h.allocate(100, 1), Ok(50));
    h.deallocate(0, 50);
    // Both free regions are 50 bytes; 40 of them would leave a 10-byte tail, smaller
    // than a header, so neither region accepts.
    assert_eq!(h.allocate(40, 1), Err(AllocError::OutOfMemory));
    assert_eq!(h.allocate(50, 1), Ok(0));
    assert_eq!(h.allocate(50, 1), Ok(150));
}

#[test]
fn free_list_alloc_free_alloc_same_size() {
    let mut h = heap_over(0x1000, 1000);
    let a = h.allocate(64, 8).unwrap();
    h.deallocate(a, 64);
    assert_eq!(h.allocate(64, 8), Ok(a));
}

#[test]
fn free_list_is_first_fit_from_newest() {
    let mut h = heap_over(0, 300);
    let a = h.allocate(100, 1).unwrap();
    let b = h.allocate(100, 1).unwrap();
    assert_eq!((a, b), (0, 100));
    h.deallocate(a, 100);
    // Head is now the freed block at 0, then the tail at 200.
    assert_eq!(h.allocate(20, 1), Ok(0));
    // Head is now the 80-byte remainder at 20.
    assert_eq!(h.allocate(80, 1), Ok(20));
    assert_eq!(h.allocate(100, 1), Ok(200));
    assert_eq!(h.allocate(1, 1), Err(AllocError::OutOfMemory));
}

#[test]
fn free_list_keeps_front_gap() {
    let mut h = heap_over(0x1008, 200);
    // Aligning to 32 leaves a 24-byte front gap, large enough to track.
    assert_eq!(h.allocate(40, 32), Ok(0x1020));
    // The back gap went in last and is the head; the front gap follows it.
    assert_eq!(h.allocate(136, 1), Ok(0x1048));
    assert_eq!(h.allocate(24, 1), Ok(0x1008));
    assert_eq!(h.allocate(1, 1), Err(AllocError::OutOfMemory));
}

#[test]
fn free_list_skips_region_with_small_front_gap() {
    let mut h = heap_over(0x1004, 200);
    // Aligning to 16 would leave a 12-byte front gap, which cannot be tracked.
    assert_eq!(h.allocate(16, 16), Err(AllocError::OutOfMemory));
}

#[test]
fn free_list_drops_small_fragments() {
    let mut h = heap_over(0, 24);
    assert_eq!(h.allocate(8, 1), Ok(0));
    h.deallocate(0, 8);
    // The freed 8-byte block cannot hold a header and is dropped; the 16-byte tail would
    // leave an 8-byte fragment.
    assert_eq!(h.allocate(8, 1), Err(AllocError::OutOfMemory));
    assert_eq!(h.allocate(16, 1), Ok(8));
}

#[test]
fn free_list_never_merges_neighbours() {
    let mut h = heap_over(0, 64);
    assert_eq!(h.allocate(32, 1), Ok(0));
    assert_eq!(h.allocate(32, 1), Ok(32));
    h.deallocate(0, 32);
    h.deallocate(32, 32);
    assert_eq!(h.allocate(64, 1), Err(AllocError::OutOfMemory));
    assert_eq!(h.allocate(32, 1), Ok(32));
}

#[test]
fn free_list_too_small_heap_is_empty() {
    let mut h = heap_over(0, NODE_SIZE - 1);
    assert_eq!(h.allocate(1, 1), Err(AllocError::OutOfMemory));
}

#[test]
fn free_list_live_blocks_do_not_overlap() {
    let mut h = heap_over(0x4000, 2048);
    let mut live: Vec<(usize, usize)> = Vec::new();
    let requests = [(48usize, 8usize), (96, 16), (16, 1), (256, 64), (64, 8), (32, 32)];
    for &(size, align) in &requests {
        let a = h.allocate(size, align).unwrap();
        assert_eq!(a % align, 0);
        for &(s, n) in &live {
            assert!(a + size <= s || s + n <= a);
        }
        live.push((a, size));
    }
    let (a0, n0) = live.remove(1);
    h.deallocate(a0, n0);
    for &(size, align) in &[(48usize, 16usize), (32, 8)] {
        let a = h.allocate(size, align).unwrap();
        for &(s, n) in &live {
            assert!(a + size <= s || s + n <= a);
        }
        live.push((a, size));
    }
}
