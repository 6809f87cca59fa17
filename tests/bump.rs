use atlas_mem::allocator::AllocError;
use atlas_mem::bump::BumpAllocator;

fn bump_over(start: usize, size: usize) -> BumpAllocator {
    let mut b = BumpAllocator::new();
    b.init(start, size);
    b
}

#[test]
fn bump_scenario_resets_only_when_all_freed() {
    let start = 0x1000;
    let mut b = bump_over(start, 4096);
    let a = b.allocate(8, 8).unwrap();
    let c = b.allocate(16, 8).unwrap();
    let d = b.allocate(32, 8).unwrap();
    assert!(a < c && c < d);
    assert_eq!(a, start);
    assert_eq!(c, start + 8);
    assert_eq!(d, start + 24);
    b.deallocate(a, 8);
    b.deallocate(c, 16);
    assert_eq!(b.allocations(), 1);
    let e = b.allocate(8, 8).unwrap();
    assert_ne!(e, start);
    assert_eq!(e, start + 56);
    b.deallocate(d, 32);
    b.deallocate(e, 8);
    assert_eq!(b.allocations(), 0);
    assert_eq!(b.allocate(8, 8), Ok(start));
}

#[test]
fn bump_refuses_what_does_not_fit() {
    let mut b = bump_over(0x2000, 64);
    assert_eq!(b.allocate(65, 1), Err(AllocError::OutOfMemory));
    assert_eq!(b.allocate(60, 1), Ok(0x2000));
    assert_eq!(b.allocate(8, 8), Err(AllocError::OutOfMemory));
    assert_eq!(b.allocate(4, 1), Ok(0x2000 + 60));
    assert_eq!(b.allocate(1, 1), Err(AllocError::OutOfMemory));
}

#[test]
fn bump_aligns_the_pointer() {
    let mut b = bump_over(0x3001, 256);
    assert_eq!(b.allocate(3, 1), Ok(0x3001));
    assert_eq!(b.allocate(8, 16), Ok(0x3010));
    assert_eq!(b.allocate(1, 64), Ok(0x3040));
}

#[test]
fn bump_full_heap_again_after_freeing_everything() {
    let start = 0x10000;
    let size = 4096;
    let mut b = bump_over(start, size);
    let mut blocks = Vec::new();
    for _ in 0..16 {
        blocks.push(b.allocate(256, 8).unwrap());
    }
    assert_eq!(b.allocate(1, 1), Err(AllocError::OutOfMemory));
    for &a in &blocks {
        b.deallocate(a, 256);
    }
    assert_eq!(b.allocate(size, 1), Ok(start));
}

#[test]
fn bump_live_blocks_do_not_overlap() {
    let mut b = bump_over(0, 1024);
    let sizes = [3usize, 17, 8, 64, 1, 100];
    let aligns = [1usize, 8, 4, 16, 1, 32];
    let mut live: Vec<(usize, usize)> = Vec::new();
    for i in 0..sizes.len() {
        let a = b.allocate(sizes[i], aligns[i]).unwrap();
        assert_eq!(a % aligns[i], 0);
        for &(s, n) in &live {
            assert!(a + sizes[i] <= s || s + n <= a);
        }
        live.push((a, sizes[i]));
    }
}
