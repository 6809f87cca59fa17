use atlas_mem::allocator::{init_heap, AllocError, Dummy, Locked, HEAP_SIZE, HEAP_START};
use atlas_mem::linked_list::LinkedListAllocator;
use atlas_mem::memory::{BootInfoFrameAllocator, MemoryRegion, MemoryRegionType, PhysFrame};
use atlas_mem::paging::{MapToError, Page, PageMapper, PRESENT};

fn catalog(frames: u64) -> BootInfoFrameAllocator {
    BootInfoFrameAllocator::init(vec![
        MemoryRegion { start: 0, end: 0x100000, region_type: MemoryRegionType::Reserved },
        MemoryRegion { start: 0x100000, end: 0x100000 + frames * 4096, region_type: MemoryRegionType::Usable },
    ])
}

#[test]
fn heap_init_maps_every_page() {
    let mut mapper = PageMapper::new(PhysFrame { start: 0x1000 });
    let mut frames = catalog(100);
    let mut heap = LinkedListAllocator::new();
    assert_eq!(init_heap(&mut mapper, &mut frames, &mut heap), Ok(()));
    for k in 0..25u64 {
        let page = Page { start: HEAP_START + k * 4096 };
        assert!(mapper.frame_of(page).is_some());
    }
    assert_eq!(mapper.frame_of(Page { start: HEAP_START + 25 * 4096 }), None);
    assert_eq!(heap.allocate(HEAP_SIZE as usize, 1), Ok(HEAP_START as usize));
}

#[test]
fn heap_serves_many_boxes() {
    let mut mapper = PageMapper::new(PhysFrame { start: 0x1000 });
    let mut frames = catalog(100);
    let mut heap = LinkedListAllocator::new();
    init_heap(&mut mapper, &mut frames, &mut heap).unwrap();
    for _ in 0..(HEAP_SIZE as usize) {
        let a = heap.allocate(16, 8).unwrap();
        assert!(a >= HEAP_START as usize && a + 16 <= (HEAP_START + HEAP_SIZE) as usize);
        heap.deallocate(a, 16);
    }
}

#[test]
fn heap_init_fails_when_frames_run_out() {
    let mut mapper = PageMapper::new(PhysFrame { start: 0x1000 });
    let mut frames = catalog(10);
    let mut heap = LinkedListAllocator::new();
    assert_eq!(init_heap(&mut mapper, &mut frames, &mut heap), Err(MapToError::FrameAllocationFailed));
    assert_eq!(heap.allocate(1, 1), Err(AllocError::OutOfMemory));
    assert_eq!(frames.allocate_frame(), None);
}

#[test]
fn heap_init_fails_on_mapped_page() {
    let mut mapper = PageMapper::new(PhysFrame { start: 0x1000 });
    let mut frames = catalog(100);
    let taken = Page { start: HEAP_START + 3 * 4096 };
    assert!(mapper.map_to(taken, PhysFrame { start: 0xb8000 }, PRESENT, &mut frames).is_ok());
    let mut heap = LinkedListAllocator::new();
    assert_eq!(
        init_heap(&mut mapper, &mut frames, &mut heap),
        Err(MapToError::PageAlreadyMapped(PhysFrame { start: 0xb8000 }))
    );
    assert_eq!(heap.allocate(1, 1), Err(AllocError::OutOfMemory));
}

#[test]
fn locked_allocator_serves_through_guard() {
    let mut inner = LinkedListAllocator::new();
    inner.init(0x8000, 256);
    let locked = Locked::new(inner);
    let a = locked.lock().allocate(64, 8).unwrap();
    let b = locked.lock().allocate(64, 8).unwrap();
    assert_eq!((a, b), (0x8000, 0x8040));
}

#[test]
fn dummy_refuses_everything() {
    assert_eq!(Dummy.allocate(8, 8), Err(AllocError::OutOfMemory));
}
