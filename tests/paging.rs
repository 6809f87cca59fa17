use atlas_mem::memory::{BootInfoFrameAllocator, MemoryRegion, MemoryRegionType, PhysFrame};
use atlas_mem::paging::{MapToError, Page, PageMapper, PRESENT, WRITABLE};

fn catalog(frames: u64) -> BootInfoFrameAllocator {
    BootInfoFrameAllocator::init(vec![MemoryRegion {
        start: 0x100000,
        end: 0x100000 + frames * 4096,
        region_type: MemoryRegionType::Usable,
    }])
}

#[test]
fn map_then_look_up() {
    let mut mapper = PageMapper::new(PhysFrame { start: 0x1000 });
    let mut frames = catalog(8);
    let page = Page::containing_address(0xdead_beef);
    assert_eq!(page, Page { start: 0xdead_b000 });
    assert_eq!(mapper.frame_of(page), None);
    let flush = mapper.map_to(page, PhysFrame { start: 0xb8000 }, PRESENT | WRITABLE, &mut frames).unwrap();
    assert_eq!(flush.flush(), page);
    assert_eq!(mapper.frame_of(page), Some(PhysFrame { start: 0xb8000 }));
    assert_eq!(mapper.frame_of(Page { start: 0xdead_c000 }), None);
    assert_eq!(mapper.root_frame(), PhysFrame { start: 0x1000 });
    // Three tables were created, from the first three frames.
    assert_eq!(frames.allocate_frame(), Some(PhysFrame { start: 0x100000 + 3 * 4096 }));
}

#[test]
fn mapping_same_page_twice_conflicts() {
    let mut mapper = PageMapper::new(PhysFrame { start: 0x1000 });
    let mut frames = catalog(8);
    let page = Page { start: 0x4444_4444_0000 };
    assert!(mapper.map_to(page, PhysFrame { start: 0x5000 }, PRESENT, &mut frames).is_ok());
    match mapper.map_to(page, PhysFrame { start: 0x6000 }, PRESENT, &mut frames) {
        Err(e) => assert_eq!(e, MapToError::PageAlreadyMapped(PhysFrame { start: 0x5000 })),
        Ok(_) => panic!("second mapping of a page must fail"),
    }
    assert_eq!(mapper.frame_of(page), Some(PhysFrame { start: 0x5000 }));
}

#[test]
fn neighbouring_pages_share_tables() {
    let mut mapper = PageMapper::new(PhysFrame { start: 0x1000 });
    let mut frames = catalog(3);
    assert!(mapper.map_to(Page { start: 0x20_0000 }, PhysFrame { start: 0x5000 }, PRESENT, &mut frames).is_ok());
    assert!(mapper.map_to(Page { start: 0x20_1000 }, PhysFrame { start: 0x6000 }, PRESENT, &mut frames).is_ok());
    assert_eq!(mapper.frame_of(Page { start: 0x20_1000 }), Some(PhysFrame { start: 0x6000 }));
    assert_eq!(frames.allocate_frame(), None);
}

#[test]
fn mapping_fails_without_frames_for_tables() {
    let mut mapper = PageMapper::new(PhysFrame { start: 0x1000 });
    let mut frames = catalog(2);
    match mapper.map_to(Page { start: 0x40_0000 }, PhysFrame { start: 0x5000 }, PRESENT, &mut frames) {
        Err(e) => assert_eq!(e, MapToError::FrameAllocationFailed),
        Ok(_) => panic!("three tables cannot come from two frames"),
    }
    assert_eq!(mapper.frame_of(Page { start: 0x40_0000 }), None);
    assert_eq!(frames.allocate_frame(), None);
}

#[test]
fn example_mapping_points_at_screen_buffer() {
    let mut mapper = PageMapper::new(PhysFrame { start: 0x1000 });
    let mut frames = catalog(3);
    atlas_mem::paging::create_example_mapping(Page { start: 0xdeadbeaf000 }, &mut mapper, &mut frames);
    assert_eq!(mapper.frame_of(Page { start: 0xdeadbeaf000 }), Some(PhysFrame { start: 0xb8000 }));
}
