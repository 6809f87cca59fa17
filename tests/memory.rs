use atlas_mem::memory::{BootInfoFrameAllocator, EmptyFrameAllocator, MemoryRegion, MemoryRegionType, PhysFrame};

fn region(start: u64, end: u64, usable: bool) -> MemoryRegion {
    MemoryRegion {
        start,
        end,
        region_type: if usable { MemoryRegionType::Usable } else { MemoryRegionType::Reserved },
    }
}

#[test]
fn frames_come_in_map_order_skipping_reserved() {
    let map = vec![
        region(0x0, 0x1000, false),
        region(0x1000, 0x3000, true),
        region(0x3000, 0x8000, false),
        region(0x8000, 0x9000, true),
    ];
    let mut frames = BootInfoFrameAllocator::init(map);
    assert_eq!(frames.allocate_frame(), Some(PhysFrame { start: 0x1000 }));
    assert_eq!(frames.allocate_frame(), Some(PhysFrame { start: 0x2000 }));
    assert_eq!(frames.allocate_frame(), Some(PhysFrame { start: 0x8000 }));
    assert_eq!(frames.allocate_frame(), None);
    assert_eq!(frames.allocate_frame(), None);
}

#[test]
fn frames_never_repeat() {
    let map = vec![
        region(0x0, 0x10000, true),
        region(0x10000, 0x20000, false),
        region(0x20000, 0x40000, true),
        region(0x40000, 0x40000, true),
    ];
    let mut frames = BootInfoFrameAllocator::init(map);
    let mut seen: Vec<u64> = Vec::new();
    while let Some(f) = frames.allocate_frame() {
        assert_eq!(f.start % 4096, 0);
        assert!(!seen.contains(&f.start));
        seen.push(f.start);
    }
    assert_eq!(seen.len(), 16 + 32);
}

#[test]
fn empty_map_has_no_frames() {
    let mut frames = BootInfoFrameAllocator::init(Vec::new());
    assert_eq!(frames.allocate_frame(), None);
}

#[test]
fn empty_frame_allocator_never_gives() {
    let mut e = EmptyFrameAllocator;
    assert_eq!(e.allocate_frame(), None);
}

#[test]
fn frame_containing_address() {
    assert_eq!(PhysFrame::containing_address(0xb8123), PhysFrame { start: 0xb8000 });
    assert_eq!(PhysFrame::containing_address(0x1000).start_address(), 0x1000);
}
