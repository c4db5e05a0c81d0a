use blog_os::memory::{
    heap_page_range, BootInfoFrameAllocator, EmptyFrameAlocator, HeapMapper, MapStep, MemoryRegion,
};

fn region(start_frame: u64, end_frame: u64, usable: bool) -> MemoryRegion {
    MemoryRegion { start_frame, end_frame, usable }
}

#[test]
fn frames_come_in_map_order() {
    let map = vec![region(0, 1, false), region(1, 3, true), region(3, 4, false), region(8, 10, true)];
    let mut frames = BootInfoFrameAllocator::init(map);
    assert_eq!(frames.allocate_frame(), Some(0x1000));
    assert_eq!(frames.allocate_frame(), Some(0x2000));
    assert_eq!(frames.allocate_frame(), Some(0x8000));
    assert_eq!(frames.allocate_frame(), Some(0x9000));
    assert_eq!(frames.allocate_frame(), None);
    assert_eq!(frames.allocate_frame(), None);
}

#[test]
fn frames_never_repeat_and_are_aligned() {
    let map = vec![region(16, 20, true), region(20, 21, false), region(32, 40, true)];
    let mut frames = BootInfoFrameAllocator::init(map.clone());
    let mut seen = Vec::new();
    while let Some(f) = frames.allocate_frame() {
        assert_eq!(f % 4096, 0);
        assert!(!seen.contains(&f));
        assert!(map.iter().any(|r| r.usable && r.start_frame * 4096 <= f && f < r.end_frame * 4096));
        seen.push(f);
    }
    assert_eq!(seen.len(), 12);
}

#[test]
fn empty_map_has_no_frames() {
    let mut frames = BootInfoFrameAllocator::init(Vec::new());
    assert_eq!(frames.allocate_frame(), None);
    let mut none = EmptyFrameAlocator;
    assert_eq!(none.allocate_frame(), None);
}

#[test]
fn heap_pages_cover_range() {
    assert_eq!(heap_page_range(0x4444_4444_0000, 100 * 1024), (0x4444_4444_0000, 0x4444_4445_8000));
    assert_eq!(heap_page_range(0x1800, 0x1000), (0x1000, 0x2000));
    assert_eq!(heap_page_range(0x1000, 1), (0x1000, 0x1000));
}

#[test]
fn heap_mapper_pairs_pages_with_frames() {
    let mut m = HeapMapper::new(0x1800, 0x1000);
    assert_eq!(m.next_page(), Some(0x1000));
    assert_eq!(m.step(Some(0x9000)), MapStep::MapPage { page: 0x1000, frame: 0x9000 });
    assert_eq!(m.next_page(), Some(0x2000));
    assert_eq!(m.step(Some(0xa000)), MapStep::MapPage { page: 0x2000, frame: 0xa000 });
    assert_eq!(m.next_page(), None);
}

#[test]
fn heap_mapper_stops_without_frames() {
    let mut m = HeapMapper::new(0x4444_4444_0000, 100 * 1024);
    let mut mapped = 0;
    let mut frames = BootInfoFrameAllocator::init(vec![region(16, 26, true)]);
    let outcome = loop {
        if m.next_page().is_none() {
            break None;
        }
        match m.step(frames.allocate_frame()) {
            MapStep::MapPage { .. } => mapped += 1,
            MapStep::OutOfFrames => break Some(MapStep::OutOfFrames),
        }
    };
    assert_eq!(mapped, 10);
    assert_eq!(outcome, Some(MapStep::OutOfFrames));
    assert_eq!(m.next_page(), None);
}

#[test]
fn frames_distinct_over_unsorted_disjoint_map() {
    let map = vec![region(40, 42, true), region(0, 50, false), region(10, 12, true)];
    let mut frames = BootInfoFrameAllocator::init(map);
    assert_eq!(frames.allocate_frame(), Some(40 * 4096));
    assert_eq!(frames.allocate_frame(), Some(41 * 4096));
    assert_eq!(frames.allocate_frame(), Some(10 * 4096));
    assert_eq!(frames.allocate_frame(), Some(11 * 4096));
    assert_eq!(frames.allocate_frame(), None);
}
