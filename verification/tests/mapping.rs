use ember_os::allocator::mapping::{
    heap_page_flags, kernel_heap, HeapMapper, HeapRegion, MapAction, MapError, MapEvent, MapPhase,
    MapRequest, HEAP_PAGE_FLAGS, PAGE_SIZE,
};
use ember_os::allocator::{HEAP_SIZE, HEAP_START};

#[test]
fn heap_constants_are_the_kernels() {
    assert_eq!(HEAP_START, 0x4444_4444_0000);
    assert_eq!(HEAP_SIZE, 512 * 1024);
    let region = kernel_heap();
    assert_eq!(region, HeapRegion { start: HEAP_START, size: HEAP_SIZE });
    assert!(region.is_valid());
}

#[test]
fn heap_pages_are_present_and_writable() {
    assert_eq!(heap_page_flags(), 3);
    assert_eq!(HEAP_PAGE_FLAGS, 3);
}

#[test]
fn region_is_valid_in_one_half_of_the_addresses() {
    assert!(HeapRegion { start: 0, size: 1 }.is_valid());
    assert!(HeapRegion { start: 0x7fff_ffff_f000, size: 0x1000 }.is_valid());
    assert!(HeapRegion { start: 0xffff_8000_0000_0000, size: 0x1000 }.is_valid());
    assert!(HeapRegion { start: 0xffff_ffff_ffff_f000, size: 0x1000 }.is_valid());
}

#[test]
fn region_is_not_valid_where_empty_or_out_of_the_halves() {
    assert!(!HeapRegion { start: 0x1000, size: 0 }.is_valid());
    assert!(!HeapRegion { start: 0x7fff_ffff_f000, size: 0x1001 }.is_valid());
    assert!(!HeapRegion { start: 0x8000_0000_0000, size: 1 }.is_valid());
    assert!(!HeapRegion { start: 0xffff_7fff_ffff_ffff, size: 2 }.is_valid());
    assert!(!HeapRegion { start: 0xffff_ffff_ffff_f000, size: 0x1001 }.is_valid());
    assert!(!HeapRegion { start: u64::MAX, size: u64::MAX }.is_valid());
}

#[test]
fn plan_starts_at_the_page_that_holds_the_start() {
    let plan = HeapMapper::new(HeapRegion { start: 0x1234_5678, size: 10 });
    assert_eq!(plan.current_page(), 0x1234_5000);
    assert_eq!(plan.current_phase(), MapPhase::AwaitFrame);
    assert_eq!(plan.pending(), MapAction::AllocateFrame);
    let upper = HeapMapper::new(HeapRegion { start: 0xffff_8000_0000_0fff, size: 1 });
    assert_eq!(upper.current_page(), 0xffff_8000_0000_0000);
}

#[test]
fn plan_asks_for_a_mapping_with_the_frame() {
    let mut plan = HeapMapper::new(kernel_heap());
    let action = plan.step(MapEvent::Frame(Some(0x7000)));
    assert_eq!(
        action,
        MapAction::MapPage(MapRequest { page: HEAP_START, frame: 0x7000, flags: 3 })
    );
    assert_eq!(plan.current_phase(), MapPhase::AwaitMap(0x7000));
    assert_eq!(plan.pending(), action);
}

#[test]
fn plan_fails_without_a_frame() {
    let mut plan = HeapMapper::new(kernel_heap());
    assert_eq!(plan.step(MapEvent::Frame(None)), MapAction::Fail(MapError::FrameAllocationFailed));
    assert_eq!(plan.current_phase(), MapPhase::Failed(MapError::FrameAllocationFailed));
    // nothing revives the plan
    assert_eq!(
        plan.step(MapEvent::Frame(Some(0x7000))),
        MapAction::Fail(MapError::FrameAllocationFailed)
    );
    assert_eq!(
        plan.step(MapEvent::Mapped(Ok(()))),
        MapAction::Fail(MapError::FrameAllocationFailed)
    );
}

#[test]
fn plan_fails_with_the_error_of_the_mapper() {
    let mut plan = HeapMapper::new(kernel_heap());
    plan.step(MapEvent::Frame(Some(0x7000)));
    assert_eq!(
        plan.step(MapEvent::Mapped(Err(MapError::PageAlreadyMapped))),
        MapAction::Fail(MapError::PageAlreadyMapped)
    );
    let mut other = HeapMapper::new(kernel_heap());
    other.step(MapEvent::Frame(Some(0x7000)));
    assert_eq!(
        other.step(MapEvent::Mapped(Err(MapError::ParentEntryHugePage))),
        MapAction::Fail(MapError::ParentEntryHugePage)
    );
}

#[test]
fn plan_ignores_an_event_that_it_does_not_wait_for() {
    let mut plan = HeapMapper::new(kernel_heap());
    assert_eq!(plan.step(MapEvent::Mapped(Ok(()))), MapAction::AllocateFrame);
    assert_eq!(plan.current_page(), HEAP_START);
    plan.step(MapEvent::Frame(Some(0x7000)));
    let again = plan.step(MapEvent::Frame(Some(0x9000)));
    assert_eq!(
        again,
        MapAction::MapPage(MapRequest { page: HEAP_START, frame: 0x7000, flags: 3 })
    );
}

#[test]
fn plan_maps_every_page_of_the_heap_in_order() {
    let mut plan = HeapMapper::new(kernel_heap());
    let mut pages: Vec<u64> = Vec::new();
    let mut action = plan.pending();
    let mut frame: u64 = 0x10_0000;
    loop {
        match action {
            MapAction::AllocateFrame => {
                action = plan.step(MapEvent::Frame(Some(frame)));
                frame += PAGE_SIZE;
            }
            MapAction::MapPage(request) => {
                assert_eq!(request.flags, 3);
                assert_eq!(request.frame + PAGE_SIZE, frame);
                pages.push(request.page);
                action = plan.step(MapEvent::Mapped(Ok(())));
            }
            MapAction::InitAllocator(region) => {
                assert_eq!(region, kernel_heap());
                break;
            }
            MapAction::Fail(error) => panic!("the plan failed: {:?}", error),
        }
        assert!(pages.len() <= 128);
    }
    assert_eq!(pages.len(), 128);
    let mut index: usize = 0;
    while index < 128 {
        assert_eq!(pages[index], HEAP_START + (index as u64) * PAGE_SIZE);
        index += 1;
    }
    assert_eq!(plan.current_phase(), MapPhase::Finished);
    assert_eq!(plan.step(MapEvent::Frame(Some(1))), MapAction::InitAllocator(kernel_heap()));
}

#[test]
fn plan_covers_a_region_that_straddles_pages() {
    let region = HeapRegion { start: 0x1ffe, size: 0x1004 };
    let mut plan = HeapMapper::new(region);
    let mut pages: Vec<u64> = Vec::new();
    let mut action = plan.pending();
    loop {
        match action {
            MapAction::AllocateFrame => action = plan.step(MapEvent::Frame(Some(0x5000))),
            MapAction::MapPage(request) => {
                pages.push(request.page);
                action = plan.step(MapEvent::Mapped(Ok(())));
            }
            MapAction::InitAllocator(done) => {
                assert_eq!(done, region);
                break;
            }
            MapAction::Fail(error) => panic!("the plan failed: {:?}", error),
        }
        assert!(pages.len() <= 3);
    }
    assert_eq!(pages, vec![0x1000, 0x2000, 0x3000]);
}

#[test]
fn plan_stops_at_the_first_missing_frame() {
    let mut plan = HeapMapper::new(kernel_heap());
    plan.step(MapEvent::Frame(Some(0x5000)));
    plan.step(MapEvent::Mapped(Ok(())));
    plan.step(MapEvent::Frame(Some(0x6000)));
    assert_eq!(plan.step(MapEvent::Mapped(Ok(()))), MapAction::AllocateFrame);
    assert_eq!(plan.current_page(), HEAP_START + 2 * PAGE_SIZE);
    assert_eq!(plan.step(MapEvent::Frame(None)), MapAction::Fail(MapError::FrameAllocationFailed));
    assert_eq!(plan.current_page(), HEAP_START + 2 * PAGE_SIZE);
}
