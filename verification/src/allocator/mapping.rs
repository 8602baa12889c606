//! The plan that maps the heap's pages: which page wants a frame next, what
//! the page-table mapper is asked for, and when the work is done or has failed.
//!
//! The plan owns no page table and no frames. Its caller asks the frame
//! source and the mapper, and tells the plan what they answered.

use super::{HEAP_SIZE, HEAP_START};
use vstd::prelude::*;
use x86_64::structures::paging::{Page, PageTableFlags, Size4KiB};
use x86_64::VirtAddr;

verus! {

/// The size of a page, in bytes.
pub const PAGE_SIZE: u64 = 4096;

/// The first address of the upper half of the canonical addresses.
pub const UPPER_HALF_START: u64 = 0xffff_8000_0000_0000;

/// The first address behind the lower half of the canonical addresses.
pub const LOWER_HALF_END: u64 = 0x0000_8000_0000_0000;

/// Whether `addr` is a canonical virtual address: its bits 47 to 63 are equal.
pub open spec fn is_canonical(addr: u64) -> bool {
    addr < LOWER_HALF_END || addr >= UPPER_HALF_START
}

/// The first address of the page that holds `addr`.
pub open spec fn page_start(addr: u64) -> u64 {
    (addr - addr % PAGE_SIZE) as u64
}

/// The first address of the page that holds `addr`.
///
/// Calls `x86_64::structures::paging::Page::<Size4KiB>::containing_address`
/// on `x86_64::VirtAddr::new(addr)`. For a canonical address, `new` keeps the
/// address as it is, and `containing_address` clears its low twelve bits.
/// `new` panics on an address that is not canonical, which `requires` leaves out.
#[verifier::external_body]
fn page_containing(addr: u64) -> (start: u64)
    requires
        is_canonical(addr),
    ensures
        start == page_start(addr),
{
    Page::<Size4KiB>::containing_address(VirtAddr::new(addr)).start_address().as_u64()
}

/// The bit that marks a page-table entry as present.
///
/// Reads `x86_64::structures::paging::PageTableFlags::PRESENT`, which is bit 0.
#[verifier::external_body]
fn present_flag() -> (bits: u64)
    ensures
        bits == 1,
{
    PageTableFlags::PRESENT.bits()
}

/// The bit that marks a page-table entry as writable.
///
/// Reads `x86_64::structures::paging::PageTableFlags::WRITABLE`, which is bit 1.
#[verifier::external_body]
fn writable_flag() -> (bits: u64)
    ensures
        bits == 2,
{
    PageTableFlags::WRITABLE.bits()
}

/// The flags of a heap page: present and writable.
pub const HEAP_PAGE_FLAGS: u64 = 3;

/// The flags that every heap page is mapped with.
pub fn heap_page_flags() -> (flags: u64)
    ensures
        flags == HEAP_PAGE_FLAGS,
{
    let present: u64 = present_flag();
    let writable: u64 = writable_flag();
    assert(1u64 | 2u64 == 3u64) by (bit_vector);
    present | writable
}

/// The reserved virtual address window of the heap.
#[derive(Clone, Copy, Debug, PartialEq, Eq, Structural)]
pub struct HeapRegion {
    pub start: u64,
    pub size: u64,
}

impl HeapRegion {
    /// Whether the region is not empty and lies in one half of the
    /// canonical addresses.
    pub open spec fn valid(self) -> bool {
        &&& self.size > 0
        &&& self.start + self.size <= LOWER_HALF_END || (self.start >= UPPER_HALF_START
            && self.start + self.size - 1 <= u64::MAX)
    }

    /// The last address of the region.
    pub open spec fn last(self) -> u64 {
        (self.start + self.size - 1) as u64
    }

    /// The first page of the region, by its first address.
    pub open spec fn first_page(self) -> u64 {
        page_start(self.start)
    }

    /// The last page of the region, by its first address.
    pub open spec fn last_page(self) -> u64 {
        page_start(self.last())
    }

    /// The number of pages that cover the region.
    pub open spec fn page_count(self) -> int {
        (self.last_page() - self.first_page()) / (PAGE_SIZE as int) + 1
    }

    /// Whether the region is not empty and lies in one half of the
    /// canonical addresses.
    pub fn is_valid(&self) -> (r: bool)
        ensures
            r == self.valid(),
    {
        if self.size == 0 {
            return false;
        }
        match self.start.checked_add(self.size - 1) {
            Some(last) => last < LOWER_HALF_END || self.start >= UPPER_HALF_START,
            None => false,
        }
    }
}

/// The region of the kernel's heap: `HEAP_SIZE` bytes at `HEAP_START`.
pub fn kernel_heap() -> (r: HeapRegion)
    ensures
        r.valid(),
        r.start == HEAP_START,
        r.size == HEAP_SIZE,
        r.page_count() == 128,
{
    HeapRegion { start: HEAP_START, size: HEAP_SIZE }
}

/// The pages from the first page of a valid region to its last cover the
/// region, and each of them holds a byte of it.
pub proof fn lemma_pages_cover_region(region: HeapRegion)
    requires
        region.valid(),
    ensures
        region.first_page() % PAGE_SIZE == 0,
        region.last_page() % PAGE_SIZE == 0,
        region.first_page() <= region.start < region.first_page() + PAGE_SIZE,
        region.last_page() <= region.last() < region.last_page() + PAGE_SIZE,
        region.first_page() <= region.last_page(),
        region.page_count() >= 1,
        region.first_page() + (region.page_count() - 1) * PAGE_SIZE == region.last_page(),
{
}

/// Why a heap page could not be mapped.
#[derive(Clone, Copy, Debug, PartialEq, Eq)]
pub enum MapError {
    /// A frame was needed, but the frame source had none.
    FrameAllocationFailed,
    /// The page is part of a huge page that is mapped already.
    ParentEntryHugePage,
    /// The page is mapped to a frame already.
    PageAlreadyMapped,
}

/// What the page-table mapper is asked for: to map the page at `page` to
/// the frame at `frame` with `flags`.
#[derive(Clone, Copy, Debug, PartialEq, Eq)]
pub struct MapRequest {
    pub page: u64,
    pub frame: u64,
    pub flags: u64,
}

/// What the caller tells the plan.
#[derive(Clone, Copy, Debug, PartialEq, Eq)]
pub enum MapEvent {
    /// The frame source answered: with a frame, by its first address, or with none.
    Frame(Option<u64>),
    /// The page-table mapper answered.
    Mapped(Result<(), MapError>),
}

/// What the plan wants done next.
#[derive(Clone, Copy, Debug, PartialEq, Eq)]
pub enum MapAction {
    /// Ask the frame source for a frame.
    AllocateFrame,
    /// Ask the page-table mapper for this mapping.
    MapPage(MapRequest),
    /// Every page is mapped: hand the region to the allocator.
    InitAllocator(HeapRegion),
    /// Give up with this error.
    Fail(MapError),
}

/// Where the plan stands.
#[derive(Clone, Copy, Debug, PartialEq, Eq)]
pub enum MapPhase {
    /// The current page wants a frame.
    AwaitFrame,
    /// The current page is being mapped to the frame at this address.
    AwaitMap(u64),
    /// Every page is mapped.
    Finished,
    /// The work was given up with this error.
    Failed(MapError),
}

/// The plan that maps the pages of a heap region, one after the other.
pub struct HeapMapper {
    region: HeapRegion,
    page: u64,
    phase: MapPhase,
}

impl HeapMapper {
    /// The region that is mapped.
    pub closed spec fn region(&self) -> HeapRegion {
        self.region
    }

    /// The page that is worked on, by its first address.
    pub closed spec fn page(&self) -> u64 {
        self.page
    }

    /// Where the plan stands.
    pub closed spec fn phase(&self) -> MapPhase {
        self.phase
    }

    /// The invariant of the plan: the current page is a page of the region,
    /// and is its last page when the work is finished.
    pub open spec fn wf(&self) -> bool {
        &&& self.region().valid()
        &&& self.region().first_page() <= self.page() <= self.region().last_page()
        &&& self.page() % PAGE_SIZE == 0
        &&& self.phase() == MapPhase::Finished ==> self.page() == self.region().last_page()
    }

    /// The number of pages of the region that are mapped.
    pub open spec fn mapped_pages(&self) -> int {
        (self.page() - self.region().first_page()) / (PAGE_SIZE as int) + (if self.phase()
            == MapPhase::Finished {
            1int
        } else {
            0int
        })
    }

    /// What the plan waits for.
    pub open spec fn pending_spec(&self) -> MapAction {
        match self.phase() {
            MapPhase::AwaitFrame => MapAction::AllocateFrame,
            MapPhase::AwaitMap(frame) => MapAction::MapPage(
                MapRequest { page: self.page(), frame, flags: HEAP_PAGE_FLAGS },
            ),
            MapPhase::Finished => MapAction::InitAllocator(self.region()),
            MapPhase::Failed(error) => MapAction::Fail(error),
        }
    }

    /// What `event` makes of the plan: the phase and the page after it.
    ///
    /// A frame for the page that waits for one is mapped next, and no frame
    /// ends the work. A page that was mapped is followed by the next page, or
    /// by the end of the work after the last page, and a page that could not
    /// be mapped ends the work. An event that the plan does not wait for
    /// changes nothing.
    pub open spec fn after_event(&self, event: MapEvent) -> (MapPhase, u64) {
        match (self.phase(), event) {
            (MapPhase::AwaitFrame, MapEvent::Frame(Some(frame))) => (
                MapPhase::AwaitMap(frame),
                self.page(),
            ),
            (MapPhase::AwaitFrame, MapEvent::Frame(None)) => (
                MapPhase::Failed(MapError::FrameAllocationFailed),
                self.page(),
            ),
            (MapPhase::AwaitMap(_), MapEvent::Mapped(Ok(_))) => if self.page()
                == self.region().last_page() {
                (MapPhase::Finished, self.page())
            } else {
                (MapPhase::AwaitFrame, (self.page() + PAGE_SIZE) as u64)
            },
            (MapPhase::AwaitMap(_), MapEvent::Mapped(Err(error))) => (
                MapPhase::Failed(error),
                self.page(),
            ),
            _ => (self.phase(), self.page()),
        }
    }

    /// Starts the plan for `region`: its first page wants a frame.
    pub fn new(region: HeapRegion) -> (r: Self)
        requires
            region.valid(),
        ensures
            r.wf(),
            r.region() == region,
            r.page() == region.first_page(),
            r.phase() == MapPhase::AwaitFrame,
            r.mapped_pages() == 0,
    {
        proof {
            lemma_pages_cover_region(region);
        }
        HeapMapper { region, page: page_containing(region.start), phase: MapPhase::AwaitFrame }
    }

    /// The page that is worked on, by its first address.
    pub fn current_page(&self) -> (r: u64)
        ensures
            r == self.page(),
    {
        self.page
    }

    /// Where the plan stands.
    pub fn current_phase(&self) -> (r: MapPhase)
        ensures
            r == self.phase(),
    {
        self.phase
    }

    /// What the plan waits for.
    pub fn pending(&self) -> (r: MapAction)
        ensures
            r == self.pending_spec(),
    {
        match self.phase {
            MapPhase::AwaitFrame => MapAction::AllocateFrame,
            MapPhase::AwaitMap(frame) => MapAction::MapPage(
                MapRequest { page: self.page, frame, flags: heap_page_flags() },
            ),
            MapPhase::Finished => MapAction::InitAllocator(self.region),
            MapPhase::Failed(error) => MapAction::Fail(error),
        }
    }

    /// Takes what the frame source or the page-table mapper answered, and
    /// says what is to be done next.
    pub fn step(&mut self, event: MapEvent) -> (r: MapAction)
        requires
            old(self).wf(),
        ensures
            final(self).wf(),
            final(self).region() == old(self).region(),
            (final(self).phase(), final(self).page()) == old(self).after_event(event),
            r == final(self).pending_spec(),
            final(self).mapped_pages() == old(self).mapped_pages() + (if old(self).phase()
                is AwaitMap && event is Mapped && event->Mapped_0 is Ok {
                1int
            } else {
                0int
            }),
            final(self).phase() == MapPhase::Finished ==> final(self).mapped_pages()
                == final(self).region().page_count(),
    {
        proof {
            lemma_pages_cover_region(self.region);
        }
        match (self.phase, event) {
            (MapPhase::AwaitFrame, MapEvent::Frame(Some(frame))) => {
                self.phase = MapPhase::AwaitMap(frame);
            },
            (MapPhase::AwaitFrame, MapEvent::Frame(None)) => {
                self.phase = MapPhase::Failed(MapError::FrameAllocationFailed);
            },
            (MapPhase::AwaitMap(_), MapEvent::Mapped(Ok(_))) => {
                let last_page: u64 = page_containing(self.region.start + (self.region.size - 1));
                if self.page == last_page {
                    self.phase = MapPhase::Finished;
                } else {
                    self.page = self.page + PAGE_SIZE;
                    self.phase = MapPhase::AwaitFrame;
                }
            },
            (MapPhase::AwaitMap(_), MapEvent::Mapped(Err(error))) => {
                self.phase = MapPhase::Failed(error);
            },
            _ => {},
        }
        self.pending()
    }
}

} // verus!
