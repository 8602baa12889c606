//! The bump allocator: a watermark that only rises until every allocation is
//! given back.

use super::{align_up_spec, all_within, checked_align_up, pairwise_disjoint};
use super::{lemma_align_up_is_least, lemma_power_of_two_positive};
use super::{Allocation, HeapStrategy};
use vstd::multiset::Multiset;
use vstd::prelude::*;

verus! {

/// Stack Allocator
///
/// Fast, but memory comes back only when the last live allocation is released.
pub struct BumpAllocator {
    /// bottom
    heap_start: usize,
    /// surface
    heap_end: usize,
    /// top
    next: usize,
    /// number of allocated memory chunk
    allocations: usize,
    /// the allocated memory chunks
    live: Ghost<Multiset<Allocation>>,
}

impl BumpAllocator {
    /// The watermark: the address from which the next allocation is cut.
    pub closed spec fn next(&self) -> usize {
        self.next
    }

    /// The number of live allocations, as the allocator counts them.
    pub closed spec fn allocations(&self) -> usize {
        self.allocations
    }

    /// Creates a new `empty` bump allocator
    pub fn new() -> (r: Self)
        ensures
            r.wf(),
            r.heap_start() == 0,
            r.heap_end() == 0,
            r.next() == 0,
            r.live() == Multiset::<Allocation>::empty(),
    {
        BumpAllocator {
            heap_start: 0,
            heap_end: 0,
            next: 0,
            allocations: 0,
            live: Ghost(Multiset::empty()),
        }
    }

    /// The watermark: the address from which the next allocation is cut.
    pub fn watermark(&self) -> (r: usize)
        ensures
            r == self.next(),
    {
        self.next
    }

    /// The number of live allocations.
    pub fn live_count(&self) -> (r: usize)
        ensures
            r == self.allocations(),
    {
        self.allocations
    }

    /// Initializes the bump allocator with the given heap bounds.
    ///
    /// The caller must ensure that the given memory range is unused. No
    /// allocation may be live.
    pub fn init(&mut self, heap_start: usize, heap_size: usize)
        requires
            old(self).wf(),
            old(self).live().len() == 0,
            heap_start + heap_size <= usize::MAX,
        ensures
            final(self).wf(),
            final(self).heap_start() == heap_start,
            final(self).heap_end() == heap_start + heap_size,
            final(self).next() == heap_start,
            final(self).live() == old(self).live(),
    {
        self.heap_start = heap_start;
        self.heap_end = heap_start + heap_size;
        self.next = heap_start;
    }
}

impl Default for BumpAllocator {
    /// An `empty` bump allocator, as `new` makes it.
    fn default() -> (r: Self)
        ensures
            r.wf(),
            r.heap_start() == 0,
            r.heap_end() == 0,
            r.next() == 0,
            r.live() == Multiset::<Allocation>::empty(),
    {
        Self::new()
    }
}

impl HeapStrategy for BumpAllocator {
    open spec fn wf(&self) -> bool {
        &&& self.heap_start() <= self.next() <= self.heap_end()
        &&& self.allocations() == self.live().len()
        &&& self.allocations() == 0 ==> self.next() == self.heap_start()
        &&& all_within(self.live(), self.heap_start() as int, self.next() as int)
        &&& pairwise_disjoint(self.live())
    }

    closed spec fn heap_start(&self) -> usize {
        self.heap_start
    }

    closed spec fn heap_end(&self) -> usize {
        self.heap_end
    }

    closed spec fn live(&self) -> Multiset<Allocation> {
        self.live@
    }

    /// The request can be served where it fits between the watermark,
    /// rounded up to `align`, and the end of the heap, and the count of the
    /// live allocations can still rise.
    open spec fn can_allocate(&self, size: usize, align: usize) -> bool {
        &&& align_up_spec(self.next() as int, align as int) + size <= self.heap_end()
        &&& self.allocations() < usize::MAX
    }

    /// Cuts the allocation at the watermark, rounded up to `align`, and moves
    /// the watermark behind it.
    fn allocate(&mut self, size: usize, align: usize) -> (r: Option<usize>)
        ensures
            r matches Some(addr) ==> {
                &&& addr == align_up_spec(old(self).next() as int, align as int)
                &&& final(self).next() == addr + size
                &&& final(self).allocations() == old(self).allocations() + 1
            },
    {
        proof {
            lemma_power_of_two_positive(align as int);
            lemma_align_up_is_least(self.next as int, align as int);
        }
        let alloc_start: usize = match checked_align_up(self.next, align) {
            Some(start) => start,
            None => {
                return None;
            },
        };
        let alloc_end: usize = match alloc_start.checked_add(size) {
            Some(end) => end,
            None => {
                return None;
            },
        };
        if alloc_end > self.heap_end || self.allocations == usize::MAX {
            // handle OOM (out of memory)
            None
        } else {
            let ghost taken = Allocation { addr: alloc_start, size, align };
            self.next = alloc_end;
            self.allocations = self.allocations + 1;
            self.live = Ghost(self.live@.insert(taken));
            proof {
                assert forall|a: Allocation, b: Allocation|
                    self.live@.count(a) > 0 && self.live@.count(b) > 0 && (a != b
                        || self.live@.count(a) >= 2) implies #[trigger] a.disjoint(b) by {
                    if a != taken && b != taken {
                        assert(old(self).live@.count(a) > 0);
                    }
                }
            }
            Some(alloc_start)
        }
    }

    /// Counts the allocation off. When none is left, the watermark falls
    /// back to the bottom of the heap.
    fn deallocate(&mut self, addr: usize, size: usize, align: usize)
        ensures
            final(self).allocations() == old(self).allocations() - 1,
            final(self).next() == (if old(self).allocations() == 1 {
                old(self).heap_start()
            } else {
                old(self).next()
            }),
    {
        let ghost given = Allocation { addr, size, align };
        self.allocations = self.allocations - 1;
        self.live = Ghost(self.live@.remove(given));
        if self.allocations == 0 {
            self.next = self.heap_start;
        }
    }

    proof fn lemma_live_disjoint(&self, a: Allocation, b: Allocation) {
        assert(a.disjoint(b));
    }
}

} // verus!
