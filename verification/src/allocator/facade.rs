//! The kernel's one allocator: a strategy that is not there until it is
//! initialized, once.
//!
//! The facade is what the runtime's allocation hook calls, behind a lock
//! that its caller holds. Before it is initialized it has no memory.

use super::{allocate_promise, deallocate_promise, is_power_of_two, Allocation, HeapStrategy};
use vstd::prelude::*;

verus! {

/// The owner of the active strategy.
pub struct AllocatorFacade<S: HeapStrategy> {
    strategy: Option<S>,
}

impl<S: HeapStrategy> AllocatorFacade<S> {
    /// The active strategy, or `None` before the facade is initialized.
    pub closed spec fn strategy(&self) -> Option<S> {
        self.strategy
    }

    /// The invariant of the facade: that of its strategy.
    pub open spec fn wf(&self) -> bool {
        self.strategy() matches Some(strategy) ==> strategy.wf()
    }

    /// A facade without a strategy.
    pub fn new() -> (r: Self)
        ensures
            r.wf(),
            r.strategy().is_none(),
    {
        AllocatorFacade { strategy: None }
    }

    /// Whether the facade has its strategy.
    pub fn is_initialized(&self) -> (r: bool)
        ensures
            r == self.strategy().is_some(),
    {
        self.strategy.is_some()
    }

    /// The active strategy, to read, or `None` before the facade is
    /// initialized.
    pub fn strategy_ref(&self) -> (r: Option<&S>)
        ensures
            r.is_some() == self.strategy().is_some(),
            r matches Some(strategy) ==> self.strategy() == Some(*strategy),
    {
        self.strategy.as_ref()
    }

    /// Gives the facade its strategy, and says whether it took it: a facade
    /// that has a strategy keeps it.
    pub fn init(&mut self, strategy: S) -> (r: bool)
        requires
            old(self).wf(),
            strategy.wf(),
        ensures
            final(self).wf(),
            r == old(self).strategy().is_none(),
            final(self).strategy() == (if r {
                Some(strategy)
            } else {
                old(self).strategy()
            }),
    {
        if self.strategy.is_some() {
            false
        } else {
            self.strategy = Some(strategy);
            true
        }
    }

    /// Hands the request to the strategy. A facade without a strategy has
    /// no memory.
    pub fn allocate(&mut self, size: usize, align: usize) -> (r: Option<usize>)
        requires
            old(self).wf(),
            is_power_of_two(align as int),
        ensures
            final(self).wf(),
            match old(self).strategy() {
                Some(before) => final(self).strategy() matches Some(after) && allocate_promise(
                    before,
                    size,
                    align,
                    r,
                    after,
                ),
                None => r.is_none() && final(self).strategy().is_none(),
            },
    {
        match &mut self.strategy {
            Some(strategy) => strategy.allocate(size, align),
            None => None,
        }
    }

    /// Gives the allocation at `addr` back to the strategy that handed it out.
    pub fn deallocate(&mut self, addr: usize, size: usize, align: usize)
        requires
            old(self).wf(),
            old(self).strategy() matches Some(before) && before.live().contains(
                Allocation { addr, size, align },
            ),
        ensures
            final(self).wf(),
            final(self).strategy() matches Some(after) && deallocate_promise(
                old(self).strategy().unwrap(),
                addr,
                size,
                align,
                after,
            ),
    {
        match &mut self.strategy {
            Some(strategy) => strategy.deallocate(addr, size, align),
            None => {},
        }
    }
}

} // verus!
