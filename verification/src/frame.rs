//! The frame-allocator contract shared by the bootstrap bump allocator and
//! the steady-state buddy allocator, together with the plain page-count
//! types it trades in.

use vstd::prelude::*;

use crate::PhysicalAddress;
use crate::arch::PAGE_SIZE;
use crate::arch::PHYS_LIMIT;

verus! {

/// An opaque count of physical page frames.
#[derive(Clone, Copy, Debug)]
pub struct FrameCount(u64);

impl FrameCount {
    /// The count, for use in contracts.
    pub closed spec fn spec_data(self) -> u64 {
        self.0
    }

    pub fn new(count: u64) -> (r: Self)
        ensures
            r.spec_data() == count,
    {
        FrameCount(count)
    }

    pub fn data(&self) -> (r: u64)
        ensures
            r == self.spec_data(),
    {
        self.0
    }
}

/// A snapshot of an allocator's accounting: pages handed out or reserved,
/// and pages tracked in total. The free count is derived, never stored.
pub struct FrameUsage {
    used: FrameCount,
    total: FrameCount,
}

impl FrameUsage {
    /// The used page count, for use in contracts.
    pub closed spec fn spec_used(self) -> u64 {
        self.used.spec_data()
    }

    /// The total page count, for use in contracts.
    pub closed spec fn spec_total(self) -> u64 {
        self.total.spec_data()
    }

    pub fn new(used: FrameCount, total: FrameCount) -> (r: Self)
        ensures
            r.spec_used() == used.spec_data(),
            r.spec_total() == total.spec_data(),
    {
        FrameUsage { used, total }
    }

    pub fn used(&self) -> (r: FrameCount)
        ensures
            r.spec_data() == self.spec_used(),
    {
        self.used
    }

    pub fn tatal(&self) -> (r: FrameCount)
        ensures
            r.spec_data() == self.spec_total(),
    {
        self.total
    }

    pub fn free(&self) -> (r: FrameCount)
        requires
            self.spec_used() <= self.spec_total(),
        ensures
            r.spec_data() == self.spec_total() - self.spec_used(),
    {
        FrameCount(self.total.0 - self.used.0)
    }
}

/// A physical frame allocator. The model is the fixed pool of page bases
/// the allocator tracks, the set of pages currently handed out or
/// reserved, and the two counters reported by `usage`. Each
/// implementation additionally pins down its exact behaviour through
/// `alloc_post` and `free_post`.
pub trait FrameAllocator: Sized {
    /// Internal invariant; every operation preserves it.
    spec fn wf(&self) -> bool;

    /// The page bases this allocator tracks; fixed for its lifetime.
    spec fn pool(&self) -> Set<int>;

    /// Whether the page with base `p` is currently handed out or reserved.
    spec fn is_allocated(&self, p: int) -> bool;

    /// Pages currently counted as used by `usage`.
    spec fn used_count(&self) -> int;

    /// Pages tracked in total by `usage`.
    spec fn total_count(&self) -> int;

    /// The implementation's exact relation between the state before and
    /// after `allocate`.
    spec fn alloc_post(&self, pre: Self, count: int, r: Option<PhysicalAddress>) -> bool;

    /// The implementation's precondition for `free`.
    spec fn free_pre(&self, address: PhysicalAddress, count: int) -> bool;

    /// The implementation's exact relation between the state before and
    /// after `free`.
    spec fn free_post(&self, pre: Self, address: PhysicalAddress, count: int) -> bool;

    /// Allocates `count` contiguous page frames, or reports exhaustion.
    fn allocate(&mut self, count: FrameCount) -> (r: Option<PhysicalAddress>)
        requires
            old(self).wf(),
            count.spec_data() >= 1,
        ensures
            final(self).wf(),
            final(self).pool() == old(self).pool(),
            final(self).total_count() == old(self).total_count(),
            final(self).alloc_post(*old(self), count.spec_data() as int, r),
            forall|q: int| #[trigger] old(self).is_allocated(q) ==> final(self).is_allocated(q),
            r is None ==> *final(self) == *old(self),
            r matches Some(p) ==> ({
                &&& p.spec_data() % PAGE_SIZE == 0
                &&& p.spec_data() + count.spec_data() * PAGE_SIZE <= PHYS_LIMIT
                &&& forall|q: int|
                    p.spec_data() <= q < p.spec_data() + count.spec_data() * PAGE_SIZE && q % (
                    PAGE_SIZE as int) == 0 ==> #[trigger] old(self).pool().contains(q)
                &&& forall|q: int|
                    p.spec_data() <= q < p.spec_data() + count.spec_data() * PAGE_SIZE && q % (
                    PAGE_SIZE as int) == 0 ==> !(#[trigger] old(self).is_allocated(q)) && final(
                    self).is_allocated(q)
            }),
    ;

    /// Returns `count` pages starting at `address` to the allocator.
    fn free(&mut self, address: PhysicalAddress, count: FrameCount)
        requires
            old(self).wf(),
            count.spec_data() >= 1,
            old(self).free_pre(address, count.spec_data() as int),
        ensures
            final(self).wf(),
            final(self).pool() == old(self).pool(),
            final(self).total_count() == old(self).total_count(),
            final(self).free_post(*old(self), address, count.spec_data() as int),
            forall|q: int| #[trigger] final(self).is_allocated(q) ==> old(self).is_allocated(q),
    ;

    /// Allocates a single page frame.
    fn allocate_one(&mut self) -> (r: Option<PhysicalAddress>)
        requires
            old(self).wf(),
        ensures
            final(self).wf(),
            final(self).pool() == old(self).pool(),
            final(self).total_count() == old(self).total_count(),
            final(self).alloc_post(*old(self), 1, r),
            forall|q: int| #[trigger] old(self).is_allocated(q) ==> final(self).is_allocated(q),
            r is None ==> *final(self) == *old(self),
            r matches Some(p) ==> ({
                &&& p.spec_data() % PAGE_SIZE == 0
                &&& p.spec_data() + PAGE_SIZE <= PHYS_LIMIT
                &&& forall|q: int|
                    p.spec_data() <= q < p.spec_data() + PAGE_SIZE && q % (
                    PAGE_SIZE as int) == 0 ==> #[trigger] old(self).pool().contains(q)
                &&& forall|q: int|
                    p.spec_data() <= q < p.spec_data() + PAGE_SIZE && q % (
                    PAGE_SIZE as int) == 0 ==> !(#[trigger] old(self).is_allocated(q)) && final(
                    self).is_allocated(q)
            }),
    {
        self.allocate(FrameCount::new(1))
    }

    /// Frees a single page frame.
    fn free_one(&mut self, address: PhysicalAddress)
        requires
            old(self).wf(),
            old(self).free_pre(address, 1),
        ensures
            final(self).wf(),
            final(self).pool() == old(self).pool(),
            final(self).total_count() == old(self).total_count(),
            final(self).free_post(*old(self), address, 1),
            forall|q: int| #[trigger] final(self).is_allocated(q) ==> old(self).is_allocated(q),
    {
        self.free(address, FrameCount::new(1))
    }

    /// Reports the allocator's page accounting. The used count never
    /// exceeds the total, so the derived free count is never negative.
    fn usage(&self) -> (r: FrameUsage)
        requires
            self.wf(),
        ensures
            r.spec_used() == self.used_count(),
            r.spec_total() == self.total_count(),
            0 <= self.used_count() <= self.total_count(),
    ;
}

} // verus!
