//! The limit on the memory that is taken from the operating system.
use vstd::prelude::*;

verus! {

/// How much memory may be taken from the operating system, and how much is.
#[derive(Copy, Clone, Debug, PartialEq, Eq, Structural)]
pub struct AllocationLimit {
    pub limit: usize,
    pub allocated: usize,
}

impl AllocationLimit {
    /// No limit, nothing taken.
    pub fn new() -> (r: AllocationLimit)
        ensures
            r.limit == usize::MAX,
            r.allocated == 0,
    {
        AllocationLimit { limit: usize::MAX, allocated: 0 }
    }

    /// Whether `size` more bytes stay within the limit.
    pub open spec fn has_room_for(self, size: usize) -> bool {
        self.allocated + size <= self.limit
    }

    /// Gives `size` bytes back.
    pub fn mark_deallocated(&mut self, size: usize)
        ensures
            *final(self) == (AllocationLimit {
                allocated: old(self).allocated.wrapping_sub(size),
                ..*old(self)
            }),
    {
        self.allocated = self.allocated.wrapping_sub(size);
    }

    /// Takes `size` bytes where the limit has room for them.
    pub fn may_allocate(&mut self, size: usize) -> (r: bool)
        ensures
            r == old(self).has_room_for(size),
            r ==> *final(self) == (AllocationLimit {
                allocated: (old(self).allocated + size) as usize,
                ..*old(self)
            }),
            !r ==> *final(self) == *old(self),
    {
        if self.allocated > self.limit || size > self.limit - self.allocated {
            return false;
        }
        self.allocated = self.allocated + size;
        true
    }

    /// Takes `size` bytes whether the limit has room for them or not.
    pub fn allocate_any_way(&mut self, size: usize)
        ensures
            *final(self) == (AllocationLimit {
                allocated: old(self).allocated.wrapping_add(size),
                ..*old(self)
            }),
    {
        self.allocated = self.allocated.wrapping_add(size);
    }
}

/// Sets the limit; what is taken already stays.
pub fn set_allocator_limit(limit: &mut AllocationLimit, size: usize)
    ensures
        *final(limit) == (AllocationLimit { limit: size, ..*old(limit) }),
{
    limit.limit = size;
}

/// How many bytes are taken.
pub fn load_allocated(limit: &AllocationLimit) -> (r: usize)
    ensures
        r == limit.allocated,
{
    limit.allocated
}

/// Giving back what was taken restores the counter.
pub proof fn law_limit_round_trip(allocated: usize, size: usize)
    ensures
        allocated.wrapping_add(size).wrapping_sub(size) == allocated,
{
}

} // verus!
