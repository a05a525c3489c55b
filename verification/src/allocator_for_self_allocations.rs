//! Allocators that serve structures of their own.
use crate::accounts::{done, ready, served};
use crate::failures::PanicCause;
use crate::non_local_ptr_manager::NonLocalPtrManager;
use crate::os::is_region_size;
use crate::self_alloc::taken_for_self;
use crate::sizes::{law_recommended_is_idempotent, recommended, recommended_size};
use crate::state::{fresh_node, State};
use crate::thread_local_allocator::ThreadLocalAllocator;
use vstd::prelude::*;

verus! {

/// Whether a block of the size is handed out as it is, without a rest.
pub open spec fn is_exact(size: int) -> bool {
    &&& size > 0
    &&& recommended(size) == size
}

/// An allocator that structures of its own take their memory from.
///
/// A state goes along while the allocator itself is being built; where there is none, the memory
/// comes from the allocator.
pub trait AllocatorForSelfAllocations: Sized {
    /// What the allocator builds its structures in.
    type State;

    /// Whether the allocator and the state are sound and belong together.
    spec fn is_ready(&self, state: Option<Self::State>) -> bool;

    /// Whether a state is made of a fresh region.
    spec fn starts(state: Self::State, region: int, region_size: int) -> bool;

    /// What a request for `size` bytes leaves behind; `counting` tells whether the limit has to
    /// have room for them.
    spec fn allocated(
        a0: Self,
        s0: Option<Self::State>,
        a1: Self,
        s1: Option<Self::State>,
        size: int,
        counting: bool,
        r: Result<Option<usize>, PanicCause>,
    ) -> bool;

    /// What giving `size` bytes back leaves behind.
    spec fn deallocated(
        a0: Self,
        s0: Option<Self::State>,
        a1: Self,
        s1: Option<Self::State>,
        ptr: int,
        size: int,
        r: Result<(), PanicCause>,
    ) -> bool;

    /// A state with a fresh region.
    fn state_from_region(region: usize, region_size: usize) -> (r: Self::State)
        requires
            is_region_size(region_size as int),
            0 < region,
            region + region_size <= usize::MAX,
        ensures
            Self::starts(r, region as int, region_size as int),
    ;

    /// Takes memory if the limit has room for it.
    fn self_alloc(&mut self, size: usize, maybe_state: &mut Option<Self::State>) -> (r: Result<
        Option<usize>,
        PanicCause,
    >)
        requires
            old(self).is_ready(*old(maybe_state)),
            is_exact(size as int),
        ensures
            Self::allocated(
                *old(self),
                *old(maybe_state),
                *final(self),
                *final(maybe_state),
                size as int,
                true,
                r,
            ),
            r is Ok ==> final(self).is_ready(*final(maybe_state)),
            r matches Ok(Some(ptr)) ==> ptr > 0 && ptr + size <= usize::MAX,
    ;

    /// Takes memory whether the limit has room for it or not.
    fn self_alloc_without_counting_limit(
        &mut self,
        size: usize,
        maybe_state: &mut Option<Self::State>,
    ) -> (r: Result<Option<usize>, PanicCause>)
        requires
            old(self).is_ready(*old(maybe_state)),
            is_exact(size as int),
        ensures
            Self::allocated(
                *old(self),
                *old(maybe_state),
                *final(self),
                *final(maybe_state),
                size as int,
                false,
                r,
            ),
            r is Ok ==> final(self).is_ready(*final(maybe_state)),
            r matches Ok(Some(ptr)) ==> ptr > 0 && ptr + size <= usize::MAX,
    ;

    /// Gives memory back.
    fn self_dealloc(
        &mut self,
        ptr: usize,
        size: usize,
        maybe_state: &mut Option<Self::State>,
    ) -> (r: Result<(), PanicCause>)
        requires
            old(self).is_ready(*old(maybe_state)),
            size > 0,
            ptr > 0,
            ptr + recommended(size as int) <= usize::MAX,
        ensures
            Self::deallocated(
                *old(self),
                *old(maybe_state),
                *final(self),
                *final(maybe_state),
                ptr as int,
                size as int,
                r,
            ),
            r is Ok ==> final(self).is_ready(*final(maybe_state)),
    ;
}

impl<N: NonLocalPtrManager> AllocatorForSelfAllocations for ThreadLocalAllocator<N> {
    type State = State;

    open spec fn is_ready(&self, state: Option<State>) -> bool {
        ready(*self, state)
    }

    open spec fn starts(state: State, region: int, region_size: int) -> bool {
        &&& state.wf()
        &&& state.region_size == region_size
        &&& state.chain() == seq![fresh_node(region, region_size)]
    }

    open spec fn allocated(
        a0: Self,
        s0: Option<State>,
        a1: Self,
        s1: Option<State>,
        size: int,
        counting: bool,
        r: Result<Option<usize>, PanicCause>,
    ) -> bool {
        &&& served(a0, s0, a1, s1, size, r, true)
        &&& taken_for_self(a0, s0, a1, s1, size, counting, r)
    }

    open spec fn deallocated(
        a0: Self,
        s0: Option<State>,
        a1: Self,
        s1: Option<State>,
        ptr: int,
        size: int,
        r: Result<(), PanicCause>,
    ) -> bool {
        done(a0, s0, a1, s1, ptr, recommended(size), r)
    }

    fn state_from_region(region: usize, region_size: usize) -> (r: State) {
        State::from_region(region, region_size)
    }

    fn self_alloc(&mut self, size: usize, maybe_state: &mut Option<State>) -> (r: Result<
        Option<usize>,
        PanicCause,
    >) {
        self.self_alloc_(size, true, maybe_state)
    }

    fn self_alloc_without_counting_limit(
        &mut self,
        size: usize,
        maybe_state: &mut Option<State>,
    ) -> (r: Result<Option<usize>, PanicCause>) {
        self.self_alloc_(size, false, maybe_state)
    }

    fn self_dealloc(&mut self, ptr: usize, size: usize, maybe_state: &mut Option<State>) -> (r: Result<
        (),
        PanicCause,
    >) {
        proof {
            law_recommended_is_idempotent(size as int);
        }
        self.self_dealloc_(ptr, recommended_size(size), maybe_state)
    }
}

/// An allocator that only counts: every block has an address of its own.
#[derive(Clone, Debug)]
pub struct ThreadLocalAllocatorFake {
    pub allocated_memory: usize,
    pub next_address: usize,
}

impl ThreadLocalAllocatorFake {
    /// An allocator that has handed out nothing.
    pub fn new() -> (r: ThreadLocalAllocatorFake)
        ensures
            r.allocated_memory == 0,
            r.next_address == 4096,
    {
        ThreadLocalAllocatorFake { allocated_memory: 0, next_address: 4096 }
    }

    /// Bytes that are handed out and not given back.
    pub fn allocated_memory(&self) -> (r: usize)
        ensures
            r == self.allocated_memory,
    {
        self.allocated_memory
    }
}

impl AllocatorForSelfAllocations for ThreadLocalAllocatorFake {
    type State = usize;

    open spec fn is_ready(&self, state: Option<usize>) -> bool {
        self.next_address > 0
    }

    open spec fn starts(state: usize, region: int, region_size: int) -> bool {
        state == region
    }

    open spec fn allocated(
        a0: Self,
        s0: Option<usize>,
        a1: Self,
        s1: Option<usize>,
        size: int,
        counting: bool,
        r: Result<Option<usize>, PanicCause>,
    ) -> bool {
        &&& s1 == s0
        &&& if a0.next_address + size <= usize::MAX && a0.allocated_memory + size <= usize::MAX {
            &&& r == Ok::<Option<usize>, PanicCause>(Some(a0.next_address))
            &&& a1.allocated_memory == a0.allocated_memory + size
            &&& a1.next_address == a0.next_address + size
        } else {
            r == Ok::<Option<usize>, PanicCause>(None) && a1 == a0
        }
    }

    open spec fn deallocated(
        a0: Self,
        s0: Option<usize>,
        a1: Self,
        s1: Option<usize>,
        ptr: int,
        size: int,
        r: Result<(), PanicCause>,
    ) -> bool {
        &&& s1 == s0
        &&& r is Ok <==> size <= a0.allocated_memory
        &&& r is Ok ==> a1.allocated_memory == a0.allocated_memory - size && a1.next_address
            == a0.next_address
        &&& r matches Err(cause) ==> cause is MissingMetadata && a1 == a0
    }

    fn state_from_region(region: usize, region_size: usize) -> (r: usize) {
        region
    }

    fn self_alloc(&mut self, size: usize, maybe_state: &mut Option<usize>) -> (r: Result<
        Option<usize>,
        PanicCause,
    >) {
        self.self_alloc_without_counting_limit(size, maybe_state)
    }

    fn self_alloc_without_counting_limit(
        &mut self,
        size: usize,
        maybe_state: &mut Option<usize>,
    ) -> (r: Result<Option<usize>, PanicCause>) {
        if size > usize::MAX - self.next_address || size > usize::MAX - self.allocated_memory {
            return Ok(None);
        }
        let ptr: usize = self.next_address;
        self.next_address = ptr + size;
        self.allocated_memory = self.allocated_memory + size;
        Ok(Some(ptr))
    }

    fn self_dealloc(&mut self, ptr: usize, size: usize, maybe_state: &mut Option<usize>) -> (r: Result<
        (),
        PanicCause,
    >) {
        if size > self.allocated_memory {
            return Err(PanicCause::MissingMetadata);
        }
        self.allocated_memory = self.allocated_memory - size;
        Ok(())
    }
}

} // verus!
