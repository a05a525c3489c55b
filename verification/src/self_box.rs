//! A value in a block of its own, which comes from the allocator that the value serves.
use crate::allocator_for_self_allocations::AllocatorForSelfAllocations;
use crate::failures::PanicCause;
use crate::sizes::{law_recommended_is_idempotent, recommended, recommended_size};
use vstd::prelude::*;

verus! {

/// A value and the block that it lies in.
#[derive(Debug)]
pub struct SelfAllocatedBox<T> {
    pub ptr: usize,
    pub value: T,
}

/// What boxing a value does. `Err(value)` hands the value back where memory was refused.
pub open spec fn boxed<T, A: AllocatorForSelfAllocations>(
    a0: A,
    s0: Option<A::State>,
    a1: A,
    s1: Option<A::State>,
    value: T,
    counting: bool,
    r: Result<Result<SelfAllocatedBox<T>, T>, PanicCause>,
) -> bool {
    let size = recommended(vstd::layout::size_of::<T>() as int);
    match r {
        Ok(Ok(b)) => {
            &&& b.wf()
            &&& b.value == value
            &&& A::allocated(a0, s0, a1, s1, size, counting, Ok::<Option<usize>, PanicCause>(Some(b.ptr)))
            &&& a1.is_ready(s1)
        },
        Ok(Err(back)) => {
            &&& back == value
            &&& A::allocated(a0, s0, a1, s1, size, counting, Ok::<Option<usize>, PanicCause>(None))
            &&& a1.is_ready(s1)
        },
        Err(cause) => A::allocated(
            a0,
            s0,
            a1,
            s1,
            size,
            counting,
            Err::<Option<usize>, PanicCause>(cause),
        ),
    }
}

impl<T> SelfAllocatedBox<T> {
    /// Whether the block is one that an allocator can have handed out.
    pub open spec fn wf(self) -> bool {
        &&& self.ptr > 0
        &&& self.ptr + recommended(vstd::layout::size_of::<T>() as int) <= usize::MAX
    }

    /// Bytes in the block.
    pub fn real_size() -> (r: usize)
        ensures
            r == recommended(vstd::layout::size_of::<T>() as int),
    {
        recommended_size(core::mem::size_of::<T>())
    }

    /// The value that lies at `ptr`.
    pub fn from_ptr(ptr: usize, value: T) -> (r: SelfAllocatedBox<T>)
        ensures
            r.ptr == ptr,
            r.value == value,
    {
        SelfAllocatedBox { ptr, value }
    }

    fn new_<A: AllocatorForSelfAllocations>(
        value: T,
        with_counting_limit: bool,
        allocator: &mut A,
        maybe_state: &mut Option<A::State>,
    ) -> (r: Result<Result<SelfAllocatedBox<T>, T>, PanicCause>)
        requires
            vstd::layout::size_of::<T>() > 0,
            old(allocator).is_ready(*old(maybe_state)),
        ensures
            boxed(
                *old(allocator),
                *old(maybe_state),
                *final(allocator),
                *final(maybe_state),
                value,
                with_counting_limit,
                r,
            ),
    {
        let size: usize = Self::real_size();
        proof {
            law_recommended_is_idempotent(vstd::layout::size_of::<T>() as int);
        }
        let ptr = if with_counting_limit {
            allocator.self_alloc(size, maybe_state)
        } else {
            allocator.self_alloc_without_counting_limit(size, maybe_state)
        };
        match ptr {
            Ok(Some(ptr)) => Ok(Ok(SelfAllocatedBox { ptr, value })),
            Ok(None) => Ok(Err(value)),
            Err(cause) => Err(cause),
        }
    }

    /// Boxes a value if the limit has room for it. The value has at least one byte.
    pub fn new<A: AllocatorForSelfAllocations>(
        value: T,
        allocator: &mut A,
        maybe_state: &mut Option<A::State>,
    ) -> (r: Result<Result<SelfAllocatedBox<T>, T>, PanicCause>)
        requires
            vstd::layout::size_of::<T>() > 0,
            old(allocator).is_ready(*old(maybe_state)),
        ensures
            boxed(
                *old(allocator),
                *old(maybe_state),
                *final(allocator),
                *final(maybe_state),
                value,
                true,
                r,
            ),
    {
        Self::new_(value, true, allocator, maybe_state)
    }

    /// Boxes a value whether the limit has room for it or not.
    pub fn new_without_counting_limit<A: AllocatorForSelfAllocations>(
        value: T,
        allocator: &mut A,
        maybe_state: &mut Option<A::State>,
    ) -> (r: Result<Result<SelfAllocatedBox<T>, T>, PanicCause>)
        requires
            vstd::layout::size_of::<T>() > 0,
            old(allocator).is_ready(*old(maybe_state)),
        ensures
            boxed(
                *old(allocator),
                *old(maybe_state),
                *final(allocator),
                *final(maybe_state),
                value,
                false,
                r,
            ),
    {
        Self::new_(value, false, allocator, maybe_state)
    }

    /// The value.
    pub fn as_ref(&self) -> (r: &T)
        ensures
            *r == self.value,
    {
        &self.value
    }

    /// The value, to be changed in place.
    pub fn as_mut(&mut self) -> (r: &mut T)
        ensures
            *r == old(self).value,
            final(self).value == *final(r),
            final(self).ptr == old(self).ptr,
    {
        &mut self.value
    }

    /// The block, with the value in it.
    pub fn into_raw(self) -> (r: (usize, T))
        ensures
            r == (self.ptr, self.value),
    {
        (self.ptr, self.value)
    }

    /// Drops the value and gives the block back.
    pub fn dealloc<A: AllocatorForSelfAllocations>(
        self,
        allocator: &mut A,
        maybe_state: &mut Option<A::State>,
    ) -> (r: Result<(), PanicCause>)
        requires
            self.wf(),
            vstd::layout::size_of::<T>() > 0,
            old(allocator).is_ready(*old(maybe_state)),
        ensures
            A::deallocated(
                *old(allocator),
                *old(maybe_state),
                *final(allocator),
                *final(maybe_state),
                self.ptr as int,
                vstd::layout::size_of::<T>() as int,
                r,
            ),
            r is Ok ==> final(allocator).is_ready(*final(maybe_state)),
    {
        proof {
            law_recommended_is_idempotent(vstd::layout::size_of::<T>() as int);
        }
        allocator.self_dealloc(self.ptr, core::mem::size_of::<T>(), maybe_state)
    }
}

/// A box, or none.
pub struct OptionSelfAllocatedBox<T> {
    pub inner: Option<SelfAllocatedBox<T>>,
}

impl<T> OptionSelfAllocatedBox<T> {
    /// The value, if there is one.
    pub open spec fn view(self) -> Option<T> {
        match self.inner {
            Some(b) => Some(b.value),
            None => None,
        }
    }

    /// A box.
    pub fn some(value: SelfAllocatedBox<T>) -> (r: OptionSelfAllocatedBox<T>)
        ensures
            r.inner == Some(value),
    {
        OptionSelfAllocatedBox { inner: Some(value) }
    }

    /// No box.
    pub fn none() -> (r: OptionSelfAllocatedBox<T>)
        ensures
            r.inner is None,
    {
        OptionSelfAllocatedBox { inner: None }
    }

    /// Boxes a value. `Err(value)` hands the value back where memory was refused.
    pub fn new<A: AllocatorForSelfAllocations>(
        value: T,
        allocator: &mut A,
        maybe_state: &mut Option<A::State>,
    ) -> (r: Result<Result<OptionSelfAllocatedBox<T>, T>, PanicCause>)
        requires
            vstd::layout::size_of::<T>() > 0,
            old(allocator).is_ready(*old(maybe_state)),
        ensures
            match r {
                Ok(Ok(b)) => b.inner is Some && boxed(
                    *old(allocator),
                    *old(maybe_state),
                    *final(allocator),
                    *final(maybe_state),
                    value,
                    true,
                    Ok::<Result<SelfAllocatedBox<T>, T>, PanicCause>(Ok(b.inner->0)),
                ),
                Ok(Err(back)) => boxed(
                    *old(allocator),
                    *old(maybe_state),
                    *final(allocator),
                    *final(maybe_state),
                    value,
                    true,
                    Ok::<Result<SelfAllocatedBox<T>, T>, PanicCause>(Err(back)),
                ),
                Err(cause) => boxed(
                    *old(allocator),
                    *old(maybe_state),
                    *final(allocator),
                    *final(maybe_state),
                    value,
                    true,
                    Err::<Result<SelfAllocatedBox<T>, T>, PanicCause>(cause),
                ),
            },
    {
        match SelfAllocatedBox::new(value, allocator, maybe_state) {
            Ok(Ok(b)) => Ok(Ok(OptionSelfAllocatedBox { inner: Some(b) })),
            Ok(Err(back)) => Ok(Err(back)),
            Err(cause) => Err(cause),
        }
    }

    /// The box at `ptr`.
    pub fn from_ptr(ptr: usize, value: T) -> (r: OptionSelfAllocatedBox<T>)
        ensures
            r.inner == Some(SelfAllocatedBox { ptr, value }),
    {
        OptionSelfAllocatedBox { inner: Some(SelfAllocatedBox::from_ptr(ptr, value)) }
    }

    /// Where the value lies.
    pub fn as_ptr(&self) -> (r: Option<usize>)
        ensures
            r == (match self.inner {
                Some(b) => Some(b.ptr),
                None => None,
            }),
    {
        match &self.inner {
            Some(b) => Some(b.ptr),
            None => None,
        }
    }

    /// Whether there is no box.
    pub fn is_null(&self) -> (r: bool)
        ensures
            r == (self.inner is None),
    {
        self.inner.is_none()
    }

    /// The value.
    pub fn as_ref(&self) -> (r: Option<&T>)
        ensures
            r == (match self@ {
                Some(value) => Some(&value),
                None => None,
            }),
    {
        match &self.inner {
            Some(b) => Some(b.as_ref()),
            None => None,
        }
    }

    /// The value, to be changed in place.
    pub fn as_mut(&mut self) -> (r: Option<&mut T>)
        ensures
            r is Some <==> old(self).inner is Some,
            match r {
                Some(value) => {
                    &&& *value == old(self).inner->0.value
                    &&& final(self).inner == Some(
                        SelfAllocatedBox { ptr: old(self).inner->0.ptr, value: *final(value) },
                    )
                },
                None => *final(self) == *old(self),
            },
    {
        match &mut self.inner {
            Some(b) => Some(&mut b.value),
            None => None,
        }
    }

    /// Takes the box out.
    pub fn take(&mut self) -> (r: Option<SelfAllocatedBox<T>>)
        ensures
            r == old(self).inner,
            final(self).inner is None,
    {
        self.inner.take()
    }

    /// Forgets the box without giving it back.
    pub fn force_set_null(&mut self)
        ensures
            final(self).inner is None,
    {
        self.inner = None;
    }

    /// Drops the value and gives the block back, if there is one.
    pub fn dealloc_if_needed<A: AllocatorForSelfAllocations>(
        &mut self,
        allocator: &mut A,
        maybe_state: &mut Option<A::State>,
    ) -> (r: Result<(), PanicCause>)
        requires
            old(self).inner matches Some(b) ==> b.wf(),
            vstd::layout::size_of::<T>() > 0,
            old(allocator).is_ready(*old(maybe_state)),
        ensures
            final(self).inner is None,
            old(self).inner is None ==> r is Ok && *final(allocator) == *old(allocator) && *final(maybe_state) == *old(maybe_state),
            old(self).inner matches Some(b) ==> A::deallocated(
                *old(allocator),
                *old(maybe_state),
                *final(allocator),
                *final(maybe_state),
                b.ptr as int,
                vstd::layout::size_of::<T>() as int,
                r,
            ),
            r is Ok ==> final(allocator).is_ready(*final(maybe_state)),
    {
        match self.inner.take() {
            Some(b) => b.dealloc(allocator, maybe_state),
            None => Ok(()),
        }
    }
}

} // verus!
