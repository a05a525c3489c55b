//! Vectors whose buffers come from the allocator that they serve.
use crate::allocator_for_self_allocations::AllocatorForSelfAllocations;
use crate::failures::PanicCause;
use crate::inner::elem_size;
use crate::powers::{law_next_pow2_is_least, lemma_next_pow2, next_pow2, next_power_of_two};
use crate::sizes::{
    class_of, class_size, law_large_power_of_two_is_exact, law_recommended_is_idempotent,
    law_recommended_is_monotonic, lemma_class_of, recommended, recommended_size, COMMON_SIZE_MAX,
    LARGE_SIZE_MAX,
};
use vstd::arithmetic::power2::is_pow2;
use vstd::prelude::*;

verus! {

/// A vector whose buffer is an object of an allocator. The address of the buffer and its capacity
/// are kept beside the elements.
#[derive(Clone, Debug)]
pub struct SelfAllocatedVec<T> {
    pub ptr: usize,
    pub data: Vec<T>,
    pub cap: u32,
}

/// Bytes in the buffer that a vector takes when it needs room for `min_cap` elements of
/// `elem_size` bytes: a power of two, rounded to an object size.
pub open spec fn growth_bytes(min_cap: int, elem_size: int) -> int {
    recommended(next_pow2(min_cap * elem_size))
}

/// The capacity that a vector then has.
pub open spec fn growth_cap(min_cap: int, elem_size: int) -> int {
    growth_bytes(min_cap, elem_size) / elem_size
}

/// Whether a vector can grow that much.
pub open spec fn can_grow(min_cap: int, elem_size: int) -> bool {
    &&& growth_bytes(min_cap, elem_size) <= usize::MAX
    &&& growth_cap(min_cap, elem_size) <= u32::MAX
}

/// A buffer that was planned for `min_cap` elements has room for them.
pub proof fn lemma_growth(min_cap: int, elem_size: int)
    requires
        1 <= min_cap,
        1 <= elem_size,
    ensures
        min_cap * elem_size <= next_pow2(min_cap * elem_size) <= growth_bytes(min_cap, elem_size),
        min_cap <= growth_cap(min_cap, elem_size),
        growth_cap(min_cap, elem_size) * elem_size <= growth_bytes(min_cap, elem_size),
{
    assert(1 <= min_cap * elem_size) by (nonlinear_arith)
        requires
            1 <= min_cap,
            1 <= elem_size,
    ;
    lemma_next_pow2(min_cap * elem_size);
    crate::sizes::law_recommended_is_idempotent(next_pow2(min_cap * elem_size));
    let bytes = growth_bytes(min_cap, elem_size);
    assert(min_cap <= bytes / elem_size) by (nonlinear_arith)
        requires
            min_cap * elem_size <= bytes,
            1 <= elem_size,
            1 <= min_cap,
    ;
    assert((bytes / elem_size) * elem_size <= bytes) by (nonlinear_arith)
        requires
            1 <= elem_size,
            0 <= bytes,
    ;
}

/// A buffer for elements of eight or sixteen bytes is an object without a rest: its size is a
/// power of two.
pub proof fn lemma_growth_is_exact(min_cap: int, elem_size: int)
    requires
        1 <= min_cap,
        elem_size == 8 || elem_size == 16,
    ensures
        elem_size * growth_cap(min_cap, elem_size) == growth_bytes(min_cap, elem_size),
        growth_bytes(min_cap, elem_size) > LARGE_SIZE_MAX || (1 <= growth_bytes(
            min_cap,
            elem_size,
        ) && class_size(class_of(growth_bytes(min_cap, elem_size))) == growth_bytes(
            min_cap,
            elem_size,
        )),
{
    lemma_growth(min_cap, elem_size);
    let power = next_pow2(min_cap * elem_size);
    assert(8 <= min_cap * elem_size) by (nonlinear_arith)
        requires
            1 <= min_cap,
            8 <= elem_size,
    ;
    assert(elem_size <= min_cap * elem_size) by (nonlinear_arith)
        requires
            1 <= min_cap,
            8 <= elem_size,
    ;
    lemma_next_pow2(min_cap * elem_size);
    assert(power % elem_size == 0) by {
        reveal_with_fuel(is_pow2, 6);
    }
    if power <= LARGE_SIZE_MAX {
        lemma_class_of(power);
        if power > COMMON_SIZE_MAX {
            law_large_power_of_two_is_exact(power);
        }
    }
    assert(growth_bytes(min_cap, elem_size) == power);
}

/// A buffer for so many addresses or regions can always be planned.
pub proof fn lemma_growth_fits(min_cap: int, elem_size: int)
    requires
        1 <= min_cap <= 0x400_0000,
        elem_size == 8 || elem_size == 16,
    ensures
        can_grow(min_cap, elem_size),
        growth_bytes(min_cap, elem_size) <= 0x4000_0000,
{
    let size = min_cap * elem_size;
    assert(1 <= size <= 0x4000_0000) by (nonlinear_arith)
        requires
            size == min_cap * elem_size,
            1 <= min_cap <= 0x400_0000,
            elem_size == 8 || elem_size == 16,
    ;
    assert(is_pow2(0x4000_0000)) by {
        reveal_with_fuel(is_pow2, 32);
    }
    law_next_pow2_is_least(size, 0x4000_0000);
    law_recommended_is_monotonic(next_pow2(size), 0x4000_0000);
    lemma_growth(min_cap, elem_size);
}

/// The bytes and the capacity of the buffer that a vector takes when it needs room for `min_cap`
/// elements; nothing where they do not fit in a machine word.
pub fn plan_growth(min_cap: u32, elem_size: usize) -> (r: Option<(usize, u32)>)
    requires
        1 <= min_cap,
        1 <= elem_size,
    ensures
        r is Some <==> can_grow(min_cap as int, elem_size as int),
        r matches Some((bytes, cap)) ==> {
            &&& bytes == growth_bytes(min_cap as int, elem_size as int)
            &&& cap == growth_cap(min_cap as int, elem_size as int)
            &&& min_cap <= cap
        },
{
    proof {
        lemma_growth(min_cap as int, elem_size as int);
    }
    let size: usize = match (min_cap as usize).checked_mul(elem_size) {
        Some(size) => size,
        None => {
            return None;
        },
    };
    let power: usize = match next_power_of_two(size) {
        Some(power) => power,
        None => {
            return None;
        },
    };
    let bytes: usize = recommended_size(power);
    let cap: usize = bytes / elem_size;
    if cap > u32::MAX as usize {
        return None;
    }
    Some((bytes, cap as u32))
}

impl<T> SelfAllocatedVec<T> {
    /// Whether the vector is sound: its elements fit in its buffer.
    pub open spec fn wf(self) -> bool {
        &&& self.data@.len() <= self.cap
        &&& self.cap == 0 <==> self.ptr == 0
    }

    /// The elements.
    pub open spec fn view(self) -> Seq<T> {
        self.data@
    }

    /// A vector without a buffer.
    pub fn new() -> (r: SelfAllocatedVec<T>)
        ensures
            r.wf(),
            r@ == Seq::<T>::empty(),
            r.cap == 0,
            r.ptr == 0,
    {
        SelfAllocatedVec { ptr: 0, data: Vec::new(), cap: 0 }
    }

    /// The number of elements.
    pub fn len(&self) -> (r: usize)
        ensures
            r == self@.len(),
    {
        self.data.len()
    }

    /// Whether there are no elements.
    pub fn is_empty(&self) -> (r: bool)
        ensures
            r == (self@.len() == 0),
    {
        self.data.len() == 0
    }

    /// The number of elements that the buffer has room for.
    pub fn capacity(&self) -> (r: usize)
        ensures
            r == self.cap,
    {
        self.cap as usize
    }

    /// The number of elements that the buffer still has room for.
    pub fn vacant(&self) -> (r: usize)
        requires
            self.wf(),
        ensures
            r == self.cap - self@.len(),
    {
        self.cap as usize - self.data.len()
    }

    /// Whether the vector has no buffer.
    pub fn is_null(&self) -> (r: bool)
        ensures
            r == (self.ptr == 0),
    {
        self.ptr == 0
    }

    /// Appends an element where the buffer has room; hands it back otherwise.
    pub fn try_push(&mut self, elem: T) -> (r: Result<(), T>)
        requires
            old(self).wf(),
        ensures
            final(self).wf(),
            final(self).cap == old(self).cap,
            final(self).ptr == old(self).ptr,
            r is Ok <==> old(self)@.len() < old(self).cap,
            r is Ok ==> final(self)@ == old(self)@.push(elem),
            r matches Err(e) ==> e == elem && *final(self) == *old(self),
    {
        if self.vacant() == 0 {
            return Err(elem);
        }
        self.data.push(elem);
        Ok(())
    }

    /// Takes the last element.
    pub fn pop(&mut self) -> (r: Option<T>)
        requires
            old(self).wf(),
        ensures
            final(self).wf(),
            final(self).cap == old(self).cap,
            final(self).ptr == old(self).ptr,
            r is Some <==> old(self)@.len() > 0,
            r is None ==> *final(self) == *old(self),
            r matches Some(elem) ==> elem == old(self)@.last() && final(self)@ == old(self)@.drop_last(),
    {
        if self.data.len() == 0 {
            return None;
        }
        self.data.pop()
    }

    /// Takes the element at `index`; the last one fills its place.
    pub fn swap_remove(&mut self, index: usize) -> (r: T)
        requires
            old(self).wf(),
            index < old(self)@.len(),
        ensures
            final(self).wf(),
            final(self).cap == old(self).cap,
            final(self).ptr == old(self).ptr,
            r == old(self)@[index as int],
            final(self)@ == old(self)@.update(index as int, old(self)@.last()).drop_last(),
    {
        self.data.swap_remove(index)
    }

    /// Forgets the buffer and the elements.
    pub fn force_become_null(&mut self)
        ensures
            final(self).wf(),
            final(self)@ == Seq::<T>::empty(),
            final(self).cap == 0,
            final(self).ptr == 0,
    {
        self.ptr = 0;
        self.data = Vec::new();
        self.cap = 0;
    }

    /// Moves the elements to another buffer.
    pub fn adopt(&mut self, ptr: usize, cap: u32)
        requires
            old(self)@.len() <= cap,
            ptr != 0,
            cap != 0,
        ensures
            final(self).wf(),
            final(self)@ == old(self)@,
            final(self).ptr == ptr,
            final(self).cap == cap,
    {
        self.ptr = ptr;
        self.cap = cap;
    }
}

/// Bytes that the elements of a vector have room in.
pub open spec fn bytes_of<T>(cap: int) -> int {
    cap * vstd::layout::size_of::<T>()
}

/// Whether the buffer of a vector ends within the memory.
pub open spec fn buffer_fits<T>(v: SelfAllocatedVec<T>) -> bool {
    v.cap > 0 ==> 0 < bytes_of::<T>(v.cap as int) && v.ptr + recommended(
        bytes_of::<T>(v.cap as int),
    ) <= usize::MAX
}

/// A buffer that was planned for `min_cap` elements holds what its capacity is rounded to.
proof fn lemma_buffer_fits<T>(ptr: int, min_cap: int)
    requires
        1 <= min_cap,
        vstd::layout::size_of::<T>() > 0,
        ptr + growth_bytes(min_cap, vstd::layout::size_of::<T>() as int) <= usize::MAX,
    ensures
        0 < bytes_of::<T>(growth_cap(min_cap, vstd::layout::size_of::<T>() as int)),
        ptr + recommended(bytes_of::<T>(growth_cap(min_cap, vstd::layout::size_of::<T>() as int)))
            <= usize::MAX,
{
    let size = vstd::layout::size_of::<T>() as int;
    lemma_growth(min_cap, size);
    let cap = growth_cap(min_cap, size);
    assert(0 < cap * size) by (nonlinear_arith)
        requires
            1 <= min_cap <= cap,
            0 < size,
    ;
    law_recommended_is_monotonic(cap * size, growth_bytes(min_cap, size));
    law_recommended_is_idempotent(next_pow2(min_cap * size));
}

/// What a vector that has another buffer has taken and given back.
pub open spec fn regrown<T, A: AllocatorForSelfAllocations>(
    v0: SelfAllocatedVec<T>,
    v1: SelfAllocatedVec<T>,
    a0: A,
    s0: Option<A::State>,
    a1: A,
    s1: Option<A::State>,
    min_cap: int,
    counting: bool,
) -> bool {
    let size = vstd::layout::size_of::<T>() as int;
    &&& v1.wf()
    &&& v1@ == v0@
    &&& v1.cap == growth_cap(min_cap, size)
    &&& exists|a: A, s: Option<A::State>|
        {
            &&& #[trigger] A::allocated(
                a0,
                s0,
                a,
                s,
                growth_bytes(min_cap, size),
                counting,
                Ok::<Option<usize>, PanicCause>(Some(v1.ptr)),
            )
            &&& if v0.cap == 0 {
                a1 == a && s1 == s
            } else {
                A::deallocated(
                    a,
                    s,
                    a1,
                    s1,
                    v0.ptr as int,
                    bytes_of::<T>(v0.cap as int),
                    Ok::<(), PanicCause>(()),
                )
            }
        }
}

/// How the allocator broke while a vector was taking another buffer.
pub open spec fn broke_growing<T, A: AllocatorForSelfAllocations>(
    v0: SelfAllocatedVec<T>,
    a0: A,
    s0: Option<A::State>,
    a1: A,
    s1: Option<A::State>,
    min_cap: int,
    counting: bool,
    cause: PanicCause,
) -> bool {
    let bytes = growth_bytes(min_cap, vstd::layout::size_of::<T>() as int);
    ||| A::allocated(a0, s0, a1, s1, bytes, counting, Err::<Option<usize>, PanicCause>(cause))
    ||| exists|a: A, s: Option<A::State>, ptr: usize| #[trigger]
        A::allocated(a0, s0, a, s, bytes, counting, Ok::<Option<usize>, PanicCause>(Some(ptr))) && v0.cap > 0
            && A::deallocated(
            a,
            s,
            a1,
            s1,
            v0.ptr as int,
            bytes_of::<T>(v0.cap as int),
            Err::<(), PanicCause>(cause),
        )
}

/// What a request for room for `additional` elements does to a vector and its allocator. `Err(())`
/// tells that memory was refused.
pub open spec fn room_made<T, A: AllocatorForSelfAllocations>(
    v0: SelfAllocatedVec<T>,
    v1: SelfAllocatedVec<T>,
    a0: A,
    s0: Option<A::State>,
    a1: A,
    s1: Option<A::State>,
    additional: int,
    counting: bool,
    r: Result<Result<bool, ()>, PanicCause>,
) -> bool {
    let min_cap: int = v0@.len() + additional;
    let size = vstd::layout::size_of::<T>() as int;
    &&& min_cap <= v0.cap <==> r is Ok && r->Ok_0 is Ok && !r->Ok_0->Ok_0
    &&& match r {
        Ok(Ok(false)) => v1 == v0 && a1 == a0 && s1 == s0,
        Ok(Ok(true)) => {
            &&& can_grow(min_cap, size)
            &&& buffer_fits(v1)
            &&& min_cap <= v1.cap
            &&& regrown(v0, v1, a0, s0, a1, s1, min_cap, counting)
            &&& a1.is_ready(s1)
            &&& v1.ptr + growth_bytes(min_cap, size) <= usize::MAX
        },
        Ok(Err(())) => {
            &&& v1 == v0
            &&& A::allocated(
                a0,
                s0,
                a1,
                s1,
                growth_bytes(min_cap, size),
                counting,
                Ok::<Option<usize>, PanicCause>(None),
            )
        },
        Err(cause) => if min_cap > u32::MAX || !can_grow(min_cap, size) {
            cause is CapacityOverflow && v1 == v0 && a1 == a0 && s1 == s0
        } else {
            broke_growing(v0, a0, s0, a1, s1, min_cap, counting, cause)
        },
    }
}

impl<T> SelfAllocatedVec<T> {
    /// Bytes in the buffer.
    pub fn bytes_allocated(&self) -> (r: usize)
        requires
            bytes_of::<T>(self.cap as int) <= usize::MAX,
        ensures
            r == recommended(bytes_of::<T>(self.cap as int)),
    {
        let size: usize = self.cap as usize * core::mem::size_of::<T>();
        recommended_size(size)
    }

    /// The element at `index`.
    pub fn get_mut(&mut self, index: usize) -> (r: Option<&mut T>)
        ensures
            r is Some <==> index < old(self)@.len(),
            match r {
                Some(elem) => {
                    &&& *elem == old(self)@[index as int]
                    &&& final(self)@ == old(self)@.update(index as int, *final(elem))
                    &&& final(self).cap == old(self).cap
                    &&& final(self).ptr == old(self).ptr
                },
                None => *final(self) == *old(self),
            },
    {
        if index < self.data.len() {
            Some(&mut self.data[index])
        } else {
            None
        }
    }

    /// The elements.
    pub fn iter(&self) -> (r: &Vec<T>)
        ensures
            r@ == self@,
    {
        &self.data
    }

    /// Takes another buffer that has room for `min_cap` elements.
    fn reserve_<A: AllocatorForSelfAllocations>(
        &mut self,
        additional_capacity: u32,
        with_counting_limit: bool,
        allocator: &mut A,
        maybe_state: &mut Option<A::State>,
    ) -> (r: Result<Result<bool, ()>, PanicCause>)
        requires
            old(self).wf(),
            vstd::layout::size_of::<T>() > 0,
            buffer_fits(*old(self)),
            old(allocator).is_ready(*old(maybe_state)),
        ensures
            room_made(
                *old(self),
                *final(self),
                *old(allocator),
                *old(maybe_state),
                *final(allocator),
                *final(maybe_state),
                additional_capacity as int,
                with_counting_limit,
                r,
            ),
    {
        let len: usize = self.data.len();
        if self.cap as usize - len >= additional_capacity as usize {
            return Ok(Ok(false));
        }
        if len > (u32::MAX - additional_capacity) as usize {
            return Err(PanicCause::CapacityOverflow);
        }
        let min_cap: u32 = len as u32 + additional_capacity;
        let width: usize = core::mem::size_of::<T>();
        let (bytes, new_cap): (usize, u32) = match plan_growth(min_cap, width) {
            Some(plan) => plan,
            None => {
                return Err(PanicCause::CapacityOverflow);
            },
        };
        proof {
            lemma_growth(min_cap as int, width as int);
            law_recommended_is_idempotent(next_pow2(min_cap * width));
            assert(1 <= min_cap * width) by (nonlinear_arith)
                requires
                    1 <= min_cap,
                    1 <= width,
            ;
        }
        let new_ptr = if with_counting_limit {
            allocator.self_alloc(bytes, maybe_state)
        } else {
            allocator.self_alloc_without_counting_limit(bytes, maybe_state)
        };
        let ptr: usize = match new_ptr {
            Ok(Some(ptr)) => ptr,
            Ok(None) => {
                return Ok(Err(()));
            },
            Err(cause) => {
                return Err(cause);
            },
        };
        proof {
            lemma_buffer_fits::<T>(ptr as int, min_cap as int);
        }
        let ghost middle = (*allocator, *maybe_state);
        let old_ptr: usize = self.ptr;
        let old_cap: u32 = self.cap;
        self.adopt(ptr, new_cap);
        if old_cap != 0 {
            let old_bytes: usize = old_cap as usize * width;
            let given = allocator.self_dealloc(old_ptr, old_bytes, maybe_state);
            match given {
                Ok(()) => {
                    assert(given->Ok_0 == ());
                    assert(given == Ok::<(), PanicCause>(()));
                },
                Err(cause) => {
                    assert(A::allocated(
                        *old(allocator),
                        *old(maybe_state),
                        middle.0,
                        middle.1,
                        growth_bytes(min_cap as int, width as int),
                with_counting_limit,
                        Ok::<Option<usize>, PanicCause>(Some(ptr)),
                    ));
                    return Err(cause);
                },
            }
        }
        proof {
            assert(A::allocated(
                *old(allocator),
                *old(maybe_state),
                middle.0,
                middle.1,
                growth_bytes(min_cap as int, width as int),
                with_counting_limit,
                Ok::<Option<usize>, PanicCause>(Some(self.ptr)),
            ));
        }
        Ok(Ok(true))
    }

    /// Makes room for more elements. Tells whether another buffer was taken for it.
    pub fn reserve<A: AllocatorForSelfAllocations>(
        &mut self,
        additional_capacity: u32,
        allocator: &mut A,
        maybe_state: &mut Option<A::State>,
    ) -> (r: Result<Result<bool, ()>, PanicCause>)
        requires
            old(self).wf(),
            vstd::layout::size_of::<T>() > 0,
            buffer_fits(*old(self)),
            old(allocator).is_ready(*old(maybe_state)),
        ensures
            room_made(
                *old(self),
                *final(self),
                *old(allocator),
                *old(maybe_state),
                *final(allocator),
                *final(maybe_state),
                additional_capacity as int,
                true,
                r,
            ),
    {
        self.reserve_(additional_capacity, true, allocator, maybe_state)
    }

    /// Makes room for more elements whether the limit has room for it or not.
    pub fn reserve_without_counting_limit<A: AllocatorForSelfAllocations>(
        &mut self,
        additional_capacity: u32,
        allocator: &mut A,
        maybe_state: &mut Option<A::State>,
    ) -> (r: Result<Result<bool, ()>, PanicCause>)
        requires
            old(self).wf(),
            vstd::layout::size_of::<T>() > 0,
            buffer_fits(*old(self)),
            old(allocator).is_ready(*old(maybe_state)),
        ensures
            room_made(
                *old(self),
                *final(self),
                *old(allocator),
                *old(maybe_state),
                *final(allocator),
                *final(maybe_state),
                additional_capacity as int,
                false,
                r,
            ),
    {
        self.reserve_(additional_capacity, false, allocator, maybe_state)
    }

    fn push_<A: AllocatorForSelfAllocations>(
        &mut self,
        elem: T,
        with_counting_limit: bool,
        allocator: &mut A,
        maybe_state: &mut Option<A::State>,
    ) -> (r: Result<Result<(), ()>, PanicCause>)
        requires
            old(self).wf(),
            vstd::layout::size_of::<T>() > 0,
            buffer_fits(*old(self)),
            old(allocator).is_ready(*old(maybe_state)),
        ensures
            extended(
                *old(self),
                *final(self),
                *old(allocator),
                *old(maybe_state),
                *final(allocator),
                *final(maybe_state),
                seq![elem],
                with_counting_limit,
                r,
            ),
    {
        let ghost before = *self;
        let made = self.reserve_(1, with_counting_limit, allocator, maybe_state);
        match made {
            Ok(Ok(_)) => {},
            Ok(Err(())) => {
                return Ok(Err(()));
            },
            Err(cause) => {
                return Err(cause);
            },
        }
        self.data.push(elem);
        proof {
            assert(self@ =~= before@ + seq![elem]);
            assert(self.data@ =~= self@);
        }
        Ok(Ok(()))
    }

    /// Appends an element. It is an error that memory was refused.
    pub fn push<A: AllocatorForSelfAllocations>(
        &mut self,
        elem: T,
        allocator: &mut A,
        maybe_state: &mut Option<A::State>,
    ) -> (r: Result<Result<(), ()>, PanicCause>)
        requires
            old(self).wf(),
            vstd::layout::size_of::<T>() > 0,
            buffer_fits(*old(self)),
            old(allocator).is_ready(*old(maybe_state)),
        ensures
            extended(
                *old(self),
                *final(self),
                *old(allocator),
                *old(maybe_state),
                *final(allocator),
                *final(maybe_state),
                seq![elem],
                true,
                r,
            ),
    {
        self.push_(elem, true, allocator, maybe_state)
    }

    /// Appends an element whether the limit has room for it or not.
    pub fn push_without_counting_limit<A: AllocatorForSelfAllocations>(
        &mut self,
        elem: T,
        allocator: &mut A,
        maybe_state: &mut Option<A::State>,
    ) -> (r: Result<Result<(), ()>, PanicCause>)
        requires
            old(self).wf(),
            vstd::layout::size_of::<T>() > 0,
            buffer_fits(*old(self)),
            old(allocator).is_ready(*old(maybe_state)),
        ensures
            extended(
                *old(self),
                *final(self),
                *old(allocator),
                *old(maybe_state),
                *final(allocator),
                *final(maybe_state),
                seq![elem],
                false,
                r,
            ),
    {
        self.push_(elem, false, allocator, maybe_state)
    }

    /// Gives the buffer back and hands the elements out, in their order.
    pub fn clear_with<A: AllocatorForSelfAllocations>(
        &mut self,
        allocator: &mut A,
        maybe_state: &mut Option<A::State>,
    ) -> (r: (Vec<T>, Result<(), PanicCause>))
        requires
            old(self).wf(),
            buffer_fits(*old(self)),
            old(allocator).is_ready(*old(maybe_state)),
        ensures
            r.0@ == old(self)@,
            final(self).wf(),
            final(self)@.len() == 0,
            final(self).cap == 0,
            old(self).cap == 0 ==> r.1 is Ok && *final(allocator) == *old(allocator) && *final(maybe_state) == *old(maybe_state),
            old(self).cap > 0 ==> A::deallocated(
                *old(allocator),
                *old(maybe_state),
                *final(allocator),
                *final(maybe_state),
                old(self).ptr as int,
                bytes_of::<T>(old(self).cap as int),
                r.1,
            ),
    {
        let mut elems: Vec<T> = Vec::new();
        core::mem::swap(&mut elems, &mut self.data);
        let given = self.clear(allocator, maybe_state);
        (elems, given)
    }

    /// Gives the buffer back; the elements are dropped.
    pub fn clear<A: AllocatorForSelfAllocations>(
        &mut self,
        allocator: &mut A,
        maybe_state: &mut Option<A::State>,
    ) -> (r: Result<(), PanicCause>)
        requires
            old(self).wf(),
            buffer_fits(*old(self)),
            old(allocator).is_ready(*old(maybe_state)),
        ensures
            final(self).wf(),
            final(self)@.len() == 0,
            final(self).cap == 0,
            old(self).cap == 0 ==> r is Ok && *final(allocator) == *old(allocator) && *final(maybe_state) == *old(maybe_state),
            old(self).cap > 0 ==> A::deallocated(
                *old(allocator),
                *old(maybe_state),
                *final(allocator),
                *final(maybe_state),
                old(self).ptr as int,
                bytes_of::<T>(old(self).cap as int),
                r,
            ),
    {
        let old_ptr: usize = self.ptr;
        let old_cap: u32 = self.cap;
        self.force_become_null();
        if old_cap == 0 {
            return Ok(());
        }
        let old_bytes: usize = old_cap as usize * core::mem::size_of::<T>();
        allocator.self_dealloc(old_ptr, old_bytes, maybe_state)
    }
}

/// What appending elements does to a vector and its allocator.
pub open spec fn extended<T, A: AllocatorForSelfAllocations>(
    v0: SelfAllocatedVec<T>,
    v1: SelfAllocatedVec<T>,
    a0: A,
    s0: Option<A::State>,
    a1: A,
    s1: Option<A::State>,
    elems: Seq<T>,
    counting: bool,
    r: Result<Result<(), ()>, PanicCause>,
) -> bool {
    let min_cap: int = v0@.len() as int + elems.len();
    let size = vstd::layout::size_of::<T>() as int;
    match r {
        Ok(Ok(())) => {
            &&& v1.wf()
            &&& v1@ == v0@ + elems
            &&& buffer_fits(v1)
            &&& a1.is_ready(s1)
            &&& min_cap <= v0.cap ==> v1.cap == v0.cap && v1.ptr == v0.ptr && a1 == a0 && s1 == s0
            &&& min_cap > v0.cap ==> exists|v: SelfAllocatedVec<T>| #[trigger]
                regrown(v0, v, a0, s0, a1, s1, min_cap, counting) && v1.cap == v.cap && v1.ptr == v.ptr
            &&& min_cap > v0.cap ==> v1.ptr + growth_bytes(min_cap, size) <= usize::MAX
        },
        Ok(Err(())) => {
            &&& min_cap > v0.cap
            &&& v1 == v0
            &&& A::allocated(
                a0,
                s0,
                a1,
                s1,
                growth_bytes(min_cap, size),
                counting,
                Ok::<Option<usize>, PanicCause>(None),
            )
        },
        Err(cause) => {
            &&& min_cap > v0.cap
            &&& if min_cap > u32::MAX || !can_grow(min_cap, size) {
                cause is CapacityOverflow && v1 == v0 && a1 == a0 && s1 == s0
            } else {
                broke_growing(v0, a0, s0, a1, s1, min_cap, counting, cause)
            }
        },
    }
}

impl<T: Copy> SelfAllocatedVec<T> {
    /// Appends elements where the buffer has room for all of them.
    pub fn try_extend_from_slice(&mut self, slice: &[T]) -> (r: Result<(), ()>)
        requires
            old(self).wf(),
        ensures
            final(self).wf(),
            final(self).cap == old(self).cap,
            final(self).ptr == old(self).ptr,
            r is Ok <==> old(self)@.len() + slice@.len() <= old(self).cap,
            r is Ok ==> final(self)@ == old(self)@ + slice@,
            r is Err ==> *final(self) == *old(self),
    {
        if slice.len() > self.vacant() {
            return Err(());
        }
        let ghost before = *self;
        let n: usize = slice.len();
        let mut i: usize = 0;
        assert(before@ + slice@.take(0) =~= before@);
        while i < n
            invariant
                i <= n,
                n == slice@.len(),
                before@.len() + n <= before.cap,
                before.wf(),
                self.wf(),
                self.cap == before.cap,
                self.ptr == before.ptr,
                self@ == before@ + slice@.take(i as int),
            decreases n - i,
        {
            self.data.push(slice[i]);
            i = i + 1;
            assert(self@ =~= before@ + slice@.take(i as int));
        }
        assert(slice@.take(n as int) =~= slice@);
        Ok(())
    }

    /// Appends elements.
    pub fn extend_from_slice<A: AllocatorForSelfAllocations>(
        &mut self,
        slice: &[T],
        allocator: &mut A,
        maybe_state: &mut Option<A::State>,
    ) -> (r: Result<Result<(), ()>, PanicCause>)
        requires
            old(self).wf(),
            vstd::layout::size_of::<T>() > 0,
            buffer_fits(*old(self)),
            old(allocator).is_ready(*old(maybe_state)),
            slice@.len() <= u32::MAX,
        ensures
            extended(
                *old(self),
                *final(self),
                *old(allocator),
                *old(maybe_state),
                *final(allocator),
                *final(maybe_state),
                slice@,
                true,
                r,
            ),
    {
        let made = self.reserve_(slice.len() as u32, true, allocator, maybe_state);
        match made {
            Ok(Ok(_)) => {},
            Ok(Err(())) => {
                return Ok(Err(()));
            },
            Err(cause) => {
                return Err(cause);
            },
        }
        let _ = self.try_extend_from_slice(slice);
        Ok(Ok(()))
    }
}

} // verus!
