//! Memory that an allocator takes for itself.
use crate::accounts::{
    alike, calm, chunks_left, has_nothing, has_tables, is_set_up, lemma_alike, lemma_broke_after,
    lemma_carries, lemma_counts, lemma_has_nothing, lemma_holds, lemma_served_after, lemma_spare,
    lemma_spared, lemma_spared_lifted, ready, served, spared, turned_down,
};
use crate::allocation::{asks_for_block, can_count, popped_last, took_extra_large};
use crate::carving::{cache_is_empty, carved_next, carves_next, no_chunk_to_carve};
use crate::chunks::{only_refused, refused_region};
use crate::failures::PanicCause;
use crate::inner::ThreadLocalAllocatorInner;
use crate::non_local_ptr_manager::NonLocalPtrManager;
use crate::ownership::lemma_passes;
use crate::region::{alloc_region, alloc_region_without_counting_limit, lemma_region_size};
use crate::sizes::{class_of, class_size, lemma_class_of, size_to_class, SizeClass, LARGE_SIZE_MAX};
use crate::state::{
    can_take_region, fresh_node, is_first_with_common, is_first_with_large, is_object_size,
    kept_limit, State,
};
use crate::steps::{
    lemma_new_state, lemma_popped, lemma_refused_region, lemma_state_step, lemma_with_state,
};
use crate::thread_local_allocator::ThreadLocalAllocator;
use vstd::prelude::*;

verus! {

/// Whether the next chunk that is opened will hold the manager.
pub open spec fn allocating_flag(state: Option<State>) -> bool {
    state is Some && state->0.is_allocating_non_local_ptr_manager_now
}

/// A state of which the next chunk that is opened will, or will not, hold the manager.
pub open spec fn with_allocating_flag(state: Option<State>, value: bool) -> Option<State> {
    match state {
        Some(st) => Some(State { is_allocating_non_local_ptr_manager_now: value, ..st }),
        None => None,
    }
}

/// What taking an object from what the allocator has does beyond the accounts: the last free
/// object is taken, or the next free chunk is carved where that takes no more memory. Nothing is
/// taken where there is no chunk, or where memory was refused.
pub open spec fn taken_from_cache<N: NonLocalPtrManager>(
    a0: ThreadLocalAllocator<N>,
    s0: Option<State>,
    a1: ThreadLocalAllocator<N>,
    s1: Option<State>,
    class: int,
    r: Result<Option<usize>, PanicCause>,
) -> bool {
    &&& a0.len_of(class) > 0 ==> popped_last(a0, a1, class, r) && s1 == s0
    &&& carves_next(a0, class) ==> carved_next(a0, a1, class, r) && s1
        == with_allocating_flag(s0, false)
    &&& cache_is_empty(a0, class) ==> r == Ok::<Option<usize>, PanicCause>(None) && only_refused(
        a0,
        a1,
        false,
    ) && s1 == with_allocating_flag(s0, false)
    &&& r == Ok::<Option<usize>, PanicCause>(None) ==> no_chunk_to_carve(a0, class)
        || turned_down(a0, a1)
}

/// What taking memory for the allocator itself does beyond the accounts: the last free object is
/// taken, or the next free chunk is carved where that takes no more memory. Where the allocator has
/// nothing, the state serves the request, which counts a region that it has to take; where there is
/// no state, a region is taken if it can be. Great blocks are mapped if the limit has room for
/// them.
pub open spec fn taken_for_self<N: NonLocalPtrManager>(
    a0: ThreadLocalAllocator<N>,
    s0: Option<State>,
    a1: ThreadLocalAllocator<N>,
    s1: Option<State>,
    size: int,
    counting: bool,
    r: Result<Option<usize>, PanicCause>,
) -> bool {
    let class = class_of(size);
    &&& size <= LARGE_SIZE_MAX ==> {
        &&& a0.len_of(class) > 0 ==> popped_last(a0, a1, class, r) && s1 == s0
        &&& carves_next(a0, class) ==> carved_next(a0, a1, class, r) && s1
            == with_allocating_flag(s0, false)
        &&& cache_is_empty(a0, class) ==> taken_from_state(
            a0,
            with_allocating_flag(s0, false),
            a1,
            s1,
            counting,
            r,
        )
    }
    &&& size > LARGE_SIZE_MAX ==> {
        &&& can_count(a0, size as usize) ==> r is Ok && took_extra_large(
            a0,
            a1,
            size as usize,
            r->Ok_0,
        ) && s1 == s0
        &&& a0.inner.env.limit.has_room_for(size as usize) ==> asks_for_block(
            a0.inner.env,
            a1.inner.env,
            size as usize,
        )
        &&& !a0.inner.env.limit.has_room_for(size as usize) ==> r == Ok::<
            Option<usize>,
            PanicCause,
        >(None) && only_refused(a0, a1, true) && s1 == s0
    }
}

/// What taking an object from a state, or from a region where there is none, does with the limit.
pub open spec fn taken_from_state<N: NonLocalPtrManager>(
    a0: ThreadLocalAllocator<N>,
    s0: Option<State>,
    a1: ThreadLocalAllocator<N>,
    s1: Option<State>,
    counting: bool,
    r: Result<Option<usize>, PanicCause>,
) -> bool {
    match s0 {
        Some(st0) => {
            &&& r is Ok
            &&& s1 is Some
            &&& a1.inner == (ThreadLocalAllocatorInner { env: a1.inner.env, ..a0.inner })
            &&& kept_limit(
                st0,
                a0.inner.env,
                s1->0,
                a1.inner.env,
                counting,
                r->Ok_0 is Some,
            )
        },
        None => if can_take_region(a0.inner.env, counting) {
            r != Ok::<Option<usize>, PanicCause>(None)
        } else {
            r == Ok::<Option<usize>, PanicCause>(None) && refused_region(a0, a1, true)
        },
    }
}

impl<N: NonLocalPtrManager> ThreadLocalAllocator<N> {
    /// Takes an object of `size` bytes from a state, or from a state that is made for it and
    /// committed at once.
    pub(crate) fn slow_self_alloc_(
        &mut self,
        size: usize,
        size_class: SizeClass,
        with_counting_limit: bool,
        state: &mut Option<State>,
    ) -> (r: Result<Option<usize>, PanicCause>)
        requires
            ready(*old(self), *old(state)),
            is_object_size(size as int),
            size_class == SizeClass::of(size as int),
        ensures
            served(*old(self), *old(state), *final(self), *final(state), size as int, r, true),
            r is Ok ==> calm(*old(self), *old(state), *final(self), *final(state)),
            taken_from_state(
                *old(self),
                *old(state),
                *final(self),
                *final(state),
                with_counting_limit,
                r,
            ),
            *old(state) is None && (r is Ok && r->Ok_0 is Some) ==> has_tables(*final(self)),
            r == Ok::<Option<usize>, PanicCause>(None) ==> spared(
                *old(self),
                *old(state),
                *final(self),
                *final(state),
            ),
        decreases
                old(self).unread(),
                chunks_left(*old(self), *old(state)),
                old(self).incoming().len(),
                old(self).spare(),
                29int,
    {
        let ghost a0 = *self;
        let ghost s0 = *state;
        match state {
            Some(st) => {
                let ghost st0 = *st;
                let r = st.alloc_size(with_counting_limit, size_class, size, &mut self.inner.env);
                proof {
                    lemma_class_of(size as int);
                    lemma_state_step(
                        a0,
                        st0,
                        *self,
                        *st,
                        if r is Some {
                            r->0 as int
                        } else {
                            0
                        },
                        if r is Some {
                            size as int
                        } else {
                            0
                        },
                    );
                }
                Ok(r)
            },
            None => {
                let region: usize = match if with_counting_limit {
                    alloc_region(&mut self.inner.env)
                } else {
                    alloc_region_without_counting_limit(&mut self.inner.env)
                } {
                    Some(region) => region,
                    None => {
                        proof {
                            lemma_refused_region(a0, *self);
                        }
                        return Ok(None);
                    },
                };
                let ghost a1 = *self;
                let mut st = State::from_region(region, self.inner.env.region_size);
                let ghost st1 = st;
                proof {
                    lemma_new_state(a0, a1, st1, region as int);
                    lemma_class_of(size as int);
                    lemma_region_size(a0.inner.env.region_size as int);
                    assert(st1.chain()[0] == fresh_node(region as int, st1.region_size as int));
                    assert(st1.has_no_slot(size_class is Common, size as int));
                    assert(size_class is Common ==> is_first_with_common(st1.chain(), 0));
                    assert(size_class is Large ==> is_first_with_large(st1.chain(), 0, 0));
                }
                let r = st.alloc_size(with_counting_limit, size_class, size, &mut self.inner.env);
                let ghost a2 = *self;
                let ghost got = if r is Some {
                    (r->0 as int, size as int)
                } else {
                    (0, 0)
                };
                proof {
                    lemma_state_step(a1, st1, a2, st, got.0, got.1);
                    lemma_carries(a0, None, a1, Some(st1), a2, Some(st));
                    lemma_holds(
                        a0,
                        None,
                        a1,
                        Some(st1),
                        a2,
                        Some(st),
                        (0, 0, 0, 0),
                        (0, 0, got.0, got.1),
                    );
                    lemma_counts(a0, None, a1, Some(st1), a2, Some(st), (0, 0), (0, got.1));
                    lemma_passes(
                        a0,
                        None,
                        a1,
                        Some(st1),
                        a2,
                        Some(st),
                        (0, 0, 0, 0),
                        (0, 0, got.0, got.1),
                    );
                }
                let ghost st2 = st;
                match self.handle_state(st) {
                    Ok(()) => {},
                    Err(cause) => {
                        proof {
                            lemma_broke_after(
                                a0,
                                None,
                                a2,
                                Some(st2),
                                *self,
                                (0, 0, got.0, got.1),
                                (0, 0),
                            );
                        }
                        return Err(cause);
                    },
                }
                proof {
                    lemma_carries(a0, None, a2, Some(st2), *self, None);
                    lemma_holds(
                        a0,
                        None,
                        a2,
                        Some(st2),
                        *self,
                        None,
                        (0, 0, got.0, got.1),
                        (0, 0, 0, 0),
                    );
                    lemma_counts(a0, None, a2, Some(st2), *self, None, (0, got.1), (0, 0));
                    lemma_passes(
                        a0,
                        None,
                        a2,
                        Some(st2),
                        *self,
                        None,
                        (0, 0, got.0, got.1),
                        (0, 0, 0, 0),
                    );
                }
                Ok(r)
            },
        }
    }

    /// Hands out memory for the allocator itself: from what it has, from the state, or from a
    /// fresh region.
    pub fn self_alloc_(
        &mut self,
        size: usize,
        with_counting_limit: bool,
        state: &mut Option<State>,
    ) -> (r: Result<Option<usize>, PanicCause>)
        requires
            ready(*old(self), *old(state)),
            size > LARGE_SIZE_MAX || is_object_size(size as int),
        ensures
            served(*old(self), *old(state), *final(self), *final(state), size as int, r, true),
            r is Ok ==> calm(*old(self), *old(state), *final(self), *final(state)),
            taken_for_self(
                *old(self),
                *old(state),
                *final(self),
                *final(state),
                size as int,
                with_counting_limit,
                r,
            ),
            *old(state) is None && is_set_up(*old(self)) && size <= LARGE_SIZE_MAX && (r is Ok
                && r->Ok_0 is Some) ==> has_tables(*final(self)),
            r == Ok::<Option<usize>, PanicCause>(None) ==> spared(
                *old(self),
                *old(state),
                *final(self),
                *final(state),
            ),
        decreases
                old(self).unread(),
                chunks_left(*old(self), *old(state)),
                old(self).incoming().len(),
                old(self).spare(),
                if size > LARGE_SIZE_MAX {
                    34int
                } else {
                    30int
                },
    {
        let ghost a0 = *self;
        let ghost s0 = *state;
        proof {
            lemma_spare(a0, a0);
        }
        proof {
            if has_nothing(a0) && size <= LARGE_SIZE_MAX {
                lemma_has_nothing(a0);
                lemma_class_of(size as int);
                let class = class_of(size as int);
                assert(a0.len_of(class) == 0 && a0.len_of(432) == 0 && a0.len_of(433) == 0);
                assert(cache_is_empty(a0, class));
            }
        }
        let size_class = SizeClass::define(size);
        let cached = match size_class {
            SizeClass::Common => self.try_alloc_common_from_cache(size, state),
            SizeClass::Large => self.try_alloc_large_from_cache(size, state),
            SizeClass::ExtraLarge => {
                let r = self.alloc_extra_large(size);
                proof {
                    lemma_with_state(a0, *self, s0, size as int, r, true);
                    if r == Ok::<Option<usize>, PanicCause>(None) {
                        lemma_spared_lifted(a0, *self, s0);
                    }
                }
                return r;
            },
        };
        let ghost a1 = *self;
        let ghost s1 = *state;
        match cached {
            Ok(Some(ptr)) => Ok(Some(ptr)),
            Err(cause) => Err(cause),
            Ok(None) => {
                proof {
                    lemma_spare(a0, a1);
                }
                let r = self.slow_self_alloc_(size, size_class, with_counting_limit, state);
                proof {
                    lemma_served_after(a0, s0, a1, s1, *self, *state, size as int, r, true);
                    if r == Ok::<Option<usize>, PanicCause>(None) {
                        lemma_spared(a0, s0, a1, s1, *self, *state);
                    }
                }
                r
            },
        }
    }

    /// Takes an object from what the allocator has: a free object of the class, or one of a chunk
    /// that is not carved yet.
    pub(crate) fn try_alloc_from_cache(&mut self, class: usize, state: &mut Option<State>) -> (r: Result<
        Option<usize>,
        PanicCause,
    >)
        requires
            ready(*old(self), *old(state)),
            class < 216,
        ensures
            served(
                *old(self),
                *old(state),
                *final(self),
                *final(state),
                class_size(class as int),
                r,
                false,
            ),
            r is Ok ==> calm(*old(self), *old(state), *final(self), *final(state)),
            taken_from_cache(
                *old(self),
                *old(state),
                *final(self),
                *final(state),
                class as int,
                r,
            ),
        decreases
                old(self).unread(),
                chunks_left(*old(self), *old(state)),
                old(self).incoming().len(),
                old(self).spare(),
                27int,
    {
        let ghost a0 = *self;
        let ghost s0 = *state;
        proof {
            lemma_spare(a0, a0);
        }
        match self.pop(class) {
            Some(ptr) => {
                proof {
                    lemma_popped(a0, s0, *self, class as int, ptr);
                }
                return Ok(Some(ptr));
            },
            None => {},
        }
        let is_allocating_manager = replace_allocating_flag(state, false);
        let ghost s1 = *state;
        proof {
            lemma_alike(a0, s0, s1);
        }
        let r = self.alloc_slow(is_allocating_manager, false, class, state);
        proof {
            lemma_served_after(
                a0,
                s0,
                a0,
                s1,
                *self,
                *state,
                class_size(class as int),
                r,
                false,
            );
        }
        r
    }

    /// Takes an object of a common size from what the allocator has.
    pub fn try_alloc_common_from_cache(
        &mut self,
        size: usize,
        state: &mut Option<State>,
    ) -> (r: Result<Option<usize>, PanicCause>)
        requires
            ready(*old(self), *old(state)),
            is_object_size(size as int),
            size <= 1024,
        ensures
            served(
                *old(self),
                *old(state),
                *final(self),
                *final(state),
                class_size(class_of(size as int)),
                r,
                false,
            ),
            r is Ok ==> calm(*old(self), *old(state), *final(self), *final(state)),
            taken_from_cache(
                *old(self),
                *old(state),
                *final(self),
                *final(state),
                class_of(size as int),
                r,
            ),
        decreases
                old(self).unread(),
                chunks_left(*old(self), *old(state)),
                old(self).incoming().len(),
                old(self).spare(),
                28int,
    {
        proof {
            lemma_spare(*self, *self);
        }
        let class: usize = size_to_class(size);
        self.try_alloc_from_cache(class, state)
    }

    /// Takes an object of a large size from what the allocator has.
    pub fn try_alloc_large_from_cache(
        &mut self,
        size: usize,
        state: &mut Option<State>,
    ) -> (r: Result<Option<usize>, PanicCause>)
        requires
            ready(*old(self), *old(state)),
            is_object_size(size as int),
            size > 1024,
        ensures
            served(
                *old(self),
                *old(state),
                *final(self),
                *final(state),
                class_size(class_of(size as int)),
                r,
                false,
            ),
            r is Ok ==> calm(*old(self), *old(state), *final(self), *final(state)),
            taken_from_cache(
                *old(self),
                *old(state),
                *final(self),
                *final(state),
                class_of(size as int),
                r,
            ),
        decreases
                old(self).unread(),
                chunks_left(*old(self), *old(state)),
                old(self).incoming().len(),
                old(self).spare(),
                28int,
    {
        proof {
            lemma_spare(*self, *self);
        }
        let class: usize = size_to_class(size);
        self.try_alloc_from_cache(class, state)
    }
}

/// Sets the mark that the next chunk will hold the manager. Returns what it was.
pub(crate) fn replace_allocating_flag(state: &mut Option<State>, value: bool) -> (r: bool)
    requires
        *old(state) matches Some(st) ==> st.wf(),
    ensures
        r == allocating_flag(*old(state)),
        *final(state) == with_allocating_flag(*old(state), value),
        alike(*old(state), *final(state)),
{
    match state {
        Some(st) => {
            let r = st.is_allocating_non_local_ptr_manager_now;
            let ghost before = *st;
            st.set_is_allocating_non_local_ptr_manager_now(value);
            assert(st.chain() =~= before.chain());
            r
        },
        None => false,
    }
}

} // verus!
