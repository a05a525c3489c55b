//! The tables and the manager of an allocator.
use crate::accounts::{
    chunks_left, failed, lemma_alike, lemma_broke, lemma_broke_after, lemma_carries, lemma_counts,
    lemma_holds, lemma_spare, lemma_step, ready, step,
};
use crate::carving::cache_is_empty;
use crate::chunks::managed;
use crate::failures::PanicCause;
use crate::inner::{ThreadLocalAllocatorInner, COMMON_TABLE_SIZE, LARGE_TABLE_SIZE};
use crate::non_local_ptr_manager::NonLocalPtrManager;
use crate::ownership::{is_own, lemma_hands_out_own, lemma_passes, owned, owns, owns_with, passes};
use crate::region::alloc_region_without_counting_limit;
use crate::self_alloc::replace_allocating_flag;
use crate::sizes::{
    class_of, law_recommended_is_idempotent, lemma_class, lemma_class_of, recommended_size,
    LARGE_SIZE_MAX,
};
use crate::state::State;
use crate::steps::{
    lemma_marks_set, lemma_new_manager, lemma_new_state, lemma_refused_region, lemma_table_kept,
    lemma_table_sizes,
};
use crate::thread_local_allocator::ThreadLocalAllocator;
use vstd::prelude::*;

verus! {

impl<N: NonLocalPtrManager> ThreadLocalAllocator<N> {
    /// Sees to it that the table of the vectors of common chunks exists.
    pub(crate) fn make_common_chunk_table(&mut self, state: &mut Option<State>) -> (r: Result<
        (),
        PanicCause,
    >)
        requires
            ready(*old(self), *old(state)),
        ensures
            managed(*old(self), *old(state), *final(self), *final(state), r),
            r is Ok ==> final(self).inner.common_chunk_table != 0,
            old(self).inner.common_chunk_table != 0 ==> r is Ok && *final(self) == *old(self)
                && *final(state) == *old(state),
        decreases
                old(self).unread(),
                chunks_left(*old(self), *old(state)),
                old(self).incoming().len(),
                old(self).spare(),
                45int,
    {
        if self.inner.common_chunk_table != 0 {
            proof {
                lemma_alike(*self, *state, *state);
            }
            return Ok(());
        }
        let ghost a0 = *self;
        let ghost s0 = *state;
        proof {
            lemma_spare(a0, a0);
            lemma_table_sizes();
        }
        let ptr: usize = match self.self_alloc_(COMMON_TABLE_SIZE, true, state) {
            Ok(Some(ptr)) => ptr,
            Ok(None) => {
                proof {
                    lemma_broke(a0, s0, *self, *state, (0, 0, 0, 0));
                }
                return Err(PanicCause::CommonChunkTable);
            },
            Err(cause) => {
                return Err(cause);
            },
        };
        let ghost a1 = *self;
        if self.inner.common_chunk_table != 0 {
            self.inner.note_replaced();
        }
        proof {
            assert(self.inner.parts() == a1.inner.parts());
        }
        self.inner.set_common_table(ptr);
        proof {
            lemma_table_kept(a0, s0, a1, *state, *self, ptr as int, 2048);
        }
        Ok(())
    }

    /// Sees to it that the table of the vectors of large chunks exists.
    pub(crate) fn make_large_chunk_table(&mut self, state: &mut Option<State>) -> (r: Result<(), PanicCause>)
        requires
            ready(*old(self), *old(state)),
        ensures
            managed(*old(self), *old(state), *final(self), *final(state), r),
            r is Ok ==> final(self).inner.large_chunk_table != 0,
            old(self).inner.large_chunk_table != 0 ==> r is Ok && *final(self) == *old(self)
                && *final(state) == *old(state),
        decreases
                old(self).unread(),
                chunks_left(*old(self), *old(state)),
                old(self).incoming().len(),
                old(self).spare(),
                45int,
    {
        if self.inner.large_chunk_table != 0 {
            proof {
                lemma_alike(*self, *state, *state);
            }
            return Ok(());
        }
        let ghost a0 = *self;
        let ghost s0 = *state;
        proof {
            lemma_spare(a0, a0);
            lemma_table_sizes();
        }
        let ptr: usize = match self.self_alloc_(LARGE_TABLE_SIZE, true, state) {
            Ok(Some(ptr)) => ptr,
            Ok(None) => {
                proof {
                    lemma_broke(a0, s0, *self, *state, (0, 0, 0, 0));
                }
                return Err(PanicCause::LargeChunkTable);
            },
            Err(cause) => {
                return Err(cause);
            },
        };
        let ghost a1 = *self;
        if self.inner.large_chunk_table != 0 {
            self.inner.note_replaced();
        }
        proof {
            assert(self.inner.parts() == a1.inner.parts());
        }
        self.inner.set_large_table(ptr);
        proof {
            lemma_table_kept(a0, s0, a1, *state, *self, ptr as int, 1408);
        }
        Ok(())
    }

    /// Gives the manager a block of the state.
    pub(crate) fn init_manager(&mut self, state: &mut Option<State>) -> (r: Result<(), PanicCause>)
        requires
            ready(*old(self), *old(state)),
            *old(state) is Some,
            old(self).inner.manager_ptr == 0,
            N::size_spec() > 0,
        ensures
            managed(*old(self), *old(state), *final(self), *final(state), r),
            r is Ok ==> final(self).inner.manager_ptr != 0,
        decreases
                old(self).unread(),
                chunks_left(*old(self), *old(state)),
                old(self).incoming().len(),
                old(self).spare(),
                49int,
    {
        let ghost a0 = *self;
        let ghost s0 = *state;
        let _ = replace_allocating_flag(state, true);
        let ghost s1 = *state;
        proof {
            lemma_spare(a0, a0);
            lemma_alike(a0, s0, s1);
        }
        let size: usize = recommended_size(N::size());
        proof {
            if size <= LARGE_SIZE_MAX {
                lemma_class_of(N::size_spec() as int);
                lemma_class(class_of(N::size_spec() as int));
            }
        }
        let ptr: usize = match self.self_alloc_(size, true, state) {
            Ok(Some(ptr)) => ptr,
            Ok(None) => {
                proof {
                    lemma_broke(a0, s1, *self, *state, (0, 0, 0, 0));
                    lemma_broke_after(a0, s0, a0, s1, *self, (0, 0, 0, 0), (0, 0));
                }
                return Err(PanicCause::Manager);
            },
            Err(cause) => {
                proof {
                    lemma_broke_after(a0, s0, a0, s1, *self, (0, 0, 0, 0), (0, 0));
                }
                return Err(cause);
            },
        };
        let ghost a2 = *self;
        let ghost s2 = *state;
        proof {
            let class = class_of(size as int);
            assert(a0.incoming().len() == 0);
            assert(a0.len_of(class) > 0 || cache_is_empty(a0, class));
            assert(a2.inner.manager_ptr == 0);
        }
        let manager = N::default();
        self.inner.set_manager(ptr, size);
        self.non_local_ptr_manager = Some(manager);
        let ghost a3 = *self;
        let _ = replace_allocating_flag(state, false);
        proof {
            lemma_new_manager(a2, s2, a3, ptr as int, size as int);
            lemma_step(
                a0,
                s0,
                a0,
                s1,
                a2,
                s2,
                (0, 0, 0, 0),
                (0, 0, ptr as int, size as int),
            );
            lemma_step(
                a0,
                s0,
                a2,
                s2,
                a3,
                s2,
                (0, 0, ptr as int, size as int),
                (ptr as int, size as int, 0, 0),
            );
            lemma_alike(a3, s2, *state);
            lemma_step(a0, s0, a3, s2, a3, *state, (0, 0, 0, 0), (0, 0, 0, 0));
        }
        Ok(())
    }

    /// The address of the manager. Where there is none yet, the manager is made; its destructor is
    /// registered first.
    #[verifier::rlimit(60)]
    pub fn get_or_init_and_get_non_local_ptr_manager_ptr(
        &mut self,
        state: &mut Option<State>,
    ) -> (r: Result<usize, PanicCause>)
        requires
            ready(*old(self), *old(state)),
        ensures
            match r {
                Ok(ptr) => {
                    &&& step(*old(self), *old(state), *final(self), *final(state), (0, 0, 0, 0))
                    &&& ptr != 0
                    &&& ptr == final(self).inner.manager_ptr
                },
                Err(cause) => failed(*old(self), *old(state), *final(self), 0, 0, cause),
            },
            old(self).inner.manager_ptr != 0 ==> r is Ok && *final(self) == *old(self)
                && *final(state) == *old(state),
            old(self).inner.manager_ptr == 0 && r is Ok
                ==> final(self).inner.is_destructor_registered,
            r is Ok && *old(state) is None && owns(*old(self)) ==> owns(*final(self)) && (
            N::size_spec() > 0 ==> is_own(*final(self), final(self).inner.manager_ptr)),
            old(self).inner.manager_ptr == 0 && N::size_spec() == 0 ==> {
                &&& r == Ok::<usize, PanicCause>(1)
                &&& *final(state) == *old(state)
                &&& final(self).inner == (ThreadLocalAllocatorInner {
                    manager_ptr: 1,
                    manager_block: 0,
                    is_destructor_registered: true,
                    is_already_destructured: old(self).inner.is_destructor_registered
                        && old(self).inner.is_already_destructured,
                    ..old(self).inner
                })
            },
        decreases
                old(self).unread(),
                chunks_left(*old(self), *old(state)),
                old(self).incoming().len(),
                old(self).spare(),
                50int,
    {
        if self.inner.manager_ptr != 0 {
            proof {
                lemma_alike(*self, *state, *state);
                if *state is None {
                    lemma_manager_is_own(*self, *self);
                }
            }
            return Ok(self.inner.manager_ptr);
        }
        let ghost a0 = *self;
        let ghost s0 = *state;
        if !self.inner.is_destructor_registered {
            self.inner.is_destructor_registered = true;
            self.inner.is_already_destructured = false;
        }
        let ghost a1 = *self;
        proof {
            lemma_marks_set(a0, s0, a1);
            lemma_spare(a0, a1);
        }
        if N::size() == 0 {
            let manager = N::default();
            self.inner.set_manager(1, 0);
            self.non_local_ptr_manager = Some(manager);
            proof {
                lemma_new_manager(a1, s0, *self, 1, 0);
                lemma_step(a0, s0, a1, s0, *self, s0, (0, 0, 0, 0), (1, 0, 0, 0));
                if s0 is None {
                    assert(passes(a0, s0, *self, s0, (0, 0, 0, 0))) by {
                        reveal(passes);
                    }
                    lemma_manager_is_own(a0, *self);
                }
            }
            return Ok(self.inner.manager_ptr);
        }
        match state {
            Some(_) => {
                match self.init_manager(state) {
                    Ok(()) => {},
                    Err(cause) => {
                        proof {
                            lemma_broke_after(a0, s0, a1, s0, *self, (0, 0, 0, 0), (0, 0));
                        }
                        return Err(cause);
                    },
                }
                proof {
                    lemma_step(a0, s0, a1, s0, *self, *state, (0, 0, 0, 0), (0, 0, 0, 0));
                }
                return Ok(self.inner.manager_ptr);
            },
            None => {},
        }
        let region: usize = match alloc_region_without_counting_limit(&mut self.inner.env) {
            Some(region) => region,
            None => {
                proof {
                    lemma_refused_region(a1, *self);
                    lemma_broke(a1, None, *self, None, (0, 0, 0, 0));
                    lemma_broke_after(a0, None, a1, None, *self, (0, 0, 0, 0), (0, 0));
                }
                return Err(PanicCause::FirstAllocation);
            },
        };
        let ghost a2 = *self;
        let st = State::from_region(region, self.inner.env.region_size);
        let mut own: Option<State> = Some(st);
        let ghost s2 = own;
        proof {
            lemma_new_state(a1, a2, st, region as int);
            lemma_carries(a0, None, a1, None, a2, s2);
            lemma_holds(a0, None, a1, None, a2, s2, (0, 0, 0, 0), (0, 0, 0, 0));
            lemma_counts(a0, None, a1, None, a2, s2, (0, 0), (0, 0));
            lemma_passes(a0, None, a1, None, a2, s2, (0, 0, 0, 0), (0, 0, 0, 0));
        }
        match self.init_manager(&mut own) {
            Ok(()) => {},
            Err(cause) => {
                proof {
                    lemma_broke_after(a0, None, a2, s2, *self, (0, 0, 0, 0), (0, 0));
                }
                return Err(cause);
            },
        }
        let ghost a3 = *self;
        proof {
            lemma_carries(a0, None, a2, s2, a3, own);
            lemma_holds(a0, None, a2, s2, a3, own, (0, 0, 0, 0), (0, 0, 0, 0));
            lemma_counts(a0, None, a2, s2, a3, own, (0, 0), (0, 0));
            lemma_passes(a0, None, a2, s2, a3, own, (0, 0, 0, 0), (0, 0, 0, 0));
        }
        match own {
            Some(st) => {
                let ghost s3 = Some(st);
                match self.handle_state(st) {
                    Ok(()) => {},
                    Err(cause) => {
                        proof {
                            lemma_broke_after(a0, None, a3, s3, *self, (0, 0, 0, 0), (0, 0));
                        }
                        return Err(cause);
                    },
                }
                proof {
                    lemma_carries(a0, None, a3, s3, *self, None);
                    lemma_holds(a0, None, a3, s3, *self, None, (0, 0, 0, 0), (0, 0, 0, 0));
                    lemma_counts(a0, None, a3, s3, *self, None, (0, 0), (0, 0));
                    lemma_passes(a0, None, a3, s3, *self, None, (0, 0, 0, 0), (0, 0, 0, 0));
                    lemma_manager_is_own(a0, *self);
                }
            },
            None => {},
        }
        Ok(self.inner.manager_ptr)
    }
}

/// An allocator that owns what it holds owns the object that its manager is kept in.
proof fn lemma_manager_is_own<N: NonLocalPtrManager>(
    a0: ThreadLocalAllocator<N>,
    a1: ThreadLocalAllocator<N>,
)
    requires
        a1.wf(),
        a1.inner.manager_ptr != 0,
        passes(a0, None, a1, None, (0, 0, 0, 0)),
    ensures
        owns(a0) ==> owns(a1) && (N::size_spec() > 0 ==> is_own(a1, a1.inner.manager_ptr)),
{
    if owns(a0) {
        lemma_hands_out_own(a0, a1, (0, 0), (0, 0));
        if N::size_spec() > 0 {
            law_recommended_is_idempotent(N::size_spec() as int);
            assert(owned(a1, None, Set::empty(), a1.inner.manager_ptr as int)) by {
                reveal(owns_with);
            }
        }
    }
}

} // verus!
