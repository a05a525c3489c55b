//! How memory is taken back.
use crate::accounts::{
    bound_hit, chunks_left, counts, done, keeps_sizes, lemma_alike, lemma_broke, lemma_broke_after,
    lemma_held_nonnegative, lemma_lift, lemma_spare, lemma_step, ready, total,
};
use crate::blocks::covers;
use crate::btree_map::{nodes_for, MAP_NODE_SIZE};
use crate::chunks::managed;
use crate::failures::PanicCause;
use crate::inner::{elem_wf, ThreadLocalAllocatorInner};
use crate::limit::AllocationLimit;
use crate::non_local_ptr_manager::{NonLocalPtrData, NonLocalPtrManager, NODE_SIZE};
use crate::os::{
    follows, gave_blocks, lemma_mapped, mapped, traded, traded_since, ChunkMetadata, OsAction,
};
use crate::ownership::{is_own, lemma_hands_out_own, owns};
use crate::region::{lemma_unmap_brings_none, metadata_at, read_metadata};
use crate::sizes::{
    class_of, class_size, law_recommended_is_idempotent, lemma_class, lemma_class_of, recommended,
    size_to_class, SizeClass, LARGE_SIZE_MAX,
};
use crate::state::{is_object_size, State};
use crate::steps::{
    lemma_block_given_up, lemma_given_back, lemma_handed_on, lemma_message_sent, lemma_more_given,
    lemma_os_step, lemma_sent_on, lemma_sizes_counted, lemma_taken_over,
};
use crate::thread_local_allocator::ThreadLocalAllocator;
use crate::vectors::{grows_apart, only_elems_changed};
use vstd::prelude::*;

verus! {

/// Whether the pointer belongs to an object of the allocator itself.
pub open spec fn is_local<N: NonLocalPtrManager>(a: ThreadLocalAllocator<N>, ptr: int) -> bool {
    &&& a.inner.manager_ptr != 0
    &&& metadata_at(a.inner.env, ptr) is Some
    &&& metadata_at(a.inner.env, ptr)->0.non_local_ptr_manager == a.inner.manager_ptr
}

/// Whether nobody is known who the pointer belongs to.
pub open spec fn has_no_owner<N: NonLocalPtrManager>(a: ThreadLocalAllocator<N>, ptr: int) -> bool {
    metadata_at(a.inner.env, ptr) is None || metadata_at(a.inner.env, ptr)->0.non_local_ptr_manager
        == 0
}

/// What giving an object of a class back does beyond the accounts: an object of the allocator
/// itself is appended to the free ones where there is room, another one is sent to its owner, and
/// it is a failure that there is none.
pub open spec fn gave_back<N: NonLocalPtrManager>(
    a0: ThreadLocalAllocator<N>,
    a1: ThreadLocalAllocator<N>,
    class: int,
    ptr: usize,
    r: Result<(), PanicCause>,
) -> bool {
    &&& has_no_owner(a0, ptr as int) ==> r == Err::<(), PanicCause>(PanicCause::MissingMetadata)
        && a1 == a0
    &&& is_local(a0, ptr as int) && a0.len_of(class) < a0.cap_of(class) ==> {
        &&& r is Ok
        &&& only_elems_changed(a0, a1)
        &&& a1.inner.vectors@ == a0.inner.vectors@.update(class, a1.inner.vectors@[class])
        &&& a1.inner.vectors@[class]@ == a0.inner.vectors@[class]@.push(ptr)
    }
    &&& is_local(a0, ptr as int) && a0.len_of(class) == a0.cap_of(class) && grows_apart(
        a0,
        None,
        class,
        1,
    ) ==> r is Ok && a1.inner.vectors@[class]@ == a0.inner.vectors@[class]@.push(ptr)
    &&& is_local(a0, ptr as int) && r is Ok ==> {
        &&& a1.len_of(class) > 0
        &&& a1.inner.vectors@[class]@.last() == ptr
    }
    &&& !is_local(a0, ptr as int) && r is Ok ==> {
        let metadata = metadata_at(a0.inner.env, ptr as int)->0;
        &&& a1.inner.env.outbox@.len() > 0
        &&& a1.inner.env.outbox@.last().to == metadata.non_local_ptr_manager
        &&& a1.inner.env.outbox@.last().node.value == (NonLocalPtrData {
            ptr,
            offset_to_slot_in_table: metadata.offset_to_slot_in_table,
        })
    }
}

/// What giving an extra large block back does beyond the accounts.
pub open spec fn gave_back_extra_large<N: NonLocalPtrManager>(
    a0: ThreadLocalAllocator<N>,
    a1: ThreadLocalAllocator<N>,
    ptr: usize,
    size: usize,
) -> bool {
    let count = a0.inner.count_of(size);
    &&& a1.inner == (ThreadLocalAllocatorInner {
        env: a1.inner.env,
        allocated_large_sizes: a1.inner.allocated_large_sizes,
        ..a0.inner
    })
    &&& a1.inner.env.actions@ == a0.inner.env.actions@.push(OsAction::Unmap { ptr, size })
    &&& a1.inner.env.limit == (AllocationLimit {
        allocated: a0.inner.env.limit.allocated.wrapping_sub(size),
        ..a0.inner.env.limit
    })
    &&& a1.inner.allocated_large_sizes@ == if count == 0 {
        a0.inner.allocated_large_sizes@
    } else if count == 1 {
        a0.inner.allocated_large_sizes@.remove(size)
    } else {
        a0.inner.allocated_large_sizes@.insert(size, (count - 1) as usize)
    }
}

/// Whether the first thing that is then to be done is to give the block back to the operating
/// system.
pub open spec fn unmapped_next<N: NonLocalPtrManager>(
    a0: ThreadLocalAllocator<N>,
    a1: ThreadLocalAllocator<N>,
    ptr: usize,
    size: usize,
) -> bool {
    let n = a0.inner.env.actions@.len();
    n < a1.inner.env.actions@.len() && a1.inner.env.actions@[n as int] == (OsAction::Unmap {
        ptr,
        size,
    })
}

/// What is counted after an extra large block was given back: one less of its size where there was one,
/// and as many as before of all others, and the limit has its bytes back, unless the allocator has
/// traded such a block for itself afterwards. A block of the size that regions are mapped with cannot
/// be told from a region.
pub open spec fn counted_one_less<N: NonLocalPtrManager>(
    a0: ThreadLocalAllocator<N>,
    a1: ThreadLocalAllocator<N>,
    size: usize,
) -> bool {
    let e0 = a0.inner.env;
    let e1 = a1.inner.env;
    traded_since(
        e1,
        e0.used_replies as int,
        e0.refusals@.len() as int,
        e0.actions@.len() as int + 1,
    ) || {
        &&& forall|key: usize|
            key != 2 * e0.region_size - 1 ==> #[trigger] a1.inner.count_of(key)
                == a0.inner.count_of(key) - (if key == size && a0.inner.count_of(key) > 0 {
                1int
            } else {
                0
            })
        &&& e1.limit.allocated <= e0.limit.allocated.wrapping_sub(size) + mapped(
            e0.replies@,
            e0.used_replies as int,
            e1.used_replies as int,
        )
    }
}

/// What giving an object of a class back to the free ones does: it becomes the last of them, and
/// nothing else changes where there is room.
pub open spec fn pushed_back<N: NonLocalPtrManager>(
    a0: ThreadLocalAllocator<N>,
    s0: Option<State>,
    a1: ThreadLocalAllocator<N>,
    s1: Option<State>,
    class: int,
    ptr: usize,
    r: Result<(), PanicCause>,
) -> bool {
    &&& r is Ok ==> a1.len_of(class) > 0 && a1.inner.vectors@[class]@.last() == ptr
    &&& a0.len_of(class) < a0.cap_of(class) ==> {
        &&& r is Ok
        &&& s1 == s0
        &&& only_elems_changed(a0, a1)
        &&& a1.inner.vectors@ == a0.inner.vectors@.update(class, a1.inner.vectors@[class])
        &&& a1.inner.vectors@[class]@ == a0.inner.vectors@[class]@.push(ptr)
    }
}

/// A block without an owner cannot be given back.
proof fn lemma_no_owner<N: NonLocalPtrManager>(a: ThreadLocalAllocator<N>, ptr: int, size: int)
    requires
        a.wf(),
        size > 0,
    ensures
        has_no_owner(a, ptr) ==> bound_hit(a, None, a, ptr, size, PanicCause::MissingMetadata),
{
    reveal(bound_hit);
    lemma_held_nonnegative(a, ptr);
    assert(total(a, None, ptr) + covers(ptr, size, ptr) > 0);
}

impl<N: NonLocalPtrManager> ThreadLocalAllocator<N> {
    /// Sends a pointer to the allocator that it belongs to.
    pub(crate) fn dealloc_non_local_ptr(&mut self, ptr: usize, metadata: ChunkMetadata) -> (r: Result<
        (),
        PanicCause,
    >)
        requires
            old(self).wf(),
        ensures
            managed(*old(self), None, *final(self), None, r),
            r is Ok ==> forall|size: int|
                1 <= size <= LARGE_SIZE_MAX ==> #[trigger] counts(
                    *old(self),
                    None,
                    *final(self),
                    None,
                    size,
                    0,
                ),
            r is Ok ==> {
                &&& final(self).inner.env.outbox@.len() > 0
                &&& final(self).inner.env.outbox@.last().to == metadata.non_local_ptr_manager
                &&& final(self).inner.env.outbox@.last().node.value == (NonLocalPtrData {
                    ptr,
                    offset_to_slot_in_table: metadata.offset_to_slot_in_table,
                })
            },
        decreases
                old(self).unread(),
                chunks_left(*old(self), None),
                old(self).incoming().len(),
                old(self).spare(),
                52int,
    {
        let ghost a0 = *self;
        let ghost none = None::<State>;
        let mut no_state: Option<State> = None;
        proof {
            lemma_spare(a0, a0);
            lemma_class_of(32);
        }
        match self.get_or_init_and_get_non_local_ptr_manager_ptr(&mut no_state) {
            Ok(_) => {},
            Err(cause) => {
                return Err(cause);
            },
        }
        let ghost a1 = *self;
        proof {
            lemma_spare(a0, a1);
        }
        let node: usize = match self.try_alloc(NODE_SIZE) {
            Ok(Some(node)) => node,
            Ok(None) => {
                proof {
                    lemma_broke(a1, none, *self, none, (0, 0, 0, 0));
                    lemma_broke_after(a0, none, a1, none, *self, (0, 0, 0, 0), (0, 0));
                }
                return Err(PanicCause::InternalUsage);
            },
            Err(cause) => {
                proof {
                    lemma_broke_after(a0, none, a1, none, *self, (0, 0, 0, 0), (0, 0));
                }
                return Err(cause);
            },
        };
        let ghost a2 = *self;
        let data = NonLocalPtrData::new(ptr, metadata.offset_to_slot_in_table);
        let message = match &self.non_local_ptr_manager {
            Some(manager) => manager.deallocate_non_local_ptr(
                node,
                metadata.non_local_ptr_manager,
                data,
            ),
            None => {
                assert(false);
                return Ok(());
            },
        };
        self.inner.env.outbox.push(message);
        proof {
            lemma_step(a0, none, a1, none, a2, none, (0, 0, 0, 0), (0, 0, node as int, 32));
            lemma_message_sent(a2, *self);
            lemma_step(
                a0,
                none,
                a2,
                none,
                *self,
                none,
                (0, 0, node as int, 32),
                (0, 0, 0, 0),
            );
            lemma_handed_on(a0, a2, *self, node as int, 32);
        }
        Ok(())
    }

    /// Gives an object of a class back.
    pub(crate) fn dealloc_of_class(&mut self, ptr: usize, class: usize) -> (r: Result<(), PanicCause>)
        requires
            old(self).wf(),
            class < 216,
            elem_wf(class as int, ptr),
        ensures
            done(
                *old(self),
                None,
                *final(self),
                None,
                ptr as int,
                class_size(class as int),
                r,
            ),
            gave_back(*old(self), *final(self), class as int, ptr, r),
        decreases
                old(self).unread(),
                chunks_left(*old(self), None),
                old(self).incoming().len(),
                old(self).spare(),
                53int,
    {
        let ghost a0 = *self;
        let ghost none = None::<State>;
        let ghost size = class_size(class as int);
        proof {
            lemma_spare(a0, a0);
            lemma_alike(a0, none, none);
            lemma_broke(a0, none, a0, none, (0, 0, 0, 0));
            lemma_more_given(a0, none, a0, ptr as int, size);
            lemma_class(class as int);
            lemma_no_owner(a0, ptr as int, size);
        }
        let metadata: ChunkMetadata = match read_metadata(&self.inner.env, ptr) {
            Some(metadata) => metadata,
            None => {
                return Err(PanicCause::MissingMetadata);
            },
        };
        if metadata.non_local_ptr_manager == 0 {
            return Err(PanicCause::MissingMetadata);
        }
        let mut no_state: Option<State> = None;
        if metadata.non_local_ptr_manager == self.inner.manager_ptr {
            return match self.push(class, ptr, false, &mut no_state) {
                Ok(true) => {
                    proof {
                        lemma_given_back(a0, none, *self, none, class as int);
                    }
                    Ok(())
                },
                Ok(false) => {
                    proof {
                        lemma_broke(a0, none, *self, none, (0, 0, 0, 0));
                        lemma_more_given(a0, none, *self, ptr as int, size);
                    }
                    Err(PanicCause::ReturnedPointer)
                },
                Err(cause) => Err(cause),
            };
        }
        let r = self.dealloc_non_local_ptr(ptr, metadata);
        proof {
            match r {
                Ok(()) => {
                    assert(counts(a0, none, *self, none, size, 0));
                    lemma_sent_on(a0, none, *self, none, ptr as int, size);
                },
                Err(_) => {
                    lemma_more_given(a0, none, *self, ptr as int, size);
                },
            }
        }
        r
    }

    /// Gives an object of a common size back.
    pub(crate) fn dealloc_common(&mut self, ptr: usize, size: usize) -> (r: Result<(), PanicCause>)
        requires
            old(self).wf(),
            1 <= size <= 1024,
            ptr > 0,
            ptr + recommended(size as int) <= usize::MAX,
        ensures
            done(
                *old(self),
                None,
                *final(self),
                None,
                ptr as int,
                recommended(size as int),
                r,
            ),
            gave_back(*old(self), *final(self), class_of(size as int), ptr, r),
        decreases
                old(self).unread(),
                chunks_left(*old(self), None),
                old(self).incoming().len(),
                old(self).spare(),
                54int,
    {
        proof {
            lemma_spare(*self, *self);
        }
        let class: usize = size_to_class(size);
        self.dealloc_of_class(ptr, class)
    }

    /// Gives an object of a large size back.
    pub(crate) fn dealloc_large(&mut self, ptr: usize, size: usize) -> (r: Result<(), PanicCause>)
        requires
            old(self).wf(),
            1024 < size <= LARGE_SIZE_MAX,
            ptr > 0,
            ptr + recommended(size as int) <= usize::MAX,
        ensures
            done(
                *old(self),
                None,
                *final(self),
                None,
                ptr as int,
                recommended(size as int),
                r,
            ),
            gave_back(*old(self), *final(self), class_of(size as int), ptr, r),
        decreases
                old(self).unread(),
                chunks_left(*old(self), None),
                old(self).incoming().len(),
                old(self).spare(),
                54int,
    {
        proof {
            lemma_spare(*self, *self);
        }
        let class: usize = size_to_class(size);
        self.dealloc_of_class(ptr, class)
    }

    /// Gives a block that is too large for a chunk back to the operating system.
    pub(crate) fn dealloc_extra_large(&mut self, ptr: usize, size: usize) -> (r: Result<(), PanicCause>)
        requires
            old(self).wf(),
            size > LARGE_SIZE_MAX,
        ensures
            done(*old(self), None, *final(self), None, ptr as int, size as int, r),
            old(self).count_after_stays(size) ==> r is Ok && gave_back_extra_large(
                *old(self),
                *final(self),
                ptr,
                size,
            ),
            unmapped_next(*old(self), *final(self), ptr, size),
            r is Ok ==> counted_one_less(*old(self), *final(self), size),
        decreases
                old(self).unread(),
                chunks_left(*old(self), None),
                old(self).incoming().len(),
                old(self).spare(),
                55int,
    {
        let ghost a0 = *self;
        let ghost none = None::<State>;
        proof {
            lemma_unmap_brings_none(self.inner.env.actions@, OsAction::Unmap { ptr, size });
        }
        self.inner.env.free(ptr, size);
        self.inner.env.limit.mark_deallocated(size);
        let ghost a1 = *self;
        self.inner.uncount_size(size);
        let ghost a2 = *self;
        let ghost n = a0.inner.env.actions@.len() as int;
        assert(a2.inner.env.actions@[n] == OsAction::Unmap { ptr, size });
        proof {
            assert(a1.inner.env.pool(0) == a0.inner.env.pool(0));
            assert(follows(a0.inner.env, a1.inner.env)) by {
                reveal(follows);
                let j = a0.inner.env.actions@.len() as int;
                assert(a1.inner.env.actions@[j] == OsAction::Unmap { ptr, size });
                assert(gave_blocks(a0.inner.env, a1.inner.env));
            }
            lemma_os_step(a0, a1, 0, 0);
            assert(traded(a0.inner.env, a1.inner.env)) by {
                reveal(traded);
                assert(a1.inner.env.actions@[n] == OsAction::Unmap { ptr, size });
            }
            lemma_sizes_counted(a0, a1, a2, (0, 0));
            lemma_taken_over(a0, none, a2, none, ptr as int, size as int);
            lemma_spare(a0, a2);
        }
        proof {
            let used = a0.inner.env.used_replies as int;
            lemma_mapped(a0.inner.env.replies@, used, used, used);
            assert forall|key: usize| #[trigger] a2.inner.count_of(key) == a0.inner.count_of(key) - (
            if key == size && a0.inner.count_of(key) > 0 {
                1int
            } else {
                0
            }) by {
                assert(a1.inner.count_of(key) == a0.inner.count_of(key));
            }
        }
        if self.inner.has_spare_map_node() {
            let node: usize = self.inner.take_map_node();
            let ghost a3 = *self;
            proof {
                lemma_class_of(192);
                lemma_block_given_up(a2, a3, node as int, 192);
                lemma_step(a0, none, a2, none, a3, none, (0, 0, 0, 0), (0, 0, node as int, 192));
                lemma_spare(a0, a3);
            }
            let r = self.dealloc_common(node, MAP_NODE_SIZE);
            proof {
                assert(unmapped_next(a0, *self, ptr, size)) by {
                    reveal(follows);
                    assert(follows(a3.inner.env, self.inner.env));
                    assert(self.inner.env.actions@[n] == a3.inner.env.actions@[n]);
                }
                match r {
                    Ok(()) => {
                        assert(counted_one_less(a0, *self, size)) by {
                            reveal(traded);
                            reveal(follows);
                            assert(keeps_sizes(a3, *self));
                            if !traded(a3.inner.env, self.inner.env) {
                                assert forall|key: usize|
                                    key != 2 * a0.inner.env.region_size - 1 implies #[trigger]
                                    self.inner.count_of(key) == a0.inner.count_of(key) - (if key
                                    == size && a0.inner.count_of(key) > 0 {
                                    1int
                                } else {
                                    0
                                }) by {
                                    assert(self.inner.count_of(key) == a3.inner.count_of(key));
                                    assert(a3.inner.count_of(key) == a2.inner.count_of(key));
                                }
                                assert(!gave_blocks(a3.inner.env, self.inner.env));
                            }
                        }
                        lemma_step(
                            a0,
                            none,
                            a3,
                            none,
                            *self,
                            none,
                            (0, 0, node as int, 192),
                            (node as int, 192, 0, 0),
                        );
                        lemma_taken_over(a0, none, *self, none, ptr as int, size as int);
                    },
                    Err(_) => {
                        lemma_broke_after(
                            a0,
                            none,
                            a3,
                            none,
                            *self,
                            (0, 0, node as int, 192),
                            (node as int, 192),
                        );
                        lemma_more_given(a0, none, *self, ptr as int, size as int);
                    },
                }
            }
            return r;
        }
        Ok(())
    }

    /// Takes memory of the allocator itself back.
    pub fn self_dealloc_(&mut self, ptr: usize, size: usize, state: &mut Option<State>) -> (r: Result<
        (),
        PanicCause,
    >)
        requires
            ready(*old(self), *old(state)),
            size > LARGE_SIZE_MAX || is_object_size(size as int),
            ptr > 0,
            ptr + size <= usize::MAX,
        ensures
            done(
                *old(self),
                *old(state),
                *final(self),
                *final(state),
                ptr as int,
                size as int,
                r,
            ),
            size <= LARGE_SIZE_MAX && *old(state) is None ==> gave_back(
                *old(self),
                *final(self),
                class_of(size as int),
                ptr,
                r,
            ),
            size <= LARGE_SIZE_MAX && *old(state) is Some ==> pushed_back(
                *old(self),
                *old(state),
                *final(self),
                *final(state),
                class_of(size as int),
                ptr,
                r,
            ),
            size > LARGE_SIZE_MAX && old(self).count_after_stays(size) ==> r is Ok
                && gave_back_extra_large(*old(self), *final(self), ptr, size),
            size > LARGE_SIZE_MAX ==> unmapped_next(*old(self), *final(self), ptr, size),
            size > LARGE_SIZE_MAX && r is Ok ==> counted_one_less(*old(self), *final(self), size),
            size > LARGE_SIZE_MAX || *old(state) is None ==> *final(state) == *old(state),
        decreases
                old(self).unread(),
                chunks_left(*old(self), *old(state)),
                old(self).incoming().len(),
                old(self).spare(),
                56int,
    {
        let ghost a0 = *self;
        let ghost s0 = *state;
        proof {
            lemma_spare(a0, a0);
            if size <= LARGE_SIZE_MAX {
                lemma_class_of(size as int);
            }
        }
        match SizeClass::define(size) {
            SizeClass::ExtraLarge => {
                let r = self.dealloc_extra_large(ptr, size);
                proof {
                    lemma_lift(a0, *self, s0, (ptr as int, size as int, 0, 0));
                }
                return r;
            },
            SizeClass::Common => {
                if state.is_none() {
                    return self.dealloc_common(ptr, size);
                }
            },
            SizeClass::Large => {
                if state.is_none() {
                    return self.dealloc_large(ptr, size);
                }
            },
        }
        let class: usize = size_to_class(size);
        match self.push(class, ptr, false, state) {
            Ok(true) => {
                proof {
                    lemma_given_back(a0, s0, *self, *state, class as int);
                }
                Ok(())
            },
            Ok(false) => {
                proof {
                    lemma_broke(a0, s0, *self, *state, (0, 0, 0, 0));
                    lemma_more_given(a0, s0, *self, ptr as int, size as int);
                }
                Err(PanicCause::ReturnedPointer)
            },
            Err(cause) => Err(cause),
        }
    }

    /// Takes a block back that was handed out for a request of `size` bytes.
    pub fn dealloc(&mut self, ptr: usize, size: usize) -> (r: Result<(), PanicCause>)
        requires
            old(self).wf(),
            size > 0,
            ptr > 0,
            ptr + recommended(size as int) <= usize::MAX,
        ensures
            done(
                *old(self),
                None,
                *final(self),
                None,
                ptr as int,
                recommended(size as int),
                r,
            ),
            r is Ok && owns(*old(self)) && (size <= LARGE_SIZE_MAX ==> is_own(*old(self), ptr))
                ==> owns(*final(self)) && forall|p: usize|
                is_own(*old(self), p) ==> #[trigger] is_own(*final(self), p),
            size <= LARGE_SIZE_MAX ==> gave_back(
                *old(self),
                *final(self),
                class_of(size as int),
                ptr,
                r,
            ),
            size > LARGE_SIZE_MAX && old(self).count_after_stays(size) ==> r is Ok
                && gave_back_extra_large(*old(self), *final(self), ptr, size),
            size > LARGE_SIZE_MAX ==> unmapped_next(*old(self), *final(self), ptr, size),
            size > LARGE_SIZE_MAX && r is Ok ==> counted_one_less(*old(self), *final(self), size),
        decreases
                old(self).unread(),
                chunks_left(*old(self), None),
                old(self).incoming().len(),
                old(self).spare(),
                58int,
    {
        proof {
            lemma_spare(*self, *self);
        }
        let ghost a0 = *self;
        let r = match SizeClass::define(size) {
            SizeClass::Common => self.dealloc_common(ptr, size),
            SizeClass::Large => self.dealloc_large(ptr, size),
            SizeClass::ExtraLarge => self.dealloc_extra_large(ptr, size),
        };
        proof {
            if size > LARGE_SIZE_MAX {
                law_recommended_is_idempotent(size as int);
            }
            if r is Ok && owns(a0) && (size <= LARGE_SIZE_MAX ==> is_own(a0, ptr)) {
                lemma_hands_out_own(a0, *self, (ptr as int, recommended(size as int)), (0, 0));
            }
        }
        r
    }

    /// Whether the map of extra large sizes needs all its nodes after a block of the size is given
    /// back.
    pub open spec fn count_after_stays(self, size: usize) -> bool {
        let entries = self.inner.allocated_large_sizes.entries@.len() as int;
        self.inner.allocated_large_sizes.nodes@.len() <= nodes_for(
            if self.inner.count_of(size) == 1 {
                entries - 1
            } else {
                entries
            },
        )
    }
}

} // verus!
