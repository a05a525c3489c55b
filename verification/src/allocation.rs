//! How memory is handed out.
use crate::accounts::{
    bound_hit, calm, chunks_left, failed, has_nothing, has_tables, is_counted, is_set_up,
    keeps_sizes, lemma_alike, lemma_broke, lemma_broke_after, lemma_has_nothing, lemma_set_up_same,
    lemma_spare, lemma_spared, lemma_step, live, served, slack, spared,
};
use crate::btree_map::{lemma_map_of, MAP_NODE_SIZE};
use crate::carving::{cache_is_empty, carved_next, carves_next, has_come_back, took_what_came_back};
use crate::chunks::{managed, only_refused, refused_region};
use crate::failures::{PanicCause, Refusal};
use crate::inner::{ThreadLocalAllocatorInner, MAX_MAP_NODES};
use crate::non_local_ptr_manager::NonLocalPtrManager;
use crate::os::{
    follows, left_pending, lemma_mapped, lemma_region_bytes, lemma_starved, lemma_traded, mapped,
    missed_great_block, misused, refused_by_limit, reply_serves_region, short, starved, traded,
    traded_since, Environment,
};
use crate::ownership::{hands_out_own, lemma_hands_out_own, owns};
use crate::sizes::{
    class_of, class_size, lemma_class, lemma_class_of, recommended, size_to_class, SizeClass,
    LARGE_SIZE_MAX,
};
use crate::state::{can_take_region, State};
use crate::steps::{
    lemma_block_kept, lemma_os_step, lemma_popped, lemma_sizes_counted, lemma_spared_refusal,
};
use crate::thread_local_allocator::ThreadLocalAllocator;
use crate::vectors::only_elems_changed;
use vstd::prelude::*;

verus! {

/// Whether an extra large block can be counted without more memory.
pub open spec fn can_count<N: NonLocalPtrManager>(a: ThreadLocalAllocator<N>, size: usize) -> bool {
    &&& a.inner.count_of(size) < usize::MAX
    &&& a.inner.allocated_large_sizes@.contains_key(size)
        || a.inner.allocated_large_sizes.entries@.len() < 11
        * a.inner.allocated_large_sizes.nodes@.len()
}

/// What the operating system answers to a request for `size` bytes; nothing where it turns the
/// request down.
pub open spec fn os_answer(env: Environment, size: usize) -> Option<usize> {
    let reply = env.replies@[env.used_replies as int];
    if env.unread() > 0 && reply.0 != 0 && reply.1 == size && reply.0 + size <= usize::MAX {
        Some(reply.0)
    } else {
        None
    }
}

/// Whether the request for a great block is the one that is left pending: memory of its size that can
/// be read and written.
pub open spec fn asks_for_block(e0: Environment, e1: Environment, size: usize) -> bool {
    left_pending(e0, e1, size as int, true)
}

/// A great block can be read and written: it is handed out from a mapping that was asked for as such.
/// Where the operating system has not answered yet, the request that is left is for exactly the bytes
/// of the block, to be made readable and writable; where the mapping is made, and the operation is
/// repeated, the operating system answers with it.
pub proof fn law_great_block_can_be_written(
    e0: Environment,
    e1: Environment,
    answered: Environment,
    size: usize,
    ptr: usize,
)
    requires
        e0.wf(),
        e0.unread() == 0,
        e0.pending is None,
        asks_for_block(e0, e1, size),
        answered.replies@ == e0.replies@.push((ptr, e1.pending->0.size)),
        answered.used_replies == e0.used_replies,
        ptr != 0,
        ptr + size <= usize::MAX,
    ensures
        e1.pending is Some,
        e1.pending->0.commit,
        e1.pending->0.size == size,
        os_answer(answered, size) == Some(ptr),
{
}

/// What a request for an extra large block does where it can be counted without more memory: it is
/// answered by the operating system if the limit has room for it. An answer counts, be it that
/// the request was turned down.
pub open spec fn took_extra_large<N: NonLocalPtrManager>(
    a0: ThreadLocalAllocator<N>,
    a1: ThreadLocalAllocator<N>,
    size: usize,
    r: Option<usize>,
) -> bool {
    let limit = a0.inner.env.limit;
    &&& a1.inner == (ThreadLocalAllocatorInner {
        env: a1.inner.env,
        allocated_large_sizes: a1.inner.allocated_large_sizes,
        ..a0.inner
    })
    &&& a1.inner.env.metadata == a0.inner.env.metadata
    &&& a1.inner.allocated_large_sizes.nodes == a0.inner.allocated_large_sizes.nodes
    &&& if !limit.has_room_for(size) {
        &&& r is None
        &&& a1.inner.allocated_large_sizes@ == a0.inner.allocated_large_sizes@
        &&& a1.inner.env.limit == limit
        &&& a1.inner.env.used_replies == a0.inner.env.used_replies
    } else {
        &&& r == os_answer(a0.inner.env, size)
        &&& a1.inner.allocated_large_sizes@ == a0.inner.allocated_large_sizes@.insert(
            size,
            (a0.inner.count_of(size) + 1) as usize,
        )
        &&& a1.inner.allocated_large_sizes.entries@.len()
            == a0.inner.allocated_large_sizes.entries@.len() + (
        if a0.inner.allocated_large_sizes@.contains_key(size) {
            0int
        } else {
            1
        })
        &&& a1.inner.env.limit.limit == limit.limit
        &&& a1.inner.env.limit.allocated == if r is Some {
            limit.allocated + size
        } else {
            limit.allocated as int
        }
    }
}

/// A block that the operating system was asked for is counted where it was mapped.
proof fn lemma_asked(e0: Environment, e1: Environment, size: usize, is_mapped: bool)
    requires
        e0.wf(),
        e1.replies == e0.replies,
        e1.region_size == e0.region_size,
        e0.used_replies <= e1.used_replies <= e0.used_replies + 1,
        e0.actions == e1.actions,
        e0.refusals@.is_prefix_of(e1.refusals@),
        e0.pending is Some ==> e1.pending == e0.pending,
        e1.outbox == e0.outbox,
        e1.limit.limit == e0.limit.limit,
        is_mapped ==> e0.used_replies < e0.replies@.len() && e1.limit.allocated == e0.limit.allocated + size && e1.used_replies
            == e0.used_replies + 1 && e0.replies@[e0.used_replies as int].1 == size,
        !is_mapped ==> e0.refusals@.len() < e1.refusals@.len() && e1.refusals@.last() is Os,
        !is_mapped ==> e1.limit.allocated == e0.limit.allocated && starved(e0, e1) && (misused(
            e0,
            e1,
        ) || e1.used_replies == e0.used_replies && e1.pending is Some),
    ensures
        follows(e0, e1),
        !is_mapped ==> short(e0, e1),
{
    reveal(follows);
    reveal(short);
    if !is_mapped {
        let j = e1.refusals@.len() - 1;
        assert(e1.refusals@[j] is Os);
    }
    let used = e0.used_replies as int;
    lemma_region_bytes(e0.region_size, 0, 1);
    if e1.used_replies > used && !reply_serves_region(e0.replies@, e0.region_size, used) {
        assert(!reply_serves_region(e1.replies@, e1.region_size, used));
    }
    lemma_mapped(e0.replies@, used, used, e1.used_replies as int);
    if is_mapped {
        assert(mapped(e0.replies@, used, used) == 0);
        assert(mapped(e0.replies@, used, used + 1) == e0.replies@[used].1);
    }
}

/// A block that the operating system was asked for can be told from a region.
proof fn lemma_asked_for_block(e0: Environment, e1: Environment, size: usize, is_mapped: bool)
    requires
        size != 2 * e0.region_size - 1,
        e1.replies == e0.replies,
        e1.region_size == e0.region_size,
        is_mapped ==> e0.used_replies < e0.replies@.len() && e1.used_replies == e0.used_replies + 1
            && e0.replies@[e0.used_replies as int].1 == size,
        !is_mapped ==> e1.refusals@ == e0.refusals@.push(Refusal::Os(size)),
    ensures
        traded(e0, e1),
{
    reveal(traded);
    if is_mapped {
        assert(!reply_serves_region(e1.replies@, e1.region_size, e0.used_replies as int));
    } else {
        let j = e0.refusals@.len() as int;
        assert(e1.refusals@[j] == Refusal::Os(size));
    }
}

/// What is counted after a request for an extra large block that the limit has room for: one more of
/// its size, and as many as before of all others, unless the allocator has traded such a block for
/// itself meanwhile. A block of the size that regions are mapped with cannot be told from a region.
pub open spec fn counted_one_more<N: NonLocalPtrManager>(
    a0: ThreadLocalAllocator<N>,
    a1: ThreadLocalAllocator<N>,
    size: usize,
    is_mapped: bool,
) -> bool {
    let e0 = a0.inner.env;
    traded_since(
        a1.inner.env,
        if e0.unread() > 0 {
            e0.used_replies + 1
        } else {
            e0.used_replies as int
        },
        if is_mapped {
            e0.refusals@.len() as int
        } else {
            e0.refusals@.len() as int + 1
        },
        e0.actions@.len() as int,
    ) || forall|key: usize|
        key != 2 * e0.region_size - 1 ==> #[trigger] a1.inner.count_of(key) == a0.inner.count_of(
            key,
        ) + (if key == size {
            1int
        } else {
            0
        })
}

impl<N: NonLocalPtrManager> ThreadLocalAllocator<N> {
    /// Makes room in the map of extra large sizes.
    pub(crate) fn make_room_for_size(&mut self, size: usize) -> (r: Result<(), PanicCause>)
        requires
            old(self).wf(),
        ensures
            managed(*old(self), None, *final(self), None, r),
            r is Ok ==> calm(*old(self), None, *final(self), None),
            r is Ok && is_set_up(*old(self)) ==> has_tables(*final(self)),
            r is Ok ==> final(self).inner.allocated_large_sizes@.contains_key(size)
                || final(self).inner.allocated_large_sizes.entries@.len() < 11 * final(self).inner.allocated_large_sizes.nodes@.len(),
            old(self).inner.allocated_large_sizes@.contains_key(size)
                || old(self).inner.allocated_large_sizes.entries@.len() < 11 * old(self).inner.allocated_large_sizes.nodes@.len() ==> r is Ok && *final(self) == *old(self),
        decreases
                old(self).unread(),
                chunks_left(*old(self), None),
                old(self).incoming().len(),
                old(self).spare(),
                32int,
    {
        let ghost a0 = *self;
        let ghost none = None::<State>;
        proof {
            lemma_spare(a0, a0);
            lemma_alike(a0, none, none);
            lemma_class_of(192);
            if has_nothing(a0) {
                lemma_has_nothing(a0);
                lemma_map_of(a0.inner.allocated_large_sizes.entries@);
            }
        }
        if self.inner.has_room_for_size(size) {
            return Ok(());
        }
        let mut no_state: Option<State> = None;
        let node: usize = match self.self_alloc_(MAP_NODE_SIZE, true, &mut no_state) {
            Ok(Some(node)) => node,
            Ok(None) => {
                proof {
                    lemma_broke(a0, none, *self, none, (0, 0, 0, 0));
                }
                return Err(PanicCause::SizeCount);
            },
            Err(cause) => {
                return Err(cause);
            },
        };
        let ghost a1 = *self;
        let ghost ptr = node as int;
        if self.inner.allocated_large_sizes.nodes.len() >= MAX_MAP_NODES {
            proof {
                lemma_broke(a0, none, *self, none, (0, 0, ptr, 192));
                reveal(bound_hit);
            }
            return Err(PanicCause::CapacityOverflow);
        }
        self.inner.add_map_node(node);
        proof {
            lemma_block_kept(a1, none, *self, ptr, 192);
            lemma_step(a0, none, a1, none, *self, none, (0, 0, ptr, 192), (ptr, 192, 0, 0));
            assert(calm(a1, none, *self, none));
        }
        Ok(())
    }

    /// Takes a block that is too large for a chunk from the operating system.
    pub(crate) fn alloc_extra_large(&mut self, size: usize) -> (r: Result<Option<usize>, PanicCause>)
        requires
            old(self).wf(),
            size > LARGE_SIZE_MAX,
        ensures
            served(*old(self), None, *final(self), None, size as int, r, true),
            r is Ok ==> hands_out_own(*old(self), *final(self), size as int, r->Ok_0),
            r == Ok::<Option<usize>, PanicCause>(None) ==> spared(
                *old(self),
                None,
                *final(self),
                None,
            ),
            is_set_up(*old(self)) && (r is Ok && r->Ok_0 is Some) ==> has_tables(*final(self)),
            is_set_up(*old(self)) && r is Ok ==> is_set_up(*final(self)),
            r is Ok ==> calm(*old(self), None, *final(self), None),
            can_count(*old(self), size) ==> r is Ok && took_extra_large(
                *old(self),
                *final(self),
                size,
                r->Ok_0,
            ),
            !old(self).inner.env.limit.has_room_for(size) ==> r == Ok::<Option<usize>, PanicCause>(
                None,
            ) && only_refused(*old(self), *final(self), true),
            old(self).inner.env.limit.has_room_for(size) && r is Ok
                ==> final(self).inner.count_of(size) >= 1,
            old(self).inner.env.limit.has_room_for(size) ==> asks_for_block(
                old(self).inner.env,
                final(self).inner.env,
                size,
            ),
            old(self).inner.env.limit.has_room_for(size) && r is Ok ==> counted_one_more(
                *old(self),
                *final(self),
                size,
                r->Ok_0 is Some,
            ),
        decreases
                old(self).unread(),
                chunks_left(*old(self), None),
                old(self).incoming().len(),
                old(self).spare(),
                33int,
    {
        let ghost a0 = *self;
        let ghost none = None::<State>;
        if !self.inner.env.limit.may_allocate(size) {
            self.inner.env.refusals.push(Refusal::Limit(size));
            proof {
                assert(self.inner.env.pool(0) == a0.inner.env.pool(0));
                reveal(follows);
                reveal(short);
                let j = a0.inner.env.refusals@.len() as int;
                assert(self.inner.env.refusals@[j] == Refusal::Limit(size));
                let used = a0.inner.env.used_replies as int;
                lemma_mapped(a0.inner.env.replies@, used, used, used);
                assert(refused_by_limit(a0.inner.env, self.inner.env));
                lemma_os_step(a0, *self, 0, 0);
                lemma_spared_refusal(a0, *self);
                lemma_set_up_same(a0, *self);
                lemma_served_own(a0, *self, size as int, None);
            }
            return Ok(None);
        }
        let ghost counted = self.inner.env;
        let ptr: Option<usize> = self.inner.env.alloc_from_os(size, true);
        let ghost asked = self.inner.env;
        if ptr.is_none() {
            self.inner.env.limit.mark_deallocated(size);
        }
        let ghost a1 = *self;
        let ghost got = if ptr is Some {
            (ptr->0 as int, size as int)
        } else {
            (0, 0)
        };
        proof {
            reveal(follows);
            if ptr is None {
                assert(missed_great_block(counted, asked) ==> missed_great_block(
                    a0.inner.env,
                    a1.inner.env,
                ));
                assert(starved(counted, asked));
                lemma_starved(counted, asked, a0.inner.env, a1.inner.env);
                assert(a1.inner.env.limit.allocated == a0.inner.env.limit.allocated);
            }
            assert(asks_for_block(a0.inner.env, a1.inner.env, size));
            lemma_asked(a0.inner.env, a1.inner.env, size, ptr is Some);
            lemma_os_step(a0, a1, got.0, got.1);
            lemma_spare(a0, a1);
            if has_nothing(a0) {
                assert forall|slot: int| 0 <= slot < 435 implies #[trigger] a1.cap_of(slot)
                    == 0 by {
                    assert(a0.cap_of(slot) == 0);
                }
            }
        }
        match self.make_room_for_size(size) {
            Ok(()) => {},
            Err(cause) => {
                proof {
                    lemma_broke_after(a0, none, a1, none, *self, (0, 0, got.0, got.1), (0, 0));
                }
                return Err(cause);
            },
        }
        let ghost a2 = *self;
        proof {
            lemma_step(a0, none, a1, none, a2, none, (0, 0, got.0, got.1), (0, 0, 0, 0));
            if size != 2 * a0.inner.env.region_size - 1 {
                lemma_asked_for_block(a0.inner.env, a1.inner.env, size, ptr is Some);
                lemma_traded(a0.inner.env, a1.inner.env, a2.inner.env);
            }
        }
        match self.inner.count_size(size) {
            Ok(()) => {},
            Err(cause) => {
                proof {
                    lemma_broke(a0, none, a2, none, (0, 0, got.0, got.1));
                    reveal(bound_hit);
                    assert(a2.inner.count_of(size) == usize::MAX);
                }
                return Err(cause);
            },
        }
        proof {
            lemma_sizes_counted(a0, a2, *self, got);
            if ptr is None {
                lemma_spared_refusal(a0, a1);
                lemma_spared(a0, none, a1, none, a2, none);
                assert(spared(a0, none, *self, none)) by {
                    reveal(spared);
                    assert(self.inner.parts() == a2.inner.parts());
                    assert(self.incoming() == a2.incoming());
                    assert forall|class: int| 0 <= class < 216 && is_counted(*self) implies
                        #[trigger] live(*self, none, class) + 8192 <= live(a0, none, class) + slack(
                        a0,
                        *self,
                    ) by {
                        assert(live(a2, none, class) + 8192 <= live(a0, none, class) + slack(
                            a0,
                            a2,
                        ));
                        assert(self.live(class) == a2.live(class));
                    }
                }
            }
            lemma_served_own(a0, *self, size as int, ptr);
            assert(counted_one_more(a0, *self, size, ptr is Some)) by {
                reveal(traded);
                assert(keeps_sizes(a1, a2));
                if !traded(a1.inner.env, a2.inner.env) {
                    assert forall|key: usize|
                        key != 2 * a0.inner.env.region_size - 1 implies #[trigger]
                        self.inner.count_of(key) == a0.inner.count_of(key) + (if key == size {
                        1int
                    } else {
                        0
                    }) by {
                        assert(a2.inner.count_of(key) == a1.inner.count_of(key));
                        assert(a1.inner.count_of(key) == a0.inner.count_of(key));
                    }
                }
            }
        }
        Ok(ptr)
    }

    /// Takes an object of a class: a free one, or one of a chunk that is carved for it.
    pub(crate) fn alloc_of_class(&mut self, class: usize) -> (r: Result<Option<usize>, PanicCause>)
        requires
            old(self).wf(),
            class < 216,
        ensures
            served(*old(self), None, *final(self), None, class_size(class as int), r, true),
            r is Ok ==> hands_out_own(*old(self), *final(self), class_size(class as int), r->Ok_0),
            is_set_up(*old(self)) && (r is Ok && r->Ok_0 is Some) ==> has_tables(*final(self)),
            is_set_up(*old(self)) && r is Ok ==> is_set_up(*final(self)),
            old(self).len_of(class as int) == 0 && N::auto_check_spec() && has_come_back(
                *old(self),
                class as int,
            ) ==> took_what_came_back(*old(self), *final(self), class as int, r),
            old(self).len_of(class as int) > 0 ==> popped_last(
                *old(self),
                *final(self),
                class as int,
                r,
            ),
            carves_next(*old(self), class as int) ==> carved_next(
                *old(self),
                *final(self),
                class as int,
                r,
            ),
            cache_is_empty(*old(self), class as int) && !can_take_region(old(self).inner.env, true)
                ==> r == Ok::<Option<usize>, PanicCause>(None) && refused_region(
                *old(self),
                *final(self),
                true,
            ),
        decreases
                old(self).unread(),
                chunks_left(*old(self), None),
                old(self).incoming().len(),
                old(self).spare(),
                34int,
    {
        let ghost a0 = *self;
        proof {
            lemma_spare(a0, a0);
        }
        proof {
            if has_nothing(a0) {
                lemma_has_nothing(a0);
                assert(a0.len_of(class as int) == 0);
            }
        }
        match self.pop(class) {
            Some(ptr) => {
                proof {
                    lemma_popped(a0, None, *self, class as int, ptr);
                    lemma_served_own(a0, *self, class_size(class as int), Some(ptr));
                }
                return Ok(Some(ptr));
            },
            None => {},
        }
        let mut no_state: Option<State> = None;
        let r = self.alloc_slow(false, true, class, &mut no_state);
        proof {
            if r is Ok {
                lemma_served_own(a0, *self, class_size(class as int), r->Ok_0);
            }
        }
        r
    }

    /// Takes an object of a common size.
    pub(crate) fn alloc_common(&mut self, size: usize) -> (r: Result<Option<usize>, PanicCause>)
        requires
            old(self).wf(),
            1 <= size <= 1024,
        ensures
            served(*old(self), None, *final(self), None, recommended(size as int), r, true),
            r is Ok ==> hands_out_own(*old(self), *final(self), recommended(size as int), r->Ok_0),
            is_set_up(*old(self)) && (r is Ok && r->Ok_0 is Some) ==> has_tables(*final(self)),
            is_set_up(*old(self)) && r is Ok ==> is_set_up(*final(self)),
            old(self).len_of(class_of(size as int)) == 0 && N::auto_check_spec() && has_come_back(
                *old(self),
                class_of(size as int),
            ) ==> took_what_came_back(*old(self), *final(self), class_of(size as int), r),
            old(self).len_of(class_of(size as int)) > 0 ==> popped_last(
                *old(self),
                *final(self),
                class_of(size as int),
                r,
            ),
            carves_next(*old(self), class_of(size as int)) ==> carved_next(
                *old(self),
                *final(self),
                class_of(size as int),
                r,
            ),
            cache_is_empty(*old(self), class_of(size as int)) && !can_take_region(
                old(self).inner.env,
                true,
            ) ==> r == Ok::<Option<usize>, PanicCause>(None) && refused_region(
                *old(self),
                *final(self),
                true,
            ),
        decreases
                old(self).unread(),
                chunks_left(*old(self), None),
                old(self).incoming().len(),
                old(self).spare(),
                35int,
    {
        proof {
            lemma_spare(*self, *self);
        }
        let class: usize = size_to_class(size);
        self.alloc_of_class(class)
    }

    /// Takes an object of a large size.
    pub(crate) fn alloc_large(&mut self, size: usize) -> (r: Result<Option<usize>, PanicCause>)
        requires
            old(self).wf(),
            1024 < size <= LARGE_SIZE_MAX,
        ensures
            served(*old(self), None, *final(self), None, recommended(size as int), r, true),
            r is Ok ==> hands_out_own(*old(self), *final(self), recommended(size as int), r->Ok_0),
            is_set_up(*old(self)) && (r is Ok && r->Ok_0 is Some) ==> has_tables(*final(self)),
            is_set_up(*old(self)) && r is Ok ==> is_set_up(*final(self)),
            old(self).len_of(class_of(size as int)) == 0 && N::auto_check_spec() && has_come_back(
                *old(self),
                class_of(size as int),
            ) ==> took_what_came_back(*old(self), *final(self), class_of(size as int), r),
            old(self).len_of(class_of(size as int)) > 0 ==> popped_last(
                *old(self),
                *final(self),
                class_of(size as int),
                r,
            ),
            carves_next(*old(self), class_of(size as int)) ==> carved_next(
                *old(self),
                *final(self),
                class_of(size as int),
                r,
            ),
            cache_is_empty(*old(self), class_of(size as int)) && !can_take_region(
                old(self).inner.env,
                true,
            ) ==> r == Ok::<Option<usize>, PanicCause>(None) && refused_region(
                *old(self),
                *final(self),
                true,
            ),
        decreases
                old(self).unread(),
                chunks_left(*old(self), None),
                old(self).incoming().len(),
                old(self).spare(),
                35int,
    {
        proof {
            lemma_spare(*self, *self);
        }
        let class: usize = size_to_class(size);
        self.alloc_of_class(class)
    }

    /// Takes a block of at least `size` bytes. Nothing is returned where memory was refused.
    pub fn try_alloc(&mut self, size: usize) -> (r: Result<Option<usize>, PanicCause>)
        requires
            old(self).wf(),
            size > 0,
        ensures
            served(*old(self), None, *final(self), None, recommended(size as int), r, true),
            r is Ok ==> hands_out_own(*old(self), *final(self), recommended(size as int), r->Ok_0),
            is_set_up(*old(self)) && (r is Ok && r->Ok_0 is Some) ==> has_tables(*final(self)),
            is_set_up(*old(self)) && r is Ok ==> is_set_up(*final(self)),
            size <= LARGE_SIZE_MAX && old(self).len_of(class_of(size as int)) == 0
                && N::auto_check_spec() && has_come_back(*old(self), class_of(size as int))
                ==> took_what_came_back(*old(self), *final(self), class_of(size as int), r),
            size <= LARGE_SIZE_MAX && old(self).len_of(class_of(size as int)) > 0 ==> popped_last(
                *old(self),
                *final(self),
                class_of(size as int),
                r,
            ),
            size <= LARGE_SIZE_MAX && carves_next(*old(self), class_of(size as int))
                ==> carved_next(
                *old(self),
                *final(self),
                class_of(size as int),
                r,
            ),
            size <= LARGE_SIZE_MAX && cache_is_empty(*old(self), class_of(size as int))
                && !can_take_region(old(self).inner.env, true) ==> r == Ok::<
                Option<usize>,
                PanicCause,
            >(None) && refused_region(*old(self), *final(self), true),
            size > LARGE_SIZE_MAX && !old(self).inner.env.limit.has_room_for(size) ==> r == Ok::<
                Option<usize>,
                PanicCause,
            >(None) && only_refused(*old(self), *final(self), true),
            size > LARGE_SIZE_MAX && old(self).inner.env.limit.has_room_for(size) && r is Ok
                ==> final(self).inner.count_of(size) >= 1,
            size > LARGE_SIZE_MAX && old(self).inner.env.limit.has_room_for(size) ==> asks_for_block(
                old(self).inner.env,
                final(self).inner.env,
                size,
            ),
            size > LARGE_SIZE_MAX && old(self).inner.env.limit.has_room_for(size) && r is Ok
                ==> counted_one_more(*old(self), *final(self), size, r->Ok_0 is Some),
            size > LARGE_SIZE_MAX && can_count(*old(self), size) ==> r is Ok && took_extra_large(
                *old(self),
                *final(self),
                size,
                r->Ok_0,
            ),
        decreases
                old(self).unread(),
                chunks_left(*old(self), None),
                old(self).incoming().len(),
                old(self).spare(),
                36int,
    {
        proof {
            lemma_spare(*self, *self);
        }
        match SizeClass::define(size) {
            SizeClass::Common => self.alloc_common(size),
            SizeClass::Large => self.alloc_large(size),
            SizeClass::ExtraLarge => self.alloc_extra_large(size),
        }
    }

    /// Takes a block of at least `size` bytes. It is a failure that memory was refused.
    pub fn alloc_or_panic(&mut self, size: usize) -> (r: Result<usize, PanicCause>)
        requires
            old(self).wf(),
            size > 0,
        ensures
            match r {
                Ok(ptr) => served(
                    *old(self),
                    None,
                    *final(self),
                    None,
                    recommended(size as int),
                    Ok::<Option<usize>, PanicCause>(Some(ptr)),
                    true,
                ),
                Err(cause) => failed(*old(self), None, *final(self), 0, 0, cause),
            },
            r matches Ok(ptr) ==> hands_out_own(
                *old(self),
                *final(self),
                recommended(size as int),
                Some(ptr),
            ),
            is_set_up(*old(self)) && r is Ok ==> has_tables(*final(self)),
            size > LARGE_SIZE_MAX && r is Ok ==> counted_one_more(
                *old(self),
                *final(self),
                size,
                true,
            ) && final(self).inner.count_of(size) >= 1,
            size > LARGE_SIZE_MAX && old(self).inner.env.limit.has_room_for(size) ==> asks_for_block(
                old(self).inner.env,
                final(self).inner.env,
                size,
            ),
            size <= LARGE_SIZE_MAX && old(self).len_of(class_of(size as int)) == 0
                && N::auto_check_spec() && has_come_back(*old(self), class_of(size as int)) ==> r
                is Ok && took_what_came_back(
                *old(self),
                *final(self),
                class_of(size as int),
                Ok::<Option<usize>, PanicCause>(Some(r->Ok_0)),
            ),
            size <= LARGE_SIZE_MAX && old(self).len_of(class_of(size as int)) > 0 ==> r is Ok
                && popped_last(
                *old(self),
                *final(self),
                class_of(size as int),
                Ok::<Option<usize>, PanicCause>(Some(r->Ok_0)),
            ),
            size <= LARGE_SIZE_MAX && carves_next(*old(self), class_of(size as int)) ==> r is Ok
                && carved_next(
                *old(self),
                *final(self),
                class_of(size as int),
                Ok::<Option<usize>, PanicCause>(Some(r->Ok_0)),
            ),
            size <= LARGE_SIZE_MAX && cache_is_empty(*old(self), class_of(size as int))
                && !can_take_region(old(self).inner.env, true) ==> r == Err::<usize, PanicCause>(
                PanicCause::OutOfMemory,
            ) && refused_region(*old(self), *final(self), true),
            size > LARGE_SIZE_MAX && !old(self).inner.env.limit.has_room_for(size) ==> r == Err::<
                usize,
                PanicCause,
            >(PanicCause::OutOfMemory) && only_refused(*old(self), *final(self), true),
            size > LARGE_SIZE_MAX && can_count(*old(self), size) ==> {
                let answer = if old(self).inner.env.limit.has_room_for(size) {
                    os_answer(old(self).inner.env, size)
                } else {
                    None
                };
                &&& took_extra_large(*old(self), *final(self), size, answer)
                &&& match answer {
                    Some(ptr) => r == Ok::<usize, PanicCause>(ptr),
                    None => r == Err::<usize, PanicCause>(PanicCause::OutOfMemory),
                }
            },
    {
        let ghost a0 = *self;
        proof {
            if size <= LARGE_SIZE_MAX {
                lemma_class_of(size as int);
                lemma_class(class_of(size as int));
            }
        }
        match self.try_alloc(size) {
            Ok(Some(ptr)) => Ok(ptr),
            Ok(None) => {
                proof {
                    lemma_broke(a0, None, *self, None, (0, 0, 0, 0));
                }
                Err(PanicCause::OutOfMemory)
            },
            Err(cause) => Err(cause),
        }
    }
}

/// What is handed out belongs to the allocator.
proof fn lemma_served_own<N: NonLocalPtrManager>(
    a0: ThreadLocalAllocator<N>,
    a1: ThreadLocalAllocator<N>,
    size: int,
    got: Option<usize>,
)
    requires
        served(a0, None, a1, None, size, Ok::<Option<usize>, PanicCause>(got), false),
    ensures
        hands_out_own(a0, a1, size, got),
{
    if owns(a0) {
        match got {
            Some(ptr) => {
                lemma_hands_out_own(a0, a1, (0, 0), (ptr as int, size));
            },
            None => {
                lemma_hands_out_own(a0, a1, (0, 0), (0, 0));
            },
        }
    }
}

/// What taking the last free object of a class does, and that it was taken.
pub open spec fn popped_last<N: NonLocalPtrManager>(
    a0: ThreadLocalAllocator<N>,
    a1: ThreadLocalAllocator<N>,
    class: int,
    r: Result<Option<usize>, PanicCause>,
) -> bool {
    &&& r == Ok::<Option<usize>, PanicCause>(Some(a0.inner.vectors@[class]@.last()))
    &&& only_elems_changed(a0, a1)
    &&& a1.inner.vectors@ == a0.inner.vectors@.update(class, a1.inner.vectors@[class])
    &&& a1.inner.vectors@[class]@ == a0.inner.vectors@[class]@.drop_last()
}

} // verus!
