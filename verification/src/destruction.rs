//! The end of an allocator.
use crate::accounts::{bound_hit, broke, failed, holds, keeps, step, total};
use crate::blocks::covers;
use crate::chunk_manager::freed_regions;
use crate::failures::PanicCause;
use crate::info_for_size::{
    can_tell, info_of_class, law_out_is_what_is_not_free, lemma_objects_used, lemma_self_number,
    lemma_self_number_fits, objects_of_class, told, told_common, told_extra_large, told_large,
};
use crate::inner::{lemma_parts_cover_nonnegative, slot_wf, ThreadLocalAllocatorInner};
use crate::non_local_ptr_manager::{
    lemma_nodes_nonnegative, nodes_of_class, NonLocalPtrManager, MAX_OWN_BLOCKS,
};
use crate::os::{follows, lemma_follows, short, Environment};
use crate::self_blocks::{own_blocks_of, times_in};
use crate::sizes::{class_size, lemma_class, slots_of_class, SizeClass};
use crate::state::State;
use crate::thread_local_allocator::{is_fresh, ThreadLocalAllocator};
use vstd::prelude::*;

verus! {

/// Whether all objects of chunks serve the allocator itself.
pub open spec fn is_unused<N: NonLocalPtrManager>(a: ThreadLocalAllocator<N>) -> bool {
    forall|i: int|
        0 <= i < told(a).len() && (#[trigger] told(a)[i]).0 != SizeClass::ExtraLarge ==> told(a)[i].1.objects_used == told(a)[i].1.allocated_for_self_objects
}

/// Whether an allocator holds extra large blocks.
pub open spec fn has_extra_large<N: NonLocalPtrManager>(a: ThreadLocalAllocator<N>) -> bool {
    a.inner.allocated_large_sizes.entries@.len() > 0
}

/// What is left of an allocator whose memory was freed.
pub open spec fn is_freed<N: NonLocalPtrManager>(
    a0: ThreadLocalAllocator<N>,
    a1: ThreadLocalAllocator<N>,
) -> bool {
    &&& is_fresh(a1)
    &&& a1.inner.is_already_destructured
    &&& a1.ended_manager matches Some(manager) && manager.is_ended()
    &&& a1.inner.env.region_size == a0.inner.env.region_size
    &&& a0.inner.manager_ptr != 0 ==> freed_regions(a0.inner, a1.inner)
    &&& keeps(a0, None, a1, 0, 0)
}

/// Whether the memory of an allocator can be freed.
#[derive(Copy, Clone, Debug, PartialEq, Eq, Structural)]
pub enum Use {
    /// Some objects are in use.
    InUse,
    /// There are extra large blocks, which do not need the allocator to be given back.
    ExtraLarge,
    /// Nothing is in use.
    Unused,
}

/// What the destructor of an allocator has done.
pub enum Destruction<N: NonLocalPtrManager> {
    /// Nothing was to be done.
    Nothing,
    /// All memory was freed.
    Freed,
    /// Objects are in use: the allocator has moved, and is to be asked again.
    Moved(ThreadLocalAllocator<N>),
}

impl<N: NonLocalPtrManager> ThreadLocalAllocator<N> {
    /// Tells what of the allocator is in use.
    pub fn in_use(&self) -> (r: Use)
        requires
            can_tell(*self),
        ensures
            r is InUse <==> !is_unused(*self),
            r is ExtraLarge <==> is_unused(*self) && has_extra_large(*self),
            r is Unused <==> is_unused(*self) && !has_extra_large(*self),
    {
        let mut sizes = self.iter_allocated_size();
        let ghost every = told(*self);
        let ghost mut n: int = 0;
        proof {
            assert(every.skip(0) =~= every);
        }
        loop
            invariant
                sizes.wf(),
                *sizes.allocator == *self,
                can_tell(*self),
                every == told(*self),
                0 <= n <= every.len(),
                sizes.remaining() == every.skip(n),
                forall|i: int|
                    0 <= i < n ==> (#[trigger] every[i]).0 != SizeClass::ExtraLarge
                        && every[i].1.objects_used == every[i].1.allocated_for_self_objects,
            decreases sizes.remaining().len(),
        {
            let ghost before = sizes.remaining();
            match sizes.next() {
                Some((size_class, info)) => {
                    proof {
                        assert((size_class, info) == every[n]);
                        assert(every.skip(n + 1) =~= before.drop_first());
                    }
                    match size_class {
                        SizeClass::ExtraLarge => {
                            proof {
                                lemma_extra_large_is_last(*self, n);
                            }
                            return Use::ExtraLarge;
                        },
                        _ => {},
                    }
                    if info.objects_used != info.allocated_for_self_objects {
                        return Use::InUse;
                    }
                    proof {
                        n = n + 1;
                    }
                },
                None => {
                    proof {
                        if has_extra_large(*self) {
                            let k = told_common(*self, 0).len() + told_large(*self, 0).len();
                            assert(every[k as int] == told_extra_large(*self, 0)[0]);
                            assert(every[k as int].0 == SizeClass::ExtraLarge);
                        }
                    }
                    return Use::Unused;
                },
            }
        }
    }

    /// Frees all memory if no object is in use. It is an error that one is.
    ///
    /// An allocator that holds extra large blocks is left alone: they are given back without it.
    pub fn try_free_all_memory(&mut self) -> (r: Result<Result<(), ()>, PanicCause>)
        requires
            can_tell(*old(self)),
            !old(self).inner.is_already_destructured,
        ensures
            r is Ok && r->Ok_0 is Err <==> !is_unused(*old(self)),
            match r {
                Ok(Ok(())) => if has_extra_large(*old(self)) {
                    *final(self) == *old(self)
                } else {
                    is_freed(*old(self), *final(self))
                },
                Ok(Err(())) => *final(self) == *old(self),
                Err(cause) => {
                    &&& !has_extra_large(*old(self))
                    &&& failed(*old(self), None, *final(self), 0, 0, cause)
                },
            },
    {
        let ghost a0 = *self;
        match self.in_use() {
            Use::InUse => {
                return Ok(Err(()));
            },
            Use::ExtraLarge => {
                return Ok(Ok(()));
            },
            Use::Unused => {},
        }
        let mut no_state: Option<State> = None;
        match self.get_or_init_and_get_non_local_ptr_manager_ptr(&mut no_state) {
            Ok(_) => {},
            Err(cause) => {
                return Err(cause);
            },
        }
        let ghost a1 = *self;
        match &mut self.non_local_ptr_manager {
            Some(manager) => {
                manager.self_drop();
            },
            None => {},
        }
        let ghost a2 = *self;
        proof {
            assert(a2.incoming() == a1.incoming());
            assert(a2.inner == a1.inner);
        }
        match self.inner.free_all_memory() {
            Ok(()) => {},
            Err(cause) => {
                proof {
                    lemma_end_keeps(a0, a1, *self);
                    reveal(bound_hit);
                    assert(cause is CapacityOverflow ==> self.cap_of(434) > 0x3C0_0000);
                }
                return Err(cause);
            },
        }
        let ghost a3 = *self;
        let mut ended: Option<N> = None;
        core::mem::swap(&mut ended, &mut self.non_local_ptr_manager);
        self.set_deallocated();
        proof {
            lemma_end_keeps(a0, a1, a3);
            lemma_fresh_keeps(a0, a3, *self);
        }
        let ghost fresh = *self;
        self.ended_manager = ended;
        proof {
            lemma_ended_manager_is_nothing(fresh, *self);
        }
        Ok(Ok(()))
    }

    /// Ends the allocator: it has nothing any more.
    fn set_deallocated(&mut self)
        requires
            old(self).inner.env.wf(),
        ensures
            is_fresh(*final(self)),
            final(self).inner.env == old(self).inner.env,
            final(self).inner.is_already_destructured,
    {
        let mut env = Environment::new(self.inner.env.region_size);
        core::mem::swap(&mut env, &mut self.inner.env);
        let mut fresh: ThreadLocalAllocator<N> = ThreadLocalAllocator::new(env);
        fresh.inner.is_already_destructured = true;
        proof {
            lemma_mark_keeps_fresh(fresh);
        }
        *self = fresh;
    }

    /// Moves the allocator out, without the environment. What stays behind has ended.
    fn move_to_another_thread(&mut self) -> (r: ThreadLocalAllocator<N>)
        requires
            old(self).wf(),
        ensures
            r.wf(),
            r.inner == (ThreadLocalAllocatorInner { env: r.inner.env, ..old(self).inner }),
            r.non_local_ptr_manager == old(self).non_local_ptr_manager,
            is_fresh(*final(self)),
            final(self).inner.env == old(self).inner.env,
            final(self).inner.is_already_destructured,
    {
        let ghost a0 = *self;
        let mut env = Environment::new(self.inner.env.region_size);
        core::mem::swap(&mut env, &mut self.inner.env);
        let mut moved: ThreadLocalAllocator<N> = ThreadLocalAllocator::new(env);
        core::mem::swap(&mut moved, self);
        self.inner.is_already_destructured = true;
        proof {
            lemma_mark_keeps_fresh(*self);
            assert(moved.incoming() == a0.incoming());
            assert(moved.inner.parts() == a0.inner.parts());
        }
        moved
    }

    /// Ends an allocator, as when its thread ends. Nothing is done while the thread panics, nor
    /// for an allocator that has ended. Memory that is in use outlives the thread: the allocator
    /// moves to one that waits for it.
    pub fn destructor(&mut self, is_panicking: bool) -> (r: Result<Destruction<N>, PanicCause>)
        requires
            old(self).wf(),
            !is_panicking && !old(self).inner.is_already_destructured ==> can_tell(*old(self)),
        ensures
            is_panicking || old(self).inner.is_already_destructured ==> r is Ok && r->Ok_0 is Nothing
                && *final(self) == *old(self),
            !is_panicking && !old(self).inner.is_already_destructured ==> {
                &&& r is Ok && r->Ok_0 is Moved <==> !is_unused(*old(self))
                &&& match r {
                    Ok(Destruction::Nothing) => false,
                    Ok(Destruction::Freed) => if has_extra_large(*old(self)) {
                        *final(self) == *old(self)
                    } else {
                        is_freed(*old(self), *final(self))
                    },
                    Ok(Destruction::Moved(moved)) => {
                        &&& moved.wf()
                        &&& moved.inner == (ThreadLocalAllocatorInner {
                            env: moved.inner.env,
                            ..old(self).inner
                        })
                        &&& moved.non_local_ptr_manager == old(self).non_local_ptr_manager
                        &&& is_fresh(*final(self))
                        &&& final(self).inner.env == old(self).inner.env
                        &&& final(self).inner.is_already_destructured
                    },
                    Err(cause) => failed(*old(self), None, *final(self), 0, 0, cause),
                }
            },
    {
        if is_panicking || self.is_already_destructured() {
            return Ok(Destruction::Nothing);
        }
        match self.try_free_all_memory() {
            Ok(Ok(())) => Ok(Destruction::Freed),
            Ok(Err(())) => Ok(Destruction::Moved(self.move_to_another_thread())),
            Err(cause) => Err(cause),
        }
    }
}

/// Microseconds before an allocator that has moved is asked for the first time again.
pub const FIRST_TIMEOUT: u64 = 16;

/// The greatest number of microseconds between two attempts.
pub const MAX_TIMEOUT: u64 = 1_000_000;

/// The microseconds before the attempt after the next one: twice as many, up to a second.
pub fn next_timeout(timeout: u64) -> (r: u64)
    ensures
        r == (if timeout >= 500_000 {
            1_000_000u64
        } else {
            (2 * timeout) as u64
        }),
{
    if timeout >= MAX_TIMEOUT / 2 {
        MAX_TIMEOUT
    } else {
        timeout * 2
    }
}

/// Sizes that are told after an extra large one are extra large too.
proof fn lemma_extra_large_is_last<N: NonLocalPtrManager>(a: ThreadLocalAllocator<N>, n: int)
    requires
        0 <= n < told(a).len(),
        told(a)[n].0 == SizeClass::ExtraLarge,
    ensures
        forall|i: int| n <= i < told(a).len() ==> (#[trigger] told(a)[i]).0 == SizeClass::ExtraLarge,
        has_extra_large(a),
{
    let common = told_common(a, 0).len() as int;
    let large = told_large(a, 0).len() as int;
    assert(n >= common + large) by {
        if n < common {
            assert(told(a)[n] == told_common(a, 0)[n]);
        } else if n < common + large {
            assert(told(a)[n] == told_large(a, 0)[n - common]);
        }
    }
    assert forall|i: int| n <= i < told(a).len() implies (#[trigger] told(a)[i]).0
        == SizeClass::ExtraLarge by {
        assert(told(a)[i] == told_extra_large(a, 0)[i - common - large]);
    }
}

/// A mark that does not count.
proof fn lemma_mark_keeps_fresh<N: NonLocalPtrManager>(a: ThreadLocalAllocator<N>)
    requires
        is_fresh(
            ThreadLocalAllocator::<N> {
                inner: ThreadLocalAllocatorInner { is_already_destructured: false, ..a.inner },
                ..a
            },
        ),
    ensures
        is_fresh(a),
{
    let b = ThreadLocalAllocator::<N> {
        inner: ThreadLocalAllocatorInner { is_already_destructured: false, ..a.inner },
        ..a
    };
    assert(a.incoming() == b.incoming());
    assert(a.inner.parts() == b.inner.parts());
    assert forall|slot: int| 0 <= slot < 435 implies #[trigger] a.len_of(slot) == 0 && a.cap_of(
        slot,
    ) == 0 by {
        assert(b.len_of(slot) == 0);
    }
    assert forall|class: int| 0 <= class < 216 implies #[trigger] a.live(class) == 0 by {
        assert(b.live(class) == 0);
    }
    assert forall|at: int| #[trigger] a.held(at) == a.inner.env.pool(at) by {
        assert(b.held(at) == b.inner.env.pool(at));
    }
}

/// The accounts while an allocator ends.
proof fn lemma_end_keeps<N: NonLocalPtrManager>(
    a0: ThreadLocalAllocator<N>,
    a1: ThreadLocalAllocator<N>,
    a2: ThreadLocalAllocator<N>,
)
    requires
        step(a0, None, a1, None, (0, 0, 0, 0)),
        a2.inner.wf(),
        a2.wf(),
        a2.incoming() == a1.incoming(),
        a2.inner.env.same_but_memory(a1.inner.env),
        follows(a1.inner.env, a2.inner.env),
        forall|at: int| #[trigger] a2.inner.cover(at) <= a1.inner.cover(at),
    ensures
        broke(a0, None, a2, 0, 0),
        short(a1.inner.env, a2.inner.env) ==> short(a0.inner.env, a2.inner.env),
{
    lemma_follows(a0.inner.env, a1.inner.env, a2.inner.env);
    reveal(holds);
    reveal(keeps);
    let none = None::<State>;
    assert forall|at: int| #[trigger] a2.held(at) <= total(a0, none, at) + covers(0, 0, at) by {
        assert(a2.inner.cover(at) <= a1.inner.cover(at));
        assert(total(a1, none, at) + covers(0, 0, at) <= total(a0, none, at) + covers(0, 0, at));
    }
}

/// A manager that has ended is no part of the accounts.
proof fn lemma_ended_manager_is_nothing<N: NonLocalPtrManager>(
    a0: ThreadLocalAllocator<N>,
    a1: ThreadLocalAllocator<N>,
)
    requires
        is_fresh(a0),
        a1.inner == a0.inner,
        a1.non_local_ptr_manager == a0.non_local_ptr_manager,
    ensures
        is_fresh(a1),
        forall|a: ThreadLocalAllocator<N>|
            keeps(a, None, a0, 0, 0) ==> #[trigger] keeps(a, None, a1, 0, 0),
{
    assert(a1.incoming() == a0.incoming());
    assert forall|slot: int| 0 <= slot < 435 implies #[trigger] a1.len_of(slot) == 0 && a1.cap_of(
        slot,
    ) == 0 by {
        assert(a0.len_of(slot) == 0);
    }
    assert forall|class: int| 0 <= class < 216 implies #[trigger] a1.live(class) == 0 by {
        assert(a0.live(class) == 0);
    }
    assert forall|at: int| #[trigger] a1.held(at) == a1.inner.env.pool(at) by {
        assert(a0.held(at) == a0.inner.env.pool(at));
    }
    assert forall|a: ThreadLocalAllocator<N>|
        keeps(a, None, a0, 0, 0) implies #[trigger] keeps(a, None, a1, 0, 0) by {
        reveal(keeps);
        assert forall|at: int| #[trigger] a1.held(at) <= total(a, None, at) + covers(0, 0, at) by {
            assert(a0.held(at) <= total(a, None, at) + covers(0, 0, at));
        }
    }
}

/// What has nothing holds no more than before.
proof fn lemma_fresh_keeps<N: NonLocalPtrManager>(
    a0: ThreadLocalAllocator<N>,
    a1: ThreadLocalAllocator<N>,
    a2: ThreadLocalAllocator<N>,
)
    requires
        broke(a0, None, a1, 0, 0),
        is_fresh(a2),
        a2.inner.env == a1.inner.env,
    ensures
        keeps(a0, None, a2, 0, 0),
{
    reveal(keeps);
    let none = None::<State>;
    assert forall|at: int| #[trigger] a2.held(at) <= total(a0, none, at) + covers(0, 0, at) by {
        assert(a1.held(at) <= total(a0, none, at) + covers(0, 0, at));
        lemma_parts_cover_nonnegative(a1.inner.parts(), at);
        lemma_nodes_nonnegative(a1.incoming(), at, 0);
    }
}

/// Memory is freed only when no object is out: none is handed out, none comes in, but for the
/// blocks that the manager holds for itself.
pub proof fn law_freed_only_when_nothing_is_out<N: NonLocalPtrManager>(
    a: ThreadLocalAllocator<N>,
    class: int,
)
    requires
        can_tell(a),
        is_unused(a),
        own_blocks_of(a).len() <= MAX_OWN_BLOCKS,
        0 <= class < 216,
    ensures
        a.live(class) + nodes_of_class(a.incoming(), class) <= times_in(
            own_blocks_of(a),
            class_size(class) as usize,
        ),
{
    law_out_is_what_is_not_free(a, class);
    lemma_class(class);
    lemma_objects_used(a, class);
    let size = class_size(class) as usize;
    lemma_self_number(a, size);
    let common = told_common(a, 0).len() as int;
    if class < 128 && a.inner.common_chunk_table != 0 {
        assert(told(a)[class] == told_common(a, 0)[class]);
        assert(told(a)[class].1 == info_of_class(a, class));
        lemma_unused_class(a, class);
    } else if class >= 128 && a.inner.large_chunk_table != 0 {
        assert(told(a)[common + class - 128] == told_large(a, 0)[class - 128]);
        assert(told(a)[common + class - 128].1 == info_of_class(a, class));
        lemma_unused_class(a, class);
    } else {
        assert(slot_wf(216 + class, a.inner.parts().vectors[216 + class]));
        assert(a.inner.parts().vectors[216 + class].cap == 0);
        assert(a.len_of(216 + class) == 0);
        assert(slots_of_class(class) * 0 == 0);
    }
}

proof fn lemma_unused_class<N: NonLocalPtrManager>(a: ThreadLocalAllocator<N>, class: int)
    requires
        can_tell(a),
        own_blocks_of(a).len() <= MAX_OWN_BLOCKS,
        0 <= class < 216,
        info_of_class(a, class).objects_used == info_of_class(a, class).allocated_for_self_objects,
    ensures
        a.inner.parts().out(class) <= times_in(own_blocks_of(a), class_size(class) as usize),
{
    law_out_is_what_is_not_free(a, class);
    lemma_class(class);
    lemma_objects_used(a, class);
    lemma_self_number_fits(a, class_size(class) as usize);
    let objects = objects_of_class(a, class);
    let size = class_size(class);
    assert(objects <= objects * size) by (nonlinear_arith)
        requires
            0 <= objects,
            8 <= size,
    ;
}

} // verus!
