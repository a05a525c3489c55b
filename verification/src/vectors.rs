//! The vectors of an allocator.
use crate::accounts::{
    bound_hit, caps_kept, chunk_balance, chunk_slack, chunks_left, counts, evolves, failed, holds,
    is_counted, lemma_alike, lemma_broke, lemma_broke_after, lemma_carries, lemma_counts,
    lemma_holds, lemma_regions_same, lemma_sizes_same, lemma_spare, lemma_spared, live, lower,
    ready, slack, spared, steady, total, trails, turned_down,
};
use crate::allocation::{can_count, os_answer};
use crate::blocks::{covers, run_of_blocks};
use crate::btree_map::nodes_for;
use crate::deallocation::is_local;
use crate::failures::PanicCause;
use crate::inner::{
    buffer_bytes, elem_out, elem_potential, elem_size, elem_size_of, elem_weight, elem_wf,
    held_size, is_of_class, ThreadLocalAllocatorInner,
};
use crate::non_local_ptr_manager::NonLocalPtrManager;
use crate::os::{follows, lemma_follows_itself, OsAction};
use crate::ownership::{lemma_passes, lemma_passes_buffer, lemma_passes_pushed, passes};
use crate::self_vec::{
    can_grow, growth_bytes, lemma_growth_fits, lemma_growth_is_exact, plan_growth,
};
use crate::sizes::{
    class_of, class_size, lemma_class, lemma_class_of, size_of_class, LARGE_SIZE_MAX,
};
use crate::state::{is_object_size, State};
use crate::steps::lemma_dropped;
use crate::thread_local_allocator::ThreadLocalAllocator;
use vstd::prelude::*;

verus! {

/// Whether nothing differs but the contents of the vectors.
pub open spec fn only_elems_changed<N: NonLocalPtrManager>(
    a0: ThreadLocalAllocator<N>,
    a1: ThreadLocalAllocator<N>,
) -> bool {
    &&& a1.wf()
    &&& a1.inner == (ThreadLocalAllocatorInner { vectors: a1.inner.vectors, ..a0.inner })
    &&& a1.non_local_ptr_manager == a0.non_local_ptr_manager
    &&& a1.spare() == a0.spare()
    &&& forall|slot: int| 0 <= slot < 435 ==> #[trigger] a1.cap_of(slot) == a0.cap_of(slot)
    &&& forall|slot: int|
        0 <= slot < 435 ==> (#[trigger] a1.inner.vectors@[slot]).ptr == a0.inner.vectors@[slot].ptr
    &&& a1.inner.vectors@[434]@ == a0.inner.vectors@[434]@
}

/// What taking the last element of a vector does.
pub open spec fn took_last<N: NonLocalPtrManager>(
    a0: ThreadLocalAllocator<N>,
    a1: ThreadLocalAllocator<N>,
    slot: int,
) -> bool {
    &&& only_elems_changed(a0, a1)
    &&& a1.inner.vectors@ == a0.inner.vectors@.update(slot, a1.inner.vectors@[slot])
    &&& a1.inner.vectors@[slot]@ == a0.inner.vectors@[slot]@.drop_last()
}

impl<N: NonLocalPtrManager> ThreadLocalAllocator<N> {
    /// Takes the last element of a vector.
    pub(crate) fn pop(&mut self, slot: usize) -> (r: Option<usize>)
        requires
            old(self).wf(),
            slot < 434,
        ensures
            only_elems_changed(*old(self), *final(self)),
            r is Some <==> old(self).len_of(slot as int) > 0,
            forall|i: int|
                0 <= i < 435 && i != slot ==> #[trigger] final(self).len_of(i) == old(self).len_of(i),
            match r {
                Some(elem) => {
                    &&& elem == old(self).inner.vectors@[slot as int]@.last()
                    &&& final(self).inner.vectors@ == old(self).inner.vectors@.update(
                        slot as int,
                        final(self).inner.vectors@[slot as int],
                    )
                    &&& final(self).inner.vectors@[slot as int]@ == old(self).inner.vectors@[slot as int]@.drop_last()
                    &&& elem_wf(slot as int, elem)
                    &&& final(self).len_of(slot as int) + 1 == old(self).len_of(slot as int)
                    &&& forall|at: int| #[trigger]
                        final(self).held(at) + covers(elem as int, held_size(slot as int), at)
                            == old(self).held(at)
                    &&& forall|class: int| #[trigger]
                        final(self).live(class) == old(self).live(class) - elem_out(
                            slot as int,
                            class,
                        )
                    &&& final(self).potential() + elem_potential(slot as int) == old(self).potential()
                    &&& final(self).weight() + elem_weight(slot as int) == old(self).weight()
                },
                None => *final(self) == *old(self),
            },
    {
        let ghost before = *self;
        let r = self.inner.pop(slot);
        proof {
            assert(self.incoming() == before.incoming());
            if r is Some {
                assert(self.inner.vectors@ =~= before.inner.vectors@.update(
                    slot as int,
                    self.inner.vectors@[slot as int],
                ));
                assert forall|at: int| #[trigger]
                    self.held(at) + covers(r->0 as int, held_size(slot as int), at)
                        == before.held(at) by {
                    assert(self.inner.parts().cover(at) + covers(
                        r->0 as int,
                        held_size(slot as int),
                        at,
                    ) == before.inner.parts().cover(at));
                }
                assert forall|class: int| #[trigger]
                    self.live(class) == before.live(class) - elem_out(slot as int, class) by {
                    assert(self.inner.parts().out(class) == before.inner.parts().out(class)
                        - elem_out(slot as int, class));
                }
            }
        }
        r
    }

    /// Appends an element to a vector whose buffer has room.
    pub(crate) fn push_elem(&mut self, slot: usize, elem: usize)
        requires
            old(self).wf(),
            slot < 434,
            slot >= 432 ==> old(self).inner.manager_ptr != 0,
            elem_wf(slot as int, elem),
            old(self).len_of(slot as int) < old(self).cap_of(slot as int),
        ensures
            only_elems_changed(*old(self), *final(self)),
            forall|i: int|
                0 <= i < 435 && i != slot ==> #[trigger] final(self).len_of(i) == old(self).len_of(i),
            final(self).inner.vectors@ == old(self).inner.vectors@.update(
                slot as int,
                final(self).inner.vectors@[slot as int],
            ),
            final(self).inner.vectors@[slot as int]@ == old(self).inner.vectors@[slot as int]@.push(elem),
            final(self).len_of(slot as int) == old(self).len_of(slot as int) + 1,
            forall|at: int| #[trigger]
                final(self).held(at) == old(self).held(at) + covers(
                    elem as int,
                    held_size(slot as int),
                    at,
                ),
            forall|class: int| #[trigger]
                final(self).live(class) == old(self).live(class) + elem_out(slot as int, class),
            final(self).potential() == old(self).potential() + elem_potential(slot as int),
            final(self).weight() == old(self).weight() + elem_weight(slot as int),
    {
        let ghost before = *self;
        self.inner.push(slot, elem);
        proof {
            assert(self.incoming() == before.incoming());
            assert(self.inner.vectors@ =~= before.inner.vectors@.update(
                slot as int,
                self.inner.vectors@[slot as int],
            ));
            assert forall|at: int| #[trigger]
                self.held(at) == before.held(at) + covers(
                    elem as int,
                    held_size(slot as int),
                    at,
                ) by {
                assert(self.inner.parts().cover(at) == before.inner.parts().cover(at) + covers(
                    elem as int,
                    held_size(slot as int),
                    at,
                ));
            }
            assert forall|class: int| #[trigger]
                self.live(class) == before.live(class) + elem_out(slot as int, class) by {
                assert(self.inner.parts().out(class) == before.inner.parts().out(class) + elem_out(
                    slot as int,
                    class,
                ));
            }
        }
    }

    /// Makes the first `n` objects of a chunk free objects of the class.
    pub(crate) fn fill(&mut self, class: usize, chunk: usize, n: usize)
        requires
            old(self).wf(),
            class < 216,
            chunk > 0,
            chunk + n * class_size(class as int) <= usize::MAX,
            old(self).len_of(class as int) + n <= old(self).cap_of(class as int),
        ensures
            only_elems_changed(*old(self), *final(self)),
            forall|i: int|
                0 <= i < 435 && i != class ==> #[trigger] final(self).len_of(i) == old(self).len_of(i),
            final(self).inner.vectors@ == old(self).inner.vectors@.update(
                class as int,
                final(self).inner.vectors@[class as int],
            ),
            final(self).inner.vectors@[class as int]@ == old(self).inner.vectors@[class as int]@ + run_of_blocks(
                chunk as int,
                class_size(class as int),
                n as int,
            ),
            forall|at: int| #[trigger]
                final(self).held(at) == old(self).held(at) + covers(
                    chunk as int,
                    n * class_size(class as int),
                    at,
                ),
            forall|c: int|
                0 <= c < 216 ==> #[trigger] final(self).live(c) == old(self).live(c) - (if c
                    == class {
                    n as int
                } else {
                    0
                }),
            final(self).potential() == old(self).potential(),
            final(self).weight() == old(self).weight(),
    {
        let ghost before = *self;
        let size: usize = size_of_class(class);
        proof {
            lemma_class(class as int);
        }
        let ghost all = run_of_blocks(chunk as int, size as int, n as int);
        let mut i: usize = 0;
        assert(all.take(0) =~= Seq::<usize>::empty());
        assert(before.inner.vectors@[class as int]@ + all.take(0)
            =~= before.inner.vectors@[class as int]@);
        assert(0 * size == 0);
        while i < n
            invariant
                i <= n,
                class < 216,
                size == class_size(class as int),
                8 <= size <= 102400,
                chunk > 0,
                chunk + n * size <= usize::MAX,
                all == run_of_blocks(chunk as int, size as int, n as int),
                only_elems_changed(before, *self),
                before.wf(),
                before.len_of(class as int) + n <= before.cap_of(class as int),
                self.inner.vectors@ =~= before.inner.vectors@.update(
                    class as int,
                    self.inner.vectors@[class as int],
                ),
                self.inner.vectors@[class as int]@ == before.inner.vectors@[class as int]@
                    + all.take(i as int),
                forall|k: int|
                    0 <= k < 435 && k != class ==> #[trigger] self.len_of(k) == before.len_of(k),
                forall|at: int| #[trigger]
                    self.held(at) == before.held(at) + covers(chunk as int, i * size, at),
                forall|c: int|
                    0 <= c < 216 ==> #[trigger] self.live(c) == before.live(c) - (if c == class {
                        i as int
                    } else {
                        0
                    }),
                self.potential() == before.potential(),
                self.weight() == before.weight(),
            decreases n - i,
        {
            let ghost mid = *self;
            assert(i * size + size <= n * size) by (nonlinear_arith)
                requires
                    i < n,
            ;
            assert(0 <= i * size) by (nonlinear_arith);
            assert((i + 1) * size == i * size + size) by (nonlinear_arith);
            let ptr: usize = chunk + i * size;
            assert(self.cap_of(class as int) == before.cap_of(class as int));
            self.push_elem(class, ptr);
            proof {
                assert(all.take(i + 1) =~= all.take(i as int).push(ptr));
                assert(self.inner.vectors@[class as int]@
                    =~= before.inner.vectors@[class as int]@ + all.take(i + 1));
                assert forall|at: int| #[trigger]
                    self.held(at) == before.held(at) + covers(chunk as int, (i + 1) * size, at) by {
                    assert(mid.held(at) == before.held(at) + covers(chunk as int, i * size, at));
                }
                assert forall|c: int| 0 <= c < 216 implies #[trigger] self.live(c) == before.live(c)
                    - (if c == class {
                    i + 1
                } else {
                    0
                }) by {
                    assert(mid.live(c) == before.live(c) - (if c == class {
                        i as int
                    } else {
                        0
                    }));
                }
                assert forall|k: int|
                    0 <= k < 435 implies #[trigger] self.cap_of(k) == before.cap_of(k) by {
                    assert(mid.cap_of(k) == before.cap_of(k));
                }
                assert forall|k: int|
                    0 <= k < 435 implies (#[trigger] self.inner.vectors@[k]).ptr
                    == before.inner.vectors@[k].ptr by {
                    assert(mid.inner.vectors@[k].ptr == before.inner.vectors@[k].ptr);
                }
                assert forall|k: int|
                    0 <= k < 435 && k != class implies #[trigger] self.len_of(k)
                    == before.len_of(k) by {
                    assert(mid.len_of(k) == before.len_of(k));
                }
            }
            i = i + 1;
        }
        assert(all.take(n as int) =~= all);
    }
}

/// What became of a request for room in a vector.
#[derive(Copy, Clone, Debug, PartialEq, Eq, Structural)]
pub enum Reserved {
    /// There was room already.
    Enough,
    /// The vector has another buffer.
    Grown,
    /// No memory was to be had.
    Failed,
}

/// Whether the table that holds the vector exists.
pub open spec fn table_exists<N: NonLocalPtrManager>(
    a: ThreadLocalAllocator<N>,
    slot: int,
) -> bool {
    &&& 216 <= slot < 344 ==> a.inner.common_chunk_table != 0
    &&& 344 <= slot < 432 ==> a.inner.large_chunk_table != 0
}

/// A vector that cannot have `min_cap` elements is vast.
proof fn lemma_vector_is_vast<N: NonLocalPtrManager>(
    a0: ThreadLocalAllocator<N>,
    s0: Option<State>,
    a1: ThreadLocalAllocator<N>,
    slot: int,
    min_cap: int,
)
    requires
        0 <= slot < 435,
        1 <= min_cap <= a1.cap_of(slot) + 0x40_0000,
        min_cap > u32::MAX || !can_grow(min_cap, elem_size(slot)),
    ensures
        bound_hit(a0, s0, a1, 0, 0, PanicCause::CapacityOverflow),
{
    reveal(bound_hit);
    if min_cap <= 0x400_0000 {
        lemma_growth_fits(min_cap, elem_size(slot));
    }
    assert(a1.cap_of(slot) > 0x3C0_0000);
}

/// Whether the great buffer that the vector had was given back to the operating system.
pub open spec fn gave_buffer<N: NonLocalPtrManager>(
    a0: ThreadLocalAllocator<N>,
    a1: ThreadLocalAllocator<N>,
    slot: int,
) -> bool {
    let v = a0.inner.vectors@[slot];
    exists|k: int|
        a0.inner.env.actions@.len() <= k < a1.inner.env.actions@.len()
            && #[trigger] a1.inner.env.actions@[k] == (OsAction::Unmap {
            ptr: v.ptr,
            size: buffer_bytes(slot, v) as usize,
        })
}

/// A buffer that was given back stays so.
proof fn lemma_gave_buffer<N: NonLocalPtrManager>(
    a0: ThreadLocalAllocator<N>,
    a1: ThreadLocalAllocator<N>,
    a2: ThreadLocalAllocator<N>,
    slot: int,
)
    requires
        gave_buffer(a0, a1, slot),
        follows(a1.inner.env, a2.inner.env),
    ensures
        gave_buffer(a0, a2, slot),
{
    reveal(follows);
    let v = a0.inner.vectors@[slot];
    let k = choose|k: int|
        a0.inner.env.actions@.len() <= k < a1.inner.env.actions@.len()
            && #[trigger] a1.inner.env.actions@[k] == (OsAction::Unmap {
            ptr: v.ptr,
            size: buffer_bytes(slot, v) as usize,
        });
    assert(a2.inner.env.actions@[k] == a1.inner.env.actions@[k]);
}

/// Whether a vector has a great buffer, and the next one can be counted without more memory.
pub open spec fn outgrows_buffer<N: NonLocalPtrManager>(
    a: ThreadLocalAllocator<N>,
    slot: int,
    additional: int,
) -> bool {
    &&& a.cap_of(slot) > 0
    &&& buffer_bytes(slot, a.inner.vectors@[slot]) > LARGE_SIZE_MAX
    &&& can_count(a, growth_bytes(a.len_of(slot) + additional, elem_size(slot)) as usize)
}

/// Whether a vector can have another buffer without anything else that changes but the places that the
/// buffers come from and go to: the new one is mapped and can be counted, or is a free object, and the
/// old one can be given back to where it came from.
pub open spec fn grows_apart<N: NonLocalPtrManager>(
    a: ThreadLocalAllocator<N>,
    s: Option<State>,
    slot: int,
    additional: int,
) -> bool {
    let v = a.inner.vectors@[slot];
    let min_cap = v@.len() + additional;
    let bytes = growth_bytes(min_cap, elem_size(slot));
    let old_bytes = buffer_bytes(slot, v);
    let map = a.inner.allocated_large_sizes;
    &&& min_cap <= u32::MAX
    &&& can_grow(min_cap, elem_size(slot))
    &&& if bytes > LARGE_SIZE_MAX {
        &&& can_count(a, bytes as usize)
        &&& a.inner.env.limit.has_room_for(bytes as usize)
        &&& os_answer(a.inner.env, bytes as usize) is Some
    } else {
        class_of(bytes) != slot && a.len_of(class_of(bytes)) > 0
    }
    &&& if v.cap == 0 {
        true
    } else if old_bytes > LARGE_SIZE_MAX {
        &&& map.nodes@.len() <= nodes_for(map.entries@.len() as int)
        &&& a.inner.count_of(old_bytes as usize) != 1 || !map@.contains_key(bytes as usize)
    } else {
        &&& class_of(old_bytes) != slot
        &&& a.len_of(class_of(old_bytes)) < a.cap_of(class_of(old_bytes))
        &&& s is Some || is_local(a, v.ptr as int)
    }
}

/// What a request for room for `additional` elements leaves behind.
pub open spec fn reserved<N: NonLocalPtrManager>(
    a0: ThreadLocalAllocator<N>,
    s0: Option<State>,
    a1: ThreadLocalAllocator<N>,
    s1: Option<State>,
    slot: int,
    additional: int,
    r: Result<Reserved, PanicCause>,
) -> bool {
    &&& r == Ok::<Reserved, PanicCause>(Reserved::Enough) <==> a0.len_of(slot) + additional
        <= a0.cap_of(slot)
    &&& grows_apart(a0, s0, slot, additional) && a0.len_of(slot) + additional > a0.cap_of(slot)
        ==> r == Ok::<Reserved, PanicCause>(Reserved::Grown) && a1.inner.vectors@[slot]@
        == a0.inner.vectors@[slot]@
    &&& match r {
        Ok(Reserved::Enough) => a1 == a0 && s1 == s0,
        Ok(Reserved::Grown) => {
            &&& evolves(a0, s0, a1, s1)
            &&& holds(a0, s0, a1, s1, 0, 0, 0, 0)
            &&& counts(a0, s0, a1, s1, 0, 0)
            &&& passes(a0, s0, a1, s1, (0, 0, 0, 0))
            &&& a1.len_of(slot) + additional <= a1.cap_of(slot)
            &&& a0.cap_of(slot) < a1.cap_of(slot)
            &&& outgrows_buffer(a0, slot, additional) ==> gave_buffer(a0, a1, slot)
        },
        Ok(Reserved::Failed) => {
            &&& evolves(a0, s0, a1, s1)
            &&& holds(a0, s0, a1, s1, 0, 0, 0, 0)
            &&& counts(a0, s0, a1, s1, 0, 0)
            &&& passes(a0, s0, a1, s1, (0, 0, 0, 0))
            &&& turned_down(a0, a1)
            &&& spared(a0, s0, a1, s1)
        },
        Err(cause) => failed(a0, s0, a1, 0, 0, cause),
    }
}

impl<N: NonLocalPtrManager> ThreadLocalAllocator<N> {
    /// Gives a vector another buffer. Returns the address and the size of the one that it had.
    pub(crate) fn set_buffer(&mut self, slot: usize, ptr: usize, bytes: usize, cap: u32) -> (r: (
        usize,
        usize,
    ))
        requires
            old(self).wf(),
            slot < 435,
            ptr > 0,
            cap > 0,
            bytes == elem_size(slot as int) * cap,
            ptr + bytes <= usize::MAX,
            bytes > LARGE_SIZE_MAX || is_object_size(bytes as int),
            old(self).len_of(slot as int) <= cap,
            table_exists(*old(self), slot as int),
        ensures
            final(self).wf(),
            final(self).inner == (ThreadLocalAllocatorInner {
                vectors: final(self).inner.vectors,
                ..old(self).inner
            }),
            final(self).non_local_ptr_manager == old(self).non_local_ptr_manager,
            forall|i: int| 0 <= i < 435 ==> #[trigger] final(self).len_of(i) == old(self).len_of(i),
            forall|i: int|
                0 <= i < 435 && i != slot ==> #[trigger] final(self).cap_of(i) == old(self).cap_of(i),
            final(self).cap_of(slot as int) == cap,
            forall|i: int|
                #![trigger final(self).inner.vectors@[i]]
                0 <= i < 435 && i != slot ==> final(self).inner.vectors@[i] == old(self).inner.vectors@[i],
            final(self).inner.vectors@[slot as int]@ == old(self).inner.vectors@[slot as int]@,
            final(self).inner.vectors@[slot as int].ptr == ptr,
            r.0 == old(self).inner.vectors@[slot as int].ptr,
            r.1 == buffer_bytes(slot as int, old(self).inner.vectors@[slot as int]),
            r.1 > 0 ==> r.0 > 0 && (r.1 > LARGE_SIZE_MAX || is_object_size(r.1 as int)),
            r.0 + r.1 <= usize::MAX,
            forall|at: int| #[trigger]
                final(self).held(at) + covers(r.0 as int, r.1 as int, at) == old(self).held(at)
                    + covers(ptr as int, bytes as int, at),
            forall|class: int| #[trigger]
                final(self).live(class) == old(self).live(class) + is_of_class(r.1 as int, class)
                    - is_of_class(bytes as int, class),
            final(self).potential() == old(self).potential(),
            final(self).weight() == old(self).weight(),
            final(self).spare() == old(self).spare() + old(self).cap_of(slot as int) - cap,
    {
        let ghost before = *self;
        let r = self.inner.set_buffer(slot, ptr, bytes, cap);
        proof {
            assert(self.incoming() == before.incoming());
            assert forall|at: int| #[trigger]
                self.held(at) + covers(r.0 as int, r.1 as int, at) == before.held(at) + covers(
                    ptr as int,
                    bytes as int,
                    at,
                ) by {
                assert(self.inner.parts().cover(at) + covers(r.0 as int, r.1 as int, at)
                    == before.inner.parts().cover(at) + covers(ptr as int, bytes as int, at));
            }
            assert forall|class: int| #[trigger]
                self.live(class) == before.live(class) + is_of_class(r.1 as int, class)
                    - is_of_class(bytes as int, class) by {
                assert(self.inner.parts().out(class) == before.inner.parts().out(class)
                    + is_of_class(r.1 as int, class) - is_of_class(bytes as int, class));
            }
        }
        r
    }

    /// Makes room for `additional` elements in a vector. The new buffer is taken before the old
    /// one is given back; where the vector has grown meanwhile, another buffer is taken.
    #[verifier::rlimit(60)]
    pub(crate) fn reserve_slow(
        &mut self,
        slot: usize,
        additional: u32,
        with_counting_limit: bool,
        state: &mut Option<State>,
    ) -> (r: Result<Reserved, PanicCause>)
        requires
            ready(*old(self), *old(state)),
            slot < 435,
            table_exists(*old(self), slot as int),
            additional <= 0x40_0000,
            old(self).cap_of(slot as int) < old(self).len_of(slot as int) + additional <= u32::MAX,
        ensures
            reserved(
                *old(self),
                *old(state),
                *final(self),
                *final(state),
                slot as int,
                additional as int,
                r,
            ),
        decreases
                old(self).unread(),
                chunks_left(*old(self), *old(state)),
                old(self).incoming().len(),
                old(self).spare(),
                39int,
    {
        let ghost a0 = *self;
        let ghost s0 = *state;
        let width: usize = elem_size_of(slot);
        let mut min_cap: u32 = self.inner.len(slot) as u32 + additional;
        let ghost mut is_first: bool = true;
        let ghost apart = grows_apart(a0, s0, slot as int, additional as int);
        let ghost outgrows = outgrows_buffer(a0, slot as int, additional as int);
        proof {
            lemma_alike(a0, s0, s0);
        }
        loop
            invariant
                slot < 435,
                width == elem_size(slot as int),
                a0 == *old(self),
                s0 == *old(state),
                ready(a0, s0),
                ready(*self, *state),
                table_exists(*self, slot as int),
                evolves(a0, s0, *self, *state),
                holds(a0, s0, *self, *state, 0, 0, 0, 0),
                counts(a0, s0, *self, *state, 0, 0),
                passes(a0, s0, *self, *state, (0, 0, 0, 0)),
                a0.cap_of(slot as int) < min_cap,
                additional <= 0x40_0000,
                min_cap <= self.cap_of(slot as int) + additional,
                a0.cap_of(slot as int) < a0.len_of(slot as int) + additional,
                is_first ==> *self == a0 && *state == s0 && min_cap == a0.len_of(slot as int)
                    + additional,
                !is_first ==> lower(a0, s0, *self, *state),
                !is_first && outgrows ==> gave_buffer(a0, *self, slot as int),
                outgrows == outgrows_buffer(a0, slot as int, additional as int),
                apart == grows_apart(a0, s0, slot as int, additional as int),
                apart ==> is_first,
            decreases u32::MAX - min_cap,
        {
            let ghost a1 = *self;
            let ghost s1 = *state;
            let (bytes, new_cap) = match plan_growth(min_cap, width) {
                Some(plan) => plan,
                None => {
                    proof {
                        lemma_broke(a0, s0, a1, s1, (0, 0, 0, 0));
                        lemma_vector_is_vast(a0, s0, a1, slot as int, min_cap as int);
                    }
                    return Err(PanicCause::CapacityOverflow);
                },
            };
            proof {
                lemma_growth_is_exact(min_cap as int, width as int);
                lemma_spare(a0, a1);
            }
            let new_ptr: Option<usize> = match self.self_alloc_(
                bytes,
                with_counting_limit,
                state,
            ) {
                Ok(new_ptr) => new_ptr,
                Err(cause) => {
                    proof {
                        lemma_broke_after(a0, s0, a1, s1, *self, (0, 0, 0, 0), (0, 0));
                    }
                    return Err(cause);
                },
            };
            let ghost a2 = *self;
            let ghost s2 = *state;
            let ghost got = if new_ptr is Some {
                (new_ptr->0 as int, bytes as int)
            } else {
                (0, 0)
            };
            proof {
                lemma_carries(a0, s0, a1, s1, a2, s2);
                lemma_holds(
                    a0,
                    s0,
                    a1,
                    s1,
                    a2,
                    s2,
                    (0, 0, 0, 0),
                    (0, 0, got.0, got.1),
                );
                lemma_counts(a0, s0, a1, s1, a2, s2, (0, 0), (0, got.1));
                lemma_passes(
                    a0,
                    s0,
                    a1,
                    s1,
                    a2,
                    s2,
                    (0, 0, 0, 0),
                    (0, 0, got.0, got.1),
                );
            }
            proof {
                if outgrows && is_first {
                    let cap = a0.cap_of(slot as int) as int;
                    assert(bytes > buffer_bytes(slot as int, a0.inner.vectors@[slot as int]))
                        by (nonlinear_arith)
                        requires
                            bytes == elem_size(slot as int) * new_cap,
                            buffer_bytes(slot as int, a0.inner.vectors@[slot as int]) == elem_size(
                                slot as int,
                            ) * cap,
                            cap < new_cap,
                            elem_size(slot as int) > 0,
                    ;
                    assert(a2.inner.vectors == a0.inner.vectors);
                    assert(a2.len_of(slot as int) == a0.len_of(slot as int));
                }
                if outgrows && !is_first {
                    lemma_gave_buffer(a0, a1, a2, slot as int);
                }
                if apart {
                    if bytes <= LARGE_SIZE_MAX {
                        lemma_class_of(bytes as int);
                        assert(a2.inner.vectors@[slot as int] == a0.inner.vectors@[slot as int]);
                    }
                    assert(new_ptr is Some);
                    assert(a2.inner.vectors@[slot as int] == a0.inner.vectors@[slot as int]);
                    assert(s2 == s0);
                }
            }
            let len: usize = self.inner.len(slot);
            if len > (u32::MAX - additional) as usize {
                proof {
                    lemma_broke(a0, s0, a2, s2, (0, 0, got.0, got.1));
                    lemma_vector_is_vast(a0, s0, a2, slot as int, len + additional);
                }
                return Err(PanicCause::CapacityOverflow);
            }
            let needed: u32 = len as u32 + additional;
            if needed > new_cap {
                proof {
                    assert(!is_first || !steady(a1, s1, a2, s2)) by {
                        if is_first && steady(a1, s1, a2, s2) {
                            assert(a2.len_of(slot as int) <= a1.len_of(slot as int));
                        }
                    }
                    assert(lower(a0, s0, a2, s2));
                    assert(outgrows ==> !is_first);
                    is_first = false;
                }
                min_cap = needed;
                if let Some(ptr) = new_ptr {
                    proof {
                        lemma_spare(a0, a2);
                    }
                    match self.self_dealloc_(ptr, bytes, state) {
                        Ok(()) => {},
                        Err(cause) => {
                            proof {
                                lemma_broke_after(
                                    a0,
                                    s0,
                                    a2,
                                    s2,
                                    *self,
                                    (0, 0, got.0, got.1),
                                    got,
                                );
                            }
                            return Err(cause);
                        },
                    }
                    proof {
                        lemma_carries(a0, s0, a2, s2, *self, *state);
                        lemma_holds(
                            a0,
                            s0,
                            a2,
                            s2,
                            *self,
                            *state,
                            (0, 0, got.0, got.1),
                            (got.0, got.1, 0, 0),
                        );
                        lemma_counts(
                            a0,
                            s0,
                            a2,
                            s2,
                            *self,
                            *state,
                            (0, got.1),
                            (got.1, 0),
                        );
                        lemma_passes(
                            a0,
                            s0,
                            a2,
                            s2,
                            *self,
                            *state,
                            (0, 0, got.0, got.1),
                            (got.0, got.1, 0, 0),
                        );
                        if outgrows {
                            lemma_gave_buffer(a0, a2, *self, slot as int);
                        }
                    }
                }
                continue ;
            }
            let ptr: usize = match new_ptr {
                Some(ptr) => ptr,
                None => {
                    proof {
                        lemma_spared(a0, s0, a1, s1, a2, s2);
                    }
                    return Ok(Reserved::Failed);
                },
            };
            let (old_ptr, old_bytes) = self.set_buffer(slot, ptr, bytes, new_cap);
            let ghost a3 = *self;
            proof {
                assert(caps_kept(a0, a3)) by {
                    assert forall|i: int| 0 <= i < 435 implies a0.cap_of(i)
                        <= #[trigger] a3.cap_of(i) by {
                        assert(a0.cap_of(i) <= a2.cap_of(i));
                    }
                }
                lemma_spare(a0, a3);
                lemma_sizes_same(a0, a2, a3);
                lemma_follows_itself(a2.inner.env);
                lemma_regions_same(a2, a3);
                assert(a0.cap_of(slot as int) < a3.cap_of(slot as int));
                assert(evolves(a0, s0, a3, s2));
                assert(lower(a0, s0, a3, s2));
                assert(holds(
                    a2,
                    s2,
                    a3,
                    s2,
                    ptr as int,
                    bytes as int,
                    old_ptr as int,
                    old_bytes as int,
                )) by {
                    reveal(holds);
                    assert forall|at: int| #[trigger]
                        total(a3, s2, at) + covers(old_ptr as int, old_bytes as int, at) <= total(
                            a2,
                            s2,
                            at,
                        ) + covers(ptr as int, bytes as int, at) by {
                        assert(a3.held(at) + covers(old_ptr as int, old_bytes as int, at)
                            == a2.held(at) + covers(ptr as int, bytes as int, at));
                    }
                }
                assert(counts(a2, s2, a3, s2, bytes as int, old_bytes as int)) by {
                    reveal(counts);
                    assert forall|class: int| 0 <= class < 216 implies #[trigger] live(
                        a3,
                        s2,
                        class,
                    ) + is_of_class(bytes as int, class) == live(a2, s2, class) + is_of_class(
                        old_bytes as int,
                        class,
                    ) by {
                        assert(a3.live(class) == a2.live(class) + is_of_class(
                            old_bytes as int,
                            class,
                        ) - is_of_class(bytes as int, class));
                    }
                }
                lemma_holds(
                    a0,
                    s0,
                    a2,
                    s2,
                    a3,
                    s2,
                    (0, 0, got.0, got.1),
                    (ptr as int, bytes as int, old_ptr as int, old_bytes as int),
                );
                lemma_counts(
                    a0,
                    s0,
                    a2,
                    s2,
                    a3,
                    s2,
                    (0, got.1),
                    (bytes as int, old_bytes as int),
                );
                lemma_passes_buffer(
                    a2,
                    s2,
                    a3,
                    slot as int,
                    ptr as int,
                    bytes as int,
                    old_ptr as int,
                    old_bytes as int,
                );
                lemma_passes(
                    a0,
                    s0,
                    a2,
                    s2,
                    a3,
                    s2,
                    (0, 0, got.0, got.1),
                    (ptr as int, bytes as int, old_ptr as int, old_bytes as int),
                );
            }
            proof {
                if apart && old_bytes != 0 {
                    assert(old_bytes < bytes) by (nonlinear_arith)
                        requires
                            bytes == elem_size(slot as int) * new_cap,
                            old_bytes == elem_size(slot as int) * a0.cap_of(slot as int),
                            a0.cap_of(slot as int) < new_cap,
                            elem_size(slot as int) > 0,
                    ;
                    if old_bytes <= LARGE_SIZE_MAX {
                        lemma_class_of(old_bytes as int);
                        let c = class_of(old_bytes as int);
                        if bytes <= LARGE_SIZE_MAX {
                            lemma_class_of(bytes as int);
                            assert(class_of(bytes as int) != c);
                        }
                        assert(a2.inner.vectors@[c] == a0.inner.vectors@[c]);
                        assert(a3.inner.vectors@[c] == a2.inner.vectors@[c]);
                        assert(a3.len_of(c) < a3.cap_of(c));
                        assert(s0 is Some || is_local(a3, old_ptr as int));
                    } else {
                        assert(a2.inner.count_of(old_bytes) == a0.inner.count_of(old_bytes));
                        assert(a3.count_after_stays(old_bytes));
                    }
                }
            }
            if old_bytes != 0 {
                match self.self_dealloc_(old_ptr, old_bytes, state) {
                    Ok(()) => {},
                    Err(cause) => {
                        proof {
                            lemma_broke_after(
                                a0,
                                s0,
                                a3,
                                s2,
                                *self,
                                (0, 0, old_ptr as int, old_bytes as int),
                                (old_ptr as int, old_bytes as int),
                            );
                        }
                        return Err(cause);
                    },
                }
                proof {
                    lemma_carries(a0, s0, a3, s2, *self, *state);
                    lemma_holds(
                        a0,
                        s0,
                        a3,
                        s2,
                        *self,
                        *state,
                        (0, 0, old_ptr as int, old_bytes as int),
                        (old_ptr as int, old_bytes as int, 0, 0),
                    );
                    lemma_counts(
                        a0,
                        s0,
                        a3,
                        s2,
                        *self,
                        *state,
                        (0, old_bytes as int),
                        (old_bytes as int, 0),
                    );
                    lemma_passes(
                        a0,
                        s0,
                        a3,
                        s2,
                        *self,
                        *state,
                        (0, 0, old_ptr as int, old_bytes as int),
                        (old_ptr as int, old_bytes as int, 0, 0),
                    );
                    if outgrows && !is_first {
                        assert(gave_buffer(a0, a3, slot as int));
                        lemma_gave_buffer(a0, a3, *self, slot as int);
                    }
                    if outgrows && is_first {
                        let k = a3.inner.env.actions@.len() as int;
                        reveal(follows);
                        assert(self.inner.env.actions@[k] == (OsAction::Unmap {
                            ptr: old_ptr,
                            size: old_bytes,
                        }));
                        assert(gave_buffer(a0, *self, slot as int));
                    }
                }
            }
            proof {
                if old_bytes == 0 {
                    lemma_dropped(a0, s0, *self, *state, old_ptr as int, 0);
                    assert(passes(a0, s0, *self, *state, (0, 0, 0, 0))) by {
                        reveal(passes);
                    }
                }
            }
            proof {
                if apart {
                    assert(self.inner.vectors@[slot as int]@ == a0.inner.vectors@[slot as int]@);
                }
            }
            assert(new_cap <= self.cap_of(slot as int));
            let len: usize = self.inner.len(slot);
            if len > (u32::MAX - additional) as usize {
                proof {
                    lemma_broke(a0, s0, *self, *state, (0, 0, 0, 0));
                    lemma_vector_is_vast(a0, s0, *self, slot as int, len + additional);
                }
                return Err(PanicCause::CapacityOverflow);
            }
            let needed: u32 = len as u32 + additional;
            if needed > self.inner.cap(slot) {
                min_cap = needed;
                proof {
                    is_first = false;
                }
                continue ;
            }
            return Ok(Reserved::Grown);
        }
    }

    /// Makes room for `additional` elements in a vector.
    pub(crate) fn reserve(
        &mut self,
        slot: usize,
        additional: u32,
        with_counting_limit: bool,
        state: &mut Option<State>,
    ) -> (r: Result<Reserved, PanicCause>)
        requires
            ready(*old(self), *old(state)),
            slot < 435,
            additional <= 0x40_0000,
            table_exists(*old(self), slot as int),
        ensures
            reserved(
                *old(self),
                *old(state),
                *final(self),
                *final(state),
                slot as int,
                additional as int,
                r,
            ),
        decreases
                old(self).unread(),
                chunks_left(*old(self), *old(state)),
                old(self).incoming().len(),
                old(self).spare(),
                40int,
    {
        let len: usize = self.inner.len(slot);
        if len > (u32::MAX - additional) as usize {
            proof {
                lemma_alike(*self, *state, *state);
                lemma_broke(*self, *state, *self, *state, (0, 0, 0, 0));
                lemma_vector_is_vast(*self, *state, *self, slot as int, len + additional);
            }
            return Err(PanicCause::CapacityOverflow);
        }
        if self.inner.cap(slot) >= len as u32 + additional {
            return Ok(Reserved::Enough);
        }
        proof {
            lemma_spare(*self, *self);
        }
        self.reserve_slow(slot, additional, with_counting_limit, state)
    }

    /// Appends an element to a vector of objects or of carved chunks. Tells whether there was
    /// memory for it.
    pub(crate) fn push(
        &mut self,
        slot: usize,
        elem: usize,
        with_counting_limit: bool,
        state: &mut Option<State>,
    ) -> (r: Result<bool, PanicCause>)
        requires
            ready(*old(self), *old(state)),
            slot < 432,
            table_exists(*old(self), slot as int),
            elem_wf(slot as int, elem),
        ensures
            pushed(*old(self), *old(state), *final(self), *final(state), slot as int, elem, r),
        decreases
                old(self).unread(),
                chunks_left(*old(self), *old(state)),
                old(self).incoming().len(),
                old(self).spare(),
                41int,
    {
        let ghost a0 = *self;
        let ghost s0 = *state;
        proof {
            lemma_spare(a0, a0);
        }
        let reserved = match self.reserve(slot, 1, with_counting_limit, state) {
            Ok(reserved) => reserved,
            Err(cause) => {
                proof {
                    reveal(holds);
                    lemma_follows_itself(a0.inner.env);
                    lemma_alike(a0, s0, s0);
                    lemma_broke_after(
                        a0,
                        s0,
                        a0,
                        s0,
                        *self,
                        (
                            elem as int,
                            held_size(slot as int),
                            elem as int,
                            held_size(slot as int),
                        ),
                        (0, 0),
                    );
                }
                return Err(cause);
            },
        };
        let ghost a1 = *self;
        let ghost s1 = *state;
        match reserved {
            Reserved::Failed => {
                return Ok(false);
            },
            _ => {},
        }
        proof {
            lemma_alike(a0, s0, s0);
        }
        assert(evolves(a0, s0, a1, s1));
        self.push_elem(slot, elem);
        proof {
            let deal = (elem as int, held_size(slot as int), 0int, 0int);
            lemma_passes_pushed(a1, s1, *self, slot as int, elem);
            lemma_sizes_same(a0, a1, *self);
            lemma_follows_itself(a1.inner.env);
            lemma_regions_same(a1, *self);
            lemma_passes(a0, s0, a1, s1, *self, s1, (0, 0, 0, 0), deal);
            reveal(holds);
            reveal(counts);
            reveal(tallies);
            assert(self.incoming() == a1.incoming());
            assert forall|at: int| #[trigger]
                total(*self, s1, at) <= total(a0, s0, at) + covers(
                    elem as int,
                    held_size(slot as int),
                    at,
                ) by {
                assert(self.held(at) == a1.held(at) + covers(
                    elem as int,
                    held_size(slot as int),
                    at,
                ));
                assert(total(a1, s1, at) <= total(a0, s0, at));
            }
            assert forall|class: int| 0 <= class < 216 implies #[trigger] live(*self, s1, class)
                >= live(a0, s0, class) + elem_out(slot as int, class) by {
                assert(self.live(class) == a1.live(class) + elem_out(slot as int, class));
                assert(live(a1, s1, class) >= live(a0, s0, class));
            }
            if is_counted(*self) {
                assert forall|class: int| 0 <= class < 216 implies #[trigger] live(*self, s1, class)
                    <= live(a0, s0, class) + elem_out(slot as int, class) + slack(a0, *self) by {
                    assert(self.live(class) == a1.live(class) + elem_out(slot as int, class));
                    assert(live(a1, s1, class) <= live(a0, s0, class) + slack(a0, a1));
                }
            }
            assert(caps_kept(a0, *self)) by {
                assert forall|i: int| 0 <= i < 435 implies a0.cap_of(i) <= #[trigger] self.cap_of(
                    i,
                ) by {
                    assert(a0.cap_of(i) <= a1.cap_of(i));
                }
            }
        }
        Ok(true)
    }
}

/// What appending an element does to the numbers of objects that are out.
#[verifier::opaque]
pub open spec fn tallies<N: NonLocalPtrManager>(
    a0: ThreadLocalAllocator<N>,
    s0: Option<State>,
    a1: ThreadLocalAllocator<N>,
    s1: Option<State>,
    slot: int,
) -> bool {
    &&& trails(a0, a1)
    &&& forall|class: int|
        0 <= class < 216 ==> #[trigger] live(a1, s1, class) >= live(a0, s0, class) + elem_out(
            slot,
            class,
        )
    &&& is_counted(a1) ==> {
        &&& forall|class: int|
            0 <= class < 216 ==> #[trigger] live(a1, s1, class) <= live(a0, s0, class) + elem_out(
                slot,
                class,
            ) + slack(a0, a1)
        &&& chunk_balance(a1, s1) + chunk_slack(a0, a1) >= chunk_balance(a0, s0) + elem_weight(
            slot,
        )
    }
}

/// What appending an element leaves behind.
pub open spec fn pushed<N: NonLocalPtrManager>(
    a0: ThreadLocalAllocator<N>,
    s0: Option<State>,
    a1: ThreadLocalAllocator<N>,
    s1: Option<State>,
    slot: int,
    elem: usize,
    r: Result<bool, PanicCause>,
) -> bool {
    &&& a0.len_of(slot) < a0.cap_of(slot) ==> r == Ok::<bool, PanicCause>(true)
    &&& grows_apart(a0, s0, slot, 1) && a0.len_of(slot) == a0.cap_of(slot) ==> r == Ok::<
        bool,
        PanicCause,
    >(true) && a1.inner.vectors@[slot]@ == a0.inner.vectors@[slot]@.push(elem)
    &&& match r {
        Ok(true) => {
            &&& evolves(a0, s0, a1, s1)
            &&& holds(a0, s0, a1, s1, elem as int, held_size(slot), 0, 0)
            &&& tallies(a0, s0, a1, s1, slot)
            &&& passes(a0, s0, a1, s1, (elem as int, held_size(slot), 0, 0))
            &&& a1.len_of(slot) > 0
            &&& a1.inner.vectors@[slot]@.last() == elem
            &&& a0.len_of(slot) < a0.cap_of(slot) ==> {
                &&& only_elems_changed(a0, a1)
                &&& s1 == s0
                &&& a1.inner.vectors@ == a0.inner.vectors@.update(slot, a1.inner.vectors@[slot])
                &&& a1.inner.vectors@[slot]@ == a0.inner.vectors@[slot]@.push(elem)
            }
        },
        Ok(false) => {
            &&& evolves(a0, s0, a1, s1)
            &&& holds(a0, s0, a1, s1, 0, 0, 0, 0)
            &&& counts(a0, s0, a1, s1, 0, 0)
            &&& passes(a0, s0, a1, s1, (0, 0, 0, 0))
            &&& turned_down(a0, a1)
            &&& spared(a0, s0, a1, s1)
        },
        Err(cause) => failed(a0, s0, a1, elem as int, held_size(slot), cause),
    }
}

} // verus!
