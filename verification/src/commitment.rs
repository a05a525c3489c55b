//! How an allocator commits a state.
use crate::accounts::{
    bound_hit, carries, chunk_balance, chunk_slack, chunks_left, counts, failed, holds, is_counted,
    lemma_alike, lemma_broke_after, lemma_spare, lemma_step, live, ready, slack, state_nodes, total,
    trails,
};
use crate::blocks::blocks_cover;
use crate::chunk_buffer::{ptrs_get, ptrs_in, ptrs_len, ptrs_new, ptrs_push, PtrBuffer};
use crate::chunks::managed;
use crate::failures::PanicCause;
use crate::inner::is_of_class;
use crate::non_local_ptr_manager::NonLocalPtrManager;
use crate::ownership::{brings, passes};
use crate::preparation::{missing, prepared};
use crate::region::large_chunks_in_region;
use crate::state::{
    is_object_size, lemma_chain_front, lemma_state_block, state_block, state_bytes, NodeView, State,
};
use crate::steps::{
    lemma_committing_broke, lemma_committing_broken, lemma_committing_ends, lemma_committing_gave,
    lemma_committing_more, lemma_committing_starts, lemma_committing_step, lemma_front_taken,
    lemma_rest,
};
use crate::takeover::{has_room_for_node, took_node};
use crate::thread_local_allocator::ThreadLocalAllocator;
use vstd::prelude::*;

verus! {

/// What holds while a state is being committed: the objects at `blocks`, of `size` bytes each, are
/// still to be given back.
#[verifier::opaque]
pub open spec fn committing<N: NonLocalPtrManager>(
    a0: ThreadLocalAllocator<N>,
    s0: Option<State>,
    a1: ThreadLocalAllocator<N>,
    s1: Option<State>,
    blocks: Seq<usize>,
    size: int,
) -> bool {
    &&& forall|at: int| #[trigger]
        total(a1, s1, at) + blocks_cover(blocks, size, at) <= total(a0, s0, at)
    &&& forall|class: int|
        0 <= class < 216 ==> #[trigger] live(a1, s1, class) >= live(a0, s0, class) + blocks.len()
            * is_of_class(size, class)
    &&& trails(a0, a1)
    &&& is_counted(a1) ==> {
        &&& forall|class: int|
            0 <= class < 216 ==> #[trigger] live(a1, s1, class) <= live(a0, s0, class)
                + blocks.len() * is_of_class(size, class) + slack(a0, a1)
        &&& chunk_balance(a1, s1) + chunk_slack(a0, a1) >= chunk_balance(a0, s0)
    }
    &&& a1.unread() + state_nodes(s1) + blocks.len() <= a0.unread() + state_nodes(s0)
    &&& brings(a0, s0, a1, s1, blocks)
}

/// What committing a state leaves behind.
pub open spec fn committed<N: NonLocalPtrManager>(
    a0: ThreadLocalAllocator<N>,
    state: State,
    a1: ThreadLocalAllocator<N>,
    r: Result<(), PanicCause>,
) -> bool {
    match r {
        Ok(()) => {
            &&& carries(a0, Some(state), a1, None)
            &&& holds(a0, Some(state), a1, None, 0, 0, 0, 0)
            &&& counts(a0, Some(state), a1, None, 0, 0)
            &&& passes(a0, Some(state), a1, None, (0, 0, 0, 0))
        },
        Err(cause) => failed(a0, Some(state), a1, 0, 0, cause),
    }
}

/// Whether a state can be committed without more memory: it has one node, for which the vectors
/// have room, and nothing that the allocator needs is missing.
pub open spec fn fits<N: NonLocalPtrManager>(a: ThreadLocalAllocator<N>, state: State) -> bool {
    &&& state.chain().len() == 1
    &&& missing(a) == 0
    &&& has_room_for_node(a, state.chain()[0])
}

/// Whether an allocator was prepared for a state of one node, and then took it over exactly: the
/// objects that were left in its chunks are free objects, in their order, its chunks and its region
/// are listed, and the owner of its chunks is noted.
pub open spec fn prepared_and_taken<N: NonLocalPtrManager>(
    a0: ThreadLocalAllocator<N>,
    state: State,
    prepared: ThreadLocalAllocator<N>,
    left: State,
    a1: ThreadLocalAllocator<N>,
) -> bool {
    &&& carries(a0, Some(state), prepared, Some(left))
    &&& committing(
        a0,
        Some(state),
        prepared,
        Some(left),
        Seq::empty(),
        state_block(a0.inner.env.region_size as int),
    )
    &&& missing(prepared) == 0
    &&& left.chain().len() == 1
    &&& has_room_for_node(prepared, left.chain()[0])
    &&& took_node(prepared, a1, left.chain()[0], prepared.inner.manager_ptr)
}

impl<N: NonLocalPtrManager> ThreadLocalAllocator<N> {
    /// Takes over the first node of a state. Returns the object that holds the next node.
    pub(crate) fn commit_front(&mut self, state: &mut Option<State>) -> (r: Option<usize>)
        requires
            ready(*old(self), *old(state)),
            *old(state) is Some,
            old(self).inner.manager_ptr != 0,
            has_room_for_node(*old(self), old(state)->0.chain()[0]),
        ensures
            ready(*final(self), *final(state)),
            carries(*old(self), *old(state), *final(self), *final(state)),
            final(self).unread() == old(self).unread(),
            chunks_left(*final(self), *final(state)) == chunks_left(*old(self), *old(state)),
            final(self).incoming() == old(self).incoming(),
            final(self).spare() == old(self).spare(),
            missing(*final(self)) == missing(*old(self)),
            took_node(
                *old(self),
                *final(self),
                old(state)->0.chain()[0],
                old(self).inner.manager_ptr,
            ),
            r is Some <==> old(state)->0.nodes@.len() > 1,
            r is Some <==> *final(state) is Some,
            r is Some ==> final(state)->0.nodes@.len() + 1 == old(state)->0.nodes@.len(),
            r matches Some(ptr) ==> ptr == old(state)->0.chain()[1].address && ptr > 0 && ptr
                + state_block(old(self).inner.env.region_size as int) <= usize::MAX,
            committing(
                *old(self),
                *old(state),
                *final(self),
                *final(state),
                if r is Some {
                    seq![r->0]
                } else {
                    Seq::empty()
                },
                state_block(old(self).inner.env.region_size as int),
            ),
    {
        let ghost a0 = *self;
        let ghost s0 = *state;
        let ghost st0 = s0->0;
        let ghost region_size = a0.inner.env.region_size as int;
        proof {
            assert(st0.chain()[0].wf(region_size));
            lemma_chain_front(st0.chain(), region_size);
        }
        let manager: usize = self.inner.manager_ptr;
        let mut next: Option<usize> = None;
        match state.take() {
            Some(mut st) => {
                let node = st.nodes.remove(0);
                let ghost rest = st.nodes@;
                self.take_node(&node, manager);
                if st.nodes.len() > 0 {
                    proof {
                        assert(st0.chain()[1].wf(region_size));
                        assert(rest[0] == st0.nodes@[1]);
                    }
                    next = Some(st.nodes[0].address);
                    st.nodes[0].address = 0;
                    proof {
                        lemma_rest(st0, st);
                    }
                    *state = Some(st);
                } else {
                    proof {
                        assert(st0.chain().drop_first() =~= Seq::<NodeView>::empty());
                    }
                }
                proof {
                    assert(node == st0.nodes@[0]);
                    lemma_front_taken(a0, st0, *self, *state);
                }
            },
            None => {},
        }
        next
    }

    /// Makes the memory of a state part of the allocator.
    pub fn handle_state(&mut self, state: State) -> (r: Result<(), PanicCause>)
        requires
            ready(*old(self), Some(state)),
        ensures
            committed(*old(self), state, *final(self), r),
            r is Ok ==> missing(*final(self)) == 0,
            r is Ok && state.chain().len() == 1 && final(self).unread() == old(self).unread()
                ==> exists|prepared: ThreadLocalAllocator<N>, left: State| #[trigger]
                prepared_and_taken(*old(self), state, prepared, left, *final(self)),
            fits(*old(self), state) ==> r is Ok && took_node(
                *old(self),
                *final(self),
                state.chain()[0],
                old(self).inner.manager_ptr,
            ),
        decreases
                old(self).unread(),
                chunks_left(*old(self), Some(state)),
                old(self).incoming().len(),
                old(self).spare(),
                60int,
    {
        let ghost a0 = *self;
        let ghost s0 = Some(state);
        let ghost region_size = a0.inner.env.region_size as int;
        let ghost block = state_block(region_size);
        let mut st: Option<State> = Some(state);
        let mut to_dealloc: PtrBuffer = ptrs_new();
        proof {
            lemma_alike(a0, s0, s0);
            lemma_spare(a0, a0);
        }
        if !self.inner.is_destructor_registered {
            match self.get_or_init_and_get_non_local_ptr_manager_ptr(&mut st) {
                Ok(_) => {},
                Err(cause) => {
                    return Err(cause);
                },
            }
        }
        proof {
            lemma_committing_starts(a0, s0, *self, st, block);
            lemma_state_block(region_size);
        }
        let ghost exact = fits(a0, state);
        let ghost mut prepared = a0;
        let ghost mut left = state;
        loop
            invariant_except_break
                st is Some,
                exact ==> *self == a0 && st == s0 && ptrs_in(to_dealloc).len() == 0,
            invariant
                exact == fits(a0, state),
                a0 == *old(self),
                s0 == Some(state),
                ready(a0, s0),
                region_size == a0.inner.env.region_size,
                block == state_block(region_size),
                is_object_size(block),
                ready(*self, st),
                carries(a0, s0, *self, st),
                committing(a0, s0, *self, st, ptrs_in(to_dealloc), block),
                ptrs_in(to_dealloc).len() <= 8,
                forall|i: int|
                    0 <= i < ptrs_in(to_dealloc).len() ==> (#[trigger] ptrs_in(to_dealloc)[i]) > 0 && ptrs_in(to_dealloc)[i]
                        + block <= usize::MAX,
            ensures
                st is None,
                missing(*self) == 0,
                self.unread() + 1 + ptrs_in(to_dealloc).len() <= a0.unread() + state.nodes@.len(),
                ptrs_in(to_dealloc).len() == 0 ==> prepared_and_taken(
                    a0,
                    state,
                    prepared,
                    left,
                    *self,
                ),
                exact ==> ptrs_in(to_dealloc).len() == 0 && took_node(
                    a0,
                    *self,
                    state.chain()[0],
                    a0.inner.manager_ptr,
                ),
                carries(a0, s0, *self, st),
                committing(a0, s0, *self, st, ptrs_in(to_dealloc), block),
                ptrs_in(to_dealloc).len() <= 8,
                forall|i: int|
                    0 <= i < ptrs_in(to_dealloc).len() ==> (#[trigger] ptrs_in(to_dealloc)[i]) > 0 && ptrs_in(to_dealloc)[i]
                        + block <= usize::MAX,
            decreases
                    self.unread(),
                    chunks_left(*self, st),
                    self.incoming().len(),
                    self.spare(),
                    missing(*self),
                    st->0.nodes@.len(),
        {
            let ghost a1 = *self;
            let ghost s1 = st;
            proof {
                lemma_spare(a0, a1);
            }
            match self.prepare(&mut st) {
                Ok(did_allocate) => {
                    if did_allocate {
                        proof {
                            lemma_committing_step(a0, s0, a1, s1, *self, st, ptrs_in(to_dealloc), block);
                            lemma_spare(a1, *self);
                        }
                        continue ;
                    }
                },
                Err(cause) => {
                    proof {
                        lemma_committing_broken(
                            a0,
                            s0,
                            a1,
                            s1,
                            *self,
                            ptrs_in(to_dealloc),
                            block,
                            (0, 0),
                        );
                    }
                    return Err(cause);
                },
            }
            if self.inner.manager_ptr == 0 || self.inner.common_chunk_table == 0
                || self.inner.large_chunk_table == 0 {
                match self.make_missing(&mut st) {
                    Ok(()) => {},
                    Err(cause) => {
                        proof {
                            lemma_committing_broken(
                                a0,
                                s0,
                                a1,
                                s1,
                                *self,
                                ptrs_in(to_dealloc),
                                block,
                                (0, 0),
                            );
                        }
                        return Err(cause);
                    },
                }
                proof {
                    lemma_committing_step(a0, s0, a1, s1, *self, st, ptrs_in(to_dealloc), block);
                    lemma_spare(a1, *self);
                }
                continue ;
            }
            let ghost ready_self = *self;
            let ghost ready_st = st;
            let next = self.commit_front(&mut st);
            proof {
                prepared = ready_self;
                left = ready_st->0;
                assert(ready_self.unread() + ready_st->0.nodes@.len() + ptrs_in(to_dealloc).len()
                    <= a0.unread() + state.nodes@.len()) by {
                    reveal(committing);
                }
                lemma_committing_more(
                    a0,
                    s0,
                    a1,
                    s1,
                    *self,
                    st,
                    ptrs_in(to_dealloc),
                    if next is Some {
                        seq![next->0]
                    } else {
                        Seq::empty()
                    },
                    block,
                );
            }
            match next {
                Some(ptr) => {
                    let ghost before = ptrs_in(to_dealloc);
                    if ptrs_push(&mut to_dealloc, ptr).is_err() {
                        proof {
                            lemma_committing_broke(
                                a0,
                                s0,
                                *self,
                                st,
                                before + seq![ptr],
                                block,
                            );
                            reveal(committing);
                            reveal(bound_hit);
                        }
                        return Err(PanicCause::TooManyStates);
                    }
                    assert(ptrs_in(to_dealloc) =~= before + seq![ptr]);
                },
                None => {
                    assert(ptrs_in(to_dealloc) + Seq::<usize>::empty() =~= ptrs_in(to_dealloc));
                    break;
                },
            }
        }
        let bytes: usize = 296 + 224 * large_chunks_in_region(self.inner.env.region_size);
        let n: usize = ptrs_len(&to_dealloc);
        let mut i: usize = 0;
        assert(ptrs_in(to_dealloc).subrange(0, n as int) =~= ptrs_in(to_dealloc));
        assert(n > 0 ==> state.chain().len() > 1 || self.unread() < a0.unread());
        while i < n
            invariant
                i <= n,
                n == ptrs_in(to_dealloc).len(),
                missing(*self) == 0,
                n == 0 ==> prepared_and_taken(a0, state, prepared, left, *self),
                n > 0 ==> state.chain().len() > 1 || self.unread() < a0.unread(),
                exact == fits(a0, state),
                exact ==> n == 0 && took_node(
                    a0,
                    *self,
                    state.chain()[0],
                    a0.inner.manager_ptr,
                ),
                a0 == *old(self),
                s0 == Some(state),
                ready(a0, s0),
                region_size == a0.inner.env.region_size,
                block == state_block(region_size),
                bytes == state_bytes(region_size),
                bytes > 0,
                block > 0,
                carries(a0, s0, *self, None),
                committing(
                    a0,
                    s0,
                    *self,
                    None,
                    ptrs_in(to_dealloc).subrange(i as int, n as int),
                    block,
                ),
                forall|k: int|
                    0 <= k < ptrs_in(to_dealloc).len() ==> (#[trigger] ptrs_in(to_dealloc)[k]) > 0 && ptrs_in(to_dealloc)[k]
                        + block <= usize::MAX,
            decreases n - i,
        {
            let ghost a1 = *self;
            let ptr: usize = ptrs_get(&to_dealloc, i);
            let ghost left = ptrs_in(to_dealloc).subrange(i as int, n as int);
            let ghost rest = ptrs_in(to_dealloc).subrange(i + 1, n as int);
            proof {
                lemma_spare(a0, a1);
                assert(left =~= seq![ptr] + rest);
            }
            let r = self.dealloc(ptr, bytes);
            proof {
                lemma_committing_gave(a0, s0, a1, *self, ptr, rest, block, r);
            }
            match r {
                Ok(()) => {},
                Err(cause) => {
                    return Err(cause);
                },
            }
            i = i + 1;
        }
        proof {
            lemma_committing_ends(a0, s0, *self, ptrs_in(to_dealloc).subrange(n as int, n as int), block);
            if n == 0 {
                assert(prepared_and_taken(a0, state, prepared, left, *self));
            }
        }
        Ok(())
    }

    /// Sees to it that the manager and the tables exist.
    pub(crate) fn make_missing(&mut self, state: &mut Option<State>) -> (r: Result<(), PanicCause>)
        requires
            ready(*old(self), *old(state)),
        ensures
            managed(*old(self), *old(state), *final(self), *final(state), r),
            r is Ok ==> missing(*final(self)) == 0,
        decreases
                old(self).unread(),
                chunks_left(*old(self), *old(state)),
                old(self).incoming().len(),
                old(self).spare(),
                51int,
    {
        let ghost a0 = *self;
        let ghost s0 = *state;
        proof {
            lemma_spare(a0, a0);
        }
        match self.get_or_init_and_get_non_local_ptr_manager_ptr(state) {
            Ok(_) => {},
            Err(cause) => {
                return Err(cause);
            },
        }
        let ghost a1 = *self;
        let ghost s1 = *state;
        proof {
            lemma_spare(a0, a1);
        }
        match self.make_common_chunk_table(state) {
            Ok(()) => {},
            Err(cause) => {
                proof {
                    lemma_broke_after(a0, s0, a1, s1, *self, (0, 0, 0, 0), (0, 0));
                }
                return Err(cause);
            },
        }
        let ghost a2 = *self;
        let ghost s2 = *state;
        proof {
            lemma_step(a0, s0, a1, s1, a2, s2, (0, 0, 0, 0), (0, 0, 0, 0));
            lemma_spare(a0, a2);
        }
        match self.make_large_chunk_table(state) {
            Ok(()) => {},
            Err(cause) => {
                proof {
                    lemma_broke_after(a0, s0, a2, s2, *self, (0, 0, 0, 0), (0, 0));
                }
                return Err(cause);
            },
        }
        proof {
            lemma_step(a0, s0, a2, s2, *self, *state, (0, 0, 0, 0), (0, 0, 0, 0));
        }
        Ok(())
    }
}

} // verus!
