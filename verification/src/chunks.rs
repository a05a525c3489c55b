//! How an allocator gets chunks to carve.
use crate::accounts::{
    caps_kept, carries, chunks_left, counts, failed, has_nothing, has_tables, holds, is_counted,
    is_set_up, lemma_alike, lemma_broke_after, lemma_carries, lemma_counts, lemma_has_nothing,
    lemma_holds, lemma_lost_chunk, lemma_regions_same, lemma_set_up_same, lemma_sizes_same,
    lemma_spare, live, slack, step, took_chunk, total,
};
use crate::blocks::covers;
use crate::failures::PanicCause;
use crate::inner::{elem_out, held_size, ThreadLocalAllocatorInner, FREE_COMMON, FREE_LARGE};
use crate::non_local_ptr_manager::NonLocalPtrManager;
use crate::os::lemma_follows_itself;
use crate::ownership::{
    gives_chunk, lemma_gives_later, lemma_passes, lemma_passes_kept, lemma_passes_popped, owns_with,
    passes,
};
use crate::placement::{is_placed, lemma_split_placed};
use crate::region::{alloc_region, asks_for_region, lemma_region_size};
use crate::sizes::split_large_chunk_to_common;
use crate::state::{can_take_region, fresh_node, split_chunks, State};
use crate::steps::{lemma_kept_chunk, lemma_new_state, lemma_refused_region, lemma_state_chunk};
use crate::thread_local_allocator::ThreadLocalAllocator;
use crate::vectors::{only_elems_changed, reserved, took_last, Reserved};
use vstd::prelude::*;

verus! {

/// What an operation leaves behind that neither was given nor has handed out anything.
pub open spec fn managed<N: NonLocalPtrManager>(
    a0: ThreadLocalAllocator<N>,
    s0: Option<State>,
    a1: ThreadLocalAllocator<N>,
    s1: Option<State>,
    r: Result<(), PanicCause>,
) -> bool {
    match r {
        Ok(()) => step(a0, s0, a1, s1, (0, 0, 0, 0)),
        Err(cause) => failed(a0, s0, a1, 0, 0, cause),
    }
}

/// Whether nothing has changed but that a request for a region was turned down, where there was
/// one.
pub open spec fn only_refused<N: NonLocalPtrManager>(
    a0: ThreadLocalAllocator<N>,
    a1: ThreadLocalAllocator<N>,
    has_asked: bool,
) -> bool {
    &&& a1.inner == (ThreadLocalAllocatorInner { env: a1.inner.env, ..a0.inner })
    &&& a1.incoming() == a0.incoming()
    &&& if has_asked {
        &&& a1.inner.env.same_but_memory(a0.inner.env)
        &&& a1.inner.env.limit == a0.inner.env.limit
        &&& a1.inner.env.metadata == a0.inner.env.metadata
        &&& a1.inner.env.actions == a0.inner.env.actions
        &&& a1.inner.env.refusals@.len() == a0.inner.env.refusals@.len() + 1
    } else {
        a1.inner.env == a0.inner.env
    }
}

/// Whether nothing has changed but that a request for a region was turned down, where there was one.
/// Where the limit has room for the region, the operating system was asked for it.
pub open spec fn refused_region<N: NonLocalPtrManager>(
    a0: ThreadLocalAllocator<N>,
    a1: ThreadLocalAllocator<N>,
    has_asked: bool,
) -> bool {
    &&& only_refused(a0, a1, has_asked)
    &&& has_asked && a0.inner.env.limit.has_room_for(a0.inner.env.region_size) ==> asks_for_region(
        a0.inner.env,
        a1.inner.env,
    )
}

impl<N: NonLocalPtrManager> ThreadLocalAllocator<N> {
    /// Takes a chunk of the class that is not carved yet, if there is one.
    pub(crate) fn try_get_chunk(&mut self, is_common: bool) -> (r: Option<usize>)
        requires
            old(self).wf(),
        ensures
            took_chunk(
                *old(self),
                None,
                *final(self),
                None,
                if is_common {
                    65536
                } else {
                    524288
                },
                Ok::<Option<usize>, PanicCause>(r),
                false,
            ),
            r is Some <==> old(self).len_of(
                if is_common {
                    432
                } else {
                    433
                },
            ) > 0,
            r is Some ==> r->0 == old(self).inner.vectors@[
                if is_common {
                    432
                } else {
                    433
                }
            ]@.last() && took_last(
                *old(self),
                *final(self),
                if is_common {
                    432
                } else {
                    433
                },
            ),
            r is None ==> *final(self) == *old(self),
    {
        let ghost a0 = *self;
        let slot: usize = if is_common {
            FREE_COMMON
        } else {
            FREE_LARGE
        };
        let r = self.pop(slot);
        proof {
            reveal(holds);
            reveal(counts);
            lemma_follows_itself(a0.inner.env);
            assert(self.incoming() == a0.incoming());
            if r is None {
                lemma_alike(a0, None, None);
            }
            if r is Some {
                lemma_passes_popped(a0, None, *self, slot as int, r->0);
                lemma_regions_same(a0, *self);
                let chunk = r->0 as int;
                let size = held_size(slot as int);
                assert forall|at: int| #[trigger]
                    total(*self, None::<State>, at) + covers(chunk, size, at) <= total(
                        a0,
                        None::<State>,
                        at,
                    ) by {
                    assert(self.held(at) + covers(chunk, size, at) == a0.held(at));
                }
                assert forall|class: int| 0 <= class < 216 implies #[trigger] live(
                    *self,
                    None::<State>,
                    class,
                ) == live(a0, None::<State>, class) by {
                    assert(self.live(class) == a0.live(class) - elem_out(slot as int, class));
                }
            }
        }
        r
    }

    /// Takes a large chunk that is not carved yet, if there is one.
    pub fn try_get_large_chunk(&mut self) -> (r: Option<usize>)
        requires
            old(self).wf(),
        ensures
            took_chunk(
                *old(self),
                None,
                *final(self),
                None,
                524288,
                Ok::<Option<usize>, PanicCause>(r),
                false,
            ),
            r is Some <==> old(self).len_of(433) > 0,
            r is Some ==> r->0 == old(self).inner.vectors@[433]@.last() && took_last(
                *old(self),
                *final(self),
                433,
            ),
    {
        self.try_get_chunk(false)
    }

    /// Takes a common chunk that is not carved yet, if there is one.
    pub fn try_get_common_chunk(&mut self) -> (r: Option<usize>)
        requires
            old(self).wf(),
        ensures
            took_chunk(
                *old(self),
                None,
                *final(self),
                None,
                65536,
                Ok::<Option<usize>, PanicCause>(r),
                false,
            ),
            r is Some <==> old(self).len_of(432) > 0,
            r is Some ==> r->0 == old(self).inner.vectors@[432]@.last() && took_last(
                *old(self),
                *final(self),
                432,
            ),
    {
        self.try_get_chunk(true)
    }

    /// Takes a large chunk of a fresh region, whose other chunks are kept.
    pub(crate) fn alloc_large_chunk(&mut self) -> (r: Result<Option<usize>, PanicCause>)
        requires
            old(self).wf(),
        ensures
            took_chunk(*old(self), None, *final(self), None, 524288, r, true),
            !can_take_region(old(self).inner.env, true) ==> r == Ok::<Option<usize>, PanicCause>(
                None,
            ) && refused_region(*old(self), *final(self), true),
            can_take_region(old(self).inner.env, true) ==> r != Ok::<Option<usize>, PanicCause>(
                None,
            ),
            r matches Ok(Some(_)) ==> has_tables(*final(self)),
            is_set_up(*old(self)) && r is Ok ==> is_set_up(*final(self)),
        decreases
                old(self).unread(),
                chunks_left(*old(self), None),
                old(self).incoming().len(),
                old(self).spare(),
                21int,
    {
        let ghost a0 = *self;
        let region: usize = match alloc_region(&mut self.inner.env) {
            Some(region) => region,
            None => {
                proof {
                    lemma_refused_region(a0, *self);
                    lemma_set_up_same(a0, *self);
                }
                return Ok(None);
            },
        };
        let ghost a1 = *self;
        let mut st = State::from_region(region, self.inner.env.region_size);
        let ghost st1 = st;
        proof {
            lemma_new_state(a0, a1, st1, region as int);
            lemma_region_size(self.inner.env.region_size as int);
            assert(st1.chain()[0] == fresh_node(region as int, st1.region_size as int));
        }
        let chunk: usize = match st.get_free_large_chunk(false, &mut self.inner.env) {
            Some(chunk) => chunk,
            None => {
                assert(false);
                return Ok(None);
            },
        };
        let ghost a2 = *self;
        let ghost st2 = st;
        proof {
            lemma_state_chunk(a1, st1, a2, st2, chunk as int);
            lemma_carries(a0, None, a1, Some(st1), a2, Some(st2));
            lemma_holds(
                a0,
                None,
                a1,
                Some(st1),
                a2,
                Some(st2),
                (0, 0, 0, 0),
                (0, 0, chunk as int, 524288),
            );
            lemma_counts(a0, None, a1, Some(st1), a2, Some(st2), (0, 0), (0, -8));
            lemma_passes(a0, None, a1, Some(st1), a2, Some(st2), (0, 0, 0, 0), (0, 0, 0, 0));
        }
        match self.handle_state(st) {
            Ok(()) => {},
            Err(cause) => {
                proof {
                    lemma_broke_after(
                        a0,
                        None,
                        a2,
                        Some(st2),
                        *self,
                        (0, 0, chunk as int, 524288),
                        (0, 0),
                    );
                }
                return Err(cause);
            },
        }
        proof {
            lemma_carries(a0, None, a2, Some(st2), *self, None);
            lemma_holds(
                a0,
                None,
                a2,
                Some(st2),
                *self,
                None,
                (0, 0, chunk as int, 524288),
                (0, 0, 0, 0),
            );
            lemma_counts(a0, None, a2, Some(st2), *self, None, (0, -8), (0, 0));
            lemma_passes(a0, None, a2, Some(st2), *self, None, (0, 0, 0, 0), (0, 0, 0, 0));
            lemma_gives_later(
                a0,
                None,
                a1,
                Some(st1),
                a2,
                *self,
                chunk as int,
                524288,
            );
        }
        Ok(Some(chunk))
    }

    /// Takes a large chunk that is not carved yet, or one of a fresh region.
    pub fn get_large_chunk(&mut self) -> (r: Result<Option<usize>, PanicCause>)
        requires
            old(self).wf(),
        ensures
            took_chunk(*old(self), None, *final(self), None, 524288, r, true),
            old(self).len_of(433) > 0 ==> r == Ok::<Option<usize>, PanicCause>(
                Some(old(self).inner.vectors@[433]@.last()),
            ) && took_last(*old(self), *final(self), 433),
            old(self).len_of(433) == 0 && !can_take_region(old(self).inner.env, true) ==> r == Ok::<
                Option<usize>,
                PanicCause,
            >(None) && refused_region(*old(self), *final(self), true),
            old(self).len_of(433) == 0 && can_take_region(old(self).inner.env, true) ==> r != Ok::<
                Option<usize>,
                PanicCause,
            >(None),
            old(self).len_of(433) == 0 && (r is Ok && r->Ok_0 is Some) ==> has_tables(*final(self)),
            is_set_up(*old(self)) && r is Ok ==> is_set_up(*final(self)),
        decreases
                old(self).unread(),
                chunks_left(*old(self), None),
                old(self).incoming().len(),
                old(self).spare(),
                22int,
    {
        proof {
            lemma_spare(*self, *self);
        }
        proof {
            if has_nothing(*self) {
                lemma_has_nothing(*self);
                assert(self.len_of(433) == 0);
            }
        }
        match self.try_get_large_chunk() {
            Some(chunk) => Ok(Some(chunk)),
            None => self.alloc_large_chunk(),
        }
    }

    /// Takes a common chunk of a large chunk that is split for it. The other seven are kept.
    #[verifier::rlimit(60)]
    pub(crate) fn get_common_chunk_slow(&mut self) -> (r: Result<Option<usize>, PanicCause>)
        requires
            old(self).wf(),
        ensures
            took_chunk(*old(self), None, *final(self), None, 65536, r, true),
            old(self).len_of(433) == 0 && !can_take_region(old(self).inner.env, true) ==> r == Ok::<
                Option<usize>,
                PanicCause,
            >(None) && refused_region(*old(self), *final(self), true),
            old(self).len_of(433) == 0 && (r is Ok && r->Ok_0 is Some) ==> has_tables(*final(self)),
            is_set_up(*old(self)) && r is Ok ==> is_set_up(*final(self)),
        decreases
                old(self).unread(),
                chunks_left(*old(self), None),
                old(self).incoming().len(),
                old(self).spare(),
                23int,
    {
        let ghost a0 = *self;
        let ghost none = None::<State>;
        proof {
            lemma_spare(a0, a0);
        }
        proof {
            if has_nothing(a0) {
                lemma_has_nothing(a0);
                assert(a0.len_of(433) == 0);
            }
        }
        let large_chunk: usize = match self.get_large_chunk() {
            Ok(Some(chunk)) => chunk,
            Ok(None) => {
                return Ok(None);
            },
            Err(cause) => {
                return Err(cause);
            },
        };
        let ghost a1 = *self;
        let ghost large = large_chunk as int;
        let mut no_state: Option<State> = None;
        proof {
            lemma_spare(a0, a1);
        }
        match self.try_get_common_chunk() {
            Some(common_chunk) => {
                let ghost a2 = *self;
                proof {
                    lemma_carries(a0, none, a1, none, a2, none);
                    lemma_holds(
                        a0,
                        none,
                        a1,
                        none,
                        a2,
                        none,
                        (0, 0, large, 524288),
                        (0, 0, common_chunk as int, 65536),
                    );
                    lemma_counts(a0, none, a1, none, a2, none, (0, -8), (0, -1));
                    lemma_passes(a0, none, a1, none, a2, none, (0, 0, 0, 0), (0, 0, 0, 0));
                    lemma_spare(a0, a2);
                }
                let reserved = self.reserve(FREE_LARGE, 1, true, &mut no_state);
                let ghost a3 = *self;
                match reserved {
                    Err(cause) => {
                        proof {
                            assert(holds(a0, none, a2, none, 0, 0, 0, 0)) by {
                                reveal(holds);
                                assert forall|at: int| #[trigger]
                                    total(a2, none, at) <= total(a0, none, at) by {
                                    assert(total(a2, none, at) + covers(large, 524288, at) + covers(
                                        common_chunk as int,
                                        65536,
                                        at,
                                    ) <= total(a0, none, at));
                                }
                            }
                            lemma_broke_after(a0, none, a2, none, a3, (0, 0, 0, 0), (0, 0));
                        }
                        return Err(cause);
                    },
                    Ok(reserved) => {
                        proof {
                            lemma_alike(a2, none, none);
                            reveal(holds);
                            assert(carries(a2, none, a3, none));
                            lemma_carries(a0, none, a2, none, a3, none);
                            lemma_counts(a0, none, a2, none, a3, none, (0, -9), (0, 0));
                            if reserved is Failed {
                                lemma_counts(a0, none, a1, none, a2, none, (0, -8), (0, -1));
                                lemma_lost_chunk(a0, none, a2, none, a3, none, -9, -1);
                            }
                            lemma_passes(
                                a0,
                                none,
                                a2,
                                none,
                                a3,
                                none,
                                (0, 0, 0, 0),
                                (0, 0, 0, 0),
                            );
                            assert forall|at: int| #[trigger]
                                total(a3, none, at) + covers(large, 524288, at) + covers(
                                    common_chunk as int,
                                    65536,
                                    at,
                                ) <= total(a0, none, at) by {
                                assert(total(a3, none, at) <= total(a2, none, at));
                                assert(total(a2, none, at) + covers(large, 524288, at) + covers(
                                    common_chunk as int,
                                    65536,
                                    at,
                                ) <= total(a0, none, at));
                            }
                        }
                        match reserved {
                            Reserved::Failed => {},
                            _ => {
                                self.push_elem(FREE_LARGE, large_chunk);
                            },
                        }
                        proof {
                            lemma_alike(a0, none, none);
                            lemma_carries(a1, none, a2, none, a3, none);
                            lemma_gives_later(a0, none, a0, none, a1, a3, large, 524288);
                            lemma_follows_itself(a3.inner.env);
                            lemma_gives_later(
                                a0,
                                none,
                                a1,
                                none,
                                a2,
                                *self,
                                common_chunk as int,
                                65536,
                            );
                            if !(reserved is Failed) {
                                lemma_kept_one(a0, a3, *self, large_chunk);
                            }
                            lemma_kept_chunk(
                                a0,
                                a3,
                                *self,
                                433,
                                large,
                                common_chunk as int,
                                reserved is Failed,
                            );
                        }
                        return Ok(Some(common_chunk));
                    },
                }
            },
            None => {},
        }
        let common_chunks = split_large_chunk_to_common(large_chunk);
        match self.reserve(FREE_COMMON, 7, true, &mut no_state) {
            Err(cause) => {
                proof {
                    lemma_broke_after(a0, none, a1, none, *self, (0, 0, large, 524288), (0, 0));
                }
                return Err(cause);
            },
            Ok(Reserved::Failed) => {
                proof {
                    lemma_carries(a0, none, a1, none, *self, none);
                    lemma_holds(
                        a0,
                        none,
                        a1,
                        none,
                        *self,
                        none,
                        (0, 0, large, 524288),
                        (0, 0, 0, 0),
                    );
                    lemma_counts(a0, none, a1, none, *self, none, (0, -8), (0, 0));
                    lemma_lost_chunk(a0, none, a1, none, *self, none, -8, 0);
                    lemma_passes(a0, none, a1, none, *self, none, (0, 0, 0, 0), (0, 0, 0, 0));
                    assert(holds(a0, none, *self, none, 0, 0, 0, 0)) by {
                        reveal(holds);
                        assert forall|at: int| #[trigger]
                            total(*self, none, at) <= total(a0, none, at) by {
                            assert(total(*self, none, at) + covers(large, 524288, at) <= total(
                                a0,
                                none,
                                at,
                            ));
                        }
                    }
                }
                return Ok(None);
            },
            Ok(_) => {},
        }
        let ghost a2 = *self;
        proof {
            lemma_alike(a1, none, none);
            assert(carries(a1, none, a2, none));
            lemma_carries(a0, none, a1, none, a2, none);
            assert(holds(a1, none, a2, none, 0, 0, 0, 0));
            lemma_holds(a0, none, a1, none, a2, none, (0, 0, large, 524288), (0, 0, 0, 0));
            assert(counts(a1, none, a2, none, 0, 0));
            lemma_counts(a0, none, a1, none, a2, none, (0, -8), (0, 0));
            lemma_passes(a0, none, a1, none, a2, none, (0, 0, 0, 0), (0, 0, 0, 0));
            lemma_alike(a0, none, none);
            lemma_gives_later(a0, none, a0, none, a1, a2, large, 524288);
            assert(common_chunks@.take(0) =~= Seq::<usize>::empty());
            assert(a2.inner.vectors@[432]@ + common_chunks@.take(0) =~= a2.inner.vectors@[432]@);
        }
        let mut i: usize = 0;
        while i < 7
            invariant
                i <= 7,
                none == None::<State>,
                large == large_chunk,
                large > 0,
                large + 524288 <= usize::MAX,
                forall|k: int| 0 <= k < 8 ==> #[trigger] common_chunks@[k] == large + k * 65536,
                a2.wf(),
                a2.inner.manager_ptr != 0,
                common_chunks@.len() == 8,
                self.inner.vectors@ =~= a2.inner.vectors@.update(432, self.inner.vectors@[432]),
                self.inner.vectors@[432]@ == a2.inner.vectors@[432]@ + common_chunks@.take(
                    i as int,
                ),
                only_elems_changed(a2, *self),
                a2.len_of(432) + 7 <= a2.cap_of(432),
                self.len_of(432) == a2.len_of(432) + i,
                self.potential() == a2.potential() + i,
                self.weight() == a2.weight() + i,
                forall|at: int| #[trigger]
                    self.held(at) == a2.held(at) + covers(large, i * 65536, at),
                forall|class: int|
                    0 <= class < 216 ==> #[trigger] self.live(class) == a2.live(class),
            decreases 7 - i,
        {
            let ghost mid = *self;
            let chunk: usize = common_chunks[i];
            assert(common_chunks@[i as int] == large + i * 65536);
            assert(self.cap_of(432) == a2.cap_of(432));
            self.push_elem(FREE_COMMON, chunk);
            proof {
                assert(common_chunks@.take(i + 1) =~= common_chunks@.take(i as int).push(chunk));
                assert(self.inner.vectors@[432]@ =~= a2.inner.vectors@[432]@ + common_chunks@.take(
                    i + 1,
                ));
                assert forall|k: int| 0 <= k < 435 implies (#[trigger] self.inner.vectors@[k]).ptr
                    == a2.inner.vectors@[k].ptr by {
                    assert(mid.inner.vectors@[k].ptr == a2.inner.vectors@[k].ptr);
                }
                assert forall|at: int| #[trigger]
                    self.held(at) == a2.held(at) + covers(large, (i + 1) * 65536, at) by {
                    assert(mid.held(at) == a2.held(at) + covers(large, i * 65536, at));
                }
                assert forall|class: int| 0 <= class < 216 implies #[trigger] self.live(class)
                    == a2.live(class) by {
                    assert(mid.live(class) == a2.live(class));
                }
                assert forall|k: int| 0 <= k < 435 implies #[trigger] self.cap_of(k)
                    == a2.cap_of(k) by {
                    assert(mid.cap_of(k) == a2.cap_of(k));
                }
            }
            i = i + 1;
        }
        let chunk: usize = common_chunks[7];
        proof {
            lemma_split_kept(a0, a2, *self, large, common_chunks@);
            reveal(holds);
            reveal(counts);
            lemma_sizes_same(a0, a2, *self);
            lemma_follows_itself(a2.inner.env);
            lemma_regions_same(a2, *self);
            assert(common_chunks@[7] == large + 7 * 65536);
            assert(self.incoming() == a2.incoming());
            assert(caps_kept(a0, *self)) by {
                assert forall|k: int| 0 <= k < 435 implies a0.cap_of(k) <= #[trigger] self.cap_of(
                    k,
                ) by {
                    assert(a0.cap_of(k) <= a2.cap_of(k));
                }
            }
            assert forall|at: int| #[trigger]
                total(*self, none, at) + covers(chunk as int, 65536, at) <= total(a0, none, at) by {
                assert(self.held(at) == a2.held(at) + covers(large, 7int * 65536, at));
                assert(total(a2, none, at) + covers(large, 524288, at) <= total(a0, none, at));
            }
            assert forall|class: int| 0 <= class < 216 implies #[trigger] live(*self, none, class)
                >= live(a0, none, class) by {
                assert(self.live(class) == a2.live(class));
                assert(live(a2, none, class) >= live(a0, none, class));
            }
            if is_counted(*self) {
                assert forall|class: int| 0 <= class < 216 implies #[trigger] live(
                    *self,
                    none,
                    class,
                ) <= live(a0, none, class) + slack(a0, *self) by {
                    assert(self.live(class) == a2.live(class));
                    assert(live(a2, none, class) <= live(a0, none, class) + slack(a0, a2));
                }
            }
        }
        Ok(Some(chunk))
    }

    /// Takes a common chunk that is not carved yet, or one of a large chunk.
    pub fn get_common_chunk(&mut self) -> (r: Result<Option<usize>, PanicCause>)
        requires
            old(self).wf(),
        ensures
            took_chunk(*old(self), None, *final(self), None, 65536, r, true),
            old(self).len_of(432) > 0 ==> r == Ok::<Option<usize>, PanicCause>(
                Some(old(self).inner.vectors@[432]@.last()),
            ) && took_last(*old(self), *final(self), 432),
            old(self).len_of(432) == 0 && old(self).len_of(433) == 0 && !can_take_region(
                old(self).inner.env,
                true,
            ) ==> r == Ok::<Option<usize>, PanicCause>(None) && refused_region(
                *old(self),
                *final(self),
                true,
            ),
            old(self).len_of(432) == 0 && old(self).len_of(433) == 0 && (r is Ok && r->Ok_0 is Some)
                ==> has_tables(*final(self)),
            is_set_up(*old(self)) && r is Ok ==> is_set_up(*final(self)),
        decreases
                old(self).unread(),
                chunks_left(*old(self), None),
                old(self).incoming().len(),
                old(self).spare(),
                24int,
    {
        proof {
            lemma_spare(*self, *self);
        }
        proof {
            if has_nothing(*self) {
                lemma_has_nothing(*self);
                assert(self.len_of(432) == 0);
            }
        }
        match self.try_get_common_chunk() {
            Some(chunk) => Ok(Some(chunk)),
            None => self.get_common_chunk_slow(),
        }
    }
}

/// A large chunk that is kept again.
proof fn lemma_kept_one<N: NonLocalPtrManager>(
    a0: ThreadLocalAllocator<N>,
    a1: ThreadLocalAllocator<N>,
    a2: ThreadLocalAllocator<N>,
    chunk: usize,
)
    requires
        a1.wf(),
        passes(a0, None, a1, None, (0, 0, 0, 0)),
        only_elems_changed(a1, a2),
        a2.inner.vectors@ == a1.inner.vectors@.update(433, a2.inner.vectors@[433]),
        a2.inner.vectors@[433]@ == a1.inner.vectors@[433]@.push(chunk),
        gives_chunk(a0, None, a1, chunk as int, 524288),
    ensures
        passes(a0, None, a2, None, (0, 0, 0, 0)),
{
    assert(a1.inner.vectors@[433]@.push(chunk) =~= a1.inner.vectors@[433]@ + seq![chunk]);
    lemma_passes_kept(a0, a1, a2, 433, seq![chunk]);
}

/// A large chunk that is split: seven common chunks are kept, and the last one is taken.
proof fn lemma_split_kept<N: NonLocalPtrManager>(
    a0: ThreadLocalAllocator<N>,
    a1: ThreadLocalAllocator<N>,
    a2: ThreadLocalAllocator<N>,
    large: int,
    chunks: Seq<usize>,
)
    requires
        a1.wf(),
        passes(a0, None, a1, None, (0, 0, 0, 0)),
        gives_chunk(a0, None, a1, large, 524288),
        only_elems_changed(a1, a2),
        a2.inner.vectors@ == a1.inner.vectors@.update(432, a2.inner.vectors@[432]),
        chunks.len() == 8,
        a2.inner.vectors@[432]@ == a1.inner.vectors@[432]@ + chunks.take(7),
        forall|k: int| 0 <= k < 8 ==> #[trigger] chunks[k] == large + k * 65536,
        0 < large,
        large + 524288 <= usize::MAX,
    ensures
        passes(a0, None, a2, None, (0, 0, 0, 0)),
        gives_chunk(a0, None, a2, chunks[7] as int, 65536),
{
    assert forall|k: int| 0 <= k < 8 implies gives_chunk(
        a0,
        None,
        a1,
        #[trigger] chunks[k] as int,
        65536,
    ) by {
        reveal(gives_chunk);
        assert forall|promised: Set<int>| #[trigger]
            owns_with(a0, None, promised) implies is_placed(
            a1.inner.env,
            chunks[k] as int,
            65536,
        ) by {
            lemma_split_placed(a1.inner.env, large);
            assert(split_chunks(large)[k].0 == chunks[k]);
        }
    }
    let kept = chunks.take(7);
    assert forall|i: int| 0 <= i < kept.len() implies gives_chunk(
        a0,
        None,
        a1,
        #[trigger] kept[i] as int,
        held_size(432),
    ) by {
        assert(kept[i] == chunks[i]);
    }
    lemma_passes_kept(a0, a1, a2, 432, kept);
    assert(gives_chunk(a0, None, a2, chunks[7] as int, 65536)) by {
        assert(gives_chunk(a0, None, a1, chunks[7] as int, 65536));
        reveal(gives_chunk);
    }
}

} // verus!
