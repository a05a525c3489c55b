//! How an allocator makes room for what a state holds.
use crate::accounts::{
    chunks_left, counts, failed, lemma_alike, lemma_broke_after, lemma_spare, ready, step,
};
use crate::blocks::Chunk;
use crate::btree_map::lemma_map_of;
use crate::chunk_buffer::buffer_len;
use crate::failures::PanicCause;
use crate::inner::{FIRST_CHUNKS, FREE_COMMON, FREE_LARGE, REGIONS};
use crate::non_local_ptr_manager::NonLocalPtrManager;
use crate::sizes::{class_of, lemma_class, lemma_class_of, size_to_class, slots_of_class};
use crate::state::{is_object_size, used_chunk_wf, State, StateNode};
use crate::steps::{
    lemma_prepared, lemma_room_for_chunks, lemma_room_for_objects, lemma_room_prepared,
    lemma_size_is_class, lemma_slots_next, lemma_slots_take,
};
use crate::takeover::{
    chunks_of_class, free_slots, has_room_for_chunks, has_room_for_node, has_room_for_objects,
};
use crate::thread_local_allocator::ThreadLocalAllocator;
use crate::used_objects::UsedObjectsFixed;
use crate::vec_in_os::made_room;
use crate::vectors::Reserved;
use vstd::prelude::*;

verus! {

/// How many of the tables and of the manager are missing.
pub open spec fn missing<N: NonLocalPtrManager>(a: ThreadLocalAllocator<N>) -> int {
    (if a.inner.manager_ptr == 0 {
        1int
    } else {
        0
    }) + (if a.inner.common_chunk_table == 0 {
        1int
    } else {
        0
    }) + (if a.inner.large_chunk_table == 0 {
        1int
    } else {
        0
    })
}

/// What preparing to commit a state leaves behind: where nothing was allocated, nothing has
/// changed.
pub open spec fn prepared<N: NonLocalPtrManager>(
    a0: ThreadLocalAllocator<N>,
    s0: Option<State>,
    a1: ThreadLocalAllocator<N>,
    s1: Option<State>,
    r: Result<bool, PanicCause>,
) -> bool {
    match r {
        Ok(did_allocate) => {
            &&& step(a0, s0, a1, s1, (0, 0, 0, 0))
            &&& did_allocate ==> a1.spare() < a0.spare() || missing(a1) < missing(a0)
            &&& !did_allocate ==> a1 == a0 && s1 == s0
        },
        Err(cause) => failed(a0, s0, a1, 0, 0, cause),
    }
}

/// How many objects of the size of a carved chunk are left in it and in the chunks before it.
pub(crate) fn slots_needed(node: &StateNode, common: bool, i: usize, Ghost(region_size): Ghost<int>) -> (r:
    u32)
    requires
        node@.wf(region_size),
        i < node@.used(common).len(),
    ensures
        r == free_slots(
            node@.used(common).take(i + 1),
            class_of(node@.used(common)[i as int].1 as int),
        ),
        r <= 0x40_0000,
{
    let ghost chunks = node@.used(common);
    let size: usize = node.used_chunk(common, i).1;
    let ghost class = class_of(size as int);
    let n: usize = node.used_len(common);
    let mut sum: u32 = 0;
    let mut j: usize = 0;
    proof {
        assert(used_chunk_wf(chunks[i as int], common));
        lemma_size_is_class(chunks, common, size);
        assert(chunks.take(0) =~= Seq::<Chunk>::empty());
        lemma_class_of(size as int);
        lemma_class(class);
    }
    while j <= i
        invariant
            j <= i + 1,
            i < n <= 511,
            n == chunks.len(),
            chunks == node@.used(common),
            node@.wf(region_size),
            0 <= class < 216,
            slots_of_class(class) <= 8192,
            class == class_of(size as int),
            forall|k: int|
                0 <= k < chunks.len() ==> (class_of((#[trigger] chunks[k]).1 as int) == class
                    <==> chunks[k].1 == size),
            sum == free_slots(chunks.take(j as int), class),
            sum <= j * 8192,
        decreases i + 1 - j,
    {
        let chunk = node.used_chunk(common, j);
        proof {
            assert(used_chunk_wf(chunks[j as int], common));
            lemma_slots_next(chunks, j as int);
        }
        if chunk.1 == size {
            sum = sum + chunk.2 as u32;
        }
        j = j + 1;
    }
    sum
}

/// How many carved chunks of a node have objects of which size.
pub(crate) fn count_used_chunks(node: &StateNode, common: bool, Ghost(region_size): Ghost<int>) -> (r:
    UsedObjectsFixed<511>)
    requires
        node@.wf(region_size),
    ensures
        r.wf(),
        forall|size: usize|
            is_object_size(size as int) ==> #[trigger] r.number(size) == chunks_of_class(
                node@.used(common),
                class_of(size as int),
            ),
        forall|size: usize| #[trigger]
            r.number(size) > 0 ==> is_object_size(size as int) && (size <= 1024 <==> common),
        forall|size: usize| #[trigger] r.number(size) <= 511,
{
    let ghost chunks = node@.used(common);
    let n: usize = node.used_len(common);
    let mut counts: UsedObjectsFixed<511> = UsedObjectsFixed::new();
    let mut i: usize = 0;
    proof {
        assert(chunks.take(0) =~= Seq::<Chunk>::empty());
    }
    while i < n
        invariant
            i <= n <= 511,
            n == chunks.len(),
            chunks == node@.used(common),
            node@.wf(region_size),
            counts.wf(),
            counts.arr@.len() <= i,
            forall|size: usize|
                is_object_size(size as int) ==> #[trigger] counts.number(size) == chunks_of_class(
                    chunks.take(i as int),
                    class_of(size as int),
                ),
            forall|size: usize| #[trigger]
                counts.number(size) > 0 ==> is_object_size(size as int) && (size <= 1024
                    <==> common),
            forall|size: usize| #[trigger] counts.number(size) <= i,
        decreases n - i,
    {
        let chunk = node.used_chunk(common, i);
        let ghost before = counts;
        let ghost chunk_size = chunk.1;
        proof {
            assert(used_chunk_wf(chunks[i as int], common));
            lemma_slots_next(chunks, i as int);
            assert(counts.number(chunk_size) <= i);
        }
        counts.write_used_number_and_size(chunk.1, 1);
        proof {
            assert forall|size: usize|
                is_object_size(size as int) implies #[trigger] counts.number(size)
                == chunks_of_class(chunks.take(i + 1), class_of(size as int)) by {
                assert(before.number(size) == chunks_of_class(
                    chunks.take(i as int),
                    class_of(size as int),
                ));
                lemma_size_is_class(chunks, common, size);
                assert(class_of(chunks[i as int].1 as int) == class_of(size as int)
                    <==> chunks[i as int].1 == size);
            }
            assert forall|size: usize| #[trigger]
                counts.number(size) > 0 implies is_object_size(size as int) && (size <= 1024
                <==> common) by {
                if size != chunk_size {
                    assert(before.number(size) > 0);
                }
            }
            assert forall|size: usize| #[trigger] counts.number(size) <= i + 1 by {
                assert(before.number(size) <= i);
            }
        }
        i = i + 1;
    }
    assert(chunks.take(n as int) =~= chunks);
    counts
}

impl<N: NonLocalPtrManager> ThreadLocalAllocator<N> {
    /// Makes room for the objects that are left in the carved chunks of the first node.
    pub(crate) fn reserve_for_objects(&mut self, common: bool, state: &mut Option<State>) -> (r: Result<
        bool,
        PanicCause,
    >)
        requires
            ready(*old(self), *old(state)),
            *old(state) is Some,
        ensures
            prepared(*old(self), *old(state), *final(self), *final(state), r),
            r == Ok::<bool, PanicCause>(false) ==> has_room_for_objects(
                *old(self),
                old(state)->0.chain()[0].used(common),
            ),
            has_room_for_objects(*old(self), old(state)->0.chain()[0].used(common)) ==> r == Ok::<
                bool,
                PanicCause,
            >(false),
        decreases
                old(self).unread(),
                chunks_left(*old(self), *old(state)),
                old(self).incoming().len(),
                old(self).spare(),
                42int,
    {
        let ghost a0 = *self;
        let ghost s0 = *state;
        let ghost chunks = s0->0.chain()[0].used(common);
        let mut did_allocate: bool = false;
        let mut i: usize = 0;
        proof {
            lemma_alike(a0, s0, s0);
        }
        loop
            invariant
                a0 == *old(self),
                s0 == *old(state),
                ready(a0, s0),
                s0 is Some,
                chunks == s0->0.chain()[0].used(common),
                ready(*self, *state),
                *state is Some,
                prepared(a0, s0, *self, *state, Ok::<bool, PanicCause>(did_allocate)),
                has_room_for_objects(a0, chunks) ==> !did_allocate,
                !did_allocate ==> i <= chunks.len() && forall|k: int|
                    #![trigger chunks[k]]
                    0 <= k < i ==> a0.len_of(class_of(chunks[k].1 as int)) + free_slots(
                        chunks.take(k + 1),
                        class_of(chunks[k].1 as int),
                    ) <= a0.cap_of(class_of(chunks[k].1 as int)),
                i <= 511,
            ensures
                prepared(a0, s0, *self, *state, Ok::<bool, PanicCause>(did_allocate)),
                has_room_for_objects(a0, chunks) ==> !did_allocate,
                !did_allocate ==> i == chunks.len() && forall|k: int|
                    #![trigger chunks[k]]
                    0 <= k < i ==> a0.len_of(class_of(chunks[k].1 as int)) + free_slots(
                        chunks.take(k + 1),
                        class_of(chunks[k].1 as int),
                    ) <= a0.cap_of(class_of(chunks[k].1 as int)),
            decreases 512 - i,
        {
            let ghost a1 = *self;
            let ghost s1 = *state;
            let (size, additional): (usize, u32) = match state {
                Some(st) => {
                    assert(st.chain()[0].wf(st.region_size as int));
                    if i >= st.nodes[0].used_len(common) {
                        break;
                    }
                    let chunk = st.nodes[0].used_chunk(common, i);
                    proof {
                        assert(used_chunk_wf(st.chain()[0].used(common)[i as int], common));
                    }
                    (
                        chunk.1,
                        slots_needed(&st.nodes[0], common, i, Ghost(st.region_size as int)),
                    )
                },
                None => {
                    break;
                },
            };
            let class: usize = size_to_class(size);
            proof {
                lemma_spare(a0, a1);
                if has_room_for_objects(a0, chunks) {
                    lemma_slots_take(chunks, i + 1, class as int);
                    assert(a0.len_of(class as int) + free_slots(chunks, class as int) <= a0.cap_of(
                        class as int,
                    ));
                }
            }
            let made_room = self.reserve(class, additional, false, state);
            proof {
                lemma_room_prepared(
                    a1,
                    s1,
                    *self,
                    *state,
                    class as int,
                    additional as int,
                    made_room,
                );
            }
            match made_room {
                Ok(Reserved::Enough) => {
                    proof {
                        lemma_prepared(
                            a0,
                            s0,
                            a1,
                            s1,
                            *self,
                            *state,
                            did_allocate,
                            Ok::<bool, PanicCause>(false),
                        );
                    }
                },
                Ok(Reserved::Grown) => {
                    proof {
                        lemma_prepared(
                            a0,
                            s0,
                            a1,
                            s1,
                            *self,
                            *state,
                            did_allocate,
                            Ok::<bool, PanicCause>(true),
                        );
                    }
                    did_allocate = true;
                },
                Ok(Reserved::Failed) => {
                    proof {
                        lemma_broke_after(a0, s0, a1, s1, *self, (0, 0, 0, 0), (0, 0));
                    }
                    return Err(PanicCause::ObjectVector);
                },
                Err(cause) => {
                    proof {
                        lemma_broke_after(a0, s0, a1, s1, *self, (0, 0, 0, 0), (0, 0));
                    }
                    return Err(cause);
                },
            }
            i = i + 1;
        }
        proof {
            if !did_allocate {
                assert(s0->0.chain()[0].wf(s0->0.region_size as int));
                lemma_room_for_objects(a0, chunks, common);
            }
        }
        Ok(did_allocate)
    }

    /// Makes room in the lists of chunks for the carved chunks of the first node.
    pub(crate) fn reserve_for_chunks(&mut self, common: bool, state: &mut Option<State>) -> (r: Result<
        bool,
        PanicCause,
    >)
        requires
            ready(*old(self), *old(state)),
            *old(state) is Some,
        ensures
            prepared(*old(self), *old(state), *final(self), *final(state), r),
            r == Ok::<bool, PanicCause>(false) ==> has_room_for_chunks(
                *old(self),
                old(state)->0.chain()[0].used(common),
            ),
            missing(*old(self)) == 0 && has_room_for_chunks(
                *old(self),
                old(state)->0.chain()[0].used(common),
            ) ==> r == Ok::<bool, PanicCause>(false),
        decreases
                old(self).unread(),
                chunks_left(*old(self), *old(state)),
                old(self).incoming().len(),
                old(self).spare(),
                46int,
    {
        let ghost a0 = *self;
        let ghost s0 = *state;
        let ghost chunks = s0->0.chain()[0].used(common);
        let mut did_allocate: bool = false;
        proof {
            lemma_alike(a0, s0, s0);
            assert(s0->0.chain()[0].wf(s0->0.region_size as int));
        }
        let counts: UsedObjectsFixed<511> = match state {
            Some(st) => count_used_chunks(&st.nodes[0], common, Ghost(st.region_size as int)),
            None => UsedObjectsFixed::new(),
        };
        let n: usize = counts.arr.len();
        let mut i: usize = 0;
        while i < n
            invariant
                i <= n,
                n == counts.arr@.len(),
                counts.wf(),
                a0 == *old(self),
                s0 == *old(state),
                ready(a0, s0),
                s0 is Some,
                chunks == s0->0.chain()[0].used(common),
                ready(*self, *state),
                *state is Some,
                forall|size: usize| #[trigger]
                    counts.number(size) > 0 ==> is_object_size(size as int) && (size <= 1024
                        <==> common),
                forall|size: usize| #[trigger] counts.number(size) <= 511,
                prepared(a0, s0, *self, *state, Ok::<bool, PanicCause>(did_allocate)),
                forall|size: usize|
                    is_object_size(size as int) && (size <= 1024 <==> common)
                        ==> #[trigger] counts.number(size) == chunks_of_class(
                        chunks,
                        class_of(size as int),
                    ),
                missing(a0) == 0 && has_room_for_chunks(a0, chunks) ==> !did_allocate,
                !did_allocate ==> forall|k: int|
                    #![trigger counts.arr@[k]]
                    0 <= k < i ==> a0.len_of(216 + class_of(counts.arr@[k].0 as int))
                        + counts.arr@[k].1 <= a0.cap_of(
                        216 + class_of(counts.arr@[k].0 as int),
                    ),
            decreases n - i,
        {
            let ghost a1 = *self;
            let ghost s1 = *state;
            let (size, number): (usize, u32) = counts.arr[i];
            proof {
                lemma_map_of(counts.arr@);
                assert(counts.arr@[i as int].1 > 0);
                assert(0 < number == counts.number(size) <= 511);
                lemma_class_of(size as int);
                lemma_spare(a0, a1);
            }
            let class: usize = size_to_class(size);
            proof {
                if missing(a0) == 0 && has_room_for_chunks(a0, chunks) {
                    assert(counts.number(size) == number);
                    assert(a0.len_of(216 + class) + chunks_of_class(chunks, 216 + class - 216)
                        <= a0.cap_of(216 + class));
                }
            }
            let is_missing: bool = if common {
                self.inner.common_chunk_table == 0
            } else {
                self.inner.large_chunk_table == 0
            };
            let made = if common {
                self.make_common_chunk_table(state)
            } else {
                self.make_large_chunk_table(state)
            };
            match made {
                Ok(()) => {},
                Err(cause) => {
                    proof {
                        lemma_broke_after(a0, s0, a1, s1, *self, (0, 0, 0, 0), (0, 0));
                    }
                    return Err(cause);
                },
            }
            let ghost a2 = *self;
            let ghost s2 = *state;
            proof {
                lemma_prepared(
                    a0,
                    s0,
                    a1,
                    s1,
                    a2,
                    s2,
                    did_allocate,
                    Ok::<bool, PanicCause>(is_missing),
                );
                lemma_spare(a0, a2);
            }
            did_allocate = did_allocate || is_missing;
            let made_room = self.reserve(FIRST_CHUNKS + class, number, true, state);
            proof {
                lemma_room_prepared(
                    a2,
                    s2,
                    *self,
                    *state,
                    216 + class,
                    number as int,
                    made_room,
                );
            }
            match made_room {
                Ok(Reserved::Enough) => {
                    proof {
                        lemma_prepared(
                            a0,
                            s0,
                            a2,
                            s2,
                            *self,
                            *state,
                            did_allocate,
                            Ok::<bool, PanicCause>(false),
                        );
                    }
                },
                Ok(Reserved::Grown) => {
                    proof {
                        lemma_prepared(
                            a0,
                            s0,
                            a2,
                            s2,
                            *self,
                            *state,
                            did_allocate,
                            Ok::<bool, PanicCause>(true),
                        );
                    }
                    did_allocate = true;
                },
                Ok(Reserved::Failed) => {
                    proof {
                        lemma_broke_after(a0, s0, a2, s2, *self, (0, 0, 0, 0), (0, 0));
                    }
                    return if common {
                        Err(PanicCause::CommonChunks)
                    } else {
                        Err(PanicCause::LargeChunks)
                    };
                },
                Err(cause) => {
                    proof {
                        lemma_broke_after(a0, s0, a2, s2, *self, (0, 0, 0, 0), (0, 0));
                    }
                    return Err(cause);
                },
            }
            i = i + 1;
        }
        proof {
            if !did_allocate {
                lemma_room_for_chunks(a0, chunks, common, counts);
            }
        }
        Ok(did_allocate)
    }

    /// Makes room in one vector as a part of the preparation.
    pub(crate) fn prepare_slot(
        &mut self,
        slot: usize,
        additional: u32,
        cause: PanicCause,
        state: &mut Option<State>,
    ) -> (r: Result<bool, PanicCause>)
        requires
            ready(*old(self), *old(state)),
            432 <= slot < 435,
            additional <= 0x40_0000,
            !cause.is_bound(),
        ensures
            prepared(*old(self), *old(state), *final(self), *final(state), r),
            r == Ok::<bool, PanicCause>(false) <==> old(self).len_of(slot as int) + additional
                <= old(self).cap_of(slot as int),
        decreases
                old(self).unread(),
                chunks_left(*old(self), *old(state)),
                old(self).incoming().len(),
                old(self).spare(),
                41int,
    {
        let ghost a0 = *self;
        let ghost s0 = *state;
        proof {
            lemma_spare(a0, a0);
        }
        let made_room = self.reserve(slot, additional, false, state);
        proof {
            lemma_room_prepared(
                a0,
                s0,
                *self,
                *state,
                slot as int,
                additional as int,
                made_room,
            );
        }
        match made_room {
            Ok(Reserved::Enough) => Ok(false),
            Ok(Reserved::Grown) => Ok(true),
            Ok(Reserved::Failed) => Err(cause),
            Err(cause) => Err(cause),
        }
    }

    /// Makes room for the region and for the chunks of the first node that are not carved.
    pub(crate) fn prepare_to_handle_state_and_return_if_allocated_more(
        &mut self,
        state: &mut Option<State>,
    ) -> (r: Result<bool, PanicCause>)
        requires
            ready(*old(self), *old(state)),
            *old(state) is Some,
        ensures
            prepared(*old(self), *old(state), *final(self), *final(state), r),
            r == Ok::<bool, PanicCause>(false) <==> {
                let node = old(state)->0.chain()[0];
                &&& old(self).len_of(434) + 1 <= old(self).cap_of(434)
                &&& old(self).len_of(433) + node.free_large.len() <= old(self).cap_of(433)
                &&& old(self).len_of(432) + node.free_common.len() <= old(self).cap_of(432)
            },
        decreases
                old(self).unread(),
                chunks_left(*old(self), *old(state)),
                old(self).incoming().len(),
                old(self).spare(),
                42int,
    {
        let ghost a0 = *self;
        let ghost s0 = *state;
        proof {
            lemma_spare(a0, a0);
        }
        let first = match self.prepare_slot(REGIONS, 1, PanicCause::Regions, state) {
            Ok(first) => first,
            Err(cause) => {
                return Err(cause);
            },
        };
        let ghost a1 = *self;
        let ghost s1 = *state;
        proof {
            lemma_spare(a0, a1);
        }
        let large: usize = match state {
            Some(st) => buffer_len(&st.nodes[0].free_large_chunks),
            None => 0,
        };
        let r = self.prepare_slot(FREE_LARGE, large as u32, PanicCause::FreeLargeChunks, state);
        proof {
            lemma_prepared(a0, s0, a1, s1, *self, *state, first, r);
        }
        let second = match r {
            Ok(second) => second,
            Err(cause) => {
                return Err(cause);
            },
        };
        let ghost a2 = *self;
        let ghost s2 = *state;
        proof {
            lemma_spare(a0, a2);
        }
        let common: usize = match state {
            Some(st) => buffer_len(&st.nodes[0].free_common_chunks),
            None => 0,
        };
        let r = self.prepare_slot(FREE_COMMON, common as u32, PanicCause::FreeCommonChunks, state);
        proof {
            lemma_prepared(a0, s0, a2, s2, *self, *state, first || second, r);
        }
        match r {
            Ok(third) => Ok(first || second || third),
            Err(cause) => Err(cause),
        }
    }

    /// Makes room for all that the first node of a state holds. Tells whether anything had to be
    /// allocated for it: the node may then hold something else.
    #[verifier::rlimit(40)]
    pub(crate) fn prepare(&mut self, state: &mut Option<State>) -> (r: Result<bool, PanicCause>)
        requires
            ready(*old(self), *old(state)),
            *old(state) is Some,
        ensures
            prepared(*old(self), *old(state), *final(self), *final(state), r),
            r == Ok::<bool, PanicCause>(false) ==> has_room_for_node(
                *old(self),
                old(state)->0.chain()[0],
            ),
            missing(*old(self)) == 0 && has_room_for_node(*old(self), old(state)->0.chain()[0])
                ==> r == Ok::<bool, PanicCause>(false),
        decreases
                old(self).unread(),
                chunks_left(*old(self), *old(state)),
                old(self).incoming().len(),
                old(self).spare(),
                47int,
    {
        let ghost a0 = *self;
        let ghost s0 = *state;
        proof {
            lemma_spare(a0, a0);
        }
        let mut did_allocate: bool = match self.reserve_for_objects(true, state) {
            Ok(did_allocate) => did_allocate,
            Err(cause) => {
                return Err(cause);
            },
        };
        let ghost a1 = *self;
        let ghost s1 = *state;
        proof {
            lemma_spare(a0, a1);
        }
        let r = self.reserve_for_objects(false, state);
        proof {
            lemma_prepared(a0, s0, a1, s1, *self, *state, did_allocate, r);
        }
        match r {
            Ok(more) => {
                did_allocate = did_allocate || more;
            },
            Err(cause) => {
                return Err(cause);
            },
        }
        let ghost a2 = *self;
        let ghost s2 = *state;
        proof {
            lemma_spare(a0, a2);
        }
        let r = self.reserve_for_chunks(false, state);
        proof {
            lemma_prepared(a0, s0, a2, s2, *self, *state, did_allocate, r);
        }
        match r {
            Ok(more) => {
                did_allocate = did_allocate || more;
            },
            Err(cause) => {
                return Err(cause);
            },
        }
        let ghost a3 = *self;
        let ghost s3 = *state;
        proof {
            lemma_spare(a0, a3);
        }
        let r = self.reserve_for_chunks(true, state);
        proof {
            lemma_prepared(a0, s0, a3, s3, *self, *state, did_allocate, r);
        }
        match r {
            Ok(more) => {
                did_allocate = did_allocate || more;
            },
            Err(cause) => {
                return Err(cause);
            },
        }
        let ghost a4 = *self;
        let ghost s4 = *state;
        proof {
            lemma_spare(a0, a4);
        }
        let r = self.prepare_to_handle_state_and_return_if_allocated_more(state);
        proof {
            lemma_prepared(a0, s0, a4, s4, *self, *state, did_allocate, r);
        }
        match r {
            Ok(more) => Ok(did_allocate || more),
            Err(cause) => Err(cause),
        }
    }
}

} // verus!
