//! How an allocator takes over what a state holds.
use crate::accounts::done;
use crate::blocks::{addresses, chunks_cover, rests_cover, run_of_blocks, Chunk};
use crate::chunk_buffer::{buffer_get, buffer_len, chunks_in, ChunkBuffer};
use crate::inner::{elem_weight, ThreadLocalAllocatorInner, FIRST_CHUNKS, FREE_COMMON, FREE_LARGE};
use crate::non_local_ptr_manager::{offset_of_class, NonLocalPtrManager, OffsetToSlotInTable};
use crate::os::{ChunkMetadata, Environment};
use crate::region::{
    init_metadata_for_common_chunk, init_metadata_for_large_chunk, is_metadata_key, metadata_of,
    metadata_or_zero, only_metadata_changed,
};
use crate::sizes::{
    class_of, class_size, lemma_class, lemma_class_of, size_to_class, slots_of_class,
};
use crate::state::{free_chunk_wf, handed_out, used_chunk_wf, NodeView, StateNode};
use crate::steps::{lemma_chunk_taken, lemma_room_kept, lemma_slots_next, lemma_slots_take};
use crate::thread_local_allocator::ThreadLocalAllocator;
use crate::vectors::only_elems_changed;
use vstd::prelude::*;

verus! {

/// How many objects of the class are left in carved chunks.
pub open spec fn free_slots(chunks: Seq<Chunk>, class: int) -> int
    decreases chunks.len(),
{
    if chunks.len() == 0 {
        0
    } else {
        free_slots(chunks.drop_last(), class) + (if class_of(chunks.last().1 as int) == class {
            chunks.last().2 as int
        } else {
            0
        })
    }
}

/// How many of the chunks are carved into objects of the class.
pub open spec fn chunks_of_class(chunks: Seq<Chunk>, class: int) -> int
    decreases chunks.len(),
{
    if chunks.len() == 0 {
        0
    } else {
        chunks_of_class(chunks.drop_last(), class) + (if class_of(chunks.last().1 as int)
            == class {
            1int
        } else {
            0
        })
    }
}

/// Whether the vectors of objects have room for what is left in carved chunks.
pub open spec fn has_room_for_objects<N: NonLocalPtrManager>(
    a: ThreadLocalAllocator<N>,
    chunks: Seq<Chunk>,
) -> bool {
    forall|class: int|
        0 <= class < 216 ==> #[trigger] a.len_of(class) + free_slots(chunks, class) <= a.cap_of(
            class,
        )
}

/// Whether the vectors of chunks have room for carved chunks.
pub open spec fn has_room_for_chunks<N: NonLocalPtrManager>(
    a: ThreadLocalAllocator<N>,
    chunks: Seq<Chunk>,
) -> bool {
    forall|slot: int|
        216 <= slot < 432 ==> #[trigger] a.len_of(slot) + chunks_of_class(chunks, slot - 216)
            <= a.cap_of(slot)
}

/// Whether the vectors have room for all that a node holds.
pub open spec fn has_room_for_node<N: NonLocalPtrManager>(
    a: ThreadLocalAllocator<N>,
    node: NodeView,
) -> bool {
    &&& has_room_for_objects(a, node.used_common)
    &&& has_room_for_objects(a, node.used_large)
    &&& has_room_for_chunks(a, node.used_common)
    &&& has_room_for_chunks(a, node.used_large)
    &&& a.len_of(434) + 1 <= a.cap_of(434)
    &&& a.len_of(433) + node.free_large.len() <= a.cap_of(433)
    &&& a.len_of(432) + node.free_common.len() <= a.cap_of(432)
}

/// Whether nothing differs but the contents of the vectors and the metadata of chunks.
pub open spec fn only_filled<N: NonLocalPtrManager>(
    a0: ThreadLocalAllocator<N>,
    a1: ThreadLocalAllocator<N>,
) -> bool {
    &&& a1.wf()
    &&& a1.inner == (ThreadLocalAllocatorInner {
        vectors: a1.inner.vectors,
        occupied: a1.inner.occupied,
        env: a1.inner.env,
        ..a0.inner
    })
    &&& only_metadata_changed(a0.inner.env, a1.inner.env)
    &&& a1.non_local_ptr_manager == a0.non_local_ptr_manager
    &&& a1.spare() == a0.spare()
    &&& forall|slot: int| 0 <= slot < 435 ==> #[trigger] a1.cap_of(slot) == a0.cap_of(slot)
    &&& forall|slot: int|
        0 <= slot < 435 ==> (#[trigger] a1.inner.vectors@[slot]).ptr == a0.inner.vectors@[slot].ptr
}

/// The objects of a class that are left in carved chunks, chunk by chunk.
pub open spec fn objects_left(chunks: Seq<Chunk>, class: int) -> Seq<usize>
    decreases chunks.len(),
{
    if chunks.len() == 0 {
        Seq::empty()
    } else {
        let chunk = chunks.last();
        let before = objects_left(chunks.drop_last(), class);
        if class_of(chunk.1 as int) == class {
            before + run_of_blocks(chunk.0 as int, chunk.1 as int, chunk.2 as int)
        } else {
            before
        }
    }
}

/// The carved chunks of a class.
pub open spec fn chunks_listed(chunks: Seq<Chunk>, class: int) -> Seq<usize>
    decreases chunks.len(),
{
    if chunks.len() == 0 {
        Seq::empty()
    } else {
        let before = chunks_listed(chunks.drop_last(), class);
        if class_of(chunks.last().1 as int) == class {
            before.push(chunks.last().0)
        } else {
            before
        }
    }
}

/// What carved chunks bring to a vector.
pub open spec fn brought_by(chunks: Seq<Chunk>, slot: int) -> Seq<usize> {
    if slot < 216 {
        objects_left(chunks, slot)
    } else if slot < 432 {
        chunks_listed(chunks, slot - 216)
    } else {
        Seq::empty()
    }
}

/// The metadata at a place after the owner of carved chunks was noted, chunk by chunk.
pub open spec fn owner_at(
    env: Environment,
    chunks: Seq<Chunk>,
    manager: usize,
    key: usize,
) -> Option<ChunkMetadata>
    decreases chunks.len(),
{
    if chunks.len() == 0 {
        metadata_or_zero(env, key)
    } else {
        let chunk = chunks.last();
        let class = class_of(chunk.1 as int);
        let n = if class < 128 {
            1int
        } else {
            8
        };
        if is_metadata_key(metadata_of(env.region_size as int, chunk.0 as int), n, key as int) {
            Some(
                ChunkMetadata {
                    non_local_ptr_manager: manager,
                    offset_to_slot_in_table: offset_of_class(class),
                },
            )
        } else {
            owner_at(env, chunks.drop_last(), manager, key)
        }
    }
}

/// What taking over carved chunks does to the vectors and to the metadata.
#[verifier::opaque]
pub open spec fn took_chunks<N: NonLocalPtrManager>(
    a0: ThreadLocalAllocator<N>,
    a1: ThreadLocalAllocator<N>,
    chunks: Seq<Chunk>,
    manager: usize,
) -> bool {
    &&& forall|slot: int|
        0 <= slot < 435 ==> (#[trigger] a1.inner.vectors@[slot])@ == a0.inner.vectors@[slot]@
            + brought_by(chunks, slot)
    &&& forall|key: usize| #[trigger]
        metadata_or_zero(a1.inner.env, key) == owner_at(a0.inner.env, chunks, manager, key)
}

/// Where there are no chunks, nothing is taken over.
proof fn lemma_took_nothing<N: NonLocalPtrManager>(a: ThreadLocalAllocator<N>, manager: usize)
    ensures
        took_chunks(a, a, Seq::empty(), manager),
{
    reveal(took_chunks);
    let none = Seq::<Chunk>::empty();
    assert forall|slot: int| 0 <= slot < 435 implies (#[trigger] a.inner.vectors@[slot])@
        == a.inner.vectors@[slot]@ + brought_by(none, slot) by {
        assert(a.inner.vectors@[slot]@ + brought_by(none, slot) =~= a.inner.vectors@[slot]@);
    }
}

/// One more carved chunk that is taken over: its objects are made free, it is listed, and its
/// owner is noted.
proof fn lemma_took_chunk<N: NonLocalPtrManager>(
    a0: ThreadLocalAllocator<N>,
    a1: ThreadLocalAllocator<N>,
    a2: ThreadLocalAllocator<N>,
    a3: ThreadLocalAllocator<N>,
    a4: ThreadLocalAllocator<N>,
    chunks: Seq<Chunk>,
    i: int,
    class: int,
    manager: usize,
)
    requires
        0 <= i < chunks.len(),
        0 <= class < 216,
        class == class_of(chunks[i].1 as int),
        class_size(class) == chunks[i].1,
        a1.wf(),
        a1.inner.env.region_size == a0.inner.env.region_size,
        took_chunks(a0, a1, chunks.take(i), manager),
        a2.inner.vectors@ == a1.inner.vectors@.update(class, a2.inner.vectors@[class]),
        a2.inner.vectors@[class]@ == a1.inner.vectors@[class]@ + run_of_blocks(
            chunks[i].0 as int,
            class_size(class),
            chunks[i].2 as int,
        ),
        a2.inner.env == a1.inner.env,
        a3.inner.vectors@ == a2.inner.vectors@.update(216 + class, a3.inner.vectors@[216 + class]),
        a3.inner.vectors@[216 + class]@ == a2.inner.vectors@[216 + class]@.push(chunks[i].0),
        a3.inner.env == a2.inner.env,
        a4.inner.vectors == a3.inner.vectors,
        forall|key: usize| #[trigger]
            metadata_or_zero(a4.inner.env, key) == if is_metadata_key(
                metadata_of(a3.inner.env.region_size as int, chunks[i].0 as int),
                if class < 128 {
                    1
                } else {
                    8
                },
                key as int,
            ) {
                Some(
                    ChunkMetadata {
                        non_local_ptr_manager: manager,
                        offset_to_slot_in_table: offset_of_class(class),
                    },
                )
            } else {
                metadata_or_zero(a3.inner.env, key)
            },
    ensures
        took_chunks(a0, a4, chunks.take(i + 1), manager),
{
    reveal(took_chunks);
    let done = chunks.take(i);
    let more = chunks.take(i + 1);
    assert(more.drop_last() =~= done);
    assert(more.last() == chunks[i]);
    assert(a1.inner.vectors@.len() == 435);
    assert forall|slot: int| 0 <= slot < 435 implies (#[trigger] a4.inner.vectors@[slot])@
        == a0.inner.vectors@[slot]@ + brought_by(more, slot) by {
        let before = a0.inner.vectors@[slot]@;
        assert(a1.inner.vectors@[slot]@ == before + brought_by(done, slot));
        if slot == class {
            assert(a4.inner.vectors@[slot] == a2.inner.vectors@[class]);
            assert(before + brought_by(done, slot) + run_of_blocks(
                chunks[i].0 as int,
                chunks[i].1 as int,
                chunks[i].2 as int,
            ) =~= before + brought_by(more, slot));
        } else if slot == 216 + class {
            assert(a2.inner.vectors@[slot] == a1.inner.vectors@[slot]);
            assert((before + brought_by(done, slot)).push(chunks[i].0) =~= before + brought_by(
                more,
                slot,
            ));
        } else {
            assert(a2.inner.vectors@[slot] == a1.inner.vectors@[slot]);
            assert(a3.inner.vectors@[slot] == a2.inner.vectors@[slot]);
            assert(brought_by(more, slot) == brought_by(done, slot));
        }
    }
    assert forall|key: usize| #[trigger]
        metadata_or_zero(a4.inner.env, key) == owner_at(a0.inner.env, more, manager, key) by {
        assert(metadata_or_zero(a1.inner.env, key) == owner_at(a0.inner.env, done, manager, key));
    }
}

/// What a node brings to a vector.
pub open spec fn node_brings(node: NodeView, slot: int) -> Seq<usize> {
    if slot < 432 {
        brought_by(node.used_common, slot) + brought_by(node.used_large, slot)
    } else if slot == 432 {
        addresses(node.free_common)
    } else if slot == 433 {
        addresses(node.free_large)
    } else {
        seq![node.region_ptr]
    }
}

/// What taking over a node does: the objects that are left in its chunks are free objects, its
/// chunks and its region are listed, and the manager is noted as the owner of the carved chunks.
pub open spec fn took_node<N: NonLocalPtrManager>(
    a0: ThreadLocalAllocator<N>,
    a1: ThreadLocalAllocator<N>,
    node: NodeView,
    manager: usize,
) -> bool {
    &&& only_filled(a0, a1)
    &&& forall|slot: int|
        0 <= slot < 435 ==> (#[trigger] a1.inner.vectors@[slot])@ == a0.inner.vectors@[slot]@
            + node_brings(node, slot)
    &&& forall|key: usize| #[trigger]
        metadata_or_zero(a1.inner.env, key) == owner_at(
            a0.inner.env,
            node.used_common + node.used_large,
            manager,
            key,
        )
}

/// The metadata after two groups of chunks.
proof fn lemma_owner_at_add(
    env0: Environment,
    env1: Environment,
    first: Seq<Chunk>,
    second: Seq<Chunk>,
    manager: usize,
    key: usize,
)
    requires
        env1.region_size == env0.region_size,
        metadata_or_zero(env1, key) == owner_at(env0, first, manager, key),
    ensures
        owner_at(env1, second, manager, key) == owner_at(env0, first + second, manager, key),
    decreases second.len(),
{
    if second.len() == 0 {
        assert(first + second =~= first);
    } else {
        assert((first + second).drop_last() =~= first + second.drop_last());
        lemma_owner_at_add(env0, env1, first, second.drop_last(), manager, key);
    }
}

/// A node that is taken over step by step.
proof fn lemma_took_node<N: NonLocalPtrManager>(
    a0: ThreadLocalAllocator<N>,
    a1: ThreadLocalAllocator<N>,
    a2: ThreadLocalAllocator<N>,
    a3: ThreadLocalAllocator<N>,
    a4: ThreadLocalAllocator<N>,
    a5: ThreadLocalAllocator<N>,
    node: NodeView,
    manager: usize,
)
    requires
        only_filled(a0, a5),
        a1.inner.env.region_size == a0.inner.env.region_size,
        took_chunks(a0, a1, node.used_common, manager),
        took_chunks(a1, a2, node.used_large, manager),
        forall|slot: int|
            0 <= slot < 434 ==> (#[trigger] a3.inner.vectors@[slot]) == a2.inner.vectors@[slot],
        a3.inner.vectors@[434]@ == a2.inner.vectors@[434]@.push(node.region_ptr),
        a3.inner.env == a2.inner.env,
        forall|slot: int|
            0 <= slot < 435 ==> (#[trigger] a4.inner.vectors@[slot])@ == a3.inner.vectors@[slot]@
                + (if slot == 432 {
                addresses(node.free_common)
            } else {
                Seq::empty()
            }),
        a4.inner.env == a3.inner.env,
        forall|slot: int|
            0 <= slot < 435 ==> (#[trigger] a5.inner.vectors@[slot])@ == a4.inner.vectors@[slot]@
                + (if slot == 433 {
                addresses(node.free_large)
            } else {
                Seq::empty()
            }),
        a5.inner.env == a4.inner.env,
    ensures
        took_node(a0, a5, node, manager),
{
    reveal(took_chunks);
    assert forall|slot: int| 0 <= slot < 435 implies (#[trigger] a5.inner.vectors@[slot])@
        == a0.inner.vectors@[slot]@ + node_brings(node, slot) by {
        let v0 = a0.inner.vectors@[slot]@;
        let none = Seq::<usize>::empty();
        assert(a1.inner.vectors@[slot]@ == v0 + brought_by(node.used_common, slot));
        assert(a2.inner.vectors@[slot]@ == a1.inner.vectors@[slot]@ + brought_by(
            node.used_large,
            slot,
        ));
        if slot < 434 {
            assert(a3.inner.vectors@[slot] == a2.inner.vectors@[slot]);
        }
        assert(a4.inner.vectors@[slot]@ == a3.inner.vectors@[slot]@ + (if slot == 432 {
            addresses(node.free_common)
        } else {
            none
        }));
        assert(a5.inner.vectors@[slot]@ =~= v0 + node_brings(node, slot));
    }
    assert forall|key: usize| #[trigger]
        metadata_or_zero(a5.inner.env, key) == owner_at(
            a0.inner.env,
            node.used_common + node.used_large,
            manager,
            key,
        ) by {
        assert(metadata_or_zero(a1.inner.env, key) == owner_at(
            a0.inner.env,
            node.used_common,
            manager,
            key,
        ));
        assert(metadata_or_zero(a2.inner.env, key) == owner_at(
            a1.inner.env,
            node.used_large,
            manager,
            key,
        ));
        lemma_owner_at_add(
            a0.inner.env,
            a1.inner.env,
            node.used_common,
            node.used_large,
            manager,
            key,
        );
    }
}

/// Bytes in a chunk that is not carved.
pub open spec fn free_chunk_size(is_common: bool) -> int {
    if is_common {
        65536
    } else {
        524288
    }
}

impl<N: NonLocalPtrManager> ThreadLocalAllocator<N> {
    /// Takes over the carved chunks of a node: what is left in them becomes free objects, and they
    /// are listed with the chunks of their class.
    pub(crate) fn take_used_chunks(&mut self, node: &StateNode, common: bool, manager: usize)
        requires
            old(self).wf(),
            node@.wf(old(self).inner.env.region_size as int),
            has_room_for_objects(*old(self), node@.used(common)),
            has_room_for_chunks(*old(self), node@.used(common)),
        ensures
            only_filled(*old(self), *final(self)),
            took_chunks(*old(self), *final(self), node@.used(common), manager),
            final(self).inner.occupied == old(self).inner.occupied,
            forall|at: int| #[trigger]
                final(self).held(at) == old(self).held(at) + rests_cover(node@.used(common), at),
            forall|class: int|
                0 <= class < 216 ==> #[trigger] final(self).live(class) == old(self).live(class)
                    + handed_out(node@.used(common), class),
            final(self).potential() == old(self).potential(),
            final(self).weight() == old(self).weight() + node@.used(common).len() * (if common {
                1int
            } else {
                8
            }),
            forall|slot: int|
                432 <= slot < 435 ==> #[trigger] final(self).len_of(slot) == old(self).len_of(slot),
            forall|slot: int|
                0 <= slot < 216 ==> #[trigger] final(self).len_of(slot) == old(self).len_of(slot)
                    + free_slots(node@.used(common), slot),
            forall|slot: int|
                216 <= slot < 432 ==> #[trigger] final(self).len_of(slot) == old(self).len_of(slot)
                    + chunks_of_class(node@.used(common), slot - 216),
    {
        let ghost a0 = *self;
        let ghost chunks = node@.used(common);
        let n: usize = node.used_len(common);
        let mut i: usize = 0;
        proof {
            assert(chunks.take(0) =~= Seq::<Chunk>::empty());
            lemma_took_nothing(a0, manager);
        }
        while i < n
            invariant
                i <= n,
                n == chunks.len(),
                chunks == node@.used(common),
                took_chunks(a0, *self, chunks.take(i as int), manager),
                a0.wf(),
                node@.wf(a0.inner.env.region_size as int),
                has_room_for_objects(a0, chunks),
                has_room_for_chunks(a0, chunks),
                only_filled(a0, *self),
                self.inner.occupied == a0.inner.occupied,
                forall|at: int| #[trigger]
                    self.held(at) == a0.held(at) + rests_cover(chunks.take(i as int), at),
                forall|class: int|
                    0 <= class < 216 ==> #[trigger] self.live(class) == a0.live(class)
                        + handed_out(chunks.take(i as int), class),
                self.potential() == a0.potential(),
                self.weight() == a0.weight() + i * (if common {
                    1int
                } else {
                    8
                }),
                forall|slot: int|
                    432 <= slot < 435 ==> #[trigger] self.len_of(slot) == a0.len_of(slot),
                forall|slot: int|
                    0 <= slot < 216 ==> #[trigger] self.len_of(slot) == a0.len_of(slot)
                        + free_slots(chunks.take(i as int), slot),
                forall|slot: int|
                    216 <= slot < 432 ==> #[trigger] self.len_of(slot) == a0.len_of(slot)
                        + chunks_of_class(chunks.take(i as int), slot - 216),
            decreases n - i,
        {
            let ghost a1 = *self;
            let chunk = node.used_chunk(common, i);
            proof {
                assert(used_chunk_wf(chunks[i as int], common));
                lemma_class_of(chunk.1 as int);
                lemma_slots_next(chunks, i as int);
            }
            let class: usize = size_to_class(chunk.1);
            let ghost c = class as int;
            let ghost size = class_size(c);
            proof {
                lemma_class(c);
                lemma_slots_take(chunks, i + 1, c);
                assert(a0.len_of(c) + free_slots(chunks, c) <= a0.cap_of(c));
                assert(a0.len_of(216 + c) + chunks_of_class(chunks, c) <= a0.cap_of(216 + c)) by {
                    assert(a0.len_of(216 + c) + chunks_of_class(chunks, 216 + c - 216)
                        <= a0.cap_of(216 + c));
                }
                assert(a1.cap_of(c) == a0.cap_of(c));
                assert(a1.cap_of(216 + c) == a0.cap_of(216 + c));
                assert(a1.len_of(c) == a0.len_of(c) + free_slots(chunks.take(i as int), c));
                assert(a1.len_of(216 + c) == a0.len_of(216 + c) + chunks_of_class(
                    chunks.take(i as int),
                    216 + c - 216,
                ));
                assert(chunk.2 * size <= slots_of_class(c) * size) by (nonlinear_arith)
                    requires
                        chunk.2 <= slots_of_class(c),
                        8 <= size,
                ;
                assert(chunk.2 * size == chunk.1 * chunk.2) by (nonlinear_arith)
                    requires
                        size == chunk.1,
                ;
            }
            self.fill(class, chunk.0, chunk.2);
            let ghost a2 = *self;
            assert(a2.cap_of(216 + c) == a1.cap_of(216 + c));
            assert(a2.len_of(216 + c) == a1.len_of(216 + c));
            self.push_elem(FIRST_CHUNKS + class, chunk.0);
            let ghost a3 = *self;
            let offset = OffsetToSlotInTable::new_for_class(class);
            if common {
                init_metadata_for_common_chunk(&mut self.inner.env, manager, offset, chunk.0);
            } else {
                init_metadata_for_large_chunk(&mut self.inner.env, manager, offset, chunk.0);
            }
            proof {
                lemma_chunk_taken(a0, a1, a2, a3, *self, chunks, i as int, c);
                assert(self.weight() == a3.weight()) by {
                    assert(self.inner.parts() == a3.inner.parts());
                }
                assert(elem_weight(216 + c) == if common {
                    1int
                } else {
                    8
                });
                lemma_took_chunk(a0, a1, a2, a3, *self, chunks, i as int, c, manager);
            }
            i = i + 1;
        }
        assert(chunks.take(n as int) =~= chunks);
    }

    /// Takes over the chunks of a node that are not carved.
    pub(crate) fn take_free_chunks(&mut self, chunks: &ChunkBuffer, is_common: bool)
        requires
            old(self).wf(),
            old(self).inner.manager_ptr != 0,
            is_common ==> old(self).len_of(432) + chunks_in(*chunks).len() <= old(self).cap_of(432),
            !is_common ==> old(self).len_of(433) + chunks_in(*chunks).len() <= old(self).cap_of(
                433,
            ),
            forall|i: int|
                0 <= i < chunks_in(*chunks).len() ==> #[trigger] free_chunk_wf(
                    chunks_in(*chunks)[i],
                    free_chunk_size(is_common),
                ),
        ensures
            only_elems_changed(*old(self), *final(self)),
            forall|slot: int|
                0 <= slot < 435 ==> (#[trigger] final(self).inner.vectors@[slot])@ == old(self).inner.vectors@[slot]@ + (if slot == (if is_common {
                    432int
                } else {
                    433
                }) {
                    addresses(chunks_in(*chunks))
                } else {
                    Seq::empty()
                }),
            forall|at: int| #[trigger]
                final(self).held(at) == old(self).held(at) + chunks_cover(
                    chunks_in(*chunks),
                    free_chunk_size(is_common),
                    at,
                ),
            forall|class: int|
                0 <= class < 216 ==> #[trigger] final(self).live(class) == old(self).live(class),
            final(self).potential() == old(self).potential() + chunks_in(*chunks).len() * (
            if is_common {
                1int
            } else {
                8
            }),
            final(self).weight() == old(self).weight() + chunks_in(*chunks).len() * (if is_common {
                1int
            } else {
                8
            }),
            is_common ==> final(self).len_of(433) == old(self).len_of(433),
            final(self).len_of(434) == old(self).len_of(434),
    {
        let ghost a0 = *self;
        let ghost all = chunks_in(*chunks);
        let ghost size = free_chunk_size(is_common);
        let ghost unit = if is_common {
            1int
        } else {
            8
        };
        let slot: usize = if is_common {
            FREE_COMMON
        } else {
            FREE_LARGE
        };
        let n: usize = buffer_len(chunks);
        let mut i: usize = 0;
        proof {
            assert(all.take(0) =~= Seq::<Chunk>::empty());
            assert(a0.inner.vectors@[slot as int]@ + addresses(all.take(0))
                =~= a0.inner.vectors@[slot as int]@);
        }
        while i < n
            invariant
                self.inner.vectors@ =~= a0.inner.vectors@.update(
                    slot as int,
                    self.inner.vectors@[slot as int],
                ),
                self.inner.vectors@[slot as int]@ == a0.inner.vectors@[slot as int]@ + addresses(
                    all.take(i as int),
                ),
                i <= n,
                n == all.len(),
                all == chunks_in(*chunks),
                slot == (if is_common {
                    432int
                } else {
                    433
                }),
                size == free_chunk_size(is_common),
                unit == (if is_common {
                    1int
                } else {
                    8
                }),
                a0.wf(),
                a0.inner.manager_ptr != 0,
                a0.len_of(slot as int) + n <= a0.cap_of(slot as int),
                forall|k: int|
                    0 <= k < all.len() ==> #[trigger] free_chunk_wf(all[k], size),
                only_elems_changed(a0, *self),
                forall|k: int|
                    0 <= k < 435 && k != slot ==> #[trigger] self.len_of(k) == a0.len_of(k),
                self.len_of(slot as int) == a0.len_of(slot as int) + i,
                self.potential() == a0.potential() + i * unit,
                self.weight() == a0.weight() + i * unit,
                forall|at: int| #[trigger]
                    self.held(at) == a0.held(at) + chunks_cover(all.take(i as int), size, at),
                forall|class: int|
                    0 <= class < 216 ==> #[trigger] self.live(class) == a0.live(class),
            decreases n - i,
        {
            let ghost a1 = *self;
            let chunk = buffer_get(chunks, i);
            assert(free_chunk_wf(all[i as int], size));
            assert(self.cap_of(slot as int) == a0.cap_of(slot as int));
            self.push_elem(slot, chunk.0);
            proof {
                assert(all.take(i + 1).drop_last() =~= all.take(i as int));
                assert(addresses(all.take(i + 1)) =~= addresses(all.take(i as int)).push(chunk.0));
                assert(self.inner.vectors@[slot as int]@ =~= a0.inner.vectors@[slot as int]@
                    + addresses(all.take(i + 1)));
                assert forall|at: int| #[trigger]
                    self.held(at) == a0.held(at) + chunks_cover(all.take(i + 1), size, at) by {
                    assert(a1.held(at) == a0.held(at) + chunks_cover(
                        all.take(i as int),
                        size,
                        at,
                    ));
                }
                assert forall|class: int| 0 <= class < 216 implies #[trigger] self.live(class)
                    == a0.live(class) by {
                    assert(a1.live(class) == a0.live(class));
                }
                assert forall|k: int| 0 <= k < 435 implies #[trigger] self.cap_of(k)
                    == a0.cap_of(k) by {
                    assert(a1.cap_of(k) == a0.cap_of(k));
                }
                assert forall|k: int| 0 <= k < 435 implies (#[trigger] self.inner.vectors@[k]).ptr
                    == a0.inner.vectors@[k].ptr by {
                    assert(a1.inner.vectors@[k].ptr == a0.inner.vectors@[k].ptr);
                }
                assert forall|k: int| 0 <= k < 435 && k != slot implies #[trigger] self.len_of(k)
                    == a0.len_of(k) by {
                    assert(a1.len_of(k) == a0.len_of(k));
                }
                assert((i + 1) * unit == i * unit + unit) by (nonlinear_arith);
            }
            i = i + 1;
        }
        assert(all.take(n as int) =~= all);
        proof {
            assert(a0.inner.vectors@.len() == 435);
            assert forall|k: int| 0 <= k < 435 implies (#[trigger] self.inner.vectors@[k])@
                == a0.inner.vectors@[k]@ + (if k == slot {
                addresses(all)
            } else {
                Seq::empty()
            }) by {
                if k != slot {
                    assert(self.inner.vectors@[k] == a0.inner.vectors@[k]);
                    assert(a0.inner.vectors@[k]@ + Seq::<usize>::empty()
                        =~= a0.inner.vectors@[k]@);
                }
            }
        }
    }

    /// Lists a region.
    pub(crate) fn take_region(&mut self, region: usize)
        requires
            old(self).wf(),
            region > 0,
            old(self).len_of(434) < old(self).cap_of(434),
        ensures
            only_filled(*old(self), *final(self)),
            forall|at: int| #[trigger] final(self).held(at) == old(self).held(at),
            forall|class: int|
                0 <= class < 216 ==> #[trigger] final(self).live(class) == old(self).live(class),
            final(self).potential() == old(self).potential(),
            final(self).weight() == old(self).weight(),
            forall|slot: int|
                0 <= slot < 434 ==> #[trigger] final(self).len_of(slot) == old(self).len_of(slot),
            final(self).inner.vectors@[434]@ == old(self).inner.vectors@[434]@.push(region),
            forall|slot: int|
                0 <= slot < 434 ==> (#[trigger] final(self).inner.vectors@[slot]) == old(self).inner.vectors@[slot],
            final(self).inner.env == old(self).inner.env,
    {
        let ghost a0 = *self;
        self.inner.push_region(region);
        proof {
            assert(self.incoming() == a0.incoming());
            assert forall|at: int| #[trigger] self.held(at) == a0.held(at) by {
                assert(self.inner.parts().cover(at) == a0.inner.parts().cover(at));
            }
            assert forall|class: int| 0 <= class < 216 implies #[trigger] self.live(class)
                == a0.live(class) by {
                assert(self.inner.parts().out(class) == a0.inner.parts().out(class));
            }
            assert forall|slot: int| 0 <= slot < 435 implies #[trigger] self.cap_of(slot)
                == a0.cap_of(slot) by {
                if slot < 434 {
                    assert(self.inner.vectors@[slot] == a0.inner.vectors@[slot]);
                }
            }
            assert(self.inner.vectors@[432] == a0.inner.vectors@[432]);
            assert(self.inner.vectors@[433] == a0.inner.vectors@[433]);
            assert forall|slot: int| 0 <= slot < 434 implies #[trigger] self.len_of(slot)
                == a0.len_of(slot) by {
                assert(self.inner.vectors@[slot] == a0.inner.vectors@[slot]);
            }
        }
    }

    /// Takes over all that a node holds.
    pub(crate) fn take_node(&mut self, node: &StateNode, manager: usize)
        requires
            old(self).wf(),
            node@.wf(old(self).inner.env.region_size as int),
            node@.address == 0,
            old(self).inner.manager_ptr != 0,
            has_room_for_node(*old(self), node@),
        ensures
            only_filled(*old(self), *final(self)),
            took_node(*old(self), *final(self), node@, manager),
            forall|at: int| #[trigger]
                final(self).held(at) == old(self).held(at) + node@.cover(
                    old(self).inner.env.region_size as int,
                    at,
                ),
            forall|class: int|
                0 <= class < 216 ==> #[trigger] final(self).live(class) == old(self).live(class)
                    + node@.out(old(self).inner.env.region_size as int, class),
            final(self).potential() == old(self).potential() + node@.potential(),
            final(self).weight() == old(self).weight() + node@.weight(),
    {
        let ghost a0 = *self;
        let ghost region_size = a0.inner.env.region_size as int;
        self.take_used_chunks(node, true, manager);
        let ghost a1 = *self;
        proof {
            lemma_room_kept(a0, a1, node@, region_size);
        }
        self.take_used_chunks(node, false, manager);
        let ghost a2 = *self;
        proof {
            assert(a2.len_of(432) == a1.len_of(432) == a0.len_of(432));
            assert(a2.len_of(433) == a1.len_of(433) == a0.len_of(433));
            assert(a2.len_of(434) == a1.len_of(434) == a0.len_of(434));
            assert(a2.cap_of(432) == a1.cap_of(432) == a0.cap_of(432));
            assert(a2.cap_of(433) == a1.cap_of(433) == a0.cap_of(433));
            assert(a2.cap_of(434) == a1.cap_of(434) == a0.cap_of(434));
        }
        self.take_region(node.region_ptr);
        let ghost a3 = *self;
        proof {
            assert(a3.len_of(432) == a2.len_of(432));
            assert(a3.len_of(433) == a2.len_of(433));
            assert(a3.cap_of(432) == a2.cap_of(432));
            assert(a3.cap_of(433) == a2.cap_of(433));
        }
        self.take_free_chunks(&node.free_common_chunks, true);
        let ghost a4 = *self;
        proof {
            assert(a4.cap_of(433) == a3.cap_of(433));
        }
        self.take_free_chunks(&node.free_large_chunks, false);
        proof {
            reveal(NodeView::cover);
            reveal(NodeView::out);
            assert forall|at: int| #[trigger]
                self.held(at) == a0.held(at) + node@.cover(region_size, at) by {
                assert(a4.held(at) == a3.held(at) + chunks_cover(node@.free_common, 65536, at));
                assert(a3.held(at) == a2.held(at));
                assert(a2.held(at) == a1.held(at) + rests_cover(node@.used(false), at));
                assert(a1.held(at) == a0.held(at) + rests_cover(node@.used(true), at));
            }
            assert forall|class: int| 0 <= class < 216 implies #[trigger] self.live(class)
                == a0.live(class) + node@.out(region_size, class) by {
                assert(a4.live(class) == a3.live(class));
                assert(a3.live(class) == a2.live(class));
                assert(a2.live(class) == a1.live(class) + handed_out(node@.used(false), class));
                assert(a1.live(class) == a0.live(class) + handed_out(node@.used(true), class));
            }
            assert forall|slot: int| 0 <= slot < 435 implies #[trigger] self.cap_of(slot)
                == a0.cap_of(slot) by {
                assert(self.cap_of(slot) == a4.cap_of(slot));
                assert(a4.cap_of(slot) == a3.cap_of(slot));
                assert(a3.cap_of(slot) == a2.cap_of(slot));
                assert(a2.cap_of(slot) == a1.cap_of(slot));
                assert(a1.cap_of(slot) == a0.cap_of(slot));
            }
            assert forall|slot: int| 0 <= slot < 435 implies (
            #[trigger] self.inner.vectors@[slot]).ptr == a0.inner.vectors@[slot].ptr by {
                assert(self.inner.vectors@[slot].ptr == a4.inner.vectors@[slot].ptr);
                assert(a4.inner.vectors@[slot].ptr == a3.inner.vectors@[slot].ptr);
                assert(a3.inner.vectors@[slot].ptr == a2.inner.vectors@[slot].ptr);
                assert(a2.inner.vectors@[slot].ptr == a1.inner.vectors@[slot].ptr);
                assert(a1.inner.vectors@[slot].ptr == a0.inner.vectors@[slot].ptr);
            }
            assert(node@.used(true) == node@.used_common);
            assert(node@.used(false) == node@.used_large);
            lemma_took_node(a0, a1, a2, a3, a4, *self, node@, manager);
        }
    }
}

} // verus!
