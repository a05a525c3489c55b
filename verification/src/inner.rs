//! The bookkeeping of an allocator.
//!
//! Every vector of the allocator is kept in one table. A vector has its place by what it is for:
//! the free objects of a size class, the chunks that a size class was carved from, the chunks that
//! are not carved yet, the regions.
use crate::blocks::{blocks_cover, covers, lemma_blocks_cover_nonnegative, lemma_blocks_cover_push};
use crate::btree_map::{
    lemma_map_absent, lemma_map_insert, lemma_map_remove, lemma_map_update, nodes_for,
    SelfAllocatedBTreeMap,
};
use crate::failures::PanicCause;
use crate::os::Environment;
use crate::self_vec::SelfAllocatedVec;
use crate::sizes::{class_of, class_size, slots_of_class, LARGE_SIZE_MAX};
use crate::state::is_object_size;
use vstd::prelude::*;

verus! {

/// The first vector of chunks; the vectors before are those of free objects.
pub const FIRST_CHUNKS: usize = 216;

/// The vector of common chunks that are not carved.
pub const FREE_COMMON: usize = 432;

/// The vector of large chunks that are not carved.
pub const FREE_LARGE: usize = 433;

/// The vector of regions.
pub const REGIONS: usize = 434;

/// The number of vectors.
pub const SLOTS: usize = 435;

/// Bytes in the table of the vectors of common chunks.
pub const COMMON_TABLE_SIZE: usize = 2048;

/// Bytes in the table of the vectors of large chunks.
pub const LARGE_TABLE_SIZE: usize = 1408;

/// The greatest number of nodes of the map of extra large sizes.
pub const MAX_MAP_NODES: usize = 0xFFFF_0000;

/// Bytes in an element of the vector.
pub open spec fn elem_size(slot: int) -> int {
    if slot == REGIONS {
        16
    } else {
        8
    }
}

/// Bytes that an element of the vector stands for: a free object or a free chunk. The chunks that
/// are carved and the regions are listed, not held.
pub open spec fn held_size(slot: int) -> int {
    if slot < FIRST_CHUNKS {
        class_size(slot)
    } else if slot == FREE_COMMON {
        65536
    } else if slot == FREE_LARGE {
        524288
    } else {
        0
    }
}

/// Bytes in an element of the vector.
pub fn elem_size_of(slot: usize) -> (r: usize)
    ensures
        r == elem_size(slot as int),
{
    if slot == REGIONS {
        16
    } else {
        8
    }
}

/// One where a block of `bytes` bytes is an object of the class.
pub open spec fn is_of_class(bytes: int, class: int) -> int {
    if 1 <= bytes <= LARGE_SIZE_MAX && class_of(bytes) == class {
        1
    } else {
        0
    }
}

/// Bytes in the buffer of a vector.
pub open spec fn buffer_bytes(slot: int, v: SelfAllocatedVec<usize>) -> int {
    elem_size(slot) * v.cap
}

/// How often what a vector holds, and its buffer, cover the byte at `at`.
pub open spec fn slot_cover(slot: int, v: SelfAllocatedVec<usize>, at: int) -> int {
    blocks_cover(v@, held_size(slot), at) + covers(v.ptr as int, buffer_bytes(slot, v), at)
}

/// What a vector adds to the number of objects of the class that are out: a carved chunk adds all
/// its objects, a free object and an object that serves as a buffer take one away.
pub open spec fn slot_out(slot: int, v: SelfAllocatedVec<usize>, class: int) -> int {
    (if slot == class {
        -(v@.len() as int)
    } else if slot == class + FIRST_CHUNKS {
        slots_of_class(class) * v@.len()
    } else {
        0
    }) - is_of_class(buffer_bytes(slot, v), class)
}

/// Whether an element of the vector is sound.
pub open spec fn elem_wf(slot: int, elem: usize) -> bool {
    &&& elem > 0
    &&& elem + held_size(slot) <= usize::MAX
}

/// Whether a vector is sound: its buffer is an object, and its elements are addresses.
pub open spec fn slot_wf(slot: int, v: SelfAllocatedVec<usize>) -> bool {
    &&& v.wf()
    &&& v.ptr + buffer_bytes(slot, v) <= usize::MAX
    &&& v.cap > 0 ==> buffer_bytes(slot, v) > LARGE_SIZE_MAX || is_object_size(
        buffer_bytes(slot, v),
    )
    &&& forall|i: int| 0 <= i < v@.len() ==> elem_wf(slot, #[trigger] v@[i])
}

/// How often the first `n` vectors cover the byte at `at`.
pub open spec fn slots_cover(vectors: Seq<SelfAllocatedVec<usize>>, n: int, at: int) -> int
    decreases n,
{
    if n <= 0 {
        0
    } else {
        slots_cover(vectors, n - 1, at) + slot_cover(n - 1, vectors[n - 1], at)
    }
}

/// What the first `n` vectors add to the number of objects of the class that are out.
pub open spec fn slots_out(vectors: Seq<SelfAllocatedVec<usize>>, n: int, class: int) -> int
    decreases n,
{
    if n <= 0 {
        0
    } else {
        slots_out(vectors, n - 1, class) + slot_out(n - 1, vectors[n - 1], class)
    }
}

/// By how much the capacities of the first `n` vectors can still grow.
pub open spec fn slots_spare(vectors: Seq<SelfAllocatedVec<usize>>, n: int) -> int
    decreases n,
{
    if n <= 0 {
        0
    } else {
        slots_spare(vectors, n - 1) + (u32::MAX - vectors[n - 1].cap)
    }
}

/// What an element of the vector weighs, in common chunks: a chunk that is carved or not.
pub open spec fn elem_weight(slot: int) -> int {
    if 216 <= slot < 344 || slot == FREE_COMMON {
        1
    } else if 344 <= slot < 432 || slot == FREE_LARGE {
        8
    } else {
        0
    }
}

/// What the chunks of a vector weigh.
pub open spec fn slot_weight(slot: int, v: SelfAllocatedVec<usize>) -> int {
    elem_weight(slot) * v@.len()
}

/// What the chunks of the first `n` vectors weigh.
pub open spec fn slots_weight(vectors: Seq<SelfAllocatedVec<usize>>, n: int) -> int
    decreases n,
{
    if n <= 0 {
        0
    } else {
        slots_weight(vectors, n - 1) + slot_weight(n - 1, vectors[n - 1])
    }
}

proof fn lemma_slots_update(
    vectors: Seq<SelfAllocatedVec<usize>>,
    n: int,
    slot: int,
    v: SelfAllocatedVec<usize>,
    at: int,
    class: int,
)
    requires
        0 <= slot < vectors.len(),
        n <= vectors.len(),
    ensures
        slots_cover(vectors.update(slot, v), n, at) == slots_cover(vectors, n, at) + (if slot < n {
            slot_cover(slot, v, at) - slot_cover(slot, vectors[slot], at)
        } else {
            0
        }),
        slots_out(vectors.update(slot, v), n, class) == slots_out(vectors, n, class) + (if slot < n {
            slot_out(slot, v, class) - slot_out(slot, vectors[slot], class)
        } else {
            0
        }),
        slots_spare(vectors.update(slot, v), n) == slots_spare(vectors, n) + (if slot < n {
            vectors[slot].cap - v.cap
        } else {
            0
        }),
        slots_weight(vectors.update(slot, v), n) == slots_weight(vectors, n) + (if slot < n {
            slot_weight(slot, v) - slot_weight(slot, vectors[slot])
        } else {
            0
        }),
    decreases n,
{
    if n > 0 {
        lemma_slots_update(vectors, n - 1, slot, v, at, class);
    }
}

/// The blocks of an allocator, without the environment.
pub ghost struct Parts {
    pub vectors: Seq<SelfAllocatedVec<usize>>,
    /// The table of the vectors of common chunks; zero where there is none.
    pub common_table: usize,
    /// The table of the vectors of large chunks; zero where there is none.
    pub large_table: usize,
    /// The block of the manager, and its size; both zero where there is none.
    pub manager: usize,
    pub manager_block: usize,
    /// The nodes of the map of extra large sizes.
    pub nodes: Seq<usize>,
}

/// How often the block covers the byte at `at`; the address zero stands for no block.
pub open spec fn block_cover(ptr: usize, size: int, at: int) -> int {
    if ptr == 0 {
        0
    } else {
        covers(ptr as int, size, at)
    }
}

/// One where there is a block, and it is an object of the class.
pub open spec fn block_of_class(ptr: usize, size: int, class: int) -> int {
    if ptr == 0 {
        0
    } else {
        is_of_class(size, class)
    }
}

impl Parts {
    /// How often the blocks cover the byte at `at`.
    #[verifier::opaque]
    pub open spec fn cover(self, at: int) -> int {
        slots_cover(self.vectors, 435, at) + block_cover(self.common_table, 2048, at) + block_cover(
            self.large_table,
            1408,
            at,
        ) + block_cover(self.manager, self.manager_block as int, at) + blocks_cover(
            self.nodes,
            192,
            at,
        )
    }

    /// How many objects of the class are out and do not serve the allocator itself.
    #[verifier::opaque]
    pub open spec fn out(self, class: int) -> int {
        slots_out(self.vectors, 435, class) - block_of_class(self.common_table, 2048, class)
            - block_of_class(self.large_table, 1408, class) - block_of_class(
            self.manager,
            self.manager_block as int,
            class,
        ) - self.nodes.len() * is_of_class(192, class)
    }

    /// By how much the vectors can still grow.
    #[verifier::opaque]
    pub open spec fn spare(self) -> int {
        slots_spare(self.vectors, 435)
    }

    /// What all chunks weigh, carved or not, counted in common chunks.
    #[verifier::opaque]
    pub open spec fn weight(self) -> int {
        slots_weight(self.vectors, 435)
    }

    /// The chunks that are not carved, counted in common chunks.
    pub open spec fn potential(self) -> nat {
        self.vectors[432]@.len() + 8 * self.vectors[433]@.len()
    }

    /// Whether the vectors are sound.
    pub open spec fn wf(self) -> bool {
        &&& self.vectors.len() == 435
        &&& forall|slot: int|
            #![trigger self.vectors[slot]]
            0 <= slot < 435 ==> slot_wf(slot, self.vectors[slot])
        &&& self.common_table == 0 ==> forall|slot: int|
            #![trigger self.vectors[slot]]
            216 <= slot < 344 ==> self.vectors[slot].cap == 0
        &&& self.large_table == 0 ==> forall|slot: int|
            #![trigger self.vectors[slot]]
            344 <= slot < 432 ==> self.vectors[slot].cap == 0
    }
}

/// Replacing a vector.
pub proof fn lemma_parts_update(parts: Parts, slot: int, v: SelfAllocatedVec<usize>)
    requires
        parts.vectors.len() == 435,
        0 <= slot < 435,
    ensures
        ({
            let after = Parts { vectors: parts.vectors.update(slot, v), ..parts };
            &&& forall|at: int| #[trigger]
                after.cover(at) == parts.cover(at) + slot_cover(slot, v, at) - slot_cover(
                    slot,
                    parts.vectors[slot],
                    at,
                )
            &&& forall|class: int| #[trigger]
                after.out(class) == parts.out(class) + slot_out(slot, v, class) - slot_out(
                    slot,
                    parts.vectors[slot],
                    class,
                )
            &&& after.spare() == parts.spare() + parts.vectors[slot].cap - v.cap
            &&& after.weight() == parts.weight() + slot_weight(slot, v) - slot_weight(
                slot,
                parts.vectors[slot],
            )
        }),
{
    reveal(Parts::cover);
    reveal(Parts::out);
    reveal(Parts::spare);
    reveal(Parts::weight);
    let after = Parts { vectors: parts.vectors.update(slot, v), ..parts };
    lemma_slots_update(parts.vectors, 435, slot, v, 0, 0);
    assert forall|at: int| #[trigger]
        after.cover(at) == parts.cover(at) + slot_cover(slot, v, at) - slot_cover(
            slot,
            parts.vectors[slot],
            at,
        ) by {
        lemma_slots_update(parts.vectors, 435, slot, v, at, 0);
    }
    assert forall|class: int| #[trigger]
        after.out(class) == parts.out(class) + slot_out(slot, v, class) - slot_out(
            slot,
            parts.vectors[slot],
            class,
        ) by {
        lemma_slots_update(parts.vectors, 435, slot, v, 0, class);
    }
}

proof fn lemma_slots_spare_nonnegative(vectors: Seq<SelfAllocatedVec<usize>>, n: int)
    ensures
        slots_spare(vectors, n) >= 0,
    decreases n,
{
    if n > 0 {
        lemma_slots_spare_nonnegative(vectors, n - 1);
    }
}

proof fn lemma_slots_cover_nonnegative(
    vectors: Seq<SelfAllocatedVec<usize>>,
    n: int,
    at: int,
)
    ensures
        slots_cover(vectors, n, at) >= 0,
    decreases n,
{
    if n > 0 {
        lemma_slots_cover_nonnegative(vectors, n - 1, at);
        lemma_blocks_cover_nonnegative(vectors[n - 1]@, held_size(n - 1), at);
    }
}

/// No byte is covered less than never.
pub proof fn lemma_parts_cover_nonnegative(parts: Parts, at: int)
    ensures
        parts.cover(at) >= 0,
{
    reveal(Parts::cover);
    lemma_slots_cover_nonnegative(parts.vectors, 435, at);
    lemma_blocks_cover_nonnegative(parts.nodes, 192, at);
}

/// The bookkeeping of an allocator, and the environment that it works in.
#[derive(Clone, Debug)]
pub struct ThreadLocalAllocatorInner {
    pub env: Environment,
    pub vectors: Vec<SelfAllocatedVec<usize>>,
    /// For each region, how many of its common chunks are not given up.
    pub occupied: Vec<usize>,
    /// The table of the vectors of common chunks; zero where there is none.
    pub common_chunk_table: usize,
    /// The table of the vectors of large chunks; zero where there is none.
    pub large_chunk_table: usize,
    /// The block of the manager, and its size; both zero where there is none.
    pub manager_ptr: usize,
    pub manager_block: usize,
    /// How many extra large blocks of each size there are.
    pub allocated_large_sizes: SelfAllocatedBTreeMap<usize>,
    pub is_already_destructured: bool,
    pub is_destructor_registered: bool,
    /// How often a chunk was given up because an object was free when the chunk was there.
    pub given_up: u64,
    /// How often another table has taken the place of one.
    pub replaced: u64,
}

impl ThreadLocalAllocatorInner {
    /// The blocks.
    pub open spec fn parts(self) -> Parts {
        Parts {
            vectors: self.vectors@,
            common_table: self.common_chunk_table,
            large_table: self.large_chunk_table,
            manager: self.manager_ptr,
            manager_block: self.manager_block,
            nodes: self.allocated_large_sizes.nodes@,
        }
    }

    /// Whether the bookkeeping is sound.
    pub open spec fn wf(self) -> bool {
        &&& self.env.wf()
        &&& self.parts().wf()
        &&& self.occupied@.len() == self.vectors@[434]@.len()
        &&& self.allocated_large_sizes.wf()
        &&& self.allocated_large_sizes.nodes@.len() <= MAX_MAP_NODES
        &&& forall|i: int|
            0 <= i < self.allocated_large_sizes.entries@.len() ==> (
            #[trigger] self.allocated_large_sizes.entries@[i]).1 >= 1
        &&& forall|i: int|
            0 <= i < self.allocated_large_sizes.nodes@.len() ==> (
            #[trigger] self.allocated_large_sizes.nodes@[i]) + 192 <= usize::MAX
    }

    /// How often the blocks and the mappings that wait cover the byte at `at`.
    pub open spec fn cover(self, at: int) -> int {
        self.parts().cover(at) + self.env.pool(at)
    }

    /// An allocator that has done nothing yet.
    pub fn new(env: Environment) -> (r: ThreadLocalAllocatorInner)
        requires
            env.wf(),
        ensures
            r.wf(),
            r.env == env,
            forall|slot: int|
                0 <= slot < 435 ==> (#[trigger] r.vectors@[slot])@.len() == 0
                    && r.vectors@[slot].cap == 0,
            r.common_chunk_table == 0,
            r.large_chunk_table == 0,
            r.manager_ptr == 0,
            r.manager_block == 0,
            r.allocated_large_sizes.entries@.len() == 0,
            r.allocated_large_sizes.nodes@.len() == 0,
            !r.is_already_destructured,
            !r.is_destructor_registered,
            forall|class: int| 0 <= class < 216 ==> #[trigger] r.parts().out(class) == 0,
            forall|at: int| #[trigger] r.parts().cover(at) == 0,
            r.parts().weight() == 0,
            r.given_up == 0,
            r.replaced == 0,
    {
        let mut vectors: Vec<SelfAllocatedVec<usize>> = Vec::new();
        let mut i: usize = 0;
        while i < SLOTS
            invariant
                i <= 435,
                vectors@.len() == i,
                forall|slot: int|
                    0 <= slot < i ==> (#[trigger] vectors@[slot])@.len() == 0
                        && vectors@[slot].cap == 0 && vectors@[slot].ptr == 0,
            decreases 435 - i,
        {
            vectors.push(SelfAllocatedVec::new());
            i = i + 1;
        }
        let r = ThreadLocalAllocatorInner {
            env,
            vectors,
            occupied: Vec::new(),
            common_chunk_table: 0,
            large_chunk_table: 0,
            manager_ptr: 0,
            manager_block: 0,
            allocated_large_sizes: SelfAllocatedBTreeMap::new(),
            is_already_destructured: false,
            is_destructor_registered: false,
            given_up: 0,
            replaced: 0,
        };
        proof {
            reveal(Parts::cover);
            reveal(Parts::out);
            reveal(Parts::weight);
            lemma_empty_slots(r.vectors@, 435, 0, 0);
            assert forall|class: int| 0 <= class < 216 implies #[trigger] r.parts().out(class)
                == 0 by {
                lemma_empty_slots(r.vectors@, 435, 0, class);
            }
            assert forall|at: int| #[trigger] r.parts().cover(at) == 0 by {
                lemma_empty_slots(r.vectors@, 435, at, 0);
            }
        }
        r
    }
}

proof fn lemma_empty_slots(vectors: Seq<SelfAllocatedVec<usize>>, n: int, at: int, class: int)
    requires
        0 <= n <= vectors.len(),
        forall|slot: int|
            0 <= slot < n ==> (#[trigger] vectors[slot])@.len() == 0 && vectors[slot].cap == 0,
    ensures
        slots_cover(vectors, n, at) == 0,
        slots_out(vectors, n, class) == 0,
        slots_weight(vectors, n) == 0,
    decreases n,
{
    if n > 0 {
        lemma_empty_slots(vectors, n - 1, at, class);
        assert(vectors[n - 1].cap == 0);
        assert(elem_size(n - 1) * 0 == 0);
        assert(slots_of_class(class) * 0 == 0);
        assert(elem_weight(n - 1) * 0 == 0);
    }
}

impl ThreadLocalAllocatorInner {
    /// Notes that a chunk was given up.
    pub(crate) fn note_given_up(&mut self)
        ensures
            *final(self) == (ThreadLocalAllocatorInner {
                given_up: final(self).given_up,
                ..*old(self)
            }),
            final(self).given_up == if old(self).given_up < u64::MAX {
                old(self).given_up + 1
            } else {
                u64::MAX as int
            },
    {
        if self.given_up < u64::MAX {
            self.given_up = self.given_up + 1;
        }
    }

    /// Notes that another table has taken the place of one.
    pub(crate) fn note_replaced(&mut self)
        ensures
            *final(self) == (ThreadLocalAllocatorInner {
                replaced: final(self).replaced,
                ..*old(self)
            }),
            final(self).replaced == if old(self).replaced < u64::MAX {
                old(self).replaced + 1
            } else {
                u64::MAX as int
            },
    {
        if self.replaced < u64::MAX {
            self.replaced = self.replaced + 1;
        }
    }
}

/// Whether nothing but one vector differs.
pub open spec fn only_vector_changed(
    before: ThreadLocalAllocatorInner,
    after: ThreadLocalAllocatorInner,
    slot: int,
) -> bool {
    &&& after == (ThreadLocalAllocatorInner { vectors: after.vectors, ..before })
    &&& after.vectors@.len() == before.vectors@.len()
    &&& forall|i: int|
        #![trigger after.vectors@[i]]
        0 <= i < before.vectors@.len() && i != slot ==> after.vectors@[i] == before.vectors@[i]
}

/// What an element of a vector counts for the class: a free object is one less that is out, a
/// carved chunk is all its objects.
pub open spec fn elem_out(slot: int, class: int) -> int {
    if slot == class {
        -1
    } else if slot == class + FIRST_CHUNKS {
        slots_of_class(class)
    } else {
        0
    }
}

/// What an element of a vector counts for the potential.
pub open spec fn elem_potential(slot: int) -> int {
    if slot == FREE_COMMON {
        1
    } else if slot == FREE_LARGE {
        8
    } else {
        0
    }
}

impl ThreadLocalAllocatorInner {
    /// Takes the last element of a vector.
    pub fn pop(&mut self, slot: usize) -> (r: Option<usize>)
        requires
            old(self).wf(),
            slot < 434,
        ensures
            final(self).wf(),
            only_vector_changed(*old(self), *final(self), slot as int),
            r is Some <==> old(self).vectors@[slot as int]@.len() > 0,
            match r {
                Some(elem) => {
                    &&& elem == old(self).vectors@[slot as int]@.last()
                    &&& final(self).vectors@[slot as int]@ == old(self).vectors@[slot as int]@.drop_last()
                    &&& final(self).vectors@[slot as int].cap == old(self).vectors@[slot as int].cap
                    &&& final(self).vectors@[slot as int].ptr == old(self).vectors@[slot as int].ptr
                    &&& elem_wf(slot as int, elem)
                    &&& forall|at: int| #[trigger]
                        final(self).parts().cover(at) + covers(
                            elem as int,
                            held_size(slot as int),
                            at,
                        ) == old(self).parts().cover(at)
                    &&& forall|class: int| #[trigger]
                        final(self).parts().out(class) == old(self).parts().out(class) - elem_out(
                            slot as int,
                            class,
                        )
                    &&& final(self).parts().spare() == old(self).parts().spare()
                    &&& final(self).parts().potential() == old(self).parts().potential()
                        - elem_potential(slot as int)
                    &&& final(self).parts().weight() + elem_weight(slot as int) == old(self).parts().weight()
                },
                None => *final(self) == *old(self),
            },
    {
        let ghost before = *self;
        let ghost v0 = self.vectors@[slot as int];
        assert(slot_wf(slot as int, self.parts().vectors[slot as int]));
        if self.vectors[slot].is_empty() {
            return None;
        }
        let r = self.vectors[slot].pop();
        proof {
            let v1 = self.vectors@[slot as int];
            assert(self.vectors@ =~= before.vectors@.update(slot as int, v1));
            lemma_parts_update(before.parts(), slot as int, v1);
            assert(self.parts() == (Parts {
                vectors: before.parts().vectors.update(slot as int, v1),
                ..before.parts()
            }));
            let elem = r->0;
            assert(v0@ =~= v1@.push(elem));
            assert(elem_wf(slot as int, v0@[v0@.len() - 1]));
            lemma_slot_push(slot as int, v1, v0, elem);
            assert(slot_wf(slot as int, v1)) by {
                assert forall|i: int| 0 <= i < v1@.len() implies elem_wf(
                    slot as int,
                    #[trigger] v1@[i],
                ) by {
                    assert(elem_wf(slot as int, v0@[i]));
                }
            }
            lemma_parts_wf_update(before.parts(), self.parts(), slot as int);
        }
        r
    }

    /// Appends an element to a vector whose buffer has room.
    pub fn push(&mut self, slot: usize, elem: usize)
        requires
            old(self).wf(),
            slot < 434,
            elem_wf(slot as int, elem),
            old(self).vectors@[slot as int]@.len() < old(self).vectors@[slot as int].cap,
        ensures
            final(self).wf(),
            only_vector_changed(*old(self), *final(self), slot as int),
            final(self).vectors@[slot as int]@ == old(self).vectors@[slot as int]@.push(elem),
            final(self).vectors@[slot as int].cap == old(self).vectors@[slot as int].cap,
            final(self).vectors@[slot as int].ptr == old(self).vectors@[slot as int].ptr,
            forall|at: int| #[trigger]
                final(self).parts().cover(at) == old(self).parts().cover(at) + covers(
                    elem as int,
                    held_size(slot as int),
                    at,
                ),
            forall|class: int| #[trigger]
                final(self).parts().out(class) == old(self).parts().out(class) + elem_out(
                    slot as int,
                    class,
                ),
            final(self).parts().spare() == old(self).parts().spare(),
            final(self).parts().potential() == old(self).parts().potential() + elem_potential(
                slot as int,
            ),
            final(self).parts().weight() == old(self).parts().weight() + elem_weight(slot as int),
    {
        let ghost before = *self;
        let ghost v0 = self.vectors@[slot as int];
        assert(slot_wf(slot as int, self.parts().vectors[slot as int]));
        let _ = self.vectors[slot].try_push(elem);
        proof {
            let v1 = self.vectors@[slot as int];
            assert(self.vectors@ =~= before.vectors@.update(slot as int, v1));
            lemma_parts_update(before.parts(), slot as int, v1);
            assert(self.parts() == (Parts {
                vectors: before.parts().vectors.update(slot as int, v1),
                ..before.parts()
            }));
            lemma_slot_push(slot as int, v0, v1, elem);
            assert(slot_wf(slot as int, v1)) by {
                assert forall|i: int| 0 <= i < v1@.len() implies elem_wf(
                    slot as int,
                    #[trigger] v1@[i],
                ) by {
                    if i < v0@.len() {
                        assert(elem_wf(slot as int, v0@[i]));
                    }
                }
            }
            lemma_parts_wf_update(before.parts(), self.parts(), slot as int);
        }
    }

    /// Gives a vector another buffer. Returns the address and the size of the one that it had.
    pub fn set_buffer(&mut self, slot: usize, ptr: usize, bytes: usize, cap: u32) -> (r: (
        usize,
        usize,
    ))
        requires
            old(self).wf(),
            slot < 435,
            ptr > 0,
            cap > 0,
            bytes == elem_size(slot as int) * cap,
            ptr + bytes <= usize::MAX,
            bytes > LARGE_SIZE_MAX || is_object_size(bytes as int),
            old(self).vectors@[slot as int]@.len() <= cap,
            216 <= slot < 344 ==> old(self).common_chunk_table != 0,
            344 <= slot < 432 ==> old(self).large_chunk_table != 0,
        ensures
            final(self).wf(),
            only_vector_changed(*old(self), *final(self), slot as int),
            final(self).vectors@[slot as int]@ == old(self).vectors@[slot as int]@,
            final(self).vectors@[slot as int].cap == cap,
            final(self).vectors@[slot as int].ptr == ptr,
            r.0 == old(self).vectors@[slot as int].ptr,
            r.1 == buffer_bytes(slot as int, old(self).vectors@[slot as int]),
            r.1 == 0 <==> old(self).vectors@[slot as int].cap == 0,
            r.1 > 0 ==> r.0 > 0 && (r.1 > LARGE_SIZE_MAX || is_object_size(r.1 as int)),
            r.0 + r.1 <= usize::MAX,
            forall|at: int| #[trigger]
                final(self).parts().cover(at) + covers(r.0 as int, r.1 as int, at) == old(self).parts().cover(at) + covers(ptr as int, bytes as int, at),
            forall|class: int| #[trigger]
                final(self).parts().out(class) == old(self).parts().out(class) + is_of_class(
                    r.1 as int,
                    class,
                ) - is_of_class(bytes as int, class),
            final(self).parts().spare() == old(self).parts().spare() + old(self).vectors@[slot as int].cap - cap,
            final(self).parts().potential() == old(self).parts().potential(),
            final(self).parts().weight() == old(self).parts().weight(),
    {
        let ghost before = *self;
        let ghost v0 = self.vectors@[slot as int];
        assert(slot_wf(slot as int, self.parts().vectors[slot as int]));
        let old_ptr: usize = self.vectors[slot].ptr;
        let old_cap: u32 = self.vectors[slot].cap;
        let old_bytes: usize = elem_size_of(slot) * (old_cap as usize);
        self.vectors[slot].adopt(ptr, cap);
        proof {
            let v1 = self.vectors@[slot as int];
            assert(self.vectors@ =~= before.vectors@.update(slot as int, v1));
            lemma_parts_update(before.parts(), slot as int, v1);
            assert(self.parts() == (Parts {
                vectors: before.parts().vectors.update(slot as int, v1),
                ..before.parts()
            }));
            assert(slot_wf(slot as int, v1)) by {
                assert forall|i: int| 0 <= i < v1@.len() implies elem_wf(
                    slot as int,
                    #[trigger] v1@[i],
                ) by {
                    assert(elem_wf(slot as int, v0@[i]));
                }
            }
            lemma_parts_wf_update(before.parts(), self.parts(), slot as int);
        }
        (old_ptr, old_bytes)
    }

    /// The number of elements of a vector.
    pub fn len(&self, slot: usize) -> (r: usize)
        requires
            self.wf(),
            slot < 435,
        ensures
            r == self.vectors@[slot as int]@.len(),
            r <= self.vectors@[slot as int].cap,
    {
        assert(slot_wf(slot as int, self.parts().vectors[slot as int]));
        self.vectors[slot].len()
    }

    /// The capacity of a vector.
    pub fn cap(&self, slot: usize) -> (r: u32)
        requires
            self.wf(),
            slot < 435,
        ensures
            r == self.vectors@[slot as int].cap,
    {
        self.vectors[slot].cap
    }
}

/// What an element adds to the accounts of its vector.
proof fn lemma_slot_push(
    slot: int,
    v0: SelfAllocatedVec<usize>,
    v1: SelfAllocatedVec<usize>,
    elem: usize,
)
    requires
        v1@ == v0@.push(elem),
        v1.cap == v0.cap,
        v1.ptr == v0.ptr,
    ensures
        forall|at: int| #[trigger]
            slot_cover(slot, v1, at) == slot_cover(slot, v0, at) + covers(
                elem as int,
                held_size(slot),
                at,
            ),
        forall|class: int| #[trigger]
            slot_out(slot, v1, class) == slot_out(slot, v0, class) + elem_out(slot, class),
        slot_weight(slot, v1) == slot_weight(slot, v0) + elem_weight(slot),
{
    let unit = elem_weight(slot);
    let len = v0@.len() as int;
    assert(unit * (len + 1) == unit * len + unit) by (nonlinear_arith);
    assert forall|at: int| #[trigger]
        slot_cover(slot, v1, at) == slot_cover(slot, v0, at) + covers(
            elem as int,
            held_size(slot),
            at,
        ) by {
        lemma_blocks_cover_push(v0@, elem, held_size(slot), at);
    }
    assert forall|class: int| #[trigger]
        slot_out(slot, v1, class) == slot_out(slot, v0, class) + elem_out(slot, class) by {
        let n = v0@.len() as int;
        let k = slots_of_class(class);
        assert(k * (n + 1) == k * n + k) by (nonlinear_arith);
    }
}

/// The vectors stay sound where one is replaced by a sound one that has a buffer only if its table
/// exists.
proof fn lemma_parts_wf_update(before: Parts, after: Parts, slot: int)
    requires
        before.wf(),
        0 <= slot < 435,
        after == (Parts {
            vectors: before.vectors.update(slot, after.vectors[slot]),
            ..before
        }),
        slot_wf(slot, after.vectors[slot]),
        216 <= slot < 344 && before.common_table == 0 ==> after.vectors[slot].cap == 0,
        344 <= slot < 432 && before.large_table == 0 ==> after.vectors[slot].cap == 0,
    ensures
        after.wf(),
{
    assert forall|i: int|
        #![trigger after.vectors[i]]
        0 <= i < 435 implies slot_wf(i, after.vectors[i]) by {
        assert(slot_wf(i, before.vectors[i]));
    }
    assert forall|i: int|
        #![trigger after.vectors[i]]
        after.common_table == 0 && 216 <= i < 344 implies after.vectors[i].cap == 0 by {
        assert(before.vectors[i] == before.vectors[i]);
    }
    assert forall|i: int|
        #![trigger after.vectors[i]]
        after.large_table == 0 && 344 <= i < 432 implies after.vectors[i].cap == 0 by {
        assert(before.vectors[i] == before.vectors[i]);
    }
}

impl ThreadLocalAllocatorInner {
    /// Notes the block that holds the table of the vectors of common chunks.
    pub fn set_common_table(&mut self, ptr: usize)
        requires
            old(self).wf(),
            ptr > 0,
        ensures
            final(self).wf(),
            *final(self) == (ThreadLocalAllocatorInner { common_chunk_table: ptr, ..*old(self) }),
            forall|at: int| #[trigger]
                final(self).parts().cover(at) <= old(self).parts().cover(at) + covers(
                    ptr as int,
                    2048,
                    at,
                ),
            forall|class: int| #[trigger]
                final(self).parts().out(class) >= old(self).parts().out(class) - is_of_class(
                    2048,
                    class,
                ),
            forall|class: int| #[trigger]
                final(self).parts().out(class) <= old(self).parts().out(class),
            old(self).common_chunk_table == 0 ==> forall|class: int| #[trigger]
                final(self).parts().out(class) == old(self).parts().out(class) - is_of_class(
                    2048,
                    class,
                ),
            final(self).parts().weight() == old(self).parts().weight(),
            final(self).parts().spare() == old(self).parts().spare(),
    {
        proof {
            reveal(Parts::cover);
            reveal(Parts::out);
            reveal(Parts::spare);
            reveal(Parts::weight);
        }
        self.common_chunk_table = ptr;
    }

    /// Notes the block that holds the table of the vectors of large chunks.
    pub fn set_large_table(&mut self, ptr: usize)
        requires
            old(self).wf(),
            ptr > 0,
        ensures
            final(self).wf(),
            *final(self) == (ThreadLocalAllocatorInner { large_chunk_table: ptr, ..*old(self) }),
            forall|at: int| #[trigger]
                final(self).parts().cover(at) <= old(self).parts().cover(at) + covers(
                    ptr as int,
                    1408,
                    at,
                ),
            forall|class: int| #[trigger]
                final(self).parts().out(class) >= old(self).parts().out(class) - is_of_class(
                    1408,
                    class,
                ),
            forall|class: int| #[trigger]
                final(self).parts().out(class) <= old(self).parts().out(class),
            old(self).large_chunk_table == 0 ==> forall|class: int| #[trigger]
                final(self).parts().out(class) == old(self).parts().out(class) - is_of_class(
                    1408,
                    class,
                ),
            final(self).parts().weight() == old(self).parts().weight(),
            final(self).parts().spare() == old(self).parts().spare(),
    {
        proof {
            reveal(Parts::cover);
            reveal(Parts::out);
            reveal(Parts::spare);
            reveal(Parts::weight);
        }
        self.large_chunk_table = ptr;
    }

    /// Notes the block that holds the manager.
    pub fn set_manager(&mut self, ptr: usize, block: usize)
        requires
            old(self).wf(),
            ptr > 0,
        ensures
            final(self).wf(),
            *final(self) == (ThreadLocalAllocatorInner {
                manager_ptr: ptr,
                manager_block: block,
                ..*old(self)
            }),
            forall|at: int| #[trigger]
                final(self).parts().cover(at) <= old(self).parts().cover(at) + covers(
                    ptr as int,
                    block as int,
                    at,
                ),
            forall|class: int| #[trigger]
                final(self).parts().out(class) >= old(self).parts().out(class) - is_of_class(
                    block as int,
                    class,
                ),
            old(self).manager_ptr == 0 ==> forall|class: int| #[trigger]
                final(self).parts().out(class) == old(self).parts().out(class) - is_of_class(
                    block as int,
                    class,
                ),
            final(self).parts().weight() == old(self).parts().weight(),
            final(self).parts().spare() == old(self).parts().spare(),
    {
        proof {
            reveal(Parts::cover);
            reveal(Parts::out);
            reveal(Parts::spare);
            reveal(Parts::weight);
        }
        self.manager_ptr = ptr;
        self.manager_block = block;
    }

    /// Adds a node to the map of extra large sizes.
    pub fn add_map_node(&mut self, ptr: usize)
        requires
            old(self).wf(),
            ptr > 0,
            ptr + 192 <= usize::MAX,
            old(self).allocated_large_sizes.nodes@.len() < MAX_MAP_NODES,
        ensures
            final(self).wf(),
            *final(self) == (ThreadLocalAllocatorInner {
                allocated_large_sizes: final(self).allocated_large_sizes,
                ..*old(self)
            }),
            final(self).allocated_large_sizes.entries == old(self).allocated_large_sizes.entries,
            final(self).allocated_large_sizes.nodes@ == old(self).allocated_large_sizes.nodes@.push(ptr),
            forall|at: int| #[trigger]
                final(self).parts().cover(at) == old(self).parts().cover(at) + covers(
                    ptr as int,
                    192,
                    at,
                ),
            forall|class: int| #[trigger]
                final(self).parts().out(class) == old(self).parts().out(class) - is_of_class(
                    192,
                    class,
                ),
            final(self).parts().weight() == old(self).parts().weight(),
            final(self).parts().spare() == old(self).parts().spare(),
    {
        let ghost before = *self;
        self.allocated_large_sizes.add_node(ptr);
        proof {
            reveal(Parts::cover);
            reveal(Parts::out);
            reveal(Parts::spare);
            reveal(Parts::weight);
            let nodes = before.allocated_large_sizes.nodes@;
            assert forall|at: int| #[trigger]
                self.parts().cover(at) == before.parts().cover(at) + covers(ptr as int, 192, at) by {
                lemma_blocks_cover_push(nodes, ptr, 192, at);
            }
            assert forall|class: int| #[trigger]
                self.parts().out(class) == before.parts().out(class) - is_of_class(192, class) by {
                let n = nodes.len() as int;
                let k = is_of_class(192, class);
                assert((n + 1) * k == n * k + k) by (nonlinear_arith);
            }
        }
    }

    /// Takes a node from the map of extra large sizes, which keeps room for its entries.
    pub fn take_map_node(&mut self) -> (r: usize)
        requires
            old(self).wf(),
            old(self).allocated_large_sizes.nodes@.len() > nodes_for(
                old(self).allocated_large_sizes.entries@.len() as int,
            ),
        ensures
            final(self).wf(),
            *final(self) == (ThreadLocalAllocatorInner {
                allocated_large_sizes: final(self).allocated_large_sizes,
                ..*old(self)
            }),
            final(self).allocated_large_sizes.entries == old(self).allocated_large_sizes.entries,
            final(self).allocated_large_sizes.nodes@ == old(self).allocated_large_sizes.nodes@.drop_last(),
            r == old(self).allocated_large_sizes.nodes@.last(),
            r > 0,
            r + 192 <= usize::MAX,
            forall|at: int| #[trigger]
                final(self).parts().cover(at) + covers(r as int, 192, at) == old(self).parts().cover(at),
            forall|class: int| #[trigger]
                final(self).parts().out(class) == old(self).parts().out(class) + is_of_class(
                    192,
                    class,
                ),
            final(self).parts().weight() == old(self).parts().weight(),
            final(self).parts().spare() == old(self).parts().spare(),
    {
        let ghost before = *self;
        let r = self.allocated_large_sizes.take_node();
        proof {
            let all = before.allocated_large_sizes.nodes@;
            assert(all[all.len() - 1] + 192 <= usize::MAX);
            reveal(Parts::cover);
            reveal(Parts::out);
            reveal(Parts::spare);
            reveal(Parts::weight);
            let nodes = before.allocated_large_sizes.nodes@;
            assert forall|class: int| #[trigger]
                self.parts().out(class) == before.parts().out(class) + is_of_class(192, class) by {
                let n = nodes.len() as int;
                let k = is_of_class(192, class);
                assert((n - 1) * k == n * k - k) by (nonlinear_arith);
            }
        }
        r
    }

    /// How many extra large blocks of the size are counted.
    pub open spec fn count_of(self, size: usize) -> int {
        if self.allocated_large_sizes@.contains_key(size) {
            self.allocated_large_sizes@[size] as int
        } else {
            0
        }
    }

    /// Whether the map of extra large sizes has room for the size.
    pub fn has_room_for_size(&self, size: usize) -> (r: bool)
        requires
            self.wf(),
        ensures
            r <==> self.allocated_large_sizes@.contains_key(size)
                || self.allocated_large_sizes.entries@.len()
                < 11 * self.allocated_large_sizes.nodes@.len(),
    {
        if !self.allocated_large_sizes.needs_node() {
            return true;
        }
        match self.allocated_large_sizes.search(size) {
            Ok(i) => {
                proof {
                    lemma_map_update(
                        self.allocated_large_sizes.entries@,
                        i as int,
                        self.allocated_large_sizes.entries@[i as int].1,
                    );
                }
                true
            },
            Err(i) => {
                proof {
                    lemma_map_absent(self.allocated_large_sizes.entries@, i as int, size);
                }
                false
            },
        }
    }

    /// Counts one more extra large block of the size.
    pub fn count_size(&mut self, size: usize) -> (r: Result<(), PanicCause>)
        requires
            old(self).wf(),
            old(self).allocated_large_sizes@.contains_key(size)
                || old(self).allocated_large_sizes.entries@.len()
                < 11 * old(self).allocated_large_sizes.nodes@.len(),
        ensures
            final(self).wf(),
            *final(self) == (ThreadLocalAllocatorInner {
                allocated_large_sizes: final(self).allocated_large_sizes,
                ..*old(self)
            }),
            final(self).allocated_large_sizes.nodes == old(self).allocated_large_sizes.nodes,
            r is Ok <==> old(self).count_of(size) < usize::MAX,
            r is Ok ==> final(self).allocated_large_sizes@ == old(self).allocated_large_sizes@.insert(size, (old(self).count_of(size) + 1) as usize),
            r is Ok ==> final(self).allocated_large_sizes.entries@.len() == old(self).allocated_large_sizes.entries@.len() + (if old(self).allocated_large_sizes@.contains_key(size) {
                0int
            } else {
                1
            }),
            r matches Err(e) ==> e is CapacityOverflow && *final(self) == *old(self),
    {
        let ghost before = *self;
        let ghost entries = self.allocated_large_sizes.entries@;
        match self.allocated_large_sizes.search(size) {
            Ok(i) => {
                let count: usize = self.allocated_large_sizes.entries[i].1;
                proof {
                    lemma_map_update(entries, i as int, (count + 1) as usize);
                }
                if count == usize::MAX {
                    return Err(PanicCause::CapacityOverflow);
                }
                self.allocated_large_sizes.entries.set(i, (size, count + 1));
                proof {
                    assert(self.allocated_large_sizes.entries@ =~= entries.update(
                        i as int,
                        (size, (count + 1) as usize),
                    ));
                    assert forall|j: int| 0 <= j < entries.len() implies (
                    #[trigger] self.allocated_large_sizes.entries@[j]).1 >= 1 by {
                        assert(entries[j].1 >= 1);
                    }
                }
                Ok(())
            },
            Err(i) => {
                proof {
                    lemma_map_insert(entries, i as int, size, 1);
                }
                self.allocated_large_sizes.entries.insert(i, (size, 1));
                proof {
                    assert(self.allocated_large_sizes.entries@ =~= entries.insert(
                        i as int,
                        (size, 1usize),
                    ));
                    let after = self.allocated_large_sizes.entries@;
                    assert forall|j: int| 0 <= j < after.len() implies (#[trigger] after[j]).1
                        >= 1 by {
                        if j < i {
                            assert(after[j] == entries[j]);
                        } else if j > i {
                            assert(after[j] == entries[j - 1]);
                        }
                    }
                }
                Ok(())
            },
        }
    }

    /// Counts one extra large block of the size less. A size that is not counted is left alone; a
    /// size of which no block is left is forgotten.
    pub fn uncount_size(&mut self, size: usize)
        requires
            old(self).wf(),
        ensures
            final(self).wf(),
            *final(self) == (ThreadLocalAllocatorInner {
                allocated_large_sizes: final(self).allocated_large_sizes,
                ..*old(self)
            }),
            final(self).allocated_large_sizes.nodes == old(self).allocated_large_sizes.nodes,
            final(self).allocated_large_sizes@ == (if old(self).count_of(size) == 0 {
                old(self).allocated_large_sizes@
            } else if old(self).count_of(size) == 1 {
                old(self).allocated_large_sizes@.remove(size)
            } else {
                old(self).allocated_large_sizes@.insert(
                    size,
                    (old(self).count_of(size) - 1) as usize,
                )
            }),
            final(self).allocated_large_sizes.entries@.len() == old(self).allocated_large_sizes.entries@.len() - (if old(self).count_of(size) == 1 {
                1int
            } else {
                0
            }),
    {
        let ghost before = *self;
        let ghost entries = self.allocated_large_sizes.entries@;
        match self.allocated_large_sizes.search(size) {
            Ok(i) => {
                let count: usize = self.allocated_large_sizes.entries[i].1;
                assert(entries[i as int].1 >= 1);
                proof {
                    lemma_map_update(entries, i as int, (count - 1) as usize);
                    lemma_map_remove(entries, i as int);
                }
                if count == 1 {
                    let _ = self.allocated_large_sizes.entries.remove(i);
                    proof {
                        let after = self.allocated_large_sizes.entries@;
                        assert(after =~= entries.remove(i as int));
                        assert forall|j: int| 0 <= j < after.len() implies (#[trigger] after[j]).1
                            >= 1 by {
                            if j < i {
                                assert(after[j] == entries[j]);
                            } else {
                                assert(after[j] == entries[j + 1]);
                            }
                        }
                    }
                } else {
                    self.allocated_large_sizes.entries.set(i, (size, count - 1));
                    proof {
                        assert(self.allocated_large_sizes.entries@ =~= entries.update(
                            i as int,
                            (size, (count - 1) as usize),
                        ));
                        assert forall|j: int| 0 <= j < entries.len() implies (
                        #[trigger] self.allocated_large_sizes.entries@[j]).1 >= 1 by {
                            assert(entries[j].1 >= 1);
                        }
                    }
                }
            },
            Err(i) => {
                proof {
                    lemma_map_absent(entries, i as int, size);
                }
            },
        }
    }

    /// Whether the map of extra large sizes has a node that its entries do not take.
    pub fn has_spare_map_node(&self) -> (r: bool)
        requires
            self.wf(),
        ensures
            r <==> self.allocated_large_sizes.nodes@.len() > nodes_for(
                self.allocated_large_sizes.entries@.len() as int,
            ),
    {
        let n: usize = self.allocated_large_sizes.entries.len();
        let taken: usize = if n % 11 == 0 {
            n / 11
        } else {
            n / 11 + 1
        };
        self.allocated_large_sizes.nodes.len() > taken
    }
}

} // verus!
