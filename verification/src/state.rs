//! Memory for the allocator's own structures.
//!
//! To hand out an object the allocator needs a vector of free objects, and the vector itself
//! needs memory. A [`State`] breaks the circle: it hands out objects straight from the chunks of
//! a region and notes which chunks it has opened. Once everything is in place, the allocator
//! commits the state: the chunks and the objects that are left become its own.
use crate::accounts::ready;
use crate::blocks::{
    addresses, chunks_cover, covers, lemma_addresses_cover, lemma_chunks_cover_nonnegative,
    lemma_rests_cover_push, lemma_rests_cover_update, lemma_run_of_blocks, rests_cover,
    run_of_blocks, Chunk,
};
use crate::chunk_buffer::{
    buffer_get, buffer_len, buffer_new, buffer_pop, buffer_push, buffer_set, chunks_in, ChunkBuffer,
    BUFFER_CAPACITY,
};
use crate::limit::AllocationLimit;
use crate::os::{follows, is_region_size, lemma_follows_itself, short, Environment};
use crate::placement::{
    carves, chain_placed, chunk_bytes, is_placed, is_single, lemma_keeps_itself,
    lemma_node_carves_more, lemma_refusal_settles, lemma_region_settles, lemma_settles,
    lemma_settles_itself, lemma_settles_push, lemma_settles_update, lemma_split_placed, lies_in,
    node_carves, node_placed, settles,
};
use crate::region::{
    alloc_region, alloc_region_without_counting_limit, chunks_taken, large_chunks_in,
    large_chunks_in_region, lemma_region_brings, lemma_region_size, next_reply_serves_region,
    parse_region,
};
use crate::sizes::{
    class_of, class_size, lemma_class, lemma_class_of, recommended, recommended_size,
    slots_of_class, split_large_chunk_to_common, SizeClass, COMMON_CHUNK_SIZE, LARGE_CHUNK_SIZE,
    LARGE_SIZE_MAX,
};
use vstd::prelude::*;

verus! {

/// One region of a state, with the chunks that are free and those that are opened.
pub struct StateNode {
    pub region_ptr: usize,
    /// The object that holds the node itself; zero for the first node, which lives on the stack.
    pub address: usize,
    pub free_common_chunks: ChunkBuffer,
    pub free_large_chunks: ChunkBuffer,
    pub used_common_chunks: ChunkBuffer,
    pub used_large_chunks: ChunkBuffer,
}

/// What a node holds.
pub ghost struct NodeView {
    pub region_ptr: usize,
    pub address: usize,
    pub free_common: Seq<Chunk>,
    pub free_large: Seq<Chunk>,
    pub used_common: Seq<Chunk>,
    pub used_large: Seq<Chunk>,
}

impl View for StateNode {
    type V = NodeView;

    open spec fn view(&self) -> NodeView {
        NodeView {
            region_ptr: self.region_ptr,
            address: self.address,
            free_common: chunks_in(self.free_common_chunks),
            free_large: chunks_in(self.free_large_chunks),
            used_common: chunks_in(self.used_common_chunks),
            used_large: chunks_in(self.used_large_chunks),
        }
    }
}

/// Bytes in a node.
pub open spec fn state_bytes(region_size: int) -> int {
    296 + 224 * large_chunks_in(region_size)
}

/// Bytes in the object that holds a node.
pub open spec fn state_block(region_size: int) -> int {
    recommended(state_bytes(region_size))
}

/// Whether a chunk that is not carved is sound.
pub open spec fn free_chunk_wf(chunk: Chunk, size: int) -> bool {
    &&& 0 < chunk.0
    &&& chunk.0 + size <= usize::MAX
    &&& chunk.1 == 0
    &&& chunk.2 == 0
}

/// Whether `size` is the object size of a class.
pub open spec fn is_object_size(size: int) -> bool {
    &&& 1 <= size <= LARGE_SIZE_MAX
    &&& class_size(class_of(size)) == size
}

/// Whether a carved chunk is sound: its objects have the size of a class, and one at least is
/// handed out.
pub open spec fn used_chunk_wf(chunk: Chunk, common: bool) -> bool {
    &&& is_object_size(chunk.1 as int)
    &&& (chunk.1 <= 1024 <==> common)
    &&& chunk.2 < slots_of_class(class_of(chunk.1 as int))
    &&& 0 < chunk.0
    &&& chunk.0 + (if common {
        65536int
    } else {
        524288int
    }) <= usize::MAX
}

impl NodeView {
    /// The chunks that are carved into common or into large objects.
    pub open spec fn used(self, common: bool) -> Seq<Chunk> {
        if common {
            self.used_common
        } else {
            self.used_large
        }
    }

    /// The node with other carved chunks.
    pub open spec fn with_used(self, common: bool, chunks: Seq<Chunk>) -> NodeView {
        if common {
            NodeView { used_common: chunks, ..self }
        } else {
            NodeView { used_large: chunks, ..self }
        }
    }

    /// Whether the node is sound.
    pub open spec fn wf(self, region_size: int) -> bool {
        &&& self.region_ptr > 0
        &&& self.free_common.len() <= 8
        &&& self.address != 0 ==> self.address + state_block(region_size) <= usize::MAX
        &&& self.used_common.len() + self.free_common.len() + 8 * (self.used_large.len()
            + self.free_large.len()) <= 8 * large_chunks_in(region_size) + 7
        &&& forall|i: int|
            0 <= i < self.free_common.len() ==> #[trigger] free_chunk_wf(
                self.free_common[i],
                65536,
            )
        &&& forall|i: int|
            0 <= i < self.free_large.len() ==> #[trigger] free_chunk_wf(self.free_large[i], 524288)
        &&& forall|i: int|
            0 <= i < self.used_common.len() ==> #[trigger] used_chunk_wf(self.used_common[i], true)
        &&& forall|i: int|
            0 <= i < self.used_large.len() ==> #[trigger] used_chunk_wf(self.used_large[i], false)
    }

    /// How often the node's memory that is not handed out covers the byte at `at`.
    #[verifier::opaque]
    pub open spec fn cover(self, region_size: int, at: int) -> int {
        chunks_cover(self.free_common, 65536, at) + chunks_cover(self.free_large, 524288, at)
            + rests_cover(self.used_common, at) + rests_cover(self.used_large, at) + (
        if self.address == 0 {
            0
        } else {
            covers(self.address as int, state_block(region_size), at)
        })
    }

    /// How many objects of the class are handed out, but for the one that holds the node.
    #[verifier::opaque]
    pub open spec fn out(self, region_size: int, class: int) -> int {
        handed_out(self.used_common, class) + handed_out(self.used_large, class) - (
        if self.address != 0 && class == class_of(state_block(region_size)) {
            1int
        } else {
            0
        })
    }

    /// The chunks that can still be carved, counted in common chunks.
    pub open spec fn potential(self) -> nat {
        self.free_common.len() + 8 * self.free_large.len()
    }
}

/// How many objects of the class are handed out of the carved chunks.
pub open spec fn handed_out(chunks: Seq<Chunk>, class: int) -> int
    decreases chunks.len(),
{
    if chunks.len() == 0 {
        0
    } else {
        handed_out(chunks.drop_last(), class) + handed_out_of(chunks.last(), class)
    }
}

/// How many objects of the class are handed out of one carved chunk.
pub open spec fn handed_out_of(chunk: Chunk, class: int) -> int {
    if class_of(chunk.1 as int) == class {
        slots_of_class(class) - chunk.2
    } else {
        0
    }
}

pub proof fn lemma_handed_out_push(chunks: Seq<Chunk>, chunk: Chunk, class: int)
    ensures
        handed_out(chunks.push(chunk), class) == handed_out(chunks, class) + handed_out_of(
            chunk,
            class,
        ),
{
    assert(chunks.push(chunk).drop_last() =~= chunks);
}

pub proof fn lemma_handed_out_update(chunks: Seq<Chunk>, i: int, chunk: Chunk, class: int)
    requires
        0 <= i < chunks.len(),
    ensures
        handed_out(chunks.update(i, chunk), class) == handed_out(chunks, class) + handed_out_of(
            chunk,
            class,
        ) - handed_out_of(chunks[i], class),
    decreases chunks.len(),
{
    if i == chunks.len() - 1 {
        assert(chunks.update(i, chunk).drop_last() =~= chunks.drop_last());
    } else {
        assert(chunks.update(i, chunk).drop_last() =~= chunks.drop_last().update(i, chunk));
        lemma_handed_out_update(chunks.drop_last(), i, chunk, class);
    }
}

/// How often the memory of a chain of nodes covers the byte at `at`.
pub open spec fn chain_cover(chain: Seq<NodeView>, region_size: int, at: int) -> int
    decreases chain.len(),
{
    if chain.len() == 0 {
        0
    } else {
        chain_cover(chain.drop_last(), region_size, at) + chain.last().cover(region_size, at)
    }
}

/// How many objects of the class are handed out of a chain of nodes.
pub open spec fn chain_out(chain: Seq<NodeView>, region_size: int, class: int) -> int
    decreases chain.len(),
{
    if chain.len() == 0 {
        0
    } else {
        chain_out(chain.drop_last(), region_size, class) + chain.last().out(region_size, class)
    }
}

/// The chunks that a chain of nodes can still carve.
pub open spec fn chain_potential(chain: Seq<NodeView>) -> nat
    decreases chain.len(),
{
    if chain.len() == 0 {
        0
    } else {
        chain_potential(chain.drop_last()) + chain.last().potential()
    }
}

/// What the chunks of a chain of nodes weigh, carved or not.
pub open spec fn chain_weight(chain: Seq<NodeView>) -> int
    decreases chain.len(),
{
    if chain.len() == 0 {
        0
    } else {
        chain_weight(chain.drop_last()) + chain.last().weight()
    }
}

proof fn lemma_chain_update_at(
    chain: Seq<NodeView>,
    k: int,
    node: NodeView,
    region_size: int,
    at: int,
    class: int,
)
    requires
        0 <= k < chain.len(),
    ensures
        chain_cover(chain.update(k, node), region_size, at) == chain_cover(chain, region_size, at)
            + node.cover(region_size, at) - chain[k].cover(region_size, at),
        chain_out(chain.update(k, node), region_size, class) == chain_out(
            chain,
            region_size,
            class,
        ) + node.out(region_size, class) - chain[k].out(region_size, class),
        chain_potential(chain.update(k, node)) == chain_potential(chain) + node.potential()
            - chain[k].potential(),
        chain_weight(chain.update(k, node)) == chain_weight(chain) + node.weight()
            - chain[k].weight(),
    decreases chain.len(),
{
    if k == chain.len() - 1 {
        assert(chain.update(k, node).drop_last() =~= chain.drop_last());
    } else {
        assert(chain.update(k, node).drop_last() =~= chain.drop_last().update(k, node));
        lemma_chain_update_at(chain.drop_last(), k, node, region_size, at, class);
    }
}

/// Replacing a node of a chain.
pub proof fn lemma_chain_update(chain: Seq<NodeView>, k: int, node: NodeView, region_size: int)
    requires
        0 <= k < chain.len(),
    ensures
        forall|at: int| #[trigger]
            chain_cover(chain.update(k, node), region_size, at) == chain_cover(
                chain,
                region_size,
                at,
            ) + node.cover(region_size, at) - chain[k].cover(region_size, at),
        forall|class: int| #[trigger]
            chain_out(chain.update(k, node), region_size, class) == chain_out(
                chain,
                region_size,
                class,
            ) + node.out(region_size, class) - chain[k].out(region_size, class),
        chain_potential(chain.update(k, node)) == chain_potential(chain) + node.potential()
            - chain[k].potential(),
        chain_weight(chain.update(k, node)) == chain_weight(chain) + node.weight()
            - chain[k].weight(),
{
    lemma_chain_update_at(chain, k, node, region_size, 0, 0);
    assert forall|at: int| #[trigger]
        chain_cover(chain.update(k, node), region_size, at) == chain_cover(chain, region_size, at)
            + node.cover(region_size, at) - chain[k].cover(region_size, at) by {
        lemma_chain_update_at(chain, k, node, region_size, at, 0);
    }
    assert forall|class: int| #[trigger]
        chain_out(chain.update(k, node), region_size, class) == chain_out(
            chain,
            region_size,
            class,
        ) + node.out(region_size, class) - chain[k].out(region_size, class) by {
        lemma_chain_update_at(chain, k, node, region_size, 0, class);
    }
}

/// Appending a node to a chain.
pub proof fn lemma_chain_push(chain: Seq<NodeView>, node: NodeView, region_size: int)
    ensures
        forall|at: int| #[trigger]
            chain_cover(chain.push(node), region_size, at) == chain_cover(chain, region_size, at)
                + node.cover(region_size, at),
        forall|class: int| #[trigger]
            chain_out(chain.push(node), region_size, class) == chain_out(
                chain,
                region_size,
                class,
            ) + node.out(region_size, class),
        chain_potential(chain.push(node)) == chain_potential(chain) + node.potential(),
        chain_weight(chain.push(node)) == chain_weight(chain) + node.weight(),
{
    assert(chain.push(node).drop_last() =~= chain);
}

proof fn lemma_chain_front_at(chain: Seq<NodeView>, region_size: int, at: int, class: int)
    requires
        chain.len() > 0,
    ensures
        chain_cover(chain, region_size, at) == chain[0].cover(region_size, at) + chain_cover(
            chain.drop_first(),
            region_size,
            at,
        ),
        chain_out(chain, region_size, class) == chain[0].out(region_size, class) + chain_out(
            chain.drop_first(),
            region_size,
            class,
        ),
        chain_potential(chain) == chain[0].potential() + chain_potential(chain.drop_first()),
        chain_weight(chain) == chain[0].weight() + chain_weight(chain.drop_first()),
    decreases chain.len(),
{
    if chain.len() == 1 {
        assert(chain.drop_first() =~= Seq::<NodeView>::empty());
        assert(chain.drop_last() =~= Seq::<NodeView>::empty());
    } else {
        lemma_chain_front_at(chain.drop_last(), region_size, at, class);
        assert(chain.drop_first().drop_last() =~= chain.drop_last().drop_first());
    }
}

/// A chain splits into its first node and the rest.
pub proof fn lemma_chain_front(chain: Seq<NodeView>, region_size: int)
    requires
        chain.len() > 0,
    ensures
        forall|at: int| #[trigger]
            chain_cover(chain, region_size, at) == chain[0].cover(region_size, at) + chain_cover(
                chain.drop_first(),
                region_size,
                at,
            ),
        forall|class: int| #[trigger]
            chain_out(chain, region_size, class) == chain[0].out(region_size, class) + chain_out(
                chain.drop_first(),
                region_size,
                class,
            ),
        chain_potential(chain) == chain[0].potential() + chain_potential(chain.drop_first()),
        chain_weight(chain) == chain[0].weight() + chain_weight(chain.drop_first()),
{
    lemma_chain_front_at(chain, region_size, 0, 0);
    assert forall|at: int| #[trigger]
        chain_cover(chain, region_size, at) == chain[0].cover(region_size, at) + chain_cover(
            chain.drop_first(),
            region_size,
            at,
        ) by {
        lemma_chain_front_at(chain, region_size, at, 0);
    }
    assert forall|class: int| #[trigger]
        chain_out(chain, region_size, class) == chain[0].out(region_size, class) + chain_out(
            chain.drop_first(),
            region_size,
            class,
        ) by {
        lemma_chain_front_at(chain, region_size, 0, class);
    }
}

/// No byte is covered less than never.
pub proof fn lemma_chain_cover_nonnegative(chain: Seq<NodeView>, region_size: int, at: int)
    ensures
        chain_cover(chain, region_size, at) >= 0,
    decreases chain.len(),
{
    if chain.len() > 0 {
        lemma_chain_cover_nonnegative(chain.drop_last(), region_size, at);
        reveal(NodeView::cover);
        let node = chain.last();
        lemma_chunks_cover_nonnegative(node.free_common, 65536, at);
        lemma_chunks_cover_nonnegative(node.free_large, 524288, at);
        lemma_chunks_cover_nonnegative(node.used_common, 0, at);
        lemma_chunks_cover_nonnegative(node.used_large, 0, at);
    }
}

/// The common chunks of a fresh region.
pub open spec fn fresh_common(region: int) -> Seq<Chunk> {
    Seq::new(7, |i: int| ((region + (i + 1) * 65536) as usize, 0usize, 0usize))
}

/// The large chunks of a fresh region.
pub open spec fn fresh_large(region: int, region_size: int) -> Seq<Chunk> {
    Seq::new(
        large_chunks_in(region_size) as nat,
        |i: int| ((region + (i + 1) * 524288) as usize, 0usize, 0usize),
    )
}

/// The chunks of a fresh region lie in it and do not overlap.
proof fn lemma_fresh_chunks(region: int, region_size: int, at: int)
    requires
        is_region_size(region_size),
        0 < region,
        region + region_size <= usize::MAX,
    ensures
        chunks_cover(fresh_common(region), 65536, at) + chunks_cover(
            fresh_large(region, region_size),
            524288,
            at,
        ) <= covers(region, region_size, at),
{
    lemma_region_size(region_size);
    let n = large_chunks_in(region_size);
    lemma_addresses_cover(fresh_common(region), 65536, at);
    lemma_addresses_cover(fresh_large(region, region_size), 524288, at);
    assert(addresses(fresh_common(region)) =~= run_of_blocks(region + 65536, 65536, 7));
    assert(addresses(fresh_large(region, region_size)) =~= run_of_blocks(
        region + 524288,
        524288,
        n,
    ));
    lemma_run_of_blocks(region + 65536, 65536, 7, at);
    lemma_run_of_blocks(region + 524288, 524288, n, at);
}

impl StateNode {
    /// A node for a fresh region.
    pub fn from_region(region: usize, region_size: usize) -> (r: StateNode)
        requires
            is_region_size(region_size as int),
            0 < region,
            region + region_size <= usize::MAX,
        ensures
            r@ == (NodeView {
                region_ptr: region,
                address: 0,
                free_common: fresh_common(region as int),
                free_large: fresh_large(region as int, region_size as int),
                used_common: Seq::empty(),
                used_large: Seq::empty(),
            }),
    {
        proof {
            lemma_region_size(region_size as int);
        }
        let parsed = parse_region(region, region_size);
        let mut free_common_chunks = buffer_new();
        let mut i: usize = 0;
        while i < parsed.common_chunks.len()
            invariant
                i <= parsed.common_chunks@.len() == 7,
                chunks_in(free_common_chunks) =~= fresh_common(region as int).take(i as int),
                forall|j: int|
                    0 <= j < 7 ==> #[trigger] parsed.common_chunks@[j] == region + (j + 1)
                        * COMMON_CHUNK_SIZE,
            decreases 7 - i,
        {
            let _ = buffer_push(&mut free_common_chunks, (parsed.common_chunks[i], 0, 0));
            i = i + 1;
        }
        let mut free_large_chunks = buffer_new();
        let mut k: usize = 0;
        while k < parsed.large_chunks.len()
            invariant
                k <= parsed.large_chunks@.len() <= 63,
                parsed.large_chunks@.len() == large_chunks_in(region_size as int),
                chunks_in(free_large_chunks) =~= fresh_large(
                    region as int,
                    region_size as int,
                ).take(k as int),
                forall|j: int|
                    0 <= j < parsed.large_chunks@.len() ==> #[trigger] parsed.large_chunks@[j]
                        == region + (j + 1) * LARGE_CHUNK_SIZE,
            decreases parsed.large_chunks@.len() - k,
        {
            let _ = buffer_push(&mut free_large_chunks, (parsed.large_chunks[k], 0, 0));
            k = k + 1;
        }
        assert(fresh_common(region as int).take(7) =~= fresh_common(region as int));
        assert(fresh_large(region as int, region_size as int).take(
            large_chunks_in(region_size as int),
        ) =~= fresh_large(region as int, region_size as int));
        StateNode {
            region_ptr: region,
            address: 0,
            free_common_chunks,
            free_large_chunks,
            used_common_chunks: buffer_new(),
            used_large_chunks: buffer_new(),
        }
    }

    /// The number of chunks that are carved into common or into large objects.
    pub fn used_len(&self, common: bool) -> (r: usize)
        ensures
            r == self@.used(common).len(),
            r <= BUFFER_CAPACITY,
    {
        if common {
            buffer_len(&self.used_common_chunks)
        } else {
            buffer_len(&self.used_large_chunks)
        }
    }

    /// A carved chunk.
    pub fn used_chunk(&self, common: bool, i: usize) -> (r: Chunk)
        requires
            i < self@.used(common).len(),
        ensures
            r == self@.used(common)[i as int],
    {
        if common {
            buffer_get(&self.used_common_chunks, i)
        } else {
            buffer_get(&self.used_large_chunks, i)
        }
    }

    fn set_used_chunk(&mut self, common: bool, i: usize, chunk: Chunk)
        requires
            i < old(self)@.used(common).len(),
        ensures
            final(self)@ == old(self)@.with_used(
                common,
                old(self)@.used(common).update(i as int, chunk),
            ),
    {
        if common {
            buffer_set(&mut self.used_common_chunks, i, chunk);
        } else {
            buffer_set(&mut self.used_large_chunks, i, chunk);
        }
    }

    fn push_used_chunk(&mut self, common: bool, chunk: Chunk)
        requires
            old(self)@.used(common).len() < BUFFER_CAPACITY,
        ensures
            final(self)@ == old(self)@.with_used(common, old(self)@.used(common).push(chunk)),
    {
        if common {
            let _ = buffer_push(&mut self.used_common_chunks, chunk);
        } else {
            let _ = buffer_push(&mut self.used_large_chunks, chunk);
        }
    }

    /// Whether a carved chunk of the node can serve `size`.
    pub open spec fn has_slot(chunks: Seq<Chunk>, size: int, i: int) -> bool {
        chunks[i].1 == size && chunks[i].2 > 0
    }

    /// The first carved chunk of the node with objects of `size` bytes that has one left.
    fn find_slot(&self, common: bool, size: usize) -> (r: Option<usize>)
        ensures
            match r {
                Some(i) => {
                    &&& i < self@.used(common).len()
                    &&& StateNode::has_slot(self@.used(common), size as int, i as int)
                    &&& forall|j: int|
                        0 <= j < i ==> !StateNode::has_slot(self@.used(common), size as int, j)
                },
                None => forall|j: int|
                    0 <= j < self@.used(common).len() ==> !StateNode::has_slot(
                        self@.used(common),
                        size as int,
                        j,
                    ),
            },
    {
        let n: usize = self.used_len(common);
        let mut i: usize = 0;
        while i < n
            invariant
                i <= n,
                n == self@.used(common).len(),
                forall|j: int|
                    0 <= j < i ==> !StateNode::has_slot(self@.used(common), size as int, j),
            decreases n - i,
        {
            let chunk = self.used_chunk(common, i);
            if chunk.1 == size && chunk.2 > 0 {
                return Some(i);
            }
            i = i + 1;
        }
        None
    }
}

/// Taking the last object that is left of a carved chunk.
proof fn lemma_take_slot(node: NodeView, common: bool, i: int, region_size: int)
    requires
        node.wf(region_size),
        0 <= i < node.used(common).len(),
        node.used(common)[i].2 > 0,
    ensures
        ({
            let chunk = node.used(common)[i];
            let taken = node.with_used(
                common,
                node.used(common).update(i, (chunk.0, chunk.1, (chunk.2 - 1) as usize)),
            );
            let ptr = chunk.0 + chunk.1 * (chunk.2 - 1);
            &&& taken.wf(region_size)
            &&& taken.potential() == node.potential()
            &&& 0 < ptr
            &&& ptr + chunk.1 <= usize::MAX
            &&& forall|at: int| #[trigger]
                taken.cover(region_size, at) + covers(ptr, chunk.1 as int, at) == node.cover(
                    region_size,
                    at,
                )
            &&& forall|class: int| #[trigger]
                taken.out(region_size, class) == node.out(region_size, class) + (if class
                    == class_of(chunk.1 as int) {
                    1int
                } else {
                    0
                })
        }),
{
    let chunk = node.used(common)[i];
    let next = (chunk.0, chunk.1, (chunk.2 - 1) as usize);
    let taken = node.with_used(common, node.used(common).update(i, next));
    let ptr = chunk.0 + chunk.1 * (chunk.2 - 1);
    assert(used_chunk_wf(chunk, common));
    assert(used_chunk_wf(next, common));
    lemma_class_of(chunk.1 as int);
    lemma_class(class_of(chunk.1 as int));
    let slots = slots_of_class(class_of(chunk.1 as int));
    assert(chunk.1 * (chunk.2 - 1) + chunk.1 == chunk.1 * chunk.2) by (nonlinear_arith);
    assert(0 <= chunk.1 * (chunk.2 - 1)) by (nonlinear_arith)
        requires
            chunk.2 >= 1,
            chunk.1 >= 0,
    ;
    assert(chunk.1 * chunk.2 <= slots * chunk.1) by (nonlinear_arith)
        requires
            chunk.2 < slots,
            chunk.1 >= 0,
    ;
    reveal(NodeView::cover);
    reveal(NodeView::out);
    assert forall|at: int| #[trigger]
        taken.cover(region_size, at) + covers(ptr, chunk.1 as int, at) == node.cover(
            region_size,
            at,
        ) by {
        lemma_rests_cover_update(node.used(common), i, next, at);
    }
    assert forall|class: int| #[trigger]
        taken.out(region_size, class) == node.out(region_size, class) + (if class == class_of(
            chunk.1 as int,
        ) {
            1int
        } else {
            0
        }) by {
        lemma_handed_out_update(node.used(common), i, next, class);
    }
}

/// The regions that the allocator is building its structures in, the first one first.
pub struct State {
    pub region_size: usize,
    pub nodes: Vec<StateNode>,
    /// Whether the next chunk that is opened will hold the manager.
    pub is_allocating_non_local_ptr_manager_now: bool,
}

impl State {
    /// What the nodes hold.
    pub open spec fn chain(self) -> Seq<NodeView> {
        Seq::new(self.nodes@.len(), |k: int| self.nodes@[k]@)
    }

    /// Whether the state is sound.
    pub open spec fn wf(self) -> bool {
        &&& is_region_size(self.region_size as int)
        &&& self.nodes@.len() >= 1
        &&& forall|k: int|
            0 <= k < self.nodes@.len() ==> #[trigger] self.chain()[k].wf(self.region_size as int)
        &&& forall|k: int|
            0 <= k < self.nodes@.len() ==> ((#[trigger] self.chain()[k]).address == 0 <==> k == 0)
    }

    /// How often the memory of the state that is not handed out covers the byte at `at`.
    pub open spec fn cover(self, at: int) -> int {
        chain_cover(self.chain(), self.region_size as int, at)
    }

    /// How many objects of the class are handed out, but for those that hold the state.
    pub open spec fn out(self, class: int) -> int {
        chain_out(self.chain(), self.region_size as int, class)
    }

    /// The chunks that the state can still carve, counted in common chunks.
    pub open spec fn potential(self) -> nat {
        chain_potential(self.chain())
    }

    /// What the chunks of the state weigh, carved or not, counted in common chunks.
    pub open spec fn weight(self) -> int {
        chain_weight(self.chain())
    }

    /// Whether no carved chunk has an object of `size` bytes left.
    pub open spec fn has_no_slot(self, common: bool, size: int) -> bool {
        forall|k: int, i: int|
            #![trigger self.chain()[k].used(common)[i]]
            0 <= k < self.chain().len() && 0 <= i < self.chain()[k].used(common).len()
                ==> !StateNode::has_slot(self.chain()[k].used(common), size, i)
    }

    /// Whether the first carved chunk with an object of `size` bytes left is the one at `i` in
    /// node `k`.
    pub open spec fn first_slot(self, common: bool, size: int, k: int, i: int) -> bool {
        &&& 0 <= k < self.chain().len()
        &&& 0 <= i < self.chain()[k].used(common).len()
        &&& StateNode::has_slot(self.chain()[k].used(common), size, i)
        &&& forall|h: int, j: int|
            #![trigger self.chain()[h].used(common)[j]]
            0 <= h < self.chain().len() && 0 <= j < self.chain()[h].used(common).len() && (h < k
                || h == k && j < i) ==> !StateNode::has_slot(
                self.chain()[h].used(common),
                size,
                j,
            )
    }

    /// The chain after an object of the chunk at `i` in node `k` is taken.
    pub open spec fn chain_after_take(self, common: bool, k: int, i: int) -> Seq<NodeView> {
        let node = self.chain()[k];
        let chunk = node.used(common)[i];
        self.chain().update(
            k,
            node.with_used(
                common,
                node.used(common).update(i, (chunk.0, chunk.1, (chunk.2 - 1) as usize)),
            ),
        )
    }

    /// A state with one fresh region.
    pub fn from_region(region: usize, region_size: usize) -> (r: State)
        requires
            is_region_size(region_size as int),
            0 < region,
            region + region_size <= usize::MAX,
        ensures
            r.wf(),
            r.region_size == region_size,
            !r.is_allocating_non_local_ptr_manager_now,
            r.chain() == seq![fresh_node(region as int, region_size as int)],
            forall|at: int| #[trigger]
                r.cover(at) <= covers(region as int, region_size as int, at),
            forall|class: int| #[trigger] r.out(class) == 0,
            r.potential() == region_size / 65536 - 1,
            r.weight() == region_size as int / 65536 - 1,
    {
        let node = StateNode::from_region(region, region_size);
        let mut nodes: Vec<StateNode> = Vec::new();
        nodes.push(node);
        let r = State { region_size, nodes, is_allocating_non_local_ptr_manager_now: false };
        proof {
            lemma_fresh_node(region as int, region_size as int);
            let empty = Seq::<NodeView>::empty();
            let fresh = fresh_node(region as int, region_size as int);
            lemma_chain_push(empty, fresh, region_size as int);
            assert(r.chain() =~= empty.push(fresh));
            assert(r.chain() =~= seq![fresh]);
        }
        r
    }

    /// Whether the state holds nothing any more.
    pub fn is_processed(&self) -> (r: bool)
        ensures
            r <==> self.chain().len() <= 1 && (self.chain().len() == 1
                ==> self.chain()[0].is_empty()),
    {
        if self.nodes.len() > 1 {
            return false;
        }
        if self.nodes.len() == 0 {
            return true;
        }
        let node = &self.nodes[0];
        assert(self.chain()[0] == node@);
        buffer_len(&node.used_large_chunks) == 0 && buffer_len(&node.used_common_chunks) == 0
            && buffer_len(&node.free_common_chunks) == 0 && buffer_len(&node.free_large_chunks)
            == 0
    }

    /// Whether the state has grown beyond its first region.
    pub fn has_next_state(&self) -> (r: bool)
        ensures
            r == (self.chain().len() > 1),
    {
        self.nodes.len() > 1
    }

    /// Says whether the next chunk that is opened will hold the manager.
    pub fn set_is_allocating_non_local_ptr_manager_now(&mut self, value: bool)
        ensures
            *final(self) == (State {
                is_allocating_non_local_ptr_manager_now: value,
                ..*old(self)
            }),
    {
        self.is_allocating_non_local_ptr_manager_now = value;
    }

    /// Takes an object of `size` bytes from the first carved chunk that has one left.
    pub fn try_alloc_size(&mut self, size_class: SizeClass, size: usize) -> (r: Option<usize>)
        requires
            old(self).wf(),
            is_object_size(size as int),
            size_class == SizeClass::of(size as int),
        ensures
            final(self).wf(),
            final(self).region_size == old(self).region_size,
            final(self).is_allocating_non_local_ptr_manager_now == old(self).is_allocating_non_local_ptr_manager_now,
            r is None <==> old(self).has_no_slot(size_class is Common, size as int),
            match r {
                Some(ptr) => {
                    &&& exists|k: int, i: int|
                        #![trigger old(self).chain()[k].used(size_class is Common)[i]]
                        {
                            &&& old(self).first_slot(size_class is Common, size as int, k, i)
                            &&& ptr == old(self).chain()[k].used(size_class is Common)[i].0 + size
                                * (old(self).chain()[k].used(size_class is Common)[i].2 - 1)
                            &&& final(self).chain() == old(self).chain_after_take(
                                size_class is Common,
                                k,
                                i,
                            )
                        }
                    &&& took(*old(self), *final(self), ptr as int, size as int)
                    &&& carves(final(self).chain(), ptr as int)
                },
                None => *final(self) == *old(self),
            },
            forall|env: Environment| #[trigger] settles(*old(self), env, *final(self), env),
    {
        assert forall|env: Environment| #[trigger] settles(*old(self), env, *old(self), env) by {
            lemma_keeps_itself(env);
            lemma_settles_itself(*old(self), *old(self), env, env);
        }
        let common = match size_class {
            SizeClass::Common => true,
            _ => false,
        };
        let n: usize = self.nodes.len();
        let mut k: usize = 0;
        while k < n
            invariant
                k <= n,
                n == self.nodes@.len(),
                *self == *old(self),
                self.wf(),
                common == (size_class is Common),
                is_object_size(size as int),
                forall|h: int, j: int|
                    #![trigger self.chain()[h].used(common)[j]]
                    0 <= h < k && 0 <= j < self.chain()[h].used(common).len()
                        ==> !StateNode::has_slot(self.chain()[h].used(common), size as int, j),
            decreases n - k,
        {
            assert(self.chain()[k as int] == self.nodes@[k as int]@);
            match self.nodes[k].find_slot(common, size) {
                Some(i) => {
                    let chunk = self.nodes[k].used_chunk(common, i);
                    let ghost node = self.chain()[k as int];
                    let ghost before = *self;
                    proof {
                        assert(node.wf(self.region_size as int));
                        lemma_take_slot(node, common, i as int, self.region_size as int);
                        assert(before.first_slot(common, size as int, k as int, i as int));
                        lemma_offset(size as int, chunk.2 as int - 1);
                    }
                    let ptr: usize = chunk.0 + size * (chunk.2 - 1);
                    self.nodes[k].set_used_chunk(common, i, (chunk.0, chunk.1, chunk.2 - 1));
                    proof {
                        let taken = node.with_used(
                            common,
                            node.used(common).update(
                                i as int,
                                (chunk.0, chunk.1, (chunk.2 - 1) as usize),
                            ),
                        );
                        assert(self.chain() =~= before.chain().update(k as int, taken));
                        lemma_chain_update(
                            before.chain(),
                            k as int,
                            taken,
                            self.region_size as int,
                        );
                        lemma_slot_taken(before, *self, common, k as int, i as int, taken);
                    }
                    return Some(ptr);
                },
                None => {},
            }
            k = k + 1;
        }
        None
    }
}

/// An object that is taken of a carved chunk lies in it, and the chunks stay where they are.
proof fn lemma_slot_taken(
    s0: State,
    s1: State,
    common: bool,
    k: int,
    i: int,
    node: NodeView,
)
    requires
        s0.wf(),
        0 <= k < s0.chain().len(),
        0 <= i < s0.chain()[k].used(common).len(),
        s0.chain()[k].used(common)[i].2 > 0,
        s1.chain() == s0.chain().update(k, node),
        ({
            let chunk = s0.chain()[k].used(common)[i];
            node == s0.chain()[k].with_used(
                common,
                s0.chain()[k].used(common).update(i, (chunk.0, chunk.1, (chunk.2 - 1) as usize)),
            )
        }),
    ensures
        forall|env: Environment| #[trigger] settles(s0, env, s1, env),
        ({
            let chunk = s0.chain()[k].used(common)[i];
            carves(s1.chain(), chunk.0 + chunk.1 * (chunk.2 - 1))
        }),
{
    let before = s0.chain()[k];
    let chunk = before.used(common)[i];
    let chunks = before.used(common).update(i, (chunk.0, chunk.1, (chunk.2 - 1) as usize));
    let ptr = chunk.0 + chunk.1 * (chunk.2 - 1);
    assert(before.wf(s0.region_size as int));
    assert(used_chunk_wf(chunk, common)) by {
        if common {
            assert(used_chunk_wf(before.used_common[i], true));
        } else {
            assert(used_chunk_wf(before.used_large[i], false));
        }
    }
    lemma_class_of(chunk.1 as int);
    lemma_class(class_of(chunk.1 as int));
    assert(0 <= chunk.1 * (chunk.2 - 1) < slots_of_class(class_of(chunk.1 as int)) * chunk.1)
        by (nonlinear_arith)
        requires
            1 <= chunk.2 < slots_of_class(class_of(chunk.1 as int)),
            chunk.1 > 0,
    ;
    lemma_node_carves_more(before, common, chunks);
    assert(node_carves(node, ptr)) by {
        assert(lies_in(node.used(common)[i], common, ptr));
    }
    assert forall|env: Environment| #[trigger] settles(s0, env, s1, env) by {
        lemma_keeps_itself(env);
        lemma_settles_itself(s0, s0, env, env);
        if chain_placed(env, s0.chain()) {
            reveal(chain_placed);
            assert(node_placed(env, before));
            assert forall|c: bool, j: int| 0 <= j < node.used(c).len() implies is_placed(
                env,
                (#[trigger] node.used(c)[j]).0 as int,
                chunk_bytes(c),
            ) by {
                assert(node.used(c)[j].0 == before.used(c)[j].0);
            }
            assert(node.free_common == before.free_common && node.free_large == before.free_large);
            assert(node_placed(env, node));
        }
        lemma_settles_update(s0, env, s0, env, s1, k, node);
    }
    assert(carves(s1.chain(), ptr)) by {
        assert(node_carves(s1.chain()[k], ptr));
    }
}

/// A free chunk that is taken of a node.
proof fn lemma_chunk_popped(s0: State, s1: State, k: int, node: NodeView)
    requires
        0 <= k < s0.chain().len(),
        s1.chain() == s0.chain().update(k, node),
        node == (NodeView {
            free_common: node.free_common,
            free_large: node.free_large,
            ..s0.chain()[k]
        }),
        node.free_common.is_prefix_of(s0.chain()[k].free_common),
        node.free_large.is_prefix_of(s0.chain()[k].free_large),
    ensures
        forall|env: Environment| #[trigger] settles(s0, env, s1, env),
{
    let before = s0.chain()[k];
    assert forall|c: bool| #[trigger] node.used(c) == before.used(c) by {}
    assert forall|at: int| node_carves(before, at) implies #[trigger] node_carves(node, at) by {
        let (c, i) = choose|c: bool, i: int|
            0 <= i < before.used(c).len() && lies_in(#[trigger] before.used(c)[i], c, at);
        assert(lies_in(node.used(c)[i], c, at));
    }
    assert forall|env: Environment| #[trigger] settles(s0, env, s1, env) by {
        lemma_keeps_itself(env);
        lemma_settles_itself(s0, s0, env, env);
        if chain_placed(env, s0.chain()) {
            reveal(chain_placed);
            assert(node_placed(env, before));
            assert forall|c: bool, j: int| 0 <= j < node.used(c).len() implies is_placed(
                env,
                (#[trigger] node.used(c)[j]).0 as int,
                chunk_bytes(c),
            ) by {
                assert(node.used(c)[j] == before.used(c)[j]);
            }
            assert forall|j: int| 0 <= j < node.free_common.len() implies is_placed(
                env,
                (#[trigger] node.free_common[j]).0 as int,
                65536,
            ) by {
                assert(node.free_common[j] == before.free_common[j]);
            }
            assert forall|j: int| 0 <= j < node.free_large.len() implies is_placed(
                env,
                (#[trigger] node.free_large[j]).0 as int,
                524288,
            ) by {
                assert(node.free_large[j] == before.free_large[j]);
            }
            assert(node_placed(env, node));
        }
        lemma_settles_update(s0, env, s0, env, s1, k, node);
    }
}

/// A chunk that a node has carved anew.
proof fn lemma_chunk_opened(
    s0: State,
    e0: Environment,
    s1: State,
    e1: Environment,
    s2: State,
    k: int,
    common: bool,
    chunk: Chunk,
)
    requires
        settles(s0, e0, s1, e1),
        0 <= k < s1.chain().len(),
        s2.chain() == s1.chain().update(
            k,
            s1.chain()[k].with_used(common, s1.chain()[k].used(common).push(chunk)),
        ),
        is_single(e0) && chain_placed(e0, s0.chain()) ==> is_placed(
            e1,
            chunk.0 as int,
            chunk_bytes(common),
        ),
    ensures
        settles(s0, e0, s2, e1),
        forall|at: int| lies_in(chunk, common, at) ==> #[trigger] carves(s2.chain(), at),
{
    let before = s1.chain()[k];
    let chunks = before.used(common).push(chunk);
    let node = before.with_used(common, chunks);
    lemma_node_carves_more(before, common, chunks);
    if is_single(e0) && chain_placed(e0, s0.chain()) && chain_placed(e1, s1.chain()) {
        reveal(chain_placed);
        assert(node_placed(e1, before));
        assert forall|c: bool, j: int| 0 <= j < node.used(c).len() implies is_placed(
            e1,
            (#[trigger] node.used(c)[j]).0 as int,
            chunk_bytes(c),
        ) by {
            if j < before.used(c).len() {
                assert(node.used(c)[j] == before.used(c)[j]);
            }
        }
        assert(node_placed(e1, node));
    }
    lemma_settles_update(s0, e0, s1, e1, s2, k, node);
    assert forall|at: int| lies_in(chunk, common, at) implies #[trigger] carves(s2.chain(), at) by {
        assert(lies_in(node.used(common)[before.used(common).len() as int], common, at));
        assert(node_carves(node, at));
    }
}

/// A large chunk that a node has split.
proof fn lemma_node_refilled(
    s0: State,
    e0: Environment,
    s1: State,
    e1: Environment,
    s2: State,
    k: int,
    large_chunk: int,
)
    requires
        is_region_size(e1.region_size as int),
        settles(s0, e0, s1, e1),
        0 <= k < s1.chain().len(),
        s2.chain() == s1.chain().update(
            k,
            NodeView { free_common: split_chunks(large_chunk), ..s1.chain()[k] },
        ),
        is_single(e0) && chain_placed(e0, s0.chain()) ==> is_placed(e1, large_chunk, 524288),
    ensures
        settles(s0, e0, s2, e1),
{
    let before = s1.chain()[k];
    let node = NodeView { free_common: split_chunks(large_chunk), ..before };
    assert forall|c: bool| #[trigger] node.used(c) == before.used(c) by {}
    assert forall|at: int| node_carves(before, at) implies #[trigger] node_carves(node, at) by {
        let (c, i) = choose|c: bool, i: int|
            0 <= i < before.used(c).len() && lies_in(#[trigger] before.used(c)[i], c, at);
        assert(lies_in(node.used(c)[i], c, at));
    }
    if is_single(e0) && chain_placed(e0, s0.chain()) && chain_placed(e1, s1.chain()) {
        reveal(chain_placed);
        lemma_split_placed(e1, large_chunk);
        assert(node_placed(e1, before));
        assert forall|c: bool, j: int| 0 <= j < node.used(c).len() implies is_placed(
            e1,
            (#[trigger] node.used(c)[j]).0 as int,
            chunk_bytes(c),
        ) by {
            assert(node.used(c)[j] == before.used(c)[j]);
        }
        assert(node_placed(e1, node));
    }
    lemma_settles_update(s0, e0, s1, e1, s2, k, node);
}

/// A fresh node of which a chunk is carved.
proof fn lemma_fresh_opened(
    env: Environment,
    fresh: NodeView,
    opened: NodeView,
    common: bool,
    chunk: Chunk,
)
    requires
        ({
            let rest = if common {
                without_common(fresh)
            } else {
                without_large(fresh)
            };
            &&& opened == rest.with_used(common, rest.used(common).push(chunk))
            &&& common ==> fresh.free_common.len() > 0 && chunk.0 == fresh.free_common.last().0
            &&& !common ==> fresh.free_large.len() > 0 && chunk.0 == fresh.free_large.last().0
        }),
    ensures
        node_placed(env, fresh) ==> node_placed(env, opened),
{
    if node_placed(env, fresh) {
        let n = if common {
            fresh.free_common.len()
        } else {
            fresh.free_large.len()
        } - 1;
        assert(is_placed(env, chunk.0 as int, chunk_bytes(common))) by {
            if common {
                assert(fresh.free_common[n].0 == chunk.0);
            } else {
                assert(fresh.free_large[n].0 == chunk.0);
            }
        }
        assert forall|c: bool, j: int| 0 <= j < opened.used(c).len() implies is_placed(
            env,
            (#[trigger] opened.used(c)[j]).0 as int,
            chunk_bytes(c),
        ) by {
            if j < fresh.used(c).len() {
                assert(opened.used(c)[j] == fresh.used(c)[j]);
            }
        }
        assert forall|j: int| 0 <= j < opened.free_common.len() implies is_placed(
            env,
            (#[trigger] opened.free_common[j]).0 as int,
            65536,
        ) by {
            assert(opened.free_common[j] == fresh.free_common[j]);
        }
        assert forall|j: int| 0 <= j < opened.free_large.len() implies is_placed(
            env,
            (#[trigger] opened.free_large[j]).0 as int,
            524288,
        ) by {
            assert(opened.free_large[j] == fresh.free_large[j]);
        }
    }
}

/// Where a node is kept does not matter for its chunks.
proof fn lemma_node_with_address(env: Environment, node: NodeView, ptr: usize)
    ensures
        node_placed(env, node) ==> node_placed(env, NodeView { address: ptr, ..node }),
{
    let after = NodeView { address: ptr, ..node };
    assert forall|c: bool| #[trigger] after.used(c) == node.used(c) by {}
    if node_placed(env, node) {
        assert forall|c: bool, j: int| 0 <= j < after.used(c).len() implies is_placed(
            env,
            (#[trigger] after.used(c)[j]).0 as int,
            chunk_bytes(c),
        ) by {
            assert(after.used(c)[j] == node.used(c)[j]);
        }
        assert(node_placed(env, after));
    }
}

/// The last object of a chunk lies in it.
proof fn lemma_last_lies_in(chunk: Chunk, common: bool)
    requires
        is_object_size(chunk.1 as int),
        chunk.1 <= 1024 <==> common,
    ensures
        lies_in(
            chunk,
            common,
            chunk.0 + chunk.1 * (slots_of_class(class_of(chunk.1 as int)) - 1),
        ),
{
    lemma_class_of(chunk.1 as int);
    lemma_class(class_of(chunk.1 as int));
    let n = slots_of_class(class_of(chunk.1 as int));
    assert(0 <= chunk.1 * (n - 1) < n * chunk.1) by (nonlinear_arith)
        requires
            n >= 1,
            chunk.1 > 0,
    ;
}

proof fn lemma_offset(size: int, n: int)
    requires
        0 <= n,
        0 <= size,
    ensures
        0 <= size * n,
{
    assert(0 <= size * n) by (nonlinear_arith)
        requires
            0 <= n,
            0 <= size,
    ;
}

impl NodeView {
    /// Whether nothing is left in the node.
    pub open spec fn is_empty(self) -> bool {
        &&& self.free_common.len() == 0
        &&& self.free_large.len() == 0
        &&& self.used_common.len() == 0
        &&& self.used_large.len() == 0
    }
}

/// A node with a fresh region.
pub open spec fn fresh_node(region: int, region_size: int) -> NodeView {
    NodeView {
        region_ptr: region as usize,
        address: 0,
        free_common: fresh_common(region),
        free_large: fresh_large(region, region_size),
        used_common: Seq::empty(),
        used_large: Seq::empty(),
    }
}

proof fn lemma_fresh_node(region: int, region_size: int)
    requires
        is_region_size(region_size),
        0 < region,
        region + region_size <= usize::MAX,
    ensures
        fresh_node(region, region_size).wf(region_size),
        fresh_node(region, region_size).potential() == region_size / 65536 - 1,
        forall|at: int| #[trigger]
            fresh_node(region, region_size).cover(region_size, at) <= covers(
                region,
                region_size,
                at,
            ),
        forall|class: int| #[trigger] fresh_node(region, region_size).out(region_size, class) == 0,
{
    lemma_region_size(region_size);
    reveal(NodeView::cover);
    reveal(NodeView::out);
    let node = fresh_node(region, region_size);
    assert forall|at: int| #[trigger]
        node.cover(region_size, at) <= covers(region, region_size, at) by {
        lemma_fresh_chunks(region, region_size, at);
    }
}

/// What taking an object of `size` bytes at `ptr` from a state does to the accounts: its bytes
/// are no longer held, and one more object of its class is out.
pub open spec fn took(before: State, after: State, ptr: int, size: int) -> bool {
    &&& 0 < ptr
    &&& ptr + size <= usize::MAX
    &&& after.potential() == before.potential()
    &&& after.weight() == before.weight()
    &&& forall|at: int| #[trigger] after.cover(at) + covers(ptr, size, at) == before.cover(at)
    &&& forall|class: int| #[trigger]
        after.out(class) == before.out(class) + (if class == class_of(size) {
            1int
        } else {
            0
        })
}

impl StateNode {
    /// Takes the last free large chunk.
    fn pop_large(&mut self) -> (r: Option<usize>)
        ensures
            old(self)@.free_large.len() == 0 ==> r is None && final(self)@ == old(self)@,
            old(self)@.free_large.len() > 0 ==> r == Some(old(self)@.free_large.last().0)
                && final(self)@ == (NodeView {
                free_large: old(self)@.free_large.drop_last(),
                ..old(self)@
            }),
    {
        match buffer_pop(&mut self.free_large_chunks) {
            Some(chunk) => Some(chunk.0),
            None => None,
        }
    }

    /// Takes the last free common chunk.
    fn pop_common(&mut self) -> (r: Option<usize>)
        ensures
            old(self)@.free_common.len() == 0 ==> r is None && final(self)@ == old(self)@,
            old(self)@.free_common.len() > 0 ==> r == Some(old(self)@.free_common.last().0)
                && final(self)@ == (NodeView {
                free_common: old(self)@.free_common.drop_last(),
                ..old(self)@
            }),
    {
        match buffer_pop(&mut self.free_common_chunks) {
            Some(chunk) => Some(chunk.0),
            None => None,
        }
    }

    /// Splits a large chunk into free common chunks.
    fn refill_common(&mut self, large_chunk: usize)
        requires
            old(self)@.free_common.len() == 0,
            large_chunk + LARGE_CHUNK_SIZE <= usize::MAX,
        ensures
            final(self)@ == (NodeView {
                free_common: split_chunks(large_chunk as int),
                ..old(self)@
            }),
    {
        let parts = split_large_chunk_to_common(large_chunk);
        let mut i: usize = 0;
        assert(self@.free_common =~= split_chunks(large_chunk as int).take(0));
        while i < 8
            invariant
                i <= 8,
                forall|j: int|
                    0 <= j < 8 ==> #[trigger] parts@[j] == large_chunk + j * COMMON_CHUNK_SIZE,
                self@ == (NodeView {
                    free_common: split_chunks(large_chunk as int).take(i as int),
                    ..old(self)@
                }),
            decreases 8 - i,
        {
            let _ = buffer_push(&mut self.free_common_chunks, (parts[i], 0, 0));
            assert(self@.free_common =~= split_chunks(large_chunk as int).take(i + 1));
            i = i + 1;
        }
        assert(split_chunks(large_chunk as int).take(8) =~= split_chunks(large_chunk as int));
    }
}

/// The common chunks that a large chunk splits into.
pub open spec fn split_chunks(large_chunk: int) -> Seq<Chunk> {
    Seq::new(8, |i: int| ((large_chunk + i * 65536) as usize, 0usize, 0usize))
}

proof fn lemma_split_chunks(large_chunk: int, at: int)
    requires
        0 < large_chunk,
        large_chunk + 524288 <= usize::MAX,
    ensures
        chunks_cover(split_chunks(large_chunk), 65536, at) == covers(large_chunk, 524288, at),
{
    lemma_addresses_cover(split_chunks(large_chunk), 65536, at);
    assert(addresses(split_chunks(large_chunk)) =~= run_of_blocks(large_chunk, 65536, 8));
    lemma_run_of_blocks(large_chunk, 65536, 8, at);
}

/// Taking a free large chunk from a node.
proof fn lemma_pop_large(node: NodeView, region_size: int)
    requires
        node.wf(region_size),
        node.free_large.len() > 0,
    ensures
        ({
            let chunk = node.free_large.last().0 as int;
            let popped = NodeView { free_large: node.free_large.drop_last(), ..node };
            &&& popped.wf(region_size)
            &&& popped.potential() == node.potential() - 8
            &&& 0 < chunk
            &&& chunk + 524288 <= usize::MAX
            &&& forall|at: int| #[trigger]
                popped.cover(region_size, at) + covers(chunk, 524288, at) == node.cover(
                    region_size,
                    at,
                )
            &&& forall|class: int| #[trigger]
                popped.out(region_size, class) == node.out(region_size, class)
        }),
{
    reveal(NodeView::cover);
    reveal(NodeView::out);
    assert(free_chunk_wf(node.free_large[node.free_large.len() - 1], 524288));
    let popped = NodeView { free_large: node.free_large.drop_last(), ..node };
    assert forall|i: int| 0 <= i < popped.free_large.len() implies #[trigger] free_chunk_wf(
        popped.free_large[i],
        524288,
    ) by {
        assert(free_chunk_wf(node.free_large[i], 524288));
    }
}

/// Taking a free common chunk from a node.
proof fn lemma_pop_common(node: NodeView, region_size: int)
    requires
        node.wf(region_size),
        node.free_common.len() > 0,
    ensures
        ({
            let chunk = node.free_common.last().0 as int;
            let popped = NodeView { free_common: node.free_common.drop_last(), ..node };
            &&& popped.wf(region_size)
            &&& popped.potential() == node.potential() - 1
            &&& 0 < chunk
            &&& chunk + 65536 <= usize::MAX
            &&& forall|at: int| #[trigger]
                popped.cover(region_size, at) + covers(chunk, 65536, at) == node.cover(
                    region_size,
                    at,
                )
            &&& forall|class: int| #[trigger]
                popped.out(region_size, class) == node.out(region_size, class)
        }),
{
    reveal(NodeView::cover);
    reveal(NodeView::out);
    assert(free_chunk_wf(node.free_common[node.free_common.len() - 1], 65536));
    let popped = NodeView { free_common: node.free_common.drop_last(), ..node };
    assert forall|i: int| 0 <= i < popped.free_common.len() implies #[trigger] free_chunk_wf(
        popped.free_common[i],
        65536,
    ) by {
        assert(free_chunk_wf(node.free_common[i], 65536));
    }
}

/// Splitting a large chunk that was taken from a node into free common chunks of it.
proof fn lemma_refill(node: NodeView, large_chunk: int, region_size: int)
    requires
        node.wf(region_size),
        node.free_common.len() == 0,
        node.used_common.len() + 8 * (node.used_large.len() + node.free_large.len()) + 8 <= 8
            * large_chunks_in(region_size) + 7,
        0 < large_chunk,
        large_chunk + 524288 <= usize::MAX,
    ensures
        ({
            let refilled = NodeView { free_common: split_chunks(large_chunk), ..node };
            &&& refilled.wf(region_size)
            &&& refilled.potential() == node.potential() + 8
            &&& forall|at: int| #[trigger]
                refilled.cover(region_size, at) == node.cover(region_size, at) + covers(
                    large_chunk,
                    524288,
                    at,
                )
            &&& forall|class: int| #[trigger]
                refilled.out(region_size, class) == node.out(region_size, class)
        }),
{
    reveal(NodeView::cover);
    reveal(NodeView::out);
    let refilled = NodeView { free_common: split_chunks(large_chunk), ..node };
    assert forall|at: int| #[trigger]
        refilled.cover(region_size, at) == node.cover(region_size, at) + covers(
            large_chunk,
            524288,
            at,
        ) by {
        lemma_split_chunks(large_chunk, at);
    }
}

/// Carving a chunk that was taken from a node, and handing out its last object.
proof fn lemma_open_chunk(
    node: NodeView,
    common: bool,
    chunk: int,
    size: int,
    region_size: int,
)
    requires
        is_region_size(region_size),
        node.wf(region_size),
        is_object_size(size),
        size <= 1024 <==> common,
        0 < chunk,
        chunk + (if common {
            65536int
        } else {
            524288int
        }) <= usize::MAX,
        node.used_common.len() + node.free_common.len() + 8 * (node.used_large.len()
            + node.free_large.len()) + (if common {
            1int
        } else {
            8
        }) <= 8 * large_chunks_in(region_size) + 7,
    ensures
        ({
            let slots = slots_of_class(class_of(size));
            let opened = node.with_used(
                common,
                node.used(common).push((chunk as usize, size as usize, (slots - 1) as usize)),
            );
            let ptr = chunk + size * (slots - 1);
            &&& opened.wf(region_size)
            &&& node.used(common).len() < BUFFER_CAPACITY
            &&& opened.potential() == node.potential()
            &&& 1 <= slots
            &&& 0 <= size * (slots - 1)
            &&& 0 < ptr
            &&& ptr + size <= usize::MAX
            &&& forall|at: int| #[trigger]
                opened.cover(region_size, at) + covers(ptr, size, at) <= node.cover(
                    region_size,
                    at,
                ) + covers(
                    chunk,
                    if common {
                        65536int
                    } else {
                        524288int
                    },
                    at,
                )
            &&& forall|class: int| #[trigger]
                opened.out(region_size, class) == node.out(region_size, class) + (if class
                    == class_of(size) {
                    1int
                } else {
                    0
                })
        }),
{
    lemma_region_size(region_size);
    lemma_class_of(size);
    lemma_class(class_of(size));
    let slots = slots_of_class(class_of(size));
    let opened_chunk = (chunk as usize, size as usize, (slots - 1) as usize);
    let opened = node.with_used(common, node.used(common).push(opened_chunk));
    let ptr = chunk + size * (slots - 1);
    assert(size * (slots - 1) + size == slots * size) by (nonlinear_arith);
    lemma_offset(size, slots - 1);
    assert(used_chunk_wf(opened_chunk, common));
    reveal(NodeView::cover);
    reveal(NodeView::out);
    assert forall|at: int| #[trigger]
        opened.cover(region_size, at) + covers(ptr, size, at) <= node.cover(region_size, at)
            + covers(
            chunk,
            if common {
                65536int
            } else {
                524288int
            },
            at,
        ) by {
        lemma_rests_cover_push(node.used(common), opened_chunk, at);
    }
    assert forall|class: int| #[trigger]
        opened.out(region_size, class) == node.out(region_size, class) + (if class == class_of(
            size,
        ) {
            1int
        } else {
            0
        }) by {
        lemma_handed_out_push(node.used(common), opened_chunk, class);
    }
}

impl NodeView {
    /// The chunks of the node, counted in common chunks.
    pub open spec fn weight(self) -> int {
        self.used_common.len() as int + self.free_common.len() as int + 8 * (
        self.used_large.len() as int + self.free_large.len() as int)
    }
}

/// What an operation on a state that takes memory from the operating system keeps.
pub open spec fn grows(s0: State, e0: Environment, s1: State, e1: Environment) -> bool {
    &&& s1.wf()
    &&& e1.wf()
    &&& e1.same_but_memory(e0)
    &&& s1.region_size == s0.region_size
    &&& s1.is_allocating_non_local_ptr_manager_now == s0.is_allocating_non_local_ptr_manager_now
    &&& s0.nodes@.len() <= s1.nodes@.len()
    &&& e1.unread() + s1.nodes@.len() <= e0.unread() + s0.nodes@.len()
    &&& e0.used_replies <= e1.used_replies
    &&& follows(e0, e1)
    &&& settles(s0, e0, s1, e1)
}

/// What taking a block of `size` bytes at `ptr` out of a state and of the mappings that wait does
/// to the accounts; `class` is the class of which one more object is out, `drop` the potential
/// that is used up at least.
pub open spec fn took_from(
    s0: State,
    e0: Environment,
    s1: State,
    e1: Environment,
    ptr: int,
    size: int,
    class: int,
    drop: int,
) -> bool {
    &&& 0 < ptr
    &&& ptr + size <= usize::MAX
    &&& e1.refusals == e0.refusals
    &&& forall|at: int| #[trigger]
        s1.cover(at) + e1.pool(at) + covers(ptr, size, at) <= s0.cover(at) + e0.pool(at)
    &&& forall|c: int| #[trigger]
        s1.out(c) == s0.out(c) + (if 0 <= class && c == class {
            1int
        } else {
            0
        })
    &&& potential_of(s1, e1) + drop <= potential_of(s0, e0)
    &&& balance(s1, e1) + (if class < 0 {
        size / 65536
    } else {
        0
    }) >= balance(s0, e0)
    &&& 0 <= class ==> carves(s1.chain(), ptr)
    &&& class < 0 && is_single(e0) && chain_placed(e0, s0.chain()) ==> is_placed(e1, ptr, size)
}

/// What the chunks of a state weigh beyond those that all regions have brought at least.
pub open spec fn balance(state: State, env: Environment) -> int {
    state.weight() - chunks_taken(env)
}

/// What a refused request for memory leaves behind.
pub open spec fn refused(s0: State, e0: Environment, s1: State, e1: Environment) -> bool {
    &&& s1 == s0
    &&& e1.refusals@.len() == e0.refusals@.len() + 1
    &&& e1.actions == e0.actions
    &&& short(e0, e1)
    &&& forall|at: int| #[trigger] e1.pool(at) <= e0.pool(at)
}

/// Whether a region can be taken now; `counting` tells whether the limit has to have room for it.
pub open spec fn can_take_region(env: Environment, counting: bool) -> bool {
    &&& next_reply_serves_region(env)
    &&& counting ==> env.limit.has_room_for(env.region_size)
}

/// What an operation on a state does with the limit: a region that it takes is one that can be
/// taken, and is counted; nothing else is. It comes back with nothing only where a region is needed
/// and cannot be taken.
pub open spec fn kept_limit(
    s0: State,
    e0: Environment,
    s1: State,
    e1: Environment,
    counting: bool,
    is_served: bool,
) -> bool {
    if s1.nodes@.len() > s0.nodes@.len() {
        &&& can_take_region(e0, counting)
        &&& s1.nodes@.len() == s0.nodes@.len() + 1
        &&& e1.limit == (AllocationLimit {
            allocated: e0.limit.allocated.wrapping_add(e0.region_size),
            ..e0.limit
        })
    } else {
        &&& e1.limit == e0.limit
        &&& is_served ==> e1 == e0
        &&& !is_served ==> !can_take_region(e0, counting)
    }
}

/// The chunks that a state and the mappings that wait can still be carved into, counted in common
/// chunks.
pub open spec fn potential_of(state: State, env: Environment) -> int {
    state.potential() + (env.region_size / 65536) * env.unread()
}

/// Whether the nodes of one chain have the free chunks of the first nodes of the other.
pub open spec fn keeps_free_chunks(before: Seq<NodeView>, after: Seq<NodeView>) -> bool {
    forall|k: int|
        #![trigger after[k]]
        0 <= k < before.len() ==> after[k].free_large == before[k].free_large
            && after[k].free_common == before[k].free_common
}

impl State {
    /// Appends a node with a fresh region. The node itself is kept in an object of the chain, or
    /// in one of its own region.
    fn alloc_new_state_in(&mut self, with_counting_limit: bool, env: &mut Environment) -> (r: bool)
        requires
            old(self).wf(),
            old(env).wf(),
            old(env).region_size == old(self).region_size,
        ensures
            grows(*old(self), *old(env), *final(self), *final(env)),
            r ==> {
                let last = final(self).chain().last();
                &&& final(self).nodes@.len() == old(self).nodes@.len() + 1
                &&& final(env).refusals == old(env).refusals
                &&& last.free_common.len() >= 6
                &&& last.free_large.len() >= 1
                &&& last.address != 0
                &&& forall|at: int| #[trigger]
                    final(self).cover(at) + final(env).pool(at) <= old(self).cover(at) + old(env).pool(at)
                &&& forall|c: int| #[trigger] final(self).out(c) == old(self).out(c)
                &&& potential_of(*final(self), *final(env)) + 1 <= potential_of(
                    *old(self),
                    *old(env),
                )
                &&& balance(*final(self), *final(env)) >= balance(*old(self), *old(env)) + 8
                &&& keeps_free_chunks(old(self).chain(), final(self).chain())
            },
            !r ==> refused(*old(self), *old(env), *final(self), *final(env)),
            kept_limit(*old(self), *old(env), *final(self), *final(env), with_counting_limit, r),
    {
        let region_size: usize = self.region_size;
        let region: usize = match if with_counting_limit {
            alloc_region(env)
        } else {
            alloc_region_without_counting_limit(env)
        } {
            Some(region) => region,
            None => {
                proof {
                    lemma_refusal_settles(*old(env), *env);
                    lemma_settles_itself(*self, *self, *old(env), *env);
                }
                return false;
            },
        };
        proof {
            lemma_region_settles(*old(env), *env, region);
            lemma_region_brings(*old(env), *env, region);
        }
        let mut node = StateNode::from_region(region, region_size);
        let ghost rs = region_size as int;
        let ghost w = rs / 65536;
        proof {
            lemma_region_size(rs);
            lemma_fresh_node(region as int, rs);
            lemma_state_block(rs);
            let n = old(env).unread();
            assert(w * (n - 1) == w * n - w) by (nonlinear_arith);
        }
        let size: usize = recommended_size(296 + 224 * large_chunks_in_region(region_size));
        let size_class = SizeClass::define(size);
        let ghost before = *self;
        match self.try_alloc_size(size_class, size) {
            Some(ptr) => {
                let ghost fresh = node@;
                node.address = ptr;
                let ghost taken = *self;
                proof {
                    lemma_give_address(fresh, ptr, rs);
                }
                self.nodes.push(node);
                proof {
                    assert(self.chain() =~= taken.chain().push(node@));
                    lemma_chain_push(taken.chain(), node@, rs);
                    lemma_node_with_address(*env, fresh, ptr);
                    assert(carves(self.chain(), ptr as int)) by {
                        let k = choose|k: int|
                            0 <= k < taken.chain().len() && node_carves(
                                #[trigger] taken.chain()[k],
                                ptr as int,
                            );
                        assert(node_carves(self.chain()[k], ptr as int));
                    }
                    lemma_settles_push(taken, *self, *old(env), *env, node@);
                    assert(settles(before, *old(env), taken, *old(env)));
                    lemma_settles(before, *old(env), taken, *old(env), *self, *env);
                    assert(self.chain().last() == node@);
                    assert forall|k: int| 0 <= k < self.nodes@.len() implies #[trigger]
                        self.chain()[k].wf(rs) by {
                        if k < taken.nodes@.len() {
                            assert(taken.chain()[k].wf(rs));
                        }
                    }
                    assert forall|at: int| #[trigger]
                        self.cover(at) + env.pool(at) <= old(self).cover(at) + old(env).pool(
                            at,
                        ) by {
                        assert(taken.cover(at) + covers(ptr as int, size as int, at)
                            == before.cover(at));
                    }
                    assert forall|c: int| #[trigger] self.out(c) == old(self).out(c) by {
                        assert(taken.out(c) == before.out(c) + (if c == class_of(size as int) {
                            1int
                        } else {
                            0
                        }));
                    }
                }
                true
            },
            None => {
                let common = match size_class {
                    SizeClass::Common => true,
                    _ => false,
                };
                let ghost fresh = node@;
                proof {
                    if common {
                        lemma_pop_common(fresh, rs);
                    } else {
                        lemma_pop_large(fresh, rs);
                    }
                }
                let popped = if common {
                    node.pop_common()
                } else {
                    node.pop_large()
                };
                let chunk: usize = match popped {
                    Some(chunk) => chunk,
                    None => 0,
                };
                let ghost rest = node@;
                proof {
                    lemma_open_chunk(rest, common, chunk as int, size as int, rs);
                    lemma_class_of(size as int);
                }
                let slots: usize = if common {
                    COMMON_CHUNK_SIZE / size
                } else {
                    LARGE_CHUNK_SIZE / size
                };
                assert(slots == slots_of_class(class_of(size as int))) by {
                    reveal(slots_of_class);
                }
                let ptr: usize = chunk + size * (slots - 1);
                node.push_used_chunk(common, (chunk, size, slots - 1));
                let ghost opened = node@;
                node.address = ptr;
                proof {
                    lemma_give_address(opened, ptr, rs);
                }
                self.nodes.push(node);
                proof {
                    assert(self.chain() =~= before.chain().push(node@));
                    lemma_chain_push(before.chain(), node@, rs);
                    lemma_fresh_opened(*env, fresh, opened, common, (chunk, size, (slots - 1) as usize));
                    lemma_node_with_address(*env, opened, ptr);
                    assert(node_carves(node@, ptr as int)) by {
                        lemma_last_lies_in((chunk, size, (slots - 1) as usize), common);
                        assert(lies_in(
                            node@.used(common)[node@.used(common).len() - 1],
                            common,
                            ptr as int,
                        ));
                    }
                    assert(self.chain()[before.chain().len() as int] == node@);
                    assert(carves(self.chain(), ptr as int));
                    lemma_settles_push(before, *self, *old(env), *env, node@);
                    assert(self.chain().last() == node@);
                    assert forall|k: int| 0 <= k < self.nodes@.len() implies #[trigger]
                        self.chain()[k].wf(rs) by {
                        if k < before.nodes@.len() {
                            assert(before.chain()[k].wf(rs));
                        }
                    }
                    assert forall|at: int| #[trigger]
                        self.cover(at) + env.pool(at) <= old(self).cover(at) + old(env).pool(
                            at,
                        ) by {
                        assert(node@.cover(rs, at) == opened.cover(rs, at) + covers(
                            ptr as int,
                            size as int,
                            at,
                        ));
                    }
                    assert forall|c: int| #[trigger] self.out(c) == old(self).out(c) by {
                        assert(node@.out(rs, c) == 0);
                    }
                }
                true
            },
        }
    }
}

/// Whether node `k` is the first one from `from` on with a free large chunk.
pub open spec fn is_first_with_large(chain: Seq<NodeView>, from: int, k: int) -> bool {
    &&& from <= k < chain.len()
    &&& chain[k].free_large.len() > 0
    &&& forall|h: int|
        #![trigger chain[h]]
        from <= h < k ==> chain[h].free_large.len() == 0
}

/// Whether no node from `from` on has a free large chunk.
pub open spec fn has_no_large(chain: Seq<NodeView>, from: int) -> bool {
    forall|h: int| #![trigger chain[h]] from <= h < chain.len() ==> chain[h].free_large.len() == 0
}

/// Whether node `k` is the first one with a free common chunk.
pub open spec fn is_first_with_common(chain: Seq<NodeView>, k: int) -> bool {
    &&& 0 <= k < chain.len()
    &&& chain[k].free_common.len() > 0
    &&& forall|h: int| #![trigger chain[h]] 0 <= h < k ==> chain[h].free_common.len() == 0
}

/// The node without its last free large chunk.
pub open spec fn without_large(node: NodeView) -> NodeView {
    NodeView { free_large: node.free_large.drop_last(), ..node }
}

/// The node without its last free common chunk.
pub open spec fn without_common(node: NodeView) -> NodeView {
    NodeView { free_common: node.free_common.drop_last(), ..node }
}

impl State {
    /// Pops the last free large chunk of node `k`.
    fn pop_large_of(&mut self, k: usize) -> (r: Option<usize>)
        requires
            old(self).wf(),
            k < old(self).nodes@.len(),
        ensures
            final(self).wf(),
            final(self).region_size == old(self).region_size,
            final(self).is_allocating_non_local_ptr_manager_now == old(self).is_allocating_non_local_ptr_manager_now,
            final(self).nodes@.len() == old(self).nodes@.len(),
            r is Some <==> old(self).chain()[k as int].free_large.len() > 0,
            r is None ==> final(self).chain() == old(self).chain(),
            r matches Some(chunk) ==> {
                &&& chunk == old(self).chain()[k as int].free_large.last().0
                &&& final(self).chain() == old(self).chain().update(
                    k as int,
                    without_large(old(self).chain()[k as int]),
                )
                &&& final(self).chain()[k as int].weight() + 8 <= 8 * large_chunks_in(
                    old(self).region_size as int,
                ) + 7
                &&& 0 < chunk
                &&& chunk + 524288 <= usize::MAX
                &&& final(self).potential() == old(self).potential() - 8
                &&& final(self).weight() + 8 == old(self).weight()
                &&& forall|at: int| #[trigger]
                    final(self).cover(at) + covers(chunk as int, 524288, at) == old(self).cover(at)
                &&& forall|c: int| #[trigger] final(self).out(c) == old(self).out(c)
                &&& forall|env: Environment|
                    chain_placed(env, old(self).chain()) ==> #[trigger] is_placed(
                        env,
                        chunk as int,
                        524288,
                    )
            },
            forall|env: Environment| #[trigger] settles(*old(self), env, *final(self), env),
    {
        let ghost before = *self;
        let ghost node = self.chain()[k as int];
        let ghost rs = self.region_size as int;
        assert(node == self.nodes@[k as int]@);
        assert(node.wf(rs));
        let r = self.nodes[k].pop_large();
        proof {
            if r is Some {
                lemma_pop_large(node, rs);
                let popped = without_large(node);
                assert(self.chain() =~= before.chain().update(k as int, popped));
                lemma_chain_update(before.chain(), k as int, popped, rs);
                lemma_chunk_popped(before, *self, k as int, popped);
                assert forall|env: Environment| chain_placed(env, before.chain()) implies
                    #[trigger] is_placed(env, r->0 as int, 524288) by {
                    reveal(chain_placed);
                    assert(node_placed(env, before.chain()[k as int]));
                    let last = node.free_large[node.free_large.len() - 1];
                    assert(r->0 == last.0);
                }
            } else {
                assert(self.chain() =~= before.chain());
                assert forall|env: Environment| #[trigger] settles(before, env, *self, env) by {
                    lemma_keeps_itself(env);
                    lemma_settles_itself(before, *self, env, env);
                }
            }
            assert forall|h: int| 0 <= h < self.nodes@.len() implies #[trigger]
                self.chain()[h].wf(rs) by {
                assert(before.chain()[h].wf(rs));
            }
        }
        r
    }

    /// Pops the last free common chunk of node `k`.
    fn pop_common_of(&mut self, k: usize) -> (r: Option<usize>)
        requires
            old(self).wf(),
            k < old(self).nodes@.len(),
        ensures
            final(self).wf(),
            final(self).region_size == old(self).region_size,
            final(self).is_allocating_non_local_ptr_manager_now == old(self).is_allocating_non_local_ptr_manager_now,
            final(self).nodes@.len() == old(self).nodes@.len(),
            r is Some <==> old(self).chain()[k as int].free_common.len() > 0,
            r is None ==> final(self).chain() == old(self).chain(),
            r matches Some(chunk) ==> {
                &&& chunk == old(self).chain()[k as int].free_common.last().0
                &&& final(self).chain() == old(self).chain().update(
                    k as int,
                    without_common(old(self).chain()[k as int]),
                )
                &&& final(self).chain()[k as int].weight() + 1 <= 8 * large_chunks_in(
                    old(self).region_size as int,
                ) + 7
                &&& 0 < chunk
                &&& chunk + 65536 <= usize::MAX
                &&& final(self).potential() == old(self).potential() - 1
                &&& final(self).weight() + 1 == old(self).weight()
                &&& forall|at: int| #[trigger]
                    final(self).cover(at) + covers(chunk as int, 65536, at) == old(self).cover(at)
                &&& forall|c: int| #[trigger] final(self).out(c) == old(self).out(c)
                &&& forall|env: Environment|
                    chain_placed(env, old(self).chain()) ==> #[trigger] is_placed(
                        env,
                        chunk as int,
                        65536,
                    )
            },
            forall|env: Environment| #[trigger] settles(*old(self), env, *final(self), env),
    {
        let ghost before = *self;
        let ghost node = self.chain()[k as int];
        let ghost rs = self.region_size as int;
        assert(node == self.nodes@[k as int]@);
        assert(node.wf(rs));
        let r = self.nodes[k].pop_common();
        proof {
            if r is Some {
                lemma_pop_common(node, rs);
                let popped = without_common(node);
                assert(self.chain() =~= before.chain().update(k as int, popped));
                lemma_chain_update(before.chain(), k as int, popped, rs);
                lemma_chunk_popped(before, *self, k as int, popped);
                assert forall|env: Environment| chain_placed(env, before.chain()) implies
                    #[trigger] is_placed(env, r->0 as int, 65536) by {
                    reveal(chain_placed);
                    assert(node_placed(env, before.chain()[k as int]));
                    let last = node.free_common[node.free_common.len() - 1];
                    assert(r->0 == last.0);
                }
            } else {
                assert(self.chain() =~= before.chain());
                assert forall|env: Environment| #[trigger] settles(before, env, *self, env) by {
                    lemma_keeps_itself(env);
                    lemma_settles_itself(before, *self, env, env);
                }
            }
            assert forall|h: int| 0 <= h < self.nodes@.len() implies #[trigger]
                self.chain()[h].wf(rs) by {
                assert(before.chain()[h].wf(rs));
            }
        }
        r
    }

    /// Takes a free large chunk from the nodes from `from` on, or from a fresh region. Returns the
    /// node that it is taken from, and the chunk.
    pub fn get_free_large_chunk_(
        &mut self,
        from: usize,
        with_counting_limit: bool,
        env: &mut Environment,
    ) -> (r: Option<(usize, usize)>)
        requires
            old(self).wf(),
            old(env).wf(),
            old(env).region_size == old(self).region_size,
            from < old(self).nodes@.len(),
        ensures
            grows(*old(self), *old(env), *final(self), *final(env)),
            kept_limit(
                *old(self),
                *old(env),
                *final(self),
                *final(env),
                with_counting_limit,
                r is Some,
            ),
            match r {
                Some((k, chunk)) => {
                    &&& k < final(self).nodes@.len()
                    &&& final(self).chain()[k as int].weight() + 8 <= 8 * large_chunks_in(
                        old(self).region_size as int,
                    ) + 7
                    &&& took_from(
                        *old(self),
                        *old(env),
                        *final(self),
                        *final(env),
                        chunk as int,
                        524288,
                        -1,
                        8,
                    )
                    &&& is_first_with_large(old(self).chain(), from as int, k as int) ==> {
                        &&& chunk == old(self).chain()[k as int].free_large.last().0
                        &&& final(self).chain() == old(self).chain().update(
                            k as int,
                            without_large(old(self).chain()[k as int]),
                        )
                        &&& *final(env) == *old(env)
                    }
                    &&& !is_first_with_large(old(self).chain(), from as int, k as int) ==> {
                        &&& k == old(self).nodes@.len()
                        &&& k + 1 == final(self).nodes@.len()
                        &&& final(self).chain()[k as int].free_common.len() >= 6
                        &&& has_no_large(old(self).chain(), from as int)
                        &&& balance(*final(self), *final(env)) >= balance(*old(self), *old(env))
                    }
                },
                None => refused(*old(self), *old(env), *final(self), *final(env)),
            },
            r is None ==> has_no_large(old(self).chain(), from as int),
    {
        let n: usize = self.nodes.len();
        let mut k: usize = from;
        while k < n
            invariant
                from <= k <= n,
                n == self.nodes@.len(),
                *self == *old(self),
                *env == *old(env),
                self.wf(),
                env.wf(),
                forall|h: int|
                    #![trigger self.chain()[h]]
                    from <= h < k ==> self.chain()[h].free_large.len() == 0,
            decreases n - k,
        {
            if buffer_len(&self.nodes[k].free_large_chunks) > 0 {
                let ghost before = *self;
                assert(before.chain()[k as int] == self.nodes@[k as int]@);
                match self.pop_large_of(k) {
                    Some(chunk) => {
                        assert(is_first_with_large(before.chain(), from as int, k as int));
                        proof {
                            lemma_follows_itself(*env);
                            assert(settles(before, *env, *self, *env));
                        }
                        return Some((k, chunk));
                    },
                    None => {},
                }
            }
            assert(self.chain()[k as int] == self.nodes@[k as int]@);
            k = k + 1;
        }
        let ghost before = *self;
        if !self.alloc_new_state_in(with_counting_limit, env) {
            return None;
        }
        let ghost grown = *self;
        let ghost env1 = *env;
        assert(self.chain().last() == self.chain()[n as int]);
        match self.pop_large_of(n) {
            Some(chunk) => {
                proof {
                    assert(settles(grown, *env, *self, *env));
                    lemma_settles(before, *old(env), grown, *env, *self, *env);
                    if is_single(*old(env)) && chain_placed(*old(env), before.chain()) {
                        reveal(settles);
                        assert(is_placed(*env, chunk as int, 524288));
                    }
                    assert forall|at: int| #[trigger]
                        self.cover(at) + env.pool(at) + covers(chunk as int, 524288, at) <= old(self).cover(at) + old(env).pool(at) by {
                        assert(grown.cover(at) + env1.pool(at) <= before.cover(at) + old(env).pool(at));
                    }
                    assert forall|c: int| #[trigger] self.out(c) == old(self).out(c) by {
                        assert(grown.out(c) == before.out(c));
                    }
                }
                Some((n, chunk))
            },
            None => None,
        }
    }

    /// Takes a free large chunk from the state, or from a fresh region.
    pub fn get_free_large_chunk(
        &mut self,
        with_counting_limit: bool,
        env: &mut Environment,
    ) -> (r: Option<usize>)
        requires
            old(self).wf(),
            old(env).wf(),
            old(env).region_size == old(self).region_size,
        ensures
            grows(*old(self), *old(env), *final(self), *final(env)),
            kept_limit(
                *old(self),
                *old(env),
                *final(self),
                *final(env),
                with_counting_limit,
                r is Some,
            ),
            match r {
                Some(chunk) => took_from(
                    *old(self),
                    *old(env),
                    *final(self),
                    *final(env),
                    chunk as int,
                    524288,
                    -1,
                    8,
                ),
                None => refused(*old(self), *old(env), *final(self), *final(env)),
            },
            old(self).chain()[0].free_large.len() > 0 ==> r == Some(
                old(self).chain()[0].free_large.last().0,
            ) && final(self).chain() == old(self).chain().update(
                0,
                without_large(old(self).chain()[0]),
            ) && *final(env) == *old(env),
    {
        match self.get_free_large_chunk_(0, with_counting_limit, env) {
            Some((_, chunk)) => Some(chunk),
            None => None,
        }
    }
}

impl State {
    /// Takes a free common chunk from the first node that has one. Where none has, the last node
    /// splits a large chunk; where it has none either, a fresh region is taken. Returns the node
    /// that the chunk is taken from, and the chunk.
    pub fn get_free_common_chunk(
        &mut self,
        with_counting_limit: bool,
        env: &mut Environment,
    ) -> (r: Option<(usize, usize)>)
        requires
            old(self).wf(),
            old(env).wf(),
            old(env).region_size == old(self).region_size,
        ensures
            grows(*old(self), *old(env), *final(self), *final(env)),
            kept_limit(
                *old(self),
                *old(env),
                *final(self),
                *final(env),
                with_counting_limit,
                r is Some,
            ),
            match r {
                Some((k, chunk)) => {
                    &&& k < final(self).nodes@.len()
                    &&& final(self).chain()[k as int].weight() + 1 <= 8 * large_chunks_in(
                        old(self).region_size as int,
                    ) + 7
                    &&& took_from(
                        *old(self),
                        *old(env),
                        *final(self),
                        *final(env),
                        chunk as int,
                        65536,
                        -1,
                        1,
                    )
                },
                None => refused(*old(self), *old(env), *final(self), *final(env)),
            },
            r is None ==> has_no_common(old(self).chain()),
            forall|k: int| #[trigger]
                is_first_with_common(old(self).chain(), k) ==> {
                    &&& r == Some((k as usize, old(self).chain()[k].free_common.last().0))
                    &&& final(self).chain() == old(self).chain().update(
                        k,
                        without_common(old(self).chain()[k]),
                    )
                    &&& *final(env) == *old(env)
                },
            has_no_common(old(self).chain()) && old(self).chain().last().free_large.len() > 0 ==> {
                let last = old(self).chain().last();
                let large = last.free_large.last().0;
                &&& r == Some(((old(self).nodes@.len() - 1) as usize, (large + 458752) as usize))
                &&& final(self).chain() == old(self).chain().update(
                    old(self).nodes@.len() - 1,
                    without_common(
                        NodeView {
                            free_common: split_chunks(large as int),
                            ..without_large(last)
                        },
                    ),
                )
                &&& *final(env) == *old(env)
            },
    {
        let n: usize = self.nodes.len();
        let mut k: usize = 0;
        while k < n
            invariant
                k <= n,
                n == self.nodes@.len(),
                *self == *old(self),
                *env == *old(env),
                self.wf(),
                env.wf(),
                forall|h: int|
                    #![trigger self.chain()[h]]
                    0 <= h < k ==> self.chain()[h].free_common.len() == 0,
            decreases n - k,
        {
            if buffer_len(&self.nodes[k].free_common_chunks) > 0 {
                let ghost before = *self;
                assert(before.chain()[k as int] == self.nodes@[k as int]@);
                match self.pop_common_of(k) {
                    Some(chunk) => {
                        assert(is_first_with_common(before.chain(), k as int));
                        assert forall|h: int| #[trigger]
                            is_first_with_common(before.chain(), h) implies h == k by {
                            assert(before.chain()[h] == before.chain()[h]);
                        }
                        proof {
                            lemma_follows_itself(*env);
                            assert(settles(before, *env, *self, *env));
                        }
                        return Some((k, chunk));
                    },
                    None => {},
                }
            }
            assert(self.chain()[k as int] == self.nodes@[k as int]@);
            k = k + 1;
        }
        assert(has_no_common(self.chain()));
        assert forall|h: int| #[trigger] is_first_with_common(self.chain(), h) implies false by {
            assert(self.chain()[h] == self.chain()[h]);
        }
        let ghost before = *self;
        let ghost rs = self.region_size as int;
        let ghost last = self.chain().last();
        assert(last == self.chain()[n - 1]);
        match self.get_free_large_chunk_(n - 1, with_counting_limit, env) {
            Some((owner, large_chunk)) => {
                let ghost mid = *self;
                let ghost env1 = *env;
                assert(self.nodes@[owner as int]@ == self.chain()[owner as int]);
                proof {
                    if last.free_large.len() > 0 {
                        assert(is_first_with_large(before.chain(), n - 1, n - 1));
                        assert(owner == n - 1) by {
                            if owner != n - 1 {
                                assert(!is_first_with_large(
                                    before.chain(),
                                    n - 1,
                                    owner as int,
                                ));
                                assert(before.chain()[n - 1].free_large.len() == 0);
                            }
                        }
                    }
                }
                if buffer_len(&self.nodes[owner].free_common_chunks) == 0 {
                    let ghost node = self.chain()[owner as int];
                    proof {
                        assert(node.wf(rs));
                        lemma_refill(node, large_chunk as int, rs);
                    }
                    self.nodes[owner].refill_common(large_chunk);
                    proof {
                        let refilled = NodeView {
                            free_common: split_chunks(large_chunk as int),
                            ..node
                        };
                        assert(self.chain() =~= mid.chain().update(owner as int, refilled));
                        lemma_chain_update(mid.chain(), owner as int, refilled, rs);
                        lemma_node_refilled(
                            before,
                            *old(env),
                            mid,
                            *env,
                            *self,
                            owner as int,
                            large_chunk as int,
                        );
                        assert forall|h: int| 0 <= h < self.nodes@.len() implies #[trigger]
                            self.chain()[h].wf(rs) by {
                            assert(mid.chain()[h].wf(rs));
                        }
                    }
                } else {
                    assert(!is_first_with_large(before.chain(), n - 1, owner as int)) by {
                        if is_first_with_large(before.chain(), n - 1, owner as int) {
                            assert(owner == n - 1);
                            assert(mid.chain()[owner as int].free_common.len() == 0);
                        }
                    }
                }
                let ghost ready = *self;
                assert(balance(ready, *env) >= balance(before, *old(env)));
                match self.pop_common_of(owner) {
                    Some(chunk) => {
                        proof {
                            assert(settles(ready, *env, *self, *env));
                            lemma_settles(before, *old(env), ready, *env, *self, *env);
                            if is_single(*old(env)) && chain_placed(*old(env), before.chain()) {
                                reveal(settles);
                                assert(is_placed(*env, chunk as int, 65536));
                            }
                            assert forall|at: int| #[trigger]
                                self.cover(at) + env.pool(at) + covers(chunk as int, 65536, at)
                                    <= old(self).cover(at) + old(env).pool(at) by {
                                assert(ready.cover(at) <= mid.cover(at) + covers(
                                    large_chunk as int,
                                    524288,
                                    at,
                                ));
                            }
                            assert forall|c: int| #[trigger] self.out(c) == old(self).out(c) by {
                                assert(ready.out(c) == mid.out(c));
                            }
                            if last.free_large.len() > 0 {
                                assert(self.chain() =~= before.chain().update(
                                    n - 1,
                                    without_common(
                                        NodeView {
                                            free_common: split_chunks(large_chunk as int),
                                            ..without_large(last)
                                        },
                                    ),
                                ));
                            }
                        }
                        Some((owner, chunk))
                    },
                    None => None,
                }
            },
            None => None,
        }
    }
}

impl State {
    /// Carves `chunk`, which was taken from node `k`, into objects of `size` bytes, and hands out
    /// the last one.
    fn open_chunk_in(&mut self, k: usize, common: bool, chunk: usize, size: usize) -> (r: usize)
        requires
            old(self).wf(),
            k < old(self).nodes@.len(),
            is_object_size(size as int),
            size <= 1024 <==> common,
            0 < chunk,
            chunk + (if common {
                65536int
            } else {
                524288int
            }) <= usize::MAX,
            old(self).chain()[k as int].weight() + (if common {
                1int
            } else {
                8
            }) <= 8 * large_chunks_in(old(self).region_size as int) + 7,
        ensures
            final(self).wf(),
            final(self).region_size == old(self).region_size,
            final(self).is_allocating_non_local_ptr_manager_now == old(self).is_allocating_non_local_ptr_manager_now,
            final(self).nodes@.len() == old(self).nodes@.len(),
            r == chunk + size * (slots_of_class(class_of(size as int)) - 1),
            final(self).chain() == old(self).chain().update(
                k as int,
                old(self).chain()[k as int].with_used(
                    common,
                    old(self).chain()[k as int].used(common).push(
                        (
                            chunk,
                            size,
                            (slots_of_class(class_of(size as int)) - 1) as usize,
                        ),
                    ),
                ),
            ),
            0 < r,
            r + size <= usize::MAX,
            final(self).potential() == old(self).potential(),
            final(self).weight() == old(self).weight() + (if common {
                1int
            } else {
                8
            }),
            forall|at: int| #[trigger]
                final(self).cover(at) + covers(r as int, size as int, at) <= old(self).cover(at)
                    + covers(
                    chunk as int,
                    if common {
                        65536int
                    } else {
                        524288int
                    },
                    at,
                ),
            forall|c: int| #[trigger]
                final(self).out(c) == old(self).out(c) + (if c == class_of(size as int) {
                    1int
                } else {
                    0
                }),
    {
        let ghost before = *self;
        let ghost rs = self.region_size as int;
        let ghost node = self.chain()[k as int];
        assert(node == self.nodes@[k as int]@);
        proof {
            assert(node.wf(rs));
            lemma_open_chunk(node, common, chunk as int, size as int, rs);
            lemma_class_of(size as int);
        }
        let slots: usize = if common {
            COMMON_CHUNK_SIZE / size
        } else {
            LARGE_CHUNK_SIZE / size
        };
        assert(slots == slots_of_class(class_of(size as int))) by {
            reveal(slots_of_class);
        }
        let ptr: usize = chunk + size * (slots - 1);
        self.nodes[k].push_used_chunk(common, (chunk, size, slots - 1));
        proof {
            let opened = node.with_used(
                common,
                node.used(common).push((chunk, size, (slots - 1) as usize)),
            );
            assert(self.chain() =~= before.chain().update(k as int, opened));
            lemma_chain_update(before.chain(), k as int, opened, rs);
            assert forall|h: int| 0 <= h < self.nodes@.len() implies #[trigger]
                self.chain()[h].wf(rs) by {
                assert(before.chain()[h].wf(rs));
            }
        }
        ptr
    }

    /// Carves another chunk into objects of `size` bytes and hands out its last object.
    pub fn alloc_size_slow(
        &mut self,
        with_counting_limit: bool,
        size_class: SizeClass,
        size: usize,
        env: &mut Environment,
    ) -> (r: Option<usize>)
        requires
            old(self).wf(),
            old(env).wf(),
            old(env).region_size == old(self).region_size,
            is_object_size(size as int),
            size_class == SizeClass::of(size as int),
        ensures
            grows(*old(self), *old(env), *final(self), *final(env)),
            kept_limit(
                *old(self),
                *old(env),
                *final(self),
                *final(env),
                with_counting_limit,
                r is Some,
            ),
            match r {
                Some(ptr) => took_from(
                    *old(self),
                    *old(env),
                    *final(self),
                    *final(env),
                    ptr as int,
                    size as int,
                    class_of(size as int),
                    1,
                ),
                None => refused(*old(self), *old(env), *final(self), *final(env)),
            },
            forall|k: int|
                size_class is Common && #[trigger] is_first_with_common(old(self).chain(), k) ==> {
                    let chunk = old(self).chain()[k].free_common.last().0;
                    let slots = slots_of_class(class_of(size as int));
                    let rest = without_common(old(self).chain()[k]);
                    &&& r == Some((chunk + size * (slots - 1)) as usize)
                    &&& final(self).chain() == old(self).chain().update(
                        k,
                        rest.with_used(
                            true,
                            rest.used_common.push((chunk, size, (slots - 1) as usize)),
                        ),
                    )
                },
            forall|k: int|
                size_class is Large && #[trigger] is_first_with_large(old(self).chain(), 0, k) ==> {
                    let chunk = old(self).chain()[k].free_large.last().0;
                    let slots = slots_of_class(class_of(size as int));
                    let rest = without_large(old(self).chain()[k]);
                    &&& r == Some((chunk + size * (slots - 1)) as usize)
                    &&& final(self).chain() == old(self).chain().update(
                        k,
                        rest.with_used(
                            false,
                            rest.used_large.push((chunk, size, (slots - 1) as usize)),
                        ),
                    )
                },
    {
        let ghost before = *self;
        let ghost env0 = *env;
        let ghost bound = self.nodes.len();
        proof {
            lemma_class_of(size as int);
        }
        match size_class {
            SizeClass::Common => {
                match self.get_free_common_chunk(with_counting_limit, env) {
                    Some((owner, chunk)) => {
                        let ghost mid = *self;
                        let ptr = self.open_chunk_in(owner, true, chunk, size);
                        proof {
                            let opened = (
                                chunk,
                                size,
                                (slots_of_class(class_of(size as int)) - 1) as usize,
                            );
                            lemma_chunk_opened(
                                before,
                                env0,
                                mid,
                                *env,
                                *self,
                                owner as int,
                                true,
                                opened,
                            );
                            lemma_last_lies_in(opened, true);
                            assert(carves(self.chain(), ptr as int));
                            assert forall|at: int| #[trigger]
                                self.cover(at) + env.pool(at) + covers(ptr as int, size as int, at)
                                    <= before.cover(at) + env0.pool(at) by {
                                assert(mid.cover(at) + env.pool(at) + covers(
                                    chunk as int,
                                    65536,
                                    at,
                                ) <= before.cover(at) + env0.pool(at));
                            }
                            assert forall|c: int| #[trigger]
                                self.out(c) == before.out(c) + (if c == class_of(size as int) {
                                    1int
                                } else {
                                    0
                                }) by {
                                assert(mid.out(c) == before.out(c));
                            }
                            assert forall|k: int| #[trigger]
                                is_first_with_common(before.chain(), k) implies self.chain()
                                =~= before.chain().update(
                                k,
                                without_common(before.chain()[k]).with_used(
                                    true,
                                    without_common(before.chain()[k]).used_common.push(
                                        (
                                            chunk,
                                            size,
                                            (slots_of_class(class_of(size as int)) - 1) as usize,
                                        ),
                                    ),
                                ),
                            ) by {
                                assert(k == owner);
                            }
                        }
                        Some(ptr)
                    },
                    None => None,
                }
            },
            _ => {
                match self.get_free_large_chunk_(0, with_counting_limit, env) {
                    Some((owner, chunk)) => {
                        let ghost mid = *self;
                        let ptr = self.open_chunk_in(owner, false, chunk, size);
                        proof {
                            let opened = (
                                chunk,
                                size,
                                (slots_of_class(class_of(size as int)) - 1) as usize,
                            );
                            lemma_chunk_opened(
                                before,
                                env0,
                                mid,
                                *env,
                                *self,
                                owner as int,
                                false,
                                opened,
                            );
                            lemma_last_lies_in(opened, false);
                            assert(carves(self.chain(), ptr as int));
                            assert forall|at: int| #[trigger]
                                self.cover(at) + env.pool(at) + covers(ptr as int, size as int, at)
                                    <= before.cover(at) + env0.pool(at) by {
                                assert(mid.cover(at) + env.pool(at) + covers(
                                    chunk as int,
                                    524288,
                                    at,
                                ) <= before.cover(at) + env0.pool(at));
                            }
                            assert forall|c: int| #[trigger]
                                self.out(c) == before.out(c) + (if c == class_of(size as int) {
                                    1int
                                } else {
                                    0
                                }) by {
                                assert(mid.out(c) == before.out(c));
                            }
                            assert forall|k: int| #[trigger]
                                is_first_with_large(before.chain(), 0, k) implies k == owner by {
                                assert(before.chain()[k] == before.chain()[k]);
                                if !is_first_with_large(before.chain(), 0, owner as int) {
                                    assert(has_no_large(before.chain(), 0));
                                }
                                assert(before.chain()[owner as int] == before.chain()[owner
                                    as int]);
                            }
                            assert forall|k: int| #[trigger]
                                is_first_with_large(before.chain(), 0, k) implies self.chain()
                                =~= before.chain().update(
                                k,
                                without_large(before.chain()[k]).with_used(
                                    false,
                                    without_large(before.chain()[k]).used_large.push(
                                        (
                                            chunk,
                                            size,
                                            (slots_of_class(class_of(size as int)) - 1) as usize,
                                        ),
                                    ),
                                ),
                            ) by {}
                        }
                        Some(ptr)
                    },
                    None => {
                        assert forall|k: int| #[trigger]
                            is_first_with_large(before.chain(), 0, k) implies false by {
                            assert(before.chain()[k] == before.chain()[k]);
                        }
                        None
                    },
                }
            },
        }
    }

    /// Hands out an object of `size` bytes: one that is left of a carved chunk, or one of another
    /// chunk.
    pub fn alloc_size(
        &mut self,
        with_counting_limit: bool,
        size_class: SizeClass,
        size: usize,
        env: &mut Environment,
    ) -> (r: Option<usize>)
        requires
            old(self).wf(),
            old(env).wf(),
            old(env).region_size == old(self).region_size,
            is_object_size(size as int),
            size_class == SizeClass::of(size as int),
        ensures
            grows(*old(self), *old(env), *final(self), *final(env)),
            kept_limit(
                *old(self),
                *old(env),
                *final(self),
                *final(env),
                with_counting_limit,
                r is Some,
            ),
            match r {
                Some(ptr) => took_from(
                    *old(self),
                    *old(env),
                    *final(self),
                    *final(env),
                    ptr as int,
                    size as int,
                    class_of(size as int),
                    0,
                ),
                None => refused(*old(self), *old(env), *final(self), *final(env)),
            },
            forall|k: int, i: int|
                #![trigger old(self).chain()[k].used(size_class is Common)[i]]
                old(self).first_slot(size_class is Common, size as int, k, i) ==> {
                    &&& r == Some(
                        (old(self).chain()[k].used(size_class is Common)[i].0 + size * (old(self).chain()[k].used(size_class is Common)[i].2 - 1)) as usize,
                    )
                    &&& final(self).chain() == old(self).chain_after_take(
                        size_class is Common,
                        k,
                        i,
                    )
                    &&& *final(env) == *old(env)
                },
            forall|k: int|
                old(self).has_no_slot(true, size as int) && size_class is Common && #[trigger] is_first_with_common(old(self).chain(), k) ==> {
                    let chunk = old(self).chain()[k].free_common.last().0;
                    let slots = slots_of_class(class_of(size as int));
                    let rest = without_common(old(self).chain()[k]);
                    &&& r == Some((chunk + size * (slots - 1)) as usize)
                    &&& final(self).chain() == old(self).chain().update(
                        k,
                        rest.with_used(
                            true,
                            rest.used_common.push((chunk, size, (slots - 1) as usize)),
                        ),
                    )
                },
            forall|k: int|
                old(self).has_no_slot(false, size as int) && size_class is Large && #[trigger] is_first_with_large(old(self).chain(), 0, k) ==> {
                    let chunk = old(self).chain()[k].free_large.last().0;
                    let slots = slots_of_class(class_of(size as int));
                    let rest = without_large(old(self).chain()[k]);
                    &&& r == Some((chunk + size * (slots - 1)) as usize)
                    &&& final(self).chain() == old(self).chain().update(
                        k,
                        rest.with_used(
                            false,
                            rest.used_large.push((chunk, size, (slots - 1) as usize)),
                        ),
                    )
                },
    {
        let ghost before = *self;
        let ghost common = size_class is Common;
        match self.try_alloc_size(size_class, size) {
            Some(ptr) => {
                proof {
                    lemma_class_of(size as int);
                    lemma_follows_itself(*env);
                    assert(settles(before, *env, *self, *env));
                    let (h, j) = choose|h: int, j: int|
                        #![trigger before.chain()[h].used(common)[j]]
                        {
                            &&& before.first_slot(common, size as int, h, j)
                            &&& ptr == before.chain()[h].used(common)[j].0 + size * (
                            before.chain()[h].used(common)[j].2 - 1)
                            &&& self.chain() == before.chain_after_take(common, h, j)
                        };
                    assert forall|k: int, i: int|
                        #![trigger before.chain()[k].used(common)[i]]
                        before.first_slot(common, size as int, k, i) implies k == h && i == j by {
                        assert(StateNode::has_slot(before.chain()[k].used(common), size as int, i));
                        assert(StateNode::has_slot(before.chain()[h].used(common), size as int, j));
                    }
                }
                Some(ptr)
            },
            None => {
                assert forall|k: int, i: int|
                    #![trigger before.chain()[k].used(common)[i]]
                    before.first_slot(common, size as int, k, i) implies false by {}
                self.alloc_size_slow(with_counting_limit, size_class, size, env)
            },
        }
    }
}

/// Whether no node has a free common chunk.
pub open spec fn has_no_common(chain: Seq<NodeView>) -> bool {
    forall|h: int| #![trigger chain[h]] 0 <= h < chain.len() ==> chain[h].free_common.len() == 0
}

/// The object that holds a node has the size of a class. Nodes of small regions are common, and
/// regions with large nodes have several large chunks.
pub proof fn lemma_state_block(region_size: int)
    requires
        is_region_size(region_size),
    ensures
        is_object_size(state_block(region_size)),
        state_bytes(region_size) <= state_block(region_size),
        state_block(region_size) > 1024 ==> large_chunks_in(region_size) >= 4,
        state_bytes(region_size) <= 14408,
{
    lemma_region_size(region_size);
    lemma_class_of(state_bytes(region_size));
    lemma_class(class_of(state_bytes(region_size)));
}

/// Naming the object that holds a node.
proof fn lemma_give_address(node: NodeView, ptr: usize, region_size: int)
    requires
        node.address == 0,
        ptr != 0,
        ptr + state_block(region_size) <= usize::MAX,
        node.wf(region_size),
    ensures
        ({
            let named = NodeView { address: ptr, ..node };
            &&& named.wf(region_size)
            &&& named.potential() == node.potential()
            &&& forall|at: int| #[trigger]
                named.cover(region_size, at) == node.cover(region_size, at) + covers(
                    ptr as int,
                    state_block(region_size),
                    at,
                )
            &&& forall|class: int| #[trigger]
                named.out(region_size, class) == node.out(region_size, class) - (if class
                    == class_of(state_block(region_size)) {
                    1int
                } else {
                    0
                })
        }),
{
    reveal(NodeView::cover);
    reveal(NodeView::out);
}

} // verus!
