//! Where chunks lie, and who will own them.
//!
//! A chunk lies at a multiple of its size, apart from the mappings that wait. The owner of what a
//! state has carved is noted when the state is committed.
use crate::blocks::{covers, Chunk};
use crate::laws::lemma_within_chunk;
use crate::os::{follows, is_region_size, replies_cover, Environment, OsAction};
use crate::region::{
    is_metadata_key, law_chunks_find_their_region, lemma_region_size, metadata_at, metadata_of,
    region_mapped, region_of,
};
use crate::state::{fresh_node, split_chunks, NodeView, State};
use vstd::prelude::*;

verus! {

/// Whether no two mappings that wait overlap.
pub open spec fn is_single(env: Environment) -> bool {
    forall|at: int| #[trigger] env.pool(at) <= 1
}

/// Whether a chunk lies at a multiple of its size, apart from the mappings that wait, in a region that
/// was made readable and writable.
pub open spec fn is_placed(env: Environment, chunk: int, size: int) -> bool {
    &&& chunk > 0
    &&& chunk % size == 0
    &&& chunk + size <= usize::MAX
    &&& forall|at: int| chunk <= at < chunk + size ==> #[trigger] env.pool(at) == 0
    &&& is_usable(env, chunk)
}

/// Whether the region that holds the byte was made readable and writable.
pub open spec fn is_usable(env: Environment, at: int) -> bool {
    is_committed(env, region_of(env.region_size as int, at) as usize)
}

/// Bytes in a chunk that is carved into common or into large objects.
pub open spec fn chunk_bytes(common: bool) -> int {
    if common {
        65536
    } else {
        524288
    }
}

/// Whether the byte lies in the chunk.
pub open spec fn lies_in(chunk: Chunk, common: bool, at: int) -> bool {
    chunk.0 <= at < chunk.0 + chunk_bytes(common)
}

/// Whether the byte lies in a chunk that the node has carved.
pub open spec fn node_carves(node: NodeView, at: int) -> bool {
    exists|common: bool, i: int|
        0 <= i < node.used(common).len() && lies_in(#[trigger] node.used(common)[i], common, at)
}

/// Whether the byte lies in a chunk that a chain of nodes has carved.
pub open spec fn carves(chain: Seq<NodeView>, at: int) -> bool {
    exists|k: int| 0 <= k < chain.len() && node_carves(#[trigger] chain[k], at)
}

/// Whether all chunks of a node are placed.
pub open spec fn node_placed(env: Environment, node: NodeView) -> bool {
    &&& forall|i: int|
        0 <= i < node.free_common.len() ==> is_placed(
            env,
            (#[trigger] node.free_common[i]).0 as int,
            65536,
        )
    &&& forall|i: int|
        0 <= i < node.free_large.len() ==> is_placed(
            env,
            (#[trigger] node.free_large[i]).0 as int,
            524288,
        )
    &&& forall|common: bool, i: int|
        0 <= i < node.used(common).len() ==> is_placed(
            env,
            (#[trigger] node.used(common)[i]).0 as int,
            chunk_bytes(common),
        )
}

/// Whether all chunks of a chain of nodes are placed.
#[verifier::opaque]
pub open spec fn chain_placed(env: Environment, chain: Seq<NodeView>) -> bool {
    forall|k: int| 0 <= k < chain.len() ==> node_placed(env, #[trigger] chain[k])
}

/// Whether every node of the one chain is kept where it was in the other, or in a chunk that the
/// chain has carved.
pub open spec fn nodes_stay(before: Seq<NodeView>, after: Seq<NodeView>) -> bool {
    forall|k: int|
        0 <= k < after.len() && (#[trigger] after[k]).address != 0 ==> carves(
            after,
            after[k].address as int,
        ) || (k < before.len() && before[k].address == after[k].address)
}

/// Whether the metadata of all bytes that lie apart from the mappings that wait is kept.
#[verifier::opaque]
pub open spec fn keeps_metadata(e0: Environment, e1: Environment) -> bool {
    &&& e1.region_size == e0.region_size
    &&& e0.actions@.is_prefix_of(e1.actions@)
    &&& forall|at: int| #[trigger] e1.pool(at) <= e0.pool(at)
    &&& forall|at: int|
        0 <= at <= usize::MAX && e0.pool(at) == 0 && metadata_at(e0, at) is Some
            ==> #[trigger] metadata_at(e1, at) == metadata_at(e0, at)
    &&& forall|at: int| #[trigger]
        metadata_at(e1, at) is Some ==> metadata_at(e1, at) == metadata_at(e0, at)
}

/// Whether the region was made readable and writable.
pub open spec fn is_committed(env: Environment, region: usize) -> bool {
    exists|k: int|
        0 <= k < env.actions@.len() && #[trigger] env.actions@[k] == (OsAction::Commit {
            ptr: region,
            size: env.region_size,
        })
}

/// Whether the regions of all nodes of a chain were made readable and writable.
#[verifier::opaque]
pub open spec fn chain_committed(env: Environment, chain: Seq<NodeView>) -> bool {
    forall|k: int|
        0 <= k < chain.len() ==> is_committed(env, (#[trigger] chain[k]).region_ptr)
}

/// A region stays readable and writable.
pub proof fn lemma_stays_committed(e0: Environment, e1: Environment)
    requires
        e1.region_size == e0.region_size,
        e0.actions@.is_prefix_of(e1.actions@),
    ensures
        forall|region: usize| is_committed(e0, region) ==> #[trigger] is_committed(e1, region),
        forall|chain: Seq<NodeView>|
            chain_committed(e0, chain) ==> #[trigger] chain_committed(e1, chain),
{
    reveal(chain_committed);
    assert forall|region: usize| is_committed(e0, region) implies #[trigger] is_committed(
        e1,
        region,
    ) by {
        let k = choose|k: int|
            0 <= k < e0.actions@.len() && #[trigger] e0.actions@[k] == (OsAction::Commit {
                ptr: region,
                size: e0.region_size,
            });
        assert(e1.actions@[k] == e0.actions@[k]);
    }
}

/// What an operation on a state does to where chunks lie: what was carved stays carved, and chunks
/// stay where they can be owned.
#[verifier::opaque]
pub open spec fn settles(s0: State, e0: Environment, s1: State, e1: Environment) -> bool {
    &&& keeps_metadata(e0, e1)
    &&& forall|at: int| carves(s0.chain(), at) ==> #[trigger] carves(s1.chain(), at)
    &&& is_single(e0) && chain_placed(e0, s0.chain()) ==> chain_placed(e1, s1.chain())
    &&& nodes_stay(s0.chain(), s1.chain())
    &&& chain_committed(e0, s0.chain()) ==> chain_committed(e1, s1.chain())
}

/// Mappings cover no byte less often than never.
pub proof fn lemma_pool_cover(replies: Seq<(usize, usize)>, from: int, at: int)
    ensures
        replies_cover(replies, from, at) >= 0,
    decreases replies.len() - from,
{
    if 0 <= from < replies.len() {
        lemma_pool_cover(replies, from + 1, at);
    }
}

/// An environment keeps its own metadata.
pub proof fn lemma_keeps_itself(env: Environment)
    ensures
        keeps_metadata(env, env),
{
    reveal(keeps_metadata);
}

/// Metadata that is kept twice is kept.
pub proof fn lemma_keeps_twice(e0: Environment, e1: Environment, e2: Environment)
    requires
        keeps_metadata(e0, e1),
        keeps_metadata(e1, e2),
    ensures
        keeps_metadata(e0, e2),
{
    reveal(keeps_metadata);
    assert forall|at: int| #[trigger] e2.pool(at) <= e0.pool(at) by {
        assert(e1.pool(at) <= e0.pool(at));
    }
    assert forall|at: int|
        0 <= at <= usize::MAX && e0.pool(at) == 0 && metadata_at(e0, at) is Some implies
        #[trigger] metadata_at(e2, at) == metadata_at(e0, at) by {
        lemma_pool_cover(e1.replies@, e1.used_replies as int, at);
        assert(e1.pool(at) <= e0.pool(at));
        assert(metadata_at(e1, at) == metadata_at(e0, at));
    }
    assert forall|at: int| #[trigger] metadata_at(e2, at) is Some implies metadata_at(e2, at)
        == metadata_at(e0, at) by {
        assert(metadata_at(e2, at) == metadata_at(e1, at));
        assert(metadata_at(e1, at) is Some);
    }
}

/// Where metadata is kept, chunks stay placed.
pub proof fn lemma_stays_placed(e0: Environment, e1: Environment)
    requires
        keeps_metadata(e0, e1),
    ensures
        is_single(e0) ==> is_single(e1),
        forall|chunk: int, size: int|
            is_placed(e0, chunk, size) ==> #[trigger] is_placed(e1, chunk, size),
        forall|at: int| e0.pool(at) == 0 ==> #[trigger] e1.pool(at) == 0,
        forall|chain: Seq<NodeView>|
            chain_placed(e0, chain) ==> #[trigger] chain_placed(e1, chain),
{
    reveal(keeps_metadata);
    reveal(chain_placed);
    lemma_stays_committed(e0, e1);
    assert forall|at: int| e0.pool(at) == 0 implies #[trigger] e1.pool(at) == 0 by {
        lemma_pool_cover(e1.replies@, e1.used_replies as int, at);
        assert(e1.pool(at) <= e0.pool(at));
    }
    assert forall|at: int| is_single(e0) implies #[trigger] e1.pool(at) <= 1 by {
        assert(e0.pool(at) <= 1);
    }
}

/// A multiple of a number and another multiple of it.
proof fn lemma_multiple(a: int, k: int, m: int)
    requires
        a % m == 0,
        m > 0,
    ensures
        (a + k * m) % m == 0,
{
    vstd::arithmetic::div_mod::lemma_mod_multiples_vanish(k, a, m);
    assert(m * k + a == a + k * m) by (nonlinear_arith);
}

/// A multiple of the size of a large chunk is one of the size of a common chunk.
proof fn lemma_halves(a: int, m: int)
    requires
        a % m == 0,
        m == 524288,
    ensures
        a % 65536 == 0,
{
}

/// The start of a region is a multiple of the sizes of chunks.
proof fn lemma_divides(region: int, region_size: int)
    requires
        is_region_size(region_size),
        region % region_size == 0,
    ensures
        region % 524288 == 0,
        region % 65536 == 0,
{
    if region_size == 0x10_0000 {
        assert(region % 0x10_0000 == 0);
        assert(region % 524288 == 0);
        assert(region % 65536 == 0);
    } else if region_size == 0x20_0000 {
        assert(region % 0x20_0000 == 0);
        assert(region % 524288 == 0);
        assert(region % 65536 == 0);
    } else if region_size == 0x40_0000 {
        assert(region % 0x40_0000 == 0);
        assert(region % 524288 == 0);
        assert(region % 65536 == 0);
    } else if region_size == 0x80_0000 {
        assert(region % 0x80_0000 == 0);
        assert(region % 524288 == 0);
        assert(region % 65536 == 0);
    } else if region_size == 0x100_0000 {
        assert(region % 0x100_0000 == 0);
        assert(region % 524288 == 0);
        assert(region % 65536 == 0);
    } else if region_size == 0x200_0000 {
        assert(region % 0x200_0000 == 0);
        assert(region % 524288 == 0);
        assert(region % 65536 == 0);
    }
}

/// The metadata of a byte is not that of a region that it does not lie in.
proof fn lemma_other_region(region_size: int, region: int, at: int)
    requires
        is_region_size(region_size),
        region % region_size == 0,
        0 <= region,
        0 <= at,
        at < region || region + region_size <= at,
    ensures
        0 <= metadata_of(region_size, at) <= at,
        !is_metadata_key(region, region_size / 65536 + 8, metadata_of(region_size, at)),
{
    lemma_region_size(region_size);
    let key = metadata_of(region_size, at);
    let start = region_of(region_size, at);
    let q = at / region_size;
    let p = region / region_size;
    vstd::arithmetic::div_mod::lemma_fundamental_div_mod(at, region_size);
    vstd::arithmetic::div_mod::lemma_mod_bound(at, region_size);
    vstd::arithmetic::div_mod::lemma_fundamental_div_mod(region, region_size);
    vstd::arithmetic::div_mod::lemma_div_pos_is_pos(at, region_size);
    assert(start == region_size * q);
    assert(region == region_size * p);
    assert(0 <= start) by (nonlinear_arith)
        requires
            start == region_size * q,
            0 <= q,
            0 < region_size,
    ;
    assert(start <= key < start + 65536);
    if is_metadata_key(region, region_size / 65536 + 8, key) {
        assert(key < region + 65536) by {
            let n = region_size / 65536 + 8;
            assert(n <= 520);
            vstd::arithmetic::div_mod::lemma_fundamental_div_mod(key - region, 24);
        }
        assert(q == p) by (nonlinear_arith)
            requires
                region_size * q - region_size * p < 65536,
                region_size * p - region_size * q < 65536,
                region_size >= 65536,
        ;
    }
}

/// Mappings that are used up do not wait any more.
pub proof fn lemma_pool_shrinks(e0: Environment, e1: Environment)
    requires
        follows(e0, e1),
    ensures
        forall|at: int| #[trigger] e1.pool(at) <= e0.pool(at),
        forall|chain: Seq<NodeView>|
            chain_placed(e0, chain) ==> #[trigger] chain_placed(e1, chain),
{
    reveal(follows);
    reveal(chain_placed);
    lemma_stays_committed(e0, e1);
    assert forall|at: int| #[trigger] e1.pool(at) <= e0.pool(at) by {
        lemma_later_replies(e0.replies@, e0.used_replies as int, e1.used_replies as int, at);
    }
    assert forall|at: int| e0.pool(at) == 0 implies #[trigger] e1.pool(at) == 0 by {
        lemma_pool_cover(e1.replies@, e1.used_replies as int, at);
        assert(e1.pool(at) <= e0.pool(at));
    }
}

/// A chunk stays placed.
pub proof fn lemma_placed_later(e0: Environment, e1: Environment, chunk: int, size: int)
    requires
        follows(e0, e1),
        is_placed(e0, chunk, size),
    ensures
        is_placed(e1, chunk, size),
{
    lemma_pool_shrinks(e0, e1);
    assert(is_usable(e1, chunk)) by {
        reveal(follows);
        lemma_stays_committed(e0, e1);
    }
    assert forall|at: int| chunk <= at < chunk + size implies #[trigger] e1.pool(at) == 0 by {
        lemma_pool_cover(e1.replies@, e1.used_replies as int, at);
        assert(e1.pool(at) <= e0.pool(at));
    }
}

/// Where the same mappings wait, chunks stay placed.
pub proof fn lemma_same_pool(e0: Environment, e1: Environment)
    requires
        e1.replies == e0.replies,
        e1.used_replies == e0.used_replies,
        e1.region_size == e0.region_size,
        e1.actions == e0.actions,
    ensures
        forall|chain: Seq<NodeView>|
            chain_placed(e0, chain) ==> #[trigger] chain_placed(e1, chain),
{
    reveal(chain_placed);
    lemma_stays_committed(e0, e1);
    assert(forall|at: int| #[trigger] e1.pool(at) == e0.pool(at));
}

proof fn lemma_later_replies(replies: Seq<(usize, usize)>, from: int, later: int, at: int)
    requires
        0 <= from <= later,
    ensures
        replies_cover(replies, later, at) <= replies_cover(replies, from, at),
    decreases later - from,
{
    lemma_pool_cover(replies, from, at);
    if from < later {
        lemma_later_replies(replies, from + 1, later, at);
    }
}

/// A fresh region: the metadata of everything else is kept, and its chunks are placed.
pub proof fn lemma_region_settles(e0: Environment, e1: Environment, region: usize)
    requires
        e0.wf(),
        e1.region_size == e0.region_size,
        region_mapped(e0, e1, Some(region)),
    ensures
        keeps_metadata(e0, e1),
        is_single(e0) ==> node_placed(e1, fresh_node(region as int, e0.region_size as int)),
        is_committed(e1, region),
{
    assert(is_committed(e1, region)) by {
        let k = e0.actions@.len() as int;
        assert(e1.actions@[k] == (OsAction::Commit { ptr: region, size: e0.region_size }));
    }
    reveal(keeps_metadata);
    let rs = e0.region_size as int;
    lemma_region_size(rs);
    assert forall|at: int| #[trigger] e1.pool(at) <= e0.pool(at) by {
        assert(e1.pool(at) + covers(region as int, rs, at) <= e0.pool(at));
    }
    assert forall|at: int|
        0 <= at <= usize::MAX && e0.pool(at) == 0 && metadata_at(e0, at) is Some implies
        #[trigger] metadata_at(e1, at) == metadata_at(e0, at) by {
        assert(e1.pool(at) + covers(region as int, rs, at) <= e0.pool(at));
        lemma_pool_cover(e1.replies@, e1.used_replies as int, at);
        let key = metadata_of(rs, at);
        lemma_other_region(rs, region as int, at);
        assert(e0.metadata@.contains_key(key as usize));
        assert(e1.metadata@.contains_key(key as usize));
    }
    assert forall|at: int| #[trigger] metadata_at(e1, at) is Some implies metadata_at(e1, at)
        == metadata_at(e0, at) by {
        let key = metadata_of(rs, at) as usize;
        assert(e1.metadata@.contains_key(key));
    }
    if is_single(e0) {
        let node = fresh_node(region as int, rs);
        assert forall|at: int| region <= at < region + rs implies #[trigger] e1.pool(at) == 0 by {
            lemma_pool_cover(e1.replies@, e1.used_replies as int, at);
            assert(e1.pool(at) + covers(region as int, rs, at) <= e0.pool(at));
            assert(e0.pool(at) <= 1);
        }
        lemma_divides(region as int, rs);
        assert forall|i: int| 0 <= i < node.free_common.len() implies is_placed(
            e1,
            (#[trigger] node.free_common[i]).0 as int,
            65536,
        ) by {
            assert(node.free_common[i].0 == region + (i + 1) * 65536);
            law_chunks_find_their_region(rs, region as int, (i + 1) * 65536);
            lemma_multiple(region as int, i + 1, 65536);
        }
        assert forall|i: int| 0 <= i < node.free_large.len() implies is_placed(
            e1,
            (#[trigger] node.free_large[i]).0 as int,
            524288,
        ) by {
            assert(node.free_large[i].0 == region + (i + 1) * 524288);
            law_chunks_find_their_region(rs, region as int, (i + 1) * 524288);
            lemma_multiple(region as int, i + 1, 524288);
        }
    }
}

/// An environment whose metadata was not written.
pub proof fn lemma_metadata_unwritten(e0: Environment, e1: Environment)
    requires
        e1.region_size == e0.region_size,
        e1.metadata == e0.metadata,
        e0.actions@.is_prefix_of(e1.actions@),
        forall|at: int| #[trigger] e1.pool(at) <= e0.pool(at),
    ensures
        keeps_metadata(e0, e1),
{
    reveal(keeps_metadata);
}

/// An environment that differs neither in its metadata nor in its mappings.
pub proof fn lemma_same_metadata(e0: Environment, e1: Environment)
    requires
        e1.region_size == e0.region_size,
        e1.metadata == e0.metadata,
        e1.replies == e0.replies,
        e1.used_replies == e0.used_replies,
        e0.actions@.is_prefix_of(e1.actions@),
    ensures
        keeps_metadata(e0, e1),
{
    reveal(keeps_metadata);
    assert forall|at: int| #[trigger] e1.pool(at) <= e0.pool(at) by {}
}

/// A region that was refused.
pub proof fn lemma_refusal_settles(e0: Environment, e1: Environment)
    requires
        e1.region_size == e0.region_size,
        region_mapped(e0, e1, None),
    ensures
        keeps_metadata(e0, e1),
{
    reveal(keeps_metadata);
}

/// One operation on a state after another.
pub proof fn lemma_settles(
    s0: State,
    e0: Environment,
    s1: State,
    e1: Environment,
    s2: State,
    e2: Environment,
)
    requires
        settles(s0, e0, s1, e1),
        settles(s1, e1, s2, e2),
    ensures
        settles(s0, e0, s2, e2),
{
    reveal(settles);
    lemma_keeps_twice(e0, e1, e2);
    lemma_stays_placed(e0, e1);
    assert forall|at: int| carves(s0.chain(), at) implies #[trigger] carves(s2.chain(), at) by {
        assert(carves(s1.chain(), at));
    }
    assert forall|k: int|
        0 <= k < s2.chain().len() && (#[trigger] s2.chain()[k]).address != 0 implies carves(
        s2.chain(),
        s2.chain()[k].address as int,
    ) || (k < s0.chain().len() && s0.chain()[k].address == s2.chain()[k].address) by {
        if !carves(s2.chain(), s2.chain()[k].address as int) {
            assert(s1.chain()[k].address == s2.chain()[k].address);
        }
    }
}

/// A state that stays as it is.
pub proof fn lemma_settles_itself(s0: State, s1: State, e0: Environment, e1: Environment)
    requires
        s1.chain() == s0.chain(),
        keeps_metadata(e0, e1),
    ensures
        settles(s0, e0, s1, e1),
{
    reveal(settles);
    lemma_stays_placed(e0, e1);
    assert(e0.actions@.is_prefix_of(e1.actions@) && e1.region_size == e0.region_size) by {
        reveal(keeps_metadata);
    }
    lemma_stays_committed(e0, e1);
}

/// A node that is replaced by another one of the same region after an operation on the state.
pub proof fn lemma_settles_update(
    s0: State,
    e0: Environment,
    s1: State,
    e1: Environment,
    s2: State,
    k: int,
    node: NodeView,
)
    requires
        settles(s0, e0, s1, e1),
        0 <= k < s1.chain().len(),
        s2.chain() == s1.chain().update(k, node),
        node.address == s1.chain()[k].address,
        node.region_ptr == s1.chain()[k].region_ptr,
        forall|at: int| node_carves(s1.chain()[k], at) ==> #[trigger] node_carves(node, at),
        is_single(e0) && chain_placed(e0, s0.chain()) && chain_placed(e1, s1.chain())
            ==> node_placed(e1, node),
    ensures
        settles(s0, e0, s2, e1),
        forall|at: int| node_carves(node, at) ==> #[trigger] carves(s2.chain(), at),
{
    reveal(settles);
    reveal(chain_placed);
    let chain1 = s1.chain();
    let chain2 = s2.chain();
    if chain_committed(e0, s0.chain()) {
        reveal(chain_committed);
        assert forall|h: int| 0 <= h < chain2.len() implies is_committed(
            e1,
            (#[trigger] chain2[h]).region_ptr,
        ) by {
            assert(chain1[h].region_ptr == chain2[h].region_ptr);
        }
    }
    assert forall|at: int| carves(chain1, at) implies #[trigger] carves(chain2, at) by {
        let h = choose|h: int| 0 <= h < chain1.len() && node_carves(#[trigger] chain1[h], at);
        if h == k {
            assert(node_carves(node, at));
        }
        assert(node_carves(chain2[h], at));
    }
    assert forall|at: int| carves(s0.chain(), at) implies #[trigger] carves(chain2, at) by {
        assert(carves(chain1, at));
    }
    assert forall|at: int| node_carves(node, at) implies #[trigger] carves(chain2, at) by {
        assert(node_carves(chain2[k], at));
    }
    if is_single(e0) && chain_placed(e0, s0.chain()) {
        assert forall|h: int| 0 <= h < chain2.len() implies node_placed(
            e1,
            #[trigger] chain2[h],
        ) by {
            assert(node_placed(e1, chain1[h]));
        }
    }
    assert forall|h: int|
        0 <= h < chain2.len() && (#[trigger] chain2[h]).address != 0 implies carves(
        chain2,
        chain2[h].address as int,
    ) || (h < s0.chain().len() && s0.chain()[h].address == chain2[h].address) by {
        assert(chain1[h].address == chain2[h].address);
    }
}

/// A chunk that has lost free objects, or was appended to those that are carved.
pub proof fn lemma_node_carves_more(node: NodeView, common: bool, chunks: Seq<Chunk>)
    requires
        node.used(common).len() <= chunks.len(),
        forall|i: int|
            0 <= i < node.used(common).len() ==> (#[trigger] chunks[i]).0 == node.used(common)[i].0,
    ensures
        forall|at: int|
            node_carves(node, at) ==> #[trigger] node_carves(node.with_used(common, chunks), at),
{
    let after = node.with_used(common, chunks);
    assert forall|at: int| node_carves(node, at) implies #[trigger] node_carves(after, at) by {
        let (c, i) = choose|c: bool, i: int|
            0 <= i < node.used(c).len() && lies_in(#[trigger] node.used(c)[i], c, at);
        if c == common {
            assert(chunks[i].0 == node.used(common)[i].0);
        }
        assert(lies_in(after.used(c)[i], c, at));
    }
}

/// A node that is appended.
pub proof fn lemma_settles_push(
    s0: State,
    s1: State,
    e0: Environment,
    e1: Environment,
    node: NodeView,
)
    requires
        s1.chain() == s0.chain().push(node),
        keeps_metadata(e0, e1),
        is_single(e0) ==> node_placed(e1, node),
        is_committed(e1, node.region_ptr),
        node.address != 0 ==> carves(s1.chain(), node.address as int),
    ensures
        settles(s0, e0, s1, e1),
{
    reveal(settles);
    reveal(chain_placed);
    lemma_stays_placed(e0, e1);
    let chain0 = s0.chain();
    let chain1 = s1.chain();
    assert(e0.actions@.is_prefix_of(e1.actions@) && e1.region_size == e0.region_size) by {
        reveal(keeps_metadata);
    }
    lemma_stays_committed(e0, e1);
    if chain_committed(e0, chain0) {
        reveal(chain_committed);
        assert forall|h: int| 0 <= h < chain1.len() implies is_committed(
            e1,
            (#[trigger] chain1[h]).region_ptr,
        ) by {
            if h < chain0.len() {
                assert(chain1[h] == chain0[h]);
            }
        }
    }
    assert forall|at: int| carves(chain0, at) implies #[trigger] carves(chain1, at) by {
        let h = choose|h: int| 0 <= h < chain0.len() && node_carves(#[trigger] chain0[h], at);
        assert(node_carves(chain1[h], at));
    }
    if is_single(e0) && chain_placed(e0, chain0) {
        assert(chain_placed(e1, chain0));
        assert forall|h: int| 0 <= h < chain1.len() implies node_placed(
            e1,
            #[trigger] chain1[h],
        ) by {
            if h < chain0.len() {
                assert(node_placed(e1, chain0[h]));
            }
        }
    }
    assert forall|h: int|
        0 <= h < chain1.len() && (#[trigger] chain1[h]).address != 0 implies carves(
        chain1,
        chain1[h].address as int,
    ) || (h < chain0.len() && chain0[h].address == chain1[h].address) by {
        if h < chain0.len() {
            assert(chain0[h].address == chain1[h].address);
        }
    }
}

/// The chunks that a large chunk splits into are placed where it is.
pub proof fn lemma_split_placed(env: Environment, large_chunk: int)
    requires
        is_region_size(env.region_size as int),
        is_placed(env, large_chunk, 524288),
    ensures
        forall|i: int|
            0 <= i < 8 ==> is_placed(
                env,
                (#[trigger] split_chunks(large_chunk)[i]).0 as int,
                65536,
            ),
{
    assert forall|i: int| 0 <= i < 8 implies is_placed(
        env,
        (#[trigger] split_chunks(large_chunk)[i]).0 as int,
        65536,
    ) by {
        let chunk = large_chunk + i * 65536;
        assert(split_chunks(large_chunk)[i].0 == chunk);
        lemma_within_chunk(env.region_size as int, 128, large_chunk, chunk);
        lemma_halves(large_chunk, 524288);
        lemma_multiple(large_chunk, i, 65536);
    }
}

} // verus!
