//! Who owns what an allocator holds.
//!
//! The owner of a carved chunk is noted in its metadata. An allocator owns what it holds: the free
//! objects and the blocks that serve the allocator itself lie in chunks that name its manager, or
//! in chunks of a state that is being committed. Every operation keeps that, and so what an
//! allocator hands out can be given back to it.
use crate::blocks::{run_of_blocks, Chunk};
use crate::carving::{last_object, metadata_after, noted_owner};
use crate::chunk_manager::kept_but_regions;
use crate::deallocation::is_local;
use crate::inner::{buffer_bytes, held_size, ThreadLocalAllocatorInner};
use crate::laws::lemma_within_chunk;
use crate::non_local_ptr_manager::{Node, NonLocalPtrManager};
use crate::os::{follows, is_region_size, Environment};
use crate::placement::{
    carves, chain_placed, chunk_bytes, is_placed, is_single, is_usable, keeps_metadata,
    lemma_keeps_itself, lemma_placed_later, lemma_pool_cover, lemma_pool_shrinks,
    lemma_region_settles, lemma_same_metadata, lemma_same_pool, lemma_stays_committed,
    lemma_stays_placed, lies_in, node_carves, node_placed, nodes_stay, settles,
};
use crate::region::{
    is_metadata_key, lemma_region_size, metadata_at, metadata_of, metadata_or_zero,
    only_metadata_changed, region_mapped, region_of,
};
use crate::sizes::{
    chunk_size_of_class, class_of, class_size, lemma_class, lemma_class_of, slots_of_class,
    LARGE_SIZE_MAX,
};
use crate::state::{fresh_node, used_chunk_wf, NodeView, State};
use crate::takeover::{node_brings, objects_left, owner_at, took_node};
use crate::thread_local_allocator::ThreadLocalAllocator;
use crate::vectors::only_elems_changed;
use vstd::prelude::*;

verus! {

/// Whether the byte lies in a chunk of the state, whose owner is noted when it is committed.
pub open spec fn is_promised(s: Option<State>, at: int) -> bool {
    s is Some && carves(s->0.chain(), at)
}

/// Whether the object at the address belongs to the allocator, or will where it lies in a chunk of
/// the state or in what is promised otherwise.
pub open spec fn owned<N: NonLocalPtrManager>(
    a: ThreadLocalAllocator<N>,
    s: Option<State>,
    promised: Set<int>,
    at: int,
) -> bool {
    &&& 0 < at <= usize::MAX
    &&& a.inner.env.pool(at) == 0
    &&& is_local(a, at) || is_promised(s, at) || promised.contains(at)
}

/// Whether the buffer of a vector is owned; one that is too large for a chunk has no owner.
pub open spec fn owns_buffer<N: NonLocalPtrManager>(
    a: ThreadLocalAllocator<N>,
    s: Option<State>,
    promised: Set<int>,
    slot: int,
) -> bool {
    let v = a.inner.vectors@[slot];
    v.cap > 0 && buffer_bytes(slot, v) <= LARGE_SIZE_MAX ==> owned(a, s, promised, v.ptr as int)
}

/// Whether the blocks that serve the allocator itself, but for the buffers of vectors, are owned.
pub open spec fn owns_blocks<N: NonLocalPtrManager>(
    a: ThreadLocalAllocator<N>,
    s: Option<State>,
    promised: Set<int>,
) -> bool {
    &&& a.inner.common_chunk_table != 0 ==> owned(
        a,
        s,
        promised,
        a.inner.common_chunk_table as int,
    )
    &&& a.inner.large_chunk_table != 0 ==> owned(
        a,
        s,
        promised,
        a.inner.large_chunk_table as int,
    )
    &&& a.inner.manager_block > 0 ==> owned(a, s, promised, a.inner.manager_ptr as int)
    &&& forall|i: int|
        0 <= i < a.inner.allocated_large_sizes.nodes@.len() ==> owned(
            a,
            s,
            promised,
            #[trigger] a.inner.allocated_large_sizes.nodes@[i] as int,
        )
}

/// Whether the objects that hold the nodes of the state are owned.
pub open spec fn owns_nodes<N: NonLocalPtrManager>(
    a: ThreadLocalAllocator<N>,
    s: Option<State>,
    promised: Set<int>,
) -> bool {
    s matches Some(st) ==> forall|k: int|
        0 <= k < st.chain().len() && (#[trigger] st.chain()[k]).address != 0 ==> owned(
            a,
            s,
            promised,
            st.chain()[k].address as int,
        )
}

/// Whether an allocator owns what it holds, with a state and with what is promised otherwise.
#[verifier::opaque]
pub open spec fn owns_with<N: NonLocalPtrManager>(
    a: ThreadLocalAllocator<N>,
    s: Option<State>,
    promised: Set<int>,
) -> bool {
    &&& is_single(a.inner.env)
    &&& forall|slot: int, i: int|
        0 <= slot < 216 && 0 <= i < a.inner.vectors@[slot]@.len() ==> owned(
            a,
            s,
            promised,
            #[trigger] a.inner.vectors@[slot]@[i] as int,
        )
    &&& forall|slot: int, i: int|
        432 <= slot < 434 && 0 <= i < a.inner.vectors@[slot]@.len() ==> is_placed(
            a.inner.env,
            #[trigger] a.inner.vectors@[slot]@[i] as int,
            held_size(slot),
        )
    &&& forall|slot: int| 0 <= slot < 435 ==> #[trigger] owns_buffer(a, s, promised, slot)
    &&& owns_blocks(a, s, promised)
    &&& forall|i: int|
        0 <= i < a.incoming().len() ==> owned(
            a,
            s,
            promised,
            (#[trigger] a.incoming()[i]).value.ptr as int,
        )
    &&& s matches Some(st) ==> chain_placed(a.inner.env, st.chain())
    &&& owns_nodes(a, s, promised)
}

/// Whether an allocator owns what it holds.
pub open spec fn owns<N: NonLocalPtrManager>(a: ThreadLocalAllocator<N>) -> bool {
    owns_with(a, None, Set::empty())
}

/// Whether what was owned still is.
pub open spec fn endures<N: NonLocalPtrManager>(
    a0: ThreadLocalAllocator<N>,
    s0: Option<State>,
    a1: ThreadLocalAllocator<N>,
    s1: Option<State>,
    promised: Set<int>,
) -> bool {
    &&& forall|at: int| owned(a0, s0, promised, at) ==> #[trigger] owned(a1, s1, promised, at)
    &&& notes(a0, a1)
}

/// Whether the metadata of the byte names the manager as the owner.
pub open spec fn names(env: Environment, at: int, manager: usize) -> bool {
    metadata_at(env, at) is Some && metadata_at(env, at)->0.non_local_ptr_manager == manager
}

/// Whether an owner was noted for nothing but memory of regions that were made readable and writable.
pub open spec fn notes<N: NonLocalPtrManager>(
    a0: ThreadLocalAllocator<N>,
    a1: ThreadLocalAllocator<N>,
) -> bool {
    &&& a0.inner.manager_ptr != 0 ==> a1.inner.manager_ptr == a0.inner.manager_ptr
    &&& a1.inner.env.region_size == a0.inner.env.region_size
    &&& a0.inner.env.actions@.is_prefix_of(a1.inner.env.actions@)
    &&& forall|at: int, m: usize|
        m != 0 && 0 < at <= usize::MAX && #[trigger] names(a1.inner.env, at, m) ==> names(
            a0.inner.env,
            at,
            m,
        ) || m == a1.inner.manager_ptr && is_usable(a1.inner.env, at)
}

/// Owners that are noted one after the other.
pub proof fn lemma_notes<N: NonLocalPtrManager>(
    a0: ThreadLocalAllocator<N>,
    a1: ThreadLocalAllocator<N>,
    a2: ThreadLocalAllocator<N>,
)
    requires
        notes(a0, a1),
        notes(a1, a2),
    ensures
        notes(a0, a2),
{
    lemma_stays_committed(a1.inner.env, a2.inner.env);
    assert forall|at: int, m: usize|
        m != 0 && 0 < at <= usize::MAX && #[trigger] names(a2.inner.env, at, m) implies names(
        a0.inner.env,
        at,
        m,
    ) || m == a2.inner.manager_ptr && is_usable(a2.inner.env, at) by {
        if names(a1.inner.env, at, m) && !names(a0.inner.env, at, m) {
            assert(is_usable(a1.inner.env, at));
        }
    }
}

/// Whether a block of the size is an object of a class.
pub open spec fn is_object(size: int) -> bool {
    1 <= size <= LARGE_SIZE_MAX
}

/// What an operation does to what is owned that was given a block and has handed out a block;
/// `deal` holds the address and the size of the one and of the other. Where the allocator owned
/// what it held, and the object that it was given, it owns what it holds, and the object that it
/// has handed out.
#[verifier::opaque]
pub open spec fn passes<N: NonLocalPtrManager>(
    a0: ThreadLocalAllocator<N>,
    s0: Option<State>,
    a1: ThreadLocalAllocator<N>,
    s1: Option<State>,
    deal: (int, int, int, int),
) -> bool {
    forall|promised: Set<int>| #[trigger]
        owns_with(a0, s0, promised) && (is_object(deal.1) ==> owned(a0, s0, promised, deal.0)) ==> {
            &&& owns_with(a1, s1, promised)
            &&& endures(a0, s0, a1, s1, promised)
            &&& is_object(deal.3) ==> owned(a1, s1, promised, deal.2)
        }
}

/// Whether a chunk that was taken is placed, where the allocator owned what it held.
#[verifier::opaque]
pub open spec fn gives_chunk<N: NonLocalPtrManager>(
    a0: ThreadLocalAllocator<N>,
    s0: Option<State>,
    a1: ThreadLocalAllocator<N>,
    chunk: int,
    size: int,
) -> bool {
    forall|promised: Set<int>| #[trigger]
        owns_with(a0, s0, promised) ==> is_placed(a1.inner.env, chunk, size)
}

/// What was owned still is where metadata is kept.
pub proof fn lemma_endures<N: NonLocalPtrManager>(
    a0: ThreadLocalAllocator<N>,
    s0: Option<State>,
    a1: ThreadLocalAllocator<N>,
    s1: Option<State>,
    promised: Set<int>,
)
    requires
        keeps_metadata(a0.inner.env, a1.inner.env),
        a0.inner.manager_ptr != 0 ==> a1.inner.manager_ptr == a0.inner.manager_ptr,
        forall|at: int| is_promised(s0, at) ==> #[trigger] is_promised(s1, at),
    ensures
        endures(a0, s0, a1, s1, promised),
{
    assert(notes(a0, a1)) by {
        reveal(keeps_metadata);
        assert forall|at: int, m: usize|
            m != 0 && 0 < at <= usize::MAX && #[trigger] names(a1.inner.env, at, m) implies names(
            a0.inner.env,
            at,
            m,
        ) by {
            assert(metadata_at(a1.inner.env, at) == metadata_at(a0.inner.env, at));
        }
    }
    lemma_stays_placed(a0.inner.env, a1.inner.env);
    assert forall|at: int| owned(a0, s0, promised, at) implies #[trigger] owned(
        a1,
        s1,
        promised,
        at,
    ) by {
        reveal(keeps_metadata);
        assert(a1.inner.env.pool(at) == 0);
        if is_local(a0, at) {
            assert(metadata_at(a1.inner.env, at) == metadata_at(a0.inner.env, at));
        } else if is_promised(s0, at) {
            assert(is_promised(s1, at));
        }
    }
}

/// Whether each element of a vector was there before or is owned, or placed where it is a chunk.
pub open spec fn slot_passes<N: NonLocalPtrManager>(
    a0: ThreadLocalAllocator<N>,
    a1: ThreadLocalAllocator<N>,
    s1: Option<State>,
    promised: Set<int>,
    slot: int,
) -> bool {
    let v0 = a0.inner.vectors@[slot];
    let v1 = a1.inner.vectors@[slot];
    &&& slot < 216 ==> forall|i: int|
        0 <= i < v1@.len() ==> v0@.contains(#[trigger] v1@[i]) || owned(
            a1,
            s1,
            promised,
            v1@[i] as int,
        )
    &&& 432 <= slot < 434 ==> forall|i: int|
        0 <= i < v1@.len() ==> v0@.contains(#[trigger] v1@[i]) || is_placed(
            a1.inner.env,
            v1@[i] as int,
            held_size(slot),
        )
    &&& v1.cap == v0.cap && v1.ptr == v0.ptr || owns_buffer(a1, s1, promised, slot)
}

/// Whether the blocks that serve the allocator itself were there before or are owned.
pub open spec fn blocks_pass<N: NonLocalPtrManager>(
    a0: ThreadLocalAllocator<N>,
    a1: ThreadLocalAllocator<N>,
    s1: Option<State>,
    promised: Set<int>,
) -> bool {
    &&& a1.inner.common_chunk_table == a0.inner.common_chunk_table || owned(
        a1,
        s1,
        promised,
        a1.inner.common_chunk_table as int,
    )
    &&& a1.inner.large_chunk_table == a0.inner.large_chunk_table || owned(
        a1,
        s1,
        promised,
        a1.inner.large_chunk_table as int,
    )
    &&& a1.inner.manager_ptr == a0.inner.manager_ptr && a1.inner.manager_block
        == a0.inner.manager_block || a1.inner.manager_block == 0 || owned(
        a1,
        s1,
        promised,
        a1.inner.manager_ptr as int,
    )
    &&& forall|i: int|
        0 <= i < a1.inner.allocated_large_sizes.nodes@.len()
            ==> a0.inner.allocated_large_sizes.nodes@.contains(
            #[trigger] a1.inner.allocated_large_sizes.nodes@[i],
        ) || owned(a1, s1, promised, a1.inner.allocated_large_sizes.nodes@[i] as int)
}

/// An allocator owns what it holds where it did before, and all that is new is owned.
pub proof fn lemma_owns_after<N: NonLocalPtrManager>(
    a0: ThreadLocalAllocator<N>,
    s0: Option<State>,
    a1: ThreadLocalAllocator<N>,
    s1: Option<State>,
    promised: Set<int>,
)
    requires
        owns_with(a0, s0, promised),
        endures(a0, s0, a1, s1, promised),
        forall|at: int| #[trigger] a1.inner.env.pool(at) <= a0.inner.env.pool(at),
        forall|slot: int| 0 <= slot < 435 ==> #[trigger] slot_passes(a0, a1, s1, promised, slot),
        blocks_pass(a0, a1, s1, promised),
        a1.incoming() == a0.incoming() || a1.incoming().len() == 0,
        s1 matches Some(st) ==> chain_placed(a1.inner.env, st.chain()),
        s1 == s0 || owns_nodes(a1, s1, promised),
    ensures
        owns_with(a1, s1, promised),
{
    reveal(owns_with);
    if s1 == s0 && s1 is Some {
        let chain = s1->0.chain();
        assert forall|k: int|
            0 <= k < chain.len() && (#[trigger] chain[k]).address != 0 implies owned(
            a1,
            s1,
            promised,
            chain[k].address as int,
        ) by {
            assert(owned(a0, s0, promised, chain[k].address as int));
        }
    }
    assert forall|at: int| a0.inner.env.pool(at) == 0 implies #[trigger] a1.inner.env.pool(at)
        == 0 by {
        lemma_pool_cover(a1.inner.env.replies@, a1.inner.env.used_replies as int, at);
        assert(a1.inner.env.pool(at) <= a0.inner.env.pool(at));
    }
    assert(is_single(a1.inner.env)) by {
        assert forall|at: int| #[trigger] a1.inner.env.pool(at) <= 1 by {
            assert(a0.inner.env.pool(at) <= 1);
            assert(a1.inner.env.pool(at) <= a0.inner.env.pool(at));
        }
    }
    assert forall|slot: int, i: int|
        0 <= slot < 216 && 0 <= i < a1.inner.vectors@[slot]@.len() implies owned(
        a1,
        s1,
        promised,
        #[trigger] a1.inner.vectors@[slot]@[i] as int,
    ) by {
        assert(slot_passes(a0, a1, s1, promised, slot));
        let elem = a1.inner.vectors@[slot]@[i];
        if a0.inner.vectors@[slot]@.contains(elem) {
            let j = a0.inner.vectors@[slot]@.index_of(elem);
            assert(a0.inner.vectors@[slot]@[j] == elem);
            assert(owned(a0, s0, promised, elem as int));
        }
    }
    assert forall|slot: int, i: int|
        432 <= slot < 434 && 0 <= i < a1.inner.vectors@[slot]@.len() implies is_placed(
        a1.inner.env,
        #[trigger] a1.inner.vectors@[slot]@[i] as int,
        held_size(slot),
    ) by {
        assert(slot_passes(a0, a1, s1, promised, slot));
        let elem = a1.inner.vectors@[slot]@[i];
        if a0.inner.vectors@[slot]@.contains(elem) {
            let j = a0.inner.vectors@[slot]@.index_of(elem);
            assert(a0.inner.vectors@[slot]@[j] == elem);
            assert(is_placed(a0.inner.env, elem as int, held_size(slot)));
        }
    }
    assert forall|slot: int| 0 <= slot < 435 implies #[trigger] owns_buffer(
        a1,
        s1,
        promised,
        slot,
    ) by {
        assert(slot_passes(a0, a1, s1, promised, slot));
        assert(owns_buffer(a0, s0, promised, slot));
    }
    assert forall|i: int| 0 <= i < a1.inner.allocated_large_sizes.nodes@.len() implies owned(
        a1,
        s1,
        promised,
        #[trigger] a1.inner.allocated_large_sizes.nodes@[i] as int,
    ) by {
        let nodes0 = a0.inner.allocated_large_sizes.nodes@;
        let node = a1.inner.allocated_large_sizes.nodes@[i];
        if nodes0.contains(node) {
            let j = nodes0.index_of(node);
            assert(nodes0[j] == node);
            assert(owned(a0, s0, promised, nodes0[j] as int));
        }
    }
    assert forall|i: int| 0 <= i < a1.incoming().len() implies owned(
        a1,
        s1,
        promised,
        (#[trigger] a1.incoming()[i]).value.ptr as int,
    ) by {
        assert(owned(a0, s0, promised, a0.incoming()[i].value.ptr as int));
    }
}

/// An allocator that differs in nothing that matters here.
pub open spec fn same_parts<N: NonLocalPtrManager>(
    a0: ThreadLocalAllocator<N>,
    a1: ThreadLocalAllocator<N>,
) -> bool {
    &&& a1.inner.vectors@ == a0.inner.vectors@
    &&& a1.inner.common_chunk_table == a0.inner.common_chunk_table
    &&& a1.inner.large_chunk_table == a0.inner.large_chunk_table
    &&& a1.inner.manager_ptr == a0.inner.manager_ptr
    &&& a1.inner.manager_block == a0.inner.manager_block
    &&& a1.inner.allocated_large_sizes.nodes@ == a0.inner.allocated_large_sizes.nodes@
    &&& a1.incoming() == a0.incoming() || a1.incoming().len() == 0
}

/// An operation that changes nothing but the environment and the state.
pub proof fn lemma_passes_env<N: NonLocalPtrManager>(
    a0: ThreadLocalAllocator<N>,
    s0: Option<State>,
    a1: ThreadLocalAllocator<N>,
    s1: Option<State>,
)
    requires
        same_parts(a0, a1),
        keeps_metadata(a0.inner.env, a1.inner.env),
        forall|at: int| is_promised(s0, at) ==> #[trigger] is_promised(s1, at),
        s1 matches Some(st) ==> (is_single(a0.inner.env) && (s0 is Some ==> chain_placed(
            a0.inner.env,
            s0->0.chain(),
        )) ==> chain_placed(a1.inner.env, st.chain())),
        s1 matches Some(st) ==> nodes_stay(
            if s0 is Some {
                s0->0.chain()
            } else {
                Seq::empty()
            },
            st.chain(),
        ),
    ensures
        passes(a0, s0, a1, s1, (0, 0, 0, 0)),
{
    reveal(passes);
    assert forall|promised: Set<int>| #[trigger] owns_with(a0, s0, promised) implies owns_with(
        a1,
        s1,
        promised,
    ) && endures(a0, s0, a1, s1, promised) by {
        lemma_endures(a0, s0, a1, s1, promised);
        reveal(keeps_metadata);
        assert(is_single(a0.inner.env) && (s0 is Some ==> chain_placed(
            a0.inner.env,
            s0->0.chain(),
        ))) by {
            reveal(owns_with);
        }
        lemma_all_passes(a0, a1, s1, promised);
        if s1 is Some {
            let chain = s1->0.chain();
            assert forall|k: int|
                0 <= k < chain.len() && (#[trigger] chain[k]).address != 0 implies owned(
                a1,
                s1,
                promised,
                chain[k].address as int,
            ) by {
                if carves(chain, chain[k].address as int) {
                    lemma_carved_apart(a1.inner.env, chain, chain[k].address as int);
                } else {
                    let before = s0->0.chain();
                    assert(before[k].address == chain[k].address);
                    assert(owned(a0, s0, promised, before[k].address as int)) by {
                        reveal(owns_with);
                    }
                }
            }
        }
        lemma_owns_after(a0, s0, a1, s1, promised);
    }
}

/// What has not changed passes.
pub proof fn lemma_all_passes<N: NonLocalPtrManager>(
    a0: ThreadLocalAllocator<N>,
    a1: ThreadLocalAllocator<N>,
    s1: Option<State>,
    promised: Set<int>,
)
    ensures
        forall|slot: int|
            a1.inner.vectors@[slot] == a0.inner.vectors@[slot] ==> #[trigger] slot_passes(
                a0,
                a1,
                s1,
                promised,
                slot,
            ),
        a1.inner.common_chunk_table == a0.inner.common_chunk_table && a1.inner.large_chunk_table
            == a0.inner.large_chunk_table && a1.inner.manager_ptr == a0.inner.manager_ptr
            && a1.inner.manager_block == a0.inner.manager_block
            && a1.inner.allocated_large_sizes.nodes@ == a0.inner.allocated_large_sizes.nodes@
            ==> blocks_pass(a0, a1, s1, promised),
{
    assert forall|slot: int| a1.inner.vectors@[slot] == a0.inner.vectors@[slot] implies
        #[trigger] slot_passes(a0, a1, s1, promised, slot) by {
        let v1 = a1.inner.vectors@[slot];
        assert forall|i: int| 0 <= i < v1@.len() implies a0.inner.vectors@[slot]@.contains(
            #[trigger] v1@[i],
        ) by {
            assert(a0.inner.vectors@[slot]@[i] == v1@[i]);
        }
    }
    if a1.inner.allocated_large_sizes.nodes@ == a0.inner.allocated_large_sizes.nodes@ {
        let nodes = a0.inner.allocated_large_sizes.nodes@;
        assert forall|i: int| 0 <= i < nodes.len() implies nodes.contains(#[trigger] nodes[i]) by {}
    }
}

/// One operation after another.
pub proof fn lemma_passes<N: NonLocalPtrManager>(
    a0: ThreadLocalAllocator<N>,
    s0: Option<State>,
    a1: ThreadLocalAllocator<N>,
    s1: Option<State>,
    a2: ThreadLocalAllocator<N>,
    s2: Option<State>,
    first: (int, int, int, int),
    second: (int, int, int, int),
)
    requires
        passes(a0, s0, a1, s1, first),
        passes(a1, s1, a2, s2, second),
    ensures
        first.2 == second.0 && first.3 == second.1 ==> passes(
            a0,
            s0,
            a2,
            s2,
            (first.0, first.1, second.2, second.3),
        ),
        second.1 <= 0 && second.3 <= 0 ==> passes(a0, s0, a2, s2, first),
        first.1 <= 0 && first.3 <= 0 ==> passes(a0, s0, a2, s2, second),
        second.1 <= 0 && second.3 <= 0 && first.1 <= 0 ==> passes(
            a0,
            s0,
            a2,
            s2,
            (0, 0, first.2, first.3),
        ),
{
    reveal(passes);
    assert forall|promised: Set<int>| #[trigger] endures(a0, s0, a1, s1, promised) && endures(
        a1,
        s1,
        a2,
        s2,
        promised,
    ) implies notes(a0, a2) by {
        lemma_notes(a0, a1, a2);
    }
    assert forall|promised: Set<int>, at: int|
        endures(a0, s0, a1, s1, promised) && endures(a1, s1, a2, s2, promised) && owned(
            a0,
            s0,
            promised,
            at,
        ) implies #[trigger] owned(a2, s2, promised, at) by {
        assert(owned(a1, s1, promised, at));
    }
}

/// An operation that leaves a state alone.
pub proof fn lemma_passes_lifted<N: NonLocalPtrManager>(
    a0: ThreadLocalAllocator<N>,
    a1: ThreadLocalAllocator<N>,
    s: Option<State>,
    deal: (int, int, int, int),
)
    requires
        follows(a0.inner.env, a1.inner.env),
        passes(a0, None, a1, None, deal),
    ensures
        passes(a0, s, a1, s, deal),
{
    reveal(passes);
    let none = None::<State>;
    assert forall|promised: Set<int>| #[trigger]
        owns_with(a0, s, promised) && (is_object(deal.1) ==> owned(a0, s, promised, deal.0)) implies {
        &&& owns_with(a1, s, promised)
        &&& endures(a0, s, a1, s, promised)
        &&& is_object(deal.3) ==> owned(a1, s, promised, deal.2)
    } by {
        let more = promised.union(Set::new(|at: int| is_promised(s, at)));
        assert forall|at: int| #[trigger] owned(a0, s, promised, at) == owned(
            a0,
            none,
            more,
            at,
        ) by {}
        assert forall|at: int| #[trigger] owned(a1, s, promised, at) == owned(
            a1,
            none,
            more,
            at,
        ) by {}
        lemma_owns_alike(a0, s, promised, none, more);
        assert(owns_with(a1, none, more));
        assert(s matches Some(st) ==> chain_placed(a1.inner.env, st.chain())) by {
            reveal(owns_with);
            lemma_pool_shrinks(a0.inner.env, a1.inner.env);
        }
        assert forall|at: int| owned(a0, s, promised, at) implies #[trigger] owned(
            a1,
            s,
            promised,
            at,
        ) by {
            assert(owned(a0, none, more, at));
            assert(owned(a1, none, more, at));
        }
        if s is Some {
            let chain = s->0.chain();
            assert forall|k: int|
                0 <= k < chain.len() && (#[trigger] chain[k]).address != 0 implies owned(
                a1,
                s,
                promised,
                chain[k].address as int,
            ) by {
                assert(owned(a0, s, promised, chain[k].address as int)) by {
                    reveal(owns_with);
                }
            }
        }
        lemma_owns_alike(a1, none, more, s, promised);
    }
}

/// Who has promised a chunk does not matter.
pub proof fn lemma_owns_alike<N: NonLocalPtrManager>(
    a: ThreadLocalAllocator<N>,
    s0: Option<State>,
    promised0: Set<int>,
    s1: Option<State>,
    promised1: Set<int>,
)
    requires
        owns_with(a, s0, promised0),
        forall|at: int| owned(a, s0, promised0, at) ==> #[trigger] owned(a, s1, promised1, at),
        s1 matches Some(st) ==> chain_placed(a.inner.env, st.chain()),
        owns_nodes(a, s1, promised1),
    ensures
        owns_with(a, s1, promised1),
{
    reveal(owns_with);
    assert forall|slot: int| 0 <= slot < 435 implies #[trigger] owns_buffer(
        a,
        s1,
        promised1,
        slot,
    ) by {
        assert(owns_buffer(a, s0, promised0, slot));
    }
    assert forall|slot: int, i: int|
        0 <= slot < 216 && 0 <= i < a.inner.vectors@[slot]@.len() implies owned(
        a,
        s1,
        promised1,
        #[trigger] a.inner.vectors@[slot]@[i] as int,
    ) by {
        assert(owned(a, s0, promised0, a.inner.vectors@[slot]@[i] as int));
    }
    assert forall|i: int| 0 <= i < a.inner.allocated_large_sizes.nodes@.len() implies owned(
        a,
        s1,
        promised1,
        #[trigger] a.inner.allocated_large_sizes.nodes@[i] as int,
    ) by {
        assert(owned(a, s0, promised0, a.inner.allocated_large_sizes.nodes@[i] as int));
    }
    assert forall|i: int| 0 <= i < a.incoming().len() implies owned(
        a,
        s1,
        promised1,
        (#[trigger] a.incoming()[i]).value.ptr as int,
    ) by {
        assert(owned(a, s0, promised0, a.incoming()[i].value.ptr as int));
    }
}

/// A step of the state: what it hands out lies in a chunk that it has carved.
pub proof fn lemma_passes_state<N: NonLocalPtrManager>(
    a0: ThreadLocalAllocator<N>,
    st0: State,
    a1: ThreadLocalAllocator<N>,
    st1: State,
    ptr: int,
    size: int,
)
    requires
        same_parts(a0, a1),
        settles(st0, a0.inner.env, st1, a1.inner.env),
        is_object(size) ==> 0 < ptr <= usize::MAX && carves(st1.chain(), ptr),
    ensures
        passes(a0, Some(st0), a1, Some(st1), (0, 0, ptr, size)),
        passes(a0, Some(st0), a1, Some(st1), (0, 0, 0, 0)),
{
    let s0 = Some(st0);
    let s1 = Some(st1);
    assert(keeps_metadata(a0.inner.env, a1.inner.env)) by {
        reveal(settles);
    }
    assert forall|at: int| is_promised(s0, at) implies #[trigger] is_promised(s1, at) by {
        reveal(settles);
        assert(carves(st1.chain(), at));
    }
    assert(is_single(a0.inner.env) && chain_placed(a0.inner.env, st0.chain()) ==> chain_placed(
        a1.inner.env,
        st1.chain(),
    )) by {
        reveal(settles);
    }
    assert(nodes_stay(st0.chain(), st1.chain())) by {
        reveal(settles);
    }
    lemma_passes_env(a0, s0, a1, s1);
    reveal(passes);
    assert forall|promised: Set<int>| #[trigger]
        owns_with(a0, s0, promised) && is_object(size) implies owned(a1, s1, promised, ptr) by {
        assert(owns_with(a1, s1, promised));
        assert(chain_placed(a1.inner.env, st1.chain())) by {
            reveal(owns_with);
        }
        lemma_carved_apart(a1.inner.env, st1.chain(), ptr);
    }
}

/// What a chain of nodes has carved lies apart from the mappings that wait.
pub proof fn lemma_carved_apart(env: Environment, chain: Seq<NodeView>, at: int)
    requires
        chain_placed(env, chain),
        carves(chain, at),
    ensures
        env.pool(at) == 0,
{
    reveal(chain_placed);
    let k = choose|k: int| 0 <= k < chain.len() && node_carves(#[trigger] chain[k], at);
    let node = chain[k];
    assert(node_placed(env, node));
    let (common, i) = choose|common: bool, i: int|
        0 <= i < node.used(common).len() && lies_in(#[trigger] node.used(common)[i], common, at);
    assert(is_placed(env, node.used(common)[i].0 as int, chunk_bytes(common)));
}

/// A region that a state is made of.
pub proof fn lemma_passes_region<N: NonLocalPtrManager>(
    a0: ThreadLocalAllocator<N>,
    a1: ThreadLocalAllocator<N>,
    st: State,
    region: usize,
)
    requires
        same_parts(a0, a1),
        a0.inner.env.wf(),
        a1.inner.env.region_size == a0.inner.env.region_size,
        region_mapped(a0.inner.env, a1.inner.env, Some(region)),
        st.chain() == seq![fresh_node(region as int, a0.inner.env.region_size as int)],
    ensures
        passes(a0, None, a1, Some(st), (0, 0, 0, 0)),
{
    lemma_region_settles(a0.inner.env, a1.inner.env, region);
    if is_single(a0.inner.env) {
        reveal(chain_placed);
        assert(st.chain()[0] == fresh_node(region as int, a0.inner.env.region_size as int));
        assert(chain_placed(a1.inner.env, st.chain()));
    }
    lemma_passes_env(a0, None, a1, Some(st));
}

/// An element that is taken from a vector.
pub proof fn lemma_passes_popped<N: NonLocalPtrManager>(
    a0: ThreadLocalAllocator<N>,
    s: Option<State>,
    a1: ThreadLocalAllocator<N>,
    slot: int,
    elem: usize,
)
    requires
        a0.wf(),
        0 <= slot < 434,
        only_elems_changed(a0, a1),
        a1.inner.vectors@ == a0.inner.vectors@.update(slot, a1.inner.vectors@[slot]),
        a0.len_of(slot) > 0,
        elem == a0.inner.vectors@[slot]@.last(),
        a1.inner.vectors@[slot]@ == a0.inner.vectors@[slot]@.drop_last(),
    ensures
        passes(a0, s, a1, s, (0, 0, 0, 0)),
        slot < 216 ==> passes(a0, s, a1, s, (0, 0, elem as int, class_size(slot))),
        432 <= slot ==> gives_chunk(a0, s, a1, elem as int, held_size(slot)),
{
    reveal(passes);
    reveal(gives_chunk);
    lemma_keeps_itself(a0.inner.env);
    let n = a0.inner.vectors@[slot]@.len() - 1;
    assert(a0.inner.vectors@.len() == 435);
    assert forall|promised: Set<int>| #[trigger] owns_with(a0, s, promised) implies {
        &&& owns_with(a1, s, promised)
        &&& endures(a0, s, a1, s, promised)
        &&& slot < 216 ==> owned(a1, s, promised, elem as int)
        &&& 432 <= slot ==> is_placed(a1.inner.env, elem as int, held_size(slot))
    } by {
        lemma_endures(a0, s, a1, s, promised);
        assert(slot < 216 ==> owned(a0, s, promised, a0.inner.vectors@[slot]@[n] as int)) by {
            reveal(owns_with);
        }
        assert(432 <= slot ==> is_placed(
            a0.inner.env,
            a0.inner.vectors@[slot]@[n] as int,
            held_size(slot),
        )) by {
            reveal(owns_with);
        }
        assert(s matches Some(st) ==> chain_placed(a1.inner.env, st.chain())) by {
            reveal(owns_with);
        }
        lemma_all_passes(a0, a1, s, promised);
        assert forall|k: int| 0 <= k < 435 implies #[trigger] slot_passes(
            a0,
            a1,
            s,
            promised,
            k,
        ) by {
            if k == slot {
                let v1 = a1.inner.vectors@[k];
                assert forall|i: int| 0 <= i < v1@.len() implies a0.inner.vectors@[k]@.contains(
                    #[trigger] v1@[i],
                ) by {
                    assert(a0.inner.vectors@[k]@[i] == v1@[i]);
                }
                assert(a1.cap_of(k) == a0.cap_of(k));
            } else {
                assert(a1.inner.vectors@[k] == a0.inner.vectors@[k]);
            }
        }
        assert(a1.incoming() == a0.incoming());
        lemma_owns_after(a0, s, a1, s, promised);
    }
}

/// Elements that are appended to a vector of objects or of carved chunks.
pub proof fn lemma_passes_pushed<N: NonLocalPtrManager>(
    a0: ThreadLocalAllocator<N>,
    s: Option<State>,
    a1: ThreadLocalAllocator<N>,
    slot: int,
    elem: usize,
)
    requires
        a0.wf(),
        0 <= slot < 432,
        only_elems_changed(a0, a1),
        a1.inner.vectors@ == a0.inner.vectors@.update(slot, a1.inner.vectors@[slot]),
        a1.inner.vectors@[slot]@ == a0.inner.vectors@[slot]@.push(elem),
    ensures
        passes(a0, s, a1, s, (elem as int, held_size(slot), 0, 0)),
{
    reveal(passes);
    lemma_keeps_itself(a0.inner.env);
    assert(a0.inner.vectors@.len() == 435);
    if slot < 216 {
        lemma_class(slot);
    }
    assert forall|promised: Set<int>| #[trigger]
        owns_with(a0, s, promised) && (is_object(held_size(slot)) ==> owned(
            a0,
            s,
            promised,
            elem as int,
        )) implies owns_with(a1, s, promised) && endures(a0, s, a1, s, promised) by {
        lemma_endures(a0, s, a1, s, promised);
        assert(slot < 216 ==> owned(a1, s, promised, elem as int));
        assert(s matches Some(st) ==> chain_placed(a1.inner.env, st.chain())) by {
            reveal(owns_with);
        }
        lemma_all_passes(a0, a1, s, promised);
        assert forall|k: int| 0 <= k < 435 implies #[trigger] slot_passes(
            a0,
            a1,
            s,
            promised,
            k,
        ) by {
            if k == slot {
                let v0 = a0.inner.vectors@[k];
                let v1 = a1.inner.vectors@[k];
                assert forall|i: int| 0 <= i < v1@.len() implies v0@.contains(#[trigger] v1@[i])
                    || i == v0@.len() by {
                    if i < v0@.len() {
                        assert(v0@[i] == v1@[i]);
                    }
                }
                assert(a1.cap_of(k) == a0.cap_of(k));
            } else {
                assert(a1.inner.vectors@[k] == a0.inner.vectors@[k]);
            }
        }
        assert(a1.incoming() == a0.incoming());
        lemma_owns_after(a0, s, a1, s, promised);
    }
}

/// A vector that has got another buffer.
pub proof fn lemma_passes_buffer<N: NonLocalPtrManager>(
    a0: ThreadLocalAllocator<N>,
    s: Option<State>,
    a1: ThreadLocalAllocator<N>,
    slot: int,
    ptr: int,
    bytes: int,
    old_ptr: int,
    old_bytes: int,
)
    requires
        a0.wf(),
        0 <= slot < 435,
        a1.inner == (ThreadLocalAllocatorInner { vectors: a1.inner.vectors, ..a0.inner }),
        a1.non_local_ptr_manager == a0.non_local_ptr_manager,
        a1.inner.vectors@.len() == 435,
        forall|i: int|
            #![trigger a1.inner.vectors@[i]]
            0 <= i < 435 && i != slot ==> a1.inner.vectors@[i] == a0.inner.vectors@[i],
        a1.inner.vectors@[slot]@ == a0.inner.vectors@[slot]@,
        a1.inner.vectors@[slot].ptr == ptr,
        bytes == buffer_bytes(slot, a1.inner.vectors@[slot]),
        bytes > 0,
        old_ptr == a0.inner.vectors@[slot].ptr,
        old_bytes == buffer_bytes(slot, a0.inner.vectors@[slot]),
    ensures
        passes(a0, s, a1, s, (ptr, bytes, old_ptr, old_bytes)),
{
    reveal(passes);
    lemma_keeps_itself(a0.inner.env);
    assert forall|promised: Set<int>| #[trigger]
        owns_with(a0, s, promised) && (is_object(bytes) ==> owned(
            a0,
            s,
            promised,
            ptr,
        )) implies owns_with(a1, s, promised) && endures(a0, s, a1, s, promised) && (is_object(
        old_bytes,
    ) ==> owned(a1, s, promised, old_ptr)) by {
        lemma_endures(a0, s, a1, s, promised);
        assert(is_object(old_bytes) ==> owned(a0, s, promised, old_ptr)) by {
            reveal(owns_with);
            assert(owns_buffer(a0, s, promised, slot));
        }
        assert(is_object(bytes) ==> owned(a1, s, promised, ptr));
        assert(s matches Some(st) ==> chain_placed(a1.inner.env, st.chain())) by {
            reveal(owns_with);
        }
        lemma_all_passes(a0, a1, s, promised);
        assert forall|k: int| 0 <= k < 435 implies #[trigger] slot_passes(
            a0,
            a1,
            s,
            promised,
            k,
        ) by {
            if k == slot {
                let v1 = a1.inner.vectors@[k];
                assert forall|i: int| 0 <= i < v1@.len() implies a0.inner.vectors@[k]@.contains(
                    #[trigger] v1@[i],
                ) by {
                    assert(a0.inner.vectors@[k]@[i] == v1@[i]);
                }
                assert(owns_buffer(a1, s, promised, k));
            } else {
                assert(a1.inner.vectors@[k] == a0.inner.vectors@[k]);
            }
        }
        assert(a1.incoming() == a0.incoming());
        lemma_owns_after(a0, s, a1, s, promised);
    }
}

/// A block that serves the allocator itself from now on.
pub proof fn lemma_passes_block<N: NonLocalPtrManager>(
    a0: ThreadLocalAllocator<N>,
    s: Option<State>,
    a1: ThreadLocalAllocator<N>,
    ptr: int,
    size: int,
)
    requires
        a1.inner.env == a0.inner.env,
        a1.inner.vectors == a0.inner.vectors,
        a1.inner.common_chunk_table == a0.inner.common_chunk_table || a1.inner.common_chunk_table
            == ptr && is_object(size),
        a1.inner.large_chunk_table == a0.inner.large_chunk_table || a1.inner.large_chunk_table
            == ptr && is_object(size),
        a1.inner.manager_ptr == a0.inner.manager_ptr && a1.inner.manager_block
            == a0.inner.manager_block || a0.inner.manager_ptr == 0 && a1.inner.manager_ptr == ptr
            && (is_object(size) || a1.inner.manager_block == 0),
        forall|i: int|
            0 <= i < a1.inner.allocated_large_sizes.nodes@.len() ==> i
                < a0.inner.allocated_large_sizes.nodes@.len() && (
            #[trigger] a1.inner.allocated_large_sizes.nodes@[i])
                == a0.inner.allocated_large_sizes.nodes@[i]
                || a1.inner.allocated_large_sizes.nodes@[i] == ptr && is_object(size),
        a1.incoming() == a0.incoming() || a1.incoming().len() == 0,
    ensures
        passes(a0, s, a1, s, (ptr, size, 0, 0)),
{
    reveal(passes);
    lemma_keeps_itself(a0.inner.env);
    assert forall|promised: Set<int>| #[trigger]
        owns_with(a0, s, promised) && (is_object(size) ==> owned(
            a0,
            s,
            promised,
            ptr,
        )) implies owns_with(a1, s, promised) && endures(a0, s, a1, s, promised) by {
        lemma_endures(a0, s, a1, s, promised);
        assert(is_object(size) ==> owned(a1, s, promised, ptr));
        assert(s matches Some(st) ==> chain_placed(a1.inner.env, st.chain())) by {
            reveal(owns_with);
        }
        lemma_all_passes(a0, a1, s, promised);
        let nodes0 = a0.inner.allocated_large_sizes.nodes@;
        let nodes1 = a1.inner.allocated_large_sizes.nodes@;
        assert forall|i: int| 0 <= i < nodes1.len() implies nodes0.contains(#[trigger] nodes1[i])
            || owned(a1, s, promised, nodes1[i] as int) by {
            if i < nodes0.len() && nodes1[i] == nodes0[i] {
                assert(nodes0[i] == nodes1[i]);
            }
        }
        assert(blocks_pass(a0, a1, s, promised));
        assert forall|k: int| 0 <= k < 435 implies #[trigger] slot_passes(
            a0,
            a1,
            s,
            promised,
            k,
        ) by {
            assert(a1.inner.vectors@[k] == a0.inner.vectors@[k]);
        }
        lemma_owns_after(a0, s, a1, s, promised);
    }
}

/// A node of the map that is given up.
pub proof fn lemma_passes_node<N: NonLocalPtrManager>(
    a0: ThreadLocalAllocator<N>,
    a1: ThreadLocalAllocator<N>,
    ptr: int,
)
    requires
        a1.inner == (ThreadLocalAllocatorInner {
            allocated_large_sizes: a1.inner.allocated_large_sizes,
            ..a0.inner
        }),
        a1.non_local_ptr_manager == a0.non_local_ptr_manager,
        a0.inner.allocated_large_sizes.nodes@.len() > 0,
        ptr == a0.inner.allocated_large_sizes.nodes@.last(),
        a1.inner.allocated_large_sizes.nodes@
            == a0.inner.allocated_large_sizes.nodes@.drop_last(),
    ensures
        passes(a0, None, a1, None, (0, 0, ptr, 192)),
{
    lemma_passes_block(a0, None, a1, 0, 0);
    reveal(passes);
    let none = None::<State>;
    let n = a0.inner.allocated_large_sizes.nodes@.len() - 1;
    assert forall|promised: Set<int>| #[trigger] owns_with(a0, none, promised) implies owned(
        a1,
        none,
        promised,
        ptr,
    ) by {
        assert(owned(a0, none, promised, a0.inner.allocated_large_sizes.nodes@[n] as int)) by {
            reveal(owns_with);
        }
        assert(endures(a0, none, a1, none, promised));
    }
}

/// A list of regions that has changed.
pub proof fn lemma_passes_regions<N: NonLocalPtrManager>(
    a0: ThreadLocalAllocator<N>,
    s: Option<State>,
    a1: ThreadLocalAllocator<N>,
)
    requires
        a0.wf(),
        kept_but_regions(a0.inner, a1.inner),
        a1.non_local_ptr_manager == a0.non_local_ptr_manager,
    ensures
        passes(a0, s, a1, s, (0, 0, 0, 0)),
{
    reveal(passes);
    assert(a1.incoming() == a0.incoming());
    assert(a0.inner.env.actions@.is_prefix_of(a1.inner.env.actions@)) by {
        reveal(follows);
    }
    lemma_same_metadata(a0.inner.env, a1.inner.env);
    assert forall|promised: Set<int>| #[trigger] owns_with(a0, s, promised) implies owns_with(
        a1,
        s,
        promised,
    ) && endures(a0, s, a1, s, promised) by {
        lemma_endures(a0, s, a1, s, promised);
        lemma_stays_placed(a0.inner.env, a1.inner.env);
        reveal(keeps_metadata);
        assert(s matches Some(st) ==> chain_placed(a1.inner.env, st.chain())) by {
            reveal(owns_with);
        }
        lemma_all_passes(a0, a1, s, promised);
        assert forall|k: int| 0 <= k < 435 implies #[trigger] slot_passes(
            a0,
            a1,
            s,
            promised,
            k,
        ) by {
            if k < 434 {
                assert(a1.inner.vectors@[k] == a0.inner.vectors@[k]);
            }
        }
        lemma_owns_after(a0, s, a1, s, promised);
    }
}

/// Blocks that are too large for a chunk have no owner.
pub proof fn lemma_passes_great<N: NonLocalPtrManager>(
    a0: ThreadLocalAllocator<N>,
    s0: Option<State>,
    a1: ThreadLocalAllocator<N>,
    s1: Option<State>,
    gave: (int, int),
    got: (int, int),
)
    requires
        passes(a0, s0, a1, s1, (0, 0, 0, 0)),
        !is_object(got.1),
    ensures
        passes(a0, s0, a1, s1, (gave.0, gave.1, got.0, got.1)),
{
    reveal(passes);
}

/// What carving a chunk does to what is owned: where the chunk is placed, its objects are owned,
/// and so is the one that is handed out.
#[verifier::opaque]
pub open spec fn passes_chunk<N: NonLocalPtrManager>(
    a0: ThreadLocalAllocator<N>,
    s0: Option<State>,
    a1: ThreadLocalAllocator<N>,
    s1: Option<State>,
    chunk: int,
    chunk_size: int,
    ptr: int,
) -> bool {
    forall|promised: Set<int>| #[trigger]
        owns_with(a0, s0, promised) && is_placed(a0.inner.env, chunk, chunk_size) ==> {
            &&& owns_with(a1, s1, promised)
            &&& endures(a0, s0, a1, s1, promised)
            &&& owned(a1, s1, promised, ptr)
        }
}

/// Noting that the manager of the allocator owns chunks.
pub proof fn lemma_noted<N: NonLocalPtrManager>(
    a0: ThreadLocalAllocator<N>,
    s: Option<State>,
    a1: ThreadLocalAllocator<N>,
    promised: Set<int>,
)
    requires
        a1.inner.manager_ptr == a0.inner.manager_ptr,
        a0.inner.manager_ptr != 0,
        only_metadata_changed(a0.inner.env, a1.inner.env),
        forall|key: usize| #[trigger]
            metadata_or_zero(a1.inner.env, key) == metadata_or_zero(a0.inner.env, key) || (
            metadata_or_zero(a1.inner.env, key) is Some && metadata_or_zero(
                a1.inner.env,
                key,
            )->0.non_local_ptr_manager == a0.inner.manager_ptr),
        forall|at: int|
            0 < at <= usize::MAX && #[trigger] metadata_at(a1.inner.env, at) != metadata_at(
                a0.inner.env,
                at,
            ) ==> is_usable(a1.inner.env, at),
    ensures
        endures(a0, s, a1, s, promised),
{
    assert(notes(a0, a1)) by {
        assert forall|at: int, m: usize|
            m != 0 && 0 < at <= usize::MAX && #[trigger] names(a1.inner.env, at, m) implies names(
            a0.inner.env,
            at,
            m,
        ) || m == a1.inner.manager_ptr && is_usable(a1.inner.env, at) by {
            let key = metadata_of(a0.inner.env.region_size as int, at) as usize;
            assert(metadata_at(a1.inner.env, at) == metadata_or_zero(a1.inner.env, key));
            assert(metadata_at(a0.inner.env, at) == metadata_or_zero(a0.inner.env, key));
        }
    }
    assert forall|at: int| owned(a0, s, promised, at) implies #[trigger] owned(
        a1,
        s,
        promised,
        at,
    ) by {
        assert(a1.inner.env.pool(at) == a0.inner.env.pool(at));
        if is_local(a0, at) {
            let key = metadata_of(a0.inner.env.region_size as int, at) as usize;
            assert(metadata_at(a1.inner.env, at) == metadata_or_zero(a1.inner.env, key));
            assert(metadata_at(a0.inner.env, at) == metadata_or_zero(a0.inner.env, key));
        }
    }
}

/// Metadata that is among that of a chunk is that of a byte of the same region.
proof fn lemma_key_region(region_size: int, chunk: int, at: int, n: int)
    requires
        is_region_size(region_size),
        0 < chunk,
        0 < at <= usize::MAX,
        1 <= n <= 8,
    ensures
        0 <= metadata_of(region_size, at) <= at,
        is_metadata_key(metadata_of(region_size, chunk), n, metadata_of(region_size, at))
            ==> region_of(region_size, at) == region_of(region_size, chunk),
{
    lemma_region_size(region_size);
    let region = region_of(region_size, chunk);
    let idx = (chunk % region_size) / 65536;
    let key = metadata_of(region_size, at);
    vstd::arithmetic::div_mod::lemma_fundamental_div_mod(chunk, region_size);
    vstd::arithmetic::div_mod::lemma_mod_bound(chunk, region_size);
    vstd::arithmetic::div_mod::lemma_fundamental_div_mod(at, region_size);
    vstd::arithmetic::div_mod::lemma_mod_bound(at, region_size);
    let q = chunk / region_size;
    let p = at / region_size;
    vstd::arithmetic::div_mod::lemma_div_pos_is_pos(at, region_size);
    assert(region_of(region_size, at) == region_size * p);
    assert(region == region_size * q);
    assert(0 <= region_size * p) by (nonlinear_arith)
        requires
            0 <= p,
            0 < region_size,
    ;
    assert(0 <= idx < 512);
    if is_metadata_key(metadata_of(region_size, chunk), n, key) {
        vstd::arithmetic::div_mod::lemma_fundamental_div_mod(key - metadata_of(region_size, chunk), 24);
        assert(region <= key < region + 65536);
        assert(q == p) by (nonlinear_arith)
            requires
                region_size * q - region_size * p < 65536,
                region_size * p - region_size * q < 65536,
                region_size >= 65536,
        ;
    }
}

/// A chunk whose objects are free but for the last one, and whose owner is noted.
pub proof fn lemma_passes_carved<N: NonLocalPtrManager>(
    a0: ThreadLocalAllocator<N>,
    s: Option<State>,
    a1: ThreadLocalAllocator<N>,
    a2: ThreadLocalAllocator<N>,
    class: int,
    chunk: usize,
)
    requires
        a0.wf(),
        0 <= class < 216,
        a0.inner.manager_ptr != 0,
        only_elems_changed(a0, a1),
        a1.inner.vectors@ == a0.inner.vectors@.update(class, a1.inner.vectors@[class]),
        a1.inner.vectors@[class]@ == a0.inner.vectors@[class]@ + run_of_blocks(
            chunk as int,
            class_size(class),
            slots_of_class(class) - 1,
        ),
        noted_owner(a1, a2, class, chunk as int, a0.inner.manager_ptr),
    ensures
        passes_chunk(
            a0,
            s,
            a2,
            s,
            chunk as int,
            chunk_size_of_class(class),
            last_object(class, chunk as int),
        ),
{
    reveal(passes_chunk);
    lemma_class(class);
    let size = class_size(class);
    let slots = slots_of_class(class);
    assert(a0.inner.vectors@.len() == 435);
    assert forall|promised: Set<int>| #[trigger]
        owns_with(a0, s, promised) && is_placed(
            a0.inner.env,
            chunk as int,
            chunk_size_of_class(class),
        ) implies {
        &&& owns_with(a2, s, promised)
        &&& endures(a0, s, a2, s, promised)
        &&& owned(a2, s, promised, last_object(class, chunk as int))
    } by {
        assert forall|key: usize| #[trigger]
            metadata_or_zero(a2.inner.env, key) == metadata_or_zero(a0.inner.env, key) || (
            metadata_or_zero(a2.inner.env, key) is Some && metadata_or_zero(
                a2.inner.env,
                key,
            )->0.non_local_ptr_manager == a0.inner.manager_ptr) by {
            assert(metadata_or_zero(a1.inner.env, key) == metadata_or_zero(a0.inner.env, key));
        }
        assert forall|at: int|
            0 < at <= usize::MAX && #[trigger] metadata_at(a2.inner.env, at) != metadata_at(
                a0.inner.env,
                at,
            ) implies is_usable(a2.inner.env, at) by {
            let rs = a0.inner.env.region_size as int;
            let key = metadata_of(rs, at) as usize;
            assert(metadata_or_zero(a2.inner.env, key) == metadata_after(
                a1.inner.env,
                class,
                chunk as int,
                a0.inner.manager_ptr,
                key,
            ));
            lemma_key_region(
                rs,
                chunk as int,
                at,
                if class < 128 {
                    1
                } else {
                    8
                },
            );
            lemma_stays_committed(a0.inner.env, a2.inner.env);
        }
        lemma_noted(a0, s, a2, promised);
        assert forall|i: int| 0 <= i < slots implies #[trigger] owned(
            a2,
            s,
            promised,
            chunk + i * size,
        ) by {
            assert(0 <= i * size && i * size + size <= slots * size) by (nonlinear_arith)
                requires
                    0 <= i < slots,
                    8 <= size,
            ;
            let at = chunk + i * size;
            assert(a0.inner.env.pool(at) == 0);
            assert(a2.inner.env.pool(at) == a0.inner.env.pool(at));
            lemma_within_chunk(a0.inner.env.region_size as int, class, chunk as int, at);
            let key = metadata_of(a0.inner.env.region_size as int, at) as usize;
            assert(metadata_or_zero(a2.inner.env, key) == metadata_after(
                a1.inner.env,
                class,
                chunk as int,
                a0.inner.manager_ptr,
                key,
            ));
            assert(metadata_at(a2.inner.env, at) == metadata_or_zero(a2.inner.env, key));
        }
        assert(owned(a2, s, promised, chunk + (slots - 1) * size));
        assert(s matches Some(st) ==> chain_placed(a2.inner.env, st.chain())) by {
            reveal(owns_with);
            lemma_same_pool(a0.inner.env, a2.inner.env);
        }
        lemma_all_passes(a0, a2, s, promised);
        assert forall|k: int| 0 <= k < 435 implies #[trigger] slot_passes(
            a0,
            a2,
            s,
            promised,
            k,
        ) by {
            assert(a2.inner.vectors@[k] == a1.inner.vectors@[k]);
            if k == class {
                let v0 = a0.inner.vectors@[k];
                let v1 = a2.inner.vectors@[k];
                assert forall|i: int| 0 <= i < v1@.len() implies v0@.contains(#[trigger] v1@[i])
                    || owned(a2, s, promised, v1@[i] as int) by {
                    if i < v0@.len() {
                        assert(v0@[i] == v1@[i]);
                    } else {
                        let j = i - v0@.len();
                        assert(v1@[i] == run_of_blocks(chunk as int, size, slots - 1)[j]);
                        assert(owned(a2, s, promised, chunk + j * size));
                    }
                }
                assert(a1.cap_of(k) == a0.cap_of(k));
            } else {
                assert(a1.inner.vectors@[k] == a0.inner.vectors@[k]);
            }
        }
        assert(a2.incoming() == a0.incoming());
        assert forall|at: int| #[trigger] a2.inner.env.pool(at) <= a0.inner.env.pool(at) by {}
        lemma_owns_after(a0, s, a2, s, promised);
    }
}

/// A chunk that is carved after other operations.
pub proof fn lemma_carved_after<N: NonLocalPtrManager>(
    a0: ThreadLocalAllocator<N>,
    s0: Option<State>,
    a1: ThreadLocalAllocator<N>,
    s1: Option<State>,
    a2: ThreadLocalAllocator<N>,
    s2: Option<State>,
    chunk: int,
    chunk_size: int,
    ptr: int,
)
    requires
        passes(a0, s0, a1, s1, (0, 0, 0, 0)),
        follows(a0.inner.env, a1.inner.env),
        passes_chunk(a1, s1, a2, s2, chunk, chunk_size, ptr),
    ensures
        passes_chunk(a0, s0, a2, s2, chunk, chunk_size, ptr),
{
    reveal(passes);
    reveal(passes_chunk);
    lemma_pool_shrinks(a0.inner.env, a1.inner.env);
    assert forall|promised: Set<int>| #[trigger]
        owns_with(a0, s0, promised) && is_placed(a0.inner.env, chunk, chunk_size) implies {
        &&& owns_with(a2, s2, promised)
        &&& endures(a0, s0, a2, s2, promised)
        &&& owned(a2, s2, promised, ptr)
    } by {
        assert(owns_with(a1, s1, promised));
        lemma_placed_later(a0.inner.env, a1.inner.env, chunk, chunk_size);
        assert forall|at: int| owned(a0, s0, promised, at) implies #[trigger] owned(
            a2,
            s2,
            promised,
            at,
        ) by {
            assert(owned(a1, s1, promised, at));
        }
    }
}

/// A chunk that was taken and then carved.
pub proof fn lemma_taken_and_carved<N: NonLocalPtrManager>(
    a0: ThreadLocalAllocator<N>,
    a1: ThreadLocalAllocator<N>,
    s: Option<State>,
    a2: ThreadLocalAllocator<N>,
    s2: Option<State>,
    chunk: int,
    chunk_size: int,
    ptr: int,
    size: int,
)
    requires
        passes(a0, s, a1, s, (0, 0, 0, 0)),
        gives_chunk(a0, None, a1, chunk, chunk_size),
        passes_chunk(a1, s, a2, s2, chunk, chunk_size, ptr),
    ensures
        passes(a0, s, a2, s2, (0, 0, ptr, size)),
{
    reveal(passes);
    reveal(passes_chunk);
    reveal(gives_chunk);
    assert forall|promised: Set<int>| #[trigger] owns_with(a0, s, promised) implies {
        &&& owns_with(a2, s2, promised)
        &&& endures(a0, s, a2, s2, promised)
        &&& owned(a2, s2, promised, ptr)
    } by {
        let more = promised.union(Set::new(|at: int| is_promised(s, at)));
        lemma_owns_alike(a0, s, promised, None, more);
        assert(owns_with(a0, None, more));
        assert(is_placed(a1.inner.env, chunk, chunk_size));
        assert(owns_with(a1, s, promised));
        assert forall|at: int| owned(a0, s, promised, at) implies #[trigger] owned(
            a2,
            s2,
            promised,
            at,
        ) by {
            assert(owned(a1, s, promised, at));
        }
    }
}

/// A chunk that is kept with those that are not carved.
pub proof fn lemma_passes_kept<N: NonLocalPtrManager>(
    a0: ThreadLocalAllocator<N>,
    a1: ThreadLocalAllocator<N>,
    a2: ThreadLocalAllocator<N>,
    slot: int,
    added: Seq<usize>,
)
    requires
        a1.wf(),
        432 <= slot < 434,
        passes(a0, None, a1, None, (0, 0, 0, 0)),
        only_elems_changed(a1, a2),
        a2.inner.vectors@ == a1.inner.vectors@.update(slot, a2.inner.vectors@[slot]),
        a2.inner.vectors@[slot]@ == a1.inner.vectors@[slot]@ + added,
        forall|i: int|
            0 <= i < added.len() ==> gives_chunk(
                a0,
                None,
                a1,
                #[trigger] added[i] as int,
                held_size(slot),
            ),
    ensures
        passes(a0, None, a2, None, (0, 0, 0, 0)),
{
    reveal(passes);
    reveal(gives_chunk);
    let none = None::<State>;
    lemma_keeps_itself(a1.inner.env);
    assert(a1.inner.vectors@.len() == 435);
    assert forall|promised: Set<int>| #[trigger] owns_with(a0, none, promised) implies owns_with(
        a2,
        none,
        promised,
    ) && endures(a0, none, a2, none, promised) by {
        assert(owns_with(a1, none, promised));
        lemma_endures(a1, none, a2, none, promised);
        lemma_all_passes(a1, a2, none, promised);
        assert forall|k: int| 0 <= k < 435 implies #[trigger] slot_passes(
            a1,
            a2,
            none,
            promised,
            k,
        ) by {
            if k == slot {
                let v0 = a1.inner.vectors@[k];
                let v1 = a2.inner.vectors@[k];
                assert forall|i: int| 0 <= i < v1@.len() implies v0@.contains(#[trigger] v1@[i])
                    || is_placed(a2.inner.env, v1@[i] as int, held_size(slot)) by {
                    if i < v0@.len() {
                        assert(v0@[i] == v1@[i]);
                    } else {
                        assert(v1@[i] == added[i - v0@.len()]);
                    }
                }
                assert(a2.cap_of(k) == a1.cap_of(k));
            } else {
                assert(a2.inner.vectors@[k] == a1.inner.vectors@[k]);
            }
        }
        assert(a2.incoming() == a1.incoming());
        lemma_owns_after(a1, none, a2, none, promised);
        assert forall|at: int| owned(a0, none, promised, at) implies #[trigger] owned(
            a2,
            none,
            promised,
            at,
        ) by {
            assert(owned(a1, none, promised, at));
        }
    }
}

/// A chunk that was taken stays placed.
pub proof fn lemma_gives_later<N: NonLocalPtrManager>(
    a0: ThreadLocalAllocator<N>,
    s0: Option<State>,
    a1: ThreadLocalAllocator<N>,
    s1: Option<State>,
    a2: ThreadLocalAllocator<N>,
    a3: ThreadLocalAllocator<N>,
    chunk: int,
    size: int,
)
    requires
        passes(a0, s0, a1, s1, (0, 0, 0, 0)),
        gives_chunk(a1, s1, a2, chunk, size),
        follows(a2.inner.env, a3.inner.env),
    ensures
        gives_chunk(a0, s0, a3, chunk, size),
{
    reveal(passes);
    reveal(gives_chunk);
    assert forall|promised: Set<int>| #[trigger] owns_with(a0, s0, promised) implies is_placed(
        a3.inner.env,
        chunk,
        size,
    ) by {
        assert(owns_with(a1, s1, promised));
        lemma_placed_later(a2.inner.env, a3.inner.env, chunk, size);
    }
}

/// What an operation does to what is owned that has still to deal with the objects at `ptrs`: where
/// the allocator owned what it held, it owns what it holds, and these objects.
#[verifier::opaque]
pub open spec fn brings<N: NonLocalPtrManager>(
    a0: ThreadLocalAllocator<N>,
    s0: Option<State>,
    a1: ThreadLocalAllocator<N>,
    s1: Option<State>,
    ptrs: Seq<usize>,
) -> bool {
    forall|promised: Set<int>| #[trigger]
        owns_with(a0, s0, promised) ==> {
            &&& owns_with(a1, s1, promised)
            &&& endures(a0, s0, a1, s1, promised)
            &&& forall|i: int|
                0 <= i < ptrs.len() ==> owned(a1, s1, promised, #[trigger] ptrs[i] as int)
        }
}

/// Where nothing is left to deal with.
pub proof fn lemma_brings_nothing<N: NonLocalPtrManager>(
    a0: ThreadLocalAllocator<N>,
    s0: Option<State>,
    a1: ThreadLocalAllocator<N>,
    s1: Option<State>,
)
    ensures
        brings(a0, s0, a1, s1, Seq::empty()) <==> passes(a0, s0, a1, s1, (0, 0, 0, 0)),
{
    reveal(brings);
    reveal(passes);
}

/// One operation that has still to deal with objects, and one after it.
pub proof fn lemma_brings<N: NonLocalPtrManager>(
    a0: ThreadLocalAllocator<N>,
    s0: Option<State>,
    a1: ThreadLocalAllocator<N>,
    s1: Option<State>,
    a2: ThreadLocalAllocator<N>,
    s2: Option<State>,
    ptrs: Seq<usize>,
    more: Seq<usize>,
)
    requires
        brings(a0, s0, a1, s1, ptrs),
        brings(a1, s1, a2, s2, more),
    ensures
        brings(a0, s0, a2, s2, ptrs + more),
{
    reveal(brings);
    assert forall|promised: Set<int>| #[trigger] owns_with(a0, s0, promised) implies {
        &&& owns_with(a2, s2, promised)
        &&& endures(a0, s0, a2, s2, promised)
        &&& forall|i: int|
            0 <= i < (ptrs + more).len() ==> owned(
                a2,
                s2,
                promised,
                #[trigger] (ptrs + more)[i] as int,
            )
    } by {
        assert(owns_with(a1, s1, promised));
        assert forall|at: int| owned(a0, s0, promised, at) implies #[trigger] owned(
            a2,
            s2,
            promised,
            at,
        ) by {
            assert(owned(a1, s1, promised, at));
        }
        assert forall|i: int| 0 <= i < (ptrs + more).len() implies owned(
            a2,
            s2,
            promised,
            #[trigger] (ptrs + more)[i] as int,
        ) by {
            if i < ptrs.len() {
                assert(owned(a1, s1, promised, ptrs[i] as int));
            } else {
                assert((ptrs + more)[i] == more[i - ptrs.len()]);
            }
        }
    }
}

/// An object that was still to be dealt with, and is given back.
pub proof fn lemma_brought<N: NonLocalPtrManager>(
    a0: ThreadLocalAllocator<N>,
    s0: Option<State>,
    a1: ThreadLocalAllocator<N>,
    s1: Option<State>,
    a2: ThreadLocalAllocator<N>,
    s2: Option<State>,
    ptrs: Seq<usize>,
    k: int,
    size: int,
    rest: Seq<usize>,
)
    requires
        brings(a0, s0, a1, s1, ptrs),
        0 <= k < ptrs.len(),
        passes(a1, s1, a2, s2, (ptrs[k] as int, size, 0, 0)),
        forall|i: int| 0 <= i < rest.len() ==> ptrs.contains(#[trigger] rest[i]),
    ensures
        brings(a0, s0, a2, s2, rest),
{
    reveal(brings);
    reveal(passes);
    assert forall|promised: Set<int>| #[trigger] owns_with(a0, s0, promised) implies {
        &&& owns_with(a2, s2, promised)
        &&& endures(a0, s0, a2, s2, promised)
        &&& forall|i: int|
            0 <= i < rest.len() ==> owned(a2, s2, promised, #[trigger] rest[i] as int)
    } by {
        assert(owns_with(a1, s1, promised));
        assert(owned(a1, s1, promised, ptrs[k] as int));
        assert forall|at: int| owned(a0, s0, promised, at) implies #[trigger] owned(
            a2,
            s2,
            promised,
            at,
        ) by {
            assert(owned(a1, s1, promised, at));
        }
        assert forall|i: int| 0 <= i < rest.len() implies owned(
            a2,
            s2,
            promised,
            #[trigger] rest[i] as int,
        ) by {
            let j = ptrs.index_of(rest[i]);
            assert(ptrs[j] == rest[i]);
            assert(owned(a1, s1, promised, ptrs[j] as int));
        }
    }
}

/// The pointers that nodes bring.
pub open spec fn ptrs_of(nodes: Seq<Node>) -> Seq<usize> {
    Seq::new(nodes.len(), |i: int| nodes[i].value.ptr)
}

/// What has come in is taken out of the manager.
pub proof fn lemma_brings_incoming<N: NonLocalPtrManager>(
    a0: ThreadLocalAllocator<N>,
    a1: ThreadLocalAllocator<N>,
)
    requires
        a1.inner == a0.inner,
        a1.incoming().len() == 0,
    ensures
        brings(a0, None, a1, None, ptrs_of(a0.incoming())),
{
    let none = None::<State>;
    lemma_keeps_itself(a0.inner.env);
    lemma_passes_env(a0, none, a1, none);
    reveal(brings);
    reveal(passes);
    let ptrs = ptrs_of(a0.incoming());
    assert forall|promised: Set<int>| #[trigger] owns_with(a0, none, promised) implies {
        &&& owns_with(a1, none, promised)
        &&& endures(a0, none, a1, none, promised)
        &&& forall|i: int|
            0 <= i < ptrs.len() ==> owned(a1, none, promised, #[trigger] ptrs[i] as int)
    } by {
        assert forall|i: int| 0 <= i < ptrs.len() implies owned(
            a1,
            none,
            promised,
            #[trigger] ptrs[i] as int,
        ) by {
            assert(owned(a0, none, promised, a0.incoming()[i].value.ptr as int)) by {
                reveal(owns_with);
            }
        }
    }
}

/// The manager is noted as the owner of every byte of chunks that are taken over, and nothing else
/// is noted.
proof fn lemma_owner_noted(
    env: Environment,
    chunks: Seq<Chunk>,
    manager: usize,
    key: usize,
)
    ensures
        owner_at(env, chunks, manager, key) == metadata_or_zero(env, key) || (owner_at(
            env,
            chunks,
            manager,
            key,
        ) is Some && owner_at(env, chunks, manager, key)->0.non_local_ptr_manager == manager),
        owner_at(env, chunks, manager, key) == metadata_or_zero(env, key) || exists|i: int|
            0 <= i < chunks.len() && is_metadata_key(
                metadata_of(env.region_size as int, (#[trigger] chunks[i]).0 as int),
                if class_of(chunks[i].1 as int) < 128 {
                    1
                } else {
                    8
                },
                key as int,
            ),
        forall|i: int|
            0 <= i < chunks.len() && is_metadata_key(
                metadata_of(env.region_size as int, (#[trigger] chunks[i]).0 as int),
                if class_of(chunks[i].1 as int) < 128 {
                    1
                } else {
                    8
                },
                key as int,
            ) ==> owner_at(env, chunks, manager, key) is Some && owner_at(
                env,
                chunks,
                manager,
                key,
            )->0.non_local_ptr_manager == manager,
    decreases chunks.len(),
{
    if chunks.len() > 0 {
        lemma_owner_noted(env, chunks.drop_last(), manager, key);
        let front = chunks.drop_last();
        if owner_at(env, chunks, manager, key) != metadata_or_zero(env, key) {
            let last = chunks.len() - 1;
            if !is_metadata_key(
                metadata_of(env.region_size as int, chunks[last].0 as int),
                if class_of(chunks[last].1 as int) < 128 {
                    1
                } else {
                    8
                },
                key as int,
            ) {
                let i = choose|i: int|
                    0 <= i < front.len() && is_metadata_key(
                        metadata_of(env.region_size as int, (#[trigger] front[i]).0 as int),
                        if class_of(front[i].1 as int) < 128 {
                            1
                        } else {
                            8
                        },
                        key as int,
                    );
                assert(chunks[i] == front[i]);
            }
        }
        assert forall|i: int|
            0 <= i < chunks.len() && is_metadata_key(
                metadata_of(env.region_size as int, (#[trigger] chunks[i]).0 as int),
                if class_of(chunks[i].1 as int) < 128 {
                    1
                } else {
                    8
                },
                key as int,
            ) implies owner_at(env, chunks, manager, key) is Some && owner_at(
            env,
            chunks,
            manager,
            key,
        )->0.non_local_ptr_manager == manager by {
            if i < chunks.len() - 1 {
                assert(chunks.drop_last()[i] == chunks[i]);
            }
        }
    }
}

/// The objects that are left in carved chunks lie in them.
proof fn lemma_left_lies_in(chunks: Seq<Chunk>, common: bool, class: int, j: int)
    requires
        forall|i: int| 0 <= i < chunks.len() ==> #[trigger] used_chunk_wf(chunks[i], common),
        0 <= j < objects_left(chunks, class).len(),
    ensures
        exists|i: int|
            0 <= i < chunks.len() && lies_in(
                #[trigger] chunks[i],
                common,
                objects_left(chunks, class)[j] as int,
            ),
    decreases chunks.len(),
{
    if chunks.len() > 0 {
        let chunk = chunks.last();
        let before = chunks.drop_last();
        let n = objects_left(before, class).len();
        assert forall|i: int| 0 <= i < before.len() implies #[trigger] used_chunk_wf(
            before[i],
            common,
        ) by {
            assert(before[i] == chunks[i]);
        }
        if j < n {
            lemma_left_lies_in(before, common, class, j);
            let i = choose|i: int|
                0 <= i < before.len() && lies_in(
                    #[trigger] before[i],
                    common,
                    objects_left(before, class)[j] as int,
                );
            assert(objects_left(chunks, class)[j] == objects_left(before, class)[j]);
            assert(lies_in(chunks[i], common, objects_left(chunks, class)[j] as int));
        } else {
            let last = chunks.len() - 1;
            assert(used_chunk_wf(chunks[last], common));
            lemma_class_of(chunk.1 as int);
            lemma_class(class_of(chunk.1 as int));
            let i = j - n;
            let run = run_of_blocks(chunk.0 as int, chunk.1 as int, chunk.2 as int);
            assert(objects_left(chunks, class)[j] == run[i]);
            assert(0 <= i * chunk.1 && i * chunk.1 + chunk.1 <= slots_of_class(
                class_of(chunk.1 as int),
            ) * chunk.1) by (nonlinear_arith)
                requires
                    0 <= i < chunk.2,
                    chunk.2 < slots_of_class(class_of(chunk.1 as int)),
                    chunk.1 > 0,
            ;
            assert(run[i] == chunk.0 + i * chunk.1);
            assert(lies_in(chunks[last], common, objects_left(chunks, class)[j] as int));
        }
    }
}

/// The first node of a state that is taken over: its chunks name the manager.
proof fn lemma_node_owned<N: NonLocalPtrManager>(
    a0: ThreadLocalAllocator<N>,
    a1: ThreadLocalAllocator<N>,
    node: NodeView,
    at: int,
)
    requires
        a0.wf(),
        a0.inner.manager_ptr != 0,
        took_node(a0, a1, node, a0.inner.manager_ptr),
        node.wf(a0.inner.env.region_size as int),
        node_placed(a0.inner.env, node),
        node_carves(node, at),
    ensures
        is_local(a1, at),
        a1.inner.env.pool(at) == 0,
        0 < at <= usize::MAX,
{
    let manager = a0.inner.manager_ptr;
    let rs = a0.inner.env.region_size as int;
    let (common, i) = choose|common: bool, i: int|
        0 <= i < node.used(common).len() && lies_in(#[trigger] node.used(common)[i], common, at);
    let chunk = node.used(common)[i];
    assert(used_chunk_wf(chunk, common)) by {
        if common {
            assert(used_chunk_wf(node.used_common[i], true));
        } else {
            assert(used_chunk_wf(node.used_large[i], false));
        }
    }
    assert(is_placed(a0.inner.env, node.used(common)[i].0 as int, chunk_bytes(common)));
    let class = class_of(chunk.1 as int);
    lemma_class_of(chunk.1 as int);
    lemma_class(class);
    lemma_within_chunk(rs, class, chunk.0 as int, at);
    let key = metadata_of(rs, at) as usize;
    let chunks = node.used_common + node.used_large;
    let j = if common {
        i
    } else {
        node.used_common.len() + i
    };
    assert(chunks[j] == chunk);
    lemma_owner_noted(a0.inner.env, chunks, manager, key);
    assert(metadata_or_zero(a1.inner.env, key) == owner_at(a0.inner.env, chunks, manager, key));
    assert(metadata_at(a1.inner.env, at) == metadata_or_zero(a1.inner.env, key));
    assert(a0.inner.env.pool(at) == 0);
    assert(a1.inner.env.pool(at) == a0.inner.env.pool(at));
}

/// The first node of a state that is taken over. What holds the next one is still to be given
/// back.
#[verifier::rlimit(40)]
pub proof fn lemma_brings_node<N: NonLocalPtrManager>(
    a0: ThreadLocalAllocator<N>,
    st0: State,
    a1: ThreadLocalAllocator<N>,
    s1: Option<State>,
)
    requires
        a0.wf(),
        st0.wf(),
        st0.region_size == a0.inner.env.region_size,
        a0.inner.manager_ptr != 0,
        took_node(a0, a1, st0.chain()[0], a0.inner.manager_ptr),
        s1 is Some <==> st0.nodes@.len() > 1,
        s1 matches Some(st1) ==> st1.chain() == st0.chain().drop_first().update(
            0,
            NodeView { address: 0, ..st0.chain()[1] },
        ),
    ensures
        brings(
            a0,
            Some(st0),
            a1,
            s1,
            if s1 is Some {
                seq![st0.chain()[1].address]
            } else {
                Seq::empty()
            },
        ),
{
    reveal(brings);
    let s0 = Some(st0);
    let chain = st0.chain();
    let node = chain[0];
    let manager = a0.inner.manager_ptr;
    assert(node.wf(st0.region_size as int));
    assert(a0.inner.vectors@.len() == 435);
    let ptrs = if s1 is Some {
        seq![chain[1].address]
    } else {
        Seq::empty()
    };
    assert forall|promised: Set<int>| #[trigger] owns_with(a0, s0, promised) implies {
        &&& owns_with(a1, s1, promised)
        &&& endures(a0, s0, a1, s1, promised)
        &&& forall|i: int|
            0 <= i < ptrs.len() ==> owned(a1, s1, promised, #[trigger] ptrs[i] as int)
    } by {
        assert(chain_placed(a0.inner.env, chain)) by {
            reveal(owns_with);
        }
        assert(node_placed(a0.inner.env, node)) by {
            reveal(chain_placed);
        }
        assert forall|key: usize| #[trigger]
            metadata_or_zero(a1.inner.env, key) == metadata_or_zero(a0.inner.env, key) || (
            metadata_or_zero(a1.inner.env, key) is Some && metadata_or_zero(
                a1.inner.env,
                key,
            )->0.non_local_ptr_manager == manager) by {
            lemma_owner_noted(a0.inner.env, node.used_common + node.used_large, manager, key);
        }
        assert forall|at: int|
            0 < at <= usize::MAX && #[trigger] metadata_at(a1.inner.env, at) != metadata_at(
                a0.inner.env,
                at,
            ) implies is_usable(a1.inner.env, at) by {
            let rs = a0.inner.env.region_size as int;
            let key = metadata_of(rs, at) as usize;
            let chunks = node.used_common + node.used_large;
            lemma_owner_noted(a0.inner.env, chunks, manager, key);
            assert(metadata_or_zero(a1.inner.env, key) == owner_at(
                a0.inner.env,
                chunks,
                manager,
                key,
            ));
            lemma_key_region(rs, 1, at, 1);
            let i = choose|i: int|
                0 <= i < chunks.len() && is_metadata_key(
                    metadata_of(rs, (#[trigger] chunks[i]).0 as int),
                    if class_of(chunks[i].1 as int) < 128 {
                        1
                    } else {
                        8
                    },
                    key as int,
                );
            let common = i < node.used_common.len();
            let j = if common {
                i
            } else {
                i - node.used_common.len()
            };
            assert(node.used(common)[j] == chunks[i]);
            assert(is_placed(
                a0.inner.env,
                node.used(common)[j].0 as int,
                chunk_bytes(common),
            ));
            lemma_key_region(
                rs,
                chunks[i].0 as int,
                at,
                if class_of(chunks[i].1 as int) < 128 {
                    1
                } else {
                    8
                },
            );
            lemma_stays_committed(a0.inner.env, a1.inner.env);
        }
        lemma_noted(a0, s0, a1, promised);
        assert forall|at: int| owned(a0, s0, promised, at) implies #[trigger] owned(
            a1,
            s1,
            promised,
            at,
        ) by {
            assert(owned(a1, s0, promised, at));
            if !is_local(a1, at) && !promised.contains(at) {
                let k = choose|k: int| 0 <= k < chain.len() && node_carves(#[trigger] chain[k], at);
                if k == 0 {
                    lemma_node_owned(a0, a1, node, at);
                } else {
                    let st1 = s1->0;
                    lemma_same_carved(chain[k], st1.chain()[k - 1], at);
                    assert(node_carves(st1.chain()[k - 1], at));
                    assert(carves(st1.chain(), at));
                }
            }
        }
        assert forall|i: int| 0 <= i < ptrs.len() implies owned(
            a1,
            s1,
            promised,
            #[trigger] ptrs[i] as int,
        ) by {
            assert(chain[1].address != 0);
            assert(owned(a0, s0, promised, chain[1].address as int)) by {
                reveal(owns_with);
            }
        }
        if s1 is Some {
            let chain1 = s1->0.chain();
            assert(chain_placed(a1.inner.env, chain1)) by {
                lemma_same_pool(a0.inner.env, a1.inner.env);
                reveal(chain_placed);
                assert forall|k: int| 0 <= k < chain1.len() implies node_placed(
                    a1.inner.env,
                    #[trigger] chain1[k],
                ) by {
                    assert(chain_placed(a1.inner.env, chain));
                    assert(node_placed(a1.inner.env, chain[k + 1]));
                    lemma_same_placed(a1.inner.env, chain[k + 1], chain1[k]);
                }
            }
            assert forall|k: int|
                0 <= k < chain1.len() && (#[trigger] chain1[k]).address != 0 implies owned(
                a1,
                s1,
                promised,
                chain1[k].address as int,
            ) by {
                assert(chain1[k].address == chain[k + 1].address);
                assert(owned(a0, s0, promised, chain[k + 1].address as int)) by {
                    reveal(owns_with);
                }
            }
        }
        lemma_all_passes(a0, a1, s1, promised);
        assert forall|slot: int| 0 <= slot < 435 implies #[trigger] slot_passes(
            a0,
            a1,
            s1,
            promised,
            slot,
        ) by {
            lemma_slot_brought(a0, a1, s1, promised, node, slot);
        }
        assert(a1.incoming() == a0.incoming());
        assert forall|at: int| #[trigger] a1.inner.env.pool(at) <= a0.inner.env.pool(at) by {}
        lemma_owns_after(a0, s0, a1, s1, promised);
    }
}

/// Where a node is kept does not matter for what it has carved.
proof fn lemma_same_carved(n0: NodeView, n1: NodeView, at: int)
    requires
        n1 == (NodeView { address: n1.address, ..n0 }),
        node_carves(n0, at),
    ensures
        node_carves(n1, at),
{
    let (common, i) = choose|common: bool, i: int|
        0 <= i < n0.used(common).len() && lies_in(#[trigger] n0.used(common)[i], common, at);
    assert(n1.used(common) == n0.used(common));
    assert(lies_in(n1.used(common)[i], common, at));
}

/// Where a node is kept does not matter for where its chunks lie.
proof fn lemma_same_placed(env: Environment, n0: NodeView, n1: NodeView)
    requires
        n1 == (NodeView { address: n1.address, ..n0 }),
        node_placed(env, n0),
    ensures
        node_placed(env, n1),
{
    assert forall|common: bool, i: int| 0 <= i < n1.used(common).len() implies is_placed(
        env,
        (#[trigger] n1.used(common)[i]).0 as int,
        chunk_bytes(common),
    ) by {
        assert(n1.used(common)[i] == n0.used(common)[i]);
    }
}

/// What a node brings to a vector is owned, or placed where it is a chunk.
proof fn lemma_slot_brought<N: NonLocalPtrManager>(
    a0: ThreadLocalAllocator<N>,
    a1: ThreadLocalAllocator<N>,
    s1: Option<State>,
    promised: Set<int>,
    node: NodeView,
    slot: int,
)
    requires
        a0.wf(),
        a0.inner.manager_ptr != 0,
        took_node(a0, a1, node, a0.inner.manager_ptr),
        node.wf(a0.inner.env.region_size as int),
        node_placed(a0.inner.env, node),
        0 <= slot < 435,
    ensures
        slot_passes(a0, a1, s1, promised, slot),
{
    let v0 = a0.inner.vectors@[slot];
    let v1 = a1.inner.vectors@[slot];
    assert(v1@ == v0@ + node_brings(node, slot));
    assert(a1.cap_of(slot) == a0.cap_of(slot));
    if slot < 216 {
        let common = objects_left(node.used_common, slot);
        let large = objects_left(node.used_large, slot);
        assert forall|i: int| 0 <= i < v1@.len() implies v0@.contains(#[trigger] v1@[i]) || owned(
            a1,
            s1,
            promised,
            v1@[i] as int,
        ) by {
            if i < v0@.len() {
                assert(v0@[i] == v1@[i]);
            } else {
                let j = i - v0@.len();
                let at = v1@[i] as int;
                if j < common.len() {
                    assert(v1@[i] == common[j]);
                    lemma_left_lies_in(node.used_common, true, slot, j);
                    let h = choose|h: int|
                        0 <= h < node.used_common.len() && lies_in(
                            #[trigger] node.used_common[h],
                            true,
                            common[j] as int,
                        );
                    assert(lies_in(node.used(true)[h], true, at));
                } else {
                    let g = j - common.len();
                    assert(v1@[i] == large[g]);
                    lemma_left_lies_in(node.used_large, false, slot, g);
                    let h = choose|h: int|
                        0 <= h < node.used_large.len() && lies_in(
                            #[trigger] node.used_large[h],
                            false,
                            large[g] as int,
                        );
                    assert(lies_in(node.used(false)[h], false, at));
                }
                assert(node_carves(node, at));
                lemma_node_owned(a0, a1, node, at);
            }
        }
    } else if 432 <= slot < 434 {
        assert forall|i: int| 0 <= i < v1@.len() implies v0@.contains(#[trigger] v1@[i])
            || is_placed(a1.inner.env, v1@[i] as int, held_size(slot)) by {
            if i < v0@.len() {
                assert(v0@[i] == v1@[i]);
            } else {
                let j = i - v0@.len();
                let chunk = if slot == 432 {
                    node.free_common[j]
                } else {
                    node.free_large[j]
                };
                assert(v1@[i] == chunk.0);
                assert(is_placed(a0.inner.env, chunk.0 as int, held_size(slot)));
                assert forall|at: int| chunk.0 <= at < chunk.0 + held_size(slot) implies
                    #[trigger] a1.inner.env.pool(at) == 0 by {
                    assert(a0.inner.env.pool(at) == 0);
                }
            }
        }
    }
}

/// An allocator that holds nothing owns what it holds.
pub proof fn lemma_fresh_owns<N: NonLocalPtrManager>(a: ThreadLocalAllocator<N>)
    requires
        is_single(a.inner.env),
        forall|slot: int| 0 <= slot < 435 ==> #[trigger] a.len_of(slot) == 0 && a.cap_of(slot) == 0,
        a.inner.common_chunk_table == 0,
        a.inner.large_chunk_table == 0,
        a.inner.manager_block == 0,
        a.inner.allocated_large_sizes.nodes@.len() == 0,
        a.incoming().len() == 0,
    ensures
        owns(a),
{
    reveal(owns_with);
    assert forall|slot: int, i: int|
        0 <= slot < 435 && 0 <= i < a.inner.vectors@[slot]@.len() implies false && (
    #[trigger] a.inner.vectors@[slot]@[i]) == 0 by {
        assert(a.len_of(slot) == 0);
    }
    assert forall|slot: int| 0 <= slot < 435 implies #[trigger] owns_buffer(
        a,
        None,
        Set::empty(),
        slot,
    ) by {
        assert(a.len_of(slot) == 0);
        assert(a.cap_of(slot) == 0);
    }
}

/// A node that has come in with a pointer that belongs to the allocator.
pub proof fn lemma_received<N: NonLocalPtrManager>(
    a0: ThreadLocalAllocator<N>,
    a1: ThreadLocalAllocator<N>,
    node: Node,
)
    requires
        owns(a0),
        a1.inner == a0.inner,
        a1.incoming() == a0.incoming().push(node) || a1.incoming() == a0.incoming(),
        owned(a0, None, Set::empty(), node.value.ptr as int),
    ensures
        owns(a1),
{
    reveal(owns_with);
    let none = None::<State>;
    assert forall|at: int| #[trigger] owned(a1, none, Set::empty(), at) == owned(
        a0,
        none,
        Set::empty(),
        at,
    ) by {}
    assert forall|slot: int| 0 <= slot < 435 implies #[trigger] owns_buffer(
        a1,
        none,
        Set::empty(),
        slot,
    ) by {
        assert(owns_buffer(a0, none, Set::empty(), slot));
    }
    assert forall|slot: int, i: int|
        0 <= slot < 216 && 0 <= i < a1.inner.vectors@[slot]@.len() implies owned(
        a1,
        none,
        Set::empty(),
        #[trigger] a1.inner.vectors@[slot]@[i] as int,
    ) by {
        assert(owned(a0, none, Set::empty(), a0.inner.vectors@[slot]@[i] as int));
    }
    assert forall|i: int| 0 <= i < a1.inner.allocated_large_sizes.nodes@.len() implies owned(
        a1,
        none,
        Set::empty(),
        #[trigger] a1.inner.allocated_large_sizes.nodes@[i] as int,
    ) by {
        assert(owned(
            a0,
            none,
            Set::empty(),
            a0.inner.allocated_large_sizes.nodes@[i] as int,
        ));
    }
    assert forall|i: int| 0 <= i < a1.incoming().len() implies owned(
        a1,
        none,
        Set::empty(),
        (#[trigger] a1.incoming()[i]).value.ptr as int,
    ) by {
        if i < a0.incoming().len() {
            assert(owned(a0, none, Set::empty(), a0.incoming()[i].value.ptr as int));
        }
    }
}

/// What a request leaves behind where the allocator owned what it held: it still does, an object
/// that it has handed out belongs to it, and so does every object that did before.
pub open spec fn hands_out_own<N: NonLocalPtrManager>(
    a0: ThreadLocalAllocator<N>,
    a1: ThreadLocalAllocator<N>,
    size: int,
    ptr: Option<usize>,
) -> bool {
    owns(a0) ==> {
        &&& owns(a1)
        &&& notes(a0, a1)
        &&& ptr is Some && is_object(size) ==> is_own(a1, ptr->0)
        &&& forall|p: usize| is_own(a0, p) ==> #[trigger] is_own(a1, p)
    }
}

/// Whether an object belongs to the allocator and no mapping that waits holds it: it can be given
/// back.
pub open spec fn is_own<N: NonLocalPtrManager>(a: ThreadLocalAllocator<N>, ptr: usize) -> bool {
    &&& 0 < ptr
    &&& is_local(a, ptr as int)
    &&& a.inner.env.pool(ptr as int) == 0
}

/// What passes is handed out as the allocator's own.
pub proof fn lemma_hands_out_own<N: NonLocalPtrManager>(
    a0: ThreadLocalAllocator<N>,
    a1: ThreadLocalAllocator<N>,
    gave: (int, int),
    got: (int, int),
)
    requires
        passes(a0, None, a1, None, (gave.0, gave.1, got.0, got.1)),
        owns(a0),
        is_object(gave.1) ==> 0 < gave.0 <= usize::MAX && is_own(a0, gave.0 as usize),
    ensures
        owns(a1),
        notes(a0, a1),
        is_object(got.1) ==> 0 < got.0 <= usize::MAX && is_own(a1, got.0 as usize),
        forall|p: usize| is_own(a0, p) ==> #[trigger] is_own(a1, p),
{
    reveal(passes);
    let none = None::<State>;
    let nothing = Set::<int>::empty();
    assert(owns_with(a0, none, nothing));
    if is_object(gave.1) {
        assert(owned(a0, none, nothing, gave.0));
    }
    assert(endures(a0, none, a1, none, nothing));
    assert forall|p: usize| is_own(a0, p) implies #[trigger] is_own(a1, p) by {
        assert(owned(a0, none, nothing, p as int));
        assert(owned(a1, none, nothing, p as int));
    }
    if is_object(got.1) {
        assert(owned(a1, none, nothing, got.0));
    }
}

} // verus!
