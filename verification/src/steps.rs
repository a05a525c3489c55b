//! What single steps do to the accounts.
use crate::accounts::{
    bound_hit, broke, calm, caps_kept, carries, chunks_left, counts, done, evolves, failed,
    has_tables, holds, is_counted, keeps, keeps_sizes, lemma_alike, lemma_bound_after, lemma_broke,
    lemma_broke_after, lemma_carries, lemma_counts, lemma_holds, lemma_lift, lemma_regions_same,
    lemma_regions_stay, lemma_sizes_same, lemma_spare, lemma_state_cover, lemma_step, live, node_wf,
    ready, regions_committed, served, slack, spared, steady, step, took_chunk, total, turned_down,
};
use crate::blocks::{
    blocks_cover, covers, lemma_blocks_cover_add, lemma_blocks_cover_nonnegative, rests_cover,
    Chunk,
};
use crate::btree_map::lemma_map_of;
use crate::chunk_manager::{kept_but_regions, same_accounts};
use crate::commitment::committing;
use crate::deallocation::has_no_owner;
use crate::failures::PanicCause;
use crate::incoming::{brought_back, taking, took_but_message, took_exactly, way_home, ways_home};
use crate::inner::{
    elem_out, elem_potential, elem_weight, elem_wf, held_size, is_of_class, slot_wf,
    ThreadLocalAllocatorInner,
};
use crate::non_local_ptr_manager::{
    lemma_nodes_nonnegative, lemma_nodes_push, nodes_abroad, nodes_cover, nodes_of_class, Message,
    Node, NonLocalPtrManager,
};
use crate::os::{follows, lemma_follows, lemma_region_bytes, short, traded, Environment};
use crate::ownership::{
    gives_chunk, is_object, lemma_brings, lemma_brings_node, lemma_brings_nothing, lemma_brought,
    lemma_passes, lemma_passes_block, lemma_passes_env, lemma_passes_great, lemma_passes_node,
    lemma_passes_popped, lemma_passes_region, lemma_passes_regions, lemma_passes_state, owns_with,
    passes, ptrs_of,
};
use crate::placement::{
    chain_committed, is_committed, lemma_keeps_itself, lemma_metadata_unwritten, lemma_pool_shrinks,
    lemma_refusal_settles, lemma_region_settles, lemma_same_metadata, lemma_stays_committed,
    settles,
};
use crate::preparation::prepared;
use crate::region::{commits, lemma_region_brings, only_metadata_changed, region_taken};
use crate::sizes::{
    chunk_size_of_class, class_of, class_size, large_id, lemma_class, lemma_class_of, recommended,
    slots_of_class, LARGE_SIZE_MAX,
};
use crate::state::{
    chain_cover, chain_out, fresh_node, grows, handed_out, handed_out_of, is_object_size,
    lemma_chain_front, lemma_chain_update, lemma_state_block, refused, state_block, took_from,
    used_chunk_wf, NodeView, State,
};
use crate::takeover::{
    chunks_of_class, free_slots, has_room_for_chunks, has_room_for_objects, only_filled, took_node,
};
use crate::thread_local_allocator::ThreadLocalAllocator;
use crate::used_objects::UsedObjectsFixed;
use crate::vectors::{only_elems_changed, pushed, reserved, tallies, Reserved};
use vstd::prelude::*;

verus! {

/// An environment that differs in its metadata or its outbox at most comes after the other.
proof fn lemma_env_follows<N: NonLocalPtrManager>(
    a0: ThreadLocalAllocator<N>,
    a1: ThreadLocalAllocator<N>,
)
    requires
        a1.inner.env == (Environment {
            metadata: a1.inner.env.metadata,
            outbox: a1.inner.env.outbox,
            ..a0.inner.env
        }),
        a0.inner.env.outbox@.is_prefix_of(a1.inner.env.outbox@),
    ensures
        follows(a0.inner.env, a1.inner.env),
{
    reveal(follows);
    lemma_region_bytes(a0.inner.env.region_size, 0, 0);
}

/// The same regions are listed.
proof fn lemma_listed_same<N: NonLocalPtrManager>(
    a0: ThreadLocalAllocator<N>,
    a1: ThreadLocalAllocator<N>,
)
    requires
        a1.inner.vectors == a0.inner.vectors,
    ensures
        forall|i: int|
            0 <= i < a1.inner.vectors@[434]@.len() ==> a0.inner.vectors@[434]@.contains(
                #[trigger] a1.inner.vectors@[434]@[i],
            ),
{
    assert forall|i: int| 0 <= i < a1.inner.vectors@[434]@.len() implies a0.inner.vectors@[434]@.contains(
        #[trigger] a1.inner.vectors@[434]@[i],
    ) by {
        assert(a0.inner.vectors@[434]@[i] == a1.inner.vectors@[434]@[i]);
    }
}

/// The region of the first node of a state that is taken over.
proof fn lemma_regions_taken_over<N: NonLocalPtrManager>(
    a0: ThreadLocalAllocator<N>,
    st0: State,
    a1: ThreadLocalAllocator<N>,
    s1: Option<State>,
)
    requires
        st0.wf(),
        took_node(a0, a1, st0.chain()[0], a0.inner.manager_ptr),
        s1 is Some <==> st0.nodes@.len() > 1,
        s1 matches Some(st1) ==> st1.chain() == st0.chain().drop_first().update(
            0,
            NodeView { address: 0, ..st0.chain()[1] },
        ),
    ensures
        regions_committed(a0, Some(st0)) ==> regions_committed(a1, s1),
{
    reveal(regions_committed);
    reveal(chain_committed);
    let chain = st0.chain();
    let list0 = a0.inner.vectors@[434]@;
    let list1 = a1.inner.vectors@[434]@;
    assert(list1 == list0 + seq![chain[0].region_ptr]);
    if regions_committed(a0, Some(st0)) {
        lemma_stays_committed(a0.inner.env, a1.inner.env);
        assert(is_committed(a0.inner.env, chain[0].region_ptr));
        assert forall|i: int| 0 <= i < list1.len() implies is_committed(
            a1.inner.env,
            #[trigger] list1[i],
        ) by {
            if i < list0.len() {
                assert(list1[i] == list0[i]);
            }
        }
        if s1 is Some {
            let chain1 = s1->0.chain();
            assert forall|k: int| 0 <= k < chain1.len() implies is_committed(
                a1.inner.env,
                (#[trigger] chain1[k]).region_ptr,
            ) by {
                assert(chain1[k].region_ptr == chain[k + 1].region_ptr);
                assert(is_committed(a0.inner.env, chain[k + 1].region_ptr));
            }
        }
    }
}

/// A step of the state that takes memory from it or from the mappings that wait.
pub proof fn lemma_state_step<N: NonLocalPtrManager>(
    a0: ThreadLocalAllocator<N>,
    st0: State,
    a1: ThreadLocalAllocator<N>,
    st1: State,
    ptr: int,
    size: int,
)
    requires
        ready(a0, Some(st0)),
        a1.inner == (ThreadLocalAllocatorInner { env: a1.inner.env, ..a0.inner }),
        a1.non_local_ptr_manager == a0.non_local_ptr_manager,
        grows(st0, a0.inner.env, st1, a1.inner.env),
        size > 0 ==> is_object_size(size) && took_from(
            st0,
            a0.inner.env,
            st1,
            a1.inner.env,
            ptr,
            size,
            class_of(size),
            0,
        ),
        size <= 0 ==> refused(st0, a0.inner.env, st1, a1.inner.env),
    ensures
        evolves(a0, Some(st0), a1, Some(st1)),
        holds(a0, Some(st0), a1, Some(st1), 0, 0, ptr, size),
        counts(a0, Some(st0), a1, Some(st1), 0, size),
        passes(a0, Some(st0), a1, Some(st1), (0, 0, ptr, size)),
        passes(a0, Some(st0), a1, Some(st1), (0, 0, 0, 0)),
        calm(a0, Some(st0), a1, Some(st1)),
        size <= 0 ==> turned_down(a0, a1) && spared(a0, Some(st0), a1, Some(st1)),
{
    reveal(spared);
    if size > 0 {
        lemma_class_of(size);
    }
    lemma_passes_state(a0, st0, a1, st1, ptr, size);
    reveal(holds);
    assert(regions_committed(a0, Some(st0)) ==> regions_committed(a1, Some(st1))) by {
        assert(chain_committed(a0.inner.env, st0.chain()) ==> chain_committed(
            a1.inner.env,
            st1.chain(),
        )) by {
            reveal(settles);
        }
        lemma_listed_same(a0, a1);
        lemma_regions_stay(a0, Some(st0), a1, Some(st1));
    }
    reveal(follows);
    reveal(counts);
    reveal(keeps);
    assert(a1.incoming() == a0.incoming());
    assert(a1.inner.parts() == a0.inner.parts());
    if a1.unread() == a0.unread() {
        let w = a0.inner.env.region_size as int / 65536;
        assert(w * a1.inner.env.unread() == w * a0.inner.env.unread());
    }
    assert forall|at: int| #[trigger]
        total(a1, Some(st1), at) + covers(ptr, size, at) <= total(a0, Some(st0), at) by {
        if size > 0 {
            assert(st1.cover(at) + a1.inner.env.pool(at) + covers(ptr, size, at) <= st0.cover(at)
                + a0.inner.env.pool(at));
        } else {
            assert(a1.inner.env.pool(at) <= a0.inner.env.pool(at));
        }
    }
    assert forall|class: int| 0 <= class < 216 implies #[trigger] live(a1, Some(st1), class)
        == live(a0, Some(st0), class) + is_of_class(size, class) by {
        if size > 0 {
            lemma_class_of(size);
            assert(st1.out(class) == st0.out(class) + (if 0 <= class_of(size) && class == class_of(
                size,
            ) {
                1int
            } else {
                0
            }));
        }
    }
}

/// A region that was refused.
pub proof fn lemma_refused_region<N: NonLocalPtrManager>(
    a0: ThreadLocalAllocator<N>,
    a1: ThreadLocalAllocator<N>,
)
    requires
        a0.wf(),
        a1.inner == (ThreadLocalAllocatorInner { env: a1.inner.env, ..a0.inner }),
        a1.non_local_ptr_manager == a0.non_local_ptr_manager,
        a1.inner.env.wf(),
        a1.inner.env.same_but_memory(a0.inner.env),
        region_taken(a0.inner.env, a1.inner.env, None),
    ensures
        evolves(a0, None, a1, None),
        holds(a0, None, a1, None, 0, 0, 0, 0),
        counts(a0, None, a1, None, 0, 0),
        passes(a0, None, a1, None, (0, 0, 0, 0)),
        calm(a0, None, a1, None),
        turned_down(a0, a1),
        spared(a0, None, a1, None),
{
    reveal(spared);
    lemma_refusal_settles(a0.inner.env, a1.inner.env);
    lemma_passes_env(a0, None, a1, None);
    reveal(holds);
    lemma_regions_same(a0, a1);
    reveal(follows);
    reveal(counts);
    reveal(keeps);
    assert(a1.incoming() == a0.incoming());
    assert(a1.inner.parts() == a0.inner.parts());
    assert forall|at: int| #[trigger]
        total(a1, None::<State>, at) <= total(a0, None::<State>, at) by {
        assert(a1.inner.env.pool(at) <= a0.inner.env.pool(at));
    }
}

/// A fresh region that a state is made of.
pub proof fn lemma_new_state<N: NonLocalPtrManager>(
    a0: ThreadLocalAllocator<N>,
    a1: ThreadLocalAllocator<N>,
    st: State,
    region: int,
)
    requires
        a0.wf(),
        a1.inner == (ThreadLocalAllocatorInner { env: a1.inner.env, ..a0.inner }),
        a1.non_local_ptr_manager == a0.non_local_ptr_manager,
        a1.inner.env.wf(),
        a1.inner.env.same_but_memory(a0.inner.env),
        0 <= region <= usize::MAX,
        region_taken(a0.inner.env, a1.inner.env, Some(region as usize)),
        st.wf(),
        st.nodes@.len() <= 1,
        st.region_size == a0.inner.env.region_size,
        st.chain() == seq![fresh_node(region, st.region_size as int)],
        st.weight() == a0.inner.env.region_size as int / 65536 - 1,
        forall|at: int| #[trigger]
            st.cover(at) <= covers(region, a0.inner.env.region_size as int, at),
        forall|class: int| #[trigger] st.out(class) == 0,
    ensures
        carries(a0, None, a1, Some(st)),
        holds(a0, None, a1, Some(st), 0, 0, 0, 0),
        counts(a0, None, a1, Some(st), 0, 0),
        passes(a0, None, a1, Some(st), (0, 0, 0, 0)),
        a1.unread() < a0.unread(),
{
    lemma_passes_region(a0, a1, st, region as usize);
    lemma_region_brings(a0.inner.env, a1.inner.env, region as usize);
    lemma_region_settles(a0.inner.env, a1.inner.env, region as usize);
    assert(regions_committed(a0, None) ==> regions_committed(a1, Some(st))) by {
        lemma_regions_same(a0, a1);
        reveal(regions_committed);
        reveal(chain_committed);
        assert(regions_committed(a0, None) ==> regions_committed(a1, None));
        assert(st.chain()[0].region_ptr == region);
    }
    reveal(holds);
    reveal(follows);
    reveal(counts);
    reveal(keeps);
    assert(a1.incoming() == a0.incoming());
    assert(a1.inner.parts() == a0.inner.parts());
    assert forall|at: int| #[trigger] total(a1, Some(st), at) <= total(a0, None::<State>, at) by {
        assert(a1.inner.env.pool(at) + covers(region, a0.inner.env.region_size as int, at)
            <= a0.inner.env.pool(at));
        assert(st.cover(at) <= covers(region, a0.inner.env.region_size as int, at));
    }
    assert forall|class: int| 0 <= class < 216 implies #[trigger] live(a1, Some(st), class) == live(
        a0,
        None::<State>,
        class,
    ) by {
        assert(st.out(class) == 0);
    }
}

/// An operation that leaves a state alone.
pub proof fn lemma_with_state<N: NonLocalPtrManager>(
    a0: ThreadLocalAllocator<N>,
    a1: ThreadLocalAllocator<N>,
    s: Option<State>,
    size: int,
    r: Result<Option<usize>, PanicCause>,
    owed: bool,
)
    requires
        ready(a0, s),
        served(a0, None, a1, None, size, r, owed),
    ensures
        served(a0, s, a1, s, size, r, owed),
        calm(a0, None, a1, None) ==> calm(a0, s, a1, s),
{
    reveal(holds);
    reveal(follows);
    reveal(counts);
    reveal(keeps);
    let got = match r {
        Ok(Some(ptr)) => (ptr as int, size),
        _ => (0int, 0int),
    };
    lemma_lift(a0, a1, s, (0, 0, got.0, got.1));
}

/// Taking a free object.
pub proof fn lemma_popped<N: NonLocalPtrManager>(
    a0: ThreadLocalAllocator<N>,
    s: Option<State>,
    a1: ThreadLocalAllocator<N>,
    class: int,
    ptr: usize,
)
    requires
        ready(a0, s),
        0 <= class < 216,
        only_elems_changed(a0, a1),
        elem_wf(class, ptr),
        forall|i: int| 0 <= i < 435 && i != class ==> #[trigger] a1.len_of(i) == a0.len_of(i),
        a1.len_of(class) + 1 == a0.len_of(class),
        ptr == a0.inner.vectors@[class]@.last(),
        a1.inner.vectors@ == a0.inner.vectors@.update(class, a1.inner.vectors@[class]),
        a1.inner.vectors@[class]@ == a0.inner.vectors@[class]@.drop_last(),
        forall|at: int| #[trigger]
            a1.held(at) + covers(ptr as int, held_size(class), at) == a0.held(at),
        forall|c: int| #[trigger] a1.live(c) == a0.live(c) - elem_out(class, c),
        a1.potential() == a0.potential(),
        a1.weight() == a0.weight(),
    ensures
        served(
            a0,
            s,
            a1,
            s,
            class_size(class),
            Ok::<Option<usize>, PanicCause>(Some(ptr)),
            true,
        ),
        calm(a0, s, a1, s),
{
    reveal(holds);
    lemma_env_follows(a0, a1);
    lemma_regions_same(a0, a1);
    reveal(follows);
    reveal(counts);
    reveal(keeps);
    lemma_passes_popped(a0, s, a1, class, ptr);
    assert(a1.incoming() == a0.incoming());
    lemma_class(class);
    assert forall|at: int| #[trigger]
        total(a1, s, at) + covers(ptr as int, class_size(class), at) <= total(a0, s, at) by {
        assert(a1.held(at) + covers(ptr as int, held_size(class), at) == a0.held(at));
    }
    assert forall|c: int| 0 <= c < 216 implies #[trigger] live(a1, s, c) == live(a0, s, c)
        + is_of_class(class_size(class), c) by {
        assert(a1.live(c) == a0.live(c) - elem_out(class, c));
    }
    assert(caps_kept(a0, a1));
}

/// A large chunk that is kept while a common one is taken.
pub proof fn lemma_kept_chunk<N: NonLocalPtrManager>(
    a0: ThreadLocalAllocator<N>,
    a3: ThreadLocalAllocator<N>,
    a4: ThreadLocalAllocator<N>,
    slot: int,
    large: int,
    common: int,
    lost: bool,
)
    requires
        slot == 433,
        a3.wf(),
        evolves(a0, None, a3, None),
        counts(a0, None, a3, None, 0, -9),
        forall|at: int| #[trigger]
            total(a3, None::<State>, at) + covers(large, 524288, at) + covers(common, 65536, at)
                <= total(a0, None::<State>, at),
        passes(a0, None, a4, None, (0, 0, 0, 0)),
        gives_chunk(a0, None, a4, common, 65536),
        a4.inner.manager_ptr != 0,
        lost ==> a4 == a3 && counts(a0, None, a3, None, 0, -1),
        !lost ==> {
            &&& only_elems_changed(a3, a4)
            &&& forall|at: int| #[trigger] a4.held(at) == a3.held(at) + covers(large, 524288, at)
            &&& forall|class: int| #[trigger]
                a4.live(class) == a3.live(class) + elem_out(433, class)
            &&& a4.potential() == a3.potential() + 8
            &&& a4.weight() == a3.weight() + 8
        },
        a3.unread() < a0.unread() || (a3.unread() == a0.unread() && chunks_left(a3, None) + 9
            <= chunks_left(a0, None)),
        0 < common,
        common + 65536 <= usize::MAX,
    ensures
        took_chunk(
            a0,
            None,
            a4,
            None,
            65536,
            Ok::<Option<usize>, PanicCause>(Some(common as usize)),
            true,
        ),
{
    reveal(holds);
    reveal(follows);
    reveal(counts);
    reveal(keeps);
    let none = None::<State>;
    lemma_env_follows(a3, a4);
    lemma_regions_same(a3, a4);
    lemma_sizes_same(a0, a3, a4);
    if !lost {
        assert(a4.incoming() == a3.incoming());
        assert(caps_kept(a0, a4)) by {
            assert forall|k: int| 0 <= k < 435 implies a0.cap_of(k) <= #[trigger] a4.cap_of(k) by {
                assert(a0.cap_of(k) <= a3.cap_of(k));
            }
        }
    }
    assert forall|at: int| #[trigger]
        total(a4, none, at) + covers(common, 65536, at) <= total(a0, none, at) by {
        assert(total(a3, none, at) + covers(large, 524288, at) + covers(common, 65536, at) <= total(
            a0,
            none,
            at,
        ));
        if !lost {
            assert(a4.held(at) == a3.held(at) + covers(large, 524288, at));
        }
    }
    assert forall|class: int| 0 <= class < 216 implies #[trigger] live(a4, none, class) >= live(
        a0,
        none,
        class,
    ) by {
        assert(live(a3, none, class) >= live(a0, none, class));
        if !lost {
            assert(a4.live(class) == a3.live(class) + elem_out(433, class));
        }
    }
    if is_counted(a4) && !lost {
        assert forall|class: int| 0 <= class < 216 implies #[trigger] live(a4, none, class) <= live(
            a0,
            none,
            class,
        ) + slack(a0, a4) by {
            assert(live(a3, none, class) <= live(a0, none, class) + slack(a0, a3));
            assert(a4.live(class) == a3.live(class) + elem_out(433, class));
        }
    }
}

/// A step of the state that takes a large chunk from it or from the mappings that wait.
pub proof fn lemma_state_chunk<N: NonLocalPtrManager>(
    a0: ThreadLocalAllocator<N>,
    st0: State,
    a1: ThreadLocalAllocator<N>,
    st1: State,
    chunk: int,
)
    requires
        ready(a0, Some(st0)),
        a1.inner == (ThreadLocalAllocatorInner { env: a1.inner.env, ..a0.inner }),
        a1.non_local_ptr_manager == a0.non_local_ptr_manager,
        grows(st0, a0.inner.env, st1, a1.inner.env),
        took_from(st0, a0.inner.env, st1, a1.inner.env, chunk, 524288, -1, 8),
    ensures
        evolves(a0, Some(st0), a1, Some(st1)),
        holds(a0, Some(st0), a1, Some(st1), 0, 0, chunk, 524288),
        counts(a0, Some(st0), a1, Some(st1), 0, -8),
        passes(a0, Some(st0), a1, Some(st1), (0, 0, 0, 0)),
        gives_chunk(a0, Some(st0), a1, chunk, 524288),
{
    lemma_passes_state(a0, st0, a1, st1, 0, 0);
    assert(gives_chunk(a0, Some(st0), a1, chunk, 524288)) by {
        reveal(gives_chunk);
        reveal(owns_with);
    }
    reveal(holds);
    assert(regions_committed(a0, Some(st0)) ==> regions_committed(a1, Some(st1))) by {
        assert(chain_committed(a0.inner.env, st0.chain()) ==> chain_committed(
            a1.inner.env,
            st1.chain(),
        )) by {
            reveal(settles);
        }
        lemma_listed_same(a0, a1);
        lemma_regions_stay(a0, Some(st0), a1, Some(st1));
    }
    reveal(follows);
    reveal(counts);
    reveal(keeps);
    assert(a1.incoming() == a0.incoming());
    assert(a1.inner.parts() == a0.inner.parts());
    if a1.unread() == a0.unread() {
        let w = a0.inner.env.region_size as int / 65536;
        assert(w * a1.inner.env.unread() == w * a0.inner.env.unread());
    }
    assert forall|at: int| #[trigger]
        total(a1, Some(st1), at) + covers(chunk, 524288, at) <= total(a0, Some(st0), at) by {
        assert(st1.cover(at) + a1.inner.env.pool(at) + covers(chunk, 524288, at) <= st0.cover(at)
            + a0.inner.env.pool(at));
    }
    assert forall|class: int| 0 <= class < 216 implies #[trigger] live(a1, Some(st1), class)
        == live(a0, Some(st0), class) by {
        assert(st1.out(class) == st0.out(class) + (if 0 <= -1 && class == -1 {
            1int
        } else {
            0
        }));
    }
}

/// The tables of chunks are of sizes that are handed out as they are.
pub proof fn lemma_table_sizes()
    ensures
        is_object_size(2048),
        is_object_size(1408),
{
    lemma_class_of(2048);
    lemma_class_of(1408);
    assert(large_id(2048) == 175);
    assert(large_id(1408) == 165);
}

/// What a block that becomes part of the bookkeeping does to the accounts.
proof fn lemma_block_accounts<N: NonLocalPtrManager>(
    a0: ThreadLocalAllocator<N>,
    s: Option<State>,
    a1: ThreadLocalAllocator<N>,
    ptr: int,
    size: int,
)
    requires
        ready(a0, s),
        a1.inner.wf(),
        a1.inner.env == a0.inner.env,
        a1.inner.vectors == a0.inner.vectors,
        a0.inner.common_chunk_table != 0 ==> a1.inner.common_chunk_table != 0,
        a0.inner.large_chunk_table != 0 ==> a1.inner.large_chunk_table != 0,
        a1.inner.manager_ptr == a0.inner.manager_ptr,
        a1.inner.manager_block == a0.inner.manager_block,
        is_object(size),
        a1.inner.given_up == a0.inner.given_up,
        a0.inner.replaced <= a1.inner.replaced,
        a1.weight() == a0.weight(),
        a1.inner.common_chunk_table == a0.inner.common_chunk_table || a1.inner.common_chunk_table
            == ptr,
        a1.inner.large_chunk_table == a0.inner.large_chunk_table || a1.inner.large_chunk_table
            == ptr,
        a1.inner.allocated_large_sizes.nodes@ == a0.inner.allocated_large_sizes.nodes@
            || a1.inner.allocated_large_sizes.nodes@
            == a0.inner.allocated_large_sizes.nodes@.push(ptr as usize) && 0 <= ptr <= usize::MAX,
        a1.inner.allocated_large_sizes.entries == a0.inner.allocated_large_sizes.entries,
        a1.inner.is_destructor_registered == a0.inner.is_destructor_registered,
        a1.non_local_ptr_manager == a0.non_local_ptr_manager,
        a1.spare() == a0.spare(),
        forall|at: int| #[trigger]
            a1.inner.parts().cover(at) <= a0.inner.parts().cover(at) + covers(ptr, size, at),
        forall|class: int| #[trigger]
            a1.inner.parts().out(class) >= a0.inner.parts().out(class) - is_of_class(size, class),
        is_counted(a1) ==> forall|class: int| #[trigger]
            a1.inner.parts().out(class) <= a0.inner.parts().out(class) - is_of_class(size, class) + (
            a1.inner.replaced - a0.inner.replaced),
    ensures
        a1.wf(),
        holds(a0, s, a1, s, ptr, size, 0, 0),
        counts(a0, s, a1, s, size, 0),
        passes(a0, s, a1, s, (ptr, size, 0, 0)),
        caps_kept(a0, a1),
{
    assert(a1.incoming() == a0.incoming());
    lemma_passes_block(a0, s, a1, ptr, size);
    reveal(holds);
    reveal(follows);
    reveal(counts);
    reveal(keeps);
    assert(caps_kept(a0, a1));
    assert forall|at: int| #[trigger]
        total(a1, s, at) <= total(a0, s, at) + covers(ptr, size, at) by {
        assert(a1.inner.parts().cover(at) <= a0.inner.parts().cover(at) + covers(ptr, size, at));
    }
    assert forall|class: int| 0 <= class < 216 implies #[trigger] live(a1, s, class) + is_of_class(
        size,
        class,
    ) >= live(a0, s, class) by {
        assert(a1.inner.parts().out(class) >= a0.inner.parts().out(class) - is_of_class(
            size,
            class,
        ));
    }
    if is_counted(a1) {
        assert forall|class: int| 0 <= class < 216 implies #[trigger] live(a1, s, class)
            + is_of_class(size, class) <= live(a0, s, class) + slack(a0, a1) by {
            assert(a1.inner.parts().out(class) <= a0.inner.parts().out(class) - is_of_class(
                size,
                class,
            ) + (a1.inner.replaced - a0.inner.replaced));
        }
    }
}

/// A block that becomes part of the bookkeeping.
pub proof fn lemma_block_kept<N: NonLocalPtrManager>(
    a0: ThreadLocalAllocator<N>,
    s: Option<State>,
    a1: ThreadLocalAllocator<N>,
    ptr: int,
    size: int,
)
    requires
        ready(a0, s),
        a1.inner.wf(),
        a1.inner.env == a0.inner.env,
        a1.inner.vectors == a0.inner.vectors,
        a0.inner.common_chunk_table != 0 ==> a1.inner.common_chunk_table != 0,
        a0.inner.large_chunk_table != 0 ==> a1.inner.large_chunk_table != 0,
        a1.inner.manager_ptr == a0.inner.manager_ptr,
        a1.inner.manager_block == a0.inner.manager_block,
        is_object(size),
        a1.inner.given_up == a0.inner.given_up,
        a0.inner.replaced <= a1.inner.replaced,
        has_tables(a0) ==> a1.inner.replaced == a0.inner.replaced,
        a1.weight() == a0.weight(),
        a1.inner.common_chunk_table == a0.inner.common_chunk_table || a1.inner.common_chunk_table
            == ptr,
        a1.inner.large_chunk_table == a0.inner.large_chunk_table || a1.inner.large_chunk_table
            == ptr,
        a1.inner.allocated_large_sizes.nodes@ == a0.inner.allocated_large_sizes.nodes@
            || a1.inner.allocated_large_sizes.nodes@
            == a0.inner.allocated_large_sizes.nodes@.push(ptr as usize) && 0 <= ptr <= usize::MAX,
        a1.inner.allocated_large_sizes.entries == a0.inner.allocated_large_sizes.entries,
        a1.inner.is_destructor_registered == a0.inner.is_destructor_registered,
        a1.non_local_ptr_manager == a0.non_local_ptr_manager,
        a1.spare() == a0.spare(),
        forall|at: int| #[trigger]
            a1.inner.parts().cover(at) <= a0.inner.parts().cover(at) + covers(ptr, size, at),
        forall|class: int| #[trigger]
            a1.inner.parts().out(class) >= a0.inner.parts().out(class) - is_of_class(size, class),
        is_counted(a1) ==> forall|class: int| #[trigger]
            a1.inner.parts().out(class) <= a0.inner.parts().out(class) - is_of_class(size, class) + (
            a1.inner.replaced - a0.inner.replaced),
    ensures
        step(a0, s, a1, s, (ptr, size, 0, 0)),
{
    assert(a1.incoming() == a0.incoming());
    lemma_block_accounts(a0, s, a1, ptr, size);
    lemma_env_follows(a0, a1);
    lemma_regions_same(a0, a1);
    reveal(follows);
}

/// A table that was taken and becomes part of the bookkeeping, in the place of one that may have been
/// made meanwhile.
pub proof fn lemma_table_kept<N: NonLocalPtrManager>(
    a: ThreadLocalAllocator<N>,
    s0: Option<State>,
    a0: ThreadLocalAllocator<N>,
    s: Option<State>,
    a1: ThreadLocalAllocator<N>,
    ptr: int,
    size: int,
)
    requires
        !has_tables(a),
        step(a, s0, a0, s, (0, 0, ptr, size)),
        a1.inner.wf(),
        a1.inner.env == a0.inner.env,
        a1.inner.vectors == a0.inner.vectors,
        a0.inner.common_chunk_table != 0 ==> a1.inner.common_chunk_table != 0,
        a0.inner.large_chunk_table != 0 ==> a1.inner.large_chunk_table != 0,
        a1.inner.manager_ptr == a0.inner.manager_ptr,
        a1.inner.manager_block == a0.inner.manager_block,
        is_object(size),
        a1.inner.given_up == a0.inner.given_up,
        a0.inner.replaced <= a1.inner.replaced,
        a1.weight() == a0.weight(),
        a1.inner.common_chunk_table == a0.inner.common_chunk_table || a1.inner.common_chunk_table
            == ptr,
        a1.inner.large_chunk_table == a0.inner.large_chunk_table || a1.inner.large_chunk_table
            == ptr,
        a1.inner.allocated_large_sizes == a0.inner.allocated_large_sizes,
        a1.inner.is_destructor_registered == a0.inner.is_destructor_registered,
        a1.non_local_ptr_manager == a0.non_local_ptr_manager,
        a1.spare() == a0.spare(),
        forall|at: int| #[trigger]
            a1.inner.parts().cover(at) <= a0.inner.parts().cover(at) + covers(ptr, size, at),
        forall|class: int| #[trigger]
            a1.inner.parts().out(class) >= a0.inner.parts().out(class) - is_of_class(size, class),
        is_counted(a1) ==> forall|class: int| #[trigger]
            a1.inner.parts().out(class) <= a0.inner.parts().out(class) - is_of_class(size, class) + (
            a1.inner.replaced - a0.inner.replaced),
    ensures
        step(a, s0, a1, s, (0, 0, 0, 0)),
{
    assert(a1.incoming() == a0.incoming());
    lemma_block_accounts(a0, s, a1, ptr, size);
    lemma_holds(a, s0, a0, s, a1, s, (0, 0, ptr, size), (ptr, size, 0, 0));
    lemma_counts(a, s0, a0, s, a1, s, (0, size), (size, 0));
    lemma_passes(a, s0, a0, s, a1, s, (0, 0, ptr, size), (ptr, size, 0, 0));
    lemma_env_follows(a0, a1);
    lemma_regions_same(a0, a1);
    lemma_sizes_same(a, a0, a1);
    assert(caps_kept(a, a1)) by {
        assert forall|k: int| 0 <= k < 435 implies a.cap_of(k) <= #[trigger] a1.cap_of(k) by {
            assert(a.cap_of(k) <= a0.cap_of(k));
        }
    }
}

/// A new manager, in a block of its own.
pub proof fn lemma_new_manager<N: NonLocalPtrManager>(
    a0: ThreadLocalAllocator<N>,
    s: Option<State>,
    a1: ThreadLocalAllocator<N>,
    ptr: int,
    size: int,
)
    requires
        ready(a0, s),
        a1.inner.wf(),
        a1.inner == (ThreadLocalAllocatorInner {
            manager_ptr: a1.inner.manager_ptr,
            manager_block: a1.inner.manager_block,
            ..a0.inner
        }),
        a0.inner.manager_ptr == 0,
        a1.inner.manager_ptr == ptr,
        ptr != 0,
        size >= 0,
        a1.inner.manager_block == recommended(N::size_spec() as int),
        is_object(size) || a1.inner.manager_block == 0,
        a1.non_local_ptr_manager is Some,
        a1.non_local_ptr_manager->0.incoming() == Seq::<Node>::empty(),
        a1.spare() == a0.spare(),
        a1.weight() == a0.weight(),
        forall|at: int| #[trigger]
            a1.inner.parts().cover(at) <= a0.inner.parts().cover(at) + covers(ptr, size, at),
        forall|class: int| #[trigger]
            a1.inner.parts().out(class) == a0.inner.parts().out(class) - is_of_class(size, class),
    ensures
        step(a0, s, a1, s, (ptr, size, 0, 0)),
{
    reveal(holds);
    lemma_env_follows(a0, a1);
    lemma_regions_same(a0, a1);
    reveal(follows);
    reveal(counts);
    reveal(keeps);
    assert(a1.incoming() == Seq::<Node>::empty());
    assert(a0.incoming() == Seq::<Node>::empty());
    lemma_passes_block(a0, s, a1, ptr, size);
    assert(caps_kept(a0, a1));
    assert forall|at: int| #[trigger]
        total(a1, s, at) <= total(a0, s, at) + covers(ptr, size, at) by {
        lemma_nodes_nonnegative(a0.incoming(), at, 0);
        assert(a1.inner.parts().cover(at) <= a0.inner.parts().cover(at) + covers(ptr, size, at));
    }
    assert forall|class: int| 0 <= class < 216 implies #[trigger] live(a1, s, class) + is_of_class(
        size,
        class,
    ) == live(a0, s, class) by {
        assert(a0.incoming() == Seq::<Node>::empty());
        assert(a1.inner.parts().out(class) == a0.inner.parts().out(class) - is_of_class(
            size,
            class,
        ));
    }
}

/// Marks that do not count.
pub proof fn lemma_marks_set<N: NonLocalPtrManager>(
    a0: ThreadLocalAllocator<N>,
    s: Option<State>,
    a1: ThreadLocalAllocator<N>,
)
    requires
        ready(a0, s),
        a1.inner == (ThreadLocalAllocatorInner {
            is_already_destructured: a1.inner.is_already_destructured,
            is_destructor_registered: a1.inner.is_destructor_registered,
            ..a0.inner
        }),
        a0.inner.is_destructor_registered ==> a1.inner.is_destructor_registered,
        a1.non_local_ptr_manager == a0.non_local_ptr_manager,
    ensures
        step(a0, s, a1, s, (0, 0, 0, 0)),
{
    reveal(holds);
    lemma_env_follows(a0, a1);
    lemma_regions_same(a0, a1);
    reveal(follows);
    reveal(counts);
    assert(a1.incoming() == a0.incoming());
    assert(a1.inner.parts() == a0.inner.parts());
    lemma_keeps_itself(a0.inner.env);
    lemma_passes_env(a0, s, a1, s);
    assert(caps_kept(a0, a1));
    assert forall|at: int| #[trigger] total(a1, s, at) <= total(a0, s, at) by {
        assert(a1.held(at) == a0.held(at));
    }
    assert forall|class: int| 0 <= class < 216 implies #[trigger] live(a1, s, class) == live(
        a0,
        s,
        class,
    ) by {
        assert(a1.live(class) == a0.live(class));
    }
}

/// A chunk that is listed with those that the class was carved from.
pub proof fn lemma_listed<N: NonLocalPtrManager>(
    a0: ThreadLocalAllocator<N>,
    s0: Option<State>,
    a1: ThreadLocalAllocator<N>,
    s1: Option<State>,
    a2: ThreadLocalAllocator<N>,
    s2: Option<State>,
    class: int,
)
    requires
        0 <= class,
        counts(a0, s0, a1, s1, 0, 0),
        tallies(a1, s1, a2, s2, 216 + class),
    ensures
        tallies(a0, s0, a2, s2, 216 + class),
{
    reveal(counts);
    reveal(tallies);
    assert forall|c: int| 0 <= c < 216 implies #[trigger] live(a2, s2, c) >= live(a0, s0, c)
        + elem_out(216 + class, c) by {
        assert(live(a2, s2, c) >= live(a1, s1, c) + elem_out(216 + class, c));
        assert(live(a1, s1, c) >= live(a0, s0, c));
    }
    if is_counted(a2) {
        assert forall|c: int| 0 <= c < 216 implies #[trigger] live(a2, s2, c) <= live(a0, s0, c)
            + elem_out(216 + class, c) + slack(a0, a2) by {
            assert(live(a2, s2, c) <= live(a1, s1, c) + elem_out(216 + class, c) + slack(a1, a2));
            assert(live(a1, s1, c) <= live(a0, s0, c) + slack(a0, a1));
        }
    }
}

/// A chunk that is listed in vain: memory was refused before its objects were free.
pub proof fn lemma_listed_in_vain<N: NonLocalPtrManager>(
    a0: ThreadLocalAllocator<N>,
    s0: Option<State>,
    a1: ThreadLocalAllocator<N>,
    s1: Option<State>,
    a2: ThreadLocalAllocator<N>,
    s2: Option<State>,
    class: int,
)
    requires
        0 <= class < 216,
        tallies(a0, s0, a1, s1, 216 + class),
        counts(a1, s1, a2, s2, 0, 0),
        spared(a1, s1, a2, s2),
    ensures
        counts(a0, s0, a2, s2, -elem_weight(216 + class), 0),
{
    reveal(counts);
    reveal(spared);
    reveal(tallies);
    lemma_tallies(a0, s0, a1, s1, a2, s2, 216 + class);
    assert forall|c: int| 0 <= c < 216 implies #[trigger] live(a2, s2, c) >= live(a0, s0, c) by {
        lemma_class(c);
        assert(live(a2, s2, c) >= live(a0, s0, c) + elem_out(216 + class, c));
    }
    if is_counted(a2) {
        assert forall|c: int| 0 <= c < 216 implies #[trigger] live(a2, s2, c) <= live(a0, s0, c)
            + slack(a0, a2) by {
            lemma_class(class);
            assert(live(a1, s1, c) <= live(a0, s0, c) + elem_out(216 + class, c) + slack(a0, a1));
            assert(live(a2, s2, c) + 8192 <= live(a1, s1, c) + slack(a1, a2));
        }
    }
}

/// An operation after an element was appended.
pub proof fn lemma_tallies<N: NonLocalPtrManager>(
    a0: ThreadLocalAllocator<N>,
    s0: Option<State>,
    a1: ThreadLocalAllocator<N>,
    s1: Option<State>,
    a2: ThreadLocalAllocator<N>,
    s2: Option<State>,
    slot: int,
)
    requires
        tallies(a0, s0, a1, s1, slot),
        counts(a1, s1, a2, s2, 0, 0),
    ensures
        tallies(a0, s0, a2, s2, slot),
{
    reveal(counts);
    reveal(tallies);
    assert forall|c: int| 0 <= c < 216 implies #[trigger] live(a2, s2, c) >= live(a0, s0, c)
        + elem_out(slot, c) by {
        assert(live(a2, s2, c) >= live(a1, s1, c));
        assert(live(a1, s1, c) >= live(a0, s0, c) + elem_out(slot, c));
    }
    if is_counted(a2) {
        assert forall|c: int| 0 <= c < 216 implies #[trigger] live(a2, s2, c) <= live(a0, s0, c)
            + elem_out(slot, c) + slack(a0, a2) by {
            assert(live(a2, s2, c) <= live(a1, s1, c) + slack(a1, a2));
            assert(live(a1, s1, c) <= live(a0, s0, c) + elem_out(slot, c) + slack(a0, a1));
        }
    }
}

/// The objects of a carved chunk, all but the last one.
pub proof fn lemma_carved<N: NonLocalPtrManager>(
    a0: ThreadLocalAllocator<N>,
    s0: Option<State>,
    a1: ThreadLocalAllocator<N>,
    s1: Option<State>,
    a2: ThreadLocalAllocator<N>,
    class: int,
    start: int,
    n: int,
)
    requires
        0 <= class < 216,
        n == slots_of_class(class) - 1,
        evolves(a0, s0, a1, s1),
        holds(a0, s0, a1, s1, 0, 0, 0, 0),
        tallies(a0, s0, a1, s1, 216 + class),
        only_elems_changed(a1, a2),
        a2.potential() == a1.potential(),
        a2.weight() == a1.weight(),
        forall|at: int| #[trigger]
            a2.held(at) == a1.held(at) + covers(start, n * class_size(class), at),
        forall|c: int|
            0 <= c < 216 ==> #[trigger] a2.live(c) == a1.live(c) - (if c == class {
                n
            } else {
                0
            }),
    ensures
        evolves(a0, s0, a2, s1),
        holds(
            a0,
            s0,
            a2,
            s1,
            start,
            chunk_size_of_class(class),
            start + n * class_size(class),
            class_size(class),
        ),
        counts(a0, s0, a2, s1, -elem_weight(216 + class), class_size(class)),
{
    reveal(holds);
    reveal(follows);
    reveal(counts);
    reveal(tallies);
    let size = class_size(class);
    let last = start + n * size;
    lemma_class(class);
    assert(n * size + size == slots_of_class(class) * size) by (nonlinear_arith)
        requires
            n == slots_of_class(class) - 1,
    ;
    assert(0 <= n * size) by (nonlinear_arith)
        requires
            8 <= size,
            0 <= n,
    ;
    assert(a2.incoming() == a1.incoming());
    assert(caps_kept(a1, a2));
    lemma_env_follows(a1, a2);
    lemma_regions_same(a1, a2);
    assert(carries(a1, s1, a2, s1));
    lemma_carries(a0, s0, a1, s1, a2, s1);
    assert forall|at: int| #[trigger]
        total(a2, s1, at) + covers(last, size, at) <= total(a0, s0, at) + covers(
            start,
            chunk_size_of_class(class),
            at,
        ) by {
        assert(a2.held(at) == a1.held(at) + covers(start, n * size, at));
        assert(total(a1, s1, at) <= total(a0, s0, at));
    }
    assert forall|c: int| 0 <= c < 216 implies #[trigger] live(a2, s1, c) >= live(a0, s0, c)
        + is_of_class(size, c) by {
        assert(a2.live(c) == a1.live(c) - (if c == class {
            n
        } else {
            0
        }));
        assert(live(a1, s1, c) >= live(a0, s0, c) + elem_out(216 + class, c));
    }
    if is_counted(a2) {
        assert forall|c: int| 0 <= c < 216 implies #[trigger] live(a2, s1, c) <= live(a0, s0, c)
            + is_of_class(size, c) + slack(a0, a2) by {
            assert(a2.live(c) == a1.live(c) - (if c == class {
                n
            } else {
                0
            }));
            assert(live(a1, s1, c) <= live(a0, s0, c) + elem_out(216 + class, c) + slack(a0, a1));
        }
    }
}

/// A failure of an operation that was given more than was kept.
pub proof fn lemma_more_given<N: NonLocalPtrManager>(
    a0: ThreadLocalAllocator<N>,
    s0: Option<State>,
    a1: ThreadLocalAllocator<N>,
    ptr: int,
    size: int,
)
    requires
        broke(a0, s0, a1, 0, 0),
    ensures
        broke(a0, s0, a1, ptr, size),
        forall|cause: PanicCause|
            bound_hit(a0, s0, a1, 0, 0, cause) ==> #[trigger] bound_hit(
                a0,
                s0,
                a1,
                ptr,
                size,
                cause,
            ),
{
    reveal(holds);
    reveal(follows);
    reveal(counts);
    reveal(keeps);
    reveal(bound_hit);
    if exists|at: int| #[trigger]
        has_no_owner(a1, at) && total(a0, s0, at) + covers(0, 0, at) > 0 {
        let at = choose|at: int| #[trigger]
            has_no_owner(a1, at) && total(a0, s0, at) + covers(0, 0, at) > 0;
        assert(has_no_owner(a1, at) && total(a0, s0, at) + covers(ptr, size, at) > 0);
    }
    assert forall|at: int| #[trigger]
        a1.held(at) <= total(a0, s0, at) + covers(ptr, size, at) by {
        assert(a1.held(at) <= total(a0, s0, at) + covers(0, 0, at));
    }
}

/// A chunk that is given up to its region.
pub proof fn lemma_gave_up<N: NonLocalPtrManager>(
    a0: ThreadLocalAllocator<N>,
    s: Option<State>,
    a1: ThreadLocalAllocator<N>,
)
    requires
        ready(a0, s),
        a1.inner.wf(),
        a1.non_local_ptr_manager == a0.non_local_ptr_manager,
        same_accounts(a0.inner, a1.inner),
        kept_but_regions(a0.inner, a1.inner),
    ensures
        step(a0, s, a1, s, (0, 0, 0, 0)),
{
    assert(s matches Some(st) ==> (chain_committed(a0.inner.env, st.chain()) ==> chain_committed(
        a1.inner.env,
        st.chain(),
    ))) by {
        reveal(follows);
        lemma_stays_committed(a0.inner.env, a1.inner.env);
    }
    lemma_regions_stay(a0, s, a1, s);
    reveal(holds);
    reveal(follows);
    reveal(counts);
    reveal(keeps);
    assert(a1.incoming() == a0.incoming());
    lemma_passes_regions(a0, s, a1);
    assert(a1.inner.vectors@[432] == a0.inner.vectors@[432]);
    assert(a1.inner.vectors@[433] == a0.inner.vectors@[433]);
    assert(caps_kept(a0, a1)) by {
        assert forall|k: int| 0 <= k < 435 implies a0.cap_of(k) <= #[trigger] a1.cap_of(k) by {
            if k < 434 {
                assert(a1.inner.vectors@[k] == a0.inner.vectors@[k]);
            }
        }
    }
    assert forall|at: int| #[trigger] total(a1, s, at) <= total(a0, s, at) by {
        assert(a1.inner.parts().cover(at) == a0.inner.parts().cover(at));
    }
    assert forall|class: int| 0 <= class < 216 implies #[trigger] live(a1, s, class) == live(
        a0,
        s,
        class,
    ) by {
        assert(a1.inner.parts().out(class) == a0.inner.parts().out(class));
    }
}

/// A chunk that is noted as given up.
pub proof fn lemma_noted_given_up<N: NonLocalPtrManager>(
    a0: ThreadLocalAllocator<N>,
    a1: ThreadLocalAllocator<N>,
    mark: int,
)
    requires
        a0.wf(),
        a1.inner == (ThreadLocalAllocatorInner { given_up: a1.inner.given_up, ..a0.inner }),
        a1.non_local_ptr_manager == a0.non_local_ptr_manager,
        a1.inner.given_up == if a0.inner.given_up < u64::MAX {
            a0.inner.given_up + 1
        } else {
            u64::MAX as int
        },
        -8 <= mark <= 0,
    ensures
        evolves(a0, None, a1, None),
        holds(a0, None, a1, None, 0, 0, 0, 0),
        counts(a0, None, a1, None, mark, 0),
        passes(a0, None, a1, None, (0, 0, 0, 0)),
{
    let s = None::<State>;
    reveal(holds);
    lemma_env_follows(a0, a1);
    lemma_regions_same(a0, a1);
    reveal(follows);
    reveal(counts);
    assert(a1.incoming() == a0.incoming());
    assert(a1.inner.parts() == a0.inner.parts());
    lemma_keeps_itself(a0.inner.env);
    lemma_passes_env(a0, s, a1, s);
    assert(caps_kept(a0, a1));
    assert forall|at: int| #[trigger] total(a1, s, at) <= total(a0, s, at) by {
        assert(a1.held(at) == a0.held(at));
    }
    assert forall|class: int| 0 <= class < 216 implies #[trigger] live(a1, s, class) == live(
        a0,
        s,
        class,
    ) by {
        assert(a1.live(class) == a0.live(class));
    }
}

/// A chunk that was given beside an object that was handed out.
pub proof fn lemma_given_too<N: NonLocalPtrManager>(
    a0: ThreadLocalAllocator<N>,
    a1: ThreadLocalAllocator<N>,
    a2: ThreadLocalAllocator<N>,
    size: int,
    mark: int,
)
    requires
        counts(a0, None, a1, None, 0, size),
        counts(a1, None, a2, None, mark, 0),
        size >= 0,
        mark <= 0,
    ensures
        counts(a0, None, a2, None, mark, size),
{
    let none = None::<State>;
    lemma_counts(a0, none, a1, none, a2, none, (0, size), (mark, 0));
    reveal(counts);
    if is_counted(a2) {
        assert forall|class: int| 0 <= class < 216 implies #[trigger] live(a2, none, class)
            + is_of_class(mark, class) <= live(a0, none, class) + is_of_class(size, class) + slack(
            a0,
            a2,
        ) by {
            assert(live(a1, none, class) + is_of_class(0, class) <= live(a0, none, class)
                + is_of_class(size, class) + slack(a0, a1));
            assert(live(a2, none, class) + is_of_class(mark, class) <= live(a1, none, class)
                + is_of_class(0, class) + slack(a1, a2));
        }
    }
}

/// What holds without a block that was given holds with it too.
pub proof fn lemma_more_held<N: NonLocalPtrManager>(
    a0: ThreadLocalAllocator<N>,
    a1: ThreadLocalAllocator<N>,
    gave: (int, int),
    got: (int, int),
)
    requires
        holds(a0, None, a1, None, 0, 0, got.0, got.1),
    ensures
        holds(a0, None, a1, None, gave.0, gave.1, got.0, got.1),
{
    reveal(holds);
    reveal(follows);
    let none = None::<State>;
    assert forall|at: int| #[trigger]
        total(a1, none, at) + covers(got.0, got.1, at) <= total(a0, none, at) + covers(
            gave.0,
            gave.1,
            at,
        ) by {
        assert(total(a1, none, at) + covers(got.0, got.1, at) <= total(a0, none, at) + covers(
            0,
            0,
            at,
        ));
    }
}

/// Memory that was taken and is not handed out.
pub proof fn lemma_dropped<N: NonLocalPtrManager>(
    a0: ThreadLocalAllocator<N>,
    s0: Option<State>,
    a1: ThreadLocalAllocator<N>,
    s1: Option<State>,
    ptr: int,
    size: int,
)
    requires
        holds(a0, s0, a1, s1, 0, 0, ptr, size),
    ensures
        holds(a0, s0, a1, s1, 0, 0, 0, 0),
{
    reveal(holds);
    reveal(follows);
    reveal(counts);
    reveal(keeps);
    assert forall|at: int| #[trigger] total(a1, s1, at) <= total(a0, s0, at) by {
        assert(total(a1, s1, at) + covers(ptr, size, at) <= total(a0, s0, at));
    }
}

/// Writing the metadata of a chunk.
pub proof fn lemma_metadata_written<N: NonLocalPtrManager>(
    a0: ThreadLocalAllocator<N>,
    s: Option<State>,
    a1: ThreadLocalAllocator<N>,
)
    requires
        ready(a0, s),
        a1.inner == (ThreadLocalAllocatorInner { env: a1.inner.env, ..a0.inner }),
        a1.non_local_ptr_manager == a0.non_local_ptr_manager,
        only_metadata_changed(a0.inner.env, a1.inner.env),
        a1.inner.env.wf(),
    ensures
        evolves(a0, s, a1, s),
        holds(a0, s, a1, s, 0, 0, 0, 0),
        counts(a0, s, a1, s, 0, 0),
        calm(a0, s, a1, s),
{
    reveal(holds);
    lemma_env_follows(a0, a1);
    lemma_regions_same(a0, a1);
    reveal(follows);
    reveal(counts);
    reveal(keeps);
    assert(a1.incoming() == a0.incoming());
    assert(a1.inner.parts() == a0.inner.parts());
    assert(caps_kept(a0, a1));
    assert forall|at: int| #[trigger] total(a1, s, at) <= total(a0, s, at) by {
        assert(a1.inner.env.pool(at) == a0.inner.env.pool(at));
    }
    assert forall|class: int| 0 <= class < 216 implies #[trigger] live(a1, s, class) == live(
        a0,
        s,
        class,
    ) by {
        assert(a1.live(class) == a0.live(class));
    }
}

/// A node that was taken.
pub proof fn lemma_node_taken<N: NonLocalPtrManager>(
    a0: ThreadLocalAllocator<N>,
    a1: ThreadLocalAllocator<N>,
    a2: ThreadLocalAllocator<N>,
    rest: Seq<Node>,
    node: Node,
    kept: Result<bool, PanicCause>,
)
    requires
        node_wf(node),
        evolves(a0, None, a1, None),
        taking(a0, a1, rest.push(node), 0),
        pushed(a1, None, a2, None, node.class(), node.value.ptr, kept),
    ensures
        match kept {
            Ok(true) => {
                &&& evolves(a0, None, a2, None)
                &&& taking(
                    a0,
                    a2,
                    rest,
                    if node.is_returned() {
                        0
                    } else {
                        1
                    },
                )
                &&& broke(a0, None, a2, 0, 0)
            },
            Ok(false) => broke(a0, None, a2, 0, 0) && turned_down(a0, a2),
            Err(cause) => failed(a0, None, a2, 0, 0, cause),
        },
{
    lemma_follows(a0.inner.env, a1.inner.env, a2.inner.env);
    reveal(holds);
    reveal(counts);
    reveal(keeps);
    reveal(taking);
    reveal(tallies);
    let none = None::<State>;
    let ptr = node.value.ptr as int;
    let class = node.class();
    lemma_nodes_push(rest, node);
    lemma_class_of(32);
    assert(0 <= class < 216);
    assert forall|at: int| node.cover(at) >= #[trigger] covers(ptr, held_size(class), at) by {}
    if kept == Ok::<bool, PanicCause>(true) {
        lemma_carries(a0, none, a1, none, a2, none);
        let all = ptrs_of(rest.push(node));
        assert(all[rest.len() as int] == node.value.ptr);
        assert forall|i: int| 0 <= i < ptrs_of(rest).len() implies all.contains(
            #[trigger] ptrs_of(rest)[i],
        ) by {
            assert(all[i] == ptrs_of(rest)[i]);
        }
        lemma_brought(
            a0,
            none,
            a1,
            none,
            a2,
            none,
            all,
            rest.len() as int,
            held_size(class),
            ptrs_of(rest),
        );
        assert forall|at: int| #[trigger]
            total(a2, none, at) + nodes_cover(rest, at) <= total(a0, none, at) by {
            assert(total(a2, none, at) <= total(a1, none, at) + covers(ptr, held_size(class), at));
            assert(total(a1, none, at) + nodes_cover(rest.push(node), at) <= total(a0, none, at));
        }
        assert forall|c: int| 0 <= c < 216 implies #[trigger] live(a2, none, c) - nodes_of_class(
            rest,
            c,
        ) >= live(a0, none, c) by {
            assert(live(a2, none, c) >= live(a1, none, c) + elem_out(class, c));
            assert(live(a1, none, c) - nodes_of_class(rest.push(node), c) >= live(a0, none, c));
            assert(nodes_of_class(rest, c) >= 0) by {
                lemma_nodes_nonnegative(rest, 0, c);
            }
        }
        let owed = if node.is_returned() {
            0int
        } else {
            1
        };
        if is_counted(a2) {
            assert forall|c: int| 0 <= c < 216 implies #[trigger] live(a2, none, c)
                - nodes_of_class(rest, c) <= live(a0, none, c) + slack(a0, a2) + 2 * (nodes_abroad(
                rest,
            ) + owed) by {
                assert(live(a2, none, c) <= live(a1, none, c) + elem_out(class, c) + slack(a1, a2));
                assert(live(a1, none, c) - nodes_of_class(rest.push(node), c) <= live(a0, none, c)
                    + slack(a0, a1) + 2 * (nodes_abroad(rest.push(node)) + 0));
            }
        }
    }
    assert(keeps(a0, none, a2, 0, 0)) by {
        assert forall|at: int| #[trigger]
            a2.held(at) <= total(a0, none, at) + covers(0, 0, at) by {
            lemma_nodes_nonnegative(rest, at, 0);
            assert(total(a1, none, at) + nodes_cover(rest.push(node), at) <= total(a0, none, at));
            if kept is Ok {
                assert(a2.held(at) == total(a2, none, at));
            }
        }
    }
    assert forall|at: int| #[trigger]
        total(a1, none, at) + covers(ptr, held_size(class), at) <= total(a0, none, at) + covers(
            0,
            0,
            at,
        ) by {
        lemma_nodes_nonnegative(rest, at, 0);
        assert(total(a1, none, at) + nodes_cover(rest.push(node), at) <= total(a0, none, at));
    }
    lemma_bound_after(a0, none, a1, none, a2, 0, 0, ptr, held_size(class));
}

/// Nodes that are taken exactly.
pub proof fn lemma_taken_exactly<N: NonLocalPtrManager>(
    a0: ThreadLocalAllocator<N>,
    a1: ThreadLocalAllocator<N>,
    a2: ThreadLocalAllocator<N>,
    done_nodes: Seq<Node>,
    rest: Seq<Node>,
    node: Node,
)
    requires
        node_wf(node),
        a1.wf(),
        took_exactly(a0, a1, done_nodes),
        pushed(
            a1,
            None,
            a2,
            None,
            node.class(),
            node.value.ptr,
            Ok::<bool, PanicCause>(true),
        ),
        a1.len_of(node.class()) < a1.cap_of(node.class()),
        forall|class: int|
            0 <= class < 216 ==> #[trigger] a1.len_of(class) + nodes_of_class(
                rest.push(node),
                class,
            ) <= a1.cap_of(class),
    ensures
        a2.inner.env == a1.inner.env,
        node.is_returned() ==> took_exactly(a0, a2, done_nodes.push(node)),
        !node.is_returned() ==> took_but_message(a0, a2, done_nodes.push(node)),
        forall|class: int|
            0 <= class < 216 ==> #[trigger] a2.len_of(class) + nodes_of_class(rest, class)
                <= a2.cap_of(class),
{
    lemma_class_of(32);
    let class = node.class();
    assert(0 <= class < 216);
    lemma_nodes_push(rest, node);
    let nodes = done_nodes.push(node);
    assert(nodes.drop_last() =~= done_nodes);
    assert forall|slot: int| 0 <= slot < 435 implies #[trigger] a2.cap_of(slot) == a0.cap_of(
        slot,
    ) by {
        assert(a2.cap_of(slot) == a1.cap_of(slot));
        assert(a1.cap_of(slot) == a0.cap_of(slot));
    }
    assert forall|slot: int| 0 <= slot < 435 implies (#[trigger] a2.inner.vectors@[slot])@
        == a0.inner.vectors@[slot]@ + brought_back(nodes, slot) by {
        assert(a1.inner.vectors@[slot]@ == a0.inner.vectors@[slot]@ + brought_back(
            done_nodes,
            slot,
        ));
        if slot == class {
            assert((a0.inner.vectors@[slot]@ + brought_back(done_nodes, slot)).push(node.value.ptr)
                =~= a0.inner.vectors@[slot]@ + brought_back(done_nodes, slot).push(node.value.ptr));
        }
    }
    assert forall|c: int| 0 <= c < 216 implies #[trigger] a2.len_of(c) + nodes_of_class(rest, c)
        <= a2.cap_of(c) by {
        assert(a1.len_of(c) + nodes_of_class(rest.push(node), c) <= a1.cap_of(c));
        assert(a2.cap_of(c) == a1.cap_of(c));
        assert(nodes_of_class(rest.push(node), c) == nodes_of_class(rest, c) + (if class == c {
            1int
        } else {
            0
        }));
    }
}

/// The message of the last node that was taken.
pub proof fn lemma_sent_exactly<N: NonLocalPtrManager>(
    a0: ThreadLocalAllocator<N>,
    a2: ThreadLocalAllocator<N>,
    a3: ThreadLocalAllocator<N>,
    nodes: Seq<Node>,
    node: Node,
    message: Message,
)
    requires
        nodes.len() > 0,
        nodes.last() == node,
        !node.is_returned(),
        took_but_message(a0, a2, nodes),
        message == way_home(a2.inner.env, node),
        a3.inner == (ThreadLocalAllocatorInner { env: a3.inner.env, ..a2.inner }),
        a3.inner.env == (Environment { outbox: a3.inner.env.outbox, ..a2.inner.env }),
        a3.inner.env.outbox@ == a2.inner.env.outbox@.push(message),
    ensures
        took_exactly(a0, a3, nodes),
{
    assert(way_home(a2.inner.env, node) == way_home(a0.inner.env, node));
    assert(a3.inner.env.outbox@ =~= a0.inner.env.outbox@ + ways_home(a0.inner.env, nodes));
    assert forall|slot: int| 0 <= slot < 435 implies #[trigger] a3.cap_of(slot) == a0.cap_of(
        slot,
    ) by {
        assert(a2.cap_of(slot) == a0.cap_of(slot));
    }
    assert forall|slot: int| 0 <= slot < 435 implies (#[trigger] a3.inner.vectors@[slot])@
        == a0.inner.vectors@[slot]@ + brought_back(nodes, slot) by {
        assert(a2.inner.vectors@[slot]@ == a0.inner.vectors@[slot]@ + brought_back(nodes, slot));
    }
}

/// A message that is sent.
pub proof fn lemma_message_sent<N: NonLocalPtrManager>(
    a0: ThreadLocalAllocator<N>,
    a1: ThreadLocalAllocator<N>,
)
    requires
        a0.wf(),
        a1.inner == (ThreadLocalAllocatorInner { env: a1.inner.env, ..a0.inner }),
        a1.non_local_ptr_manager == a0.non_local_ptr_manager,
        a1.inner.env == (Environment { outbox: a1.inner.env.outbox, ..a0.inner.env }),
        a0.inner.env.outbox@.len() < a1.inner.env.outbox@.len(),
        a0.inner.env.outbox@.is_prefix_of(a1.inner.env.outbox@),
    ensures
        step(a0, None, a1, None, (0, 0, 0, 0)),
        calm(a0, None, a1, None),
        a1.incoming() == a0.incoming(),
{
    lemma_same_metadata(a0.inner.env, a1.inner.env);
    assert(a1.incoming() == a0.incoming());
    lemma_passes_env(a0, None, a1, None);
    reveal(holds);
    lemma_env_follows(a0, a1);
    lemma_regions_same(a0, a1);
    reveal(follows);
    reveal(counts);
    let none = None::<State>;
    assert(a1.incoming() == a0.incoming());
    assert(a1.inner.parts() == a0.inner.parts());
    assert(caps_kept(a0, a1));
    assert forall|at: int| #[trigger] total(a1, none, at) <= total(a0, none, at) by {
        assert(a1.inner.env.pool(at) == a0.inner.env.pool(at));
    }
    assert forall|class: int| 0 <= class < 216 implies #[trigger] live(a1, none, class) == live(
        a0,
        none,
        class,
    ) by {
        assert(a1.live(class) == a0.live(class));
    }
}

/// The message that brings the memory of a node home.
pub proof fn lemma_still_taking<N: NonLocalPtrManager>(
    a0: ThreadLocalAllocator<N>,
    a1: ThreadLocalAllocator<N>,
    a2: ThreadLocalAllocator<N>,
    rest: Seq<Node>,
)
    requires
        evolves(a0, None, a1, None),
        taking(a0, a1, rest, 1),
        a2.inner == (ThreadLocalAllocatorInner { env: a2.inner.env, ..a1.inner }),
        a2.non_local_ptr_manager == a1.non_local_ptr_manager,
        a2.inner.env == (Environment { outbox: a2.inner.env.outbox, ..a1.inner.env }),
        a2.inner.env.outbox@.len() == a1.inner.env.outbox@.len() + 1,
        a1.inner.env.outbox@.is_prefix_of(a2.inner.env.outbox@),
    ensures
        evolves(a0, None, a2, None),
        taking(a0, a2, rest, 0),
{
    let none = None::<State>;
    lemma_message_sent(a1, a2);
    reveal(holds);
    reveal(follows);
    reveal(counts);
    reveal(taking);
    lemma_carries(a0, none, a1, none, a2, none);
    lemma_brings_nothing(a1, none, a2, none);
    lemma_brings(a0, none, a1, none, a2, none, ptrs_of(rest), Seq::empty());
    assert(ptrs_of(rest) + Seq::<usize>::empty() =~= ptrs_of(rest));
    assert(a2.inner.parts() == a1.inner.parts());
    assert forall|at: int| #[trigger]
        total(a2, none, at) + nodes_cover(rest, at) <= total(a0, none, at) by {
        assert(total(a2, none, at) <= total(a1, none, at));
        assert(total(a1, none, at) + nodes_cover(rest, at) <= total(a0, none, at));
    }
    assert forall|c: int| 0 <= c < 216 implies #[trigger] live(a2, none, c) == live(
        a1,
        none,
        c,
    ) by {
        assert(a2.live(c) == a1.live(c));
    }
    assert forall|c: int| 0 <= c < 216 implies #[trigger] live(a2, none, c) - nodes_of_class(
        rest,
        c,
    ) >= live(a0, none, c) by {
        assert(live(a1, none, c) - nodes_of_class(rest, c) >= live(a0, none, c));
    }
    if is_counted(a2) {
        assert forall|c: int| 0 <= c < 216 implies #[trigger] live(a2, none, c) - nodes_of_class(
            rest,
            c,
        ) <= live(a0, none, c) + slack(a0, a2) + 2 * (nodes_abroad(rest) + 0) by {
            assert(live(a1, none, c) - nodes_of_class(rest, c) <= live(a0, none, c) + slack(a0, a1)
                + 2 * (nodes_abroad(rest) + 1));
        }
    }
}

/// After the last node.
pub proof fn lemma_all_taken<N: NonLocalPtrManager>(
    a0: ThreadLocalAllocator<N>,
    a1: ThreadLocalAllocator<N>,
    rest: Seq<Node>,
)
    requires
        rest.len() == 0,
        a1.incoming().len() == 0,
        taking(a0, a1, rest, 0),
    ensures
        holds(a0, None, a1, None, 0, 0, 0, 0),
        counts(a0, None, a1, None, 0, 0),
        passes(a0, None, a1, None, (0, 0, 0, 0)),
{
    reveal(holds);
    reveal(follows);
    reveal(counts);
    reveal(taking);
    let none = None::<State>;
    assert(ptrs_of(rest) =~= Seq::<usize>::empty());
    lemma_brings_nothing(a0, none, a1, none);
    assert forall|at: int| #[trigger] total(a1, none, at) <= total(a0, none, at) by {
        assert(total(a1, none, at) + nodes_cover(rest, at) <= total(a0, none, at));
    }
    assert forall|c: int| 0 <= c < 216 implies #[trigger] live(a1, none, c) >= live(a0, none, c) by {
        assert(live(a1, none, c) - nodes_of_class(rest, c) >= live(a0, none, c));
    }
    if is_counted(a1) {
        assert forall|c: int| 0 <= c < 216 implies #[trigger] live(a1, none, c) <= live(
            a0,
            none,
            c,
        ) + slack(a0, a1) by {
            assert(live(a1, none, c) - nodes_of_class(rest, c) <= live(a0, none, c) + slack(a0, a1)
                + 2 * (nodes_abroad(rest) + 0));
        }
    }
}

/// A request to the operating system.
pub proof fn lemma_os_step<N: NonLocalPtrManager>(
    a0: ThreadLocalAllocator<N>,
    a1: ThreadLocalAllocator<N>,
    ptr: int,
    size: int,
)
    requires
        a0.wf(),
        a1.inner == (ThreadLocalAllocatorInner { env: a1.inner.env, ..a0.inner }),
        a1.non_local_ptr_manager == a0.non_local_ptr_manager,
        a1.inner.env.wf(),
        a1.inner.env.region_size == a0.inner.env.region_size,
        a1.inner.env.replies == a0.inner.env.replies,
        a0.inner.env.used_replies <= a1.inner.env.used_replies,
        follows(a0.inner.env, a1.inner.env),
        a1.inner.env.metadata == a0.inner.env.metadata,
        a1.inner.env.outbox == a0.inner.env.outbox,
        commits(a1.inner.env.actions@) == commits(a0.inner.env.actions@),
        a1.inner.env.refusals@.len() != a0.inner.env.refusals@.len() ==> short(
            a0.inner.env,
            a1.inner.env,
        ),
        size == 0 || size > LARGE_SIZE_MAX,
        forall|at: int| #[trigger]
            a1.inner.env.pool(at) + covers(ptr, size, at) <= a0.inner.env.pool(at),
    ensures
        step(a0, None, a1, None, (0, 0, ptr, size)),
        calm(a0, None, a1, None),
{
    lemma_pool_shrinks(a0.inner.env, a1.inner.env);
    assert(a0.inner.env.actions@.is_prefix_of(a1.inner.env.actions@)) by {
        reveal(follows);
    }
    lemma_metadata_unwritten(a0.inner.env, a1.inner.env);
    assert(a1.incoming() == a0.incoming());
    lemma_passes_env(a0, None, a1, None);
    lemma_passes_great(a0, None, a1, None, (0, 0), (ptr, size));
    reveal(holds);
    lemma_regions_same(a0, a1);
    reveal(follows);
    reveal(counts);
    let none = None::<State>;
    assert(a1.incoming() == a0.incoming());
    assert(a1.inner.parts() == a0.inner.parts());
    assert(caps_kept(a0, a1));
    assert forall|at: int| #[trigger]
        total(a1, none, at) + covers(ptr, size, at) <= total(a0, none, at) by {
        assert(a1.inner.env.pool(at) + covers(ptr, size, at) <= a0.inner.env.pool(at));
    }
    assert forall|class: int| 0 <= class < 216 implies #[trigger] live(a1, none, class) == live(
        a0,
        none,
        class,
    ) + is_of_class(size, class) by {
        assert(a1.live(class) == a0.live(class));
    }
}

/// A request to the operating system that was refused.
pub proof fn lemma_spared_refusal<N: NonLocalPtrManager>(
    a0: ThreadLocalAllocator<N>,
    a1: ThreadLocalAllocator<N>,
)
    requires
        a1.inner == (ThreadLocalAllocatorInner { env: a1.inner.env, ..a0.inner }),
        a1.non_local_ptr_manager == a0.non_local_ptr_manager,
        a1.inner.env.outbox == a0.inner.env.outbox,
        a1.inner.env.region_size == a0.inner.env.region_size,
        commits(a1.inner.env.actions@) == commits(a0.inner.env.actions@),
        a0.inner.env.refusals@.len() < a1.inner.env.refusals@.len(),
    ensures
        spared(a0, None, a1, None),
{
    reveal(spared);
    let none = None::<State>;
    assert(a1.incoming() == a0.incoming());
    assert(a1.inner.parts() == a0.inner.parts());
    assert forall|class: int| 0 <= class < 216 implies #[trigger] live(a1, none, class) == live(
        a0,
        none,
        class,
    ) by {
        assert(a1.live(class) == a0.live(class));
    }
}

/// Counting extra large blocks after such a block was asked for or given back.
pub proof fn lemma_sizes_counted<N: NonLocalPtrManager>(
    a: ThreadLocalAllocator<N>,
    a0: ThreadLocalAllocator<N>,
    a1: ThreadLocalAllocator<N>,
    got: (int, int),
)
    requires
        step(a, None, a0, None, (0, 0, got.0, got.1)),
        traded(a.inner.env, a0.inner.env) || a1.inner.allocated_large_sizes
            == a0.inner.allocated_large_sizes || forall|size: usize|
            size != 2 * a0.inner.env.region_size - 1 ==> #[trigger] a1.inner.count_of(size)
                == a0.inner.count_of(size),
        a1.inner.wf(),
        a1.inner == (ThreadLocalAllocatorInner {
            allocated_large_sizes: a1.inner.allocated_large_sizes,
            ..a0.inner
        }),
        a1.inner.allocated_large_sizes.nodes == a0.inner.allocated_large_sizes.nodes,
        a1.non_local_ptr_manager == a0.non_local_ptr_manager,
    ensures
        step(a, None, a1, None, (0, 0, got.0, got.1)),
        calm(a, None, a0, None) ==> calm(a, None, a1, None),
{
    let none = None::<State>;
    lemma_keeps_itself(a0.inner.env);
    assert(a1.incoming() == a0.incoming());
    lemma_passes_env(a0, none, a1, none);
    lemma_passes(a, none, a0, none, a1, none, (0, 0, got.0, got.1), (0, 0, 0, 0));
    lemma_env_follows(a0, a1);
    lemma_regions_same(a0, a1);
    reveal(holds);
    reveal(counts);
    assert(a1.inner.parts() == a0.inner.parts());
    assert(caps_kept(a, a1)) by {
        assert forall|k: int| 0 <= k < 435 implies a.cap_of(k) <= #[trigger] a1.cap_of(k) by {
            assert(a.cap_of(k) <= a0.cap_of(k));
        }
    }
    assert(keeps_sizes(a, a1)) by {
        if !traded(a.inner.env, a1.inner.env) {
            assert forall|size: usize|
                size != 2 * a.inner.env.region_size - 1 implies #[trigger] a1.inner.count_of(size)
                == a.inner.count_of(size) by {
                assert(a0.inner.count_of(size) == a.inner.count_of(size));
            }
        }
    }
    assert forall|at: int| #[trigger]
        total(a1, none, at) + covers(got.0, got.1, at) <= total(a, none, at) by {
        assert(a1.held(at) == a0.held(at));
        assert(total(a0, none, at) + covers(got.0, got.1, at) <= total(a, none, at));
    }
    assert forall|class: int| 0 <= class < 216 implies #[trigger] live(a1, none, class) >= live(
        a,
        none,
        class,
    ) + is_of_class(got.1, class) by {
        assert(a1.live(class) == a0.live(class));
        assert(live(a0, none, class) >= live(a, none, class) + is_of_class(got.1, class));
    }
    if is_counted(a1) {
        assert forall|class: int| 0 <= class < 216 implies #[trigger] live(a1, none, class) <= live(
            a,
            none,
            class,
        ) + is_of_class(got.1, class) + slack(a, a1) by {
            assert(a1.live(class) == a0.live(class));
            assert(live(a0, none, class) <= live(a, none, class) + is_of_class(got.1, class)
                + slack(a, a0));
        }
    }
    if calm(a, none, a0, none) && steady(a, none, a1, none) {
        assert(steady(a, none, a0, none));
        assert forall|k: int| 0 <= k < 435 implies #[trigger] a1.len_of(k) <= a.len_of(k) by {
            assert(a0.len_of(k) <= a.len_of(k));
        }
    }
}

/// A node that went to somebody else with a message, and carries a pointer that was given.
pub proof fn lemma_handed_on<N: NonLocalPtrManager>(
    a0: ThreadLocalAllocator<N>,
    a1: ThreadLocalAllocator<N>,
    a2: ThreadLocalAllocator<N>,
    ptr: int,
    size: int,
)
    requires
        step(a0, None, a1, None, (0, 0, ptr, size)),
        step(a1, None, a2, None, (0, 0, 0, 0)),
        a1.messages() < a2.messages(),
        a2.inner.parts() == a1.inner.parts(),
        a2.incoming() == a1.incoming(),
        size > 0,
    ensures
        step(a0, None, a2, None, (0, 0, 0, 0)),
        forall|gave: int|
            1 <= gave <= LARGE_SIZE_MAX ==> #[trigger] counts(a0, None, a2, None, gave, 0),
{
    let none = None::<State>;
    lemma_step(a0, none, a1, none, a2, none, (0, 0, ptr, size), (0, 0, 0, 0));
    lemma_dropped(a0, none, a2, none, ptr, size);
    assert(passes(a0, none, a2, none, (0, 0, 0, 0))) by {
        reveal(passes);
    }
    reveal(counts);
    assert forall|class: int| 0 <= class < 216 implies #[trigger] live(a2, none, class) >= live(
        a0,
        none,
        class,
    ) by {
        assert(live(a2, none, class) + is_of_class(0, class) >= live(a0, none, class) + is_of_class(
            size,
            class,
        ));
    }
    if is_counted(a2) {
        assert forall|class: int| 0 <= class < 216 implies #[trigger] live(a2, none, class) + 1
            <= live(a0, none, class) + slack(a0, a2) by {
            assert(live(a1, none, class) + is_of_class(0, class) <= live(a0, none, class)
                + is_of_class(size, class) + slack(a0, a1));
            assert(a2.live(class) == a1.live(class));
        }
    }
    assert forall|gave: int| 1 <= gave <= LARGE_SIZE_MAX implies #[trigger] counts(
        a0,
        none,
        a2,
        none,
        gave,
        0,
    ) by {
        if is_counted(a2) {
            assert forall|class: int| 0 <= class < 216 implies #[trigger] live(a2, none, class)
                + is_of_class(gave, class) <= live(a0, none, class) + is_of_class(0, class) + slack(
                a0,
                a2,
            ) by {
                assert(live(a2, none, class) + 1 <= live(a0, none, class) + slack(a0, a2));
            }
        }
    }
}

/// A block that was given and sent on.
pub proof fn lemma_sent_on<N: NonLocalPtrManager>(
    a0: ThreadLocalAllocator<N>,
    s0: Option<State>,
    a1: ThreadLocalAllocator<N>,
    s1: Option<State>,
    ptr: int,
    size: int,
)
    requires
        step(a0, s0, a1, s1, (0, 0, 0, 0)),
        counts(a0, s0, a1, s1, size, 0),
    ensures
        step(a0, s0, a1, s1, (ptr, size, 0, 0)),
{
    reveal(passes);
    reveal(holds);
    assert forall|at: int| #[trigger]
        total(a1, s1, at) <= total(a0, s0, at) + covers(ptr, size, at) by {
        assert(total(a1, s1, at) + covers(0, 0, at) <= total(a0, s0, at) + covers(0, 0, at));
    }
}

/// A block that was given and is not kept.
pub proof fn lemma_taken_over<N: NonLocalPtrManager>(
    a0: ThreadLocalAllocator<N>,
    s0: Option<State>,
    a1: ThreadLocalAllocator<N>,
    s1: Option<State>,
    ptr: int,
    size: int,
)
    requires
        step(a0, s0, a1, s1, (0, 0, 0, 0)),
        size > LARGE_SIZE_MAX,
    ensures
        step(a0, s0, a1, s1, (ptr, size, 0, 0)),
{
    reveal(passes);
    reveal(holds);
    reveal(follows);
    reveal(counts);
    assert forall|at: int| #[trigger]
        total(a1, s1, at) <= total(a0, s0, at) + covers(ptr, size, at) by {
        assert(total(a1, s1, at) + covers(0, 0, at) <= total(a0, s0, at) + covers(0, 0, at));
    }
    assert forall|class: int| 0 <= class < 216 implies #[trigger] live(a1, s1, class) + is_of_class(
        size,
        class,
    ) >= live(a0, s0, class) by {
        assert(live(a1, s1, class) + is_of_class(0, class) >= live(a0, s0, class) + is_of_class(
            0,
            class,
        ));
    }
}

/// An object that is free again.
pub proof fn lemma_given_back<N: NonLocalPtrManager>(
    a0: ThreadLocalAllocator<N>,
    s0: Option<State>,
    a1: ThreadLocalAllocator<N>,
    s1: Option<State>,
    class: int,
)
    requires
        0 <= class < 216,
        tallies(a0, s0, a1, s1, class),
    ensures
        counts(a0, s0, a1, s1, class_size(class), 0),
{
    reveal(counts);
    reveal(tallies);
    lemma_class(class);
    assert forall|c: int| 0 <= c < 216 implies #[trigger] live(a1, s1, c) + is_of_class(
        class_size(class),
        c,
    ) >= live(a0, s0, c) by {
        lemma_class(c);
        assert(live(a1, s1, c) >= live(a0, s0, c) + elem_out(class, c));
    }
    if is_counted(a1) {
        assert forall|c: int| 0 <= c < 216 implies #[trigger] live(a1, s1, c) + is_of_class(
            class_size(class),
            c,
        ) <= live(a0, s0, c) + slack(a0, a1) by {
            lemma_class(c);
            assert(live(a1, s1, c) <= live(a0, s0, c) + elem_out(class, c) + slack(a0, a1));
        }
    }
}

/// A block that is no part of the bookkeeping any more.
pub proof fn lemma_block_given_up<N: NonLocalPtrManager>(
    a0: ThreadLocalAllocator<N>,
    a1: ThreadLocalAllocator<N>,
    ptr: int,
    size: int,
)
    requires
        a0.wf(),
        a1.inner.wf(),
        a1.inner == (ThreadLocalAllocatorInner {
            allocated_large_sizes: a1.inner.allocated_large_sizes,
            ..a0.inner
        }),
        a1.non_local_ptr_manager == a0.non_local_ptr_manager,
        a1.spare() == a0.spare(),
        a1.weight() == a0.weight(),
        size == 192,
        a1.inner.allocated_large_sizes.entries == a0.inner.allocated_large_sizes.entries,
        a0.inner.allocated_large_sizes.nodes@.len() > 0,
        ptr == a0.inner.allocated_large_sizes.nodes@.last(),
        a1.inner.allocated_large_sizes.nodes@
            == a0.inner.allocated_large_sizes.nodes@.drop_last(),
        forall|at: int| #[trigger]
            a1.inner.parts().cover(at) + covers(ptr, size, at) == a0.inner.parts().cover(at),
        forall|class: int| #[trigger]
            a1.inner.parts().out(class) == a0.inner.parts().out(class) + is_of_class(size, class),
    ensures
        step(a0, None, a1, None, (0, 0, ptr, size)),
{
    lemma_passes_node(a0, a1, ptr);
    reveal(holds);
    lemma_env_follows(a0, a1);
    lemma_regions_same(a0, a1);
    reveal(follows);
    reveal(counts);
    let none = None::<State>;
    assert(a1.incoming() == a0.incoming());
    assert(caps_kept(a0, a1));
    assert forall|at: int| #[trigger]
        total(a1, none, at) + covers(ptr, size, at) <= total(a0, none, at) by {
        assert(a1.inner.parts().cover(at) + covers(ptr, size, at) == a0.inner.parts().cover(at));
    }
    assert forall|class: int| 0 <= class < 216 implies #[trigger] live(a1, none, class) == live(
        a0,
        none,
        class,
    ) + is_of_class(size, class) by {
        assert(a1.inner.parts().out(class) == a0.inner.parts().out(class) + is_of_class(
            size,
            class,
        ));
    }
}

/// Parts of carved chunks.
pub proof fn lemma_slots_take(chunks: Seq<Chunk>, i: int, class: int)
    requires
        0 <= i <= chunks.len(),
    ensures
        0 <= free_slots(chunks.take(i), class) <= free_slots(chunks, class),
        0 <= chunks_of_class(chunks.take(i), class) <= chunks_of_class(chunks, class),
    decreases chunks.len(),
{
    if i == chunks.len() {
        assert(chunks.take(i) =~= chunks);
        if i > 0 {
            assert(chunks.take(i - 1) =~= chunks.drop_last());
            lemma_slots_take(chunks.drop_last(), i - 1, class);
            assert(chunks.drop_last().take(i - 1) =~= chunks.drop_last());
        }
    } else {
        lemma_slots_take(chunks.drop_last(), i, class);
        assert(chunks.drop_last().take(i) =~= chunks.take(i));
    }
}

/// One carved chunk more.
pub proof fn lemma_slots_next(chunks: Seq<Chunk>, i: int)
    requires
        0 <= i < chunks.len(),
    ensures
        forall|class: int|
            free_slots(chunks.take(i + 1), class) == #[trigger] free_slots(chunks.take(i), class)
                + (if class_of(chunks[i].1 as int) == class {
                chunks[i].2 as int
            } else {
                0
            }),
        forall|class: int|
            chunks_of_class(chunks.take(i + 1), class) == #[trigger] chunks_of_class(
                chunks.take(i),
                class,
            ) + (if class_of(chunks[i].1 as int) == class {
                1int
            } else {
                0
            }),
        forall|class: int|
            handed_out(chunks.take(i + 1), class) == #[trigger] handed_out(chunks.take(i), class)
                + handed_out_of(chunks[i], class),
        forall|at: int|
            rests_cover(chunks.take(i + 1), at) == #[trigger] rests_cover(chunks.take(i), at)
                + covers(chunks[i].0 as int, chunks[i].1 * chunks[i].2, at),
{
    assert(chunks.take(i + 1).drop_last() =~= chunks.take(i));
    assert(chunks.take(i + 1).last() == chunks[i]);
}

/// Chunks that are carved into common objects leave the large classes alone, and the other way
/// round.
pub proof fn lemma_slots_apart(chunks: Seq<Chunk>, common: bool, class: int)
    requires
        forall|i: int| 0 <= i < chunks.len() ==> #[trigger] used_chunk_wf(chunks[i], common),
        0 <= class < 216,
        common <==> class >= 128,
    ensures
        free_slots(chunks, class) == 0,
        chunks_of_class(chunks, class) == 0,
    decreases chunks.len(),
{
    if chunks.len() > 0 {
        let front = chunks.drop_last();
        assert forall|i: int| 0 <= i < front.len() implies #[trigger] used_chunk_wf(
            front[i],
            common,
        ) by {
            assert(used_chunk_wf(chunks[i], common));
        }
        lemma_slots_apart(front, common, class);
        assert(used_chunk_wf(chunks[chunks.len() - 1], common));
        lemma_class_of(chunks.last().1 as int);
    }
}

/// Taking the chunks that are carved into common objects leaves the room for the others.
pub proof fn lemma_room_kept<N: NonLocalPtrManager>(
    a0: ThreadLocalAllocator<N>,
    a1: ThreadLocalAllocator<N>,
    node: NodeView,
    region_size: int,
)
    requires
        node.wf(region_size),
        has_room_for_objects(a0, node.used_large),
        has_room_for_chunks(a0, node.used_large),
        forall|slot: int| 0 <= slot < 435 ==> #[trigger] a1.cap_of(slot) == a0.cap_of(slot),
        forall|slot: int|
            0 <= slot < 216 ==> #[trigger] a1.len_of(slot) == a0.len_of(slot) + free_slots(
                node.used_common,
                slot,
            ),
        forall|slot: int|
            216 <= slot < 432 ==> #[trigger] a1.len_of(slot) == a0.len_of(slot) + chunks_of_class(
                node.used_common,
                slot - 216,
            ),
        has_room_for_objects(a0, node.used_common),
        has_room_for_chunks(a0, node.used_common),
    ensures
        has_room_for_objects(a1, node.used_large),
        has_room_for_chunks(a1, node.used_large),
{
    assert forall|class: int| 0 <= class < 216 implies #[trigger] a1.len_of(class) + free_slots(
        node.used_large,
        class,
    ) <= a1.cap_of(class) by {
        assert(a1.cap_of(class) == a0.cap_of(class));
        assert(a0.len_of(class) + free_slots(node.used_large, class) <= a0.cap_of(class));
        assert(a0.len_of(class) + free_slots(node.used_common, class) <= a0.cap_of(class));
        if class >= 128 {
            lemma_slots_apart(node.used_common, true, class);
        } else {
            lemma_slots_apart(node.used_large, false, class);
        }
    }
    assert forall|slot: int| 216 <= slot < 432 implies #[trigger] a1.len_of(slot)
        + chunks_of_class(node.used_large, slot - 216) <= a1.cap_of(slot) by {
        let class = slot - 216;
        assert(a1.cap_of(slot) == a0.cap_of(slot));
        assert(a0.len_of(slot) + chunks_of_class(node.used_large, slot - 216) <= a0.cap_of(slot));
        assert(a0.len_of(slot) + chunks_of_class(node.used_common, slot - 216) <= a0.cap_of(slot));
        if class >= 128 {
            lemma_slots_apart(node.used_common, true, class);
        } else {
            lemma_slots_apart(node.used_large, false, class);
        }
    }
}

/// One carved chunk that is taken over.
pub proof fn lemma_chunk_taken<N: NonLocalPtrManager>(
    a0: ThreadLocalAllocator<N>,
    a1: ThreadLocalAllocator<N>,
    a2: ThreadLocalAllocator<N>,
    a3: ThreadLocalAllocator<N>,
    a4: ThreadLocalAllocator<N>,
    chunks: Seq<Chunk>,
    i: int,
    class: int,
)
    requires
        0 <= i < chunks.len(),
        0 <= class < 216,
        class == class_of(chunks[i].1 as int),
        class_size(class) == chunks[i].1,
        chunks[i].2 * class_size(class) == chunks[i].1 * chunks[i].2,
        only_filled(a0, a1),
        a1.inner.occupied == a0.inner.occupied,
        forall|at: int| #[trigger] a1.held(at) == a0.held(at) + rests_cover(chunks.take(i), at),
        forall|c: int|
            0 <= c < 216 ==> #[trigger] a1.live(c) == a0.live(c) + handed_out(chunks.take(i), c),
        a1.potential() == a0.potential(),
        forall|slot: int| 432 <= slot < 435 ==> #[trigger] a1.len_of(slot) == a0.len_of(slot),
        forall|slot: int|
            0 <= slot < 216 ==> #[trigger] a1.len_of(slot) == a0.len_of(slot) + free_slots(
                chunks.take(i),
                slot,
            ),
        forall|slot: int|
            216 <= slot < 432 ==> #[trigger] a1.len_of(slot) == a0.len_of(slot) + chunks_of_class(
                chunks.take(i),
                slot - 216,
            ),
        only_elems_changed(a1, a2),
        forall|k: int| 0 <= k < 435 && k != class ==> #[trigger] a2.len_of(k) == a1.len_of(k),
        a2.len_of(class) == a1.len_of(class) + chunks[i].2,
        forall|at: int| #[trigger]
            a2.held(at) == a1.held(at) + covers(
                chunks[i].0 as int,
                chunks[i].2 * class_size(class),
                at,
            ),
        forall|c: int|
            0 <= c < 216 ==> #[trigger] a2.live(c) == a1.live(c) - (if c == class {
                chunks[i].2 as int
            } else {
                0
            }),
        a2.potential() == a1.potential(),
        only_elems_changed(a2, a3),
        forall|k: int|
            0 <= k < 435 && k != 216 + class ==> #[trigger] a3.len_of(k) == a2.len_of(k),
        a3.len_of(216 + class) == a2.len_of(216 + class) + 1,
        forall|at: int| #[trigger]
            a3.held(at) == a2.held(at) + covers(chunks[i].0 as int, held_size(216 + class), at),
        forall|c: int| #[trigger] a3.live(c) == a2.live(c) + elem_out(216 + class, c),
        a3.potential() == a2.potential() + elem_potential(216 + class),
        a4.inner == (ThreadLocalAllocatorInner { env: a4.inner.env, ..a3.inner }),
        a4.non_local_ptr_manager == a3.non_local_ptr_manager,
        only_metadata_changed(a3.inner.env, a4.inner.env),
        a4.inner.env.wf(),
    ensures
        only_filled(a0, a4),
        a4.inner.occupied == a0.inner.occupied,
        forall|at: int| #[trigger]
            a4.held(at) == a0.held(at) + rests_cover(chunks.take(i + 1), at),
        forall|c: int|
            0 <= c < 216 ==> #[trigger] a4.live(c) == a0.live(c) + handed_out(
                chunks.take(i + 1),
                c,
            ),
        a4.potential() == a0.potential(),
        forall|slot: int| 432 <= slot < 435 ==> #[trigger] a4.len_of(slot) == a0.len_of(slot),
        forall|slot: int|
            0 <= slot < 216 ==> #[trigger] a4.len_of(slot) == a0.len_of(slot) + free_slots(
                chunks.take(i + 1),
                slot,
            ),
        forall|slot: int|
            216 <= slot < 432 ==> #[trigger] a4.len_of(slot) == a0.len_of(slot) + chunks_of_class(
                chunks.take(i + 1),
                slot - 216,
            ),
{
    lemma_slots_next(chunks, i);
    assert forall|slot: int| 0 <= slot < 435 implies (#[trigger] a4.inner.vectors@[slot]).ptr
        == a0.inner.vectors@[slot].ptr by {
        assert(a3.inner.vectors@[slot].ptr == a2.inner.vectors@[slot].ptr);
        assert(a2.inner.vectors@[slot].ptr == a1.inner.vectors@[slot].ptr);
        assert(a1.inner.vectors@[slot].ptr == a0.inner.vectors@[slot].ptr);
    }
    assert(a4.incoming() == a3.incoming());
    assert(a3.incoming() == a2.incoming());
    assert(a2.incoming() == a1.incoming());
    assert(a1.incoming() == a0.incoming());
    assert(a4.inner.parts() == a3.inner.parts());
    assert forall|slot: int| 0 <= slot < 435 implies #[trigger] a4.cap_of(slot) == a0.cap_of(
        slot,
    ) by {
        assert(a3.cap_of(slot) == a2.cap_of(slot));
        assert(a2.cap_of(slot) == a1.cap_of(slot));
        assert(a1.cap_of(slot) == a0.cap_of(slot));
    }
    assert forall|at: int| #[trigger]
        a4.held(at) == a0.held(at) + rests_cover(chunks.take(i + 1), at) by {
        assert(a4.inner.env.pool(at) == a3.inner.env.pool(at));
        assert(a4.held(at) == a3.held(at));
        assert(a3.held(at) == a2.held(at) + covers(chunks[i].0 as int, held_size(216 + class), at));
        assert(a2.held(at) == a1.held(at) + covers(
            chunks[i].0 as int,
            chunks[i].2 * class_size(class),
            at,
        ));
        assert(a1.held(at) == a0.held(at) + rests_cover(chunks.take(i), at));
    }
    assert forall|c: int| 0 <= c < 216 implies #[trigger] a4.live(c) == a0.live(c) + handed_out(
        chunks.take(i + 1),
        c,
    ) by {
        assert(a4.live(c) == a3.live(c));
        assert(a3.live(c) == a2.live(c) + elem_out(216 + class, c));
        assert(a2.live(c) == a1.live(c) - (if c == class {
            chunks[i].2 as int
        } else {
            0
        }));
        assert(a1.live(c) == a0.live(c) + handed_out(chunks.take(i), c));
    }
    assert forall|slot: int| 432 <= slot < 435 implies #[trigger] a4.len_of(slot) == a0.len_of(
        slot,
    ) by {
        assert(a3.len_of(slot) == a2.len_of(slot));
        assert(a2.len_of(slot) == a1.len_of(slot));
        assert(a1.len_of(slot) == a0.len_of(slot));
    }
    assert forall|slot: int| 0 <= slot < 216 implies #[trigger] a4.len_of(slot) == a0.len_of(slot)
        + free_slots(chunks.take(i + 1), slot) by {
        assert(a3.len_of(slot) == a2.len_of(slot));
        assert(a2.len_of(slot) == a1.len_of(slot) + (if slot == class {
            chunks[i].2 as int
        } else {
            0
        }));
        assert(a1.len_of(slot) == a0.len_of(slot) + free_slots(chunks.take(i), slot));
    }
    assert forall|slot: int| 216 <= slot < 432 implies #[trigger] a4.len_of(slot) == a0.len_of(slot)
        + chunks_of_class(chunks.take(i + 1), slot - 216) by {
        assert(a3.len_of(slot) == a2.len_of(slot) + (if slot == 216 + class {
            1int
        } else {
            0
        }));
        assert(a2.len_of(slot) == a1.len_of(slot));
        assert(a1.len_of(slot) == a0.len_of(slot) + chunks_of_class(chunks.take(i), slot - 216));
        assert(chunks_of_class(chunks.take(i + 1), slot - 216) == chunks_of_class(
            chunks.take(i),
            slot - 216,
        ) + (if class == slot - 216 {
            1int
        } else {
            0
        }));
    }
}

/// Preparing further.
pub proof fn lemma_prepared<N: NonLocalPtrManager>(
    a0: ThreadLocalAllocator<N>,
    s0: Option<State>,
    a1: ThreadLocalAllocator<N>,
    s1: Option<State>,
    a2: ThreadLocalAllocator<N>,
    s2: Option<State>,
    first: bool,
    second: Result<bool, PanicCause>,
)
    requires
        prepared(a0, s0, a1, s1, Ok::<bool, PanicCause>(first)),
        prepared(a1, s1, a2, s2, second),
    ensures
        second matches Ok(did_allocate) ==> prepared(
            a0,
            s0,
            a2,
            s2,
            Ok::<bool, PanicCause>(first || did_allocate),
        ),
        second matches Err(cause) ==> failed(a0, s0, a2, 0, 0, cause),
{
    match second {
        Ok(_) => {
            lemma_step(a0, s0, a1, s1, a2, s2, (0, 0, 0, 0), (0, 0, 0, 0));
        },
        Err(_) => {
            lemma_broke_after(a0, s0, a1, s1, a2, (0, 0, 0, 0), (0, 0));
        },
    }
}

/// A request for room as a part of the preparation.
pub proof fn lemma_room_prepared<N: NonLocalPtrManager>(
    a0: ThreadLocalAllocator<N>,
    s0: Option<State>,
    a1: ThreadLocalAllocator<N>,
    s1: Option<State>,
    slot: int,
    additional: int,
    r: Result<Reserved, PanicCause>,
)
    requires
        ready(a0, s0),
        0 <= slot < 435,
        reserved(a0, s0, a1, s1, slot, additional, r),
    ensures
        r == Ok::<Reserved, PanicCause>(Reserved::Enough) ==> prepared(
            a0,
            s0,
            a1,
            s1,
            Ok::<bool, PanicCause>(false),
        ),
        r == Ok::<Reserved, PanicCause>(Reserved::Grown) ==> prepared(
            a0,
            s0,
            a1,
            s1,
            Ok::<bool, PanicCause>(true),
        ),
        r == Ok::<Reserved, PanicCause>(Reserved::Failed) ==> broke(a0, s0, a1, 0, 0)
            && turned_down(a0, a1),
{
    lemma_alike(a0, s0, s0);
    match r {
        Ok(Reserved::Grown) => {
            lemma_spare(a0, a1);
        },
        Ok(Reserved::Failed) => {
            lemma_broke(a0, s0, a1, s1, (0, 0, 0, 0));
        },
        _ => {},
    }
}

/// What is left in chunks of one size, and how many chunks have the size.
pub proof fn lemma_size_is_class(chunks: Seq<Chunk>, common: bool, size: usize)
    requires
        forall|i: int| 0 <= i < chunks.len() ==> #[trigger] used_chunk_wf(chunks[i], common),
        is_object_size(size as int),
    ensures
        forall|i: int|
            0 <= i < chunks.len() ==> (class_of((#[trigger] chunks[i]).1 as int) == class_of(
                size as int,
            ) <==> chunks[i].1 == size),
{
    assert forall|i: int| 0 <= i < chunks.len() implies (class_of(
        (#[trigger] chunks[i]).1 as int,
    ) == class_of(size as int) <==> chunks[i].1 == size) by {
        assert(used_chunk_wf(chunks[i], common));
    }
}

/// Room for the objects of every prefix is room for all.
pub proof fn lemma_room_for_objects<N: NonLocalPtrManager>(
    a: ThreadLocalAllocator<N>,
    chunks: Seq<Chunk>,
    common: bool,
)
    requires
        a.wf(),
        forall|i: int| 0 <= i < chunks.len() ==> #[trigger] used_chunk_wf(chunks[i], common),
        forall|k: int|
            #![trigger chunks[k]]
            0 <= k < chunks.len() ==> a.len_of(class_of(chunks[k].1 as int)) + free_slots(
                chunks.take(k + 1),
                class_of(chunks[k].1 as int),
            ) <= a.cap_of(class_of(chunks[k].1 as int)),
    ensures
        has_room_for_objects(a, chunks),
{
    assert forall|class: int| 0 <= class < 216 implies #[trigger] a.len_of(class) + free_slots(
        chunks,
        class,
    ) <= a.cap_of(class) by {
        lemma_room_for_prefix(a, chunks, chunks.len() as int, class);
        assert(chunks.take(chunks.len() as int) =~= chunks);
    }
}

pub proof fn lemma_room_for_prefix<N: NonLocalPtrManager>(
    a: ThreadLocalAllocator<N>,
    chunks: Seq<Chunk>,
    n: int,
    class: int,
)
    requires
        a.wf(),
        0 <= class < 216,
        0 <= n <= chunks.len(),
        forall|k: int|
            #![trigger chunks[k]]
            0 <= k < chunks.len() ==> a.len_of(class_of(chunks[k].1 as int)) + free_slots(
                chunks.take(k + 1),
                class_of(chunks[k].1 as int),
            ) <= a.cap_of(class_of(chunks[k].1 as int)),
    ensures
        a.len_of(class) + free_slots(chunks.take(n), class) <= a.cap_of(class),
    decreases n,
{
    if n == 0 {
        assert(chunks.take(0) =~= Seq::<Chunk>::empty());
        assert(slot_wf(class, a.inner.parts().vectors[class]));
    } else {
        lemma_room_for_prefix(a, chunks, n - 1, class);
        lemma_slots_next(chunks, n - 1);
        assert(free_slots(chunks.take(n), class) == free_slots(chunks.take(n - 1), class) + (
        if class_of(chunks[n - 1].1 as int) == class {
            chunks[n - 1].2 as int
        } else {
            0
        }));
        if class_of(chunks[n - 1].1 as int) == class {
            assert(a.len_of(class) + free_slots(chunks.take(n - 1 + 1), class) <= a.cap_of(class));
        }
    }
}

/// Room for the chunks of every size is room for all.
pub proof fn lemma_room_for_chunks<N: NonLocalPtrManager>(
    a: ThreadLocalAllocator<N>,
    chunks: Seq<Chunk>,
    common: bool,
    counts: UsedObjectsFixed<511>,
)
    requires
        a.wf(),
        forall|i: int| 0 <= i < chunks.len() ==> #[trigger] used_chunk_wf(chunks[i], common),
        counts.wf(),
        forall|size: usize|
            is_object_size(size as int) ==> #[trigger] counts.number(size) == chunks_of_class(
                chunks,
                class_of(size as int),
            ),
        forall|k: int|
            #![trigger counts.arr@[k]]
            0 <= k < counts.arr@.len() ==> a.len_of(216 + class_of(counts.arr@[k].0 as int))
                + counts.arr@[k].1 <= a.cap_of(216 + class_of(counts.arr@[k].0 as int)),
    ensures
        has_room_for_chunks(a, chunks),
{
    assert forall|slot: int| 216 <= slot < 432 implies #[trigger] a.len_of(slot) + chunks_of_class(
        chunks,
        slot - 216,
    ) <= a.cap_of(slot) by {
        let class = slot - 216;
        lemma_class(class);
        let size = class_size(class) as usize;
        assert(is_object_size(size as int));
        assert(counts.number(size) == chunks_of_class(chunks, class_of(size as int)));
        lemma_map_of(counts.arr@);
        assert(slot_wf(slot, a.inner.parts().vectors[slot]));
        if counts.number(size) > 0 {
            let k = choose|k: int|
                0 <= k < counts.arr@.len() && (#[trigger] counts.arr@[k]).0 == size;
            assert(counts.arr@[k].1 == counts.number(size));
        } else {
            lemma_slots_take(chunks, 0, class);
        }
    }
}

/// The nodes after the first one.
pub proof fn lemma_rest(st0: State, st1: State)
    requires
        st0.wf(),
        st0.nodes@.len() > 1,
        st1.region_size == st0.region_size,
        st1.nodes@.len() + 1 == st0.nodes@.len(),
        st1.nodes@[0]@ == (NodeView { address: 0, ..st0.nodes@[1]@ }),
        forall|k: int| 1 <= k < st1.nodes@.len() ==> #[trigger] st1.nodes@[k] == st0.nodes@[k + 1],
    ensures
        st1.wf(),
        st1.chain() == st0.chain().drop_first().update(
            0,
            NodeView { address: 0, ..st0.chain()[1] },
        ),
{
    assert(st1.chain() =~= st0.chain().drop_first().update(
        0,
        NodeView { address: 0, ..st0.chain()[1] },
    ));
    assert forall|k: int| 0 <= k < st1.nodes@.len() implies #[trigger] st1.chain()[k].wf(
        st1.region_size as int,
    ) by {
        assert(st0.chain()[k + 1].wf(st0.region_size as int));
    }
    assert forall|k: int| 0 <= k < st1.nodes@.len() implies ((#[trigger] st1.chain()[k]).address
        == 0 <==> k == 0) by {
        assert(st0.chain()[k + 1].address != 0);
    }
}

/// The accounts after the first node was taken over.
pub proof fn lemma_front_taken<N: NonLocalPtrManager>(
    a0: ThreadLocalAllocator<N>,
    st0: State,
    a1: ThreadLocalAllocator<N>,
    s1: Option<State>,
)
    requires
        ready(a0, Some(st0)),
        a0.inner.manager_ptr != 0,
        took_node(a0, a1, st0.chain()[0], a0.inner.manager_ptr),
        only_filled(a0, a1),
        forall|at: int| #[trigger]
            a1.held(at) == a0.held(at) + st0.chain()[0].cover(
                a0.inner.env.region_size as int,
                at,
            ),
        forall|class: int|
            0 <= class < 216 ==> #[trigger] a1.live(class) == a0.live(class)
                + st0.chain()[0].out(a0.inner.env.region_size as int, class),
        a1.potential() == a0.potential() + st0.chain()[0].potential(),
        a1.weight() == a0.weight() + st0.chain()[0].weight(),
        s1 is Some <==> st0.nodes@.len() > 1,
        s1 matches Some(st1) ==> {
            &&& st1.wf()
            &&& st1.region_size == st0.region_size
            &&& st1.chain() == st0.chain().drop_first().update(
                0,
                NodeView { address: 0, ..st0.chain()[1] },
            )
        },
    ensures
        carries(a0, Some(st0), a1, s1),
        chunks_left(a1, s1) == chunks_left(a0, Some(st0)),
        a1.incoming() == a0.incoming(),
        committing(
            a0,
            Some(st0),
            a1,
            s1,
            if s1 is Some {
                seq![st0.chain()[1].address]
            } else {
                Seq::empty()
            },
            state_block(a0.inner.env.region_size as int),
        ),
{
    reveal(committing);
    reveal(follows);
    reveal(NodeView::cover);
    reveal(NodeView::out);
    let region_size = a0.inner.env.region_size as int;
    let block = state_block(region_size);
    let chain = st0.chain();
    let rest = chain.drop_first();
    let blocks = if s1 is Some {
        seq![chain[1].address]
    } else {
        Seq::empty()
    };
    lemma_regions_taken_over(a0, st0, a1, s1);
    lemma_brings_node(a0, st0, a1, s1);
    lemma_state_block(region_size);
    lemma_chain_front(chain, region_size);
    assert(chain[0].address == 0);
    assert(a1.incoming() == a0.incoming());
    assert(caps_kept(a0, a1));
    if s1 is Some {
        let node = NodeView { address: 0, ..chain[1] };
        assert(rest[0] == chain[1]);
        lemma_chain_update(rest, 0, node, region_size);
    } else {
        assert(rest =~= Seq::<NodeView>::empty());
    }
    assert forall|at: int| #[trigger]
        total(a1, s1, at) + blocks_cover(blocks, block, at) <= total(a0, Some(st0), at) by {
        assert(a1.held(at) == a0.held(at) + chain[0].cover(region_size, at));
        assert(chain_cover(chain, region_size, at) == chain[0].cover(region_size, at) + chain_cover(
            rest,
            region_size,
            at,
        ));
        assert(blocks_cover(Seq::<usize>::empty(), block, at) == 0);
        if blocks.len() > 0 {
            assert(blocks.drop_last() =~= Seq::<usize>::empty());
        }
        if s1 is Some {
            let node = NodeView { address: 0, ..chain[1] };
            assert(chain_cover(rest.update(0, node), region_size, at) == chain_cover(
                rest,
                region_size,
                at,
            ) + node.cover(region_size, at) - rest[0].cover(region_size, at));
        }
    }
    assert forall|class: int| 0 <= class < 216 implies #[trigger] live(a1, s1, class) == live(
        a0,
        Some(st0),
        class,
    ) + blocks.len() * is_of_class(block, class) by {
        assert(a1.live(class) == a0.live(class) + chain[0].out(region_size, class));
        assert(chain_out(chain, region_size, class) == chain[0].out(region_size, class) + chain_out(
            rest,
            region_size,
            class,
        ));
        if s1 is Some {
            let node = NodeView { address: 0, ..chain[1] };
            assert(chain[1].address != 0);
            assert(chain_out(rest.update(0, node), region_size, class) == chain_out(
                rest,
                region_size,
                class,
            ) + node.out(region_size, class) - rest[0].out(region_size, class));
        }
    }
}

/// Before the first node is taken over.
pub proof fn lemma_committing_starts<N: NonLocalPtrManager>(
    a0: ThreadLocalAllocator<N>,
    s0: Option<State>,
    a1: ThreadLocalAllocator<N>,
    s1: Option<State>,
    size: int,
)
    requires
        step(a0, s0, a1, s1, (0, 0, 0, 0)),
    ensures
        committing(a0, s0, a1, s1, Seq::empty(), size),
{
    lemma_brings_nothing(a0, s0, a1, s1);
    reveal(committing);
    reveal(holds);
    reveal(follows);
    reveal(counts);
    assert forall|at: int| #[trigger]
        total(a1, s1, at) + blocks_cover(Seq::empty(), size, at) <= total(a0, s0, at) by {
        assert(total(a1, s1, at) + covers(0, 0, at) <= total(a0, s0, at) + covers(0, 0, at));
    }
    assert forall|class: int| 0 <= class < 216 implies #[trigger] live(a1, s1, class) >= live(
        a0,
        s0,
        class,
    ) + 0 * is_of_class(size, class) by {
        assert(live(a1, s1, class) + is_of_class(0, class) >= live(a0, s0, class) + is_of_class(
            0,
            class,
        ));
    }
    if is_counted(a1) {
        assert forall|class: int| 0 <= class < 216 implies #[trigger] live(a1, s1, class) <= live(
            a0,
            s0,
            class,
        ) + 0 * is_of_class(size, class) + slack(a0, a1) by {
            assert(live(a1, s1, class) + is_of_class(0, class) <= live(a0, s0, class)
                + is_of_class(0, class) + slack(a0, a1));
        }
    }
}

/// A step while a state is being committed.
pub proof fn lemma_committing_step<N: NonLocalPtrManager>(
    a0: ThreadLocalAllocator<N>,
    s0: Option<State>,
    a1: ThreadLocalAllocator<N>,
    s1: Option<State>,
    a2: ThreadLocalAllocator<N>,
    s2: Option<State>,
    blocks: Seq<usize>,
    size: int,
)
    requires
        carries(a0, s0, a1, s1),
        committing(a0, s0, a1, s1, blocks, size),
        step(a1, s1, a2, s2, (0, 0, 0, 0)),
    ensures
        carries(a0, s0, a2, s2),
        committing(a0, s0, a2, s2, blocks, size),
{
    reveal(committing);
    reveal(holds);
    reveal(follows);
    reveal(counts);
    lemma_carries(a0, s0, a1, s1, a2, s2);
    lemma_brings_nothing(a1, s1, a2, s2);
    lemma_brings(a0, s0, a1, s1, a2, s2, blocks, Seq::empty());
    assert(blocks + Seq::<usize>::empty() =~= blocks);
    assert forall|at: int| #[trigger]
        total(a2, s2, at) + blocks_cover(blocks, size, at) <= total(a0, s0, at) by {
        assert(total(a2, s2, at) + covers(0, 0, at) <= total(a1, s1, at) + covers(0, 0, at));
        assert(total(a1, s1, at) + blocks_cover(blocks, size, at) <= total(a0, s0, at));
    }
    assert forall|class: int| 0 <= class < 216 implies #[trigger] live(a2, s2, class) >= live(
        a0,
        s0,
        class,
    ) + blocks.len() * is_of_class(size, class) by {
        assert(live(a2, s2, class) + is_of_class(0, class) >= live(a1, s1, class) + is_of_class(
            0,
            class,
        ));
        assert(live(a1, s1, class) >= live(a0, s0, class) + blocks.len() * is_of_class(
            size,
            class,
        ));
    }
    if is_counted(a2) {
        assert forall|class: int| 0 <= class < 216 implies #[trigger] live(a2, s2, class) <= live(
            a0,
            s0,
            class,
        ) + blocks.len() * is_of_class(size, class) + slack(a0, a2) by {
            assert(live(a2, s2, class) + is_of_class(0, class) <= live(a1, s1, class)
                + is_of_class(0, class) + slack(a1, a2));
            assert(live(a1, s1, class) <= live(a0, s0, class) + blocks.len() * is_of_class(
                size,
                class,
            ) + slack(a0, a1));
        }
    }
}

/// Another node that was taken over.
pub proof fn lemma_committing_more<N: NonLocalPtrManager>(
    a0: ThreadLocalAllocator<N>,
    s0: Option<State>,
    a1: ThreadLocalAllocator<N>,
    s1: Option<State>,
    a2: ThreadLocalAllocator<N>,
    s2: Option<State>,
    blocks: Seq<usize>,
    more: Seq<usize>,
    size: int,
)
    requires
        carries(a0, s0, a1, s1),
        committing(a0, s0, a1, s1, blocks, size),
        carries(a1, s1, a2, s2),
        committing(a1, s1, a2, s2, more, size),
    ensures
        carries(a0, s0, a2, s2),
        committing(a0, s0, a2, s2, blocks + more, size),
{
    reveal(committing);
    lemma_carries(a0, s0, a1, s1, a2, s2);
    lemma_brings(a0, s0, a1, s1, a2, s2, blocks, more);
    assert forall|at: int| #[trigger]
        total(a2, s2, at) + blocks_cover(blocks + more, size, at) <= total(a0, s0, at) by {
        lemma_blocks_cover_add(blocks, more, size, at);
        assert(total(a2, s2, at) + blocks_cover(more, size, at) <= total(a1, s1, at));
        assert(total(a1, s1, at) + blocks_cover(blocks, size, at) <= total(a0, s0, at));
    }
    assert forall|class: int| 0 <= class < 216 implies #[trigger] live(a2, s2, class) >= live(
        a0,
        s0,
        class,
    ) + (blocks + more).len() * is_of_class(size, class) by {
        let k = is_of_class(size, class);
        let n = blocks.len() as int;
        let m = more.len() as int;
        assert(live(a2, s2, class) >= live(a1, s1, class) + more.len() * k);
        assert(live(a1, s1, class) >= live(a0, s0, class) + blocks.len() * k);
        assert((n + m) * k == n * k + m * k) by (nonlinear_arith);
        assert((blocks + more).len() == n + m);
    }
    if is_counted(a2) {
        assert forall|class: int| 0 <= class < 216 implies #[trigger] live(a2, s2, class) <= live(
            a0,
            s0,
            class,
        ) + (blocks + more).len() * is_of_class(size, class) + slack(a0, a2) by {
            let k = is_of_class(size, class);
            let n = blocks.len() as int;
            let m = more.len() as int;
            assert(live(a2, s2, class) <= live(a1, s1, class) + more.len() * k + slack(a1, a2));
            assert(live(a1, s1, class) <= live(a0, s0, class) + blocks.len() * k + slack(a0, a1));
            assert((n + m) * k == n * k + m * k) by (nonlinear_arith);
            assert((blocks + more).len() == n + m);
        }
    }
}

/// Breaking off while a state is being committed.
pub proof fn lemma_committing_broke<N: NonLocalPtrManager>(
    a0: ThreadLocalAllocator<N>,
    s0: Option<State>,
    a1: ThreadLocalAllocator<N>,
    s1: Option<State>,
    blocks: Seq<usize>,
    size: int,
)
    requires
        carries(a0, s0, a1, s1),
        committing(a0, s0, a1, s1, blocks, size),
    ensures
        broke(a0, s0, a1, 0, 0),
{
    reveal(committing);
    reveal(keeps);
    assert forall|at: int| #[trigger] a1.held(at) <= total(a0, s0, at) + covers(0, 0, at) by {
        lemma_state_cover(s1, at);
        lemma_blocks_cover_nonnegative(blocks, size, at);
        assert(total(a1, s1, at) + blocks_cover(blocks, size, at) <= total(a0, s0, at));
    }
}

/// A failure while a state is being committed.
pub proof fn lemma_committing_broken<N: NonLocalPtrManager>(
    a0: ThreadLocalAllocator<N>,
    s0: Option<State>,
    a1: ThreadLocalAllocator<N>,
    s1: Option<State>,
    a2: ThreadLocalAllocator<N>,
    blocks: Seq<usize>,
    size: int,
    gave: (int, int),
)
    requires
        carries(a0, s0, a1, s1),
        committing(a0, s0, a1, s1, blocks, size),
        broke(a1, s1, a2, gave.0, gave.1),
        gave.1 <= 0 || (blocks.len() > 0 && blocks[0] == gave.0 && size == gave.1),
    ensures
        broke(a0, s0, a2, 0, 0),
        turned_down(a1, a2) ==> turned_down(a0, a2),
        forall|cause: PanicCause|
            bound_hit(a1, s1, a2, gave.0, gave.1, cause) ==> #[trigger] bound_hit(
                a0,
                s0,
                a2,
                0,
                0,
                cause,
            ),
{
    lemma_follows(a0.inner.env, a1.inner.env, a2.inner.env);
    reveal(committing);
    reveal(keeps);
    assert forall|at: int| #[trigger]
        total(a1, s1, at) + covers(gave.0, gave.1, at) <= total(a0, s0, at) + covers(0, 0, at) by {
        assert(total(a1, s1, at) + blocks_cover(blocks, size, at) <= total(a0, s0, at));
        if gave.1 <= 0 {
            lemma_blocks_cover_nonnegative(blocks, size, at);
        } else {
            let one = seq![blocks[0]];
            let rest = blocks.skip(1);
            assert(blocks =~= one + rest);
            lemma_blocks_cover_add(one, rest, size, at);
            lemma_blocks_cover_nonnegative(rest, size, at);
            assert(one.drop_last() =~= Seq::<usize>::empty());
            assert(blocks_cover(one, size, at) == blocks_cover(one.drop_last(), size, at) + covers(
                one.last() as int,
                size,
                at,
            ));
        }
    }    assert forall|at: int| #[trigger] a2.held(at) <= total(a0, s0, at) + covers(0, 0, at) by {
        assert(a2.held(at) <= total(a1, s1, at) + covers(gave.0, gave.1, at));
    }
    lemma_bound_after(a0, s0, a1, s1, a2, 0, 0, gave.0, gave.1);
}

/// Giving back the object that held a node.
pub proof fn lemma_committing_gave<N: NonLocalPtrManager>(
    a0: ThreadLocalAllocator<N>,
    s0: Option<State>,
    a1: ThreadLocalAllocator<N>,
    a2: ThreadLocalAllocator<N>,
    ptr: usize,
    rest: Seq<usize>,
    size: int,
    r: Result<(), PanicCause>,
)
    requires
        carries(a0, s0, a1, None),
        committing(a0, s0, a1, None, seq![ptr] + rest, size),
        done(a1, None, a2, None, ptr as int, size, r),
        size > 0,
    ensures
        match r {
            Ok(()) => carries(a0, s0, a2, None) && committing(a0, s0, a2, None, rest, size),
            Err(cause) => failed(a0, s0, a2, 0, 0, cause),
        },
{
    let none = None::<State>;
    let blocks = seq![ptr] + rest;
    match r {
        Ok(()) => {
            reveal(committing);
            reveal(holds);
    reveal(follows);
            reveal(counts);
            lemma_carries(a0, s0, a1, none, a2, none);
            assert(blocks[0] == ptr);
            assert forall|i: int| 0 <= i < rest.len() implies blocks.contains(
                #[trigger] rest[i],
            ) by {
                assert(blocks[i + 1] == rest[i]);
            }
            lemma_brought(a0, s0, a1, none, a2, none, blocks, 0, size, rest);
            assert forall|at: int| #[trigger]
                total(a2, none, at) + blocks_cover(rest, size, at) <= total(a0, s0, at) by {
                let one = seq![ptr];
                lemma_blocks_cover_add(one, rest, size, at);
                assert(one.drop_last() =~= Seq::<usize>::empty());
                assert(blocks_cover(one, size, at) == blocks_cover(one.drop_last(), size, at)
                    + covers(one.last() as int, size, at));
                assert(total(a2, none, at) + covers(0, 0, at) <= total(a1, none, at) + covers(
                    ptr as int,
                    size,
                    at,
                ));
                assert(total(a1, none, at) + blocks_cover(blocks, size, at) <= total(a0, s0, at));
            }
            assert forall|class: int| 0 <= class < 216 implies #[trigger] live(a2, none, class)
                >= live(a0, s0, class) + rest.len() * is_of_class(size, class) by {
                let k = is_of_class(size, class);
                let n = rest.len() as int;
                assert(live(a2, none, class) + k >= live(a1, none, class) + is_of_class(0, class));
                assert(live(a1, none, class) >= live(a0, s0, class) + blocks.len() * k);
                assert((n + 1) * k == n * k + k) by (nonlinear_arith);
                assert(blocks.len() == n + 1);
            }
            if is_counted(a2) {
                assert forall|class: int| 0 <= class < 216 implies #[trigger] live(a2, none, class)
                    <= live(a0, s0, class) + rest.len() * is_of_class(size, class) + slack(
                    a0,
                    a2,
                ) by {
                    let k = is_of_class(size, class);
                    let n = rest.len() as int;
                    assert(live(a2, none, class) + k <= live(a1, none, class) + is_of_class(
                        0,
                        class,
                    ) + slack(a1, a2));
                    assert(live(a1, none, class) <= live(a0, s0, class) + blocks.len() * k + slack(
                        a0,
                        a1,
                    ));
                    assert((n + 1) * k == n * k + k) by (nonlinear_arith);
                    assert(blocks.len() == n + 1);
                }
            }
        },
        Err(_) => {
            lemma_committing_broken(a0, s0, a1, none, a2, blocks, size, (ptr as int, size));
        },
    }
}

/// After the last object was given back.
pub proof fn lemma_committing_ends<N: NonLocalPtrManager>(
    a0: ThreadLocalAllocator<N>,
    s0: Option<State>,
    a1: ThreadLocalAllocator<N>,
    blocks: Seq<usize>,
    size: int,
)
    requires
        blocks.len() == 0,
        committing(a0, s0, a1, None, blocks, size),
    ensures
        holds(a0, s0, a1, None, 0, 0, 0, 0),
        counts(a0, s0, a1, None, 0, 0),
        passes(a0, s0, a1, None, (0, 0, 0, 0)),
{
    assert(blocks =~= Seq::<usize>::empty());
    lemma_brings_nothing(a0, s0, a1, None);
    reveal(committing);
    reveal(holds);
    reveal(follows);
    reveal(counts);
    let none = None::<State>;
    assert forall|at: int| #[trigger]
        total(a1, none, at) + covers(0, 0, at) <= total(a0, s0, at) + covers(0, 0, at) by {
        assert(total(a1, none, at) + blocks_cover(blocks, size, at) <= total(a0, s0, at));
    }
    assert forall|class: int| 0 <= class < 216 implies #[trigger] live(a1, none, class)
        + is_of_class(0, class) >= live(a0, s0, class) + is_of_class(0, class) by {
        assert(live(a1, none, class) >= live(a0, s0, class) + 0 * is_of_class(size, class));
    }
    if is_counted(a1) {
        assert forall|class: int| 0 <= class < 216 implies #[trigger] live(a1, none, class)
            + is_of_class(0, class) <= live(a0, s0, class) + is_of_class(0, class) + slack(
            a0,
            a1,
        ) by {
            assert(live(a1, none, class) <= live(a0, s0, class) + 0 * is_of_class(size, class)
                + slack(a0, a1));
        }
    }
}

} // verus!
