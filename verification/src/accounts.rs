//! The accounts of an allocator: which memory it holds, how many objects are out, and what its
//! operations can still use up.
//!
//! Memory that is not handed out is held by the allocator, by the state that it is building its
//! structures in, or waits in a mapping. An operation never holds a byte more often than it did
//! before, but for what it was given. The number of objects of a class that are out counts what
//! was handed out and not given back, without the objects that serve the allocator itself.
use crate::blocks::covers;
use crate::deallocation::has_no_owner;
use crate::failures::PanicCause;
use crate::inner::{
    elem_wf, is_of_class, lemma_parts_cover_nonnegative, slot_wf, slots_spare, Parts, MAX_MAP_NODES,
};
use crate::non_local_ptr_manager::{
    lemma_nodes_nonnegative, nodes_abroad, nodes_cover, nodes_of_class, Node, NonLocalPtrManager,
};
use crate::os::{follows, lemma_follows, lemma_follows_itself, lemma_traded, short, traded};
use crate::ownership::{
    gives_chunk, is_promised, lemma_passes, lemma_passes_env, lemma_passes_lifted, passes,
};
use crate::placement::{
    chain_committed, is_committed, lemma_keeps_itself, lemma_pool_cover, lemma_stays_committed,
    nodes_stay,
};
use crate::region::chunks_taken;
use crate::self_vec::SelfAllocatedVec;
use crate::sizes::recommended;
use crate::state::{lemma_chain_cover_nonnegative, State};
use crate::thread_local_allocator::ThreadLocalAllocator;
use vstd::prelude::*;

verus! {

/// How often a state covers the byte at `at`.
pub open spec fn state_cover(state: Option<State>, at: int) -> int {
    match state {
        Some(state) => state.cover(at),
        None => 0,
    }
}

/// How many objects of the class are out of a state.
pub open spec fn state_out(state: Option<State>, class: int) -> int {
    match state {
        Some(state) => state.out(class),
        None => 0,
    }
}

/// The chunks that a state can still carve.
pub open spec fn state_potential(state: Option<State>) -> nat {
    match state {
        Some(state) => state.potential(),
        None => 0,
    }
}

/// What the chunks of a state weigh, carved or not.
pub open spec fn state_weight(state: Option<State>) -> int {
    match state {
        Some(state) => state.weight(),
        None => 0,
    }
}

/// How many regions a state holds.
pub open spec fn state_nodes(state: Option<State>) -> nat {
    match state {
        Some(state) => state.nodes@.len(),
        None => 0,
    }
}

/// Whether an incoming node can be taken.
pub open spec fn node_wf(node: Node) -> bool {
    &&& node.is_valid()
    &&& node.address > 0
    &&& elem_wf(node.class(), node.value.ptr)
}

/// The nodes that have come in to a manager, if there is one.
pub open spec fn nodes_of<N: NonLocalPtrManager>(manager: Option<N>) -> Seq<Node> {
    match manager {
        Some(manager) => manager.incoming(),
        None => Seq::empty(),
    }
}

impl<N: NonLocalPtrManager> ThreadLocalAllocator<N> {
    /// The nodes that have come in.
    pub open spec fn incoming(self) -> Seq<Node> {
        nodes_of(self.non_local_ptr_manager)
    }

    /// Whether the allocator is sound. Without a manager there are no chunks to carve.
    pub open spec fn wf(self) -> bool {
        &&& self.inner.wf()
        &&& self.non_local_ptr_manager is Some <==> self.inner.manager_ptr != 0
        &&& self.inner.manager_ptr != 0 ==> self.inner.manager_block == recommended(
            N::size_spec() as int,
        )
        &&& self.inner.manager_ptr == 0 ==> self.inner.vectors@[432]@.len() == 0
            && self.inner.vectors@[433]@.len() == 0
        &&& forall|i: int| 0 <= i < self.incoming().len() ==> node_wf(#[trigger] self.incoming()[i])
    }

    /// How often the memory that the allocator holds covers the byte at `at`.
    pub open spec fn held(self, at: int) -> int {
        self.inner.cover(at) + nodes_cover(self.incoming(), at)
    }

    /// How many objects of the class are out: handed out, not given back, and not in use by the
    /// allocator itself.
    pub open spec fn live(self, class: int) -> int {
        self.inner.parts().out(class) - nodes_of_class(self.incoming(), class)
    }

    /// What the chunks of the allocator weigh, carved or not, counted in common chunks.
    pub open spec fn weight(self) -> int {
        self.inner.parts().weight()
    }

    /// How many messages are in the outbox, with those that are still to be sent for what has come
    /// in.
    pub open spec fn messages(self) -> int {
        self.inner.env.outbox@.len() + nodes_abroad(self.incoming())
    }

    /// How many mappings wait.
    pub open spec fn unread(self) -> int {
        self.inner.env.unread()
    }

    /// The chunks that are not carved, counted in common chunks.
    pub open spec fn potential(self) -> nat {
        self.inner.parts().potential()
    }

    /// By how much the vectors can still grow.
    pub open spec fn spare(self) -> int {
        self.inner.parts().spare()
    }

    /// The number of elements of a vector.
    pub open spec fn len_of(self, slot: int) -> nat {
        self.inner.vectors@[slot]@.len()
    }

    /// The capacity of a vector.
    pub open spec fn cap_of(self, slot: int) -> u32 {
        self.inner.vectors@[slot].cap
    }
}

/// Whether both tables of chunks exist.
pub open spec fn has_tables<N: NonLocalPtrManager>(a: ThreadLocalAllocator<N>) -> bool {
    a.inner.common_chunk_table != 0 && a.inner.large_chunk_table != 0
}

/// Whether an allocator has nothing yet, but perhaps a manager.
pub open spec fn has_nothing<N: NonLocalPtrManager>(a: ThreadLocalAllocator<N>) -> bool {
    &&& forall|slot: int| 0 <= slot < 435 ==> #[trigger] a.cap_of(slot) == 0
    &&& a.inner.common_chunk_table == 0
    &&& a.inner.large_chunk_table == 0
    &&& a.inner.allocated_large_sizes.nodes@.len() == 0
    &&& a.incoming().len() == 0
}

/// Whether the tables of chunks have come together: both exist, or the allocator has nothing yet.
pub open spec fn is_set_up<N: NonLocalPtrManager>(a: ThreadLocalAllocator<N>) -> bool {
    has_tables(a) || has_nothing(a)
}

/// An allocator with the same parts is set up like the other.
pub proof fn lemma_set_up_same<N: NonLocalPtrManager>(
    a0: ThreadLocalAllocator<N>,
    a1: ThreadLocalAllocator<N>,
)
    requires
        a1.inner.vectors == a0.inner.vectors,
        a1.inner.common_chunk_table == a0.inner.common_chunk_table,
        a1.inner.large_chunk_table == a0.inner.large_chunk_table,
        a1.inner.allocated_large_sizes.nodes == a0.inner.allocated_large_sizes.nodes,
        a1.incoming() == a0.incoming() || a1.incoming().len() == 0,
    ensures
        is_set_up(a0) ==> is_set_up(a1),
        has_nothing(a0) ==> has_nothing(a1),
{
    if has_nothing(a0) {
        assert forall|slot: int| 0 <= slot < 435 implies #[trigger] a1.cap_of(slot) == 0 by {
            assert(a0.cap_of(slot) == 0);
        }
    }
}

/// An allocator that has nothing has nothing to take an object from.
pub proof fn lemma_has_nothing<N: NonLocalPtrManager>(a: ThreadLocalAllocator<N>)
    requires
        a.wf(),
        has_nothing(a),
    ensures
        forall|slot: int| 0 <= slot < 435 ==> #[trigger] a.len_of(slot) == 0,
        a.inner.allocated_large_sizes.entries@.len() == 0,
{
    assert forall|slot: int| 0 <= slot < 435 implies #[trigger] a.len_of(slot) == 0 by {
        assert(slot_wf(slot, a.inner.parts().vectors[slot]));
        assert(a.cap_of(slot) == 0);
    }
}

/// How often the memory that an allocator and a state hold covers the byte at `at`.
pub open spec fn total<N: NonLocalPtrManager>(
    a: ThreadLocalAllocator<N>,
    s: Option<State>,
    at: int,
) -> int {
    a.held(at) + state_cover(s, at)
}

/// How many objects of the class are out of an allocator and a state.
pub open spec fn live<N: NonLocalPtrManager>(
    a: ThreadLocalAllocator<N>,
    s: Option<State>,
    class: int,
) -> int {
    a.live(class) + state_out(s, class)
}

/// The chunks that an allocator and a state can still carve.
pub open spec fn chunks_left<N: NonLocalPtrManager>(
    a: ThreadLocalAllocator<N>,
    s: Option<State>,
) -> nat {
    a.potential() + state_potential(s)
}

/// Whether an allocator and a state are sound and belong together.
pub open spec fn ready<N: NonLocalPtrManager>(
    a: ThreadLocalAllocator<N>,
    s: Option<State>,
) -> bool {
    &&& a.wf()
    &&& s matches Some(state) ==> state.wf() && state.region_size == a.inner.env.region_size
}

/// Whether no capacity has shrunk.
pub open spec fn caps_kept<N: NonLocalPtrManager>(
    a0: ThreadLocalAllocator<N>,
    a1: ThreadLocalAllocator<N>,
) -> bool {
    forall|slot: int| 0 <= slot < 435 ==> a0.cap_of(slot) <= #[trigger] a1.cap_of(slot)
}

/// Whether an operation has used up nothing: no mapping, no chunk, no incoming node, no spare
/// capacity.
pub open spec fn steady<N: NonLocalPtrManager>(
    a0: ThreadLocalAllocator<N>,
    s0: Option<State>,
    a1: ThreadLocalAllocator<N>,
    s1: Option<State>,
) -> bool {
    &&& a1.unread() == a0.unread()
    &&& chunks_left(a1, s1) == chunks_left(a0, s0)
    &&& a1.incoming().len() == a0.incoming().len()
    &&& a1.spare() == a0.spare()
}

/// Whether an operation that has used up nothing has lengthened no vector.
pub open spec fn calm<N: NonLocalPtrManager>(
    a0: ThreadLocalAllocator<N>,
    s0: Option<State>,
    a1: ThreadLocalAllocator<N>,
    s1: Option<State>,
) -> bool {
    steady(a0, s0, a1, s1) ==> forall|slot: int|
        0 <= slot < 435 ==> #[trigger] a1.len_of(slot) <= a0.len_of(slot)
}

/// What every operation keeps that takes a state along.
pub open spec fn evolves<N: NonLocalPtrManager>(
    a0: ThreadLocalAllocator<N>,
    s0: Option<State>,
    a1: ThreadLocalAllocator<N>,
    s1: Option<State>,
) -> bool {
    &&& carries(a0, s0, a1, s1)
    &&& s0 is Some <==> s1 is Some
}

/// What every operation keeps.
pub open spec fn carries<N: NonLocalPtrManager>(
    a0: ThreadLocalAllocator<N>,
    s0: Option<State>,
    a1: ThreadLocalAllocator<N>,
    s1: Option<State>,
) -> bool {
    &&& ready(a1, s1)
    &&& a1.inner.env.region_size == a0.inner.env.region_size
    &&& a1.unread() < a0.unread() || (a1.unread() == a0.unread() && chunks_left(a1, s1)
        <= chunks_left(a0, s0))
    &&& a1.unread() + state_nodes(s1) <= a0.unread() + state_nodes(s0)
    &&& a1.incoming().len() <= a0.incoming().len()
    &&& a1.incoming() == a0.incoming() || a1.incoming().len() == 0
    &&& caps_kept(a0, a1)
    &&& a1.spare() <= a0.spare()
    &&& a0.inner.common_chunk_table != 0 ==> a1.inner.common_chunk_table != 0
    &&& a0.inner.large_chunk_table != 0 ==> a1.inner.large_chunk_table != 0
    &&& a0.inner.manager_ptr != 0 ==> a1.inner.manager_ptr == a0.inner.manager_ptr
    &&& a0.inner.is_destructor_registered ==> a1.inner.is_destructor_registered
    &&& follows(a0.inner.env, a1.inner.env)
    &&& keeps_sizes(a0, a1)
    &&& has_tables(a0) ==> a1.inner.replaced == a0.inner.replaced
    &&& a0.inner.env.refusals@.len() != a1.inner.env.refusals@.len() ==> turned_down(a0, a1)
    &&& regions_committed(a0, s0) ==> regions_committed(a1, s1)
}

/// Whether all regions of an allocator and of a state were made readable and writable.
#[verifier::opaque]
pub open spec fn regions_committed<N: NonLocalPtrManager>(
    a: ThreadLocalAllocator<N>,
    s: Option<State>,
) -> bool {
    &&& forall|i: int|
        0 <= i < a.inner.vectors@[434]@.len() ==> is_committed(
            a.inner.env,
            #[trigger] a.inner.vectors@[434]@[i],
        )
    &&& s matches Some(st) ==> chain_committed(a.inner.env, st.chain())
}

/// Regions stay readable and writable where no other one is listed.
pub proof fn lemma_regions_stay<N: NonLocalPtrManager>(
    a0: ThreadLocalAllocator<N>,
    s0: Option<State>,
    a1: ThreadLocalAllocator<N>,
    s1: Option<State>,
)
    requires
        follows(a0.inner.env, a1.inner.env),
        forall|i: int|
            0 <= i < a1.inner.vectors@[434]@.len() ==> a0.inner.vectors@[434]@.contains(
                #[trigger] a1.inner.vectors@[434]@[i],
            ),
        s1 matches Some(st) ==> s0 is Some && (chain_committed(a0.inner.env, s0->0.chain())
            ==> chain_committed(a1.inner.env, st.chain())),
    ensures
        regions_committed(a0, s0) ==> regions_committed(a1, s1),
{
    reveal(follows);
    reveal(regions_committed);
    lemma_stays_committed(a0.inner.env, a1.inner.env);
    if regions_committed(a0, s0) {
        assert forall|i: int| 0 <= i < a1.inner.vectors@[434]@.len() implies is_committed(
            a1.inner.env,
            #[trigger] a1.inner.vectors@[434]@[i],
        ) by {
            let region = a1.inner.vectors@[434]@[i];
            let j = a0.inner.vectors@[434]@.index_of(region);
            assert(a0.inner.vectors@[434]@[j] == region);
        }
    }
}

/// Regions stay readable and writable where the same ones are listed and the state is the same.
pub proof fn lemma_regions_same<N: NonLocalPtrManager>(
    a0: ThreadLocalAllocator<N>,
    a1: ThreadLocalAllocator<N>,
)
    requires
        follows(a0.inner.env, a1.inner.env),
        a1.inner.vectors@[434]@ == a0.inner.vectors@[434]@,
    ensures
        forall|s: Option<State>|
            regions_committed(a0, s) ==> #[trigger] regions_committed(a1, s),
{
    reveal(follows);
    reveal(regions_committed);
    lemma_stays_committed(a0.inner.env, a1.inner.env);
}

/// Whether the numbers of extra large blocks are what they were, unless such a block was asked for
/// or given back. A block of the size that regions are mapped with cannot be told from a region.
pub open spec fn keeps_sizes<N: NonLocalPtrManager>(
    a0: ThreadLocalAllocator<N>,
    a1: ThreadLocalAllocator<N>,
) -> bool {
    traded(a0.inner.env, a1.inner.env) || forall|size: usize|
        size != 2 * a0.inner.env.region_size - 1 ==> #[trigger] a1.inner.count_of(size)
            == a0.inner.count_of(size)
}

/// The numbers of extra large blocks are kept where neither they nor the environment differ.
pub proof fn lemma_sizes_same<N: NonLocalPtrManager>(
    a0: ThreadLocalAllocator<N>,
    a1: ThreadLocalAllocator<N>,
    a2: ThreadLocalAllocator<N>,
)
    requires
        keeps_sizes(a0, a1),
        a2.inner.env == a1.inner.env,
        a2.inner.allocated_large_sizes == a1.inner.allocated_large_sizes,
    ensures
        keeps_sizes(a0, a2),
{
    if !traded(a0.inner.env, a2.inner.env) {
        assert forall|size: usize|
            size != 2 * a0.inner.env.region_size - 1 implies #[trigger] a2.inner.count_of(size)
            == a0.inner.count_of(size) by {
            assert(a1.inner.count_of(size) == a0.inner.count_of(size));
        }
    }
}

/// What an operation does to the memory that is held that was given the block of `gave_size` bytes
/// at `gave` and has handed out the block of `got_size` bytes at `got`.
#[verifier::opaque]
pub open spec fn holds<N: NonLocalPtrManager>(
    a0: ThreadLocalAllocator<N>,
    s0: Option<State>,
    a1: ThreadLocalAllocator<N>,
    s1: Option<State>,
    gave: int,
    gave_size: int,
    got: int,
    got_size: int,
) -> bool {
    forall|at: int| #[trigger]
        total(a1, s1, at) + covers(got, got_size, at) <= total(a0, s0, at) + covers(
            gave,
            gave_size,
            at,
        )
}

/// What the chunks of an allocator and a state weigh beyond those that all regions have brought at
/// least.
pub open spec fn chunk_balance<N: NonLocalPtrManager>(
    a: ThreadLocalAllocator<N>,
    s: Option<State>,
) -> int {
    a.weight() + state_weight(s) - chunks_taken(a.inner.env)
}

/// What is never taken back: requests that were turned down, messages that were sent, memory that
/// was left over.
pub open spec fn trails<N: NonLocalPtrManager>(
    a0: ThreadLocalAllocator<N>,
    a1: ThreadLocalAllocator<N>,
) -> bool {
    &&& a0.inner.env.refusals@.len() <= a1.inner.env.refusals@.len()
    &&& a0.messages() <= a1.messages()
    &&& a0.inner.given_up <= a1.inner.given_up
    &&& a0.inner.replaced <= a1.inner.replaced
}

/// Whether what is given up and replaced is still counted.
pub open spec fn is_counted<N: NonLocalPtrManager>(a: ThreadLocalAllocator<N>) -> bool {
    a.inner.given_up < u64::MAX && a.inner.replaced < u64::MAX
}

/// How many objects of a class an operation can have lost: those of a chunk for each request for
/// memory that was turned down, an object and the node that carries it for each pointer that was sent
/// on to another allocator, and a table for each one that was replaced.
pub open spec fn slack<N: NonLocalPtrManager>(
    a0: ThreadLocalAllocator<N>,
    a1: ThreadLocalAllocator<N>,
) -> int {
    8192 * (a1.inner.env.refusals@.len() - a0.inner.env.refusals@.len()) + 2 * (a1.messages()
        - a0.messages()) + (a1.inner.replaced - a0.inner.replaced)
}

/// How many chunks an operation can have lost, counted in common chunks: a large one and a common one
/// for each request for memory that was turned down, and those that were given up.
pub open spec fn chunk_slack<N: NonLocalPtrManager>(
    a0: ThreadLocalAllocator<N>,
    a1: ThreadLocalAllocator<N>,
) -> int {
    9 * (a1.inner.env.refusals@.len() - a0.inner.env.refusals@.len()) + 8 * (a1.inner.given_up
        - a0.inner.given_up)
}

/// What a chunk weighs that was given or handed out instead of an object: a size below zero stands
/// for as many common chunks.
pub open spec fn chunk_mark(size: int) -> int {
    if size < 0 {
        -size
    } else {
        0
    }
}

/// What an operation does to the numbers of objects that are out that was given an object of
/// `gave_size` bytes and has handed out one of `got_size` bytes: the numbers are exact but for the few
/// objects that can be lost, and so are the chunks.
#[verifier::opaque]
pub open spec fn counts<N: NonLocalPtrManager>(
    a0: ThreadLocalAllocator<N>,
    s0: Option<State>,
    a1: ThreadLocalAllocator<N>,
    s1: Option<State>,
    gave_size: int,
    got_size: int,
) -> bool {
    &&& trails(a0, a1)
    &&& forall|class: int|
        0 <= class < 216 ==> #[trigger] live(a1, s1, class) + is_of_class(gave_size, class) >= live(
            a0,
            s0,
            class,
        ) + is_of_class(got_size, class)
    &&& is_counted(a1) ==> {
        &&& forall|class: int|
            0 <= class < 216 ==> #[trigger] live(a1, s1, class) + is_of_class(gave_size, class)
                <= live(a0, s0, class) + is_of_class(got_size, class) + slack(a0, a1)
        &&& chunk_balance(a1, s1) + chunk_mark(got_size) + chunk_slack(a0, a1) >= chunk_balance(
            a0,
            s0,
        ) + chunk_mark(gave_size)
    }
}

/// Whether an operation that came back with nothing, as memory was refused, has lost less than it
/// could have: what is then dropped is covered by the refusal.
#[verifier::opaque]
pub open spec fn spared<N: NonLocalPtrManager>(
    a0: ThreadLocalAllocator<N>,
    s0: Option<State>,
    a1: ThreadLocalAllocator<N>,
    s1: Option<State>,
) -> bool {
    &&& trails(a0, a1)
    &&& is_counted(a1) ==> {
        &&& forall|class: int|
            0 <= class < 216 ==> #[trigger] live(a1, s1, class) + 8192 <= live(a0, s0, class)
                + slack(a0, a1)
        &&& chunk_balance(a1, s1) + chunk_slack(a0, a1) >= chunk_balance(a0, s0) + 9
    }
}

/// An operation that lost less than it could have, before or after another one.
pub proof fn lemma_spared<N: NonLocalPtrManager>(
    a0: ThreadLocalAllocator<N>,
    s0: Option<State>,
    a1: ThreadLocalAllocator<N>,
    s1: Option<State>,
    a2: ThreadLocalAllocator<N>,
    s2: Option<State>,
)
    requires
        counts(a0, s0, a1, s1, 0, 0) && spared(a1, s1, a2, s2) || spared(a0, s0, a1, s1) && counts(
            a1,
            s1,
            a2,
            s2,
            0,
            0,
        ),
    ensures
        spared(a0, s0, a2, s2),
{
    reveal(counts);
    reveal(spared);
    assert forall|class: int| 0 <= class < 216 && is_counted(a2) implies #[trigger] live(
        a2,
        s2,
        class,
    ) + 8192 <= live(a0, s0, class) + slack(a0, a2) by {
        assert(live(a1, s1, class) <= live(a0, s0, class) + slack(a0, a1));
        assert(live(a2, s2, class) <= live(a1, s1, class) + slack(a1, a2));
        assert(live(a1, s1, class) + 8192 <= live(a0, s0, class) + slack(a0, a1) || live(
            a2,
            s2,
            class,
        ) + 8192 <= live(a1, s1, class) + slack(a1, a2));
    }
}

/// A state that was left alone.
pub proof fn lemma_spared_lifted<N: NonLocalPtrManager>(
    a0: ThreadLocalAllocator<N>,
    a1: ThreadLocalAllocator<N>,
    s: Option<State>,
)
    requires
        spared(a0, None, a1, None),
    ensures
        spared(a0, s, a1, s),
{
    reveal(spared);
    let none = None::<State>;
    assert forall|class: int| 0 <= class < 216 && is_counted(a1) implies #[trigger] live(
        a1,
        s,
        class,
    ) + 8192 <= live(a0, s, class) + slack(a0, a1) by {
        assert(live(a1, none, class) + 8192 <= live(a0, none, class) + slack(a0, a1));
    }
}

/// A chunk that was handed out and is lost, as memory was refused meanwhile.
pub proof fn lemma_lost_chunk<N: NonLocalPtrManager>(
    a0: ThreadLocalAllocator<N>,
    s0: Option<State>,
    a1: ThreadLocalAllocator<N>,
    s1: Option<State>,
    a2: ThreadLocalAllocator<N>,
    s2: Option<State>,
    mark: int,
    left: int,
)
    requires
        counts(a0, s0, a1, s1, 0, mark),
        counts(a1, s1, a2, s2, 0, 0),
        spared(a1, s1, a2, s2),
        -9 <= mark <= left <= 0,
    ensures
        counts(a0, s0, a2, s2, 0, left),
{
    lemma_counts(a0, s0, a1, s1, a2, s2, (0, mark), (0, 0));
    reveal(counts);
    reveal(spared);
}

/// What is left of the accounts after a failure: the allocator holds nothing twice, but may have
/// lost memory.
pub open spec fn broke<N: NonLocalPtrManager>(
    a0: ThreadLocalAllocator<N>,
    s0: Option<State>,
    a1: ThreadLocalAllocator<N>,
    gave: int,
    gave_size: int,
) -> bool {
    &&& a1.wf()
    &&& a1.inner.env.region_size == a0.inner.env.region_size
    &&& follows(a0.inner.env, a1.inner.env)
    &&& keeps(a0, s0, a1, gave, gave_size)
}

/// Whether an allocator holds no byte more often than it did with a state before, but for what it
/// was given.
#[verifier::opaque]
pub open spec fn keeps<N: NonLocalPtrManager>(
    a0: ThreadLocalAllocator<N>,
    s0: Option<State>,
    a1: ThreadLocalAllocator<N>,
    gave: int,
    gave_size: int,
) -> bool {
    forall|at: int| #[trigger]
        a1.held(at) <= total(a0, s0, at) + covers(gave, gave_size, at)
}

/// Whether a vector of the allocator is so great that it may not be able to grow.
pub open spec fn is_wide<N: NonLocalPtrManager>(a: ThreadLocalAllocator<N>) -> bool {
    exists|slot: int| 0 <= slot < 435 && #[trigger] a.cap_of(slot) > 0x3C0_0000
}

/// Whether a request for memory was turned down between one moment and another.
pub open spec fn turned_down<N: NonLocalPtrManager>(
    a0: ThreadLocalAllocator<N>,
    a1: ThreadLocalAllocator<N>,
) -> bool {
    short(a0.inner.env, a1.inner.env)
}

/// Whether a vector of the allocator, its map of extra large sizes or a count in it is so great
/// that it may not be able to grow.
pub open spec fn is_vast<N: NonLocalPtrManager>(a: ThreadLocalAllocator<N>) -> bool {
    ||| is_wide(a)
    ||| a.inner.allocated_large_sizes.nodes@.len() >= MAX_MAP_NODES
    ||| exists|size: usize| #[trigger] a.inner.count_of(size) == usize::MAX
}

/// Whether nobody is known whom a byte belongs to that was held or given, or the memory of a node
/// that has come in.
pub open spec fn is_unowned<N: NonLocalPtrManager>(
    a0: ThreadLocalAllocator<N>,
    s0: Option<State>,
    a1: ThreadLocalAllocator<N>,
    gave: int,
    gave_size: int,
) -> bool {
    ||| exists|at: int| #[trigger]
        has_no_owner(a1, at) && total(a0, s0, at) + covers(gave, gave_size, at) > 0
    ||| exists|i: int|
        0 <= i < a0.incoming().len() && has_no_owner(
            a1,
            (#[trigger] a0.incoming()[i]).address as int,
        )
}

/// When a failure comes without a refused request for memory: something was too great to grow, a
/// state had more regions than its commitment can give back, or a pointer had no owner.
#[verifier::opaque]
pub open spec fn bound_hit<N: NonLocalPtrManager>(
    a0: ThreadLocalAllocator<N>,
    s0: Option<State>,
    a1: ThreadLocalAllocator<N>,
    gave: int,
    gave_size: int,
    cause: PanicCause,
) -> bool {
    &&& cause is CapacityOverflow ==> is_vast(a1)
    &&& cause is TooManyStates ==> a1.unread() + 9 <= a0.unread() + state_nodes(s0)
    &&& cause is MissingMetadata ==> is_unowned(a0, s0, a1, gave, gave_size)
}

/// Whether a failure is accounted for: memory was refused, or a bound was hit.
pub open spec fn failed<N: NonLocalPtrManager>(
    a0: ThreadLocalAllocator<N>,
    s0: Option<State>,
    a1: ThreadLocalAllocator<N>,
    gave: int,
    gave_size: int,
    cause: PanicCause,
) -> bool {
    &&& broke(a0, s0, a1, gave, gave_size)
    &&& if cause.is_bound() {
        bound_hit(a0, s0, a1, gave, gave_size, cause)
    } else {
        turned_down(a0, a1)
    }
}

/// What a request for `size` bytes leaves behind. Where an answer is owed, none is given only if
/// memory was refused.
pub open spec fn served<N: NonLocalPtrManager>(
    a0: ThreadLocalAllocator<N>,
    s0: Option<State>,
    a1: ThreadLocalAllocator<N>,
    s1: Option<State>,
    size: int,
    r: Result<Option<usize>, PanicCause>,
    owed: bool,
) -> bool {
    match r {
        Ok(Some(ptr)) => {
            &&& evolves(a0, s0, a1, s1)
            &&& holds(a0, s0, a1, s1, 0, 0, ptr as int, size)
            &&& counts(a0, s0, a1, s1, 0, size)
            &&& passes(a0, s0, a1, s1, (0, 0, ptr as int, size))
            &&& 0 < ptr
            &&& ptr + size <= usize::MAX
        },
        Ok(None) => {
            &&& evolves(a0, s0, a1, s1)
            &&& holds(a0, s0, a1, s1, 0, 0, 0, 0)
            &&& counts(a0, s0, a1, s1, 0, 0)
            &&& passes(a0, s0, a1, s1, (0, 0, 0, 0))
            &&& owed ==> turned_down(a0, a1)
        },
        Err(cause) => failed(a0, s0, a1, 0, 0, cause),
    }
}

/// What an operation leaves behind that was given the block of `gave_size` bytes at `gave`.
pub open spec fn done<N: NonLocalPtrManager>(
    a0: ThreadLocalAllocator<N>,
    s0: Option<State>,
    a1: ThreadLocalAllocator<N>,
    s1: Option<State>,
    gave: int,
    gave_size: int,
    r: Result<(), PanicCause>,
) -> bool {
    match r {
        Ok(()) => {
            &&& evolves(a0, s0, a1, s1)
            &&& holds(a0, s0, a1, s1, gave, gave_size, 0, 0)
            &&& counts(a0, s0, a1, s1, gave_size, 0)
            &&& passes(a0, s0, a1, s1, (gave, gave_size, 0, 0))
        },
        Err(cause) => failed(a0, s0, a1, gave, gave_size, cause),
    }
}

/// What an operation does that was given a block and has handed out a block; `deal` holds the
/// address and the size of the one and of the other.
pub open spec fn step<N: NonLocalPtrManager>(
    a0: ThreadLocalAllocator<N>,
    s0: Option<State>,
    a1: ThreadLocalAllocator<N>,
    s1: Option<State>,
    deal: (int, int, int, int),
) -> bool {
    &&& evolves(a0, s0, a1, s1)
    &&& holds(a0, s0, a1, s1, deal.0, deal.1, deal.2, deal.3)
    &&& counts(a0, s0, a1, s1, deal.1, deal.3)
    &&& passes(a0, s0, a1, s1, deal)
}

/// What taking a chunk leaves behind.
pub open spec fn took_chunk<N: NonLocalPtrManager>(
    a0: ThreadLocalAllocator<N>,
    s0: Option<State>,
    a1: ThreadLocalAllocator<N>,
    s1: Option<State>,
    size: int,
    r: Result<Option<usize>, PanicCause>,
    owed: bool,
) -> bool {
    match r {
        Ok(Some(chunk)) => {
            &&& evolves(a0, s0, a1, s1)
            &&& holds(a0, s0, a1, s1, 0, 0, chunk as int, size)
            &&& counts(a0, s0, a1, s1, 0, -(size / 65536))
            &&& passes(a0, s0, a1, s1, (0, 0, 0, 0))
            &&& gives_chunk(a0, s0, a1, chunk as int, size)
            &&& a1.inner.manager_ptr != 0
            &&& a1.unread() < a0.unread() || (a1.unread() == a0.unread() && chunks_left(a1, s1)
                + size / 65536 <= chunks_left(a0, s0))
            &&& 0 < chunk
            &&& chunk + size <= usize::MAX
        },
        Ok(None) => {
            &&& step(a0, s0, a1, s1, (0, 0, 0, 0))
            &&& calm(a0, s0, a1, s1)
            &&& owed ==> turned_down(a0, a1)
            &&& !owed ==> a1 == a0 && s1 == s0
        },
        Err(cause) => failed(a0, s0, a1, 0, 0, cause),
    }
}

/// An operation that leaves a state alone.
pub proof fn lemma_lift<N: NonLocalPtrManager>(
    a0: ThreadLocalAllocator<N>,
    a1: ThreadLocalAllocator<N>,
    s: Option<State>,
    deal: (int, int, int, int),
)
    requires
        ready(a0, s),
    ensures
        evolves(a0, None, a1, None) ==> evolves(a0, s, a1, s),
        holds(a0, None, a1, None, deal.0, deal.1, deal.2, deal.3) ==> holds(
            a0,
            s,
            a1,
            s,
            deal.0,
            deal.1,
            deal.2,
            deal.3,
        ),
        counts(a0, None, a1, None, deal.1, deal.3) ==> counts(a0, s, a1, s, deal.1, deal.3),
        follows(a0.inner.env, a1.inner.env) && passes(a0, None, a1, None, deal) ==> passes(
            a0,
            s,
            a1,
            s,
            deal,
        ),
        calm(a0, None, a1, None) ==> calm(a0, s, a1, s),
        broke(a0, None, a1, deal.0, deal.1) ==> broke(a0, s, a1, deal.0, deal.1),
        forall|cause: PanicCause|
            bound_hit(a0, None, a1, deal.0, deal.1, cause) ==> #[trigger] bound_hit(
                a0,
                s,
                a1,
                deal.0,
                deal.1,
                cause,
            ),
{
    lemma_bound_lifted(a0, a1, s, deal.0, deal.1);
    if follows(a0.inner.env, a1.inner.env) && passes(a0, None, a1, None, deal) {
        lemma_passes_lifted(a0, a1, s, deal);
    }
    if evolves(a0, None, a1, None) {
        assert(regions_committed(a0, s) ==> regions_committed(a1, s)) by {
            reveal(follows);
            reveal(regions_committed);
            lemma_stays_committed(a0.inner.env, a1.inner.env);
            assert(regions_committed(a0, None) ==> regions_committed(a1, None));
        }
    }
    reveal(holds);
    reveal(counts);
    reveal(keeps);
    let none = None::<State>;
    if holds(a0, none, a1, none, deal.0, deal.1, deal.2, deal.3) {
        assert forall|at: int| #[trigger]
            total(a1, s, at) + covers(deal.2, deal.3, at) <= total(a0, s, at) + covers(
                deal.0,
                deal.1,
                at,
            ) by {
            assert(total(a1, none, at) + covers(deal.2, deal.3, at) <= total(a0, none, at) + covers(
                deal.0,
                deal.1,
                at,
            ));
        }
    }
    if counts(a0, none, a1, none, deal.1, deal.3) {
        assert forall|class: int| 0 <= class < 216 implies #[trigger] live(a1, s, class)
            + is_of_class(deal.1, class) >= live(a0, s, class) + is_of_class(deal.3, class) by {
            assert(live(a1, none, class) + is_of_class(deal.1, class) >= live(a0, none, class)
                + is_of_class(deal.3, class));
        }
        if is_counted(a1) {
            assert forall|class: int| 0 <= class < 216 implies #[trigger] live(a1, s, class)
                + is_of_class(deal.1, class) <= live(a0, s, class) + is_of_class(deal.3, class)
                + slack(a0, a1) by {
                assert(live(a1, none, class) + is_of_class(deal.1, class) <= live(a0, none, class)
                    + is_of_class(deal.3, class) + slack(a0, a1));
            }
        }
    }
    if broke(a0, none, a1, deal.0, deal.1) {
        assert forall|at: int| #[trigger]
            a1.held(at) <= total(a0, s, at) + covers(deal.0, deal.1, at) by {
            lemma_state_cover(s, at);
            assert(a1.held(at) <= total(a0, none, at) + covers(deal.0, deal.1, at));
        }
    }
}

/// One step after another.
pub proof fn lemma_step<N: NonLocalPtrManager>(
    a0: ThreadLocalAllocator<N>,
    s0: Option<State>,
    a1: ThreadLocalAllocator<N>,
    s1: Option<State>,
    a2: ThreadLocalAllocator<N>,
    s2: Option<State>,
    first: (int, int, int, int),
    second: (int, int, int, int),
)
    requires
        step(a0, s0, a1, s1, first),
        step(a1, s1, a2, s2, second),
    ensures
        evolves(a0, s0, a2, s2),
        calm(a0, s0, a1, s1) && calm(a1, s1, a2, s2) ==> calm(a0, s0, a2, s2),
        steady(a0, s0, a2, s2) ==> steady(a0, s0, a1, s1) && steady(a1, s1, a2, s2),
        first.2 == second.0 && first.3 == second.1 ==> step(
            a0,
            s0,
            a2,
            s2,
            (first.0, first.1, second.2, second.3),
        ),
        second.1 == 0 && second.3 == 0 ==> step(a0, s0, a2, s2, first),
        first.1 == 0 && first.3 == 0 ==> step(a0, s0, a2, s2, second),
        turned_down(a0, a1) || turned_down(a1, a2) ==> turned_down(a0, a2),
{
    lemma_carries(a0, s0, a1, s1, a2, s2);
    lemma_holds(a0, s0, a1, s1, a2, s2, first, second);
    lemma_counts(a0, s0, a1, s1, a2, s2, (first.1, first.3), (second.1, second.3));
    lemma_passes(a0, s0, a1, s1, a2, s2, first, second);
}

/// A request after a step.
pub proof fn lemma_served_after<N: NonLocalPtrManager>(
    a0: ThreadLocalAllocator<N>,
    s0: Option<State>,
    a1: ThreadLocalAllocator<N>,
    s1: Option<State>,
    a2: ThreadLocalAllocator<N>,
    s2: Option<State>,
    size: int,
    r: Result<Option<usize>, PanicCause>,
    owed: bool,
)
    requires
        step(a0, s0, a1, s1, (0, 0, 0, 0)),
        served(a1, s1, a2, s2, size, r, owed),
    ensures
        served(a0, s0, a2, s2, size, r, owed),
        r is Ok && calm(a0, s0, a1, s1) && calm(a1, s1, a2, s2) ==> calm(a0, s0, a2, s2),
{
    match r {
        Ok(got) => {
            let deal = if got is Some {
                (0, 0, got->0 as int, size)
            } else {
                (0int, 0int, 0int, 0int)
            };
            lemma_step(a0, s0, a1, s1, a2, s2, (0, 0, 0, 0), deal);
        },
        Err(_) => {
            lemma_broke_after(a0, s0, a1, s1, a2, (0, 0, 0, 0), (0, 0));
        },
    }
}

/// Whether two states differ in nothing that counts.
pub open spec fn alike(s0: Option<State>, s1: Option<State>) -> bool {
    &&& s0 is Some <==> s1 is Some
    &&& s1 matches Some(state) ==> state.wf() && state.region_size == s0->0.region_size
        && state.chain() == s0->0.chain()
    &&& forall|at: int| #[trigger] state_cover(s1, at) == state_cover(s0, at)
    &&& forall|class: int| #[trigger] state_out(s1, class) == state_out(s0, class)
    &&& state_potential(s1) == state_potential(s0)
    &&& state_weight(s1) == state_weight(s0)
    &&& state_nodes(s1) == state_nodes(s0)
}

/// States that are alike are the same to every operation.
pub proof fn lemma_alike<N: NonLocalPtrManager>(
    a: ThreadLocalAllocator<N>,
    s0: Option<State>,
    s1: Option<State>,
)
    requires
        ready(a, s0),
        alike(s0, s1),
    ensures
        step(a, s0, a, s1, (0, 0, 0, 0)),
        calm(a, s0, a, s1),
        steady(a, s0, a, s1),
{
    lemma_follows_itself(a.inner.env);
    lemma_keeps_itself(a.inner.env);
    assert forall|at: int| is_promised(s0, at) implies #[trigger] is_promised(s1, at) by {}
    assert(s1 matches Some(st) ==> nodes_stay(s0->0.chain(), st.chain()));
    assert(regions_committed(a, s0) ==> regions_committed(a, s1)) by {
        reveal(regions_committed);
    }
    lemma_passes_env(a, s0, a, s1);
    reveal(holds);
    reveal(counts);
    reveal(keeps);
    assert forall|at: int| #[trigger] total(a, s1, at) <= total(a, s0, at) by {
        assert(state_cover(s1, at) == state_cover(s0, at));
    }
    assert forall|class: int| 0 <= class < 216 implies #[trigger] live(a, s1, class) == live(
        a,
        s0,
        class,
    ) by {
        assert(state_out(s1, class) == state_out(s0, class));
    }
}

/// One operation after another.
pub proof fn lemma_carries<N: NonLocalPtrManager>(
    a0: ThreadLocalAllocator<N>,
    s0: Option<State>,
    a1: ThreadLocalAllocator<N>,
    s1: Option<State>,
    a2: ThreadLocalAllocator<N>,
    s2: Option<State>,
)
    requires
        carries(a0, s0, a1, s1),
        carries(a1, s1, a2, s2),
    ensures
        carries(a0, s0, a2, s2),
        calm(a0, s0, a1, s1) && calm(a1, s1, a2, s2) ==> calm(a0, s0, a2, s2),
        steady(a0, s0, a2, s2) ==> steady(a0, s0, a1, s1) && steady(a1, s1, a2, s2),
        turned_down(a0, a1) || turned_down(a1, a2) ==> turned_down(a0, a2),
{
    lemma_follows(a0.inner.env, a1.inner.env, a2.inner.env);
    lemma_traded(a0.inner.env, a1.inner.env, a2.inner.env);
    assert(keeps_sizes(a0, a2)) by {
        if !traded(a0.inner.env, a2.inner.env) {
            assert forall|size: usize|
                size != 2 * a0.inner.env.region_size - 1 implies #[trigger] a2.inner.count_of(size)
                == a0.inner.count_of(size) by {
                assert(a1.inner.count_of(size) == a0.inner.count_of(size));
            }
        }
    }
    assert forall|slot: int| 0 <= slot < 435 implies a0.cap_of(slot) <= #[trigger] a2.cap_of(
        slot,
    ) by {
        assert(a0.cap_of(slot) <= a1.cap_of(slot));
    }
    if calm(a0, s0, a1, s1) && calm(a1, s1, a2, s2) && steady(a0, s0, a2, s2) {
        assert forall|slot: int| 0 <= slot < 435 implies #[trigger] a2.len_of(slot)
            <= a0.len_of(slot) by {
            assert(a1.len_of(slot) <= a0.len_of(slot));
        }
    }
}

/// What two operations hold together.
pub proof fn lemma_holds<N: NonLocalPtrManager>(
    a0: ThreadLocalAllocator<N>,
    s0: Option<State>,
    a1: ThreadLocalAllocator<N>,
    s1: Option<State>,
    a2: ThreadLocalAllocator<N>,
    s2: Option<State>,
    first: (int, int, int, int),
    second: (int, int, int, int),
)
    requires
        holds(a0, s0, a1, s1, first.0, first.1, first.2, first.3),
        holds(a1, s1, a2, s2, second.0, second.1, second.2, second.3),
    ensures
        forall|at: int| #[trigger]
            total(a2, s2, at) + covers(first.2, first.3, at) + covers(second.2, second.3, at)
                <= total(a0, s0, at) + covers(first.0, first.1, at) + covers(
                second.0,
                second.1,
                at,
            ),
        first.2 == second.0 && first.3 == second.1 ==> holds(
            a0,
            s0,
            a2,
            s2,
            first.0,
            first.1,
            second.2,
            second.3,
        ),
        second.1 <= 0 && second.3 <= 0 ==> holds(
            a0,
            s0,
            a2,
            s2,
            first.0,
            first.1,
            first.2,
            first.3,
        ),
        first.1 <= 0 && first.3 <= 0 ==> holds(
            a0,
            s0,
            a2,
            s2,
            second.0,
            second.1,
            second.2,
            second.3,
        ),
{
    reveal(holds);
    reveal(counts);
    reveal(keeps);
    assert forall|at: int| #[trigger]
        total(a2, s2, at) + covers(first.2, first.3, at) + covers(second.2, second.3, at) <= total(
            a0,
            s0,
            at,
        ) + covers(first.0, first.1, at) + covers(second.0, second.1, at) by {
        assert(total(a1, s1, at) + covers(first.2, first.3, at) <= total(a0, s0, at) + covers(
            first.0,
            first.1,
            at,
        ));
    }
}

/// What two operations count together.
pub proof fn lemma_counts<N: NonLocalPtrManager>(
    a0: ThreadLocalAllocator<N>,
    s0: Option<State>,
    a1: ThreadLocalAllocator<N>,
    s1: Option<State>,
    a2: ThreadLocalAllocator<N>,
    s2: Option<State>,
    first: (int, int),
    second: (int, int),
)
    requires
        counts(a0, s0, a1, s1, first.0, first.1),
        counts(a1, s1, a2, s2, second.0, second.1),
    ensures
        forall|class: int|
            0 <= class < 216 ==> #[trigger] live(a2, s2, class) + is_of_class(first.0, class)
                + is_of_class(second.0, class) >= live(a0, s0, class) + is_of_class(first.1, class)
                + is_of_class(second.1, class),
        first.1 == second.0 ==> counts(a0, s0, a2, s2, first.0, second.1),
        second.0 == 0 && second.1 == 0 ==> counts(a0, s0, a2, s2, first.0, first.1),
        first.0 == 0 && first.1 == 0 ==> counts(a0, s0, a2, s2, second.0, second.1),
        first.0 == 0 && second.0 == 0 && first.1 <= 0 && second.1 <= 0 ==> counts(
            a0,
            s0,
            a2,
            s2,
            0,
            first.1 + second.1,
        ),
        trails(a0, a2),
{
    reveal(counts);
    if is_counted(a2) {
        assert forall|class: int| 0 <= class < 216 implies #[trigger] live(a2, s2, class)
            + is_of_class(first.0, class) + is_of_class(second.0, class) <= live(a0, s0, class)
            + is_of_class(first.1, class) + is_of_class(second.1, class) + slack(a0, a2) by {
            assert(live(a1, s1, class) + is_of_class(first.0, class) <= live(a0, s0, class)
                + is_of_class(first.1, class) + slack(a0, a1));
            assert(live(a2, s2, class) + is_of_class(second.0, class) <= live(a1, s1, class)
                + is_of_class(second.1, class) + slack(a1, a2));
        }
    }
    assert forall|class: int| 0 <= class < 216 implies #[trigger] live(a2, s2, class) + is_of_class(
        first.0,
        class,
    ) + is_of_class(second.0, class) >= live(a0, s0, class) + is_of_class(first.1, class)
        + is_of_class(second.1, class) by {
        assert(live(a1, s1, class) + is_of_class(first.0, class) >= live(a0, s0, class)
            + is_of_class(first.1, class));
    }
}

/// Whether an operation has used up something.
pub open spec fn lower<N: NonLocalPtrManager>(
    a0: ThreadLocalAllocator<N>,
    s0: Option<State>,
    a1: ThreadLocalAllocator<N>,
    s1: Option<State>,
) -> bool {
    ||| a1.unread() < a0.unread()
    ||| a1.unread() == a0.unread() && chunks_left(a1, s1) < chunks_left(a0, s0)
    ||| a1.unread() == a0.unread() && chunks_left(a1, s1) == chunks_left(a0, s0)
        && a1.incoming().len() < a0.incoming().len()
    ||| a1.unread() == a0.unread() && chunks_left(a1, s1) == chunks_left(a0, s0)
        && a1.incoming().len() == a0.incoming().len() && a1.spare() < a0.spare()
}

/// A state covers no byte less than never.
pub proof fn lemma_state_cover(state: Option<State>, at: int)
    ensures
        state_cover(state, at) >= 0,
{
    if state is Some {
        lemma_chain_cover_nonnegative(state->0.chain(), state->0.region_size as int, at);
    }
}

/// An operation that is broken off.
pub proof fn lemma_broke<N: NonLocalPtrManager>(
    a0: ThreadLocalAllocator<N>,
    s0: Option<State>,
    a1: ThreadLocalAllocator<N>,
    s1: Option<State>,
    trade: (int, int, int, int),
)
    requires
        a1.wf(),
        a1.inner.env.region_size == a0.inner.env.region_size,
        follows(a0.inner.env, a1.inner.env),
        holds(a0, s0, a1, s1, trade.0, trade.1, trade.2, trade.3),
    ensures
        broke(a0, s0, a1, trade.0, trade.1),
{
    reveal(holds);
    reveal(counts);
    reveal(keeps);
    assert forall|at: int| #[trigger]
        a1.held(at) <= total(a0, s0, at) + covers(trade.0, trade.1, at) by {
        lemma_state_cover(s1, at);
        assert(total(a1, s1, at) + covers(trade.2, trade.3, at) <= total(a0, s0, at) + covers(
            trade.0,
            trade.1,
            at,
        ));
    }
}

/// An operation that is broken off after another one.
pub proof fn lemma_broke_after<N: NonLocalPtrManager>(
    a0: ThreadLocalAllocator<N>,
    s0: Option<State>,
    a1: ThreadLocalAllocator<N>,
    s1: Option<State>,
    a2: ThreadLocalAllocator<N>,
    first: (int, int, int, int),
    gave: (int, int),
)
    requires
        a1.inner.env.region_size == a0.inner.env.region_size,
        follows(a0.inner.env, a1.inner.env),
        holds(a0, s0, a1, s1, first.0, first.1, first.2, first.3),
        broke(a1, s1, a2, gave.0, gave.1),
        gave.1 <= 0 || (gave.0 == first.2 && gave.1 == first.3),
    ensures
        broke(a0, s0, a2, first.0, first.1),
        turned_down(a1, a2) ==> turned_down(a0, a2),
        carries(a0, s0, a1, s1) ==> forall|cause: PanicCause|
            bound_hit(a1, s1, a2, gave.0, gave.1, cause) ==> #[trigger] bound_hit(
                a0,
                s0,
                a2,
                first.0,
                first.1,
                cause,
            ),
{
    lemma_follows(a0.inner.env, a1.inner.env, a2.inner.env);
    reveal(holds);
    reveal(counts);
    reveal(keeps);
    if carries(a0, s0, a1, s1) {
        assert forall|at: int| #[trigger]
            total(a1, s1, at) + covers(gave.0, gave.1, at) <= total(a0, s0, at) + covers(
                first.0,
                first.1,
                at,
            ) by {
            assert(total(a1, s1, at) + covers(first.2, first.3, at) <= total(a0, s0, at) + covers(
                first.0,
                first.1,
                at,
            ));
        }
        lemma_bound_after(a0, s0, a1, s1, a2, first.0, first.1, gave.0, gave.1);
    }
    assert forall|at: int| #[trigger]
        a2.held(at) <= total(a0, s0, at) + covers(first.0, first.1, at) by {
        assert(a2.held(at) <= total(a1, s1, at) + covers(gave.0, gave.1, at));
        assert(total(a1, s1, at) + covers(first.2, first.3, at) <= total(a0, s0, at) + covers(
            first.0,
            first.1,
            at,
        ));
    }
}

/// A bound that is hit without a state is hit with one.
proof fn lemma_bound_lifted<N: NonLocalPtrManager>(
    a0: ThreadLocalAllocator<N>,
    a1: ThreadLocalAllocator<N>,
    s: Option<State>,
    gave: int,
    gave_size: int,
)
    ensures
        forall|cause: PanicCause|
            bound_hit(a0, None, a1, gave, gave_size, cause) ==> #[trigger] bound_hit(
                a0,
                s,
                a1,
                gave,
                gave_size,
                cause,
            ),
{
    reveal(bound_hit);
    if is_unowned(a0, None, a1, gave, gave_size) && exists|at: int| #[trigger]
        has_no_owner(a1, at) && total(a0, None, at) + covers(gave, gave_size, at) > 0 {
        let at = choose|at: int| #[trigger]
            has_no_owner(a1, at) && total(a0, None, at) + covers(gave, gave_size, at) > 0;
        lemma_state_cover(s, at);
        assert(has_no_owner(a1, at) && total(a0, s, at) + covers(gave, gave_size, at) > 0);
    }
}

/// A bound that is hit after an operation.
pub proof fn lemma_bound_after<N: NonLocalPtrManager>(
    a0: ThreadLocalAllocator<N>,
    s0: Option<State>,
    a1: ThreadLocalAllocator<N>,
    s1: Option<State>,
    a2: ThreadLocalAllocator<N>,
    first: int,
    first_size: int,
    gave: int,
    gave_size: int,
)
    requires
        carries(a0, s0, a1, s1),
        forall|at: int| #[trigger]
            total(a1, s1, at) + covers(gave, gave_size, at) <= total(a0, s0, at) + covers(
                first,
                first_size,
                at,
            ),
    ensures
        forall|cause: PanicCause|
            bound_hit(a1, s1, a2, gave, gave_size, cause) ==> #[trigger] bound_hit(
                a0,
                s0,
                a2,
                first,
                first_size,
                cause,
            ),
{
    reveal(bound_hit);
    if is_unowned(a1, s1, a2, gave, gave_size) {
        if exists|at: int| #[trigger]
            has_no_owner(a2, at) && total(a1, s1, at) + covers(gave, gave_size, at) > 0 {
            let at = choose|at: int| #[trigger]
                has_no_owner(a2, at) && total(a1, s1, at) + covers(gave, gave_size, at) > 0;
            assert(has_no_owner(a2, at) && total(a0, s0, at) + covers(first, first_size, at) > 0);
        } else {
            let i = choose|i: int|
                0 <= i < a1.incoming().len() && has_no_owner(
                    a2,
                    (#[trigger] a1.incoming()[i]).address as int,
                );
            assert(a0.incoming()[i] == a1.incoming()[i]);
        }
        assert(is_unowned(a0, s0, a2, first, first_size));
    }
}

/// What an allocator holds covers no byte less often than never.
pub proof fn lemma_held_nonnegative<N: NonLocalPtrManager>(a: ThreadLocalAllocator<N>, at: int)
    requires
        a.wf(),
    ensures
        a.held(at) >= 0,
{
    lemma_parts_cover_nonnegative(a.inner.parts(), at);
    lemma_nodes_nonnegative(a.incoming(), at, 0);
    lemma_pool_cover(a.inner.env.replies@, a.inner.env.used_replies as int, at);
}

/// Capacities that have not shrunk leave no more to grow.
pub proof fn lemma_spare<N: NonLocalPtrManager>(
    a0: ThreadLocalAllocator<N>,
    a1: ThreadLocalAllocator<N>,
)
    requires
        caps_kept(a0, a1),
    ensures
        0 <= a1.spare() <= a0.spare(),
        forall|slot: int|
            0 <= slot < 435 && a0.cap_of(slot) < #[trigger] a1.cap_of(slot) ==> a1.spare()
                < a0.spare(),
{
    reveal(Parts::spare);
    assert forall|slot: int| 0 <= slot < 435 implies a0.inner.vectors@[slot].cap
        <= (#[trigger] a1.inner.vectors@[slot]).cap by {
        assert(a0.cap_of(slot) <= a1.cap_of(slot));
    }
    lemma_spare_of(a0.inner.vectors@, a1.inner.vectors@, 435, 0);
    assert forall|slot: int|
        0 <= slot < 435 && a0.cap_of(slot) < #[trigger] a1.cap_of(slot) implies a1.spare()
        < a0.spare() by {
        lemma_spare_of(a0.inner.vectors@, a1.inner.vectors@, 435, slot);
    }
}

proof fn lemma_spare_of(
    v0: Seq<SelfAllocatedVec<usize>>,
    v1: Seq<SelfAllocatedVec<usize>>,
    n: int,
    slot: int,
)
    requires
        0 <= n,
        forall|i: int| 0 <= i < n ==> v0[i].cap <= (#[trigger] v1[i]).cap,
    ensures
        0 <= slots_spare(v1, n) <= slots_spare(v0, n),
        0 <= slot < n && v0[slot].cap < v1[slot].cap ==> slots_spare(v1, n) < slots_spare(v0, n),
    decreases n,
{
    if n > 0 {
        lemma_spare_of(v0, v1, n - 1, slot);
        assert(v0[n - 1].cap <= v1[n - 1].cap);
    }
}

} // verus!
