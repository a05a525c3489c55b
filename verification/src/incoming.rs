//! Pointers that come back from other threads.
use crate::accounts::{
    bound_hit, calm, caps_kept, chunk_balance, chunk_slack, chunks_left, evolves, is_counted,
    is_set_up, lemma_alike, lemma_regions_same, lemma_set_up_same, lemma_spare, live, node_wf,
    slack, total,
};
use crate::chunks::managed;
use crate::deallocation::has_no_owner;
use crate::failures::PanicCause;
use crate::inner::{slot_wf, ThreadLocalAllocatorInner};
use crate::non_local_ptr_manager::{
    lemma_nodes_nonnegative, lemma_nodes_push, nodes_abroad, nodes_cover, nodes_of_class, Message,
    Node, NonLocalPtrData, NonLocalPtrManager, OffsetToSlotInTable, NODE_SIZE,
};
use crate::os::{follows, lemma_follows_itself, ChunkMetadata, Environment};
use crate::ownership::{brings, lemma_brings_incoming, ptrs_of};
use crate::region::{metadata_at, read_metadata};
use crate::sizes::{lemma_class_of, size_to_class};
use crate::state::State;
use crate::steps::{
    lemma_all_taken, lemma_node_taken, lemma_sent_exactly, lemma_still_taking, lemma_taken_exactly,
};
use crate::thread_local_allocator::ThreadLocalAllocator;
use crate::vectors::grows_apart;
use vstd::prelude::*;

verus! {

/// The pointers that nodes bring back to a vector, in the order of the nodes.
pub open spec fn brought_back(nodes: Seq<Node>, slot: int) -> Seq<usize>
    decreases nodes.len(),
{
    if nodes.len() == 0 {
        Seq::empty()
    } else if nodes.last().class() == slot {
        brought_back(nodes.drop_last(), slot).push(nodes.last().value.ptr)
    } else {
        brought_back(nodes.drop_last(), slot)
    }
}

/// The message that brings the memory of a node home.
pub open spec fn way_home(env: Environment, node: Node) -> Message {
    Message {
        to: metadata_at(env, node.address as int)->0.non_local_ptr_manager,
        node: Node {
            address: node.address,
            value: NonLocalPtrData {
                ptr: node.address,
                offset_to_slot_in_table: OffsetToSlotInTable { is_common: false, idx: 16_000_000 },
            },
        },
    }
}

/// The messages that bring the memory of nodes home; a node that has come home stays.
pub open spec fn ways_home(env: Environment, nodes: Seq<Node>) -> Seq<Message>
    decreases nodes.len(),
{
    if nodes.len() == 0 {
        Seq::empty()
    } else if nodes.last().is_returned() {
        ways_home(env, nodes.drop_last())
    } else {
        ways_home(env, nodes.drop_last()).push(way_home(env, nodes.last()))
    }
}

/// Whether a message in the outbox from position `from` on brings the memory of the node home.
pub open spec fn is_sent_home(outbox: Seq<Message>, from: int, node: Node) -> bool {
    exists|k: int|
        from <= k < outbox.len() && (#[trigger] outbox[k]).node.address == node.address
            && outbox[k].node.is_returned()
}

/// What is sent stays sent.
proof fn lemma_stays_sent(before: Seq<Message>, after: Seq<Message>, from: int, node: Node)
    requires
        is_sent_home(before, from, node),
        0 <= from,
        before.is_prefix_of(after),
    ensures
        is_sent_home(after, from, node),
{
    let k = choose|k: int|
        from <= k < before.len() && (#[trigger] before[k]).node.address == node.address
            && before[k].node.is_returned();
    assert(after[k] == before[k]);
}

/// Whether an object of the class finds its place beside the free ones: there is room for it, or the
/// vector can grow by itself.
pub open spec fn has_place_for<N: NonLocalPtrManager>(
    a: ThreadLocalAllocator<N>,
    class: int,
) -> bool {
    a.len_of(class) < a.cap_of(class) || grows_apart(a, None, class, 1)
}

/// Whether the vectors have room for all that has come in.
pub open spec fn has_room_for_incoming<N: NonLocalPtrManager>(a: ThreadLocalAllocator<N>) -> bool {
    forall|class: int|
        0 <= class < 216 ==> #[trigger] a.len_of(class) + nodes_of_class(a.incoming(), class)
            <= a.cap_of(class)
}

/// Whether the senders of all that has come in are known.
pub open spec fn knows_senders<N: NonLocalPtrManager>(a: ThreadLocalAllocator<N>) -> bool {
    forall|i: int|
        0 <= i < a.incoming().len() ==> (#[trigger] a.incoming()[i]).is_returned() || metadata_at(
            a.inner.env,
            a.incoming()[i].address as int,
        ) is Some
}

/// What holds while nodes that have come in are still to be taken, and `owed` messages to be sent for
/// those that were.
#[verifier::opaque]
pub open spec fn taking<N: NonLocalPtrManager>(
    a0: ThreadLocalAllocator<N>,
    a1: ThreadLocalAllocator<N>,
    rest: Seq<Node>,
    owed: int,
) -> bool {
    &&& a0.inner.env.refusals@.len() <= a1.inner.env.refusals@.len()
    &&& a0.messages() <= a1.messages() + nodes_abroad(rest) + owed
    &&& a0.inner.given_up <= a1.inner.given_up
    &&& a0.inner.replaced <= a1.inner.replaced
    &&& is_counted(a1) ==> {
        &&& forall|class: int|
            0 <= class < 216 ==> #[trigger] live(a1, None::<State>, class) - nodes_of_class(
                rest,
                class,
            ) <= live(a0, None::<State>, class) + slack(a0, a1) + 2 * (nodes_abroad(rest) + owed)
        &&& chunk_balance(a1, None) + chunk_slack(a0, a1) >= chunk_balance(a0, None)
    }
    &&& forall|at: int| #[trigger]
        total(a1, None::<State>, at) + nodes_cover(rest, at) <= total(a0, None::<State>, at)
    &&& forall|class: int|
        0 <= class < 216 ==> #[trigger] live(a1, None::<State>, class) - nodes_of_class(rest, class)
            >= live(a0, None::<State>, class)
    &&& brings(a0, None, a1, None, ptrs_of(rest))
}

/// What the nodes that were taken have done where there was room for them.
pub open spec fn took_exactly<N: NonLocalPtrManager>(
    a0: ThreadLocalAllocator<N>,
    a1: ThreadLocalAllocator<N>,
    nodes: Seq<Node>,
) -> bool {
    &&& a1.inner == (ThreadLocalAllocatorInner {
        vectors: a1.inner.vectors,
        env: a1.inner.env,
        ..a0.inner
    })
    &&& a1.inner.env == (Environment { outbox: a1.inner.env.outbox, ..a0.inner.env })
    &&& a1.inner.env.outbox@ == a0.inner.env.outbox@ + ways_home(a0.inner.env, nodes)
    &&& forall|slot: int|
        0 <= slot < 435 ==> #[trigger] a1.cap_of(slot) == a0.cap_of(slot)
    &&& forall|slot: int|
        0 <= slot < 435 ==> (#[trigger] a1.inner.vectors@[slot])@ == a0.inner.vectors@[slot]@
            + brought_back(nodes, slot)
}

/// Whether looking for incoming pointers has found none.
pub open spec fn untouched<N: NonLocalPtrManager>(
    a0: ThreadLocalAllocator<N>,
    a1: ThreadLocalAllocator<N>,
) -> bool {
    &&& took_exactly(a0, a1, Seq::<Node>::empty())
    &&& a1.incoming() == a0.incoming()
}

/// There is room for nothing, and nothing has no sender.
pub proof fn lemma_room_for_nothing<N: NonLocalPtrManager>(a: ThreadLocalAllocator<N>)
    requires
        a.wf(),
        a.incoming().len() == 0,
    ensures
        has_room_for_incoming(a),
        knows_senders(a),
{
    assert forall|class: int| 0 <= class < 216 implies #[trigger] a.len_of(class) + nodes_of_class(
        a.incoming(),
        class,
    ) <= a.cap_of(class) by {
        assert(slot_wf(class, a.inner.vectors@[class]));
    }
}

/// Where nothing has come in, nothing is taken.
pub proof fn lemma_nothing_incoming<N: NonLocalPtrManager>(
    a0: ThreadLocalAllocator<N>,
    a1: ThreadLocalAllocator<N>,
)
    requires
        a0.incoming().len() == 0,
        a1.incoming().len() == 0,
        took_exactly(a0, a1, a0.incoming().reverse()),
    ensures
        untouched(a0, a1),
        forall|slot: int|
            0 <= slot < 435 ==> (#[trigger] a1.inner.vectors@[slot])@ == a0.inner.vectors@[slot]@,
{
    assert(a0.incoming().reverse() =~= Seq::<Node>::empty());
    assert(a1.incoming() =~= a0.incoming());
    lemma_untouched_vectors(a0, a1);
}

/// The vectors of an allocator that was not touched.
pub proof fn lemma_untouched_vectors<N: NonLocalPtrManager>(
    a0: ThreadLocalAllocator<N>,
    a1: ThreadLocalAllocator<N>,
)
    requires
        took_exactly(a0, a1, Seq::<Node>::empty()),
    ensures
        forall|slot: int|
            0 <= slot < 435 ==> (#[trigger] a1.inner.vectors@[slot])@ == a0.inner.vectors@[slot]@,
        a1.inner.env.outbox@ == a0.inner.env.outbox@,
{
    assert(a0.inner.env.outbox@ + ways_home(a0.inner.env, Seq::<Node>::empty())
        =~= a0.inner.env.outbox@);
    assert forall|slot: int| 0 <= slot < 435 implies (#[trigger] a1.inner.vectors@[slot])@
        == a0.inner.vectors@[slot]@ by {
        assert(a0.inner.vectors@[slot]@ + brought_back(Seq::<Node>::empty(), slot)
            =~= a0.inner.vectors@[slot]@);
    }
}

/// An allocator that stays as it is was not touched.
pub proof fn lemma_untouched<N: NonLocalPtrManager>(a: ThreadLocalAllocator<N>)
    ensures
        untouched(a, a),
{
    assert(a.inner.env.outbox@ + ways_home(a.inner.env, Seq::<Node>::empty())
        =~= a.inner.env.outbox@);
    assert forall|slot: int| 0 <= slot < 435 implies (#[trigger] a.inner.vectors@[slot])@
        == a.inner.vectors@[slot]@ + brought_back(Seq::<Node>::empty(), slot) by {
        assert(a.inner.vectors@[slot]@ + brought_back(Seq::<Node>::empty(), slot)
            =~= a.inner.vectors@[slot]@);
    }
}

impl<N: NonLocalPtrManager> ThreadLocalAllocator<N> {
    /// Takes all pointers that other threads have given back. The memory of the nodes that carried
    /// them goes home.
    pub fn check_non_local_ptrs(&mut self) -> (r: Result<(), PanicCause>)
        requires
            old(self).wf(),
        ensures
            managed(*old(self), None, *final(self), None, r),
            r is Ok ==> calm(*old(self), None, *final(self), None),
            r is Ok ==> final(self).incoming().len() == 0,
            r is Ok ==> forall|i: int|
                0 <= i < old(self).incoming().len() && !(
                #[trigger] old(self).incoming()[i]).is_returned() ==> is_sent_home(
                    final(self).inner.env.outbox@,
                    old(self).inner.env.outbox@.len() as int,
                    old(self).incoming()[i],
                ),
            r is Ok && old(self).incoming().len() == 1 && has_place_for(
                *old(self),
                old(self).incoming()[0].class(),
            ) ==> final(self).inner.vectors@[old(self).incoming()[0].class()]@ == old(self).inner.vectors@[old(self).incoming()[0].class()]@.push(old(self).incoming()[0].value.ptr),
            old(self).incoming().len() == 0 ==> r is Ok && final(self).inner == old(self).inner,
            is_set_up(*old(self)) && r is Ok ==> is_set_up(*final(self)),
            has_room_for_incoming(*old(self)) && knows_senders(*old(self)) ==> r is Ok
                && took_exactly(*old(self), *final(self), old(self).incoming().reverse()),
        decreases
                old(self).unread(),
                chunks_left(*old(self), None),
                old(self).incoming().len(),
                old(self).spare(),
                20int,
    {
        let ghost a0 = *self;
        let ghost none = None::<State>;
        proof {
            lemma_alike(a0, none, none);
            lemma_spare(a0, a0);
            assert(Seq::<Node>::empty().reverse() =~= Seq::<Node>::empty());
        }
        let nodes: Vec<Node> = match &mut self.non_local_ptr_manager {
            Some(manager) => manager.check_for_incoming_non_local_ptrs(),
            None => {
                proof {
                    assert(a0.inner.env.outbox@ =~= a0.inner.env.outbox@ + ways_home(
                        a0.inner.env,
                        Seq::<Node>::empty(),
                    ));
                    assert forall|slot: int| 0 <= slot < 435 implies (
                    #[trigger] a0.inner.vectors@[slot])@ == a0.inner.vectors@[slot]@ + brought_back(
                        Seq::<Node>::empty(),
                        slot,
                    ) by {
                        assert(a0.inner.vectors@[slot]@ =~= a0.inner.vectors@[slot]@
                            + brought_back(Seq::<Node>::empty(), slot));
                    }
                }
                return Ok(());
            },
        };
        let ghost all = a0.incoming();
        let ghost order = all.reverse();
        let ghost exact = has_room_for_incoming(a0) && knows_senders(a0);
        let n: usize = nodes.len();
        let mut i: usize = 0;
        proof {
            assert(self.incoming() =~= Seq::<Node>::empty());
            assert(all.take(n as int) =~= all);
            assert(order.take(0) =~= Seq::<Node>::empty());
            assert(self.inner == a0.inner);
            assert forall|class: int| exact && 0 <= class < 216 implies #[trigger] self.len_of(
                class,
            ) + nodes_of_class(all.take(n as int), class) <= self.cap_of(class) by {
                assert(a0.len_of(class) + nodes_of_class(all, class) <= a0.cap_of(class));
            }
            assert(caps_kept(a0, *self));
            lemma_spare(a0, *self);
            lemma_brings_incoming(a0, *self);
            lemma_follows_itself(a0.inner.env);
            lemma_regions_same(a0, *self);
            assert(taking(a0, *self, all, 0)) by {
                reveal(taking);
            }
            assert(a0.inner.env.outbox@ =~= a0.inner.env.outbox@ + ways_home(
                a0.inner.env,
                Seq::<Node>::empty(),
            ));
            assert forall|slot: int| 0 <= slot < 435 implies (#[trigger] self.inner.vectors@[slot])@
                == a0.inner.vectors@[slot]@ + brought_back(Seq::<Node>::empty(), slot) by {
                assert(a0.inner.vectors@[slot]@ =~= a0.inner.vectors@[slot]@ + brought_back(
                    Seq::<Node>::empty(),
                    slot,
                ));
            }
        }
        while i < n
            invariant
                i <= n,
                n == nodes@.len(),
                a0 == *old(self),
                a0.wf(),
                none == None::<State>,
                all == a0.incoming(),
                order == all.reverse(),
                nodes@ == order,
                self.wf(),
                self.incoming().len() == 0,
                evolves(a0, none, *self, none),
                taking(a0, *self, all.take(n - i), 0),
                exact == (has_room_for_incoming(a0) && knows_senders(a0)),
                n == all.len(),
                i == 0 ==> self.inner == a0.inner,
                n == 1 && i == 1 && has_place_for(a0, all[0].class())
                    ==> self.inner.vectors@[all[0].class()]@ == a0.inner.vectors@[all[0].class()]@.push(
                    all[0].value.ptr,
                ),
                a0.inner.env.outbox@.len() <= self.inner.env.outbox@.len(),
                forall|j: int|
                    0 <= j < i && !(#[trigger] nodes@[j]).is_returned() ==> is_sent_home(
                        self.inner.env.outbox@,
                        a0.inner.env.outbox@.len() as int,
                        nodes@[j],
                    ),
                exact ==> took_exactly(a0, *self, order.take(i as int)),
                exact ==> forall|class: int|
                    0 <= class < 216 ==> #[trigger] self.len_of(class) + nodes_of_class(
                        all.take(n - i),
                        class,
                    ) <= self.cap_of(class),
            decreases n - i,
        {
            let ghost a1 = *self;
            let ghost from = a0.inner.env.outbox@.len() as int;
            let ghost rest = all.take(n - i - 1);
            let node = nodes[i];
            let mut no_state: Option<State> = None;
            proof {
                assert(node == all[n - 1 - i]);
                assert(node_wf(all[n - 1 - i]));
                assert(all.take(n - i) =~= rest.push(node));
                assert(order.take(i + 1) =~= order.take(i as int).push(node));
                assert(order.take(i + 1).drop_last() =~= order.take(i as int));
                lemma_nodes_push(rest, node);
                lemma_class_of(32);
                lemma_spare(a0, a1);
                if n == 1 && has_place_for(a0, all[0].class()) {
                    let c = all[0].class();
                    assert(a1.inner == a0.inner);
                    assert(slot_wf(c, a0.inner.parts().vectors[c]));
                    assert(a1.len_of(c) == a0.len_of(c) && a1.cap_of(c) == a0.cap_of(c));
                    if a0.len_of(c) == a0.cap_of(c) {
                        lemma_grows_alike(a0, a1, c);
                    }
                }
                if exact {
                    lemma_nodes_nonnegative(rest, 0, node.class());
                    assert(a1.len_of(node.class()) + nodes_of_class(all.take(n - i), node.class())
                        <= a1.cap_of(node.class()));
                    assert(nodes_of_class(rest.push(node), node.class()) == nodes_of_class(
                        rest,
                        node.class(),
                    ) + 1);
                }
            }
            if node.value.ptr == node.address {
                let class: usize = size_to_class(NODE_SIZE);
                let kept = self.push(class, node.address, true, &mut no_state);
                let ghost a2 = *self;
                proof {
                    lemma_node_taken(a0, a1, a2, rest, node, kept);
                }
                match kept {
                    Ok(true) => {},
                    Ok(false) => {
                        return Err(PanicCause::InternalUsage);
                    },
                    Err(cause) => {
                        return Err(cause);
                    },
                }
                proof {
                    if exact {
                        lemma_taken_exactly(a0, a1, a2, order.take(i as int), rest, node);
                    }
                }
            } else {
                let class: usize = node.value.offset_to_slot_in_table.to_class();
                let kept = self.push(class, node.value.ptr, false, &mut no_state);
                let ghost a2 = *self;
                proof {
                    lemma_node_taken(a0, a1, a2, rest, node, kept);
                }
                match kept {
                    Ok(true) => {},
                    Ok(false) => {
                        return Err(PanicCause::ReturnedPointer);
                    },
                    Err(cause) => {
                        return Err(cause);
                    },
                }
                let metadata: ChunkMetadata = match read_metadata(&self.inner.env, node.address) {
                    Some(metadata) => metadata,
                    None => {
                        proof {
                            if exact {
                                assert(a0.incoming()[n - 1 - i] == node);
                            }
                            assert(!exact);
                            reveal(bound_hit);
                            assert(a0.incoming()[n - 1 - i] == node);
                            assert(has_no_owner(*self, node.address as int));
                        }
                        return Err(PanicCause::MissingMetadata);
                    },
                };
                let value = NonLocalPtrData::new(node.address, OffsetToSlotInTable::random());
                let message = Message {
                    to: metadata.non_local_ptr_manager,
                    node: Node { address: node.address, value },
                };
                self.inner.env.outbox.push(message);
                proof {
                    assert(a1.inner.env.outbox@.is_prefix_of(a2.inner.env.outbox@)) by {
                        reveal(follows);
                    }
                    assert(is_sent_home(self.inner.env.outbox@, from, node)) by {
                        let k = a2.inner.env.outbox@.len() as int;
                        assert(self.inner.env.outbox@[k] == message);
                    }
                    lemma_still_taking(a0, a2, *self, rest);
                    if exact {
                        lemma_taken_exactly(a0, a1, a2, order.take(i as int), rest, node);
                        lemma_sent_exactly(a0, a2, *self, order.take(i + 1), node, message);
                        assert forall|class: int| 0 <= class < 216 implies #[trigger] self.len_of(
                            class,
                        ) + nodes_of_class(rest, class) <= self.cap_of(class) by {
                            assert(a2.len_of(class) + nodes_of_class(rest, class) <= a2.cap_of(
                                class,
                            ));
                        }
                    }
                }
            }
            proof {
                assert(a1.inner.env.outbox@.is_prefix_of(self.inner.env.outbox@)) by {
                    reveal(follows);
                }
                assert forall|j: int| 0 <= j < i + 1 && !(
                #[trigger] nodes@[j]).is_returned() implies is_sent_home(
                    self.inner.env.outbox@,
                    from,
                    nodes@[j],
                ) by {
                    if j < i {
                        lemma_stays_sent(
                            a1.inner.env.outbox@,
                            self.inner.env.outbox@,
                            from,
                            nodes@[j],
                        );
                    }
                }
            }
            i = i + 1;
        }
        proof {
            assert forall|j: int| 0 <= j < all.len() && !(
            #[trigger] all[j]).is_returned() implies is_sent_home(
                self.inner.env.outbox@,
                a0.inner.env.outbox@.len() as int,
                all[j],
            ) by {
                assert(nodes@[n - 1 - j] == all[j]);
            }
            if n == 0 {
                lemma_set_up_same(a0, *self);
            }
            lemma_all_taken(a0, *self, all.take(0));
            assert(order.take(n as int) =~= order);
        }
        Ok(())
    }
}

/// What the nodes that were taken have done but for the message of the last one.
pub open spec fn took_but_message<N: NonLocalPtrManager>(
    a0: ThreadLocalAllocator<N>,
    a1: ThreadLocalAllocator<N>,
    nodes: Seq<Node>,
) -> bool {
    &&& a1.inner == (ThreadLocalAllocatorInner {
        vectors: a1.inner.vectors,
        env: a1.inner.env,
        ..a0.inner
    })
    &&& a1.inner.env == (Environment { outbox: a1.inner.env.outbox, ..a0.inner.env })
    &&& a1.inner.env.outbox@ == a0.inner.env.outbox@ + ways_home(a0.inner.env, nodes.drop_last())
    &&& forall|slot: int|
        0 <= slot < 435 ==> #[trigger] a1.cap_of(slot) == a0.cap_of(slot)
    &&& forall|slot: int|
        0 <= slot < 435 ==> (#[trigger] a1.inner.vectors@[slot])@ == a0.inner.vectors@[slot]@
            + brought_back(nodes, slot)
}

/// What has come in does not matter for whether a vector can grow by itself.
proof fn lemma_grows_alike<N: NonLocalPtrManager>(
    a0: ThreadLocalAllocator<N>,
    a1: ThreadLocalAllocator<N>,
    class: int,
)
    requires
        a1.inner == a0.inner,
        grows_apart(a0, None, class, 1),
    ensures
        grows_apart(a1, None, class, 1),
{
}

} // verus!
