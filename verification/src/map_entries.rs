//! How entries come into the ordered map and leave it, and how its nodes are given back.
use crate::allocator_for_self_allocations::{
    is_exact, AllocatorForSelfAllocations, ThreadLocalAllocatorFake,
};
use crate::btree_map::{
    keys_ascend, lemma_map_absent, lemma_map_insert, lemma_map_remove, lemma_map_update, map_of,
    nodes_for, SelfAllocatedBTreeMap, MAP_NODE_CAPACITY, MAP_NODE_SIZE,
};
use crate::failures::PanicCause;
use crate::sizes::lemma_class_of;
use vstd::prelude::*;

verus! {

/// Whether the blocks of all nodes lie in memory.
pub open spec fn nodes_in_memory(nodes: Seq<usize>) -> bool {
    forall|i: int|
        0 <= i < nodes.len() ==> 0 < (#[trigger] nodes[i]) && nodes[i] + MAP_NODE_SIZE
            <= usize::MAX
}

/// What giving nodes back does, the last one first, up to the first failure.
pub open spec fn gave_nodes<A: AllocatorForSelfAllocations>(
    a0: A,
    s0: Option<A::State>,
    a1: A,
    s1: Option<A::State>,
    nodes: Seq<usize>,
    r: Result<(), PanicCause>,
) -> bool
    decreases nodes.len(),
{
    if nodes.len() == 0 {
        a1 == a0 && s1 == s0 && r is Ok
    } else {
        ||| r is Err && A::deallocated(a0, s0, a1, s1, nodes.last() as int, MAP_NODE_SIZE as int, r)
        ||| exists|a: A, s: Option<A::State>| #[trigger]
            A::deallocated(
                a0,
                s0,
                a,
                s,
                nodes.last() as int,
                MAP_NODE_SIZE as int,
                Ok::<(), PanicCause>(()),
            ) && gave_nodes(a, s, a1, s1, nodes.drop_last(), r)
    }
}

/// Gives nodes back.
fn give_nodes<A: AllocatorForSelfAllocations>(
    nodes: &mut Vec<usize>,
    allocator: &mut A,
    maybe_state: &mut Option<A::State>,
) -> (r: Result<(), PanicCause>)
    requires
        nodes_in_memory(old(nodes)@),
        old(allocator).is_ready(*old(maybe_state)),
    ensures
        gave_nodes(
            *old(allocator),
            *old(maybe_state),
            *final(allocator),
            *final(maybe_state),
            old(nodes)@,
            r,
        ),
        r is Ok ==> final(nodes)@.len() == 0 && final(allocator).is_ready(*final(maybe_state)),
    decreases old(nodes)@.len(),
{
    proof {
        lemma_node_size();
    }
    let ghost before = nodes@;
    match nodes.pop() {
        Some(ptr) => {
            assert(ptr == before[before.len() - 1]);
            let given = allocator.self_dealloc(ptr, MAP_NODE_SIZE, maybe_state);
            match given {
                Ok(()) => {
                    assert(given->Ok_0 == ());
                    assert(given == Ok::<(), PanicCause>(()));
                    give_nodes(nodes, allocator, maybe_state)
                },
                Err(cause) => Err(cause),
            }
        },
        None => Ok(()),
    }
}

/// A node is handed out as it is.
proof fn lemma_node_size()
    ensures
        is_exact(MAP_NODE_SIZE as int),
{
    lemma_class_of(192);
}

/// The place of a key in a map.
pub struct Entry<'a, V> {
    pub map: &'a mut SelfAllocatedBTreeMap<V>,
    pub key: usize,
    pub place: Result<usize, usize>,
}

/// What inserting a key that is missing does to the map and its allocator.
pub open spec fn inserted<V, A: AllocatorForSelfAllocations>(
    m0: SelfAllocatedBTreeMap<V>,
    m1: SelfAllocatedBTreeMap<V>,
    a0: A,
    s0: Option<A::State>,
    a1: A,
    s1: Option<A::State>,
    key: usize,
    value: V,
) -> bool {
    &&& m1.wf()
    &&& nodes_in_memory(m1.nodes@)
    &&& m1@ == m0@.insert(key, value)
    &&& m1.entries@.len() == m0.entries@.len() + 1
    &&& a1.is_ready(s1)
    &&& if m0.entries@.len() < 11 * m0.nodes@.len() {
        m1.nodes@ == m0.nodes@ && a1 == a0 && s1 == s0
    } else {
        &&& m1.nodes@.drop_last() == m0.nodes@
        &&& m1.nodes@.len() == m0.nodes@.len() + 1
        &&& A::allocated(
            a0,
            s0,
            a1,
            s1,
            MAP_NODE_SIZE as int,
            true,
            Ok::<Option<usize>, PanicCause>(Some(m1.nodes@.last())),
        )
    }
}

impl<'a, V> Entry<'a, V> {
    /// Whether the place is that of the key.
    pub open spec fn wf(self) -> bool {
        &&& self.map.wf()
        &&& match self.place {
            Ok(i) => i < self.map.entries@.len() && self.map.entries@[i as int].0 == self.key,
            Err(i) => {
                &&& i <= self.map.entries@.len()
                &&& forall|j: int|
                    #![trigger self.map.entries@[j]]
                    0 <= j < i ==> self.map.entries@[j].0 < self.key
                &&& forall|j: int|
                    #![trigger self.map.entries@[j]]
                    i <= j < self.map.entries@.len() ==> self.key < self.map.entries@[j].0
            },
        }
    }

    /// The value of the key, to be changed in place. Where the key is missing, `value` is inserted
    /// first; there is no value where memory for it was refused.
    pub fn or_insert<A: AllocatorForSelfAllocations>(
        self,
        value: V,
        allocator: &mut A,
        maybe_state: &mut Option<A::State>,
    ) -> (r: Result<Option<&'a mut V>, PanicCause>)
        requires
            self.wf(),
            nodes_in_memory(self.map.nodes@),
            self.map.nodes@.len() < u32::MAX,
            old(allocator).is_ready(*old(maybe_state)),
        ensures
            match r {
                Ok(Some(slot)) => {
                    &&& (*final(self.map)).wf()
                    &&& if old(self.map)@.contains_key(self.key) {
                        &&& *slot == old(self.map)@[self.key]
                        &&& final(self.map)@ == old(self.map)@.insert(self.key, *final(slot))
                        &&& final(self.map).nodes == old(self.map).nodes
                        &&& final(self.map).entries@.len() == old(self.map).entries@.len()
                        &&& *final(allocator) == *old(allocator)
                        &&& *final(maybe_state) == *old(maybe_state)
                    } else {
                        &&& *slot == value
                        &&& inserted(
                            *old(self.map),
                            *final(self.map),
                            *old(allocator),
                            *old(maybe_state),
                            *final(allocator),
                            *final(maybe_state),
                            self.key,
                            *final(slot),
                        )
                    }
                },
                Ok(None) => {
                    &&& !old(self.map)@.contains_key(self.key)
                    &&& old(self.map).entries@.len() >= 11 * old(self.map).nodes@.len()
                    &&& *final(self.map) == *old(self.map)
                    &&& final(allocator).is_ready(*final(maybe_state))
                    &&& A::allocated(
                        *old(allocator),
                        *old(maybe_state),
                        *final(allocator),
                        *final(maybe_state),
                        MAP_NODE_SIZE as int,
                        true,
                        Ok::<Option<usize>, PanicCause>(None),
                    )
                },
                Err(cause) => {
                    &&& !old(self.map)@.contains_key(self.key)
                    &&& old(self.map).entries@.len() >= 11 * old(self.map).nodes@.len()
                    &&& *final(self.map) == *old(self.map)
                    &&& A::allocated(
                        *old(allocator),
                        *old(maybe_state),
                        *final(allocator),
                        *final(maybe_state),
                        MAP_NODE_SIZE as int,
                        true,
                        Err::<Option<usize>, PanicCause>(cause),
                    )
                },
            },
    {
        let ghost before = *self.map;
        let ghost entries = self.map.entries@;
        let key: usize = self.key;
        let map = self.map;
        match self.place {
            Ok(i) => {
                proof {
                    assert forall|v: V| #[trigger]
                        map_of(entries.update(i as int, (key, v))) == map_of(entries).insert(key, v)
                        && keys_ascend(entries.update(i as int, (key, v))) by {
                        lemma_map_update(entries, i as int, v);
                    }
                    lemma_map_update(entries, i as int, entries[i as int].1);
                }
                let slot = &mut map.entries[i];
                Ok(Some(&mut slot.1))
            },
            Err(i) => {
                proof {
                    lemma_map_absent(entries, i as int, key);
                    lemma_node_size();
                }
                if map.needs_node() {
                    match allocator.self_alloc(MAP_NODE_SIZE, maybe_state) {
                        Ok(Some(ptr)) => {
                            map.add_node(ptr);
                        },
                        Ok(None) => {
                            return Ok(None);
                        },
                        Err(cause) => {
                            return Err(cause);
                        },
                    }
                }
                let ghost nodes = map.nodes@;
                map.entries.insert(i, (key, value));
                proof {
                    let after = map.entries@;
                    lemma_map_insert(entries, i as int, key, value);
                    assert(after =~= entries.insert(i as int, (key, value)));
                    assert forall|v: V| #[trigger]
                        map_of(after.update(i as int, (key, v))) == map_of(entries).insert(key, v)
                        && keys_ascend(after.update(i as int, (key, v))) by {
                        lemma_map_insert(entries, i as int, key, v);
                        assert(after.update(i as int, (key, v)) =~= entries.insert(
                            i as int,
                            (key, v),
                        ));
                    }
                    assert(nodes.len() > before.nodes@.len() ==> nodes.drop_last()
                        =~= before.nodes@);
                }
                let slot = &mut map.entries[i];
                Ok(Some(&mut slot.1))
            },
        }
    }

    /// Replaces the value of the key by what `f` makes of it. A missing key stays missing.
    pub fn and_modify<F: FnOnce(&V) -> V>(self, f: F) -> (r: Entry<'a, V>)
        requires
            self.wf(),
            self.map@.contains_key(self.key) ==> call_requires(f, (&self.map@[self.key],)),
        ensures
            r.wf(),
            r.key == self.key,
            r.map.nodes == old(self.map).nodes,
            *final(r.map) == *final(self.map),
            !old(self.map)@.contains_key(self.key) ==> *r.map == *old(self.map),
            old(self.map)@.contains_key(self.key) ==> {
                &&& r.map@ == old(self.map)@.insert(self.key, r.map@[self.key])
                &&& call_ensures(f, (&old(self.map)@[self.key],), r.map@[self.key])
            },
    {
        let ghost entries = self.map.entries@;
        let key: usize = self.key;
        let map = self.map;
        match self.place {
            Ok(i) => {
                proof {
                    lemma_map_update(entries, i as int, entries[i as int].1);
                }
                let value = f(&map.entries[i].1);
                proof {
                    lemma_map_update(entries, i as int, value);
                }
                map.entries.set(i, (key, value));
                assert(map.entries@ =~= entries.update(i as int, (key, value)));
                Entry { map, key, place: Ok(i) }
            },
            Err(i) => {
                proof {
                    lemma_map_absent(entries, i as int, key);
                }
                Entry { map, key, place: Err(i) }
            },
        }
    }
}

/// What taking a key out does to the map and its allocator: a node that is no longer needed is
/// given back.
pub open spec fn removed<V, A: AllocatorForSelfAllocations>(
    m0: SelfAllocatedBTreeMap<V>,
    m1: SelfAllocatedBTreeMap<V>,
    a0: A,
    s0: Option<A::State>,
    a1: A,
    s1: Option<A::State>,
    key: usize,
    given: Result<(), PanicCause>,
) -> bool {
    &&& m1.wf()
    &&& nodes_in_memory(m1.nodes@)
    &&& m1@ == m0@.remove(key)
    &&& m1.entries@.len() == m0.entries@.len() - 1
    &&& if m0.nodes@.len() <= nodes_for(m0.entries@.len() - 1) {
        m1.nodes@ == m0.nodes@ && a1 == a0 && s1 == s0 && given is Ok
    } else {
        &&& m1.nodes@ == m0.nodes@.drop_last()
        &&& A::deallocated(
            a0,
            s0,
            a1,
            s1,
            m0.nodes@.last() as int,
            MAP_NODE_SIZE as int,
            given,
        )
    }
    &&& given is Ok ==> a1.is_ready(s1)
}

/// Hands the entries of a map out, in ascending order of their keys from the front and in
/// descending order from the back. The nodes are given back when no entry is left.
pub struct IntoIter<'state, V, A: AllocatorForSelfAllocations> {
    pub entries: Vec<(usize, V)>,
    pub nodes: Vec<usize>,
    pub allocator: &'state mut A,
    pub maybe_state: &'state mut Option<A::State>,
}

/// What asking for another entry does where none is left.
pub open spec fn ran_out<'state, V, A: AllocatorForSelfAllocations>(
    i0: IntoIter<'state, V, A>,
    i1: IntoIter<'state, V, A>,
    r: Result<Option<(usize, V)>, PanicCause>,
) -> bool {
    match r {
        Ok(Some(_)) => false,
        Ok(None) => {
            &&& i1.wf()
            &&& i1.entries@.len() == 0
            &&& i1.nodes@.len() == 0
            &&& gave_nodes(
                *i0.allocator,
                *i0.maybe_state,
                *i1.allocator,
                *i1.maybe_state,
                i0.nodes@,
                Ok::<(), PanicCause>(()),
            )
        },
        Err(cause) => gave_nodes(
            *i0.allocator,
            *i0.maybe_state,
            *i1.allocator,
            *i1.maybe_state,
            i0.nodes@,
            Err::<(), PanicCause>(cause),
        ),
    }
}

impl<'state, V, A: AllocatorForSelfAllocations> IntoIter<'state, V, A> {
    /// Whether the nodes can be given back.
    pub open spec fn wf(self) -> bool {
        &&& nodes_in_memory(self.nodes@)
        &&& self.allocator.is_ready(*self.maybe_state)
    }

    /// The entries that are left.
    pub fn iter(&self) -> (r: &Vec<(usize, V)>)
        ensures
            r@ == self.entries@,
    {
        &self.entries
    }

    /// The number of entries that are left.
    pub fn len(&self) -> (r: usize)
        ensures
            r == self.entries@.len(),
    {
        self.entries.len()
    }

    /// The number of entries that are left, as the bounds of it.
    pub fn size_hint(&self) -> (r: (usize, Option<usize>))
        ensures
            r.0 == self.entries@.len(),
            r.1 == Some(r.0),
    {
        (self.entries.len(), Some(self.entries.len()))
    }

    /// Gives the nodes back where no entry is left.
    fn end(&mut self) -> (r: Result<Option<(usize, V)>, PanicCause>)
        requires
            old(self).wf(),
            old(self).entries@.len() == 0,
        ensures
            ran_out(*old(self), *final(self), r),
            *final(final(self).allocator) == *final(old(self).allocator),
            *final(final(self).maybe_state) == *final(old(self).maybe_state),
    {
        let given = give_nodes(&mut self.nodes, self.allocator, self.maybe_state);
        match given {
            Ok(()) => {
                assert(given->Ok_0 == ());
                assert(given == Ok::<(), PanicCause>(()));
                Ok(None)
            },
            Err(cause) => Err(cause),
        }
    }

    /// The first entry that is left.
    pub fn next(&mut self) -> (r: Result<Option<(usize, V)>, PanicCause>)
        requires
            old(self).wf(),
        ensures
            *final(final(self).allocator) == *final(old(self).allocator),
            *final(final(self).maybe_state) == *final(old(self).maybe_state),
            old(self).entries@.len() == 0 ==> ran_out(*old(self), *final(self), r),
            old(self).entries@.len() > 0 ==> {
                &&& r == Ok::<Option<(usize, V)>, PanicCause>(Some(old(self).entries@[0]))
                &&& final(self).entries@ == old(self).entries@.drop_first()
                &&& final(self).nodes == old(self).nodes
                &&& *final(self).allocator == *old(self).allocator
                &&& *final(self).maybe_state == *old(self).maybe_state
            },
    {
        if self.entries.len() == 0 {
            return self.end();
        }
        let ghost before = self.entries@;
        let entry = self.entries.remove(0);
        assert(self.entries@ =~= before.drop_first());
        Ok(Some(entry))
    }

    /// The last entry that is left.
    pub fn next_back(&mut self) -> (r: Result<Option<(usize, V)>, PanicCause>)
        requires
            old(self).wf(),
        ensures
            *final(final(self).allocator) == *final(old(self).allocator),
            *final(final(self).maybe_state) == *final(old(self).maybe_state),
            old(self).entries@.len() == 0 ==> ran_out(*old(self), *final(self), r),
            old(self).entries@.len() > 0 ==> {
                &&& r == Ok::<Option<(usize, V)>, PanicCause>(Some(old(self).entries@.last()))
                &&& final(self).entries@ == old(self).entries@.drop_last()
                &&& final(self).nodes == old(self).nodes
                &&& *final(self).allocator == *old(self).allocator
                &&& *final(self).maybe_state == *old(self).maybe_state
            },
    {
        match self.entries.pop() {
            Some(entry) => Ok(Some(entry)),
            None => self.end(),
        }
    }
}

impl<V> SelfAllocatedBTreeMap<V> {
    /// The entries, in ascending order of their keys.
    pub fn iter(&self) -> (r: &Vec<(usize, V)>)
        requires
            self.wf(),
        ensures
            r@ == self.entries@,
            keys_ascend(r@),
            map_of(r@) == self@,
    {
        &self.entries
    }

    /// Hands the entries out.
    pub fn into_iter<'state, A: AllocatorForSelfAllocations>(
        self,
        allocator: &'state mut A,
        maybe_state: &'state mut Option<A::State>,
    ) -> (r: IntoIter<'state, V, A>)
        requires
            self.wf(),
            nodes_in_memory(self.nodes@),
            old(allocator).is_ready(*old(maybe_state)),
        ensures
            r.wf(),
            r.entries == self.entries,
            r.nodes == self.nodes,
            keys_ascend(r.entries@),
            map_of(r.entries@) == self@,
            *r.allocator == *old(allocator),
            *r.maybe_state == *old(maybe_state),
            *final(r.allocator) == *final(allocator),
            *final(r.maybe_state) == *final(maybe_state),
    {
        IntoIter { entries: self.entries, nodes: self.nodes, allocator, maybe_state }
    }

    /// Drops all entries and gives the nodes back.
    pub fn clear<A: AllocatorForSelfAllocations>(
        &mut self,
        allocator: &mut A,
        maybe_state: &mut Option<A::State>,
    ) -> (r: Result<(), PanicCause>)
        requires
            nodes_in_memory(old(self).nodes@),
            old(allocator).is_ready(*old(maybe_state)),
        ensures
            final(self).wf(),
            final(self).entries@.len() == 0,
            final(self).nodes@.len() == 0,
            final(self)@ == Map::<usize, V>::empty(),
            gave_nodes(
                *old(allocator),
                *old(maybe_state),
                *final(allocator),
                *final(maybe_state),
                old(self).nodes@,
                r,
            ),
            r is Ok ==> final(allocator).is_ready(*final(maybe_state)),
    {
        let mut nodes: Vec<usize> = Vec::new();
        core::mem::swap(&mut nodes, &mut self.nodes);
        self.force_become_null();
        give_nodes(&mut nodes, allocator, maybe_state)
    }

    /// Takes a key out, with its value.
    pub fn remove_entry<A: AllocatorForSelfAllocations>(
        &mut self,
        key: usize,
        allocator: &mut A,
        maybe_state: &mut Option<A::State>,
    ) -> (r: Result<Option<(usize, V)>, PanicCause>)
        requires
            old(self).wf(),
            nodes_in_memory(old(self).nodes@),
            old(allocator).is_ready(*old(maybe_state)),
        ensures
            match r {
                Ok(Some(entry)) => {
                    &&& old(self)@.contains_key(key)
                    &&& entry == (key, old(self)@[key])
                    &&& removed(
                        *old(self),
                        *final(self),
                        *old(allocator),
                        *old(maybe_state),
                        *final(allocator),
                        *final(maybe_state),
                        key,
                        Ok(()),
                    )
                },
                Ok(None) => {
                    &&& !old(self)@.contains_key(key)
                    &&& *final(self) == *old(self)
                    &&& *final(allocator) == *old(allocator)
                    &&& *final(maybe_state) == *old(maybe_state)
                },
                Err(cause) => {
                    &&& old(self)@.contains_key(key)
                    &&& removed(
                        *old(self),
                        *final(self),
                        *old(allocator),
                        *old(maybe_state),
                        *final(allocator),
                        *final(maybe_state),
                        key,
                        Err(cause),
                    )
                },
            },
    {
        let ghost entries = self.entries@;
        let ghost before = self.nodes@;
        match self.search(key) {
            Err(i) => {
                proof {
                    lemma_map_absent(entries, i as int, key);
                }
                Ok(None)
            },
            Ok(i) => {
                proof {
                    lemma_map_update(entries, i as int, entries[i as int].1);
                    lemma_map_remove(entries, i as int);
                    lemma_node_size();
                }
                let entry = self.entries.remove(i);
                assert(self.entries@ =~= entries.remove(i as int));
                let count: usize = self.entries.len();
                let full: usize = count / MAP_NODE_CAPACITY;
                let needed: usize = if count % MAP_NODE_CAPACITY == 0 {
                    full
                } else {
                    full + 1
                };
                if self.nodes.len() <= needed {
                    return Ok(Some(entry));
                }
                let ptr: usize = self.take_node();
                assert(ptr == before[before.len() - 1]);
                let given = allocator.self_dealloc(ptr, MAP_NODE_SIZE, maybe_state);
                match given {
                    Ok(()) => {
                        assert(given->Ok_0 == ());
                        assert(given == Ok::<(), PanicCause>(()));
                        Ok(Some(entry))
                    },
                    Err(cause) => Err(cause),
                }
            },
        }
    }

    /// Takes a key out and hands its value out.
    pub fn remove<A: AllocatorForSelfAllocations>(
        &mut self,
        key: usize,
        allocator: &mut A,
        maybe_state: &mut Option<A::State>,
    ) -> (r: Result<Option<V>, PanicCause>)
        requires
            old(self).wf(),
            nodes_in_memory(old(self).nodes@),
            old(allocator).is_ready(*old(maybe_state)),
        ensures
            match r {
                Ok(Some(value)) => {
                    &&& old(self)@.contains_key(key)
                    &&& value == old(self)@[key]
                    &&& removed(
                        *old(self),
                        *final(self),
                        *old(allocator),
                        *old(maybe_state),
                        *final(allocator),
                        *final(maybe_state),
                        key,
                        Ok(()),
                    )
                },
                Ok(None) => {
                    &&& !old(self)@.contains_key(key)
                    &&& *final(self) == *old(self)
                    &&& *final(allocator) == *old(allocator)
                    &&& *final(maybe_state) == *old(maybe_state)
                },
                Err(cause) => {
                    &&& old(self)@.contains_key(key)
                    &&& removed(
                        *old(self),
                        *final(self),
                        *old(allocator),
                        *old(maybe_state),
                        *final(allocator),
                        *final(maybe_state),
                        key,
                        Err(cause),
                    )
                },
            },
    {
        match self.remove_entry(key, allocator, maybe_state) {
            Ok(Some(entry)) => Ok(Some(entry.1)),
            Ok(None) => Ok(None),
            Err(cause) => Err(cause),
        }
    }

    /// The place of the key.
    pub fn entry(&mut self, key: usize) -> (r: Entry<'_, V>)
        requires
            old(self).wf(),
        ensures
            *r.map == *old(self),
            *final(r.map) == *final(self),
            r.key == key,
            r.wf(),
    {
        let place = self.search(key);
        Entry { map: self, key, place }
    }
}

/// A map that is cleared gives back all bytes of its nodes.
pub proof fn law_cleared_map_gives_all_back(
    a0: ThreadLocalAllocatorFake,
    s0: Option<usize>,
    a1: ThreadLocalAllocatorFake,
    s1: Option<usize>,
    nodes: Seq<usize>,
    r: Result<(), PanicCause>,
)
    requires
        gave_nodes(a0, s0, a1, s1, nodes, r),
        r is Ok,
    ensures
        a1.allocated_memory + MAP_NODE_SIZE * nodes.len() == a0.allocated_memory,
    decreases nodes.len(),
{
    if nodes.len() > 0 {
        let (a, s) = choose|a: ThreadLocalAllocatorFake, s: Option<usize>| #[trigger]
            ThreadLocalAllocatorFake::deallocated(
                a0,
                s0,
                a,
                s,
                nodes.last() as int,
                MAP_NODE_SIZE as int,
                Ok::<(), PanicCause>(()),
            ) && gave_nodes(a, s, a1, s1, nodes.drop_last(), r);
        law_cleared_map_gives_all_back(a, s, a1, s1, nodes.drop_last(), r);
    }
}

} // verus!
