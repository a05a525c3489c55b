//! An ordered map whose nodes come from the allocator that it serves.
use vstd::prelude::*;

verus! {

/// Bytes in a node of the map.
pub const MAP_NODE_SIZE: usize = 192;

/// The number of entries that a node has room for.
pub const MAP_NODE_CAPACITY: usize = 11;

/// How many blocks of which size a map holds. Two sizes are told apart.
#[derive(Copy, Clone, Debug, PartialEq, Eq)]
pub struct SelfAllocatedMemory(pub [(usize, u32); 2]);

impl SelfAllocatedMemory {
    /// Nothing is held.
    pub fn new() -> (r: SelfAllocatedMemory)
        ensures
            r.0@[0] == (0usize, 0u32),
            r.0@[1] == (0usize, 0u32),
    {
        SelfAllocatedMemory([(0, 0), (0, 0)])
    }

    /// The place that a size has, or gets.
    pub open spec fn place_of(self, size: usize) -> int {
        if self.0@[0].0 == size {
            0
        } else if self.0@[1].0 == size {
            1
        } else if self.0@[0].0 == 0 {
            0
        } else {
            1
        }
    }

    /// Counts one more block of the size. A third size takes the place of the second.
    pub fn inc_for_size(&mut self, size: usize)
        requires
            old(self).0@[old(self).place_of(size)].1 < u32::MAX,
        ensures
            final(self).0@ == old(self).0@.update(
                old(self).place_of(size),
                (size, (old(self).0@[old(self).place_of(size)].1 + 1) as u32),
            ),
    {
        let idx: usize = if self.0[0].0 == size {
            0
        } else if self.0[1].0 == size {
            1
        } else if self.0[0].0 == 0 {
            0
        } else {
            1
        };
        self.0[idx] = (size, self.0[idx].1 + 1);
    }

    /// Counts one block of the size less.
    pub fn dec_for_size(&mut self, size: usize)
        requires
            old(self).0@[if old(self).0@[0].0 == size { 0int } else { 1 }].1 > 0,
        ensures
            ({
                let idx = if old(self).0@[0].0 == size {
                    0int
                } else {
                    1
                };
                final(self).0@ == old(self).0@.update(
                    idx,
                    (old(self).0@[idx].0, (old(self).0@[idx].1 - 1) as u32),
                )
            }),
    {
        let idx: usize = if self.0[0].0 == size {
            0
        } else {
            1
        };
        self.0[idx] = (self.0[idx].0, self.0[idx].1 - 1);
    }
}

/// An ordered map from words. Its entries are kept in ascending order of their keys, in blocks of
/// [`MAP_NODE_SIZE`] bytes.
#[derive(Clone, Debug)]
pub struct SelfAllocatedBTreeMap<V> {
    pub entries: Vec<(usize, V)>,
    pub nodes: Vec<usize>,
    pub allocated_memory: SelfAllocatedMemory,
}

/// The number of nodes that `n` entries take.
pub open spec fn nodes_for(n: int) -> int {
    (n + 10) / 11
}

/// Whether the keys ascend.
pub open spec fn keys_ascend<V>(entries: Seq<(usize, V)>) -> bool {
    forall|i: int, j: int|
        #![trigger entries[i], entries[j]]
        0 <= i < j < entries.len() ==> entries[i].0 < entries[j].0
}

/// The map that ascending entries stand for.
pub open spec fn map_of<V>(entries: Seq<(usize, V)>) -> Map<usize, V>
    decreases entries.len(),
{
    if entries.len() == 0 {
        Map::empty()
    } else {
        map_of(entries.drop_last()).insert(entries.last().0, entries.last().1)
    }
}

/// A key is in the map where an entry has it, with the value of that entry.
pub proof fn lemma_map_of<V>(entries: Seq<(usize, V)>)
    requires
        keys_ascend(entries),
    ensures
        forall|i: int|
            #![trigger entries[i]]
            0 <= i < entries.len() ==> map_of(entries).contains_key(entries[i].0)
                && map_of(entries)[entries[i].0] == entries[i].1,
        forall|key: usize| #[trigger]
            map_of(entries).contains_key(key) ==> exists|i: int|
                0 <= i < entries.len() && (#[trigger] entries[i]).0 == key,
    decreases entries.len(),
{
    if entries.len() > 0 {
        let front = entries.drop_last();
        lemma_map_of(front);
        assert forall|i: int|
            #![trigger entries[i]]
            0 <= i < entries.len() implies map_of(entries).contains_key(entries[i].0)
            && map_of(entries)[entries[i].0] == entries[i].1 by {
            if i < front.len() {
                assert(front[i] == entries[i]);
            }
        }
        assert forall|key: usize| #[trigger] map_of(entries).contains_key(key) implies exists|
            i: int,
        |
            0 <= i < entries.len() && (#[trigger] entries[i]).0 == key by {
            if key == entries.last().0 {
                assert(entries[entries.len() - 1].0 == key);
            } else {
                assert(map_of(front).contains_key(key));
                let i = choose|i: int| 0 <= i < front.len() && (#[trigger] front[i]).0 == key;
                assert(entries[i].0 == key);
            }
        }
    }
}

/// Inserting an entry where its key belongs.
pub proof fn lemma_map_insert<V>(entries: Seq<(usize, V)>, i: int, key: usize, value: V)
    requires
        keys_ascend(entries),
        0 <= i <= entries.len(),
        forall|j: int| #![trigger entries[j]] 0 <= j < i ==> entries[j].0 < key,
        forall|j: int| #![trigger entries[j]] i <= j < entries.len() ==> key < entries[j].0,
    ensures
        keys_ascend(entries.insert(i, (key, value))),
        !map_of(entries).contains_key(key),
        map_of(entries.insert(i, (key, value))) == map_of(entries).insert(key, value),
{
    let after = entries.insert(i, (key, value));
    assert forall|a: int, b: int|
        #![trigger after[a], after[b]]
        0 <= a < b < after.len() implies after[a].0 < after[b].0 by {
        let pa = if a < i {
            a
        } else {
            a - 1
        };
        let pb = if b < i {
            b
        } else {
            b - 1
        };
        if a != i {
            assert(after[a] == entries[pa]);
        }
        if b != i {
            assert(after[b] == entries[pb]);
        }
    }
    lemma_map_of(entries);
    lemma_map_of(after);
    let m0 = map_of(entries).insert(key, value);
    let m1 = map_of(after);
    assert forall|k: usize|
        #![trigger m0.dom().contains(k)]
        #![trigger m1.dom().contains(k)]
        #![trigger m0[k]]
        #![trigger m1[k]]
        m0.contains_key(k) == m1.contains_key(k) && (m0.contains_key(k) ==> m0[k] == m1[k]) by {
        if m1.contains_key(k) {
            let j = choose|j: int| 0 <= j < after.len() && (#[trigger] after[j]).0 == k;
            if j < i {
                assert(after[j] == entries[j]);
            } else if j > i {
                assert(after[j] == entries[j - 1]);
            }
        }
        if k == key {
            assert(after[i].0 == key);
        } else if m0.contains_key(k) {
            assert(map_of(entries).contains_key(k));
            let j = choose|j: int| 0 <= j < entries.len() && (#[trigger] entries[j]).0 == k;
            if j < i {
                assert(after[j] == entries[j]);
            } else {
                assert(after[j + 1] == entries[j]);
            }
        }
    }
    assert(m0.dom() =~= m1.dom());
    assert(m0 =~= m1);
    if map_of(entries).contains_key(key) {
        let j = choose|j: int| 0 <= j < entries.len() && (#[trigger] entries[j]).0 == key;
        assert(false);
    }
}

/// Replacing the value of an entry.
pub proof fn lemma_map_update<V>(entries: Seq<(usize, V)>, i: int, value: V)
    requires
        keys_ascend(entries),
        0 <= i < entries.len(),
    ensures
        keys_ascend(entries.update(i, (entries[i].0, value))),
        map_of(entries).contains_key(entries[i].0),
        map_of(entries)[entries[i].0] == entries[i].1,
        map_of(entries.update(i, (entries[i].0, value))) == map_of(entries).insert(
            entries[i].0,
            value,
        ),
{
    let after = entries.update(i, (entries[i].0, value));
    lemma_map_of(entries);
    assert forall|a: int, b: int|
        #![trigger after[a], after[b]]
        0 <= a < b < after.len() implies after[a].0 < after[b].0 by {
        assert(entries[a].0 < entries[b].0);
    }
    lemma_map_of(after);
    let m0 = map_of(entries).insert(entries[i].0, value);
    let m1 = map_of(after);
    assert forall|k: usize|
        #![trigger m0.dom().contains(k)]
        #![trigger m1.dom().contains(k)]
        #![trigger m0[k]]
        #![trigger m1[k]]
        m0.contains_key(k) == m1.contains_key(k) && (m0.contains_key(k) ==> m0[k] == m1[k]) by {
        if m1.contains_key(k) {
            let j = choose|j: int| 0 <= j < after.len() && (#[trigger] after[j]).0 == k;
            assert(entries[j].0 == k);
        }
        if m0.contains_key(k) {
            if k == entries[i].0 {
                assert(after[i].0 == k);
            } else {
                assert(map_of(entries).contains_key(k));
                let j = choose|j: int| 0 <= j < entries.len() && (#[trigger] entries[j]).0 == k;
                assert(after[j] == entries[j]);
            }
        }
    }
    assert(m0.dom() =~= m1.dom());
    assert(m0 =~= m1);
}

/// Removing an entry.
pub proof fn lemma_map_remove<V>(entries: Seq<(usize, V)>, i: int)
    requires
        keys_ascend(entries),
        0 <= i < entries.len(),
    ensures
        keys_ascend(entries.remove(i)),
        map_of(entries.remove(i)) == map_of(entries).remove(entries[i].0),
{
    let after = entries.remove(i);
    lemma_map_of(entries);
    assert forall|a: int, b: int|
        #![trigger after[a], after[b]]
        0 <= a < b < after.len() implies after[a].0 < after[b].0 by {
        let pa = if a < i {
            a
        } else {
            a + 1
        };
        let pb = if b < i {
            b
        } else {
            b + 1
        };
        assert(after[a] == entries[pa]);
        assert(after[b] == entries[pb]);
    }
    lemma_map_of(after);
    let m0 = map_of(entries).remove(entries[i].0);
    let m1 = map_of(after);
    assert forall|k: usize|
        #![trigger m0.dom().contains(k)]
        #![trigger m1.dom().contains(k)]
        #![trigger m0[k]]
        #![trigger m1[k]]
        m0.contains_key(k) == m1.contains_key(k) && (m0.contains_key(k) ==> m0[k] == m1[k]) by {
        if m1.contains_key(k) {
            let j = choose|j: int| 0 <= j < after.len() && (#[trigger] after[j]).0 == k;
            let pj = if j < i {
                j
            } else {
                j + 1
            };
            assert(after[j] == entries[pj]);
            assert(entries[i] == entries[i]);
        }
        if m0.contains_key(k) {
            assert(map_of(entries).contains_key(k));
            let j = choose|j: int| 0 <= j < entries.len() && (#[trigger] entries[j]).0 == k;
            if j < i {
                assert(after[j] == entries[j]);
            } else {
                assert(after[j - 1] == entries[j]);
            }
        }
    }
    assert(m0.dom() =~= m1.dom());
    assert(m0 =~= m1);
}

/// A key that no entry has is not in the map.
pub proof fn lemma_map_absent<V>(entries: Seq<(usize, V)>, i: int, key: usize)
    requires
        keys_ascend(entries),
        0 <= i <= entries.len(),
        forall|j: int| #![trigger entries[j]] 0 <= j < i ==> entries[j].0 < key,
        forall|j: int| #![trigger entries[j]] i <= j < entries.len() ==> key < entries[j].0,
    ensures
        !map_of(entries).contains_key(key),
{
    lemma_map_of(entries);
    if map_of(entries).contains_key(key) {
        let j = choose|j: int| 0 <= j < entries.len() && (#[trigger] entries[j]).0 == key;
        assert(false);
    }
}

impl<V> SelfAllocatedBTreeMap<V> {
    /// The map.
    pub open spec fn view(self) -> Map<usize, V> {
        map_of(self.entries@)
    }

    /// Whether the map is sound: the keys ascend, and the nodes have room for the entries.
    pub open spec fn wf(self) -> bool {
        &&& keys_ascend(self.entries@)
        &&& self.entries@.len() <= 11 * self.nodes@.len()
        &&& self.nodes_wf()
    }

    /// Whether the nodes are counted.
    pub open spec fn nodes_wf(self) -> bool {
        &&& self.nodes@.len() <= u32::MAX
        &&& self.allocated_memory.0@[0].1 == self.nodes@.len()
        &&& self.allocated_memory.0@[0].0 == MAP_NODE_SIZE || (self.nodes@.len() == 0
            && self.allocated_memory.0@[0].0 == 0)
        &&& self.allocated_memory.0@[1] == (0usize, 0u32)
        &&& forall|i: int| 0 <= i < self.nodes@.len() ==> (#[trigger] self.nodes@[i]) > 0
    }

    /// An empty map without nodes.
    pub fn new() -> (r: SelfAllocatedBTreeMap<V>)
        ensures
            r.wf(),
            r@ == Map::<usize, V>::empty(),
            r.entries@.len() == 0,
            r.nodes@.len() == 0,
    {
        SelfAllocatedBTreeMap {
            entries: Vec::new(),
            nodes: Vec::new(),
            allocated_memory: SelfAllocatedMemory::new(),
        }
    }

    /// The number of entries.
    pub fn len(&self) -> (r: usize)
        ensures
            r == self.entries@.len(),
    {
        self.entries.len()
    }

    /// Whether there are no entries.
    pub fn is_empty(&self) -> (r: bool)
        ensures
            r == (self.entries@.len() == 0),
    {
        self.entries.len() == 0
    }

    /// Where the key is, or where it would have to be.
    pub fn search(&self, key: usize) -> (r: Result<usize, usize>)
        requires
            keys_ascend(self.entries@),
        ensures
            match r {
                Ok(i) => i < self.entries@.len() && self.entries@[i as int].0 == key,
                Err(i) => {
                    &&& i <= self.entries@.len()
                    &&& forall|j: int|
                        #![trigger self.entries@[j]]
                        0 <= j < i ==> self.entries@[j].0 < key
                    &&& forall|j: int|
                        #![trigger self.entries@[j]]
                        i <= j < self.entries@.len() ==> key < self.entries@[j].0
                },
            },
    {
        let mut low: usize = 0;
        let mut high: usize = self.entries.len();
        while low < high
            invariant
                low <= high <= self.entries@.len(),
                keys_ascend(self.entries@),
                forall|j: int|
                    #![trigger self.entries@[j]]
                    0 <= j < low ==> self.entries@[j].0 < key,
                forall|j: int|
                    #![trigger self.entries@[j]]
                    high <= j < self.entries@.len() ==> key < self.entries@[j].0,
            decreases high - low,
        {
            let mid: usize = low + (high - low) / 2;
            let mid_key: usize = self.entries[mid].0;
            if mid_key < key {
                low = mid + 1;
            } else if mid_key > key {
                high = mid;
            } else {
                return Ok(mid);
            }
        }
        Err(low)
    }

    /// Whether another entry takes another node.
    pub fn needs_node(&self) -> (r: bool)
        requires
            self.nodes_wf(),
        ensures
            r <==> self.entries@.len() >= 11 * self.nodes@.len(),
    {
        self.entries.len() / MAP_NODE_CAPACITY >= self.nodes.len()
    }

    /// Adds a node.
    pub fn add_node(&mut self, ptr: usize)
        requires
            old(self).nodes_wf(),
            old(self).nodes@.len() < u32::MAX,
            ptr > 0,
        ensures
            final(self).nodes_wf(),
            final(self).entries == old(self).entries,
            final(self).nodes@ == old(self).nodes@.push(ptr),
    {
        self.nodes.push(ptr);
        self.allocated_memory.inc_for_size(MAP_NODE_SIZE);
    }

    /// Takes the last node.
    pub fn take_node(&mut self) -> (r: usize)
        requires
            old(self).nodes_wf(),
            old(self).nodes@.len() > 0,
        ensures
            final(self).nodes_wf(),
            final(self).entries == old(self).entries,
            final(self).nodes@ == old(self).nodes@.drop_last(),
            r == old(self).nodes@.last(),
            r > 0,
    {
        self.allocated_memory.dec_for_size(MAP_NODE_SIZE);
        match self.nodes.pop() {
            Some(ptr) => {
                assert(ptr == old(self).nodes@[old(self).nodes@.len() - 1]);
                ptr
            },
            None => 0,
        }
    }

    /// Forgets the entries and the nodes.
    pub fn force_become_null(&mut self)
        ensures
            final(self).wf(),
            final(self).entries@.len() == 0,
            final(self).nodes@.len() == 0,
            final(self)@ == Map::<usize, V>::empty(),
    {
        self.entries = Vec::new();
        self.nodes = Vec::new();
        self.allocated_memory = SelfAllocatedMemory::new();
    }

    /// The sizes of the blocks that the map holds, and how many of each.
    pub fn self_allocated_memory(&self) -> (r: [(usize, u32); 2])
        ensures
            r == self.allocated_memory.0,
    {
        self.allocated_memory.0
    }
}

} // verus!
