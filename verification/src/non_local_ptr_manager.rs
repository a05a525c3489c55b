//! Pointers that are freed by another thread than the one whose allocator handed them out.
use crate::blocks::covers;
use crate::sizes::{
    class_of, class_size, COMMON_SIZE_TABLE_LEN, LARGE_SIZE_MAX,
    REAL_NUMBER_OF_LARGE_OBJECT_VECTORS,
};
use vstd::prelude::*;

verus! {

/// Which vector of free objects a pointer belongs to: a position among the common classes or
/// among the large ones.
#[derive(Copy, Clone, Debug, PartialEq, Eq, Structural)]
pub struct OffsetToSlotInTable {
    pub is_common: bool,
    pub idx: usize,
}

/// The vector of a size class.
pub open spec fn offset_of_class(class: int) -> OffsetToSlotInTable {
    if class < 128 {
        OffsetToSlotInTable { is_common: true, idx: class as usize }
    } else {
        OffsetToSlotInTable { is_common: false, idx: (class - 128) as usize }
    }
}

impl OffsetToSlotInTable {
    /// Whether the offset names a vector.
    pub open spec fn is_valid(self) -> bool {
        if self.is_common {
            self.idx < COMMON_SIZE_TABLE_LEN
        } else {
            self.idx < REAL_NUMBER_OF_LARGE_OBJECT_VECTORS
        }
    }

    /// The size class of the vector.
    pub open spec fn class(self) -> int {
        if self.is_common {
            self.idx as int
        } else {
            self.idx + COMMON_SIZE_TABLE_LEN
        }
    }

    /// The vector at position `idx` among the common classes.
    pub fn new_for_common_chunk(idx: usize) -> (r: OffsetToSlotInTable)
        ensures
            r == (OffsetToSlotInTable { is_common: true, idx }),
    {
        OffsetToSlotInTable { is_common: true, idx }
    }

    /// The vector at position `idx` among the large classes.
    pub fn new_for_large_chunk(idx: usize) -> (r: OffsetToSlotInTable)
        ensures
            r == (OffsetToSlotInTable { is_common: false, idx }),
    {
        OffsetToSlotInTable { is_common: false, idx }
    }

    /// The vector of a size class.
    pub fn new_for_class(class: usize) -> (r: OffsetToSlotInTable)
        requires
            class < 216,
        ensures
            r.is_valid(),
            r.class() == class,
            r.is_common <==> class < 128,
            r == offset_of_class(class as int),
    {
        if class < COMMON_SIZE_TABLE_LEN {
            OffsetToSlotInTable::new_for_common_chunk(class)
        } else {
            OffsetToSlotInTable::new_for_large_chunk(class - COMMON_SIZE_TABLE_LEN)
        }
    }

    /// Whether the vector is one of a common class.
    pub fn is_common(self) -> (r: bool)
        ensures
            r == self.is_common,
    {
        self.is_common
    }

    /// An offset that names no vector. It fills the place of an offset that nobody reads.
    pub fn random() -> (r: OffsetToSlotInTable)
        ensures
            r == (OffsetToSlotInTable { is_common: false, idx: 16_000_000 }),
            !r.is_valid(),
    {
        OffsetToSlotInTable { is_common: false, idx: 16_000_000 }
    }

    /// The size class of the vector.
    pub fn to_class(self) -> (r: usize)
        requires
            self.is_valid(),
        ensures
            r == self.class(),
            r < 216,
    {
        if self.is_common {
            self.idx
        } else {
            self.idx + COMMON_SIZE_TABLE_LEN
        }
    }
}

/// A pointer that travels back to the allocator that handed it out.
#[derive(Copy, Clone, Debug, PartialEq, Eq, Structural)]
pub struct NonLocalPtrData {
    pub ptr: usize,
    pub offset_to_slot_in_table: OffsetToSlotInTable,
}

impl NonLocalPtrData {
    /// The pointer and the vector that it goes back to.
    pub fn new(ptr: usize, offset_to_slot_in_table: OffsetToSlotInTable) -> (r: NonLocalPtrData)
        ensures
            r == (NonLocalPtrData { ptr, offset_to_slot_in_table }),
    {
        NonLocalPtrData { ptr, offset_to_slot_in_table }
    }

    /// The pointer.
    pub fn ptr(&self) -> (r: usize)
        ensures
            r == self.ptr,
    {
        self.ptr
    }

    /// The vector that the pointer goes back to.
    pub fn offset_to_slot_in_table(self) -> (r: OffsetToSlotInTable)
        ensures
            r == self.offset_to_slot_in_table,
    {
        self.offset_to_slot_in_table
    }
}

/// Bytes in the node that carries a pointer.
pub const NODE_SIZE: usize = 32;

/// The greatest number of blocks that a manager holds for itself.
pub const MAX_OWN_BLOCKS: usize = 64;

/// A node of the list of incoming pointers: the memory of the node belongs to the sender, and
/// comes back to it in a node that carries itself.
#[derive(Copy, Clone, Debug, PartialEq, Eq, Structural)]
pub struct Node {
    pub address: usize,
    pub value: NonLocalPtrData,
}

impl Node {
    /// Whether the node comes home: it carries its own memory.
    pub open spec fn is_returned(self) -> bool {
        self.value.ptr == self.address
    }

    /// Whether the receiver can take the node.
    pub open spec fn is_valid(self) -> bool {
        self.is_returned() || self.value.offset_to_slot_in_table.is_valid()
    }

    /// The size class of the object that the receiver gets back.
    pub open spec fn class(self) -> int {
        if self.is_returned() {
            class_of(NODE_SIZE as int)
        } else {
            self.value.offset_to_slot_in_table.class()
        }
    }

    /// What the node holds of the byte at `at`: the object that it carries, and its own memory.
    pub open spec fn cover(self, at: int) -> int {
        if self.is_returned() {
            covers(self.address as int, NODE_SIZE as int, at)
        } else {
            covers(self.value.ptr as int, class_size(self.class()), at) + covers(
                self.address as int,
                NODE_SIZE as int,
                at,
            )
        }
    }
}

/// What the nodes hold of the byte at `at`.
pub open spec fn nodes_cover(nodes: Seq<Node>, at: int) -> int
    decreases nodes.len(),
{
    if nodes.len() == 0 {
        0
    } else {
        nodes_cover(nodes.drop_last(), at) + nodes.last().cover(at)
    }
}

/// How many of the nodes bring back an object of the class.
pub open spec fn nodes_of_class(nodes: Seq<Node>, class: int) -> int
    decreases nodes.len(),
{
    if nodes.len() == 0 {
        0
    } else {
        nodes_of_class(nodes.drop_last(), class) + (if nodes.last().class() == class {
            1int
        } else {
            0
        })
    }
}

/// How many of the nodes have not come home: their memory is still to be sent there.
pub open spec fn nodes_abroad(nodes: Seq<Node>) -> int
    decreases nodes.len(),
{
    if nodes.len() == 0 {
        0
    } else {
        nodes_abroad(nodes.drop_last()) + (if nodes.last().is_returned() {
            0int
        } else {
            1
        })
    }
}

pub proof fn lemma_nodes_push(nodes: Seq<Node>, node: Node)
    ensures
        nodes_abroad(nodes.push(node)) == nodes_abroad(nodes) + (if node.is_returned() {
            0int
        } else {
            1
        }),
        forall|at: int|
            nodes_cover(nodes.push(node), at) == #[trigger] nodes_cover(nodes, at) + node.cover(at),
        forall|class: int|
            nodes_of_class(nodes.push(node), class) == #[trigger] nodes_of_class(nodes, class) + (
            if node.class() == class {
                1int
            } else {
                0
            }),
{
    assert(nodes.push(node).drop_last() =~= nodes);
}

pub proof fn lemma_nodes_nonnegative(nodes: Seq<Node>, at: int, class: int)
    ensures
        nodes_cover(nodes, at) >= 0,
        nodes_of_class(nodes, class) >= 0,
    decreases nodes.len(),
{
    if nodes.len() > 0 {
        lemma_nodes_nonnegative(nodes.drop_last(), at, class);
    }
}

/// A message to the manager at the address `to`.
#[derive(Copy, Clone, Debug, PartialEq, Eq, Structural)]
pub struct Message {
    pub to: usize,
    pub node: Node,
}

/// The part of an allocator that other threads reach: it collects the pointers that they free.
///
/// A manager lives in memory of its allocator, and its address tells the owner of a chunk. It
/// does not free memory when it is dropped; [`NonLocalPtrManager::self_drop`] is called instead.
pub trait NonLocalPtrManager: Sized {
    /// The nodes that have come in, the oldest first.
    spec fn incoming(&self) -> Seq<Node>;

    /// The bytes that a manager takes.
    spec fn size_spec() -> usize;

    /// Whether slow allocations look for incoming pointers first.
    spec fn auto_check_spec() -> bool;

    /// The sizes of the blocks that the manager holds for itself.
    spec fn own_blocks(&self) -> Seq<usize>;

    /// Whether the manager has ended.
    spec fn is_ended(&self) -> bool;

    /// A manager that nothing has come in to.
    fn default() -> (r: Self)
        ensures
            r.incoming() == Seq::<Node>::empty(),
            !r.is_ended(),
    ;

    /// The bytes that a manager takes. A manager is kept in an object of a chunk.
    fn size() -> (r: usize)
        ensures
            r == Self::size_spec(),
            r <= LARGE_SIZE_MAX,
    ;

    /// Whether slow allocations look for incoming pointers first.
    fn should_auto_check_for_incoming_non_local_ptrs() -> (r: bool)
        ensures
            r == Self::auto_check_spec(),
    ;

    /// The message that carries a pointer of another allocator home, in the node at `node`.
    fn deallocate_non_local_ptr(
        &self,
        node: usize,
        other_manager_ptr: usize,
        non_local_ptr_data: NonLocalPtrData,
    ) -> (r: Message)
        ensures
            r == (Message {
                to: other_manager_ptr,
                node: Node { address: node, value: non_local_ptr_data },
            }),
    ;

    /// Takes all that has come in, the newest first.
    fn check_for_incoming_non_local_ptrs(&mut self) -> (r: Vec<Node>)
        ensures
            r@ == old(self).incoming().reverse(),
            final(self).incoming() == Seq::<Node>::empty(),
            final(self).is_ended() == old(self).is_ended(),
    ;

    /// The sizes of the blocks that the manager holds for itself.
    fn self_allocated_memory(&self) -> (r: Vec<usize>)
        ensures
            r@ == self.own_blocks(),
            r@.len() <= MAX_OWN_BLOCKS,
    ;

    /// Ends the manager.
    fn self_drop(&mut self)
        ensures
            final(self).incoming() == old(self).incoming(),
            final(self).is_ended(),
    ;
}

/// The default manager: a list of incoming nodes.
#[derive(Clone, Debug)]
pub struct LockFreeNonLocalPtrManager {
    pub nodes: Vec<Node>,
    pub is_deallocated: bool,
}

impl LockFreeNonLocalPtrManager {
    /// An empty list.
    pub fn new() -> (r: LockFreeNonLocalPtrManager)
        ensures
            r.nodes@ == Seq::<Node>::empty(),
            !r.is_deallocated,
    {
        LockFreeNonLocalPtrManager { nodes: Vec::new(), is_deallocated: false }
    }

    /// Puts a node in front of the list.
    pub fn add_new_node_ptr(&mut self, node: Node)
        ensures
            final(self).nodes@ == old(self).nodes@.push(node),
            final(self).is_deallocated == old(self).is_deallocated,
    {
        self.nodes.push(node);
    }

    /// Whether the manager has ended.
    pub fn clone_is_deallocated(&self) -> (r: bool)
        ensures
            r == self.is_deallocated,
    {
        self.is_deallocated
    }

    fn set_deallocated(&mut self)
        ensures
            final(self).is_deallocated,
            final(self).nodes == old(self).nodes,
    {
        self.is_deallocated = true;
    }
}

impl NonLocalPtrManager for LockFreeNonLocalPtrManager {
    open spec fn incoming(&self) -> Seq<Node> {
        self.nodes@
    }

    open spec fn size_spec() -> usize {
        256
    }

    open spec fn auto_check_spec() -> bool {
        true
    }

    open spec fn own_blocks(&self) -> Seq<usize> {
        Seq::empty()
    }

    open spec fn is_ended(&self) -> bool {
        self.is_deallocated
    }

    fn default() -> (r: Self)
        ensures
            r.nodes@ == Seq::<Node>::empty(),
            !r.is_deallocated,
    {
        LockFreeNonLocalPtrManager::new()
    }

    fn size() -> (r: usize) {
        256
    }

    fn should_auto_check_for_incoming_non_local_ptrs() -> (r: bool) {
        true
    }

    fn deallocate_non_local_ptr(
        &self,
        node: usize,
        other_manager_ptr: usize,
        non_local_ptr_data: NonLocalPtrData,
    ) -> (r: Message) {
        Message {
            to: other_manager_ptr,
            node: Node { address: node, value: non_local_ptr_data },
        }
    }

    fn check_for_incoming_non_local_ptrs(&mut self) -> (r: Vec<Node>) {
        let mut taken: Vec<Node> = Vec::new();
        let ghost all = self.nodes@;
        while self.nodes.len() > 0
            invariant
                all.reverse() == taken@ + self.nodes@.reverse(),
                self.is_deallocated == old(self).is_deallocated,
            decreases self.nodes@.len(),
        {
            let ghost before = self.nodes@;
            let ghost taken_before = taken@;
            match self.nodes.pop() {
                Some(node) => {
                    taken.push(node);
                    assert(before.reverse() =~= seq![node] + self.nodes@.reverse());
                    assert(taken_before + before.reverse() =~= taken@ + self.nodes@.reverse());
                },
                None => {},
            }
        }
        assert(taken@ + self.nodes@.reverse() =~= taken@);
        taken
    }

    fn self_allocated_memory(&self) -> (r: Vec<usize>) {
        Vec::new()
    }

    fn self_drop(&mut self) {
        self.set_deallocated();
    }
}

/// A manager that takes no memory of its allocator, for a process with one thread: nothing can come
/// in to it.
#[derive(Copy, Clone, Debug)]
pub struct ZeroSizedNonLocalPtrManager {
    pub is_deallocated: bool,
}

impl NonLocalPtrManager for ZeroSizedNonLocalPtrManager {
    open spec fn incoming(&self) -> Seq<Node> {
        Seq::empty()
    }

    open spec fn size_spec() -> usize {
        0
    }

    open spec fn auto_check_spec() -> bool {
        true
    }

    open spec fn own_blocks(&self) -> Seq<usize> {
        Seq::empty()
    }

    open spec fn is_ended(&self) -> bool {
        self.is_deallocated
    }

    fn default() -> (r: Self)
        ensures
            !r.is_deallocated,
    {
        ZeroSizedNonLocalPtrManager { is_deallocated: false }
    }

    fn size() -> (r: usize) {
        0
    }

    fn should_auto_check_for_incoming_non_local_ptrs() -> (r: bool) {
        true
    }

    fn deallocate_non_local_ptr(
        &self,
        node: usize,
        other_manager_ptr: usize,
        non_local_ptr_data: NonLocalPtrData,
    ) -> (r: Message) {
        Message {
            to: other_manager_ptr,
            node: Node { address: node, value: non_local_ptr_data },
        }
    }

    fn check_for_incoming_non_local_ptrs(&mut self) -> (r: Vec<Node>) {
        assert(Seq::<Node>::empty().reverse() =~= Seq::<Node>::empty());
        Vec::new()
    }

    fn self_allocated_memory(&self) -> (r: Vec<usize>) {
        Vec::new()
    }

    fn self_drop(&mut self) {
        self.is_deallocated = true;
    }
}

} // verus!
