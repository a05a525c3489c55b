//! Data that each NUMA node has of its own.
use crate::hints::unwrap_or_bug_message_hint;
use vstd::prelude::*;

verus! {

/// The greatest number of NUMA nodes.
pub const MAX_NUMA_NODES_SUPPORTED: usize = 64;

/// What is wrong with a node that there is no data for.
pub const NUMA_NODE_TOO_LARGE: &'static str =
    "this hardware supports more NUMA-nodes than expected, use the `more_numa_nodes` feature to increase the limit";

/// One value per NUMA node.
pub struct DataPerNUMANodeManager<T>(pub [T; 64]);

impl<T> DataPerNUMANodeManager<T> {
    /// The values by their nodes.
    pub fn from_arr(inner: [T; 64]) -> (r: DataPerNUMANodeManager<T>)
        ensures
            r.0 == inner,
    {
        DataPerNUMANodeManager(inner)
    }

    /// The value of a node.
    pub fn get_ref_by_node(&self, numa_node: usize) -> (r: &T)
        requires
            numa_node < MAX_NUMA_NODES_SUPPORTED,
        ensures
            *r == self.0@[numa_node as int],
    {
        let item = if numa_node < MAX_NUMA_NODES_SUPPORTED {
            Some(&self.0[numa_node])
        } else {
            None
        };
        unwrap_or_bug_message_hint(item, NUMA_NODE_TOO_LARGE)
    }

    /// The value of a node, to be changed in place.
    pub fn get_mut_by_node(&mut self, numa_node: usize) -> (r: &mut T)
        requires
            numa_node < MAX_NUMA_NODES_SUPPORTED,
        ensures
            *r == old(self).0@[numa_node as int],
            final(self).0@ == old(self).0@.update(numa_node as int, *final(r)),
    {
        let item = if numa_node < MAX_NUMA_NODES_SUPPORTED {
            Some(&mut self.0[numa_node])
        } else {
            None
        };
        unwrap_or_bug_message_hint(item, NUMA_NODE_TOO_LARGE)
    }
}

} // verus!
