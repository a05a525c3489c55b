//! The allocator of a thread.
use crate::accounts::node_wf;
use crate::info_for_size::{can_tell, law_balanced_can_be_told};
use crate::inner::ThreadLocalAllocatorInner;
use crate::non_local_ptr_manager::{
    lemma_nodes_push, nodes_cover, nodes_of_class, LockFreeNonLocalPtrManager, Node,
    NonLocalPtrManager,
};
use crate::os::Environment;
use crate::ownership::{lemma_fresh_owns, lemma_received, owned, owns};
use crate::placement::is_single;
use vstd::prelude::*;

verus! {

/// An allocator: its bookkeeping, and the manager that other threads reach.
///
/// The environment is what all allocators of a process share; it is kept in the bookkeeping of the
/// allocator that works.
#[derive(Clone, Debug)]
pub struct ThreadLocalAllocator<N: NonLocalPtrManager> {
    pub inner: ThreadLocalAllocatorInner,
    pub non_local_ptr_manager: Option<N>,
    /// The manager of an allocator whose memory was freed.
    pub ended_manager: Option<N>,
}

/// The manager of the default allocator.
pub type DefaultNonLocalPtrManager = LockFreeNonLocalPtrManager;

/// The default allocator.
pub type DefaultThreadLocalAllocator = ThreadLocalAllocator<LockFreeNonLocalPtrManager>;

/// Whether an allocator has nothing.
pub open spec fn is_fresh<N: NonLocalPtrManager>(a: ThreadLocalAllocator<N>) -> bool {
    &&& a.wf()
    &&& forall|slot: int|
        0 <= slot < 435 ==> #[trigger] a.len_of(slot) == 0 && a.cap_of(slot) == 0
    &&& a.inner.common_chunk_table == 0
    &&& a.inner.large_chunk_table == 0
    &&& a.inner.manager_ptr == 0
    &&& a.inner.allocated_large_sizes.entries@.len() == 0
    &&& a.inner.allocated_large_sizes.nodes@.len() == 0
    &&& a.non_local_ptr_manager is None
    &&& !a.inner.is_destructor_registered
    &&& forall|class: int| 0 <= class < 216 ==> #[trigger] a.live(class) == 0
    &&& forall|at: int| #[trigger] a.held(at) == a.inner.env.pool(at)
}

impl<N: NonLocalPtrManager> ThreadLocalAllocator<N> {
    /// An allocator that has done nothing yet.
    pub fn new(env: Environment) -> (r: ThreadLocalAllocator<N>)
        requires
            env.wf(),
        ensures
            is_fresh(r),
            can_tell(r),
            is_single(env) ==> owns(r),
            r.inner.env == env,
            r.ended_manager is None,
            !r.inner.is_already_destructured,
    {
        let r = ThreadLocalAllocator {
            inner: ThreadLocalAllocatorInner::new(env),
            non_local_ptr_manager: None,
            ended_manager: None,
        };
        proof {
            assert(r.incoming() == Seq::<Node>::empty());
            assert forall|slot: int| 0 <= slot < 435 implies #[trigger] r.len_of(slot) == 0
                && r.cap_of(slot) == 0 by {
                assert(r.inner.vectors@[slot]@.len() == 0);
            }
            assert forall|class: int| 0 <= class < 216 implies #[trigger] r.live(class) == 0 by {
                assert(r.inner.parts().out(class) == 0);
            }
            assert forall|at: int| #[trigger] r.held(at) == r.inner.env.pool(at) by {
                assert(r.inner.parts().cover(at) == 0);
            }
            law_balanced_can_be_told(r);
            if is_single(env) {
                lemma_fresh_owns(r);
            }
        }
        r
    }

    /// Whether the allocator has ended.
    pub fn is_already_destructured(&self) -> (r: bool)
        ensures
            r == self.inner.is_already_destructured,
    {
        self.inner.is_already_destructured
    }
}

impl ThreadLocalAllocator<LockFreeNonLocalPtrManager> {
    /// A default allocator that has done nothing yet.
    pub fn new_default(env: Environment) -> (r: ThreadLocalAllocator<LockFreeNonLocalPtrManager>)
        requires
            env.wf(),
        ensures
            is_fresh(r),
            can_tell(r),
            is_single(env) ==> owns(r),
            r.inner.env == env,
            !r.inner.is_already_destructured,
    {
        ThreadLocalAllocator::new(env)
    }

    /// Takes a node that another thread has sent. It waits until incoming pointers are looked for.
    pub fn receive(&mut self, node: Node) -> (r: bool)
        requires
            old(self).wf(),
            node_wf(node),
        ensures
            final(self).wf(),
            r == (old(self).inner.manager_ptr != 0),
            final(self).inner == old(self).inner,
            r ==> final(self).incoming() == old(self).incoming().push(node),
            !r ==> *final(self) == *old(self),
            owns(*old(self)) && owned(*old(self), None, Set::empty(), node.value.ptr as int)
                ==> owns(*final(self)),
            r ==> forall|at: int| #[trigger]
                final(self).held(at) == old(self).held(at) + node.cover(at),
            r ==> forall|class: int| #[trigger]
                final(self).live(class) == old(self).live(class) - (if node.class() == class {
                    1int
                } else {
                    0
                }),
    {
        let ghost before = *self;
        match &mut self.non_local_ptr_manager {
            Some(manager) => {
                manager.add_new_node_ptr(node);
            },
            None => {
                return false;
            },
        }
        proof {
            lemma_nodes_push(before.incoming(), node);
            assert(self.incoming() =~= before.incoming().push(node));
            if owns(before) && owned(before, None, Set::empty(), node.value.ptr as int) {
                lemma_received(before, *self, node);
            }
            assert forall|i: int| 0 <= i < self.incoming().len() implies node_wf(
                #[trigger] self.incoming()[i],
            ) by {
                if i < before.incoming().len() {
                    assert(node_wf(before.incoming()[i]));
                }
            }
            assert forall|at: int| #[trigger]
                self.held(at) == before.held(at) + node.cover(at) by {
                assert(nodes_cover(before.incoming().push(node), at) == nodes_cover(
                    before.incoming(),
                    at,
                ) + node.cover(at));
            }
            assert forall|class: int| #[trigger]
                self.live(class) == before.live(class) - (if node.class() == class {
                    1int
                } else {
                    0
                }) by {
                assert(nodes_of_class(before.incoming().push(node), class) == nodes_of_class(
                    before.incoming(),
                    class,
                ) + (if node.class() == class {
                    1int
                } else {
                    0
                }));
            }
        }
        true
    }
}

} // verus!
