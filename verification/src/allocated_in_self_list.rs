//! A list of free blocks.
use vstd::prelude::*;

verus! {

/// A list of blocks, of which the one that came last leaves first.
#[derive(Clone, Debug)]
pub struct AllocatedInSelfList {
    pub blocks: Vec<usize>,
}

impl AllocatedInSelfList {
    /// The blocks, the front of the list last.
    pub open spec fn view(self) -> Seq<usize> {
        self.blocks@
    }

    /// An empty list.
    pub fn new() -> (r: AllocatedInSelfList)
        ensures
            r@ == Seq::<usize>::empty(),
    {
        AllocatedInSelfList { blocks: Vec::new() }
    }

    /// Puts a block in front of the list.
    pub fn push(&mut self, ptr: usize)
        ensures
            final(self)@ == old(self)@.push(ptr),
    {
        self.blocks.push(ptr);
    }

    /// Takes the block in front of the list.
    pub fn pop(&mut self) -> (r: Option<usize>)
        ensures
            old(self)@.len() == 0 ==> r is None && final(self)@ == old(self)@,
            old(self)@.len() > 0 ==> r == Some(old(self)@.last()) && final(self)@
                == old(self)@.drop_last(),
    {
        self.blocks.pop()
    }
}

/// What is pushed is what is popped next, and the list is as it was before.
pub proof fn law_pop_undoes_push(list: Seq<usize>, ptr: usize)
    ensures
        list.push(ptr).last() == ptr,
        list.push(ptr).drop_last() == list,
{
    assert(list.push(ptr).drop_last() =~= list);
}

} // verus!
