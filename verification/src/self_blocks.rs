//! The blocks that serve an allocator itself.
use crate::inner::{buffer_bytes, elem_size_of, slot_wf, COMMON_TABLE_SIZE, LARGE_TABLE_SIZE, SLOTS};
use crate::non_local_ptr_manager::NonLocalPtrManager;
use crate::self_vec::SelfAllocatedVec;
use crate::thread_local_allocator::ThreadLocalAllocator;
use crate::used_objects::UsedObjectsFixed;
use vstd::prelude::*;

verus! {

/// The greatest number of sizes of blocks that serve an allocator: its vectors, its tables, its
/// manager with the blocks of its own, and the nodes of its map.
pub const MAX_NUMBER_OF_SELF_ALLOCATED_OBJECTS: usize = 512;

/// How often a size is in a list.
pub open spec fn times_in(sizes: Seq<usize>, size: usize) -> int
    decreases sizes.len(),
{
    if sizes.len() == 0 {
        0
    } else {
        times_in(sizes.drop_last(), size) + (if sizes.last() == size && size != 0 {
            1int
        } else {
            0
        })
    }
}

/// How many of the first `n` vectors have a buffer of the size.
pub open spec fn buffers_of_size(
    vectors: Seq<SelfAllocatedVec<usize>>,
    n: int,
    size: usize,
) -> int
    decreases n,
{
    if n <= 0 {
        0
    } else {
        buffers_of_size(vectors, n - 1, size) + (if size != 0 && buffer_bytes(
            n - 1,
            vectors[n - 1],
        ) == size {
            1int
        } else {
            0
        })
    }
}

/// One where there is a block of the size.
pub open spec fn block_of_size(ptr: usize, bytes: usize, size: usize) -> int {
    if ptr != 0 && bytes == size && size != 0 {
        1
    } else {
        0
    }
}

/// The sizes of the blocks that the manager holds for itself.
pub open spec fn own_blocks_of<N: NonLocalPtrManager>(a: ThreadLocalAllocator<N>) -> Seq<usize> {
    match a.non_local_ptr_manager {
        Some(manager) => manager.own_blocks(),
        None => Seq::empty(),
    }
}

/// How many blocks of the size serve the allocator itself.
pub open spec fn self_number<N: NonLocalPtrManager>(
    a: ThreadLocalAllocator<N>,
    size: usize,
) -> int {
    times_in(own_blocks_of(a), size) + block_of_size(
        a.inner.manager_ptr,
        a.inner.manager_block,
        size,
    ) + buffers_of_size(a.inner.vectors@, 435, size) + block_of_size(
        a.inner.common_chunk_table,
        COMMON_TABLE_SIZE,
        size,
    ) + block_of_size(a.inner.large_chunk_table, LARGE_TABLE_SIZE, size) + (if size == 192 {
        a.inner.allocated_large_sizes.nodes@.len() as int
    } else {
        0
    })
}

impl<N: NonLocalPtrManager> ThreadLocalAllocator<N> {
    /// Counts the blocks that serve the allocator itself by their sizes.
    pub fn allocated_for_self(&self) -> (r: UsedObjectsFixed<512>)
        requires
            self.wf(),
        ensures
            r.wf(),
            forall|size: usize| #[trigger] r.number(size) == self_number(*self, size),
    {
        let mut arr: UsedObjectsFixed<512> = UsedObjectsFixed::new();
        let ghost own = own_blocks_of(*self);
        let ghost mut written: int = 0;
        match &self.non_local_ptr_manager {
            Some(manager) => {
                let sizes: Vec<usize> = manager.self_allocated_memory();
                let n: usize = sizes.len();
                let mut i: usize = 0;
                assert(sizes@.take(0) =~= Seq::<usize>::empty());
                while i < n
                    invariant
                        i <= n <= 64,
                        n == sizes@.len(),
                        arr.wf(),
                        arr.arr@.len() <= i,
                        forall|size: usize| #[trigger]
                            arr.number(size) == times_in(sizes@.take(i as int), size),
                        forall|size: usize| #[trigger] arr.number(size) <= i,
                    decreases n - i,
                {
                    let ghost before = arr;
                    let bytes: usize = sizes[i];
                    assert(arr.number(bytes) <= i);
                    arr.write_used_number_and_size(bytes, 1);
                    proof {
                        assert(sizes@.take(i + 1).drop_last() =~= sizes@.take(i as int));
                        assert forall|size: usize| #[trigger]
                            arr.number(size) == times_in(sizes@.take(i + 1), size) by {
                            assert(before.number(size) == times_in(sizes@.take(i as int), size));
                        }
                        assert forall|size: usize| #[trigger] arr.number(size) <= i + 1 by {
                            assert(before.number(size) <= i);
                        }
                    }
                    i = i + 1;
                }
                assert(sizes@.take(n as int) =~= sizes@);
            },
            None => {},
        }
        let ghost arr1 = arr;
        if self.inner.manager_ptr != 0 {
            assert(arr.number(self.inner.manager_block) <= 64);
            arr.write_used_number_and_size(self.inner.manager_block, 1);
        }
        let ghost arr2 = arr;
        proof {
            assert forall|size: usize| #[trigger]
                arr2.number(size) == arr1.number(size) + block_of_size(
                    self.inner.manager_ptr,
                    self.inner.manager_block,
                    size,
                ) by {
                assert(arr1.number(size) <= 64);
            }
        }
        let mut slot: usize = 0;
        while slot < SLOTS
            invariant
                slot <= 435,
                self.wf(),
                arr.wf(),
                arr.arr@.len() <= 65 + slot,
                forall|size: usize| #[trigger] arr2.number(size) <= 65,
                forall|size: usize| #[trigger]
                    arr.number(size) == arr2.number(size) + buffers_of_size(
                        self.inner.vectors@,
                        slot as int,
                        size,
                    ),
                forall|size: usize| #[trigger] arr.number(size) <= 65 + slot,
            decreases 435 - slot,
        {
            let ghost before = arr;
            let bytes: usize = self.bytes_of_buffer(slot);
            assert(arr.number(bytes) <= 65 + slot);
            arr.write_used_number_and_size(bytes, 1);
            proof {
                assert forall|size: usize| #[trigger]
                    arr.number(size) == arr2.number(size) + buffers_of_size(
                        self.inner.vectors@,
                        slot + 1,
                        size,
                    ) by {
                    assert(before.number(size) == arr2.number(size) + buffers_of_size(
                        self.inner.vectors@,
                        slot as int,
                        size,
                    ));
                }
                assert forall|size: usize| #[trigger] arr.number(size) <= 65 + slot + 1 by {
                    assert(before.number(size) <= 65 + slot);
                }
            }
            slot = slot + 1;
        }
        let ghost arr3 = arr;
        if self.inner.common_chunk_table != 0 {
            assert(arr.number(COMMON_TABLE_SIZE) <= 500);
            arr.write_used_number_and_size(COMMON_TABLE_SIZE, 1);
        }
        let ghost arr4 = arr;
        proof {
            assert forall|size: usize| #[trigger]
                arr4.number(size) == arr3.number(size) + block_of_size(
                    self.inner.common_chunk_table,
                    COMMON_TABLE_SIZE,
                    size,
                ) && arr4.number(size) <= 501 by {
                assert(arr3.number(size) <= 500);
            }
        }
        if self.inner.large_chunk_table != 0 {
            assert(arr.number(LARGE_TABLE_SIZE) <= 501);
            arr.write_used_number_and_size(LARGE_TABLE_SIZE, 1);
        }
        let ghost arr5 = arr;
        proof {
            assert forall|size: usize| #[trigger]
                arr5.number(size) == arr4.number(size) + block_of_size(
                    self.inner.large_chunk_table,
                    LARGE_TABLE_SIZE,
                    size,
                ) && arr5.number(size) <= 502 by {
                assert(arr4.number(size) <= 501);
            }
        }
        let nodes = self.inner.allocated_large_sizes.self_allocated_memory();
        assert(arr.number(nodes[0].0) <= 502);
        arr.write_used_number_and_size(nodes[0].0, nodes[0].1);
        let ghost arr6 = arr;
        proof {
            assert(nodes@[1] == (0usize, 0u32));
            assert forall|size: usize| #[trigger] arr6.number(size) == self_number(*self, size) by {
                assert(arr5.number(size) == arr4.number(size) + block_of_size(
                    self.inner.large_chunk_table,
                    LARGE_TABLE_SIZE,
                    size,
                ));
                assert(arr4.number(size) == arr3.number(size) + block_of_size(
                    self.inner.common_chunk_table,
                    COMMON_TABLE_SIZE,
                    size,
                ));
                assert(arr3.number(size) == arr2.number(size) + buffers_of_size(
                    self.inner.vectors@,
                    435,
                    size,
                ));
                assert(arr2.number(size) == arr1.number(size) + block_of_size(
                    self.inner.manager_ptr,
                    self.inner.manager_block,
                    size,
                ));
                assert(arr1.number(size) == times_in(own, size));
            }
        }
        arr
    }

    /// Bytes in the buffer of a vector.
    fn bytes_of_buffer(&self, slot: usize) -> (r: usize)
        requires
            self.wf(),
            slot < 435,
        ensures
            r == buffer_bytes(slot as int, self.inner.vectors@[slot as int]),
    {
        assert(slot_wf(slot as int, self.inner.parts().vectors[slot as int]));
        self.inner.cap(slot) as usize * elem_size_of(slot)
    }
}

} // verus!
