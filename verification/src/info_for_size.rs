//! What an allocator has for each size.
use crate::accounts::is_set_up;
use crate::btree_map::keys_ascend;
use crate::inner::{buffer_bytes, is_of_class, slot_wf, slots_out, Parts, FIRST_CHUNKS};
use crate::non_local_ptr_manager::{lemma_nodes_nonnegative, NonLocalPtrManager, MAX_OWN_BLOCKS};
use crate::self_blocks::{buffers_of_size, own_blocks_of, self_number, times_in};
use crate::self_vec::SelfAllocatedVec;
use crate::sizes::{
    chunk_size_of_class, class_of, class_size, lemma_class, lemma_class_of, size_of_class,
    slots_of_class, SizeClass, COMMON_CHUNK_SIZE, COMMON_SIZE_TABLE_LEN, LARGE_CHUNK_SIZE,
    LARGE_SIZE_MAX, REAL_NUMBER_OF_LARGE_OBJECT_VECTORS,
};
use crate::state::is_object_size;
use crate::steps::lemma_table_sizes;
use crate::thread_local_allocator::ThreadLocalAllocator;
use crate::used_objects::UsedObjectsFixed;
use vstd::prelude::*;

verus! {

/// What an allocator has of objects of one size.
#[derive(Copy, Clone, Debug, PartialEq, Eq, Structural)]
pub struct InfoForSize {
    pub memory_allocated: usize,
    pub size_of_elem: usize,
    pub objects_allocated: usize,
    pub objects_used: usize,
    pub allocated_for_self_objects: usize,
}

impl InfoForSize {
    /// Bytes in the objects that are in use.
    pub fn memory_used(&self) -> (r: usize)
        requires
            self.objects_used * self.size_of_elem <= usize::MAX,
        ensures
            r == self.objects_used * self.size_of_elem,
    {
        self.objects_used * self.size_of_elem
    }

    /// Bytes in the chunks that the objects are carved from.
    pub fn memory_allocated(&self) -> (r: usize)
        ensures
            r == self.memory_allocated,
    {
        self.memory_allocated
    }

    /// Bytes in an object.
    pub fn size_of_elem(&self) -> (r: usize)
        ensures
            r == self.size_of_elem,
    {
        self.size_of_elem
    }

    /// How many objects there are.
    pub fn objects_allocated(&self) -> (r: usize)
        ensures
            r == self.objects_allocated,
    {
        self.objects_allocated
    }

    /// How many of the objects are in use.
    pub fn objects_used(&self) -> (r: usize)
        ensures
            r == self.objects_used,
    {
        self.objects_used
    }

    /// How many of the objects serve the allocator itself.
    pub fn allocated_for_self_objects(&self) -> (r: usize)
        ensures
            r == self.allocated_for_self_objects,
    {
        self.allocated_for_self_objects
    }
}

/// How many objects of the class there are, counted by the bytes of all its chunks.
pub open spec fn objects_of_class<N: NonLocalPtrManager>(
    a: ThreadLocalAllocator<N>,
    class: int,
) -> int {
    (chunk_size_of_class(class) * a.len_of(216 + class)) / class_size(class)
}

/// What an allocator has of a class.
pub open spec fn info_of_class<N: NonLocalPtrManager>(
    a: ThreadLocalAllocator<N>,
    class: int,
) -> InfoForSize {
    InfoForSize {
        memory_allocated: (chunk_size_of_class(class) * a.len_of(216 + class)) as usize,
        size_of_elem: class_size(class) as usize,
        objects_allocated: objects_of_class(a, class) as usize,
        objects_used: (objects_of_class(a, class) - a.len_of(class)) as usize,
        allocated_for_self_objects: self_number(a, class_size(class) as usize) as usize,
    }
}

/// What an allocator has of an extra large size.
pub open spec fn info_of_entry<N: NonLocalPtrManager>(
    a: ThreadLocalAllocator<N>,
    entry: (usize, usize),
) -> InfoForSize {
    InfoForSize {
        memory_allocated: (entry.0 * entry.1) as usize,
        size_of_elem: entry.0,
        objects_allocated: entry.1,
        objects_used: entry.1,
        allocated_for_self_objects: self_number(a, entry.0) as usize,
    }
}

/// Whether the memory of every size is counted in a machine word.
pub open spec fn memory_fits<N: NonLocalPtrManager>(a: ThreadLocalAllocator<N>) -> bool {
    &&& forall|class: int|
        0 <= class < 216 ==> chunk_size_of_class(class) * #[trigger] a.len_of(216 + class)
            <= usize::MAX
    &&& forall|i: int|
        0 <= i < a.inner.allocated_large_sizes.entries@.len() ==> (
        #[trigger] a.inner.allocated_large_sizes.entries@[i]).0
            * a.inner.allocated_large_sizes.entries@[i].1 <= usize::MAX
}

/// Whether no object was given back that was not out.
pub open spec fn is_balanced<N: NonLocalPtrManager>(a: ThreadLocalAllocator<N>) -> bool {
    forall|class: int| 0 <= class < 216 ==> #[trigger] a.live(class) >= 0
}

/// Whether what an allocator has can be told: the memory of every size is counted in a machine
/// word, and no more objects are free than there are.
pub open spec fn can_tell<N: NonLocalPtrManager>(a: ThreadLocalAllocator<N>) -> bool {
    &&& a.wf()
    &&& memory_fits(a)
    &&& forall|class: int|
        0 <= class < 216 ==> #[trigger] a.len_of(class) <= objects_of_class(a, class)
}

impl<N: NonLocalPtrManager> ThreadLocalAllocator<N> {
    /// Tells whether what the allocator has can be told.
    pub fn can_be_told(&self) -> (r: bool)
        requires
            self.wf(),
        ensures
            r == can_tell(*self),
    {
        let mut class: usize = 0;
        while class < 216
            invariant
                class <= 216,
                self.wf(),
                forall|c: int|
                    0 <= c < class ==> chunk_size_of_class(c) * #[trigger] self.len_of(216 + c)
                        <= usize::MAX,
                forall|c: int|
                    0 <= c < class ==> #[trigger] self.len_of(c) <= objects_of_class(*self, c),
            decreases 216 - class,
        {
            proof {
                lemma_class(class as int);
            }
            let chunk: usize = if class < COMMON_SIZE_TABLE_LEN {
                COMMON_CHUNK_SIZE
            } else {
                LARGE_CHUNK_SIZE
            };
            let memory: usize = match chunk.checked_mul(self.inner.len(FIRST_CHUNKS + class)) {
                Some(memory) => memory,
                None => {
                    assert(chunk_size_of_class(class as int) * self.len_of(216 + class)
                        > usize::MAX);
                    return false;
                },
            };
            if self.inner.len(class) > memory / size_of_class(class) {
                assert(self.len_of(class as int) > objects_of_class(*self, class as int));
                return false;
            }
            class = class + 1;
        }
        let n: usize = self.inner.allocated_large_sizes.entries.len();
        let mut i: usize = 0;
        while i < n
            invariant
                i <= n,
                n == self.inner.allocated_large_sizes.entries@.len(),
                forall|k: int|
                    0 <= k < i ==> (#[trigger] self.inner.allocated_large_sizes.entries@[k]).0
                        * self.inner.allocated_large_sizes.entries@[k].1 <= usize::MAX,
            decreases n - i,
        {
            let entry: (usize, usize) = self.inner.allocated_large_sizes.entries[i];
            if entry.0.checked_mul(entry.1).is_none() {
                assert(entry == self.inner.allocated_large_sizes.entries@[i as int]);
                return false;
            }
            i = i + 1;
        }
        true
    }
}

/// Where no object was given back that was not out, what an allocator has can be told unless it is
/// too much.
pub proof fn law_balanced_can_be_told<N: NonLocalPtrManager>(a: ThreadLocalAllocator<N>)
    requires
        a.wf(),
        memory_fits(a),
        is_balanced(a),
    ensures
        can_tell(a),
{
    assert forall|class: int| 0 <= class < 216 implies #[trigger] a.len_of(class)
        <= objects_of_class(a, class) by {
        law_out_is_what_is_not_free(a, class);
        lemma_nodes_nonnegative(a.incoming(), 0, class);
        assert(a.live(class) >= 0);
        lemma_self_number(a, class_size(class) as usize);
        lemma_slots_are_objects(a, class);
    }
}

/// There are at least as many objects of a class as its chunks are carved into.
proof fn lemma_slots_are_objects<N: NonLocalPtrManager>(a: ThreadLocalAllocator<N>, class: int)
    requires
        0 <= class < 216,
    ensures
        slots_of_class(class) * a.len_of(216 + class) <= objects_of_class(a, class),
{
    lemma_class(class);
    let slots = slots_of_class(class);
    let size = class_size(class);
    let n = a.len_of(216 + class) as int;
    let chunk = chunk_size_of_class(class);
    assert(slots * n <= (chunk * n) / size) by (nonlinear_arith)
        requires
            slots * size <= chunk,
            8 <= size,
            0 <= n,
    ;
}

/// What the first `n` vectors add to the number of objects of a class that are out: the objects of
/// the chunks, less those that are free and those that serve as buffers.
proof fn lemma_slots_out(vectors: Seq<SelfAllocatedVec<usize>>, n: int, class: int)
    requires
        0 <= class < 216,
        0 <= n <= 435,
        forall|slot: int|
            #![trigger vectors[slot]]
            0 <= slot < n ==> slot_wf(slot, vectors[slot]),
    ensures
        slots_out(vectors, n, class) == (if class < n {
            -(vectors[class]@.len() as int)
        } else {
            0
        }) + (if class + 216 < n {
            slots_of_class(class) * vectors[class + 216]@.len()
        } else {
            0
        }) - buffers_of_size(vectors, n, class_size(class) as usize),
    decreases n,
{
    if n > 0 {
        lemma_slots_out(vectors, n - 1, class);
        lemma_class(class);
        let v = vectors[n - 1];
        assert(slot_wf(n - 1, v));
        let bytes = buffer_bytes(n - 1, v);
        assert(is_of_class(bytes, class) == (if bytes == class_size(class) {
            1int
        } else {
            0
        })) by {
            if 1 <= bytes <= LARGE_SIZE_MAX {
                assert(v.cap > 0);
                assert(is_object_size(bytes));
            }
        }
    }
}

/// The objects of a class that are out are those of its chunks that are neither free nor serve
/// the allocator itself.
pub proof fn law_out_is_what_is_not_free<N: NonLocalPtrManager>(
    a: ThreadLocalAllocator<N>,
    class: int,
)
    requires
        a.wf(),
        0 <= class < 216,
    ensures
        a.inner.parts().out(class) == slots_of_class(class) * a.len_of(216 + class) - a.len_of(
            class,
        ) - self_number(a, class_size(class) as usize) + times_in(
            own_blocks_of(a),
            class_size(class) as usize,
        ),
{
    reveal(Parts::out);
    lemma_class(class);
    let size = class_size(class) as usize;
    lemma_slots_out(a.inner.vectors@, 435, class);
    lemma_table_sizes();
    lemma_class_of(192);
    assert(is_of_class(192, class) == (if size == 192 {
        1int
    } else {
        0
    }));
    assert(is_of_class(2048, class) == (if size == 2048 {
        1int
    } else {
        0
    }));
    assert(is_of_class(1408, class) == (if size == 1408 {
        1int
    } else {
        0
    }));
    let block = a.inner.manager_block as int;
    if a.inner.manager_ptr != 0 {
        if 1 <= N::size_spec() <= LARGE_SIZE_MAX {
            lemma_class_of(N::size_spec() as int);
            lemma_class(class_of(N::size_spec() as int));
        }
        assert(is_of_class(block, class) == (if block == size {
            1int
        } else {
            0
        }));
    }
    let n = a.inner.allocated_large_sizes.nodes@.len() as int;
    assert(n * 1 == n);
    assert(n * 0 == 0);
}

/// What can be told of a class.
pub proof fn lemma_objects_used<N: NonLocalPtrManager>(a: ThreadLocalAllocator<N>, class: int)
    requires
        can_tell(a),
        0 <= class < 216,
    ensures
        a.len_of(class) <= objects_of_class(a, class),
        slots_of_class(class) * a.len_of(216 + class) <= objects_of_class(a, class),
        0 <= objects_of_class(a, class) * class_size(class) <= chunk_size_of_class(class) * a.len_of(
            216 + class,
        ) <= usize::MAX,
        0 <= self_number(a, class_size(class) as usize),
{
    lemma_class(class);
    lemma_slots_are_objects(a, class);
    lemma_self_number(a, class_size(class) as usize);
    let size = class_size(class);
    let n = a.len_of(216 + class) as int;
    let chunk = chunk_size_of_class(class);
    assert(((chunk * n) / size) * size <= chunk * n) by (nonlinear_arith)
        requires
            8 <= size,
    ;
    assert(0 <= (chunk * n) / size) by (nonlinear_arith)
        requires
            8 <= size,
            0 <= n,
            0 <= chunk,
    ;
    assert(0 <= ((chunk * n) / size) * size) by (nonlinear_arith)
        requires
            8 <= size,
            0 <= (chunk * n) / size,
    ;
    assert(chunk_size_of_class(class) * a.len_of(216 + class) <= usize::MAX);
}

proof fn lemma_buffers_of_size(vectors: Seq<SelfAllocatedVec<usize>>, n: int, size: usize)
    requires
        0 <= n,
    ensures
        0 <= buffers_of_size(vectors, n, size) <= n,
    decreases n,
{
    if n > 0 {
        lemma_buffers_of_size(vectors, n - 1, size);
    }
}

proof fn lemma_times_in(sizes: Seq<usize>, size: usize)
    ensures
        0 <= times_in(sizes, size) <= sizes.len(),
    decreases sizes.len(),
{
    if sizes.len() > 0 {
        lemma_times_in(sizes.drop_last(), size);
    }
}

/// No number of blocks is negative.
pub proof fn lemma_self_number<N: NonLocalPtrManager>(a: ThreadLocalAllocator<N>, size: usize)
    ensures
        0 <= times_in(own_blocks_of(a), size) <= self_number(a, size),
{
    lemma_buffers_of_size(a.inner.vectors@, 435, size);
    lemma_times_in(own_blocks_of(a), size);
}

/// No number of blocks is too great for a word.
pub proof fn lemma_self_number_fits<N: NonLocalPtrManager>(
    a: ThreadLocalAllocator<N>,
    size: usize,
)
    requires
        a.wf(),
        own_blocks_of(a).len() <= MAX_OWN_BLOCKS,
    ensures
        self_number(a, size) <= u32::MAX,
{
    lemma_buffers_of_size(a.inner.vectors@, 435, size);
    lemma_times_in(own_blocks_of(a), size);
}

/// Where an iteration over the sizes is.
#[derive(Copy, Clone, Debug, PartialEq, Eq, Structural)]
pub enum CurrIter {
    CommonSize(usize),
    LargeSize(usize),
    ExtraLargeSize(usize),
}

/// What an allocator has of the common sizes from the one at `from` on.
pub open spec fn told_common<N: NonLocalPtrManager>(
    a: ThreadLocalAllocator<N>,
    from: int,
) -> Seq<(SizeClass, InfoForSize)> {
    if a.inner.common_chunk_table == 0 {
        Seq::empty()
    } else {
        Seq::new((128 - from) as nat, |i: int| (SizeClass::Common, info_of_class(a, from + i)))
    }
}

/// What an allocator has of the large sizes from the one at `from` on.
pub open spec fn told_large<N: NonLocalPtrManager>(
    a: ThreadLocalAllocator<N>,
    from: int,
) -> Seq<(SizeClass, InfoForSize)> {
    if a.inner.large_chunk_table == 0 {
        Seq::empty()
    } else {
        Seq::new(
            (88 - from) as nat,
            |i: int| (SizeClass::Large, info_of_class(a, 128 + from + i)),
        )
    }
}

/// What an allocator has of the extra large sizes from the one at `from` on.
pub open spec fn told_extra_large<N: NonLocalPtrManager>(
    a: ThreadLocalAllocator<N>,
    from: int,
) -> Seq<(SizeClass, InfoForSize)> {
    let entries = a.inner.allocated_large_sizes.entries@;
    Seq::new(
        (entries.len() - from) as nat,
        |i: int| (SizeClass::ExtraLarge, info_of_entry(a, entries[from + i])),
    )
}

/// What an allocator has of each size: of the common ones and of the large ones if it has carved
/// any, and of the extra large ones.
pub open spec fn told<N: NonLocalPtrManager>(a: ThreadLocalAllocator<N>) -> Seq<
    (SizeClass, InfoForSize),
> {
    told_common(a, 0) + told_large(a, 0) + told_extra_large(a, 0)
}

/// Where both tables of chunks exist, as they do once an allocator has handed out a block, every size
/// class is told of once, in the order of the classes, and the extra large sizes follow in ascending
/// order.
pub proof fn law_every_size_is_told_of<N: NonLocalPtrManager>(a: ThreadLocalAllocator<N>)
    requires
        a.wf(),
        a.inner.common_chunk_table != 0,
        a.inner.large_chunk_table != 0,
    ensures
        told(a).len() == 216 + a.inner.allocated_large_sizes.entries@.len(),
        forall|class: int|
            0 <= class < 216 ==> (#[trigger] told(a)[class]).1 == info_of_class(a, class) && (
            told(a)[class].0 is Common <==> class < 128) && (told(a)[class].0 is Large <==> class
                >= 128),
        forall|i: int|
            216 <= i < told(a).len() ==> (#[trigger] told(a)[i]).0 is ExtraLarge && told(a)[i].1
                == info_of_entry(a, a.inner.allocated_large_sizes.entries@[i - 216]),
        forall|i: int, j: int|
            216 <= i < j < told(a).len() ==> (#[trigger] told(a)[i]).1.size_of_elem < (
            #[trigger] told(a)[j]).1.size_of_elem,
{
    let common = told_common(a, 0);
    let large = told_large(a, 0);
    let rest = told_extra_large(a, 0);
    let entries = a.inner.allocated_large_sizes.entries@;
    assert(common.len() == 128 && large.len() == 88 && rest.len() == entries.len());
    assert forall|class: int| 0 <= class < 216 implies (#[trigger] told(a)[class]).1
        == info_of_class(a, class) && (told(a)[class].0 is Common <==> class < 128) && (told(
        a,
    )[class].0 is Large <==> class >= 128) by {
        if class < 128 {
            assert(told(a)[class] == common[class]);
        } else {
            assert(told(a)[class] == large[class - 128]);
        }
    }
    assert forall|i: int| 216 <= i < told(a).len() implies (#[trigger] told(a)[i]).0 is ExtraLarge
        && told(a)[i].1 == info_of_entry(a, entries[i - 216]) by {
        assert(told(a)[i] == rest[i - 216]);
    }
    assert(keys_ascend(entries));
    assert forall|i: int, j: int| 216 <= i < j < told(a).len() implies (
    #[trigger] told(a)[i]).1.size_of_elem < (#[trigger] told(a)[j]).1.size_of_elem by {
        assert(entries[i - 216].0 < entries[j - 216].0);
    }
}

/// An iteration over the sizes that an allocator has.
pub struct InfoForSizeIter<'allocator, N: NonLocalPtrManager> {
    pub allocator: &'allocator ThreadLocalAllocator<N>,
    pub allocated_for_self: UsedObjectsFixed<512>,
    pub curr_iter: CurrIter,
}

impl<'allocator, N: NonLocalPtrManager> InfoForSizeIter<'allocator, N> {
    /// Whether the iteration is sound.
    pub open spec fn wf(self) -> bool {
        &&& can_tell(*self.allocator)
        &&& self.allocated_for_self.wf()
        &&& forall|size: usize| #[trigger]
            self.allocated_for_self.number(size) == self_number(*self.allocator, size)
        &&& match self.curr_iter {
            CurrIter::CommonSize(idx) => idx <= 128 && self.allocator.inner.common_chunk_table
                != 0,
            CurrIter::LargeSize(idx) => idx <= 88 && self.allocator.inner.large_chunk_table != 0,
            CurrIter::ExtraLargeSize(idx) => idx
                <= self.allocator.inner.allocated_large_sizes.entries@.len(),
        }
    }

    /// What is still to be told.
    pub open spec fn remaining(self) -> Seq<(SizeClass, InfoForSize)> {
        let a = *self.allocator;
        match self.curr_iter {
            CurrIter::CommonSize(idx) => told_common(a, idx as int) + told_large(a, 0)
                + told_extra_large(a, 0),
            CurrIter::LargeSize(idx) => told_large(a, idx as int) + told_extra_large(a, 0),
            CurrIter::ExtraLargeSize(idx) => told_extra_large(a, idx as int),
        }
    }

    /// An iteration that starts at the first size.
    pub fn new(allocator: &'allocator ThreadLocalAllocator<N>) -> (r: InfoForSizeIter<
        'allocator,
        N,
    >)
        requires
            can_tell(*allocator),
        ensures
            r.wf(),
            *r.allocator == *allocator,
            r.remaining() == told(*allocator),
    {
        let allocated_for_self = allocator.allocated_for_self();
        let curr_iter = if allocator.inner.common_chunk_table != 0 {
            CurrIter::CommonSize(0)
        } else if allocator.inner.large_chunk_table != 0 {
            CurrIter::LargeSize(0)
        } else {
            CurrIter::ExtraLargeSize(0)
        };
        let r = InfoForSizeIter { allocator, allocated_for_self, curr_iter };
        assert(r.remaining() =~= told(*allocator));
        r
    }

    /// How many objects of the size serve the allocator itself.
    fn allocated_for_self_of_size(&self, size_of_elem: usize) -> (r: usize)
        requires
            self.wf(),
        ensures
            r == self_number(*self.allocator, size_of_elem),
    {
        proof {
            lemma_self_number(*self.allocator, size_of_elem);
            assert(self.allocated_for_self.number(size_of_elem) == self_number(
                *self.allocator,
                size_of_elem,
            ));
        }
        match self.allocated_for_self.find_size(size_of_elem) {
            Ok((_, n)) => n as usize,
            Err(_) => 0,
        }
    }

    /// What the allocator has of a class.
    fn info_of(&self, class: usize) -> (r: InfoForSize)
        requires
            self.wf(),
            class < 216,
        ensures
            r == info_of_class(*self.allocator, class as int),
    {
        proof {
            lemma_class(class as int);
            lemma_objects_used(*self.allocator, class as int);
        }
        let chunks_allocated: usize = self.allocator.inner.len(FIRST_CHUNKS + class);
        let memory_allocated: usize = if class < COMMON_SIZE_TABLE_LEN {
            COMMON_CHUNK_SIZE * chunks_allocated
        } else {
            LARGE_CHUNK_SIZE * chunks_allocated
        };
        let size_of_elem: usize = size_of_class(class);
        let objects_allocated: usize = memory_allocated / size_of_elem;
        let objects_used: usize = objects_allocated - self.allocator.inner.len(class);
        InfoForSize {
            memory_allocated,
            size_of_elem,
            objects_allocated,
            objects_used,
            allocated_for_self_objects: self.allocated_for_self_of_size(size_of_elem),
        }
    }

    /// What the allocator has of the next size.
    pub fn next(&mut self) -> (r: Option<(SizeClass, InfoForSize)>)
        requires
            old(self).wf(),
        ensures
            final(self).wf(),
            *final(self).allocator == *old(self).allocator,
            r is Some <==> old(self).remaining().len() > 0,
            r matches Some(info) ==> info == old(self).remaining()[0] && final(self).remaining()
                == old(self).remaining().drop_first(),
            r is None ==> final(self).remaining().len() == 0,
    {
        let ghost before = *self;
        match self.curr_iter {
            CurrIter::CommonSize(idx) => {
                if idx < COMMON_SIZE_TABLE_LEN {
                    self.curr_iter = CurrIter::CommonSize(idx + 1);
                    let info = self.info_of(idx);
                    proof {
                        assert(before.remaining()[0] == (SizeClass::Common, info));
                        assert(self.remaining() =~= before.remaining().drop_first());
                    }
                    return Some((SizeClass::Common, info));
                }
                self.curr_iter =
                if self.allocator.inner.large_chunk_table != 0 {
                    CurrIter::LargeSize(0)
                } else {
                    CurrIter::ExtraLargeSize(0)
                };
            },
            _ => {},
        }
        assert(self.remaining() =~= before.remaining());
        let ghost middle = *self;
        match self.curr_iter {
            CurrIter::LargeSize(idx) => {
                if idx < REAL_NUMBER_OF_LARGE_OBJECT_VECTORS {
                    self.curr_iter = CurrIter::LargeSize(idx + 1);
                    let info = self.info_of(COMMON_SIZE_TABLE_LEN + idx);
                    proof {
                        assert(middle.remaining()[0] == (SizeClass::Large, info));
                        assert(self.remaining() =~= middle.remaining().drop_first());
                    }
                    return Some((SizeClass::Large, info));
                }
                self.curr_iter = CurrIter::ExtraLargeSize(0);
            },
            _ => {},
        }
        assert(self.remaining() =~= before.remaining());
        match self.curr_iter {
            CurrIter::ExtraLargeSize(idx) => {
                if idx >= self.allocator.inner.allocated_large_sizes.entries.len() {
                    return None;
                }
                let (size, count): (usize, usize) =
                    self.allocator.inner.allocated_large_sizes.entries[idx];
                proof {
                    let entries = self.allocator.inner.allocated_large_sizes.entries@;
                    assert(entries[idx as int].0 * entries[idx as int].1 <= usize::MAX);
                }
                let info = InfoForSize {
                    memory_allocated: size * count,
                    size_of_elem: size,
                    objects_allocated: count,
                    objects_used: count,
                    allocated_for_self_objects: self.allocated_for_self_of_size(size),
                };
                self.curr_iter = CurrIter::ExtraLargeSize(idx + 1);
                proof {
                    assert(before.remaining()[0] == (SizeClass::ExtraLarge, info));
                    assert(self.remaining() =~= before.remaining().drop_first());
                }
                Some((SizeClass::ExtraLarge, info))
            },
            _ => None,
        }
    }

    /// About how many sizes are still to be told: the large ones are counted before it is known
    /// whether there are any.
    pub fn size_hint(&self) -> (r: (usize, Option<usize>))
        requires
            self.wf(),
            self.allocator.inner.allocated_large_sizes.entries@.len() + 216 <= usize::MAX,
        ensures
            r.1 is None,
            r.0 == match self.curr_iter {
                CurrIter::CommonSize(idx) => 216 - idx
                    + self.allocator.inner.allocated_large_sizes.entries@.len(),
                CurrIter::LargeSize(idx) => 88 - idx
                    + self.allocator.inner.allocated_large_sizes.entries@.len(),
                CurrIter::ExtraLargeSize(idx) =>
                    self.allocator.inner.allocated_large_sizes.entries@.len() - idx,
            },
            self.remaining().len() <= r.0,
            is_set_up(*self.allocator) ==> self.remaining().len() == r.0,
    {
        let extra_large_sizes: usize = self.allocator.inner.allocated_large_sizes.len();
        match self.curr_iter {
            CurrIter::CommonSize(idx) => {
                let common_sizes: usize = COMMON_SIZE_TABLE_LEN - idx;
                (common_sizes + REAL_NUMBER_OF_LARGE_OBJECT_VECTORS + extra_large_sizes, None)
            },
            CurrIter::LargeSize(idx) => {
                let large_sizes: usize = REAL_NUMBER_OF_LARGE_OBJECT_VECTORS - idx;
                (large_sizes + extra_large_sizes, None)
            },
            CurrIter::ExtraLargeSize(idx) => (extra_large_sizes - idx, None),
        }
    }
}

} // verus!
