//! Statistics.
use crate::accounts::has_tables;
use crate::info_for_size::{
    can_tell, info_of_class, law_every_size_is_told_of, lemma_objects_used, objects_of_class, told,
    told_common, told_extra_large, told_large, CurrIter, InfoForSize, InfoForSizeIter,
};
use crate::non_local_ptr_manager::NonLocalPtrManager;
use crate::sizes::{chunk_size_of_class, class_size, lemma_class, SizeClass};
use crate::thread_local_allocator::ThreadLocalAllocator;
use vstd::prelude::*;

verus! {

/// The infos without their size classes.
pub open spec fn infos(all: Seq<(SizeClass, InfoForSize)>) -> Seq<InfoForSize> {
    Seq::new(all.len(), |i: int| all[i].1)
}

/// Bytes in all chunks.
pub open spec fn all_allocated(all: Seq<InfoForSize>) -> int
    decreases all.len(),
{
    if all.len() == 0 {
        0
    } else {
        all_allocated(all.drop_last()) + all.last().memory_allocated
    }
}

/// Bytes in all objects that are in use.
pub open spec fn all_used(all: Seq<InfoForSize>) -> int
    decreases all.len(),
{
    if all.len() == 0 {
        0
    } else {
        all_used(all.drop_last()) + all.last().objects_used * all.last().size_of_elem
    }
}

/// Detailed statistics that are computed one size at a time.
pub struct LazyDetailedStats<'allocator, N: NonLocalPtrManager>(
    pub InfoForSizeIter<'allocator, N>,
);

impl<'allocator, N: NonLocalPtrManager> LazyDetailedStats<'allocator, N> {
    /// Statistics that start at the first size.
    pub fn new(allocator: &'allocator ThreadLocalAllocator<N>) -> (r: LazyDetailedStats<
        'allocator,
        N,
    >)
        requires
            can_tell(*allocator),
        ensures
            r.0.wf(),
            *r.0.allocator == *allocator,
            r.0.remaining() == told(*allocator),
    {
        LazyDetailedStats(InfoForSizeIter::new(allocator))
    }

    /// What the allocator has of the next size.
    pub fn next(&mut self) -> (r: Option<InfoForSize>)
        requires
            old(self).0.wf(),
        ensures
            final(self).0.wf(),
            *final(self).0.allocator == *old(self).0.allocator,
            r is Some <==> old(self).0.remaining().len() > 0,
            r matches Some(info) ==> info == old(self).0.remaining()[0].1 && final(self).0.remaining() == old(self).0.remaining().drop_first(),
            r is None ==> final(self).0.remaining().len() == 0,
    {
        match self.0.next() {
            Some((_, info)) => Some(info),
            None => None,
        }
    }

    /// About how many sizes are still to be told.
    pub fn size_hint(&self) -> (r: (usize, Option<usize>))
        requires
            self.0.wf(),
            self.0.allocator.inner.allocated_large_sizes.entries@.len() + 216 <= usize::MAX,
        ensures
            r.1 is None,
            r.0 == match self.0.curr_iter {
                CurrIter::CommonSize(idx) => 216 - idx
                    + self.0.allocator.inner.allocated_large_sizes.entries@.len(),
                CurrIter::LargeSize(idx) => 88 - idx
                    + self.0.allocator.inner.allocated_large_sizes.entries@.len(),
                CurrIter::ExtraLargeSize(idx) =>
                    self.0.allocator.inner.allocated_large_sizes.entries@.len() - idx,
            },
            self.0.remaining().len() <= r.0,
    {
        self.0.size_hint()
    }
}

/// Detailed statistics of one moment.
pub struct SnapshotDetailedStats(pub Vec<InfoForSize>);

impl SnapshotDetailedStats {
    /// The statistics of an allocator.
    pub fn new<N: NonLocalPtrManager>(allocator: &ThreadLocalAllocator<N>) -> (r:
        SnapshotDetailedStats)
        requires
            can_tell(*allocator),
        ensures
            r.0@ == infos(told(*allocator)),
    {
        let mut lazy = LazyDetailedStats::new(allocator);
        let mut all: Vec<InfoForSize> = Vec::new();
        let ghost every = told(*allocator);
        assert(every.skip(0) =~= every);
        loop
            invariant
                lazy.0.wf(),
                *lazy.0.allocator == *allocator,
                every == told(*allocator),
                all@.len() <= every.len(),
                lazy.0.remaining() == every.skip(all@.len() as int),
                all@ == infos(every).take(all@.len() as int),
            ensures
                all@ == infos(every),
            decreases lazy.0.remaining().len(),
        {
            let ghost before = lazy.0.remaining();
            match lazy.next() {
                Some(info) => {
                    all.push(info);
                    proof {
                        assert(every.skip(all@.len() as int) =~= before.drop_first());
                        assert(all@ =~= infos(every).take(all@.len() as int));
                    }
                },
                None => {
                    assert(all@ =~= infos(every));
                    break;
                },
            }
        }
        SnapshotDetailedStats(all)
    }

    /// What the allocator had of each size.
    pub fn iter(&self) -> (r: Vec<InfoForSize>)
        ensures
            r@ == self.0@,
    {
        let mut r: Vec<InfoForSize> = Vec::new();
        let mut i: usize = 0;
        while i < self.0.len()
            invariant
                i <= self.0@.len(),
                r@ == self.0@.take(i as int),
            decreases self.0@.len() - i,
        {
            r.push(self.0[i]);
            i = i + 1;
            assert(r@ =~= self.0@.take(i as int));
        }
        assert(self.0@.take(i as int) =~= self.0@);
        r
    }
}

/// Short statistics: bytes taken for chunks and extra large blocks, and bytes in use.
#[derive(Copy, Clone, Debug, PartialEq, Eq, Structural)]
pub struct ShortStats {
    pub allocated_memory_from_os: usize,
    pub used_memory: usize,
}

impl<N: NonLocalPtrManager> ThreadLocalAllocator<N> {
    /// Tells whether the memory of all sizes together is counted in a machine word.
    pub fn can_be_summed(&self) -> (r: bool)
        requires
            can_tell(*self),
        ensures
            r == (all_allocated(infos(told(*self))) <= usize::MAX),
    {
        let mut lazy = LazyDetailedStats::new(self);
        let mut sum: usize = 0;
        let ghost every = told(*self);
        let ghost all = infos(every);
        let ghost mut n: int = 0;
        proof {
            assert(every.skip(0) =~= every);
            assert(all.take(0) =~= Seq::<InfoForSize>::empty());
        }
        loop
            invariant
                lazy.0.wf(),
                *lazy.0.allocator == *self,
                every == told(*self),
                all == infos(every),
                0 <= n <= every.len(),
                lazy.0.remaining() == every.skip(n),
                sum == all_allocated(all.take(n)),
            decreases lazy.0.remaining().len(),
        {
            let ghost before = lazy.0.remaining();
            match lazy.next() {
                Some(info) => {
                    proof {
                        assert(info == all[n]);
                        assert(every.skip(n + 1) =~= before.drop_first());
                        assert(all.take(n + 1).drop_last() =~= all.take(n));
                        lemma_take_allocated(all, n + 1);
                    }
                    sum = match sum.checked_add(info.memory_allocated()) {
                        Some(sum) => sum,
                        None => {
                            return false;
                        },
                    };
                    proof {
                        n = n + 1;
                    }
                },
                None => {
                    assert(all.take(n) =~= all);
                    return true;
                },
            }
        }
    }
}

impl ShortStats {
    /// The statistics of an allocator.
    pub fn new<N: NonLocalPtrManager>(allocator: &ThreadLocalAllocator<N>) -> (r: ShortStats)
        requires
            can_tell(*allocator),
            all_allocated(infos(told(*allocator))) <= usize::MAX,
        ensures
            r.allocated_memory_from_os == all_allocated(infos(told(*allocator))),
            r.used_memory == all_used(infos(told(*allocator))),
    {
        let mut lazy = LazyDetailedStats::new(allocator);
        let mut acc = ShortStats { allocated_memory_from_os: 0, used_memory: 0 };
        let ghost every = told(*allocator);
        let ghost all = infos(every);
        let ghost mut n: int = 0;
        proof {
            assert(every.skip(0) =~= every);
            assert(all.take(0) =~= Seq::<InfoForSize>::empty());
            lemma_told(*allocator);
        }
        loop
            invariant
                lazy.0.wf(),
                *lazy.0.allocator == *allocator,
                every == told(*allocator),
                all == infos(every),
                0 <= n <= every.len(),
                lazy.0.remaining() == every.skip(n),
                acc.allocated_memory_from_os == all_allocated(all.take(n)),
                acc.used_memory == all_used(all.take(n)),
                all_used(all.take(n)) <= all_allocated(all.take(n)),
                all_allocated(all) <= usize::MAX,
                forall|i: int|
                    0 <= i < all.len() ==> 0 <= (#[trigger] all[i]).objects_used
                        * all[i].size_of_elem <= all[i].memory_allocated,
            ensures
                acc.allocated_memory_from_os == all_allocated(all),
                acc.used_memory == all_used(all),
            decreases lazy.0.remaining().len(),
        {
            let ghost before = lazy.0.remaining();
            match lazy.next() {
                Some(info) => {
                    proof {
                        assert(info == all[n]);
                        assert(every.skip(n + 1) =~= before.drop_first());
                        assert(all.take(n + 1).drop_last() =~= all.take(n));
                        lemma_take_allocated(all, n + 1);
                    }
                    acc.used_memory = acc.used_memory + info.memory_used();
                    acc.allocated_memory_from_os = acc.allocated_memory_from_os
                        + info.memory_allocated();
                    proof {
                        n = n + 1;
                    }
                },
                None => {
                    assert(all.take(n) =~= all);
                    break;
                },
            }
        }
        acc
    }

    /// Bytes taken for chunks and extra large blocks.
    pub fn allocated_memory_from_os(&self) -> (r: usize)
        ensures
            r == self.allocated_memory_from_os,
    {
        self.allocated_memory_from_os
    }

    /// Bytes in use.
    pub fn used_memory(&self) -> (r: usize)
        ensures
            r == self.used_memory,
    {
        self.used_memory
    }
}

/// The bytes of some sizes are part of the bytes of all.
proof fn lemma_take_allocated(all: Seq<InfoForSize>, n: int)
    requires
        0 <= n <= all.len(),
    ensures
        0 <= all_allocated(all.take(n)) <= all_allocated(all),
    decreases all.len(),
{
    if n == all.len() {
        assert(all.take(n) =~= all);
        if n > 0 {
            lemma_take_allocated(all.drop_last(), n - 1);
            assert(all.drop_last().take(n - 1) =~= all.drop_last());
        }
    } else {
        lemma_take_allocated(all.drop_last(), n);
        assert(all.drop_last().take(n) =~= all.take(n));
    }
}

/// What is in use of a size is part of what there is of it.
proof fn lemma_told<N: NonLocalPtrManager>(a: ThreadLocalAllocator<N>)
    requires
        can_tell(a),
    ensures
        forall|i: int|
            0 <= i < told(a).len() ==> 0 <= (#[trigger] infos(told(a))[i]).objects_used * infos(
                told(a),
            )[i].size_of_elem <= infos(told(a))[i].memory_allocated,
{
    assert forall|i: int| 0 <= i < told(a).len() implies 0 <= (
    #[trigger] infos(told(a))[i]).objects_used * infos(told(a))[i].size_of_elem <= infos(
        told(a),
    )[i].memory_allocated by {
        let common = told_common(a, 0).len() as int;
        let large = told_large(a, 0).len() as int;
        let info = infos(told(a))[i];
        if i < common {
            assert(told(a)[i] == told_common(a, 0)[i]);
            lemma_class_told(a, i);
        } else if i < common + large {
            assert(told(a)[i] == told_large(a, 0)[i - common]);
            lemma_class_told(a, 128 + i - common);
        } else {
            let entries = a.inner.allocated_large_sizes.entries@;
            let k = i - common - large;
            assert(told(a)[i] == told_extra_large(a, 0)[k]);
            let entry = entries[k];
            assert(entry.0 * entry.1 <= usize::MAX);
            assert(entry.1 * entry.0 == entry.0 * entry.1) by (nonlinear_arith);
            assert(0 <= entry.0 * entry.1) by (nonlinear_arith);
        }
    }
}

proof fn lemma_class_told<N: NonLocalPtrManager>(a: ThreadLocalAllocator<N>, class: int)
    requires
        can_tell(a),
        0 <= class < 216,
    ensures
        0 <= info_of_class(a, class).objects_used * info_of_class(a, class).size_of_elem
            <= info_of_class(a, class).memory_allocated,
{
    lemma_objects_used(a, class);
    lemma_class(class);
    let objects = objects_of_class(a, class);
    let free = a.len_of(class) as int;
    let size = class_size(class);
    assert(0 <= (objects - free) * size <= objects * size) by (nonlinear_arith)
        requires
            0 <= free <= objects,
            8 <= size,
    ;
    assert(objects <= objects * size) by (nonlinear_arith)
        requires
            0 <= objects,
            8 <= size,
    ;
}

/// No more memory is in use than was taken.
pub proof fn law_used_memory_was_taken<N: NonLocalPtrManager>(a: ThreadLocalAllocator<N>)
    requires
        can_tell(a),
    ensures
        0 <= all_used(infos(told(a))) <= all_allocated(infos(told(a))),
{
    lemma_told(a);
    lemma_all_used(infos(told(a)));
}

proof fn lemma_all_used(all: Seq<InfoForSize>)
    requires
        forall|i: int|
            0 <= i < all.len() ==> 0 <= (#[trigger] all[i]).objects_used * all[i].size_of_elem
                <= all[i].memory_allocated,
    ensures
        0 <= all_used(all) <= all_allocated(all),
    decreases all.len(),
{
    if all.len() > 0 {
        let front = all.drop_last();
        assert forall|i: int| 0 <= i < front.len() implies 0 <= (#[trigger] front[i]).objects_used
            * front[i].size_of_elem <= front[i].memory_allocated by {
            assert(front[i] == all[i]);
        }
        lemma_all_used(front);
        assert(all.last() == all[all.len() - 1]);
    }
}

/// Sums over infos that differ in one place.
proof fn lemma_sums_differ(all0: Seq<InfoForSize>, all1: Seq<InfoForSize>, k: int)
    requires
        all0.len() == all1.len(),
        0 <= k < all0.len(),
        forall|i: int|
            0 <= i < all0.len() && i != k ==> (#[trigger] all0[i]).objects_used
                == all1[i].objects_used && all0[i].size_of_elem == all1[i].size_of_elem
                && all0[i].memory_allocated == all1[i].memory_allocated,
    ensures
        all_used(all1) - all_used(all0) == all1[k].objects_used * all1[k].size_of_elem
            - all0[k].objects_used * all0[k].size_of_elem,
        all_allocated(all1) - all_allocated(all0) == all1[k].memory_allocated
            - all0[k].memory_allocated,
    decreases all0.len(),
{
    let front0 = all0.drop_last();
    let front1 = all1.drop_last();
    if k == all0.len() - 1 {
        lemma_sums_agree(front0, front1);
    } else {
        assert forall|i: int| 0 <= i < front0.len() && i != k implies (
        #[trigger] front0[i]).objects_used == front1[i].objects_used && front0[i].size_of_elem
            == front1[i].size_of_elem && front0[i].memory_allocated
            == front1[i].memory_allocated by {
            assert(front0[i] == all0[i]);
        }
        lemma_sums_differ(front0, front1, k);
        assert(all0[all0.len() - 1].objects_used == all1[all0.len() - 1].objects_used);
    }
}

proof fn lemma_sums_agree(all0: Seq<InfoForSize>, all1: Seq<InfoForSize>)
    requires
        all0.len() == all1.len(),
        forall|i: int|
            0 <= i < all0.len() ==> (#[trigger] all0[i]).objects_used == all1[i].objects_used
                && all0[i].size_of_elem == all1[i].size_of_elem && all0[i].memory_allocated
                == all1[i].memory_allocated,
    ensures
        all_used(all1) == all_used(all0),
        all_allocated(all1) == all_allocated(all0),
    decreases all0.len(),
{
    if all0.len() > 0 {
        let front0 = all0.drop_last();
        let front1 = all1.drop_last();
        assert forall|i: int| 0 <= i < front0.len() implies (#[trigger] front0[i]).objects_used
            == front1[i].objects_used && front0[i].size_of_elem == front1[i].size_of_elem
            && front0[i].memory_allocated == front1[i].memory_allocated by {
            assert(front0[i] == all0[i]);
        }
        lemma_sums_agree(front0, front1);
        assert(all0[all0.len() - 1].objects_used == all1[all0.len() - 1].objects_used);
    }
}

/// An object that becomes free is no longer in use: where it is the only thing that two allocators
/// differ in, the memory that is in use is less by the size of the object, one object less of its
/// class is in use, nothing else is told otherwise, and as much memory was taken as before.
pub proof fn law_free_object_is_not_in_use<N: NonLocalPtrManager>(
    a0: ThreadLocalAllocator<N>,
    a1: ThreadLocalAllocator<N>,
    class: int,
)
    requires
        can_tell(a0),
        can_tell(a1),
        has_tables(a0),
        has_tables(a1),
        0 <= class < 216,
        a1.inner.allocated_large_sizes.entries@ == a0.inner.allocated_large_sizes.entries@,
        forall|slot: int|
            0 <= slot < 432 && slot != class ==> #[trigger] a1.len_of(slot) == a0.len_of(slot),
        a1.len_of(class) == a0.len_of(class) + 1,
    ensures
        all_used(infos(told(a1))) + class_size(class) == all_used(infos(told(a0))),
        all_allocated(infos(told(a1))) == all_allocated(infos(told(a0))),
        infos(told(a1))[class].objects_used + 1 == infos(told(a0))[class].objects_used,
        infos(told(a1)).len() == infos(told(a0)).len(),
        forall|i: int|
            0 <= i < infos(told(a1)).len() && i != class ==> (#[trigger] infos(
                told(a1),
            )[i]).objects_used == infos(told(a0))[i].objects_used,
{
    let all0 = infos(told(a0));
    let all1 = infos(told(a1));
    law_every_size_is_told_of(a0);
    law_every_size_is_told_of(a1);
    assert forall|i: int| 0 <= i < all0.len() && i != class implies (
    #[trigger] all0[i]).objects_used == all1[i].objects_used && all0[i].size_of_elem
        == all1[i].size_of_elem && all0[i].memory_allocated == all1[i].memory_allocated by {
        if i < 216 {
            assert(told(a0)[i].1 == info_of_class(a0, i));
            assert(told(a1)[i].1 == info_of_class(a1, i));
            assert(a1.len_of(i) == a0.len_of(i));
            assert(a1.len_of(216 + i) == a0.len_of(216 + i));
        } else {
            assert(told(a0)[i].0 is ExtraLarge);
            assert(told(a1)[i].0 is ExtraLarge);
        }
    }
    assert(told(a0)[class].1 == info_of_class(a0, class));
    assert(told(a1)[class].1 == info_of_class(a1, class));
    assert(a1.len_of(216 + class) == a0.len_of(216 + class));
    lemma_objects_used(a0, class);
    lemma_objects_used(a1, class);
    lemma_class(class);
    assert(a1.len_of(class) <= objects_of_class(a1, class));
    lemma_sums_differ(all0, all1, class);
    let used = all0[class].objects_used as int;
    let size = class_size(class);
    assert(used * size == (used - 1) * size + size) by (nonlinear_arith);
}

/// Another chunk of a class is more memory that was taken, by the size of the chunk.
pub proof fn law_chunk_is_memory_taken<N: NonLocalPtrManager>(
    a0: ThreadLocalAllocator<N>,
    a1: ThreadLocalAllocator<N>,
    class: int,
)
    requires
        can_tell(a0),
        can_tell(a1),
        has_tables(a0),
        has_tables(a1),
        0 <= class < 216,
        a1.inner.allocated_large_sizes.entries@ == a0.inner.allocated_large_sizes.entries@,
        forall|slot: int|
            0 <= slot < 432 && slot != 216 + class ==> #[trigger] a1.len_of(slot) == a0.len_of(
                slot,
            ),
        a1.len_of(216 + class) == a0.len_of(216 + class) + 1,
    ensures
        all_allocated(infos(told(a1))) == all_allocated(infos(told(a0))) + chunk_size_of_class(
            class,
        ),
{
    let all0 = infos(told(a0));
    let all1 = infos(told(a1));
    law_every_size_is_told_of(a0);
    law_every_size_is_told_of(a1);
    assert forall|i: int| 0 <= i < all0.len() && i != class implies (
    #[trigger] all0[i]).objects_used == all1[i].objects_used && all0[i].size_of_elem
        == all1[i].size_of_elem && all0[i].memory_allocated == all1[i].memory_allocated by {
        if i < 216 {
            assert(told(a0)[i].1 == info_of_class(a0, i));
            assert(told(a1)[i].1 == info_of_class(a1, i));
            assert(a1.len_of(i) == a0.len_of(i));
            assert(a1.len_of(216 + i) == a0.len_of(216 + i));
        } else {
            assert(told(a0)[i].0 is ExtraLarge);
            assert(told(a1)[i].0 is ExtraLarge);
        }
    }
    assert(told(a0)[class].1 == info_of_class(a0, class));
    assert(told(a1)[class].1 == info_of_class(a1, class));
    lemma_sums_differ(all0, all1, class);
    let n = a0.len_of(216 + class) as int;
    let size = chunk_size_of_class(class);
    assert(size * (n + 1) == size * n + size) by (nonlinear_arith);
    assert(size * n >= 0) by (nonlinear_arith)
        requires
            n >= 0,
            size > 0,
    ;
    assert(chunk_size_of_class(class) * a0.len_of(216 + class) <= usize::MAX);
    assert(chunk_size_of_class(class) * a1.len_of(216 + class) <= usize::MAX);
}

/// Another extra large block of a size that there is one of is more memory that was taken and is in
/// use, by the size of the block.
pub proof fn law_great_block_is_in_use<N: NonLocalPtrManager>(
    a0: ThreadLocalAllocator<N>,
    a1: ThreadLocalAllocator<N>,
    i: int,
)
    requires
        can_tell(a0),
        can_tell(a1),
        has_tables(a0),
        has_tables(a1),
        forall|slot: int| 0 <= slot < 432 ==> #[trigger] a1.len_of(slot) == a0.len_of(slot),
        0 <= i < a0.inner.allocated_large_sizes.entries@.len(),
        a0.inner.allocated_large_sizes.entries@[i].1 < usize::MAX,
        a1.inner.allocated_large_sizes.entries@ == a0.inner.allocated_large_sizes.entries@.update(
            i,
            (
                a0.inner.allocated_large_sizes.entries@[i].0,
                (a0.inner.allocated_large_sizes.entries@[i].1 + 1) as usize,
            ),
        ),
    ensures
        all_allocated(infos(told(a1))) == all_allocated(infos(told(a0)))
            + a0.inner.allocated_large_sizes.entries@[i].0,
        all_used(infos(told(a1))) == all_used(infos(told(a0)))
            + a0.inner.allocated_large_sizes.entries@[i].0,
{
    let all0 = infos(told(a0));
    let all1 = infos(told(a1));
    let entries0 = a0.inner.allocated_large_sizes.entries@;
    let entries1 = a1.inner.allocated_large_sizes.entries@;
    law_every_size_is_told_of(a0);
    law_every_size_is_told_of(a1);
    assert forall|k: int| 0 <= k < all0.len() && k != 216 + i implies (
    #[trigger] all0[k]).objects_used == all1[k].objects_used && all0[k].size_of_elem
        == all1[k].size_of_elem && all0[k].memory_allocated == all1[k].memory_allocated by {
        if k < 216 {
            assert(told(a0)[k].1 == info_of_class(a0, k));
            assert(told(a1)[k].1 == info_of_class(a1, k));
            assert(a1.len_of(k) == a0.len_of(k));
            assert(a1.len_of(216 + k) == a0.len_of(216 + k));
        } else {
            assert(told(a0)[k].0 is ExtraLarge);
            assert(told(a1)[k].0 is ExtraLarge);
            assert(entries1[k - 216] == entries0[k - 216]);
        }
    }
    assert(told(a0)[216 + i].0 is ExtraLarge);
    assert(told(a1)[216 + i].0 is ExtraLarge);
    lemma_sums_differ(all0, all1, 216 + i);
    let size = entries0[i].0 as int;
    let n = entries0[i].1 as int;
    assert((n + 1) * size == n * size + size) by (nonlinear_arith);
    assert(size * (n + 1) == size * n + size) by (nonlinear_arith);
    assert(n * size == size * n) by (nonlinear_arith);
    assert(0 <= size * n) by (nonlinear_arith)
        requires
            0 <= size,
            0 <= n,
    ;
    assert(entries1[i].0 * entries1[i].1 <= usize::MAX);
    assert(entries0[i].0 * entries0[i].1 <= usize::MAX);
}

/// Where no object is free and the objects of every class fill their chunks, all memory that was
/// taken is in use.
pub proof fn law_all_is_in_use<N: NonLocalPtrManager>(a: ThreadLocalAllocator<N>)
    requires
        can_tell(a),
        has_tables(a),
        forall|class: int|
            0 <= class < 216 ==> #[trigger] a.len_of(class) == 0 && (chunk_size_of_class(class)
                * a.len_of(216 + class)) % class_size(class) == 0,
    ensures
        all_used(infos(told(a))) == all_allocated(infos(told(a))),
{
    let all = infos(told(a));
    law_every_size_is_told_of(a);
    assert forall|i: int| 0 <= i < all.len() implies (#[trigger] all[i]).objects_used
        * all[i].size_of_elem == all[i].memory_allocated by {
        if i < 216 {
            assert(told(a)[i].1 == info_of_class(a, i));
            assert(a.len_of(i) == 0);
            lemma_objects_used(a, i);
            lemma_class(i);
            let memory = chunk_size_of_class(i) * a.len_of(216 + i);
            let size = class_size(i);
            vstd::arithmetic::div_mod::lemma_fundamental_div_mod(memory, size);
            assert((memory / size) * size == size * (memory / size)) by (nonlinear_arith);
        } else {
            let entry = a.inner.allocated_large_sizes.entries@[i - 216];
            assert(told(a)[i].0 is ExtraLarge);
            assert(entry.0 * entry.1 <= usize::MAX);
            assert(entry.1 * entry.0 == entry.0 * entry.1) by (nonlinear_arith);
            assert(0 <= entry.0 * entry.1) by (nonlinear_arith);
        }
    }
    lemma_sums_equal(all);
}

proof fn lemma_sums_equal(all: Seq<InfoForSize>)
    requires
        forall|i: int|
            0 <= i < all.len() ==> (#[trigger] all[i]).objects_used * all[i].size_of_elem
                == all[i].memory_allocated,
    ensures
        all_used(all) == all_allocated(all),
    decreases all.len(),
{
    if all.len() > 0 {
        let front = all.drop_last();
        assert forall|i: int| 0 <= i < front.len() implies (#[trigger] front[i]).objects_used
            * front[i].size_of_elem == front[i].memory_allocated by {
            assert(front[i] == all[i]);
        }
        lemma_sums_equal(front);
        assert(all.last() == all[all.len() - 1]);
    }
}

impl<N: NonLocalPtrManager> ThreadLocalAllocator<N> {
    /// An iteration over the sizes that the allocator has.
    pub fn iter_allocated_size(&self) -> (r: InfoForSizeIter<'_, N>)
        requires
            can_tell(*self),
        ensures
            r.wf(),
            *r.allocator == *self,
            r.remaining() == told(*self),
    {
        InfoForSizeIter::new(self)
    }

    /// Short statistics.
    pub fn short_stats(&self) -> (r: ShortStats)
        requires
            can_tell(*self),
            all_allocated(infos(told(*self))) <= usize::MAX,
        ensures
            r.allocated_memory_from_os == all_allocated(infos(told(*self))),
            r.used_memory == all_used(infos(told(*self))),
    {
        ShortStats::new(self)
    }

    /// Detailed statistics that are computed one size at a time.
    pub fn lazy_detailed_stats(&self) -> (r: LazyDetailedStats<'_, N>)
        requires
            can_tell(*self),
        ensures
            r.0.wf(),
            *r.0.allocator == *self,
            r.0.remaining() == told(*self),
    {
        LazyDetailedStats::new(self)
    }

    /// Detailed statistics of this moment.
    pub fn snapshot_detailed_stats(&self) -> (r: Vec<InfoForSize>)
        requires
            can_tell(*self),
        ensures
            r@ == infos(told(*self)),
    {
        SnapshotDetailedStats::new(self).0
    }
}

} // verus!
