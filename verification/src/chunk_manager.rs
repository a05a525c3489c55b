//! Chunks that are not carved, and the regions that they belong to.
use crate::blocks::{blocks_cover, covers, lemma_blocks_cover_nonnegative};
use crate::failures::PanicCause;
use crate::inner::{
    elem_out, elem_wf, held_size, lemma_parts_update, only_vector_changed, slot_cover, slot_out,
    slot_wf, Parts, ThreadLocalAllocatorInner, FREE_COMMON, FREE_LARGE, REGIONS,
};
use crate::limit::AllocationLimit;
use crate::os::{follows, lemma_follows, lemma_follows_itself, short, OsAction};
use crate::region::{
    commits, dealloc_region, lemma_unmap_brings_none, max_common_chunks_in,
    max_common_chunks_in_region, region_of, region_ptr_from_chunk_ptr,
};
use crate::vec_in_os::{grown_capacity, VecInOs};
use vstd::prelude::*;

verus! {

/// Whether the region at `i` is the first one at the given address.
pub open spec fn is_first_region(regions: Seq<usize>, region: int, i: int) -> bool {
    &&& 0 <= i < regions.len()
    &&& regions[i] == region
    &&& forall|j: int| #![trigger regions[j]] 0 <= j < i ==> regions[j] != region
}

/// Whether two allocators hold the same blocks and can still grow as much.
pub open spec fn same_accounts(
    before: ThreadLocalAllocatorInner,
    after: ThreadLocalAllocatorInner,
) -> bool {
    &&& forall|at: int| #[trigger] after.parts().cover(at) == before.parts().cover(at)
    &&& forall|class: int|
        0 <= class < 216 ==> #[trigger] after.parts().out(class) == before.parts().out(class)
    &&& after.parts().spare() == before.parts().spare()
    &&& after.parts().potential() == before.parts().potential()
    &&& after.parts().weight() == before.parts().weight()
}

proof fn lemma_empty_blocks(ptrs: Seq<usize>, at: int)
    ensures
        blocks_cover(ptrs, 0, at) == 0,
    decreases ptrs.len(),
{
    if ptrs.len() > 0 {
        lemma_empty_blocks(ptrs.drop_last(), at);
    }
}

/// Regions are listed, not held: which ones are listed does not change the accounts.
proof fn lemma_regions_do_not_count(
    before: ThreadLocalAllocatorInner,
    after: ThreadLocalAllocatorInner,
)
    requires
        before.parts().wf(),
        after.parts() == (Parts {
            vectors: before.parts().vectors.update(434, after.vectors@[434]),
            ..before.parts()
        }),
        after.vectors@[434].cap == before.vectors@[434].cap,
        after.vectors@[434].ptr == before.vectors@[434].ptr,
        slot_wf(434, after.vectors@[434]),
    ensures
        same_accounts(before, after),
        after.parts().wf(),
{
    let v0 = before.vectors@[434];
    let v1 = after.vectors@[434];
    lemma_parts_update(before.parts(), 434, v1);
    assert forall|at: int| #[trigger] after.parts().cover(at) == before.parts().cover(at) by {
        lemma_empty_blocks(v0@, at);
        lemma_empty_blocks(v1@, at);
        assert(slot_cover(434, v0, at) == slot_cover(434, v1, at));
    }
    assert forall|class: int| 0 <= class < 216 implies #[trigger] after.parts().out(class)
        == before.parts().out(class) by {
        assert(slot_out(434, v0, class) == slot_out(434, v1, class));
    }
    assert forall|i: int|
        #![trigger after.parts().vectors[i]]
        0 <= i < 435 implies slot_wf(i, after.parts().vectors[i]) by {
        assert(slot_wf(i, before.parts().vectors[i]));
    }
    assert forall|i: int|
        #![trigger after.parts().vectors[i]]
        after.common_chunk_table == 0 && 216 <= i < 344 implies after.parts().vectors[i].cap
        == 0 by {
        assert(before.parts().vectors[i].cap == 0);
    }
    assert forall|i: int|
        #![trigger after.parts().vectors[i]]
        after.large_chunk_table == 0 && 344 <= i < 432 implies after.parts().vectors[i].cap
        == 0 by {
        assert(before.parts().vectors[i].cap == 0);
    }
}

/// The sequence after the element at `i` is taken and the last one has filled its place.
pub open spec fn swap_removed(s: Seq<usize>, i: int) -> Seq<usize> {
    s.update(i, s.last()).drop_last()
}

impl ThreadLocalAllocatorInner {
    /// Lists a region all of whose chunks are occupied.
    pub fn push_region(&mut self, region: usize)
        requires
            old(self).wf(),
            region > 0,
            old(self).vectors@[434]@.len() < old(self).vectors@[434].cap,
        ensures
            final(self).wf(),
            *final(self) == (ThreadLocalAllocatorInner {
                vectors: final(self).vectors,
                occupied: final(self).occupied,
                ..*old(self)
            }),
            final(self).vectors@.len() == 435,
            forall|i: int|
                #![trigger final(self).vectors@[i]]
                0 <= i < 434 ==> final(self).vectors@[i] == old(self).vectors@[i],
            final(self).vectors@[434]@ == old(self).vectors@[434]@.push(region),
            final(self).vectors@[434].cap == old(self).vectors@[434].cap,
            final(self).vectors@[434].ptr == old(self).vectors@[434].ptr,
            final(self).occupied@ == old(self).occupied@.push(
                max_common_chunks_in(old(self).env.region_size as int) as usize,
            ),
            same_accounts(*old(self), *final(self)),
    {
        let ghost before = *self;
        assert(slot_wf(434, self.parts().vectors[434]));
        let occupied: usize = max_common_chunks_in_region(self.env.region_size);
        let _ = self.vectors[REGIONS].try_push(region);
        self.occupied.push(occupied);
        proof {
            let v0 = before.vectors@[434];
            let v1 = self.vectors@[434];
            assert(self.vectors@ =~= before.vectors@.update(434, v1));
            assert forall|i: int| 0 <= i < v1@.len() implies elem_wf(434, #[trigger] v1@[i]) by {
                if i < v0@.len() {
                    assert(elem_wf(434, v0@[i]));
                }
            }
            lemma_regions_do_not_count(before, *self);
        }
    }

    /// Gives up `weight` common chunks of the region of a chunk. A region all of whose chunks are
    /// given up goes back to the operating system.
    fn give_up(&mut self, chunk: usize, weight: usize)
        requires
            old(self).wf(),
            weight > 0,
        ensures
            final(self).wf(),
            same_accounts(*old(self), *final(self)),
            *final(self) == (ThreadLocalAllocatorInner {
                env: final(self).env,
                vectors: final(self).vectors,
                occupied: final(self).occupied,
                ..*old(self)
            }),
            final(self).vectors@.len() == 435,
            forall|i: int|
                #![trigger final(self).vectors@[i]]
                0 <= i < 434 ==> final(self).vectors@[i] == old(self).vectors@[i],
            final(self).vectors@[434].cap == old(self).vectors@[434].cap,
            final(self).vectors@[434].ptr == old(self).vectors@[434].ptr,
            final(self).env.same_but_memory(old(self).env),
            final(self).env.used_replies == old(self).env.used_replies,
            final(self).env.metadata == old(self).env.metadata,
            final(self).env.refusals == old(self).env.refusals,
            commits(final(self).env.actions@) == commits(old(self).env.actions@),
            forall|i: int|
                0 <= i < final(self).vectors@[434]@.len() ==> old(self).vectors@[434]@.contains(
                    #[trigger] final(self).vectors@[434]@[i],
                ),
            follows(old(self).env, final(self).env),
            gave_up(*old(self), *final(self), chunk as int, weight as int),
            final(self).vectors@[434]@.len() <= old(self).vectors@[434]@.len(),
    {
        let ghost before = *self;
        proof {
            lemma_follows_itself(before.env);
            assert forall|i: int| 0 <= i < before.vectors@[434]@.len() implies before.vectors@[434]@.contains(
                #[trigger] before.vectors@[434]@[i],
            ) by {}
        }
        let region: usize = region_ptr_from_chunk_ptr(self.env.region_size, chunk);
        let n: usize = self.len(REGIONS);
        let mut i: usize = 0;
        while i < n
            invariant
                i <= n,
                n == self.vectors@[434]@.len(),
                n == self.occupied@.len(),
                self.vectors@.len() == 435,
                *self == before,
                forall|j: int|
                    #![trigger self.vectors@[434]@[j]]
                    0 <= j < i ==> self.vectors@[434]@[j] != region,
            ensures
                i <= n,
                *self == before,
                forall|j: int|
                    #![trigger self.vectors@[434]@[j]]
                    0 <= j < i ==> self.vectors@[434]@[j] != region,
                i < n ==> self.vectors@[434]@[i as int] == region,
            decreases n - i,
        {
            if self.vectors[REGIONS].data[i] == region {
                break;
            }
            i = i + 1;
        }
        proof {
            if i < n {
                assert(is_first_region(before.vectors@[434]@, region as int, i as int));
                assert forall|j: int| #[trigger]
                    is_first_region(before.vectors@[434]@, region as int, j) implies j == i by {
                    assert(before.vectors@[434]@[j] == region);
                }
            } else {
                assert forall|j: int| #[trigger]
                    is_first_region(before.vectors@[434]@, region as int, j) implies false by {
                    assert(before.vectors@[434]@[j] == region);
                }
            }
        }
        if i >= n || self.occupied[i] < weight {
            return;
        }
        let left: usize = self.occupied[i] - weight;
        self.occupied.set(i, left);
        if left == 0 {
            dealloc_region(&mut self.env, region);
            proof {
                lemma_unmap_brings_none(
                    before.env.actions@,
                    OsAction::Unmap { ptr: region, size: before.env.region_size },
                );
            }
            assert(slot_wf(434, before.parts().vectors[434]));
            let _ = self.vectors[REGIONS].swap_remove(i);
            let _ = self.occupied.swap_remove(i);
            proof {
                let v0 = before.vectors@[434];
                let v1 = self.vectors@[434];
                assert(self.vectors@ =~= before.vectors@.update(434, v1));
                assert forall|j: int| 0 <= j < v1@.len() implies elem_wf(434, #[trigger] v1@[j]) by {
                    if j == i {
                        assert(elem_wf(434, v0@[v0@.len() - 1]));
                    } else {
                        assert(elem_wf(434, v0@[j]));
                    }
                }
                lemma_regions_do_not_count(before, *self);
                assert(self.occupied@ =~= swap_removed(before.occupied@, i as int));
                assert(self.vectors@[434]@ =~= swap_removed(before.vectors@[434]@, i as int));
                assert forall|j: int| 0 <= j < v1@.len() implies before.vectors@[434]@.contains(
                    #[trigger] v1@[j],
                ) by {
                    if j == i {
                        assert(v1@[j] == v0@[v0@.len() - 1]);
                    } else {
                        assert(v1@[j] == v0@[j]);
                    }
                }
            }
        } else {
            assert(self.parts() == before.parts());
        }
    }

    /// Gives up a common chunk that nobody uses.
    pub fn free_common(&mut self, chunk_ptr: usize)
        requires
            old(self).wf(),
        ensures
            final(self).wf(),
            same_accounts(*old(self), *final(self)),
            kept_but_regions(*old(self), *final(self)),
            gave_up(*old(self), *final(self), chunk_ptr as int, 1),
            final(self).vectors@[434]@.len() <= old(self).vectors@[434]@.len(),
    {
        self.give_up(chunk_ptr, 1);
    }

    /// Gives up a large chunk that nobody uses.
    pub fn free_large(&mut self, chunk_ptr: usize)
        requires
            old(self).wf(),
        ensures
            final(self).wf(),
            same_accounts(*old(self), *final(self)),
            kept_but_regions(*old(self), *final(self)),
            gave_up(*old(self), *final(self), chunk_ptr as int, 8),
            final(self).vectors@[434]@.len() <= old(self).vectors@[434]@.len(),
    {
        self.give_up(chunk_ptr, 8);
    }
}

/// Whether nothing but the regions and what is done with them differs.
pub open spec fn kept_but_regions(
    before: ThreadLocalAllocatorInner,
    after: ThreadLocalAllocatorInner,
) -> bool {
    &&& after == (ThreadLocalAllocatorInner {
        env: after.env,
        vectors: after.vectors,
        occupied: after.occupied,
        ..before
    })
    &&& after.vectors@.len() == 435
    &&& forall|i: int|
        #![trigger after.vectors@[i]]
        0 <= i < 434 ==> after.vectors@[i] == before.vectors@[i]
    &&& after.vectors@[434].cap == before.vectors@[434].cap
    &&& after.vectors@[434].ptr == before.vectors@[434].ptr
    &&& forall|i: int|
        0 <= i < after.vectors@[434]@.len() ==> before.vectors@[434]@.contains(
            #[trigger] after.vectors@[434]@[i],
        )
    &&& after.env.same_but_memory(before.env)
    &&& after.env.used_replies == before.env.used_replies
    &&& after.env.metadata == before.env.metadata
    &&& after.env.refusals == before.env.refusals
    &&& commits(after.env.actions@) == commits(before.env.actions@)
    &&& follows(before.env, after.env)
}

/// What giving up `weight` common chunks of the region of a chunk does: the region has as many
/// occupied chunks less, and goes back to the operating system with the last one. A region that
/// is not listed, or has fewer occupied chunks, is left alone.
pub open spec fn gave_up(
    before: ThreadLocalAllocatorInner,
    after: ThreadLocalAllocatorInner,
    chunk: int,
    weight: int,
) -> bool {
    let region = region_of(before.env.region_size as int, chunk);
    let regions = before.vectors@[434]@;
    &&& (forall|i: int| #[trigger]
        is_first_region(regions, region, i) ==> before.occupied@[i] < weight) ==> after == before
    &&& forall|i: int| #[trigger]
        is_first_region(regions, region, i) && before.occupied@[i] > weight ==> {
            &&& after.occupied@ == before.occupied@.update(
                i,
                (before.occupied@[i] - weight) as usize,
            )
            &&& after.vectors == before.vectors
            &&& after.env == before.env
        }
    &&& forall|i: int| #[trigger]
        is_first_region(regions, region, i) && before.occupied@[i] == weight ==> {
            &&& after.occupied@ == swap_removed(before.occupied@, i)
            &&& after.vectors@[434]@ == swap_removed(regions, i)
            &&& after.env.actions@ == before.env.actions@.push(
                OsAction::Unmap { ptr: region as usize, size: before.env.region_size },
            )
            &&& after.env.limit == (AllocationLimit {
                allocated: before.env.limit.allocated.wrapping_sub(before.env.region_size),
                ..before.env.limit
            })
        }
}

/// What giving up chunks is about: the regions, how many of their common chunks are occupied, what
/// the operating system is asked for, and how much is taken from it.
pub struct Ledger {
    /// The regions.
    pub regions: Seq<usize>,
    /// How many common chunks of each region are occupied.
    pub occupied: Seq<usize>,
    /// What the operating system is asked for.
    pub actions: Seq<OsAction>,
    /// What is taken from it.
    pub limit: AllocationLimit,
}

impl ThreadLocalAllocatorInner {
    /// The ledger of the regions.
    pub open spec fn ledger(self) -> Ledger {
        Ledger {
            regions: self.vectors@[434]@,
            occupied: self.occupied@,
            actions: self.env.actions@,
            limit: self.env.limit,
        }
    }
}

/// The ledger after `weight` common chunks of the region of a chunk were given up.
pub open spec fn ledger_after(ledger: Ledger, size: usize, chunk: usize, weight: int) -> Ledger {
    let region = region_of(size as int, chunk as int);
    let i = choose|i: int| is_first_region(ledger.regions, region, i);
    if !is_first_region(ledger.regions, region, i) || ledger.occupied[i] < weight {
        ledger
    } else if ledger.occupied[i] > weight {
        Ledger {
            occupied: ledger.occupied.update(i, (ledger.occupied[i] - weight) as usize),
            ..ledger
        }
    } else {
        Ledger {
            regions: swap_removed(ledger.regions, i),
            occupied: swap_removed(ledger.occupied, i),
            actions: ledger.actions.push(OsAction::Unmap { ptr: region as usize, size }),
            limit: AllocationLimit {
                allocated: ledger.limit.allocated.wrapping_sub(size),
                ..ledger.limit
            },
        }
    }
}

/// The ledger after chunks were given up one after another, the last one first.
pub open spec fn ledger_after_all(
    ledger: Ledger,
    size: usize,
    chunks: Seq<usize>,
    weight: int,
) -> Ledger
    decreases chunks.len(),
{
    if chunks.len() == 0 {
        ledger
    } else {
        ledger_after_all(
            ledger_after(ledger, size, chunks.last(), weight),
            size,
            chunks.drop_last(),
            weight,
        )
    }
}

/// Giving up a chunk, as the ledger has it.
proof fn lemma_ledger_after(
    before: ThreadLocalAllocatorInner,
    after: ThreadLocalAllocatorInner,
    chunk: usize,
    weight: int,
)
    requires
        gave_up(before, after, chunk as int, weight),
    ensures
        after.ledger() == ledger_after(before.ledger(), before.env.region_size, chunk, weight),
{
    let region = region_of(before.env.region_size as int, chunk as int);
    let regions = before.vectors@[434]@;
    let i = choose|i: int| is_first_region(regions, region, i);
    assert forall|j: int| #[trigger] is_first_region(regions, region, j) implies j == i by {
        assert(is_first_region(regions, region, i));
        assert(regions[i] == regions[j]);
    }
}

/// What giving regions back asks the operating system for.
pub open spec fn unmap_all(regions: Seq<usize>, size: usize) -> Seq<OsAction> {
    Seq::new(regions.len(), |i: int| OsAction::Unmap { ptr: regions[i], size })
}

/// The bytes that are still taken after `n` regions were given back.
pub open spec fn taken_after(allocated: usize, size: usize, n: int) -> usize
    decreases n,
{
    if n <= 0 {
        allocated
    } else {
        taken_after(allocated, size, n - 1).wrapping_sub(size)
    }
}

/// What the operating system is asked for when all regions are given back: a list of the regions
/// is kept in a mapping of its own meanwhile.
pub open spec fn freed_regions(
    before: ThreadLocalAllocatorInner,
    after: ThreadLocalAllocatorInner,
) -> bool {
    let regions = before.vectors@[434]@;
    let size = before.env.region_size;
    &&& after.env.actions@ == before.env.actions@ + unmap_all(regions, size) + (if regions.len()
        == 0 {
        Seq::empty()
    } else {
        seq![
            OsAction::Unmap {
                ptr: before.env.replies@[before.env.used_replies as int].0,
                size: (8 * grown_capacity(0, regions.len() as int)) as usize,
            },
        ]
    })
    &&& after.env.limit.limit == before.env.limit.limit
    &&& after.env.limit.allocated == taken_after(
        before.env.limit.allocated,
        size,
        regions.len() as int,
    )
    &&& after.env.metadata == before.env.metadata
    &&& after.env.refusals == before.env.refusals
}

impl ThreadLocalAllocatorInner {
    /// Gives up all chunks that nobody uses.
    pub fn free_unused_memory(&mut self)
        requires
            old(self).wf(),
        ensures
            final(self).wf(),
            final(self).vectors@[432]@.len() == 0,
            final(self).vectors@[433]@.len() == 0,
            forall|i: int|
                #![trigger final(self).vectors@[i]]
                0 <= i < 432 ==> final(self).vectors@[i] == old(self).vectors@[i],
            forall|at: int| #[trigger]
                final(self).parts().cover(at) <= old(self).parts().cover(at),
            forall|class: int|
                0 <= class < 216 ==> #[trigger] final(self).parts().out(class) == old(self).parts().out(class),
            final(self).env.same_but_memory(old(self).env),
            final(self).env.metadata == old(self).env.metadata,
            final(self).env.used_replies == old(self).env.used_replies,
            final(self).ledger() == ledger_after_all(
                ledger_after_all(
                    old(self).ledger(),
                    old(self).env.region_size,
                    old(self).vectors@[432]@,
                    1,
                ),
                old(self).env.region_size,
                old(self).vectors@[433]@,
                8,
            ),
    {
        let ghost before = *self;
        let ghost size = before.env.region_size;
        let ghost halfway = ledger_after_all(before.ledger(), size, before.vectors@[432]@, 1);
        let ghost end = ledger_after_all(halfway, size, before.vectors@[433]@, 8);
        loop
            invariant
                before == *old(self),
                size == before.env.region_size,
                freeing(before, *self),
                ledger_after_all(self.ledger(), size, self.vectors@[432]@, 1) == halfway,
                self.vectors@[433] == before.vectors@[433],
            ensures
                freeing(before, *self),
                self.vectors@[432]@.len() == 0,
                self.ledger() == halfway,
                self.vectors@[433] == before.vectors@[433],
            decreases self.vectors@[432]@.len(),
        {
            let ghost middle = *self;
            match self.pop(FREE_COMMON) {
                Some(chunk) => {
                    let ghost popped = *self;
                    self.free_common(chunk);
                    proof {
                        lemma_freeing(before, middle, popped, *self, 432, chunk);
                        lemma_ledger_after(popped, *self, chunk, 1);
                        assert(self.vectors@[432] == popped.vectors@[432]);
                        assert(self.vectors@[433] == popped.vectors@[433]);
                        assert(popped.vectors@[433] == middle.vectors@[433]);
                        assert(popped.vectors@[434] == middle.vectors@[434]);
                        assert(popped.ledger() == middle.ledger());
                    }
                },
                None => {
                    break;
                },
            }
        }
        loop
            invariant
                before == *old(self),
                size == before.env.region_size,
                freeing(before, *self),
                self.vectors@[432]@.len() == 0,
                ledger_after_all(self.ledger(), size, self.vectors@[433]@, 8) == end,
            ensures
                freeing(before, *self),
                self.vectors@[432]@.len() == 0,
                self.vectors@[433]@.len() == 0,
                self.ledger() == end,
            decreases self.vectors@[433]@.len(),
        {
            let ghost middle = *self;
            match self.pop(FREE_LARGE) {
                Some(chunk) => {
                    let ghost popped = *self;
                    self.free_large(chunk);
                    proof {
                        lemma_freeing(before, middle, popped, *self, 433, chunk);
                        lemma_ledger_after(popped, *self, chunk, 8);
                        assert(popped.vectors@[434] == middle.vectors@[434]);
                        assert(popped.ledger() == middle.ledger());
                        assert(self.vectors@[433] == popped.vectors@[433]);
                        assert(self.vectors@[432] == popped.vectors@[432]);
                        assert(popped.vectors@[432] == middle.vectors@[432]);
                    }
                },
                None => {
                    break;
                },
            }
        }
    }

    /// Gives all regions back. What the vectors of chunks and of regions hold is forgotten.
    pub fn free_all_memory(&mut self) -> (r: Result<(), PanicCause>)
        requires
            old(self).wf(),
        ensures
            final(self).wf(),
            *final(self) == (ThreadLocalAllocatorInner {
                env: final(self).env,
                vectors: final(self).vectors,
                occupied: final(self).occupied,
                ..*old(self)
            }),
            final(self).env.same_but_memory(old(self).env),
            follows(old(self).env, final(self).env),
            old(self).env.used_replies <= final(self).env.used_replies,
            forall|at: int| #[trigger] final(self).cover(at) <= old(self).cover(at),
            match r {
                Ok(()) => {
                    &&& freed_regions(*old(self), *final(self))
                    &&& forall|i: int|
                        #![trigger final(self).vectors@[i]]
                        0 <= i < 432 ==> final(self).vectors@[i] == old(self).vectors@[i]
                    &&& forall|i: int|
                        #![trigger final(self).vectors@[i]]
                        432 <= i < 435 ==> final(self).vectors@[i]@.len() == 0 && final(self).vectors@[i].cap == 0
                },
                Err(cause) => {
                    &&& final(self).vectors == old(self).vectors
                    &&& cause is CapacityOverflow ==> old(self).vectors@[434]@.len() > 0x3C0_0000
                    &&& cause is CapacityOverflow || (cause is RegionList
                        && short(old(self).env, final(self).env))
                },
            },
    {
        let ghost before = *self;
        let n: usize = self.len(REGIONS);
        let mut regions = VecInOs::new();
        match regions.reserve(n, &mut self.env) {
            Ok(()) => {},
            Err(cause) => {
                assert(self.parts() == before.parts());
                return Err(cause);
            },
        }
        let ghost listed = *self;
        let ghost all = before.vectors@[434]@;
        let ghost list_ptr = regions.ptr;
        let ghost list_cap = regions.cap;
        let mut i: usize = 0;
        while i < n
            invariant
                i <= n,
                n == all.len(),
                all == self.vectors@[434]@,
                self.vectors@.len() == 435,
                *self == listed,
                regions.wf(),
                regions.cap == list_cap,
                regions.ptr == list_ptr,
                n <= list_cap,
                regions.data@ == all.take(i as int),
            decreases n - i,
        {
            let region: usize = self.vectors[REGIONS].data[i];
            regions.push_within(region);
            assert(regions.data@ =~= all.take(i + 1));
            i = i + 1;
        }
        assert(all.take(n as int) =~= all);
        i = 0;
        while i < n
            invariant
                i <= n,
                n == all.len(),
                regions.data@ == all,
                regions.wf(),
                regions.cap == list_cap,
                regions.ptr == list_ptr,
                *self == (ThreadLocalAllocatorInner { env: self.env, ..listed }),
                self.env.wf(),
                self.env.same_but_memory(listed.env),
                self.env.used_replies == listed.env.used_replies,
                self.env.refusals == listed.env.refusals,
                self.env.metadata == listed.env.metadata,
                follows(before.env, self.env),
                self.env.actions@ == listed.env.actions@ + unmap_all(
                    all.take(i as int),
                    listed.env.region_size,
                ),
                self.env.limit.limit == listed.env.limit.limit,
                self.env.limit.allocated == taken_after(
                    listed.env.limit.allocated,
                    listed.env.region_size,
                    i as int,
                ),
            decreases n - i,
        {
            let ghost middle = self.env;
            let region: usize = regions.data[i];
            dealloc_region(&mut self.env, region);
            proof {
                lemma_follows(before.env, middle, self.env);
                assert(all.take(i + 1) =~= all.take(i as int).push(region));
                assert(self.env.actions@ =~= listed.env.actions@ + unmap_all(
                    all.take(i + 1),
                    listed.env.region_size,
                ));
            }
            i = i + 1;
        }
        let ghost middle = self.env;
        regions.release(&mut self.env);
        proof {
            assert(follows(middle, self.env)) by {
                reveal(follows);
            }
            lemma_follows(before.env, middle, self.env);
            assert(all.take(n as int) =~= all);
            if n == 0 {
                assert(self.env.actions@ =~= before.env.actions@ + unmap_all(
                    all,
                    before.env.region_size,
                ) + Seq::<OsAction>::empty());
            } else {
                assert(self.env.actions@ =~= before.env.actions@ + unmap_all(
                    all,
                    before.env.region_size,
                ) + seq![
                    OsAction::Unmap {
                        ptr: list_ptr,
                        size: (8 * grown_capacity(0, n as int)) as usize,
                    },
                ]);
            }
        }
        let ghost freed = *self;
        assert(freed.parts() == before.parts());
        self.vectors[FREE_COMMON].force_become_null();
        self.vectors[FREE_LARGE].force_become_null();
        self.vectors[REGIONS].force_become_null();
        self.occupied = Vec::new();
        proof {
            lemma_forgotten(freed, *self);
        }
        Ok(())
    }
}

/// What holds while unused chunks are given up.
pub open spec fn freeing(
    before: ThreadLocalAllocatorInner,
    after: ThreadLocalAllocatorInner,
) -> bool {
    &&& after.wf()
    &&& forall|i: int|
        #![trigger after.vectors@[i]]
        0 <= i < 432 ==> after.vectors@[i] == before.vectors@[i]
    &&& forall|at: int| #[trigger] after.parts().cover(at) <= before.parts().cover(at)
    &&& forall|class: int|
        0 <= class < 216 ==> #[trigger] after.parts().out(class) == before.parts().out(class)
    &&& after.env.same_but_memory(before.env)
    &&& after.env.metadata == before.env.metadata
    &&& after.env.used_replies == before.env.used_replies
    &&& after.vectors@[434]@.len() <= before.vectors@[434]@.len()
}

proof fn lemma_freeing(
    before: ThreadLocalAllocatorInner,
    middle: ThreadLocalAllocatorInner,
    popped: ThreadLocalAllocatorInner,
    after: ThreadLocalAllocatorInner,
    slot: int,
    chunk: usize,
)
    requires
        freeing(before, middle),
        432 <= slot < 434,
        only_vector_changed(middle, popped, slot),
        forall|at: int| #[trigger]
            popped.parts().cover(at) + covers(chunk as int, held_size(slot), at)
                == middle.parts().cover(at),
        forall|class: int| #[trigger]
            popped.parts().out(class) == middle.parts().out(class) - elem_out(slot, class),
        after.wf(),
        same_accounts(popped, after),
        kept_but_regions(popped, after),
        after.vectors@[434]@.len() <= popped.vectors@[434]@.len(),
    ensures
        freeing(before, after),
{
    assert forall|i: int|
        #![trigger after.vectors@[i]]
        0 <= i < 432 implies after.vectors@[i] == before.vectors@[i] by {
        assert(after.vectors@[i] == popped.vectors@[i]);
        assert(popped.vectors@[i] == middle.vectors@[i]);
    }
    assert forall|at: int| #[trigger] after.parts().cover(at) <= before.parts().cover(at) by {
        assert(after.parts().cover(at) == popped.parts().cover(at));
        assert(popped.parts().cover(at) + covers(chunk as int, held_size(slot), at)
            == middle.parts().cover(at));
    }
    assert forall|class: int| 0 <= class < 216 implies #[trigger] after.parts().out(class)
        == before.parts().out(class) by {
        assert(after.parts().out(class) == popped.parts().out(class));
        assert(popped.parts().out(class) == middle.parts().out(class) - elem_out(slot, class));
    }
}

/// Vectors that are forgotten.
proof fn lemma_forgotten(before: ThreadLocalAllocatorInner, after: ThreadLocalAllocatorInner)
    requires
        before.wf(),
        after.vectors@.len() == 435,
        forall|i: int|
            #![trigger after.vectors@[i]]
            0 <= i < 432 ==> after.vectors@[i] == before.vectors@[i],
        forall|i: int|
            #![trigger after.vectors@[i]]
            432 <= i < 435 ==> after.vectors@[i].wf() && after.vectors@[i]@.len() == 0
                && after.vectors@[i].cap == 0 && after.vectors@[i].ptr == 0,
        after.occupied@.len() == 0,
        after == (ThreadLocalAllocatorInner {
            vectors: after.vectors,
            occupied: after.occupied,
            ..before
        }),
    ensures
        after.wf(),
        forall|at: int| #[trigger] after.parts().cover(at) <= before.parts().cover(at),
{
    let v0 = before.vectors@;
    let v1 = v0.update(432, after.vectors@[432]);
    let v2 = v1.update(433, after.vectors@[433]);
    let v3 = v2.update(434, after.vectors@[434]);
    assert(v3 =~= after.vectors@);
    let p0 = before.parts();
    let p1 = Parts { vectors: v1, ..p0 };
    let p2 = Parts { vectors: v2, ..p0 };
    lemma_parts_update(p0, 432, after.vectors@[432]);
    lemma_parts_update(p1, 433, after.vectors@[433]);
    lemma_parts_update(p2, 434, after.vectors@[434]);
    assert(after.parts() == (Parts { vectors: v3, ..p0 }));
    assert forall|at: int| #[trigger] after.parts().cover(at) <= before.parts().cover(at) by {
        assert(p1.cover(at) == p0.cover(at) + slot_cover(432, after.vectors@[432], at) - slot_cover(
            432,
            v0[432],
            at,
        ));
        assert(p2.cover(at) == p1.cover(at) + slot_cover(433, after.vectors@[433], at) - slot_cover(
            433,
            v1[433],
            at,
        ));
        assert(after.parts().cover(at) == p2.cover(at) + slot_cover(434, after.vectors@[434], at)
            - slot_cover(434, v2[434], at));
        lemma_blocks_cover_nonnegative(v0[432]@, 65536, at);
        lemma_blocks_cover_nonnegative(v0[433]@, 524288, at);
        lemma_blocks_cover_nonnegative(v0[434]@, 0, at);
    }
    assert forall|i: int|
        #![trigger after.parts().vectors[i]]
        0 <= i < 435 implies slot_wf(i, after.parts().vectors[i]) by {
        if i < 432 {
            assert(slot_wf(i, before.parts().vectors[i]));
        }
    }
    assert forall|i: int|
        #![trigger after.parts().vectors[i]]
        after.common_chunk_table == 0 && 216 <= i < 344 implies after.parts().vectors[i].cap
        == 0 by {
        assert(before.parts().vectors[i].cap == 0);
    }
    assert forall|i: int|
        #![trigger after.parts().vectors[i]]
        after.large_chunk_table == 0 && 344 <= i < 432 implies after.parts().vectors[i].cap
        == 0 by {
        assert(before.parts().vectors[i].cap == 0);
    }
}

} // verus!
