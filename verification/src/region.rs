//! Regions: the pieces of memory that are taken from the operating system.
//!
//! The first common chunk of a region is kept for the metadata of its chunks. The rest of the
//! first large chunk splits into common chunks, everything else into large chunks.
use crate::blocks::covers;
use crate::failures::Refusal;
use crate::non_local_ptr_manager::OffsetToSlotInTable;
use crate::os::{
    aligned_actions, follows, gave_blocks, is_region_size, is_writable, left_pending, lemma_mapped,
    lemma_region_bytes, mapped, refused_by_limit, reply_serves_region, short, ChunkMetadata,
    Environment, OsAction,
};
use crate::sizes::{COMMON_CHUNKS_IN_LARGE_CHUNK, COMMON_CHUNK_SIZE, LARGE_CHUNK_SIZE};
use vstd::arithmetic::power2::is_pow2;
use vstd::prelude::*;

verus! {

/// The number of common chunks beside the metadata.
pub const REST_COMMON_CHUNKS_IN_REGION: usize = 7;

/// Bytes in the metadata of a common chunk.
pub const CHUNK_METADATA_SIZE: usize = 24;

/// The number of large chunks in a region; one is taken by the metadata and the common chunks.
pub open spec fn large_chunks_in(region_size: int) -> int {
    region_size / 524288 - 1
}

/// The number of common chunks that a region splits into.
pub open spec fn max_common_chunks_in(region_size: int) -> int {
    large_chunks_in(region_size) * 8 + 7
}

/// The size of a region is a power of two, and a region consists of whole large chunks.
pub proof fn lemma_region_size(region_size: int)
    requires
        is_region_size(region_size),
    ensures
        is_pow2(region_size),
        region_size % 524288 == 0,
        1 <= large_chunks_in(region_size) <= 63,
        region_size == 524288 * (large_chunks_in(region_size) + 1),
        region_size / 65536 == max_common_chunks_in(region_size) + 1,
{
    reveal_with_fuel(is_pow2, 27);
}

/// The number of large chunks in a region.
pub fn large_chunks_in_region(region_size: usize) -> (r: usize)
    requires
        is_region_size(region_size as int),
    ensures
        r == large_chunks_in(region_size as int),
        1 <= r <= 63,
{
    proof {
        lemma_region_size(region_size as int);
    }
    region_size / LARGE_CHUNK_SIZE - 1
}

/// The number of common chunks that a region splits into.
pub fn max_common_chunks_in_region(region_size: usize) -> (r: usize)
    requires
        is_region_size(region_size as int),
    ensures
        r == max_common_chunks_in(region_size as int),
        15 <= r <= 511,
{
    large_chunks_in_region(region_size) * COMMON_CHUNKS_IN_LARGE_CHUNK
        + REST_COMMON_CHUNKS_IN_REGION
}

/// The metadata of a region fits in the common chunk that is kept for it.
pub proof fn law_metadata_fits(region_size: int)
    requires
        is_region_size(region_size),
    ensures
        CHUNK_METADATA_SIZE * max_common_chunks_in(region_size) <= COMMON_CHUNK_SIZE,
{
    lemma_region_size(region_size);
}

/// Whether the key is that of one of the first `n` pieces of metadata of the region.
pub open spec fn is_metadata_key(region: int, n: int, key: int) -> bool {
    &&& region <= key
    &&& (key - region) % 24 == 0
    &&& (key - region) / 24 < n
}

/// Forgets the metadata of a region: fresh memory is zeroed.
fn clear_metadata(env: &mut Environment, region: usize)
    requires
        old(env).wf(),
        region + old(env).region_size <= usize::MAX,
    ensures
        final(env).wf(),
        final(env).same_but_memory(*old(env)),
        final(env).limit == old(env).limit,
        final(env).actions == old(env).actions,
        final(env).used_replies == old(env).used_replies,
        final(env).pending == old(env).pending,
        final(env).refusals == old(env).refusals,
        forall|key: usize| #[trigger]
            final(env).metadata@.contains_key(key) <==> old(env).metadata@.contains_key(key)
                && !is_metadata_key(
                region as int,
                old(env).region_size as int / 65536 + 8,
                key as int,
            ),
        forall|key: usize| #[trigger]
            final(env).metadata@.contains_key(key) ==> final(env).metadata@[key] == old(env).metadata@[key],
{
    broadcast use vstd::std_specs::hash::group_hash_axioms;

    proof {
        lemma_region_size(env.region_size as int);
    }
    let n: usize = env.region_size / COMMON_CHUNK_SIZE + 8;
    let mut i: usize = 0;
    while i < n
        invariant
            i <= n,
            n == old(env).region_size as int / 65536 + 8,
            n <= 520,
            region + old(env).region_size <= usize::MAX,
            old(env).region_size >= 0x10_0000,
            old(env).wf(),
            env.region_size == old(env).region_size,
            env.same_but_memory(*old(env)),
            env.limit == old(env).limit,
            env.actions == old(env).actions,
            env.used_replies == old(env).used_replies,
            env.pending == old(env).pending,
            env.refusals == old(env).refusals,
            forall|key: usize| #[trigger]
                env.metadata@.contains_key(key) <==> old(env).metadata@.contains_key(key)
                    && !is_metadata_key(region as int, i as int, key as int),
            forall|key: usize| #[trigger]
                env.metadata@.contains_key(key) ==> env.metadata@[key] == old(env).metadata@[key],
        decreases n - i,
    {
        broadcast use vstd::std_specs::hash::group_hash_axioms;

        let key: usize = region + i * CHUNK_METADATA_SIZE;
        env.metadata.remove(&key);
        assert forall|k: usize|
            is_metadata_key(region as int, i + 1, k as int) <==> is_metadata_key(
                region as int,
                i as int,
                k as int,
            ) || k == key by {}
        i = i + 1;
    }
}

/// Maps a region; the limit has been asked already.
fn alloc_region_(env: &mut Environment) -> (r: Option<usize>)
    requires
        old(env).wf(),
    ensures
        final(env).wf(),
        final(env).same_but_memory(*old(env)),
        r is Some ==> final(env).limit == old(env).limit,
        r is None ==> final(env).limit == (crate::limit::AllocationLimit {
            allocated: old(env).limit.allocated.wrapping_sub(old(env).region_size),
            ..old(env).limit
        }),
        r is Some <==> next_reply_serves_region(*old(env)),
        region_mapped(*old(env), *final(env), r),
        old(env).actions@.is_prefix_of(final(env).actions@),
        old(env).refusals@.is_prefix_of(final(env).refusals@),
        r is Some ==> !gave_blocks(*old(env), *final(env)),
        r is None ==> final(env).refusals@.last() is Os,
        asks_for_region(*old(env), *final(env)),
        old(env).pending is Some || old(env).unread() > 0 ==> final(env).pending == old(env).pending,
        r is None ==> (final(env).unread() == 0 && final(env).pending is Some) || (old(env).used_replies < final(env).used_replies
            && !reply_serves_region(final(env).replies@, final(env).region_size, old(env).used_replies as int)),
{
    let size: usize = env.region_size;
    proof {
        lemma_region_size(size as int);
    }
    match env.alloc_aligned_from_os(size, true, size) {
        Some(ptr) => {
            let ghost before = *env;
            clear_metadata(env, ptr);
            assert(forall|at: int| #[trigger] env.pool(at) == before.pool(at));
            Some(ptr)
        },
        None => {
            env.limit.mark_deallocated(size);
            None
        },
    }
}

/// What a request for a region leaves behind: the region is aligned and comes from the next
/// mapping, its metadata is zeroed; or the request was turned down.
pub open spec fn region_taken(old_env: Environment, new_env: Environment, r: Option<usize>) -> bool {
    &&& region_mapped(old_env, new_env, r)
    &&& follows(old_env, new_env)
    &&& r is None ==> short(old_env, new_env)
}

/// What a request for a region leaves behind but for the limit.
pub open spec fn region_mapped(
    old_env: Environment,
    new_env: Environment,
    r: Option<usize>,
) -> bool {
    let size = old_env.region_size as int;
    &&& match r {
        Some(ptr) => {
            &&& ptr % old_env.region_size == 0
            &&& ptr > 0
            &&& committed_actions(old_env, new_env, ptr as int)
            &&& ptr + size <= usize::MAX
            &&& old_env.unread() > 0
            &&& new_env.used_replies == old_env.used_replies + 1
            &&& new_env.refusals == old_env.refusals
            &&& forall|at: int| #[trigger]
                new_env.pool(at) + covers(ptr as int, size, at) <= old_env.pool(at)
            &&& forall|key: usize| #[trigger]
                new_env.metadata@.contains_key(key) <==> old_env.metadata@.contains_key(key)
                    && !is_metadata_key(ptr as int, size / 65536 + 8, key as int)
            &&& forall|key: usize| #[trigger]
                new_env.metadata@.contains_key(key) ==> new_env.metadata@[key]
                    == old_env.metadata@[key]
        },
        None => {
            &&& old_env.used_replies <= new_env.used_replies <= old_env.used_replies + 1
            &&& new_env.refusals@.len() == old_env.refusals@.len() + 1
            &&& forall|at: int| #[trigger] new_env.pool(at) <= old_env.pool(at)
            &&& new_env.metadata == old_env.metadata
            &&& new_env.actions == old_env.actions
        },
    }
}

/// What is to be done with the mapping that a region at `ptr` is taken from: the region is made
/// readable and writable, and what the mapping has beside it is given back.
pub open spec fn committed_actions(old_env: Environment, new_env: Environment, ptr: int) -> bool {
    let size = old_env.region_size as int;
    let base = old_env.replies@[old_env.used_replies as int].0 as int;
    &&& base <= ptr < base + size
    &&& new_env.actions@ == old_env.actions@ + aligned_actions(base, ptr, size, size, true)
}

/// How many regions were made readable and writable.
pub open spec fn commits(actions: Seq<OsAction>) -> nat
    decreases actions.len(),
{
    if actions.len() == 0 {
        0
    } else {
        commits(actions.drop_last()) + (if actions.last() is Commit {
            1nat
        } else {
            0
        })
    }
}

/// The chunks that all regions that were taken have brought at least, counted in common chunks. The
/// first chunk of a region is kept for its metadata, and a large one is left alone where a state goes
/// on to a further region for a common chunk.
pub open spec fn chunks_taken(env: Environment) -> int {
    (env.region_size as int / 65536 - 9) * commits(env.actions@)
}

/// A region brings its chunks.
pub proof fn lemma_region_brings(old_env: Environment, new_env: Environment, region: usize)
    requires
        new_env.region_size == old_env.region_size,
        region_mapped(old_env, new_env, Some(region)),
    ensures
        chunks_taken(new_env) == chunks_taken(old_env) + old_env.region_size as int / 65536 - 9,
{
    let size = old_env.region_size as int;
    let base = old_env.replies@[old_env.used_replies as int].0 as int;
    let ptr = region as int;
    let first = old_env.actions@.push(
        OsAction::Commit { ptr: region, size: old_env.region_size },
    );
    let head = OsAction::Trim { ptr: base as usize, size: (ptr - base) as usize };
    let tail = OsAction::Trim {
        ptr: (ptr + size) as usize,
        size: (size - 1 - (ptr - base)) as usize,
    };
    let second = if ptr > base {
        first.push(head)
    } else {
        first
    };
    let third = if ptr - base < size - 1 {
        second.push(tail)
    } else {
        second
    };
    assert(new_env.actions@ =~= third);
    assert(first.drop_last() =~= old_env.actions@);
    if ptr > base {
        assert(second.drop_last() =~= first);
    }
    if ptr - base < size - 1 {
        assert(third.drop_last() =~= second);
    }
    assert(first.last() is Commit);
    assert(commits(first) == commits(old_env.actions@) + 1);
    lemma_unmap_brings_none(first, head);
    lemma_unmap_brings_none(second, tail);
    let n = commits(old_env.actions@) as int;
    let w = size / 65536 - 9;
    assert(w * (n + 1) == w * n + w) by (nonlinear_arith);
}

/// Giving memory back brings no chunks.
pub proof fn lemma_unmap_brings_none(actions: Seq<OsAction>, action: OsAction)
    ensures
        !(action is Commit) ==> commits(actions.push(action)) == commits(actions),
{
    assert(actions.push(action).drop_last() =~= actions);
}

/// After a region was taken every byte of it can be read and written, and every byte that could be
/// before still can, but for the mapping that the region comes from.
pub proof fn law_region_can_be_written(
    old_env: Environment,
    new_env: Environment,
    region: usize,
    at: int,
)
    requires
        old_env.wf(),
        region_taken(old_env, new_env, Some(region)),
    ensures
        region <= at < region + old_env.region_size ==> is_writable(new_env.actions@, at),
        ({
            let base = old_env.replies@[old_env.used_replies as int].0;
            !(base <= at < base + 2 * old_env.region_size - 1) ==> is_writable(
                new_env.actions@,
                at,
            ) == is_writable(old_env.actions@, at)
        }),
{
    let size = old_env.region_size as int;
    let base = old_env.replies@[old_env.used_replies as int].0 as int;
    let ptr = region as int;
    lemma_region_size(size);
    let first = old_env.actions@.push(
        OsAction::Commit { ptr: region, size: old_env.region_size },
    );
    let head = OsAction::Trim { ptr: base as usize, size: (ptr - base) as usize };
    let tail = OsAction::Trim {
        ptr: (ptr + size) as usize,
        size: (size - 1 - (ptr - base)) as usize,
    };
    let second = if ptr > base {
        first.push(head)
    } else {
        first
    };
    let third = if ptr - base < size - 1 {
        second.push(tail)
    } else {
        second
    };
    assert(new_env.actions@ =~= third);
    assert(first.drop_last() =~= old_env.actions@);
    assert(first.last() == (OsAction::Commit { ptr: region, size: old_env.region_size }));
    assert(is_writable(first, at) == (region <= at < region + size || is_writable(
        old_env.actions@,
        at,
    )));
    if ptr > base {
        assert(second.drop_last() =~= first);
        assert(second.last() == head);
        assert(is_writable(second, at) == (!(base <= at < ptr) && is_writable(first, at)));
    }
    if ptr - base < size - 1 {
        assert(third.drop_last() =~= second);
        assert(third.last() == tail);
        assert(is_writable(third, at) == (!(ptr + size <= at < base + 2 * size - 1) && is_writable(
            second,
            at,
        )));
    }
}

/// Whether the request for the mapping of a region is the one that is left pending. The region is
/// made readable and writable when it is taken from the mapping.
pub open spec fn asks_for_region(old_env: Environment, new_env: Environment) -> bool {
    left_pending(old_env, new_env, 2 * old_env.region_size - 1, false)
}

/// A request for a region that is answered serves it: where the mapping that was asked for is made,
/// and the operation is repeated, the region can be taken.
pub proof fn law_answered_request_serves_region(
    old_env: Environment,
    new_env: Environment,
    answered: Environment,
    ptr: usize,
)
    requires
        old_env.wf(),
        old_env.unread() == 0,
        old_env.pending is None,
        asks_for_region(old_env, new_env),
        answered.replies@ == old_env.replies@.push((ptr, new_env.pending->0.size)),
        answered.used_replies == old_env.used_replies,
        answered.region_size == old_env.region_size,
        ptr != 0,
        ptr + new_env.pending->0.size <= usize::MAX,
    ensures
        new_env.pending is Some,
        next_reply_serves_region(answered),
{
    lemma_region_size(old_env.region_size as int);
}

/// Whether the next reply is a mapping that a region can be taken from.
pub open spec fn next_reply_serves_region(env: Environment) -> bool {
    reply_serves_region(env.replies@, env.region_size, env.used_replies as int)
}

/// Takes a region where the limit has room for it.
pub fn alloc_region(env: &mut Environment) -> (r: Option<usize>)
    requires
        old(env).wf(),
    ensures
        final(env).wf(),
        final(env).same_but_memory(*old(env)),
        region_taken(*old(env), *final(env), r),
        r is Some <==> old(env).limit.has_room_for(old(env).region_size)
            && next_reply_serves_region(*old(env)),
        r is Some ==> final(env).limit == (crate::limit::AllocationLimit {
            allocated: (old(env).limit.allocated + old(env).region_size) as usize,
            ..old(env).limit
        }),
        r is None ==> final(env).limit == old(env).limit,
        old(env).limit.has_room_for(old(env).region_size) ==> asks_for_region(
            *old(env),
            *final(env),
        ),
        !old(env).limit.has_room_for(old(env).region_size) ==> final(env).pending == old(env).pending,
        !old(env).limit.has_room_for(old(env).region_size) ==> final(env).refusals@ == old(env).refusals@.push(Refusal::Limit(old(env).region_size)),
{
    let size: usize = env.region_size;
    if !env.limit.may_allocate(size) {
        env.refusals.push(Refusal::Limit(size));
        assert(forall|at: int| #[trigger] env.pool(at) == old(env).pool(at));
        proof {
            reveal(follows);
            reveal(short);
            let j = old(env).refusals@.len() as int;
            assert(env.refusals@[j] == Refusal::Limit(size));
            lemma_mapped(
                env.replies@,
                env.used_replies as int,
                env.used_replies as int,
                env.used_replies as int,
            );
            assert(refused_by_limit(*old(env), *env));
        }
        return None;
    }
    assert(forall|at: int| #[trigger] env.pool(at) == old(env).pool(at));
    let r = alloc_region_(env);
    proof {
        lemma_region_counted(*old(env), *env);
    }
    r
}

/// A region is counted with no more bytes than were mapped for it.
proof fn lemma_region_counted(e0: Environment, e1: Environment)
    requires
        e0.wf(),
        e1.replies == e0.replies,
        e1.region_size == e0.region_size,
        e0.used_replies <= e1.used_replies <= e0.used_replies + 1,
        e1.limit.limit == e0.limit.limit,
        e0.actions@.is_prefix_of(e1.actions@),
        e0.refusals@.is_prefix_of(e1.refusals@),
        e0.pending is Some ==> e1.pending == e0.pending,
        e1.outbox == e0.outbox,
        e1.limit.allocated <= e0.limit.allocated + e0.region_size,
        e1.used_replies == e0.used_replies ==> e1.limit == e0.limit,
        e1.used_replies > e0.used_replies ==> !reply_serves_region(
            e0.replies@,
            e0.region_size,
            e0.used_replies as int,
        ) || e0.limit.allocated + e0.region_size <= e1.limit.allocated || e0.limit.allocated
            + e0.region_size > usize::MAX,
        e1.limit.allocated > e0.limit.allocated ==> reply_serves_region(e0.replies@, e0.region_size, e0.used_replies as int,
        ) && e1.used_replies == e0.used_replies + 1,
    ensures
        follows(e0, e1),
        e0.refusals@.len() < e1.refusals@.len() && e1.refusals@.last() is Os && ((e1.unread() == 0
            && e1.pending is Some) || (e0.used_replies < e1.used_replies && !reply_serves_region(e1.replies@, e1.region_size, e0.used_replies as int,
        ))) ==> short(e0, e1),
{
    reveal(follows);
    reveal(short);
    if e0.refusals@.len() < e1.refusals@.len() && e1.refusals@.last() is Os {
        let j = e1.refusals@.len() - 1;
        assert(e1.refusals@[j] is Os);
    }
    lemma_region_size(e0.region_size as int);
    let used = e0.used_replies as int;
    lemma_mapped(e0.replies@, used, used, e1.used_replies as int);
    lemma_region_bytes(e0.region_size, 0, 1);
    if e1.used_replies > used && !reply_serves_region(e0.replies@, e0.region_size, used) {
        assert(!reply_serves_region(e1.replies@, e1.region_size, used));
    }
    if e1.used_replies == used + 1 {
        assert(mapped(e0.replies@, used, used) == 0);
        assert(mapped(e0.replies@, used, used + 1) == e0.replies@[used].1);
    }
}

/// Takes a region whether the limit has room for it or not.
pub fn alloc_region_without_counting_limit(env: &mut Environment) -> (r: Option<usize>)
    requires
        old(env).wf(),
    ensures
        final(env).wf(),
        final(env).same_but_memory(*old(env)),
        region_taken(*old(env), *final(env), r),
        r is Some <==> next_reply_serves_region(*old(env)),
        asks_for_region(*old(env), *final(env)),
        r is Some ==> final(env).limit == (crate::limit::AllocationLimit {
            allocated: old(env).limit.allocated.wrapping_add(old(env).region_size),
            ..old(env).limit
        }),
        r is None ==> final(env).limit == old(env).limit,
{
    let size: usize = env.region_size;
    env.limit.allocate_any_way(size);
    assert(forall|at: int| #[trigger] env.pool(at) == old(env).pool(at));
    let r = alloc_region_(env);
    proof {
        lemma_region_counted(*old(env), *env);
    }
    r
}

/// Gives a region back.
pub fn dealloc_region(env: &mut Environment, region: usize)
    requires
        old(env).wf(),
    ensures
        final(env).wf(),
        final(env).same_but_memory(*old(env)),
        final(env).actions@ == old(env).actions@.push(
            crate::os::OsAction::Unmap { ptr: region, size: old(env).region_size },
        ),
        final(env).limit == (crate::limit::AllocationLimit {
            allocated: old(env).limit.allocated.wrapping_sub(old(env).region_size),
            ..old(env).limit
        }),
        final(env).metadata == old(env).metadata,
        final(env).used_replies == old(env).used_replies,
        final(env).pending == old(env).pending,
        final(env).refusals == old(env).refusals,
        follows(*old(env), *final(env)),
{
    let size: usize = env.region_size;
    env.free(region, size);
    env.limit.mark_deallocated(size);
    proof {
        reveal(follows);
        let j = old(env).actions@.len() as int;
        assert(env.actions@[j] == crate::os::OsAction::Unmap { ptr: region, size });
        assert(gave_blocks(*old(env), *env));
    }
}

/// The chunks of a region.
#[derive(Clone, Debug)]
pub struct ParsedRegion {
    pub metadata: usize,
    pub common_chunks: Vec<usize>,
    pub large_chunks: Vec<usize>,
}

/// Splits a region into its chunks.
pub fn parse_region(region: usize, region_size: usize) -> (r: ParsedRegion)
    requires
        is_region_size(region_size as int),
        region + region_size <= usize::MAX,
    ensures
        r.metadata == region,
        r.common_chunks@.len() == 7,
        forall|i: int|
            0 <= i < 7 ==> #[trigger] r.common_chunks@[i] == region + (i + 1) * COMMON_CHUNK_SIZE,
        r.large_chunks@.len() == large_chunks_in(region_size as int),
        forall|i: int|
            0 <= i < r.large_chunks@.len() ==> #[trigger] r.large_chunks@[i] == region + (i + 1)
                * LARGE_CHUNK_SIZE,
{
    proof {
        lemma_region_size(region_size as int);
    }
    let mut common_chunks: Vec<usize> = Vec::new();
    let mut i: usize = 0;
    while i < REST_COMMON_CHUNKS_IN_REGION
        invariant
            i <= 7,
            common_chunks@.len() == i,
            region + region_size <= usize::MAX,
            region_size >= 524288,
            forall|j: int|
                0 <= j < i ==> #[trigger] common_chunks@[j] == region + (j + 1)
                    * COMMON_CHUNK_SIZE,
        decreases 7 - i,
    {
        common_chunks.push(region + (i + 1) * COMMON_CHUNK_SIZE);
        i = i + 1;
    }
    let mut large_chunks: Vec<usize> = Vec::new();
    let n: usize = large_chunks_in_region(region_size);
    let mut k: usize = 0;
    while k < n
        invariant
            k <= n <= 63,
            n == large_chunks_in(region_size as int),
            large_chunks@.len() == k,
            region + region_size <= usize::MAX,
            region_size == 524288 * (n + 1),
            forall|j: int|
                0 <= j < k ==> #[trigger] large_chunks@[j] == region + (j + 1) * LARGE_CHUNK_SIZE,
        decreases n - k,
    {
        large_chunks.push(region + (k + 1) * LARGE_CHUNK_SIZE);
        k = k + 1;
    }
    ParsedRegion { metadata: region, common_chunks, large_chunks }
}

/// The region that holds the byte at `ptr`.
pub open spec fn region_of(region_size: int, ptr: int) -> int {
    ptr - ptr % region_size
}

/// Where the metadata of the chunk that holds the byte at `ptr` is kept.
pub open spec fn metadata_of(region_size: int, ptr: int) -> int {
    region_of(region_size, ptr) + (ptr % region_size) / 65536 * 24
}

/// The region that holds the byte at `chunk_ptr`.
pub fn region_ptr_from_chunk_ptr(region_size: usize, chunk_ptr: usize) -> (r: usize)
    requires
        is_region_size(region_size as int),
    ensures
        r == region_of(region_size as int, chunk_ptr as int),
{
    proof {
        vstd::arithmetic::div_mod::lemma_mod_decreases(chunk_ptr as nat, region_size as nat);
    }
    chunk_ptr - chunk_ptr % region_size
}

/// Where the metadata of the chunk that holds the byte at `chunk_ptr` is kept.
pub fn chunk_ptr_to_chunk_metadata_ptr(region_size: usize, chunk_ptr: usize) -> (r: usize)
    requires
        is_region_size(region_size as int),
    ensures
        r == metadata_of(region_size as int, chunk_ptr as int),
        r <= chunk_ptr,
{
    proof {
        vstd::arithmetic::div_mod::lemma_mod_decreases(chunk_ptr as nat, region_size as nat);
    }
    let shift_from_start: usize = chunk_ptr % region_size;
    let region_start: usize = chunk_ptr - shift_from_start;
    let idx: usize = shift_from_start / COMMON_CHUNK_SIZE;
    region_start + idx * CHUNK_METADATA_SIZE
}

/// A chunk lies in its region, and its metadata in the chunk that is kept for metadata.
pub proof fn law_chunks_find_their_region(region_size: int, region: int, offset: int)
    requires
        is_region_size(region_size),
        0 <= region,
        region % region_size == 0,
        0 <= offset < region_size,
    ensures
        region_of(region_size, region + offset) == region,
        metadata_of(region_size, region + offset) == region + offset / 65536 * 24,
        region <= metadata_of(region_size, region + offset) < region + COMMON_CHUNK_SIZE,
{
    lemma_region_size(region_size);
    vstd::arithmetic::div_mod::lemma_add_mod_noop(region, offset, region_size);
    vstd::arithmetic::div_mod::lemma_small_mod(offset as nat, region_size as nat);
    assert((region + offset) % region_size == offset);
}

/// The metadata of a chunk; nothing where it is zeroed.
pub open spec fn metadata_at(env: Environment, ptr: int) -> Option<ChunkMetadata> {
    let key = metadata_of(env.region_size as int, ptr) as usize;
    if env.metadata@.contains_key(key) {
        Some(env.metadata@[key])
    } else {
        None
    }
}

/// Reads the metadata of the chunk that holds the byte at `ptr`.
pub fn read_metadata(env: &Environment, ptr: usize) -> (r: Option<ChunkMetadata>)
    requires
        env.wf(),
    ensures
        r == metadata_at(*env, ptr as int),
{
    broadcast use vstd::std_specs::hash::group_hash_axioms;

    let key: usize = chunk_ptr_to_chunk_metadata_ptr(env.region_size, ptr);
    match env.metadata.get(&key) {
        Some(metadata) => Some(*metadata),
        None => None,
    }
}

/// Writes the metadata of the common chunk that holds the byte at `chunk_ptr`.
pub fn init_metadata_for_common_chunk(
    env: &mut Environment,
    non_local_ptr_manager: usize,
    offset_to_slot_in_table: OffsetToSlotInTable,
    chunk_ptr: usize,
)
    requires
        old(env).wf(),
        offset_to_slot_in_table.is_valid(),
        offset_to_slot_in_table.is_common,
    ensures
        final(env).wf(),
        only_metadata_changed(*old(env), *final(env)),
        final(env).metadata@ == old(env).metadata@.insert(
            metadata_of(old(env).region_size as int, chunk_ptr as int) as usize,
            ChunkMetadata { non_local_ptr_manager, offset_to_slot_in_table },
        ),
        forall|key: usize|
            {
                let first = metadata_of(old(env).region_size as int, chunk_ptr as int);
                #[trigger] metadata_or_zero(*final(env), key) == if is_metadata_key(
                    first,
                    1,
                    key as int,
                ) {
                    Some(ChunkMetadata { non_local_ptr_manager, offset_to_slot_in_table })
                } else {
                    metadata_or_zero(*old(env), key)
                }
            },
{
    broadcast use vstd::std_specs::hash::group_hash_axioms;

    let key: usize = chunk_ptr_to_chunk_metadata_ptr(env.region_size, chunk_ptr);
    env.metadata.insert(key, ChunkMetadata { non_local_ptr_manager, offset_to_slot_in_table });
}

/// Whether nothing but the metadata differs.
pub open spec fn only_metadata_changed(old_env: Environment, new_env: Environment) -> bool {
    new_env == (Environment { metadata: new_env.metadata, ..old_env })
}

/// Writes the metadata of eight common chunks, the first of which holds the byte at `chunk_ptr`.
pub fn init_metadata_for_large_chunk(
    env: &mut Environment,
    non_local_ptr_manager: usize,
    offset_to_slot_in_table: OffsetToSlotInTable,
    chunk_ptr: usize,
)
    requires
        old(env).wf(),
        offset_to_slot_in_table.is_valid(),
        !offset_to_slot_in_table.is_common,
        chunk_ptr + 192 <= usize::MAX,
    ensures
        final(env).wf(),
        only_metadata_changed(*old(env), *final(env)),
        forall|key: usize|
            {
                let first = metadata_of(old(env).region_size as int, chunk_ptr as int);
                #[trigger] metadata_or_zero(*final(env), key) == if is_metadata_key(
                    first,
                    8,
                    key as int,
                ) {
                    Some(ChunkMetadata { non_local_ptr_manager, offset_to_slot_in_table })
                } else {
                    metadata_or_zero(*old(env), key)
                }
            },
{
    let first: usize = chunk_ptr_to_chunk_metadata_ptr(env.region_size, chunk_ptr);
    let mut i: usize = 0;
    while i < COMMON_CHUNKS_IN_LARGE_CHUNK
        invariant
            i <= 8,
            first + 192 <= usize::MAX,
            old(env).wf(),
            env.wf(),
            offset_to_slot_in_table.is_valid(),
            only_metadata_changed(*old(env), *env),
            forall|key: usize| #[trigger]
                metadata_or_zero(*env, key) == if is_metadata_key(
                    first as int,
                    i as int,
                    key as int,
                ) {
                    Some(ChunkMetadata { non_local_ptr_manager, offset_to_slot_in_table })
                } else {
                    metadata_or_zero(*old(env), key)
                },
        decreases 8 - i,
    {
        broadcast use vstd::std_specs::hash::group_hash_axioms;

        let key: usize = first + i * CHUNK_METADATA_SIZE;
        let ghost before = *env;
        env.metadata.insert(
            key,
            ChunkMetadata { non_local_ptr_manager, offset_to_slot_in_table },
        );
        assert forall|k: usize|
            is_metadata_key(first as int, i + 1, k as int) <==> is_metadata_key(
                first as int,
                i as int,
                k as int,
            ) || k == key by {}
        assert forall|k: usize| #[trigger]
            metadata_or_zero(*env, k) == if k == key {
                Some(ChunkMetadata { non_local_ptr_manager, offset_to_slot_in_table })
            } else {
                metadata_or_zero(before, k)
            } by {}
        i = i + 1;
    }
}

/// What is kept at the given place; nothing where it is zeroed.
pub open spec fn metadata_or_zero(env: Environment, key: usize) -> Option<ChunkMetadata> {
    if env.metadata@.contains_key(key) {
        Some(env.metadata@[key])
    } else {
        None
    }
}

} // verus!
