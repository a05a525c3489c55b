//! What the operating system is asked for, and what it has answered.
//!
//! The library makes no system calls. An [`Environment`] holds the answers to requests for memory
//! and collects what is to be done: memory to commit, memory to give back, messages to deliver. A
//! caller that finds a request pending performs it, appends the answer and repeats the operation
//! on the allocator as it was before.
use crate::accounts::step;
use crate::blocks::covers;
use crate::failures::Refusal;
use crate::limit::AllocationLimit;
use crate::non_local_ptr_manager::{Message, OffsetToSlotInTable};
use crate::sizes::LARGE_SIZE_MAX;
use crate::state::refused;
use std::collections::HashMap;
use vstd::arithmetic::power2::is_pow2;
use vstd::prelude::*;

verus! {

// ---- huge pages ----

/// The kind of pages that a mapping is made of.
#[derive(Copy, Clone, Debug, PartialEq, Eq, Structural)]
pub enum Pages {
    Normal,
    Huge2Mb,
    Huge1Gb,
}

/// Which huge pages are worth a try.
#[derive(Copy, Clone, Debug, PartialEq, Eq, Structural)]
pub enum HugePageOption {
    NotTry,
    Try2Mb,
    Try1Gb,
}

/// One call of `mmap`.
#[derive(Copy, Clone, Debug, PartialEq, Eq, Structural)]
pub struct MmapAttempt {
    pub pages: Pages,
    /// Whether the mapping is made without reserving swap space.
    pub no_reserve: bool,
}

/// What follows a call of `mmap`.
#[derive(Copy, Clone, Debug, PartialEq, Eq, Structural)]
pub enum MmapStep {
    /// The mapping is made, of huge pages or not.
    Done { huge: bool },
    /// The mapping is not made.
    Failed,
    /// Another call is due.
    Again(MmapAttempt),
}

/// The pages that a mapping is first tried with.
pub open spec fn first_pages(option: HugePageOption, size: int, huge_only: bool) -> Pages {
    if size % 0x4000_0000 == 0 && option is Try1Gb {
        Pages::Huge1Gb
    } else if huge_only || (size % 0x20_0000 == 0 && option is Try2Mb) {
        Pages::Huge2Mb
    } else {
        Pages::Normal
    }
}

/// The first call for a mapping of `size` bytes. Huge pages are always reserved.
pub fn custom_mmap(
    option: HugePageOption,
    size: usize,
    commit: bool,
    huge_only: bool,
) -> (r: MmapAttempt)
    requires
        size > 0,
    ensures
        r == (MmapAttempt {
            pages: first_pages(option, size as int, huge_only),
            no_reserve: !commit && first_pages(option, size as int, huge_only) is Normal }),
{
    let may_be_2mb_huge_page = size % (2 * 1024 * 1024) == 0 && option == HugePageOption::Try2Mb;
    let may_be_1gb_huge_page = size % (1024 * 1024 * 1024) == 0 && option
        == HugePageOption::Try1Gb;
    if may_be_1gb_huge_page {
        MmapAttempt { pages: Pages::Huge1Gb, no_reserve: false }
    } else if huge_only || may_be_2mb_huge_page {
        MmapAttempt { pages: Pages::Huge2Mb, no_reserve: false }
    } else {
        MmapAttempt { pages: Pages::Normal, no_reserve: !commit }
    }
}

/// What follows a call, and the option that is left.
pub open spec fn step_after(
    option: HugePageOption,
    attempt: MmapAttempt,
    mapped: bool,
    commit: bool,
    huge_only: bool,
) -> (HugePageOption, MmapStep) {
    if mapped {
        (option, MmapStep::Done { huge: !(attempt.pages is Normal) })
    } else if attempt.pages is Normal {
        (option, MmapStep::Failed)
    } else if attempt.pages is Huge1Gb {
        (
            HugePageOption::Try2Mb,
            MmapStep::Again(
                MmapAttempt { pages: Pages::Huge2Mb, no_reserve: false },
            ),
        )
    } else if huge_only {
        (HugePageOption::NotTry, MmapStep::Failed)
    } else {
        (
            HugePageOption::NotTry,
            MmapStep::Again(
                MmapAttempt { pages: Pages::Normal, no_reserve: !commit },
            ),
        )
    }
}

/// Decides what follows a call: where pages of a gigabyte could not be mapped, pages of two
/// megabytes are tried; where those fail too, huge pages are not tried again, and the mapping is
/// made of normal pages unless only huge ones will do.
pub fn custom_mmap_next(
    option: &mut HugePageOption,
    attempt: MmapAttempt,
    mapped: bool,
    commit: bool,
    huge_only: bool,
) -> (r: MmapStep)
    ensures
        (*final(option), r) == step_after(*old(option), attempt, mapped, commit, huge_only),
{
    if mapped {
        return match attempt.pages {
            Pages::Normal => MmapStep::Done { huge: false },
            _ => MmapStep::Done { huge: true },
        };
    }
    if attempt.pages == Pages::Normal {
        return MmapStep::Failed;
    }
    if attempt.pages == Pages::Huge1Gb {
        *option = HugePageOption::Try2Mb;
        return MmapStep::Again(
            MmapAttempt { pages: Pages::Huge2Mb, no_reserve: false },
        );
    }
    *option = HugePageOption::NotTry;
    if huge_only {
        return MmapStep::Failed;
    }
    MmapStep::Again(MmapAttempt { pages: Pages::Normal, no_reserve: !commit })
}

/// At most three calls are made for a mapping.
pub proof fn law_mmap_gives_up(
    option: HugePageOption,
    size: int,
    commit: bool,
    huge_only: bool,
    mapped1: bool,
    mapped2: bool,
    mapped3: bool,
)
    ensures
        ({
            let attempt = MmapAttempt {
                pages: first_pages(option, size, huge_only),
                no_reserve: !commit && first_pages(option, size, huge_only) is Normal };
            let (o1, s1) = step_after(option, attempt, mapped1, commit, huge_only);
            s1 matches MmapStep::Again(a2) ==> {
                let (o2, s2) = step_after(o1, a2, mapped2, commit, huge_only);
                s2 matches MmapStep::Again(a3) ==> !(step_after(
                    o2,
                    a3,
                    mapped3,
                    commit,
                    huge_only,
                ).1 is Again)
            }
        }),
{
}

/// A mapping that may be made of normal pages is never given up before they were tried, and one that
/// may not is never made of them. Memory that is to be used at once is always reserved.
pub proof fn law_mmap_tries_normal_pages(
    option: HugePageOption,
    attempt: MmapAttempt,
    mapped: bool,
    commit: bool,
    huge_only: bool,
)
    ensures
        ({
            let (left, step) = step_after(option, attempt, mapped, commit, huge_only);
            &&& mapped <==> step is Done
            &&& step is Failed ==> attempt.pages is Normal || huge_only
            &&& step matches MmapStep::Again(next) ==> {
                &&& next.pages != attempt.pages
                &&& huge_only ==> !(next.pages is Normal)
                &&& commit ==> !next.no_reserve
                &&& next.no_reserve ==> next.pages is Normal
            }
            &&& mapped ==> left == option
            &&& !mapped && !(attempt.pages is Normal) ==> !(left is Try1Gb)
        }),
{
}

// ---- aligned mappings ----

/// The part of a mapping that is kept, and what is cut off at both ends.
#[derive(Copy, Clone, Debug, PartialEq, Eq, Structural)]
pub struct AlignedMapping {
    pub ptr: usize,
    pub head: usize,
    pub tail: usize,
}

/// Finds the aligned block of `size` bytes in a mapping of `size + align - 1` bytes at `base`.
pub fn align_mapping(base: usize, size: usize, align: usize) -> (r: AlignedMapping)
    requires
        is_pow2(align as int),
        base + size + (align - 1) <= usize::MAX,
    ensures
        r.ptr % align == 0,
        r.ptr == base + r.head,
        0 <= r.head < align,
        r.head + r.tail == align - 1,
{
    proof {
        reveal_with_fuel(is_pow2, 2);
    }
    let over: usize = base % align;
    if over == 0 {
        return AlignedMapping { ptr: base, head: 0, tail: align - 1 };
    }
    let head: usize = align - over;
    let ptr: usize = base + head;
    assert(ptr as int % align as int == 0) by {
        vstd::arithmetic::div_mod::lemma_fundamental_div_mod(base as int, align as int);
        let q = base as int / align as int;
        assert(align * q + align == align * (q + 1)) by (nonlinear_arith);
        vstd::arithmetic::div_mod::lemma_fundamental_div_mod_converse(
            ptr as int,
            align as int,
            q + 1,
            0,
        );
    }
    AlignedMapping { ptr, head, tail: over - 1 }
}

// ---- the environment ----

/// What is to be done with memory.
#[derive(Copy, Clone, Debug, PartialEq, Eq, Structural)]
pub enum OsAction {
    /// Make the bytes readable and writable.
    Commit { ptr: usize, size: usize },
    /// Give the bytes back.
    Unmap { ptr: usize, size: usize },
    /// Give back what a mapping has beside the part that is kept.
    Trim { ptr: usize, size: usize },
}

/// A request that waits for an answer.
#[derive(Copy, Clone, Debug, PartialEq, Eq, Structural)]
pub struct Request {
    pub size: usize,
    pub commit: bool,
}

/// Who owns a chunk, and which vector its objects go back to.
#[derive(Copy, Clone, Debug, PartialEq, Eq, Structural)]
pub struct ChunkMetadata {
    /// The address of the owner's manager.
    pub non_local_ptr_manager: usize,
    pub offset_to_slot_in_table: OffsetToSlotInTable,
}

/// What all allocators of a process share.
#[derive(Clone, Debug)]
pub struct Environment {
    /// Bytes in a region.
    pub region_size: usize,
    pub limit: AllocationLimit,
    /// Mappings that the operating system made, as addresses and sizes; the address zero stands
    /// for a request that it turned down.
    pub replies: Vec<(usize, usize)>,
    /// How many of the replies are used up.
    pub used_replies: usize,
    /// The first request that found no reply.
    pub pending: Option<Request>,
    /// What is to be done, in this order.
    pub actions: Vec<OsAction>,
    /// The metadata of chunks, by the address where it is kept. What is absent is zeroed.
    pub metadata: HashMap<usize, ChunkMetadata>,
    /// Messages to deliver.
    pub outbox: Vec<Message>,
    /// The requests for memory that were turned down.
    pub refusals: Vec<Refusal>,
}

/// Whether regions may have the size: a power of two from one megabyte to 32 megabytes.
pub open spec fn is_region_size(size: int) -> bool {
    ||| size == 0x10_0000
    ||| size == 0x20_0000
    ||| size == 0x40_0000
    ||| size == 0x80_0000
    ||| size == 0x100_0000
    ||| size == 0x200_0000
}

/// One where the mapping covers the byte at `at`; a request that was turned down covers nothing.
pub open spec fn reply_covers(reply: (usize, usize), at: int) -> int {
    if reply.0 == 0 {
        0
    } else {
        covers(reply.0 as int, reply.1 as int, at)
    }
}

/// How many of the mappings from position `from` on cover the byte at `at`.
pub open spec fn replies_cover(replies: Seq<(usize, usize)>, from: int, at: int) -> int
    decreases replies.len() - from,
{
    if from < 0 || from >= replies.len() {
        0
    } else {
        reply_covers(replies[from], at) + replies_cover(replies, from + 1, at)
    }
}

/// The bytes of the mappings from position `from` up to position `to`.
pub open spec fn mapped(replies: Seq<(usize, usize)>, from: int, to: int) -> int
    decreases to - from,
{
    if from >= to {
        0
    } else {
        mapped(replies, from, to - 1) + replies[to - 1].1
    }
}

/// Whether a block that was counted has been given back meanwhile.
pub open spec fn gave_blocks(e0: Environment, e1: Environment) -> bool {
    exists|j: int|
        e0.actions@.len() <= j < e1.actions@.len() && (#[trigger] e1.actions@[j] matches OsAction::Unmap { size, .. }
            && size > LARGE_SIZE_MAX)
}

/// Whether the reply at position `i` is a mapping that a region can be taken from.
pub open spec fn reply_serves_region(
    replies: Seq<(usize, usize)>,
    region_size: usize,
    i: int,
) -> bool {
    &&& 0 <= i < replies.len()
    &&& replies[i].0 != 0
    &&& replies[i].1 == 2 * region_size - 1
    &&& replies[i].0 + replies[i].1 <= usize::MAX
}

/// Whether one environment comes after another, and the regions that were taken meanwhile are
/// counted.
#[verifier::opaque]
pub open spec fn follows(e0: Environment, e1: Environment) -> bool {
    &&& comes_after(e0, e1)
    &&& counts_regions(e0, e1)
}

/// The bytes of so many regions.
pub open spec fn region_bytes(size: usize, n: int) -> int {
    size * n
}

/// Whether what was mapped meanwhile is counted with at least the bytes of a region each, unless a
/// reply was no mapping for a region or went to another request, something was given back, or the
/// counter has overflowed.
pub open spec fn counts_regions(e0: Environment, e1: Environment) -> bool {
    let bytes = region_bytes(e0.region_size, e1.used_replies - e0.used_replies);
    ||| misused(e0, e1)
    ||| gave_blocks(e0, e1)
    ||| e0.limit.allocated + bytes <= e1.limit.allocated
    ||| e0.limit.allocated + mapped(
        e0.replies@,
        e0.used_replies as int,
        e1.used_replies as int,
    ) > usize::MAX
}

/// Whether one environment comes after another: replies are used up in their order, what is to be
/// done and what is sent is only appended to, a request that is pending stays so, and no more is counted than was mapped, unless something was given
/// back.
pub open spec fn comes_after(e0: Environment, e1: Environment) -> bool {
    &&& e1.replies == e0.replies
    &&& e1.region_size == e0.region_size
    &&& e0.used_replies <= e1.used_replies
    &&& e1.limit.limit == e0.limit.limit
    &&& e0.actions@.is_prefix_of(e1.actions@)
    &&& e0.refusals@.is_prefix_of(e1.refusals@)
    &&& e0.pending is Some ==> e1.pending == e0.pending
    &&& e0.outbox@.is_prefix_of(e1.outbox@)
    &&& e1.limit.allocated <= e0.limit.allocated + mapped(
        e0.replies@,
        e0.used_replies as int,
        e1.used_replies as int,
    ) || gave_blocks(e0, e1)
}

/// Whether a request is the one that is left pending where no reply was there for it and no other
/// request was pending.
pub open spec fn left_pending(
    e0: Environment,
    e1: Environment,
    size: int,
    commit: bool,
) -> bool {
    e0.unread() == 0 && e0.pending is None ==> e1.pending == Some(
        Request { size: size as usize, commit },
    )
}

/// Whether a byte can be read and written after things were done in their order: the last thing that
/// was done with it is that it was made so.
pub open spec fn is_writable(actions: Seq<OsAction>, at: int) -> bool
    decreases actions.len(),
{
    if actions.len() == 0 {
        false
    } else {
        match actions.last() {
            OsAction::Commit { ptr, size } => ptr <= at < ptr + size || is_writable(
                actions.drop_last(),
                at,
            ),
            OsAction::Unmap { ptr, size } => !(ptr <= at < ptr + size) && is_writable(
                actions.drop_last(),
                at,
            ),
            OsAction::Trim { ptr, size } => !(ptr <= at < ptr + size) && is_writable(
                actions.drop_last(),
                at,
            ),
        }
    }
}

/// Whether a reply was too small for a request other than one for a region.
pub open spec fn missed_great_block(e0: Environment, e1: Environment) -> bool {
    &&& e0.used_replies < e1.used_replies
    &&& exists|j: int|
        e0.refusals@.len() <= j < e1.refusals@.len() && (#[trigger] e1.refusals@[j] matches Refusal::Os(size)
            && size != 2 * e1.region_size - 1)
}

/// Whether the operating system did not map enough: all replies are used up, or one of them did not
/// serve the request that it went to.
pub open spec fn starved(e0: Environment, e1: Environment) -> bool {
    ||| e1.used_replies == e1.replies@.len()
    ||| misused(e0, e1)
}

/// Whether one of the replies that were used up was no mapping for a region, or a great block was
/// asked for and not mapped.
pub open spec fn misused(e0: Environment, e1: Environment) -> bool {
    ||| exists|i: int|
        e0.used_replies <= i < e1.used_replies && !(#[trigger] reply_serves_region(
            e1.replies@,
            e1.region_size,
            i,
        ))
    ||| missed_great_block(e0, e1)
}

/// Whether the operating system has turned a request down meanwhile, or left it pending.
pub open spec fn refused_by_os(e0: Environment, e1: Environment) -> bool {
    &&& exists|j: int|
        e0.refusals@.len() <= j < e1.refusals@.len() && (#[trigger] e1.refusals@[j]) is Os
    &&& starved(e0, e1)
    &&& misused(e0, e1) || e1.pending is Some
}

/// Whether a request was turned down meanwhile for whose bytes the limit has no room beside what
/// was mapped.
pub open spec fn refused_by_limit(e0: Environment, e1: Environment) -> bool {
    exists|j: int|
        e0.refusals@.len() <= j < e1.refusals@.len() && (#[trigger] e1.refusals@[j] matches Refusal::Limit(size)
            && e0.limit.allocated + mapped(
            e0.replies@,
            e0.used_replies as int,
            e1.used_replies as int,
        ) + size > e0.limit.limit)
}

/// Whether a request for memory was turned down between one environment and another: the operating
/// system did not map enough, or the limit has no room for what was asked for. What the limit has
/// room for is not known where a block was given back meanwhile.
#[verifier::opaque]
pub open spec fn short(e0: Environment, e1: Environment) -> bool {
    ||| refused_by_os(e0, e1)
    ||| refused_by_limit(e0, e1)
    ||| gave_blocks(e0, e1) && e0.refusals@.len() < e1.refusals@.len()
}

/// Whether the environment shows that a block other than a region was asked for or given back since
/// so many replies were used up, requests refused and things to be done.
pub open spec fn traded_since(env: Environment, used: int, refused: int, acted: int) -> bool {
    ||| exists|i: int|
        used <= i < env.used_replies && !(#[trigger] reply_serves_region(
            env.replies@,
            env.region_size,
            i,
        ))
    ||| exists|j: int|
        refused <= j < env.refusals@.len() && (#[trigger] env.refusals@[j] matches Refusal::Os(size)
            && size != 2 * env.region_size - 1)
    ||| exists|k: int|
        acted <= k < env.actions@.len() && (#[trigger] env.actions@[k] matches OsAction::Unmap { size, .. }
            && size > LARGE_SIZE_MAX)
}

/// Whether a block other than a region was asked for or given back between one environment and
/// another.
#[verifier::opaque]
pub open spec fn traded(e0: Environment, e1: Environment) -> bool {
    traded_since(
        e1,
        e0.used_replies as int,
        e0.refusals@.len() as int,
        e0.actions@.len() as int,
    )
}

/// What was traded stays so.
pub proof fn lemma_traded(e0: Environment, e1: Environment, e2: Environment)
    requires
        follows(e0, e1),
        follows(e1, e2),
    ensures
        traded(e0, e1) || traded(e1, e2) ==> traded(e0, e2),
{
    reveal(follows);
    reveal(traded);
    if traded(e0, e1) {
        if exists|i: int|
            e0.used_replies <= i < e1.used_replies && !(#[trigger] reply_serves_region(
                e1.replies@,
                e1.region_size,
                i,
            )) {
            let i = choose|i: int|
                e0.used_replies <= i < e1.used_replies && !(#[trigger] reply_serves_region(
                    e1.replies@,
                    e1.region_size,
                    i,
                ));
            assert(!reply_serves_region(e2.replies@, e2.region_size, i));
        } else if exists|j: int|
            e0.refusals@.len() <= j < e1.refusals@.len() && (#[trigger] e1.refusals@[j] matches Refusal::Os(size)
                && size != 2 * e1.region_size - 1) {
            let j = choose|j: int|
                e0.refusals@.len() <= j < e1.refusals@.len() && (#[trigger] e1.refusals@[j] matches Refusal::Os(size)
                    && size != 2 * e1.region_size - 1);
            assert(e2.refusals@[j] == e1.refusals@[j]);
        } else {
            let k = choose|k: int|
                e0.actions@.len() <= k < e1.actions@.len() && (#[trigger] e1.actions@[k] matches OsAction::Unmap { size, .. }
                    && size > LARGE_SIZE_MAX);
            assert(e2.actions@[k] == e1.actions@[k]);
        }
    }
}

/// The bytes of mappings add up.
pub proof fn lemma_mapped(replies: Seq<(usize, usize)>, from: int, middle: int, to: int)
    requires
        from <= middle <= to,
    ensures
        mapped(replies, from, to) == mapped(replies, from, middle) + mapped(replies, middle, to),
        0 <= mapped(replies, from, middle),
        0 <= mapped(replies, middle, to),
    decreases to - from,
{
    if middle < to {
        lemma_mapped(replies, from, middle, to - 1);
    } else if from < middle {
        lemma_mapped(replies, from, middle - 1, to - 1);
        assert(mapped(replies, from, middle) == mapped(replies, from, middle - 1) + replies[middle - 1].1);
    }
}

/// Whether the operating system mapped enough does not rest on the limit.
pub proof fn lemma_starved(e0: Environment, e1: Environment, f0: Environment, f1: Environment)
    requires
        starved(e0, e1),
        f0 == (Environment { limit: f0.limit, ..e0 }),
        f1 == (Environment { limit: f1.limit, ..e1 }),
    ensures
        starved(f0, f1),
        misused(e0, e1) ==> misused(f0, f1),
{
    if missed_great_block(e0, e1) {
        let j = choose|j: int|
            e0.refusals@.len() <= j < e1.refusals@.len() && (#[trigger] e1.refusals@[j] matches Refusal::Os(size)
                && size != 2 * e1.region_size - 1);
        assert(f1.refusals@[j] == e1.refusals@[j]);
        assert(missed_great_block(f0, f1));
    } else if misused(e0, e1) {
        let i = choose|i: int|
            e0.used_replies <= i < e1.used_replies && !(#[trigger] reply_serves_region(
                e1.replies@,
                e1.region_size,
                i,
            ));
        assert(f0.used_replies <= i < f1.used_replies);
        assert(!reply_serves_region(f1.replies@, f1.region_size, i));
    }
}

/// An environment comes after itself.
pub proof fn lemma_follows_itself(env: Environment)
    ensures
        follows(env, env),
{
    reveal(follows);
    lemma_region_bytes(env.region_size, 0, 0);
}

/// An environment that comes after one that comes after another.
pub proof fn lemma_follows(e0: Environment, e1: Environment, e2: Environment)
    requires
        follows(e0, e1),
        follows(e1, e2),
    ensures
        follows(e0, e2),
        short(e0, e1) && e2.used_replies <= e2.replies@.len() ==> short(e0, e2),
        short(e1, e2) ==> short(e0, e2),
{
    reveal(follows);
    reveal(short);
    lemma_mapped(
        e0.replies@,
        e0.used_replies as int,
        e1.used_replies as int,
        e2.used_replies as int,
    );
    assert(gave_blocks(e0, e1) ==> gave_blocks(e0, e2)) by {
        if gave_blocks(e0, e1) {
            let j = choose|j: int|
                e0.actions@.len() <= j < e1.actions@.len() && (#[trigger] e1.actions@[j] matches OsAction::Unmap { size, .. }
                    && size > LARGE_SIZE_MAX);
            assert(e2.actions@[j] == e1.actions@[j]);
        }
    }
    assert(gave_blocks(e1, e2) ==> gave_blocks(e0, e2));
    assert(missed_great_block(e0, e1) ==> missed_great_block(e0, e2)) by {
        if missed_great_block(e0, e1) {
            let j = choose|j: int|
                e0.refusals@.len() <= j < e1.refusals@.len() && (#[trigger] e1.refusals@[j] matches Refusal::Os(size)
                    && size != 2 * e1.region_size - 1);
            assert(e2.refusals@[j] == e1.refusals@[j]);
        }
    }
    assert(missed_great_block(e1, e2) ==> missed_great_block(e0, e2));
    assert(misused(e0, e1) ==> misused(e0, e2)) by {
        if misused(e0, e1) && !missed_great_block(e0, e1) {
            let i = choose|i: int|
                e0.used_replies <= i < e1.used_replies && !(#[trigger] reply_serves_region(
                    e1.replies@,
                    e1.region_size,
                    i,
                ));
            assert(!reply_serves_region(e2.replies@, e2.region_size, i));
        }
    }
    assert(misused(e1, e2) ==> misused(e0, e2)) by {
        if misused(e1, e2) && !missed_great_block(e1, e2) {
            let i = choose|i: int|
                e1.used_replies <= i < e2.used_replies && !(#[trigger] reply_serves_region(
                    e2.replies@,
                    e2.region_size,
                    i,
                ));
            assert(e0.used_replies <= i);
        }
    }
    lemma_region_bytes(
        e0.region_size,
        e1.used_replies - e0.used_replies,
        e2.used_replies - e1.used_replies,
    );
    assert(e1.used_replies - e0.used_replies + (e2.used_replies - e1.used_replies)
        == e2.used_replies - e0.used_replies);
    assert(counts_regions(e0, e2));
    assert(comes_after(e0, e2));
    if refused_by_os(e0, e1) {
        let j = choose|j: int|
            e0.refusals@.len() <= j < e1.refusals@.len() && (#[trigger] e1.refusals@[j]) is Os;
        assert(e2.refusals@[j] == e1.refusals@[j]);
    }
    if refused_by_os(e1, e2) {
        let j = choose|j: int|
            e1.refusals@.len() <= j < e2.refusals@.len() && (#[trigger] e2.refusals@[j]) is Os;
        assert(e0.refusals@.len() <= j);
    }
    if refused_by_limit(e0, e1) {
        let j = choose|j: int|
            e0.refusals@.len() <= j < e1.refusals@.len() && (#[trigger] e1.refusals@[j] matches Refusal::Limit(size)
                && e0.limit.allocated + mapped(
                e0.replies@,
                e0.used_replies as int,
                e1.used_replies as int,
            ) + size > e0.limit.limit);
        assert(e2.refusals@[j] == e1.refusals@[j]);
    }
    if refused_by_limit(e1, e2) {
        let j = choose|j: int|
            e1.refusals@.len() <= j < e2.refusals@.len() && (#[trigger] e2.refusals@[j] matches Refusal::Limit(size)
                && e1.limit.allocated + mapped(
                e1.replies@,
                e1.used_replies as int,
                e2.used_replies as int,
            ) + size > e1.limit.limit);
        assert(e0.refusals@.len() <= j);
    }
}

/// The bytes of regions add up.
pub proof fn lemma_region_bytes(size: usize, first: int, second: int)
    requires
        0 <= first,
        0 <= second,
    ensures
        region_bytes(size, first + second) == region_bytes(size, first) + region_bytes(
            size,
            second,
        ),
        0 <= region_bytes(size, first),
        0 <= region_bytes(size, second),
        region_bytes(size, 0) == 0,
        region_bytes(size, 1) == size,
{
    assert(size * (first + second) == size * first + size * second && 0 <= size * first && 0
        <= size * second) by (nonlinear_arith)
        requires
            0 <= first,
            0 <= second,
            0 <= size,
    ;
}

impl Environment {
    /// An environment with regions of `region_size` bytes, without a limit, in which nothing has
    /// happened.
    pub fn new(region_size: usize) -> (r: Environment)
        requires
            is_region_size(region_size as int),
        ensures
            r.wf(),
            r.region_size == region_size,
            r.limit.limit == usize::MAX,
            r.limit.allocated == 0,
            r.replies@.len() == 0,
            r.used_replies == 0,
            r.pending is None,
            r.actions@.len() == 0,
            r.metadata@ == Map::<usize, ChunkMetadata>::empty(),
            r.outbox@.len() == 0,
            r.refusals@.len() == 0,
    {
        broadcast use vstd::std_specs::hash::group_hash_axioms;

        Environment {
            region_size,
            limit: AllocationLimit::new(),
            replies: Vec::new(),
            used_replies: 0,
            pending: None,
            actions: Vec::new(),
            metadata: HashMap::new(),
            outbox: Vec::new(),
            refusals: Vec::new(),
        }
    }

    /// Whether the environment is sound.
    pub open spec fn wf(self) -> bool {
        &&& is_region_size(self.region_size as int)
        &&& self.used_replies <= self.replies@.len()
        &&& forall|key: usize| #[trigger]
            self.metadata@.contains_key(key)
                ==> self.metadata@[key].offset_to_slot_in_table.is_valid()
    }

    /// How many replies are not used up.
    pub open spec fn unread(self) -> int {
        self.replies@.len() - self.used_replies
    }

    /// How many of the mappings that are not used up cover the byte at `at`.
    pub open spec fn pool(self, at: int) -> int {
        replies_cover(self.replies@, self.used_replies as int, at)
    }

    /// Whether two environments agree on everything that a request for memory leaves alone.
    pub open spec fn same_but_memory(self, other: Environment) -> bool {
        &&& self.region_size == other.region_size
        &&& self.replies == other.replies
        &&& self.outbox == other.outbox
    }

    /// Appends the answer to a request.
    pub fn add_reply(&mut self, ptr: usize, size: usize)
        requires
            old(self).wf(),
        ensures
            final(self).wf(),
            final(self).replies@ == old(self).replies@.push((ptr, size)),
            final(self).pending is None,
            final(self).region_size == old(self).region_size,
            final(self).limit == old(self).limit,
            final(self).used_replies == old(self).used_replies,
            final(self).actions == old(self).actions,
            final(self).metadata == old(self).metadata,
            final(self).outbox == old(self).outbox,
            final(self).refusals == old(self).refusals,
    {
        self.replies.push((ptr, size));
        self.pending = None;
    }

    /// Asks for a mapping of `size` bytes. The answer is the next reply; where there is none, the
    /// request is left pending.
    pub fn alloc_from_os(&mut self, size: usize, commit: bool) -> (r: Option<usize>)
        requires
            old(self).wf(),
        ensures
            final(self).wf(),
            final(self).same_but_memory(*old(self)),
            final(self).limit == old(self).limit,
            final(self).actions == old(self).actions,
            final(self).metadata == old(self).metadata,
            old(self).unread() > 0 ==> final(self).used_replies == old(self).used_replies + 1,
            old(self).unread() > 0 ==> final(self).pending == old(self).pending,
            old(self).unread() == 0 ==> final(self).used_replies == old(self).used_replies,
            comes_after(*old(self), *final(self)),
            r is None ==> starved(*old(self), *final(self)) && short(*old(self), *final(self)),
            r is None ==> misused(*old(self), *final(self)) || final(self).used_replies
                == old(self).used_replies && final(self).pending is Some,
            old(self).unread() == 0 && old(self).pending is None ==> final(self).pending == Some(
                Request { size, commit },
            ),
            old(self).pending is Some ==> final(self).pending == old(self).pending,
            r is Some <==> old(self).unread() > 0 && {
                let reply = old(self).replies@[old(self).used_replies as int];
                reply.0 != 0 && reply.1 == size && reply.0 + size <= usize::MAX
            },
            match r {
                Some(ptr) => {
                    &&& ptr == old(self).replies@[old(self).used_replies as int].0
                    &&& ptr > 0
                    &&& ptr + size <= usize::MAX
                    &&& final(self).refusals == old(self).refusals
                    &&& forall|at: int| #[trigger]
                        final(self).pool(at) + covers(ptr as int, size as int, at) == old(self).pool(at)
                },
                None => {
                    &&& final(self).refusals@ == old(self).refusals@.push(Refusal::Os(size))
                    &&& forall|at: int| #[trigger] final(self).pool(at) <= old(self).pool(at)
                },
            },
    {
        proof {
            reveal(short);
        }
        if self.used_replies < self.replies.len() {
            let reply = self.replies[self.used_replies];
            self.used_replies = self.used_replies + 1;
            proof {
                let used = old(self).used_replies as int;
                lemma_mapped(self.replies@, used, used, used + 1);
            }
            assert(forall|at: int| #[trigger]
                self.pool(at) + reply_covers(reply, at) == old(self).pool(at));
            if reply.0 != 0 && reply.1 == size && size <= usize::MAX - reply.0 {
                return Some(reply.0);
            }
        } else if self.pending.is_none() {
            self.pending = Some(Request { size, commit });
        }
        self.refusals.push(Refusal::Os(size));
        proof {
            assert(self.refusals@[old(self).refusals@.len() as int] is Os);
            if self.used_replies > old(self).used_replies {
                if size == 2 * self.region_size - 1 {
                    assert(!reply_serves_region(self.replies@, self.region_size, old(self).used_replies as int));
                } else {
                    let j = old(self).refusals@.len() as int;
                    assert(self.refusals@[j] == Refusal::Os(size));
                    assert(missed_great_block(*old(self), *self));
                }
            }
        }
        None
    }

    /// Asks for `size` bytes at a multiple of `align`: a greater mapping is asked for, the aligned
    /// part is committed where asked for, and the rest is given back.
    pub fn alloc_aligned_from_os(
        &mut self,
        size: usize,
        commit: bool,
        align: usize,
    ) -> (r: Option<usize>)
        requires
            old(self).wf(),
            is_pow2(align as int),
            size + (align - 1) <= usize::MAX,
        ensures
            final(self).wf(),
            final(self).same_but_memory(*old(self)),
            final(self).limit == old(self).limit,
            final(self).metadata == old(self).metadata,
            r is Some <==> old(self).unread() > 0 && {
                let reply = old(self).replies@[old(self).used_replies as int];
                &&& reply.0 != 0
                &&& reply.1 == size + (align - 1)
                &&& reply.0 + reply.1 <= usize::MAX
            },
            old(self).unread() > 0 ==> final(self).used_replies == old(self).used_replies + 1,
            old(self).unread() == 0 ==> final(self).used_replies == old(self).used_replies,
            comes_after(*old(self), *final(self)),
            r is None ==> short(*old(self), *final(self)),
            left_pending(*old(self), *final(self), size + (align - 1), false),
            old(self).unread() > 0 ==> final(self).pending == old(self).pending,
            match r {
                Some(ptr) => {
                    let base = old(self).replies@[old(self).used_replies as int].0;
                    &&& ptr % align == 0
                    &&& base <= ptr < base + align
                    &&& ptr > 0
                    &&& ptr + size <= usize::MAX
                    &&& final(self).refusals == old(self).refusals
                    &&& final(self).actions@ == old(self).actions@ + aligned_actions(
                        base as int,
                        ptr as int,
                        size as int,
                        align as int,
                        commit,
                    )
                    &&& forall|at: int| #[trigger]
                        final(self).pool(at) + covers(ptr as int, size as int, at) <= old(self).pool(at)
                },
                None => {
                    &&& final(self).actions == old(self).actions
                    &&& final(self).refusals@ == old(self).refusals@.push(
                        Refusal::Os((size + (align - 1)) as usize),
                    )
                    &&& forall|at: int| #[trigger] final(self).pool(at) <= old(self).pool(at)
                },
            },
    {
        proof {
            reveal_with_fuel(is_pow2, 2);
        }
        let alloc_size: usize = size + (align - 1);
        let base: usize = match self.alloc_from_os(alloc_size, false) {
            Some(base) => base,
            None => {
                return None;
            },
        };
        let mapping = align_mapping(base, size, align);
        if commit {
            self.actions.push(OsAction::Commit { ptr: mapping.ptr, size });
        }
        if mapping.head > 0 {
            self.actions.push(OsAction::Trim { ptr: base, size: mapping.head });
        }
        if mapping.tail > 0 {
            self.actions.push(OsAction::Trim { ptr: mapping.ptr + size, size: mapping.tail });
        }
        assert(self.actions@ =~= old(self).actions@ + aligned_actions(
            base as int,
            mapping.ptr as int,
            size as int,
            align as int,
            commit,
        ));
        Some(mapping.ptr)
    }

    /// Gives `size` bytes back.
    pub fn free(&mut self, ptr: usize, size: usize)
        requires
            old(self).wf(),
        ensures
            final(self).wf(),
            final(self).actions@ == old(self).actions@.push(OsAction::Unmap { ptr, size }),
            final(self).same_but_memory(*old(self)),
            final(self).limit == old(self).limit,
            final(self).metadata == old(self).metadata,
            final(self).used_replies == old(self).used_replies,
            final(self).pending == old(self).pending,
            final(self).refusals == old(self).refusals,
    {
        self.actions.push(OsAction::Unmap { ptr, size });
    }
}

/// What is done with a mapping at `base` of which the block of `size` bytes at `ptr` is kept.
pub open spec fn aligned_actions(
    base: int,
    ptr: int,
    size: int,
    align: int,
    commit: bool,
) -> Seq<OsAction> {
    let kept = if commit {
        seq![OsAction::Commit { ptr: ptr as usize, size: size as usize }]
    } else {
        Seq::empty()
    };
    let head = if ptr > base {
        seq![OsAction::Trim { ptr: base as usize, size: (ptr - base) as usize }]
    } else {
        Seq::empty()
    };
    let tail = if ptr - base < align - 1 {
        seq![
            OsAction::Trim {
                ptr: (ptr + size) as usize,
                size: (align - 1 - (ptr - base)) as usize,
            },
        ]
    } else {
        Seq::empty()
    };
    kept + head + tail
}

} // verus!
