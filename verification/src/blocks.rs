//! How often a byte is covered by blocks of memory.
//!
//! The allocator's bookkeeping is a collection of blocks: objects that wait in vectors, chunks
//! that are not carved yet, buffers of its own vectors. That no two of them overlap is stated by
//! counting, for a byte, the blocks that cover it.
use vstd::prelude::*;

verus! {

/// One where the block of `size` bytes at `ptr` covers the byte at `at`, zero elsewhere.
pub open spec fn covers(ptr: int, size: int, at: int) -> int {
    if ptr <= at < ptr + size {
        1
    } else {
        0
    }
}

/// How many of the blocks of `size` bytes at the given addresses cover the byte at `at`.
pub open spec fn blocks_cover(ptrs: Seq<usize>, size: int, at: int) -> int
    decreases ptrs.len(),
{
    if ptrs.len() == 0 {
        0
    } else {
        blocks_cover(ptrs.drop_last(), size, at) + covers(ptrs.last() as int, size, at)
    }
}

pub proof fn lemma_blocks_cover_push(ptrs: Seq<usize>, ptr: usize, size: int, at: int)
    ensures
        blocks_cover(ptrs.push(ptr), size, at) == blocks_cover(ptrs, size, at) + covers(
            ptr as int,
            size,
            at,
        ),
{
    assert(ptrs.push(ptr).drop_last() =~= ptrs);
}

pub proof fn lemma_blocks_cover_nonnegative(ptrs: Seq<usize>, size: int, at: int)
    ensures
        blocks_cover(ptrs, size, at) >= 0,
    decreases ptrs.len(),
{
    if ptrs.len() > 0 {
        lemma_blocks_cover_nonnegative(ptrs.drop_last(), size, at);
    }
}

pub proof fn lemma_blocks_cover_add(left: Seq<usize>, right: Seq<usize>, size: int, at: int)
    ensures
        blocks_cover(left + right, size, at) == blocks_cover(left, size, at) + blocks_cover(
            right,
            size,
            at,
        ),
    decreases right.len(),
{
    if right.len() == 0 {
        assert(left + right =~= left);
    } else {
        assert((left + right).drop_last() =~= left + right.drop_last());
        lemma_blocks_cover_add(left, right.drop_last(), size, at);
    }
}

/// The addresses of `n` adjacent blocks of `size` bytes, the first one at `start`.
pub open spec fn run_of_blocks(start: int, size: int, n: int) -> Seq<usize> {
    Seq::new(n as nat, |i: int| (start + i * size) as usize)
}

/// A run of adjacent blocks covers what one block of the whole length covers.
pub proof fn lemma_run_of_blocks(start: int, size: int, n: int, at: int)
    requires
        0 <= n,
        0 <= start,
        0 <= size,
        start + n * size <= usize::MAX,
    ensures
        blocks_cover(run_of_blocks(start, size, n), size, at) == covers(start, n * size, at),
    decreases n,
{
    if n > 0 {
        assert((n - 1) * size == n * size - size) by (nonlinear_arith);
        assert((n - 1) * size >= 0) by (nonlinear_arith)
            requires
                n > 0,
                size >= 0,
        ;
        lemma_run_of_blocks(start, size, n - 1, at);
        let run = run_of_blocks(start, size, n);
        assert(run.drop_last() =~= run_of_blocks(start, size, n - 1));
        assert(run.last() == start + (n - 1) * size);
    } else {
        assert(0 * size == 0);
    }
}

/// A chunk of memory: its address, the size of the objects that it is carved into, and the number
/// of its objects that are not handed out. The last two are zero while the chunk is not carved.
pub type Chunk = (usize, usize, usize);

/// How many of the chunks of `size` bytes cover the byte at `at`.
pub open spec fn chunks_cover(chunks: Seq<Chunk>, size: int, at: int) -> int
    decreases chunks.len(),
{
    if chunks.len() == 0 {
        0
    } else {
        chunks_cover(chunks.drop_last(), size, at) + covers(chunks.last().0 as int, size, at)
    }
}

/// How many of the carved chunks still hold the byte at `at` in an object that is not handed out.
pub open spec fn rests_cover(chunks: Seq<Chunk>, at: int) -> int
    decreases chunks.len(),
{
    if chunks.len() == 0 {
        0
    } else {
        rests_cover(chunks.drop_last(), at) + covers(
            chunks.last().0 as int,
            chunks.last().1 * chunks.last().2,
            at,
        )
    }
}

pub proof fn lemma_rests_cover_push(chunks: Seq<Chunk>, chunk: Chunk, at: int)
    ensures
        rests_cover(chunks.push(chunk), at) == rests_cover(chunks, at) + covers(
            chunk.0 as int,
            chunk.1 * chunk.2,
            at,
        ),
{
    assert(chunks.push(chunk).drop_last() =~= chunks);
}

pub proof fn lemma_rests_cover_update(chunks: Seq<Chunk>, i: int, chunk: Chunk, at: int)
    requires
        0 <= i < chunks.len(),
    ensures
        rests_cover(chunks.update(i, chunk), at) == rests_cover(chunks, at) + covers(
            chunk.0 as int,
            chunk.1 * chunk.2,
            at,
        ) - covers(chunks[i].0 as int, chunks[i].1 * chunks[i].2, at),
    decreases chunks.len(),
{
    if i == chunks.len() - 1 {
        assert(chunks.update(i, chunk).drop_last() =~= chunks.drop_last());
    } else {
        assert(chunks.update(i, chunk).drop_last() =~= chunks.drop_last().update(i, chunk));
        lemma_rests_cover_update(chunks.drop_last(), i, chunk, at);
    }
}

pub proof fn lemma_chunks_cover_nonnegative(chunks: Seq<Chunk>, size: int, at: int)
    ensures
        chunks_cover(chunks, size, at) >= 0,
        rests_cover(chunks, at) >= 0,
    decreases chunks.len(),
{
    if chunks.len() > 0 {
        lemma_chunks_cover_nonnegative(chunks.drop_last(), size, at);
    }
}

/// The addresses of chunks.
pub open spec fn addresses(chunks: Seq<Chunk>) -> Seq<usize> {
    Seq::new(chunks.len(), |i: int| chunks[i].0)
}

pub proof fn lemma_addresses_cover(chunks: Seq<Chunk>, size: int, at: int)
    ensures
        blocks_cover(addresses(chunks), size, at) == chunks_cover(chunks, size, at),
    decreases chunks.len(),
{
    if chunks.len() > 0 {
        assert(addresses(chunks).drop_last() =~= addresses(chunks.drop_last()));
        lemma_addresses_cover(chunks.drop_last(), size, at);
    }
}

} // verus!
