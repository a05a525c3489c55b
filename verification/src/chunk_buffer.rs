//! The fixed-capacity buffers of chunks that a state is made of, and of addresses to give back.
//!
//! The buffers are those of `orengine-utils`. Nothing in this file is proved: each function makes
//! one call into that crate, and its contract says what the call does.
use crate::blocks::Chunk;
use orengine_utils::ArrayBuffer;
use vstd::prelude::*;

verus! {

/// `orengine_utils::ArrayBuffer`: a fixed-capacity buffer on the stack.
#[verifier::external_type_specification]
#[verifier::external_body]
#[verifier::reject_recursive_types(T)]
pub struct ExArrayBuffer<T, const N: usize>(orengine_utils::ArrayBuffer<T, N>);

/// The greatest number of chunks in a buffer: the common chunks of the greatest region.
pub const BUFFER_CAPACITY: usize = 511;

/// A buffer of chunks.
pub type ChunkBuffer = ArrayBuffer<(usize, usize, usize), 511>;

/// The chunks in a buffer, in the order in which they were pushed.
pub uninterp spec fn chunks_in(buffer: ChunkBuffer) -> Seq<(usize, usize, usize)>;

/// `ArrayBuffer::new`: an empty buffer.
#[verifier::external_body]
pub(crate) fn buffer_new() -> (r: ChunkBuffer)
    ensures
        chunks_in(r) == Seq::<Chunk>::empty(),
{
    ArrayBuffer::new()
}

/// `ArrayBuffer::len`: the number of elements, which never exceeds the capacity.
#[verifier::external_body]
pub(crate) fn buffer_len(buffer: &ChunkBuffer) -> (r: usize)
    ensures
        r == chunks_in(*buffer).len(),
        r <= BUFFER_CAPACITY,
{
    buffer.len()
}

/// `ArrayBuffer::push`: appends an element, or hands it back where the buffer is full.
#[verifier::external_body]
pub(crate) fn buffer_push(buffer: &mut ChunkBuffer, chunk: Chunk) -> (r: Result<(), Chunk>)
    ensures
        chunks_in(*old(buffer)).len() < BUFFER_CAPACITY ==> r is Ok && chunks_in(*final(buffer))
            == chunks_in(*old(buffer)).push(chunk),
        chunks_in(*old(buffer)).len() >= BUFFER_CAPACITY ==> r is Err && r->Err_0 == chunk
            && chunks_in(*final(buffer)) == chunks_in(*old(buffer)),
{
    buffer.push(chunk)
}

/// `ArrayBuffer::pop`: takes the last element, if there is one.
#[verifier::external_body]
pub(crate) fn buffer_pop(buffer: &mut ChunkBuffer) -> (r: Option<Chunk>)
    ensures
        chunks_in(*old(buffer)).len() == 0 ==> r is None && chunks_in(*final(buffer)) == chunks_in(
            *old(buffer),
        ),
        chunks_in(*old(buffer)).len() > 0 ==> r == Some(chunks_in(*old(buffer)).last())
            && chunks_in(*final(buffer)) == chunks_in(*old(buffer)).drop_last(),
{
    buffer.pop()
}

/// `ArrayBuffer::deref` and an index: reads the element at `i`.
#[verifier::external_body]
pub(crate) fn buffer_get(buffer: &ChunkBuffer, i: usize) -> (r: Chunk)
    requires
        i < chunks_in(*buffer).len(),
    ensures
        r == chunks_in(*buffer)[i as int],
{
    buffer[i]
}

/// `ArrayBuffer::deref_mut` and an index: overwrites the element at `i`.
#[verifier::external_body]
pub(crate) fn buffer_set(buffer: &mut ChunkBuffer, i: usize, chunk: Chunk)
    requires
        i < chunks_in(*old(buffer)).len(),
    ensures
        chunks_in(*final(buffer)) == chunks_in(*old(buffer)).update(i as int, chunk),
{
    buffer[i] = chunk;
}

/// The greatest number of addresses in a buffer of them.
pub const PTR_BUFFER_CAPACITY: usize = 8;

/// A buffer of addresses.
pub type PtrBuffer = ArrayBuffer<usize, 8>;

/// The addresses in a buffer, in the order in which they were pushed.
pub uninterp spec fn ptrs_in(buffer: PtrBuffer) -> Seq<usize>;

/// `ArrayBuffer::new`: an empty buffer of addresses.
#[verifier::external_body]
pub(crate) fn ptrs_new() -> (r: PtrBuffer)
    ensures
        ptrs_in(r) == Seq::<usize>::empty(),
{
    ArrayBuffer::new()
}

/// `ArrayBuffer::len`: the number of addresses, which never exceeds the capacity.
#[verifier::external_body]
pub(crate) fn ptrs_len(buffer: &PtrBuffer) -> (r: usize)
    ensures
        r == ptrs_in(*buffer).len(),
        r <= PTR_BUFFER_CAPACITY,
{
    buffer.len()
}

/// `ArrayBuffer::push`: appends an address, or hands it back where the buffer is full.
#[verifier::external_body]
pub(crate) fn ptrs_push(buffer: &mut PtrBuffer, ptr: usize) -> (r: Result<(), usize>)
    ensures
        ptrs_in(*old(buffer)).len() < PTR_BUFFER_CAPACITY ==> r is Ok && ptrs_in(*final(buffer))
            == ptrs_in(*old(buffer)).push(ptr),
        ptrs_in(*old(buffer)).len() >= PTR_BUFFER_CAPACITY ==> r is Err && r->Err_0 == ptr
            && ptrs_in(*final(buffer)) == ptrs_in(*old(buffer)),
{
    buffer.push(ptr)
}

/// `ArrayBuffer::deref` and an index: reads the address at `i`.
#[verifier::external_body]
pub(crate) fn ptrs_get(buffer: &PtrBuffer, i: usize) -> (r: usize)
    requires
        i < ptrs_in(*buffer).len(),
    ensures
        r == ptrs_in(*buffer)[i as int],
{
    buffer[i]
}

} // verus!
