//! Why an operation could not be finished.
use vstd::prelude::*;

verus! {

/// A request for memory that was turned down.
#[derive(Copy, Clone, Debug, PartialEq, Eq, Structural)]
pub enum Refusal {
    /// The limit on the memory taken from the operating system left no room for so many bytes.
    Limit(usize),
    /// The operating system did not map so many bytes.
    Os(usize),
}

/// A failure after which the allocator cannot go on: memory that only the interrupted operation
/// knew of is lost. Callers are expected to panic with [`PanicCause::message`].
#[derive(Copy, Clone, Debug, PartialEq, Eq, Structural)]
pub enum PanicCause {
    /// No memory for the caller's request.
    OutOfMemory,
    /// No region for the first allocation of an allocator.
    FirstAllocation,
    /// No memory for the manager of pointers of other threads.
    Manager,
    /// No memory for the table of common chunks.
    CommonChunkTable,
    /// No memory for the table of large chunks.
    LargeChunkTable,
    /// No room in a vector of free objects while a state was committed.
    ObjectVector,
    /// No room in a vector of common chunks while a state was committed.
    CommonChunks,
    /// No room in a vector of large chunks while a state was committed.
    LargeChunks,
    /// No room in the vector of regions.
    Regions,
    /// No room in the vector of free large chunks.
    FreeLargeChunks,
    /// No room in the vector of free common chunks.
    FreeCommonChunks,
    /// No room to take a pointer back.
    ReturnedPointer,
    /// No memory for the allocator's own bookkeeping.
    InternalUsage,
    /// No memory for the count of an extra large size.
    SizeCount,
    /// No memory for the list of regions that are given back.
    RegionList,
    /// A chain of states grew beyond its bound.
    TooManyStates,
    /// A vector grew beyond the greatest capacity.
    CapacityOverflow,
    /// A pointer does not belong to a chunk of any allocator.
    MissingMetadata,
}

impl PanicCause {
    /// Whether the failure may come without a refused request for memory.
    pub open spec fn is_bound(self) -> bool {
        self is TooManyStates || self is CapacityOverflow || self is MissingMetadata
    }

    /// What to panic with.
    pub fn message(&self) -> (r: &'static str)
        ensures
            *self is OutOfMemory ==> r@ == "Failed to allocate memory"@,
            *self is FirstAllocation ==> r@ == "Failed to allocate memory for the first allocation."@,
            *self is Manager ==> r@ == "Failed to allocate `returning_local_ptr_handler`."@,
            *self is CommonChunkTable ==> r@ == "Failed to allocate `common_chunk_table`."@,
            *self is LargeChunkTable ==> r@ == "Failed to allocate `common_chunk_table`."@,
            *self is ObjectVector ==> r@ == "Failed to allocate an object table, a memory leak occurred"@,
            *self is CommonChunks ==> r@ == "Failed to allocate a common chunk table, a memory leak occurred"@,
            *self is LargeChunks ==> r@ == "Failed to allocate a large chunk table, a memory leak occurred"@,
            *self is Regions ==> r@ == "Failed to reserve a slot for region in `ChunkManager::prepare_to_handle_state`, a memory leak occurred."@,
            *self is FreeLargeChunks ==> r@ == "Failed to reserve slots for free large chunks in `ChunkManager::prepare_to_handle_state`, a memory leak occurred."@,
            *self is FreeCommonChunks ==> r@ == "Failed to reserve slots for free common chunks in `ChunkManager::prepare_to_handle_state`, a memory leak occurred."@,
            *self is ReturnedPointer ==> r@ == "Failed to return the pointer back."@,
            *self is InternalUsage ==> r@ == "Failed to allocate memory for internal usage"@,
            *self is SizeCount ==> r@ == "failed to allocate memory for internal usage"@,
            *self is RegionList ==> r@ == "allocation failed"@,
            *self is TooManyStates ==> r@ == "Too many states were allocated."@,
            *self is CapacityOverflow ==> r@ == "capacity overflow"@,
            *self is MissingMetadata ==> r@ == "The pointer does not belong to any allocator"@,
    {
        match self {
            PanicCause::OutOfMemory => "Failed to allocate memory",
            PanicCause::FirstAllocation => "Failed to allocate memory for the first allocation.",
            PanicCause::Manager => "Failed to allocate `returning_local_ptr_handler`.",
            PanicCause::CommonChunkTable => "Failed to allocate `common_chunk_table`.",
            PanicCause::LargeChunkTable => "Failed to allocate `common_chunk_table`.",
            PanicCause::ObjectVector => "Failed to allocate an object table, a memory leak occurred",
            PanicCause::CommonChunks =>
                "Failed to allocate a common chunk table, a memory leak occurred",
            PanicCause::LargeChunks =>
                "Failed to allocate a large chunk table, a memory leak occurred",
            PanicCause::Regions =>
                "Failed to reserve a slot for region in `ChunkManager::prepare_to_handle_state`, a memory leak occurred.",
            PanicCause::FreeLargeChunks =>
                "Failed to reserve slots for free large chunks in `ChunkManager::prepare_to_handle_state`, a memory leak occurred.",
            PanicCause::FreeCommonChunks =>
                "Failed to reserve slots for free common chunks in `ChunkManager::prepare_to_handle_state`, a memory leak occurred.",
            PanicCause::ReturnedPointer => "Failed to return the pointer back.",
            PanicCause::InternalUsage => "Failed to allocate memory for internal usage",
            PanicCause::SizeCount => "failed to allocate memory for internal usage",
            PanicCause::RegionList => "allocation failed",
            PanicCause::TooManyStates => "Too many states were allocated.",
            PanicCause::CapacityOverflow => "capacity overflow",
            PanicCause::MissingMetadata => "The pointer does not belong to any allocator",
        }
    }
}

} // verus!
