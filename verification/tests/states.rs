use std::collections::{BTreeSet, HashSet};

use easy_alloc::failures::PanicCause;
use easy_alloc::inner::{ThreadLocalAllocatorInner, FREE_COMMON, FREE_LARGE, REGIONS};
use easy_alloc::limit::{load_allocated, set_allocator_limit};
use easy_alloc::non_local_ptr_manager::OffsetToSlotInTable;
use easy_alloc::os::{align_mapping, Environment, OsAction, Request};
use easy_alloc::region::{
    alloc_region, chunk_ptr_to_chunk_metadata_ptr, dealloc_region, init_metadata_for_common_chunk,
    large_chunks_in_region, max_common_chunks_in_region, parse_region, read_metadata,
    REST_COMMON_CHUNKS_IN_REGION,
};
use easy_alloc::sizes::{
    SizeClass, COMMON_CHUNKS_IN_LARGE_CHUNK, COMMON_CHUNK_SIZE, LARGE_CHUNK_SIZE,
};
use easy_alloc::state::State;
use easy_alloc::vec_in_os::VecInOs;

const REGION_SIZE: usize = 2 * 1024 * 1024;

/// An environment in which so many regions can be had.
fn environment(regions: usize) -> Environment {
    let mut env = Environment::new(REGION_SIZE);
    set_allocator_limit(&mut env.limit, REGION_SIZE * 8000);
    for i in 0..regions {
        env.add_reply(0x1000_0000 + i * 4 * REGION_SIZE + 4096, 2 * REGION_SIZE - 1);
    }
    env
}

fn new_state(env: &mut Environment) -> State {
    let region = alloc_region(env).expect("Failed to allocate region");
    State::from_region(region, REGION_SIZE)
}

fn drop_test_state(state: State, env: &mut Environment) {
    for node in state.nodes.iter() {
        dealloc_region(env, node.region_ptr);
    }
    assert_eq!(load_allocated(&env.limit), 0);
}

// ---- regions ----

#[test]
fn test_alloc_aligned_from_os() {
    for i in 0..20 {
        let mut env = Environment::new(REGION_SIZE);
        env.add_reply(0x7000_0000 + i * 4096, 2 * 1024 * 1024 - 1);
        let ptr = env.alloc_aligned_from_os(1024 * 1024, false, 1024 * 1024);

        assert!(ptr.is_some());

        assert_eq!(ptr.unwrap() % (1024 * 1024), 0, "ptr must be aligned to 1MB");

        env.free(ptr.unwrap(), 1024);
    }
}

#[test]
fn aligned_mapping_gives_the_rest_back() {
    let mut env = Environment::new(REGION_SIZE);
    env.add_reply(0x1000_1000, 2 * REGION_SIZE - 1);
    assert_eq!(env.alloc_aligned_from_os(REGION_SIZE, true, REGION_SIZE), Some(0x1020_0000));
    assert_eq!(
        env.actions,
        vec![
            OsAction::Commit { ptr: 0x1020_0000, size: REGION_SIZE },
            OsAction::Trim { ptr: 0x1000_1000, size: 0x1f_f000 },
            OsAction::Trim { ptr: 0x1040_0000, size: 0xfff },
        ]
    );
    let mapping = align_mapping(0x1020_0000, REGION_SIZE, REGION_SIZE);
    assert_eq!((mapping.ptr, mapping.head, mapping.tail), (0x1020_0000, 0, REGION_SIZE - 1));
}

#[test]
fn a_request_without_a_reply_waits() {
    let mut env = Environment::new(REGION_SIZE);
    assert_eq!(env.alloc_from_os(4096, true), None);
    assert_eq!(env.pending, Some(Request { size: 4096, commit: true }));
    env.add_reply(0x5000, 4096);
    assert_eq!(env.pending, None);
    assert_eq!(env.alloc_from_os(4096, true), Some(0x5000));
    env.add_reply(0, 0);
    assert_eq!(env.alloc_from_os(4096, true), None);
    assert_eq!(env.pending, None);
}

#[test]
fn a_vector_in_the_system_grows_by_doubling() {
    let mut env = Environment::new(REGION_SIZE);
    let mut v = VecInOs::new();
    assert_eq!(v.push(1, &mut env), Err(PanicCause::RegionList));
    env.add_reply(0x1000, 32);
    env.add_reply(0x2000, 64);
    for i in 0..5 {
        assert_eq!(v.push(i, &mut env), Ok(()));
    }
    assert_eq!(v.data, vec![0, 1, 2, 3, 4]);
    assert_eq!((v.ptr, v.cap), (0x2000, 8));
    assert_eq!(env.actions, vec![OsAction::Unmap { ptr: 0x1000, size: 32 }]);
    assert_eq!(v.reserve(usize::MAX, &mut env), Err(PanicCause::CapacityOverflow));
    v.release(&mut env);
    assert_eq!(env.actions[1], OsAction::Unmap { ptr: 0x2000, size: 64 });
}

#[test]
fn a_region_goes_back_with_its_last_chunk() {
    let mut env = environment(1);
    let region = alloc_region(&mut env).expect("Failed to allocate region");
    let parsed = parse_region(region, REGION_SIZE);
    let actions_before = env.actions.len();

    let mut inner = ThreadLocalAllocatorInner::new(env);
    inner.set_buffer(REGIONS, 0x9000, 128, 8);
    inner.set_buffer(FREE_COMMON, 0xA000, 64, 8);
    inner.set_buffer(FREE_LARGE, 0xB000, 64, 8);
    inner.push_region(region);

    inner.push(FREE_COMMON, parsed.common_chunks[0]);
    inner.free_unused_memory();
    assert_eq!(inner.len(FREE_COMMON), 0);
    assert_eq!(inner.occupied, vec![max_common_chunks_in_region(REGION_SIZE) - 1]);
    assert_eq!(inner.env.actions.len(), actions_before);

    for &chunk in parsed.common_chunks[1..].iter() {
        inner.push(FREE_COMMON, chunk);
    }
    for &chunk in parsed.large_chunks.iter() {
        inner.push(FREE_LARGE, chunk);
    }
    inner.free_unused_memory();
    assert_eq!(inner.len(REGIONS), 0);
    assert_eq!(inner.occupied, Vec::<usize>::new());
    assert_eq!(
        inner.env.actions[actions_before],
        OsAction::Unmap { ptr: region, size: REGION_SIZE }
    );
    assert_eq!(load_allocated(&inner.env.limit), 0);
}

#[test]
fn test_parse_region() {
    let mut env = environment(1);
    let region = alloc_region(&mut env).expect("Failed to allocate region");
    let parsed_region = parse_region(region, REGION_SIZE);

    assert_eq!(parsed_region.metadata, region);
    assert_eq!(parsed_region.common_chunks.len(), REST_COMMON_CHUNKS_IN_REGION);
    assert_eq!(parsed_region.large_chunks.len(), large_chunks_in_region(REGION_SIZE));

    let mut ptrs: HashSet<usize> = HashSet::new();

    ptrs.insert(parsed_region.metadata);

    for ptr in parsed_region.common_chunks {
        assert!(ptrs.insert(ptr), "Duplicate common chunk");
    }

    for ptr in parsed_region.large_chunks {
        assert!(ptrs.insert(ptr), "Duplicate large chunk");
    }

    dealloc_region(&mut env, region);
    assert_eq!(load_allocated(&env.limit), 0);
}

#[test]
fn init_common_chunks() {
    let mut env = environment(1);
    let region = alloc_region(&mut env).expect("Failed to allocate region");
    let parsed_region = parse_region(region, REGION_SIZE);
    let nlpm_ptr = 0x9000;
    let mut places: HashSet<usize> = HashSet::new();

    for idx in 0..REST_COMMON_CHUNKS_IN_REGION {
        let chunk_ptr = parsed_region.common_chunks[idx];
        assert!(places.insert(chunk_ptr_to_chunk_metadata_ptr(REGION_SIZE, chunk_ptr)));

        assert!(read_metadata(&env, chunk_ptr).is_none());

        init_metadata_for_common_chunk(
            &mut env,
            nlpm_ptr,
            OffsetToSlotInTable::new_for_common_chunk(idx),
            chunk_ptr,
        );
    }

    for large_idx in 0..large_chunks_in_region(REGION_SIZE) {
        for common_idx in 0..COMMON_CHUNKS_IN_LARGE_CHUNK {
            let chunk_ptr =
                parsed_region.large_chunks[large_idx] + common_idx * COMMON_CHUNK_SIZE;
            assert!(places.insert(chunk_ptr_to_chunk_metadata_ptr(REGION_SIZE, chunk_ptr)));

            assert!(read_metadata(&env, chunk_ptr).is_none());

            init_metadata_for_common_chunk(
                &mut env,
                nlpm_ptr,
                OffsetToSlotInTable::new_for_common_chunk(
                    large_idx * COMMON_CHUNKS_IN_LARGE_CHUNK + common_idx,
                ),
                chunk_ptr,
            );
        }
    }

    for idx in 0..REST_COMMON_CHUNKS_IN_REGION {
        let chunk_ptr = parsed_region.common_chunks[idx];
        let metadata = read_metadata(&env, chunk_ptr + 17).unwrap();

        assert_eq!(metadata.non_local_ptr_manager, nlpm_ptr);

        let expected_offset = OffsetToSlotInTable::new_for_common_chunk(idx);
        assert_eq!(
            format!("{:?}", metadata.offset_to_slot_in_table),
            format!("{:?}", expected_offset)
        );
    }

    for large_idx in 0..large_chunks_in_region(REGION_SIZE) {
        for common_idx in 0..COMMON_CHUNKS_IN_LARGE_CHUNK {
            let chunk_ptr =
                parsed_region.large_chunks[large_idx] + common_idx * COMMON_CHUNK_SIZE;
            let metadata = read_metadata(&env, chunk_ptr + 17).unwrap();

            assert_eq!(metadata.non_local_ptr_manager, nlpm_ptr);

            let expected_offset = OffsetToSlotInTable::new_for_common_chunk(
                large_idx * COMMON_CHUNKS_IN_LARGE_CHUNK + common_idx,
            );
            assert_eq!(
                format!("{:?}", metadata.offset_to_slot_in_table),
                format!("{:?}", expected_offset)
            );
        }
    }

    dealloc_region(&mut env, region);
}

// ---- states ----

#[test]
fn test_from_region_new_state() {
    let mut env = environment(1);
    let region = alloc_region(&mut env).expect("Failed to allocate region");
    let state = State::from_region(region, REGION_SIZE);

    assert_eq!(state.nodes[0].region_ptr, region);
    assert_eq!(state.nodes[0].free_large_chunks.len(), large_chunks_in_region(REGION_SIZE));
    assert_eq!(state.nodes[0].free_common_chunks.len(), REST_COMMON_CHUNKS_IN_REGION);
    assert!(state.nodes[0].used_common_chunks.is_empty());
    assert!(state.nodes[0].used_large_chunks.is_empty());
    assert!(!state.has_next_state());
    assert_eq!(state.nodes[0].address, 0);
    assert!(!state.is_processed());

    drop_test_state(state, &mut env);
}

#[test]
fn test_from_region_with_first_state() {
    let mut env = environment(2);
    let mut state = new_state(&mut env);

    assert!(!state.has_next_state());

    for _ in 0..large_chunks_in_region(REGION_SIZE) + 1 {
        assert!(state.get_free_large_chunk(true, &mut env).is_some());
    }

    assert_eq!(state.nodes.len(), 2);
    assert_ne!(state.nodes[1].address, 0);

    drop_test_state(state, &mut env);
}

#[test]
fn test_get_free_common_chunk_from_initial_pool() {
    let mut env = environment(1);
    let mut state = new_state(&mut env);
    let initial_count = state.nodes[0].free_common_chunks.len();

    let result = state.get_free_common_chunk(false, &mut env);

    assert!(result.is_some());

    let (owner, chunk_ptr) = result.unwrap();

    assert_eq!(owner, 0);
    assert_eq!(chunk_ptr - state.nodes[0].region_ptr, COMMON_CHUNK_SIZE * initial_count);
    assert_eq!(state.nodes[0].free_common_chunks.len(), initial_count - 1);

    drop_test_state(state, &mut env);
}

#[test]
fn test_get_free_common_chunk_requires_large_split() {
    let mut env = environment(1);
    let mut state = new_state(&mut env);

    for _ in 0..REST_COMMON_CHUNKS_IN_REGION {
        let chunk = state.get_free_common_chunk(false, &mut env);

        assert!(chunk.is_some());
    }

    let initial_large_count = state.nodes[0].free_large_chunks.len();
    let result = state.get_free_common_chunk(false, &mut env);

    assert!(result.is_some());
    assert_eq!(state.nodes[0].free_large_chunks.len(), initial_large_count - 1);
    assert_eq!(state.nodes[0].free_common_chunks.len(), COMMON_CHUNKS_IN_LARGE_CHUNK - 1);
    assert_eq!(
        result.unwrap().1 - state.nodes[0].region_ptr,
        REGION_SIZE - COMMON_CHUNK_SIZE
    );

    drop_test_state(state, &mut env);
}

#[test]
fn test_get_free_large_chunk_simple() {
    let mut env = environment(1);
    let mut state = new_state(&mut env);
    let initial_count = state.nodes[0].free_large_chunks.len();

    let result = state.get_free_large_chunk_(0, false, &mut env);

    assert!(result.is_some());

    let (owner, chunk_ptr) = result.unwrap();

    assert_eq!(owner, 0);
    assert_eq!(chunk_ptr - state.nodes[0].region_ptr, REGION_SIZE - LARGE_CHUNK_SIZE);
    assert_eq!(state.nodes[0].free_large_chunks.len(), initial_count - 1);

    drop_test_state(state, &mut env);
}

#[test]
fn test_get_free_common_chunk_multiple() {
    let mut env = environment(1);
    let mut state = new_state(&mut env);
    let max_common_chunks = max_common_chunks_in_region(REGION_SIZE);

    for i in 0..REST_COMMON_CHUNKS_IN_REGION {
        let result = state.get_free_common_chunk(false, &mut env);
        assert!(result.is_some());
        assert_eq!(
            state.nodes[0].free_common_chunks.len(),
            REST_COMMON_CHUNKS_IN_REGION - i - 1
        );
        assert_eq!(
            result.unwrap().1 - state.nodes[0].region_ptr,
            LARGE_CHUNK_SIZE - (i + 1) * COMMON_CHUNK_SIZE
        );
    }

    for i in 0..max_common_chunks - REST_COMMON_CHUNKS_IN_REGION {
        let result = state.get_free_common_chunk(false, &mut env);
        assert!(result.is_some());
        assert_eq!(
            state.nodes[0].free_common_chunks.len(),
            (max_common_chunks - i) % COMMON_CHUNKS_IN_LARGE_CHUNK
        );
        assert_eq!(
            result.unwrap().1 - state.nodes[0].region_ptr,
            REGION_SIZE - (i + 1) * COMMON_CHUNK_SIZE
        );
    }

    drop_test_state(state, &mut env);
}

#[test]
fn test_get_free_large_chunk_multiple() {
    let mut env = environment(1);
    let mut state = new_state(&mut env);

    for i in 0..large_chunks_in_region(REGION_SIZE) {
        let result = state.get_free_large_chunk_(0, false, &mut env);
        assert!(result.is_some());
        assert_eq!(
            state.nodes[0].free_large_chunks.len(),
            large_chunks_in_region(REGION_SIZE) - i - 1
        );
        assert_eq!(
            result.unwrap().1 - state.nodes[0].region_ptr,
            REGION_SIZE - (i + 1) * LARGE_CHUNK_SIZE
        );
    }

    drop_test_state(state, &mut env);
}

#[test]
fn test_alloc_size_slow_common_new_chunk() {
    let mut env = environment(1);
    let mut state = new_state(&mut env);
    let size = 32;
    let initial_common_free = state.nodes[0].free_common_chunks.len();

    let ptr = state.alloc_size_slow(false, SizeClass::Common, size, &mut env);

    assert!(ptr.is_some());
    assert_eq!(state.nodes[0].used_common_chunks.len(), 1);
    assert_eq!(initial_common_free - 1, state.nodes[0].free_common_chunks.len());

    let used_chunk = state.nodes[0].used_common_chunks[0];
    assert_eq!(used_chunk.1, size);
    assert_eq!(used_chunk.2, (COMMON_CHUNK_SIZE / size) - 1);

    drop_test_state(state, &mut env);
}

#[test]
fn test_alloc_size_slow_large_new_chunk() {
    let mut env = environment(1);
    let mut state = new_state(&mut env);
    let size = 2048;
    let initial_large_free = state.nodes[0].free_large_chunks.len();

    let ptr = state.alloc_size_slow(false, SizeClass::Large, size, &mut env);

    assert!(ptr.is_some());
    assert_eq!(state.nodes[0].used_large_chunks.len(), 1);
    assert_eq!(initial_large_free - 1, state.nodes[0].free_large_chunks.len());

    let used_chunk = state.nodes[0].used_large_chunks[0];
    assert_eq!(used_chunk.1, size);
    assert_eq!(used_chunk.2, (LARGE_CHUNK_SIZE / size) - 1);

    drop_test_state(state, &mut env);
}

#[test]
fn test_try_alloc_size_common_from_used_chunk() {
    let mut env = environment(1);
    let mut state = new_state(&mut env);
    let size = 64;
    let mut ptrs = BTreeSet::new();

    let ptr1 = state.alloc_size(false, SizeClass::Common, size, &mut env);
    assert!(ptr1.is_some());

    ptrs.insert(ptr1.unwrap());

    let initial_used_chunks = state.nodes[0].used_common_chunks.len();

    for _ in 1..COMMON_CHUNK_SIZE / size {
        let ptr = state.try_alloc_size(SizeClass::Common, size).expect("null was returned");

        assert!(ptrs.insert(ptr));
    }

    assert_eq!(state.nodes[0].used_common_chunks.len(), initial_used_chunks);

    let ptr =
        state.alloc_size(false, SizeClass::Common, size, &mut env).expect("null was returned");

    assert!(ptrs.insert(ptr));

    assert_eq!(state.nodes[0].used_common_chunks.len(), initial_used_chunks + 1);

    drop_test_state(state, &mut env);
}

#[test]
fn test_try_alloc_size_large_from_used_chunk() {
    let mut env = environment(1);
    let mut state = new_state(&mut env);
    let size = 2048;
    let mut ptrs = BTreeSet::new();

    let ptr1 = state.alloc_size(false, SizeClass::Large, size, &mut env);
    assert!(ptr1.is_some());

    ptrs.insert(ptr1.unwrap());

    let initial_used_chunks = state.nodes[0].used_large_chunks.len();

    for _ in 1..LARGE_CHUNK_SIZE / size {
        let ptr = state.try_alloc_size(SizeClass::Large, size).expect("null was returned");

        assert!(ptrs.insert(ptr));
    }

    assert_eq!(state.nodes[0].used_large_chunks.len(), initial_used_chunks);

    let ptr =
        state.alloc_size(false, SizeClass::Large, size, &mut env).expect("null was returned");

    assert!(ptrs.insert(ptr));

    assert_eq!(state.nodes[0].used_large_chunks.len(), initial_used_chunks + 1);

    drop_test_state(state, &mut env);
}

#[test]
fn test_try_alloc_size_no_matching_size() {
    let mut env = environment(1);
    let mut state = new_state(&mut env);
    let initial_chunks_len = state.nodes[0].free_common_chunks.len();

    let _ = state.alloc_size(false, SizeClass::Common, 32, &mut env);

    let ptr = state.try_alloc_size(SizeClass::Common, 64);
    assert!(ptr.is_none());

    let ptr = state.alloc_size(false, SizeClass::Common, 64, &mut env);
    assert!(ptr.is_some());

    assert_eq!(state.nodes[0].used_common_chunks.len(), 2);
    assert_eq!(state.nodes[0].free_common_chunks.len(), initial_chunks_len - 2);

    drop_test_state(state, &mut env);
}

#[test]
fn test_alloc_size_large_mixed_sizes() {
    let mut env = environment(1);
    let mut state = new_state(&mut env);
    let initial_chunks_len = state.nodes[0].free_large_chunks.len();

    let ptr1 = state.alloc_size(false, SizeClass::Large, 2048, &mut env);
    let ptr2 = state.alloc_size(false, SizeClass::Large, 4096, &mut env);
    let ptr3 = state.alloc_size(false, SizeClass::Large, 2048, &mut env);

    assert!(ptr1.is_some());
    assert!(ptr2.is_some());
    assert!(ptr3.is_some());

    assert_eq!(state.nodes[0].used_large_chunks.len(), 2);
    assert_eq!(state.nodes[0].free_large_chunks.len(), initial_chunks_len - 2);

    drop_test_state(state, &mut env);
}

#[test]
fn test_alloc_size_mix_common_and_large() {
    let mut env = environment(1);
    let mut state = new_state(&mut env);

    let common_ptr = state.alloc_size(false, SizeClass::Common, 128, &mut env);
    let large_ptr = state.alloc_size(false, SizeClass::Large, 8192, &mut env);

    assert!(common_ptr.is_some());
    assert!(large_ptr.is_some());
    assert_eq!(state.nodes[0].used_common_chunks.len(), 1);
    assert_eq!(state.nodes[0].used_large_chunks.len(), 1);

    drop_test_state(state, &mut env);
}

#[test]
fn test_state_pointer_arithmetic_common() {
    let mut env = environment(1);
    let mut state = new_state(&mut env);
    let size = 128;
    let slots = COMMON_CHUNK_SIZE / size;

    let mut ptrs = Vec::new();
    for _ in 0..slots {
        if let Some(ptr) = state.alloc_size(false, SizeClass::Common, size, &mut env) {
            ptrs.push(ptr);
        }
    }

    if ptrs.len() >= 2 {
        assert!(ptrs[0].abs_diff(ptrs[1]) >= size);
    }
    assert_eq!(ptrs.len(), slots);

    drop_test_state(state, &mut env);
}

#[test]
fn test_state_pointer_arithmetic_large() {
    let mut env = environment(1);
    let mut state = new_state(&mut env);
    let size = 8192;
    let slots = LARGE_CHUNK_SIZE / size;

    let mut ptrs = Vec::new();
    for _ in 0..slots {
        if let Some(ptr) = state.alloc_size(false, SizeClass::Large, size, &mut env) {
            ptrs.push(ptr);
        }
    }

    if ptrs.len() >= 2 {
        assert!(ptrs[0].abs_diff(ptrs[1]) >= size);
    }
    assert_eq!(ptrs.len(), slots);

    drop_test_state(state, &mut env);
}

#[test]
fn test_exhaust_common_chunks_and_verify_next_state() {
    let mut env = environment(3);
    let mut state = new_state(&mut env);
    let size = 64;
    let all = max_common_chunks_in_region(REGION_SIZE) * (COMMON_CHUNK_SIZE / size);

    for _ in 0..all {
        let ptr = state.alloc_size(false, SizeClass::Common, size, &mut env);
        assert!(ptr.is_some());
    }

    assert_eq!(state.nodes[0].free_common_chunks.len(), 0);
    assert_eq!(state.nodes[0].free_large_chunks.len(), 0);
    assert!(!state.has_next_state());

    let ptr = state.alloc_size(false, SizeClass::Common, size, &mut env);
    assert!(ptr.is_some());

    assert!(state.has_next_state());
    assert_ne!(state.nodes[1].address, 0);

    for _ in 1..all {
        let ptr = state.alloc_size(false, SizeClass::Common, size, &mut env);
        assert!(ptr.is_some());
    }

    assert_eq!(state.nodes[1].free_common_chunks.len(), 0);
    assert_eq!(state.nodes[1].free_large_chunks.len(), 0);

    // The node is kept in an object of its own region, so one chunk of it was missing.
    assert_eq!(state.nodes.len(), 3);

    let ptr3 = state.alloc_size(false, SizeClass::Common, size, &mut env);
    assert!(ptr3.is_some());

    assert_eq!(state.nodes[1].free_common_chunks.len(), 0);
    assert_eq!(state.nodes[1].free_large_chunks.len(), 0);
    assert_eq!(state.nodes.len(), 3);

    state.nodes[0].used_common_chunks[17].1 = 1;
    state.nodes[1].used_common_chunks[17].1 = 1;
    state.nodes[2].used_common_chunks[0].1 = 1;

    for _ in 0..3 {
        let ptr = state.try_alloc_size(SizeClass::Common, size);
        assert!(ptr.is_some(), "Should be able to allocate from available chunks");
    }

    drop_test_state(state, &mut env);
}

#[test]
fn test_exhaust_large_chunks_and_verify_next_state() {
    let mut env = environment(3);
    let mut state = new_state(&mut env);
    let size = 4096;
    let all = large_chunks_in_region(REGION_SIZE) * (LARGE_CHUNK_SIZE / size);

    for _ in 0..all {
        let ptr = state.alloc_size(false, SizeClass::Large, size, &mut env);
        assert!(ptr.is_some());
    }

    assert_eq!(state.nodes[0].free_common_chunks.len(), REST_COMMON_CHUNKS_IN_REGION);
    assert_eq!(state.nodes[0].free_large_chunks.len(), 0);
    assert!(!state.has_next_state());

    let ptr = state.alloc_size(false, SizeClass::Large, size, &mut env);
    assert!(ptr.is_some());

    assert!(state.has_next_state());
    assert_ne!(state.nodes[1].address, 0);

    for _ in 0..all - 1 {
        let ptr = state.alloc_size(false, SizeClass::Large, size, &mut env);
        assert!(ptr.is_some());
    }

    // One chunk is for the node itself.
    assert_eq!(state.nodes[1].free_common_chunks.len(), REST_COMMON_CHUNKS_IN_REGION - 1);
    assert_eq!(state.nodes[1].free_large_chunks.len(), 0);
    assert_eq!(state.nodes.len(), 2);

    let ptr3 = state.alloc_size(false, SizeClass::Large, size, &mut env);
    assert!(ptr3.is_some());

    assert_eq!(state.nodes[2].free_common_chunks.len(), REST_COMMON_CHUNKS_IN_REGION);
    assert_eq!(state.nodes[2].free_large_chunks.len(), 2);
    assert_eq!(state.nodes.len(), 3);

    state.nodes[0].used_large_chunks[0].2 = 1;
    state.nodes[1].used_large_chunks[0].2 = 1;
    state.nodes[2].used_large_chunks[0].2 = 1;

    for _ in 0..3 {
        let ptr = state.try_alloc_size(SizeClass::Large, size);
        assert!(ptr.is_some(), "Should be able to allocate from available chunks");
    }

    drop_test_state(state, &mut env);
}

#[test]
fn test_allocate_16_byte_then_other_sizes_verify_retrieval() {
    let mut env = environment(2);
    let mut state = new_state(&mut env);
    let small_size = 16;
    let other_size = 128;

    let ptr_16 = state.alloc_size(false, SizeClass::Common, small_size, &mut env);

    assert!(ptr_16.is_some());
    assert_eq!(state.nodes[0].used_common_chunks.len(), 1);
    assert_eq!(state.nodes[0].used_common_chunks[0].1, small_size);

    for _ in 0..max_common_chunks_in_region(REGION_SIZE) * (COMMON_CHUNK_SIZE / other_size) {
        let ptr = state.alloc_size(false, SizeClass::Common, other_size, &mut env);
        assert!(ptr.is_some());
    }

    assert!(state.has_next_state());

    assert!(state.alloc_size(false, SizeClass::Common, small_size, &mut env).is_some());
    // One for the other size and one for the node itself.
    assert_eq!(state.nodes[1].used_common_chunks.len(), 2);

    drop_test_state(state, &mut env);
}

#[test]
fn a_state_without_memory_refuses() {
    let mut env = environment(1);
    let mut state = new_state(&mut env);
    for _ in 0..large_chunks_in_region(REGION_SIZE) {
        assert!(state.get_free_large_chunk(true, &mut env).is_some());
    }
    assert_eq!(state.get_free_large_chunk(true, &mut env), None);
    assert_eq!(env.pending, Some(Request { size: 2 * REGION_SIZE - 1, commit: false }));
    assert_eq!(load_allocated(&env.limit), REGION_SIZE);
    set_allocator_limit(&mut env.limit, REGION_SIZE);
    env.add_reply(0x7000_0000, 2 * REGION_SIZE - 1);
    assert_eq!(state.get_free_large_chunk(true, &mut env), None);
    assert!(state.get_free_large_chunk(false, &mut env).is_some());
    assert_eq!(load_allocated(&env.limit), 2 * REGION_SIZE);
}
