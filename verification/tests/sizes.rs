use easy_alloc::powers::{is_power_of_two, next_power_of_two, trailing_zeros};
use easy_alloc::sizes::{
    common_size_to_index, find_large_slot_id, generate_blocks,
    generate_real_large_sizes_and_lookup_table, large_size_to_id_and_real_size, recommended_size,
    size_of_class, size_to_class, slots_in_chunk, split_large_chunk_to_common, SizeClass,
    COMMON_CHUNKS_IN_LARGE_CHUNK, COMMON_CHUNK_SIZE, COMMON_SIZE_MAX, COMMON_SIZE_TABLE_LEN,
    FIRST_ID, GENERATED_SIZES_AND_INDEXES, LARGE_CHUNK_SIZE, LARGE_SIZES_FOR_ID, LARGE_SIZE_MAX,
    LAST_ID, LOOKUP_TABLE, REAL_LARGE_SIZES, REAL_NUMBER_OF_LARGE_OBJECT_VECTORS,
};

#[test]
fn test_common_size_to_index() {
    let mut prev = 1;

    assert_eq!(common_size_to_index(1), 0);
    assert_eq!(common_size_to_index(8), 0);
    assert_eq!(common_size_to_index(9), 1);

    for idx in 0..COMMON_SIZE_TABLE_LEN {
        for i in 0..8 {
            assert_eq!(common_size_to_index(prev + i), idx);
        }

        prev += 8;
    }
}

#[test]
fn test_large_size_to_index_exhaustive() {
    let mut generated_vector_sizes = [0; REAL_NUMBER_OF_LARGE_OBJECT_VECTORS];
    generated_vector_sizes.copy_from_slice(
        &LARGE_SIZES_FOR_ID[FIRST_ID..FIRST_ID + REAL_NUMBER_OF_LARGE_OBJECT_VECTORS],
    );

    for (size, expected_size, expected_idx) in
        [(1025, 1088, 0), (1260, 1280, 3), (63 * 1024, 64 * 1024, 84)]
    {
        let (id, real_size) = large_size_to_id_and_real_size(size);

        assert_eq!(real_size, expected_size);

        let real_size_by_id = LARGE_SIZES_FOR_ID[id];

        assert_eq!(real_size_by_id, expected_size);

        let idx = LOOKUP_TABLE[id];

        assert_eq!(idx, expected_idx);
    }

    let start = COMMON_SIZE_MAX as usize + 1;
    let end = LARGE_SIZE_MAX;

    for size in start..=end {
        let (id, real_size) = large_size_to_id_and_real_size(size);

        assert!(real_size >= size);

        assert!(
            id <= LAST_ID && id >= FIRST_ID,
            "Id out of range for size {size}, id: {id}, FIRST_ID: {FIRST_ID}"
        );

        let chosen = LARGE_SIZES_FOR_ID[id];
        assert!(
            chosen >= size,
            "Returned size {} is smaller than requested {} for id {}",
            chosen,
            size,
            id
        );

        if id > FIRST_ID {
            let prev = GENERATED_SIZES_AND_INDEXES[id - FIRST_ID - 1].0;
            assert!(
                prev < size,
                "Previous size {} with id {} is not < requested {}, current {}",
                prev,
                id,
                size,
                chosen
            );

            let real_prev = generated_vector_sizes[LOOKUP_TABLE[id - 1]];
            assert!(
                real_prev < size || real_prev == chosen,
                "Previous size {} with id {} is not < requested {}, current {}",
                real_prev,
                id,
                size,
                chosen
            );
        }
    }
}

#[test]
fn test_large_size_to_index_pow2_exact() {
    let pow2s = [2048usize, 4096, 8192, 16384, 32768, 65536];

    for &p in &pow2s {
        let (id, real_size) = large_size_to_id_and_real_size(p);

        assert!(id < LAST_ID);
        assert_eq!(p, real_size);
    }
}

#[test]
fn test_split_large_chunk_to_common() {
    let large_chunk_ptr = 0x40_0000;
    let commons = split_large_chunk_to_common(large_chunk_ptr);

    for i in 0..COMMON_CHUNKS_IN_LARGE_CHUNK {
        assert_eq!(commons[i], large_chunk_ptr + COMMON_CHUNK_SIZE * i);
    }
}

#[test]
fn generated_sizes_are_those_of_the_slots() {
    for (i, (size, id)) in GENERATED_SIZES_AND_INDEXES.iter().enumerate() {
        assert_eq!(*id, FIRST_ID + i);
        assert_eq!(find_large_slot_id(*size), *id);
        assert_eq!(find_large_slot_id(*size + 1), *id + 1);
    }
}

#[test]
fn real_sizes_are_the_greatest_with_so_many_blocks() {
    for (idx, size) in REAL_LARGE_SIZES.iter().enumerate() {
        let blocks = LARGE_CHUNK_SIZE / size;
        for (other, id) in GENERATED_SIZES_AND_INDEXES.iter() {
            if *other <= LARGE_SIZE_MAX && LARGE_CHUNK_SIZE / other == blocks {
                assert!(other <= size);
                assert_eq!(LOOKUP_TABLE[*id], idx);
                assert_eq!(LARGE_SIZES_FOR_ID[*id], *size);
            }
        }
    }
}

#[test]
fn recommended_sizes() {
    assert_eq!(recommended_size(0), 0);
    assert_eq!(recommended_size(1), 8);
    assert_eq!(recommended_size(987), 992);
    assert_eq!(recommended_size(1024), 1024);
    assert_eq!(recommended_size(1025), 1088);
    assert_eq!(recommended_size(12_345), 12_800);
    assert_eq!(recommended_size(102_400), 102_400);
    assert_eq!(recommended_size(102_401), 102_401);
}

#[test]
fn size_classes() {
    assert_eq!(SizeClass::define(1024).name(), "Common");
    assert_eq!(SizeClass::define(1025).name(), "Large");
    assert_eq!(SizeClass::define(102_400).name(), "Large");
    assert_eq!(SizeClass::define(102_401).name(), "ExtraLarge");
    for class in 0..216 {
        let size = size_of_class(class);
        assert_eq!(size_to_class(size), class);
        let chunk = if class < 128 { COMMON_CHUNK_SIZE } else { LARGE_CHUNK_SIZE };
        assert_eq!(slots_in_chunk(class), chunk / size);
    }
}

#[test]
fn powers_of_two() {
    assert!(is_power_of_two(4096));
    assert!(!is_power_of_two(0));
    assert!(!is_power_of_two(12));
    assert_eq!(next_power_of_two(0), Some(1));
    assert_eq!(next_power_of_two(65), Some(128));
    assert_eq!(next_power_of_two(64), Some(64));
    assert_eq!(next_power_of_two(usize::MAX), None);
    assert_eq!(trailing_zeros(48), 4);
}

#[test]
fn generated_tables_are_those_of_the_library() {
    assert_eq!(generate_blocks(), GENERATED_SIZES_AND_INDEXES);
    assert_eq!(generate_blocks()[0], (1088, FIRST_ID));

    let generated = generate_real_large_sizes_and_lookup_table();
    assert_eq!(generated.sizes, LARGE_SIZES_FOR_ID);
    assert_eq!(generated.lookup_table, LOOKUP_TABLE);
}
