//! Mappings of huge pages, and the owners of objects.

use easy_alloc::os::{
    custom_mmap, custom_mmap_next, Environment, HugePageOption, MmapAttempt, MmapStep, Pages,
};
use easy_alloc::region::read_metadata;
use easy_alloc::thread_local_allocator::DefaultThreadLocalAllocator;

const REGION_SIZE: usize = 0x10_0000;

#[test]
fn pages_of_a_gigabyte_are_tried_with_two_megabytes() {
    let mut option = HugePageOption::Try1Gb;
    let attempt = custom_mmap(option, 0x4000_0000, true, false);
    assert_eq!(attempt, MmapAttempt { pages: Pages::Huge1Gb, no_reserve: false });
    let step = custom_mmap_next(&mut option, attempt, false, true, false);
    let second = MmapAttempt { pages: Pages::Huge2Mb, no_reserve: false };
    assert_eq!(step, MmapStep::Again(second));
    assert_eq!(option, HugePageOption::Try2Mb);
    let step = custom_mmap_next(&mut option, second, false, true, false);
    assert_eq!(step, MmapStep::Again(MmapAttempt { pages: Pages::Normal, no_reserve: false }));
    assert_eq!(option, HugePageOption::NotTry);
}

#[test]
fn pages_of_two_megabytes_are_tried_once() {
    let mut option = HugePageOption::Try2Mb;
    let attempt = custom_mmap(option, 0x20_0000, false, false);
    assert_eq!(attempt, MmapAttempt { pages: Pages::Huge2Mb, no_reserve: false });
    let step = custom_mmap_next(&mut option, attempt, false, false, false);
    assert_eq!(step, MmapStep::Again(MmapAttempt { pages: Pages::Normal, no_reserve: true }));
    assert_eq!(option, HugePageOption::NotTry);
    let mut option = HugePageOption::Try2Mb;
    let step = custom_mmap_next(&mut option, attempt, false, false, true);
    assert_eq!(step, MmapStep::Failed);
}

#[test]
fn first_objects_belong_to_the_allocator() {
    for size in [8, 15, 1024, 1100, 102_400] {
        let mut env = Environment::new(REGION_SIZE);
        for i in 1..64 {
            env.add_reply(0x4000_0000 + i * 2 * REGION_SIZE, 2 * REGION_SIZE - 1);
        }
        let mut a = DefaultThreadLocalAllocator::new_default(env);
        let ptr = a.alloc_or_panic(size).unwrap();
        assert_eq!(ptr % 8, 0);
        let metadata = read_metadata(&a.inner.env, ptr).unwrap();
        assert_eq!(metadata.non_local_ptr_manager, a.inner.manager_ptr);
        assert!(a.inner.common_chunk_table != 0 && a.inner.large_chunk_table != 0);
        assert!(a.inner.env.refusals.is_empty());
        a.dealloc(ptr, size).unwrap();
        assert_eq!(a.try_alloc(size).unwrap(), Some(ptr));
    }
}
