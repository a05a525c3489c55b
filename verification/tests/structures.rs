use std::cell::Cell;
use std::rc::Rc;

use easy_alloc::allocated_in_self_list::AllocatedInSelfList;
use easy_alloc::allocator_for_self_allocations::{
    AllocatorForSelfAllocations, ThreadLocalAllocatorFake,
};
use easy_alloc::btree_map::{SelfAllocatedBTreeMap, SelfAllocatedMemory};
use easy_alloc::buddy::{calc_grades, BuddyCache};
use easy_alloc::failures::PanicCause;
use easy_alloc::hints::unwrap_or_bug_message_hint;
use easy_alloc::numa::DataPerNUMANodeManager;
use easy_alloc::self_box::{OptionSelfAllocatedBox, SelfAllocatedBox};
use easy_alloc::self_vec::SelfAllocatedVec;

// ---- the ordered map ----

#[test]
fn basics() {
    let mut allocator = ThreadLocalAllocatorFake::new();
    let mut map: SelfAllocatedBTreeMap<usize> = SelfAllocatedBTreeMap::new();

    assert!(map.is_empty());
    assert_eq!(map.len(), 0);

    for i in 0..10_000 {
        *map.entry(i).or_insert(i, &mut allocator, &mut None).unwrap().unwrap() *= 2;
        *map.entry(i).or_insert(i, &mut allocator, &mut None).unwrap().unwrap() *= 2;

        assert_eq!(
            *map.entry(i).or_insert(1, &mut allocator, &mut None).unwrap().unwrap(),
            i * 4
        );
    }

    assert!(!map.is_empty());
    assert_eq!(map.len(), 10_000);

    for (k, v) in map.iter() {
        assert_eq!(*v, k * 4);
    }

    map.clear(&mut allocator, &mut None).unwrap();

    assert!(map.is_empty());
    assert_eq!(map.len(), 0);

    assert_eq!(allocator.allocated_memory(), 0);
}

#[test]
fn map_hands_out_entries_from_both_ends() {
    let mut allocator = ThreadLocalAllocatorFake::new();
    let mut map: SelfAllocatedBTreeMap<usize> = SelfAllocatedBTreeMap::new();
    for key in [5, 1, 4, 2, 3] {
        map.entry(key).or_insert(key * 10, &mut allocator, &mut None).unwrap().unwrap();
    }
    assert_eq!(allocator.allocated_memory(), 192);

    let mut state = None;
    let mut iter = map.into_iter(&mut allocator, &mut state);
    assert_eq!(iter.len(), 5);
    assert_eq!(iter.size_hint(), (5, Some(5)));
    assert_eq!(iter.next(), Ok(Some((1, 10))));
    assert_eq!(iter.next_back(), Ok(Some((5, 50))));
    assert_eq!(iter.iter().clone(), vec![(2, 20), (3, 30), (4, 40)]);
    assert_eq!(iter.next(), Ok(Some((2, 20))));
    assert_eq!(iter.next(), Ok(Some((3, 30))));
    assert_eq!(iter.next_back(), Ok(Some((4, 40))));
    assert_eq!(iter.next_back(), Ok(None));
    assert_eq!(iter.next(), Ok(None));
    assert_eq!(allocator.allocated_memory(), 0);
}

#[test]
fn map_removes_keys_and_gives_nodes_back() {
    let mut allocator = ThreadLocalAllocatorFake::new();
    let mut map: SelfAllocatedBTreeMap<usize> = SelfAllocatedBTreeMap::new();
    for key in 0..12 {
        map.entry(key).or_insert(key, &mut allocator, &mut None).unwrap().unwrap();
    }
    assert_eq!(map.self_allocated_memory(), [(192, 2), (0, 0)]);
    assert_eq!(map.remove_entry(3, &mut allocator, &mut None), Ok(Some((3, 3))));
    assert_eq!(map.self_allocated_memory(), [(192, 1), (0, 0)]);
    assert_eq!(map.remove_entry(3, &mut allocator, &mut None), Ok(None));
    assert_eq!(map.remove(7, &mut allocator, &mut None), Ok(Some(7)));
    assert_eq!(map.remove(7, &mut allocator, &mut None), Ok(None));
    assert_eq!(map.len(), 10);
    let entry = map.entry(5).and_modify(|v| *v + 100);
    assert_eq!(*entry.or_insert(0, &mut allocator, &mut None).unwrap().unwrap(), 105);
    let missing = map.entry(50).and_modify(|v| *v + 100);
    assert_eq!(*missing.or_insert(7, &mut allocator, &mut None).unwrap().unwrap(), 7);
    map.clear(&mut allocator, &mut None).unwrap();
    assert_eq!(allocator.allocated_memory(), 0);
}

#[test]
fn map_stays_as_it_is_without_memory() {
    let mut allocator =
        ThreadLocalAllocatorFake { allocated_memory: 0, next_address: usize::MAX - 100 };
    let mut map: SelfAllocatedBTreeMap<usize> = SelfAllocatedBTreeMap::new();
    assert!(map.entry(1).or_insert(1, &mut allocator, &mut None).unwrap().is_none());
    assert!(map.is_empty());
}

#[test]
fn map_counts_blocks_by_size() {
    let mut memory = SelfAllocatedMemory::new();
    memory.inc_for_size(192);
    memory.inc_for_size(288);
    memory.inc_for_size(192);
    assert_eq!(memory.0, [(192, 2), (288, 1)]);
    memory.dec_for_size(192);
    memory.dec_for_size(288);
    assert_eq!(memory.0, [(192, 1), (288, 0)]);
}

// ---- boxes ----

struct DropCounter {
    was_dropped: Rc<Cell<bool>>,
    value: u32,
}

impl Drop for DropCounter {
    fn drop(&mut self) {
        self.was_dropped.set(true);
    }
}

#[test]
fn test_none() {
    let opt_box: OptionSelfAllocatedBox<u32> = OptionSelfAllocatedBox::none();
    assert!(opt_box.is_null());
    assert!(opt_box.as_ref().is_none());
}

#[test]
fn test_some() {
    let mut allocator = ThreadLocalAllocatorFake::new();

    let mut opt_box = OptionSelfAllocatedBox::new(42u32, &mut allocator, &mut None)
        .unwrap()
        .expect("Allocation should succeed");

    assert!(!opt_box.is_null());
    assert_eq!(opt_box.as_ref(), Some(&42));

    opt_box.dealloc_if_needed(&mut allocator, &mut None).unwrap();
}

#[test]
fn option_self_box_test_as_ref_and_as_mut() {
    let mut allocator = ThreadLocalAllocatorFake::new();

    let mut opt_box = OptionSelfAllocatedBox::new(100u64, &mut allocator, &mut None)
        .unwrap()
        .expect("Allocation should succeed");

    assert_eq!(opt_box.as_ref(), Some(&100));

    if let Some(val) = opt_box.as_mut() {
        *val = 200;
    }

    assert_eq!(opt_box.as_ref(), Some(&200));

    opt_box.dealloc_if_needed(&mut allocator, &mut None).unwrap();
}

#[test]
fn test_is_null() {
    let mut allocator = ThreadLocalAllocatorFake::new();

    let opt_box_none: OptionSelfAllocatedBox<u32> = OptionSelfAllocatedBox::none();
    assert!(opt_box_none.is_null());

    let mut opt_box_some = OptionSelfAllocatedBox::new(42u32, &mut allocator, &mut None)
        .unwrap()
        .expect("Allocation should succeed");
    assert!(!opt_box_some.is_null());

    opt_box_some.dealloc_if_needed(&mut allocator, &mut None).unwrap();
}

#[test]
fn test_dealloc_with_drop() {
    let was_dropped = Rc::new(Cell::new(false));
    let mut allocator = ThreadLocalAllocatorFake::new();

    let counter = DropCounter { was_dropped: was_dropped.clone(), value: 0 };

    let mut opt_box = match OptionSelfAllocatedBox::new(counter, &mut allocator, &mut None) {
        Ok(Ok(opt_box)) => opt_box,
        _ => panic!("Allocation should succeed"),
    };

    assert!(!was_dropped.get());

    opt_box.dealloc_if_needed(&mut allocator, &mut None).unwrap();

    assert!(was_dropped.get());
    assert!(opt_box.is_null());
}

#[test]
fn test_dealloc_if_needed_on_none() {
    let mut allocator = ThreadLocalAllocatorFake::new();

    let mut opt_box: OptionSelfAllocatedBox<u32> = OptionSelfAllocatedBox::none();

    opt_box.dealloc_if_needed(&mut allocator, &mut None).unwrap();

    assert!(opt_box.is_null());
}

#[test]
fn test_some_with_existing_box() {
    let mut allocator = ThreadLocalAllocatorFake::new();

    let boxed = SelfAllocatedBox::new(777u64, &mut allocator, &mut None)
        .unwrap()
        .expect("Allocation should succeed");

    let mut opt_box = OptionSelfAllocatedBox::some(boxed);

    assert!(!opt_box.is_null());
    assert_eq!(opt_box.as_ref(), Some(&777));

    opt_box.dealloc_if_needed(&mut allocator, &mut None).unwrap();
}

#[test]
fn option_box_knows_its_block() {
    let mut opt_box = OptionSelfAllocatedBox::from_ptr(4096, 5u64);
    assert_eq!(opt_box.as_ptr(), Some(4096));
    let boxed = opt_box.take().unwrap();
    assert!(opt_box.is_null());
    assert_eq!(opt_box.as_ptr(), None);
    assert_eq!(boxed.into_raw(), (4096, 5));
    let mut other = OptionSelfAllocatedBox::some(SelfAllocatedBox::from_ptr(8192, 6u64));
    other.force_set_null();
    assert!(other.is_null());
}

#[test]
fn test_new_and_dealloc_common_size() {
    let mut allocator = ThreadLocalAllocatorFake::new();

    let boxed = SelfAllocatedBox::new(42u64, &mut allocator, &mut None)
        .unwrap()
        .expect("Allocation should succeed");

    assert_eq!(boxed.value, 42);
    assert_eq!(*boxed.as_ref(), 42);
    assert_eq!(allocator.allocated_memory(), 8);

    boxed.dealloc(&mut allocator, &mut None).unwrap();
    assert_eq!(allocator.allocated_memory(), 0);
}

#[test]
fn test_new_and_dealloc_with_struct() {
    let was_dropped = Rc::new(Cell::new(false));
    let mut allocator = ThreadLocalAllocatorFake::new();

    let counter = DropCounter { was_dropped: was_dropped.clone(), value: 123 };

    let boxed = match SelfAllocatedBox::new(counter, &mut allocator, &mut None) {
        Ok(Ok(boxed)) => boxed,
        _ => panic!("Allocation should succeed"),
    };

    assert_eq!(boxed.as_ref().value, 123);
    assert!(!was_dropped.get());

    boxed.dealloc(&mut allocator, &mut None).unwrap();

    assert!(was_dropped.get());
}

#[test]
fn test_new_without_counting_limit() {
    let mut allocator = ThreadLocalAllocatorFake::new();

    let boxed = SelfAllocatedBox::new_without_counting_limit(999u32, &mut allocator, &mut None)
        .unwrap()
        .expect("Allocation should succeed");

    assert_eq!(*boxed.as_ref(), 999);

    boxed.dealloc(&mut allocator, &mut None).unwrap();
}

#[test]
fn self_box_test_as_ref_and_as_mut() {
    let mut allocator = ThreadLocalAllocatorFake::new();

    let mut boxed = SelfAllocatedBox::new(100u32, &mut allocator, &mut None)
        .unwrap()
        .expect("Allocation should succeed");

    assert_eq!(*boxed.as_ref(), 100);

    *boxed.as_mut() = 200;
    assert_eq!(*boxed.as_ref(), 200);

    boxed.dealloc(&mut allocator, &mut None).unwrap();
}

#[test]
fn test_deref_and_deref_mut() {
    let mut allocator = ThreadLocalAllocatorFake::new();

    let mut boxed = SelfAllocatedBox::new(50u64, &mut allocator, &mut None)
        .unwrap()
        .expect("Allocation should succeed");

    assert_eq!(boxed.value, 50);

    boxed.value = 75;
    assert_eq!(boxed.value, 75);

    boxed.dealloc(&mut allocator, &mut None).unwrap();
}

struct LargeStruct {
    data: [u8; 4090],
}

#[test]
fn test_large_struct() {
    let mut allocator = ThreadLocalAllocatorFake::new();

    let large = LargeStruct { data: [42; 4090] };
    let mut boxed = match SelfAllocatedBox::new(large, &mut allocator, &mut None) {
        Ok(Ok(boxed)) => boxed,
        _ => panic!("Allocation should succeed"),
    };

    assert_eq!(boxed.as_ref().data[0], 42);
    assert_eq!(boxed.as_ref().data[4080], 42);

    boxed.as_mut().data[500] = 99;
    assert_eq!(boxed.as_ref().data[500], 99);
    assert_eq!(allocator.allocated_memory(), 4096);

    boxed.dealloc(&mut allocator, &mut None).unwrap();
    assert_eq!(allocator.allocated_memory(), 4096 - 4090);
}

#[test]
fn test_real_size_calculations() {
    assert!(SelfAllocatedBox::<u8>::real_size() >= size_of::<u8>());
    assert!(SelfAllocatedBox::<[u8; 8]>::real_size() >= size_of::<[u8; 8]>());
    assert!(SelfAllocatedBox::<[u8; 64]>::real_size() >= size_of::<[u8; 64]>());
    assert!(SelfAllocatedBox::<[u8; 512]>::real_size() >= size_of::<[u8; 512]>());
    assert!(SelfAllocatedBox::<[u8; 4000]>::real_size() >= size_of::<[u8; 4000]>());
}

#[test]
fn box_hands_its_value_back_without_memory() {
    let mut allocator =
        ThreadLocalAllocatorFake { allocated_memory: 0, next_address: usize::MAX - 4 };
    assert_eq!(SelfAllocatedBox::new(7u64, &mut allocator, &mut None).unwrap().unwrap_err(), 7);
}

#[test]
fn box_gives_back_the_bytes_of_its_value() {
    let mut allocator = ThreadLocalAllocatorFake::new();
    let boxed = SelfAllocatedBox::new(7u32, &mut allocator, &mut None).unwrap().unwrap();
    assert_eq!(allocator.allocated_memory(), 8);
    boxed.dealloc(&mut allocator, &mut None).unwrap();
    assert_eq!(allocator.allocated_memory(), 4);
}

// ---- vectors ----

#[test]
fn test_vec_new_zero_state() {
    let v: SelfAllocatedVec<i32> = SelfAllocatedVec::new();

    assert_eq!(v.len(), 0);
    assert_eq!(v.capacity(), 0);

    assert!(v.is_empty());
}

#[test]
fn test_vec_push_and_pop() {
    const N: usize = 100_000;

    let mut v = SelfAllocatedVec::new();
    let mut allocator = ThreadLocalAllocatorFake::new();

    for i in 0..N {
        v.push(i, &mut allocator, &mut None).unwrap().unwrap();
    }

    assert_eq!(v.len(), N);

    for i in (0..N).rev() {
        assert_eq!(v.pop(), Some(i));
    }

    assert_eq!(v.len(), 0);

    v.clear(&mut allocator, &mut None).unwrap();
    assert_eq!(allocator.allocated_memory(), 0);
}

#[test]
fn test_vec_reserve() {
    let mut v: SelfAllocatedVec<usize> = SelfAllocatedVec::new();
    let mut allocator = ThreadLocalAllocatorFake::new();

    assert_eq!(v.reserve(10, &mut allocator, &mut None), Ok(Ok(true)));

    assert!(v.capacity() >= 10);
    assert_eq!(v.bytes_allocated(), 128);
    assert_eq!(v.reserve(16, &mut allocator, &mut None), Ok(Ok(false)));

    v.clear(&mut allocator, &mut None).unwrap();
}

#[test]
fn test_vec_extend_from_slice() {
    let mut v = SelfAllocatedVec::new();
    let mut allocator = ThreadLocalAllocatorFake::new();

    v.extend_from_slice(&[1, 2, 3, 4], &mut allocator, &mut None).unwrap().unwrap();

    assert_eq!(v.len(), 4);

    let collected: Vec<_> = v.iter().clone();

    assert_eq!(collected, vec![1, 2, 3, 4]);

    v.clear(&mut allocator, &mut None).unwrap();
}

#[test]
fn test_vec_swap_remove() {
    let mut v = SelfAllocatedVec::new();
    let mut allocator = ThreadLocalAllocatorFake::new();

    v.push(10u64, &mut allocator, &mut None).unwrap().unwrap();
    v.push(20, &mut allocator, &mut None).unwrap().unwrap();
    v.push(30, &mut allocator, &mut None).unwrap().unwrap();

    let removed = v.swap_remove(0);

    assert_eq!(removed, 10);
    assert_eq!(v.len(), 2);

    let mut out: Vec<_> = v.iter().clone();
    out.sort();
    assert_eq!(out, vec![20, 30]);

    v.clear(&mut allocator, &mut None).unwrap();
}

#[test]
fn test_vec_get_mut() {
    let mut v = SelfAllocatedVec::new();
    let mut allocator = ThreadLocalAllocatorFake::new();

    v.push(10u64, &mut allocator, &mut None).unwrap().unwrap();
    v.push(20, &mut allocator, &mut None).unwrap().unwrap();

    *v.get_mut(1).unwrap() = 999;

    let collected: Vec<_> = v.iter().clone();

    assert_eq!(collected, vec![10, 999]);
    assert!(v.get_mut(2).is_none());

    v.clear(&mut allocator, &mut None).unwrap();
}

#[test]
fn vec_takes_what_it_has_room_for() {
    let mut v: SelfAllocatedVec<u64> = SelfAllocatedVec::new();
    let mut allocator = ThreadLocalAllocatorFake::new();
    assert_eq!(v.try_push(1), Err(1));
    assert_eq!(v.try_extend_from_slice(&[1]), Err(()));
    assert!(v.is_null());
    v.reserve_without_counting_limit(2, &mut allocator, &mut None).unwrap().unwrap();
    assert_eq!(v.vacant(), 2);
    assert_eq!(v.try_push(1), Ok(()));
    assert_eq!(v.try_extend_from_slice(&[2]), Ok(()));
    assert_eq!(v.try_push(3), Err(3));
    v.push_without_counting_limit(3, &mut allocator, &mut None).unwrap().unwrap();
    assert_eq!(v.iter().clone(), vec![1, 2, 3]);
    assert_eq!(v.capacity(), 4);
    assert_eq!(allocator.allocated_memory(), 32);
}

#[test]
fn vec_of_odd_elements_grows() {
    let mut allocator = ThreadLocalAllocatorFake::new();
    let mut v: SelfAllocatedVec<[u32; 3]> = SelfAllocatedVec::new();
    for i in 0..100 {
        v.push([i, i + 1, i + 2], &mut allocator, &mut None).unwrap().unwrap();
    }
    for i in (0..100).rev() {
        assert_eq!(v.pop(), Some([i, i + 1, i + 2]));
    }
    assert_eq!(v.pop(), None);
}

#[test]
fn vec_hands_its_elements_out_when_it_is_cleared() {
    let mut allocator = ThreadLocalAllocatorFake::new();
    let mut v: SelfAllocatedVec<usize> = SelfAllocatedVec::new();
    for i in 0..5 {
        v.push(i * 10, &mut allocator, &mut None).unwrap().unwrap();
    }
    assert!(allocator.allocated_memory() > 0);

    let (elems, given_back) = v.clear_with(&mut allocator, &mut None);
    assert_eq!(elems, vec![0, 10, 20, 30, 40]);
    assert_eq!(given_back, Ok(()));
    assert!(v.is_empty());
    assert_eq!(v.capacity(), 0);
    assert_eq!(allocator.allocated_memory(), 0);
}

#[test]
fn vec_refuses_what_cannot_be_counted() {
    let mut v: SelfAllocatedVec<u64> = SelfAllocatedVec::new();
    let mut allocator = ThreadLocalAllocatorFake::new();
    assert_eq!(
        v.reserve(u32::MAX, &mut allocator, &mut None),
        Err(PanicCause::CapacityOverflow)
    );
    let mut poor = ThreadLocalAllocatorFake { allocated_memory: 0, next_address: usize::MAX - 4 };
    assert_eq!(v.push(1, &mut poor, &mut None), Ok(Err(())));
    assert!(v.is_empty());
}

// ---- the counting allocator ----

#[test]
fn counting_allocator_refuses_to_take_back_more_than_it_gave() {
    let mut allocator = ThreadLocalAllocatorFake::new();
    let ptr = allocator.self_alloc(64, &mut None).unwrap().unwrap();
    assert_eq!(
        allocator.self_dealloc(ptr, 128, &mut None),
        Err(PanicCause::MissingMetadata)
    );
    assert_eq!(allocator.self_dealloc(ptr, 64, &mut None), Ok(()));
    assert_eq!(ThreadLocalAllocatorFake::state_from_region(0x20_0000, 0x20_0000), 0x20_0000);
}

// ---- lists, grades and nodes ----

#[test]
fn test_push_pop_lifo() {
    let mut list = AllocatedInSelfList::new();
    let region1 = [0u8; 40];
    let region2 = [0u8; 40];
    let ptr1 = region1.as_ptr() as usize;
    let ptr2 = region2.as_ptr() as usize;

    list.push(ptr1);
    list.push(ptr2);

    let popped1 = list.pop();
    assert_eq!(popped1, Some(ptr2));

    let popped2 = list.pop();
    assert_eq!(popped2, Some(ptr1));

    assert!(list.pop().is_none());
}

#[test]
fn buddy_cache_drops_the_first_free_block() {
    assert_eq!(calc_grades(16 * 1024, 1024 * 1024 * 1024), 16);
    assert_eq!(calc_grades(8, 8), 0);
    let mut cache: BuddyCache<1, 128, 7> = BuddyCache::new();
    assert_eq!(cache.get(16, 8), None);
    cache.free_lists[5].push(4096);
    cache.free_lists[6].push(8192);
    assert_eq!(cache.get(128, 8), None);
    assert_eq!(cache.free_lists[5].blocks.len(), 1);
    assert_eq!(cache.get(17, 8), None);
    assert_eq!(cache.free_lists[5].blocks.len(), 0);
    assert_eq!(cache.free_lists[6].blocks.len(), 1);
    assert_eq!(cache.get(4, 64), None);
    assert_eq!(cache.free_lists[6].blocks.len(), 0);
}

#[test]
fn data_of_numa_nodes() {
    let mut data = DataPerNUMANodeManager::from_arr([3u32; 64]);
    *data.get_mut_by_node(63) = 5;
    assert_eq!(*data.get_ref_by_node(63), 5);
    assert_eq!(*data.get_ref_by_node(62), 3);
}

#[test]
fn unwrapping_hands_the_value_out() {
    assert_eq!(unwrap_or_bug_message_hint(Some(7u8), "there is a value"), 7);
}
