use std::collections::HashSet;

use easy_alloc::allocator_for_self_allocations::AllocatorForSelfAllocations;
use easy_alloc::destruction::{next_timeout, Destruction, FIRST_TIMEOUT};
use easy_alloc::failures::{PanicCause, Refusal};
use easy_alloc::limit::{load_allocated, set_allocator_limit};
use easy_alloc::non_local_ptr_manager::{
    LockFreeNonLocalPtrManager, Node, NonLocalPtrData, NonLocalPtrManager, OffsetToSlotInTable,
    ZeroSizedNonLocalPtrManager,
};
use easy_alloc::os::{Environment, OsAction};
use easy_alloc::region::alloc_region;
use easy_alloc::sizes::{
    recommended_size, SizeClass, COMMON_CHUNK_SIZE, LARGE_CHUNK_SIZE,
};
use easy_alloc::state::State;
use easy_alloc::stats::SnapshotDetailedStats;
use easy_alloc::thread_local_allocator::{DefaultThreadLocalAllocator, ThreadLocalAllocator};

const REGION_SIZE: usize = 2 * 1024 * 1024;

/// An environment in which no mapping was made yet.
fn environment() -> Environment {
    let mut env = Environment::new(REGION_SIZE);
    set_allocator_limit(&mut env.limit, REGION_SIZE * 8000);
    env
}

/// Memory that nobody has mapped yet.
struct Os {
    next: usize,
}

impl Os {
    fn new() -> Os {
        Os { next: 0x1_0000_0000 }
    }

    /// Runs `f` until all its requests are answered, each time from the same start.
    fn run<T, N: NonLocalPtrManager + Clone>(
        &mut self,
        allocator: &mut ThreadLocalAllocator<N>,
        f: impl Fn(&mut ThreadLocalAllocator<N>) -> T,
    ) -> T {
        let mut start = allocator.clone();
        loop {
            let mut attempt = start.clone();
            let result = f(&mut attempt);
            match attempt.inner.env.pending {
                None => {
                    *allocator = attempt;
                    return result;
                }
                Some(request) => {
                    start.inner.env.add_reply(self.next, request.size);
                    self.next += request.size + 12_345;
                }
            }
        }
    }

    fn take<N: NonLocalPtrManager + Clone>(
        &mut self,
        allocator: &mut ThreadLocalAllocator<N>,
        size: usize,
    ) -> usize {
        self.run(allocator, |a| a.alloc_or_panic(size)).unwrap()
    }

    fn give<N: NonLocalPtrManager + Clone>(
        &mut self,
        allocator: &mut ThreadLocalAllocator<N>,
        ptr: usize,
        size: usize,
    ) {
        self.run(allocator, |a| a.dealloc(ptr, size)).unwrap()
    }
}

fn do_test_default_thread_local_allocator(
    f: impl Fn(&mut Os, &mut DefaultThreadLocalAllocator),
) {
    let mut os = Os::new();
    let mut allocator = DefaultThreadLocalAllocator::new_default(environment());

    f(&mut os, &mut allocator);

    if !allocator.is_already_destructured() {
        assert_eq!(os.run(&mut allocator, |a| a.try_free_all_memory()), Ok(Ok(())));
    }
    assert_eq!(load_allocated(&allocator.inner.env.limit), 0);
}

/// Two allocators of one process.
struct Pair {
    os: Os,
    env: Environment,
    allocators: [DefaultThreadLocalAllocator; 2],
}

impl Pair {
    fn new() -> Pair {
        Pair {
            os: Os::new(),
            env: environment(),
            allocators: [
                DefaultThreadLocalAllocator::new_default(environment()),
                DefaultThreadLocalAllocator::new_default(environment()),
            ],
        }
    }

    /// Lets one of the allocators work, and brings the messages to their receivers.
    fn with<T>(
        &mut self,
        i: usize,
        f: impl Fn(&mut DefaultThreadLocalAllocator) -> T,
    ) -> T {
        std::mem::swap(&mut self.env, &mut self.allocators[i].inner.env);
        let result = self.os.run(&mut self.allocators[i], f);
        std::mem::swap(&mut self.env, &mut self.allocators[i].inner.env);
        for message in std::mem::take(&mut self.env.outbox) {
            for allocator in self.allocators.iter_mut() {
                if allocator.inner.manager_ptr == message.to {
                    assert!(allocator.receive(message.node));
                }
            }
        }
        result
    }

    /// Asks both allocators until they have freed their memory.
    fn wait_for_end(&mut self, moved: &mut Vec<(usize, DefaultThreadLocalAllocator)>) {
        for (i, allocator) in moved.drain(..) {
            let env = std::mem::replace(&mut self.allocators[i], allocator).inner.env;
            drop(env);
        }
        for _ in 0..3 {
            for i in 0..2 {
                if self.allocators[i].is_already_destructured() {
                    continue;
                }
                self.with(i, |a| a.check_non_local_ptrs()).unwrap();
                let _ = self.with(i, |a| a.try_free_all_memory()).unwrap();
            }
        }
    }
}

// ---- one thread ----

#[test]
fn one_thread() {
    do_test_default_thread_local_allocator(|os, allocator| {
        let common_size1 = 15;

        let common_ptr1 = os.take(allocator, common_size1);

        os.give(allocator, common_ptr1, common_size1);

        assert!(
            os.run(allocator, |a| a.try_free_all_memory()).unwrap().is_ok(),
            "Memory is not freed after the fourth deallocation."
        );
    });
}

#[test]
fn memory_in_use_is_not_freed() {
    do_test_default_thread_local_allocator(|os, allocator| {
        let sizes = [15, 987, 4090, 12_345];
        let ptrs: Vec<usize> = sizes.iter().map(|size| os.take(allocator, *size)).collect();
        for (ptr, size) in ptrs.into_iter().zip(sizes) {
            assert_eq!(os.run(allocator, |a| a.try_free_all_memory()), Ok(Err(())));
            os.give(allocator, ptr, size);
        }
    });
}

#[test]
fn first_alloc() {
    do_test_default_thread_local_allocator(|os, allocator| {
        let ptr = os.take(allocator, 1024);

        os.give(allocator, ptr, 1024);
    });
}

fn first_self_alloc_(os: &mut Os, allocator: &mut DefaultThreadLocalAllocator, with_state: bool) {
    let (ptr1, ptr2, ptr3) = os
        .run(allocator, |allocator| {
            let mut maybe_state = None;
            if with_state {
                let region = match alloc_region(&mut allocator.inner.env) {
                    Some(region) => region,
                    None => return None,
                };
                maybe_state = Some(State::from_region(region, REGION_SIZE));
            }
            let ptr1 = allocator.self_alloc(56, &mut maybe_state);
            let ptr2 = allocator.self_alloc(1152, &mut maybe_state);
            let (ptr1, ptr2) = match (ptr1, ptr2) {
                (Ok(Some(ptr1)), Ok(Some(ptr2))) => (ptr1, ptr2),
                _ => return None,
            };

            if with_state {
                let state = maybe_state.take().unwrap();
                assert!(!state.nodes[0].used_common_chunks.is_empty());
                assert!(state.nodes[0].used_large_chunks.iter().any(|chunk| chunk.1 == 1152));
                assert!(state.nodes[0].used_common_chunks.iter().any(|chunk| chunk.1 == 56));

                if allocator.handle_state(state).is_err() {
                    return None;
                }
            }

            let ptr3 = allocator.try_alloc_common_from_cache(1024, &mut None);

            assert!(
                matches!(ptr3, Ok(Some(_))),
                "`used_common_chunks` should be moved to the allocator after `handle_state`."
            );
            Some((ptr1, ptr2, ptr3.unwrap().unwrap()))
        })
        .unwrap();

    for (ptr, size) in [(ptr1, 56), (ptr2, 1152), (ptr3, 1024)] {
        os.run(allocator, |a| a.self_dealloc(ptr, size, &mut None)).unwrap();
    }
}

#[test]
fn first_self_alloc_without_state() {
    do_test_default_thread_local_allocator(|os, allocator| {
        first_self_alloc_(os, allocator, false)
    });
}

#[test]
fn first_self_alloc_with_state() {
    do_test_default_thread_local_allocator(|os, allocator| first_self_alloc_(os, allocator, true));
}

// ---- two threads ----

#[test]
fn two_threads_destructors_called() {
    let mut pair = Pair::new();

    for i in 0..2 {
        let is_deallocated = pair.with(i, |allocator| {
            let _ = allocator.get_or_init_and_get_non_local_ptr_manager_ptr(&mut None);
            allocator.non_local_ptr_manager.as_ref().map(|nlpm| nlpm.clone_is_deallocated())
        });
        assert_eq!(is_deallocated, Some(false));
    }

    for i in 0..2 {
        let freed = pair.with(i, |allocator| {
            matches!(allocator.destructor(false), Ok(Destruction::Freed))
        });
        assert!(freed);
        assert!(pair.allocators[i].is_already_destructured());
        assert!(pair.allocators[i].ended_manager.as_ref().unwrap().clone_is_deallocated());
    }
    assert_eq!(load_allocated(&pair.env.limit), 0);
}

#[test]
fn a_manager_knows_that_it_has_ended() {
    let mut manager = LockFreeNonLocalPtrManager::new();
    assert!(!manager.clone_is_deallocated());
    manager.self_drop();
    assert!(manager.clone_is_deallocated());
}

#[test]
fn two_threads_correct_destruction_with_ptr_sharing() {
    let mut pair = Pair::new();
    let sizes = [25, 3111, 560_000];
    let mut ptrs: Vec<Vec<usize>> = Vec::new();

    for i in 0..2 {
        pair.with(i, |a| a.get_or_init_and_get_non_local_ptr_manager_ptr(&mut None)).unwrap();
        ptrs.push(sizes.iter().map(|size| pair.with(i, |a| a.alloc_or_panic(*size)).unwrap()).collect());
    }

    for i in 0..2 {
        let other = &pair.allocators[1 - i];
        assert!(!other.non_local_ptr_manager.as_ref().unwrap().clone_is_deallocated());
        for (ptr, size) in ptrs[1 - i].clone().into_iter().zip(sizes) {
            pair.with(i, |a| a.dealloc(ptr, size)).unwrap();
        }
    }

    let mut moved = Vec::new();
    for i in 0..2 {
        let result = pair.with(i, |a| {
            let result = a.destructor(false);
            result.map(|r| match r {
                Destruction::Moved(allocator) => Some(allocator),
                _ => None,
            })
        });
        if let Some(mut allocator) = result.unwrap() {
            allocator.inner.env = environment();
            moved.push((i, allocator));
        }
    }
    pair.wait_for_end(&mut moved);

    for allocator in pair.allocators.iter() {
        assert!(allocator.is_already_destructured());
        assert!(allocator.ended_manager.as_ref().unwrap().clone_is_deallocated());
    }
    assert_eq!(load_allocated(&pair.env.limit), 0);
}

#[test]
fn many_tls_value_use_allocator() {
    do_test_default_thread_local_allocator(|os, allocator| {
        let ptrs: Vec<usize> = (0..26).map(|_| os.take(allocator, 1024)).collect();
        assert_eq!(ptrs.iter().collect::<HashSet<_>>().len(), 26);

        let mut moved = match os.run(allocator, |a| a.destructor(false)) {
            Ok(Destruction::Moved(moved)) => moved,
            _ => panic!("memory is in use"),
        };
        std::mem::swap(&mut moved.inner.env, &mut allocator.inner.env);

        for ptr in ptrs {
            os.give(&mut moved, ptr, 1024);
        }

        assert_eq!(os.run(&mut moved, |a| a.try_free_all_memory()), Ok(Ok(())));
        assert!(moved.is_already_destructured());
        std::mem::swap(&mut moved.inner.env, &mut allocator.inner.env);
    });
}

#[test]
fn use_allocator_after_destructing() {
    let mut os = Os::new();
    let mut env = environment();
    for _ in 0..10 {
        let mut allocator = DefaultThreadLocalAllocator::new_default(env);
        let ptr1 = os.take(&mut allocator, 1024);
        os.give(&mut allocator, ptr1, 1024);

        assert!(matches!(
            os.run(&mut allocator, |a| a.destructor(false)),
            Ok(Destruction::Freed)
        ));
        assert!(matches!(
            os.run(&mut allocator, |a| a.destructor(false)),
            Ok(Destruction::Nothing)
        ));
        env = allocator.inner.env;
        assert_eq!(load_allocated(&env.limit), 0);
    }
}

#[test]
fn use_allocator_after_destructing_with_two_threads() {
    for _ in 0..10 {
        let mut pair = Pair::new();
        let ptr1 = pair.with(0, |a| a.alloc_or_panic(1024)).unwrap();

        let mut moved = match pair.with(0, |a| a.destructor(false)) {
            Ok(Destruction::Moved(moved)) => moved,
            _ => panic!("memory is in use"),
        };
        moved.inner.env = environment();
        assert!(pair.allocators[0].is_already_destructured());
        pair.allocators[0] = moved;

        pair.with(1, |a| a.dealloc(ptr1, 1024)).unwrap();
        assert!(matches!(pair.with(1, |a| a.destructor(false)), Ok(Destruction::Freed)
            | Ok(Destruction::Moved(_))));

        assert_eq!(pair.with(0, |a| a.try_free_all_memory()), Ok(Err(())));
        pair.with(0, |a| a.check_non_local_ptrs()).unwrap();
        assert_eq!(pair.with(0, |a| a.try_free_all_memory()), Ok(Ok(())));
    }
}

#[test]
fn with_zero_sized_nlpm() {
    let mut os = Os::new();
    let mut allocator = ThreadLocalAllocator::<ZeroSizedNonLocalPtrManager>::new(environment());

    let ptr = os.take(&mut allocator, 8);
    os.give(&mut allocator, ptr, 8);

    assert!(allocator.ended_manager.is_none());
    assert!(matches!(os.run(&mut allocator, |a| a.destructor(false)), Ok(Destruction::Freed)));

    assert!(allocator.ended_manager.unwrap().is_deallocated);
    assert!(allocator.is_already_destructured());
    assert_eq!(load_allocated(&allocator.inner.env.limit), 0);
    assert!(matches!(os.run(&mut allocator, |a| a.destructor(false)), Ok(Destruction::Nothing)));
}

#[test]
fn every_object_of_a_large_chunk_can_be_given_back() {
    let mut os = Os::new();
    let mut allocator = DefaultThreadLocalAllocator::new_default(environment());
    for size in [2048, 15_360, 65_536] {
        let ptrs: Vec<usize> = (0..LARGE_CHUNK_SIZE / size).map(|_| os.take(&mut allocator, size)).collect();
        for ptr in ptrs {
            os.give(&mut allocator, ptr, size);
        }
    }
    assert_eq!(allocator.inner.env.outbox.len(), 0);
}

#[test]
fn the_limit_turns_great_blocks_down_at_once() {
    let mut env = environment();
    set_allocator_limit(&mut env.limit, 1000);
    let mut allocator = DefaultThreadLocalAllocator::new_default(env);
    assert_eq!(allocator.alloc_or_panic(200_000), Err(PanicCause::OutOfMemory));
    assert_eq!(load_allocated(&allocator.inner.env.limit), 0);
    assert!(allocator.lazy_detailed_stats().next().is_none());
}

#[test]
fn extra_large_blocks_are_told_by_their_sizes() {
    let mut os = Os::new();
    let mut allocator = DefaultThreadLocalAllocator::new_default(environment());
    for size in [543_210, 543_210, 200_000, 200_000, 200_000] {
        os.take(&mut allocator, size);
    }
    let mut told = allocator.iter_allocated_size();
    let mut found = Vec::new();
    while let Some((class, info)) = told.next() {
        if class == SizeClass::ExtraLarge {
            found.push((info.size_of_elem(), info.memory_allocated(), info.objects_used()));
        }
    }
    assert_eq!(found, vec![(200_000, 600_000, 3), (543_210, 1_086_420, 2)]);
}

// ---- statistics ----

const DATA: [(usize, usize); 6] =
    [(9, 123), (511, 12), (2000, 5), (15123, 3), (200_000, 3), (543_210, 2)];

fn allocate_data(
    os: &mut Os,
    allocator: &mut DefaultThreadLocalAllocator,
) -> Vec<(usize, Vec<usize>)> {
    DATA.iter()
        .map(|(size, number)| {
            (*size, (0..*number).map(|_| os.take(allocator, *size)).collect())
        })
        .collect()
}

fn deallocate_data(
    os: &mut Os,
    allocator: &mut DefaultThreadLocalAllocator,
    ptrs: Vec<(usize, Vec<usize>)>,
) {
    for (size, ptrs) in ptrs {
        for ptr in ptrs {
            os.give(allocator, ptr, size);
        }
    }
}

#[test]
fn detailed_stats_basic() {
    do_test_default_thread_local_allocator(|os, allocator| {
        let ptrs = allocate_data(os, allocator);
        let stats = allocator.snapshot_detailed_stats();

        for (size, number) in DATA {
            let objects_used = stats
                .iter()
                .find(|info| info.size_of_elem() == recommended_size(size))
                .expect("size is not allocated or is not in lazy stats")
                .objects_used();

            assert!(objects_used >= number);
        }
        assert_eq!(SnapshotDetailedStats::new(allocator).iter().len(), stats.len());

        deallocate_data(os, allocator, ptrs);
    });
}

#[test]
fn lazy_detailed_stats_basic() {
    do_test_default_thread_local_allocator(|os, allocator| {
        let ptrs = allocate_data(os, allocator);
        let mut stats = Vec::new();
        let mut lazy = allocator.lazy_detailed_stats();
        let expected = lazy.size_hint().0;
        while let Some(info) = lazy.next() {
            stats.push(info);
        }
        assert!(stats.len() >= expected);

        for (size, number) in DATA {
            let objects_used = stats
                .iter()
                .find(|info| info.size_of_elem() == recommended_size(size))
                .expect("size is not allocated or is not in lazy stats")
                .objects_used();

            assert!(objects_used >= number);
        }

        deallocate_data(os, allocator, ptrs);
    });
}

#[test]
fn short_stats_basic() {
    do_test_default_thread_local_allocator(|os, allocator| {
        let ptrs = allocate_data(os, allocator);
        let stats = allocator.short_stats();
        let mut minimal_used_size = 0;
        let mut minimal_allocated_size = 0;

        for (size, number) in DATA {
            minimal_used_size += size * number;

            match SizeClass::define(size) {
                SizeClass::Common => {
                    assert!(size * number <= COMMON_CHUNK_SIZE);
                    minimal_allocated_size += COMMON_CHUNK_SIZE;
                }
                SizeClass::Large => {
                    assert!(size * number <= LARGE_CHUNK_SIZE);
                    minimal_allocated_size += LARGE_CHUNK_SIZE;
                }
                SizeClass::ExtraLarge => {
                    minimal_allocated_size += size * number;
                }
            }
        }

        assert!(
            stats.used_memory() >= minimal_used_size,
            "stats.used_memory() = {} while should be at least {}",
            stats.used_memory(),
            minimal_used_size
        );

        assert!(
            stats.allocated_memory_from_os() >= minimal_allocated_size,
            "stats.allocated_memory_from_os() = {} while should be at least {}",
            stats.allocated_memory_from_os(),
            minimal_allocated_size
        );

        deallocate_data(os, allocator, ptrs);
    });
}

#[test]
fn stats_of_one_size() {
    do_test_default_thread_local_allocator(|os, allocator| {
        let ptr = os.take(allocator, 100);
        let info = *allocator
            .snapshot_detailed_stats()
            .iter()
            .find(|info| info.size_of_elem() == 104)
            .unwrap();
        assert_eq!(info.memory_allocated(), COMMON_CHUNK_SIZE);
        assert_eq!(info.objects_allocated(), COMMON_CHUNK_SIZE / 104);
        assert_eq!(info.objects_used(), 1);
        assert_eq!(info.memory_used(), 104);
        assert_eq!(info.allocated_for_self_objects(), 0);
        os.give(allocator, ptr, 100);
    });
}

// ---- the rest ----

#[test]
fn what_cannot_be_counted_is_not_told() {
    let half = usize::MAX / 2 + 1;
    let mut allocator = DefaultThreadLocalAllocator::new_default(environment());
    allocator.inner.add_map_node(0x2000);
    assert!(allocator.can_be_told());
    assert!(allocator.can_be_summed());

    allocator.inner.count_size(half).unwrap();
    assert!(allocator.can_be_told());
    assert!(allocator.can_be_summed());

    allocator.inner.count_size(half + 1).unwrap();
    assert!(allocator.can_be_told());
    assert!(!allocator.can_be_summed());

    allocator.inner.count_size(half).unwrap();
    assert!(!allocator.can_be_told());
}

#[test]
fn no_two_objects_overlap() {
    do_test_default_thread_local_allocator(|os, allocator| {
        let mut blocks: Vec<(usize, usize)> = Vec::new();
        let data = [
            (8, 4000), (24, 30), (100, 30), (1000, 60), (1025, 18), (3000, 15), (50_000, 1),
            (102_400, 1), (300_000, 3),
        ];
        for (size, number) in data {
            for _ in 0..number {
                blocks.push((os.take(allocator, size), size));
            }
        }
        blocks.sort();
        for pair in blocks.windows(2) {
            assert!(pair[0].0 + recommended_size(pair[0].1) <= pair[1].0);
        }
        for (ptr, size) in blocks {
            os.give(allocator, ptr, size);
        }
    });
}

#[test]
fn an_object_that_was_given_back_is_the_next_one() {
    do_test_default_thread_local_allocator(|os, allocator| {
        let first = os.take(allocator, 40);
        let second = os.take(allocator, 40);
        os.give(allocator, first, 40);
        assert_eq!(os.take(allocator, 37), first);
        os.give(allocator, second, 40);
        os.give(allocator, first, 40);
    });
}

#[test]
fn extra_large_blocks_go_back_to_the_system() {
    let mut os = Os::new();
    let mut allocator = DefaultThreadLocalAllocator::new_default(environment());
    let before = load_allocated(&allocator.inner.env.limit);
    let ptr = os.take(&mut allocator, 200_000);
    assert_eq!(
        load_allocated(&allocator.inner.env.limit) % REGION_SIZE,
        (before + 200_000) % REGION_SIZE
    );
    os.give(&mut allocator, ptr, 200_000);
    assert_eq!(
        allocator.inner.env.actions.iter().filter(|action| **action
            == OsAction::Unmap { ptr, size: 200_000 }).count(),
        1
    );
    assert_eq!(os.run(&mut allocator, |a| a.try_free_all_memory()), Ok(Ok(())));
    assert_eq!(load_allocated(&allocator.inner.env.limit), 0);
}

#[test]
fn the_limit_is_kept() {
    let mut os = Os::new();
    let mut env = environment();
    set_allocator_limit(&mut env.limit, REGION_SIZE - 1);
    let mut allocator = DefaultThreadLocalAllocator::new_default(env);
    let result = os.run(&mut allocator, |a| a.try_alloc(16));
    assert!(matches!(result, Ok(None) | Err(PanicCause::FirstAllocation)));
    assert_eq!(load_allocated(&allocator.inner.env.limit), 0);
    assert!(allocator.inner.env.refusals.contains(&Refusal::Limit(REGION_SIZE)));
}

#[test]
fn the_system_may_refuse() {
    let mut env = environment();
    for _ in 0..10 {
        env.add_reply(0, 0);
    }
    let mut allocator = DefaultThreadLocalAllocator::new_default(env);
    let result = allocator.alloc_or_panic(16);
    assert!(result.is_err());
    println!("{}", result.unwrap_err().message());
    assert_eq!(load_allocated(&allocator.inner.env.limit), 0);
}

/// Runs `f` with the request at `refused` turned down and all others answered.
fn run_with_refusal<T>(
    allocator: &DefaultThreadLocalAllocator,
    refused: usize,
    f: impl Fn(&mut DefaultThreadLocalAllocator) -> T,
) -> T {
    let mut start = allocator.clone();
    let mut next = 0x7_0000_0000;
    let mut n = 0;
    loop {
        let mut attempt = start.clone();
        let result = f(&mut attempt);
        match attempt.inner.env.pending {
            None => return result,
            Some(request) => {
                if n == refused {
                    start.inner.env.add_reply(0, 0);
                } else {
                    start.inner.env.add_reply(next, request.size);
                    next += request.size + 4096;
                }
                n += 1;
            }
        }
    }
}

#[test]
fn a_refused_request_breaks_off_what_needs_it() {
    let fresh = DefaultThreadLocalAllocator::new_default(environment());
    let first = |refused| {
        run_with_refusal(&fresh, refused, |a| {
            a.get_or_init_and_get_non_local_ptr_manager_ptr(&mut None).err()
        })
    };
    assert_eq!(first(0), Some(PanicCause::FirstAllocation));
    assert_eq!(first(1), Some(PanicCause::ObjectVector));
    assert_eq!(first(3), None);

    let alloc_large = |refused| {
        run_with_refusal(&fresh, refused, |a| a.alloc_or_panic(200_000).err())
    };
    assert_eq!(alloc_large(0), Some(PanicCause::OutOfMemory));
    assert_eq!(alloc_large(1), Some(PanicCause::SizeCount));

    let mut env = environment();
    set_allocator_limit(&mut env.limit, 100_000);
    let mut limited = DefaultThreadLocalAllocator::new_default(env);
    assert_eq!(limited.alloc_or_panic(200_000), Err(PanicCause::OutOfMemory));
    assert_eq!(limited.inner.env.refusals, vec![Refusal::Limit(200_000)]);
}

/// A state with one region of which so many chunks are taken.
fn state_without(
    allocator: &mut DefaultThreadLocalAllocator,
    large_chunks: usize,
    common_chunks: usize,
) -> Option<State> {
    let region = alloc_region(&mut allocator.inner.env)?;
    let mut state = State::from_region(region, REGION_SIZE);
    for _ in 0..large_chunks {
        state.get_free_large_chunk(true, &mut allocator.inner.env)?;
    }
    for _ in 0..common_chunks {
        state.get_free_common_chunk(true, &mut allocator.inner.env)?;
    }
    Some(state)
}

/// An allocator that has taken over so many regions, and has nothing left that is free.
fn dry_allocator(regions: usize) -> DefaultThreadLocalAllocator {
    let mut os = Os::new();
    let mut allocator = DefaultThreadLocalAllocator::new_default(environment());
    os.run(&mut allocator, |a| a.get_or_init_and_get_non_local_ptr_manager_ptr(&mut None))
        .unwrap();
    for _ in 1..regions {
        os.run(&mut allocator, |a| match state_without(a, 0, 0) {
            Some(state) => a.handle_state(state),
            None => Ok(()),
        })
        .unwrap();
    }
    for slot in (0..216).chain(432..434) {
        while allocator.inner.vectors[slot].pop().is_some() {}
    }
    allocator
}

#[test]
fn a_refused_request_breaks_off_the_commitment_of_a_state() {
    let commit = |regions, refused, large_chunks, common_chunks, size| {
        run_with_refusal(&dry_allocator(regions), refused, |a| {
            let mut state = state_without(a, large_chunks, common_chunks)?;
            if size > 0 {
                state.alloc_size(true, SizeClass::define(size), size, &mut a.inner.env)?;
            }
            a.handle_state(state).err()
        })
    };
    assert_eq!(commit(2, 1, 3, 6, 0), Some(PanicCause::CommonChunks));
    assert_eq!(commit(1, 1, 2, 7, 2048), Some(PanicCause::LargeChunks));
    assert_eq!(commit(2, 1, 2, 6, 2048), Some(PanicCause::Regions));
    assert_eq!(commit(1, 2, 3, 0, 2048), Some(PanicCause::ReturnedPointer));
    assert_eq!(commit(1, 100, 3, 6, 0), None);

    let fresh = DefaultThreadLocalAllocator::new_default(environment());
    assert_eq!(
        run_with_refusal(&fresh, 1, |a| {
            let state = state_without(a, 3, 7)?;
            a.handle_state(state).err()
        }),
        Some(PanicCause::Manager)
    );
    assert_eq!(
        run_with_refusal(&fresh, 100, |a| {
            let state = state_without(a, 36, 0)?;
            a.handle_state(state).err()
        }),
        Some(PanicCause::TooManyStates)
    );
}

#[test]
fn a_node_of_an_unknown_sender_is_not_taken() {
    let mut os = Os::new();
    let mut allocator = DefaultThreadLocalAllocator::new_default(environment());
    let ptr = os.take(&mut allocator, 64);
    let value = NonLocalPtrData::new(ptr, OffsetToSlotInTable::new_for_class(7));
    assert!(allocator.receive(Node { address: 0x5000_0000, value }));
    assert_eq!(
        os.run(&mut allocator, |a| a.check_non_local_ptrs()),
        Err(PanicCause::MissingMetadata)
    );
}

#[test]
fn an_unknown_pointer_is_not_taken() {
    let mut os = Os::new();
    let mut allocator = DefaultThreadLocalAllocator::new_default(environment());
    assert_eq!(
        os.run(&mut allocator, |a| a.dealloc(0x5000_0000, 64)),
        Err(PanicCause::MissingMetadata)
    );
    assert_eq!(
        PanicCause::MissingMetadata.message(),
        "The pointer does not belong to any allocator"
    );
}

#[test]
fn nothing_ends_while_a_thread_panics() {
    do_test_default_thread_local_allocator(|os, allocator| {
        let ptr = os.take(allocator, 64);
        assert!(matches!(
            os.run(allocator, |a| a.destructor(true)),
            Ok(Destruction::Nothing)
        ));
        os.give(allocator, ptr, 64);
    });
}

#[test]
fn timeouts_double_up_to_a_second() {
    let mut timeout = FIRST_TIMEOUT;
    for _ in 0..5 {
        timeout = next_timeout(timeout);
    }
    assert_eq!(timeout, 512);
    for _ in 0..20 {
        timeout = next_timeout(timeout);
    }
    assert_eq!(timeout, 1_000_000);
}
