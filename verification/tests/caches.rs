use orthotope::allocator::Allocator;
use orthotope::config::AllocatorConfig;
use orthotope::error::FreeError;
use orthotope::header::{AllocationHeader, AllocationHeaderPrefix, HEADER_SIZE};
use orthotope::thread_cache::ThreadCache;

const PAGE_SIZE: usize = 4_096;

fn concurrency_config() -> AllocatorConfig {
    AllocatorConfig {
        arena_size: 1 << 24,
        alignment: 64,
        refill_target_bytes: 1,
        local_cache_target_bytes: 1,
    }
}

fn allocator(id: usize) -> Allocator {
    match Allocator::new(concurrency_config(), id, PAGE_SIZE) {
        Ok(allocator) => allocator,
        Err(error) => panic!("expected allocator to initialize: {error:?}"),
    }
}

fn header_in(allocator: &Allocator, user: usize) -> Option<AllocationHeaderPrefix> {
    AllocationHeader::read_from_user_ptr(allocator.memory(), user)
        .ok()
        .map(|(prefix, _)| prefix)
}

#[test]
fn cross_allocator_small_free_is_rejected_as_foreign_pointer() {
    let mut allocating_allocator = allocator(1);
    let mut freeing_allocator = allocator(2);
    let mut allocating_cache = ThreadCache::new(*allocating_allocator.config(), 1);
    let mut freeing_cache = ThreadCache::new(*freeing_allocator.config(), 2);

    let ptr = match allocating_allocator.allocate_with_cache(&mut allocating_cache, 32) {
        Ok(ptr) => ptr,
        Err(error) => panic!("expected source allocator allocation to succeed: {error:?}"),
    };

    let outside = header_in(&allocating_allocator, ptr);
    let result = freeing_allocator.deallocate_with_cache(&mut freeing_cache, ptr, outside);
    assert_eq!(result, Err(FreeError::ForeignPointer));

    match allocating_allocator.deallocate_with_cache(&mut allocating_cache, ptr, None) {
        Ok(()) => {}
        Err(error) => panic!("expected source allocator cleanup free to succeed: {error:?}"),
    }
}

#[test]
fn block_freed_by_another_cache_serves_that_cache_next() {
    let mut allocator = allocator(1);
    let mut allocating = ThreadCache::new(*allocator.config(), 1);
    let mut freeing = ThreadCache::new(*allocator.config(), 2);

    let ptr = allocator
        .allocate_with_cache(&mut allocating, 32)
        .unwrap_or_else(|error| panic!("expected allocation to succeed: {error:?}"));
    assert_eq!(allocator.deallocate_with_cache(&mut freeing, ptr, None), Ok(()));
    assert_eq!(allocator.allocate_with_cache(&mut freeing, 32), Ok(ptr));
    assert_eq!(allocator.deallocate_with_cache(&mut freeing, ptr, None), Ok(()));
}

#[test]
fn drained_blocks_are_visible_to_other_caches() {
    let mut allocator = allocator(1);
    let mut leaving = ThreadCache::new(*allocator.config(), 1);
    let mut arriving = ThreadCache::new(*allocator.config(), 2);

    let ptr = allocator
        .allocate_with_cache(&mut leaving, 70_000)
        .unwrap_or_else(|error| panic!("expected allocation to succeed: {error:?}"));
    assert_eq!(allocator.deallocate_with_cache(&mut leaving, ptr, None), Ok(()));
    allocator.drain_thread_cache(&mut leaving);
    assert_eq!(allocator.allocate_with_cache(&mut arriving, 70_000), Ok(ptr));
}

#[test]
fn many_caches_allocate_and_free_in_turn_without_errors() {
    let mut allocator = allocator(1);
    let mut caches: Vec<ThreadCache> = (1..=8)
        .map(|id| ThreadCache::new(concurrency_config(), id))
        .collect();
    let requests = [1, 64, 65, 256, 257, 4096];
    let mut live: Vec<(usize, usize, u8)> = Vec::new();

    for iteration in 0..2_048 {
        let request = requests[iteration % requests.len()];
        let user = allocator
            .allocate_with_cache(&mut caches[iteration % 8], request)
            .unwrap_or_else(|error| panic!("expected allocation to succeed: {error:?}"));
        for (other, size, _) in &live {
            assert!(user + request + HEADER_SIZE <= *other || other + size + HEADER_SIZE <= user);
        }
        let byte = (iteration % 251) as u8;
        allocator.write_byte(user + request - 1, byte);
        live.push((user, request, byte));
        if live.len() > 24 {
            let (oldest, size, byte) = live.remove(0);
            assert_eq!(allocator.memory().read_byte(oldest + size - 1), byte);
            assert_eq!(
                allocator.deallocate_with_size_checked(
                    &mut caches[(iteration * 5) % 8],
                    oldest,
                    None,
                    size,
                ),
                Ok(())
            );
        }
    }
}

#[test]
fn payloads_survive_other_allocations() {
    let mut allocator = allocator(1);
    let mut cache = ThreadCache::new(*allocator.config(), 1);
    let small = allocator
        .allocate_with_cache(&mut cache, 100)
        .unwrap_or_else(|error| panic!("expected allocation to succeed: {error:?}"));
    for offset in 0..100 {
        allocator.write_byte(small + offset, offset as u8 ^ 0x5a);
    }
    for round in 0..200 {
        let other = allocator
            .allocate_with_cache(&mut cache, 1 + round * 7)
            .unwrap_or_else(|error| panic!("expected allocation to succeed: {error:?}"));
        if round % 2 == 0 {
            assert_eq!(allocator.deallocate_with_cache(&mut cache, other, None), Ok(()));
        }
    }
    for offset in 0..100 {
        assert_eq!(allocator.memory().read_byte(small + offset), offset as u8 ^ 0x5a);
    }
    assert_eq!(allocator.deallocate_with_size_checked(&mut cache, small, None, 100), Ok(()));
}

#[test]
fn large_allocation_of_another_allocator_is_unknown() {
    let config = AllocatorConfig {
        arena_size: 1 << 25,
        ..concurrency_config()
    };
    let mut source = match Allocator::new(config, 1, PAGE_SIZE) {
        Ok(allocator) => allocator,
        Err(error) => panic!("expected allocator to initialize: {error:?}"),
    };
    let mut other = allocator(2);
    let mut source_cache = ThreadCache::new(*source.config(), 1);
    let mut other_cache = ThreadCache::new(*other.config(), 2);

    let ptr = source
        .allocate_with_cache(&mut source_cache, 16_777_217)
        .unwrap_or_else(|error| panic!("expected large allocation to succeed: {error:?}"));
    let outside = header_in(&source, ptr);

    assert_eq!(
        other.deallocate_with_cache(&mut other_cache, ptr, outside),
        Err(FreeError::AlreadyFreedOrUnknownLarge)
    );
    assert_eq!(
        other.deallocate_with_size_checked(&mut other_cache, ptr, outside, 5),
        Err(FreeError::SizeMismatch {
            provided: 5,
            recorded: 16_777_217
        })
    );
    assert_eq!(source.deallocate_with_cache(&mut source_cache, ptr, None), Ok(()));
}

#[test]
fn small_allocation_of_another_allocator_names_a_wrong_size_first() {
    let mut source = allocator(1);
    let mut other = allocator(2);
    let mut source_cache = ThreadCache::new(*source.config(), 1);
    let mut other_cache = ThreadCache::new(*other.config(), 2);

    let ptr = source
        .allocate_with_cache(&mut source_cache, 32)
        .unwrap_or_else(|error| panic!("expected allocation to succeed: {error:?}"));
    let outside = header_in(&source, ptr);

    assert_eq!(
        other.deallocate_with_size_checked(&mut other_cache, ptr, outside, 33),
        Err(FreeError::SizeMismatch {
            provided: 33,
            recorded: 32
        })
    );
    assert_eq!(
        other.deallocate_with_size_checked(&mut other_cache, ptr, outside, 32),
        Err(FreeError::ForeignPointer)
    );
}

#[test]
fn live_allocations_of_two_caches_are_apart() {
    let mut allocator = allocator(1);
    let mut caches = [
        ThreadCache::new(*allocator.config(), 1),
        ThreadCache::new(*allocator.config(), 2),
    ];
    let mut live: Vec<(usize, usize)> = Vec::new();
    for round in 0..40_usize {
        let size = 1 + (round * 97) % 5_000;
        let user = allocator
            .allocate_with_cache(&mut caches[round % 2], size)
            .unwrap_or_else(|error| panic!("expected allocation to succeed: {error:?}"));
        assert_eq!(user % 64, 0);
        for (other, other_size) in &live {
            assert!(user + size <= other - HEADER_SIZE || other + other_size <= user - HEADER_SIZE);
        }
        live.push((user, size));
        if round % 3 == 2 {
            let (freed, _) = live.remove(round % live.len());
            assert_eq!(
                allocator.deallocate_with_cache(&mut caches[(round + 1) % 2], freed, None),
                Ok(())
            );
        }
    }
}
