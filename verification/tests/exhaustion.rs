use orthotope::allocator::Allocator;
use orthotope::config::AllocatorConfig;
use orthotope::error::AllocError;
use orthotope::size_class::SizeClass;
use orthotope::thread_cache::ThreadCache;

const PAGE_SIZE: usize = 4_096;

fn tiny_config() -> AllocatorConfig {
    AllocatorConfig {
        arena_size: 256,
        alignment: 64,
        refill_target_bytes: 128,
        local_cache_target_bytes: 256,
    }
}

fn partial_refill_config() -> AllocatorConfig {
    AllocatorConfig {
        arena_size: 768,
        alignment: 256,
        refill_target_bytes: 384,
        local_cache_target_bytes: 128,
    }
}

fn allocator_and_cache() -> (Allocator, ThreadCache) {
    let allocator = match Allocator::new(tiny_config(), 1, PAGE_SIZE) {
        Ok(allocator) => allocator,
        Err(error) => panic!("expected allocator to initialize: {error:?}"),
    };
    let cache = ThreadCache::new(*allocator.config(), 1);

    (allocator, cache)
}

fn allocator_and_cache_with(config: AllocatorConfig) -> (Allocator, ThreadCache) {
    let allocator = match Allocator::new(config, 2, PAGE_SIZE) {
        Ok(allocator) => allocator,
        Err(error) => panic!("expected allocator to initialize: {error:?}"),
    };
    let cache = ThreadCache::new(*allocator.config(), 2);

    (allocator, cache)
}

#[test]
fn tiny_arena_exhausts_after_exact_number_of_small_blocks() {
    let (mut allocator, mut cache) = allocator_and_cache();

    for attempt in 0..2 {
        match allocator.allocate_with_cache(&mut cache, 1) {
            Ok(_) => {}
            Err(error) => {
                panic!("expected allocation {attempt} to succeed before exhaustion: {error:?}")
            }
        }
    }

    match allocator.allocate_with_cache(&mut cache, 1) {
        Err(AllocError::GlobalInitFailed) => {
            panic!("direct allocator path should never observe global allocator init failure")
        }
        Err(AllocError::OutOfMemory {
            requested,
            remaining,
        }) => {
            assert_eq!(requested, 1);
            assert_eq!(remaining, 0);
        }
        Err(AllocError::ZeroSize) => panic!("unexpected zero-size error for non-zero request"),
        Ok(_) => panic!("expected third allocation to exhaust the arena"),
    }
}

#[test]
fn failed_refill_does_not_poison_reuse_of_freed_block() {
    let (mut allocator, mut cache) = allocator_and_cache();

    let first = match allocator.allocate_with_cache(&mut cache, 1) {
        Ok(ptr) => ptr,
        Err(error) => panic!("expected first allocation to succeed: {error:?}"),
    };
    let second = match allocator.allocate_with_cache(&mut cache, 1) {
        Ok(ptr) => ptr,
        Err(error) => panic!("expected second allocation to succeed: {error:?}"),
    };

    match allocator.allocate_with_cache(&mut cache, 1) {
        Err(AllocError::OutOfMemory { .. }) => {}
        Err(error) => panic!("unexpected allocation error: {error:?}"),
        Ok(_) => panic!("expected allocator to be exhausted"),
    }

    match allocator.deallocate_with_cache(&mut cache, first, None) {
        Ok(()) => {}
        Err(error) => panic!("expected free after exhaustion to succeed: {error:?}"),
    }

    let reused = match allocator.allocate_with_cache(&mut cache, 1) {
        Ok(ptr) => ptr,
        Err(error) => panic!("expected freed block to remain reusable: {error:?}"),
    };

    assert_eq!(reused, first);
    assert_ne!(reused, second);

    match allocator.deallocate_with_size_checked(&mut cache, reused, None, 1) {
        Ok(()) => {}
        Err(error) => panic!("expected reused block to free cleanly: {error:?}"),
    }
    match allocator.deallocate_with_size_checked(&mut cache, second, None, 1) {
        Ok(()) => {}
        Err(error) => panic!("expected second block to free cleanly: {error:?}"),
    }
}

#[test]
fn oversized_large_request_reports_the_requested_size() {
    let (mut allocator, mut cache) = allocator_and_cache();
    let request = SizeClass::max_small_request() + 1;

    assert_eq!(
        allocator.allocate_with_cache(&mut cache, request),
        Err(AllocError::OutOfMemory {
            requested: request,
            remaining: tiny_config().arena_size,
        })
    );
}

#[test]
fn refill_takes_every_block_that_fits_and_no_more() {
    let (mut allocator, mut cache) = allocator_and_cache_with(partial_refill_config());

    assert_eq!(partial_refill_config().refill_count(SizeClass::B64), 3);
    assert_eq!(partial_refill_config().class_block_size(SizeClass::B64), 256);
    for _ in 0..3 {
        assert!(allocator.allocate_with_cache(&mut cache, 1).is_ok());
    }
    assert_eq!(
        allocator.allocate_with_cache(&mut cache, 1),
        Err(AllocError::OutOfMemory {
            requested: 1,
            remaining: 0,
        })
    );
}

#[test]
fn last_refill_shrinks_to_the_room_that_is_left() {
    let config = AllocatorConfig {
        arena_size: 128 * 3,
        alignment: 64,
        refill_target_bytes: 128 * 2,
        local_cache_target_bytes: 128 * 2,
    };
    let (mut allocator, mut cache) = allocator_and_cache_with(config);

    assert_eq!(config.refill_count(SizeClass::B64), 2);
    let first = allocator.allocate_with_cache(&mut cache, 1);
    let second = allocator.allocate_with_cache(&mut cache, 1);
    assert_eq!(allocator.stats().arena_remaining, 128);
    let third = allocator.allocate_with_cache(&mut cache, 1);
    assert_eq!(allocator.stats().arena_remaining, 0);
    let users = [first, second, third].map(|result| result.unwrap_or_else(|error| {
        panic!("expected every block of the arena to be served: {error:?}")
    }));
    assert_eq!(users[1], users[0] + 128);
    assert_eq!(users[2], users[1] + 128);
    assert_eq!(
        allocator.allocate_with_cache(&mut cache, 1),
        Err(AllocError::OutOfMemory {
            requested: 1,
            remaining: 0,
        })
    );
}
