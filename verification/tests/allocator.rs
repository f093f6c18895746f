use orthotope::allocator::Allocator;
use orthotope::config::AllocatorConfig;
use orthotope::error::InitError;
use orthotope::size_class::SizeClass;
use orthotope::thread_cache::ThreadCache;

const PAGE_SIZE: usize = 4_096;

fn test_config() -> AllocatorConfig {
    AllocatorConfig {
        arena_size: 64 * 1024 * 1024,
        alignment: 64,
        refill_target_bytes: 256,
        local_cache_target_bytes: 384,
    }
}

#[test]
fn stats_report_arena_capacity_and_small_central_occupancy() {
    let mut allocator = Allocator::new(test_config(), 1, PAGE_SIZE)
        .unwrap_or_else(|error| panic!("expected allocator to initialize: {error:?}"));
    let mut source = ThreadCache::new(test_config(), 1);
    let mut pointers = [None; 4];

    for slot in &mut pointers {
        let ptr = allocator
            .allocate_with_cache(&mut source, 32)
            .unwrap_or_else(|error| panic!("expected small allocation to succeed: {error:?}"));
        *slot = Some(ptr);
    }

    for ptr in pointers.into_iter().flatten() {
        allocator
            .deallocate_with_cache(&mut source, ptr, None)
            .unwrap_or_else(|error| panic!("expected small free to succeed: {error:?}"));
    }
    allocator.drain_thread_cache(&mut source);

    let stats = allocator.stats();
    let class_stats = stats.small_central[SizeClass::B64.index()];

    assert_eq!(stats.arena_capacity, test_config().arena_size);
    assert!(stats.arena_remaining < stats.arena_capacity);
    assert_eq!(class_stats.class, SizeClass::B64);
    assert_eq!(class_stats.blocks, 4);
    assert_eq!(
        class_stats.bytes,
        4 * SizeClass::B64.block_size_for_alignment(64)
    );
    assert_eq!(stats.total_small_central_blocks(), 4);
    assert_eq!(stats.total_small_central_bytes(), class_stats.bytes);
}

#[test]
fn stats_report_large_live_and_reusable_bytes() {
    let mut allocator = Allocator::new(test_config(), 2, PAGE_SIZE)
        .unwrap_or_else(|error| panic!("expected allocator to initialize: {error:?}"));
    let mut cache = ThreadCache::new(test_config(), 2);

    let requested = SizeClass::max_small_request() + 1;
    let ptr = allocator
        .allocate_with_cache(&mut cache, requested)
        .unwrap_or_else(|error| panic!("expected large allocation to succeed: {error:?}"));

    let live_stats = allocator.stats();
    assert_eq!(live_stats.large_live_allocations, 1);
    assert!(live_stats.large_live_bytes >= requested);
    assert_eq!(live_stats.large_free_blocks, 0);

    allocator
        .deallocate_with_cache(&mut cache, ptr, None)
        .unwrap_or_else(|error| panic!("expected large free to succeed: {error:?}"));

    let freed_stats = allocator.stats();
    assert_eq!(freed_stats.large_live_allocations, 0);
    assert_eq!(freed_stats.large_free_blocks, 1);
    assert_eq!(freed_stats.large_free_bytes, live_stats.large_live_bytes);
}

#[test]
fn slab_refill_counts_each_fresh_block_once_and_reuses_freed_block() {
    let mut allocator = Allocator::new(test_config(), 3, PAGE_SIZE)
        .unwrap_or_else(|error| panic!("expected allocator to initialize: {error:?}"));
    let mut cache = ThreadCache::new(test_config(), 3);
    let class = SizeClass::B64;
    let request = 32;
    let carved = test_config().refill_count(class);

    let mut allocated = Vec::with_capacity(carved);
    for _ in 0..carved {
        let ptr = allocator
            .allocate_with_cache(&mut cache, request)
            .unwrap_or_else(|error| panic!("expected slab allocation to succeed: {error:?}"));
        allocated.push(ptr);
    }

    let stats = cache.stats();
    assert_eq!(stats.local[class.index()].blocks, 0);
    assert!(cache.needs_refill(class));

    let freed = allocated[0];
    allocator
        .deallocate_with_cache(&mut cache, freed, None)
        .unwrap_or_else(|error| panic!("expected slab free to succeed: {error:?}"));

    let stats = cache.stats();
    assert_eq!(stats.local[class.index()].blocks, 1);
    assert!(!cache.needs_refill(class));

    let reused = allocator
        .allocate_with_cache(&mut cache, request)
        .unwrap_or_else(|error| panic!("expected freed slab block to be reused: {error:?}"));
    assert_eq!(reused, freed);

    for ptr in allocated.into_iter().skip(1) {
        allocator
            .deallocate_with_cache(&mut cache, ptr, None)
            .unwrap_or_else(|error| {
                panic!("expected remaining slab allocation free to succeed: {error:?}")
            });
    }

    allocator
        .deallocate_with_cache(&mut cache, reused, None)
        .unwrap_or_else(|error| {
            panic!("expected reused slab block free to succeed: {error:?}")
        });
}

#[test]
fn frees_and_drains_give_no_bytes_back_to_the_arena() {
    let mut allocator = Allocator::new(test_config(), 1, PAGE_SIZE)
        .unwrap_or_else(|error| panic!("expected allocator to initialize: {error:?}"));
    let mut cache = ThreadCache::new(test_config(), 1);
    let mut remaining = allocator.stats().arena_remaining;
    assert_eq!(remaining, test_config().arena_size);

    for size in [32, 32, 5_000, 17_000_000, 64] {
        let user = allocator
            .allocate_with_cache(&mut cache, size)
            .unwrap_or_else(|error| panic!("expected allocation to succeed: {error:?}"));
        let reserved = allocator.stats().arena_remaining;
        assert!(reserved <= remaining);
        assert_eq!(allocator.deallocate_with_cache(&mut cache, user, None), Ok(()));
        assert_eq!(allocator.stats().arena_remaining, reserved);
        assert_eq!(allocator.allocate_with_cache(&mut cache, size), Ok(user));
        assert_eq!(allocator.stats().arena_remaining, reserved);
        assert_eq!(allocator.deallocate_with_cache(&mut cache, user, None), Ok(()));
        assert!(allocator.deallocate_with_cache(&mut cache, user, None).is_err());
        remaining = reserved;
    }
    allocator.drain_thread_cache(&mut cache);
    assert_eq!(allocator.stats().arena_remaining, remaining);
    assert_eq!(allocator.stats().arena_capacity, test_config().arena_size);
}

#[test]
fn arena_over_half_the_address_space_cannot_be_mapped() {
    let config = AllocatorConfig {
        arena_size: 1 << 63,
        ..test_config()
    };
    assert!(matches!(
        Allocator::new(config, 1, PAGE_SIZE),
        Err(InitError::MapFailed(_))
    ));
}
