use orthotope::allocator::Allocator;
use orthotope::config::AllocatorConfig;
use orthotope::header::block_start_from_user_ptr;
use orthotope::local_slab::BlockReuse;
use orthotope::memory::Memory;
use orthotope::size_class::SizeClass;
use orthotope::thread_cache::ThreadCache;

const PAGE_SIZE: usize = 4_096;

fn test_config() -> AllocatorConfig {
    AllocatorConfig {
        arena_size: 4096,
        alignment: 64,
        refill_target_bytes: 256,
        local_cache_target_bytes: 384,
    }
}

fn map_page() -> Memory {
    Memory::map(PAGE_SIZE)
        .unwrap_or_else(|error| panic!("expected test memory to be mapped: {error:?}"))
}

fn allocate_small_blocks(
    allocator: &mut Allocator,
    cache: &mut ThreadCache,
    count: usize,
) -> Vec<usize> {
    allocate_blocks_of_size(allocator, cache, count, 32)
}

fn allocate_blocks_of_size(
    allocator: &mut Allocator,
    cache: &mut ThreadCache,
    count: usize,
    requested_size: usize,
) -> Vec<usize> {
    let mut pointers = Vec::with_capacity(count);

    for _ in 0..count {
        let ptr = allocator
            .allocate_with_cache(cache, requested_size)
            .unwrap_or_else(|error| panic!("expected small allocation to succeed: {error:?}"));
        pointers.push(ptr);
    }

    pointers
}

fn sweepable_test_class() -> SizeClass {
    let page_size = PAGE_SIZE;
    SizeClass::ALL
        .into_iter()
        .find(|class| class.block_size() >= page_size)
        .unwrap_or_else(|| panic!("expected at least one size class to span a full page"))
}

fn test_config_for_class(class: SizeClass) -> AllocatorConfig {
    let block_size = test_config().class_block_size(class);
    AllocatorConfig {
        arena_size: block_size * 4,
        alignment: test_config().alignment,
        refill_target_bytes: block_size,
        local_cache_target_bytes: block_size * 2,
    }
}

#[test]
fn empty_cache_needs_refill_and_refill_moves_configured_batch() {
    let mut allocator = Allocator::new(test_config(), 1, PAGE_SIZE)
        .unwrap_or_else(|error| panic!("expected allocator to initialize: {error:?}"));
    let mut source = ThreadCache::new(test_config(), 1);
    let mut destination = ThreadCache::new(test_config(), 2);
    let pointers = allocate_small_blocks(&mut allocator, &mut source, 2);

    for ptr in pointers {
        allocator
            .deallocate_with_cache(&mut source, ptr, None)
            .unwrap_or_else(|error| panic!("expected small free to succeed: {error:?}"));
    }
    allocator.drain_thread_cache(&mut source);

    assert!(destination.needs_refill(SizeClass::B64));
    let moved =
        allocator.refill_thread_cache_from_central_for_test(&mut destination, SizeClass::B64);
    assert_eq!(moved, 2);
    assert!(!destination.needs_refill(SizeClass::B64));
    assert_eq!(
        allocator.stats().small_central[SizeClass::B64.index()].blocks,
        0
    );
}

#[test]
fn drain_excess_returns_exact_drain_batch_to_central() {
    let mut allocator = Allocator::new(test_config(), 2, PAGE_SIZE)
        .unwrap_or_else(|error| panic!("expected allocator to initialize: {error:?}"));
    let mut cache = ThreadCache::new(test_config(), 3);
    let pointers = allocate_small_blocks(&mut allocator, &mut cache, 4);

    for ptr in pointers {
        allocator
            .deallocate_with_cache(&mut cache, ptr, None)
            .unwrap_or_else(|error| panic!("expected small free to succeed: {error:?}"));
    }

    assert_eq!(
        allocator.stats().small_central[SizeClass::B64.index()].blocks,
        1
    );

    let mut popped = 0;
    while cache.pop(SizeClass::B64, allocator.memory()).is_some() {
        popped += 1;
    }
    assert_eq!(popped, 3);
}

#[test]
fn drain_excess_is_a_noop_below_limit() {
    let mut allocator = Allocator::new(test_config(), 3, PAGE_SIZE)
        .unwrap_or_else(|error| panic!("expected allocator to initialize: {error:?}"));
    let mut cache = ThreadCache::new(test_config(), 4);
    let pointers = allocate_small_blocks(&mut allocator, &mut cache, 2);

    for ptr in pointers {
        allocator
            .deallocate_with_cache(&mut cache, ptr, None)
            .unwrap_or_else(|error| panic!("expected small free to succeed: {error:?}"));
    }

    assert_eq!(
        allocator.stats().small_central[SizeClass::B64.index()].blocks,
        0
    );
}

#[test]
fn drain_all_moves_every_class_back_to_central() {
    let mut allocator = Allocator::new(test_config(), 4, PAGE_SIZE)
        .unwrap_or_else(|error| panic!("expected allocator to initialize: {error:?}"));
    let mut cache = ThreadCache::new(test_config(), 5);
    let small = allocate_small_blocks(&mut allocator, &mut cache, 2);
    let medium = allocator
        .allocate_with_cache(&mut cache, 128)
        .unwrap_or_else(|error| panic!("expected medium allocation to succeed: {error:?}"));

    for ptr in small {
        allocator
            .deallocate_with_cache(&mut cache, ptr, None)
            .unwrap_or_else(|error| panic!("expected small free to succeed: {error:?}"));
    }
    allocator
        .deallocate_with_cache(&mut cache, medium, None)
        .unwrap_or_else(|error| panic!("expected medium free to succeed: {error:?}"));

    allocator.drain_thread_cache(&mut cache);

    assert!(cache.needs_refill(SizeClass::B64));
    assert!(cache.needs_refill(SizeClass::B256));
    assert_eq!(
        allocator.stats().small_central[SizeClass::B64.index()].blocks,
        2
    );
    assert_eq!(
        allocator.stats().small_central[SizeClass::B256.index()].blocks,
        1
    );
}

#[test]
fn blocks_drained_from_one_cache_can_refill_another() {
    let mut allocator = Allocator::new(test_config(), 5, PAGE_SIZE)
        .unwrap_or_else(|error| panic!("expected allocator to initialize: {error:?}"));
    let mut source = ThreadCache::new(test_config(), 6);
    let mut destination = ThreadCache::new(test_config(), 7);
    let pointers = allocate_small_blocks(&mut allocator, &mut source, 2);
    let expected = pointers
        .iter()
        .copied()
        .map(block_start_from_user_ptr)
        .collect::<Vec<_>>();

    for ptr in pointers {
        allocator
            .deallocate_with_cache(&mut source, ptr, None)
            .unwrap_or_else(|error| panic!("expected source free to succeed: {error:?}"));
    }
    allocator.drain_thread_cache(&mut source);

    let moved =
        allocator.refill_thread_cache_from_central_for_test(&mut destination, SizeClass::B64);
    assert_eq!(moved, 2);
    let first = destination.pop(SizeClass::B64, allocator.memory());
    let second = destination.pop(SizeClass::B64, allocator.memory());
    let observed = [first, second];

    assert!(observed.contains(&Some((expected[0], BlockReuse::NeedsHeaderRewrite))));
    assert!(observed.contains(&Some((expected[1], BlockReuse::NeedsHeaderRewrite))));
    assert_eq!(destination.pop(SizeClass::B64, allocator.memory()), None);
}

#[test]
fn partial_central_refill_only_needs_owner_and_requested_size_refresh() {
    let mut allocator = Allocator::new(test_config(), 6, PAGE_SIZE)
        .unwrap_or_else(|error| panic!("expected allocator to initialize: {error:?}"));
    let mut source = ThreadCache::new(test_config(), 8);
    let mut destination = ThreadCache::new(test_config(), 9);
    let class = SizeClass::B64;
    let first = allocator
        .allocate_with_cache(&mut source, 32)
        .unwrap_or_else(|error| panic!("expected first allocation to succeed: {error:?}"));
    let second = allocator
        .allocate_with_cache(&mut source, 32)
        .unwrap_or_else(|error| panic!("expected second allocation to succeed: {error:?}"));

    allocator
        .deallocate_with_cache(&mut source, first, None)
        .unwrap_or_else(|error| panic!("expected first free to succeed: {error:?}"));
    allocator.drain_thread_cache(&mut source);

    let moved = allocator.refill_thread_cache_from_central_for_test(&mut destination, class);
    assert_eq!(moved, 1);
    assert!(matches!(
        destination.pop(class, allocator.memory()),
        Some((_, BlockReuse::NeedsOwnerAndRequestedSizeRefresh))
    ));

    allocator
        .deallocate_with_cache(&mut source, second, None)
        .unwrap_or_else(|error| panic!("expected second free to succeed: {error:?}"));
}

#[test]
fn drain_flushes_below_threshold_remote_returns_to_central_pool() {
    let config = AllocatorConfig {
        arena_size: 1 << 20,
        alignment: 64,
        refill_target_bytes: 32 << 10,
        local_cache_target_bytes: 64 << 10,
    };
    let mut allocator = Allocator::new(config, 7, PAGE_SIZE)
        .unwrap_or_else(|error| panic!("expected allocator to initialize: {error:?}"));
    let mut source = ThreadCache::new(config, 10);
    let mut remote = ThreadCache::new(config, 11);
    let class = SizeClass::B64;
    let pointers = allocate_small_blocks(&mut allocator, &mut source, 2);

    for ptr in pointers {
        allocator
            .deallocate_with_cache(&mut remote, ptr, None)
            .unwrap_or_else(|error| panic!("expected remote free to succeed: {error:?}"));
    }

    assert_eq!(
        allocator.stats().small_central[class.index()].blocks,
        0,
        "below-threshold remote frees stay staged in the freeing cache"
    );

    allocator.drain_thread_cache(&mut remote);

    assert_eq!(
        allocator.stats().small_central[class.index()].blocks,
        2,
        "draining the freeing cache publishes staged remote frees"
    );
}

#[test]
fn whole_slab_reissue_reuses_local_slab_record_and_rewrites_header() {
    let mut allocator = Allocator::new(test_config(), 8, PAGE_SIZE)
        .unwrap_or_else(|error| panic!("expected allocator to initialize: {error:?}"));
    let mut cache = ThreadCache::new(test_config(), 12);
    let class = SizeClass::B64;
    let pointers = allocate_small_blocks(&mut allocator, &mut cache, 2);

    for ptr in pointers {
        allocator
            .deallocate_with_cache(&mut cache, ptr, None)
            .unwrap_or_else(|error| panic!("expected local free to succeed: {error:?}"));
    }
    allocator.drain_thread_cache(&mut cache);

    assert_eq!(cache.slab_count(class), 1);

    let moved = allocator.refill_thread_cache_from_central_for_test(&mut cache, class);
    assert_eq!(moved, 2);
    assert_eq!(cache.slab_count(class), 1);
    assert!(matches!(
        cache.pop(class, allocator.memory()),
        Some((_, BlockReuse::NeedsHeaderRewrite))
    ));
}

#[test]
fn full_cold_slab_reissue_refreshes_owner_before_cross_thread_free() {
    let class = sweepable_test_class();
    let config = test_config_for_class(class);
    let request = class.payload_size();
    let mut allocator = Allocator::new(config, 9, PAGE_SIZE)
        .unwrap_or_else(|error| panic!("expected allocator to initialize: {error:?}"));
    let mut source = ThreadCache::new(config, 13);
    let mut destination = ThreadCache::new(config, 14);
    let pointers = allocate_blocks_of_size(&mut allocator, &mut source, 1, request);

    for ptr in pointers {
        allocator
            .deallocate_with_cache(&mut source, ptr, None)
            .unwrap_or_else(|error| panic!("expected source free to succeed: {error:?}"));
    }
    allocator.drain_thread_cache(&mut source);
    assert!(allocator.force_first_full_hot_slab_to_cold_for_test(class));

    let reused = allocator
        .allocate_with_cache(&mut destination, request)
        .unwrap_or_else(|error| panic!("expected full-cold slab reissue allocation: {error:?}"));

    allocator
        .deallocate_with_cache(&mut source, reused, None)
        .unwrap_or_else(|error| panic!("expected cross-thread free to succeed: {error:?}"));

    assert_eq!(source.stats().total_local_blocks(), 0);
    assert_eq!(allocator.stats().small_central[class.index()].blocks, 1);
}

#[test]
fn rebinding_an_empty_cache_discards_stale_slab_metadata() {
    let mut allocator_a = Allocator::new(test_config(), 10, PAGE_SIZE)
        .unwrap_or_else(|error| panic!("expected allocator A to initialize: {error:?}"));
    let mut allocator_b = Allocator::new(test_config(), 11, PAGE_SIZE)
        .unwrap_or_else(|error| panic!("expected allocator B to initialize: {error:?}"));
    let mut cache = ThreadCache::new(test_config(), 15);
    let class = SizeClass::B64;

    let first = allocator_a
        .allocate_with_cache(&mut cache, 32)
        .unwrap_or_else(|error| panic!("expected first allocator A allocation: {error:?}"));
    let second = allocator_a
        .allocate_with_cache(&mut cache, 32)
        .unwrap_or_else(|error| panic!("expected second allocator A allocation: {error:?}"));

    assert_eq!(cache.slab_count(class), 1);
    assert!(cache.needs_refill(class));

    let _ = allocator_b
        .allocate_with_cache(&mut cache, 32)
        .unwrap_or_else(|error| panic!("expected allocator B allocation to rebind: {error:?}"));

    assert_eq!(
        cache.slab_count(class),
        1,
        "rebinding an empty cache should discard slab metadata from the previous allocator"
    );

    allocator_a
        .deallocate_with_cache(&mut ThreadCache::new(test_config(), 16), first, None)
        .unwrap_or_else(|error| panic!("expected first allocator A cleanup free: {error:?}"));
    allocator_a
        .deallocate_with_cache(&mut ThreadCache::new(test_config(), 17), second, None)
        .unwrap_or_else(|error| {
            panic!("expected second allocator A cleanup free: {error:?}")
        });
}

#[test]
fn should_drain_only_after_exceeding_local_limit() {
    let mut cache = ThreadCache::new(test_config(), 1);
    let mut memory = map_page();
    let first = memory.first_address();
    let blocks = [first, first + 128, first + 256, first + 384];

    for block in &blocks[..3] {
        cache.push(SizeClass::B64, *block, &mut memory);
    }

    assert!(!cache.should_drain(SizeClass::B64));

    cache.push(SizeClass::B64, blocks[3], &mut memory);

    assert!(cache.should_drain(SizeClass::B64));
}

#[test]
fn stats_report_local_occupancy_by_size_class() {
    let mut cache = ThreadCache::new(test_config(), 1);
    let mut memory = map_page();
    let first = memory.first_address();
    let small = [first, first + 128];
    let medium = [first + 512];

    for block in small {
        cache.push(SizeClass::B64, block, &mut memory);
    }
    cache.push(SizeClass::B256, medium[0], &mut memory);

    let stats = cache.stats();

    assert!(!stats.is_bound);
    assert_eq!(stats.local[SizeClass::B64.index()].blocks, 2);
    assert_eq!(
        stats.local[SizeClass::B64.index()].bytes,
        2 * SizeClass::B64.block_size_for_alignment(test_config().alignment)
    );
    assert_eq!(stats.local[SizeClass::B256.index()].blocks, 1);
    assert_eq!(stats.total_local_blocks(), 3);
    assert_eq!(
        stats.total_local_bytes(),
        2 * SizeClass::B64.block_size_for_alignment(test_config().alignment)
            + SizeClass::B256.block_size_for_alignment(test_config().alignment)
    );
}

#[test]
fn draining_a_cache_gives_its_blocks_to_the_central_pool() {
    let mut allocator = Allocator::new(test_config(), 1, PAGE_SIZE)
        .unwrap_or_else(|error| panic!("expected allocator to initialize: {error:?}"));
    let mut cache = ThreadCache::new(test_config(), 1);
    let pointers = allocate_small_blocks(&mut allocator, &mut cache, 2);
    for ptr in pointers {
        assert_eq!(allocator.deallocate_with_cache(&mut cache, ptr, None), Ok(()));
    }

    allocator.drain_thread_cache(&mut cache);

    assert!(cache.is_empty());
    assert_eq!(allocator.central_block_count_for_test(SizeClass::B64), 2);
}
