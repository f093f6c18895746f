use orthotope::{Allocator, AllocatorConfig, SizeClass, ThreadCache};

const PAGE_SIZE: usize = 4_096;

#[test]
fn config_class_block_size_matches_allocator_capacity_planning() {
    let class = SizeClass::B256;
    let config = AllocatorConfig {
        arena_size: 384 * 2,
        alignment: 128,
        refill_target_bytes: 384 * 2,
        local_cache_target_bytes: 384 * 2,
    };

    assert_eq!(config.class_block_size(class), 384);

    let mut allocator = match Allocator::new(config, 1, PAGE_SIZE) {
        Ok(allocator) => allocator,
        Err(error) => panic!("expected allocator to initialize: {error:?}"),
    };
    let mut cache = ThreadCache::new(*allocator.config(), 1);

    let first = match allocator.allocate_with_cache(&mut cache, 65) {
        Ok(ptr) => ptr,
        Err(error) => panic!("expected first allocation to succeed: {error:?}"),
    };
    let second = match allocator.allocate_with_cache(&mut cache, 65) {
        Ok(ptr) => ptr,
        Err(error) => panic!(
            "expected second allocation to fit based on AllocatorConfig::class_block_size(): {error:?}"
        ),
    };

    let first_free = allocator.deallocate_with_cache(&mut cache, first, None);
    assert_eq!(first_free, Ok(()));

    let second_free = allocator.deallocate_with_cache(&mut cache, second, None);
    assert_eq!(second_free, Ok(()));
}
