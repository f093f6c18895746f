use orthotope::{Allocator, AllocatorConfig, ThreadCache};

const PAGE_SIZE: usize = 4_096;

fn test_config() -> AllocatorConfig {
    AllocatorConfig {
        arena_size: 1 << 20,
        alignment: 64,
        refill_target_bytes: 128,
        local_cache_target_bytes: 256,
    }
}

#[test]
fn empty_shared_thread_cache_can_rebind_to_another_allocator() {
    let allocator_a = match Allocator::new(test_config(), 1, PAGE_SIZE) {
        Ok(allocator) => allocator,
        Err(error) => panic!("expected allocator A to initialize: {error:?}"),
    };
    let mut allocator_b = match Allocator::new(test_config(), 2, PAGE_SIZE) {
        Ok(allocator) => allocator,
        Err(error) => panic!("expected allocator B to initialize: {error:?}"),
    };
    let mut cache = ThreadCache::new(*allocator_a.config(), 1);

    let ptr = match allocator_b.allocate_with_cache(&mut cache, 32) {
        Ok(ptr) => ptr,
        Err(error) => {
            panic!("expected allocator B allocation to succeed with an empty cache: {error:?}")
        }
    };
    let second = match allocator_b.allocate_with_cache(&mut cache, 32) {
        Ok(ptr) => ptr,
        Err(error) => {
            panic!("expected allocator B to keep allocating cleanly after rebinding: {error:?}")
        }
    };

    assert_ne!(
        ptr, second,
        "rebinding an empty cache should not retain stale slab metadata from allocator A"
    );

    let result = allocator_b.deallocate_with_cache(&mut cache, ptr, None);
    assert_eq!(result, Ok(()));

    let second_result = allocator_b.deallocate_with_cache(&mut cache, second, None);
    assert_eq!(second_result, Ok(()));
}
