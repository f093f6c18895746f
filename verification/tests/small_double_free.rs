use orthotope::{Allocator, AllocatorConfig, FreeError, ThreadCache};

const PAGE_SIZE: usize = 4_096;

fn test_config() -> AllocatorConfig {
    AllocatorConfig {
        arena_size: 1 << 20,
        alignment: 64,
        refill_target_bytes: 256,
        local_cache_target_bytes: 256,
    }
}

fn allocator_and_cache() -> (Allocator, ThreadCache) {
    let allocator = Allocator::new(test_config(), 1, PAGE_SIZE)
        .unwrap_or_else(|error| panic!("expected allocator to initialize: {error:?}"));
    let cache = ThreadCache::new(*allocator.config(), 1);

    (allocator, cache)
}

#[test]
fn same_thread_hot_block_duplicate_free_is_detected() {
    let (mut allocator, mut cache) = allocator_and_cache();
    let ptr = allocator
        .allocate_with_cache(&mut cache, 32)
        .unwrap_or_else(|error| panic!("expected allocation to succeed: {error:?}"));

    let first = allocator.deallocate_with_cache(&mut cache, ptr, None);
    assert_eq!(first, Ok(()));

    let second = allocator.deallocate_with_cache(&mut cache, ptr, None);
    assert_eq!(second, Err(FreeError::DoubleFree));
}

#[test]
fn duplicate_free_wins_over_size_mismatch_for_small_blocks() {
    let (mut allocator, mut cache) = allocator_and_cache();
    let ptr = allocator
        .allocate_with_cache(&mut cache, 32)
        .unwrap_or_else(|error| panic!("expected allocation to succeed: {error:?}"));

    allocator
        .deallocate_with_cache(&mut cache, ptr, None)
        .unwrap_or_else(|error| panic!("expected first free to succeed: {error:?}"));

    let duplicate = allocator.deallocate_with_size_checked(&mut cache, ptr, None, 16);
    assert_eq!(duplicate, Err(FreeError::DoubleFree));
}

#[test]
fn duplicate_free_after_hot_block_spills_into_slab_storage_is_detected() {
    let (mut allocator, mut cache) = allocator_and_cache();
    let first = allocator
        .allocate_with_cache(&mut cache, 32)
        .unwrap_or_else(|error| panic!("expected first allocation to succeed: {error:?}"));
    let second = allocator
        .allocate_with_cache(&mut cache, 32)
        .unwrap_or_else(|error| panic!("expected second allocation to succeed: {error:?}"));

    allocator
        .deallocate_with_cache(&mut cache, first, None)
        .unwrap_or_else(|error| panic!("expected first free to succeed: {error:?}"));
    allocator
        .deallocate_with_cache(&mut cache, second, None)
        .unwrap_or_else(|error| panic!("expected second free to succeed: {error:?}"));

    let duplicate = allocator.deallocate_with_cache(&mut cache, first, None);
    assert_eq!(duplicate, Err(FreeError::DoubleFree));
}

#[test]
fn duplicate_remote_free_is_detected_after_flush_to_central() {
    let mut allocator = Allocator::new(test_config(), 2, PAGE_SIZE)
        .unwrap_or_else(|error| panic!("expected allocator to initialize: {error:?}"));
    let mut source_cache = ThreadCache::new(*allocator.config(), 2);
    let mut remote_cache = ThreadCache::new(*allocator.config(), 3);
    let ptr = allocator
        .allocate_with_cache(&mut source_cache, 32)
        .unwrap_or_else(|error| panic!("expected allocation to succeed: {error:?}"));

    let first = allocator.deallocate_with_cache(&mut remote_cache, ptr, None);
    assert_eq!(first, Ok(()));

    let second = allocator.deallocate_with_cache(&mut remote_cache, ptr, None);
    assert_eq!(second, Err(FreeError::DoubleFree));
}

#[test]
fn aba_reallocation_reuses_pointer_without_triggering_double_free() {
    let (mut allocator, mut cache) = allocator_and_cache();
    let first = allocator
        .allocate_with_cache(&mut cache, 32)
        .unwrap_or_else(|error| panic!("expected first allocation to succeed: {error:?}"));

    allocator
        .deallocate_with_cache(&mut cache, first, None)
        .unwrap_or_else(|error| panic!("expected first free to succeed: {error:?}"));

    let reused = allocator
        .allocate_with_cache(&mut cache, 32)
        .unwrap_or_else(|error| panic!("expected reuse allocation to succeed: {error:?}"));
    assert_eq!(reused, first);

    let aba = allocator.deallocate_with_cache(&mut cache, first, None);
    assert_eq!(aba, Ok(()));
}

#[test]
fn writes_to_live_allocations_do_not_hide_a_duplicate_free() {
    let (mut allocator, mut cache) = allocator_and_cache();
    let mut pointers = [0; 3];
    for ptr in &mut pointers {
        *ptr = allocator
            .allocate_with_cache(&mut cache, 64)
            .unwrap_or_else(|error| panic!("expected allocation to succeed: {error:?}"));
    }
    assert_eq!(
        allocator.deallocate_with_cache(&mut cache, pointers[1], None),
        Ok(())
    );

    for ptr in [pointers[0], pointers[2]] {
        for offset in 0..64 {
            allocator.write_byte(ptr + offset, 0xff);
        }
    }

    assert_eq!(
        allocator.deallocate_with_cache(&mut cache, pointers[1], None),
        Err(FreeError::DoubleFree)
    );
    for ptr in [pointers[0], pointers[2]] {
        assert_eq!(
            allocator.deallocate_with_size_checked(&mut cache, ptr, None, 64),
            Ok(())
        );
    }
}
