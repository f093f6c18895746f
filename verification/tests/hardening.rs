use orthotope::api::ThreadSlot;
use orthotope::header::HEADER_SIZE;
use orthotope::{
    allocate, deallocate, Allocator, AllocatorConfig, FreeError, InitError, SizeClass, ThreadCache,
};

const PAGE_SIZE: usize = 4_096;

fn test_config() -> AllocatorConfig {
    AllocatorConfig {
        arena_size: 1 << 26,
        alignment: 64,
        refill_target_bytes: 128,
        local_cache_target_bytes: 256,
    }
}

fn allocator_and_cache() -> (Allocator, ThreadCache) {
    let allocator = match Allocator::new(test_config(), 1, PAGE_SIZE) {
        Ok(allocator) => allocator,
        Err(error) => panic!("expected allocator to initialize: {error:?}"),
    };
    let cache = ThreadCache::new(*allocator.config(), 1);

    (allocator, cache)
}

fn overwrite_magic(allocator: &mut Allocator, user: usize) {
    for offset in 0..4 {
        allocator.write_byte(user - HEADER_SIZE + offset, 0);
    }
}

fn read_header_bytes(allocator: &Allocator, user: usize) -> [u8; 64] {
    let mut header = [0; 64];
    for (offset, byte) in header.iter_mut().enumerate() {
        *byte = allocator.memory().read_byte(user - HEADER_SIZE + offset);
    }
    header
}

fn write_header_bytes(allocator: &mut Allocator, user: usize, header: &[u8; 64]) {
    for (offset, byte) in header.iter().enumerate() {
        allocator.write_byte(user - HEADER_SIZE + offset, *byte);
    }
}

#[test]
fn allocator_rejects_alignment_below_header_alignment() {
    let mut config = test_config();
    config.alignment = 32;

    match Allocator::new(config, 1, PAGE_SIZE) {
        Err(InitError::InvalidConfig(message)) => {
            assert_eq!(message, "allocator alignment must be at least 64 bytes");
        }
        Ok(_) => panic!("expected allocator to reject sub-header alignment"),
        Err(error) => panic!("unexpected initialization error: {error:?}"),
    }
}

#[test]
fn corrupt_small_header_is_rejected() {
    let (mut allocator, mut cache) = allocator_and_cache();
    let ptr = match allocator.allocate_with_cache(&mut cache, 32) {
        Ok(ptr) => ptr,
        Err(error) => panic!("expected small allocation to succeed: {error:?}"),
    };

    overwrite_magic(&mut allocator, ptr);

    let result = allocator.deallocate_with_cache(&mut cache, ptr, None);
    assert_eq!(result, Err(FreeError::CorruptHeader));
}

#[test]
fn corrupt_large_header_is_rejected_without_consuming_live_record() {
    let (mut allocator, mut cache) = allocator_and_cache();
    let request = SizeClass::max_small_request() + 1;
    let ptr = match allocator.allocate_with_cache(&mut cache, request) {
        Ok(ptr) => ptr,
        Err(error) => panic!("expected large allocation to succeed: {error:?}"),
    };
    let original_header = read_header_bytes(&allocator, ptr);

    overwrite_magic(&mut allocator, ptr);

    let first = allocator.deallocate_with_size_checked(&mut cache, ptr, None, request);
    assert_eq!(first, Err(FreeError::CorruptHeader));

    write_header_bytes(&mut allocator, ptr, &original_header);

    let second = allocator.deallocate_with_size_checked(&mut cache, ptr, None, request);
    assert_eq!(second, Ok(()));
}

#[test]
fn large_duplicate_free_is_detected() {
    let (mut allocator, mut cache) = allocator_and_cache();
    let request = SizeClass::max_small_request() + 1;
    let ptr = match allocator.allocate_with_cache(&mut cache, request) {
        Ok(ptr) => ptr,
        Err(error) => panic!("expected large allocation to succeed: {error:?}"),
    };

    let first = allocator.deallocate_with_size_checked(&mut cache, ptr, None, request);
    assert_eq!(first, Ok(()));

    let second = allocator.deallocate_with_size_checked(&mut cache, ptr, None, request);
    assert_eq!(second, Err(FreeError::AlreadyFreedOrUnknownLarge));
}

#[test]
fn large_size_mismatch_does_not_free_allocation() {
    let (mut allocator, mut cache) = allocator_and_cache();
    let request = SizeClass::max_small_request() + 1;
    let ptr = match allocator.allocate_with_cache(&mut cache, request) {
        Ok(ptr) => ptr,
        Err(error) => panic!("expected large allocation to succeed: {error:?}"),
    };

    let mismatch = allocator.deallocate_with_size_checked(&mut cache, ptr, None, request + 1);
    assert_eq!(
        mismatch,
        Err(FreeError::SizeMismatch {
            provided: request + 1,
            recorded: request,
        })
    );

    let success = allocator.deallocate_with_size_checked(&mut cache, ptr, None, request);
    assert_eq!(success, Ok(()));
}

#[test]
fn crate_root_reexports_support_public_api_usage() {
    let mut global = Allocator::new(AllocatorConfig::default(), 1, PAGE_SIZE);
    let mut slot = ThreadSlot::Vacant;
    let ptr = match allocate(&mut global, &mut slot, 1, 32) {
        Ok(ptr) => ptr,
        Err(error) => panic!("expected public allocation to succeed: {error:?}"),
    };

    let result = deallocate(&mut global, &mut slot, 1, ptr, None);
    assert_eq!(result, Ok(()));
}

#[test]
fn addresses_outside_the_arena_are_refused() {
    let (mut allocator, mut cache) = allocator_and_cache();
    let ptr = allocator
        .allocate_with_cache(&mut cache, 32)
        .unwrap_or_else(|error| panic!("expected small allocation to succeed: {error:?}"));

    assert_eq!(
        allocator.deallocate_with_cache(&mut cache, 0, None),
        Err(FreeError::CorruptHeader)
    );
    assert_eq!(
        allocator.deallocate_with_cache(&mut cache, ptr + 1, None),
        Err(FreeError::CorruptHeader)
    );
    assert_eq!(
        allocator.deallocate_with_cache(&mut cache, 64 * 1_000, None),
        Err(FreeError::CorruptHeader)
    );
    assert_eq!(allocator.deallocate_with_cache(&mut cache, ptr, None), Ok(()));
}

#[test]
fn header_that_was_never_written_is_refused() {
    let (mut allocator, mut cache) = allocator_and_cache();
    let ptr = allocator
        .allocate_with_cache(&mut cache, 32)
        .unwrap_or_else(|error| panic!("expected small allocation to succeed: {error:?}"));

    assert_eq!(
        allocator.deallocate_with_cache(&mut cache, ptr + 64 * 1_024, None),
        Err(FreeError::CorruptHeader)
    );
}

#[test]
fn block_that_was_never_handed_out_is_refused() {
    let config = AllocatorConfig {
        refill_target_bytes: 512,
        ..test_config()
    };
    let mut allocator = match Allocator::new(config, 1, PAGE_SIZE) {
        Ok(allocator) => allocator,
        Err(error) => panic!("expected allocator to initialize: {error:?}"),
    };
    let mut cache = ThreadCache::new(*allocator.config(), 1);
    let ptr = allocator
        .allocate_with_cache(&mut cache, 32)
        .unwrap_or_else(|error| panic!("expected small allocation to succeed: {error:?}"));

    for block in 1..4 {
        assert_eq!(
            allocator.deallocate_with_cache(&mut cache, ptr + 128 * block, None),
            Err(FreeError::CorruptHeader)
        );
    }
    assert_eq!(allocator.allocate_with_cache(&mut cache, 32), Ok(ptr + 128));
}
