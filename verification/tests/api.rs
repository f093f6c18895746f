use orthotope::api::ThreadSlot;
use orthotope::error::{AllocError, FreeError};
use orthotope::{
    allocate, deallocate, deallocate_with_size, Allocator, AllocatorConfig, InitError,
};

const PAGE_SIZE: usize = 4_096;

fn global_allocator() -> Result<Allocator, InitError> {
    Allocator::new(AllocatorConfig::default(), 1, PAGE_SIZE)
}

#[test]
fn public_allocate_returns_typed_error_when_thread_cache_is_reentrantly_borrowed() {
    let mut global = global_allocator();
    let mut busy = ThreadSlot::Busy;

    assert_eq!(
        allocate(&mut global, &mut busy, 1, 32),
        Err(AllocError::GlobalInitFailed)
    );
}

#[test]
fn public_deallocate_returns_typed_error_when_thread_cache_is_reentrantly_borrowed() {
    let mut global = global_allocator();
    let mut slot = ThreadSlot::Vacant;
    let ptr = allocate(&mut global, &mut slot, 1, 32)
        .unwrap_or_else(|error| panic!("expected initial allocation to succeed: {error:?}"));

    let mut busy = ThreadSlot::Busy;
    assert_eq!(
        deallocate(&mut global, &mut busy, 1, ptr, None),
        Err(FreeError::GlobalInitFailed)
    );

    deallocate(&mut global, &mut slot, 1, ptr, None)
        .unwrap_or_else(|error| panic!("expected cleanup deallocation to succeed: {error:?}"));
}

#[test]
fn allocation_after_the_slot_is_gone_fails_with_a_typed_error() {
    let mut global = global_allocator();
    let mut slot = ThreadSlot::Destroyed;

    assert_eq!(
        allocate(&mut global, &mut slot, 1, 32),
        Err(AllocError::GlobalInitFailed)
    );
    assert!(matches!(slot, ThreadSlot::Destroyed));
}

#[test]
fn allocation_without_an_allocator_fails_with_a_typed_error() {
    let mut config = AllocatorConfig::default();
    config.alignment = 24;
    let mut global = Allocator::new(config, 1, PAGE_SIZE);
    let mut slot = ThreadSlot::Vacant;

    assert_eq!(
        allocate(&mut global, &mut slot, 1, 32),
        Err(AllocError::GlobalInitFailed)
    );
    assert_eq!(
        deallocate_with_size(&mut global, &mut slot, 1, 0x1000, None, 32),
        Err(FreeError::GlobalInitFailed)
    );
    assert!(matches!(slot, ThreadSlot::Vacant));
}

#[test]
fn first_call_gives_the_thread_a_cache_with_the_fresh_name() {
    let mut global = global_allocator();
    let mut slot = ThreadSlot::Vacant;
    let ptr = allocate(&mut global, &mut slot, 41, 32)
        .unwrap_or_else(|error| panic!("expected allocation to succeed: {error:?}"));

    match &slot {
        ThreadSlot::Ready(cache) => assert_eq!(cache.cache_id(), 41),
        _ => panic!("expected the slot to hold a cache"),
    }
    assert_eq!(deallocate(&mut global, &mut slot, 42, ptr, None), Ok(()));
    match &slot {
        ThreadSlot::Ready(cache) => assert_eq!(cache.cache_id(), 41),
        _ => panic!("expected the slot to keep its cache"),
    }
}

#[test]
fn public_api_allocates_and_deallocates_small_block() {
    let mut global = global_allocator();
    let mut slot = ThreadSlot::Vacant;
    let ptr = match allocate(&mut global, &mut slot, 1, 32) {
        Ok(ptr) => ptr,
        Err(error) => panic!("expected public small allocation to succeed: {error:?}"),
    };

    match deallocate(&mut global, &mut slot, 1, ptr, None) {
        Ok(()) => {}
        Err(error) => panic!("expected public free to succeed: {error:?}"),
    }
}

#[test]
fn public_api_rejects_zero_sized_allocation() {
    let mut global = global_allocator();
    let mut slot = ThreadSlot::Vacant;
    match allocate(&mut global, &mut slot, 1, 0) {
        Err(AllocError::ZeroSize) => {}
        Err(error) => panic!("unexpected allocation error: {error:?}"),
        Ok(_) => panic!("expected zero-sized allocation to be rejected"),
    }
}

#[test]
fn compatibility_free_validates_recorded_size() {
    let mut global = global_allocator();
    let mut slot = ThreadSlot::Vacant;
    let ptr = match allocate(&mut global, &mut slot, 1, 64) {
        Ok(ptr) => ptr,
        Err(error) => panic!("expected public allocation to succeed: {error:?}"),
    };

    match deallocate_with_size(&mut global, &mut slot, 1, ptr, None, 1) {
        Err(FreeError::SizeMismatch { provided, recorded }) => {
            assert_eq!(provided, 1);
            assert_eq!(recorded, 64);
        }
        Err(error) => panic!("unexpected deallocation error: {error:?}"),
        Ok(()) => panic!("expected mismatched compatibility free to fail"),
    }

    match deallocate_with_size(&mut global, &mut slot, 1, ptr, None, 64) {
        Ok(()) => {}
        Err(error) => panic!("expected matching compatibility free to succeed: {error:?}"),
    }
}

#[test]
fn freed_block_is_reused_through_the_public_api() {
    let mut global = global_allocator();
    let mut slot = ThreadSlot::Vacant;
    let first = allocate(&mut global, &mut slot, 1, 32);
    let user = first.unwrap_or_else(|error| panic!("expected allocation to succeed: {error:?}"));
    assert_eq!(deallocate(&mut global, &mut slot, 1, user, None), Ok(()));
    assert_eq!(allocate(&mut global, &mut slot, 1, 32), first);
}
