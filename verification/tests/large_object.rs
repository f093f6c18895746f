use orthotope::error::FreeError;
use orthotope::header::{user_ptr_from_block_start, HEADER_SIZE};
use orthotope::large_object::{
    FreeLargeBlock, LargeAllocationRecord, LargeObjectAllocator, LargeObjectStats,
};

fn live_record(
    allocator: &mut LargeObjectAllocator,
    block_addr: usize,
    block_size: usize,
    requested_size: usize,
    usable_size: usize,
) -> (usize, LargeAllocationRecord) {
    let user_ptr = user_ptr_from_block_start(block_addr);
    let record = LargeAllocationRecord {
        block_addr,
        block_size,
        requested_size,
        usable_size,
    };

    allocator.record_live_allocation(
        user_ptr,
        block_addr,
        record.block_size,
        record.requested_size,
        record.usable_size,
    );

    (user_ptr, record)
}

const FIRST_BLOCK: usize = 0x1000_0000;
const SECOND_BLOCK: usize = 0x4000_0000;

#[test]
fn matching_release_succeeds_and_removes_live_record() {
    let mut allocator = LargeObjectAllocator::new();
    let block_size = HEADER_SIZE + 16_777_217;
    let usable_size = block_size - HEADER_SIZE;
    let (user_ptr, expected) = live_record(
        &mut allocator,
        FIRST_BLOCK,
        block_size,
        16_777_217,
        usable_size,
    );

    let released = allocator.validate_and_release_live_allocation(
        user_ptr,
        expected.requested_size,
        expected.usable_size,
    );

    assert_eq!(released, Ok(()));
    assert_eq!(allocator.live_len(), 0);
    assert_eq!(allocator.free_len(), 1);
}

#[test]
fn releasing_unknown_pointer_fails() {
    let mut allocator = LargeObjectAllocator::new();
    let user_ptr = user_ptr_from_block_start(FIRST_BLOCK);

    let result = allocator.validate_and_release_live_allocation(user_ptr, 16_777_217, 16_777_217);

    assert_eq!(result, Err(FreeError::AlreadyFreedOrUnknownLarge));
}

#[test]
fn releasing_same_pointer_twice_detects_duplicate_free() {
    let mut allocator = LargeObjectAllocator::new();
    let block_size = HEADER_SIZE + 16_777_280;
    let usable_size = block_size - HEADER_SIZE;
    let (user_ptr, expected) = live_record(
        &mut allocator,
        FIRST_BLOCK,
        block_size,
        16_777_217,
        usable_size,
    );

    let first = allocator.validate_and_release_live_allocation(
        user_ptr,
        expected.requested_size,
        expected.usable_size,
    );
    let second = allocator.validate_and_release_live_allocation(
        user_ptr,
        expected.requested_size,
        expected.usable_size,
    );

    assert_eq!(first, Ok(()));
    assert_eq!(second, Err(FreeError::AlreadyFreedOrUnknownLarge));
}

#[test]
fn mismatched_header_sizes_fail_without_consuming_live_record() {
    let mut allocator = LargeObjectAllocator::new();
    let block_size = HEADER_SIZE + 16_777_280;
    let usable_size = block_size - HEADER_SIZE;
    let (user_ptr, expected) = live_record(
        &mut allocator,
        FIRST_BLOCK,
        block_size,
        16_777_217,
        usable_size,
    );

    let mismatch = allocator.validate_and_release_live_allocation(
        user_ptr,
        expected.requested_size + 1,
        expected.usable_size,
    );
    assert_eq!(mismatch, Err(FreeError::CorruptHeader));
    assert_eq!(allocator.live_len(), 1);

    let release = allocator.validate_and_release_live_allocation(
        user_ptr,
        expected.requested_size,
        expected.usable_size,
    );
    assert_eq!(release, Ok(()));
    assert_eq!(allocator.live_len(), 0);
    assert_eq!(allocator.free_len(), 1);
}

#[test]
fn records_are_isolated_per_pointer() {
    let mut allocator = LargeObjectAllocator::new();
    let first_block_size = HEADER_SIZE + 16_777_344;
    let second_block_size = HEADER_SIZE + 20_000_000;
    let first_usable_size = first_block_size - HEADER_SIZE;
    let second_usable_size = second_block_size - HEADER_SIZE;
    let (first_ptr, first_expected) = live_record(
        &mut allocator,
        FIRST_BLOCK,
        first_block_size,
        16_777_280,
        first_usable_size,
    );
    let (second_ptr, second_expected) = live_record(
        &mut allocator,
        SECOND_BLOCK,
        second_block_size,
        20_000_000,
        second_usable_size,
    );

    let first = allocator.validate_and_release_live_allocation(
        first_ptr,
        first_expected.requested_size,
        first_expected.usable_size,
    );

    assert_eq!(first, Ok(()));
    assert_eq!(allocator.live_len(), 1);

    let second = allocator.validate_and_release_live_allocation(
        second_ptr,
        second_expected.requested_size,
        second_expected.usable_size,
    );
    assert_eq!(second, Ok(()));
    assert_eq!(allocator.live_len(), 0);
    assert_eq!(allocator.free_len(), 2);
}

#[test]
fn best_fit_takes_the_smallest_block_that_is_large_enough() {
    let mut allocator = LargeObjectAllocator::new();
    for (index, size) in [30_000_000, 20_000_000, 25_000_000].into_iter().enumerate() {
        let block = FIRST_BLOCK * (index + 1);
        let (user, record) = live_record(
            &mut allocator,
            block,
            size,
            size - HEADER_SIZE,
            size - HEADER_SIZE,
        );
        assert_eq!(
            allocator.validate_and_release_live_allocation(
                user,
                record.requested_size,
                record.usable_size
            ),
            Ok(())
        );
    }
    assert_eq!(
        allocator.stats(),
        LargeObjectStats {
            live_allocations: 0,
            live_bytes: 0,
            free_blocks: 3,
            free_bytes: 75_000_000,
        }
    );

    let taken = allocator
        .take_reusable_block(21_000_000)
        .unwrap_or_else(|| panic!("expected a reusable block"));
    assert_eq!(
        taken,
        FreeLargeBlock {
            block_addr: FIRST_BLOCK * 3,
            block_size: 25_000_000,
        }
    );
    assert_eq!(taken.usable_size(), 25_000_000 - HEADER_SIZE);
    assert_eq!(taken.block_start(), FIRST_BLOCK * 3);
    assert_eq!(allocator.take_reusable_block(30_000_001), None);
    assert_eq!(allocator.free_len(), 2);
}
