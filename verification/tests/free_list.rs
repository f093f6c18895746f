use orthotope::free_list::{Batch, FreeList};
use orthotope::header::{
    read_small_free_list_next, user_ptr_from_block_start, write_small_free_list_next,
    AllocationHeader, AllocationHeaderPrefix, AllocationKind,
};
use orthotope::memory::Memory;
use orthotope::size_class::SizeClass;

/// Five blocks of one header each, as they stand once small headers were written to them.
fn test_blocks() -> (Memory, [usize; 5]) {
    let mut memory = Memory::map(4_096)
        .unwrap_or_else(|error| panic!("expected test memory to be mapped: {error:?}"));
    let first = memory.first_address();
    let ptrs = [first, first + 64, first + 128, first + 192, first + 256];
    let mut requested_size = 8;
    let mut owner_cache_id = 11;
    for ptr in ptrs {
        AllocationHeader::write_small_to_block(
            &mut memory,
            ptr,
            SizeClass::B64,
            requested_size,
            owner_cache_id,
        )
        .unwrap_or_else(|| panic!("expected test header initialization to succeed"));
        requested_size += 8;
        owner_cache_id += 1;
    }
    (memory, ptrs)
}

#[test]
fn push_and_pop_are_lifo() {
    let (mut memory, ptrs) = test_blocks();
    let mut list = FreeList::new();

    list.push_block(ptrs[0], &mut memory);
    list.push_block(ptrs[1], &mut memory);
    list.push_block(ptrs[2], &mut memory);

    assert_eq!(list.len(), 3);
    assert!(!list.is_empty());

    assert_eq!(list.pop_block(&memory), Some(ptrs[2]));
    assert_eq!(list.pop_block(&memory), Some(ptrs[1]));
    assert_eq!(list.pop_block(&memory), Some(ptrs[0]));

    assert_eq!(list.len(), 0);
    assert!(list.is_empty());
}

#[test]
fn popping_empty_list_returns_none() {
    let (memory, _) = test_blocks();
    let mut list = FreeList::new();

    assert_eq!(list.pop_block(&memory), None);

    assert_eq!(list.len(), 0);
    assert!(list.is_empty());
}

#[test]
fn pop_batch_detaches_requested_prefix() {
    let (mut memory, ptrs) = test_blocks();
    let mut list = FreeList::new();

    list.push_block(ptrs[0], &mut memory);
    list.push_block(ptrs[1], &mut memory);
    list.push_block(ptrs[2], &mut memory);
    list.push_block(ptrs[3], &mut memory);

    let batch = list.pop_batch(2, &mut memory);

    assert_eq!(batch.len(), 2);
    assert!(!batch.is_empty());
    assert_eq!(list.len(), 2);

    let mut receiver = FreeList::new();
    receiver.push_batch(batch, &mut memory);

    assert_eq!(receiver.pop_block(&memory), Some(ptrs[3]));
    assert_eq!(receiver.pop_block(&memory), Some(ptrs[2]));
    assert_eq!(receiver.pop_block(&memory), None);

    assert_eq!(list.pop_block(&memory), Some(ptrs[1]));
    assert_eq!(list.pop_block(&memory), Some(ptrs[0]));
    assert_eq!(list.pop_block(&memory), None);
}

#[test]
fn push_batch_preserves_batch_order_ahead_of_existing_nodes() {
    let (mut memory, ptrs) = test_blocks();
    let mut source = FreeList::new();
    let mut destination = FreeList::new();

    source.push_block(ptrs[0], &mut memory);
    source.push_block(ptrs[1], &mut memory);
    source.push_block(ptrs[2], &mut memory);

    destination.push_block(ptrs[3], &mut memory);
    destination.push_block(ptrs[4], &mut memory);

    let batch = source.pop_batch(3, &mut memory);
    destination.push_batch(batch, &mut memory);

    assert_eq!(source.len(), 0);
    assert_eq!(destination.len(), 5);

    assert_eq!(destination.pop_block(&memory), Some(ptrs[2]));
    assert_eq!(destination.pop_block(&memory), Some(ptrs[1]));
    assert_eq!(destination.pop_block(&memory), Some(ptrs[0]));
    assert_eq!(destination.pop_block(&memory), Some(ptrs[4]));
    assert_eq!(destination.pop_block(&memory), Some(ptrs[3]));
    assert_eq!(destination.pop_block(&memory), None);
}

#[test]
fn zero_length_and_empty_batches_are_noops() {
    let (mut memory, ptrs) = test_blocks();
    let mut list = FreeList::new();
    let ptr = ptrs[0];

    list.push_block(ptr, &mut memory);

    let batch = list.pop_batch(0, &mut memory);
    assert!(batch.is_empty());
    assert_eq!(list.len(), 1);

    list.push_batch(Batch::empty(), &mut memory);
    assert_eq!(list.len(), 1);

    assert_eq!(list.pop_block(&memory), Some(ptr));
    assert_eq!(list.pop_block(&memory), None);
}

#[test]
fn push_and_pop_preserve_semantic_header_fields() {
    let mut memory = Memory::map(4_096)
        .unwrap_or_else(|error| panic!("expected test memory to be mapped: {error:?}"));
    let ptr = memory.first_address();
    AllocationHeader::write_small_to_block(&mut memory, ptr, SizeClass::B64, 48, 77)
        .unwrap_or_else(|| panic!("expected test header initialization to succeed"));
    let read = |memory: &Memory| -> (AllocationHeaderPrefix, AllocationKind) {
        AllocationHeader::read_from_user_ptr(memory, user_ptr_from_block_start(ptr))
            .unwrap_or_else(|error| panic!("expected the header to decode: {error:?}"))
    };
    let mut list = FreeList::new();
    let (before, _) = read(&memory);
    assert_eq!(before.requested_size, 48);
    assert_eq!(before.usable_size, 64);
    assert_eq!(before.owner_cache_id, 77);

    list.push_block(ptr, &mut memory);
    let (during, kind) = read(&memory);
    assert_eq!(kind, AllocationKind::Small(SizeClass::B64));
    assert_eq!(during, before);

    assert_eq!(list.pop_block(&memory), Some(ptr));
    let (after, kind) = read(&memory);
    assert_eq!(kind, AllocationKind::Small(SizeClass::B64));
    assert_eq!(after, before);
}

#[test]
fn single_block_batch_holds_its_block() {
    let (mut memory, ptrs) = test_blocks();
    let mut list = FreeList::new();
    let batch = Batch::from_single(ptrs[2], &mut memory);
    assert_eq!(batch.len(), 1);
    list.push_batch(batch, &mut memory);
    assert_eq!(list.pop_block(&memory), Some(ptrs[2]));
    assert!(list.is_empty());
}

#[test]
fn batch_is_never_longer_than_the_list() {
    let (mut memory, ptrs) = test_blocks();
    let mut list = FreeList::new();
    list.push_block(ptrs[0], &mut memory);
    list.push_block(ptrs[1], &mut memory);
    let batch = list.pop_batch(7, &mut memory);
    assert_eq!(batch.len(), 2);
    assert!(list.is_empty());
}

#[test]
fn pushing_links_a_block_to_the_one_below() {
    let (mut memory, ptrs) = test_blocks();
    let mut list = FreeList::new();

    list.push_block(ptrs[2], &mut memory);
    assert_eq!(memory.read_long(ptrs[2] + 24), 0);
    list.push_block(ptrs[0], &mut memory);
    assert_eq!(memory.read_long(ptrs[0] + 24), ptrs[2] as u64);
    list.push_block(ptrs[4], &mut memory);
    assert_eq!(read_small_free_list_next(&memory, ptrs[4]), Some(ptrs[0]));
    assert_eq!(read_small_free_list_next(&memory, ptrs[0]), Some(ptrs[2]));
    assert_eq!(read_small_free_list_next(&memory, ptrs[2]), None);
}

#[test]
fn popped_block_keeps_its_stale_link() {
    let (mut memory, ptrs) = test_blocks();
    let mut list = FreeList::new();
    list.push_block(ptrs[0], &mut memory);
    list.push_block(ptrs[1], &mut memory);

    assert_eq!(list.pop_block(&memory), Some(ptrs[1]));
    assert_eq!(memory.read_long(ptrs[1] + 24), ptrs[0] as u64);

    list.push_block(ptrs[3], &mut memory);
    assert_eq!(memory.read_long(ptrs[3] + 24), ptrs[0] as u64);
}

#[test]
fn detached_batch_ends_in_a_cleared_link() {
    let (mut memory, ptrs) = test_blocks();
    let mut list = FreeList::new();
    for ptr in ptrs {
        list.push_block(ptr, &mut memory);
    }

    let batch = list.pop_batch(2, &mut memory);

    assert_eq!(read_small_free_list_next(&memory, ptrs[4]), Some(ptrs[3]));
    assert_eq!(read_small_free_list_next(&memory, ptrs[3]), None);
    assert_eq!(read_small_free_list_next(&memory, ptrs[2]), Some(ptrs[1]));

    let mut other = FreeList::new();
    let single = list.pop_block(&memory).unwrap_or_else(|| panic!("expected a block"));
    other.push_batch(Batch::from_single(single, &mut memory), &mut memory);
    assert_eq!(read_small_free_list_next(&memory, single), None);
    other.push_batch(batch, &mut memory);
    assert_eq!(read_small_free_list_next(&memory, ptrs[3]), Some(single));
    assert_eq!(other.len(), 3);
}

#[test]
fn link_word_gives_back_what_was_written() {
    let (mut memory, ptrs) = test_blocks();

    write_small_free_list_next(&mut memory, ptrs[1], Some(ptrs[3]));
    assert_eq!(memory.read_long(ptrs[1] + 24), ptrs[3] as u64);
    assert_eq!(read_small_free_list_next(&memory, ptrs[1]), Some(ptrs[3]));

    write_small_free_list_next(&mut memory, ptrs[1], None);
    assert_eq!(memory.read_long(ptrs[1] + 24), 0);
    assert_eq!(read_small_free_list_next(&memory, ptrs[1]), None);
}
