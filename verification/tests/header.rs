use orthotope::error::FreeError;
use orthotope::header::{
    block_start_from_header, block_start_from_user_ptr, clear_small_block_freed,
    header_from_block_start, header_from_user_ptr, index_to_size_class, mark_small_block_freed,
    size_class_to_index, small_block_is_marked_freed, small_free_marker_for,
    user_ptr_from_block_start,
    user_ptr_from_header, AllocationHeader, AllocationHeaderPrefix, AllocationKind,
    AllocationKindTag, HEADER_ALIGNMENT, HEADER_MAGIC, HEADER_SIZE,
};
use orthotope::memory::Memory;
use orthotope::size_class::SizeClass;

fn test_memory() -> (Memory, usize) {
    let memory = Memory::map(HEADER_SIZE * 8)
        .unwrap_or_else(|error| panic!("expected test memory to be mapped: {error:?}"));
    let block_start = memory.first_address();
    assert_eq!(block_start % HEADER_ALIGNMENT, 0);
    (memory, block_start)
}

fn small_header(class: SizeClass, requested_size: usize) -> AllocationHeader {
    AllocationHeader::new_small(class, requested_size)
        .unwrap_or_else(|| panic!("expected valid small header"))
}

fn large_header(requested_size: usize, usable_size: usize) -> AllocationHeader {
    AllocationHeader::new_large(requested_size, usable_size)
        .unwrap_or_else(|| panic!("expected valid large header"))
}

fn read_back(memory: &Memory, block_start: usize) -> (AllocationHeaderPrefix, AllocationKind) {
    AllocationHeader::read_from_user_ptr(memory, user_ptr_from_block_start(block_start))
        .unwrap_or_else(|error| panic!("expected the header to decode: {error:?}"))
}

#[test]
fn allocation_header_stays_64_bytes_and_64_aligned() {
    let (mut memory, block_start) = test_memory();
    for offset in 0..3 * HEADER_SIZE {
        memory.write_byte(block_start + offset, 0xff);
    }
    let header = block_start + HEADER_SIZE;
    assert_eq!(small_header(SizeClass::B64, 32).write_to_block(&mut memory, header), header);

    let mut changed = 0;
    for offset in 0..3 * HEADER_SIZE {
        if memory.read_byte(block_start + offset) != 0xff {
            changed += 1;
            assert!((HEADER_SIZE..2 * HEADER_SIZE).contains(&offset));
        }
    }
    assert_eq!(changed, HEADER_SIZE);
    assert_eq!(HEADER_SIZE, 64);
    assert_eq!(HEADER_ALIGNMENT, 64);
    assert_eq!(header % HEADER_ALIGNMENT, 0);
}

#[test]
fn specialized_small_writer_refreshes_requested_size() {
    let (mut memory, block_start) = test_memory();

    AllocationHeader::write_small_to_block(&mut memory, block_start, SizeClass::B64, 1, 11)
        .unwrap_or_else(|| panic!("expected specialized small writer to succeed"));
    AllocationHeader::write_small_to_block(&mut memory, block_start, SizeClass::B64, 64, 27)
        .unwrap_or_else(|| panic!("expected specialized small rewrite to succeed"));

    let (prefix, kind) = read_back(&memory, block_start);
    assert_eq!(kind, AllocationKind::Small(SizeClass::B64));
    assert_eq!(prefix.requested_size, 64);
    assert_eq!(prefix.usable_size, 64);
    assert_eq!(prefix.owner_cache_id, 27);
}

#[test]
fn specialized_large_writer_refreshes_sizes() {
    let (mut memory, block_start) = test_memory();

    AllocationHeader::write_large_to_block(&mut memory, block_start, 128, 192)
        .unwrap_or_else(|| panic!("expected specialized large writer to succeed"));
    AllocationHeader::write_large_to_block(&mut memory, block_start, 96, 192)
        .unwrap_or_else(|| panic!("expected specialized large rewrite to succeed"));

    let (prefix, kind) = read_back(&memory, block_start);
    assert_eq!(kind, AllocationKind::Large);
    assert_eq!(prefix.requested_size, 96);
    assert_eq!(prefix.usable_size, 192);
}

#[test]
fn block_start_header_and_user_pointer_round_trip() {
    let (_memory, block_start) = test_memory();
    let header = header_from_block_start(block_start);
    let user_ptr = user_ptr_from_block_start(block_start);

    assert_eq!(block_start_from_header(header), block_start);
    assert_eq!(header_from_user_ptr(user_ptr), header);
    assert_eq!(block_start_from_user_ptr(user_ptr), block_start);
    assert_eq!(user_ptr_from_header(header), user_ptr);
}

#[test]
fn user_pointer_is_header_size_bytes_after_block_start() {
    let (_memory, block_start) = test_memory();
    let user_ptr = user_ptr_from_block_start(block_start);

    assert_eq!(user_ptr - block_start, HEADER_SIZE);
}

#[test]
fn small_header_construction_records_class_and_sizes() {
    let header = small_header(SizeClass::B256, 144);

    assert_eq!(header.requested_size(), 144);
    assert_eq!(header.usable_size(), SizeClass::B256.payload_size());
    assert_eq!(
        header.validate(),
        Ok(AllocationKind::Small(SizeClass::B256))
    );
}

#[test]
fn large_header_construction_records_requested_and_usable_sizes() {
    let header = large_header(16_777_217, 16_777_280);

    assert_eq!(header.requested_size(), 16_777_217);
    assert_eq!(header.usable_size(), 16_777_280);
    assert_eq!(header.validate(), Ok(AllocationKind::Large));
}

#[test]
fn small_header_validation_rejects_invalid_class_index() {
    let mut header = small_header(SizeClass::B64, 32);
    header.class_index = 9;

    assert_eq!(header.validate(), Err(FreeError::CorruptHeader));
}

#[test]
fn class_index_behind_the_last_class_is_rejected() {
    let mut header = small_header(SizeClass::B64, 32);
    header.class_index = 12;

    assert_eq!(header.validate(), Err(FreeError::CorruptHeader));
}

#[test]
fn validation_rejects_bad_magic() {
    let mut header = large_header(1, 64);
    header.magic = HEADER_MAGIC ^ 1;

    assert_eq!(header.validate(), Err(FreeError::CorruptHeader));
}

#[test]
fn write_to_block_persists_header_at_block_start() {
    let (mut memory, block_start) = test_memory();
    let expected = small_header(SizeClass::B4K, 1024);
    let header = expected.write_to_block(&mut memory, block_start);

    assert_eq!(header, block_start);
    let (prefix, kind) = read_back(&memory, header);
    assert_eq!(prefix.requested_size, 1024);
    assert_eq!(prefix.usable_size as usize, SizeClass::B4K.payload_size());
    assert_eq!(kind, AllocationKind::Small(SizeClass::B4K));
    assert_eq!(prefix, expected.prefix());
}

#[test]
fn validation_rejects_mismatched_small_usable_size() {
    let mut header = small_header(SizeClass::B256, 128);
    header.kind = AllocationKindTag::Small;
    header.class_index = 1;
    header.usable_size = 64;

    assert_eq!(header.validate(), Err(FreeError::CorruptHeader));
}

#[test]
fn headers_are_only_made_for_sizes_that_fit() {
    assert!(AllocationHeader::new_small(SizeClass::B64, 0).is_none());
    assert!(AllocationHeader::new_small(SizeClass::B64, 65).is_none());
    assert!(AllocationHeader::new_large(0, 64).is_none());
    assert!(AllocationHeader::new_large(65, 64).is_none());
    assert!(AllocationHeader::new_large(64, u32::MAX as usize + 1).is_none());
    assert!(AllocationHeader::new_large(64, u32::MAX as usize).is_some());
}

#[test]
fn owner_is_known_of_small_headers_only() {
    let mut header = small_header(SizeClass::B64, 32);
    header.owner_cache_id = 7;
    assert_eq!(header.small_owner_cache_id(), Some(7));
    assert_eq!(large_header(1, 64).small_owner_cache_id(), None);
}

#[test]
fn freed_marker_is_set_and_cleared() {
    let (mut memory, block_start) = test_memory();
    small_header(SizeClass::B64, 32).write_to_block(&mut memory, block_start);

    assert!(!small_block_is_marked_freed(&memory, block_start));
    mark_small_block_freed(&mut memory, block_start);
    assert!(small_block_is_marked_freed(&memory, block_start));
    assert_eq!(memory.read_long(block_start + 32), small_free_marker_for(block_start));
    let (prefix, _) = read_back(&memory, block_start);
    assert_eq!(prefix.requested_size, 32);
    clear_small_block_freed(&mut memory, block_start);
    assert!(!small_block_is_marked_freed(&memory, block_start));
}

#[test]
fn markers_of_different_blocks_differ_and_none_is_zero() {
    let markers = [64, 128, 4_096, 1 << 40].map(small_free_marker_for);
    for (index, marker) in markers.iter().enumerate() {
        assert_ne!(*marker, 0);
        for other in &markers[index + 1..] {
            assert_ne!(marker, other);
        }
    }
}

#[test]
fn refreshing_changes_size_and_owner_only() {
    let (mut memory, block_start) = test_memory();
    AllocationHeader::write_small_to_block(&mut memory, block_start, SizeClass::B256, 100, 3)
        .unwrap_or_else(|| panic!("expected specialized small writer to succeed"));
    mark_small_block_freed(&mut memory, block_start);

    AllocationHeader::refresh_small_requested_size_unchecked(&mut memory, block_start, 200);
    let (prefix, kind) = read_back(&memory, block_start);
    assert_eq!(kind, AllocationKind::Small(SizeClass::B256));
    assert_eq!((prefix.requested_size, prefix.owner_cache_id), (200, 3));
    assert!(!small_block_is_marked_freed(&memory, block_start));

    AllocationHeader::refresh_small_requested_size_and_owner_unchecked(
        &mut memory,
        block_start,
        65,
        9,
    );
    let (prefix, kind) = read_back(&memory, block_start);
    assert_eq!(kind, AllocationKind::Small(SizeClass::B256));
    assert_eq!((prefix.requested_size, prefix.owner_cache_id), (65, 9));
}

#[test]
fn mapped_memory_holds_what_is_written() {
    let (mut memory, base) = test_memory();

    assert_eq!(memory.length(), HEADER_SIZE * 8);
    assert_eq!(memory.read_long(base), 0);
    memory.write_byte(base + 5, 0xab);
    memory.write_word(base + 8, 0x0102_0304);
    memory.write_long(base + 16, 0x1122_3344_5566_7788);
    assert_eq!(memory.read_byte(base + 5), 0xab);
    assert_eq!(memory.read_word(base + 8), 0x0102_0304);
    assert_eq!(memory.read_long(base + 16), 0x1122_3344_5566_7788);
    assert_eq!(memory.read_byte(base + 8), 0x04);
    assert_eq!(memory.read_byte(base + 4), 0);
    assert!(memory.covers_range(base, HEADER_SIZE * 8));
    assert!(!memory.covers_range(base, HEADER_SIZE * 8 + 1));
    assert!(!memory.covers_range(base - 1, 1));
}

#[test]
fn routing_fields_are_read_from_bytes() {
    let mut bytes = [0_u8; HEADER_SIZE];
    bytes[0..4].copy_from_slice(&HEADER_MAGIC.to_le_bytes());
    bytes[4] = AllocationKindTag::Small.to_byte();
    bytes[5] = 2;
    bytes[8..12].copy_from_slice(&300_u32.to_le_bytes());
    bytes[12..16].copy_from_slice(&4_096_u32.to_le_bytes());
    bytes[16..20].copy_from_slice(&77_u32.to_le_bytes());

    assert_eq!(
        AllocationHeaderPrefix::from_bytes(&bytes),
        Some(AllocationHeaderPrefix {
            magic: HEADER_MAGIC,
            kind: AllocationKindTag::Small,
            class_index: 2,
            requested_size: 300,
            usable_size: 4_096,
            owner_cache_id: 77,
        })
    );
    bytes[4] = 9;
    assert_eq!(AllocationHeaderPrefix::from_bytes(&bytes), None);
}

#[test]
fn class_indices_in_headers_name_their_classes() {
    for class in SizeClass::ALL {
        let header = AllocationHeader::new_small(class, 1)
            .unwrap_or_else(|| panic!("expected one byte to fit"));
        assert_eq!(header.prefix().class_index as usize, class.index());
        assert_eq!(header.validate(), Ok(AllocationKind::Small(class)));
    }
}

#[test]
fn class_indices_and_classes_name_each_other() {
    for class in SizeClass::ALL {
        assert_eq!(index_to_size_class(size_class_to_index(class)), Some(class));
    }
    for index in 0..12 {
        let class = index_to_size_class(index)
            .unwrap_or_else(|| panic!("expected a class for index {index}"));
        assert_eq!(size_class_to_index(class), index);
    }
    assert_eq!(index_to_size_class(12), None);
    assert_eq!(index_to_size_class(u8::MAX), None);
}

#[test]
fn header_in_a_reclaimed_page_is_refused() {
    let (mut memory, block_start) = test_memory();
    AllocationHeader::write_small_to_block(&mut memory, block_start, SizeClass::B64, 32, 7)
        .unwrap_or_else(|| panic!("expected the header to be written"));
    mark_small_block_freed(&mut memory, block_start);

    for offset in 0..HEADER_SIZE {
        memory.write_byte(block_start + offset, 0);
    }

    assert!(!small_block_is_marked_freed(&memory, block_start));
    assert!(matches!(
        AllocationHeader::read_from_user_ptr(&memory, user_ptr_from_block_start(block_start)),
        Err(FreeError::CorruptHeader)
    ));
}
