use orthotope::api::{GlobalUnavailable, ThreadSlot};
use orthotope::global_alloc::{
    collapse_dealloc_result, fallback_alignment, fallback_prefix_address, fallback_raw_address,
    place_fallback, select_backend, try_fallback_layout, AllocStep, Backend, FreeStep, Layout,
    LayoutError, SystemFallbackPrefix, FALLBACK_MAGIC, FALLBACK_PREFIX_SIZE,
};
use orthotope::{
    global_stats, Allocator, AllocatorConfig, FreeError, InitError, OrthotopeGlobalAlloc,
    SizeClass,
};

const PAGE_SIZE: usize = 4_096;

fn global_allocator() -> Result<Allocator, InitError> {
    Allocator::new(AllocatorConfig::default(), 1, PAGE_SIZE)
}

fn layout(size: usize, align: usize) -> Layout {
    Layout::from_size_align(size, align)
        .unwrap_or_else(|error| panic!("valid layout: {error:?}"))
}

/// Reads what stands before a user address of the arena, as a free through the adapter does.
fn arena_prefix(global: &Result<Allocator, InitError>, user: usize) -> Option<SystemFallbackPrefix> {
    let address = fallback_prefix_address(user)?;
    let allocator = global.as_ref().ok()?;
    let memory = allocator.memory();
    Some(SystemFallbackPrefix {
        magic: memory.read_long(address),
        raw_addr: memory.read_long(address + 8) as usize,
        user_addr: memory.read_long(address + 16) as usize,
    })
}

#[test]
fn routes_zero_size_layout_to_system() {
    let layout =
        Layout::from_size_align(0, 8).unwrap_or_else(|error| panic!("valid layout: {error:?}"));
    assert_eq!(select_backend(layout), Backend::System);
}

#[test]
fn routes_alignments_up_to_header_alignment_to_orthotope() {
    let layout =
        Layout::from_size_align(16, 64).unwrap_or_else(|error| panic!("valid layout: {error:?}"));
    assert_eq!(select_backend(layout), Backend::Orthotope);
}

#[test]
fn routes_over_aligned_layouts_to_system() {
    let layout = Layout::from_size_align(16, 128)
        .unwrap_or_else(|error| panic!("valid layout: {error:?}"));
    assert_eq!(select_backend(layout), Backend::System);
}

#[test]
fn layouts_follow_the_limits_of_the_standard_library() {
    for align in [0, 1, 2, 3, 8, 24, 64, 4_096, 1 << 62, 1 << 63] {
        for size in [
            0,
            1,
            63,
            64,
            isize::MAX as usize - 4_096,
            isize::MAX as usize - 64,
            isize::MAX as usize - 63,
            isize::MAX as usize - 7,
            isize::MAX as usize,
            isize::MAX as usize + 1,
            usize::MAX,
        ] {
            let expected = std::alloc::Layout::from_size_align(size, align);
            match Layout::from_size_align(size, align) {
                Ok(layout) => {
                    assert!(expected.is_ok(), "{size} {align}");
                    assert_eq!((layout.size(), layout.align()), (size, align));
                }
                Err(LayoutError) => assert!(expected.is_err(), "{size} {align}"),
            }
        }
    }
}

#[test]
fn fallback_prefix_round_trips_raw_pointer() {
    let layout =
        Layout::from_size_align(32, 8).unwrap_or_else(|error| panic!("valid layout: {error:?}"));
    let raw_layout = try_fallback_layout(layout)
        .unwrap_or_else(|| panic!("fallback allocation should preserve a valid layout"));
    assert_eq!(raw_layout.size(), 32 + 24 + 7);
    assert_eq!(raw_layout.align(), 8);

    for raw in [0x1000, 0x1001, 0x1007, 0x1008] {
        let (user, prefix) = place_fallback(raw, layout)
            .unwrap_or_else(|| panic!("fallback allocation should succeed"));

        assert_eq!(fallback_raw_address(user, Some(prefix)), Some(raw));
        assert_eq!(prefix.magic, FALLBACK_MAGIC);
        assert_eq!(prefix.user_addr, user);
        assert_eq!(prefix.raw_addr, raw);
        assert_eq!(user % 8, 0);
        assert!(fallback_prefix_address(user) >= Some(raw));
        assert!(user + 32 <= raw + raw_layout.size());
    }
}

#[test]
fn foreign_prefixes_are_not_decoded() {
    let prefix = SystemFallbackPrefix {
        magic: FALLBACK_MAGIC,
        raw_addr: 0x1000,
        user_addr: 0x1020,
    };
    assert_eq!(fallback_raw_address(0x1020, Some(prefix)), Some(0x1000));
    assert_eq!(fallback_raw_address(0x1040, Some(prefix)), None);
    assert_eq!(
        fallback_raw_address(0x1020, Some(SystemFallbackPrefix { magic: 0, ..prefix })),
        None
    );
    assert_eq!(fallback_raw_address(0x1020, None), None);
    assert_eq!(fallback_prefix_address(FALLBACK_PREFIX_SIZE), None);
    assert_eq!(fallback_prefix_address(3), None);
    assert_eq!(fallback_prefix_address(FALLBACK_PREFIX_SIZE + 1), Some(1));
}

#[test]
fn fallback_blocks_are_aligned_for_user_and_prefix() {
    assert_eq!(fallback_alignment(layout(16, 1)), 8);
    assert_eq!(fallback_alignment(layout(16, 32)), 32);
    assert_eq!(place_fallback(0x1001, layout(16, 32)).map(|placed| placed.0), Some(0x1020));
    assert_eq!(place_fallback(usize::MAX - 8, layout(16, 32)), None);
}

#[test]
fn near_limit_layout_has_no_fallback_block() {
    assert!(try_fallback_layout(layout(isize::MAX as usize - 7, 8)).is_none());
}

#[test]
fn reentrant_allocation_asks_for_a_fallback_block() {
    let shim = OrthotopeGlobalAlloc::new();
    let mut global = global_allocator();
    let mut busy = ThreadSlot::Busy;

    assert_eq!(
        shim.begin_alloc(&mut global, &mut busy, 1, layout(64, 8)),
        AllocStep::Fallback
    );
}

#[test]
fn collapsing_tolerates_a_busy_cache_only_while_unwinding() {
    assert_eq!(collapse_dealloc_result(Ok(Some(Ok(()))), false), Ok(()));
    assert_eq!(
        collapse_dealloc_result(Ok(Some(Err(FreeError::CorruptHeader))), true),
        Err(FreeError::CorruptHeader)
    );
    assert_eq!(collapse_dealloc_result(Ok(None), true), Ok(()));
    assert_eq!(
        collapse_dealloc_result(Ok(None), false),
        Err(FreeError::GlobalInitFailed)
    );
    assert_eq!(
        collapse_dealloc_result(Err(GlobalUnavailable), true),
        Err(FreeError::GlobalInitFailed)
    );
}

#[test]
fn non_overaligned_large_allocation_updates_orthotope_stats() {
    let shim = OrthotopeGlobalAlloc::default();
    let mut global = global_allocator();
    let mut slot = ThreadSlot::Vacant;
    let request = SizeClass::max_small_request() + 1;
    let layout = Layout::from_size_align(request, 8)
        .unwrap_or_else(|error| panic!("expected valid large layout: {error:?}"));
    let before = global_stats(&global)
        .unwrap_or_else(|error| panic!("expected global stats to succeed: {error:?}"));

    let ptr = match shim.begin_alloc(&mut global, &mut slot, 1, layout) {
        AllocStep::Served(ptr) => ptr,
        step => panic!("expected large shim allocation to succeed: {step:?}"),
    };

    let during = global_stats(&global)
        .unwrap_or_else(|error| panic!("expected global stats to succeed: {error:?}"));
    assert_eq!(
        during.large_live_allocations,
        before.large_live_allocations + 1
    );

    let prefix = arena_prefix(&global, ptr);
    assert_eq!(
        shim.begin_dealloc(&mut global, &mut slot, 1, ptr, None, layout, prefix, false),
        FreeStep::Done
    );

    let after = global_stats(&global)
        .unwrap_or_else(|error| panic!("expected global stats to succeed: {error:?}"));
    assert_eq!(after.large_live_allocations, before.large_live_allocations);
}

#[test]
fn over_aligned_and_empty_layouts_go_to_the_system() {
    let shim = OrthotopeGlobalAlloc::new();
    let mut global = global_allocator();
    let mut slot = ThreadSlot::Vacant;

    for layout in [layout(32, 128), layout(0, 8)] {
        assert_eq!(
            shim.begin_alloc(&mut global, &mut slot, 1, layout),
            AllocStep::System
        );
        assert_eq!(
            shim.begin_dealloc(&mut global, &mut slot, 1, 0x1000, None, layout, None, false),
            FreeStep::System
        );
    }
    assert!(matches!(slot, ThreadSlot::Vacant));
}

#[test]
fn fallback_blocks_are_freed_with_their_raw_layout() {
    let shim = OrthotopeGlobalAlloc::new();
    let mut global = global_allocator();
    let mut slot = ThreadSlot::Vacant;
    let layout = layout(48, 16);
    let (user, prefix) =
        place_fallback(0x2003, layout).unwrap_or_else(|| panic!("expected a user address"));

    match shim.begin_dealloc(&mut global, &mut slot, 1, user, None, layout, Some(prefix), false) {
        FreeStep::SystemFallback(raw, raw_layout) => {
            assert_eq!(raw, 0x2003);
            assert_eq!((raw_layout.size(), raw_layout.align()), (48 + 24 + 15, 16));
        }
        step => panic!("expected the fallback block to be freed: {step:?}"),
    }
}

#[test]
fn invalid_frees_abort_and_null_is_ignored() {
    let shim = OrthotopeGlobalAlloc::new();
    let mut global = global_allocator();
    let mut slot = ThreadSlot::Vacant;
    let small = layout(32, 8);
    let ptr = match shim.begin_alloc(&mut global, &mut slot, 1, small) {
        AllocStep::Served(ptr) => ptr,
        step => panic!("expected shim allocation to succeed: {step:?}"),
    };

    assert_eq!(
        shim.begin_dealloc(&mut global, &mut slot, 1, 0, None, small, None, false),
        FreeStep::Done
    );
    let prefix = arena_prefix(&global, ptr);
    assert_eq!(
        shim.begin_dealloc(&mut global, &mut slot, 1, ptr, None, layout(33, 8), prefix, false),
        FreeStep::Abort
    );
    let mut busy = ThreadSlot::Busy;
    assert_eq!(
        shim.begin_dealloc(&mut global, &mut busy, 1, ptr, None, small, prefix, false),
        FreeStep::Abort
    );
    assert_eq!(
        shim.begin_dealloc(&mut global, &mut busy, 1, ptr, None, small, prefix, true),
        FreeStep::Done
    );
    assert_eq!(
        shim.begin_dealloc(&mut global, &mut slot, 1, ptr, None, small, prefix, false),
        FreeStep::Done
    );
}

#[test]
fn failed_initialization_fails_every_request() {
    let shim = OrthotopeGlobalAlloc::new();
    let mut config = AllocatorConfig::default();
    config.arena_size = 0;
    let mut global = Allocator::new(config, 1, PAGE_SIZE);
    let mut slot = ThreadSlot::Vacant;

    assert_eq!(
        shim.begin_alloc(&mut global, &mut slot, 1, layout(32, 8)),
        AllocStep::Failed
    );
    assert!(global_stats(&global).is_err());
}
