use vstd::prelude::*;

use crate::allocator::Allocator;
use crate::blocks;
use crate::config::AllocatorConfig;
use crate::error::{AllocError, FreeError, InitError};
use crate::header::{AllocationHeaderPrefix, HEADER_SIZE};
use crate::size_class::SizeClass;
use crate::stats::AllocatorStats;
use crate::thread_cache::ThreadCache;

verus! {

/// What a thread's cache slot holds when the thread calls into the process-global allocator.
pub enum ThreadSlot {
    /// The thread is exiting and its slot is gone.
    Destroyed,
    /// The thread is inside the allocator already.
    Busy,
    /// The thread has no cache yet.
    Vacant,
    /// The thread's cache.
    Ready(ThreadCache),
}

/// The process-global allocator could not be initialized.
#[derive(Clone, Copy, Debug, PartialEq, Eq, Structural)]
pub struct GlobalUnavailable;

impl ThreadSlot {
    /// The slot can serve a call.
    pub open spec fn open(self) -> bool {
        self is Vacant || self is Ready
    }

    /// `cache` is the cache that a call works with: the thread's own, or a new one with the
    /// name `fresh_id`.
    pub open spec fn offers(
        self,
        cache: ThreadCache,
        config: AllocatorConfig,
        fresh_id: u32,
    ) -> bool {
        match self {
            ThreadSlot::Ready(own) => cache == own,
            ThreadSlot::Vacant => {
                &&& cache.wf()
                &&& cache.empty()
                &&& cache.bound_to() is None
                &&& cache.settings() == config
                &&& cache.id() == fresh_id
            },
            _ => false,
        }
    }

    /// Puts a new cache with the name `fresh_id` into a vacant slot, and returns whether the
    /// slot can serve a call.
    pub fn occupy(&mut self, config: &AllocatorConfig, fresh_id: u32) -> (ready: bool)
        ensures
            ready == old(self).open(),
            ready ==> *final(self) is Ready && old(self).offers(
                final(self)->Ready_0,
                *config,
                fresh_id,
            ),
            !ready ==> *final(self) == *old(self),
    {
        match self {
            ThreadSlot::Destroyed => false,
            ThreadSlot::Busy => false,
            ThreadSlot::Ready(_) => true,
            ThreadSlot::Vacant => {
                *self = ThreadSlot::Ready(ThreadCache::new(*config, fresh_id));
                true
            },
        }
    }
}

/// The process-global allocator and the slot of the calling thread belong together, and at
/// least `count` more changes can be counted.
pub open spec fn usable(
    global: Result<Allocator, InitError>,
    slot: ThreadSlot,
    count: int,
) -> bool {
    global matches Ok(allocator) ==> {
        &&& allocator.wf()
        &&& allocator.pools().epochs_left(count)
        &&& slot matches ThreadSlot::Ready(cache) ==> allocator.serves(cache)
    }
}

/// What a request for `size` bytes makes of `before` and `cache`, and what it gives.
pub open spec fn requested(
    before: Allocator,
    cache: ThreadCache,
    after: Allocator,
    cache_after: ThreadCache,
    size: usize,
    result: Result<usize, AllocError>,
) -> bool {
    &&& after.wf()
    &&& after.bound(cache_after)
    &&& after.evolved(cache_after, before, cache, None)
    &&& size == 0 ==> result == Err::<usize, AllocError>(AllocError::ZeroSize) && after == before
    &&& forall|class: SizeClass| #[trigger]
        class.serves(size as int) ==> before.small_outcome(
            cache,
            after,
            cache_after,
            class,
            size,
            result,
        ) && after.registry() == before.registry()
    &&& size > SizeClass::B16M.payload() ==> before.large_outcome(after, size, result)
        && after.pools() == before.pools()
    &&& forall|class: SizeClass|
        !class.serves(size as int) ==> #[trigger] cache_after.held(class) == cache.held(class)
}

/// What freeing the allocation at `user` makes of `before` and `cache`, and what it gives.
/// `outside` is what stands in front of `user` if that is not the allocator's own memory.
pub open spec fn released(
    before: Allocator,
    cache: ThreadCache,
    after: Allocator,
    cache_after: ThreadCache,
    user: usize,
    outside: Option<AllocationHeaderPrefix>,
    expected: Option<usize>,
    result: Result<(), FreeError>,
) -> bool {
    &&& after.wf()
    &&& after.bound(cache_after)
    &&& result == before.own_free_outcome(user, outside, expected)
    &&& after.own_freed(cache_after, before, cache, user, outside, result)
    &&& after.evolved(
        cache_after,
        before,
        cache,
        if result is Ok {
            Some((user - HEADER_SIZE) as usize)
        } else {
            None
        },
    )
}

/// Law: a thread that has a cache uses its own; one that has none yet gets a new, empty one
/// under its own name; and one that is inside the allocator already or exiting gets none.
pub proof fn threads_use_their_own_cache(
    slot: ThreadSlot,
    cache: ThreadCache,
    config: AllocatorConfig,
    fresh_id: u32,
)
    ensures
        slot is Busy || slot is Destroyed <==> !slot.open(),
        slot is Busy || slot is Destroyed ==> !slot.offers(cache, config, fresh_id),
        slot matches ThreadSlot::Ready(own) ==> (slot.offers(cache, config, fresh_id) <==> cache
            == own),
        slot is Vacant && slot.offers(cache, config, fresh_id) ==> cache.id() == fresh_id
            && cache.settings() == config && forall|class: SizeClass| #[trigger]
            cache.held(class).len() == 0,
{
    broadcast use vstd::multiset::group_multiset_axioms;

    if slot is Vacant && slot.offers(cache, config, fresh_id) {
        assert forall|class: SizeClass| #[trigger] cache.held(class).len() == 0 by {
            cache.class_is_wf(class);
            assert(cache.local(class).total_len == 0);
            blocks::blocks_of(cache.staged(class));
        }
    }
}

/// Requests `size` bytes from the process-global allocator through the thread's cache.
///
/// `Ok(None)` says that the thread's cache cannot be used now.
///
/// # Errors
///
/// Returns [`GlobalUnavailable`] when the process-global allocator could not be initialized.
pub fn try_allocate(
    global: &mut Result<Allocator, InitError>,
    slot: &mut ThreadSlot,
    fresh_id: u32,
    size: usize,
) -> (result: Result<Option<Result<usize, AllocError>>, GlobalUnavailable>)
    requires
        usable(*old(global), *old(slot), 3),
    ensures
        match *old(global) {
            Err(_) => result == Err::<Option<Result<usize, AllocError>>, GlobalUnavailable>(
                GlobalUnavailable,
            ) && *final(global) == *old(global) && *final(slot) == *old(slot),
            Ok(before) => if old(slot).open() {
                &&& result is Ok
                &&& result->Ok_0 is Some
                &&& *final(global) is Ok
                &&& *final(slot) is Ready
                &&& exists|cache: ThreadCache| #[trigger]
                    old(slot).offers(cache, before.settings(), fresh_id) && requested(
                        before,
                        cache,
                        final(global)->Ok_0,
                        final(slot)->Ready_0,
                        size,
                        result->Ok_0->0,
                    )
            } else {
                &&& result == Ok::<Option<Result<usize, AllocError>>, GlobalUnavailable>(None)
                &&& *final(global) == *old(global)
                &&& *final(slot) == *old(slot)
            },
        },
{
    match global {
        Err(_) => Err(GlobalUnavailable),
        Ok(allocator) => {
            if !slot.occupy(allocator.config(), fresh_id) {
                return Ok(None);
            }
            match slot {
                ThreadSlot::Ready(cache) => {
                    let ghost opened = *cache;
                    let ghost before = *allocator;
                    let result: Result<usize, AllocError> = allocator.allocate_with_cache(
                        cache,
                        size,
                    );
                    assert(old(slot).offers(opened, before.settings(), fresh_id));
                    assert(requested(before, opened, *allocator, *cache, size, result));
                    Ok(Some(result))
                },
                _ => Ok(None),
            }
        },
    }
}

/// The calling thread may free `user`: if nothing speaks against it and it is a small
/// allocation, it is live.
pub open spec fn may_free(
    global: Result<Allocator, InitError>,
    slot: ThreadSlot,
    fresh_id: u32,
    user: usize,
    outside: Option<AllocationHeaderPrefix>,
    expected: Option<usize>,
) -> bool {
    global matches Ok(allocator) ==> forall|cache: ThreadCache| #[trigger]
        slot.offers(cache, allocator.settings(), fresh_id) ==> allocator.may_free_own(
            cache,
            user,
            outside,
            expected,
        )
}

/// Frees the allocation at `user` through the thread's cache. `outside` is what stands in
/// front of `user` if that is not the allocator's own memory.
///
/// `Ok(None)` says that the thread's cache cannot be used now.
///
/// # Errors
///
/// Returns [`GlobalUnavailable`] when the process-global allocator could not be initialized.
pub fn try_deallocate(
    global: &mut Result<Allocator, InitError>,
    slot: &mut ThreadSlot,
    fresh_id: u32,
    user: usize,
    outside: Option<AllocationHeaderPrefix>,
    expected: Option<usize>,
) -> (result: Result<Option<Result<(), FreeError>>, GlobalUnavailable>)
    requires
        usable(*old(global), *old(slot), 2),
        may_free(*old(global), *old(slot), fresh_id, user, outside, expected),
    ensures
        match *old(global) {
            Err(_) => result == Err::<Option<Result<(), FreeError>>, GlobalUnavailable>(
                GlobalUnavailable,
            ) && *final(global) == *old(global) && *final(slot) == *old(slot),
            Ok(before) => if old(slot).open() {
                &&& result is Ok
                &&& result->Ok_0 is Some
                &&& *final(global) is Ok
                &&& *final(slot) is Ready
                &&& exists|cache: ThreadCache| #[trigger]
                    old(slot).offers(cache, before.settings(), fresh_id) && released(
                        before,
                        cache,
                        final(global)->Ok_0,
                        final(slot)->Ready_0,
                        user,
                        outside,
                        expected,
                        result->Ok_0->0,
                    )
            } else {
                &&& result == Ok::<Option<Result<(), FreeError>>, GlobalUnavailable>(None)
                &&& *final(global) == *old(global)
                &&& *final(slot) == *old(slot)
            },
        },
{
    match global {
        Err(_) => Err(GlobalUnavailable),
        Ok(allocator) => {
            if !slot.occupy(allocator.config(), fresh_id) {
                return Ok(None);
            }
            match slot {
                ThreadSlot::Ready(cache) => {
                    let ghost opened = *cache;
                    let ghost before = *allocator;
                    assert(old(slot).offers(opened, before.settings(), fresh_id));
                    let result: Result<(), FreeError> = match expected {
                        Some(size) => allocator.deallocate_with_size_checked(
                            cache,
                            user,
                            outside,
                            size,
                        ),
                        None => allocator.deallocate_with_cache(cache, user, outside),
                    };
                    assert(released(
                        before,
                        opened,
                        *allocator,
                        *cache,
                        user,
                        outside,
                        expected,
                        result,
                    ));
                    Ok(Some(result))
                },
                _ => Ok(None),
            }
        },
    }
}

/// Allocates `size` bytes from the process-global allocator.
///
/// # Errors
///
/// Returns [`AllocError::GlobalInitFailed`] when the process-global allocator could not be
/// initialized, and when the thread's cache is in use already or gone.
///
/// Returns [`AllocError::ZeroSize`] for zero-sized requests and
/// [`AllocError::OutOfMemory`] when the global allocator cannot satisfy the request.
pub fn allocate(
    global: &mut Result<Allocator, InitError>,
    slot: &mut ThreadSlot,
    fresh_id: u32,
    size: usize,
) -> (result: Result<usize, AllocError>)
    requires
        usable(*old(global), *old(slot), 3),
    ensures
        *old(global) is Err || !old(slot).open() ==> result == Err::<usize, AllocError>(
            AllocError::GlobalInitFailed,
        ) && *final(global) == *old(global) && *final(slot) == *old(slot),
        *old(global) is Ok && old(slot).open() ==> {
            let before = old(global)->Ok_0;
            &&& *final(global) is Ok
            &&& *final(slot) is Ready
            &&& exists|cache: ThreadCache| #[trigger]
                old(slot).offers(cache, before.settings(), fresh_id) && requested(
                    before,
                    cache,
                    final(global)->Ok_0,
                    final(slot)->Ready_0,
                    size,
                    result,
                )
        },
{
    match try_allocate(global, slot, fresh_id, size) {
        Ok(Some(result)) => result,
        Ok(None) => Err(AllocError::GlobalInitFailed),
        Err(_) => Err(AllocError::GlobalInitFailed),
    }
}

/// Frees the allocation at `user`. `outside` is what stands in front of `user` if that is not
/// the allocator's own memory.
///
/// # Errors
///
/// Returns [`FreeError::GlobalInitFailed`] when the process-global allocator could not be
/// initialized, and when the thread's cache is in use already or gone.
///
/// Returns [`FreeError::CorruptHeader`] when the allocation metadata cannot be decoded,
/// [`FreeError::ForeignPointer`] when a small block lies outside the allocator's arena,
/// [`FreeError::DoubleFree`] for small blocks that carry their freed marker, and
/// [`FreeError::AlreadyFreedOrUnknownLarge`] for unknown large frees.
pub fn deallocate(
    global: &mut Result<Allocator, InitError>,
    slot: &mut ThreadSlot,
    fresh_id: u32,
    user: usize,
    outside: Option<AllocationHeaderPrefix>,
) -> (result: Result<(), FreeError>)
    requires
        usable(*old(global), *old(slot), 2),
        may_free(*old(global), *old(slot), fresh_id, user, outside, None),
    ensures
        *old(global) is Err || !old(slot).open() ==> result == Err::<(), FreeError>(
            FreeError::GlobalInitFailed,
        ) && *final(global) == *old(global) && *final(slot) == *old(slot),
        *old(global) is Ok && old(slot).open() ==> {
            let before = old(global)->Ok_0;
            &&& *final(global) is Ok
            &&& *final(slot) is Ready
            &&& exists|cache: ThreadCache| #[trigger]
                old(slot).offers(cache, before.settings(), fresh_id) && released(
                    before,
                    cache,
                    final(global)->Ok_0,
                    final(slot)->Ready_0,
                    user,
                    outside,
                    None,
                    result,
                )
        },
{
    match try_deallocate(global, slot, fresh_id, user, outside, None) {
        Ok(Some(result)) => result,
        Ok(None) => Err(FreeError::GlobalInitFailed),
        Err(_) => Err(FreeError::GlobalInitFailed),
    }
}

/// Frees the allocation at `user` while validating the caller-provided allocation size.
///
/// # Errors
///
/// Returns [`FreeError::SizeMismatch`] when `size` does not match the recorded request size,
/// plus the same errors as [`deallocate`].
pub fn deallocate_with_size(
    global: &mut Result<Allocator, InitError>,
    slot: &mut ThreadSlot,
    fresh_id: u32,
    user: usize,
    outside: Option<AllocationHeaderPrefix>,
    size: usize,
) -> (result: Result<(), FreeError>)
    requires
        usable(*old(global), *old(slot), 2),
        may_free(*old(global), *old(slot), fresh_id, user, outside, Some(size)),
    ensures
        *old(global) is Err || !old(slot).open() ==> result == Err::<(), FreeError>(
            FreeError::GlobalInitFailed,
        ) && *final(global) == *old(global) && *final(slot) == *old(slot),
        *old(global) is Ok && old(slot).open() ==> {
            let before = old(global)->Ok_0;
            &&& *final(global) is Ok
            &&& *final(slot) is Ready
            &&& exists|cache: ThreadCache| #[trigger]
                old(slot).offers(cache, before.settings(), fresh_id) && released(
                    before,
                    cache,
                    final(global)->Ok_0,
                    final(slot)->Ready_0,
                    user,
                    outside,
                    Some(size),
                    result,
                )
        },
{
    match try_deallocate(global, slot, fresh_id, user, outside, Some(size)) {
        Ok(Some(result)) => result,
        Ok(None) => Err(FreeError::GlobalInitFailed),
        Err(_) => Err(FreeError::GlobalInitFailed),
    }
}

/// Returns a snapshot of the process-global allocator's shared state.
///
/// The snapshot includes arena capacity and remaining space, central-pool occupancy, and
/// large-allocation tracking state. It does not include the blocks in thread caches.
///
/// # Errors
///
/// Returns [`InitError`] when the process-global allocator could not be initialized.
pub fn global_stats(global: &Result<Allocator, InitError>) -> (result: Result<
    AllocatorStats,
    &InitError,
>)
    requires
        *global matches Ok(allocator) ==> allocator.wf(),
    ensures
        match *global {
            Ok(allocator) => result matches Ok(stats) && allocator.counted(stats),
            Err(error) => result matches Err(cause) && *cause == error,
        },
{
    match global {
        Ok(allocator) => Ok(allocator.stats()),
        Err(error) => Err(error),
    }
}

} // verus!
