use vstd::prelude::*;
use vstd::string::*;

use crate::allocator;
use crate::allocator::Allocator;
use crate::api;
use crate::bench::BenchError;
use crate::class_pool::SweepRequest;
use crate::config::AllocatorConfig;
use crate::error::{AllocError, FreeError, InitError};
use crate::header;
use crate::header::{AllocationHeader, AllocationHeaderPrefix, HEADER_SIZE};
use crate::large_object;
use crate::laws;
use crate::memory::Memory;
use crate::size_class::{SizeClass, BLOCK_ALIGNMENT};
use crate::thread_cache::ThreadCache;

verus! {

/// Requests `size` bytes and words the error, after `label`.
///
/// # Errors
///
/// Returns [`BenchError::Alloc`] when the request fails.
pub fn allocate_or_report(
    allocator: &mut Allocator,
    cache: &mut ThreadCache,
    size: usize,
    label: &str,
) -> (result: Result<usize, BenchError>)
    requires
        old(allocator).wf(),
        old(allocator).serves(*old(cache)),
        old(allocator).pools().epochs_left(3),
    ensures
        exists|outcome: Result<usize, AllocError>| #[trigger]
            api::requested(
                *old(allocator),
                *old(cache),
                *final(allocator),
                *final(cache),
                size,
                outcome,
            ) && match outcome {
                Ok(user) => result == Ok::<usize, BenchError>(user),
                Err(error) => result matches Err(BenchError::Alloc(message)) && message@ == label@
                    + error.text(),
            },
        forall|class: SizeClass|
            #![trigger final(allocator).pools().pool(class)]
            final(allocator).pools().pool(class).epoch <= old(allocator).pools().pool(class).epoch
                + 3,
{
    let outcome: Result<usize, AllocError> = allocator.allocate_with_cache(cache, size);
    assert(api::requested(
        *old(allocator),
        *old(cache),
        *allocator,
        *cache,
        size,
        outcome,
    ));
    match outcome {
        Ok(user) => Ok(user),
        Err(error) => {
            let mut message: String = String::from_str(label);
            let cause: String = error.message();
            message.append(cause.as_str());
            Err(BenchError::Alloc(message))
        },
    }
}

/// Frees the allocation of `size` bytes at `user` and words the error, after `label`. `outside`
/// is what stands in front of `user` if that is not the allocator's own memory.
///
/// # Errors
///
/// Returns [`BenchError::Alloc`] when the free is refused.
pub fn free_or_report(
    allocator: &mut Allocator,
    cache: &mut ThreadCache,
    user: usize,
    outside: Option<AllocationHeaderPrefix>,
    size: usize,
    label: &str,
) -> (result: Result<(), BenchError>)
    requires
        old(allocator).wf(),
        old(allocator).serves(*old(cache)),
        old(allocator).pools().epochs_left(2),
        old(allocator).may_free_own(*old(cache), user, outside, Some(size)),
    ensures
        exists|outcome: Result<(), FreeError>| #[trigger]
            api::released(
                *old(allocator),
                *old(cache),
                *final(allocator),
                *final(cache),
                user,
                outside,
                Some(size),
                outcome,
            ) && match outcome {
                Ok(()) => result is Ok,
                Err(error) => result matches Err(BenchError::Alloc(message)) && message@ == label@
                    + error.text(),
            },
        forall|class: SizeClass|
            #![trigger final(allocator).pools().pool(class)]
            final(allocator).pools().pool(class).epoch <= old(allocator).pools().pool(class).epoch
                + 2,
{
    let outcome: Result<(), FreeError> = allocator.deallocate_with_size_checked(
        cache,
        user,
        outside,
        size,
    );
    assert(api::released(
        *old(allocator),
        *old(cache),
        *allocator,
        *cache,
        user,
        outside,
        Some(size),
        outcome,
    ));
    match outcome {
        Ok(()) => Ok(()),
        Err(error) => {
            let mut message: String = String::from_str(label);
            let cause: String = error.message();
            message.append(cause.as_str());
            Err(BenchError::Alloc(message))
        },
    }
}

/// The allocation of `size` bytes at `user` is live, and its header says so.
pub open spec fn backed(allocator: Allocator, cache: ThreadCache, user: usize, size: usize) -> bool {
    ||| laws::live_large(allocator, user, size)
    ||| exists|class: SizeClass| #[trigger] backed_small(allocator, cache, class, user, size)
}

/// The small allocation of `size` bytes at `user` is live, and its header says so.
pub open spec fn backed_small(
    allocator: Allocator,
    cache: ThreadCache,
    class: SizeClass,
    user: usize,
    size: usize,
) -> bool {
    &&& HEADER_SIZE <= user
    &&& 0 < size <= class.payload()
    &&& allocator.lives(cache, class, (user - HEADER_SIZE) as usize)
    &&& header::live_small(
        allocator.bytes(),
        user - HEADER_SIZE,
        class,
        size as int,
        cache.id(),
    )
}

/// A header whose bytes are the same is the same.
proof fn written_header_is_kept(memory: Memory, other: Memory, block: int, written: AllocationHeader)
    requires
        written.is_at(other, block),
        forall|at: int| block <= at < block + 64 ==> #[trigger] memory.byte(at) == other.byte(at),
    ensures
        written.is_at(memory, block),
{
}

/// An allocation stays live while others come and go.
proof fn backed_stays(
    before: Allocator,
    cache_before: ThreadCache,
    after: Allocator,
    cache_after: ThreadCache,
    freed: Option<usize>,
    user: usize,
    size: usize,
)
    requires
        before.wf(),
        before.serves(cache_before),
        after.wf(),
        after.evolved(cache_after, before, cache_before, freed),
        freed matches Some(block) ==> laws::has_block(before, block),
        backed(before, cache_before, user, size),
        freed != Some((user - HEADER_SIZE) as usize),
    ensures
        backed(after, cache_after, user, size),
        HEADER_SIZE <= user,
{
    if laws::live_large(before, user, size) {
        let record = before.registry().registry().live@[user];
        assert(large_object::record_is_sound(user, record));
        laws::live_large_block_is_kept(
            before,
            cache_before,
            after,
            cache_after,
            freed,
            user,
        );
        written_header_is_kept(
            after.bytes(),
            before.bytes(),
            user - HEADER_SIZE,
            AllocationHeader::large(size as int, record.block_size - HEADER_SIZE),
        );
        assert(laws::live_large(after, user, size));
    } else {
        let class = choose|class: SizeClass| #[trigger]
            backed_small(before, cache_before, class, user, size);
        let block = (user - HEADER_SIZE) as usize;
        laws::live_small_block_is_kept(
            before,
            cache_before,
            after,
            cache_after,
            freed,
            class,
            block,
        );
        class.block_bytes_fit(before.settings().alignment);
        header::header_is_kept(after.bytes(), before.bytes(), block as int);
        assert(backed_small(after, cache_after, class, user, size));
    }
}

/// A live allocation can be freed with its size.
proof fn backed_can_be_freed(allocator: Allocator, cache: ThreadCache, user: usize, size: usize)
    requires
        allocator.wf(),
        backed(allocator, cache, user, size),
    ensures
        allocator.own_free_outcome(user, None, Some(size)) is Ok,
        allocator.may_free_own(cache, user, None, Some(size)),
        HEADER_SIZE <= user,
{
    if laws::live_large(allocator, user, size) {
        assert(large_object::record_is_sound(user, allocator.registry().registry().live@[user]));
        laws::live_large_allocation_can_be_freed(allocator, cache, size, user, None, Some(size));
    } else {
        let class = choose|class: SizeClass| #[trigger]
            backed_small(allocator, cache, class, user, size);
        laws::live_small_allocation_can_be_freed(
            allocator,
            cache,
            class,
            size,
            cache.id(),
            user,
            None,
            Some(size),
        );
    }
}

/// What a request gives is live, and was not live before.
proof fn request_is_backed(
    before: Allocator,
    cache_before: ThreadCache,
    after: Allocator,
    cache_after: ThreadCache,
    size: usize,
    user: usize,
)
    requires
        before.wf(),
        before.serves(cache_before),
        api::requested(before, cache_before, after, cache_after, size, Ok(user)),
    ensures
        backed(after, cache_after, user, size),
        forall|other: usize| !(#[trigger] backed(before, cache_before, user, other)),
{
    if size > SizeClass::B16M.payload() {
        assert(laws::live_large(after, user, size));
        assert forall|other: usize| !(#[trigger] backed(before, cache_before, user, other)) by {
            if backed(before, cache_before, user, other) {
                let class = choose|class: SizeClass| #[trigger]
                    backed_small(before, cache_before, class, user, other);
                let block = (user - HEADER_SIZE) as usize;
                assert(after.registry().registry().live@.contains_key(user));
                laws::small_and_large_do_not_overlap(after, class, block, user);
                assert(large_object::record_is_sound(
                    user,
                    after.registry().registry().live@[user],
                ));
                class.block_bytes_fit(after.settings().alignment);
            }
        }
    } else {
        let class = SizeClass::small_sizes_have_one_class(size as int);
        let block = (user - HEADER_SIZE) as usize;
        assert(backed_small(after, cache_after, class, user, size));
        laws::small_request_gets_no_live_block(
            before,
            cache_before,
            after,
            cache_after,
            class,
            size,
            user,
        );
        assert forall|other: usize| !(#[trigger] backed(before, cache_before, user, other)) by {
            if backed(before, cache_before, user, other) {
                let old_class = choose|old_class: SizeClass| #[trigger]
                    backed_small(before, cache_before, old_class, user, other);
                laws::live_small_block_is_kept(
                    before,
                    cache_before,
                    after,
                    cache_after,
                    None,
                    old_class,
                    block,
                );
                assert(after.pools().pool(old_class).knows(block));
                assert(after.pools().pool(class).knows(block));
            }
        }
    }
}

/// A standalone allocator with one cache, under measurement.
pub struct OrthotopeBackend {
    allocator: Allocator,
    cache: ThreadCache,
    live: Ghost<Map<usize, usize>>,
    left: Ghost<int>,
}

impl OrthotopeBackend {
    /// Creates an allocator with the default configuration, named `id`, and a cache named
    /// `cache_id`. `page_size` is the system's page size.
    ///
    /// # Errors
    ///
    /// Returns [`BenchError::Alloc`] when the allocator cannot be created.
    pub fn new(id: usize, cache_id: u32, page_size: usize) -> (result: Result<Self, BenchError>)
        requires
            page_size > 0,
        ensures
            exists|config: AllocatorConfig, outcome: Result<Allocator, InitError>|
                default_config(config) && #[trigger] created(config, id, outcome) && (outcome
                    matches Err(error) ==> error is MapFailed) && #[trigger] started(
                    config,
                    cache_id,
                    outcome,
                    result,
                ),
    {
        let config: AllocatorConfig = AllocatorConfig::default();
        let outcome: Result<Allocator, InitError> = Allocator::new(config, id, page_size);
        proof {
            default_config_is_sound(config);
            assert(created(config, id, outcome));
        }
        Self::of_allocator(outcome, config, cache_id)
    }

    /// Joins a new allocator with a new cache named `cache_id`, or words the error of the
    /// attempt to create the allocator.
    ///
    /// # Errors
    ///
    /// Returns [`BenchError::Alloc`] when `outcome` is an error.
    pub fn of_allocator(
        outcome: Result<Allocator, InitError>,
        config: AllocatorConfig,
        cache_id: u32,
    ) -> (result: Result<Self, BenchError>)
        requires
            outcome matches Ok(allocator) ==> allocator.wf() && allocator.settings() == config
                && allocator.pools().epochs_left(u64::MAX as int),
        ensures
            started(config, cache_id, outcome, result),
    {
        match outcome {
            Ok(allocator) => {
                let cache: ThreadCache = ThreadCache::new(config, cache_id);
                Ok(
                    OrthotopeBackend {
                        allocator,
                        cache,
                        live: Ghost(Map::empty()),
                        left: Ghost(u64::MAX as int / 3),
                    },
                )
            },
            Err(error) => {
                let mut message: String = String::from_str("orthotope init failed: ");
                let cause: String = error.message();
                message.append(cause.as_str());
                proof {
                    assert(error.described_by(cause@));
                    assert(message@ == "orthotope init failed: "@ + cause@);
                }
                Err(BenchError::Alloc(message))
            },
        }
    }
}

/// The configuration that a backend runs with.
pub open spec fn default_config(config: AllocatorConfig) -> bool {
    config == (AllocatorConfig {
        arena_size: 0x4000_0000,
        alignment: BLOCK_ALIGNMENT,
        refill_target_bytes: 0x8000,
        local_cache_target_bytes: 0x1_0000,
    })
}

/// `outcome` is what creating an allocator named `id` gave.
pub open spec fn created(
    config: AllocatorConfig,
    id: usize,
    outcome: Result<Allocator, InitError>,
) -> bool {
    outcome matches Ok(allocator) ==> {
        &&& allocator.wf()
        &&& allocator.settings() == config
        &&& allocator.number() == id
        &&& allocator.ground().used() == 0
        &&& allocator.bytes().size() == config.arena_size + config.alignment - 1
        &&& allocator.pools().epochs_left(u64::MAX as int)
        &&& allocator.holds_nothing()
    }
}

/// `result` is the backend over `outcome` and a new cache named `cache_id`, or the error of
/// `outcome` in words.
pub open spec fn started(
    config: AllocatorConfig,
    cache_id: u32,
    outcome: Result<Allocator, InitError>,
    result: Result<OrthotopeBackend, BenchError>,
) -> bool {
    match outcome {
        Ok(allocator) => {
            &&& result matches Ok(backend)
            &&& backend.wf()
            &&& backend.allocator() == allocator
            &&& backend.cache().wf()
            &&& backend.cache().empty()
            &&& backend.cache().bound_to() is None
            &&& backend.cache().settings() == config
            &&& backend.cache().id() == cache_id
            &&& backend.live() == Map::<usize, usize>::empty()
            &&& backend.left() == u64::MAX as int / 3
        },
        Err(error) => {
            &&& result matches Err(BenchError::Alloc(message))
            &&& exists|cause: Seq<char>| #[trigger]
                error.described_by(cause) && message@ == "orthotope init failed: "@ + cause
        },
    }
}

/// The default configuration breaks no rule.
proof fn default_config_is_sound(config: AllocatorConfig)
    requires
        default_config(config),
    ensures
        allocator::allocator_fault(config) is None,
{
    vstd::arithmetic::power2::lemma2_to64();
    assert(vstd::arithmetic::power2::pow2(6) == 64);
}

impl OrthotopeBackend {
    /// The allocator.
    pub closed spec fn allocator(self) -> Allocator {
        self.allocator
    }

    /// The cache that all requests go through.
    pub closed spec fn cache(self) -> ThreadCache {
        self.cache
    }

    /// The live allocations: address and requested size of each.
    pub closed spec fn live(self) -> Map<usize, usize> {
        self.live@
    }

    /// The allocator is in order, and what is live can be freed.
    pub open spec fn wf(self) -> bool {
        &&& self.allocator().wf()
        &&& self.allocator().serves(self.cache())
        &&& self.allocator().pools().epochs_left(3 * self.left())
        &&& forall|user: usize| #[trigger]
            self.live().contains_key(user) ==> backed(
                self.allocator(),
                self.cache(),
                user,
                self.live()[user],
            )
    }

    /// This backend is `before` after a request for `size` bytes.
    pub open spec fn requested(
        self,
        before: Self,
        size: usize,
        outcome: Result<usize, AllocError>,
    ) -> bool {
        api::requested(
            before.allocator(),
            before.cache(),
            self.allocator(),
            self.cache(),
            size,
            outcome,
        )
    }

    /// This backend is `before` after the allocation of `size` bytes at `user` was freed.
    pub open spec fn released(self, before: Self, user: usize, size: usize) -> bool {
        api::released(
            before.allocator(),
            before.cache(),
            self.allocator(),
            self.cache(),
            user,
            None,
            Some(size),
            Ok(()),
        )
    }

    /// The number of operations that the allocator can still do.
    pub closed spec fn left(self) -> int {
        self.left@
    }

    /// Allocates `size` bytes.
    ///
    /// # Errors
    ///
    /// Returns [`BenchError::Alloc`] when the allocator has no such block.
    pub fn allocate(&mut self, size: usize) -> (result: Result<usize, BenchError>)
        requires
            old(self).wf(),
            old(self).left() > 0,
        ensures
            final(self).wf(),
            final(self).left() == old(self).left() - 1,
            exists|outcome: Result<usize, AllocError>| #[trigger]
                final(self).requested(*old(self), size, outcome) && reported(outcome, result),
            match result {
                Ok(user) => !old(self).live().contains_key(user) && final(self).live() == old(self).live().insert(user, size),
                Err(_) => final(self).live() == old(self).live(),
            },
    {
        let ghost before = self.allocator;
        let ghost cache_before = self.cache;
        let result: Result<usize, BenchError> = allocate_or_report(
            &mut self.allocator,
            &mut self.cache,
            size,
            "orthotope allocation failed: ",
        );
        proof {
            let outcome = choose|outcome: Result<usize, AllocError>| #[trigger]
                api::requested(
                    before,
                    cache_before,
                    self.allocator,
                    self.cache,
                    size,
                    outcome,
                ) && match outcome {
                    Ok(user) => result == Ok::<usize, BenchError>(user),
                    Err(error) => result matches Err(BenchError::Alloc(message)) && message@
                        == "orthotope allocation failed: "@ + error.text(),
                };
            self.left@ = self.left@ - 1;
            assert forall|user: usize| #[trigger] old(self).live().contains_key(user) implies backed(
                self.allocator,
                self.cache,
                user,
                old(self).live()[user],
            ) by {
                backed_stays(
                    before,
                    cache_before,
                    self.allocator,
                    self.cache,
                    None,
                    user,
                    old(self).live()[user],
                );
            }
            if let Ok(user) = outcome {
                request_is_backed(
                    before,
                    cache_before,
                    self.allocator,
                    self.cache,
                    size,
                    user,
                );
                if old(self).live().contains_key(user) {
                    assert(backed(before, cache_before, user, old(self).live()[user]));
                }
                self.live@ = self.live@.insert(user, size);
            }
            assert forall|user: usize| #[trigger] self.live().contains_key(user) implies backed(
                self.allocator(),
                self.cache(),
                user,
                self.live()[user],
            ) by {
                assert(old(self).live().contains_key(user) || outcome == Ok::<usize, AllocError>(
                    user,
                ));
            }
            assert(self.requested(*old(self), size, outcome));
            assert(reported(outcome, result));
        }
        result
    }

    /// Frees the live allocation of `size` bytes at `user`.
    ///
    /// # Errors
    ///
    /// Returns [`BenchError::Alloc`] when the allocator refuses, which it does not do for a
    /// live allocation.
    pub fn deallocate(&mut self, user: usize, size: usize) -> (result: Result<(), BenchError>)
        requires
            old(self).wf(),
            old(self).left() > 0,
            old(self).live().contains_key(user),
            old(self).live()[user] == size,
        ensures
            final(self).wf(),
            final(self).left() == old(self).left() - 1,
            result is Ok,
            final(self).released(*old(self), user, size),
            final(self).live() == old(self).live().remove(user),
    {
        let ghost before = self.allocator;
        let ghost cache_before = self.cache;
        proof {
            backed_can_be_freed(before, cache_before, user, size);
        }
        let result: Result<(), BenchError> = free_or_report(
            &mut self.allocator,
            &mut self.cache,
            user,
            None,
            size,
            "orthotope deallocation failed: ",
        );
        proof {
            let outcome = choose|outcome: Result<(), FreeError>| #[trigger]
                api::released(
                    before,
                    cache_before,
                    self.allocator,
                    self.cache,
                    user,
                    None,
                    Some(size),
                    outcome,
                ) && match outcome {
                    Ok(()) => result is Ok,
                    Err(error) => result matches Err(BenchError::Alloc(message)) && message@
                        == "orthotope deallocation failed: "@ + error.text(),
                };
            laws::only_allocations_are_freed(before, cache_before, user, None, Some(size));
            let freed = (user - HEADER_SIZE) as usize;
            self.left@ = self.left@ - 1;
            assert forall|other: usize| #[trigger]
                old(self).live().contains_key(other) && other != user implies backed(
                self.allocator,
                self.cache,
                other,
                old(self).live()[other],
            ) by {
                backed_can_be_freed(before, cache_before, other, old(self).live()[other]);
                backed_stays(
                    before,
                    cache_before,
                    self.allocator,
                    self.cache,
                    Some(freed),
                    other,
                    old(self).live()[other],
                );
            }
            self.live@ = self.live@.remove(user);
        }
        result
    }

    /// This backend is `before` after a step that moved no block.
    pub open spec fn looked_after(self, before: Self) -> bool {
        &&& self.allocator().only_looked_after(before.allocator())
        &&& self.cache() == before.cache()
        &&& self.live() == before.live()
        &&& self.left() == before.left()
    }

    /// Takes a request to give back the pages of an idle slab of `class`; see
    /// [`Allocator::take_sweep_request`].
    #[must_use]
    pub fn take_sweep_request(&mut self, class: SizeClass) -> (request: Option<SweepRequest>)
        requires
            old(self).wf(),
        ensures
            final(self).wf(),
            final(self).looked_after(*old(self)),
            final(self).allocator().pools().pool(class).handed_over(
                old(self).allocator().pools().pool(class),
                request,
            ),
    {
        let request = self.allocator.take_sweep_request(class);
        proof {
            self.stays_in_order(*old(self));
        }
        request
    }

    /// Records whether the system took the pages of the slab of `class` at `slab_start`; see
    /// [`Allocator::complete_sweep`].
    pub fn complete_sweep(&mut self, class: SizeClass, slab_start: usize, advised: bool) -> (cooled:
        bool)
        requires
            old(self).wf(),
        ensures
            final(self).wf(),
            final(self).looked_after(*old(self)),
            cooled ==> final(self).allocator().pools().pool(class).cooled_down(
                old(self).allocator().pools().pool(class),
                slab_start,
            ),
            !cooled ==> final(self).allocator().pools().pool(class)
                == old(self).allocator().pools().pool(class),
            cooled == (advised && exists|index: int|
                0 <= index < old(self).allocator().pools().pool(class).slabs@.len() && (
                #[trigger] old(self).allocator().pools().pool(class).slabs@[index]).start
                    == slab_start && old(self).allocator().pools().pool(
                    class,
                ).slabs@[index].sweepable(old(self).allocator().pools().pool(class).epoch)),
    {
        let cooled: bool = self.allocator.complete_sweep(class, slab_start, advised);
        proof {
            self.stays_in_order(*old(self));
        }
        cooled
    }

    proof fn stays_in_order(self, before: Self)
        requires
            before.wf(),
            self.looked_after(before),
            self.allocator().wf(),
            before.allocator().bound(before.cache()) ==> self.allocator().bound(before.cache()),
        ensures
            self.wf(),
    {
        let cache = before.cache();
        assert(self.allocator().evolved(cache, before.allocator(), cache, None));
        assert forall|user: usize| #[trigger] self.live().contains_key(user) implies backed(
            self.allocator(),
            self.cache(),
            user,
            self.live()[user],
        ) by {
            assert(before.live().contains_key(user));
            backed_stays(
                before.allocator(),
                cache,
                self.allocator(),
                cache,
                None,
                user,
                self.live()[user],
            );
        }
    }
}

/// `result` is `outcome`, an error put in words.
pub open spec fn reported(
    outcome: Result<usize, AllocError>,
    result: Result<usize, BenchError>,
) -> bool {
    match outcome {
        Ok(user) => result == Ok::<usize, BenchError>(user),
        Err(cause) => result matches Err(error) && words_of(cause, error),
    }
}

/// `error` is `cause` in words.
pub open spec fn words_of(cause: AllocError, error: BenchError) -> bool {
    error matches BenchError::Alloc(message) && message@ == "orthotope allocation failed: "@
        + cause.text()
}

/// `live` and the allocations `added`, address and size of each.
pub open spec fn grown(live: Map<usize, usize>, added: Seq<(usize, usize)>) -> Map<usize, usize>
    decreases added.len(),
{
    if added.len() == 0 {
        live
    } else {
        grown(live, added.drop_last()).insert(added.last().0, added.last().1)
    }
}

/// Each of the allocations `added` was new when it was added.
pub open spec fn all_new(live: Map<usize, usize>, added: Seq<(usize, usize)>) -> bool
    decreases added.len(),
{
    added.len() == 0 || (all_new(live, added.drop_last()) && !grown(
        live,
        added.drop_last(),
    ).contains_key(added.last().0))
}

/// What is live stays live when new allocations are added.
proof fn grown_keeps_live(live: Map<usize, usize>, added: Seq<(usize, usize)>)
    requires
        all_new(live, added),
    ensures
        live.submap_of(grown(live, added)),
    decreases added.len(),
{
    if added.len() > 0 {
        grown_keeps_live(live, added.drop_last());
    }
}

/// What a churn does next.
#[derive(Clone, Copy, Debug, PartialEq, Eq, Structural)]
pub enum ChurnStep {
    /// Allocate a block of this size.
    Allocate(usize),
    /// Free the block of this size at this address.
    Free(usize, usize),
    /// Nothing.
    Finished,
}

/// Rounds that allocate blocks of all given sizes and free them again, the last one first.
#[derive(Debug)]
pub struct Churn {
    iterations: usize,
    sizes: Vec<usize>,
    round: usize,
    added: Vec<(usize, usize)>,
    freeing: bool,
}

impl Churn {
    /// The number of rounds.
    pub closed spec fn rounds(self) -> int {
        self.iterations as int
    }

    /// The sizes of the blocks of one round.
    pub closed spec fn round_sizes(self) -> Seq<usize> {
        self.sizes@
    }

    /// The number of finished rounds.
    pub closed spec fn finished_rounds(self) -> int {
        self.round as int
    }

    /// The blocks that are allocated, address and size of each.
    pub closed spec fn held(self) -> Seq<(usize, usize)> {
        self.added@
    }

    /// The round is freeing its blocks.
    pub closed spec fn is_freeing(self) -> bool {
        self.freeing
    }

    /// While a round allocates, it holds blocks of its first sizes, and not of all; while it
    /// frees, it holds the blocks that are left.
    pub open spec fn wf(self) -> bool {
        &&& self.held().len() <= self.round_sizes().len()
        &&& 0 <= self.finished_rounds() <= self.rounds() <= usize::MAX
        &&& self.finished_rounds() == self.rounds() ==> self.held().len() == 0
        &&& self.is_freeing() ==> self.held().len() > 0
        &&& !self.is_freeing() && self.round_sizes().len() > 0 ==> self.held().len()
            < self.round_sizes().len()
        &&& forall|index: int|
            0 <= index < self.held().len() ==> (#[trigger] self.held()[index]).1
                == self.round_sizes()[index]
    }

    /// What is next: in a round, the next size or the last block; behind the last round,
    /// nothing.
    pub open spec fn following(self) -> ChurnStep {
        if self.is_freeing() {
            ChurnStep::Free(self.held().last().0, self.held().last().1)
        } else if self.finished_rounds() < self.rounds() && self.round_sizes().len() > 0 {
            ChurnStep::Allocate(self.round_sizes()[self.held().len() as int])
        } else {
            ChurnStep::Finished
        }
    }

    /// The number of steps until all rounds are done.
    pub open spec fn steps_left(self) -> int {
        let length = self.round_sizes().len() as int;
        (self.rounds() - self.finished_rounds()) * (2 * length) - if self.is_freeing() {
            2 * length - self.held().len()
        } else {
            self.held().len() as int
        }
    }

    /// Nothing but the round's progress changed.
    pub open spec fn same_plan(self, other: Self) -> bool {
        self.rounds() == other.rounds() && self.round_sizes() == other.round_sizes()
    }

    /// No round was started.
    pub open spec fn at_start(self, iterations: usize, sizes: Seq<usize>) -> bool {
        &&& self.wf()
        &&& self.rounds() == iterations
        &&& self.round_sizes() == sizes
        &&& self.finished_rounds() == 0
        &&& self.held().len() == 0
        &&& !self.is_freeing()
    }

    /// This is `before` after the block of the next size was allocated at `user`.
    pub open spec fn grew(self, before: Self, user: usize) -> bool {
        &&& self.wf()
        &&& self.same_plan(before)
        &&& self.finished_rounds() == before.finished_rounds()
        &&& self.held() == before.held().push((user, before.following()->Allocate_0))
        &&& self.is_freeing() == (self.held().len() == self.round_sizes().len())
    }

    /// This is `before` after its last block was freed.
    pub open spec fn shrank(self, before: Self) -> bool {
        &&& self.wf()
        &&& self.same_plan(before)
        &&& self.held() == before.held().drop_last()
        &&& self.is_freeing() == (self.held().len() > 0)
        &&& self.finished_rounds() == before.finished_rounds() + if self.held().len() == 0 {
            1int
        } else {
            0int
        }
    }

    /// Creates `iterations` rounds of blocks of the given sizes.
    #[must_use]
    pub fn new(iterations: usize, sizes: Vec<usize>) -> (churn: Self)
        ensures
            churn.at_start(iterations, sizes@),
    {
        Churn { iterations, sizes, round: 0, added: Vec::new(), freeing: false }
    }

    /// Returns what is next.
    #[must_use]
    pub fn next_step(&self) -> (step: ChurnStep)
        requires
            self.wf(),
        ensures
            step == self.following(),
    {
        if self.freeing {
            let (user, size) = self.added[self.added.len() - 1];
            ChurnStep::Free(user, size)
        } else if self.round < self.iterations && self.sizes.len() > 0 {
            ChurnStep::Allocate(self.sizes[self.added.len()])
        } else {
            ChurnStep::Finished
        }
    }

    /// Records that the block of the next size was allocated at `user`.
    pub fn allocated(&mut self, user: usize)
        requires
            old(self).wf(),
            old(self).following() is Allocate,
        ensures
            final(self).grew(*old(self), user),
            final(self).steps_left() == old(self).steps_left() - 1,
    {
        let size: usize = self.sizes[self.added.len()];
        self.added.push((user, size));
        self.freeing = self.added.len() == self.sizes.len();
    }

    /// Records that the last block was freed.
    pub fn freed(&mut self)
        requires
            old(self).wf(),
            old(self).following() is Free,
        ensures
            final(self).shrank(*old(self)),
            final(self).steps_left() == old(self).steps_left() - 1,
    {
        let _ = self.added.pop();
        if self.added.len() == 0 {
            self.freeing = false;
            self.round = self.round + 1;
        }
        proof {
            let length = self.sizes@.len() as int;
            let (left, before) = (self.iterations - self.round, self.iterations - old(self).round);
            if left != before {
                assert(left * (2 * length) == before * (2 * length) - 2 * length)
                    by (nonlinear_arith)
                    requires
                        left == before - 1,
                ;
            }
            assert(self.added@ =~= old(self).added@.drop_last());
        }
    }

    /// Law: as long as something is next, steps are left; and the other way round.
    pub proof fn steps_are_left(self)
        requires
            self.wf(),
        ensures
            self.steps_left() >= 0,
            self.following() is Finished <==> self.steps_left() == 0,
    {
        let length = self.round_sizes().len() as int;
        let left = self.rounds() - self.finished_rounds();
        if left > 0 {
            assert(left * (2 * length) >= 2 * length) by (nonlinear_arith)
                requires
                    left >= 1,
                    length >= 0,
            ;
        } else {
            assert(left * (2 * length) == 0) by (nonlinear_arith)
                requires
                    left == 0,
            ;
        }
        if length == 0 {
            assert(left * (2 * length) == 0) by (nonlinear_arith)
                requires
                    length == 0,
            ;
        }
    }
}

/// The backend and the plan between two steps of a churn.
pub struct ChurnState {
    /// The backend.
    pub backend: OrthotopeBackend,
    /// What is done and what is next.
    pub churn: Churn,
}

impl ChurnState {
    /// This state is `before` after its next step, which went well.
    pub open spec fn follows(self, before: Self) -> bool {
        match before.churn.following() {
            ChurnStep::Allocate(size) => exists|user: usize| #[trigger]
                self.backend.requested(before.backend, size, Ok(user)) && self.churn.grew(
                    before.churn,
                    user,
                ),
            ChurnStep::Free(user, size) => self.backend.released(before.backend, user, size)
                && self.churn.shrank(before.churn),
            ChurnStep::Finished => false,
        }
    }
}

/// From `start` on, each state follows the one before it.
pub open spec fn is_run(
    states: Seq<ChurnState>,
    start: OrthotopeBackend,
    iterations: usize,
    sizes: Seq<usize>,
) -> bool {
    &&& states.len() > 0
    &&& states[0].backend == start
    &&& states[0].churn.at_start(iterations, sizes)
    &&& forall|at: int| 0 < at < states.len() ==> (#[trigger] states[at]).follows(states[at - 1])
}

/// The run `states` ends with `backend` and `result`: with nothing left to do, or with the
/// words of the first request that failed.
pub open spec fn ends_with(
    states: Seq<ChurnState>,
    backend: OrthotopeBackend,
    result: Result<(), BenchError>,
) -> bool {
    match result {
        Ok(()) => {
            &&& states.last().churn.following() is Finished
            &&& states.last().backend == backend
        },
        Err(error) => {
            &&& states.last().churn.following() matches ChurnStep::Allocate(size)
            &&& exists|cause: AllocError| #[trigger]
                backend.requested(states.last().backend, size, Err(cause)) && words_of(cause, error)
        },
    }
}

/// Law: every round allocates a block of each size, in order, and frees them again, the last
/// one first. The step of a run that comes after `round` whole rounds and `step` more steps is
/// the `step`-th allocation, or the free that mirrors it.
pub proof fn rounds_allocate_and_free_in_order(
    states: Seq<ChurnState>,
    start: OrthotopeBackend,
    iterations: usize,
    sizes: Seq<usize>,
    round: int,
    step: int,
)
    requires
        is_run(states, start, iterations, sizes),
        0 <= round < iterations,
        0 <= step < 2 * sizes.len(),
        round * (2 * sizes.len()) + step < states.len(),
    ensures
        ({
            let next = states[round * (2 * sizes.len()) + step].churn.following();
            &&& step < sizes.len() ==> (next matches ChurnStep::Allocate(size) && size
                == sizes[step])
            &&& step >= sizes.len() ==> (next matches ChurnStep::Free(user, size) && size
                == sizes[2 * sizes.len() - 1 - step])
        }),
{
    let length = sizes.len() as int;
    let at = round * (2 * length) + step;
    assert(at >= 0) by (nonlinear_arith)
        requires
            at == round * (2 * length) + step,
            round >= 0,
            length >= 0,
            step >= 0,
    ;
    progress_of(states, start, iterations, sizes, at, round, step);
}

/// How far a run is after `at` steps.
proof fn progress_of(
    states: Seq<ChurnState>,
    start: OrthotopeBackend,
    iterations: usize,
    sizes: Seq<usize>,
    at: int,
    round: int,
    step: int,
)
    requires
        is_run(states, start, iterations, sizes),
        0 <= at < states.len(),
        0 <= round,
        0 <= step < 2 * sizes.len(),
        at == round * (2 * sizes.len()) + step,
    ensures
        ({
            let churn = states[at].churn;
            &&& churn.wf()
            &&& churn.rounds() == iterations
            &&& churn.round_sizes() == sizes
            &&& churn.finished_rounds() == round
            &&& churn.is_freeing() == (step >= sizes.len())
            &&& churn.held().len() == if step < sizes.len() {
                step
            } else {
                2 * sizes.len() - step
            }
        }),
    decreases at,
{
    let length = sizes.len() as int;
    if at > 0 {
        assert(states[at].follows(states[at - 1]));
        if step > 0 {
            progress_of(states, start, iterations, sizes, at - 1, round, step - 1);
        } else {
            assert(round > 0) by (nonlinear_arith)
                requires
                    at == round * (2 * length),
                    at > 0,
                    round >= 0,
            ;
            assert(at - 1 == (round - 1) * (2 * length) + (2 * length - 1)) by (nonlinear_arith)
                requires
                    at == round * (2 * length),
            ;
            progress_of(states, start, iterations, sizes, at - 1, round - 1, 2 * length - 1);
        }
    } else {
        assert(round == 0 && step == 0) by (nonlinear_arith)
            requires
                0 == round * (2 * length) + step,
                0 <= round,
                0 <= step < 2 * length,
        ;
    }
}

/// Law: a run that ends well has made two steps for every block of every round, and holds no
/// block any more.
pub proof fn finished_runs_did_all_rounds(
    states: Seq<ChurnState>,
    start: OrthotopeBackend,
    iterations: usize,
    sizes: Seq<usize>,
    end: OrthotopeBackend,
)
    requires
        is_run(states, start, iterations, sizes),
        ends_with(states, end, Ok(())),
    ensures
        states.len() - 1 == iterations * (2 * sizes.len()),
        states.last().churn.held().len() == 0,
{
    let length = sizes.len() as int;
    if length == 0 {
        assert(iterations * (2 * length) == 0) by (nonlinear_arith)
            requires
                length == 0,
        ;
        if states.len() > 1 {
            assert(states[1].follows(states[0]));
        }
    } else {
        let at = states.len() - 1;
        let (round, step) = (at / (2 * length), at % (2 * length));
        vstd::arithmetic::div_mod::lemma_fundamental_div_mod(at, 2 * length);
        vstd::arithmetic::div_mod::lemma_mod_bound(at, 2 * length);
        vstd::arithmetic::div_mod::lemma_div_pos_is_pos(at, 2 * length);
        assert(at == round * (2 * length) + step) by (nonlinear_arith)
            requires
                at == (2 * length) * round + step,
        ;
        progress_of(states, start, iterations, sizes, at, round, step);
    }
}

/// Runs `iterations` rounds of blocks of the given sizes.
///
/// # Errors
///
/// Returns the error of the first allocation that fails; the blocks of its round stay
/// allocated.
pub fn churn(backend: &mut OrthotopeBackend, iterations: usize, sizes: Vec<usize>) -> (result:
    Result<(), BenchError>)
    requires
        old(backend).wf(),
        old(backend).left() >= iterations * (2 * sizes@.len()),
    ensures
        final(backend).wf(),
        exists|states: Seq<ChurnState>| #[trigger]
            is_run(states, *old(backend), iterations, sizes@) && ends_with(
                states,
                *final(backend),
                result,
            ),
        match result {
            Ok(()) => final(backend).live() == old(backend).live() && final(backend).left() == old(backend).left() - iterations * (2 * sizes@.len()),
            Err(error) => error is Alloc && old(backend).live().submap_of(final(backend).live())
                && iterations > 0 && sizes@.len() > 0,
        },
{
    let ghost live = backend.live();
    let ghost given = sizes@;
    let mut churn: Churn = Churn::new(iterations, sizes);
    let ghost mut states = seq![ChurnState { backend: *backend, churn }];
    loop
        invariant
            given == sizes@,
            is_run(states, *old(backend), iterations, given),
            states.last() == (ChurnState { backend: *backend, churn }),
            backend.wf(),
            churn.wf(),
            churn.rounds() == iterations,
            churn.round_sizes() == sizes@,
            all_new(live, churn.held()),
            backend.live() == grown(live, churn.held()),
            live == old(backend).live(),
            old(backend).left() >= iterations * (2 * sizes@.len()),
            backend.left() == old(backend).left() - iterations * (2 * sizes@.len())
                + churn.steps_left(),
        decreases churn.steps_left(),
    {
        proof {
            churn.steps_are_left();
        }
        let ghost state = states.last();
        match churn.next_step() {
            ChurnStep::Allocate(size) => match backend.allocate(size) {
                Ok(user) => {
                    let ghost earlier = churn.held();
                    churn.allocated(user);
                    proof {
                        assert(churn.held().drop_last() =~= earlier);
                        churn.steps_are_left();
                        let next = ChurnState { backend: *backend, churn };
                        assert(next.backend.requested(state.backend, size, Ok(user)));
                        assert(next.churn.grew(state.churn, user));
                        assert(next.follows(state));
                        states = states.push(next);
                    }
                },
                Err(error) => {
                    proof {
                        grown_keeps_live(live, churn.held());
                        assert(ends_with(states, *backend, Err(error)));
                    }
                    return Err(error);
                },
            },
            ChurnStep::Free(user, size) => {
                let ghost earlier = churn.held();
                match backend.deallocate(user, size) {
                    Ok(()) => {},
                    Err(error) => {
                        return Err(error);
                    },
                }
                churn.freed();
                proof {
                    assert(backend.live() =~= grown(live, churn.held()));
                    churn.steps_are_left();
                    let next = ChurnState { backend: *backend, churn };
                    assert(next.follows(state));
                    states = states.push(next);
                }
            },
            ChurnStep::Finished => {
                return Ok(());
            },
        }
    }
}

} // verus!
