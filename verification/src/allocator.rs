use vstd::multiset::Multiset;
use vstd::prelude::*;

use crate::align;
use crate::arena;
use crate::arena::{Arena, ReservedSpan};
use crate::blocks;
use crate::blocks::Region;
use crate::central_pool::CentralPool;
use crate::class_cache;
use crate::class_pool;
use crate::class_pool::{CentralRefill, ClassPool, SweepRequest};
use crate::config::AllocatorConfig;
use crate::error::{AllocError, FreeError, InitError};
use crate::free_list;
use crate::header;
use crate::header::{
    block_start_from_user_ptr, mark_small_block_freed, small_block_is_marked_freed,
    user_ptr_from_block_start, validate_prefix, AllocationHeader, AllocationHeaderPrefix,
    AllocationKind, HEADER_ALIGNMENT, HEADER_SIZE,
};
use crate::large_object;
use crate::large_object::{FreeLargeBlock, LargeAllocationRecord, LargeObjectAllocator};
use crate::local_slab;
use crate::local_slab::BlockReuse;
use crate::memory::Memory;
use crate::size_class;
use crate::size_class::{SizeClass, NUM_CLASSES};
use crate::stats::{AllocatorStats, SizeClassStats};
use crate::thread_cache;
use crate::thread_cache::ThreadCache;

verus! {

/// One reservation of the arena and what it is used for.
pub struct Extent {
    /// First address behind it.
    pub end: int,
    /// The class whose slab it is; `None` for a large block.
    pub class: Option<SizeClass>,
}

/// Standalone allocator instance with its own arena, central pool, and large-object registry.
///
/// Keep one [`ThreadCache`] per participating thread.
pub struct Allocator {
    id: usize,
    config: AllocatorConfig,
    arena: Arena,
    central: CentralPool,
    large: LargeObjectAllocator,
    extents: Ghost<Map<int, Extent>>,
}

/// The rule that an allocator configuration breaks first, in words.
pub open spec fn allocator_fault(config: AllocatorConfig) -> Option<&'static str> {
    if config.alignment < HEADER_ALIGNMENT {
        Some("allocator alignment must be at least 64 bytes")
    } else {
        arena::config_fault(config)
    }
}

impl Allocator {
    /// The number that caches know this allocator by.
    pub closed spec fn number(self) -> usize {
        self.id
    }

    /// The configuration in use.
    pub closed spec fn settings(self) -> AllocatorConfig {
        self.config
    }

    /// The arena that all blocks come from.
    pub closed spec fn ground(self) -> Arena {
        self.arena
    }

    /// The memory behind the arena.
    pub open spec fn bytes(self) -> Memory {
        self.ground().bytes()
    }

    /// The small blocks that no cache holds.
    pub closed spec fn pools(self) -> CentralPool {
        self.central
    }

    /// The large blocks.
    pub closed spec fn registry(self) -> LargeObjectAllocator {
        self.large
    }

    /// The reservations of the arena that are in use, by start address.
    pub closed spec fn reservations(self) -> Map<int, Extent> {
        self.extents@
    }

    /// The first address that was never reserved.
    pub open spec fn frontier(self) -> int {
        self.ground().origin() + self.ground().used()
    }

    /// The reservations lie in the reserved part of the arena, aligned, and none overlaps
    /// another.
    pub open spec fn reservations_are_apart(self) -> bool {
        &&& forall|start: int| #[trigger]
            self.reservations().contains_key(start) ==> {
                &&& self.ground().origin() <= start < self.reservations()[start].end
                &&& self.reservations()[start].end <= self.frontier()
                &&& start % 64 == 0
                &&& self.ground().has_block_start(start)
            }
        &&& forall|one: int, other: int|
            #![trigger self.reservations().contains_key(one), self.reservations().contains_key(other)]
            self.reservations().contains_key(one) && self.reservations().contains_key(other) && one
                != other ==> self.reservations()[one].end <= other
                || self.reservations()[other].end <= one
    }

    /// Every slab is a reservation, cut into blocks of its class.
    pub open spec fn slabs_are_reserved(self) -> bool {
        forall|class: SizeClass, region: Region| #[trigger]
            self.pools().pool(class).registered(region) ==> {
                &&& region.valid()
                &&& region.block_size == class.block_bytes(self.settings().alignment as int)
                &&& self.reservations().contains_key(region.start)
                &&& self.reservations()[region.start] == (Extent {
                    end: region.end(),
                    class: Some(class),
                })
            }
    }

    /// The block of `size` bytes at `block` is a reservation for a large block.
    pub open spec fn large_is_reserved(self, block: int, size: int) -> bool {
        &&& self.reservations().contains_key(block)
        &&& self.reservations()[block] == (Extent { end: block + size, class: None })
    }

    /// Every large block is a reservation.
    pub open spec fn large_blocks_are_reserved(self) -> bool {
        &&& forall|user: usize| #[trigger]
            self.registry().registry().live@.contains_key(user) ==> self.large_is_reserved(
                self.registry().registry().live@[user].block_addr as int,
                self.registry().registry().live@[user].block_size as int,
            )
        &&& forall|block: FreeLargeBlock| #[trigger]
            self.registry().registry().has_free(block) ==> self.large_is_reserved(
                block.block_addr as int,
                block.block_size as int,
            )
        &&& self.registry().registry().live_bytes + self.registry().registry().free_bytes
            <= self.ground().used()
    }

    /// A header can record the size of every large block.
    pub open spec fn large_sizes_are_recordable(self) -> bool {
        &&& forall|user: usize| #[trigger]
            self.registry().registry().live@.contains_key(user)
                ==> self.registry().registry().live@[user].block_size <= u32::MAX + HEADER_SIZE
        &&& forall|block: FreeLargeBlock| #[trigger]
            self.registry().registry().has_free(block) ==> block.block_size <= u32::MAX
                + HEADER_SIZE
    }

    /// Arena, central pool and large-block registry are in order and belong together.
    pub open spec fn wf(self) -> bool {
        &&& self.ground().wf()
        &&& self.ground().step() == self.settings().alignment
        &&& self.ground().total() == self.settings().arena_size
        &&& HEADER_ALIGNMENT <= self.settings().alignment
        &&& self.registry().wf()
        &&& self.pools().in_step(self.bytes())
        &&& self.reservations_are_apart()
        &&& self.slabs_are_reserved()
        &&& self.large_blocks_are_reserved()
        &&& self.large_sizes_are_recordable()
    }

    /// `cache` can be used with this allocator: it is bound to it and in step with it, or it
    /// is empty.
    pub open spec fn serves(self, cache: ThreadCache) -> bool {
        &&& cache.wf()
        &&& if cache.bound_to() == Some(self.number()) {
            &&& cache.settings() == self.settings()
            &&& cache.in_step(self.pools(), self.bytes())
        } else {
            cache.empty()
        }
    }

    /// `cache` is bound to this allocator and in step with it.
    pub open spec fn bound(self, cache: ThreadCache) -> bool {
        self.serves(cache) && cache.bound_to() == Some(self.number())
    }

    /// Creates a standalone allocator with its own arena and pools.
    ///
    /// Caches know the allocator by `id`, so two allocators that share caches need different
    /// ones. `page_size` is the system's page size.
    ///
    /// # Errors
    ///
    /// Propagates arena initialization failures for invalid configuration or mapping errors.
    pub fn new(config: AllocatorConfig, id: usize, page_size: usize) -> (result: Result<
        Self,
        InitError,
    >)
        requires
            page_size > 0,
        ensures
            match allocator_fault(config) {
                Some(message) => result matches Err(InitError::InvalidConfig(text)) && text
                    == message,
                None => match result {
                    Ok(allocator) => {
                        &&& allocator.wf()
                        &&& allocator.settings() == config
                        &&& allocator.number() == id
                        &&& allocator.ground().used() == 0
                        &&& allocator.bytes().size() == config.arena_size + config.alignment - 1
                        &&& allocator.pools().epochs_left(u64::MAX as int)
                        &&& allocator.holds_nothing()
                    },
                    Err(InitError::MapFailed(_)) => true,
                    Err(InitError::InvalidConfig(_)) => false,
                },
            },
            allocator_fault(config) is None && config.arena_size + config.alignment - 1
                > isize::MAX ==> result is Err,
    {
        match validate_allocator_config(&config) {
            Ok(()) => {},
            Err(error) => {
                return Err(error);
            },
        }
        match Arena::new(&config) {
            Ok(arena) => Ok(Self::over(arena, config, id, page_size)),
            Err(error) => Err(error),
        }
    }

    /// No small block and no large block is recorded.
    pub open spec fn holds_nothing(self) -> bool {
        &&& forall|class: SizeClass| (#[trigger] self.pools().pool(class)).slabs@.len() == 0
            && self.pools().pool(class).held() == Multiset::<usize>::empty()
        &&& self.registry().registry().live@ == Map::<usize, LargeAllocationRecord>::empty()
        &&& self.registry().registry().free@ == Map::<usize, Vec<FreeLargeBlock>>::empty()
        &&& self.registry().registry().live_bytes == 0
        &&& self.registry().registry().free_blocks == 0
        &&& self.registry().registry().free_bytes == 0
    }

    /// Lays an allocator over an arena from which nothing was reserved.
    pub fn over(arena: Arena, config: AllocatorConfig, id: usize, page_size: usize) -> (allocator:
        Self)
        requires
            page_size > 0,
            arena.wf(),
            arena.used() == 0,
            arena.step() == config.alignment,
            arena.total() == config.arena_size,
            HEADER_ALIGNMENT <= config.alignment,
        ensures
            allocator.wf(),
            allocator.settings() == config,
            allocator.number() == id,
            allocator.ground() == arena,
            allocator.pools().epochs_left(u64::MAX as int),
            allocator.holds_nothing(),
    {
        let allocator = Allocator {
            id,
            config,
            arena,
            central: CentralPool::new(page_size),
            large: LargeObjectAllocator::new(),
            extents: Ghost(Map::empty()),
        };
        proof {
            assert(allocator.central.ready(allocator.arena.bytes()));
        }
        allocator
    }

    /// Returns the configuration used to construct this allocator.
    #[must_use]
    pub fn config(&self) -> (config: &AllocatorConfig)
        ensures
            *config == self.settings(),
    {
        &self.config
    }

    /// Returns the number that caches know this allocator by.
    #[must_use]
    pub fn id(&self) -> (id: usize)
        ensures
            id == self.number(),
    {
        self.id
    }

    /// Returns whether every size class can count at least `count` more changes.
    #[must_use]
    pub fn can_count(&self, count: u64) -> (result: bool)
        ensures
            result == self.pools().epochs_left(count as int),
    {
        self.central.can_count(count)
    }

    /// Returns the memory behind the arena for reading.
    #[must_use]
    pub fn memory(&self) -> (memory: &Memory)
        ensures
            *memory == self.bytes(),
    {
        self.arena.memory()
    }

    /// The bytes of one block of `class`.
    pub open spec fn block_bytes(self, class: SizeClass) -> int {
        class.block_bytes(self.settings().alignment as int)
    }

    /// The number of blocks of `class` that the arena can give to one refill; zero when it has
    /// no room or the refill would overflow.
    pub open spec fn carvable(self, class: SizeClass) -> int {
        let fit = self.ground().blocks_left(self.block_bytes(class));
        let wanted = self.settings().refill_blocks(class);
        if self.block_bytes(class) * wanted > usize::MAX {
            0
        } else if wanted < fit {
            wanted
        } else {
            fit
        }
    }

    /// The slab of `class` that the arena gives to the next refill.
    pub open spec fn next_slab(self, class: SizeClass) -> Region {
        Region {
            start: self.ground().origin() + self.ground().next_offset(),
            block_size: self.block_bytes(class),
            capacity: self.carvable(class),
        }
    }

    /// The error for a request that the arena cannot serve.
    pub open spec fn exhausted(self, requested: usize) -> AllocError {
        AllocError::OutOfMemory {
            requested,
            remaining: (self.ground().total() - self.ground().used()) as usize,
        }
    }

    /// The next slab is a valid run of aligned blocks behind everything reserved so far.
    #[verifier::rlimit(30)]
    pub proof fn next_slab_facts(self, class: SizeClass)
        requires
            self.wf(),
            self.carvable(class) > 0,
        ensures
            self.next_slab(class).valid(),
            self.frontier() <= self.next_slab(class).start,
            self.next_slab(class).start % 64 == 0,
            self.ground().has_block_start(self.next_slab(class).start),
            self.next_slab(class).end() <= self.ground().origin() + self.ground().total(),
            local_slab::region_fits(self.bytes(), self.next_slab(class)),
            self.next_slab(class).block_size * self.next_slab(class).capacity
                == self.next_slab(class).capacity * self.next_slab(class).block_size,
    {
        let ground = self.ground();
        let region = self.next_slab(class);
        let step = ground.step();
        align::rounded_up_is_least_multiple(ground.used(), step);
        align::large_power_of_two_is_multiple_of_64(step);
        align::multiple_of_multiple_of_64(ground.origin(), step);
        align::multiple_of_multiple_of_64(ground.next_offset(), step);
        class.block_bytes_fit(self.settings().alignment);
        let size = region.block_size;
        assert(size_class::effective_alignment(self.settings().alignment as int) == step);
        align::multiple_of_multiple_of_64(size, step);
        let left = ground.total() - ground.next_offset();
        vstd::arithmetic::div_mod::lemma_fundamental_div_mod(left, size);
        let (n, fit) = (region.capacity, left / size);
        assert(0 < n * size <= left && size * n == n * size) by (nonlinear_arith)
            requires
                0 < n <= fit,
                0 < size,
                left == size * fit + left % size,
                0 <= left % size,
        ;
        assert forall|block: int| #[trigger] region.has(block) implies header::header_fits(
            self.bytes(),
            block,
        ) by {
            let index = region.position_of(block);
            assert((size * index) % 64 == 0) by {
                vstd::arithmetic::div_mod::lemma_fundamental_div_mod(size, 64);
                let k = size / 64;
                assert(size * index == (k * index) * 64) by (nonlinear_arith)
                    requires
                        size == 64 * k,
                ;
                vstd::arithmetic::div_mod::lemma_mod_multiples_basic(k * index, 64);
            }
        }
    }

    /// No block of a slab lies in the part of the arena that was never reserved.
    pub proof fn known_blocks_are_reserved(self, class: SizeClass, block: usize)
        requires
            self.wf(),
            self.pools().pool(class).knows(block),
        ensures
            block + self.block_bytes(class) <= self.frontier(),
            self.ground().origin() <= block,
            self.block_bytes(class) >= 64,
    {
        let pool = self.pools().pool(class);
        let index = choose|index: int|
            0 <= index < pool.slabs@.len() && (#[trigger] pool.slabs@[index]).region().has(
                block as int,
            );
        let region = pool.slabs@[index].region();
        assert(pool.registered(region));
        let at = region.position_of(block as int);
        class.block_bytes_fit(self.settings().alignment);
        assert(self.reservations().contains_key(region.start));
    }

    /// Reserves the slab for a refill of `class`; `None` when no block fits.
    fn reserve_refill_span(
        &mut self,
        block_size: usize,
        refill_count: usize,
        requested_size: usize,
    ) -> (result: Result<Option<ReservedSpan>, AllocError>)
        requires
            old(self).arena.wf(),
            block_size > 0,
            refill_count > 0,
        ensures
            final(self).arena.wf(),
            final(self).arena.same_layout(old(self).arena),
            final(self).arena.bytes() == old(self).arena.bytes(),
            final(self).id == old(self).id,
            final(self).config == old(self).config,
            final(self).central == old(self).central,
            final(self).large == old(self).large,
            final(self).extents == old(self).extents,
            block_size * refill_count > usize::MAX ==> result == Err::<
                Option<ReservedSpan>,
                AllocError,
            >(old(self).exhausted(requested_size)) && *final(self) == *old(self),
            block_size * refill_count <= usize::MAX ==> {
                let fit = old(self).arena.blocks_left(block_size as int);
                let blocks = if refill_count < fit {
                    refill_count as int
                } else {
                    fit
                };
                if fit == 0 {
                    result == Ok::<Option<ReservedSpan>, AllocError>(None) && *final(self) == *old(self)
                } else {
                    &&& result is Ok
                    &&& result->Ok_0 is Some
                    &&& result->Ok_0->0.start == old(self).arena.origin() + old(self).arena.next_offset()
                    &&& result->Ok_0->0.size == blocks * block_size
                    &&& final(self).arena.used() == old(self).arena.next_offset() + blocks
                        * block_size
                }
            },
    {
        if block_size.checked_mul(refill_count).is_none() {
            return Err(
                AllocError::OutOfMemory {
                    requested: requested_size,
                    remaining: self.arena.remaining(),
                },
            );
        }
        match self.arena.reserve_block_span(block_size, refill_count) {
            Ok(span) => Ok(span),
            Err(AllocError::OutOfMemory { requested, remaining }) => Err(
                AllocError::OutOfMemory { requested: requested_size, remaining },
            ),
            Err(error) => Err(error),
        }
    }

    /// Reserves a new slab of `class` from the arena and hands all its blocks to `cache`.
    ///
    /// # Errors
    ///
    /// Returns [`AllocError::OutOfMemory`] when the arena has no room for one block.
    fn refill_cache_from_arena(
        &mut self,
        cache: &mut ThreadCache,
        class: SizeClass,
        requested_size: usize,
    ) -> (result: Result<usize, AllocError>)
        requires
            old(self).wf(),
            old(self).bound(*old(cache)),
            old(self).pools().pool(class).epoch < u64::MAX,
        ensures
            old(self).carvable(class) == 0 ==> result == Err::<usize, AllocError>(
                old(self).exhausted(requested_size),
            ) && *final(self) == *old(self) && *final(cache) == *old(cache),
            old(self).carvable(class) > 0 ==> {
                &&& result == Ok::<usize, AllocError>(old(self).carvable(class) as usize)
                &&& final(self).wf()
                &&& final(self).bound(*final(cache))
                &&& final(self).number() == old(self).number()
                &&& final(self).settings() == old(self).settings()
                &&& final(self).registry() == old(self).registry()
                &&& final(self).ground().same_layout(old(self).ground())
                &&& final(self).frontier() == old(self).next_slab(class).end()
                &&& final(cache).took_slab(*old(cache), class, old(self).next_slab(class))
                &&& final(self).pools().same_but(old(self).pools(), class)
                &&& final(self).pools().pool(class).held() == old(self).pools().pool(class).held()
                &&& final(self).pools().pool(class).epoch == old(self).pools().pool(class).epoch + 1
                &&& exists|place: int| #[trigger]
                    final(self).pools().pool(class).recorded(
                        old(self).pools().pool(class),
                        place,
                        old(self).next_slab(class),
                    )
                &&& forall|block: usize| #[trigger]
                    old(self).next_slab(class).all().count(block) > 0
                        ==> AllocationHeader::small(class, 0, 0).is_at(
                        final(self).bytes(),
                        block as int,
                    )
                &&& forall|region: Region| #[trigger]
                    final(self).pools().pool(class).registered(region) <==> old(self).pools().pool(
                        class,
                    ).registered(region) || region == old(self).next_slab(class)
                &&& header::touches_only(
                    final(self).bytes(),
                    old(self).bytes(),
                    old(self).next_slab(class).all(),
                )
            },
    {
        let block_size: usize = class.block_size_for_alignment(self.config.alignment);
        let refill_count: usize = self.config.refill_count(class);
        let ghost region = self.next_slab(class);
        let span = match self.reserve_refill_span(block_size, refill_count, requested_size) {
            Ok(Some(span)) => span,
            Ok(None) => {
                return Err(
                    AllocError::OutOfMemory {
                        requested: requested_size,
                        remaining: self.arena.remaining(),
                    },
                );
            },
            Err(error) => {
                return Err(error);
            },
        };
        proof {
            old(self).next_slab_facts(class);
            let n = region.capacity;
            vstd::arithmetic::div_mod::lemma_div_by_multiple(n, block_size as int);
        }
        let carved: usize = span.size / block_size;
        let ghost central_before = self.central;
        initialize_small_span_headers(
            self.arena.memory_mut(),
            span.start,
            block_size,
            carved,
            class,
        );
        proof {
            assert(region == class_cache::slab_region(span.start, block_size, carved));
            region.tail_counts(0);
            self.carve_keeps_step(*old(self), *cache, class, region);
        }
        self.central.register_slab(class, span.start, block_size, carved);
        proof {
            assert(central_before.pool(class).ready(self.arena.bytes(), class));
            cache.registration_stays_in_step(
                self.central,
                central_before,
                self.arena.bytes(),
                class,
                region,
            );
            self.extents@ = self.extents@.insert(
                region.start,
                Extent { end: region.end(), class: Some(class) },
            );
            self.carved_is_wf(*old(self), *cache, class, region);
        }
        cache.push_owned_slab(class, span.start, block_size, carved);
        Ok(carved)
    }

    proof fn carve_keeps_step(self, before: Self, cache: ThreadCache, class: SizeClass, region: Region)
        requires
            before.wf(),
            before.bound(cache),
            before.carvable(class) > 0,
            region == before.next_slab(class),
            self.central == before.central,
            self.arena.bytes().wf(),
            header::touches_only(self.arena.bytes(), before.arena.bytes(), region.all()),
        ensures
            cache.in_step(self.central, self.arena.bytes()),
            local_slab::region_fits(self.arena.bytes(), region),
            forall|at: SizeClass, block: usize| #[trigger]
                self.central.pool(at).knows(block) ==> !region.has(block as int),
            forall|index: int|
                0 <= index < self.central.pool(class).slabs@.len() ==> (
                #[trigger] self.central.pool(class).slabs@[index]).region().apart(region),
            forall|at: SizeClass, block: usize|
                #![trigger cache.held(at).count(block)]
                cache.held(at).count(block) > 0 ==> !region.has(block as int),
            forall|at: SizeClass, block: usize|
                #![trigger self.central.pool(at).held().count(block)]
                self.central.pool(at).held().count(block) > 0 ==> !region.has(block as int),
            forall|id: int|
                0 <= id < cache.local(class).slabs@.len() ==> (
                #[trigger] cache.local(class).slabs@[id]).region().apart(region),
    {
        before.next_slab_facts(class);
        region.tail_counts(0);
        assert forall|at: SizeClass, block: usize| #[trigger] self.central.pool(at).knows(
            block,
        ) implies !region.has(block as int) by {
            before.known_blocks_are_reserved(at, block);
        }
        assert forall|index: int| 0 <= index < self.central.pool(class).slabs@.len() implies (
        #[trigger] self.central.pool(class).slabs@[index]).region().apart(region) by {
            let other = before.pools().pool(class).slabs@[index].region();
            assert(before.pools().pool(class).registered(other));
            assert(before.reservations().contains_key(other.start));
        }
        assert forall|at: SizeClass, block: usize|
            #![trigger cache.held(at).count(block)]
            cache.held(at).count(block) > 0 implies !region.has(block as int) by {
            assert(thread_cache::class_fits(
                cache.local(at),
                cache.staged(at).to_multiset(),
                before.central.pool(at),
            ));
            assert(cache.local(at).held().add(cache.staged(at).to_multiset()).count(block) > 0);
            assert(self.central.pool(at).knows(block));
        }
        assert forall|at: SizeClass, block: usize|
            #![trigger self.central.pool(at).held().count(block)]
            self.central.pool(at).held().count(block) > 0 implies !region.has(block as int) by {
            assert(before.central.pool(at).wf());
            before.central.pool(at).held_facts();
        }
        assert forall|id: int| 0 <= id < cache.local(class).slabs@.len() implies (
        #[trigger] cache.local(class).slabs@[id]).region().apart(region) by {
            let other = cache.local(class).slabs@[id].region();
            assert(thread_cache::class_fits(
                cache.local(class),
                cache.staged(class).to_multiset(),
                before.central.pool(class),
            ));
            assert(cache.local(class).owns(other));
            assert(before.pools().pool(class).registered(other));
            assert(before.reservations().contains_key(other.start));
        }
        assert forall|block: usize| #[trigger] region.all().count(block) > 0 implies header::header_fits(
            self.arena.bytes(),
            block as int,
        ) by {
            assert(region.has(block as int));
        }
        cache.unheld_write_stays_in_step(
            self.central,
            self.arena.bytes(),
            before.arena.bytes(),
            region.all(),
        );
    }

    proof fn carved_is_wf(self, before: Self, cache: ThreadCache, class: SizeClass, region: Region)
        requires
            before.wf(),
            before.carvable(class) > 0,
            region == before.next_slab(class),
            self.id == before.id,
            self.config == before.config,
            self.large == before.large,
            self.arena.wf(),
            self.arena.same_layout(before.arena),
            self.frontier() == region.end(),
            self.central.same_but(before.central, class),
            forall|other: Region| #[trigger]
                self.central.pool(class).registered(other) <==> before.central.pool(
                    class,
                ).registered(other) || other == region,
            cache.in_step(self.central, self.arena.bytes()),
            self.extents@ == before.extents@.insert(
                region.start,
                Extent { end: region.end(), class: Some(class) },
            ),
        ensures
            self.wf(),
    {
        before.next_slab_facts(class);
        assert(region.start < region.end()) by {
            region.block_is_inside(0);
        }
        assert forall|one: int, other: int|
            #![trigger self.reservations().contains_key(one), self.reservations().contains_key(other)]
            self.reservations().contains_key(one) && self.reservations().contains_key(other) && one
                != other implies self.reservations()[one].end <= other
            || self.reservations()[other].end <= one by {
            if one != region.start {
                assert(before.reservations().contains_key(one));
            }
            if other != region.start {
                assert(before.reservations().contains_key(other));
            }
        }
        assert forall|start: int| #[trigger] self.reservations().contains_key(start) implies {
            &&& self.ground().origin() <= start < self.reservations()[start].end
            &&& self.reservations()[start].end <= self.frontier()
            &&& start % 64 == 0
        } by {
            if start != region.start {
                assert(before.reservations().contains_key(start));
            }
        }
        assert forall|at: SizeClass, other: Region| #[trigger] self.pools().pool(at).registered(
            other,
        ) implies {
            &&& other.valid()
            &&& other.block_size == at.block_bytes(self.settings().alignment as int)
            &&& self.reservations().contains_key(other.start)
            &&& self.reservations()[other.start] == (Extent { end: other.end(), class: Some(at) })
        } by {
            if at == class && other == region {
            } else {
                assert(before.pools().pool(at).registered(other));
                assert(before.reservations().contains_key(other.start));
            }
        }
        assert(self.large_blocks_are_reserved()) by {
            assert forall|user: usize| #[trigger] self.registry().registry().live@.contains_key(
                user,
            ) implies self.large_is_reserved(
                self.registry().registry().live@[user].block_addr as int,
                self.registry().registry().live@[user].block_size as int,
            ) by {
                let record = before.registry().registry().live@[user];
                assert(before.reservations().contains_key(record.block_addr as int));
            }
            assert forall|block: FreeLargeBlock| #[trigger] self.registry().registry().has_free(
                block,
            ) implies self.large_is_reserved(block.block_addr as int, block.block_size as int) by {
                assert(before.registry().registry().has_free(block));
                assert(before.reservations().contains_key(block.block_addr as int));
            }
        }
    }

    /// The blocks of `class` in the central pool and in `cache`.
    pub open spec fn stock(self, cache: ThreadCache, class: SizeClass) -> Multiset<usize> {
        cache.held(class).add(self.pools().pool(class).held())
    }

    /// `block` is free: in the central pool or in `cache`.
    pub open spec fn stocks(self, cache: ThreadCache, block: usize) -> bool {
        exists|class: SizeClass| (#[trigger] self.stock(cache, class)).count(block) > 0
    }

    /// The header of `block` may change when `cache` is used, and `freed` with it: the block is
    /// free or was never reserved, or it is `freed`.
    pub open spec fn may_change(self, cache: ThreadCache, freed: Option<usize>, block: usize) -> bool {
        ||| block >= self.frontier()
        ||| freed == Some(block)
        ||| self.stocks(cache, block)
        ||| exists|free: FreeLargeBlock| #[trigger]
            self.registry().registry().has_free(free) && free.block_addr == block
    }

    /// What every use of `before` with `cache_before` keeps, where `freed` is the block freed
    /// by it: settings and places stay, slabs stay, no block becomes free but `freed` and new
    /// ones, headers change only where they may, and live large allocations stay live.
    pub open spec fn evolved(
        self,
        cache: ThreadCache,
        before: Self,
        cache_before: ThreadCache,
        freed: Option<usize>,
    ) -> bool {
        &&& self.number() == before.number()
        &&& self.settings() == before.settings()
        &&& cache.id() == cache_before.id()
        &&& self.ground().same_layout(before.ground())
        &&& self.ground().used() >= before.ground().used()
        &&& forall|class: SizeClass, region: Region|
            #![trigger self.pools().pool(class).registered(region)]
            #![trigger before.pools().pool(class).registered(region)]
            before.pools().pool(class).registered(region) ==> self.pools().pool(class).registered(
                region,
            )
        &&& forall|class: SizeClass, block: usize| #[trigger]
            self.stock(cache, class).count(block) > 0 ==> before.stock(cache_before, class).count(
                block,
            ) > 0 || block >= before.frontier() || freed == Some(block)
        &&& self.bytes().same_place(before.bytes())
        &&& forall|at: int| #[trigger]
            self.bytes().byte(at) != before.bytes().byte(at) && self.bytes().covers(at, 1)
                ==> exists|block: usize| #[trigger]
                before.may_change(cache_before, freed, block) && block <= at < block + HEADER_SIZE
        &&& forall|user: usize| #[trigger]
            before.registry().registry().live@.contains_key(user) && freed != Some(
                (user - HEADER_SIZE) as usize,
            ) ==> self.registry().registry().live@.contains_key(user)
                && self.registry().registry().live@[user]
                == before.registry().registry().live@[user]
    }

    /// A change of memory at blocks that may change is what a use allows.
    proof fn memory_evolved(
        self,
        before: Self,
        cache_before: ThreadCache,
        freed: Option<usize>,
        touched: Multiset<usize>,
    )
        requires
            header::touches_only(self.bytes(), before.bytes(), touched),
            forall|block: usize| #[trigger]
                touched.count(block) > 0 ==> before.may_change(cache_before, freed, block),
        ensures
            self.bytes().same_place(before.bytes()),
            forall|at: int| #[trigger]
                self.bytes().byte(at) != before.bytes().byte(at) && self.bytes().covers(at, 1)
                    ==> exists|block: usize| #[trigger]
                    before.may_change(cache_before, freed, block) && block <= at < block
                        + HEADER_SIZE,
    {
        assert forall|at: int| #[trigger]
            self.bytes().byte(at) != before.bytes().byte(at) && self.bytes().covers(
                at,
                1,
            ) implies exists|block: usize| #[trigger]
            before.may_change(cache_before, freed, block) && block <= at < block + HEADER_SIZE by {
            let block = choose|block: usize| #[trigger]
                touched.count(block) > 0 && block <= at < block + HEADER_SIZE;
            assert(before.may_change(cache_before, freed, block));
        }
    }

    /// A request of `class` can be served: from the cache, the central pool or the arena.
    pub open spec fn has_room(self, cache: ThreadCache, class: SizeClass) -> bool {
        ||| cache.local(class).total_len > 0
        ||| self.pools().pool(class).held().len() > 0
        ||| self.carvable(class) > 0
    }

    /// A request of `class` needs blocks of the central pool, and it has some.
    pub open spec fn needs_refill(self, cache: ThreadCache, class: SizeClass) -> bool {
        cache.local(class).total_len == 0 && self.pools().pool(class).held().len() > 0
    }

    /// `refill` is what the central pool gives a cache that needs blocks of `class`.
    pub open spec fn gives(self, class: SizeClass, refill: CentralRefill) -> bool {
        class_pool::gives(
            self.pools().pool(class),
            self.settings().refill_blocks(class),
            refill,
        )
    }

    /// `middle` is `bound` once it has a block of `class` to hand out: its own; or else those
    /// that the central pool gives; or else those of a new slab, which the central pool of
    /// `after` has a record of.
    pub open spec fn provided(
        self,
        bound: ThreadCache,
        after: Self,
        middle: ThreadCache,
        class: SizeClass,
    ) -> bool {
        let pool = self.pools().pool(class);
        let max = self.settings().refill_blocks(class);
        if bound.local(class).total_len > 0 {
            middle == bound && after.pools() == self.pools()
        } else if pool.held().len() > 0 {
            exists|refill: CentralRefill| #[trigger]
                self.gives(class, refill) && middle.refilled(bound, class, refill)
                    && after.pools().pool(class).gave_out(pool, max, refill)
        } else {
            &&& middle.took_slab(bound, class, self.next_slab(class))
            &&& exists|asked: ClassPool, place: int|
                asked.gave_out(pool, max, CentralRefill::Empty)
                    && #[trigger] after.pools().pool(class).recorded(
                    asked,
                    place,
                    self.next_slab(class),
                )
        }
    }

    /// A request of `class` needs a new slab.
    pub open spec fn needs_slab(self, cache: ThreadCache, class: SizeClass) -> bool {
        cache.local(class).total_len == 0 && self.pools().pool(class).held().len() == 0
    }

    /// The blocks that become free blocks of `class` when a request of it is served.
    pub open spec fn fresh_blocks(self, cache: ThreadCache, class: SizeClass) -> Multiset<usize> {
        if self.needs_slab(cache, class) {
            self.next_slab(class).all()
        } else {
            Multiset::empty()
        }
    }

    /// Only small blocks of `class` changed.
    pub open spec fn same_but(
        self,
        cache: ThreadCache,
        before: Self,
        cache_before: ThreadCache,
        class: SizeClass,
    ) -> bool {
        &&& self.number() == before.number()
        &&& self.settings() == before.settings()
        &&& self.registry() == before.registry()
        &&& self.ground().same_layout(before.ground())
        &&& self.pools().same_but(before.pools(), class)
        &&& cache.same_but(cache_before, class)
    }

    /// The allocator is in order when only the pool of one class changed, and its slabs not.
    proof fn pool_change_is_wf(self, before: Self, class: SizeClass)
        requires
            before.wf(),
            self.id == before.id,
            self.config == before.config,
            self.large == before.large,
            self.extents == before.extents,
            self.arena.wf(),
            self.arena.same_layout(before.arena),
            self.arena.used() == before.arena.used(),
            self.central.in_step(self.arena.bytes()),
            self.central.same_but(before.central, class),
            self.central.pool(class).same_slabs(before.central.pool(class)),
        ensures
            self.wf(),
            forall|at: SizeClass, region: Region|
                #![trigger self.pools().pool(at).registered(region)]
                #![trigger before.pools().pool(at).registered(region)]
                self.pools().pool(at).registered(region) == before.pools().pool(at).registered(
                    region,
                ),
    {
        self.central.pool(class).slabs_are_kept(before.central.pool(class));
        assert forall|at: SizeClass, region: Region|
            #![trigger self.pools().pool(at).registered(region)]
            #![trigger before.pools().pool(at).registered(region)]
            self.pools().pool(at).registered(region) == before.pools().pool(at).registered(region) by {
            if at != class {
                assert(self.central.pool(at) == before.central.pool(at));
            }
        }
        assert(self.reservations() == before.reservations());
        assert(self.frontier() == before.frontier());
        assert(self.reservations_are_apart());
        assert(self.slabs_are_reserved());
        assert(self.large_blocks_are_reserved()) by {
            assert forall|user: usize| #[trigger] self.registry().registry().live@.contains_key(
                user,
            ) implies self.large_is_reserved(
                self.registry().registry().live@[user].block_addr as int,
                self.registry().registry().live@[user].block_size as int,
            ) by {
                assert(before.registry().registry().live@.contains_key(user));
            }
            assert forall|block: FreeLargeBlock| #[trigger] self.registry().registry().has_free(
                block,
            ) implies self.large_is_reserved(block.block_addr as int, block.block_size as int) by {
                assert(before.registry().registry().has_free(block));
            }
        }
    }

    /// Sees to it that `cache` has a block of `class`.
    ///
    /// # Errors
    ///
    /// Returns [`AllocError::OutOfMemory`] when neither the central pool nor the arena has one.
    #[verifier::rlimit(60)]
    fn provide_block(&mut self, cache: &mut ThreadCache, class: SizeClass, requested_size: usize)
        -> (result: Result<(), AllocError>)
        requires
            old(self).wf(),
            old(self).bound(*old(cache)),
            old(self).pools().pool(class).epoch + 3 <= u64::MAX,
        ensures
            final(self).wf(),
            final(self).bound(*final(cache)),
            result is Ok <==> old(self).has_room(*old(cache), class),
            result is Err ==> result == Err::<(), AllocError>(old(self).exhausted(requested_size)),
            final(self).same_but(*final(cache), *old(self), *old(cache), class),
            old(self).pools().pool(class).epoch <= final(self).pools().pool(class).epoch <= old(self).pools().pool(class).epoch + 3,
            old(cache).local(class).total_len > 0 ==> *final(self) == *old(self) && *final(cache)
                == *old(cache),
            result is Ok ==> final(cache).local(class).total_len > 0,
            result is Ok ==> old(self).provided(*old(cache), *final(self), *final(cache), class),
            result is Err ==> final(cache).local(class) == old(cache).local(class) && final(cache).staged(class) == old(cache).staged(class) && final(self).pools().pool(class).gave_out(
                old(self).pools().pool(class),
                old(self).settings().refill_blocks(class),
                CentralRefill::Empty,
            ),
            final(self).stock(*final(cache), class) == old(self).stock(*old(cache), class).add(
                if result is Ok {
                    old(self).fresh_blocks(*old(cache), class)
                } else {
                    Multiset::empty()
                },
            ),
            old(self).needs_refill(*old(cache), class) ==> exists|refill: CentralRefill| #[trigger]
                old(self).gives(class, refill) && final(cache).local(class).next().0
                    == refill.first() && old(self).pools().pool(class).held() == final(self).pools().pool(class).held().add(refill.held()),
            result is Ok && old(self).needs_slab(*old(cache), class) ==> {
                &&& final(self).pools().pool(class).held() == old(self).pools().pool(class).held()
                &&& final(self).frontier() == old(self).next_slab(class).end()
                &&& final(cache).local(class).next().0 == old(self).next_slab(class).start
                &&& forall|block: usize| #[trigger]
                    old(self).next_slab(class).all().count(block) > 0
                        ==> AllocationHeader::small(class, 0, 0).is_at(
                        final(self).bytes(),
                        block as int,
                    )
                &&& forall|region: Region| #[trigger]
                    final(self).pools().pool(class).registered(region) <==> old(self).pools().pool(
                        class,
                    ).registered(region) || region == old(self).next_slab(class)
            },
            header::changes(
                final(self).bytes(),
                old(self).bytes(),
                if result is Ok {
                    old(self).fresh_blocks(*old(cache), class)
                } else {
                    Multiset::empty()
                },
                old(self).pools().pool(class).held(),
            ),
            result is Err ==> final(self).ground() == old(self).ground(),
            result is Err || !old(self).needs_slab(*old(cache), class) ==> {
                &&& final(self).frontier() == old(self).frontier()
                &&& forall|region: Region| #[trigger]
                    final(self).pools().pool(class).registered(region) <==> old(self).pools().pool(
                        class,
                    ).registered(region)
            },
    {
        broadcast use vstd::multiset::group_multiset_axioms;

        let ghost none = Multiset::<usize>::empty();
        let ghost held = self.pools().pool(class).held();
        proof {
            header::changes_nothing(self.bytes(), none, held);
        }
        if !cache.needs_refill(class) {
            assert(self.stock(*cache, class) =~= self.stock(*cache, class).add(none));
            return Ok(());
        }
        let moved: usize = cache.refill_from_central(
            class,
            &mut self.central,
            self.arena.memory_mut(),
        );
        proof {
            self.pool_change_is_wf(*old(self), class);
            assert(self.stock(*cache, class) =~= old(self).stock(*old(cache), class));
            assert(self.stock(*cache, class) =~= self.stock(*cache, class).add(none));
            assert(self.carvable(class) == old(self).carvable(class));
            assert(self.next_slab(class) == old(self).next_slab(class));
        }
        if moved != 0 {
            proof {
                let refill = choose|refill: CentralRefill| #[trigger]
                    cache.refilled(*old(cache), class, refill) && class_pool::gives(
                        old(self).central.pool(class),
                        old(cache).settings().refill_blocks(class),
                        refill,
                    ) && self.central.pool(class).gave_out(
                        old(self).central.pool(class),
                        old(cache).settings().refill_blocks(class),
                        refill,
                    ) && moved == refill.held().len() && (refill is Empty <==> moved == 0)
                        && old(self).central.pool(class).held() == self.central.pool(
                        class,
                    ).held().add(refill.held());
                if let CentralRefill::Batch(batch) = refill {
                    blocks::blocks_of(batch@);
                }
                cache.refill_comes_first(*old(cache), class, refill);
                assert(old(self).gives(class, refill));
            }
            return Ok(());
        }
        let ghost middle = *self;
        let ghost cache_middle = *cache;
        proof {
            let refill = choose|refill: CentralRefill| #[trigger]
                cache.refilled(*old(cache), class, refill) && self.central.pool(class).gave_out(
                    old(self).central.pool(class),
                    old(cache).settings().refill_blocks(class),
                    refill,
                ) && (refill is Empty <==> moved == 0);
            assert(refill == CentralRefill::Empty);
            assert(cache.local(class) == old(cache).local(class));
        }
        match self.refill_cache_from_arena(cache, class, requested_size) {
            Ok(_) => {
                proof {
                    let region = middle.next_slab(class);
                    header::changes_headers(self.bytes(), middle.bytes(), region.all(), held);
                    cache_middle.class_is_wf(class);
                    assert(cache_middle.local(class).held() =~= none);
                    assert(cache_middle.local(class).hot_block is None) by {
                        cache_middle.local(class).parts_are_held();
                    }
                    assert(self.stock(*cache, class) =~= old(self).stock(*old(cache), class).add(
                        region.all(),
                    ));
                }
                Ok(())
            },
            Err(error) => Err(error),
        }
    }

    /// `block` is a live small allocation of `class`: a block of one of its slabs that is
    /// neither in the central pool nor in `cache`.
    pub open spec fn lives(self, cache: ThreadCache, class: SizeClass, block: usize) -> bool {
        &&& self.pools().pool(class).knows(block)
        &&& self.stock(cache, class).count(block) == 0
    }

    /// Writes to the header of a live block leave the allocator in order and `cache` in step.
    proof fn live_write_is_wf(
        self,
        before: Self,
        cache: ThreadCache,
        class: SizeClass,
        block: usize,
    )
        requires
            before.wf(),
            before.bound(cache),
            before.lives(cache, class, block),
            self.id == before.id,
            self.config == before.config,
            self.large == before.large,
            self.extents == before.extents,
            self.central == before.central,
            self.arena.origin() == before.arena.origin(),
            self.arena.total() == before.arena.total(),
            self.arena.used() == before.arena.used(),
            self.arena.step() == before.arena.step(),
            self.arena.bytes().wf(),
            header::touches_only(
                self.arena.bytes(),
                before.arena.bytes(),
                Multiset::singleton(block),
            ),
        ensures
            self.wf(),
            self.bound(cache),
    {
        broadcast use vstd::multiset::group_multiset_axioms;

        let touched = Multiset::singleton(block);
        before.pools().known_blocks_fit(before.bytes(), class);
        assert(header::headers_fit(self.bytes(), touched));
        assert forall|at: SizeClass, other: usize|
            #![trigger cache.held(at).count(other)]
            touched.count(other) > 0 implies cache.held(at).count(other) == 0 by {
            if cache.held(at).count(block) > 0 {
                assert(thread_cache::class_fits(
                    cache.local(at),
                    cache.staged(at).to_multiset(),
                    before.pools().pool(at),
                ));
                assert(cache.local(at).held().add(cache.staged(at).to_multiset()).count(block) > 0);
                assert(before.pools().pool(at).knows(block));
                assert(at == class);
                assert(before.stock(cache, class).count(block) > 0);
            }
        }
        assert forall|at: SizeClass, other: usize|
            #![trigger before.pools().pool(at).held().count(other)]
            touched.count(other) > 0 implies before.pools().pool(at).held().count(other) == 0 by {
            if before.pools().pool(at).held().count(block) > 0 {
                before.pools().known_blocks_fit(before.bytes(), at);
                assert(before.pools().pool(at).knows(block));
                assert(at == class);
                assert(before.stock(cache, class).count(block) > 0);
            }
        }
        cache.unheld_write_stays_in_step(
            before.pools(),
            self.bytes(),
            before.bytes(),
            touched,
        );
        assert(self.arena.wf());
        self.pool_change_is_wf(before, class);
    }

    /// Takes the block of `class` that leaves `cache` next and writes its header for a request
    /// of `requested_size` bytes.
    fn hand_out(&mut self, cache: &mut ThreadCache, class: SizeClass, requested_size: usize) -> (user:
        usize)
        requires
            old(self).wf(),
            old(self).bound(*old(cache)),
            old(cache).local(class).total_len > 0,
            0 < requested_size <= class.payload(),
        ensures
            final(self).wf(),
            final(self).bound(*final(cache)),
            final(self).same_but(*final(cache), *old(self), *old(cache), class),
            final(self).pools() == old(self).pools(),
            final(cache).popped(*old(cache), class),
            final(self).frontier() == old(self).frontier(),
            user == old(cache).local(class).next().0 + HEADER_SIZE,
            final(self).lives(*final(cache), class, (user - HEADER_SIZE) as usize),
            header::live_small(
                final(self).bytes(),
                user - HEADER_SIZE,
                class,
                requested_size as int,
                old(cache).id(),
            ),
            old(self).stock(*old(cache), class) == final(self).stock(*final(cache), class).insert(
                (user - HEADER_SIZE) as usize,
            ),
            header::touches_only(
                final(self).bytes(),
                old(self).bytes(),
                Multiset::singleton((user - HEADER_SIZE) as usize),
            ),
    {
        broadcast use vstd::multiset::group_multiset_axioms;

        let ghost pool = self.pools().pool(class);
        proof {
            cache.class_is_wf(class);
            assert(cache.local(class).ready(self.bytes(), class, cache.id()));
            cache.local(class).next_is_ready(self.bytes(), class, cache.id());
            cache.local(class).ready_is_chained(self.bytes(), class, cache.id());
            let staged = cache.staged(class).to_multiset();
            let block = cache.local(class).next().0;
            assert(thread_cache::class_fits(cache.local(class), staged, pool));
            assert(cache.local(class).held().add(staged).count(block) > 0);
            assert(cache.local(class).held().add(staged).add(pool.held()).count(block) <= 1);
            self.pools().known_blocks_fit(self.bytes(), class);
        }
        let (block_start, reuse) = cache.pop_available_unchecked(class, self.arena.memory());
        proof {
            assert(old(cache).in_step(self.pools(), self.bytes()));
            assert(self.bound(*cache));
            assert(old(self).stock(*old(cache), class) =~= self.stock(*cache, class).insert(
                block_start,
            ));
            assert(self.lives(*cache, class, block_start));
        }
        let ghost middle = *self;
        match reuse {
            BlockReuse::HotReuseRequestedOnly => {
                AllocationHeader::refresh_small_requested_size_unchecked(
                    self.arena.memory_mut(),
                    block_start,
                    requested_size,
                );
            },
            BlockReuse::NeedsOwnerAndRequestedSizeRefresh => {
                AllocationHeader::refresh_small_requested_size_and_owner_unchecked(
                    self.arena.memory_mut(),
                    block_start,
                    requested_size,
                    cache.cache_id(),
                );
            },
            BlockReuse::NeedsHeaderRewrite => {
                AllocationHeader::write_small_to_block_unchecked(
                    self.arena.memory_mut(),
                    block_start,
                    class,
                    requested_size,
                    cache.cache_id(),
                );
            },
        }
        proof {
            header::touches_one(
                self.bytes(),
                middle.bytes(),
                block_start,
                block_start as int,
                64,
            );
            self.live_write_is_wf(middle, *cache, class, block_start);
        }
        user_ptr_from_block_start(block_start)
    }

    /// Allocates a small block through `cache`.
    ///
    /// # Errors
    ///
    /// Returns [`AllocError::OutOfMemory`] when cache, central pool and arena have no block.
    #[verifier::rlimit(60)]
    pub fn allocate_small_with_cache(
        &mut self,
        cache: &mut ThreadCache,
        class: SizeClass,
        requested_size: usize,
    ) -> (result: Result<usize, AllocError>)
        requires
            old(self).wf(),
            old(self).bound(*old(cache)),
            old(self).pools().pool(class).epoch + 3 <= u64::MAX,
            0 < requested_size <= class.payload(),
        ensures
            final(self).wf(),
            final(self).bound(*final(cache)),
            final(self).evolved(*final(cache), *old(self), *old(cache), None),
            final(self).same_but(*final(cache), *old(self), *old(cache), class),
            old(self).pools().pool(class).epoch <= final(self).pools().pool(class).epoch <= old(self).pools().pool(class).epoch + 3,
            old(self).small_outcome(
                *old(cache),
                *final(self),
                *final(cache),
                class,
                requested_size,
                result,
            ),
    {
        match self.provide_block(cache, class, requested_size) {
            Ok(()) => {},
            Err(error) => {
                proof {
                    broadcast use vstd::multiset::group_multiset_axioms;

                    let none = Multiset::<usize>::empty();
                    assert(self.stock(*cache, class) =~= old(self).stock(*old(cache), class));
                    assert(old(self).binds(*old(cache), *old(cache)));
                    header::touches_nothing(self.bytes());
                    self.memory_evolved(*old(self), *old(cache), None, none);
                    self.other_classes_evolved(*old(self), *cache, *old(cache), class);
                    assert(self.bytes() == old(self).bytes());
                }
                return Err(error);
            },
        }
        let ghost middle = *self;
        let ghost cache_middle = *cache;
        let ghost fresh = old(self).fresh_blocks(*old(cache), class);
        let user: usize = self.hand_out(cache, class, requested_size);
        proof {
            broadcast use vstd::multiset::group_multiset_axioms;

            let block = (user - HEADER_SIZE) as usize;
            let one = Multiset::singleton(block);
            let held = old(self).pools().pool(class).held();
            let none = Multiset::<usize>::empty();
            let touched = fresh.add(one).add(held);
            header::changes_headers(self.bytes(), middle.bytes(), one, none);
            header::changes_compose(
                old(self).bytes(),
                middle.bytes(),
                self.bytes(),
                fresh,
                held,
                one,
                none,
            );
            header::changes_widen(
                self.bytes(),
                old(self).bytes(),
                fresh.add(one),
                held.add(none),
                fresh.add(one),
                held,
            );
            header::changes_touch(
                self.bytes(),
                old(self).bytes(),
                fresh.add(one),
                held,
                touched,
            );
            assert(middle.stock(cache_middle, class).count(block) > 0);
            if old(self).needs_slab(*old(cache), class) {
                old(self).next_slab_facts(class);
                old(self).next_slab(class).tail_counts(0);
                let region = old(self).next_slab(class);
                region.block_is_inside(0);
                assert forall|other: usize| #[trigger] fresh.count(other) > 0 implies other >= old(self).frontier() by {
                }
            }
            assert forall|other: usize| #[trigger] touched.count(other) > 0 implies old(self).may_change(*old(cache), None, other) by {
                if fresh.count(other) == 0 {
                    assert(old(self).stock(*old(cache), class).count(other) > 0);
                }
            }
            self.memory_evolved(*old(self), *old(cache), None, touched);
            assert forall|other: usize| #[trigger] self.stock(*cache, class).count(other)
                > 0 implies old(self).stock(*old(cache), class).count(other) > 0 || other >= old(self).frontier() by {
                assert(middle.stock(cache_middle, class).count(other) > 0);
            }
            assert(cache.same_but(*old(cache), class)) by {
                assert forall|at: SizeClass|
                    #![trigger cache.local(at)]
                    #![trigger cache.staged(at)]
                    at != class implies cache.local(at) == old(cache).local(at) && cache.staged(at)
                    == old(cache).staged(at) by {
                    assert(cache_middle.local(at) == old(cache).local(at));
                    assert(cache.local(at) == cache_middle.local(at));
                    assert(cache_middle.staged(at) == old(cache).staged(at));
                }
            }
            assert(self.pools().same_but(old(self).pools(), class));
            self.other_classes_evolved(*old(self), *cache, *old(cache), class);
            assert(self.stock(*cache, class).insert(block) =~= old(self).stock(
                *old(cache),
                class,
            ).add(fresh));
            assert(fresh.insert(block) =~= fresh.add(one));
            assert(old(self).binds(*old(cache), *old(cache)));
            old(self).provided_is_kept(*old(cache), middle, *self, cache_middle, class);
            if old(self).needs_slab(*old(cache), class) {
                self.fresh_headers_stay(middle, class, old(self).next_slab(class), block);
            }
        }
        Ok(user)
    }

    /// Where a block comes from does not depend on what happens to it.
    proof fn provided_is_kept(
        self,
        bound: ThreadCache,
        middle: Self,
        after: Self,
        cache: ThreadCache,
        class: SizeClass,
    )
        requires
            self.provided(bound, middle, cache, class),
            after.pools() == middle.pools(),
        ensures
            self.provided(bound, after, cache, class),
    {
    }

    /// Writing the header of one block of a new slab keeps those of the others.
    proof fn fresh_headers_stay(self, middle: Self, class: SizeClass, region: Region, block: usize)
        requires
            region.valid(),
            region.block_size >= HEADER_SIZE,
            region.has(block as int),
            header::touches_only(self.bytes(), middle.bytes(), Multiset::singleton(block)),
            local_slab::region_fits(middle.bytes(), region),
            forall|other: usize| #[trigger]
                region.all().count(other) > 0 ==> AllocationHeader::small(class, 0, 0).is_at(
                    middle.bytes(),
                    other as int,
                ),
        ensures
            forall|other: usize| #[trigger]
                region.all().count(other) > 0 && other != block ==> AllocationHeader::small(
                    class,
                    0,
                    0,
                ).is_at(self.bytes(), other as int),
    {
        broadcast use vstd::multiset::group_multiset_axioms;

        region.tail_counts(0);
        assert forall|other: usize| #[trigger]
            region.all().count(other) > 0 && other != block implies AllocationHeader::small(
            class,
            0,
            0,
        ).is_at(self.bytes(), other as int) by {
            region.blocks_do_not_overlap(other as int, block as int);
            assert(header::header_fits(middle.bytes(), other as int));
            assert forall|at: int| other <= at < other + 64 implies #[trigger] self.bytes().byte(at)
                == middle.bytes().byte(at) by {
            }
        }
    }

    /// What `result` is, and what this allocator with `cache` becomes, when a request of
    /// `requested_size` bytes of `class` is made.
    pub open spec fn small_outcome(
        self,
        cache: ThreadCache,
        after: Self,
        cache_after: ThreadCache,
        class: SizeClass,
        requested_size: usize,
        result: Result<usize, AllocError>,
    ) -> bool {
        &&& after.pools().same_but(self.pools(), class)
        &&& match result {
            Ok(user) => {
                let block = (user - HEADER_SIZE) as usize;
                &&& self.has_room(cache, class)
                &&& HEADER_SIZE <= user
                &&& after.lives(cache_after, class, block)
                &&& header::live_small(
                    after.bytes(),
                    block as int,
                    class,
                    requested_size as int,
                    cache.id(),
                )
                &&& after.stock(cache_after, class).insert(block) == self.stock(cache, class).add(
                    self.fresh_blocks(cache, class),
                )
                &&& cache.local(class).total_len > 0 ==> block == cache.local(class).next().0
                    && after.pools() == self.pools()
                &&& self.needs_refill(cache, class) ==> exists|refill: CentralRefill| #[trigger]
                    self.gives(class, refill) && block == refill.first()
                        && self.pools().pool(class).held() == after.pools().pool(class).held().add(
                        refill.held(),
                    )
                &&& self.needs_slab(cache, class) ==> block == self.next_slab(class).start
                    && after.frontier() == self.next_slab(class).end()
                    && after.pools().pool(class).held() == self.pools().pool(class).held()
                &&& !self.needs_slab(cache, class) ==> after.frontier() == self.frontier()
                &&& exists|bound: ThreadCache, middle: ThreadCache|
                    self.binds(bound, cache) && #[trigger] self.provided(
                        bound,
                        after,
                        middle,
                        class,
                    ) && cache_after.popped(middle, class)
                &&& header::changes(
                    after.bytes(),
                    self.bytes(),
                    self.fresh_blocks(cache, class).insert(block),
                    self.pools().pool(class).held(),
                )
                &&& forall|other: usize| #[trigger]
                    self.fresh_blocks(cache, class).count(other) > 0 && other != block
                        ==> AllocationHeader::small(class, 0, 0).is_at(after.bytes(), other as int)
            },
            Err(error) => {
                &&& !self.has_room(cache, class)
                &&& error == self.exhausted(requested_size)
                &&& after.stock(cache_after, class) == self.stock(cache, class)
                &&& after.ground() == self.ground()
                &&& exists|bound: ThreadCache| #[trigger]
                    self.binds(bound, cache) && cache_after.local(class) == bound.local(class)
                        && cache_after.staged(class) == bound.staged(class)
                &&& after.pools().pool(class).gave_out(
                    self.pools().pool(class),
                    self.settings().refill_blocks(class),
                    CentralRefill::Empty,
                )
            },
        }
    }

    /// What did not change in the other classes is what a use allows.
    proof fn other_classes_evolved(
        self,
        before: Self,
        cache: ThreadCache,
        cache_before: ThreadCache,
        class: SizeClass,
    )
        requires
            self.same_but(cache, before, cache_before, class),
            forall|region: Region| #[trigger]
                before.pools().pool(class).registered(region) ==> self.pools().pool(
                    class,
                ).registered(region),
            forall|block: usize| #[trigger]
                self.stock(cache, class).count(block) > 0 ==> before.stock(
                    cache_before,
                    class,
                ).count(block) > 0 || block >= before.frontier(),
        ensures
            forall|at: SizeClass, region: Region|
                #![trigger self.pools().pool(at).registered(region)]
                #![trigger before.pools().pool(at).registered(region)]
                before.pools().pool(at).registered(region) ==> self.pools().pool(at).registered(
                    region,
                ),
            forall|at: SizeClass, block: usize| #[trigger]
                self.stock(cache, at).count(block) > 0 ==> before.stock(cache_before, at).count(
                    block,
                ) > 0 || block >= before.frontier(),
    {
        assert forall|at: SizeClass, block: usize| #[trigger] self.stock(cache, at).count(block)
            > 0 implies before.stock(cache_before, at).count(block) > 0 || block
            >= before.frontier() by {
            if at != class {
                assert(self.pools().pool(at) == before.pools().pool(at));
                assert(cache.local(at) == cache_before.local(at));
                assert(cache.staged(at) == cache_before.staged(at));
            }
        }
        assert forall|at: SizeClass, region: Region|
            #![trigger self.pools().pool(at).registered(region)]
            #![trigger before.pools().pool(at).registered(region)]
            before.pools().pool(at).registered(region) implies self.pools().pool(at).registered(
            region,
        ) by {
            if at != class {
                assert(self.pools().pool(at) == before.pools().pool(at));
            }
        }
    }

    /// The bytes of the block that a large request needs: header and request, rounded up to
    /// the alignment.
    pub open spec fn large_bytes(self, requested_size: int) -> int {
        align::rounded_up(requested_size + HEADER_SIZE, self.settings().alignment as int)
    }

    /// A large request is served by a reusable block.
    pub open spec fn reuses(self, requested_size: int) -> bool {
        exists|size: usize| #[trigger]
            self.registry().registry().free@.contains_key(size) && size >= self.large_bytes(
                requested_size,
            )
    }

    /// The block of `size` bytes at `block` serves a large request: the reusable block that
    /// fits best, or else a new one from the arena.
    pub open spec fn large_choice(self, requested_size: int, block: int, size: int) -> bool {
        let need = self.large_bytes(requested_size);
        let registry = self.registry().registry();
        &&& need <= usize::MAX
        &&& 0 <= size <= usize::MAX
        &&& if self.reuses(requested_size) {
            &&& registry.best_fit(need as usize, size as usize)
            &&& registry.free@[size as usize]@.last().block_addr == block
        } else {
            &&& size == need
            &&& block == self.ground().origin() + self.ground().next_offset()
            &&& self.ground().next_offset() + need <= self.ground().total()
        }
    }

    /// `block` left the reusable blocks, or else the unreserved part of the arena, and nothing
    /// else did.
    pub open spec fn took_large(
        self,
        after: Self,
        requested_size: int,
        block: FreeLargeBlock,
    ) -> bool {
        let registry = self.registry().registry();
        let left = after.registry().registry();
        if self.reuses(requested_size) {
            &&& after.frontier() == self.frontier()
            &&& left.free_bytes == registry.free_bytes - block.block_size
            &&& left.free_blocks == registry.free_blocks - 1
            &&& forall|other: FreeLargeBlock| #[trigger]
                left.has_free(other) <==> registry.has_free(other) && other != block
        } else {
            &&& after.frontier() == block.block_addr + block.block_size
            &&& left.free@ == registry.free@
            &&& left.free_bytes == registry.free_bytes
            &&& left.free_blocks == registry.free_blocks
        }
    }

    /// A block for a large request can be had.
    pub open spec fn has_large_room(self, requested_size: int) -> bool {
        exists|block: int, size: int| #[trigger] self.large_choice(requested_size, block, size)
    }

    /// What `result` is, and what this allocator becomes, when a large request of
    /// `requested_size` bytes is made. A block whose sizes its header cannot record is taken
    /// and not handed out.
    pub open spec fn large_outcome(
        self,
        after: Self,
        requested_size: usize,
        result: Result<usize, AllocError>,
    ) -> bool {
        match result {
            Ok(user) => {
                let record = after.registry().registry().live@[user];
                &&& HEADER_SIZE <= user
                &&& self.large_choice(
                    requested_size as int,
                    user - HEADER_SIZE,
                    record.block_size as int,
                )
                &&& record == (LargeAllocationRecord {
                    block_addr: (user - HEADER_SIZE) as usize,
                    block_size: record.block_size,
                    requested_size,
                    usable_size: (record.block_size - HEADER_SIZE) as usize,
                })
                &&& self.took_large(
                    after,
                    requested_size as int,
                    FreeLargeBlock {
                        block_addr: record.block_addr,
                        block_size: record.block_size,
                    },
                )
                &&& header::large_fields_fit(
                    requested_size as int,
                    record.block_size - HEADER_SIZE,
                )
                &&& !self.registry().registry().live@.contains_key(user)
                &&& after.registry().registry().live@ == self.registry().registry().live@.insert(
                    user,
                    record,
                )
                &&& AllocationHeader::large(
                    requested_size as int,
                    record.block_size - HEADER_SIZE,
                ).is_at(after.bytes(), user - HEADER_SIZE)
                &&& header::touches_only(
                    after.bytes(),
                    self.bytes(),
                    Multiset::singleton((user - HEADER_SIZE) as usize),
                )
                &&& after.registry().registry().live_bytes == self.registry().registry().live_bytes
                    + record.block_size
            },
            Err(error) => {
                &&& error == after.exhausted(requested_size)
                &&& after.bytes() == self.bytes()
                &&& after.registry().registry().live@ == self.registry().registry().live@
                &&& !self.has_large_room(requested_size as int) ==> after == self
                &&& forall|block: int, size: int| #[trigger]
                    self.large_choice(requested_size as int, block, size)
                        ==> !header::large_fields_fit(requested_size as int, size - HEADER_SIZE)
                        && self.took_large(
                        after,
                        requested_size as int,
                        FreeLargeBlock { block_addr: block as usize, block_size: size as usize },
                    )
            },
        }
    }

    /// No slab has a block inside the reservation of a large block.
    proof fn large_block_is_in_no_slab(self, block: usize, size: int, class: SizeClass)
        requires
            self.wf(),
            self.large_is_reserved(block as int, size),
        ensures
            !self.pools().pool(class).knows(block),
    {
        let pool = self.pools().pool(class);
        if pool.knows(block) {
            let index = choose|index: int|
                0 <= index < pool.slabs@.len() && (#[trigger] pool.slabs@[index]).region().has(
                    block as int,
                );
            let region = pool.slabs@[index].region();
            assert(pool.registered(region));
            assert(self.reservations().contains_key(region.start));
            assert(self.reservations().contains_key(block as int));
        }
    }

    /// Writes to the header of a block outside all slabs leave caches in step.
    proof fn large_write_keeps_step(
        self,
        before: Self,
        cache: ThreadCache,
        block: usize,
    )
        requires
            before.wf(),
            before.bound(cache),
            self.central == before.central,
            self.id == before.id,
            self.config == before.config,
            self.bytes().wf(),
            header::touches_only(self.bytes(), before.bytes(), Multiset::singleton(block)),
            header::header_fits(self.bytes(), block as int),
            forall|class: SizeClass| !(#[trigger] before.pools().pool(class)).knows(block),
        ensures
            self.bound(cache),
    {
        broadcast use vstd::multiset::group_multiset_axioms;

        let touched = Multiset::singleton(block);
        assert forall|at: SizeClass, other: usize|
            #![trigger cache.held(at).count(other)]
            touched.count(other) > 0 implies cache.held(at).count(other) == 0 by {
            if cache.held(at).count(block) > 0 {
                assert(thread_cache::class_fits(
                    cache.local(at),
                    cache.staged(at).to_multiset(),
                    before.pools().pool(at),
                ));
                assert(cache.local(at).held().add(cache.staged(at).to_multiset()).count(block) > 0);
                assert(before.pools().pool(at).knows(block));
            }
        }
        assert forall|at: SizeClass, other: usize|
            #![trigger before.pools().pool(at).held().count(other)]
            touched.count(other) > 0 implies before.pools().pool(at).held().count(other) == 0 by {
            if before.pools().pool(at).held().count(block) > 0 {
                before.pools().known_blocks_fit(before.bytes(), at);
                assert(before.pools().pool(at).knows(block));
            }
        }
        cache.unheld_write_stays_in_step(before.pools(), self.bytes(), before.bytes(), touched);
    }

    /// The central pool alone stays in step in the same way.
    proof fn large_write_keeps_pools(self, before: Self, block: usize)
        requires
            before.wf(),
            self.central == before.central,
            self.bytes().wf(),
            header::touches_only(self.bytes(), before.bytes(), Multiset::singleton(block)),
            header::header_fits(self.bytes(), block as int),
            forall|class: SizeClass| !(#[trigger] before.pools().pool(class)).knows(block),
        ensures
            self.pools().in_step(self.bytes()),
    {
        broadcast use vstd::multiset::group_multiset_axioms;

        let touched = Multiset::singleton(block);
        let central = before.pools();
        assert(central.slabs_fit(self.bytes())) by {
            assert forall|at: SizeClass, region: Region| #[trigger] central.pool(at).registered(
                region,
            ) implies local_slab::region_fits(self.bytes(), region) by {
                assert(local_slab::region_fits(before.bytes(), region));
            }
        }
        assert forall|at: SizeClass| #[trigger] central.pool(at).ready(self.bytes(), at) by {
            central.known_blocks_fit(before.bytes(), at);
            assert forall|other: usize| #[trigger] touched.count(other) > 0 implies central.pool(
                at,
            ).held().count(other) == 0 by {
                if central.pool(at).held().count(block) > 0 {
                    assert(central.pool(at).knows(block));
                }
            }
            assert(header::headers_fit(self.bytes(), central.pool(at).held()));
            assert(central.pool(at).ready(before.bytes(), at));
            central.pool(at).ready_is_framed(self.bytes(), before.bytes(), touched, at);
        }
    }

    /// Takes the block for a large request of at least `block_size` bytes.
    fn take_large_block(&mut self, block_size: usize, requested_size: usize) -> (result: Result<
        FreeLargeBlock,
        AllocError,
    >)
        requires
            old(self).wf(),
            block_size == old(self).large_bytes(requested_size as int),
            block_size >= HEADER_SIZE,
        ensures
            final(self).wf(),
            match result {
                Ok(block) => {
                    &&& old(self).large_choice(
                        requested_size as int,
                        block.block_addr as int,
                        block.block_size as int,
                    )
                    &&& block.block_size >= block_size
                    &&& old(self).took_large(*final(self), requested_size as int, block)
                    &&& final(self).large_is_reserved(
                        block.block_addr as int,
                        block.block_size as int,
                    )
                    &&& final(self).registry().registry().live@ == old(self).registry().registry().live@
                    &&& final(self).registry().registry().live_bytes == old(self).registry().registry().live_bytes
                    &&& final(self).registry().registry().live_bytes + final(self).registry().registry().free_bytes + block.block_size <= final(self).ground().used()
                    &&& !final(self).registry().registry().live@.contains_key(
                        (block.block_addr + HEADER_SIZE) as usize,
                    )
                    &&& forall|other: FreeLargeBlock| #[trigger]
                        final(self).registry().registry().has_free(other) ==> other.block_addr
                            != block.block_addr
                    &&& final(self).pools() == old(self).pools()
                    &&& final(self).bytes() == old(self).bytes()
                    &&& final(self).number() == old(self).number()
                    &&& final(self).settings() == old(self).settings()
                    &&& final(self).ground().same_layout(old(self).ground())
                    &&& final(self).ground().used() >= old(self).ground().used()
                    &&& block.block_addr >= old(self).frontier() || old(self).registry().registry().has_free(block)
                },
                Err(error) => {
                    &&& *final(self) == *old(self)
                    &&& error == old(self).exhausted(requested_size)
                    &&& !old(self).has_large_room(requested_size as int)
                },
            },
    {
        let ghost registry = self.registry().registry();
        if let Some(block) = self.large.take_reusable_block(block_size) {
            proof {
                assert(registry.free@.contains_key(block.block_size));
                assert(old(self).large_is_reserved(
                    block.block_addr as int,
                    block.block_size as int,
                ));
                self.large_change_is_wf(*old(self));
            }
            return Ok(block);
        }
        match self.arena.allocate_block(block_size) {
            Ok(block_start) => {
                proof {
                    align::rounded_up_is_least_multiple(self.arena.used(), self.arena.step());
                    let ground = old(self).ground();
                    align::rounded_up_is_least_multiple(ground.used(), ground.step());
                    arena::reservation_is_aligned(ground, block_size);
                    align::large_power_of_two_is_multiple_of_64(ground.step());
                    align::multiple_of_multiple_of_64(block_start as int, ground.step());
                    self.extents@ = self.extents@.insert(
                        block_start as int,
                        Extent { end: block_start + block_size, class: None },
                    );
                    self.new_large_is_wf(*old(self), block_start as int, block_size as int);
                    assert forall|other: usize| #[trigger] registry.free@.contains_key(
                        other,
                    ) implies other < block_size by {
                    }
                }
                Ok(FreeLargeBlock { block_addr: block_start, block_size })
            },
            Err(AllocError::OutOfMemory { requested, remaining }) => {
                proof {
                    assert forall|block: int, size: int| !#[trigger] old(self).large_choice(
                        requested_size as int,
                        block,
                        size,
                    ) by {
                    }
                }
                Err(AllocError::OutOfMemory { requested: requested_size, remaining })
            },
            Err(error) => Err(error),
        }
    }

    proof fn large_change_is_wf(self, before: Self)
        requires
            before.wf(),
            self.id == before.id,
            self.config == before.config,
            self.arena == before.arena,
            self.central == before.central,
            self.extents == before.extents,
            self.large.wf(),
            forall|user: usize| #[trigger]
                self.large.registry().live@.contains_key(user)
                    ==> before.large.registry().live@.contains_key(user)
                    && self.large.registry().live@[user] == before.large.registry().live@[user],
            forall|block: FreeLargeBlock| #[trigger]
                self.large.registry().has_free(block) ==> before.large_is_reserved(
                    block.block_addr as int,
                    block.block_size as int,
                ) && block.block_size <= u32::MAX + HEADER_SIZE,
            self.large.registry().live_bytes + self.large.registry().free_bytes
                <= before.large.registry().live_bytes + before.large.registry().free_bytes,
        ensures
            self.wf(),
    {
        assert(self.reservations_are_apart());
        assert(self.slabs_are_reserved());
        assert(self.large_blocks_are_reserved()) by {
            assert forall|user: usize| #[trigger] self.registry().registry().live@.contains_key(
                user,
            ) implies self.large_is_reserved(
                self.registry().registry().live@[user].block_addr as int,
                self.registry().registry().live@[user].block_size as int,
            ) by {
                assert(before.registry().registry().live@.contains_key(user));
            }
            assert forall|block: FreeLargeBlock| #[trigger] self.registry().registry().has_free(
                block,
            ) implies self.large_is_reserved(block.block_addr as int, block.block_size as int) by {
                assert(before.large_is_reserved(block.block_addr as int, block.block_size as int));
            }
        }
    }

    proof fn new_large_is_wf(self, before: Self, block: int, size: int)
        requires
            before.wf(),
            self.id == before.id,
            self.config == before.config,
            self.central == before.central,
            self.large == before.large,
            self.arena.wf(),
            self.arena.same_layout(before.arena),
            self.arena.bytes() == before.arena.bytes(),
            before.frontier() <= block,
            block % 64 == 0,
            before.ground().has_block_start(block),
            size >= HEADER_SIZE,
            self.frontier() == block + size,
            self.extents@ == before.extents@.insert(
                block,
                Extent { end: block + size, class: None },
            ),
        ensures
            self.wf(),
            self.large_is_reserved(block, size),
            forall|user: usize| #[trigger]
                self.registry().registry().live@.contains_key(user) ==> user != block + HEADER_SIZE,
            forall|free: FreeLargeBlock| #[trigger]
                self.registry().registry().has_free(free) ==> free.block_addr != block,
            self.registry().registry().live_bytes + self.registry().registry().free_bytes + size
                <= self.ground().used(),
    {
        assert forall|one: int, other: int|
            #![trigger self.reservations().contains_key(one), self.reservations().contains_key(other)]
            self.reservations().contains_key(one) && self.reservations().contains_key(other) && one
                != other implies self.reservations()[one].end <= other
            || self.reservations()[other].end <= one by {
            if one != block {
                assert(before.reservations().contains_key(one));
            }
            if other != block {
                assert(before.reservations().contains_key(other));
            }
        }
        assert forall|start: int| #[trigger] self.reservations().contains_key(start) implies {
            &&& self.ground().origin() <= start < self.reservations()[start].end
            &&& self.reservations()[start].end <= self.frontier()
            &&& start % 64 == 0
        } by {
            if start != block {
                assert(before.reservations().contains_key(start));
            }
        }
        assert forall|at: SizeClass, other: Region| #[trigger] self.pools().pool(at).registered(
            other,
        ) implies {
            &&& other.valid()
            &&& other.block_size == at.block_bytes(self.settings().alignment as int)
            &&& self.reservations().contains_key(other.start)
            &&& self.reservations()[other.start] == (Extent { end: other.end(), class: Some(at) })
        } by {
            assert(before.pools().pool(at).registered(other));
            assert(before.reservations().contains_key(other.start));
        }
        assert(self.large_blocks_are_reserved()) by {
            assert forall|user: usize| #[trigger] self.registry().registry().live@.contains_key(
                user,
            ) implies self.large_is_reserved(
                self.registry().registry().live@[user].block_addr as int,
                self.registry().registry().live@[user].block_size as int,
            ) && user != block + HEADER_SIZE by {
                let record = before.registry().registry().live@[user];
                assert(before.reservations().contains_key(record.block_addr as int));
                assert(large_object::record_is_sound(user, record));
            }
            assert forall|free: FreeLargeBlock| #[trigger] self.registry().registry().has_free(
                free,
            ) implies self.large_is_reserved(free.block_addr as int, free.block_size as int)
                && free.block_addr != block by {
                assert(before.registry().registry().has_free(free));
                assert(before.reservations().contains_key(free.block_addr as int));
            }
        }
        assert forall|user: usize| #[trigger] self.registry().registry().live@.contains_key(
            user,
        ) implies user != block + HEADER_SIZE by {
            let record = before.registry().registry().live@[user];
            assert(before.reservations().contains_key(record.block_addr as int));
            assert(large_object::record_is_sound(user, record));
        }
        assert forall|free: FreeLargeBlock| #[trigger] self.registry().registry().has_free(
            free,
        ) implies free.block_addr != block by {
            assert(before.registry().registry().has_free(free));
            assert(before.reservations().contains_key(free.block_addr as int));
        }
    }

    /// Allocates a block of its own for a request beyond the largest small class.
    ///
    /// # Errors
    ///
    /// Returns [`AllocError::OutOfMemory`] when no reusable block fits and the arena has no
    /// room, or when the header cannot record the sizes.
    pub fn allocate_large(&mut self, requested_size: usize) -> (result: Result<usize, AllocError>)
        requires
            old(self).wf(),
            requested_size > 0,
        ensures
            final(self).wf(),
            old(self).large_outcome(*final(self), requested_size, result),
            final(self).pools() == old(self).pools(),
            forall|cache: ThreadCache|
                #![trigger final(self).bound(cache)]
                #![trigger old(self).bound(cache)]
                old(self).bound(cache) ==> final(self).bound(cache),
            forall|cache: ThreadCache| #[trigger]
                final(self).evolved(cache, *old(self), cache, None),
    {
        broadcast use vstd::multiset::group_multiset_axioms;

        let ghost none = Multiset::<usize>::empty();
        proof {
            header::touches_nothing(self.bytes());
            align::rounded_up_is_least_multiple(
                requested_size + HEADER_SIZE,
                self.settings().alignment as int,
            );
            self.unchanged_evolved();
        }
        let total_size: usize = match HEADER_SIZE.checked_add(requested_size) {
            Some(total_size) => total_size,
            None => {
                assert(!self.has_large_room(requested_size as int));
                return Err(
                    AllocError::OutOfMemory {
                        requested: requested_size,
                        remaining: self.arena.remaining(),
                    },
                );
            },
        };
        let block_size: usize = match align::align_up_checked(total_size, self.config.alignment) {
            Some(block_size) => block_size,
            None => {
                assert(!self.has_large_room(requested_size as int));
                return Err(
                    AllocError::OutOfMemory {
                        requested: requested_size,
                        remaining: self.arena.remaining(),
                    },
                );
            },
        };
        let block = match self.take_large_block(block_size, requested_size) {
            Ok(block) => block,
            Err(error) => {
                return Err(error);
            },
        };
        let ghost middle = *self;
        let block_start: usize = block.block_start();
        let usable_size: usize = block.usable_size();
        proof {
            assert(self.reservations().contains_key(block_start as int));
            assert(header::header_fits(self.bytes(), block_start as int));
            assert forall|class: SizeClass| !(#[trigger] middle.pools().pool(class)).knows(
                block_start,
            ) by {
                middle.large_block_is_in_no_slab(block_start, block.block_size as int, class);
            }
            old(self).choice_is_unique(
                requested_size as int,
                block.block_addr as int,
                block.block_size as int,
            );
            self.taken_evolved(*old(self), *self, block, none);
        }
        let written = AllocationHeader::write_large_to_block(
            self.arena.memory_mut(),
            block_start,
            requested_size,
            usable_size,
        );
        if written.is_none() {
            return Err(
                AllocError::OutOfMemory {
                    requested: requested_size,
                    remaining: self.arena.remaining(),
                },
            );
        }
        let ghost written_to = *self;
        proof {
            header::touches_one(
                self.bytes(),
                middle.bytes(),
                block_start,
                block_start as int,
                64,
            );
            self.large_write_keeps_pools(middle, block_start);
            self.pool_change_is_wf(middle, SizeClass::B64);
        }
        let user: usize = user_ptr_from_block_start(block_start);
        self.large.record_live_allocation(
            user,
            block_start,
            block.block_size,
            requested_size,
            usable_size,
        );
        proof {
            let one = Multiset::singleton(block_start);
            self.recorded_is_wf(written_to, user, block);
            assert forall|cache: ThreadCache|
                #![trigger self.bound(cache)]
                #![trigger old(self).bound(cache)]
                old(self).bound(cache) implies self.bound(cache) by {
                assert(middle.bound(cache));
                self.large_write_keeps_step(middle, cache, block_start);
            }
            self.taken_evolved(*old(self), middle, block, one);
            assert(old(self).took_large(*self, requested_size as int, block)) by {
                assert forall|other: FreeLargeBlock| #[trigger] self.registry().registry().has_free(
                    other,
                ) == middle.registry().registry().has_free(other) by {
                }
            }
        }
        Ok(user)
    }

    proof fn recorded_is_wf(self, before: Self, user: usize, block: FreeLargeBlock)
        requires
            before.wf(),
            self.id == before.id,
            self.config == before.config,
            self.arena == before.arena,
            self.central == before.central,
            self.extents == before.extents,
            self.large.wf(),
            before.large_is_reserved(block.block_addr as int, block.block_size as int),
            self.large.registry().live@.contains_key(user),
            self.large.registry().live@[user].block_addr == block.block_addr,
            self.large.registry().live@[user].block_size == block.block_size,
            block.block_size <= u32::MAX + HEADER_SIZE,
            forall|other: usize| #[trigger]
                self.large.registry().live@.contains_key(other) && other != user
                    ==> before.large.registry().live@.contains_key(other)
                    && self.large.registry().live@[other] == before.large.registry().live@[other],
            self.large.registry().free@ == before.large.registry().free@,
            self.large.registry().live_bytes + self.large.registry().free_bytes
                <= before.arena.used(),
        ensures
            self.wf(),
    {
        assert(self.reservations_are_apart());
        assert(self.slabs_are_reserved());
        assert(self.large_blocks_are_reserved()) by {
            assert forall|other: usize| #[trigger] self.registry().registry().live@.contains_key(
                other,
            ) implies self.large_is_reserved(
                self.registry().registry().live@[other].block_addr as int,
                self.registry().registry().live@[other].block_size as int,
            ) by {
                if other != user {
                    assert(before.registry().registry().live@.contains_key(other));
                }
            }
            assert forall|free: FreeLargeBlock| #[trigger] self.registry().registry().has_free(
                free,
            ) implies self.large_is_reserved(free.block_addr as int, free.block_size as int) by {
                assert(before.registry().registry().has_free(free));
            }
        }
        assert(self.large_sizes_are_recordable()) by {
            assert forall|other: usize| #[trigger] self.registry().registry().live@.contains_key(
                other,
            ) implies self.registry().registry().live@[other].block_size <= u32::MAX
                + HEADER_SIZE by {
                if other != user {
                    assert(before.registry().registry().live@.contains_key(other));
                }
            }
            assert forall|free: FreeLargeBlock| #[trigger] self.registry().registry().has_free(
                free,
            ) implies free.block_size <= u32::MAX + HEADER_SIZE by {
                assert(before.registry().registry().has_free(free));
            }
        }
    }

    /// The block for a large request is determined.
    proof fn choice_is_unique(self, requested_size: int, block: int, size: int)
        requires
            self.large_choice(requested_size, block, size),
        ensures
            self.has_large_room(requested_size),
            forall|other: int, other_size: int| #[trigger]
                self.large_choice(requested_size, other, other_size) ==> other == block
                    && other_size == size,
    {
        let registry = self.registry().registry();
        let need = self.large_bytes(requested_size);
        assert forall|other: int, other_size: int| #[trigger]
            self.large_choice(requested_size, other, other_size) implies other == block
            && other_size == size by {
            if exists|at: usize| #[trigger] registry.free@.contains_key(at) && at >= need {
                assert(registry.best_fit(need as usize, size as usize));
                assert(registry.best_fit(need as usize, other_size as usize));
            }
        }
    }

    /// Nothing changed.
    proof fn unchanged_evolved(self)
        ensures
            forall|cache: ThreadCache| #[trigger] self.evolved(cache, self, cache, None),
    {
    }

    /// Taking a large block and writing its header is what a use allows.
    proof fn taken_evolved(
        self,
        before: Self,
        middle: Self,
        block: FreeLargeBlock,
        touched: Multiset<usize>,
    )
        requires
            self.number() == before.number(),
            self.settings() == before.settings(),
            self.pools() == before.pools(),
            self.ground().same_layout(before.ground()),
            self.ground().used() >= before.ground().used(),
            middle.bytes() == before.bytes(),
            header::touches_only(self.bytes(), middle.bytes(), touched),
            forall|at: usize| #[trigger] touched.count(at) > 0 ==> at == block.block_addr,
            block.block_addr >= before.frontier() || before.registry().registry().has_free(block),
            forall|user: usize| #[trigger]
                before.registry().registry().live@.contains_key(user)
                    ==> self.registry().registry().live@.contains_key(user)
                    && self.registry().registry().live@[user]
                    == before.registry().registry().live@[user],
        ensures
            forall|cache: ThreadCache| #[trigger] self.evolved(cache, before, cache, None),
    {
        assert forall|cache: ThreadCache| #[trigger] self.evolved(cache, before, cache, None) by {
            assert forall|at: usize| #[trigger] touched.count(at) > 0 implies before.may_change(
                cache,
                None,
                at,
            ) by {
            }
            self.memory_evolved(before, cache, None, touched);
            assert forall|class: SizeClass, at: usize| #[trigger] self.stock(cache, class).count(at)
                > 0 implies before.stock(cache, class).count(at) > 0 || at >= before.frontier() by {
                assert(self.stock(cache, class) == before.stock(cache, class));
            }
        }
    }

    /// Allocates a block using the provided thread cache for small objects.
    ///
    /// Callers should pair one mutable [`ThreadCache`] with one thread.
    ///
    /// # Errors
    ///
    /// Returns [`AllocError::ZeroSize`] for zero-byte requests and
    /// [`AllocError::OutOfMemory`] when the arena cannot satisfy the request.
    pub fn allocate_with_cache(&mut self, cache: &mut ThreadCache, requested_size: usize) -> (result:
        Result<usize, AllocError>)
        requires
            old(self).wf(),
            old(self).serves(*old(cache)),
            old(self).pools().epochs_left(3),
        ensures
            final(self).wf(),
            final(self).bound(*final(cache)),
            final(self).evolved(*final(cache), *old(self), *old(cache), None),
            forall|class: SizeClass|
                #![trigger final(self).pools().pool(class)]
                old(self).pools().pool(class).epoch <= final(self).pools().pool(class).epoch <= old(self).pools().pool(class).epoch + 3,
            requested_size == 0 ==> result == Err::<usize, AllocError>(AllocError::ZeroSize)
                && *final(self) == *old(self),
            forall|class: SizeClass| #[trigger]
                class.serves(requested_size as int) ==> old(self).small_outcome(
                    *old(cache),
                    *final(self),
                    *final(cache),
                    class,
                    requested_size,
                    result,
                ) && final(self).registry() == old(self).registry(),
            requested_size > SizeClass::B16M.payload() ==> old(self).large_outcome(
                *final(self),
                requested_size,
                result,
            ) && final(self).pools() == old(self).pools(),
            forall|class: SizeClass|
                !class.serves(requested_size as int) ==> #[trigger] final(cache).held(class) == old(cache).held(class),
    {
        cache.bind_to_allocator(self);
        let ghost bound = *cache;
        proof {
            assert forall|class: SizeClass| #[trigger] self.stock(bound, class) == self.stock(
                *old(cache),
                class,
            ) by {
                assert(bound.held(class) == old(cache).held(class));
            }
            self.rebound_evolved(bound, *old(cache));
        }
        if requested_size == 0 {
            return Err(AllocError::ZeroSize);
        }
        match SizeClass::from_request(requested_size) {
            Some(class) => {
                proof {
                    assert(self.pools().pool(class).epoch + 3 <= u64::MAX);
                    assert(bound.local(class).total_len == old(cache).local(class).total_len);
                }
                let result = self.allocate_small_with_cache(cache, class, requested_size);
                proof {
                    assert forall|other: SizeClass| #[trigger] other.serves(
                        requested_size as int,
                    ) implies other == class by {
                        class.serving_class_is_unique(other, requested_size as int);
                    }
                    assert forall|other: SizeClass|
                        #![trigger self.pools().pool(other)]
                        old(self).pools().pool(other).epoch <= self.pools().pool(other).epoch
                            <= old(self).pools().pool(other).epoch + 3 by {
                        if other != class {
                            assert(self.pools().pool(other) == old(self).pools().pool(other));
                        }
                    }
                    self.rebased_evolved(*old(self), *cache, bound, *old(cache), None);
                    old(self).small_outcome_rebased(
                        bound,
                        *old(cache),
                        *self,
                        *cache,
                        class,
                        requested_size,
                        result,
                    );
                    assert forall|other: SizeClass| !other.serves(
                        requested_size as int,
                    ) implies #[trigger] cache.held(other) == old(cache).held(other) by {
                        assert(other != class);
                        assert(cache.local(other) == bound.local(other));
                        assert(cache.staged(other) == bound.staged(other));
                        assert(bound.held(other) == old(cache).held(other));
                    }
                }
                result
            },
            None => {
                let result = self.allocate_large(requested_size);
                proof {
                    assert(self.evolved(bound, *old(self), bound, None));
                    self.rebased_evolved(*old(self), *cache, bound, *old(cache), None);
                    assert forall|other: SizeClass| !#[trigger] other.serves(
                        requested_size as int,
                    ) by {
                    }
                }
                result
            },
        }
    }

    /// Binding an empty cache changes nothing.
    proof fn rebound_evolved(self, cache: ThreadCache, cache_before: ThreadCache)
        requires
            cache.id() == cache_before.id(),
            forall|class: SizeClass| #[trigger] cache.held(class) == cache_before.held(class),
        ensures
            self.evolved(cache, self, cache_before, None),
    {
        assert forall|class: SizeClass, block: usize| #[trigger] self.stock(cache, class).count(
            block,
        ) > 0 implies self.stock(cache_before, class).count(block) > 0 by {
            assert(cache.held(class) == cache_before.held(class));
        }
    }

    proof fn small_outcome_rebased(
        self,
        bound: ThreadCache,
        cache: ThreadCache,
        after: Self,
        cache_after: ThreadCache,
        class: SizeClass,
        requested_size: usize,
        result: Result<usize, AllocError>,
    )
        requires
            self.small_outcome(bound, after, cache_after, class, requested_size, result),
            self.binds(bound, cache),
            bound.local(class).total_len == cache.local(class).total_len,
            cache.local(class).total_len > 0 ==> bound == cache,
        ensures
            self.small_outcome(cache, after, cache_after, class, requested_size, result),
    {
        assert(self.stock(bound, class) == self.stock(cache, class));
    }

    /// What freeing the allocation at `user`, whose header has the routing fields `prefix`,
    /// gives when the caller expects `expected` bytes.
    pub open spec fn free_outcome(
        self,
        user: usize,
        prefix: AllocationHeaderPrefix,
        expected: Option<usize>,
    ) -> Result<(), FreeError> {
        let block = user - HEADER_SIZE;
        if user < HEADER_SIZE || block % HEADER_ALIGNMENT as int != 0 {
            Err(FreeError::CorruptHeader)
        } else {
            match prefix.route() {
                None => Err(FreeError::CorruptHeader),
                Some(AllocationKind::Small(_)) => if self.marked(block) {
                    Err(FreeError::DoubleFree)
                } else if size_differs(prefix, expected) {
                    Err(size_mismatch(prefix, expected))
                } else if !self.ground().has_block_start(block) {
                    Err(FreeError::ForeignPointer)
                } else {
                    Ok(())
                },
                Some(AllocationKind::Large) => if size_differs(prefix, expected) {
                    Err(size_mismatch(prefix, expected))
                } else {
                    large_object::release_outcome(
                        self.registry().registry().live@,
                        user,
                        prefix.requested_size as usize,
                        prefix.usable_size as usize,
                    )
                },
            }
        }
    }

    /// The arena has a block at `block` that carries its freed marker.
    pub open spec fn marked(self, block: int) -> bool {
        &&& self.ground().has_block_start(block)
        &&& self.bytes().covers(block, HEADER_SIZE as int)
        &&& header::marked_freed(self.bytes(), block)
    }

    /// `prefix` is what stands at the block of `user`, as far as that is in this arena.
    pub open spec fn header_agrees(self, user: usize, prefix: AllocationHeaderPrefix) -> bool {
        self.bytes().covers(user - HEADER_SIZE, HEADER_SIZE as int)
            ==> AllocationHeaderPrefix::stored(self.bytes(), user - HEADER_SIZE) == Some(prefix)
    }

    /// The caller may free `user`: if nothing speaks against it and it is a small allocation,
    /// it is live.
    pub open spec fn may_free(
        self,
        cache: ThreadCache,
        user: usize,
        prefix: AllocationHeaderPrefix,
        expected: Option<usize>,
    ) -> bool {
        self.free_outcome(user, prefix, expected) is Ok ==> match prefix.route() {
            Some(AllocationKind::Small(class)) => self.lives(
                cache,
                class,
                (user - HEADER_SIZE) as usize,
            ),
            _ => true,
        }
    }

    /// This allocator with `cache` is `before` with `cache_before` after the small block
    /// `block` of `class`, allocated by the cache `owner`, was freed: the freeing cache hands
    /// it out next if it is the owner, and drains some blocks if it now holds too many;
    /// otherwise it stages the block for the central pool.
    pub open spec fn small_freed(
        self,
        cache: ThreadCache,
        before: Self,
        cache_before: ThreadCache,
        class: SizeClass,
        block: usize,
        owner: u32,
    ) -> bool {
        &&& self.same_but(cache, before, cache_before, class)
        &&& self.frontier() == before.frontier()
        &&& self.stock(cache, class) == before.stock(cache_before, class).insert(block)
        &&& header::marked_freed(self.bytes(), block as int)
        &&& header::changes_close(self.bytes(), before.bytes())
        &&& header::prepared(self.bytes(), block as int, class)
        &&& AllocationHeaderPrefix::stored(self.bytes(), block as int)
            == AllocationHeaderPrefix::stored(before.bytes(), block as int)
        &&& forall|region: Region| #[trigger]
            self.pools().pool(class).registered(region) <==> before.pools().pool(class).registered(
                region,
            )
        &&& if owner == cache_before.id() {
            &&& cache.local(class).hot_block == Some(block)
            &&& cache.staged(class) == cache_before.staged(class)
            &&& if cache_before.local(class).total_len < before.settings().local_blocks(class) {
                cache.pushed(cache_before, class, block) && self.pools() == before.pools()
            } else {
                exists|pushed: ThreadCache| #[trigger]
                    pushed.pushed(cache_before, class, block) && pushed.wf() && cache.drained(
                        self.pools(),
                        pushed,
                        before.pools(),
                        class,
                        before.settings().drain_blocks(class),
                    )
            }
        } else {
            &&& cache.local(class) == cache_before.local(class)
            &&& if cache_before.staged(class).len() + 1 >= before.settings().drain_blocks(class) {
                &&& cache.staged(class).len() == 0
                &&& self.pools().pool(class).inbox@ == before.pools().pool(class).inbox@
                    + cache_before.staged(class).push(block)
            } else {
                &&& cache.staged(class) == cache_before.staged(class).push(block)
                &&& self.pools() == before.pools()
            }
        }
    }

    /// Frees the live small block `block` through `cache`.
    #[verifier::rlimit(30)]
    fn release_small(
        &mut self,
        cache: &mut ThreadCache,
        class: SizeClass,
        block_start: usize,
        owner_cache_id: u32,
    )
        requires
            old(self).wf(),
            old(self).bound(*old(cache)),
            old(self).pools().pool(class).epoch + 2 <= u64::MAX,
            old(self).lives(*old(cache), class, block_start),
            header::prepared(old(self).bytes(), block_start as int, class),
            old(self).bytes().word(block_start + 16) == owner_cache_id,
        ensures
            final(self).wf(),
            final(self).bound(*final(cache)),
            final(self).small_freed(
                *final(cache),
                *old(self),
                *old(cache),
                class,
                block_start,
                owner_cache_id,
            ),
            old(self).pools().pool(class).epoch <= final(self).pools().pool(class).epoch <= old(self).pools().pool(class).epoch + 2,
            header::touches_only(
                final(self).bytes(),
                old(self).bytes(),
                old(self).stock(*old(cache), class).insert(block_start),
            ),
    {
        broadcast use vstd::multiset::group_multiset_axioms;

        let ghost stock = self.stock(*cache, class);
        proof {
            self.pools().known_blocks_fit(self.bytes(), class);
        }
        mark_small_block_freed(self.arena.memory_mut(), block_start);
        let ghost marked = *self;
        proof {
            header::touches_one(
                self.bytes(),
                old(self).bytes(),
                block_start,
                block_start + 32,
                8,
            );
            header::marked_is_refused(self.bytes(), block_start as int);
            header::closes_one(self.bytes(), old(self).bytes(), block_start as int);
            self.live_write_is_wf(*old(self), *cache, class, block_start);
            header::touches_widen(
                self.bytes(),
                old(self).bytes(),
                Multiset::singleton(block_start),
                stock.insert(block_start),
            );
            assert(cache.accepts(self.pools(), class, block_start));
            self.stock_is_known(*cache, class);
            assert(block_start != 0) by {
                self.known_blocks_are_reserved(class, block_start);
            }
        }
        let ghost linked = stock.insert(block_start);
        if owner_cache_id == cache.cache_id() {
            let ghost hot = class_cache::slot_held(cache.local(class).hot_block);
            proof {
                marked.local_headers(*cache, class);
            }
            cache.push(class, block_start, self.arena.memory_mut());
            let ghost pushed = *cache;
            let ghost middle = *self;
            proof {
                assert(old(cache).in_step(marked.pools(), marked.bytes()));
                self.pool_change_is_wf(marked, class);
                assert(self.bound(*cache));
                assert(self.stock(*cache, class) =~= linked);
                old(cache).local(class).parts_are_held();
                assert forall|other: usize| #[trigger] hot.count(other) > 0 implies linked.count(
                    other,
                ) > 0 by {
                    assert(old(cache).local(class).held().count(other) > 0);
                }
                self.freed_header_stays(
                    *old(self),
                    marked,
                    class,
                    block_start,
                    Multiset::empty(),
                    hot,
                    linked,
                );
                header::closes_links(self.bytes(), marked.bytes(), hot);
                header::closes_compose(old(self).bytes(), marked.bytes(), self.bytes());
            }
            if cache.should_drain(class) {
                let ghost count = cache.settings().drain_blocks(class);
                let ghost fresh = cache.local(class).fresh_drained(count);
                let ghost links = cache.local(class).drained(count).to_multiset().add(
                    self.pools().pool(class).held(),
                );
                cache.drain_excess_to_central(
                    class,
                    &mut self.central,
                    self.arena.memory_mut(),
                );
                proof {
                    header::closes_compose(old(self).bytes(), middle.bytes(), self.bytes());
                    self.pool_change_is_wf(middle, class);
                    assert(self.stock(*cache, class) =~= linked);
                    pushed.class_is_wf(class);
                    pushed.local(class).fresh_is_not_hot(count);
                    assert forall|other: usize| #[trigger] fresh.count(other) > 0 implies linked.count(
                        other,
                    ) > 0 && other != block_start by {
                        assert(pushed.local(class).held().count(other) > 0);
                        assert(middle.stock(pushed, class).count(other) > 0);
                    }
                    assert forall|other: usize| #[trigger] links.count(other) > 0 implies linked.count(
                        other,
                    ) > 0 by {
                        assert(pushed.local(class).held().count(other) == cache.local(
                            class,
                        ).held().add(pushed.local(class).drained(count).to_multiset()).count(other));
                        assert(middle.stock(pushed, class).count(other) > 0);
                    }
                    self.freed_header_stays(
                        *old(self),
                        middle,
                        class,
                        block_start,
                        fresh,
                        links,
                        linked,
                    );
                }
            }
        } else {
            proof {
                assert(free_list::chain(cache.staged(class), marked.bytes()));
            }
            cache.push_remote_return(class, block_start, self.arena.memory_mut());
            let ghost staged = *cache;
            let ghost middle = *self;
            proof {
                assert(old(cache).in_step(marked.pools(), marked.bytes()));
                self.pool_change_is_wf(marked, class);
                assert(self.bound(*cache));
                assert(self.stock(*cache, class) =~= linked);
                let one = Multiset::singleton(block_start);
                header::changes_link(self.bytes(), marked.bytes(), block_start);
                self.freed_header_stays(
                    *old(self),
                    marked,
                    class,
                    block_start,
                    Multiset::empty(),
                    one,
                    linked,
                );
                header::closes_links(self.bytes(), marked.bytes(), one);
                header::closes_compose(old(self).bytes(), marked.bytes(), self.bytes());
            }
            if cache.should_flush_remote_returns(class) {
                let ghost links = cache.staged(class).to_multiset();
                cache.flush_remote_returns_for_class(
                    class,
                    &mut self.central,
                    self.arena.memory_mut(),
                );
                proof {
                    header::closes_compose(old(self).bytes(), middle.bytes(), self.bytes());
                    self.pool_change_is_wf(middle, class);
                    assert(self.stock(*cache, class) =~= linked);
                    assert forall|other: usize| #[trigger] links.count(other) > 0 implies linked.count(
                        other,
                    ) > 0 by {
                        assert(middle.stock(staged, class).count(other) > 0);
                    }
                    self.freed_header_stays(
                        *old(self),
                        middle,
                        class,
                        block_start,
                        Multiset::empty(),
                        links,
                        linked,
                    );
                }
            }
        }
    }

    /// The headers of the blocks that `cache` can hand out lie in memory, and its lists are
    /// linked.
    proof fn local_headers(self, cache: ThreadCache, class: SizeClass)
        requires
            self.wf(),
            self.bound(cache),
        ensures
            cache.local(class).chained(self.bytes()),
            header::headers_fit(self.bytes(), cache.local(class).held()),
    {
        broadcast use vstd::multiset::group_multiset_axioms;

        let staged = cache.staged(class).to_multiset();
        assert(cache.local(class).ready(self.bytes(), class, cache.id()));
        cache.local(class).ready_is_chained(self.bytes(), class, cache.id());
        self.pools().known_blocks_fit(self.bytes(), class);
        assert(thread_cache::class_fits(cache.local(class), staged, self.pools().pool(class)));
        assert forall|block: usize| #[trigger] cache.local(class).held().count(
            block,
        ) > 0 implies header::header_fits(self.bytes(), block as int) by {
            assert(cache.local(class).held().add(staged).count(block) > 0);
        }
    }

    /// Headers of other blocks, and link words, may change without touching what a header says
    /// of a block freed before.
    proof fn freed_header_stays(
        self,
        before: Self,
        middle: Self,
        class: SizeClass,
        block: usize,
        whole: Multiset<usize>,
        links: Multiset<usize>,
        all: Multiset<usize>,
    )
        requires
            middle.wf(),
            self.bytes().wf(),
            middle.pools().pool(class).knows(block),
            header::changes(self.bytes(), middle.bytes(), whole, links),
            header::touches_only(middle.bytes(), before.bytes(), all),
            forall|other: usize| #[trigger] whole.count(other) > 0 ==> all.count(other) > 0 && other
                != block,
            forall|other: usize| #[trigger] links.count(other) > 0 ==> all.count(other) > 0,
            forall|other: usize| #[trigger]
                all.count(other) > 0 ==> middle.pools().pool(class).knows(other),
        ensures
            header::touches_only(self.bytes(), before.bytes(), all),
            header::headers_fit(self.bytes(), links),
            header::marked_freed(self.bytes(), block as int) == header::marked_freed(
                middle.bytes(),
                block as int,
            ),
            header::prepared(self.bytes(), block as int, class) == header::prepared(
                middle.bytes(),
                block as int,
                class,
            ),
            AllocationHeaderPrefix::stored(self.bytes(), block as int)
                == AllocationHeaderPrefix::stored(middle.bytes(), block as int),
    {
        broadcast use vstd::multiset::group_multiset_axioms;

        middle.pools().known_blocks_fit(middle.bytes(), class);
        header::changes_touch(self.bytes(), middle.bytes(), whole, links, all);
        header::touches_compose(before.bytes(), middle.bytes(), self.bytes(), all, all);
        header::touches_widen(self.bytes(), before.bytes(), all.add(all), all);
        assert(header::headers_fit(self.bytes(), links));
        assert(header::headers_fit(self.bytes(), whole));
        header::header_is_relinked(self.bytes(), middle.bytes(), whole, links, block as int);
    }

    /// The free blocks of a class are blocks of its slabs.
    proof fn stock_is_known(self, cache: ThreadCache, class: SizeClass)
        requires
            self.wf(),
            self.bound(cache),
        ensures
            forall|block: usize| #[trigger]
                self.stock(cache, class).count(block) > 0 ==> self.pools().pool(class).knows(block),
    {
        broadcast use vstd::multiset::group_multiset_axioms;

        let staged = cache.staged(class).to_multiset();
        self.pools().known_blocks_fit(self.bytes(), class);
        assert(thread_cache::class_fits(cache.local(class), staged, self.pools().pool(class)));
        assert forall|block: usize| #[trigger] self.stock(cache, class).count(
            block,
        ) > 0 implies self.pools().pool(class).knows(block) by {
            if cache.held(class).count(block) > 0 {
                assert(cache.local(class).held().add(staged).count(block) > 0);
            }
        }
    }

    /// This allocator with `cache` is `before` with `cache_before` after the allocation at
    /// `user` was freed with `result`.
    pub open spec fn freed(
        self,
        cache: ThreadCache,
        before: Self,
        cache_before: ThreadCache,
        user: usize,
        prefix: AllocationHeaderPrefix,
        result: Result<(), FreeError>,
    ) -> bool {
        match result {
            Err(_) => self == before && cache == cache_before,
            Ok(()) => match prefix.route() {
                Some(AllocationKind::Small(class)) => self.small_freed(
                    cache,
                    before,
                    cache_before,
                    class,
                    (user - HEADER_SIZE) as usize,
                    prefix.owner_cache_id,
                ),
                _ => self.large_freed(cache, before, cache_before, user),
            },
        }
    }

    /// The large allocation at `user` became a reusable block, and nothing else changed.
    pub open spec fn large_freed(
        self,
        cache: ThreadCache,
        before: Self,
        cache_before: ThreadCache,
        user: usize,
    ) -> bool {
        let live = before.registry().registry().live@;
        let block = FreeLargeBlock {
            block_addr: live[user].block_addr,
            block_size: live[user].block_size,
        };
        &&& cache == cache_before
        &&& self.number() == before.number()
        &&& self.settings() == before.settings()
        &&& self.ground() == before.ground()
        &&& self.pools() == before.pools()
        &&& self.registry().registry().live@ == live.remove(user)
        &&& self.registry().registry().live_bytes == before.registry().registry().live_bytes
            - block.block_size
        &&& self.registry().registry().free_bytes == before.registry().registry().free_bytes
            + block.block_size
        &&& self.registry().registry().free_blocks == before.registry().registry().free_blocks + 1
        &&& self.registry().registry().free@[block.block_size]@.last() == block
        &&& forall|other: FreeLargeBlock| #[trigger]
            self.registry().registry().has_free(other) <==> before.registry().registry().has_free(
                other,
            ) || other == block
    }

    /// Frees the allocation at `user`, whose header has the routing fields `prefix`.
    ///
    /// # Errors
    ///
    /// See [`Self::deallocate_with_cache`].
    pub fn deallocate_impl(
        &mut self,
        cache: &mut ThreadCache,
        user: usize,
        prefix: AllocationHeaderPrefix,
        expected_size: Option<usize>,
    ) -> (result: Result<(), FreeError>)
        requires
            old(self).wf(),
            old(self).bound(*old(cache)),
            old(self).pools().epochs_left(2),
            old(self).header_agrees(user, prefix),
            old(self).may_free(*old(cache), user, prefix, expected_size),
        ensures
            final(self).wf(),
            final(self).bound(*final(cache)),
            result == old(self).free_outcome(user, prefix, expected_size),
            final(self).freed(*final(cache), *old(self), *old(cache), user, prefix, result),
            final(self).evolved(
                *final(cache),
                *old(self),
                *old(cache),
                if result is Ok {
                    Some((user - HEADER_SIZE) as usize)
                } else {
                    None
                },
            ),
            forall|class: SizeClass|
                #![trigger final(self).pools().pool(class)]
                old(self).pools().pool(class).epoch <= final(self).pools().pool(class).epoch <= old(self).pools().pool(class).epoch + 2,
    {
        proof {
            self.unchanged_evolved();
            assert(self.evolved(*cache, *self, *cache, None));
        }
        let kind = match decode_header(user, prefix) {
            Ok(kind) => kind,
            Err(error) => {
                return Err(error);
            },
        };
        let block_start: usize = block_start_from_user_ptr(user);
        let recorded: usize = prefix.requested_size as usize;
        match kind {
            AllocationKind::Small(class) => {
                let owned: bool = self.arena.contains_block_start(block_start);
                if owned && self.arena.memory().covers_range(block_start, HEADER_SIZE)
                    && small_block_is_marked_freed(self.arena.memory(), block_start) {
                    return Err(FreeError::DoubleFree);
                }
                if let Some(expected) = expected_size {
                    if expected != recorded {
                        return Err(FreeError::SizeMismatch { provided: expected, recorded });
                    }
                }
                if !owned {
                    return Err(FreeError::ForeignPointer);
                }
                proof {
                    assert(self.pools().pool(class).epoch + 2 <= u64::MAX);
                    self.pools().known_blocks_fit(self.bytes(), class);
                    assert(self.bytes().covers(block_start as int, 64));
                    assert(AllocationHeaderPrefix::stored(self.bytes(), block_start as int)
                        == Some(prefix));
                    prefix_is_prepared(self.bytes(), block_start as int, prefix, class);
                }
                self.release_small(cache, class, block_start, prefix.owner_cache_id);
                proof {
                    self.small_freed_evolved(
                        *old(self),
                        *cache,
                        *old(cache),
                        class,
                        block_start,
                        prefix.owner_cache_id,
                    );
                    assert forall|at: SizeClass|
                        #![trigger self.pools().pool(at)]
                        old(self).pools().pool(at).epoch <= self.pools().pool(at).epoch <= old(self).pools().pool(at).epoch + 2 by {
                        if at != class {
                            assert(self.pools().pool(at) == old(self).pools().pool(at));
                        }
                    }
                }
                Ok(())
            },
            AllocationKind::Large => {
                if let Some(expected) = expected_size {
                    if expected != recorded {
                        return Err(FreeError::SizeMismatch { provided: expected, recorded });
                    }
                }
                match self.large.validate_and_release_live_allocation(
                    user,
                    recorded,
                    prefix.usable_size as usize,
                ) {
                    Ok(()) => {
                        proof {
                            let record = old(self).registry().registry().live@[user];
                            assert(old(self).registry().registry().live@.contains_key(user));
                            self.large_change_is_wf(*old(self));
                            self.large_freed_evolved(*old(self), *cache, user);
                        }
                        Ok(())
                    },
                    Err(error) => Err(error),
                }
            },
        }
    }

    proof fn small_freed_evolved(
        self,
        before: Self,
        cache: ThreadCache,
        cache_before: ThreadCache,
        class: SizeClass,
        block: usize,
        owner: u32,
    )
        requires
            self.small_freed(cache, before, cache_before, class, block, owner),
            header::touches_only(
                self.bytes(),
                before.bytes(),
                before.stock(cache_before, class).insert(block),
            ),
        ensures
            self.evolved(cache, before, cache_before, Some(block)),
    {
        broadcast use vstd::multiset::group_multiset_axioms;

        let touched = before.stock(cache_before, class).insert(block);
        assert forall|at: usize| #[trigger] touched.count(at) > 0 implies before.may_change(
            cache_before,
            Some(block),
            at,
        ) by {
            if at != block {
                assert(before.stock(cache_before, class).count(at) > 0);
            }
        }
        self.memory_evolved(before, cache_before, Some(block), touched);
        assert forall|at: SizeClass, other: usize| #[trigger] self.stock(cache, at).count(other)
            > 0 implies before.stock(cache_before, at).count(other) > 0 || other
            >= before.frontier() || Some(block) == Some(other) by {
            if at != class {
                assert(self.pools().pool(at) == before.pools().pool(at));
                assert(cache.local(at) == cache_before.local(at));
                assert(cache.staged(at) == cache_before.staged(at));
            }
        }
        assert forall|at: SizeClass, region: Region|
            #![trigger self.pools().pool(at).registered(region)]
            #![trigger before.pools().pool(at).registered(region)]
            before.pools().pool(at).registered(region) implies self.pools().pool(at).registered(
            region,
        ) by {
            if at != class {
                assert(self.pools().pool(at) == before.pools().pool(at));
            }
        }
    }

    proof fn large_freed_evolved(self, before: Self, cache: ThreadCache, user: usize)
        requires
            before.wf(),
            before.registry().registry().live@.contains_key(user),
            self.large_freed(cache, before, cache, user),
        ensures
            self.evolved(cache, before, cache, Some((user - HEADER_SIZE) as usize)),
    {
        let freed = Some((user - HEADER_SIZE) as usize);
        header::touches_nothing(self.bytes());
        self.memory_evolved(before, cache, freed, Multiset::empty());
        assert forall|at: SizeClass, other: usize| #[trigger] self.stock(cache, at).count(other)
            > 0 implies before.stock(cache, at).count(other) > 0 by {
            assert(self.stock(cache, at) == before.stock(cache, at));
        }
        assert forall|other: usize| #[trigger] before.registry().registry().live@.contains_key(
            other,
        ) && freed != Some((other - HEADER_SIZE) as usize) implies other != user by {
        }
    }

    /// The routing fields that stand in front of `user`: in this allocator's own memory, or
    /// else `outside`.
    pub open spec fn header_of(self, user: usize, outside: Option<AllocationHeaderPrefix>) -> Option<
        AllocationHeaderPrefix,
    > {
        if self.bytes().covers(user - HEADER_SIZE, HEADER_SIZE as int) {
            AllocationHeaderPrefix::stored(self.bytes(), user - HEADER_SIZE)
        } else {
            outside
        }
    }

    /// What freeing the allocation at `user` gives, where `outside` is what stands in front of
    /// it if that is not this allocator's own memory.
    pub open spec fn own_free_outcome(
        self,
        user: usize,
        outside: Option<AllocationHeaderPrefix>,
        expected: Option<usize>,
    ) -> Result<(), FreeError> {
        let block = user - HEADER_SIZE;
        if user < HEADER_SIZE || block % HEADER_ALIGNMENT as int != 0 {
            Err(FreeError::CorruptHeader)
        } else {
            match self.header_of(user, outside) {
                None => Err(FreeError::CorruptHeader),
                Some(prefix) => self.free_outcome(user, prefix, expected),
            }
        }
    }

    /// The caller may free `user`: if nothing speaks against it and it is a small allocation,
    /// it is live.
    pub open spec fn may_free_own(
        self,
        cache: ThreadCache,
        user: usize,
        outside: Option<AllocationHeaderPrefix>,
        expected: Option<usize>,
    ) -> bool {
        self.header_of(user, outside) matches Some(prefix) ==> self.may_free(
            cache,
            user,
            prefix,
            expected,
        )
    }

    /// This allocator with `cache` is `before` with `cache_before` after the allocation at
    /// `user`, in front of which stands `outside` if that is not its own memory, was freed with
    /// `result`.
    pub open spec fn own_freed(
        self,
        cache: ThreadCache,
        before: Self,
        cache_before: ThreadCache,
        user: usize,
        outside: Option<AllocationHeaderPrefix>,
        result: Result<(), FreeError>,
    ) -> bool {
        match result {
            Err(_) => self == before && forall|class: SizeClass| #[trigger]
                cache.held(class) == cache_before.held(class),
            Ok(()) => match before.header_of(user, outside) {
                Some(prefix) => exists|bound: ThreadCache|
                    before.binds(bound, cache_before) && #[trigger] self.freed(
                        cache,
                        before,
                        bound,
                        user,
                        prefix,
                        result,
                    ),
                None => false,
            },
        }
    }

    /// `cache` is `cache_before` bound to this allocator.
    pub open spec fn binds(self, cache: ThreadCache, cache_before: ThreadCache) -> bool {
        &&& self.bound(cache)
        &&& cache.id() == cache_before.id()
        &&& cache_before.bound_to() == Some(self.number()) ==> cache == cache_before
        &&& cache_before.bound_to() != Some(self.number()) ==> cache.empty() && forall|
            class: SizeClass,
        | (#[trigger] cache.local(class)).slabs@.len() == 0
        &&& forall|class: SizeClass| #[trigger] cache.held(class) == cache_before.held(class)
    }

    /// Deallocates a previously allocated address using the provided cache.
    ///
    /// `outside` is what stands in the 64 bytes in front of `user`, `None` when they name no
    /// kind of allocation. It is looked at only where those bytes are not this allocator's own
    /// memory.
    ///
    /// # Errors
    ///
    /// Returns [`FreeError::CorruptHeader`] when the allocation header cannot be validated,
    /// [`FreeError::DoubleFree`] for a small block whose freed marker is intact,
    /// [`FreeError::ForeignPointer`] when a small block does not lie in this allocator's arena, and
    /// [`FreeError::AlreadyFreedOrUnknownLarge`] for unknown large frees.
    pub fn deallocate_with_cache(
        &mut self,
        cache: &mut ThreadCache,
        user: usize,
        outside: Option<AllocationHeaderPrefix>,
    ) -> (result: Result<(), FreeError>)
        requires
            old(self).wf(),
            old(self).serves(*old(cache)),
            old(self).pools().epochs_left(2),
            old(self).may_free_own(*old(cache), user, outside, None),
        ensures
            final(self).wf(),
            final(self).bound(*final(cache)),
            result == old(self).own_free_outcome(user, outside, None),
            final(self).own_freed(*final(cache), *old(self), *old(cache), user, outside, result),
            final(self).evolved(
                *final(cache),
                *old(self),
                *old(cache),
                if result is Ok {
                    Some((user - HEADER_SIZE) as usize)
                } else {
                    None
                },
            ),
            forall|class: SizeClass|
                #![trigger final(self).pools().pool(class)]
                old(self).pools().pool(class).epoch <= final(self).pools().pool(class).epoch <= old(self).pools().pool(class).epoch + 2,
    {
        self.deallocate_own(cache, user, outside, None)
    }

    /// Deallocates an address while validating the caller-provided allocation size.
    ///
    /// # Errors
    ///
    /// Returns [`FreeError::SizeMismatch`] when `expected_size` differs from the recorded
    /// header size, plus the same errors as [`Self::deallocate_with_cache`].
    pub fn deallocate_with_size_checked(
        &mut self,
        cache: &mut ThreadCache,
        user: usize,
        outside: Option<AllocationHeaderPrefix>,
        expected_size: usize,
    ) -> (result: Result<(), FreeError>)
        requires
            old(self).wf(),
            old(self).serves(*old(cache)),
            old(self).pools().epochs_left(2),
            old(self).may_free_own(*old(cache), user, outside, Some(expected_size)),
        ensures
            final(self).wf(),
            final(self).bound(*final(cache)),
            result == old(self).own_free_outcome(user, outside, Some(expected_size)),
            final(self).own_freed(*final(cache), *old(self), *old(cache), user, outside, result),
            final(self).evolved(
                *final(cache),
                *old(self),
                *old(cache),
                if result is Ok {
                    Some((user - HEADER_SIZE) as usize)
                } else {
                    None
                },
            ),
            forall|class: SizeClass|
                #![trigger final(self).pools().pool(class)]
                old(self).pools().pool(class).epoch <= final(self).pools().pool(class).epoch <= old(self).pools().pool(class).epoch + 2,
    {
        self.deallocate_own(cache, user, outside, Some(expected_size))
    }

    /// Frees the allocation at `user`, in front of which stands `outside` if that is not this
    /// allocator's own memory.
    fn deallocate_own(
        &mut self,
        cache: &mut ThreadCache,
        user: usize,
        outside: Option<AllocationHeaderPrefix>,
        expected_size: Option<usize>,
    ) -> (result: Result<(), FreeError>)
        requires
            old(self).wf(),
            old(self).serves(*old(cache)),
            old(self).pools().epochs_left(2),
            old(self).may_free_own(*old(cache), user, outside, expected_size),
        ensures
            final(self).wf(),
            final(self).bound(*final(cache)),
            result == old(self).own_free_outcome(user, outside, expected_size),
            final(self).own_freed(*final(cache), *old(self), *old(cache), user, outside, result),
            final(self).evolved(
                *final(cache),
                *old(self),
                *old(cache),
                if result is Ok {
                    Some((user - HEADER_SIZE) as usize)
                } else {
                    None
                },
            ),
            forall|class: SizeClass|
                #![trigger final(self).pools().pool(class)]
                old(self).pools().pool(class).epoch <= final(self).pools().pool(class).epoch <= old(self).pools().pool(class).epoch + 2,
    {
        cache.bind_to_allocator(self);
        let ghost bound = *cache;
        proof {
            self.rebound_evolved(bound, *old(cache));
            assert(self.binds(bound, *old(cache)));
        }
        if user < HEADER_SIZE || (user - HEADER_SIZE) % HEADER_ALIGNMENT != 0 {
            return Err(FreeError::CorruptHeader);
        }
        let prefix = if self.arena.memory().covers_range(user - HEADER_SIZE, HEADER_SIZE) {
            match AllocationHeader::read_from_user_ptr(self.arena.memory(), user) {
                Ok((prefix, _)) => prefix,
                Err(error) => {
                    return Err(error);
                },
            }
        } else {
            match outside {
                Some(prefix) => prefix,
                None => {
                    return Err(FreeError::CorruptHeader);
                },
            }
        };
        proof {
            assert forall|class: SizeClass| #[trigger] self.stock(bound, class) == self.stock(
                *old(cache),
                class,
            ) by {
                assert(bound.held(class) == old(cache).held(class));
            }
            assert(self.may_free(bound, user, prefix, expected_size)) by {
                if self.free_outcome(user, prefix, expected_size) is Ok {
                    if let Some(AllocationKind::Small(class)) = prefix.route() {
                        assert(self.lives(
                            *old(cache),
                            class,
                            (user - HEADER_SIZE) as usize,
                        ));
                        assert(self.stock(bound, class) == self.stock(*old(cache), class));
                    }
                }
            }
        }
        let result = self.deallocate_impl(cache, user, prefix, expected_size);
        proof {
            assert(self.freed(*cache, *old(self), bound, user, prefix, result));
            let freed = if result is Ok {
                Some((user - HEADER_SIZE) as usize)
            } else {
                None
            };
            self.rebased_evolved(*old(self), *cache, bound, *old(cache), freed);
        }
        result
    }

    /// A use that starts from a cache with the same blocks is a use of the other cache.
    proof fn rebased_evolved(
        self,
        before: Self,
        cache: ThreadCache,
        bound: ThreadCache,
        cache_before: ThreadCache,
        freed: Option<usize>,
    )
        requires
            self.evolved(cache, before, bound, freed),
            bound.id() == cache_before.id(),
            forall|class: SizeClass| #[trigger] bound.held(class) == cache_before.held(class),
        ensures
            self.evolved(cache, before, cache_before, freed),
    {
        assert forall|class: SizeClass| #[trigger] before.stock(bound, class) == before.stock(
            cache_before,
            class,
        ) by {
            assert(bound.held(class) == cache_before.held(class));
        }
        assert forall|block: usize| before.may_change(
            bound,
            freed,
            block,
        ) implies #[trigger] before.may_change(cache_before, freed, block) by {
            if before.stocks(bound, block) {
                let class = choose|class: SizeClass|
                    (#[trigger] before.stock(bound, class)).count(block) > 0;
                assert(before.stock(cache_before, class).count(block) > 0);
            }
        }
        assert forall|class: SizeClass, block: usize| #[trigger] self.stock(cache, class).count(
            block,
        ) > 0 implies before.stock(cache_before, class).count(block) > 0 || block
            >= before.frontier() || freed == Some(block) by {
            assert(before.stock(bound, class) == before.stock(cache_before, class));
        }
        assert forall|at: int| #[trigger]
            self.bytes().byte(at) != before.bytes().byte(at) && self.bytes().covers(
                at,
                1,
            ) implies exists|block: usize| #[trigger]
            before.may_change(cache_before, freed, block) && block <= at < block + HEADER_SIZE by {
            let block = choose|block: usize| #[trigger]
                before.may_change(bound, freed, block) && block <= at < block + HEADER_SIZE;
            assert(before.may_change(cache_before, freed, block));
        }
    }

    /// Different blocks of `class` fit into the address space.
    pub proof fn class_bytes_fit(self, class: SizeClass, held: Multiset<usize>)
        requires
            self.wf(),
            blocks::distinct(held),
            forall|block: usize| #[trigger]
                held.count(block) > 0 ==> self.pools().pool(class).knows(block),
        ensures
            held.len() * self.block_bytes(class) <= usize::MAX,
    {
        let pool = self.pools().pool(class);
        assert(pool.wf());
        assert forall|index: int| 0 <= index < pool.slabs@.len() implies (
        #[trigger] pool.slabs@[index]).block_size == self.block_bytes(class) by {
            assert(pool.registered(pool.slabs@[index].region()));
        }
        pool.known_bytes_fit(held, self.block_bytes(class));
    }

    /// `stats` counts what this allocator holds.
    pub open spec fn counted(self, stats: AllocatorStats) -> bool {
        &&& stats.arena_capacity == self.ground().total()
        &&& stats.arena_remaining == self.ground().total() - self.ground().used()
        &&& forall|class: SizeClass|
            #![trigger stats.small_central@[class.position()]]
            {
                let row = stats.small_central@[class.position()];
                &&& row.class == class
                &&& row.blocks == self.pools().pool(class).held().len()
                &&& row.bytes == self.pools().pool(class).held().len() * self.block_bytes(class)
            }
        &&& stats.large_live_allocations == self.registry().registry().live@.dom().len()
        &&& stats.large_live_bytes == self.registry().registry().live_bytes
        &&& stats.large_free_blocks == self.registry().registry().free_blocks
        &&& stats.large_free_bytes == self.registry().registry().free_bytes
    }

    /// Returns a snapshot of allocator-wide shared state.
    #[must_use]
    pub fn stats(&self) -> (stats: AllocatorStats)
        requires
            self.wf(),
        ensures
            self.counted(stats),
    {
        let central_counts: [usize; NUM_CLASSES] = self.central.block_counts();
        let mut small_central: [SizeClassStats; NUM_CLASSES] = [SizeClassStats {
            class: SizeClass::B64,
            blocks: 0,
            bytes: 0,
        };12];
        let mut index: usize = 0;
        while index < NUM_CLASSES
            invariant
                self.wf(),
                index <= NUM_CLASSES,
                forall|class: SizeClass|
                    #![trigger self.central.pool(class)]
                    central_counts@[class.position()] == self.central.pool(class).held().len(),
                forall|at: int|
                    0 <= at < index ==> {
                        let row = #[trigger] small_central@[at];
                        &&& row.class == SizeClass::ALL[at]
                        &&& row.blocks == central_counts@[at]
                        &&& row.bytes == central_counts@[at] * self.block_bytes(SizeClass::ALL[at])
                    },
            decreases NUM_CLASSES - index,
        {
            let class = SizeClass::ALL[index];
            let blocks: usize = central_counts[index];
            proof {
                assert(self.central.pool(class).wf());
                self.central.pool(class).held_facts();
                self.class_bytes_fit(class, self.central.pool(class).held());
                assert(central_counts@[class.position()] == self.central.pool(class).held().len());
            }
            let bytes: usize = blocks * self.config.class_block_size(class);
            small_central[index] = SizeClassStats { class, blocks, bytes };
            index = index + 1;
        }
        let large = self.large.stats();
        proof {
            assert forall|class: SizeClass|
                #![trigger small_central@[class.position()]]
                {
                    let row = small_central@[class.position()];
                    &&& row.class == class
                    &&& row.blocks == self.pools().pool(class).held().len()
                    &&& row.bytes == self.pools().pool(class).held().len() * self.block_bytes(class)
                } by {
                assert(central_counts@[class.position()] == self.central.pool(class).held().len());
            }
        }
        AllocatorStats {
            arena_capacity: self.arena.capacity(),
            arena_remaining: self.arena.remaining(),
            small_central,
            large_live_allocations: large.live_allocations,
            large_live_bytes: large.live_bytes,
            large_free_blocks: large.free_blocks,
            large_free_bytes: large.free_bytes,
        }
    }

    /// Returns all blocks of `cache` to the central pool.
    pub fn drain_thread_cache(&mut self, cache: &mut ThreadCache)
        requires
            old(self).wf(),
            old(self).serves(*old(cache)),
            forall|class: SizeClass|
                #![trigger old(self).pools().pool(class)]
                old(self).pools().pool(class).epoch + 2 * old(cache).local(class).total_len
                    <= u64::MAX,
        ensures
            final(self).wf(),
            final(self).serves(*final(cache)),
            final(cache).empty(),
            final(cache).bound_to() == old(cache).bound_to(),
            final(self).registry() == old(self).registry(),
            final(self).frontier() == old(self).frontier(),
            forall|class: SizeClass|
                #![trigger final(self).pools().pool(class)]
                final(self).pools().pool(class).held() == old(self).pools().pool(class).held().add(
                    old(cache).held(class),
                ),
            forall|class: SizeClass|
                #![trigger final(self).pools().pool(class)]
                old(self).pools().pool(class).epoch <= final(self).pools().pool(class).epoch <= old(self).pools().pool(class).epoch + 2 * old(cache).local(class).total_len,
            final(self).evolved(*final(cache), *old(self), *old(cache), None),
            header::changes_close(final(self).bytes(), old(self).bytes()),
    {
        broadcast use vstd::multiset::group_multiset_axioms;

        if cache.is_empty() {
            proof {
                assert forall|class: SizeClass|
                    #![trigger self.pools().pool(class)]
                    self.pools().pool(class).held() == self.pools().pool(class).held().add(
                        cache.held(class),
                    ) by {
                    cache.class_is_wf(class);
                    assert(cache.local(class).total_len == 0);
                    blocks::blocks_of(cache.staged(class));
                    assert(self.pools().pool(class).held() =~= self.pools().pool(class).held().add(
                        cache.held(class),
                    ));
                }
                self.unchanged_evolved();
                assert(self.evolved(*cache, *self, *cache, None));
                header::closes_nothing(self.bytes());
            }
            return;
        }
        cache.drain_all_to_central(&mut self.central, self.arena.memory_mut());
        proof {
            self.drained_all(*old(self), *cache, *old(cache));
        }
    }

    proof fn drained_all(self, before: Self, cache: ThreadCache, cache_before: ThreadCache)
        requires
            before.wf(),
            before.bound(cache_before),
            self.id == before.id,
            self.config == before.config,
            self.large == before.large,
            self.extents == before.extents,
            self.arena.origin() == before.arena.origin(),
            self.arena.total() == before.arena.total(),
            self.arena.used() == before.arena.used(),
            self.arena.step() == before.arena.step(),
            cache.in_step(self.central, self.arena.bytes()),
            cache.settings() == cache_before.settings(),
            cache.bound_to() == cache_before.bound_to(),
            cache.id() == cache_before.id(),
            forall|class: SizeClass|
                #![trigger cache.local(class)]
                #![trigger self.central.pool(class)]
                cache.emptied(self.central, cache_before, before.central, class),
            header::touches_only(
                self.arena.bytes(),
                before.arena.bytes(),
                cache_before.everything(before.central),
            ),
        ensures
            self.wf(),
            self.serves(cache),
            self.evolved(cache, before, cache_before, None),
            forall|class: SizeClass|
                #![trigger self.pools().pool(class)]
                self.pools().pool(class).held() == before.pools().pool(class).held().add(
                    cache_before.held(class),
                ),
    {
        broadcast use vstd::multiset::group_multiset_axioms;

        assert forall|at: SizeClass, region: Region|
            #![trigger self.pools().pool(at).registered(region)]
            #![trigger before.pools().pool(at).registered(region)]
            self.pools().pool(at).registered(region) == before.pools().pool(at).registered(region) by {
            assert(cache.emptied(self.central, cache_before, before.central, at)) by {
                assert(self.central.pool(at) == self.central.pool(at));
            }
            self.central.pool(at).slabs_are_kept(before.central.pool(at));
        }
        assert(self.reservations_are_apart());
        assert(self.slabs_are_reserved());
        assert(self.large_blocks_are_reserved()) by {
            assert forall|user: usize| #[trigger] self.registry().registry().live@.contains_key(
                user,
            ) implies self.large_is_reserved(
                self.registry().registry().live@[user].block_addr as int,
                self.registry().registry().live@[user].block_size as int,
            ) by {
                assert(before.registry().registry().live@.contains_key(user));
            }
            assert forall|block: FreeLargeBlock| #[trigger] self.registry().registry().has_free(
                block,
            ) implies self.large_is_reserved(block.block_addr as int, block.block_size as int) by {
                assert(before.registry().registry().has_free(block));
            }
        }
        cache_before.everything_is_all_classes(before.central, NUM_CLASSES as nat);
        let all = cache_before.everything(before.central);
        assert forall|block: usize| #[trigger] all.count(block) > 0 implies before.may_change(
            cache_before,
            None,
            block,
        ) by {
            let class = choose|class: SizeClass|
                class.position() < NUM_CLASSES && (#[trigger] cache_before.stock(
                    before.central,
                    class,
                )).count(block) > 0;
            assert(before.stock(cache_before, class).count(block) > 0);
        }
        self.memory_evolved(before, cache_before, None, all);
        assert forall|class: SizeClass, block: usize| #[trigger] self.stock(cache, class).count(
            block,
        ) > 0 implies before.stock(cache_before, class).count(block) > 0 by {
            assert(cache.emptied(self.central, cache_before, before.central, class)) by {
                assert(self.central.pool(class) == self.central.pool(class));
            }
            cache.class_is_wf(class);
            blocks::blocks_of(cache.staged(class));
            assert(cache.held(class).count(block) == 0);
        }
    }

    /// Moves blocks of `class` from the central pool into `cache`, and returns their number.
    pub fn refill_thread_cache_from_central_for_test(
        &mut self,
        cache: &mut ThreadCache,
        class: SizeClass,
    ) -> (moved: usize)
        requires
            old(self).wf(),
            old(self).serves(*old(cache)),
            old(self).pools().epochs_left(2),
        ensures
            final(self).wf(),
            final(self).bound(*final(cache)),
            final(self).registry() == old(self).registry(),
            final(self).ground().same_layout(old(self).ground()),
            final(self).frontier() == old(self).frontier(),
            header::changes(
                final(self).bytes(),
                old(self).bytes(),
                Multiset::empty(),
                old(self).pools().pool(class).held(),
            ),
            final(self).stock(*final(cache), class) == old(self).stock(*old(cache), class),
            final(cache).local(class).total_len == old(cache).local(class).total_len + moved,
            exists|refill: CentralRefill| #[trigger]
                old(self).gives(class, refill) && moved == refill.held().len() && old(self).pools().pool(class).held() == final(self).pools().pool(class).held().add(refill.held()),
    {
        cache.bind_to_allocator(self);
        let ghost bound = *cache;
        proof {
            assert(self.pools().pool(class).epoch + 2 <= u64::MAX);
            assert(bound.held(class) == old(cache).held(class));
            assert(bound.local(class).total_len == old(cache).local(class).total_len);
        }
        let moved: usize = cache.refill_from_central(
            class,
            &mut self.central,
            self.arena.memory_mut(),
        );
        proof {
            self.pool_change_is_wf(*old(self), class);
            let refill = choose|refill: CentralRefill| #[trigger]
                cache.refilled(bound, class, refill) && class_pool::gives(
                    old(self).central.pool(class),
                    bound.settings().refill_blocks(class),
                    refill,
                ) && moved == refill.held().len() && old(self).central.pool(class).held()
                    == self.central.pool(class).held().add(refill.held());
            assert(old(self).gives(class, refill));
        }
        moved
    }

    /// Returns the number of blocks of `class` in the central pool.
    #[must_use]
    pub fn central_block_count_for_test(&self, class: SizeClass) -> (count: usize)
        requires
            self.wf(),
        ensures
            count == self.pools().pool(class).held().len(),
    {
        let counts: [usize; NUM_CLASSES] = self.central.block_counts();
        counts[class.index()]
    }

    /// Declares the slab of `class` that became full last idle and its pages given back.
    pub fn force_first_full_hot_slab_to_cold_for_test(&mut self, class: SizeClass) -> (cooled: bool)
        requires
            old(self).wf(),
        ensures
            final(self).wf(),
            final(self).registry() == old(self).registry(),
            final(self).ground() == old(self).ground(),
            final(self).pools().same_but(old(self).pools(), class),
            final(self).pools().pool(class).held() == old(self).pools().pool(class).held(),
            final(self).pools().pool(class).same_slabs(old(self).pools().pool(class)),
            final(self).pools().pool(class).forced_cold(old(self).pools().pool(class), cooled),
            forall|cache: ThreadCache|
                #![trigger final(self).bound(cache)]
                #![trigger old(self).bound(cache)]
                old(self).bound(cache) ==> final(self).bound(cache),
    {
        proof {
            assert(self.pools().pool(class).wf());
            assert(self.pools().pool(class).ready(self.bytes(), class));
        }
        let cooled: bool = self.central.force_first_full_hot_to_cold_for_test(class);
        proof {
            self.quiet_pool_change(*old(self), class);
        }
        cooled
    }

    /// Takes the first request to give back the pages of an idle slab of `class` whose slab is
    /// still idle, and drops those before it.
    ///
    /// The pages lie inside a slab none of whose blocks is in use. Carry the request out, and
    /// report the outcome with [`Self::complete_sweep`], before using the allocator again.
    #[must_use]
    pub fn take_sweep_request(&mut self, class: SizeClass) -> (request: Option<SweepRequest>)
        requires
            old(self).wf(),
        ensures
            final(self).wf(),
            final(self).registry() == old(self).registry(),
            final(self).ground() == old(self).ground(),
            final(self).pools().same_but(old(self).pools(), class),
            final(self).pools().pool(class).handed_over(old(self).pools().pool(class), request),
            request matches Some(pages) ==> exists|index: int| #[trigger]
                final(self).pools().pool(class).idle_slab(index, pages),
            forall|cache: ThreadCache|
                #![trigger final(self).bound(cache)]
                #![trigger old(self).bound(cache)]
                old(self).bound(cache) ==> final(self).bound(cache),
            final(self).only_looked_after(*old(self)),
    {
        proof {
            assert(self.pools().pool(class).wf());
            assert(self.pools().pool(class).ready(self.bytes(), class));
        }
        let request = self.central.take_sweep_request(class);
        proof {
            self.quiet_pool_change(*old(self), class);
            self.looked_after(*old(self), class);
            if let Some(pages) = request {
                let index = choose|index: int| #[trigger]
                    old(self).pools().pool(class).idle_slab(index, pages);
                assert(self.pools().pool(class).idle_slab(index, pages));
            }
        }
        request
    }

    /// Records whether the system took the pages of the slab of `class` at `slab_start`.
    pub fn complete_sweep(&mut self, class: SizeClass, slab_start: usize, advised: bool) -> (cooled:
        bool)
        requires
            old(self).wf(),
        ensures
            final(self).wf(),
            final(self).registry() == old(self).registry(),
            final(self).ground() == old(self).ground(),
            final(self).pools().same_but(old(self).pools(), class),
            final(self).pools().pool(class).held() == old(self).pools().pool(class).held(),
            cooled == (advised && exists|index: int|
                0 <= index < old(self).pools().pool(class).slabs@.len() && (#[trigger] old(self).pools().pool(class).slabs@[index]).start == slab_start && old(self).pools().pool(
                    class,
                ).slabs@[index].sweepable(old(self).pools().pool(class).epoch)),
            !cooled ==> final(self).pools().pool(class) == old(self).pools().pool(class),
            cooled ==> final(self).pools().pool(class).cooled_down(
                old(self).pools().pool(class),
                slab_start,
            ),
            forall|cache: ThreadCache|
                #![trigger final(self).bound(cache)]
                #![trigger old(self).bound(cache)]
                old(self).bound(cache) ==> final(self).bound(cache),
            final(self).only_looked_after(*old(self)),
    {
        proof {
            assert(self.pools().pool(class).wf());
            assert(self.pools().pool(class).ready(self.bytes(), class));
        }
        let cooled: bool = self.central.complete_sweep(class, slab_start, advised);
        proof {
            self.quiet_pool_change(*old(self), class);
            self.looked_after(*old(self), class);
        }
        cooled
    }

    /// A step between two uses of `before` that moves no block: with any cache, it is what a
    /// use allows, and it takes no change of the counters.
    pub open spec fn only_looked_after(self, before: Self) -> bool {
        &&& forall|cache: ThreadCache| #[trigger] self.evolved(cache, before, cache, None)
        &&& forall|class: SizeClass|
            #![trigger self.pools().pool(class)]
            self.pools().pool(class).epoch == before.pools().pool(class).epoch
    }

    proof fn looked_after(self, before: Self, class: SizeClass)
        requires
            self.number() == before.number(),
            self.settings() == before.settings(),
            self.registry() == before.registry(),
            self.ground() == before.ground(),
            self.pools().same_but(before.pools(), class),
            self.pools().pool(class).same_slabs(before.pools().pool(class)),
            self.pools().pool(class).held() == before.pools().pool(class).held(),
            self.pools().pool(class).epoch == before.pools().pool(class).epoch,
        ensures
            self.only_looked_after(before),
    {
        assert forall|cache: ThreadCache| #[trigger] self.evolved(cache, before, cache, None) by {
            assert forall|at: SizeClass, region: Region|
                #![trigger self.pools().pool(at).registered(region)]
                #![trigger before.pools().pool(at).registered(region)]
                before.pools().pool(at).registered(region) implies self.pools().pool(
                at,
            ).registered(region) by {
                if at == class {
                    let index = choose|index: int|
                        0 <= index < before.pools().pool(at).slabs@.len() && (
                        #[trigger] before.pools().pool(at).slabs@[index]).region() == region;
                    assert(self.pools().pool(at).slabs@[index].region() == region);
                } else {
                    assert(self.pools().pool(at) == before.pools().pool(at));
                }
            }
            assert forall|at: SizeClass, block: usize| #[trigger] self.stock(cache, at).count(
                block,
            ) > 0 implies before.stock(cache, at).count(block) > 0 by {
                if at != class {
                    assert(self.pools().pool(at) == before.pools().pool(at));
                }
            }
        }
        assert forall|at: SizeClass|
            #![trigger self.pools().pool(at)]
            self.pools().pool(at).epoch == before.pools().pool(at).epoch by {
            if at != class {
                assert(self.pools().pool(at) == before.pools().pool(at));
            }
        }
    }

    /// The byte at `address` belongs to no header of a block in the central pool.
    pub open spec fn writable(self, address: int) -> bool {
        &&& self.bytes().covers(address, 1)
        &&& forall|class: SizeClass, block: usize|
            (#[trigger] self.pools().pool(class).held().count(block)) > 0 ==> !(block <= address
                < block + HEADER_SIZE)
    }

    /// Stores one byte through an address inside the arena, as a user of an allocation does.
    pub fn write_byte(&mut self, address: usize, byte: u8)
        requires
            old(self).wf(),
            old(self).writable(address as int),
        ensures
            final(self).wf(),
            final(self).number() == old(self).number(),
            final(self).settings() == old(self).settings(),
            final(self).registry() == old(self).registry(),
            final(self).pools() == old(self).pools(),
            final(self).ground().same_layout(old(self).ground()),
            final(self).frontier() == old(self).frontier(),
            final(self).bytes().byte(address as int) == byte,
            final(self).bytes().same_outside(old(self).bytes(), address as int, 1),
            forall|cache: ThreadCache|
                #![trigger final(self).bound(cache)]
                #![trigger old(self).bound(cache)]
                old(self).bound(cache) && (forall|class: SizeClass, block: usize|
                    (#[trigger] cache.held(class).count(block)) > 0 ==> !(block <= address < block
                        + HEADER_SIZE)) ==> final(self).bound(cache),
    {
        self.arena.memory_mut().write_byte(address, byte);
        proof {
            self.byte_write_is_wf(*old(self), address as int);
        }
    }

    proof fn byte_write_is_wf(self, before: Self, address: int)
        requires
            before.wf(),
            before.writable(address),
            self.id == before.id,
            self.config == before.config,
            self.large == before.large,
            self.extents == before.extents,
            self.central == before.central,
            self.arena.origin() == before.arena.origin(),
            self.arena.total() == before.arena.total(),
            self.arena.used() == before.arena.used(),
            self.arena.step() == before.arena.step(),
            self.bytes().wf(),
            self.bytes().same_outside(before.bytes(), address, 1),
        ensures
            self.wf(),
            forall|cache: ThreadCache|
                #![trigger self.bound(cache)]
                #![trigger before.bound(cache)]
                before.bound(cache) && (forall|class: SizeClass, block: usize|
                    (#[trigger] cache.held(class).count(block)) > 0 ==> !(block <= address < block
                        + HEADER_SIZE)) ==> self.bound(cache),
    {
        broadcast use vstd::multiset::group_multiset_axioms;

        let central = before.pools();
        assert(central.slabs_fit(self.bytes())) by {
            assert forall|at: SizeClass, region: Region| #[trigger] central.pool(at).registered(
                region,
            ) implies local_slab::region_fits(self.bytes(), region) by {
                assert(local_slab::region_fits(before.bytes(), region));
            }
        }
        assert forall|at: SizeClass| #[trigger] central.pool(at).ready(self.bytes(), at) by {
            let pool = central.pool(at);
            assert(central.pool(at).wf());
            central.known_blocks_fit(before.bytes(), at);
            pool.held_facts();
            assert(pool.ready(before.bytes(), at));
            assert forall|block: usize| pool.held().count(block) > 0 && header::prepared(
                before.bytes(),
                block as int,
                at,
            ) implies #[trigger] header::prepared(self.bytes(), block as int, at) by {
                assert(header::header_fits(before.bytes(), block as int));
                header::header_is_framed(self.bytes(), before.bytes(), block as int, address, 1);
            }
            assert forall|index: int, block: usize|
                0 <= index < pool.slabs@.len() && #[trigger] pool.slabs@[index].partial_free.held().count(
                    block,
                ) > 0 implies header::prepared(self.bytes(), block as int, at)
                && pool.held().count(block) > 0 by {
                assert(pool.slabs@[index].wf());
                blocks::blocks_of(pool.slabs@[index].partial_free@);
                assert(pool.slabs@[index].held().count(block) > 0);
                assert(pool.held().count(block) > 0);
            }
            free_list::chain_survives_byte(
                pool.inbox@,
                self.bytes(),
                before.bytes(),
                address,
            );
            assert forall|index: int| 0 <= index < pool.slabs@.len() implies (
            #[trigger] pool.slabs@[index]).partial_free.linked(self.bytes()) by {
                assert forall|block: usize| #[trigger] pool.slabs@[index].partial_free.held().count(
                    block,
                ) > 0 implies !(block <= address < block + 64) by {
                    assert(pool.held().count(block) > 0);
                }
                free_list::chain_survives_byte(
                    pool.slabs@[index].partial_free@,
                    self.bytes(),
                    before.bytes(),
                    address,
                );
            }
            assert forall|block: usize| #[trigger] pool.inbox.held().count(
                block,
            ) > 0 implies header::prepared(self.bytes(), block as int, at) by {
                assert(pool.held().count(block) > 0);
            }
        }
        assert(self.central.in_step(self.bytes()));
        self.pool_change_is_wf(before, SizeClass::B64);
        assert forall|cache: ThreadCache|
            #![trigger self.bound(cache)]
            #![trigger before.bound(cache)]
            before.bound(cache) && (forall|class: SizeClass, block: usize|
                (#[trigger] cache.held(class).count(block)) > 0 ==> !(block <= address < block
                    + HEADER_SIZE)) implies self.bound(cache) by {
            cache.ready_after_byte(central, self.bytes(), before.bytes(), address);
        }
    }

    /// A change of one class pool that keeps its slabs and blocks leaves everything in step.
    proof fn quiet_pool_change(self, before: Self, class: SizeClass)
        requires
            before.wf(),
            self.id == before.id,
            self.config == before.config,
            self.large == before.large,
            self.extents == before.extents,
            self.arena == before.arena,
            self.central.same_but(before.central, class),
            self.central.pool(class).wf(),
            self.central.pool(class).same_slabs(before.central.pool(class)),
            self.central.pool(class).held() == before.central.pool(class).held(),
            self.central.pool(class).ready(self.bytes(), class),
        ensures
            self.wf(),
            forall|cache: ThreadCache|
                #![trigger self.bound(cache)]
                #![trigger before.bound(cache)]
                before.bound(cache) ==> self.bound(cache),
    {
        let (now, earlier) = (self.central.pool(class), before.central.pool(class));
        now.slabs_are_kept(earlier);
        assert forall|at: SizeClass, block: usize|
            #![trigger self.central.pool(at).knows(block)]
            #![trigger before.central.pool(at).knows(block)]
            self.central.pool(at).knows(block) == before.central.pool(at).knows(block) by {
            if at != class {
                assert(self.central.pool(at) == before.central.pool(at));
            }
        }
        assert(self.central.in_step(self.bytes())) by {
            assert forall|at: SizeClass| #[trigger] self.central.pool(at).wf() by {
                assert(before.central.pool(at).wf());
            }
            assert forall|one: SizeClass, other: SizeClass, block: usize|
                one != other && #[trigger] self.central.pool(one).knows(block) implies !(
            #[trigger] self.central.pool(other).knows(block)) by {
                assert(before.central.pool(one).knows(block));
                assert(before.central.pool(other).knows(block)
                    == self.central.pool(other).knows(block));
            }
            assert forall|at: SizeClass, region: Region| #[trigger] self.central.pool(
                at,
            ).registered(region) implies local_slab::region_fits(self.bytes(), region) by {
                assert(before.central.pool(at).registered(region));
            }
            assert forall|at: SizeClass| #[trigger] self.central.pool(at).ready(self.bytes(), at) by {
                assert(before.central.pool(at).ready(self.bytes(), at));
            }
        }
        self.pool_change_is_wf(before, class);
        assert forall|cache: ThreadCache|
            #![trigger self.bound(cache)]
            #![trigger before.bound(cache)]
            before.bound(cache) implies self.bound(cache) by {
            assert(cache.fits(self.central)) by {
                assert forall|at: SizeClass|
                    #![trigger cache.local(at)]
                    thread_cache::class_fits(
                        cache.local(at),
                        cache.staged(at).to_multiset(),
                        self.central.pool(at),
                    ) by {
                    let staged = cache.staged(at).to_multiset();
                    assert(thread_cache::class_fits(
                        cache.local(at),
                        staged,
                        before.central.pool(at),
                    ));
                    assert forall|region: Region| #[trigger] cache.local(at).owns(
                        region,
                    ) implies self.central.pool(at).registered(region) by {
                        assert(before.central.pool(at).registered(region));
                    }
                    assert forall|block: usize| #[trigger] cache.local(at).held().add(staged).count(
                        block,
                    ) > 0 implies self.central.pool(at).knows(block) by {
                        assert(before.central.pool(at).knows(block));
                    }
                    if at != class {
                        assert(self.central.pool(at) == before.central.pool(at));
                    }
                }
            }
        }
    }
}

fn validate_allocator_config(config: &AllocatorConfig) -> (result: Result<(), InitError>)
    ensures
        match result {
            Ok(()) => config.alignment >= HEADER_ALIGNMENT,
            Err(error) => config.alignment < HEADER_ALIGNMENT && (
            error matches InitError::InvalidConfig(text) && text
                == "allocator alignment must be at least 64 bytes"),
        },
{
    if config.alignment < HEADER_ALIGNMENT {
        return Err(InitError::InvalidConfig("allocator alignment must be at least 64 bytes"));
    }
    Ok(())
}

/// Stores the routing fields of free small blocks at all `blocks` blocks of a slab.
fn initialize_small_span_headers(
    memory: &mut Memory,
    span_start: usize,
    block_size: usize,
    blocks: usize,
    class: SizeClass,
)
    requires
        class_cache::slab_region(span_start, block_size, blocks).valid(),
        local_slab::region_fits(
            *old(memory),
            class_cache::slab_region(span_start, block_size, blocks),
        ),
    ensures
        final(memory).wf(),
        header::touches_only(
            *final(memory),
            *old(memory),
            class_cache::slab_region(span_start, block_size, blocks).all(),
        ),
        forall|block: usize| #[trigger]
            class_cache::slab_region(span_start, block_size, blocks).all().count(block) > 0
                ==> AllocationHeader::small(class, 0, 0).is_at(*final(memory), block as int),
{
    let ghost region = class_cache::slab_region(span_start, block_size, blocks);
    proof {
        header::touches_nothing(*memory);
        header::touches_widen(*memory, *memory, Multiset::empty(), region.all());
        region.tail_counts(0);
    }
    let mut index: usize = 0;
    while index < blocks
        invariant
            index <= blocks,
            region == class_cache::slab_region(span_start, block_size, blocks),
            region.valid(),
            local_slab::region_fits(*old(memory), region),
            memory.wf(),
            memory.same_place(*old(memory)),
            header::touches_only(*memory, *old(memory), region.all()),
            forall|block: usize| #[trigger]
                region.all().count(block) == if region.has(block as int) && block >= region.block(0) {
                    1nat
                } else {
                    0nat
                },
            forall|block: usize|
                #[trigger] region.all().count(block) > 0 && block < region.block(index as int)
                    ==> AllocationHeader::small(class, 0, 0).is_at(*memory, block as int),
        decreases blocks - index,
    {
        proof {
            region.block_is_inside(index as int);
            region.block_is_inside(0);
            if index > 0 {
                region.blocks_ascend(0, index as int);
            }
        }
        let ghost earlier = *memory;
        let block_start: usize = span_start + block_size * index;
        AllocationHeader::initialize_small_to_block_unchecked(memory, block_start, class);
        proof {
            broadcast use vstd::multiset::group_multiset_axioms;

            let one = Multiset::singleton(block_start);
            header::touches_one(*memory, earlier, block_start, block_start as int, 64);
            header::touches_compose(*old(memory), earlier, *memory, region.all(), one);
            assert(region.all().count(block_start) > 0);
            header::touches_widen(*memory, *old(memory), region.all().add(one), region.all());
            assert forall|block: usize| #[trigger]
                region.all().count(block) > 0 && block < region.block(index + 1) implies AllocationHeader::small(
                class,
                0,
                0,
            ).is_at(*memory, block as int) by {
                if block != block_start {
                    region.blocks_do_not_overlap(block as int, block_start as int);
                    if block > block_start {
                        assert(region.block(index + 1) == region.block(index as int)
                            + region.block_size) by {
                            assert(block_size * (index + 1) == block_size * index + block_size)
                                by (nonlinear_arith);
                        }
                    }
                    assert(header::header_fits(*old(memory), block as int));
                }
            }
        }
        index = index + 1;
    }
    proof {
        assert forall|block: usize| #[trigger] region.all().count(block) > 0 implies AllocationHeader::small(
            class,
            0,
            0,
        ).is_at(*memory, block as int) by {
            let at = region.position_of(block as int);
            region.blocks_ascend(at, blocks as int);
        }
    }
}

/// The caller expects another size than the header records.
pub open spec fn size_differs(prefix: AllocationHeaderPrefix, expected: Option<usize>) -> bool {
    expected matches Some(size) && size != prefix.requested_size
}

/// The error for a size other than the recorded one.
pub open spec fn size_mismatch(prefix: AllocationHeaderPrefix, expected: Option<usize>) -> FreeError {
    FreeError::SizeMismatch { provided: expected->0, recorded: prefix.requested_size as usize }
}

/// Validates the address of a header and its routing fields.
///
/// # Errors
///
/// Returns [`FreeError::CorruptHeader`] when the address cannot be that of an allocation or
/// the fields are inconsistent.
fn decode_header(user: usize, prefix: AllocationHeaderPrefix) -> (result: Result<
    AllocationKind,
    FreeError,
>)
    ensures
        result == if user < HEADER_SIZE || (user - HEADER_SIZE) % HEADER_ALIGNMENT as int != 0 {
            Err::<AllocationKind, FreeError>(FreeError::CorruptHeader)
        } else {
            match prefix.route() {
                Some(kind) => Ok(kind),
                None => Err(FreeError::CorruptHeader),
            }
        },
{
    if user < HEADER_SIZE {
        return Err(FreeError::CorruptHeader);
    }
    if (user - HEADER_SIZE) % HEADER_ALIGNMENT != 0 {
        return Err(FreeError::CorruptHeader);
    }
    validate_prefix(prefix)
}

/// A stored prefix that routes to a small class is that of a small block.
proof fn prefix_is_prepared(
    memory: Memory,
    block: int,
    prefix: AllocationHeaderPrefix,
    class: SizeClass,
)
    requires
        AllocationHeaderPrefix::stored(memory, block) == Some(prefix),
        prefix.route() == Some(AllocationKind::Small(class)),
    ensures
        header::prepared(memory, block, class),
        memory.word(block + 16) == prefix.owner_cache_id,
{
    assert(0 <= memory.word(block) <= u32::MAX);
    assert(0 <= memory.word(block + 12) <= u32::MAX);
    assert(0 <= memory.word(block + 16) <= u32::MAX);
}

} // verus!
