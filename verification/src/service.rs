use vstd::multiset::Multiset;
use vstd::prelude::*;

use crate::align;
use crate::allocator::Allocator;
use crate::api;
use crate::arena;
use crate::blocks;
use crate::class_cache;
use crate::class_cache::LocalClassCache;
use crate::class_pool;
use crate::class_pool::{CentralRefill, ClassPool};
use crate::error::{AllocError, FreeError};
use crate::header;
use crate::header::{AllocationHeaderPrefix, AllocationKind, HEADER_SIZE};
use crate::large_object;
use crate::large_object::FreeLargeBlock;
use crate::laws;
use crate::size_class::SizeClass;
use crate::stats::{AllocatorStats, ThreadCacheStats};
use crate::thread_cache::ThreadCache;

verus! {

/// Law: a large request is served whenever the arena has room for it: at some aligned offset
/// behind everything reserved, for the request with its header, rounded up to the alignment.
pub proof fn large_request_with_room_is_served(
    before: Allocator,
    cache: ThreadCache,
    after: Allocator,
    cache_after: ThreadCache,
    size: usize,
    offset: int,
    need: int,
    result: Result<usize, AllocError>,
)
    requires
        before.wf(),
        api::requested(before, cache, after, cache_after, size, result),
        16_777_216 < size,
        size + 64 <= need <= u32::MAX + 64,
        need % before.settings().alignment as int == 0,
        before.ground().used() <= offset,
        offset % before.settings().alignment as int == 0,
        offset + need <= before.ground().total(),
    ensures
        result is Ok,
{
    let ground = before.ground();
    let registry = before.registry().registry();
    let exact = before.large_bytes(size as int);
    align::rounded_up_is_least_multiple(size + HEADER_SIZE, before.settings().alignment as int);
    align::rounded_up_is_least_multiple(ground.used(), ground.step());
    if result is Err {
        if before.reuses(size as int) {
            let found = choose|found: usize| #[trigger]
                registry.free@.contains_key(found) && found >= exact;
            freed_block_is_chosen(before, size, found);
        } else {
            assert(before.large_choice(
                size as int,
                ground.origin() + ground.next_offset(),
                exact,
            ));
        }
    }
}

/// A reusable block that is large enough is chosen, or one that fits better, and a header can
/// record it.
proof fn freed_block_is_chosen(before: Allocator, size: usize, found: usize) -> (chosen: usize)
    requires
        before.wf(),
        0 < size,
        before.registry().registry().free@.contains_key(found),
        before.large_bytes(size as int) <= found,
    ensures
        before.reuses(size as int),
        before.large_choice(
            size as int,
            before.registry().registry().free@[chosen]@.last().block_addr as int,
            chosen as int,
        ),
        header::large_fields_fit(size as int, chosen - HEADER_SIZE),
        chosen <= found,
{
    let registry = before.registry().registry();
    let exact = before.large_bytes(size as int);
    align::rounded_up_is_least_multiple(size + HEADER_SIZE, before.settings().alignment as int);
    let chosen = laws::smallest_fit(registry, exact as usize, found);
    let bucket = registry.free@[chosen]@;
    let block = bucket[bucket.len() - 1];
    assert(bucket.contains(block));
    assert(registry.has_free(block));
    chosen
}

/// Law: a large request that a freed block can hold is served without new memory of the arena,
/// by a freed block, and by none that is larger than another that would do.
pub proof fn large_request_takes_the_best_freed_block(
    before: Allocator,
    cache: ThreadCache,
    after: Allocator,
    cache_after: ThreadCache,
    size: usize,
    need: int,
    block: FreeLargeBlock,
    result: Result<usize, AllocError>,
)
    requires
        before.wf(),
        api::requested(before, cache, after, cache_after, size, result),
        16_777_216 < size,
        size + 64 <= need,
        need % before.settings().alignment as int == 0,
        need <= block.block_size,
        before.registry().registry().has_free(block),
    ensures
        result matches Ok(user) && {
            let record = after.registry().registry().live@[user];
            &&& size + 64 <= record.block_size <= block.block_size
            &&& before.registry().registry().has_free(
                FreeLargeBlock { block_addr: record.block_addr, block_size: record.block_size },
            )
            &&& record.block_addr + 64 == user
        },
        after.frontier() == before.frontier(),
{
    let registry = before.registry().registry();
    let exact = before.large_bytes(size as int);
    align::rounded_up_is_least_multiple(size + HEADER_SIZE, before.settings().alignment as int);
    let chosen = freed_block_is_chosen(before, size, block.block_size);
    if let Ok(user) = result {
        let record = after.registry().registry().live@[user];
        let bucket = registry.free@[record.block_size]@;
        assert(registry.best_fit(exact as usize, record.block_size));
        let taken = bucket[bucket.len() - 1];
        assert(bucket.contains(taken));
        assert(registry.has_free(taken));
    }
}

/// Law: a large request that no freed block can hold takes its block from the arena, at the
/// next aligned offset, and of no more than the request with its header, rounded up.
pub proof fn large_request_takes_no_more_than_it_needs(
    before: Allocator,
    cache: ThreadCache,
    after: Allocator,
    cache_after: ThreadCache,
    size: usize,
    user: usize,
)
    requires
        before.wf(),
        api::requested(before, cache, after, cache_after, size, Ok(user)),
        16_777_216 < size,
        forall|block: FreeLargeBlock| #[trigger]
            before.registry().registry().has_free(block) ==> block.block_size < size + 64,
    ensures
        before.frontier() <= user - 64 < before.frontier() + before.settings().alignment,
        user + size <= after.frontier() < user + size + before.settings().alignment,
{
    let ground = before.ground();
    let registry = before.registry().registry();
    align::rounded_up_is_least_multiple(size + HEADER_SIZE, before.settings().alignment as int);
    align::rounded_up_is_least_multiple(ground.used(), ground.step());
    if before.reuses(size as int) {
        let found = choose|found: usize| #[trigger]
            registry.free@.contains_key(found) && found >= before.large_bytes(size as int);
        let bucket = registry.free@[found]@;
        let held = bucket[bucket.len() - 1];
        assert(bucket.contains(held));
        assert(registry.has_free(held));
    }
}

/// Law: a request fails only for the lack of memory, and the error names the requested bytes
/// and the bytes that the arena has not reserved; an empty request is refused as such.
pub proof fn failed_request_says_why(
    before: Allocator,
    cache: ThreadCache,
    after: Allocator,
    cache_after: ThreadCache,
    size: usize,
    error: AllocError,
)
    requires
        before.wf(),
        api::requested(before, cache, after, cache_after, size, Err(error)),
    ensures
        size == 0 ==> error == AllocError::ZeroSize && after == before,
        size > 0 ==> error == (AllocError::OutOfMemory {
            requested: size,
            remaining: (after.ground().total() - after.ground().used()) as usize,
        }),
{
    if 0 < size <= 16_777_216 {
        let class = SizeClass::small_sizes_have_one_class(size as int);
        assert(before.small_outcome(cache, after, cache_after, class, size, Err(error)));
    }
}

/// Law: a small request is served whenever its cache or the central pool has a block of its
/// class, or the arena has room for one at some aligned offset behind everything reserved.
pub proof fn small_request_with_room_is_served(
    before: Allocator,
    cache: ThreadCache,
    after: Allocator,
    cache_after: ThreadCache,
    class: SizeClass,
    size: usize,
    offset: int,
    need: int,
    result: Result<usize, AllocError>,
)
    requires
        before.wf(),
        before.serves(cache),
        class.serves(size as int),
        api::requested(before, cache, after, cache_after, size, result),
        ({
            ||| cache.local(class).held().len() > 0
            ||| before.pools().pool(class).held().len() > 0
            ||| {
                &&& class.payload() + 64 <= need
                &&& need % before.settings().alignment as int == 0
                &&& need * (before.settings().refill_target_bytes as int / (class.payload() + 64)
                    + 1) <= usize::MAX
                &&& before.ground().used() <= offset
                &&& offset % before.settings().alignment as int == 0
                &&& offset + need <= before.ground().total()
            }
        }),
    ensures
        result is Ok,
{
    cache.class_is_wf(class);
    let ground = before.ground();
    let unit = before.block_bytes(class);
    let wanted = before.settings().refill_blocks(class);
    class.block_bytes_fit(before.settings().alignment);
    align::rounded_up_is_least_multiple(
        class.payload() + HEADER_SIZE,
        before.settings().alignment as int,
    );
    align::rounded_up_is_least_multiple(ground.used(), ground.step());
    if cache.local(class).held().len() == 0 && before.pools().pool(class).held().len() == 0 {
        let target = before.settings().refill_target_bytes as int / (class.payload() + 64);
        vstd::arithmetic::div_mod::lemma_div_pos_is_pos(
            before.settings().refill_target_bytes as int,
            class.payload() + 64,
        );
        assert(unit * wanted <= need * (target + 1)) by (nonlinear_arith)
            requires
                0 < unit <= need,
                0 < wanted <= target + 1,
        ;
        arena::blocks_left_fit(ground, unit);
        let fit = ground.blocks_left(unit);
        assert(fit > 0) by {
            if fit == 0 {
                assert((fit + 1) * unit == unit) by (nonlinear_arith)
                    requires
                        fit == 0,
                ;
            }
        }
        assert(before.carvable(class) > 0);
    }
    assert(before.has_room(cache, class));
    assert(before.small_outcome(cache, after, cache_after, class, size, result));
}

/// Law: free blocks are used before the arena: where the cache or the central pool has a block
/// of the class, a request is given one of these, the cache's own first, and reserves nothing.
pub proof fn free_blocks_are_used_first(
    before: Allocator,
    cache: ThreadCache,
    after: Allocator,
    cache_after: ThreadCache,
    class: SizeClass,
    size: usize,
    result: Result<usize, AllocError>,
)
    requires
        before.wf(),
        before.serves(cache),
        class.serves(size as int),
        api::requested(before, cache, after, cache_after, size, result),
        cache.local(class).held().len() > 0 || before.pools().pool(class).held().len() > 0,
    ensures
        result matches Ok(user) && {
            let block = (user - 64) as usize;
            &&& user >= 64
            &&& cache.local(class).held().len() > 0 ==> cache.local(class).held().count(block) > 0
            &&& cache.local(class).held().len() == 0 ==> before.pools().pool(class).held().count(
                block,
            ) > 0
        },
        cache.local(class).held().len() > 0 ==> after.pools() == before.pools(),
        after.frontier() == before.frontier(),
{
    broadcast use vstd::multiset::group_multiset_axioms;

    cache.class_is_wf(class);
    assert(before.small_outcome(cache, after, cache_after, class, size, result));
    if let Ok(user) = result {
        let block = (user - HEADER_SIZE) as usize;
        if cache.local(class).held().len() > 0 {
            if cache.bound_to() != Some(before.number()) {
                assert(cache.local(class).total_len == 0);
            }
            let (bound, middle) = choose|bound: ThreadCache, middle: ThreadCache|
                before.binds(bound, cache) && #[trigger] before.provided(
                    bound,
                    after,
                    middle,
                    class,
                ) && cache_after.popped(middle, class);
            assert(bound == cache);
            assert(middle == bound);
            assert(cache.local(class).held().count(block) > 0);
        } else {
            assert(before.needs_refill(cache, class));
            refill_comes_from_the_pool(before, cache, after, cache_after, class, size, user);
        }
    }
}

/// What a central pool gives is not empty where the pool is not, and begins with one of its
/// own blocks.
proof fn refill_begins_with_its_own(pool: ClassPool, max: int, refill: CentralRefill)
    requires
        0 < max,
        pool.held().len() > 0,
        class_pool::gives(pool, max, refill),
    ensures
        refill.held().count(refill.first()) > 0,
{
    broadcast use vstd::multiset::group_multiset_axioms;

    let drained = choose|drained: ClassPool|
        pool.drains_to(drained) && #[trigger] class_pool::refill_is(drained, max, refill);
    drained.nothing_listed_means_empty();
    drained.listed_slabs_are_there();
    match refill {
        CentralRefill::Empty => {},
        CentralRefill::Batch(batch) => {
            let free = drained.slabs@[drained.partial_slabs@.last() as int].partial_free@;
            assert(batch@ == class_pool::top_of(free, max));
            assert(batch@.len() > 0);
            blocks::blocks_of(batch@);
        },
        CentralRefill::Slab { start, block_size, capacity } => {
            let index = if drained.full_hot_slabs@.len() > 0 {
                drained.full_hot_slabs@.last() as int
            } else {
                drained.full_cold_slabs@.last() as int
            };
            assert(drained.slabs@[index].wf());
            let region = class_cache::slab_region(start, block_size, capacity);
            assert(region == drained.slabs@[index].region());
            region.tail_counts(0);
            region.block_is_inside(0);
        },
    }
}

/// A block that comes from the central pool was there.
proof fn refill_comes_from_the_pool(
    before: Allocator,
    cache: ThreadCache,
    after: Allocator,
    cache_after: ThreadCache,
    class: SizeClass,
    size: usize,
    user: usize,
)
    requires
        before.needs_refill(cache, class),
        before.small_outcome(cache, after, cache_after, class, size, Ok(user)),
    ensures
        before.pools().pool(class).held().count((user - HEADER_SIZE) as usize) > 0,
{
    broadcast use vstd::multiset::group_multiset_axioms;

    let block = (user - HEADER_SIZE) as usize;
    let pool = before.pools().pool(class);
    let refill = choose|refill: CentralRefill| #[trigger]
        before.gives(class, refill) && block == refill.first() && pool.held()
            == after.pools().pool(class).held().add(refill.held());
    before.settings().counts_fit_their_targets(class, 1);
    refill_begins_with_its_own(pool, before.settings().refill_blocks(class), refill);
}

/// What a successful free of a small block did, seen from the freeing cache.
proof fn small_release(
    before: Allocator,
    cache: ThreadCache,
    after: Allocator,
    cache_after: ThreadCache,
    class: SizeClass,
    user: usize,
    outside: Option<AllocationHeaderPrefix>,
    expected: Option<usize>,
) -> (bound: ThreadCache)
    requires
        before.serves(cache),
        api::released(before, cache, after, cache_after, user, outside, expected, Ok(())),
        before.header_of(user, outside) matches Some(prefix) && prefix.route() == Some(
            AllocationKind::Small(class),
        ),
    ensures
        before.binds(bound, cache),
        after.small_freed(
            cache_after,
            before,
            bound,
            class,
            (user - HEADER_SIZE) as usize,
            before.header_of(user, outside)->0.owner_cache_id,
        ),
        bound.id() == cache.id(),
        forall|at: SizeClass| #[trigger] bound.staged(at) == cache.staged(at),
        forall|at: SizeClass| (#[trigger] bound.local(at)).held() == cache.local(at).held(),
        forall|at: SizeClass| (#[trigger] bound.local(at)).total_len == cache.local(at).held().len(),
{
    broadcast use vstd::multiset::group_multiset_axioms;

    let prefix = before.header_of(user, outside)->0;
    let bound = choose|bound: ThreadCache|
        before.binds(bound, cache) && #[trigger] after.freed(
            cache_after,
            before,
            bound,
            user,
            prefix,
            Ok(()),
        );
    assert forall|at: SizeClass| #[trigger] bound.staged(at) == cache.staged(at) by {
        if cache.bound_to() != Some(before.number()) {
            assert(bound.local(at).total_len == 0);
            assert(cache.local(at).total_len == 0);
            assert(bound.staged(at) =~= cache.staged(at));
        }
    }
    assert forall|at: SizeClass| (#[trigger] bound.local(at)).held() == cache.local(at).held()
        && bound.local(at).total_len == cache.local(at).held().len() by {
        bound.class_is_wf(at);
        cache.class_is_wf(at);
        if cache.bound_to() != Some(before.number()) {
            assert(bound.local(at).total_len == 0);
            assert(cache.local(at).total_len == 0);
            assert(bound.local(at).held() =~= cache.local(at).held());
        }
    }
    bound
}

/// Law: a block that another cache allocated is staged when it is freed. Once a further block
/// would bring the staged ones, twice and with 64 bytes of header each, above the bytes that a
/// refill aims at, all of them are in the central pool, and none is staged.
pub proof fn remote_frees_are_published(
    before: Allocator,
    cache: ThreadCache,
    after: Allocator,
    cache_after: ThreadCache,
    class: SizeClass,
    user: usize,
    outside: Option<AllocationHeaderPrefix>,
    expected: Option<usize>,
)
    requires
        before.serves(cache),
        api::released(before, cache, after, cache_after, user, outside, expected, Ok(())),
        before.header_of(user, outside) matches Some(prefix) && prefix.route() == Some(
            AllocationKind::Small(class),
        ) && prefix.owner_cache_id != cache.id(),
    ensures
        cache_after.local(class).held() == cache.local(class).held(),
        2 * (cache.staged(class).len() + 2) * (class.payload() + 64)
            <= before.settings().refill_target_bytes ==> cache_after.staged(class)
            == cache.staged(class).push((user - 64) as usize) && after.pools() == before.pools(),
        2 * (cache.staged(class).len() + 2) * (class.payload() + 64)
            > before.settings().refill_target_bytes ==> cache_after.staged(class).len() == 0
            && after.pools().pool(class).held() == before.pools().pool(class).held().add(
            cache.staged(class).to_multiset(),
        ).insert((user - 64) as usize),
{
    broadcast use vstd::multiset::group_multiset_axioms;

    let block = (user - HEADER_SIZE) as usize;
    let bound = small_release(
        before,
        cache,
        after,
        cache_after,
        class,
        user,
        outside,
        expected,
    );
    let staged = cache.staged(class).len() as int;
    assert(bound.staged(class) == cache.staged(class));
    assert(bound.local(class).held() == cache.local(class).held());
    before.settings().counts_fit_their_targets(class, staged + 2);
    if 2 * (staged + 2) * (class.payload() + 64) > before.settings().refill_target_bytes {
        blocks::blocks_of(cache_after.staged(class));
        let all = before.pools().pool(class).held().add(cache.staged(class).to_multiset()).insert(
            block,
        );
        let now = after.pools().pool(class).held();
        let own = cache.local(class).held();
        assert forall|address: usize| #[trigger] now.count(address) == all.count(address) by {
            assert(after.stock(cache_after, class).count(address) == own.count(address)
                + now.count(address));
            assert(before.stock(bound, class).insert(block).count(address) == own.count(address)
                + all.count(address));
        }
        assert(now =~= all);
    }
}

/// The blocks of `class` that `cache` staged are few: none, or two times one more, with 64 bytes
/// of header each, fit into the bytes that a refill aims at.
pub open spec fn stages_little(cache: ThreadCache, class: SizeClass, target: usize) -> bool {
    cache.staged(class).len() == 0 || 2 * (cache.staged(class).len() + 1) * (class.payload() + 64)
        <= target
}

/// Law: a cache never stages more than half a refill, whatever is freed through it.
pub proof fn staged_blocks_stay_few(
    before: Allocator,
    cache: ThreadCache,
    after: Allocator,
    cache_after: ThreadCache,
    class: SizeClass,
    user: usize,
    outside: Option<AllocationHeaderPrefix>,
    expected: Option<usize>,
)
    requires
        before.serves(cache),
        api::released(before, cache, after, cache_after, user, outside, expected, Ok(())),
        stages_little(cache, class, before.settings().refill_target_bytes),
    ensures
        stages_little(cache_after, class, before.settings().refill_target_bytes),
{
    let prefix = before.header_of(user, outside)->0;
    match prefix.route() {
        Some(AllocationKind::Small(own)) => {
            let bound = small_release(
                before,
                cache,
                after,
                cache_after,
                own,
                user,
                outside,
                expected,
            );
            assert(bound.staged(class) == cache.staged(class));
            if own == class && prefix.owner_cache_id != cache.id() {
                remote_frees_are_published(
                    before,
                    cache,
                    after,
                    cache_after,
                    class,
                    user,
                    outside,
                    expected,
                );
            } else if own != class {
                assert(cache_after.staged(class) == bound.staged(class));
            }
        },
        _ => {
            let bound = choose|bound: ThreadCache|
                before.binds(bound, cache) && #[trigger] after.freed(
                    cache_after,
                    before,
                    bound,
                    user,
                    prefix,
                    Ok(()),
                );
            assert(after.large_freed(cache_after, before, bound, user));
            if cache.bound_to() != Some(before.number()) {
                assert(bound.local(class).total_len == 0);
            }
        },
    }
}

/// Law: a block that was freed into the central pool serves other caches: the next request of
/// its class through a cache that has none is given a block of the pool, and reserves nothing.
pub proof fn published_blocks_serve_other_caches(
    before: Allocator,
    cache: ThreadCache,
    middle: Allocator,
    cache_after: ThreadCache,
    class: SizeClass,
    user: usize,
    outside: Option<AllocationHeaderPrefix>,
    expected: Option<usize>,
    other: ThreadCache,
    after: Allocator,
    other_after: ThreadCache,
    size: usize,
    result: Result<usize, AllocError>,
)
    requires
        before.serves(cache),
        api::released(before, cache, middle, cache_after, user, outside, expected, Ok(())),
        before.header_of(user, outside) matches Some(prefix) && prefix.route() == Some(
            AllocationKind::Small(class),
        ) && prefix.owner_cache_id != cache.id(),
        2 * (cache.staged(class).len() + 2) * (class.payload() + 64)
            > before.settings().refill_target_bytes,
        middle.serves(other),
        other.local(class).held().len() == 0,
        class.serves(size as int),
        api::requested(middle, other, after, other_after, size, result),
    ensures
        result matches Ok(address) && middle.pools().pool(class).held().count(
            (address - 64) as usize,
        ) > 0,
        after.frontier() == before.frontier(),
{
    broadcast use vstd::multiset::group_multiset_axioms;

    remote_frees_are_published(
        before,
        cache,
        middle,
        cache_after,
        class,
        user,
        outside,
        expected,
    );
    let bound = small_release(
        before,
        cache,
        middle,
        cache_after,
        class,
        user,
        outside,
        expected,
    );
    let held = middle.pools().pool(class).held();
    assert(held.count((user - HEADER_SIZE) as usize) > 0);
    assert(held.len() > 0);
    free_blocks_are_used_first(middle, other, after, other_after, class, size, result);
}

/// Law: handing blocks from one thread to another costs no memory. What one cache allocates
/// and another frees, the first is given again, where it has no other block of the class and
/// the freeing cache publishes.
pub proof fn handed_off_blocks_come_back(
    start: Allocator,
    giver: ThreadCache,
    given: Allocator,
    giver_after: ThreadCache,
    class: SizeClass,
    size: usize,
    user: usize,
    taker: ThreadCache,
    freed: Allocator,
    taker_after: ThreadCache,
    expected: Option<usize>,
    end: Allocator,
    giver_end: ThreadCache,
    later_size: usize,
    result: Result<usize, AllocError>,
)
    requires
        class.serves(size as int),
        class.serves(later_size as int),
        api::requested(start, giver, given, giver_after, size, Ok(user)),
        given.serves(taker),
        taker.id() != giver.id(),
        api::released(given, taker, freed, taker_after, user, None, expected, Ok(())),
        2 * (taker.staged(class).len() + 2) * (class.payload() + 64)
            > given.settings().refill_target_bytes,
        freed.serves(giver_after),
        giver_after.local(class).held().len() == 0,
        api::requested(freed, giver_after, end, giver_end, later_size, result),
    ensures
        result is Ok,
        end.frontier() == given.frontier(),
{
    assert(start.small_outcome(giver, given, giver_after, class, size, Ok(user)));
    laws::live_small_is_routed(
        given,
        giver_after,
        class,
        size,
        giver.id(),
        user,
        None,
    );
    published_blocks_serve_other_caches(
        given,
        taker,
        freed,
        taker_after,
        class,
        user,
        None,
        expected,
        giver_after,
        end,
        giver_end,
        later_size,
        result,
    );
}

/// Draining a cache that has a block moves one at least, and no more than asked for.
proof fn drain_moves_some(local: LocalClassCache, max: int)
    requires
        local.wf(),
        local.hot_block is Some,
        1 <= max,
    ensures
        1 <= local.drained(max).len() <= max,
{
    if local.shared@.len() == 0 && local.available_slabs@.len() > 0 {
        let last = local.available_slabs@.len() - 1;
        let slab = local.slabs@[local.available_slabs@[last] as int];
        assert(slab.wf());
        assert(slab.available());
    }
}

/// Law: a cache keeps what it freed itself, up to the bytes that it may keep per class, and two
/// blocks at least. Beyond that, every free moves blocks to the central pool, one at least and
/// no more than half a refill, so that the cache does not grow.
pub proof fn local_frees_keep_the_cache_small(
    before: Allocator,
    cache: ThreadCache,
    after: Allocator,
    cache_after: ThreadCache,
    class: SizeClass,
    user: usize,
    outside: Option<AllocationHeaderPrefix>,
    expected: Option<usize>,
)
    requires
        before.serves(cache),
        api::released(before, cache, after, cache_after, user, outside, expected, Ok(())),
        before.header_of(user, outside) matches Some(prefix) && prefix.route() == Some(
            AllocationKind::Small(class),
        ) && prefix.owner_cache_id == cache.id(),
    ensures
        ({
            let kept = cache.local(class).held().len() as int;
            let left = cache_after.local(class).held().len() as int;
            let moved = kept + 1 - left;
            &&& cache_after.staged(class) == cache.staged(class)
            &&& after.pools().pool(class).held().len() == before.pools().pool(class).held().len()
                + moved
            &&& kept < 2 || (kept + 1) * (class.payload() + 64)
                <= before.settings().local_cache_target_bytes ==> moved == 0 && after.pools()
                == before.pools()
            &&& 2 <= kept && (kept + 1) * (class.payload() + 64)
                > before.settings().local_cache_target_bytes ==> 1 <= moved && (moved == 1 || 2
                * moved * (class.payload() + 64) <= before.settings().refill_target_bytes)
        }),
{
    broadcast use vstd::multiset::group_multiset_axioms;

    let block = (user - HEADER_SIZE) as usize;
    let bound = small_release(
        before,
        cache,
        after,
        cache_after,
        class,
        user,
        outside,
        expected,
    );
    let kept = cache.local(class).held().len() as int;
    let config = before.settings();
    assert(bound.local(class).held() == cache.local(class).held());
    assert(bound.staged(class) == cache.staged(class));
    config.counts_fit_their_targets(class, kept + 1);
    bound.class_is_wf(class);
    cache_after.class_is_wf(class);
    if kept >= config.local_blocks(class) {
        let pushed = choose|pushed: ThreadCache| #[trigger]
            pushed.pushed(bound, class, block) && pushed.wf() && cache_after.drained(
                after.pools(),
                pushed,
                before.pools(),
                class,
                config.drain_blocks(class),
            );
        let batch = pushed.local(class).drained(config.drain_blocks(class));
        blocks::blocks_of(batch);
        config.counts_fit_their_targets(class, 1);
        pushed.class_is_wf(class);
        drain_moves_some(pushed.local(class), config.drain_blocks(class));
        config.counts_fit_their_targets(class, batch.len() as int);
        assert(after.pools().pool(class).held().len() == before.pools().pool(class).held().len()
            + batch.len());
    }
}

/// Law: a new slab is a refill. It begins at the next aligned offset and is cut into blocks of
/// `unit` bytes, the class's payload with its header, rounded up: as many as a refill aims at,
/// or as many as the arena has room for.
pub proof fn new_slab_is_a_refill(
    before: Allocator,
    cache: ThreadCache,
    after: Allocator,
    cache_after: ThreadCache,
    class: SizeClass,
    size: usize,
    user: usize,
    unit: int,
)
    requires
        before.wf(),
        before.serves(cache),
        class.serves(size as int),
        cache.local(class).held().len() == 0,
        before.pools().pool(class).held().len() == 0,
        api::requested(before, cache, after, cache_after, size, Ok(user)),
        unit % before.settings().alignment as int == 0,
        class.payload() + 64 <= unit < class.payload() + 64 + before.settings().alignment,
    ensures
        ({
            let count = cache_after.local(class).held().len() + 1;
            let block = class.payload() + 64;
            let target = before.settings().refill_target_bytes;
            &&& before.frontier() <= user - 64 < before.frontier() + before.settings().alignment
            &&& after.frontier() == user - 64 + count * unit
            &&& count == 1 || count * block <= target
            &&& (count + 1) * block > target || user - 64 + (count + 1) * unit
                > before.ground().origin() + before.ground().total()
        }),
{
    broadcast use vstd::multiset::group_multiset_axioms;

    let alignment = before.settings().alignment as int;
    let ground = before.ground();
    let exact = before.block_bytes(class);
    cache.class_is_wf(class);
    class.block_bytes_fit(before.settings().alignment);
    align::rounded_up_is_least_multiple(class.payload() + HEADER_SIZE, alignment);
    align::rounded_up_is_least_multiple(ground.used(), ground.step());
    one_multiple(unit, exact, class.payload() + 64, alignment);
    assert(before.small_outcome(cache, after, cache_after, class, size, Ok(user)));
    assert(before.needs_slab(cache, class));
    let (bound, middle) = choose|bound: ThreadCache, middle: ThreadCache|
        before.binds(bound, cache) && #[trigger] before.provided(bound, after, middle, class)
            && cache_after.popped(middle, class);
    bound.class_is_wf(class);
    if cache.bound_to() != Some(before.number()) {
        assert(bound.local(class).total_len == 0);
    }
    assert(bound.local(class).total_len == 0);
    cache_after.class_is_wf(class);
    let count = cache_after.local(class).held().len() as int + 1;
    assert(count == before.carvable(class));
    arena::blocks_left_fit(ground, exact);
    before.settings().counts_fit_their_targets(class, count);
    before.settings().counts_fit_their_targets(class, count + 1);
    assert(exact * count == count * exact) by (nonlinear_arith);
    if count == ground.blocks_left(exact) {
        assert((count + 1) * unit == (ground.blocks_left(exact) + 1) * exact);
    }
}

/// Between a value and the value an alignment step further lies one multiple.
proof fn one_multiple(one: int, other: int, low: int, alignment: int)
    requires
        0 < alignment,
        one % alignment == 0,
        other % alignment == 0,
        low <= one < low + alignment,
        low <= other < low + alignment,
    ensures
        one == other,
{
    vstd::arithmetic::div_mod::lemma_fundamental_div_mod(one, alignment);
    vstd::arithmetic::div_mod::lemma_fundamental_div_mod(other, alignment);
    let (a, b) = (one / alignment, other / alignment);
    assert(a == b) by (nonlinear_arith)
        requires
            alignment * a - alignment * b < alignment,
            alignment * b - alignment * a < alignment,
            alignment > 0,
    ;
}

/// Law: a snapshot counts every block of the central pool in the row of its class, with the
/// bytes that the block takes in the arena, and the arena's bytes are either reserved or
/// remaining.
pub proof fn snapshot_counts_the_pool(
    allocator: Allocator,
    stats: AllocatorStats,
    class: SizeClass,
    unit: int,
)
    requires
        allocator.wf(),
        allocator.counted(stats),
        unit % allocator.settings().alignment as int == 0,
        class.payload() + 64 <= unit < class.payload() + 64 + allocator.settings().alignment,
    ensures
        stats.small_central@[class.position()].class == class,
        stats.small_central@[class.position()].blocks == allocator.pools().pool(class).held().len(),
        stats.small_central@[class.position()].bytes == allocator.pools().pool(class).held().len()
            * unit,
        stats.arena_capacity == allocator.settings().arena_size,
        allocator.ground().origin() + stats.arena_capacity == allocator.frontier()
            + stats.arena_remaining,
{
    let alignment = allocator.settings().alignment as int;
    align::rounded_up_is_least_multiple(class.payload() + HEADER_SIZE, alignment);
    one_multiple(unit, allocator.block_bytes(class), class.payload() + 64, alignment);
}

/// Law: blocks that a free publishes show in the snapshots of the central pool: the row of
/// their class counts the freed block and all that were staged, and no other row changes.
pub proof fn published_blocks_are_counted(
    before: Allocator,
    cache: ThreadCache,
    after: Allocator,
    cache_after: ThreadCache,
    class: SizeClass,
    user: usize,
    outside: Option<AllocationHeaderPrefix>,
    expected: Option<usize>,
    earlier: AllocatorStats,
    later: AllocatorStats,
    other: SizeClass,
)
    requires
        before.serves(cache),
        api::released(before, cache, after, cache_after, user, outside, expected, Ok(())),
        before.header_of(user, outside) matches Some(prefix) && prefix.route() == Some(
            AllocationKind::Small(class),
        ) && prefix.owner_cache_id != cache.id(),
        2 * (cache.staged(class).len() + 2) * (class.payload() + 64)
            > before.settings().refill_target_bytes,
        before.counted(earlier),
        after.counted(later),
    ensures
        later.small_central@[other.position()].blocks
            == earlier.small_central@[other.position()].blocks + if other == class {
            cache.staged(class).len() + 1
        } else {
            0
        },
        later.arena_remaining == earlier.arena_remaining,
{
    broadcast use vstd::multiset::group_multiset_axioms;

    remote_frees_are_published(
        before,
        cache,
        after,
        cache_after,
        class,
        user,
        outside,
        expected,
    );
    let bound = small_release(
        before,
        cache,
        after,
        cache_after,
        class,
        user,
        outside,
        expected,
    );
    blocks::blocks_of(cache.staged(class));
    if other != class {
        assert(after.pools().pool(other) == before.pools().pool(other));
    }
}

/// Law: a large request shows in the snapshots: one live allocation more, with the bytes of its
/// block, which the reusable blocks or the arena's remaining bytes lose.
pub proof fn large_requests_are_counted(
    before: Allocator,
    cache: ThreadCache,
    after: Allocator,
    cache_after: ThreadCache,
    size: usize,
    user: usize,
    earlier: AllocatorStats,
    later: AllocatorStats,
)
    requires
        before.wf(),
        api::requested(before, cache, after, cache_after, size, Ok(user)),
        16_777_216 < size,
        before.counted(earlier),
        after.counted(later),
    ensures
        later.large_live_allocations == earlier.large_live_allocations + 1,
        ({
            let taken = later.large_live_bytes - earlier.large_live_bytes;
            &&& size + 64 <= taken
            &&& {
                ||| later.large_free_blocks == earlier.large_free_blocks - 1
                    && later.large_free_bytes == earlier.large_free_bytes - taken
                    && later.arena_remaining == earlier.arena_remaining
                ||| later.large_free_blocks == earlier.large_free_blocks && later.large_free_bytes
                    == earlier.large_free_bytes && later.arena_remaining
                    <= earlier.arena_remaining - taken
            }
        }),
{
    let ground = before.ground();
    align::rounded_up_is_least_multiple(size + HEADER_SIZE, before.settings().alignment as int);
    align::rounded_up_is_least_multiple(ground.used(), ground.step());
    let record = after.registry().registry().live@[user];
    assert(after.registry().registry().live@.dom()
        =~= before.registry().registry().live@.dom().insert(user));
}

/// Law: freeing a large allocation shows in the snapshots: its block and bytes move from the
/// live ones to the reusable ones, and nothing else changes.
pub proof fn large_frees_are_counted(
    before: Allocator,
    cache: ThreadCache,
    after: Allocator,
    cache_after: ThreadCache,
    user: usize,
    outside: Option<AllocationHeaderPrefix>,
    expected: Option<usize>,
    earlier: AllocatorStats,
    later: AllocatorStats,
    class: SizeClass,
)
    requires
        before.wf(),
        api::released(before, cache, after, cache_after, user, outside, expected, Ok(())),
        before.header_of(user, outside) matches Some(prefix) && prefix.route() == Some(
            AllocationKind::Large,
        ),
        before.counted(earlier),
        after.counted(later),
    ensures
        later.large_live_allocations == earlier.large_live_allocations - 1,
        later.large_free_blocks == earlier.large_free_blocks + 1,
        later.large_live_bytes + later.large_free_bytes == earlier.large_live_bytes
            + earlier.large_free_bytes,
        later.large_free_bytes >= earlier.large_free_bytes + 64,
        later.arena_remaining == earlier.arena_remaining,
        later.small_central@[class.position()].blocks
            == earlier.small_central@[class.position()].blocks,
{
    let prefix = before.header_of(user, outside)->0;
    let bound = choose|bound: ThreadCache|
        before.binds(bound, cache) && #[trigger] after.freed(
            cache_after,
            before,
            bound,
            user,
            prefix,
            Ok(()),
        );
    assert(after.large_freed(cache_after, before, bound, user));
    let live = before.registry().registry().live@;
    assert(live.contains_key(user));
    assert(large_object::record_is_sound(user, live[user]));
    assert(live.remove(user).dom() =~= live.dom().remove(user));
}

/// Law: a free succeeds only for an address at a multiple of 64 whose header carries the
/// allocator's magic word and a request that fits the block, and either lies in the arena or
/// belongs to a live large allocation of the same sizes; and only with the recorded size, where
/// the caller names one.
pub proof fn freed_addresses_are_sound(
    allocator: Allocator,
    user: usize,
    outside: Option<AllocationHeaderPrefix>,
    expected: Option<usize>,
)
    requires
        allocator.wf(),
        allocator.own_free_outcome(user, outside, expected) is Ok,
    ensures
        64 <= user,
        user % 64 == 0,
        allocator.header_of(user, outside) matches Some(prefix) && {
            &&& prefix.magic == 0x4f52_5448
            &&& 0 < prefix.requested_size <= prefix.usable_size
            &&& expected matches Some(size) ==> size == prefix.requested_size
            &&& {
                let live = allocator.registry().registry().live@;
                ||| prefix.kind is Small && allocator.ground().origin() <= user - 64
                    < allocator.ground().origin() + allocator.ground().total() && (user - 64)
                    % allocator.settings().alignment as int == 0
                ||| prefix.kind is Large && live.contains_key(user) && live[user].requested_size
                    == prefix.requested_size && live[user].usable_size == prefix.usable_size
            }
        },
{
    let ground = allocator.ground();
    if ground.has_block_start(user - 64) {
        vstd::arithmetic::div_mod::lemma_add_mod_noop(
            ground.origin(),
            user - 64 - ground.origin(),
            ground.step(),
        );
        vstd::arithmetic::div_mod::lemma_small_mod(0, ground.step() as nat);
        assert((user - 64) % ground.step() == 0);
    }
    let prefix = allocator.header_of(user, outside)->0;
    assert(allocator.free_outcome(user, prefix, expected) is Ok);
    assert(prefix.route() is Some);
}

/// Law: an empty request is refused and changes nothing, and a request whose size a header
/// cannot record, in 32 bits, is never served.
pub proof fn impossible_sizes_are_refused(
    before: Allocator,
    cache: ThreadCache,
    after: Allocator,
    cache_after: ThreadCache,
    size: usize,
    result: Result<usize, AllocError>,
)
    requires
        api::requested(before, cache, after, cache_after, size, result),
    ensures
        size == 0 ==> result == Err::<usize, AllocError>(AllocError::ZeroSize) && after == before,
        size > u32::MAX ==> result is Err,
{
}

/// Law: every address that is handed out lies 64 bytes behind a multiple of the allocator's
/// alignment, is a multiple of 64 itself, and has the requested bytes behind it in the arena.
pub proof fn served_addresses_are_aligned(
    before: Allocator,
    cache: ThreadCache,
    after: Allocator,
    cache_after: ThreadCache,
    size: usize,
    user: usize,
)
    requires
        api::requested(before, cache, after, cache_after, size, Ok(user)),
    ensures
        64 <= user,
        (user - 64) % after.settings().alignment as int == 0,
        user % 64 == 0,
        after.ground().origin() <= user - 64,
        user + size <= after.ground().origin() + after.ground().total(),
{
    let ground = after.ground();
    let step = ground.step();
    align::large_power_of_two_is_multiple_of_64(step);
    if size > 16_777_216 {
        let record = after.registry().registry().live@[user];
        assert(after.registry().registry().live@.contains_key(user));
        assert(large_object::record_is_sound(user, record));
        assert(after.large_is_reserved(record.block_addr as int, record.block_size as int));
        assert(after.reservations().contains_key(record.block_addr as int));
    } else {
        let class = SizeClass::small_sizes_have_one_class(size as int);
        assert(before.small_outcome(cache, after, cache_after, class, size, Ok(user)));
        laws::known_block_is_addressable(after, class, (user - HEADER_SIZE) as usize);
        laws::small_block_lies_in_the_arena(after, class, (user - HEADER_SIZE) as usize);
    }
    assert(ground.has_block_start(user - 64));
    vstd::arithmetic::div_mod::lemma_add_mod_noop(
        ground.origin(),
        user - 64 - ground.origin(),
        step,
    );
    align::multiple_of_multiple_of_64(user - 64, step);
}

/// Law: a cache that holds too much gives back a whole drain, half a refill, unless the place
/// that it drains has less: then nothing is left there. The shared blocks are drained first,
/// and the block freed before counts among them where no slab of the cache has it; slabs come
/// after that.
pub proof fn full_caches_give_back_half_a_refill(
    before: Allocator,
    cache: ThreadCache,
    after: Allocator,
    cache_after: ThreadCache,
    class: SizeClass,
    user: usize,
    outside: Option<AllocationHeaderPrefix>,
    expected: Option<usize>,
)
    requires
        before.serves(cache),
        api::released(before, cache, after, cache_after, user, outside, expected, Ok(())),
        before.header_of(user, outside) matches Some(prefix) && prefix.route() == Some(
            AllocationKind::Small(class),
        ) && prefix.owner_cache_id == cache.id(),
        2 <= cache.local(class).held().len(),
        (cache.local(class).held().len() + 1) * (class.payload() + 64)
            > before.settings().local_cache_target_bytes,
    ensures
        ({
            let local = cache.local(class);
            let left = cache_after.local(class);
            let moved = local.held().len() + 1 - left.held().len();
            2 * (moved + 1) * (class.payload() + 64) <= before.settings().refill_target_bytes ==> {
                ||| left.shared@.len() == 0 && (local.shared@.len() > 0 || local.hot_block is Some
                    && forall|id: int|
                    0 <= id < local.slabs@.len() ==> !(
                    #[trigger] local.slabs@[id]).region().has(local.hot_block->0 as int))
                ||| exists|id: int|
                    0 <= id < left.slabs@.len() && !(#[trigger] left.slabs@[id]).available()
            }
        }),
{
    broadcast use vstd::multiset::group_multiset_axioms;

    let block = (user - HEADER_SIZE) as usize;
    let bound = small_release(
        before,
        cache,
        after,
        cache_after,
        class,
        user,
        outside,
        expected,
    );
    let config = before.settings();
    let kept = cache.local(class).held().len() as int;
    cache.class_is_wf(class);
    if cache.bound_to() != Some(before.number()) {
        assert(cache.local(class).total_len == 0);
    }
    assert(bound == cache);
    assert(bound.local(class).total_len == kept);
    config.counts_fit_their_targets(class, kept + 1);
    let drain = config.drain_blocks(class);
    config.counts_fit_their_targets(class, 1);
    let pushed = choose|pushed: ThreadCache| #[trigger]
        pushed.pushed(bound, class, block) && pushed.wf() && cache_after.drained(
            after.pools(),
            pushed,
            before.pools(),
            class,
            drain,
        );
    let full = pushed.local(class);
    let left = cache_after.local(class);
    pushed.class_is_wf(class);
    cache_after.class_is_wf(class);
    full.drains_take_what_they_may(drain);
    let moved = full.drained(drain).len() as int;
    assert(moved == kept + 1 - left.held().len());
    config.counts_fit_their_targets(class, moved + 1);
    if moved < drain {
        if full.shared@.len() > 0 {
            assert(left.shared@.len() == 0);
        } else if full.available_slabs@.len() > 0 {
            let serving = full.available_slabs@[full.available_slabs@.len() - 1] as int;
            assert(full.slabs@[serving].wf());
            assert(!left.slabs@[serving].available());
        }
    }
}

/// Law: a drained cache serves others: where it held a block of a class, the next request of
/// the class through a cache that has none is given a block of the central pool, and reserves
/// nothing.
pub proof fn drained_blocks_serve_other_caches(
    before: Allocator,
    cache: ThreadCache,
    drained: Allocator,
    class: SizeClass,
    other: ThreadCache,
    after: Allocator,
    other_after: ThreadCache,
    size: usize,
    result: Result<usize, AllocError>,
)
    requires
        drained.wf(),
        drained.frontier() == before.frontier(),
        drained.pools().pool(class).held() == before.pools().pool(class).held().add(
            cache.held(class),
        ),
        cache.held(class).len() > 0,
        drained.serves(other),
        other.local(class).held().len() == 0,
        class.serves(size as int),
        api::requested(drained, other, after, other_after, size, result),
    ensures
        result matches Ok(user) && (before.pools().pool(class).held().count((user - 64) as usize) > 0
            || cache.held(class).count((user - 64) as usize) > 0),
        after.frontier() == before.frontier(),
{
    broadcast use vstd::multiset::group_multiset_axioms;

    free_blocks_are_used_first(drained, other, after, other_after, class, size, result);
}

/// Law: a small block that does not lie in the arena is refused as foreign, unless the caller
/// names another size than its header records; and a header without the magic word, or an
/// address that is no multiple of 64, is refused as corrupt.
pub proof fn foreign_blocks_are_refused(
    allocator: Allocator,
    user: usize,
    outside: Option<AllocationHeaderPrefix>,
    expected: Option<usize>,
)
    requires
        allocator.wf(),
    ensures
        user < 64 || user % 64 != 0 ==> allocator.own_free_outcome(user, outside, expected)
            == Err::<(), FreeError>(FreeError::CorruptHeader),
        allocator.header_of(user, outside) is None ==> allocator.own_free_outcome(
            user,
            outside,
            expected,
        ) == Err::<(), FreeError>(FreeError::CorruptHeader),
        allocator.header_of(user, outside) matches Some(prefix) && prefix.magic != 0x4f52_5448
            ==> allocator.own_free_outcome(user, outside, expected) == Err::<(), FreeError>(
            FreeError::CorruptHeader,
        ),
        64 <= user && user % 64 == 0 && (allocator.header_of(user, outside) matches Some(prefix)
            && prefix.route() matches Some(AllocationKind::Small(class)) && (expected is None
            || expected == Some(prefix.requested_size as usize))) && !(
        allocator.ground().origin() <= user - 64 < allocator.ground().origin()
            + allocator.ground().total()) ==> allocator.own_free_outcome(user, outside, expected)
            == Err::<(), FreeError>(FreeError::ForeignPointer),
{
}

/// Law: a snapshot of a cache counts the blocks that it can hand out, class by class, with the
/// bytes that they take in the arena, and says whether the cache belongs to an allocator.
pub proof fn snapshot_counts_the_cache(
    cache: ThreadCache,
    stats: ThreadCacheStats,
    class: SizeClass,
    unit: int,
)
    requires
        cache.counted(stats),
        64 <= cache.settings().alignment,
        unit % cache.settings().alignment as int == 0,
        class.payload() + 64 <= unit < class.payload() + 64 + cache.settings().alignment,
    ensures
        stats.is_bound <==> cache.bound_to() is Some,
        stats.local@[class.position()].class == class,
        stats.local@[class.position()].blocks == cache.local(class).held().len(),
        stats.local@[class.position()].bytes == cache.local(class).held().len() * unit,
{
    let alignment = cache.settings().alignment as int;
    align::rounded_up_is_least_multiple(class.payload() + HEADER_SIZE, alignment);
    one_multiple(unit, class.block_bytes(alignment), class.payload() + 64, alignment);
}

} // verus!
