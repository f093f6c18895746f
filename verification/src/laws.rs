use vstd::prelude::*;

use crate::align;
use crate::allocator;
use crate::allocator::Allocator;
use crate::arena;
use crate::blocks;
use crate::blocks::Region;
use crate::class_pool;
use crate::class_pool::SweepRequest;
use crate::error::FreeError;
use crate::free_list;
use crate::header;
use crate::header::{
    AllocationHeader, AllocationHeaderPrefix, AllocationKind, HEADER_ALIGNMENT, HEADER_SIZE,
};
use crate::large_object;
use crate::large_object::FreeLargeBlock;
use crate::local_slab;
use crate::memory::Memory;
use crate::size_class;
use crate::size_class::SizeClass;
use crate::thread_cache;
use crate::thread_cache::ThreadCache;

verus! {

/// Law: two small allocations at different addresses share no byte, whatever their classes.
pub proof fn small_blocks_do_not_overlap(
    allocator: Allocator,
    one_class: SizeClass,
    one: usize,
    other_class: SizeClass,
    other: usize,
)
    requires
        allocator.wf(),
        allocator.pools().pool(one_class).knows(one),
        allocator.pools().pool(other_class).knows(other),
        one != other,
    ensures
        one + allocator.block_bytes(one_class) <= other || other + allocator.block_bytes(
            other_class,
        ) <= one,
{
    let a = region_of(allocator, one_class, one);
    let b = region_of(allocator, other_class, other);
    let i = a.position_of(one as int);
    let j = b.position_of(other as int);
    assert(allocator.reservations().contains_key(a.start));
    assert(allocator.reservations().contains_key(b.start));
    if a.start == b.start {
        assert(a.end() == b.end() && one_class == other_class);
        assert(a.block_size == b.block_size);
        assert(a.capacity == b.capacity) by (nonlinear_arith)
            requires
                a.block_size * a.capacity == b.block_size * b.capacity,
                a.block_size == b.block_size,
                a.block_size > 0,
        ;
        a.blocks_do_not_overlap(one as int, other as int);
    }
}

/// The slab of `class` that `block` belongs to.
proof fn region_of(allocator: Allocator, class: SizeClass, block: usize) -> (region: Region)
    requires
        allocator.wf(),
        allocator.pools().pool(class).knows(block),
    ensures
        allocator.pools().pool(class).registered(region),
        region.has(block as int),
        region.valid(),
        region.block_size == allocator.block_bytes(class),
        allocator.reservations().contains_key(region.start),
        allocator.reservations()[region.start].end == region.end(),
        allocator.reservations()[region.start].class == Some(class),
{
    let pool = allocator.pools().pool(class);
    let index = choose|index: int|
        0 <= index < pool.slabs@.len() && (#[trigger] pool.slabs@[index]).region().has(block as int);
    let region = pool.slabs@[index].region();
    assert(pool.registered(region));
    region
}

/// Law: a small allocation and a live large allocation share no byte.
pub proof fn small_and_large_do_not_overlap(
    allocator: Allocator,
    class: SizeClass,
    block: usize,
    user: usize,
)
    requires
        allocator.wf(),
        allocator.pools().pool(class).knows(block),
        allocator.registry().registry().live@.contains_key(user),
    ensures
        ({
            let record = allocator.registry().registry().live@[user];
            block + allocator.block_bytes(class) <= record.block_addr || record.block_addr
                + record.block_size <= block
        }),
{
    let region = region_of(allocator, class, block);
    let at = region.position_of(block as int);
    let record = allocator.registry().registry().live@[user];
    assert(allocator.large_is_reserved(record.block_addr as int, record.block_size as int));
    assert(allocator.reservations().contains_key(record.block_addr as int));
    assert(allocator.reservations().contains_key(region.start));
}

/// Law: two live large allocations share no byte.
pub proof fn large_blocks_do_not_overlap(allocator: Allocator, one: usize, other: usize)
    requires
        allocator.wf(),
        allocator.registry().registry().live@.contains_key(one),
        allocator.registry().registry().live@.contains_key(other),
        one != other,
    ensures
        ({
            let a = allocator.registry().registry().live@[one];
            let b = allocator.registry().registry().live@[other];
            a.block_addr + a.block_size <= b.block_addr || b.block_addr + b.block_size
                <= a.block_addr
        }),
{
    let a = allocator.registry().registry().live@[one];
    let b = allocator.registry().registry().live@[other];
    assert(large_object::record_is_sound(one, a));
    assert(large_object::record_is_sound(other, b));
    assert(allocator.large_is_reserved(a.block_addr as int, a.block_size as int));
    assert(allocator.large_is_reserved(b.block_addr as int, b.block_size as int));
    assert(allocator.reservations().contains_key(a.block_addr as int));
    assert(allocator.reservations().contains_key(b.block_addr as int));
}

/// Law: every block, small or large, starts at a multiple of 64 inside the arena and has its
/// whole payload there.
pub proof fn small_block_lies_in_the_arena(allocator: Allocator, class: SizeClass, block: usize)
    requires
        allocator.wf(),
        allocator.pools().pool(class).knows(block),
    ensures
        block % 64 == 0,
        allocator.ground().origin() <= block,
        block + HEADER_SIZE + class.payload() <= allocator.ground().origin()
            + allocator.ground().total(),
{
    let region = region_of(allocator, class, block);
    let at = region.position_of(block as int);
    class.block_bytes_fit(allocator.settings().alignment);
    allocator.pools().known_blocks_fit(allocator.bytes(), class);
}

/// A block belongs to slabs of one class only.
pub proof fn one_class_knows(
    allocator: Allocator,
    class: SizeClass,
    other: SizeClass,
    block: usize,
)
    requires
        allocator.wf(),
        allocator.pools().pool(class).knows(block),
        allocator.pools().pool(other).knows(block),
    ensures
        class == other,
{
    let a = region_of(allocator, class, block);
    let b = region_of(allocator, other, block);
    let i = a.position_of(block as int);
    let j = b.position_of(block as int);
    a.block_is_inside(i);
    b.block_is_inside(j);
    assert(allocator.reservations().contains_key(a.start));
    assert(allocator.reservations().contains_key(b.start));
}

/// Law: a small request is never given a block that is live, nor the address of a live large
/// allocation: the block handed out was free before, or it was never reserved.
pub proof fn small_request_gets_no_live_block(
    allocator: Allocator,
    cache: ThreadCache,
    after: Allocator,
    cache_after: ThreadCache,
    class: SizeClass,
    requested_size: usize,
    user: usize,
)
    requires
        allocator.wf(),
        allocator.serves(cache),
        allocator.small_outcome(cache, after, cache_after, class, requested_size, Ok(user)),
        after.wf(),
        after.registry() == allocator.registry(),
    ensures
        !allocator.lives(cache, class, (user - HEADER_SIZE) as usize),
        !allocator.registry().registry().live@.contains_key(user),
{
    broadcast use vstd::multiset::group_multiset_axioms;

    let block = (user - HEADER_SIZE) as usize;
    let fresh = allocator.fresh_blocks(cache, class);
    assert(after.stock(cache_after, class).insert(block).count(block) > 0);
    assert(allocator.stock(cache, class).add(fresh).count(block) > 0);
    if allocator.stock(cache, class).count(block) == 0 {
        allocator.next_slab_facts(class);
        let slab = allocator.next_slab(class);
        slab.tail_counts(0);
        assert(slab.has(block as int));
        if allocator.pools().pool(class).knows(block) {
            let region = region_of(allocator, class, block);
            let at = region.position_of(block as int);
            assert(allocator.reservations().contains_key(region.start));
        }
    }
    if allocator.registry().registry().live@.contains_key(user) {
        let record = after.registry().registry().live@[user];
        assert(large_object::record_is_sound(user, record));
        small_and_large_do_not_overlap(after, class, block, user);
        class.block_bytes_fit(after.settings().alignment);
    }
}

/// Law: using one cache leaves every other cache of the allocator in step, and gives it no
/// block that the other holds, unless a block of the other cache was freed.
pub proof fn other_caches_stay_in_step(
    before: Allocator,
    cache_before: ThreadCache,
    after: Allocator,
    cache_after: ThreadCache,
    freed: Option<usize>,
    other: ThreadCache,
)
    requires
        before.wf(),
        after.wf(),
        after.evolved(cache_after, before, cache_before, freed),
        before.bound(other),
        forall|class: SizeClass, block: usize|
            (#[trigger] other.held(class).count(block)) > 0 ==> cache_before.held(class).count(
                block,
            ) == 0 && freed != Some(block),
        freed matches Some(freed_block) ==> has_block(before, freed_block),
        before.serves(cache_before),
    ensures
        after.bound(other),
        forall|class: SizeClass, block: usize|
            (#[trigger] other.held(class).count(block)) > 0 ==> cache_after.held(class).count(block)
                == 0,
{
    broadcast use vstd::multiset::group_multiset_axioms;

    assert forall|class: SizeClass, block: usize| (#[trigger] other.held(class).count(block))
        > 0 implies before.pools().pool(class).knows(block) && before.pools().pool(
        class,
    ).held().count(block) == 0 && !before.may_change(cache_before, freed, block) && after.stock(
        cache_after,
        class,
    ).count(block) == 0 by {
        cached_block_is_elsewhere(before, cache_before, freed, other, class, block);
        if after.stock(cache_after, class).count(block) > 0 {
            assert(before.stock(cache_before, class).count(block) > 0);
        }
    }
    assert(other.fits(after.pools())) by {
        assert forall|class: SizeClass|
            #![trigger other.local(class)]
            thread_cache::class_fits(
                other.local(class),
                other.staged(class).to_multiset(),
                after.pools().pool(class),
            ) by {
            let staged = other.staged(class).to_multiset();
            let pool = before.pools().pool(class);
            let now = after.pools().pool(class);
            assert(thread_cache::class_fits(other.local(class), staged, pool));
            assert forall|region: Region| #[trigger] other.local(class).owns(
                region,
            ) implies now.registered(region) by {
                assert(before.pools().pool(class).registered(region));
            }
            assert forall|block: usize| #[trigger] other.local(class).held().add(staged).count(
                block,
            ) > 0 implies now.knows(block) by {
                assert(pool.knows(block));
                let region = region_of(before, class, block);
                assert(after.pools().pool(class).registered(region));
                let index = choose|index: int|
                    0 <= index < now.slabs@.len() && (#[trigger] now.slabs@[index]).region()
                        == region;
                assert(now.slabs@[index].region().has(block as int));
            }
            assert forall|block: usize| #[trigger]
                other.local(class).held().add(staged).add(now.held()).count(block) <= 1 by {
                assert(other.local(class).held().add(staged).add(pool.held()).count(block) <= 1);
                assert(now.wf());
                if other.held(class).count(block) > 0 {
                    assert(after.stock(cache_after, class).count(block) == 0);
                }
                assert(now.held().count(block) <= 1);
            }
        }
    }
    assert forall|class: SizeClass, block: usize| (#[trigger] other.held(class).count(block))
        > 0 implies header::same_header(after.bytes(), before.bytes(), block as int) by {
        unchanged_block(before, cache_before, after, cache_after, freed, class, block);
    }
    assert(other.ready(after.bytes())) by {
        assert forall|class: SizeClass| #[trigger] other.local(class).ready(
            after.bytes(),
            class,
            other.id(),
        ) by {
            let local = other.local(class);
            assert(local.ready(before.bytes(), class, other.id()));
            local_stays_ready(other, class, before.bytes(), after.bytes());
        }
        staged_stays_ready(other, before.bytes(), after.bytes());
    }
    assert forall|class: SizeClass, block: usize| (#[trigger] other.held(class).count(block))
        > 0 implies cache_after.held(class).count(block) == 0 by {
        assert(after.stock(cache_after, class).count(block) == 0);
    }
}

/// What a cache holds of `class` stays ready when the headers of its blocks stay as they are.
proof fn local_stays_ready(
    other: ThreadCache,
    class: SizeClass,
    before: Memory,
    after: Memory,
)
    requires
        other.local(class).ready(before, class, other.id()),
        after.wf(),
        after.same_place(before),
        forall|at: SizeClass, block: usize|
            (#[trigger] other.held(at).count(block)) > 0 ==> header::same_header(
                after,
                before,
                block as int,
            ),
    ensures
        other.local(class).ready(after, class, other.id()),
{
    broadcast use vstd::multiset::group_multiset_axioms;

    let local = other.local(class);
    local.parts_are_held();
    if let Some(block) = local.hot_block {
        assert(other.held(class).count(block) > 0);
        header::header_is_kept(after, before, block as int);
    }
    assert forall|id: int| 0 <= id < local.slabs@.len() implies #[trigger] local.slabs@[id].ready(
        after,
        class,
        other.id(),
    ) by {
        assert(local.slabs@[id].ready(before, class, other.id()));
        assert forall|block: usize| #[trigger] local.slabs@[id].free.held().count(
            block,
        ) > 0 implies header::same_header(after, before, block as int) && local_slab::owned(
            after,
            block as int,
            class,
            other.id(),
        ) by {
            assert(local.slabs@[id].held().count(block) > 0);
            assert(local.held().count(block) > 0);
            assert(other.held(class).count(block) > 0);
            header::header_is_kept(after, before, block as int);
        }
        free_list::chain_is_same(local.slabs@[id].free@, after, before);
    }
    assert forall|block: usize| #[trigger] local.shared.held().count(
        block,
    ) > 0 implies header::same_header(after, before, block as int) && header::prepared(
        after,
        block as int,
        class,
    ) by {
        assert(local.held().count(block) > 0);
        assert(other.held(class).count(block) > 0);
        header::header_is_kept(after, before, block as int);
    }
    free_list::chain_is_same(local.shared@, after, before);
}

/// What a cache staged stays linked when the headers of its blocks stay as they are.
proof fn staged_stays_ready(other: ThreadCache, before: Memory, after: Memory)
    requires
        other.ready(before),
        after.wf(),
        after.same_place(before),
        forall|at: SizeClass, block: usize|
            (#[trigger] other.held(at).count(block)) > 0 ==> header::same_header(
                after,
                before,
                block as int,
            ),
    ensures
        forall|class: SizeClass| free_list::chain(#[trigger] other.staged(class), after),
        forall|class: SizeClass, block: usize|
            (#[trigger] other.staged(class).to_multiset().count(block)) > 0 ==> header::prepared(
                after,
                block as int,
                class,
            ),
{
    broadcast use vstd::multiset::group_multiset_axioms;

    assert forall|class: SizeClass, block: usize| (#[trigger] other.staged(
        class,
    ).to_multiset().count(block)) > 0 implies header::same_header(after, before, block as int)
        && header::prepared(after, block as int, class) by {
        assert(other.held(class).count(block) > 0);
        header::header_is_kept(after, before, block as int);
    }
    assert forall|class: SizeClass| free_list::chain(#[trigger] other.staged(class), after) by {
        assert(free_list::chain(other.staged(class), before));
        assert forall|block: usize| #[trigger] other.staged(class).to_multiset().count(
            block,
        ) > 0 implies header::same_header(after, before, block as int) by {
        }
        free_list::chain_is_same(other.staged(class), after, before);
    }
}

/// A block of another cache is known, not in the pool, and does not change.
proof fn cached_block_is_elsewhere(
    before: Allocator,
    cache_before: ThreadCache,
    freed: Option<usize>,
    other: ThreadCache,
    class: SizeClass,
    block: usize,
)
    requires
        before.wf(),
        before.bound(other),
        before.serves(cache_before),
        other.held(class).count(block) > 0,
        forall|at: SizeClass, b: usize|
            (#[trigger] other.held(at).count(b)) > 0 ==> cache_before.held(at).count(b) == 0
                && freed != Some(b),
    ensures
        before.pools().pool(class).knows(block),
        before.pools().pool(class).held().count(block) == 0,
        before.stock(cache_before, class).count(block) == 0,
        block < before.frontier(),
        !before.may_change(cache_before, freed, block),
{
    broadcast use vstd::multiset::group_multiset_axioms;

    let staged = other.staged(class).to_multiset();
    let pool = before.pools().pool(class);
    assert(thread_cache::class_fits(other.local(class), staged, pool));
    assert(other.local(class).held().add(staged).count(block) > 0);
    assert(other.local(class).held().add(staged).add(pool.held()).count(block) <= 1);
    known_block_may_not_change(before, cache_before, freed, class, block);
}

/// A block of a slab that is neither free nor freed does not change.
proof fn known_block_may_not_change(
    before: Allocator,
    cache_before: ThreadCache,
    freed: Option<usize>,
    class: SizeClass,
    block: usize,
)
    requires
        before.wf(),
        before.serves(cache_before),
        before.lives(cache_before, class, block),
        freed != Some(block),
    ensures
        block < before.frontier(),
        !before.may_change(cache_before, freed, block),
{
    broadcast use vstd::multiset::group_multiset_axioms;

    let region = region_of(before, class, block);
    let at = region.position_of(block as int);
    if before.stocks(cache_before, block) {
        let other = choose|other: SizeClass|
            (#[trigger] before.stock(cache_before, other)).count(block) > 0;
        stocked_block_is_known(before, cache_before, other, block);
        assert(other == class);
    }
    if exists|free: FreeLargeBlock| #[trigger]
        before.registry().registry().has_free(free) && free.block_addr == block {
        let free = choose|free: FreeLargeBlock| #[trigger]
            before.registry().registry().has_free(free) && free.block_addr == block;
        assert(before.large_is_reserved(free.block_addr as int, free.block_size as int));
        assert(before.reservations().contains_key(free.block_addr as int));
        assert(before.reservations().contains_key(region.start));
    }
}

/// A free small block belongs to a slab of its class.
pub proof fn stocked_block_is_known(
    allocator: Allocator,
    cache: ThreadCache,
    class: SizeClass,
    block: usize,
)
    requires
        allocator.wf(),
        allocator.serves(cache),
        allocator.stock(cache, class).count(block) > 0,
    ensures
        allocator.pools().pool(class).knows(block),
{
    broadcast use vstd::multiset::group_multiset_axioms;

    allocator.pools().known_blocks_fit(allocator.bytes(), class);
    if allocator.pools().pool(class).held().count(block) == 0 {
        assert(cache.held(class).count(block) > 0);
        if cache.bound_to() == Some(allocator.number()) {
            let staged = cache.staged(class).to_multiset();
            assert(thread_cache::class_fits(
                cache.local(class),
                staged,
                allocator.pools().pool(class),
            ));
            assert(cache.local(class).held().add(staged).count(block) > 0);
        } else {
            cache.class_is_wf(class);
            assert(cache.local(class).total_len == 0);
            blocks::blocks_of(cache.staged(class));
        }
    }
}

/// `block` is a block of a slab or of a live large allocation.
pub open spec fn has_block(allocator: Allocator, block: usize) -> bool {
    ||| exists|class: SizeClass| #[trigger] allocator.pools().pool(class).knows(block)
    ||| exists|user: usize| #[trigger]
        allocator.registry().registry().live@.contains_key(user) && user == block + HEADER_SIZE
}

/// The header of a block that may change lies outside the small block `block`.
proof fn change_is_outside_small(
    before: Allocator,
    cache_before: ThreadCache,
    freed: Option<usize>,
    class: SizeClass,
    block: usize,
    changed: usize,
)
    requires
        before.wf(),
        before.serves(cache_before),
        before.pools().pool(class).knows(block),
        !before.may_change(cache_before, freed, block),
        freed matches Some(freed_block) ==> has_block(before, freed_block),
        before.may_change(cache_before, freed, changed),
    ensures
        changed + HEADER_SIZE <= block || block + before.block_bytes(class) <= changed,
{
    before.known_blocks_are_reserved(class, block);
    assert(changed != block);
    if changed < before.frontier() {
        if before.stocks(cache_before, changed) {
            let other = choose|other: SizeClass|
                (#[trigger] before.stock(cache_before, other)).count(changed) > 0;
            stocked_block_is_known(before, cache_before, other, changed);
            small_blocks_do_not_overlap(before, class, block, other, changed);
            other.block_bytes_fit(before.settings().alignment);
        } else if freed == Some(changed) {
            if exists|other: SizeClass| #[trigger] before.pools().pool(other).knows(changed) {
                let other = choose|other: SizeClass| #[trigger]
                    before.pools().pool(other).knows(changed);
                small_blocks_do_not_overlap(before, class, block, other, changed);
                other.block_bytes_fit(before.settings().alignment);
            } else {
                let user = choose|user: usize| #[trigger]
                    before.registry().registry().live@.contains_key(user) && user == changed
                        + HEADER_SIZE;
                small_and_large_do_not_overlap(before, class, block, user);
                assert(large_object::record_is_sound(
                    user,
                    before.registry().registry().live@[user],
                ));
            }
        } else {
            let free = choose|free: FreeLargeBlock| #[trigger]
                before.registry().registry().has_free(free) && free.block_addr == changed;
            assert(before.large_is_reserved(free.block_addr as int, free.block_size as int));
            assert(before.reservations().contains_key(free.block_addr as int));
            let region = region_of(before, class, block);
            let at = region.position_of(block as int);
            assert(before.reservations().contains_key(region.start));
            free_block_is_long(before, free);
        }
    }
}

/// A reusable large block has room for a header.
proof fn free_block_is_long(allocator: Allocator, free: FreeLargeBlock)
    requires
        allocator.wf(),
        allocator.registry().registry().has_free(free),
    ensures
        free.block_size >= HEADER_SIZE,
{
    assert(allocator.registry().registry().wf());
}

/// The header of a block that may change lies outside the live large block of `user`.
proof fn change_is_outside_large(
    before: Allocator,
    cache_before: ThreadCache,
    freed: Option<usize>,
    user: usize,
    changed: usize,
)
    requires
        before.wf(),
        before.serves(cache_before),
        before.registry().registry().live@.contains_key(user),
        freed matches Some(freed_block) ==> has_block(before, freed_block),
        freed != Some((user - HEADER_SIZE) as usize),
        before.may_change(cache_before, freed, changed),
    ensures
        changed + HEADER_SIZE <= before.registry().registry().live@[user].block_addr
            || before.registry().registry().live@[user].block_addr
            + before.registry().registry().live@[user].block_size <= changed,
{
    let record = before.registry().registry().live@[user];
    assert(large_object::record_is_sound(user, record));
    assert(before.large_is_reserved(record.block_addr as int, record.block_size as int));
    assert(before.reservations().contains_key(record.block_addr as int));
    if changed < before.frontier() {
        if before.stocks(cache_before, changed) {
            let other = choose|other: SizeClass|
                (#[trigger] before.stock(cache_before, other)).count(changed) > 0;
            stocked_block_is_known(before, cache_before, other, changed);
            small_and_large_do_not_overlap(before, other, changed, user);
            other.block_bytes_fit(before.settings().alignment);
        } else if freed == Some(changed) {
            if exists|other: SizeClass| #[trigger] before.pools().pool(other).knows(changed) {
                let other = choose|other: SizeClass| #[trigger]
                    before.pools().pool(other).knows(changed);
                small_and_large_do_not_overlap(before, other, changed, user);
                other.block_bytes_fit(before.settings().alignment);
            } else {
                let other = choose|other: usize| #[trigger]
                    before.registry().registry().live@.contains_key(other) && other == changed
                        + HEADER_SIZE;
                large_blocks_do_not_overlap(before, user, other);
                assert(large_object::record_is_sound(
                    other,
                    before.registry().registry().live@[other],
                ));
            }
        } else {
            let free = choose|free: FreeLargeBlock| #[trigger]
                before.registry().registry().has_free(free) && free.block_addr == changed;
            assert(before.large_is_reserved(free.block_addr as int, free.block_size as int));
            assert(before.reservations().contains_key(free.block_addr as int));
            free_block_is_long(before, free);
            free_block_is_not_live(before, free, user);
        }
    }
}

/// A reusable large block is not a live one.
proof fn free_block_is_not_live(allocator: Allocator, free: FreeLargeBlock, user: usize)
    requires
        allocator.wf(),
        allocator.registry().registry().has_free(free),
        allocator.registry().registry().live@.contains_key(user),
    ensures
        free.block_addr != allocator.registry().registry().live@[user].block_addr,
{
    let registry = allocator.registry().registry();
    assert(large_object::record_is_sound(user, registry.live@[user]));
    let index = choose|index: int|
        0 <= index < registry.free@[free.block_size]@.len()
            && registry.free@[free.block_size]@[index] == free;
    assert(registry.free@[free.block_size]@[index].block_addr + HEADER_SIZE <= usize::MAX);
}

/// The bytes of a small block that may not change stay as they are.
proof fn unchanged_block(
    before: Allocator,
    cache_before: ThreadCache,
    after: Allocator,
    cache_after: ThreadCache,
    freed: Option<usize>,
    class: SizeClass,
    block: usize,
)
    requires
        before.wf(),
        before.serves(cache_before),
        after.evolved(cache_after, before, cache_before, freed),
        before.pools().pool(class).knows(block),
        !before.may_change(cache_before, freed, block),
        freed matches Some(freed_block) ==> has_block(before, freed_block),
    ensures
        forall|at: int|
            block <= at < block + before.block_bytes(class) ==> #[trigger] after.bytes().byte(at)
                == before.bytes().byte(at),
        before.block_bytes(class) >= HEADER_SIZE,
{
    class.block_bytes_fit(before.settings().alignment);
    before.known_blocks_are_reserved(class, block);
    assert forall|at: int|
        block <= at < block + before.block_bytes(class) implies #[trigger] after.bytes().byte(at)
        == before.bytes().byte(at) by {
        if after.bytes().byte(at) != before.bytes().byte(at) {
            assert(after.bytes().covers(at, 1));
            let changed = choose|changed: usize| #[trigger]
                before.may_change(cache_before, freed, changed) && changed <= at < changed
                    + HEADER_SIZE;
            change_is_outside_small(before, cache_before, freed, class, block, changed);
        }
    }
}

/// Law: while other blocks are allocated and freed, a live small allocation stays live and
/// every byte of it, header and payload, stays as it is.
pub proof fn live_small_block_is_kept(
    before: Allocator,
    cache_before: ThreadCache,
    after: Allocator,
    cache_after: ThreadCache,
    freed: Option<usize>,
    class: SizeClass,
    block: usize,
)
    requires
        before.wf(),
        before.serves(cache_before),
        after.wf(),
        after.evolved(cache_after, before, cache_before, freed),
        freed matches Some(freed_block) ==> has_block(before, freed_block),
        before.lives(cache_before, class, block),
        freed != Some(block),
    ensures
        after.lives(cache_after, class, block),
        forall|at: int|
            block <= at < block + before.block_bytes(class) ==> #[trigger] after.bytes().byte(at)
                == before.bytes().byte(at),
{
    known_block_may_not_change(before, cache_before, freed, class, block);
    unchanged_block(before, cache_before, after, cache_after, freed, class, block);
    known_block_stays_known(before, cache_before, after, cache_after, freed, class, block);
}

/// A block of a slab stays one.
proof fn known_block_stays_known(
    before: Allocator,
    cache_before: ThreadCache,
    after: Allocator,
    cache_after: ThreadCache,
    freed: Option<usize>,
    class: SizeClass,
    block: usize,
)
    requires
        before.wf(),
        after.evolved(cache_after, before, cache_before, freed),
        before.pools().pool(class).knows(block),
    ensures
        after.pools().pool(class).knows(block),
{
    let now = after.pools().pool(class);
    let region = region_of(before, class, block);
    assert(now.registered(region));
    let index = choose|index: int|
        0 <= index < now.slabs@.len() && (#[trigger] now.slabs@[index]).region() == region;
    assert(now.slabs@[index].region().has(block as int));
}

/// Law: while other blocks are allocated and freed, a live large allocation stays live with
/// its record, and every byte of it stays as it is.
pub proof fn live_large_block_is_kept(
    before: Allocator,
    cache_before: ThreadCache,
    after: Allocator,
    cache_after: ThreadCache,
    freed: Option<usize>,
    user: usize,
)
    requires
        before.wf(),
        before.serves(cache_before),
        after.wf(),
        after.evolved(cache_after, before, cache_before, freed),
        freed matches Some(freed_block) ==> has_block(before, freed_block),
        before.registry().registry().live@.contains_key(user),
        freed != Some((user - HEADER_SIZE) as usize),
    ensures
        after.registry().registry().live@.contains_key(user),
        after.registry().registry().live@[user] == before.registry().registry().live@[user],
        ({
            let record = before.registry().registry().live@[user];
            forall|at: int|
                record.block_addr <= at < record.block_addr + record.block_size
                    ==> #[trigger] after.bytes().byte(at) == before.bytes().byte(at)
        }),
{
    let record = before.registry().registry().live@[user];
    assert(large_object::record_is_sound(user, record));
    assert(before.large_is_reserved(record.block_addr as int, record.block_size as int));
    assert(before.reservations().contains_key(record.block_addr as int));
    assert forall|at: int|
        record.block_addr <= at < record.block_addr + record.block_size implies #[trigger] after.bytes().byte(
        at,
    ) == before.bytes().byte(at) by {
        if after.bytes().byte(at) != before.bytes().byte(at) {
            assert(after.bytes().covers(at, 1));
            let changed = choose|changed: usize| #[trigger]
                before.may_change(cache_before, freed, changed) && changed <= at < changed
                    + HEADER_SIZE;
            change_is_outside_large(before, cache_before, freed, user, changed);
        }
    }
}

/// A block of a slab is an aligned address of the arena whose header can be read.
pub proof fn known_block_is_addressable(allocator: Allocator, class: SizeClass, block: usize)
    requires
        allocator.wf(),
        allocator.pools().pool(class).knows(block),
    ensures
        allocator.ground().has_block_start(block as int),
        allocator.bytes().covers(block as int, HEADER_SIZE as int),
        block % HEADER_ALIGNMENT == 0,
        block + HEADER_SIZE <= usize::MAX,
{
    let region = region_of(allocator, class, block);
    let at = region.position_of(block as int);
    let (step, size) = (allocator.ground().step(), region.block_size);
    let first = region.start - allocator.ground().origin();
    allocator.pools().known_blocks_fit(allocator.bytes(), class);
    allocator.known_blocks_are_reserved(class, block);
    class.block_bytes_fit(allocator.settings().alignment);
    assert(allocator.reservations().contains_key(region.start));
    assert(size_class::effective_alignment(allocator.settings().alignment as int) == step);
    vstd::arithmetic::div_mod::lemma_fundamental_div_mod(size, step);
    vstd::arithmetic::div_mod::lemma_fundamental_div_mod(first, step);
    let (k, n) = (size / step, first / step);
    assert(first + size * at == (n + k * at) * step) by (nonlinear_arith)
        requires
            size == step * k,
            first == step * n,
    ;
    vstd::arithmetic::div_mod::lemma_mod_multiples_basic(n + k * at, step);
}

/// The routing fields of a live small allocation read back as what was recorded.
proof fn live_small_reads_back(
    memory: Memory,
    block: int,
    class: SizeClass,
    requested_size: int,
    owner: u32,
)
    requires
        header::live_small(memory, block, class, requested_size, owner),
        0 < requested_size <= class.payload(),
        block % 64 == 0,
        0 <= block <= usize::MAX,
    ensures
        AllocationHeaderPrefix::stored(memory, block) is Some,
        ({
            let prefix = AllocationHeaderPrefix::stored(memory, block)->0;
            &&& prefix.route() == Some(AllocationKind::Small(class))
            &&& prefix.requested_size == requested_size
            &&& prefix.owner_cache_id == owner
        }),
        !header::marked_freed(memory, block),
{
    assert(header::class_at(class.position()) == Some(class));
    header::free_marker_is_not_zero(block as u64);
}

/// The header in front of a live small allocation names its class, size and owner.
pub proof fn live_small_is_routed(
    allocator: Allocator,
    cache: ThreadCache,
    class: SizeClass,
    requested_size: usize,
    owner: u32,
    user: usize,
    outside: Option<AllocationHeaderPrefix>,
)
    requires
        allocator.wf(),
        HEADER_SIZE <= user,
        allocator.lives(cache, class, (user - HEADER_SIZE) as usize),
        header::live_small(
            allocator.bytes(),
            user - HEADER_SIZE,
            class,
            requested_size as int,
            owner,
        ),
        0 < requested_size <= class.payload(),
    ensures
        allocator.header_of(user, outside) is Some,
        ({
            let prefix = allocator.header_of(user, outside)->0;
            &&& prefix.route() == Some(AllocationKind::Small(class))
            &&& prefix.requested_size == requested_size
            &&& prefix.owner_cache_id == owner
        }),
{
    let block = (user - HEADER_SIZE) as usize;
    known_block_is_addressable(allocator, class, block);
    live_small_reads_back(
        allocator.bytes(),
        block as int,
        class,
        requested_size as int,
        owner,
    );
}

/// Law: freeing a block that was never handed out is refused: its header is as it was written
/// when its slab was reserved, and records no request.
pub proof fn untouched_block_is_refused(
    allocator: Allocator,
    class: SizeClass,
    block: usize,
    outside: Option<AllocationHeaderPrefix>,
    expected: Option<usize>,
)
    requires
        allocator.wf(),
        allocator.pools().pool(class).knows(block),
        AllocationHeader::small(class, 0, 0).is_at(allocator.bytes(), block as int),
    ensures
        block + HEADER_SIZE <= usize::MAX,
        allocator.own_free_outcome((block + HEADER_SIZE) as usize, outside, expected) == Err::<
            (),
            FreeError,
        >(FreeError::CorruptHeader),
{
    known_block_is_addressable(allocator, class, block);
    header::written_header_reads_back(
        allocator.bytes(),
        block as int,
        AllocationHeader::small(class, 0, 0),
    );
}

/// Law: when a request reserves a slab, all its blocks but the one handed out are refused when
/// they are freed.
pub proof fn rest_of_a_new_slab_is_refused(
    allocator: Allocator,
    cache: ThreadCache,
    after: Allocator,
    cache_after: ThreadCache,
    class: SizeClass,
    requested_size: usize,
    user: usize,
    block: usize,
    outside: Option<AllocationHeaderPrefix>,
    expected: Option<usize>,
)
    requires
        allocator.wf(),
        after.wf(),
        after.bound(cache_after),
        allocator.needs_slab(cache, class),
        allocator.small_outcome(cache, after, cache_after, class, requested_size, Ok(user)),
        allocator.next_slab(class).has(block as int),
        block + HEADER_SIZE != user,
    ensures
        block + HEADER_SIZE <= usize::MAX,
        after.own_free_outcome((block + HEADER_SIZE) as usize, outside, expected) == Err::<
            (),
            FreeError,
        >(FreeError::CorruptHeader),
{
    broadcast use vstd::multiset::group_multiset_axioms;

    let region = allocator.next_slab(class);
    allocator.next_slab_facts(class);
    region.tail_counts(0);
    let at = region.position_of(block as int);
    if at > 0 {
        region.blocks_ascend(0, at);
    }
    assert(region.all().count(block) > 0);
    assert(after.stock(cache_after, class).insert((user - HEADER_SIZE) as usize).count(block) > 0);
    stocked_block_is_known(after, cache_after, class, block);
    untouched_block_is_refused(after, class, block, outside, expected);
}

/// What freeing an allocation of `requested_size` bytes gives when the caller expects
/// `expected` bytes.
pub open spec fn sized_free(requested_size: usize, expected: Option<usize>) -> Result<(), FreeError> {
    match expected {
        Some(size) => if size != requested_size {
            Err(FreeError::SizeMismatch { provided: size, recorded: requested_size })
        } else {
            Ok(())
        },
        None => Ok(()),
    }
}

/// Law: a live small allocation can be freed, without a size or with the requested one; with
/// any other size the free is refused and names both sizes.
pub proof fn live_small_allocation_can_be_freed(
    allocator: Allocator,
    cache: ThreadCache,
    class: SizeClass,
    requested_size: usize,
    owner: u32,
    user: usize,
    outside: Option<AllocationHeaderPrefix>,
    expected: Option<usize>,
)
    requires
        allocator.wf(),
        HEADER_SIZE <= user,
        allocator.lives(cache, class, (user - HEADER_SIZE) as usize),
        header::live_small(
            allocator.bytes(),
            user - HEADER_SIZE,
            class,
            requested_size as int,
            owner,
        ),
        0 < requested_size <= class.payload(),
    ensures
        allocator.own_free_outcome(user, outside, expected) == sized_free(requested_size, expected),
        allocator.may_free_own(cache, user, outside, expected),
{
    let block = (user - HEADER_SIZE) as usize;
    known_block_is_addressable(allocator, class, block);
    live_small_reads_back(
        allocator.bytes(),
        block as int,
        class,
        requested_size as int,
        owner,
    );
}

/// Law: a small allocation can be freed right away, with the same outcomes.
pub proof fn small_allocation_can_be_freed(
    allocator: Allocator,
    cache: ThreadCache,
    after: Allocator,
    cache_after: ThreadCache,
    class: SizeClass,
    requested_size: usize,
    user: usize,
    outside: Option<AllocationHeaderPrefix>,
    expected: Option<usize>,
)
    requires
        allocator.small_outcome(cache, after, cache_after, class, requested_size, Ok(user)),
        after.wf(),
        0 < requested_size <= class.payload(),
    ensures
        after.own_free_outcome(user, outside, expected) == sized_free(requested_size, expected),
        after.may_free_own(cache_after, user, outside, expected),
{
    live_small_allocation_can_be_freed(
        after,
        cache_after,
        class,
        requested_size,
        cache.id(),
        user,
        outside,
        expected,
    );
}

/// Law: a small block that was freed cannot be freed again: whatever size the caller names,
/// the second free is refused as a double free.
pub proof fn second_free_is_a_double_free(
    before: Allocator,
    cache_before: ThreadCache,
    after: Allocator,
    cache_after: ThreadCache,
    class: SizeClass,
    user: usize,
    outside: Option<AllocationHeaderPrefix>,
    first_expected: Option<usize>,
    expected: Option<usize>,
)
    requires
        before.wf(),
        after.wf(),
        before.may_free_own(cache_before, user, outside, first_expected),
        before.own_free_outcome(user, outside, first_expected) is Ok,
        before.header_of(user, outside)->0.route() == Some(AllocationKind::Small(class)),
        after.own_freed(cache_after, before, cache_before, user, outside, Ok(())),
    ensures
        after.own_free_outcome(user, outside, expected) == Err::<(), FreeError>(FreeError::DoubleFree),
{
    let block = (user - HEADER_SIZE) as usize;
    let prefix = before.header_of(user, outside)->0;
    known_block_is_addressable(before, class, block);
    let bound = choose|bound: ThreadCache|
        before.binds(bound, cache_before) && #[trigger] after.freed(
            cache_after,
            before,
            bound,
            user,
            prefix,
            Ok(()),
        );
    assert(after.small_freed(
        cache_after,
        before,
        bound,
        class,
        block,
        prefix.owner_cache_id,
    ));
}

/// A cache that just took back a block of its own can serve a request of its class.
pub proof fn hot_block_is_next(
    allocator: Allocator,
    cache: ThreadCache,
    class: SizeClass,
    block: usize,
)
    requires
        allocator.bound(cache),
        cache.local(class).hot_block == Some(block),
    ensures
        cache.local(class).total_len > 0,
        cache.local(class).next().0 == block,
{
    broadcast use vstd::multiset::group_multiset_axioms;

    let local = cache.local(class);
    cache.class_is_wf(class);
    local.parts_are_held();
    blocks::countable_blocks(local.held());
}

/// Law: a block that its own cache freed is the next block of its class that this cache hands
/// out.
pub proof fn freed_block_is_handed_out_next(
    before: Allocator,
    cache_before: ThreadCache,
    freed: Allocator,
    cache_freed: ThreadCache,
    after: Allocator,
    cache_after: ThreadCache,
    class: SizeClass,
    block: usize,
    requested_size: usize,
    user: usize,
)
    requires
        freed.small_freed(
            cache_freed,
            before,
            cache_before,
            class,
            block,
            cache_before.id(),
        ),
        freed.bound(cache_freed),
        freed.small_outcome(
            cache_freed,
            after,
            cache_after,
            class,
            requested_size,
            Ok(user),
        ),
    ensures
        user == block + HEADER_SIZE,
{
    hot_block_is_next(freed, cache_freed, class, block);
}

/// Law: allocating a small block and freeing it again leaves every block of its class free
/// that was free before, and the blocks of a slab that was reserved for it.
pub proof fn freeing_restores_the_stock(
    before: Allocator,
    cache_before: ThreadCache,
    middle: Allocator,
    cache_middle: ThreadCache,
    after: Allocator,
    cache_after: ThreadCache,
    class: SizeClass,
    requested_size: usize,
    user: usize,
)
    requires
        before.small_outcome(
            cache_before,
            middle,
            cache_middle,
            class,
            requested_size,
            Ok(user),
        ),
        after.small_freed(
            cache_after,
            middle,
            cache_middle,
            class,
            (user - HEADER_SIZE) as usize,
            cache_middle.id(),
        ),
    ensures
        after.stock(cache_after, class) == before.stock(cache_before, class).add(
            before.fresh_blocks(cache_before, class),
        ),
{
}

/// The large allocation at `user` is live, and its header says so.
pub open spec fn live_large(allocator: Allocator, user: usize, requested_size: usize) -> bool {
    let record = allocator.registry().registry().live@[user];
    &&& allocator.registry().registry().live@.contains_key(user)
    &&& record.requested_size == requested_size
    &&& header::large_fields_fit(requested_size as int, record.block_size - HEADER_SIZE)
    &&& AllocationHeader::large(requested_size as int, record.block_size - HEADER_SIZE).is_at(
        allocator.bytes(),
        user - HEADER_SIZE,
    )
}

/// Law: a live large allocation can be freed, without a size or with the requested one; with
/// any other size the free is refused and names both sizes.
pub proof fn live_large_allocation_can_be_freed(
    allocator: Allocator,
    cache: ThreadCache,
    requested_size: usize,
    user: usize,
    outside: Option<AllocationHeaderPrefix>,
    expected: Option<usize>,
)
    requires
        allocator.wf(),
        live_large(allocator, user, requested_size),
    ensures
        allocator.own_free_outcome(user, outside, expected) == sized_free(requested_size, expected),
        allocator.may_free_own(cache, user, outside, expected),
{
    let record = allocator.registry().registry().live@[user];
    assert(large_object::record_is_sound(user, record));
    assert(allocator.large_is_reserved(record.block_addr as int, record.block_size as int));
    assert(allocator.reservations().contains_key(record.block_addr as int));
    let written = AllocationHeader::large(
        requested_size as int,
        record.block_size - HEADER_SIZE,
    );
    header::written_header_reads_back(allocator.bytes(), user - HEADER_SIZE, written);
}

/// Law: a large allocation can be freed right away, with the same outcomes.
pub proof fn large_allocation_can_be_freed(
    allocator: Allocator,
    after: Allocator,
    cache_after: ThreadCache,
    requested_size: usize,
    user: usize,
    outside: Option<AllocationHeaderPrefix>,
    expected: Option<usize>,
)
    requires
        allocator.large_outcome(after, requested_size, Ok(user)),
        after.wf(),
    ensures
        after.own_free_outcome(user, outside, expected) == sized_free(requested_size, expected),
        after.may_free_own(cache_after, user, outside, expected),
{
    live_large_allocation_can_be_freed(
        after,
        cache_after,
        requested_size,
        user,
        outside,
        expected,
    );
}

/// Law: a large allocation that was freed cannot be freed again: the second free is refused
/// as unknown, or for its size when the caller names another one.
pub proof fn second_free_of_large_is_refused(
    before: Allocator,
    cache_before: ThreadCache,
    after: Allocator,
    cache_after: ThreadCache,
    user: usize,
    outside: Option<AllocationHeaderPrefix>,
    first_expected: Option<usize>,
    expected: Option<usize>,
)
    requires
        before.wf(),
        after.wf(),
        before.own_free_outcome(user, outside, first_expected) is Ok,
        before.header_of(user, outside)->0.route() == Some(AllocationKind::Large),
        after.own_freed(cache_after, before, cache_before, user, outside, Ok(())),
    ensures
        ({
            let prefix = before.header_of(user, outside)->0;
            after.own_free_outcome(user, outside, expected) == Err::<(), FreeError>(
                if allocator::size_differs(prefix, expected) {
                    allocator::size_mismatch(prefix, expected)
                } else {
                    FreeError::AlreadyFreedOrUnknownLarge
                },
            )
        }),
{
    let prefix = before.header_of(user, outside)->0;
    let bound = choose|bound: ThreadCache|
        before.binds(bound, cache_before) && #[trigger] after.freed(
            cache_after,
            before,
            bound,
            user,
            prefix,
            Ok(()),
        );
    assert(after.large_freed(cache_after, before, bound, user));
}

/// Law: a freed large block serves later requests: every request that fits into it can be
/// served, and it is itself the block that serves the request when no smaller reusable block
/// is large enough.
pub proof fn freed_large_block_is_reused(
    before: Allocator,
    cache_before: ThreadCache,
    after: Allocator,
    cache_after: ThreadCache,
    user: usize,
    requested_size: usize,
)
    requires
        before.wf(),
        after.wf(),
        before.registry().registry().live@.contains_key(user),
        after.large_freed(cache_after, before, cache_before, user),
        0 < requested_size,
        after.large_bytes(requested_size as int)
            <= before.registry().registry().live@[user].block_size,
    ensures
        after.has_large_room(requested_size as int),
        ({
            let record = before.registry().registry().live@[user];
            (forall|other: usize| #[trigger]
                before.registry().registry().free@.contains_key(other)
                    && other >= after.large_bytes(requested_size as int) ==> record.block_size
                    <= other) ==> after.large_choice(
                requested_size as int,
                record.block_addr as int,
                record.block_size as int,
            )
        }),
{
    let record = before.registry().registry().live@[user];
    let block = FreeLargeBlock { block_addr: record.block_addr, block_size: record.block_size };
    let registry = after.registry().registry();
    let earlier = before.registry().registry();
    let need = after.large_bytes(requested_size as int);
    assert(registry.has_free(block));
    assert(registry.free@.contains_key(block.block_size));
    align::rounded_up_is_least_multiple(
        requested_size + HEADER_SIZE,
        after.settings().alignment as int,
    );
    let size = smallest_fit(registry, need as usize, block.block_size);
    assert(after.large_choice(
        requested_size as int,
        registry.free@[size]@.last().block_addr as int,
        size as int,
    ));
    if forall|other: usize| #[trigger]
        earlier.free@.contains_key(other) && other >= need ==> record.block_size <= other {
        assert forall|other: usize| #[trigger]
            registry.free@.contains_key(other) && other >= need implies record.block_size
            <= other by {
            assert(registry.free@[other]@.len() > 0);
            let held = registry.free@[other]@[0];
            assert(registry.free@[other]@.contains(held));
            assert(held.block_size == other);
            assert(registry.has_free(held));
            if held != block {
                assert(earlier.has_free(held));
            }
        }
        assert(registry.best_fit(need as usize, record.block_size));
    }
}

/// Among the sizes of reusable blocks that are large enough there is a smallest one.
pub proof fn smallest_fit(
    registry: large_object::LargeObjectState,
    minimum: usize,
    found: usize,
) -> (size: usize)
    requires
        registry.free@.contains_key(found),
        minimum <= found,
    ensures
        registry.best_fit(minimum, size),
        size <= found,
    decreases found,
{
    if exists|other: usize| #[trigger]
        registry.free@.contains_key(other) && minimum <= other < found {
        let other = choose|other: usize| #[trigger]
            registry.free@.contains_key(other) && minimum <= other < found;
        smallest_fit(registry, minimum, other)
    } else {
        found
    }
}

/// Law: what a successful free releases is a block of a slab or a live large allocation, and
/// nothing else.
pub proof fn only_allocations_are_freed(
    allocator: Allocator,
    cache: ThreadCache,
    user: usize,
    outside: Option<AllocationHeaderPrefix>,
    expected: Option<usize>,
)
    requires
        allocator.wf(),
        allocator.may_free_own(cache, user, outside, expected),
        allocator.own_free_outcome(user, outside, expected) is Ok,
    ensures
        has_block(allocator, (user - HEADER_SIZE) as usize),
{
}

/// A block that does not belong to the slab of `class` at `index` lies outside it.
proof fn block_is_outside_slab(
    allocator: Allocator,
    class: SizeClass,
    index: int,
    other: SizeClass,
    block: usize,
)
    requires
        allocator.wf(),
        0 <= index < allocator.pools().pool(class).slabs@.len(),
        allocator.pools().pool(other).knows(block),
        !(other == class && allocator.pools().pool(class).slabs@[index].region().has(block as int)),
    ensures
        block + HEADER_SIZE <= allocator.pools().pool(class).slabs@[index].region().start
            || allocator.pools().pool(class).slabs@[index].region().end() <= block,
{
    let slab = allocator.pools().pool(class).slabs@[index].region();
    assert(allocator.pools().pool(class).registered(slab));
    assert(allocator.reservations().contains_key(slab.start));
    let region = region_of(allocator, other, block);
    let at = region.position_of(block as int);
    assert(allocator.reservations().contains_key(region.start));
    other.block_bytes_fit(allocator.settings().alignment);
    if slab.start == region.start {
        assert(slab.end() == region.end() && other == class);
        assert(slab.capacity == region.capacity) by (nonlinear_arith)
            requires
                slab.block_size * slab.capacity == region.block_size * region.capacity,
                slab.block_size == region.block_size,
                slab.block_size > 0,
        ;
    }
}

/// Law: what the pages of an idle slab hold does not matter. Whatever the system puts there
/// when it reclaims them, the central pool and every bound cache stay in step with the memory.
pub proof fn reclaimed_pages_do_not_matter(
    allocator: Allocator,
    class: SizeClass,
    index: int,
    pages: SweepRequest,
    memory: Memory,
    cache: ThreadCache,
)
    requires
        allocator.wf(),
        allocator.pools().pool(class).idle_slab(index, pages),
        memory.wf(),
        memory.same_outside(allocator.bytes(), pages.addr as int, pages.len as int),
        allocator.bound(cache),
    ensures
        allocator.pools().in_step(memory),
        cache.in_step(allocator.pools(), memory),
{
    broadcast use vstd::multiset::group_multiset_axioms;

    let slab = allocator.pools().pool(class).slabs@[index];
    let bytes = allocator.bytes();
    reclaimed_pools_stay_in_step(allocator, class, index, pages, memory);
    assert(slab.wf());
    slab.region().tail_counts(0);
    assert forall|other: SizeClass, block: usize| (#[trigger] cache.held(other).count(block))
        > 0 implies header::same_header(memory, bytes, block as int) by {
        let staged = cache.staged(other).to_multiset();
        let pool = allocator.pools().pool(other);
        assert(thread_cache::class_fits(cache.local(other), staged, pool));
        assert(cache.local(other).held().add(staged).count(block) > 0);
        assert(cache.local(other).held().add(staged).add(pool.held()).count(block) <= 1);
        if other == class && slab.region().has(block as int) {
            pool.held_facts();
            assert(slab.held().count(block) > 0);
        }
        assert(pool.knows(block));
    }
    assert(cache.ready(memory)) by {
        assert forall|other: SizeClass| #[trigger] cache.local(other).ready(
            memory,
            other,
            cache.id(),
        ) by {
            assert(cache.local(other).ready(bytes, other, cache.id()));
            local_stays_ready(cache, other, bytes, memory);
        }
        staged_stays_ready(cache, bytes, memory);
    }
}

/// The central pool stays in step with the memory when only the pages of an idle slab change,
/// and so do the headers of all blocks of other slabs.
pub proof fn reclaimed_pools_stay_in_step(
    allocator: Allocator,
    class: SizeClass,
    index: int,
    pages: SweepRequest,
    memory: Memory,
)
    requires
        allocator.wf(),
        allocator.pools().pool(class).idle_slab(index, pages),
        memory.wf(),
        memory.same_outside(allocator.bytes(), pages.addr as int, pages.len as int),
    ensures
        allocator.pools().in_step(memory),
        allocator.pools().pool(class).wf(),
        allocator.pools().pool(class).slabs@[index].wf(),
        forall|other: SizeClass, block: usize| #[trigger]
            allocator.pools().pool(other).knows(block) && !(other == class
                && allocator.pools().pool(class).slabs@[index].region().has(block as int))
                ==> header::same_header(memory, allocator.bytes(), block as int),
{
    broadcast use vstd::multiset::group_multiset_axioms;

    let slab = allocator.pools().pool(class).slabs@[index];
    let bytes = allocator.bytes();
    assert(allocator.pools().pool(class).wf());
    assert(slab.wf());
    slab.region().tail_counts(0);
    arena::inner_pages_are_inside(
        slab.start as int,
        slab.block_size * slab.capacity,
        allocator.pools().pool(class).page_size as int,
        (pages.addr, pages.len),
    );
    assert forall|other: SizeClass, block: usize| #[trigger]
        allocator.pools().pool(other).knows(block) && !(other == class && slab.region().has(
            block as int,
        )) implies header::same_header(memory, bytes, block as int) by {
        block_is_outside_slab(allocator, class, index, other, block);
        allocator.pools().known_blocks_fit(bytes, other);
        assert(header::header_fits(bytes, block as int));
        assert forall|at: int| block <= at < block + 64 implies #[trigger] memory.byte(at)
            == bytes.byte(at) by {
            assert(memory.covers(at, 1));
        }
    }
    assert forall|other: SizeClass| #[trigger] allocator.pools().pool(other).ready(
        memory,
        other,
    ) by {
        listed_blocks_are_elsewhere(allocator, class, index, other);
        pool_stays_ready(allocator, memory, other);
    }
    assert(allocator.pools().slabs_fit(memory)) by {
        assert forall|other: SizeClass, region: Region| #[trigger]
            allocator.pools().pool(other).registered(region) implies local_slab::region_fits(
            memory,
            region,
        ) by {
            assert(local_slab::region_fits(bytes, region));
        }
    }
}

/// No block that is listed in a pool is one of a slab that is in the pool as a whole.
proof fn listed_blocks_are_elsewhere(
    allocator: Allocator,
    class: SizeClass,
    index: int,
    other: SizeClass,
)
    requires
        allocator.wf(),
        0 <= index < allocator.pools().pool(class).slabs@.len(),
        allocator.pools().pool(class).slabs@[index].full(),
    ensures
        forall|block: usize| #[trigger]
            allocator.pools().pool(other).inbox.held().count(block) > 0 ==> !(other == class
                && allocator.pools().pool(class).slabs@[index].region().has(block as int)),
        forall|at: int, block: usize|
            0 <= at < allocator.pools().pool(other).slabs@.len()
                && #[trigger] allocator.pools().pool(other).slabs@[at].partial_free.held().count(
                block,
            ) > 0 ==> !(other == class && allocator.pools().pool(class).slabs@[index].region().has(
                block as int,
            )),
{
    broadcast use vstd::multiset::group_multiset_axioms;

    let pool = allocator.pools().pool(other);
    let slab = allocator.pools().pool(class).slabs@[index];
    assert(allocator.pools().pool(class).wf());
    assert(pool.wf());
    assert(slab.wf());
    slab.region().tail_counts(0);
    pool.held_facts();
    assert forall|block: usize| #[trigger] pool.inbox.held().count(block) > 0 implies !(other
        == class && slab.region().has(block as int)) by {
        if other == class && slab.region().has(block as int) {
            assert(slab.held().count(block) > 0);
            class_pool::records_held_has(pool.slabs@, index);
            assert(pool.held().count(block) >= 2);
        }
    }
    assert forall|at: int, block: usize|
        0 <= at < pool.slabs@.len() && #[trigger] pool.slabs@[at].partial_free.held().count(block)
            > 0 implies !(other == class && slab.region().has(block as int)) by {
        assert(pool.slabs@[at].wf());
        assert(pool.slabs@[at].region().has(block as int));
        if other == class && slab.region().has(block as int) {
            blocks::blocks_of(slab.partial_free@);
            let (low, high) = if at < index {
                (at, index)
            } else {
                (index, at)
            };
            if at != index {
                assert(pool.slabs@[low].region().end() <= pool.slabs@[high].region().start);
                let i = pool.slabs@[low].region().position_of(block as int);
                let j = pool.slabs@[high].region().position_of(block as int);
                pool.slabs@[high].region().block_is_inside(j);
            }
        }
    }
}

/// The pool of a class stays ready when the headers of the blocks listed in it stay as they
/// are.
proof fn pool_stays_ready(allocator: Allocator, memory: Memory, class: SizeClass)
    requires
        allocator.wf(),
        memory.wf(),
        memory.same_place(allocator.bytes()),
        forall|block: usize| #[trigger]
            allocator.pools().pool(class).inbox.held().count(block) > 0
                && allocator.pools().pool(class).knows(block) ==> header::same_header(
                memory,
                allocator.bytes(),
                block as int,
            ),
        forall|at: int, block: usize|
            0 <= at < allocator.pools().pool(class).slabs@.len()
                && #[trigger] allocator.pools().pool(class).slabs@[at].partial_free.held().count(
                block,
            ) > 0 && allocator.pools().pool(class).knows(block) ==> header::same_header(
                memory,
                allocator.bytes(),
                block as int,
            ),
    ensures
        allocator.pools().pool(class).ready(memory, class),
{
    broadcast use vstd::multiset::group_multiset_axioms;

    let pool = allocator.pools().pool(class);
    assert(pool.wf());
    assert(pool.ready(allocator.bytes(), class));
    pool.held_facts();
    assert forall|block: usize| #[trigger] pool.inbox.held().count(
        block,
    ) > 0 implies header::same_header(memory, allocator.bytes(), block as int) && header::prepared(
        memory,
        block as int,
        class,
    ) by {
        assert(pool.knows(block));
        header::header_is_kept(memory, allocator.bytes(), block as int);
    }
    free_list::chain_is_same(pool.inbox@, memory, allocator.bytes());
    assert forall|at: int, block: usize|
        0 <= at < pool.slabs@.len() && #[trigger] pool.slabs@[at].partial_free.held().count(block)
            > 0 implies header::same_header(memory, allocator.bytes(), block as int)
        && header::prepared(memory, block as int, class) by {
        assert(pool.slabs@[at].wf());
        assert(pool.slabs@[at].region().has(block as int));
        assert(pool.knows(block));
        header::header_is_kept(memory, allocator.bytes(), block as int);
    }
    assert forall|at: int| 0 <= at < pool.slabs@.len() implies (
    #[trigger] pool.slabs@[at]).partial_free.linked(memory) by {
        assert(pool.slabs@[at].partial_free.linked(allocator.bytes()));
        assert forall|block: usize| #[trigger] pool.slabs@[at].partial_free.held().count(
            block,
        ) > 0 implies header::same_header(memory, allocator.bytes(), block as int) by {
        }
        free_list::chain_is_same(pool.slabs@[at].partial_free@, memory, allocator.bytes());
    }
}

/// Every header of a block of a slab is the same in `memory`.
pub open spec fn headers_stay(allocator: Allocator, memory: Memory) -> bool {
    forall|class: SizeClass, block: usize| #[trigger]
        allocator.pools().pool(class).knows(block) ==> header::same_header(
            memory,
            allocator.bytes(),
            block as int,
        )
}

/// The central pool stays in step with memory in which the headers of all blocks are the same.
pub proof fn pools_stay_in_step(allocator: Allocator, memory: Memory)
    requires
        allocator.wf(),
        memory.wf(),
        memory.same_place(allocator.bytes()),
        headers_stay(allocator, memory),
    ensures
        allocator.pools().in_step(memory),
{
    assert forall|class: SizeClass| #[trigger] allocator.pools().pool(class).ready(
        memory,
        class,
    ) by {
        pool_stays_ready(allocator, memory, class);
    }
    assert forall|class: SizeClass, region: Region| #[trigger]
        allocator.pools().pool(class).registered(region) implies local_slab::region_fits(
        memory,
        region,
    ) by {
        assert(local_slab::region_fits(allocator.bytes(), region));
    }
}

/// A bound cache stays in step with memory in which the headers of all blocks are the same.
pub proof fn cache_stays_in_step(allocator: Allocator, memory: Memory, cache: ThreadCache)
    requires
        allocator.wf(),
        allocator.bound(cache),
        memory.wf(),
        memory.same_place(allocator.bytes()),
        headers_stay(allocator, memory),
    ensures
        cache.in_step(allocator.pools(), memory),
{
    broadcast use vstd::multiset::group_multiset_axioms;

    let bytes = allocator.bytes();
    pools_stay_in_step(allocator, memory);
    assert forall|class: SizeClass, block: usize| (#[trigger] cache.held(class).count(block))
        > 0 implies header::same_header(memory, bytes, block as int) by {
        let staged = cache.staged(class).to_multiset();
        let pool = allocator.pools().pool(class);
        assert(thread_cache::class_fits(cache.local(class), staged, pool));
        assert(cache.local(class).held().add(staged).count(block) > 0);
        assert(pool.knows(block));
    }
    assert(cache.ready(memory)) by {
        assert forall|class: SizeClass| #[trigger] cache.local(class).ready(
            memory,
            class,
            cache.id(),
        ) by {
            assert(cache.local(class).ready(bytes, class, cache.id()));
            local_stays_ready(cache, class, bytes, memory);
        }
        staged_stays_ready(cache, bytes, memory);
    }
}

/// Law: the blocks of a bound cache, and those of an empty one, can always be counted.
pub proof fn bound_caches_are_countable(allocator: Allocator, cache: ThreadCache)
    requires
        allocator.wf(),
        allocator.bound(cache) || cache.wf() && cache.empty(),
    ensures
        cache.countable(),
{
    broadcast use vstd::multiset::group_multiset_axioms;

    assert forall|class: SizeClass|
        #![trigger cache.local(class)]
        cache.local(class).total_len * class.block_bytes(cache.settings().alignment as int)
            <= usize::MAX by {
        let local = cache.local(class);
        cache.class_is_wf(class);
        if allocator.bound(cache) {
            let staged = cache.staged(class).to_multiset();
            assert(thread_cache::class_fits(local, staged, allocator.pools().pool(class)));
            assert forall|block: usize| #[trigger] local.held().count(block) > 0 implies
                allocator.pools().pool(class).knows(block) by {
                assert(local.held().add(staged).count(block) > 0);
            }
            assert forall|block: usize| #[trigger] local.held().count(block) <= 1 by {
                assert(cache.held(class).count(block) <= 1);
            }
            allocator.class_bytes_fit(class, local.held());
        } else {
            assert(local.total_len == 0);
            assert(0 * class.block_bytes(cache.settings().alignment as int) == 0)
                by (nonlinear_arith);
        }
    }
}

} // verus!
