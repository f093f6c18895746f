use vstd::multiset::Multiset;
use vstd::prelude::*;

use crate::allocator::Allocator;
use crate::api;
use crate::blocks;
use crate::class_pool::SweepRequest;
use crate::error::{AllocError, FreeError};
use crate::header;
use crate::header::{AllocationHeaderPrefix, AllocationKind, HEADER_SIZE};
use crate::large_object;
use crate::laws;
use crate::memory::Memory;
use crate::size_class::SizeClass;
use crate::stats::AllocatorStats;
use crate::thread_cache;
use crate::thread_cache::ThreadCache;

verus! {

/// `caches` are caches of `allocator`, and no two of them hold the same block.
pub open spec fn shared_by(allocator: Allocator, caches: Seq<ThreadCache>) -> bool {
    &&& allocator.wf()
    &&& forall|at: int| 0 <= at < caches.len() ==> allocator.serves(#[trigger] caches[at])
    &&& forall|one: int, other: int, class: SizeClass, block: usize|
        0 <= one < caches.len() && 0 <= other < caches.len() && one != other
            && #[trigger] caches[one].held(class).count(block) > 0
            ==> #[trigger] caches[other].held(class).count(block) == 0
}

/// The allocation of `size` bytes at `user` is live: a large one that is recorded, or a small
/// one.
pub open spec fn occupied(
    allocator: Allocator,
    caches: Seq<ThreadCache>,
    user: usize,
    size: usize,
) -> bool {
    ||| allocator.registry().registry().live@.contains_key(user)
        && allocator.registry().registry().live@[user].requested_size == size
    ||| exists|class: SizeClass| #[trigger] occupied_small(allocator, caches, class, user, size)
}

/// The block at `user` is one of a slab of `class`, is in no cache and not in the central pool,
/// and has room for `size` bytes.
pub open spec fn occupied_small(
    allocator: Allocator,
    caches: Seq<ThreadCache>,
    class: SizeClass,
    user: usize,
    size: usize,
) -> bool {
    let block = (user - HEADER_SIZE) as usize;
    &&& HEADER_SIZE <= user
    &&& 0 < size <= class.payload()
    &&& allocator.pools().pool(class).knows(block)
    &&& allocator.pools().pool(class).held().count(block) == 0
    &&& forall|at: int|
        0 <= at < caches.len() ==> (#[trigger] caches[at]).held(class).count(block) == 0
}

/// All of `live`, address and requested size of each, are live.
pub open spec fn all_live(
    allocator: Allocator,
    caches: Seq<ThreadCache>,
    live: Map<usize, usize>,
) -> bool {
    forall|user: usize| #[trigger]
        live.contains_key(user) ==> occupied(allocator, caches, user, live[user])
}

/// The bytes of an allocation with its header, and those of another with its header, have none
/// in common.
pub open spec fn apart(user: usize, size: usize, other: usize, other_size: usize) -> bool {
    user + size <= other - HEADER_SIZE || other + other_size <= user - HEADER_SIZE
}

/// An allocation with its header lies inside the arena, at an aligned address.
pub open spec fn placed(allocator: Allocator, user: usize, size: usize) -> bool {
    &&& user % 64 == 0
    &&& allocator.ground().origin() <= user - HEADER_SIZE
    &&& user + size <= allocator.ground().origin() + allocator.ground().total()
}

/// Law: every live allocation is placed in the arena, apart from all others.
pub proof fn live_allocations_are_apart(
    allocator: Allocator,
    caches: Seq<ThreadCache>,
    live: Map<usize, usize>,
)
    requires
        shared_by(allocator, caches),
        all_live(allocator, caches, live),
    ensures
        forall|user: usize| #[trigger]
            live.contains_key(user) ==> placed(allocator, user, live[user]),
        forall|user: usize, other: usize| #[trigger]
            live.contains_key(user) && #[trigger] live.contains_key(other) && user != other
                ==> apart(user, live[user], other, live[other]),
{
    assert forall|user: usize| #[trigger] live.contains_key(user) implies placed(
        allocator,
        user,
        live[user],
    ) by {
        occupied_is_placed(allocator, caches, user, live[user]);
    }
    assert forall|user: usize, other: usize| #[trigger]
        live.contains_key(user) && #[trigger] live.contains_key(other) && user != other implies apart(
        user,
        live[user],
        other,
        live[other],
    ) by {
        occupied_are_apart(allocator, caches, user, live[user], other, live[other]);
    }
}

proof fn occupied_is_placed(
    allocator: Allocator,
    caches: Seq<ThreadCache>,
    user: usize,
    size: usize,
)
    requires
        allocator.wf(),
        occupied(allocator, caches, user, size),
    ensures
        placed(allocator, user, size),
        HEADER_SIZE <= user,
        laws::has_block(allocator, (user - HEADER_SIZE) as usize),
{
    let live = allocator.registry().registry().live@;
    if live.contains_key(user) && live[user].requested_size == size {
        let record = live[user];
        assert(large_object::record_is_sound(user, record));
        assert(allocator.large_is_reserved(record.block_addr as int, record.block_size as int));
        assert(allocator.reservations().contains_key(record.block_addr as int));
    } else {
        let class = choose|class: SizeClass| #[trigger]
            occupied_small(allocator, caches, class, user, size);
        laws::small_block_lies_in_the_arena(allocator, class, (user - HEADER_SIZE) as usize);
    }
}

proof fn occupied_are_apart(
    allocator: Allocator,
    caches: Seq<ThreadCache>,
    user: usize,
    size: usize,
    other: usize,
    other_size: usize,
)
    requires
        allocator.wf(),
        occupied(allocator, caches, user, size),
        occupied(allocator, caches, other, other_size),
        user != other,
    ensures
        apart(user, size, other, other_size),
{
    let live = allocator.registry().registry().live@;
    let large = live.contains_key(user) && live[user].requested_size == size;
    let other_large = live.contains_key(other) && live[other].requested_size == other_size;
    if large {
        assert(large_object::record_is_sound(user, live[user]));
    }
    if other_large {
        assert(large_object::record_is_sound(other, live[other]));
    }
    let class = choose|class: SizeClass| #[trigger]
        occupied_small(allocator, caches, class, user, size);
    let other_class = choose|other_class: SizeClass| #[trigger]
        occupied_small(allocator, caches, other_class, other, other_size);
    class.block_bytes_fit(allocator.settings().alignment);
    other_class.block_bytes_fit(allocator.settings().alignment);
    if large && other_large {
        laws::large_blocks_do_not_overlap(allocator, user, other);
    } else if large {
        laws::small_and_large_do_not_overlap(
            allocator,
            other_class,
            (other - HEADER_SIZE) as usize,
            user,
        );
    } else if other_large {
        laws::small_and_large_do_not_overlap(
            allocator,
            class,
            (user - HEADER_SIZE) as usize,
            other,
        );
    } else {
        laws::small_blocks_do_not_overlap(
            allocator,
            class,
            (user - HEADER_SIZE) as usize,
            other_class,
            (other - HEADER_SIZE) as usize,
        );
    }
}

/// Law: using the allocator through one of its caches keeps all caches usable and apart, and
/// keeps every live allocation live but the one that was freed.
pub proof fn live_allocations_are_kept(
    before: Allocator,
    caches: Seq<ThreadCache>,
    live: Map<usize, usize>,
    used: int,
    after: Allocator,
    cache_after: ThreadCache,
    freed: Option<usize>,
)
    requires
        shared_by(before, caches),
        all_live(before, caches, live),
        0 <= used < caches.len(),
        after.wf(),
        after.serves(cache_after),
        after.evolved(cache_after, before, caches[used], freed),
        freed matches Some(block) ==> exists|user: usize| #[trigger]
            live.contains_key(user) && user == block + HEADER_SIZE,
    ensures
        shared_by(after, caches.update(used, cache_after)),
        all_live(
            after,
            caches.update(used, cache_after),
            match freed {
                Some(block) => live.remove((block + HEADER_SIZE) as usize),
                None => live,
            },
        ),
{
    let cache_before = caches[used];
    let now = caches.update(used, cache_after);
    if let Some(block) = freed {
        let user = choose|user: usize| #[trigger]
            live.contains_key(user) && user == block + HEADER_SIZE;
        occupied_is_placed(before, caches, user, live[user]);
    }
    assert forall|at: int| 0 <= at < caches.len() && at != used implies after.serves(
        #[trigger] caches[at],
    ) && forall|class: SizeClass, block: usize|
        (#[trigger] caches[at].held(class).count(block)) > 0 ==> cache_after.held(class).count(
            block,
        ) == 0 by {
        other_cache_is_kept(before, caches, live, used, after, cache_after, freed, at);
    }
    assert(shared_by(after, now)) by {
        assert forall|at: int| 0 <= at < now.len() implies after.serves(#[trigger] now[at]) by {
            if at != used {
                assert(now[at] == caches[at]);
            }
        }
        assert forall|one: int, other: int, class: SizeClass, block: usize|
            0 <= one < now.len() && 0 <= other < now.len() && one != other
                && #[trigger] now[one].held(class).count(block) > 0 implies #[trigger] now[other].held(
            class,
        ).count(block) == 0 by {
            if one != used {
                assert(now[one] == caches[one]);
            }
            if other != used {
                assert(now[other] == caches[other]);
            }
        }
    }
    let left = match freed {
        Some(block) => live.remove((block + HEADER_SIZE) as usize),
        None => live,
    };
    assert forall|user: usize| #[trigger] left.contains_key(user) implies occupied(
        after,
        now,
        user,
        left[user],
    ) by {
        assert(live.contains_key(user));
        occupied_is_placed(before, caches, user, live[user]);
        occupied_is_kept(
            before,
            caches,
            used,
            after,
            cache_after,
            freed,
            user,
            live[user],
        );
    }
}

proof fn other_cache_is_kept(
    before: Allocator,
    caches: Seq<ThreadCache>,
    live: Map<usize, usize>,
    used: int,
    after: Allocator,
    cache_after: ThreadCache,
    freed: Option<usize>,
    at: int,
)
    requires
        shared_by(before, caches),
        all_live(before, caches, live),
        0 <= used < caches.len(),
        0 <= at < caches.len(),
        at != used,
        after.wf(),
        after.evolved(cache_after, before, caches[used], freed),
        freed matches Some(block) ==> exists|user: usize| #[trigger]
            live.contains_key(user) && user == block + HEADER_SIZE,
    ensures
        after.serves(caches[at]),
        forall|class: SizeClass, block: usize|
            (#[trigger] caches[at].held(class).count(block)) > 0 ==> cache_after.held(class).count(
                block,
            ) == 0,
{
    broadcast use vstd::multiset::group_multiset_axioms;

    let other = caches[at];
    assert(before.serves(other));
    if let Some(block) = freed {
        let user = choose|user: usize| #[trigger]
            live.contains_key(user) && user == block + HEADER_SIZE;
        occupied_is_placed(before, caches, user, live[user]);
    }
    if other.bound_to() == Some(before.number()) {
        assert forall|class: SizeClass, block: usize| (#[trigger] other.held(class).count(block))
            > 0 implies caches[used].held(class).count(block) == 0 && freed != Some(block) by {
            if freed == Some(block) {
                let user = choose|user: usize| #[trigger]
                    live.contains_key(user) && user == block + HEADER_SIZE;
                cached_is_not_occupied(before, caches, at, class, user, live[user]);
            }
        }
        laws::other_caches_stay_in_step(before, caches[used], after, cache_after, freed, other);
    } else {
        assert forall|class: SizeClass, block: usize| (#[trigger] other.held(class).count(block))
            == 0 by {
            other.class_is_wf(class);
            assert(other.local(class).total_len == 0);
            blocks::blocks_of(other.staged(class));
            blocks::countable_blocks(other.local(class).held());
            assert(other.local(class).held().len() == 0);
        }
    }
}

/// A block in a cache is no live allocation.
proof fn cached_is_not_occupied(
    allocator: Allocator,
    caches: Seq<ThreadCache>,
    at: int,
    class: SizeClass,
    user: usize,
    size: usize,
)
    requires
        shared_by(allocator, caches),
        0 <= at < caches.len(),
        allocator.bound(caches[at]),
        HEADER_SIZE <= user,
        caches[at].held(class).count((user - HEADER_SIZE) as usize) > 0,
    ensures
        !occupied(allocator, caches, user, size),
{
    broadcast use vstd::multiset::group_multiset_axioms;

    let block = (user - HEADER_SIZE) as usize;
    let cache = caches[at];
    let staged = cache.staged(class).to_multiset();
    assert(thread_cache::class_fits(
        cache.local(class),
        staged,
        allocator.pools().pool(class),
    ));
    assert(cache.local(class).held().add(staged).count(block) > 0);
    assert(allocator.pools().pool(class).knows(block));
    if occupied(allocator, caches, user, size) {
        let live = allocator.registry().registry().live@;
        if live.contains_key(user) && live[user].requested_size == size {
            laws::small_and_large_do_not_overlap(allocator, class, block, user);
            assert(large_object::record_is_sound(user, live[user]));
            class.block_bytes_fit(allocator.settings().alignment);
        } else {
            let other = choose|other: SizeClass| #[trigger]
                occupied_small(allocator, caches, other, user, size);
            laws::one_class_knows(allocator, class, other, block);
        }
    }
}

proof fn occupied_is_kept(
    before: Allocator,
    caches: Seq<ThreadCache>,
    used: int,
    after: Allocator,
    cache_after: ThreadCache,
    freed: Option<usize>,
    user: usize,
    size: usize,
)
    requires
        shared_by(before, caches),
        0 <= used < caches.len(),
        after.wf(),
        after.evolved(cache_after, before, caches[used], freed),
        freed matches Some(block) ==> laws::has_block(before, block),
        occupied(before, caches, user, size),
        freed != Some((user - HEADER_SIZE) as usize),
    ensures
        occupied(after, caches.update(used, cache_after), user, size),
{
    broadcast use vstd::multiset::group_multiset_axioms;

    let live = before.registry().registry().live@;
    if live.contains_key(user) && live[user].requested_size == size {
        assert(after.registry().registry().live@[user] == live[user]);
    } else {
        let class = choose|class: SizeClass| #[trigger]
            occupied_small(before, caches, class, user, size);
        let block = (user - HEADER_SIZE) as usize;
        assert(caches[used].held(class).count(block) == 0);
        assert(before.lives(caches[used], class, block));
        laws::live_small_block_is_kept(
            before,
            caches[used],
            after,
            cache_after,
            freed,
            class,
            block,
        );
        let now = caches.update(used, cache_after);
        assert(after.stock(cache_after, class).count(block) == 0);
        assert forall|at: int| 0 <= at < now.len() implies (#[trigger] now[at]).held(class).count(
            block,
        ) == 0 by {
            if at != used {
                assert(now[at] == caches[at]);
            }
        }
        assert(occupied_small(after, now, class, user, size));
    }
}

/// Law: a request gives memory that no live allocation has: an aligned address of the arena,
/// apart from every live allocation. All of these stay live, and the new one is live too; and
/// no two caches come to hold the same block. A request that fails keeps what is live.
pub proof fn request_gives_new_memory(
    before: Allocator,
    caches: Seq<ThreadCache>,
    live: Map<usize, usize>,
    used: int,
    after: Allocator,
    cache_after: ThreadCache,
    size: usize,
    result: Result<usize, AllocError>,
)
    requires
        shared_by(before, caches),
        all_live(before, caches, live),
        0 <= used < caches.len(),
        api::requested(before, caches[used], after, cache_after, size, result),
    ensures
        shared_by(after, caches.update(used, cache_after)),
        match result {
            Ok(user) => {
                &&& !live.contains_key(user)
                &&& placed(after, user, size)
                &&& forall|other: usize| #[trigger]
                    live.contains_key(other) ==> apart(user, size, other, live[other])
                &&& all_live(after, caches.update(used, cache_after), live.insert(user, size))
            },
            Err(_) => all_live(after, caches.update(used, cache_after), live),
        },
{
    let now = caches.update(used, cache_after);
    live_allocations_are_kept(before, caches, live, used, after, cache_after, None);
    if let Ok(user) = result {
        new_is_occupied(before, caches, used, after, cache_after, size, user);
        if live.contains_key(user) {
            assert(occupied(before, caches, user, live[user]));
        }
        let grown = live.insert(user, size);
        assert forall|other: usize| #[trigger] grown.contains_key(other) implies occupied(
            after,
            now,
            other,
            grown[other],
        ) by {
            if other != user {
                assert(live.contains_key(other));
            }
        }
        live_allocations_are_apart(after, now, grown);
        assert(grown.contains_key(user));
        assert forall|other: usize| #[trigger] live.contains_key(other) implies apart(
            user,
            size,
            other,
            live[other],
        ) by {
            assert(grown.contains_key(other));
        }
    }
}

proof fn new_is_occupied(
    before: Allocator,
    caches: Seq<ThreadCache>,
    used: int,
    after: Allocator,
    cache_after: ThreadCache,
    size: usize,
    user: usize,
)
    requires
        shared_by(before, caches),
        0 <= used < caches.len(),
        api::requested(before, caches[used], after, cache_after, size, Ok(user)),
        shared_by(after, caches.update(used, cache_after)),
    ensures
        occupied(after, caches.update(used, cache_after), user, size),
        forall|class: SizeClass| #[trigger]
            class.serves(size as int) ==> occupied_small(
                after,
                caches.update(used, cache_after),
                class,
                user,
                size,
            ),
        forall|other: usize| !(#[trigger] occupied(before, caches, user, other)),
{
    broadcast use vstd::multiset::group_multiset_axioms;

    let cache = caches[used];
    let now = caches.update(used, cache_after);
    let block = (user - HEADER_SIZE) as usize;
    if size > SizeClass::B16M.payload() {
        assert forall|other: usize| !(#[trigger] occupied(before, caches, user, other)) by {
            if occupied(before, caches, user, other) {
                let class = choose|class: SizeClass| #[trigger]
                    occupied_small(before, caches, class, user, other);
                occupied_is_kept(before, caches, used, after, cache_after, None, user, other);
                let record = after.registry().registry().live@[user];
                assert(large_object::record_is_sound(user, record));
                assert(before.lives(cache, class, block));
                laws::live_small_block_is_kept(
                    before,
                    cache,
                    after,
                    cache_after,
                    None,
                    class,
                    block,
                );
                laws::small_and_large_do_not_overlap(after, class, block, user);
                class.block_bytes_fit(after.settings().alignment);
            }
        }
    } else {
        let class = SizeClass::small_sizes_have_one_class(size as int);
        laws::small_request_gets_no_live_block(
            before,
            cache,
            after,
            cache_after,
            class,
            size,
            user,
        );
        assert(after.stock(cache_after, class).count(block) == 0);
        assert forall|at: int| 0 <= at < now.len() implies (#[trigger] now[at]).held(class).count(
            block,
        ) == 0 by {
            if at != used {
                assert(now[at] == caches[at]);
                assert(after.serves(now[at]));
                assert(before.serves(caches[at]));
                if now[at].held(class).count(block) > 0 {
                    cached_elsewhere_lives(before, caches, used, at, class, block);
                }
            }
        }
        assert(occupied_small(after, now, class, user, size));
        assert forall|other: SizeClass| #[trigger] other.serves(size as int) implies other
            == class by {
            class.serving_class_is_unique(other, size as int);
        }
        assert forall|other: usize| !(#[trigger] occupied(before, caches, user, other)) by {
            if occupied(before, caches, user, other) {
                let old_class = choose|old_class: SizeClass| #[trigger]
                    occupied_small(before, caches, old_class, user, other);
                assert(before.lives(cache, old_class, block));
                laws::live_small_block_is_kept(
                    before,
                    cache,
                    after,
                    cache_after,
                    None,
                    old_class,
                    block,
                );
                laws::one_class_knows(after, class, old_class, block);
            }
        }
    }
}

/// A block that another cache holds is not free for the cache in use.
proof fn cached_elsewhere_lives(
    before: Allocator,
    caches: Seq<ThreadCache>,
    used: int,
    at: int,
    class: SizeClass,
    block: usize,
)
    requires
        shared_by(before, caches),
        0 <= used < caches.len(),
        0 <= at < caches.len(),
        at != used,
        caches[at].held(class).count(block) > 0,
    ensures
        before.lives(caches[used], class, block),
{
    broadcast use vstd::multiset::group_multiset_axioms;

    let other = caches[at];
    assert(before.serves(other));
    assert(caches[used].held(class).count(block) == 0);
    if other.bound_to() == Some(before.number()) {
        let staged = other.staged(class).to_multiset();
        assert(thread_cache::class_fits(
            other.local(class),
            staged,
            before.pools().pool(class),
        ));
        assert(other.local(class).held().add(staged).count(block) > 0);
        assert(other.local(class).held().add(staged).add(
            before.pools().pool(class).held(),
        ).count(block) <= 1);
    } else {
        other.class_is_wf(class);
        assert(other.local(class).total_len == 0);
        blocks::blocks_of(other.staged(class));
        blocks::countable_blocks(other.local(class).held());
        assert(other.local(class).held().len() == 0);
    }
}

/// Law: freeing a live allocation ends its life and no other's; a free that is refused ends
/// none.
pub proof fn free_ends_one_life(
    before: Allocator,
    caches: Seq<ThreadCache>,
    live: Map<usize, usize>,
    used: int,
    after: Allocator,
    cache_after: ThreadCache,
    user: usize,
    outside: Option<AllocationHeaderPrefix>,
    expected: Option<usize>,
    result: Result<(), FreeError>,
)
    requires
        shared_by(before, caches),
        all_live(before, caches, live),
        0 <= used < caches.len(),
        result is Ok ==> live.contains_key(user),
        api::released(
            before,
            caches[used],
            after,
            cache_after,
            user,
            outside,
            expected,
            result,
        ),
    ensures
        shared_by(after, caches.update(used, cache_after)),
        all_live(
            after,
            caches.update(used, cache_after),
            if result is Ok {
                live.remove(user)
            } else {
                live
            },
        ),
{
    if result is Ok {
        occupied_is_placed(before, caches, user, live[user]);
    }
    let freed = if result is Ok {
        Some((user - HEADER_SIZE) as usize)
    } else {
        None
    };
    live_allocations_are_kept(before, caches, live, used, after, cache_after, freed);
}

/// `block` is a free block of `class`: in the central pool or in one of the caches.
pub open spec fn stocked(
    allocator: Allocator,
    caches: Seq<ThreadCache>,
    class: SizeClass,
    block: usize,
) -> bool {
    ||| allocator.pools().pool(class).held().count(block) > 0
    ||| exists|at: int|
        0 <= at < caches.len() && (#[trigger] caches[at]).held(class).count(block) > 0
}

/// The header of every free block shows that it is free: it records no request, or it carries
/// the freed marker.
pub open spec fn free_blocks_show(allocator: Allocator, caches: Seq<ThreadCache>) -> bool {
    forall|class: SizeClass, block: usize| #[trigger]
        stocked(allocator, caches, class, block) ==> header::refused(
            allocator.bytes(),
            block as int,
        )
}

/// A free block belongs to a slab of its class.
proof fn stocked_is_known(
    allocator: Allocator,
    caches: Seq<ThreadCache>,
    class: SizeClass,
    block: usize,
)
    requires
        shared_by(allocator, caches),
        stocked(allocator, caches, class, block),
    ensures
        allocator.pools().pool(class).knows(block),
        block % 64 == 0,
        allocator.bytes().covers(block as int, 64),
        block < allocator.frontier(),
        block + HEADER_SIZE <= usize::MAX,
{
    broadcast use vstd::multiset::group_multiset_axioms;

    allocator.pools().known_blocks_fit(allocator.bytes(), class);
    if allocator.pools().pool(class).held().count(block) == 0 {
        let at = choose|at: int|
            0 <= at < caches.len() && (#[trigger] caches[at]).held(class).count(block) > 0;
        assert(allocator.serves(caches[at]));
        laws::stocked_block_is_known(allocator, caches[at], class, block);
    }
    laws::known_block_is_addressable(allocator, class, block);
    allocator.known_blocks_are_reserved(class, block);
}

/// Law: a new allocator has no free block that could be mistaken for an allocation.
pub proof fn new_allocator_shows_free_blocks(allocator: Allocator)
    requires
        allocator.holds_nothing(),
    ensures
        free_blocks_show(allocator, Seq::empty()),
{
}

/// Law: freeing a block that is free is refused, whatever size the caller names: whether it was
/// freed before or was never handed out.
pub proof fn free_block_is_refused(
    allocator: Allocator,
    caches: Seq<ThreadCache>,
    class: SizeClass,
    block: usize,
    outside: Option<AllocationHeaderPrefix>,
    expected: Option<usize>,
)
    requires
        shared_by(allocator, caches),
        free_blocks_show(allocator, caches),
        stocked(allocator, caches, class, block),
    ensures
        block + HEADER_SIZE <= usize::MAX,
        allocator.own_free_outcome((block + HEADER_SIZE) as usize, outside, expected) is Err,
{
    reveal(header::refused);
    let user = (block + HEADER_SIZE) as usize;
    stocked_is_known(allocator, caches, class, block);
    laws::known_block_is_addressable(allocator, class, block);
    let live = allocator.registry().registry().live@;
    if live.contains_key(user) {
        laws::small_and_large_do_not_overlap(allocator, class, block, user);
        assert(large_object::record_is_sound(user, live[user]));
        class.block_bytes_fit(allocator.settings().alignment);
    }
}

/// Law: after a free, the header of every free block still shows that it is free.
pub proof fn free_blocks_show_after_free(
    before: Allocator,
    caches: Seq<ThreadCache>,
    live: Map<usize, usize>,
    used: int,
    after: Allocator,
    cache_after: ThreadCache,
    user: usize,
    outside: Option<AllocationHeaderPrefix>,
    expected: Option<usize>,
    result: Result<(), FreeError>,
)
    requires
        shared_by(before, caches),
        all_live(before, caches, live),
        free_blocks_show(before, caches),
        0 <= used < caches.len(),
        result is Ok ==> live.contains_key(user),
        api::released(
            before,
            caches[used],
            after,
            cache_after,
            user,
            outside,
            expected,
            result,
        ),
    ensures
        free_blocks_show(after, caches.update(used, cache_after)),
{
    broadcast use vstd::multiset::group_multiset_axioms;

    let now = caches.update(used, cache_after);
    free_ends_one_life(
        before,
        caches,
        live,
        used,
        after,
        cache_after,
        user,
        outside,
        expected,
        result,
    );
    if result is Ok {
        occupied_is_placed(before, caches, user, live[user]);
    }
    let freed = (user - HEADER_SIZE) as usize;
    assert(header::changes_close(after.bytes(), before.bytes())) by {
        header::closes_nothing(before.bytes());
        if result is Ok {
            let prefix = before.header_of(user, outside)->0;
            let bound = choose|bound: ThreadCache|
                before.binds(bound, caches[used]) && #[trigger] after.freed(
                    cache_after,
                    before,
                    bound,
                    user,
                    prefix,
                    Ok(()),
                );
            assert(after.freed(cache_after, before, bound, user, prefix, Ok(())));
        }
    }
    assert forall|class: SizeClass, block: usize| #[trigger]
        stocked(after, now, class, block) implies header::refused(
        after.bytes(),
        block as int,
    ) by {
        stocked_is_known(after, now, class, block);
        if result is Ok && block == freed {
            let prefix = before.header_of(user, outside)->0;
            let bound = choose|bound: ThreadCache|
                before.binds(bound, caches[used]) && #[trigger] after.freed(
                    cache_after,
                    before,
                    bound,
                    user,
                    prefix,
                    Ok(()),
                );
            assert(after.freed(cache_after, before, bound, user, prefix, Ok(())));
            if prefix.route() == Some(AllocationKind::Large) {
                large_is_not_stocked(before, user, class, after);
            } else {
                header::marked_is_refused(after.bytes(), block as int);
            }
        } else {
            was_stocked(
                before,
                caches,
                used,
                after,
                cache_after,
                if result is Ok {
                    Some(freed)
                } else {
                    None
                },
                class,
                block,
            );
            stocked_is_known(before, caches, class, block);
            header::stays_refused(after.bytes(), before.bytes(), block as int);
        }
    }
}

/// Law: after a drain, the header of every free block still shows that it is free.
pub proof fn free_blocks_show_after_drain(
    before: Allocator,
    caches: Seq<ThreadCache>,
    used: int,
    after: Allocator,
    cache_after: ThreadCache,
)
    requires
        shared_by(before, caches),
        free_blocks_show(before, caches),
        0 <= used < caches.len(),
        after.wf(),
        after.serves(cache_after),
        after.frontier() == before.frontier(),
        after.evolved(cache_after, before, caches[used], None),
        header::changes_close(after.bytes(), before.bytes()),
    ensures
        free_blocks_show(after, caches.update(used, cache_after)),
{
    let now = caches.update(used, cache_after);
    live_allocations_are_kept(before, caches, Map::empty(), used, after, cache_after, None);
    assert forall|class: SizeClass, block: usize| #[trigger]
        stocked(after, now, class, block) implies header::refused(
        after.bytes(),
        block as int,
    ) by {
        stocked_is_known(after, now, class, block);
        was_stocked(before, caches, used, after, cache_after, None, class, block);
        stocked_is_known(before, caches, class, block);
        header::stays_refused(after.bytes(), before.bytes(), block as int);
    }
}

/// `after` is `before` but for the bytes of its arena.
pub open spec fn same_but_bytes(after: Allocator, before: Allocator) -> bool {
    &&& after.number() == before.number()
    &&& after.settings() == before.settings()
    &&& after.registry() == before.registry()
    &&& after.pools() == before.pools()
    &&& after.reservations() == before.reservations()
    &&& after.ground().same_layout(before.ground())
    &&& after.ground().used() == before.ground().used()
    &&& after.bytes().wf()
}

/// `memory` is `other` after the system took some of the pages of `pages` bytes from `addr` on:
/// every page of `page_size` bytes of which a byte changed holds zeros.
pub open spec fn reclaimed(
    memory: Memory,
    other: Memory,
    addr: int,
    pages: int,
    page_size: int,
) -> bool {
    &&& memory.same_outside(other, addr, pages)
    &&& forall|at: int, near: int|
        addr <= at < addr + pages && #[trigger] memory.byte(at) != other.byte(at) && at / page_size
            == near / page_size ==> #[trigger] memory.byte(near) == 0
}

/// Law: when the system takes pages of an idle slab, the caches stay what they are to the
/// allocator, live allocations stay live, and the header of every free block still shows that
/// it is free.
pub proof fn reclaim_keeps_the_heap(
    before: Allocator,
    caches: Seq<ThreadCache>,
    live: Map<usize, usize>,
    class: SizeClass,
    index: int,
    pages: SweepRequest,
    after: Allocator,
)
    requires
        shared_by(before, caches),
        all_live(before, caches, live),
        free_blocks_show(before, caches),
        before.pools().pool(class).idle_slab(index, pages),
        before.pools().pool(class).page_size % 64 == 0,
        same_but_bytes(after, before),
        reclaimed(
            after.bytes(),
            before.bytes(),
            pages.addr as int,
            pages.len as int,
            before.pools().pool(class).page_size as int,
        ),
    ensures
        shared_by(after, caches),
        all_live(after, caches, live),
        free_blocks_show(after, caches),
{
    let page_size = before.pools().pool(class).page_size as int;
    laws::reclaimed_pools_stay_in_step(before, class, index, pages, after.bytes());
    assert(after.wf());
    assert forall|at: int| 0 <= at < caches.len() implies after.serves(#[trigger] caches[at]) by {
        assert(before.serves(caches[at]));
        if caches[at].bound_to() == Some(before.number()) {
            laws::reclaimed_pages_do_not_matter(
                before,
                class,
                index,
                pages,
                after.bytes(),
                caches[at],
            );
        }
    }
    assert forall|user: usize| #[trigger] live.contains_key(user) implies occupied(
        after,
        caches,
        user,
        live[user],
    ) by {
        assert(occupied(before, caches, user, live[user]));
        if exists|own: SizeClass| #[trigger]
            occupied_small(before, caches, own, user, live[user]) {
            let own = choose|own: SizeClass| #[trigger]
                occupied_small(before, caches, own, user, live[user]);
            assert(occupied_small(after, caches, own, user, live[user]));
        }
    }
    assert forall|own: SizeClass, block: usize| #[trigger]
        stocked(after, caches, own, block) implies header::refused(
        after.bytes(),
        block as int,
    ) by {
        assert(stocked(before, caches, own, block));
        stocked_is_known(before, caches, own, block);
        if header::same_header(after.bytes(), before.bytes(), block as int) {
            header::refused_alike(after.bytes(), before.bytes(), block as int);
        } else {
            let at = choose|at: int|
                block <= at < block + 64 && #[trigger] after.bytes().byte(at)
                    != before.bytes().byte(at);
            assert(after.bytes().covers(at, 1));
            assert forall|near: int| block <= near < block + 64 implies #[trigger] after.bytes().byte(
                near,
            ) == 0 by {
                header_is_in_one_page(block as int, page_size, at, near);
            }
            header::zeros_are_refused(after.bytes(), block as int);
        }
    }
}

/// Law: whatever a program writes to the bytes of a live allocation, the caches stay what they
/// are to the allocator, live allocations stay live and keep their headers, and the header of
/// every free block still shows that it is free.
pub proof fn writes_keep_the_heap(
    before: Allocator,
    caches: Seq<ThreadCache>,
    live: Map<usize, usize>,
    user: usize,
    after: Allocator,
)
    requires
        shared_by(before, caches),
        all_live(before, caches, live),
        free_blocks_show(before, caches),
        live.contains_key(user),
        same_but_bytes(after, before),
        after.bytes().same_outside(before.bytes(), user as int, live[user] as int),
    ensures
        shared_by(after, caches),
        all_live(after, caches, live),
        forall|other: usize| #[trigger]
            live.contains_key(other) ==> header::same_header(
                after.bytes(),
                before.bytes(),
                other - HEADER_SIZE,
            ),
        free_blocks_show(after, caches),
{
    live_allocations_are_apart(before, caches, live);
    assert forall|class: SizeClass, block: usize| #[trigger]
        before.pools().pool(class).knows(block) implies header::same_header(
        after.bytes(),
        before.bytes(),
        block as int,
    ) by {
        header_is_apart(before, caches, user, live[user], class, block);
        before.pools().known_blocks_fit(before.bytes(), class);
        assert(header::header_fits(before.bytes(), block as int));
        assert forall|at: int| block <= at < block + 64 implies #[trigger] after.bytes().byte(at)
            == before.bytes().byte(at) by {
            assert(after.bytes().covers(at, 1));
        }
    }
    assert(laws::headers_stay(before, after.bytes()));
    laws::pools_stay_in_step(before, after.bytes());
    assert(after.wf());
    assert forall|at: int| 0 <= at < caches.len() implies after.serves(#[trigger] caches[at]) by {
        assert(before.serves(caches[at]));
        if caches[at].bound_to() == Some(before.number()) {
            laws::cache_stays_in_step(before, after.bytes(), caches[at]);
        }
    }
    assert forall|other: usize| #[trigger] live.contains_key(other) implies occupied(
        after,
        caches,
        other,
        live[other],
    ) && header::same_header(after.bytes(), before.bytes(), other - HEADER_SIZE) by {
        assert(occupied(before, caches, other, live[other]));
        assert(placed(before, other, live[other]));
        if exists|own: SizeClass| #[trigger]
            occupied_small(before, caches, own, other, live[other]) {
            let own = choose|own: SizeClass| #[trigger]
                occupied_small(before, caches, own, other, live[other]);
            assert(occupied_small(after, caches, own, other, live[other]));
        }
        assert forall|at: int| other - HEADER_SIZE <= at < other - HEADER_SIZE
            + 64 implies #[trigger] after.bytes().byte(at) == before.bytes().byte(at) by {
            assert(after.bytes().covers(at, 1));
        }
    }
    assert forall|own: SizeClass, block: usize| #[trigger]
        stocked(after, caches, own, block) implies header::refused(
        after.bytes(),
        block as int,
    ) by {
        assert(stocked(before, caches, own, block));
        stocked_is_known(before, caches, own, block);
        header::refused_alike(after.bytes(), before.bytes(), block as int);
    }
}

/// The bytes of a live allocation are no bytes of a header.
proof fn header_is_apart(
    allocator: Allocator,
    caches: Seq<ThreadCache>,
    user: usize,
    size: usize,
    class: SizeClass,
    block: usize,
)
    requires
        allocator.wf(),
        occupied(allocator, caches, user, size),
        allocator.pools().pool(class).knows(block),
    ensures
        user + size <= block || block + HEADER_SIZE <= user,
{
    let live = allocator.registry().registry().live@;
    class.block_bytes_fit(allocator.settings().alignment);
    if live.contains_key(user) && live[user].requested_size == size {
        assert(large_object::record_is_sound(user, live[user]));
        laws::small_and_large_do_not_overlap(allocator, class, block, user);
    } else {
        let own = choose|own: SizeClass| #[trigger]
            occupied_small(allocator, caches, own, user, size);
        own.block_bytes_fit(allocator.settings().alignment);
        let start = (user - HEADER_SIZE) as usize;
        if start != block {
            laws::small_blocks_do_not_overlap(allocator, own, start, class, block);
        }
    }
}

/// A header lies in one page.
proof fn header_is_in_one_page(block: int, page_size: int, one: int, other: int)
    requires
        block % 64 == 0,
        page_size > 0,
        page_size % 64 == 0,
        0 <= block,
        block <= one < block + 64,
        block <= other < block + 64,
    ensures
        one / page_size == other / page_size,
{
    vstd::arithmetic::div_mod::lemma_fundamental_div_mod(block, 64);
    vstd::arithmetic::div_mod::lemma_fundamental_div_mod(page_size, 64);
    vstd::arithmetic::div_mod::lemma_fundamental_div_mod(block, page_size);
    vstd::arithmetic::div_mod::lemma_mod_bound(block, page_size);
    let (b, p, q) = (block / 64, page_size / 64, block / page_size);
    let rest = block - page_size * q;
    assert(rest == 64 * (b - p * q)) by (nonlinear_arith)
        requires
            block == 64 * b,
            page_size == 64 * p,
            rest == block - page_size * q,
    ;
    assert(rest + 64 <= page_size);
    assert forall|at: int| block <= at < block + 64 implies #[trigger] (at / page_size) == q by {
        vstd::arithmetic::div_mod::lemma_fundamental_div_mod_converse(
            at,
            page_size,
            q,
            at - page_size * q,
        );
    }
}

/// Law: after a request, the header of every free block still shows that it is free.
pub proof fn free_blocks_show_after_request(
    before: Allocator,
    caches: Seq<ThreadCache>,
    used: int,
    after: Allocator,
    cache_after: ThreadCache,
    size: usize,
    result: Result<usize, AllocError>,
)
    requires
        shared_by(before, caches),
        free_blocks_show(before, caches),
        0 <= used < caches.len(),
        api::requested(before, caches[used], after, cache_after, size, result),
    ensures
        free_blocks_show(after, caches.update(used, cache_after)),
{
    let now = caches.update(used, cache_after);
    live_allocations_are_kept(before, caches, Map::empty(), used, after, cache_after, None);
    assert forall|class: SizeClass, block: usize| #[trigger]
        stocked(after, now, class, block) implies header::refused(
        after.bytes(),
        block as int,
    ) by {
        stocked_is_known(after, now, class, block);
        if class.serves(size as int) {
            free_block_shows_after_small(
                before,
                caches,
                used,
                after,
                cache_after,
                class,
                class,
                size,
                result,
                block,
            );
        } else if 0 < size <= SizeClass::B16M.payload() {
            let own = SizeClass::small_sizes_have_one_class(size as int);
            free_block_shows_after_small(
                before,
                caches,
                used,
                after,
                cache_after,
                own,
                class,
                size,
                result,
                block,
            );
        } else {
            unserved_class_is_kept(before, caches, used, after, cache_after, class, block);
            stocked_is_known(before, caches, class, block);
            if size > 0 {
                if let Ok(user) = result {
                    let taken = (user - HEADER_SIZE) as usize;
                    large_is_not_stocked(after, user, class, after);
                    assert(after.registry().registry().live@.contains_key(user));
                    let record = after.registry().registry().live@[user];
                    assert(large_object::record_is_sound(user, record));
                    assert(after.large_is_reserved(
                        record.block_addr as int,
                        record.block_size as int,
                    ));
                    assert(after.reservations().contains_key(record.block_addr as int));
                    untouched_header_is_kept(
                        before,
                        after,
                        Multiset::singleton(taken),
                        block,
                    );
                }
            }
        }
    }
}

/// A block whose header is not among those touched is refused as before.
proof fn untouched_header_is_kept(
    before: Allocator,
    after: Allocator,
    touched: Multiset<usize>,
    block: usize,
)
    requires
        header::touches_only(after.bytes(), before.bytes(), touched),
        block % 64 == 0,
        after.bytes().covers(block as int, 64),
        forall|other: usize| #[trigger] touched.count(other) > 0 ==> other % 64 == 0,
        touched.count(block) == 0,
    ensures
        header::refused(after.bytes(), block as int) == header::refused(
            before.bytes(),
            block as int,
        ),
{
    assert forall|at: int| block <= at < block + 64 implies #[trigger] after.bytes().byte(at)
        == before.bytes().byte(at) by {
        if after.bytes().byte(at) != before.bytes().byte(at) {
            assert(after.bytes().covers(at, 1));
            let other = choose|other: usize| #[trigger]
                touched.count(other) > 0 && other <= at < other + HEADER_SIZE;
            assert(other == block);
        }
    }
    header::refused_alike(after.bytes(), before.bytes(), block as int);
}

/// A class that a request does not concern has the same free blocks as before.
proof fn unserved_class_is_kept(
    before: Allocator,
    caches: Seq<ThreadCache>,
    used: int,
    after: Allocator,
    cache_after: ThreadCache,
    class: SizeClass,
    block: usize,
)
    requires
        0 <= used < caches.len(),
        after.pools().pool(class) == before.pools().pool(class),
        cache_after.held(class) == caches[used].held(class),
        stocked(after, caches.update(used, cache_after), class, block),
    ensures
        stocked(before, caches, class, block),
{
    let now = caches.update(used, cache_after);
    if after.pools().pool(class).held().count(block) == 0 {
        let at = choose|at: int|
            0 <= at < now.len() && (#[trigger] now[at]).held(class).count(block) > 0;
        assert(caches[at].held(class).count(block) > 0);
    }
}

/// A free block of `class` shows that it is free after a request of the class `own`.
proof fn free_block_shows_after_small(
    before: Allocator,
    caches: Seq<ThreadCache>,
    used: int,
    after: Allocator,
    cache_after: ThreadCache,
    own: SizeClass,
    class: SizeClass,
    size: usize,
    result: Result<usize, AllocError>,
    block: usize,
)
    requires
        shared_by(before, caches),
        free_blocks_show(before, caches),
        0 <= used < caches.len(),
        api::requested(before, caches[used], after, cache_after, size, result),
        own.serves(size as int),
        shared_by(after, caches.update(used, cache_after)),
        stocked(after, caches.update(used, cache_after), class, block),
    ensures
        header::refused(after.bytes(), block as int),
{
    broadcast use vstd::multiset::group_multiset_axioms;

    let cache = caches[used];
    let now = caches.update(used, cache_after);
    let fresh = before.fresh_blocks(cache, own);
    stocked_is_known(after, now, class, block);
    was_stocked(before, caches, used, after, cache_after, None, class, block);
    match result {
        Err(_) => {
            stocked_is_known(before, caches, class, block);
        },
        Ok(user) => {
            let taken = (user - HEADER_SIZE) as usize;
            new_is_occupied(before, caches, used, after, cache_after, size, user);
            if block == taken {
                laws::one_class_knows(after, own, class, block);
                assert(occupied_small(after, now, own, user, size));
                taken_is_not_stocked(after, now, own, user);
            }
            if before.needs_slab(cache, own) {
                before.next_slab_facts(own);
                before.next_slab(own).tail_counts(0);
            }
            after.pools().known_blocks_fit(after.bytes(), own);
            assert forall|other: usize| #[trigger] fresh.insert(taken).count(
                other,
            ) > 0 implies header::header_fits(after.bytes(), other as int) by {
                if other != taken {
                    assert(fresh.count(other) > 0);
                    assert(after.stock(cache_after, own).insert(taken).count(other) > 0);
                    laws::stocked_block_is_known(after, cache_after, own, other);
                }
                assert(after.pools().pool(own).knows(other));
            }
            if fresh.count(block) > 0 {
                header::reset_is_refused(after.bytes(), block as int, own);
            } else {
                if !stocked(before, caches, class, block) {
                    assert(block >= before.frontier());
                    new_stock_is_fresh(before, caches, used, after, cache_after, own, class, size, user, block);
                }
                stocked_is_known(before, caches, class, block);
                let links = before.pools().pool(own).held();
                before.pools().known_blocks_fit(before.bytes(), own);
                assert(header::headers_fit(after.bytes(), links));
                assert(header::headers_fit(after.bytes(), fresh.insert(taken)));
                header::header_is_relinked(
                    after.bytes(),
                    before.bytes(),
                    fresh.insert(taken),
                    links,
                    block as int,
                );
            }
        },
    }
}

/// The block that was handed out is not free.
proof fn taken_is_not_stocked(
    after: Allocator,
    now: Seq<ThreadCache>,
    own: SizeClass,
    user: usize,
)
    requires
        after.wf(),
        HEADER_SIZE <= user,
        exists|size: usize| #[trigger] occupied_small(after, now, own, user, size),
    ensures
        !stocked(after, now, own, (user - HEADER_SIZE) as usize),
{
}

/// A block that becomes free by a request is one of the new slab.
proof fn new_stock_is_fresh(
    before: Allocator,
    caches: Seq<ThreadCache>,
    used: int,
    after: Allocator,
    cache_after: ThreadCache,
    own: SizeClass,
    class: SizeClass,
    size: usize,
    user: usize,
    block: usize,
)
    requires
        0 <= used < caches.len(),
        api::requested(before, caches[used], after, cache_after, size, Ok(user)),
        own.serves(size as int),
        stocked(after, caches.update(used, cache_after), class, block),
        !stocked(before, caches, class, block),
    ensures
        before.fresh_blocks(caches[used], own).count(block) > 0,
        class == own,
{
    broadcast use vstd::multiset::group_multiset_axioms;

    let now = caches.update(used, cache_after);
    if class != own {
        if class.serves(size as int) {
            own.serving_class_is_unique(class, size as int);
        }
        unserved_class_is_kept(before, caches, used, after, cache_after, class, block);
    } else if after.stock(cache_after, own).count(block) > 0 {
        let taken = (user - HEADER_SIZE) as usize;
        assert(after.stock(cache_after, own).insert(taken).count(block) > 0);
        if before.stock(caches[used], own).count(block) > 0 {
            if before.pools().pool(own).held().count(block) == 0 {
                assert(caches[used].held(own).count(block) > 0);
            }
        }
    } else {
        let at = choose|at: int|
            0 <= at < now.len() && (#[trigger] now[at]).held(class).count(block) > 0;
        assert(at != used);
        assert(caches[at].held(class).count(block) > 0);
    }
}

/// The block of a large allocation is in no slab.
proof fn large_is_not_stocked(
    before: Allocator,
    user: usize,
    class: SizeClass,
    after: Allocator,
)
    requires
        before.wf(),
        HEADER_SIZE <= user,
        before.registry().registry().live@.contains_key(user),
        after.pools() == before.pools(),
    ensures
        !after.pools().pool(class).knows((user - HEADER_SIZE) as usize),
{
    let block = (user - HEADER_SIZE) as usize;
    if before.pools().pool(class).knows(block) {
        laws::small_and_large_do_not_overlap(before, class, block, user);
        assert(large_object::record_is_sound(user, before.registry().registry().live@[user]));
        class.block_bytes_fit(before.settings().alignment);
    }
}

/// A block that is free after a use was free before it, or is the one freed, or new.
proof fn was_stocked(
    before: Allocator,
    caches: Seq<ThreadCache>,
    used: int,
    after: Allocator,
    cache_after: ThreadCache,
    freed: Option<usize>,
    class: SizeClass,
    block: usize,
)
    requires
        0 <= used < caches.len(),
        after.evolved(cache_after, before, caches[used], freed),
        stocked(after, caches.update(used, cache_after), class, block),
        freed != Some(block),
    ensures
        stocked(before, caches, class, block) || block >= before.frontier(),
{
    broadcast use vstd::multiset::group_multiset_axioms;

    let now = caches.update(used, cache_after);
    if after.stock(cache_after, class).count(block) > 0 {
        if before.stock(caches[used], class).count(block) > 0
            && before.pools().pool(class).held().count(block) == 0 {
            assert(caches[used].held(class).count(block) > 0);
        }
    } else {
        let at = choose|at: int|
            0 <= at < now.len() && (#[trigger] now[at]).held(class).count(block) > 0;
        assert(at != used);
        assert(caches[at].held(class).count(block) > 0);
    }
}

/// `after` is `before` after one use: a request, a free or a drain through some cache; or a
/// step that leaves the arena alone.
pub open spec fn used_once(before: Allocator, after: Allocator) -> bool {
    ||| exists|cache_before: ThreadCache, cache_after: ThreadCache, freed: Option<usize>| #[trigger]
        after.evolved(cache_after, before, cache_before, freed)
    ||| after.ground() == before.ground() && after.settings() == before.settings()
}

/// Law: whatever is allocated, freed and drained, the arena's free space never grows and its
/// capacity stays the configured one: what was reserved is not given back.
pub proof fn arena_space_never_grows(
    states: Seq<Allocator>,
    earlier: AllocatorStats,
    later: AllocatorStats,
)
    requires
        states.len() > 0,
        forall|at: int|
            0 < at < states.len() ==> used_once(states[at - 1], #[trigger] states[at]),
        states.first().wf(),
        states.last().wf(),
        states.first().counted(earlier),
        states.last().counted(later),
    ensures
        later.arena_remaining <= earlier.arena_remaining <= earlier.arena_capacity,
        later.arena_capacity == earlier.arena_capacity,
        later.arena_capacity == states.last().settings().arena_size,
    decreases states.len(),
{
    space_is_used_up(states, (states.len() - 1) as nat);
}

proof fn space_is_used_up(states: Seq<Allocator>, count: nat)
    requires
        count < states.len(),
        forall|at: int|
            0 < at < states.len() ==> used_once(states[at - 1], #[trigger] states[at]),
    ensures
        states[count as int].settings() == states[0].settings(),
        states[count as int].ground().same_layout(states[0].ground()),
        states[count as int].ground().used() >= states[0].ground().used(),
    decreases count,
{
    if count > 0 {
        space_is_used_up(states, (count - 1) as nat);
        assert(used_once(states[count - 1], states[count as int]));
    }
}

/// Law: the block just freed is the one that the next request of its class through the same
/// cache is given, and no byte of the arena is reserved for it.
pub proof fn freed_block_is_given_again(
    before: Allocator,
    cache_before: ThreadCache,
    allocated: Allocator,
    cache_allocated: ThreadCache,
    freed: Allocator,
    cache_freed: ThreadCache,
    after: Allocator,
    cache_after: ThreadCache,
    class: SizeClass,
    first_size: usize,
    size: usize,
    user: usize,
    outside: Option<AllocationHeaderPrefix>,
    expected: Option<usize>,
    result: Result<usize, AllocError>,
)
    requires
        class.serves(first_size as int),
        class.serves(size as int),
        api::requested(
            before,
            cache_before,
            allocated,
            cache_allocated,
            first_size,
            Ok(user),
        ),
        api::released(
            allocated,
            cache_allocated,
            freed,
            cache_freed,
            user,
            outside,
            expected,
            Ok(()),
        ),
        api::requested(freed, cache_freed, after, cache_after, size, result),
    ensures
        result == Ok::<usize, AllocError>(user),
        after.frontier() == freed.frontier(),
        forall|earlier: AllocatorStats, later: AllocatorStats|
            freed.counted(earlier) && after.counted(later) ==> #[trigger] later.arena_remaining
                == #[trigger] earlier.arena_remaining,
{
    freed_block_is_hot(
        before,
        cache_before,
        allocated,
        cache_allocated,
        freed,
        cache_freed,
        class,
        first_size,
        user,
        outside,
        expected,
    );
    hot_block_is_given(freed, cache_freed, after, cache_after, class, size, user, result);
}

/// The block that a cache was given and freed is in its hot slot.
proof fn freed_block_is_hot(
    before: Allocator,
    cache_before: ThreadCache,
    allocated: Allocator,
    cache_allocated: ThreadCache,
    freed: Allocator,
    cache_freed: ThreadCache,
    class: SizeClass,
    first_size: usize,
    user: usize,
    outside: Option<AllocationHeaderPrefix>,
    expected: Option<usize>,
)
    requires
        class.serves(first_size as int),
        api::requested(
            before,
            cache_before,
            allocated,
            cache_allocated,
            first_size,
            Ok(user),
        ),
        api::released(
            allocated,
            cache_allocated,
            freed,
            cache_freed,
            user,
            outside,
            expected,
            Ok(()),
        ),
    ensures
        user >= HEADER_SIZE,
        cache_freed.local(class).hot_block == Some((user - HEADER_SIZE) as usize),
{
    let block = (user - HEADER_SIZE) as usize;
    laws::small_allocation_can_be_freed(
        before,
        cache_before,
        allocated,
        cache_allocated,
        class,
        first_size,
        user,
        outside,
        expected,
    );
    let prefix = allocated.header_of(user, outside)->0;
    let bound = choose|bound: ThreadCache|
        allocated.binds(bound, cache_allocated) && #[trigger] freed.freed(
            cache_freed,
            allocated,
            bound,
            user,
            prefix,
            Ok(()),
        );
    laws::live_small_is_routed(
        allocated,
        cache_allocated,
        class,
        first_size,
        cache_before.id(),
        user,
        outside,
    );
    assert(freed.small_freed(
        cache_freed,
        allocated,
        cache_allocated,
        class,
        block,
        cache_allocated.id(),
    ));
}

/// A request of the class whose hot slot is taken is given the block in it.
proof fn hot_block_is_given(
    before: Allocator,
    cache_before: ThreadCache,
    after: Allocator,
    cache_after: ThreadCache,
    class: SizeClass,
    size: usize,
    user: usize,
    result: Result<usize, AllocError>,
)
    requires
        before.bound(cache_before),
        user >= HEADER_SIZE,
        cache_before.local(class).hot_block == Some((user - HEADER_SIZE) as usize),
        class.serves(size as int),
        api::requested(before, cache_before, after, cache_after, size, result),
    ensures
        result == Ok::<usize, AllocError>(user),
        after.frontier() == before.frontier(),
        forall|earlier: AllocatorStats, later: AllocatorStats|
            before.counted(earlier) && after.counted(later) ==> #[trigger] later.arena_remaining
                == #[trigger] earlier.arena_remaining,
{
    laws::hot_block_is_next(before, cache_before, class, (user - HEADER_SIZE) as usize);
}

} // verus!
