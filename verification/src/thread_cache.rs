use vstd::multiset::Multiset;
use vstd::prelude::*;

use crate::allocator::Allocator;
use crate::blocks;
use crate::blocks::Region;
use crate::central_pool::CentralPool;
use crate::class_cache;
use crate::class_cache::LocalClassCache;
use crate::class_pool;
use crate::class_pool::{CentralRefill, ClassPool};
use crate::config::AllocatorConfig;
use crate::free_list;
use crate::free_list::{Batch, FreeList};
use crate::header;
use crate::local_slab;
use crate::local_slab::BlockReuse;
use crate::memory::Memory;
use crate::size_class::{SizeClass, NUM_CLASSES};
use crate::stats::{SizeClassStats, ThreadCacheStats};

verus! {

/// Caller-owned per-thread cache for small-object reuse.
///
/// Use one `ThreadCache` per participating thread when calling [`crate::Allocator`]
/// methods directly.
pub struct ThreadCache {
    config: AllocatorConfig,
    class_config: [ClassCacheConfig; NUM_CLASSES],
    owner: Option<usize>,
    cache_id: u32,
    classes: [LocalClassCache; NUM_CLASSES],
    remote_returns: [RemoteReturnCache; NUM_CLASSES],
}

/// Block counts that steer one class of a cache.
#[derive(Clone, Copy, Debug, PartialEq, Eq, Structural)]
pub struct ClassCacheConfig {
    /// Blocks that one refill asks for.
    pub refill_count: usize,
    /// Blocks that may stay in the cache.
    pub local_limit: usize,
    /// Blocks that one drain returns.
    pub drain_count: usize,
}

/// Blocks of one class freed by this cache on behalf of others.
pub struct RemoteReturnCache {
    pending: FreeList,
    pending_len: usize,
}

/// The block counts that steer `class` under `config`.
pub open spec fn class_settings(config: AllocatorConfig, class: SizeClass) -> ClassCacheConfig {
    ClassCacheConfig {
        refill_count: config.refill_blocks(class) as usize,
        local_limit: config.local_blocks(class) as usize,
        drain_count: config.drain_blocks(class) as usize,
    }
}

fn class_config_table(config: AllocatorConfig) -> (table: [ClassCacheConfig; NUM_CLASSES])
    ensures
        forall|class: SizeClass| #[trigger]
            table@[class.position()] == class_settings(config, class),
{
    let mut entries: [ClassCacheConfig; NUM_CLASSES] = [ClassCacheConfig {
        refill_count: 0,
        local_limit: 0,
        drain_count: 0,
    };12];
    let mut index: usize = 0;
    while index < NUM_CLASSES
        invariant
            index <= NUM_CLASSES,
            forall|at: int|
                0 <= at < index ==> #[trigger] entries@[at] == class_settings(
                    config,
                    SizeClass::ALL[at],
                ),
        decreases NUM_CLASSES - index,
    {
        let class = SizeClass::ALL[index];
        entries[index] = ClassCacheConfig {
            refill_count: config.refill_count(class),
            local_limit: config.local_limit(class),
            drain_count: config.drain_count(class),
        };
        index = index + 1;
    }
    entries
}

impl RemoteReturnCache {
    /// The pending blocks, the last one pushed last.
    pub closed spec fn blocks(self) -> Seq<usize> {
        self.pending@
    }

    /// The counter is right.
    pub closed spec fn wf(self) -> bool {
        self.pending_len == self.pending@.len()
    }

    /// Creates an empty cache of remote returns.
    #[must_use]
    pub fn new() -> (cache: Self)
        ensures
            cache.wf(),
            cache.blocks() == Seq::<usize>::empty(),
    {
        RemoteReturnCache { pending: FreeList::new(), pending_len: 0 }
    }

    /// Returns the number of pending blocks.
    #[must_use]
    pub fn len(&self) -> (result: usize)
        requires
            self.wf(),
        ensures
            result == self.blocks().len(),
    {
        self.pending_len
    }

    /// Whether no block is pending.
    #[must_use]
    pub fn is_empty(&self) -> (result: bool)
        requires
            self.wf(),
        ensures
            result == (self.blocks().len() == 0),
    {
        self.pending_len == 0
    }

    /// Adds one block.
    pub fn push_block(&mut self, block: usize, memory: &mut Memory)
        requires
            old(self).wf(),
            old(self).blocks().len() < usize::MAX,
            free_list::chain(old(self).blocks(), *old(memory)),
            header::header_fits(*old(memory), block as int),
            old(self).blocks().to_multiset().count(block) == 0,
        ensures
            final(self).wf(),
            final(self).blocks() == old(self).blocks().push(block),
            free_list::chain(final(self).blocks(), *final(memory)),
            final(memory).wf(),
            final(memory).same_outside(*old(memory), block + 24, 8),
    {
        self.pending.push_block(block, memory);
        self.pending_len = self.pending_len + 1;
    }

    /// Detaches all pending blocks of a cache that has some.
    #[must_use]
    pub fn take_all_unchecked(&mut self, memory: &mut Memory) -> (batch: Batch)
        requires
            old(self).wf(),
            old(self).blocks().len() > 0,
            free_list::chain(old(self).blocks(), *old(memory)),
        ensures
            batch.linked(*final(memory)),
            final(memory).wf(),
            header::changes(*final(memory), *old(memory), Multiset::empty(), batch.held()),
            final(self).wf(),
            final(self).blocks() == Seq::<usize>::empty(),
            batch@ == old(self).blocks(),
    {
        let batch = self.pending.pop_batch_unchecked(self.pending_len, memory);
        self.pending_len = 0;
        proof {
            assert(self.pending@ =~= Seq::<usize>::empty());
            assert(batch@ =~= old(self).pending@);
        }
        batch
    }
}

/// The cached blocks of one class and the central pool of that class fit together: the pool
/// knows every slab and every block, and no block is held twice.
pub open spec fn class_fits(local: LocalClassCache, staged: Multiset<usize>, pool: ClassPool) -> bool {
    &&& forall|region: Region| #[trigger] local.owns(region) ==> pool.registered(region)
    &&& forall|block: usize| #[trigger] local.held().add(staged).count(block) > 0 ==> pool.knows(block)
    &&& blocks::distinct(local.held().add(staged).add(pool.held()))
}

impl ThreadCache {
    /// The configuration in use.
    pub closed spec fn settings(self) -> AllocatorConfig {
        self.config
    }

    /// The allocator this cache is bound to.
    pub closed spec fn bound_to(self) -> Option<usize> {
        self.owner
    }

    /// The number that names this cache in headers.
    pub closed spec fn id(self) -> u32 {
        self.cache_id
    }

    /// The blocks of `class` that this cache can hand out.
    pub closed spec fn local(self, class: SizeClass) -> LocalClassCache {
        self.classes@[class.position()]
    }

    /// The blocks of `class` waiting to be published to the central pool.
    pub closed spec fn staged(self, class: SizeClass) -> Seq<usize> {
        self.remote_returns@[class.position()].blocks()
    }

    /// All blocks of `class` in this cache.
    pub open spec fn held(self, class: SizeClass) -> Multiset<usize> {
        self.local(class).held().add(self.staged(class).to_multiset())
    }

    /// Nothing is cached.
    pub open spec fn empty(self) -> bool {
        forall|class: SizeClass|
            #![trigger self.local(class)]
            self.local(class).total_len == 0 && self.staged(class).len() == 0
    }

    /// The cached block counts and all class caches are in order, and no block is held twice.
    pub closed spec fn wf(self) -> bool {
        &&& forall|class: SizeClass| #[trigger] self.local(class).wf()
        &&& forall|class: SizeClass|
            #![trigger self.remote_returns@[class.position()]]
            self.remote_returns@[class.position()].wf()
        &&& forall|class: SizeClass| #[trigger]
            self.class_config@[class.position()] == class_settings(self.config, class)
        &&& forall|class: SizeClass| blocks::distinct(#[trigger] self.held(class))
        &&& forall|class: SizeClass| (#[trigger] self.held(class)).count(0) == 0
    }

    /// The lists are linked, and the headers of the cached blocks stand as they should.
    pub open spec fn ready(self, memory: Memory) -> bool {
        &&& forall|class: SizeClass| #[trigger]
            self.local(class).ready(memory, class, self.id())
        &&& forall|class: SizeClass| free_list::chain(#[trigger] self.staged(class), memory)
        &&& forall|class: SizeClass, block: usize|
            (#[trigger] self.staged(class).to_multiset().count(block)) > 0 ==> header::prepared(
                memory,
                block as int,
                class,
            )
    }

    /// Every class fits its central pool.
    pub open spec fn fits(self, central: CentralPool) -> bool {
        forall|class: SizeClass|
            #![trigger self.local(class)]
            class_fits(self.local(class), self.staged(class).to_multiset(), central.pool(class))
    }

    /// Cache, central pool and memory belong together.
    pub open spec fn in_step(self, central: CentralPool, memory: Memory) -> bool {
        &&& self.wf()
        &&& central.in_step(memory)
        &&& self.fits(central)
        &&& self.ready(memory)
    }

    /// Only `class` differs, and neither name nor settings.
    pub open spec fn same_but(self, other: Self, class: SizeClass) -> bool {
        &&& self.settings() == other.settings()
        &&& self.bound_to() == other.bound_to()
        &&& self.id() == other.id()
        &&& forall|at: SizeClass|
            #![trigger self.local(at)]
            #![trigger self.staged(at)]
            at != class ==> self.local(at) == other.local(at) && self.staged(at) == other.staged(at)
    }

    /// Creates a caller-owned thread cache that goes by the number `cache_id`.
    ///
    /// Pair one `ThreadCache` with one thread, and give no two caches of one allocator the
    /// same number.
    #[must_use]
    pub fn new(config: AllocatorConfig, cache_id: u32) -> (cache: Self)
        ensures
            cache.wf(),
            cache.settings() == config,
            cache.id() == cache_id,
            cache.bound_to() is None,
            cache.empty(),
            forall|class: SizeClass|
                #![trigger cache.local(class)]
                cache.local(class).slabs@.len() == 0,
            forall|class: SizeClass| #[trigger] cache.held(class) == Multiset::<usize>::empty(),
            forall|memory: Memory| cache.ready(memory),
    {
        let cache = ThreadCache {
            config,
            class_config: class_config_table(config),
            owner: None,
            cache_id,
            classes: empty_classes(),
            remote_returns: empty_returns(),
        };
        proof {
            cache.fresh_is_empty();
            assert forall|memory: Memory| #[trigger] cache.ready(memory) by {
                free_list::empty_chain(memory);
            }
        }
        cache
    }

    proof fn fresh_is_empty(self)
        requires
            forall|index: int|
                0 <= index < NUM_CLASSES ==> (#[trigger] self.classes@[index]).wf()
                    && self.classes@[index].held() == Multiset::<usize>::empty(),
            forall|index: int|
                0 <= index < NUM_CLASSES ==> (#[trigger] self.remote_returns@[index]).wf()
                    && self.remote_returns@[index].blocks() == Seq::<usize>::empty(),
        ensures
            forall|class: SizeClass|
                #![trigger self.held(class)]
                self.held(class) == Multiset::<usize>::empty(),
            forall|class: SizeClass|
                #![trigger self.staged(class)]
                self.staged(class).to_multiset() == Multiset::<usize>::empty(),
    {
        broadcast use vstd::multiset::group_multiset_axioms;

        blocks::blocks_of(Seq::<usize>::empty());
        assert(Seq::<usize>::empty().to_multiset() =~= Multiset::<usize>::empty());
        assert forall|class: SizeClass|
            #![trigger self.held(class)]
            self.held(class) == Multiset::<usize>::empty() by {
            assert(self.held(class) =~= Multiset::<usize>::empty());
        }
    }

    /// Returns the number that names this cache in headers.
    #[must_use]
    pub fn cache_id(&self) -> (id: u32)
        ensures
            id == self.id(),
    {
        self.cache_id
    }

    /// Whether nothing is cached.
    #[must_use]
    pub fn is_empty(&self) -> (result: bool)
        requires
            self.wf(),
        ensures
            result == self.empty(),
    {
        let mut index: usize = 0;
        while index < NUM_CLASSES
            invariant
                self.wf(),
                index <= NUM_CLASSES,
                forall|at: int|
                    0 <= at < index ==> (#[trigger] self.classes@[at]).total_len == 0
                        && self.remote_returns@[at].blocks().len() == 0,
            decreases NUM_CLASSES - index,
        {
            let ghost class = SizeClass::ALL[index as int];
            assert(self.remote_returns@[class.position()].wf());
            assert(self.local(class) == self.classes@[index as int]);
            if !self.classes[index].is_empty() || !self.remote_returns[index].is_empty() {
                return false;
            }
            index = index + 1;
        }
        true
    }

    /// Whether the cache has no block of `class` to hand out.
    #[must_use]
    pub fn needs_refill(&self, class: SizeClass) -> (result: bool)
        ensures
            result == (self.local(class).total_len == 0),
    {
        self.classes[class.index()].is_empty()
    }

    /// Whether the cache keeps more blocks of `class` than it may.
    #[must_use]
    pub fn should_drain(&self, class: SizeClass) -> (result: bool)
        requires
            self.wf(),
        ensures
            result == (self.local(class).total_len > self.settings().local_blocks(class)),
    {
        let index: usize = class.index();
        proof {
            limits_fit(self.config, class);
        }
        self.classes[index].len() > self.class_config[index].local_limit
    }

    /// Whether enough blocks of `class` wait to be published.
    #[must_use]
    pub fn should_flush_remote_returns(&self, class: SizeClass) -> (result: bool)
        requires
            self.wf(),
        ensures
            result == (self.staged(class).len() >= self.settings().drain_blocks(class)),
    {
        let index: usize = class.index();
        proof {
            limits_fit(self.config, class);
            assert(self.remote_returns@[class.position()].wf());
        }
        self.remote_returns[index].len() >= self.class_config[index].drain_count
    }

    /// The bytes of all blocks that the cache can hand out can be counted.
    pub open spec fn countable(self) -> bool {
        forall|class: SizeClass|
            #![trigger self.local(class)]
            self.local(class).total_len * class.block_bytes(self.settings().alignment as int)
                <= usize::MAX
    }

    /// `stats` counts the blocks that this cache can hand out.
    pub open spec fn counted(self, stats: ThreadCacheStats) -> bool {
        &&& stats.is_bound == self.bound_to() is Some
        &&& forall|class: SizeClass|
            #![trigger stats.local@[class.position()]]
            {
                let row = stats.local@[class.position()];
                &&& row.class == class
                &&& row.blocks == self.local(class).held().len()
                &&& row.bytes == self.local(class).held().len() * class.block_bytes(
                    self.settings().alignment as int,
                )
            }
    }

    /// Returns a snapshot of this cache's local occupancy.
    #[must_use]
    pub fn stats(&self) -> (stats: ThreadCacheStats)
        requires
            self.wf(),
            self.countable(),
        ensures
            self.counted(stats),
    {
        let mut local: [SizeClassStats; NUM_CLASSES] = [SizeClassStats {
            class: SizeClass::B64,
            blocks: 0,
            bytes: 0,
        };12];
        let mut index: usize = 0;
        while index < NUM_CLASSES
            invariant
                self.wf(),
                index <= NUM_CLASSES,
                self.countable(),
                forall|at: int|
                    0 <= at < index ==> {
                        let row = #[trigger] local@[at];
                        &&& row.class == SizeClass::ALL[at]
                        &&& row.blocks == self.classes@[at].total_len
                        &&& row.bytes == self.classes@[at].total_len
                            * SizeClass::ALL[at].block_bytes(self.config.alignment as int)
                    },
            decreases NUM_CLASSES - index,
        {
            let class = SizeClass::ALL[index];
            let blocks: usize = self.classes[index].stats_len();
            assert(self.local(class) == self.classes@[index as int]);
            let bytes: usize = blocks * self.config.class_block_size(class);
            local[index] = SizeClassStats { class, blocks, bytes };
            index = index + 1;
        }
        proof {
            assert forall|class: SizeClass|
                #![trigger local@[class.position()]]
                {
                    let row = local@[class.position()];
                    &&& row.class == class
                    &&& row.blocks == self.local(class).held().len()
                    &&& row.bytes == self.local(class).held().len() * class.block_bytes(
                        self.settings().alignment as int,
                    )
                } by {
                assert(self.local(class).wf());
            }
        }
        ThreadCacheStats { is_bound: self.owner.is_some(), local }
    }

    /// Returns the number of slabs of `class` that this cache owns.
    #[must_use]
    pub fn slab_count(&self, class: SizeClass) -> (count: usize)
        ensures
            count == self.local(class).slabs@.len(),
    {
        self.classes[class.index()].slabs.len()
    }

    /// In a cache that is in order every class is, and no block is held twice.
    pub proof fn class_is_wf(self, class: SizeClass)
        requires
            self.wf(),
        ensures
            self.local(class).wf(),
            blocks::distinct(self.held(class)),
            self.held(class).count(0) == 0,
    {
    }

    /// Law: a cache is empty just when it holds no block of any class, neither to hand out nor
    /// to publish.
    pub proof fn empty_caches_hold_nothing(self)
        requires
            self.wf(),
        ensures
            self.empty() <==> forall|class: SizeClass| (#[trigger] self.held(class)).len() == 0,
    {
        broadcast use vstd::multiset::group_multiset_axioms;

        assert forall|class: SizeClass| (#[trigger] self.held(class)).len() == self.local(
            class,
        ).total_len + self.staged(class).len() by {
            self.class_is_wf(class);
            blocks::blocks_of(self.staged(class));
        }
        if forall|class: SizeClass| (#[trigger] self.held(class)).len() == 0 {
            assert forall|class: SizeClass|
                #![trigger self.local(class)]
                self.local(class).total_len == 0 && self.staged(class).len() == 0 by {
                assert(self.held(class).len() == 0);
            }
        }
        if self.empty() {
            assert forall|class: SizeClass| (#[trigger] self.held(class)).len() == 0 by {
                assert(self.local(class).total_len == 0);
            }
        }
    }

    /// What changed in one class only, and in memory at blocks of that class only, leaves the
    /// other classes in step.
    proof fn still_in_step(
        self,
        before: Self,
        central: CentralPool,
        central_before: CentralPool,
        memory: Memory,
        earlier: Memory,
        touched: Multiset<usize>,
        class: SizeClass,
    )
        requires
            before.in_step(central_before, earlier),
            self.same_but(before, class),
            central.same_but(central_before, class),
            self.wf(),
            central.pool(class).wf(),
            memory.wf(),
            header::touches_only(memory, earlier, touched),
            forall|block: usize| #[trigger]
                touched.count(block) > 0 ==> central_before.pool(class).knows(block),
            central.pool(class).same_slabs(central_before.pool(class)),
            class_fits(
                self.local(class),
                self.staged(class).to_multiset(),
                central.pool(class),
            ),
            self.local(class).ready(memory, class, self.id()),
            forall|block: usize|
                (#[trigger] self.staged(class).to_multiset().count(block)) > 0 ==> header::prepared(
                    memory,
                    block as int,
                    class,
                ),
            free_list::chain(self.staged(class), memory),
            central.pool(class).ready(memory, class),
        ensures
            self.in_step(central, memory),
    {
        central.pool(class).slabs_are_kept(central_before.pool(class));
        central_before.known_blocks_fit(earlier, class);
        assert(header::headers_fit(memory, touched));
        assert forall|one: SizeClass, block: usize|
            #![trigger central.pool(one).knows(block)]
            #![trigger central_before.pool(one).knows(block)]
            central.pool(one).knows(block) == central_before.pool(one).knows(block) by {
            if one != class {
                assert(central.pool(one) == central_before.pool(one));
            }
        }
        assert(central.classes_apart()) by {
            assert forall|one: SizeClass, other: SizeClass, block: usize|
                one != other && #[trigger] central.pool(one).knows(block) implies !(
            #[trigger] central.pool(other).knows(block)) by {
                assert(central_before.pool(one).knows(block));
                assert(central_before.pool(other).knows(block)
                    == central.pool(other).knows(block));
            }
        }
        assert(central.slabs_fit(memory)) by {
            assert forall|at: SizeClass, region: Region| #[trigger] central.pool(at).registered(
                region,
            ) implies local_slab::region_fits(memory, region) by {
                assert(central_before.pool(at).registered(region));
            }
        }
        assert forall|at: SizeClass| #[trigger] central.pool(at).wf() by {
            assert(central_before.pool(at).wf());
        }
        assert forall|at: SizeClass| at != class implies central.pool(at).ready(memory, at)
            && #[trigger] self.local(at).ready(memory, at, self.id()) && free_list::chain(
            self.staged(at),
            memory,
        ) && forall|block: usize|
            (#[trigger] self.staged(at).to_multiset().count(block)) > 0 ==> header::prepared(
                memory,
                block as int,
                at,
            ) by {
            self.class_is_framed(
                before,
                central_before,
                memory,
                earlier,
                touched,
                class,
                at,
            );
            assert(central.pool(at) == central_before.pool(at));
        }
        assert(central.ready(memory)) by {
            assert forall|at: SizeClass| #[trigger] central.pool(at).ready(memory, at) by {
                if at != class {
                    assert(self.local(at).ready(memory, at, self.id()));
                }
            }
        }
        assert(self.ready(memory)) by {
            assert forall|at: SizeClass| free_list::chain(#[trigger] self.staged(at), memory) by {
                if at != class {
                    assert(self.local(at).ready(memory, at, self.id()));
                }
            }
            assert forall|at: SizeClass, block: usize|
                (#[trigger] self.staged(at).to_multiset().count(block)) > 0 implies header::prepared(
                memory,
                block as int,
                at,
            ) by {
                if at != class {
                    assert(self.local(at).ready(memory, at, self.id()));
                }
            }
        }
        assert(self.fits(central)) by {
            assert forall|at: SizeClass|
                #![trigger self.local(at)]
                class_fits(
                    self.local(at),
                    self.staged(at).to_multiset(),
                    central.pool(at),
                ) by {
                if at != class {
                    assert(self.local(at) == before.local(at));
                    assert(self.staged(at) == before.staged(at));
                    assert(central.pool(at) == central_before.pool(at));
                    assert(class_fits(
                        before.local(at),
                        before.staged(at).to_multiset(),
                        central_before.pool(at),
                    ));
                }
            }
        }
    }

    proof fn class_is_framed(
        self,
        before: Self,
        central: CentralPool,
        memory: Memory,
        earlier: Memory,
        touched: Multiset<usize>,
        class: SizeClass,
        at: SizeClass,
    )
        requires
            before.in_step(central, earlier),
            self.same_but(before, class),
            at != class,
            memory.wf(),
            header::touches_only(memory, earlier, touched),
            header::headers_fit(memory, touched),
            forall|block: usize| #[trigger]
                touched.count(block) > 0 ==> central.pool(class).knows(block),
        ensures
            central.pool(at).ready(memory, at),
            self.local(at).ready(memory, at, self.id()),
            free_list::chain(self.staged(at), memory),
            forall|block: usize|
                (#[trigger] self.staged(at).to_multiset().count(block)) > 0 ==> header::prepared(
                    memory,
                    block as int,
                    at,
                ),
    {
        broadcast use vstd::multiset::group_multiset_axioms;

        central.known_blocks_fit(earlier, at);
        let local = before.local(at);
        let staged = before.staged(at).to_multiset();
        assert(self.local(at) == local && self.staged(at) == before.staged(at));
        assert(class_fits(local, staged, central.pool(at)));
        assert forall|block: usize| #[trigger] touched.count(block) > 0 implies !central.pool(at).knows(
            block,
        ) by {
            assert(central.pool(class).knows(block));
        }
        assert forall|block: usize| #[trigger] local.held().count(block) > 0 implies central.pool(
            at,
        ).knows(block) by {
            assert(local.held().add(staged).count(block) > 0);
        }
        assert(header::headers_fit(memory, central.pool(at).held()));
        assert(header::headers_fit(memory, local.held()));
        assert(central.pool(at).ready(earlier, at));
        central.pool(at).ready_is_framed(memory, earlier, touched, at);
        assert(local.ready(earlier, at, before.id()));
        local.ready_is_framed(memory, earlier, touched, at, self.id());
        assert forall|block: usize| #[trigger] touched.count(block) > 0 implies staged.count(block)
            == 0 by {
            if staged.count(block) > 0 {
                assert(local.held().add(staged).count(block) > 0);
            }
        }
        free_list::chain_is_kept(before.staged(at), memory, earlier, touched);
        assert forall|block: usize| (#[trigger] self.staged(at).to_multiset().count(block))
            > 0 implies header::prepared(memory, block as int, at) by {
            assert(before.staged(at).to_multiset().count(block) > 0);
            assert(local.held().add(staged).count(block) > 0);
            assert(central.pool(at).knows(block));
            assert forall|other: usize| #[trigger] touched.count(other) > 0 implies other + 64
                <= block || block + 64 <= other by {
                header::headers_are_apart(memory, block as int, other as int);
            }
            header::header_is_untouched(memory, earlier, touched, block as int);
        }
    }

    /// Pops one block of `class`; `None` when the cache has none.
    #[must_use]
    pub fn pop(&mut self, class: SizeClass, memory: &Memory) -> (result: Option<
        (usize, BlockReuse),
    >)
        requires
            old(self).wf(),
            old(self).local(class).chained(*memory),
        ensures
            final(self).wf(),
            old(self).local(class).total_len == 0 ==> result is None && *final(self) == *old(self),
            old(self).local(class).total_len > 0 ==> result == Some(old(self).local(class).next())
                && final(self).popped(*old(self), class),
            forall|central: CentralPool, bytes: Memory|
                #![trigger final(self).in_step(central, bytes)]
                #![trigger old(self).in_step(central, bytes)]
                old(self).in_step(central, bytes) ==> final(self).in_step(central, bytes),
    {
        if self.needs_refill(class) {
            None
        } else {
            Some(self.pop_available_unchecked(class, memory))
        }
    }

    /// This cache is `before` without the block of `class` that leaves next.
    pub open spec fn popped(self, before: Self, class: SizeClass) -> bool {
        &&& self.same_but(before, class)
        &&& self.staged(class) == before.staged(class)
        &&& self.local(class).same_slabs(before.local(class))
        &&& self.local(class).popped(before.local(class))
        &&& self.local(class).total_len == before.local(class).total_len - 1
        &&& before.local(class).held() == self.local(class).held().insert(
            before.local(class).next().0,
        )
        &&& before.held(class) == self.held(class).insert(before.local(class).next().0)
    }

    /// Pops one block of a class known to have one.
    #[must_use]
    pub fn pop_available_unchecked(&mut self, class: SizeClass, memory: &Memory) -> (result: (
        usize,
        BlockReuse,
    ))
        requires
            old(self).wf(),
            old(self).local(class).total_len > 0,
            old(self).local(class).chained(*memory),
        ensures
            final(self).wf(),
            result == old(self).local(class).next(),
            final(self).popped(*old(self), class),
            forall|central: CentralPool, bytes: Memory|
                #![trigger final(self).in_step(central, bytes)]
                #![trigger old(self).in_step(central, bytes)]
                old(self).in_step(central, bytes) ==> final(self).in_step(central, bytes),
    {
        let index: usize = class.index();
        proof {
            assert(self.local(class).wf());
        }
        let result = self.classes[index].pop_block_unchecked(memory);
        proof {
            broadcast use vstd::multiset::group_multiset_axioms;

            self.only_local_changed(*old(self), class);
            let block = result.0;
            assert(old(self).held(class) =~= self.held(class).insert(block));
            assert(blocks::distinct(old(self).held(class)));
            blocks::taken_out(old(self).held(class), self.held(class), block);
            self.wf_if_class_is(*old(self), class);
            assert forall|central: CentralPool, bytes: Memory| #[trigger] old(self).in_step(
                central,
                bytes,
            ) implies self.in_step(central, bytes) by {
                assert(old(self).local(class).ready(bytes, class, old(self).id()));
                self.fewer_blocks_stay_in_step(*old(self), central, bytes, class);
            }
        }
        result
    }

    /// Only the local blocks of one class were changed.
    proof fn only_local_changed(self, before: Self, class: SizeClass)
        requires
            self.config == before.config,
            self.class_config == before.class_config,
            self.owner == before.owner,
            self.cache_id == before.cache_id,
            self.remote_returns == before.remote_returns,
            forall|index: int|
                0 <= index < NUM_CLASSES && index != class.position() ==> self.classes@[index]
                    == before.classes@[index],
        ensures
            self.same_but(before, class),
            self.staged(class) == before.staged(class),
    {
        assert forall|at: SizeClass|
            #![trigger self.local(at)]
            #![trigger self.staged(at)]
            at != class implies self.local(at) == before.local(at) && self.staged(at)
            == before.staged(at) by {
        }
    }

    /// A cache is in order if one class is and the others did not change.
    proof fn wf_if_class_is(self, before: Self, class: SizeClass)
        requires
            before.wf(),
            self.same_but(before, class),
            self.class_config == before.class_config,
            self.config == before.config,
            self.local(class).wf(),
            forall|at: SizeClass|
                #![trigger self.remote_returns@[at.position()]]
                at != class ==> self.remote_returns@[at.position()]
                    == before.remote_returns@[at.position()],
            self.remote_returns@[class.position()].wf(),
            blocks::distinct(self.held(class)),
            self.held(class).count(0) == 0,
        ensures
            self.wf(),
    {
        assert forall|at: SizeClass| #[trigger] self.local(at).wf() by {
            assert(before.local(at).wf());
        }
        assert forall|at: SizeClass|
            #![trigger self.remote_returns@[at.position()]]
            self.remote_returns@[at.position()].wf() by {
            assert(before.remote_returns@[at.position()].wf());
        }
        assert forall|at: SizeClass| #[trigger] self.class_config@[at.position()] == class_settings(
            self.config,
            at,
        ) by {
            assert(before.class_config@[at.position()] == class_settings(before.config, at));
        }
        assert forall|at: SizeClass| blocks::distinct(#[trigger] self.held(at)) && self.held(
            at,
        ).count(0) == 0 by {
            if at != class {
                assert(self.local(at) == before.local(at));
                assert(self.held(at) == before.held(at));
                assert(blocks::distinct(before.held(at)));
            }
        }
    }

    proof fn fewer_blocks_stay_in_step(
        self,
        before: Self,
        central: CentralPool,
        memory: Memory,
        class: SizeClass,
    )
        requires
            before.in_step(central, memory),
            self.wf(),
            self.same_but(before, class),
            self.staged(class) == before.staged(class),
            self.local(class).same_slabs(before.local(class)),
            forall|block: usize| #[trigger]
                self.held(class).count(block) <= before.held(class).count(block),
            self.local(class).ready(memory, class, self.id()),
        ensures
            self.in_step(central, memory),
    {
        broadcast use vstd::multiset::group_multiset_axioms;

        header::touches_nothing(memory);
        let pool = central.pool(class);
        let staged = self.staged(class).to_multiset();
        assert(class_fits(before.local(class), staged, pool));
        assert(class_fits(self.local(class), staged, pool)) by {
            assert forall|region: Region| #[trigger] self.local(class).owns(region) implies pool.registered(
                region,
            ) by {
                self.local(class).owned_slabs_are_kept(before.local(class), region);
            }
            assert forall|block: usize| #[trigger] self.local(class).held().add(staged).count(block)
                > 0 implies pool.knows(block) by {
                assert(self.held(class).count(block) <= before.held(class).count(block));
                assert(before.local(class).held().add(staged).count(block) > 0);
            }
            assert forall|block: usize| #[trigger]
                self.local(class).held().add(staged).add(pool.held()).count(block) <= 1 by {
                assert(self.held(class).count(block) <= before.held(class).count(block));
                assert(before.local(class).held().add(staged).add(pool.held()).count(block) <= 1);
            }
        }
        assert forall|block: usize| (#[trigger] self.staged(class).to_multiset().count(block))
            > 0 implies header::prepared(memory, block as int, class) by {
            assert(before.staged(class).to_multiset().count(block) > 0);
        }
        assert(pool.wf());
        assert(pool.ready(memory, class));
        self.still_in_step(
            before,
            central,
            central,
            memory,
            memory,
            Multiset::empty(),
            class,
        );
    }

    /// `block` can go into the cache: it is a block of `class` that neither the cache nor the
    /// central pool holds.
    pub open spec fn accepts(self, central: CentralPool, class: SizeClass, block: usize) -> bool {
        &&& central.pool(class).knows(block)
        &&& central.pool(class).held().count(block) == 0
        &&& self.held(class).count(block) == 0
    }

    /// This cache is `before` after `block` of `class` was freed into it.
    pub open spec fn pushed(self, before: Self, class: SizeClass, block: usize) -> bool {
        &&& self.same_but(before, class)
        &&& self.staged(class) == before.staged(class)
        &&& self.local(class).hot_block == Some(block)
        &&& self.local(class).pushed(before.local(class), block)
        &&& self.local(class).held() == before.local(class).held().insert(block)
        &&& self.local(class).total_len == before.local(class).total_len + 1
        &&& self.local(class).same_slabs(before.local(class))
        &&& self.held(class) == before.held(class).insert(block)
    }

    /// Takes one freed block of `class`: it is handed out next.
    pub fn push(&mut self, class: SizeClass, block: usize, memory: &mut Memory)
        requires
            old(self).wf(),
            block != 0,
            old(self).held(class).count(block) == 0,
            old(self).local(class).chained(*old(memory)),
            header::headers_fit(*old(memory), old(self).local(class).held()),
            header::header_fits(*old(memory), block as int),
        ensures
            final(self).wf(),
            final(self).pushed(*old(self), class, block),
            final(memory).wf(),
            header::changes(
                *final(memory),
                *old(memory),
                Multiset::empty(),
                class_cache::slot_held(old(self).local(class).hot_block),
            ),
            forall|central: CentralPool|
                #![trigger final(self).in_step(central, *final(memory))]
                #![trigger old(self).in_step(central, *old(memory))]
                old(self).in_step(central, *old(memory)) && old(self).accepts(central, class, block)
                    && local_slab::owned(*old(memory), block as int, class, old(self).id())
                    ==> final(self).in_step(central, *final(memory)),
    {
        broadcast use vstd::multiset::group_multiset_axioms;

        let index: usize = class.index();
        let ghost local = self.local(class);
        proof {
            assert(local.wf());
            assert(blocks::distinct(self.held(class)));
        }
        self.classes[index].push_block(block, memory);
        proof {
            self.only_local_changed(*old(self), class);
            assert(self.held(class) =~= old(self).held(class).insert(block));
            assert forall|other: usize| #[trigger] self.held(class).count(other) <= 1 by {
                assert(old(self).held(class).count(other) <= 1);
            }
            self.wf_if_class_is(*old(self), class);
            let links = class_cache::slot_held(local.hot_block);
            local.parts_are_held();
            assert(header::headers_fit(*memory, links));
            assert forall|central: CentralPool| #[trigger] old(self).in_step(
                central,
                *old(memory),
            ) && old(self).accepts(central, class, block) && local_slab::owned(
                *old(memory),
                block as int,
                class,
                old(self).id(),
            ) implies self.in_step(central, *memory) by {
                assert(local.ready(*old(memory), class, old(self).id()));
                let staged = old(self).staged(class).to_multiset();
                assert(class_fits(local, staged, central.pool(class)));
                assert forall|other: usize| #[trigger] links.count(other) > 0 implies staged.count(
                    other,
                ) == 0 && central.pool(class).knows(other) && central.pool(class).held().count(other)
                    == 0 by {
                    assert(local.held().count(other) > 0);
                    assert(local.held().add(staged).count(other) > 0);
                    assert(local.held().add(staged).add(central.pool(class).held()).count(other)
                        <= 1);
                }
                self.staged_is_relinked(
                    *old(self),
                    *memory,
                    *old(memory),
                    Multiset::empty(),
                    links,
                    class,
                );
                header::changes_touch(*memory, *old(memory), Multiset::empty(), links, links);
                self.one_more_block_stays_in_step(
                    *old(self),
                    central,
                    *memory,
                    *old(memory),
                    links,
                    class,
                    block,
                );
            }
        }
    }

    /// Staged blocks stay linked, and their headers in place, when other headers change and link
    /// words of other blocks.
    proof fn staged_is_relinked(
        self,
        before: Self,
        memory: Memory,
        earlier: Memory,
        whole: Multiset<usize>,
        links: Multiset<usize>,
        class: SizeClass,
    )
        requires
            self.staged(class) == before.staged(class),
            before.ready(earlier),
            memory.wf(),
            header::changes(memory, earlier, whole, links),
            header::headers_fit(memory, whole),
            header::headers_fit(memory, links),
            forall|block: usize| #[trigger]
                whole.count(block) > 0 ==> before.staged(class).to_multiset().count(block) == 0,
            forall|block: usize| #[trigger]
                links.count(block) > 0 ==> before.staged(class).to_multiset().count(block) == 0,
        ensures
            free_list::chain(self.staged(class), memory),
            forall|block: usize|
                (#[trigger] self.staged(class).to_multiset().count(block)) > 0 ==> header::prepared(
                    memory,
                    block as int,
                    class,
                ),
    {
        broadcast use vstd::multiset::group_multiset_axioms;

        let staged = before.staged(class);
        let touched = whole.add(links);
        header::changes_touch(memory, earlier, whole, links, touched);
        assert(free_list::chain(staged, earlier));
        free_list::chain_is_kept(staged, memory, earlier, touched);
        assert forall|block: usize| (#[trigger] self.staged(class).to_multiset().count(block))
            > 0 implies header::prepared(memory, block as int, class) by {
            assert(before.staged(class).to_multiset().count(block) > 0);
            header::header_is_relinked(memory, earlier, whole, links, block as int);
        }
    }

    proof fn one_more_block_stays_in_step(
        self,
        before: Self,
        central: CentralPool,
        memory: Memory,
        earlier: Memory,
        touched: Multiset<usize>,
        class: SizeClass,
        block: usize,
    )
        requires
            before.in_step(central, earlier),
            before.accepts(central, class, block),
            memory.wf(),
            header::touches_only(memory, earlier, touched),
            forall|other: usize| #[trigger]
                touched.count(other) > 0 ==> central.pool(class).knows(other) && central.pool(
                    class,
                ).held().count(other) == 0,
            self.wf(),
            self.same_but(before, class),
            self.local(class).same_slabs(before.local(class)),
            self.held(class) == before.held(class).insert(block),
            self.local(class).ready(memory, class, self.id()),
            free_list::chain(self.staged(class), memory),
            forall|other: usize|
                (#[trigger] self.staged(class).to_multiset().count(other)) > 0 ==> header::prepared(
                    memory,
                    other as int,
                    class,
                ),
        ensures
            self.in_step(central, memory),
    {
        broadcast use vstd::multiset::group_multiset_axioms;

        let pool = central.pool(class);
        let staged = self.staged(class).to_multiset();
        let earlier_staged = before.staged(class).to_multiset();
        assert(class_fits(before.local(class), earlier_staged, pool));
        assert(class_fits(self.local(class), staged, pool)) by {
            assert forall|region: Region| #[trigger] self.local(class).owns(region) implies pool.registered(
                region,
            ) by {
                self.local(class).owned_slabs_are_kept(before.local(class), region);
            }
            assert forall|other: usize| #[trigger] self.local(class).held().add(staged).count(other)
                > 0 implies pool.knows(other) by {
                assert(self.held(class).count(other) == before.held(class).insert(block).count(
                    other,
                ));
                if other != block {
                    assert(before.local(class).held().add(earlier_staged).count(other) > 0);
                }
            }
            assert forall|other: usize| #[trigger]
                self.local(class).held().add(staged).add(pool.held()).count(other) <= 1 by {
                assert(self.held(class).count(other) == before.held(class).insert(block).count(
                    other,
                ));
                assert(before.local(class).held().add(earlier_staged).add(pool.held()).count(other)
                    <= 1);
            }
        }
        assert(pool.wf());
        assert(pool.ready(earlier, class));
        central.known_blocks_fit(earlier, class);
        assert(header::headers_fit(memory, touched));
        assert(header::headers_fit(memory, pool.held()));
        pool.ready_is_framed(memory, earlier, touched, class);
        self.still_in_step(before, central, central, memory, earlier, touched, class);
    }

    /// Stages one block of `class` freed by a cache that does not own it.
    pub fn push_remote_return(&mut self, class: SizeClass, block: usize, memory: &mut Memory)
        requires
            old(self).wf(),
            block != 0,
            old(self).held(class).count(block) == 0,
            free_list::chain(old(self).staged(class), *old(memory)),
            header::header_fits(*old(memory), block as int),
        ensures
            final(self).wf(),
            final(self).same_but(*old(self), class),
            final(self).local(class) == old(self).local(class),
            final(self).staged(class) == old(self).staged(class).push(block),
            final(self).held(class) == old(self).held(class).insert(block),
            final(memory).wf(),
            final(memory).same_outside(*old(memory), block + 24, 8),
            forall|central: CentralPool|
                #![trigger final(self).in_step(central, *final(memory))]
                #![trigger old(self).in_step(central, *old(memory))]
                old(self).in_step(central, *old(memory)) && old(self).accepts(central, class, block)
                    && header::prepared(*old(memory), block as int, class) ==> final(self).in_step(
                    central,
                    *final(memory),
                ),
    {
        broadcast use vstd::multiset::group_multiset_axioms;

        let index: usize = class.index();
        proof {
            assert(self.remote_returns@[class.position()].wf());
            assert(blocks::distinct(self.held(class)));
            let more = self.held(class).insert(block);
            assert forall|other: usize| #[trigger] more.count(other) <= 1 by {
                assert(self.held(class).count(other) <= 1);
            }
            blocks::countable_blocks(more);
            blocks::blocks_of(self.staged(class));
            blocks::push_block(self.staged(class), block);
        }
        self.remote_returns[index].push_block(block, memory);
        proof {
            assert(self.held(class) =~= old(self).held(class).insert(block));
            assert(self.same_but(*old(self), class));
            assert(self.local(class) == old(self).local(class));
            assert(old(self).local(class).wf());
            self.wf_if_class_is(*old(self), class);
            let (none, one) = (Multiset::<usize>::empty(), Multiset::singleton(block));
            header::changes_link(*memory, *old(memory), block);
            header::changes_touch(*memory, *old(memory), none, one, one);
            assert forall|central: CentralPool| #[trigger] old(self).in_step(
                central,
                *old(memory),
            ) && old(self).accepts(central, class, block) && header::prepared(
                *old(memory),
                block as int,
                class,
            ) implies self.in_step(central, *memory) by {
                let local = old(self).local(class);
                assert(local.ready(*old(memory), class, old(self).id()));
                let staged = old(self).staged(class).to_multiset();
                assert(class_fits(local, staged, central.pool(class)));
                central.known_blocks_fit(*old(memory), class);
                assert forall|other: usize| #[trigger] local.held().count(
                    other,
                ) > 0 implies header::header_fits(*memory, other as int) by {
                    assert(local.held().add(staged).count(other) > 0);
                }
                assert(header::headers_fit(*memory, local.held()));
                local.ready_is_framed(*memory, *old(memory), one, class, old(self).id());
                assert forall|other: usize| (#[trigger] self.staged(class).to_multiset().count(
                    other,
                )) > 0 implies header::prepared(*memory, other as int, class) by {
                    if other != block {
                        assert(old(self).staged(class).to_multiset().count(other) > 0);
                        assert(local.held().add(staged).count(other) > 0);
                    }
                    header::header_is_relinked(*memory, *old(memory), none, one, other as int);
                }
                self.one_more_block_stays_in_step(
                    *old(self),
                    central,
                    *memory,
                    *old(memory),
                    one,
                    class,
                    block,
                );
            }
        }
    }

    /// Publishes the staged blocks of `class` to the central pool and returns their number.
    pub fn flush_remote_returns_for_class(
        &mut self,
        class: SizeClass,
        central: &mut CentralPool,
        memory: &mut Memory,
    ) -> (moved: usize)
        requires
            old(self).in_step(*old(central), *old(memory)),
        ensures
            final(self).in_step(*final(central), *final(memory)),
            moved == old(self).staged(class).len(),
            final(self).same_but(*old(self), class),
            final(self).local(class) == old(self).local(class),
            final(self).staged(class) == Seq::<usize>::empty(),
            final(self).held(class) == final(self).local(class).held(),
            final(central).same_but(*old(central), class),
            final(central).pool(class) == (ClassPool {
                inbox: final(central).pool(class).inbox,
                ..old(central).pool(class)
            }),
            final(central).pool(class).inbox@ == old(central).pool(class).inbox@ + old(self).staged(
                class,
            ),
            final(central).pool(class).held() == old(central).pool(class).held().add(
                old(self).staged(class).to_multiset(),
            ),
            header::changes(
                *final(memory),
                *old(memory),
                Multiset::empty(),
                old(self).staged(class).to_multiset(),
            ),
            header::changes_close(*final(memory), *old(memory)),
    {
        broadcast use vstd::multiset::group_multiset_axioms;

        let index: usize = class.index();
        let ghost none = Multiset::<usize>::empty();
        let ghost local = self.local(class);
        let ghost staged = self.staged(class).to_multiset();
        let ghost pool = central.pool(class);
        proof {
            assert(self.remote_returns@[class.position()].wf());
            assert(local.wf());
            assert(pool.wf());
            assert(local.ready(*memory, class, self.id()));
            assert(free_list::chain(self.staged(class), *memory));
            assert(pool.ready(*memory, class));
            assert(class_fits(local, staged, pool));
            central.known_blocks_fit(*memory, class);
            blocks::blocks_of(self.staged(class));
            blocks::blocks_of(Seq::<usize>::empty());
            header::changes_nothing(*memory, none, staged);
            header::closes_nothing(*memory);
        }
        if self.remote_returns[index].is_empty() {
            proof {
                assert(self.staged(class) =~= Seq::<usize>::empty());
                assert(self.held(class) =~= self.local(class).held());
                assert(central.pool(class).inbox@ =~= central.pool(class).inbox@ + self.staged(
                    class,
                ));
                assert(central.pool(class).held() =~= central.pool(class).held().add(
                    self.staged(class).to_multiset(),
                ));
            }
            return 0;
        }
        proof {
            assert forall|block: usize| #[trigger] pool.held().add(staged).count(block) <= 1 by {
                assert(self.local(class).held().add(staged).add(pool.held()).count(block) <= 1);
            }
            assert forall|block: usize| #[trigger] staged.count(block) > 0 implies pool.knows(block)
                && pool.held().count(block) == 0 && local.held().count(block) == 0 by {
                assert(self.local(class).held().add(staged).count(block) > 0);
                assert(self.local(class).held().add(staged).add(pool.held()).count(block) <= 1);
            }
            assert forall|block: usize| #[trigger] local.held().count(
                block,
            ) > 0 implies header::header_fits(*memory, block as int) by {
                assert(local.held().add(staged).count(block) > 0);
            }
        }
        let batch = self.remote_returns[index].take_all_unchecked(memory);
        let moved: usize = batch.len();
        let ghost middle = *memory;
        proof {
            header::changes_touch(middle, *old(memory), none, staged, staged);
            assert(header::headers_fit(middle, staged));
            assert(header::headers_fit(middle, pool.held()));
            pool.ready_is_framed(middle, *old(memory), staged, class);
            assert forall|block: usize| #[trigger] batch.held().count(
                block,
            ) > 0 implies header::prepared(middle, block as int, class) by {
                assert(old(self).staged(class).to_multiset().count(block) > 0);
                header::header_is_relinked(middle, *old(memory), none, staged, block as int);
            }
        }
        central.publish_remote_batch(class, batch, memory);
        proof {
            header::changes_compose(*old(memory), middle, *memory, none, staged, none, staged);
            header::changes_widen(
                *memory,
                *old(memory),
                none.add(none),
                staged.add(staged),
                none,
                staged,
            );
            header::changes_touch(*memory, *old(memory), none, staged, staged);
            assert(header::headers_fit(*memory, staged));
            assert(header::headers_fit(*memory, local.held()));
            header::closes_links(*memory, *old(memory), staged);
            local.ready_is_framed(*memory, *old(memory), staged, class, old(self).id());
            assert(self.same_but(*old(self), class));
            assert(self.local(class) == old(self).local(class));
            assert(self.held(class) =~= self.local(class).held());
            assert forall|block: usize| #[trigger] self.held(class).count(block) <= old(self).held(
                class,
            ).count(block) by {
            }
            assert forall|block: usize| #[trigger] self.held(class).count(block) <= 1 by {
                assert(old(self).local(class).held().add(staged).add(pool.held()).count(block)
                    <= 1);
            }
            self.wf_if_class_is(*old(self), class);
            let after = central.pool(class);
            let rest = self.staged(class).to_multiset();
            after.slabs_are_kept(pool);
            assert(class_fits(self.local(class), rest, after)) by {
                assert forall|block: usize| #[trigger]
                    self.local(class).held().add(rest).count(block) > 0 implies after.knows(block) by {
                    assert(old(self).local(class).held().add(staged).count(block) > 0);
                }
                assert forall|block: usize| #[trigger]
                    self.local(class).held().add(rest).add(after.held()).count(block) <= 1 by {
                    assert(old(self).local(class).held().add(staged).add(pool.held()).count(block)
                        <= 1);
                }
            }
            free_list::empty_chain(*memory);
            self.still_in_step(
                *old(self),
                *central,
                *old(central),
                *memory,
                *old(memory),
                staged,
                class,
            );
        }
        moved
    }

    /// Takes over all blocks of a slab of `class`, as never handed out.
    pub fn push_owned_slab(
        &mut self,
        class: SizeClass,
        start: usize,
        block_size: usize,
        capacity: usize,
    )
        requires
            old(self).wf(),
            class_cache::slab_region(start, block_size, capacity).valid(),
            forall|id: int|
                0 <= id < old(self).local(class).slabs@.len() ==> (#[trigger] old(self).local(
                    class,
                ).slabs@[id]).region() == class_cache::slab_region(start, block_size, capacity)
                    || old(self).local(class).slabs@[id].region().apart(
                    class_cache::slab_region(start, block_size, capacity),
                ),
            forall|block: usize| #[trigger]
                old(self).held(class).count(block) > 0 ==> !class_cache::slab_region(
                    start,
                    block_size,
                    capacity,
                ).has(block as int),
        ensures
            final(self).wf(),
            final(self).took_slab(
                *old(self),
                class,
                class_cache::slab_region(start, block_size, capacity),
            ),
            forall|central: CentralPool, memory: Memory|
                #![trigger final(self).in_step(central, memory)]
                #![trigger old(self).in_step(central, memory)]
                old(self).in_step(central, memory) && central.pool(class).registered(
                    class_cache::slab_region(start, block_size, capacity),
                ) && (forall|block: usize| #[trigger]
                    central.pool(class).held().count(block) > 0 ==> !class_cache::slab_region(
                        start,
                        block_size,
                        capacity,
                    ).has(block as int)) ==> final(self).in_step(central, memory),
    {
        broadcast use vstd::multiset::group_multiset_axioms;

        let index: usize = class.index();
        let ghost region = class_cache::slab_region(start, block_size, capacity);
        proof {
            assert(self.local(class).wf());
            assert(blocks::distinct(self.held(class)));
            region.tail_counts(0);
            assert forall|block: usize| #[trigger] self.local(class).held().count(block)
                > 0 implies !region.has(block as int) by {
                assert(self.held(class).count(block) > 0);
            }
        }
        self.classes[index].push_owned_slab(start, block_size, capacity);
        proof {
            self.only_local_changed(*old(self), class);
            assert(self.held(class) =~= old(self).held(class).add(region.all()));
            assert forall|block: usize| #[trigger] self.held(class).count(block) <= 1 by {
                assert(old(self).held(class).count(block) <= 1);
            }
            self.wf_if_class_is(*old(self), class);
            assert forall|central: CentralPool, memory: Memory| #[trigger] old(self).in_step(
                central,
                memory,
            ) && central.pool(class).registered(region) && (forall|block: usize| #[trigger]
                central.pool(class).held().count(block) > 0 ==> !region.has(
                    block as int,
                )) implies self.in_step(central, memory) by {
                header::touches_nothing(memory);
                let pool = central.pool(class);
                let staged = self.staged(class).to_multiset();
                assert(old(self).local(class).ready(memory, class, old(self).id()));
                assert(class_fits(old(self).local(class), staged, pool));
                self.slab_fits(*old(self), pool, class, region);
                assert forall|block: usize| (#[trigger] self.staged(class).to_multiset().count(
                    block,
                )) > 0 implies header::prepared(memory, block as int, class) by {
                    assert(old(self).staged(class).to_multiset().count(block) > 0);
                }
                assert(pool.wf());
                assert(pool.ready(memory, class));
                self.still_in_step(
                    *old(self),
                    central,
                    central,
                    memory,
                    memory,
                    Multiset::empty(),
                    class,
                );
            }
        }
    }

    /// This cache is `before` with all blocks of the slab `region` of `class` added.
    pub open spec fn took_slab(self, before: Self, class: SizeClass, region: Region) -> bool {
        &&& self.same_but(before, class)
        &&& self.staged(class) == before.staged(class)
        &&& self.local(class).held() == before.local(class).held().add(region.all())
        &&& self.local(class).total_len == before.local(class).total_len + region.capacity
        &&& self.local(class).took_slab(before.local(class), region)
        &&& self.local(class).hot_block is None ==> self.local(class).next() == (
            region.start as usize,
            BlockReuse::NeedsHeaderRewrite,
        )
        &&& forall|other: Region| #[trigger]
            self.local(class).owns(other) <==> before.local(class).owns(other) || other == region
        &&& self.held(class) == before.held(class).add(region.all())
    }

    proof fn slab_fits(self, before: Self, pool: ClassPool, class: SizeClass, region: Region)
        requires
            region.valid(),
            self.took_slab(before, class, region),
            class_fits(before.local(class), before.staged(class).to_multiset(), pool),
            pool.registered(region),
            forall|block: usize| #[trigger]
                before.held(class).count(block) > 0 ==> !region.has(block as int),
            forall|block: usize| #[trigger]
                pool.held().count(block) > 0 ==> !region.has(block as int),
        ensures
            class_fits(self.local(class), self.staged(class).to_multiset(), pool),
    {
        broadcast use vstd::multiset::group_multiset_axioms;

        region.tail_counts(0);
        let staged = self.staged(class).to_multiset();
        assert forall|block: usize| #[trigger] self.local(class).held().add(staged).count(block)
            > 0 implies pool.knows(block) by {
            if before.local(class).held().add(staged).count(block) == 0 {
                assert(region.has(block as int));
                let index = choose|index: int|
                    0 <= index < pool.slabs@.len() && (#[trigger] pool.slabs@[index]).region()
                        == region;
                assert(pool.slabs@[index].region().has(block as int));
            }
        }
        assert forall|block: usize| #[trigger]
            self.local(class).held().add(staged).add(pool.held()).count(block) <= 1 by {
            assert(before.local(class).held().add(staged).add(pool.held()).count(block) <= 1);
            assert(before.held(class).count(block) > 0 ==> !region.has(block as int));
            assert(pool.held().count(block) > 0 ==> !region.has(block as int));
        }
    }

    /// This cache is `before` after `refill` of `class` came in: a batch on top of the shared
    /// blocks, a slab among the owned ones.
    pub open spec fn refilled(self, before: Self, class: SizeClass, refill: CentralRefill) -> bool {
        &&& self.same_but(before, class)
        &&& self.staged(class) == before.staged(class)
        &&& match refill {
            CentralRefill::Empty => self.local(class) == before.local(class),
            CentralRefill::Batch(batch) => {
                &&& self.local(class).same_slabs(before.local(class))
                &&& self.local(class).hot_block == before.local(class).hot_block
                &&& self.local(class).available_slabs@ == before.local(class).available_slabs@
                &&& self.local(class).shared@ == before.local(class).shared@ + batch@
                &&& self.local(class).held() == before.local(class).held().add(batch.held())
            },
            CentralRefill::Slab { start, block_size, capacity } => self.took_slab(
                before,
                class,
                class_cache::slab_region(start, block_size, capacity),
            ),
        }
    }

    /// An empty cache hands out the first block of what came in.
    pub proof fn refill_comes_first(self, before: Self, class: SizeClass, refill: CentralRefill)
        requires
            before.wf(),
            before.local(class).total_len == 0,
            self.refilled(before, class, refill),
            refill !is Empty,
            refill matches CentralRefill::Batch(batch) ==> batch@.len() > 0,
        ensures
            self.local(class).next().0 == refill.first(),
    {
        broadcast use vstd::multiset::group_multiset_axioms;

        let local = before.local(class);
        before.class_is_wf(class);
        local.parts_are_held();
        local.nothing_is_available();
    }

    /// Moves blocks of `class` from the central pool into this cache and returns their number.
    pub fn refill_from_central(
        &mut self,
        class: SizeClass,
        central: &mut CentralPool,
        memory: &mut Memory,
    ) -> (moved: usize)
        requires
            old(self).in_step(*old(central), *old(memory)),
            old(central).pool(class).epoch + 2 <= u64::MAX,
        ensures
            final(self).in_step(*final(central), *final(memory)),
            header::changes(
                *final(memory),
                *old(memory),
                Multiset::empty(),
                old(central).pool(class).held(),
            ),
            header::changes_close(*final(memory), *old(memory)),
            old(central).pool(class).held().len() == 0 ==> *final(memory) == *old(memory),
            final(self).same_but(*old(self), class),
            final(self).staged(class) == old(self).staged(class),
            final(self).local(class).total_len == old(self).local(class).total_len + moved,
            moved == 0 <==> old(central).pool(class).held().len() == 0,
            exists|refill: CentralRefill| #[trigger]
                final(self).refilled(*old(self), class, refill) && class_pool::gives(
                    old(central).pool(class),
                    old(self).settings().refill_blocks(class),
                    refill,
                ) && final(central).pool(class).gave_out(
                    old(central).pool(class),
                    old(self).settings().refill_blocks(class),
                    refill,
                ) && moved == refill.held().len() && old(central).pool(class).held() == final(central).pool(class).held().add(refill.held()) && (refill is Empty <==> moved == 0),
            final(central).same_but(*old(central), class),
            final(central).pool(class).same_slabs(old(central).pool(class)),
            old(central).pool(class).epoch <= final(central).pool(class).epoch <= old(central).pool(
                class,
            ).epoch + 2,
            final(self).held(class).add(final(central).pool(class).held()) == old(self).held(
                class,
            ).add(old(central).pool(class).held()),
            forall|block: usize| #[trigger]
                final(self).held(class).count(block) >= old(self).held(class).count(block),
    {
        broadcast use vstd::multiset::group_multiset_axioms;

        let index: usize = class.index();
        let ghost pool = central.pool(class);
        let ghost staged = self.staged(class).to_multiset();
        let ghost none = Multiset::<usize>::empty();
        let ghost local = self.local(class);
        proof {
            assert(local.wf());
            assert(pool.wf());
            assert(local.ready(*memory, class, self.id()));
            assert(pool.ready(*memory, class));
            assert(class_fits(local, staged, pool));
            central.known_blocks_fit(*memory, class);
            assert forall|block: usize| #[trigger] local.held().count(
                block,
            ) > 0 implies header::header_fits(*memory, block as int) by {
                assert(local.held().add(staged).count(block) > 0);
            }
            assert forall|block: usize| #[trigger] pool.held().count(block) > 0 implies local.held().count(
                block,
            ) == 0 && staged.count(block) == 0 by {
                assert(local.held().add(staged).add(pool.held()).count(block) <= 1);
            }
            limits_fit(self.config, class);
            assert(self.class_config@[class.position()] == class_settings(self.config, class));
        }
        let refill = central.take_refill(class, self.class_config[index].refill_count, memory);
        let ghost after = central.pool(class);
        let ghost middle = *memory;
        proof {
            header::changes_touch(middle, *old(memory), none, pool.held(), pool.held());
            assert(header::headers_fit(middle, pool.held()));
            assert(header::headers_fit(middle, local.held()));
            header::closes_links(middle, *old(memory), pool.held());
            local.ready_is_framed(middle, *old(memory), pool.held(), class, self.id());
            local.ready_is_chained(middle, class, self.id());
            after.slabs_are_kept(pool);
            assert forall|block: usize| #[trigger]
                self.local(class).held().add(staged).add(after.held()).add(refill.held()).count(
                    block,
                ) <= 1 by {
                assert(self.local(class).held().add(staged).add(pool.held()).count(block) <= 1);
                assert(pool.held().count(block) == after.held().add(refill.held()).count(block));
            }
        }
        match refill {
            CentralRefill::Empty => {
                proof {
                    assert(after.held() =~= pool.held());
                    assert(self.held(class) =~= self.held(class).add(Multiset::empty()));
                    self.refilled_fits(*old(self), pool, after, class, Multiset::empty());
                    self.refilled_in_step(
                        *old(self),
                        *central,
                        *old(central),
                        *memory,
                        *old(memory),
                        class,
                    );
                    assert(self.refilled(*old(self), class, refill));
                }
                0
            },
            CentralRefill::Batch(batch) => {
                let moved: usize = batch.len();
                proof {
                    assert forall|block: usize| #[trigger]
                        self.local(class).held().add(batch.held()).count(block) <= 1 by {
                        assert(self.local(class).held().add(staged).add(after.held()).add(
                            refill.held(),
                        ).count(block) <= 1);
                    }
                    pool.held_facts();
                    assert(batch.held().count(0) <= pool.held().count(0));
                }
                proof {
                    assert forall|block: usize| #[trigger] batch.held().count(
                        block,
                    ) > 0 implies pool.held().count(block) > 0 && after.held().count(block) == 0 by {
                        assert(self.local(class).held().add(staged).add(after.held()).add(
                            refill.held(),
                        ).count(block) <= 1);
                    }
                    assert forall|block: usize| #[trigger] after.held().count(
                        block,
                    ) > 0 implies pool.held().count(block) > 0 by {
                    }
                }
                self.classes[index].push_shared_batch(batch, memory);
                proof {
                    header::changes_touch(*memory, middle, none, batch.held(), batch.held());
                    assert(header::headers_fit(*memory, batch.held()));
                    assert(header::headers_fit(*memory, after.held()));
                    header::closes_links(*memory, middle, batch.held());
                    header::closes_compose(*old(memory), middle, *memory);
                    after.ready_is_framed(*memory, middle, batch.held(), class);
                    header::changes_compose(
                        *old(memory),
                        middle,
                        *memory,
                        none,
                        pool.held(),
                        none,
                        batch.held(),
                    );
                    header::changes_widen(
                        *memory,
                        *old(memory),
                        none.add(none),
                        pool.held().add(batch.held()),
                        none,
                        pool.held(),
                    );
                    self.only_local_changed(*old(self), class);
                    assert(self.held(class) =~= old(self).held(class).add(batch.held()));
                    assert forall|region: Region| #[trigger] self.local(class).owns(
                        region,
                    ) implies old(self).local(class).owns(region) by {
                        self.local(class).owned_slabs_are_kept(old(self).local(class), region);
                    }
                    self.refilled_fits(*old(self), pool, after, class, batch.held());
                    self.wf_if_class_is(*old(self), class);
                    self.refilled_in_step(
                        *old(self),
                        *central,
                        *old(central),
                        *memory,
                        *old(memory),
                        class,
                    );
                    blocks::blocks_of(batch@);
                    assert(self.refilled(*old(self), class, refill));
                }
                moved
            },
            CentralRefill::Slab { start, block_size, capacity } => {
                let ghost region = class_cache::slab_region(start, block_size, capacity);
                proof {
                    let known = choose|known: int|
                        0 <= known < pool.slabs@.len() && (#[trigger] pool.slabs@[known]).region()
                            == region;
                    assert(pool.slabs@[known].wf());
                    region.tail_counts(0);
                    assert forall|id: int| 0 <= id < self.local(class).slabs@.len() implies (
                    #[trigger] self.local(class).slabs@[id]).region() == region || self.local(
                        class,
                    ).slabs@[id].region().apart(region) by {
                        let own = self.local(class).slabs@[id].region();
                        assert(self.local(class).owns(own));
                        let at = choose|at: int|
                            0 <= at < pool.slabs@.len() && (#[trigger] pool.slabs@[at]).region()
                                == own;
                        if at < known {
                            assert(pool.slabs@[at].region().end() <= pool.slabs@[known].region().start);
                        } else if known < at {
                            assert(pool.slabs@[known].region().end() <= pool.slabs@[at].region().start);
                        }
                    }
                    assert forall|block: usize| #[trigger] self.local(class).held().count(block)
                        > 0 implies !region.has(block as int) by {
                        assert(self.local(class).held().add(staged).add(after.held()).add(
                            refill.held(),
                        ).count(block) <= 1);
                    }
                }
                self.classes[index].push_owned_slab(start, block_size, capacity);
                proof {
                    self.only_local_changed(*old(self), class);
                    assert(self.held(class) =~= old(self).held(class).add(region.all()));
                    self.refilled_fits(*old(self), pool, after, class, region.all());
                    self.wf_if_class_is(*old(self), class);
                    self.refilled_in_step(
                        *old(self),
                        *central,
                        *old(central),
                        *memory,
                        *old(memory),
                        class,
                    );
                    assert(self.took_slab(*old(self), class, region));
                    assert(self.refilled(*old(self), class, refill));
                }
                capacity
            },
        }
    }

    proof fn refilled_fits(
        self,
        before: Self,
        pool: ClassPool,
        after: ClassPool,
        class: SizeClass,
        refill: Multiset<usize>,
    )
        requires
            pool.wf(),
            pool.held() == after.held().add(refill),
            after.same_slabs(pool),
            class_fits(before.local(class), before.staged(class).to_multiset(), pool),
            self.staged(class) == before.staged(class),
            self.held(class) == before.held(class).add(refill),
            forall|region: Region| #[trigger]
                self.local(class).owns(region) ==> before.local(class).owns(region)
                    || pool.registered(region),
        ensures
            class_fits(self.local(class), self.staged(class).to_multiset(), after),
            self.held(class).add(after.held()) == before.held(class).add(pool.held()),
            blocks::distinct(self.held(class)),
            self.held(class).count(0) == 0,
            forall|block: usize| #[trigger]
                self.held(class).count(block) >= before.held(class).count(block),
    {
        broadcast use vstd::multiset::group_multiset_axioms;

        let staged = self.staged(class).to_multiset();
        after.slabs_are_kept(pool);
        pool.held_facts();
        assert(self.held(class).add(after.held()) =~= before.held(class).add(pool.held()));
        assert forall|block: usize| #[trigger] self.local(class).held().add(staged).count(block)
            > 0 implies after.knows(block) by {
            assert(self.held(class).count(block) > 0);
            if before.local(class).held().add(staged).count(block) == 0 {
                assert(before.held(class).count(block) == 0);
                assert(refill.count(block) > 0);
                assert(pool.held().count(block) > 0);
            }
            assert(pool.knows(block));
        }
        assert forall|block: usize| #[trigger]
            self.local(class).held().add(staged).add(after.held()).count(block) <= 1 by {
            assert(before.local(class).held().add(staged).add(pool.held()).count(block) <= 1);
            assert(self.held(class).add(after.held()).count(block) == before.held(class).add(
                pool.held(),
            ).count(block));
        }
        assert forall|block: usize| #[trigger] self.held(class).count(block) <= 1 by {
            assert(self.local(class).held().add(staged).add(after.held()).count(block) <= 1);
        }
        if self.held(class).count(0) > 0 {
            assert(self.local(class).held().add(staged).count(0) > 0);
            assert(pool.knows(0));
            let index = choose|index: int|
                0 <= index < pool.slabs@.len() && (#[trigger] pool.slabs@[index]).region().has(0);
            assert(pool.slabs@[index].wf());
        }
    }

    proof fn refilled_in_step(
        self,
        before: Self,
        central: CentralPool,
        central_before: CentralPool,
        memory: Memory,
        earlier: Memory,
        class: SizeClass,
    )
        requires
            before.in_step(central_before, earlier),
            memory.wf(),
            header::changes(
                memory,
                earlier,
                Multiset::empty(),
                central_before.pool(class).held(),
            ),
            self.wf(),
            self.same_but(before, class),
            central.same_but(central_before, class),
            central.pool(class).wf(),
            central.pool(class).same_slabs(central_before.pool(class)),
            self.staged(class) == before.staged(class),
            class_fits(self.local(class), self.staged(class).to_multiset(), central.pool(class)),
            central.pool(class).ready(memory, class),
            self.local(class).ready(memory, class, self.id()),
        ensures
            self.in_step(central, memory),
    {
        broadcast use vstd::multiset::group_multiset_axioms;

        let none = Multiset::<usize>::empty();
        let held = central_before.pool(class).held();
        let staged = before.staged(class).to_multiset();
        central_before.known_blocks_fit(earlier, class);
        assert(header::headers_fit(memory, held));
        assert(class_fits(before.local(class), staged, central_before.pool(class)));
        assert forall|block: usize| #[trigger] held.count(block) > 0 implies staged.count(block)
            == 0 by {
            assert(before.local(class).held().add(staged).add(held).count(block) <= 1);
        }
        self.staged_is_relinked(before, memory, earlier, none, held, class);
        header::changes_touch(memory, earlier, none, held, held);
        self.still_in_step(before, central, central_before, memory, earlier, held, class);
    }

    /// This cache and central pool are `before` and `central_before` with up to `max` blocks of
    /// `class` moved from the cache to the pool.
    pub open spec fn drained(
        self,
        central: CentralPool,
        before: Self,
        central_before: CentralPool,
        class: SizeClass,
        max: int,
    ) -> bool {
        let batch = before.local(class).drained(max);
        &&& self.same_but(before, class)
        &&& self.staged(class) == before.staged(class)
        &&& self.local(class).same_slabs(before.local(class))
        &&& before.local(class).held() == self.local(class).held().add(batch.to_multiset())
        &&& self.local(class).total_len == before.local(class).total_len - batch.len()
        &&& self.local(class).left_by_drain(before.local(class), max)
        &&& before.local(class).total_len > 1 ==> self.local(class).hot_block == before.local(
            class,
        ).hot_block
        &&& central.same_but(central_before, class)
        &&& central.pool(class).same_slabs(central_before.pool(class))
        &&& central.pool(class).took_in(central_before.pool(class), batch)
        &&& central.pool(class).held() == central_before.pool(class).held().add(
            batch.to_multiset(),
        )
        &&& central_before.pool(class).epoch <= central.pool(class).epoch
            <= central_before.pool(class).epoch + 2
    }

    /// Moves up to `max` blocks of `class` to the central pool and returns their number.
    fn drain_batch(
        &mut self,
        class: SizeClass,
        max: usize,
        central: &mut CentralPool,
        memory: &mut Memory,
    ) -> (moved: usize)
        requires
            old(self).in_step(*old(central), *old(memory)),
            old(self).local(class).total_len > 0,
            max > 0,
            old(central).pool(class).epoch + 2 <= u64::MAX,
        ensures
            final(self).in_step(*final(central), *final(memory)),
            final(self).drained(*final(central), *old(self), *old(central), class, max as int),
            moved == old(self).local(class).drained(max as int).len(),
            moved > 0,
            header::changes(
                *final(memory),
                *old(memory),
                old(self).local(class).fresh_drained(max as int),
                old(self).local(class).drained(max as int).to_multiset().add(
                    old(central).pool(class).held(),
                ),
            ),
            header::changes_close(*final(memory), *old(memory)),
            forall|block: usize| #[trigger]
                old(self).local(class).fresh_drained(max as int).count(block) > 0 ==> old(self).held(class).count(block) > 0,
    {
        broadcast use vstd::multiset::group_multiset_axioms;

        let index: usize = class.index();
        let ghost pool = central.pool(class);
        let ghost local = self.local(class);
        let ghost staged = self.staged(class).to_multiset();
        proof {
            assert(local.wf());
            assert(pool.wf());
            assert(class_fits(local, staged, pool));
            central.known_blocks_fit(*memory, class);
            assert forall|block: usize| #[trigger] local.held().count(block) > 0 implies pool.knows(
                block,
            ) by {
                assert(local.held().add(staged).count(block) > 0);
            }
            assert forall|id: int| 0 <= id < local.slabs@.len() implies local_slab::region_fits(
                *memory,
                (#[trigger] local.slabs@[id]).region(),
            ) by {
                assert(local.owns(local.slabs@[id].region()));
                assert(central.pool(class).registered(local.slabs@[id].region()));
            }
            assert(local.ready(*memory, class, self.id()));
            local.ready_is_chained(*memory, class, self.id());
        }
        let batch = self.classes[index].pop_batch(max, class, memory);
        let moved: usize = batch.len();
        let ghost fresh = local.fresh_drained(max as int);
        let ghost middle = *memory;
        let ghost none = Multiset::<usize>::empty();
        let ghost links = batch.held().add(pool.held());
        proof {
            self.only_local_changed(*old(self), class);
            assert forall|block: usize| #[trigger] batch.held().count(block) > 0 implies pool.knows(
                block,
            ) && local.held().count(block) > 0 by {
                assert(local.held().count(block) == self.local(class).held().add(
                    batch.held(),
                ).count(block));
            }
            assert forall|block: usize| #[trigger] pool.held().add(batch.held()).count(block) <= 1 by {
                assert(local.held().count(block) == self.local(class).held().add(
                    batch.held(),
                ).count(block));
                assert(local.held().add(staged).add(pool.held()).count(block) <= 1);
            }
            assert forall|block: usize| #[trigger] batch.held().count(block) > 0 implies pool.held().count(
                block,
            ) == 0 && staged.count(block) == 0 && self.local(class).held().count(block) == 0 by {
                assert(local.held().add(staged).add(pool.held()).count(block) <= 1);
                assert(local.held().count(block) == self.local(class).held().add(
                    batch.held(),
                ).count(block));
            }
            assert forall|block: usize| #[trigger] self.local(class).held().count(
                block,
            ) > 0 implies local.held().count(block) > 0 && header::header_fits(
                *memory,
                block as int,
            ) by {
                assert(local.held().count(block) == self.local(class).held().add(
                    batch.held(),
                ).count(block));
                assert(pool.knows(block));
            }
            header::changes_touch(middle, *old(memory), fresh, batch.held(), batch.held());
            assert(header::headers_fit(*memory, batch.held()));
            assert(header::headers_fit(*memory, pool.held()));
            assert(pool.ready(*old(memory), class));
            pool.ready_is_framed(*memory, *old(memory), batch.held(), class);
        }
        central.return_batch(class, batch, memory);
        proof {
            assert(pool.held().add(batch.held()) =~= links);
            header::closes_links(*memory, middle, links);
            header::closes_compose(*old(memory), middle, *memory);
            header::changes_compose(
                *old(memory),
                middle,
                *memory,
                fresh,
                batch.held(),
                none,
                links,
            );
            header::changes_widen(
                *memory,
                *old(memory),
                fresh.add(none),
                batch.held().add(links),
                fresh,
                links,
            );
            header::changes_touch(*memory, middle, none, links, links);
            header::changes_touch(*memory, *old(memory), fresh, links, links);
            assert(header::headers_fit(*memory, links));
            assert(header::headers_fit(*memory, fresh));
            assert forall|block: usize| #[trigger] links.count(block) > 0 implies pool.knows(block)
                && staged.count(block) == 0 && self.local(class).held().count(block) == 0 by {
                if pool.held().count(block) > 0 {
                    assert(local.held().add(staged).add(pool.held()).count(block) <= 1);
                    assert(local.held().count(block) == self.local(class).held().add(
                        batch.held(),
                    ).count(block));
                }
            }
            assert(header::headers_fit(*memory, self.local(class).held()));
            self.local(class).ready_is_framed(*memory, middle, links, class, self.id());
            let after = central.pool(class);
            after.slabs_are_kept(pool);
            assert(old(self).held(class) =~= self.held(class).add(batch.held()));
            assert(blocks::distinct(old(self).held(class)));
            blocks::split_in_two(old(self).held(class), self.held(class), batch.held());
            self.wf_if_class_is(*old(self), class);
            assert(class_fits(self.local(class), staged, after)) by {
                assert forall|region: Region| #[trigger] self.local(class).owns(region) implies after.registered(
                    region,
                ) by {
                    self.local(class).owned_slabs_are_kept(local, region);
                    assert(pool.registered(region));
                }
                assert forall|block: usize| #[trigger]
                    self.local(class).held().add(staged).count(block) > 0 implies after.knows(block) by {
                    assert(self.held(class).count(block) <= old(self).held(class).count(block));
                    assert(local.held().add(staged).count(block) > 0);
                }
                assert forall|block: usize| #[trigger]
                    self.local(class).held().add(staged).add(after.held()).count(block) <= 1 by {
                    assert(local.held().count(block) == self.local(class).held().add(
                        batch.held(),
                    ).count(block));
                    assert(local.held().add(staged).add(pool.held()).count(block) <= 1);
                }
            }
            self.staged_is_relinked(*old(self), *memory, *old(memory), fresh, links, class);
            self.still_in_step(
                *old(self),
                *central,
                *old(central),
                *memory,
                *old(memory),
                links,
                class,
            );
        }
        moved
    }

    /// Drains one configured batch of `class` from this cache to the central pool.
    ///
    /// For slab-backed capacity, reclaimed blocks are drained before untouched fresh
    /// capacity, and a single drain batch may combine both sources to satisfy the configured
    /// count.
    pub fn drain_excess_to_central(
        &mut self,
        class: SizeClass,
        central: &mut CentralPool,
        memory: &mut Memory,
    ) -> (moved: usize)
        requires
            old(self).in_step(*old(central), *old(memory)),
            old(self).local(class).total_len > old(self).settings().local_blocks(class),
            old(central).pool(class).epoch + 2 <= u64::MAX,
        ensures
            final(self).in_step(*final(central), *final(memory)),
            final(self).drained(
                *final(central),
                *old(self),
                *old(central),
                class,
                old(self).settings().drain_blocks(class),
            ),
            moved == old(self).local(class).drained(
                old(self).settings().drain_blocks(class),
            ).len(),
            moved > 0,
            header::changes(
                *final(memory),
                *old(memory),
                old(self).local(class).fresh_drained(old(self).settings().drain_blocks(class)),
                old(self).local(class).drained(
                    old(self).settings().drain_blocks(class),
                ).to_multiset().add(old(central).pool(class).held()),
            ),
            header::changes_close(*final(memory), *old(memory)),
            forall|block: usize| #[trigger]
                old(self).local(class).fresh_drained(
                    old(self).settings().drain_blocks(class),
                ).count(block) > 0 ==> old(self).held(class).count(block) > 0,
    {
        proof {
            limits_fit(self.config, class);
            assert(self.class_config@[class.position()] == class_settings(self.config, class));
        }
        let count: usize = self.class_config[class.index()].drain_count;
        self.drain_batch(class, count, central, memory)
    }

    /// The blocks of `class` in this cache and in the central pool.
    pub open spec fn stock(self, central: CentralPool, class: SizeClass) -> Multiset<usize> {
        self.held(class).add(central.pool(class).held())
    }

    /// The blocks of the first `count` classes in this cache and in the central pool.
    pub open spec fn stock_below(self, central: CentralPool, count: nat) -> Multiset<usize>
        decreases count,
    {
        if count == 0 {
            Multiset::empty()
        } else {
            self.stock_below(central, (count - 1) as nat).add(
                self.stock(central, SizeClass::ALL[count - 1]),
            )
        }
    }

    /// All blocks in this cache and in the central pool.
    pub open spec fn everything(self, central: CentralPool) -> Multiset<usize> {
        self.stock_below(central, NUM_CLASSES as nat)
    }

    /// All blocks are the blocks of all classes.
    pub proof fn everything_is_all_classes(self, central: CentralPool, count: nat)
        requires
            count <= NUM_CLASSES,
        ensures
            forall|block: usize| #[trigger]
                self.stock_below(central, count).count(block) > 0 <==> exists|class: SizeClass|
                    class.position() < count && (#[trigger] self.stock(central, class)).count(block)
                        > 0,
        decreases count,
    {
        broadcast use vstd::multiset::group_multiset_axioms;

        if count > 0 {
            self.everything_is_all_classes(central, (count - 1) as nat);
            let last = SizeClass::ALL[count - 1];
            assert(last.position() == count - 1);
            assert forall|block: usize| #[trigger]
                self.stock_below(central, count).count(block) > 0 <==> exists|class: SizeClass|
                    class.position() < count && (#[trigger] self.stock(central, class)).count(block)
                        > 0 by {
                let fewer = self.stock_below(central, (count - 1) as nat);
                assert(self.stock_below(central, count).count(block) == fewer.count(block)
                    + self.stock(central, last).count(block));
                if fewer.count(block) > 0 {
                    let class = choose|class: SizeClass|
                        class.position() < count - 1 && (#[trigger] self.stock(
                            central,
                            class,
                        )).count(block) > 0;
                    assert(self.stock(central, class).count(block) > 0);
                }
                if exists|class: SizeClass|
                    class.position() < count && (#[trigger] self.stock(central, class)).count(block)
                        > 0 {
                    let class = choose|class: SizeClass|
                        class.position() < count && (#[trigger] self.stock(central, class)).count(
                            block,
                        ) > 0;
                    if class.position() == count - 1 {
                        assert(class == last);
                    }
                }
            }
        }
    }

    /// What touches blocks of one class touches no more than all blocks.
    proof fn touches_everything(
        self,
        central: CentralPool,
        first: Memory,
        second: Memory,
        third: Memory,
        touched: Multiset<usize>,
        class: SizeClass,
    )
        requires
            header::touches_only(second, first, self.everything(central)),
            header::touches_only(third, second, touched),
            forall|block: usize| #[trigger]
                touched.count(block) > 0 ==> self.stock(central, class).count(block) > 0,
        ensures
            header::touches_only(third, first, self.everything(central)),
    {
        broadcast use vstd::multiset::group_multiset_axioms;

        let all = self.everything(central);
        self.everything_is_all_classes(central, NUM_CLASSES as nat);
        assert forall|block: usize| #[trigger] all.add(touched).count(block) > 0 implies all.count(
            block,
        ) > 0 by {
            if touched.count(block) > 0 {
                assert(self.stock(central, class).count(block) > 0);
            }
        }
        header::touches_compose(first, second, third, all, touched);
        header::touches_widen(third, first, all.add(touched), all);
    }

    /// Publishes all staged blocks to the central pool.
    pub fn flush_all_remote_returns(&mut self, central: &mut CentralPool, memory: &mut Memory)
        requires
            old(self).in_step(*old(central), *old(memory)),
        ensures
            final(self).in_step(*final(central), *final(memory)),
            final(self).settings() == old(self).settings(),
            final(self).bound_to() == old(self).bound_to(),
            final(self).id() == old(self).id(),
            forall|class: SizeClass|
                #![trigger final(self).local(class)]
                #![trigger final(central).pool(class)]
                final(self).flushed(*final(central), *old(self), *old(central), class),
            header::touches_only(*final(memory), *old(memory), old(self).everything(*old(central))),
            header::changes_close(*final(memory), *old(memory)),
    {
        proof {
            header::touches_nothing(*memory);
            header::touches_widen(
                *memory,
                *memory,
                Multiset::empty(),
                self.everything(*central),
            );
            header::closes_nothing(*memory);
        }
        let mut index: usize = 0;
        while index < NUM_CLASSES
            invariant
                index <= NUM_CLASSES,
                self.in_step(*central, *memory),
                self.settings() == old(self).settings(),
                self.bound_to() == old(self).bound_to(),
                self.id() == old(self).id(),
                forall|class: SizeClass|
                    #![trigger self.local(class)]
                    #![trigger central.pool(class)]
                    class.position() < index ==> self.flushed(
                        *central,
                        *old(self),
                        *old(central),
                        class,
                    ),
                forall|class: SizeClass|
                    #![trigger self.local(class)]
                    #![trigger central.pool(class)]
                    class.position() >= index ==> self.local(class) == old(self).local(class)
                        && self.staged(class) == old(self).staged(class) && central.pool(class)
                        == old(central).pool(class),
                header::touches_only(*memory, *old(memory), old(self).everything(*old(central))),
                header::changes_close(*memory, *old(memory)),
            decreases NUM_CLASSES - index,
        {
            let class = SizeClass::ALL[index];
            let ghost before = *self;
            let ghost central_before = *central;
            let ghost earlier = *memory;
            proof {
                assert(class.position() == index);
                assert(self.local(class) == old(self).local(class));
            }
            self.flush_remote_returns_for_class(class, central, memory);
            proof {
                broadcast use vstd::multiset::group_multiset_axioms;

                let staged = before.staged(class).to_multiset();
                header::changes_touch(*memory, earlier, Multiset::empty(), staged, staged);
                old(self).touches_everything(
                    *old(central),
                    *old(memory),
                    earlier,
                    *memory,
                    staged,
                    class,
                );
                header::closes_compose(*old(memory), earlier, *memory);
                assert forall|at: SizeClass| at != class implies at.position() != index by {
                }
                assert forall|at: SizeClass|
                    #![trigger self.local(at)]
                    #![trigger central.pool(at)]
                    at != class implies self.local(at) == before.local(at) && self.staged(at)
                    == before.staged(at) && central.pool(at) == central_before.pool(at) by {
                }
            }
            index = index + 1;
        }
    }

    /// The staged blocks of `class` moved to the inbox of the central pool.
    pub open spec fn flushed(
        self,
        central: CentralPool,
        before: Self,
        central_before: CentralPool,
        class: SizeClass,
    ) -> bool {
        &&& self.local(class) == before.local(class)
        &&& self.staged(class).len() == 0
        &&& central.pool(class) == (ClassPool {
            inbox: central.pool(class).inbox,
            ..central_before.pool(class)
        })
        &&& central.pool(class).inbox@ == central_before.pool(class).inbox@ + before.staged(class)
        &&& central.pool(class).held() == central_before.pool(class).held().add(
            before.staged(class).to_multiset(),
        )
    }

    /// All blocks of `class` moved to the central pool.
    pub open spec fn emptied(
        self,
        central: CentralPool,
        before: Self,
        central_before: CentralPool,
        class: SizeClass,
    ) -> bool {
        &&& self.local(class).total_len == 0
        &&& self.staged(class).len() == 0
        &&& self.local(class).same_slabs(before.local(class))
        &&& central.pool(class).same_slabs(central_before.pool(class))
        &&& central.pool(class).held() == central_before.pool(class).held().add(before.held(class))
    }

    /// Drains all cached blocks of every size class into the central pool.
    pub fn drain_all_to_central(&mut self, central: &mut CentralPool, memory: &mut Memory)
        requires
            old(self).in_step(*old(central), *old(memory)),
            forall|class: SizeClass|
                #![trigger old(central).pool(class)]
                old(central).pool(class).epoch + 2 * old(self).local(class).total_len <= u64::MAX,
        ensures
            final(self).in_step(*final(central), *final(memory)),
            final(self).empty(),
            final(self).settings() == old(self).settings(),
            final(self).bound_to() == old(self).bound_to(),
            final(self).id() == old(self).id(),
            forall|class: SizeClass|
                #![trigger final(self).local(class)]
                #![trigger final(central).pool(class)]
                final(self).emptied(*final(central), *old(self), *old(central), class),
            forall|class: SizeClass|
                #![trigger final(central).pool(class)]
                old(central).pool(class).epoch <= final(central).pool(class).epoch <= old(central).pool(class).epoch + 2 * old(self).local(class).total_len,
            header::touches_only(*final(memory), *old(memory), old(self).everything(*old(central))),
            header::changes_close(*final(memory), *old(memory)),
    {
        self.flush_all_remote_returns(central, memory);
        let ghost flushed = *self;
        let ghost published = *central;
        let mut index: usize = 0;
        while index < NUM_CLASSES
            invariant
                index <= NUM_CLASSES,
                self.in_step(*central, *memory),
                self.settings() == old(self).settings(),
                self.bound_to() == old(self).bound_to(),
                self.id() == old(self).id(),
                forall|class: SizeClass|
                    #![trigger flushed.local(class)]
                    #![trigger published.pool(class)]
                    flushed.flushed(published, *old(self), *old(central), class),
                forall|class: SizeClass|
                    #![trigger old(central).pool(class)]
                    old(central).pool(class).epoch + 2 * old(self).local(class).total_len
                        <= u64::MAX,
                forall|class: SizeClass|
                    #![trigger self.local(class)]
                    #![trigger central.pool(class)]
                    class.position() < index ==> self.emptied(
                        *central,
                        *old(self),
                        *old(central),
                        class,
                    ) && old(central).pool(class).epoch <= central.pool(class).epoch <= old(central).pool(class).epoch + 2 * old(self).local(class).total_len,
                forall|class: SizeClass|
                    #![trigger self.local(class)]
                    #![trigger central.pool(class)]
                    class.position() >= index ==> self.local(class) == flushed.local(class)
                        && self.staged(class) == flushed.staged(class) && central.pool(class)
                        == published.pool(class),
                header::touches_only(*memory, *old(memory), old(self).everything(*old(central))),
                header::changes_close(*memory, *old(memory)),
            decreases NUM_CLASSES - index,
        {
            let class = SizeClass::ALL[index];
            let ghost before = *self;
            let ghost central_before = *central;
            let ghost earlier = *memory;
            proof {
                assert(class.position() == index);
                assert(self.local(class) == flushed.local(class));
                assert(flushed.flushed(published, *old(self), *old(central), class));
                blocks::blocks_of(self.staged(class));
                assert forall|block: usize| #[trigger] self.stock(*central, class).count(
                    block,
                ) > 0 implies old(self).stock(*old(central), class).count(block) > 0 by {
                    broadcast use vstd::multiset::group_multiset_axioms;

                }
            }
            self.drain_class(
                class,
                central,
                memory,
                Ghost(*old(self)),
                Ghost(*old(central)),
                Ghost(*old(memory)),
            );
            proof {
                broadcast use vstd::multiset::group_multiset_axioms;

                header::closes_compose(*old(memory), earlier, *memory);
                assert forall|at: SizeClass| at != class implies at.position() != index by {
                }
                assert forall|at: SizeClass|
                    #![trigger self.local(at)]
                    #![trigger central.pool(at)]
                    at != class implies self.local(at) == before.local(at) && self.staged(at)
                    == before.staged(at) && central.pool(at) == central_before.pool(at) by {
                }
                central.pool(class).slabs_are_kept(central_before.pool(class));
                assert(central.pool(class).held() =~= old(central).pool(class).held().add(
                    old(self).held(class),
                ));
            }
            index = index + 1;
        }
    }

    /// Drains all blocks of `class` that can be handed out into the central pool.
    fn drain_class(
        &mut self,
        class: SizeClass,
        central: &mut CentralPool,
        memory: &mut Memory,
        Ghost(origin): Ghost<Self>,
        Ghost(pools): Ghost<CentralPool>,
        Ghost(earliest): Ghost<Memory>,
    )
        requires
            old(self).in_step(*old(central), *old(memory)),
            old(central).pool(class).epoch + 2 * old(self).local(class).total_len <= u64::MAX,
            header::touches_only(*old(memory), earliest, origin.everything(pools)),
            forall|block: usize| #[trigger]
                old(self).stock(*old(central), class).count(block) > 0 ==> origin.stock(
                    pools,
                    class,
                ).count(block) > 0,
        ensures
            final(self).in_step(*final(central), *final(memory)),
            final(self).same_but(*old(self), class),
            final(self).staged(class) == old(self).staged(class),
            final(self).local(class).total_len == 0,
            final(self).local(class).same_slabs(old(self).local(class)),
            final(central).same_but(*old(central), class),
            final(central).pool(class).same_slabs(old(central).pool(class)),
            final(central).pool(class).held() == old(central).pool(class).held().add(
                old(self).local(class).held(),
            ),
            old(central).pool(class).epoch <= final(central).pool(class).epoch <= old(central).pool(
                class,
            ).epoch + 2 * old(self).local(class).total_len,
            header::touches_only(*final(memory), earliest, origin.everything(pools)),
            header::changes_close(*final(memory), *old(memory)),
    {
        let ghost mut moved: Multiset<usize> = Multiset::empty();
        proof {
            broadcast use vstd::multiset::group_multiset_axioms;

            assert(central.pool(class).held() =~= old(central).pool(class).held().add(moved));
            assert(old(self).local(class).held() =~= self.local(class).held().add(moved));
            header::closes_nothing(*memory);
        }
        while !self.needs_refill(class)
            invariant
                self.in_step(*central, *memory),
                self.same_but(*old(self), class),
                self.staged(class) == old(self).staged(class),
                self.local(class).same_slabs(old(self).local(class)),
                central.same_but(*old(central), class),
                central.pool(class).same_slabs(old(central).pool(class)),
                central.pool(class).held() == old(central).pool(class).held().add(moved),
                old(self).local(class).held() == self.local(class).held().add(moved),
                old(central).pool(class).epoch + 2 * old(self).local(class).total_len <= u64::MAX,
                old(central).pool(class).epoch <= central.pool(class).epoch,
                central.pool(class).epoch + 2 * self.local(class).total_len <= old(central).pool(
                    class,
                ).epoch + 2 * old(self).local(class).total_len,
                header::touches_only(*memory, earliest, origin.everything(pools)),
                header::changes_close(*memory, *old(memory)),
                forall|block: usize| #[trigger]
                    old(self).stock(*old(central), class).count(block) > 0 ==> origin.stock(
                        pools,
                        class,
                    ).count(block) > 0,
            decreases self.local(class).total_len,
        {
            let len: usize = self.classes[class.index()].len();
            let ghost before = *self;
            let ghost central_before = *central;
            let ghost earlier = *memory;
            let ghost batch = self.local(class).drained(len as int).to_multiset();
            let ghost fresh = self.local(class).fresh_drained(len as int);
            let ghost links = batch.add(central.pool(class).held());
            self.drain_batch(class, len, central, memory);
            proof {
                broadcast use vstd::multiset::group_multiset_axioms;

                let more = moved.add(batch);
                assert(central.pool(class).held() =~= old(central).pool(class).held().add(more));
                assert(old(self).local(class).held() =~= self.local(class).held().add(more));
                let touched = fresh.add(links);
                header::changes_touch(*memory, earlier, fresh, links, touched);
                assert forall|block: usize| #[trigger] touched.count(block) > 0 implies origin.stock(
                    pools,
                    class,
                ).count(block) > 0 by {
                    assert(before.stock(central_before, class).count(block) > 0) by {
                        if fresh.count(block) > 0 {
                            assert(before.held(class).count(block) > 0);
                        }
                    }
                    assert(before.stock(central_before, class).count(block) == old(self).stock(
                        *old(central),
                        class,
                    ).count(block)) by {
                        assert(old(self).local(class).held().count(block) == before.local(
                            class,
                        ).held().add(moved).count(block));
                        assert(central_before.pool(class).held().count(block) == old(
                            central,
                        ).pool(class).held().add(moved).count(block));
                    }
                    assert(old(self).stock(*old(central), class).count(block) > 0);
                }
                origin.touches_everything(
                    pools,
                    earliest,
                    earlier,
                    *memory,
                    touched,
                    class,
                );
                header::closes_compose(*old(memory), earlier, *memory);
                moved = more;
            }
        }
        proof {
            broadcast use vstd::multiset::group_multiset_axioms;

            assert(self.local(class).wf());
            assert(self.local(class).held() =~= Multiset::<usize>::empty());
            assert(moved =~= old(self).local(class).held());
        }
    }

    /// Memory that changes only in headers of blocks that neither cache nor central pool
    /// holds leaves both in step.
    pub proof fn unheld_write_stays_in_step(
        self,
        central: CentralPool,
        memory: Memory,
        earlier: Memory,
        touched: Multiset<usize>,
    )
        requires
            self.in_step(central, earlier),
            memory.wf(),
            header::touches_only(memory, earlier, touched),
            header::headers_fit(memory, touched),
            forall|class: SizeClass, block: usize|
                #![trigger self.held(class).count(block)]
                touched.count(block) > 0 ==> self.held(class).count(block) == 0,
            forall|class: SizeClass, block: usize|
                #![trigger central.pool(class).held().count(block)]
                touched.count(block) > 0 ==> central.pool(class).held().count(block) == 0,
        ensures
            self.in_step(central, memory),
    {
        broadcast use vstd::multiset::group_multiset_axioms;

        assert(central.slabs_fit(memory)) by {
            assert forall|at: SizeClass, region: Region| #[trigger] central.pool(at).registered(
                region,
            ) implies local_slab::region_fits(memory, region) by {
                assert(local_slab::region_fits(earlier, region));
            }
        }
        assert forall|at: SizeClass| central.pool(at).ready(memory, at)
            && #[trigger] self.local(at).ready(memory, at, self.id()) && free_list::chain(
            self.staged(at),
            memory,
        ) && forall|block: usize|
            (#[trigger] self.staged(at).to_multiset().count(block)) > 0 ==> header::prepared(
                memory,
                block as int,
                at,
            ) by {
            central.known_blocks_fit(earlier, at);
            let local = self.local(at);
            let staged = self.staged(at).to_multiset();
            let pool = central.pool(at);
            assert(class_fits(local, staged, pool));
            assert forall|block: usize| #[trigger] touched.count(block) > 0 implies pool.held().count(
                block,
            ) == 0 && local.held().count(block) == 0 && staged.count(block) == 0 by {
                assert(self.held(at).count(block) == 0);
                assert(central.pool(at).held().count(block) == 0);
            }
            assert forall|block: usize| #[trigger] local.held().count(block) > 0 implies pool.knows(
                block,
            ) by {
                assert(local.held().add(staged).count(block) > 0);
            }
            assert(header::headers_fit(memory, pool.held()));
            assert(header::headers_fit(memory, local.held()));
            assert(pool.ready(earlier, at));
            pool.ready_is_framed(memory, earlier, touched, at);
            assert(local.ready(earlier, at, self.id()));
            local.ready_is_framed(memory, earlier, touched, at, self.id());
            assert(free_list::chain(self.staged(at), earlier));
            free_list::chain_is_kept(self.staged(at), memory, earlier, touched);
            assert forall|block: usize| (#[trigger] self.staged(at).to_multiset().count(block))
                > 0 implies header::prepared(memory, block as int, at) by {
                assert(local.held().add(staged).count(block) > 0);
                assert(pool.knows(block));
                assert forall|other: usize| #[trigger] touched.count(other) > 0 implies other + 64
                    <= block || block + 64 <= other by {
                    header::headers_are_apart(memory, block as int, other as int);
                }
                header::header_is_untouched(memory, earlier, touched, block as int);
            }
        }
        assert(central.ready(memory)) by {
            assert forall|at: SizeClass| #[trigger] central.pool(at).ready(memory, at) by {
                assert(self.local(at).ready(memory, at, self.id()));
            }
        }
        assert(self.ready(memory)) by {
            assert forall|at: SizeClass| free_list::chain(#[trigger] self.staged(at), memory) by {
                assert(self.local(at).ready(memory, at, self.id()));
            }
            assert forall|at: SizeClass, block: usize|
                (#[trigger] self.staged(at).to_multiset().count(block)) > 0 implies header::prepared(
                memory,
                block as int,
                at,
            ) by {
                assert(self.local(at).ready(memory, at, self.id()));
            }
        }
    }

    /// A changed byte outside the headers of cached blocks leaves the cache ready.
    pub proof fn ready_after_byte(
        self,
        central: CentralPool,
        memory: Memory,
        earlier: Memory,
        address: int,
    )
        requires
            self.in_step(central, earlier),
            central.in_step(memory),
            memory.same_outside(earlier, address, 1),
            forall|class: SizeClass, block: usize|
                (#[trigger] self.held(class).count(block)) > 0 ==> !(block <= address < block + 64),
        ensures
            self.in_step(central, memory),
    {
        broadcast use vstd::multiset::group_multiset_axioms;

        assert forall|class: SizeClass, block: usize| (#[trigger] self.held(class).count(block))
            > 0 implies memory.word(block + 16) == earlier.word(block + 16) && header::prepared(
            memory,
            block as int,
            class,
        ) == header::prepared(earlier, block as int, class) by {
            central.known_blocks_fit(earlier, class);
            let staged = self.staged(class).to_multiset();
            assert(class_fits(self.local(class), staged, central.pool(class)));
            assert(self.local(class).held().add(staged).count(block) > 0);
            assert(central.pool(class).knows(block));
            header::header_is_framed(memory, earlier, block as int, address, 1);
        }
        assert forall|class: SizeClass| #[trigger] self.local(class).ready(
            memory,
            class,
            self.id(),
        ) by {
            let local = self.local(class);
            assert(local.ready(earlier, class, self.id()));
            local.parts_are_held();
            if let Some(block) = local.hot_block {
                assert(self.held(class).count(block) > 0);
            }
            assert forall|block: usize| #[trigger] local.shared.held().count(
                block,
            ) > 0 implies !(block <= address < block + 64) by {
                assert(local.held().count(block) > 0);
                assert(self.held(class).count(block) > 0);
            }
            free_list::chain_survives_byte(local.shared@, memory, earlier, address);
            assert forall|id: int| 0 <= id < local.slabs@.len() implies #[trigger] local.slabs@[id].ready(
                memory,
                class,
                self.id(),
            ) by {
                assert(local.slabs@[id].ready(earlier, class, self.id()));
                assert forall|block: usize| #[trigger] local.slabs@[id].free.held().count(
                    block,
                ) > 0 implies !(block <= address < block + 64) by {
                    assert(local.slabs@[id].held().count(block) > 0);
                    assert(local.held().count(block) > 0);
                    assert(self.held(class).count(block) > 0);
                }
                free_list::chain_survives_byte(
                    local.slabs@[id].free@,
                    memory,
                    earlier,
                    address,
                );
                assert forall|block: usize| #[trigger] local.slabs@[id].free.held().count(
                    block,
                ) > 0 implies local_slab::owned(memory, block as int, class, self.id()) by {
                    assert(local.slabs@[id].held().count(block) > 0);
                    assert(local.held().count(block) > 0);
                    assert(self.held(class).count(block) > 0);
                }
            }
            assert forall|block: usize| #[trigger] local.shared.held().count(
                block,
            ) > 0 implies header::prepared(memory, block as int, class) by {
                assert(local.held().count(block) > 0);
                assert(self.held(class).count(block) > 0);
            }
        }
        assert forall|class: SizeClass| free_list::chain(#[trigger] self.staged(class), memory) by {
            assert(free_list::chain(self.staged(class), earlier));
            assert forall|block: usize| #[trigger] self.staged(class).to_multiset().count(
                block,
            ) > 0 implies !(block <= address < block + 64) by {
                assert(self.held(class).count(block) > 0);
            }
            free_list::chain_survives_byte(self.staged(class), memory, earlier, address);
        }
        assert forall|class: SizeClass, block: usize| (#[trigger] self.staged(
            class,
        ).to_multiset().count(block)) > 0 implies header::prepared(memory, block as int, class) by {
            assert(self.held(class).count(block) > 0);
        }
    }

    /// A new slab of `class` in the central pool, none of whose blocks belongs to another slab,
    /// leaves the cache in step.
    pub proof fn registration_stays_in_step(
        self,
        central: CentralPool,
        central_before: CentralPool,
        memory: Memory,
        class: SizeClass,
        region: Region,
    )
        requires
            self.in_step(central_before, memory),
            central.same_but(central_before, class),
            central.pool(class).wf(),
            central.pool(class).held() == central_before.pool(class).held(),
            central.pool(class).ready(memory, class),
            forall|other: Region| #[trigger]
                central.pool(class).registered(other) <==> central_before.pool(class).registered(
                    other,
                ) || other == region,
            local_slab::region_fits(memory, region),
            forall|at: SizeClass, block: usize| #[trigger]
                central_before.pool(at).knows(block) ==> !region.has(block as int),
        ensures
            self.in_step(central, memory),
    {
        let pool = central.pool(class);
        let before = central_before.pool(class);
        assert forall|block: usize| #[trigger] pool.knows(block) <==> before.knows(block)
            || region.has(block as int) by {
            if pool.knows(block) {
                let index = choose|index: int|
                    0 <= index < pool.slabs@.len() && (#[trigger] pool.slabs@[index]).region().has(
                        block as int,
                    );
                let other = pool.slabs@[index].region();
                assert(pool.registered(other));
                if other != region {
                    let at = choose|at: int|
                        0 <= at < before.slabs@.len() && (#[trigger] before.slabs@[at]).region()
                            == other;
                    assert(before.slabs@[at].region().has(block as int));
                }
            }
            if before.knows(block) {
                let at = choose|at: int|
                    0 <= at < before.slabs@.len() && (#[trigger] before.slabs@[at]).region().has(
                        block as int,
                    );
                let other = before.slabs@[at].region();
                assert(before.registered(other));
                assert(pool.registered(other));
                let index = choose|index: int|
                    0 <= index < pool.slabs@.len() && (#[trigger] pool.slabs@[index]).region()
                        == other;
                assert(pool.slabs@[index].region().has(block as int));
            }
            if region.has(block as int) {
                assert(pool.registered(region));
                let index = choose|index: int|
                    0 <= index < pool.slabs@.len() && (#[trigger] pool.slabs@[index]).region()
                        == region;
                assert(pool.slabs@[index].region().has(block as int));
            }
        }
        assert(central.wf()) by {
            assert forall|at: SizeClass| #[trigger] central.pool(at).wf() by {
                assert(central_before.pool(at).wf());
            }
        }
        assert(central.classes_apart()) by {
            assert forall|one: SizeClass, other: SizeClass, block: usize|
                one != other && #[trigger] central.pool(one).knows(block) implies !(
            #[trigger] central.pool(other).knows(block)) by {
                assert(one != class ==> central_before.pool(one).knows(block));
                if central.pool(other).knows(block) {
                    assert(other != class ==> central_before.pool(other).knows(block));
                    if one != class && other != class {
                        assert(!central_before.pool(other).knows(block));
                    } else if one == class {
                        assert(central_before.pool(other).knows(block));
                        assert(!region.has(block as int));
                        assert(central_before.pool(one).knows(block));
                    } else {
                        assert(!region.has(block as int));
                        assert(central_before.pool(class).knows(block));
                        assert(!central_before.pool(class).knows(block));
                    }
                }
            }
        }
        assert(central.slabs_fit(memory)) by {
            assert forall|at: SizeClass, other: Region| #[trigger] central.pool(at).registered(
                other,
            ) implies local_slab::region_fits(memory, other) by {
                if at != class {
                    assert(central_before.pool(at).registered(other));
                } else if other != region {
                    assert(central_before.pool(class).registered(other));
                }
            }
        }
        assert(central.ready(memory)) by {
            assert forall|at: SizeClass| #[trigger] central.pool(at).ready(memory, at) by {
                if at != class {
                    assert(central_before.pool(at).ready(memory, at));
                }
            }
        }
        assert(self.fits(central)) by {
            assert forall|at: SizeClass|
                #![trigger self.local(at)]
                class_fits(
                    self.local(at),
                    self.staged(at).to_multiset(),
                    central.pool(at),
                ) by {
                let staged = self.staged(at).to_multiset();
                assert(class_fits(self.local(at), staged, central_before.pool(at)));
                if at == class {
                    assert forall|block: usize| #[trigger]
                        self.local(at).held().add(staged).count(block) > 0 implies pool.knows(block) by {
                        assert(before.knows(block));
                    }
                } else {
                    assert(central.pool(at) == central_before.pool(at));
                }
            }
        }
    }

    /// Returns whether this cache can be used with `allocator`: it is bound to it, or it is
    /// empty.
    #[must_use]
    pub fn can_bind_to(&self, allocator: &Allocator) -> (result: bool)
        requires
            self.wf(),
        ensures
            result == (self.bound_to() == Some(allocator.number()) || self.empty()),
    {
        self.owner.is_some() && self.owner.unwrap() == allocator.id() || self.is_empty()
    }

    /// Binds this cache to `allocator`, if it is not bound to it already; records of slabs of
    /// another allocator are dropped.
    pub fn bind_to_allocator(&mut self, allocator: &Allocator)
        requires
            allocator.wf(),
            allocator.serves(*old(self)),
        ensures
            allocator.bound(*final(self)),
            final(self).id() == old(self).id(),
            old(self).bound_to() == Some(allocator.number()) ==> *final(self) == *old(self),
            old(self).bound_to() != Some(allocator.number()) ==> final(self).empty() && forall|
                class: SizeClass,
            | (#[trigger] final(self).local(class)).slabs@.len() == 0,
            forall|class: SizeClass| #[trigger] final(self).held(class) == old(self).held(class),
            forall|class: SizeClass|
                (#[trigger] final(self).local(class)).total_len == old(self).local(class).total_len,
    {
        let owner: usize = allocator.id();
        if self.owner.is_some() && self.owner.unwrap() == owner {
            return;
        }
        self.reset_for_rebind();
        self.config = *allocator.config();
        self.class_config = class_config_table(self.config);
        self.owner = Some(owner);
        proof {
            broadcast use vstd::multiset::group_multiset_axioms;

            self.fresh_is_empty();
            let central = allocator.pools();
            let memory = allocator.bytes();
            assert(self.wf()) by {
                assert forall|class: SizeClass| #[trigger] self.local(class).wf() by {
                }
                assert forall|class: SizeClass|
                    #![trigger self.remote_returns@[class.position()]]
                    self.remote_returns@[class.position()].wf() by {
                }
            }
            assert(self.ready(memory)) by {
                free_list::empty_chain(memory);
            }
            assert(self.fits(central)) by {
                assert forall|class: SizeClass|
                    #![trigger self.local(class)]
                    class_fits(
                        self.local(class),
                        self.staged(class).to_multiset(),
                        central.pool(class),
                    ) by {
                    assert(central.pool(class).wf());
                    assert(self.held(class) == Multiset::<usize>::empty());
                    assert(self.local(class).slabs@.len() == 0);
                }
            }
            assert forall|class: SizeClass| #[trigger] self.held(class) == old(self).held(class) by {
                assert(old(self).local(class).wf());
                assert(old(self).local(class).total_len == 0);
                blocks::blocks_of(old(self).staged(class));
                assert(old(self).held(class) =~= Multiset::<usize>::empty());
            }
        }
    }

    fn reset_for_rebind(&mut self)
        ensures
            final(self).config == old(self).config,
            final(self).class_config == old(self).class_config,
            final(self).owner == old(self).owner,
            final(self).cache_id == old(self).cache_id,
            forall|index: int|
                #![trigger final(self).classes@[index]]
                0 <= index < NUM_CLASSES ==> {
                    &&& final(self).classes@[index].wf()
                    &&& final(self).classes@[index].held() == Multiset::<usize>::empty()
                    &&& final(self).classes@[index].slabs@.len() == 0
                    &&& final(self).classes@[index].total_len == 0
                    &&& forall|memory: Memory, class: SizeClass, owner: u32|
                        final(self).classes@[index].ready(memory, class, owner)
                },
            forall|index: int|
                #![trigger final(self).remote_returns@[index]]
                0 <= index < NUM_CLASSES ==> final(self).remote_returns@[index].wf() && final(self).remote_returns@[index].blocks() == Seq::<usize>::empty(),
    {
        self.classes = empty_classes();
        self.remote_returns = empty_returns();
    }
}

proof fn limits_fit(config: AllocatorConfig, class: SizeClass)
    ensures
        1 <= config.refill_blocks(class) <= usize::MAX,
        2 <= config.local_blocks(class) <= usize::MAX,
        1 <= config.drain_blocks(class) <= usize::MAX,
{
    let size = class.payload() + 64;
    vstd::arithmetic::div_mod::lemma_div_is_ordered_by_denominator(
        config.refill_target_bytes as int,
        1,
        size,
    );
    vstd::arithmetic::div_mod::lemma_div_is_ordered_by_denominator(
        config.local_cache_target_bytes as int,
        1,
        size,
    );
    vstd::arithmetic::div_mod::lemma_div_pos_is_pos(config.refill_target_bytes as int, size);
    vstd::arithmetic::div_mod::lemma_div_pos_is_pos(config.local_cache_target_bytes as int, size);
}

fn empty_classes() -> (classes: [LocalClassCache; NUM_CLASSES])
    ensures
        forall|index: int|
            #![trigger classes@[index]]
            0 <= index < NUM_CLASSES ==> {
                &&& classes@[index].wf()
                &&& classes@[index].held() == Multiset::<usize>::empty()
                &&& classes@[index].slabs@.len() == 0
                &&& classes@[index].total_len == 0
                &&& forall|memory: Memory, class: SizeClass, owner: u32|
                    classes@[index].ready(memory, class, owner)
            },
{
    [
        LocalClassCache::new(),
        LocalClassCache::new(),
        LocalClassCache::new(),
        LocalClassCache::new(),
        LocalClassCache::new(),
        LocalClassCache::new(),
        LocalClassCache::new(),
        LocalClassCache::new(),
        LocalClassCache::new(),
        LocalClassCache::new(),
        LocalClassCache::new(),
        LocalClassCache::new(),
    ]
}

fn empty_returns() -> (returns: [RemoteReturnCache; NUM_CLASSES])
    ensures
        forall|index: int|
            #![trigger returns@[index]]
            0 <= index < NUM_CLASSES ==> returns@[index].wf() && returns@[index].blocks() == Seq::<
                usize,
            >::empty(),
{
    [
        RemoteReturnCache::new(),
        RemoteReturnCache::new(),
        RemoteReturnCache::new(),
        RemoteReturnCache::new(),
        RemoteReturnCache::new(),
        RemoteReturnCache::new(),
        RemoteReturnCache::new(),
        RemoteReturnCache::new(),
        RemoteReturnCache::new(),
        RemoteReturnCache::new(),
        RemoteReturnCache::new(),
        RemoteReturnCache::new(),
    ]
}

} // verus!
