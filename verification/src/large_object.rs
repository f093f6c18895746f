use std::collections::{BTreeMap, HashMap};

use vstd::prelude::*;

use crate::error::FreeError;
use crate::header::HEADER_SIZE;

verus! {

/// Snapshot of the large-allocation registry.
#[derive(Clone, Copy, Debug, PartialEq, Eq, Structural)]
pub struct LargeObjectStats {
    /// Number of live allocations.
    pub live_allocations: usize,
    /// Block bytes of all live allocations.
    pub live_bytes: usize,
    /// Number of reusable blocks.
    pub free_blocks: usize,
    /// Block bytes of all reusable blocks.
    pub free_bytes: usize,
}

/// Live-registry entry for one large allocation.
#[derive(Clone, Copy, Debug, PartialEq, Eq, Structural)]
pub struct LargeAllocationRecord {
    /// Address of the block.
    pub block_addr: usize,
    /// Bytes of the block.
    pub block_size: usize,
    /// Bytes the caller asked for.
    pub requested_size: usize,
    /// Bytes the block can hold.
    pub usable_size: usize,
}

/// A reusable block.
#[derive(Clone, Copy, Debug, PartialEq, Eq, Structural)]
pub struct FreeLargeBlock {
    /// Address of the block.
    pub block_addr: usize,
    /// Bytes of the block.
    pub block_size: usize,
}

impl FreeLargeBlock {
    /// Returns the bytes the block can hold.
    #[must_use]
    pub fn usable_size(self) -> (result: usize)
        requires
            self.block_size >= HEADER_SIZE,
        ensures
            result == self.block_size - HEADER_SIZE,
    {
        self.block_size - HEADER_SIZE
    }

    /// Returns the address of the block.
    #[must_use]
    pub fn block_start(self) -> (result: usize)
        ensures
            result == self.block_addr,
    {
        self.block_addr
    }
}

/// The block bytes of the given live allocations.
pub open spec fn live_sum(live: Map<usize, LargeAllocationRecord>) -> int
    decreases live.dom().len(),
    when live.dom().finite()
{
    if live.dom().len() == 0 {
        0
    } else {
        let key = live.dom().choose();
        live[key].block_size + live_sum(live.remove(key))
    }
}

/// The number of blocks in the given buckets.
pub open spec fn free_count(free: Map<usize, Vec<FreeLargeBlock>>) -> int
    decreases free.dom().len(),
    when free.dom().finite()
{
    if free.dom().len() == 0 {
        0
    } else {
        let key = free.dom().choose();
        free[key]@.len() + free_count(free.remove(key))
    }
}

/// The block bytes in the given buckets.
pub open spec fn free_sum(free: Map<usize, Vec<FreeLargeBlock>>) -> int
    decreases free.dom().len(),
    when free.dom().finite()
{
    if free.dom().len() == 0 {
        0
    } else {
        let key = free.dom().choose();
        key * free[key]@.len() + free_sum(free.remove(key))
    }
}

proof fn live_sum_remove(live: Map<usize, LargeAllocationRecord>, key: usize)
    requires
        live.dom().finite(),
        live.contains_key(key),
    ensures
        live_sum(live) == live[key].block_size + live_sum(live.remove(key)),
    decreases live.dom().len(),
{
    let first = live.dom().choose();
    if first != key {
        assert(live.dom().contains(first)) by {
            assert(live.dom().len() > 0);
        }
        live_sum_remove(live.remove(first), key);
        live_sum_remove(live.remove(key), first);
        assert(live.remove(first).remove(key) =~= live.remove(key).remove(first));
    }
}

proof fn live_sum_is_not_negative(live: Map<usize, LargeAllocationRecord>)
    requires
        live.dom().finite(),
    ensures
        live_sum(live) >= 0,
    decreases live.dom().len(),
{
    if live.dom().len() > 0 {
        let key = live.dom().choose();
        assert(live.dom().contains(key));
        live_sum_is_not_negative(live.remove(key));
    }
}

proof fn free_sums_remove(free: Map<usize, Vec<FreeLargeBlock>>, key: usize)
    requires
        free.dom().finite(),
        free.contains_key(key),
    ensures
        free_count(free) == free[key]@.len() + free_count(free.remove(key)),
        free_sum(free) == key * free[key]@.len() + free_sum(free.remove(key)),
    decreases free.dom().len(),
{
    let first = free.dom().choose();
    if first != key {
        assert(free.dom().contains(first)) by {
            assert(free.dom().len() > 0);
        }
        free_sums_remove(free.remove(first), key);
        free_sums_remove(free.remove(key), first);
        assert(free.remove(first).remove(key) =~= free.remove(key).remove(first));
    }
}

proof fn free_sums_bound(free: Map<usize, Vec<FreeLargeBlock>>)
    requires
        free.dom().finite(),
        forall|size: usize| #[trigger] free.contains_key(size) ==> size >= HEADER_SIZE,
    ensures
        0 <= free_count(free),
        HEADER_SIZE * free_count(free) <= free_sum(free),
    decreases free.dom().len(),
{
    if free.dom().len() > 0 {
        let key = free.dom().choose();
        assert(free.dom().contains(key));
        free_sums_bound(free.remove(key));
        let n = free[key]@.len() as int;
        assert(HEADER_SIZE * n <= key * n) by (nonlinear_arith)
            requires
                key >= HEADER_SIZE,
                n >= 0,
        ;
    }
}

/// Live and reusable large blocks.
pub struct LargeObjectState {
    /// Live allocations by the address handed to the user.
    pub live: HashMap<usize, LargeAllocationRecord>,
    /// Block bytes of all live allocations.
    pub live_bytes: usize,
    /// Reusable blocks by size.
    pub free: BTreeMap<usize, Vec<FreeLargeBlock>>,
    /// Number of reusable blocks.
    pub free_blocks: usize,
    /// Block bytes of all reusable blocks.
    pub free_bytes: usize,
}

impl LargeObjectState {
    /// The reusable blocks of the given size, the one freed last at the end.
    pub open spec fn reusable(self, size: usize) -> Seq<FreeLargeBlock> {
        if self.free@.contains_key(size) {
            self.free@[size]@
        } else {
            Seq::empty()
        }
    }

    /// The reusable blocks are those of `before` and, last of its size, `block`.
    pub open spec fn put_back(self, before: Self, block: FreeLargeBlock) -> bool {
        forall|size: usize| #[trigger]
            self.reusable(size) == if size == block.block_size {
                before.reusable(size).push(block)
            } else {
                before.reusable(size)
            }
    }

    /// `block` is reusable.
    pub open spec fn has_free(self, block: FreeLargeBlock) -> bool {
        &&& self.free@.contains_key(block.block_size)
        &&& self.free@[block.block_size]@.contains(block)
    }

    /// The size that serves a request for a block of at least `minimum` bytes: the smallest
    /// size that is large enough.
    pub open spec fn best_fit(self, minimum: usize, size: usize) -> bool {
        &&& self.free@.contains_key(size)
        &&& size >= minimum
        &&& forall|other: usize| #[trigger]
            self.free@.contains_key(other) && other >= minimum ==> size <= other
    }

    /// Every live record and every reusable block is sound, no block occurs twice, and the
    /// counters are right.
    pub open spec fn wf(self) -> bool {
        &&& self.live@.dom().finite()
        &&& self.free@.dom().finite()
        &&& forall|user: usize| #[trigger]
            self.live@.contains_key(user) ==> record_is_sound(user, self.live@[user])
        &&& forall|size: usize| #[trigger]
            self.free@.contains_key(size) ==> size >= HEADER_SIZE && self.free@[size]@.len() > 0
        &&& forall|size: usize, index: int|
            self.free@.contains_key(size) && 0 <= index < self.free@[size]@.len() ==> {
                let block = #[trigger] self.free@[size]@[index];
                &&& block.block_size == size
                &&& block.block_addr + HEADER_SIZE <= usize::MAX
                &&& !self.live@.contains_key((block.block_addr + HEADER_SIZE) as usize)
            }
        &&& forall|size: usize, index: int, other: usize, at: int|
            self.free@.contains_key(size) && 0 <= index < self.free@[size]@.len()
                && self.free@.contains_key(other) && 0 <= at < self.free@[other]@.len() && (size
                != other || index != at) ==> (#[trigger] self.free@[size]@[index]).block_addr != (
            #[trigger] self.free@[other]@[at]).block_addr
        &&& self.live_bytes == live_sum(self.live@)
        &&& self.free_bytes == free_sum(self.free@)
        &&& self.free_blocks == free_count(self.free@)
        &&& self.live_bytes + self.free_bytes <= usize::MAX
    }

    /// Creates an empty registry.
    #[must_use]
    pub fn new() -> (state: Self)
        ensures
            state.wf(),
            state.live@ == Map::<usize, LargeAllocationRecord>::empty(),
            state.free@ == Map::<usize, Vec<FreeLargeBlock>>::empty(),
            state.live_bytes == 0,
            state.free_bytes == 0,
            state.free_blocks == 0,
    {
        broadcast use vstd::std_specs::hash::group_hash_axioms;
        broadcast use vstd::std_specs::btree::group_btree_axioms;

        LargeObjectState {
            live: HashMap::new(),
            live_bytes: 0,
            free: BTreeMap::new(),
            free_blocks: 0,
            free_bytes: 0,
        }
    }

    /// Adds a reusable block.
    pub fn insert_free_block(&mut self, block: FreeLargeBlock)
        requires
            old(self).wf(),
            block.block_size >= HEADER_SIZE,
            block.block_addr + HEADER_SIZE <= usize::MAX,
            !old(self).live@.contains_key((block.block_addr + HEADER_SIZE) as usize),
            forall|other: FreeLargeBlock| #[trigger]
                old(self).has_free(other) ==> other.block_addr != block.block_addr,
            old(self).live_bytes + old(self).free_bytes + block.block_size <= usize::MAX,
        ensures
            final(self).wf(),
            final(self).live@ == old(self).live@,
            final(self).live_bytes == old(self).live_bytes,
            final(self).free_bytes == old(self).free_bytes + block.block_size,
            final(self).free_blocks == old(self).free_blocks + 1,
            final(self).put_back(*old(self), block),
            forall|size: usize| #[trigger]
                final(self).free@.contains_key(size) <==> old(self).free@.contains_key(size) || size
                    == block.block_size,
            forall|size: usize| #[trigger]
                final(self).free@.contains_key(size) && size != block.block_size ==> final(self).free@[size] == old(self).free@[size],
            final(self).free@[block.block_size]@ == if old(self).free@.contains_key(
                block.block_size,
            ) {
                old(self).free@[block.block_size]@.push(block)
            } else {
                seq![block]
            },
            forall|other: FreeLargeBlock| #[trigger]
                final(self).has_free(other) <==> old(self).has_free(other) || other == block,
    {
        broadcast use vstd::std_specs::hash::group_hash_axioms;
        broadcast use vstd::std_specs::btree::group_btree_axioms;

        let size: usize = block.block_size;
        proof {
            free_sums_bound(self.free@);
            assert forall|other: usize, at: int|
                self.free@.contains_key(other) && 0 <= at < self.free@[other]@.len() implies (
            #[trigger] self.free@[other]@[at]).block_addr != block.block_addr by {
                assert(self.free@[other]@.contains(self.free@[other]@[at]));
                assert(self.has_free(self.free@[other]@[at]));
            }
        }
        let mut bucket: Vec<FreeLargeBlock> = match self.free.remove(&size) {
            Some(bucket) => bucket,
            None => Vec::new(),
        };
        let ghost rest = self.free@;
        bucket.push(block);
        self.free.insert(size, bucket);
        self.free_blocks = self.free_blocks + 1;
        self.free_bytes = self.free_bytes + size;
        proof {
            assert(rest =~= old(self).free@.remove(size));
            assert(self.free@ =~= rest.insert(size, bucket));
            assert(self.free@.remove(size) =~= rest);
            free_sums_remove(self.free@, size);
            if old(self).free@.contains_key(size) {
                free_sums_remove(old(self).free@, size);
                let n = old(self).free@[size]@.len() as int;
                assert(size * (n + 1) == size * n + size) by (nonlinear_arith);
            } else {
                assert(rest =~= old(self).free@);
                assert(bucket@ =~= seq![block]);
            }
            assert(self.put_back(*old(self), block)) by {
                assert forall|other: usize| #[trigger] self.reusable(other) == if other == size {
                    old(self).reusable(other).push(block)
                } else {
                    old(self).reusable(other)
                } by {
                    assert(self.reusable(other) =~= if other == size {
                        old(self).reusable(other).push(block)
                    } else {
                        old(self).reusable(other)
                    });
                }
            }
            assert forall|other: FreeLargeBlock| #[trigger] self.has_free(other) <==> old(self).has_free(other) || other == block by {
                if other.block_size == size {
                    assert(bucket@[bucket@.len() - 1] == block);
                    if old(self).has_free(other) {
                        let at = choose|at: int|
                            0 <= at < old(self).free@[size]@.len() && old(self).free@[size]@[at]
                                == other;
                        assert(bucket@[at] == other);
                    }
                    if self.has_free(other) && other != block {
                        let at = choose|at: int| 0 <= at < bucket@.len() && bucket@[at] == other;
                        assert(old(self).free@[size]@[at] == other);
                    }
                }
            }
            assert forall|a: usize, index: int|
                self.free@.contains_key(a) && 0 <= index < self.free@[a]@.len() && !(a == size
                    && index == bucket@.len() - 1) implies old(self).free@.contains_key(a) && index
                < old(self).free@[a]@.len() && #[trigger] self.free@[a]@[index] == old(self).free@[a]@[index] by {
            }
        }
    }

    /// Takes the reusable block that fits a request for at least `minimum_block_size` bytes
    /// best; of several, the one freed last.
    #[must_use]
    pub fn take_best_fit_block(&mut self, minimum_block_size: usize) -> (result: Option<
        FreeLargeBlock,
    >)
        requires
            old(self).wf(),
        ensures
            final(self).wf(),
            final(self).live@ == old(self).live@,
            final(self).live_bytes == old(self).live_bytes,
            match result {
                Some(block) => {
                    &&& old(self).best_fit(minimum_block_size, block.block_size)
                    &&& block == old(self).free@[block.block_size]@.last()
                    &&& old(self).has_free(block)
                    &&& old(self).put_back(*final(self), block)
                    &&& final(self).free_bytes == old(self).free_bytes - block.block_size
                    &&& final(self).free_blocks == old(self).free_blocks - 1
                    &&& forall|other: FreeLargeBlock| #[trigger]
                        final(self).has_free(other) <==> old(self).has_free(other) && other != block
                    &&& block.block_size >= HEADER_SIZE
                    &&& block.block_addr + HEADER_SIZE <= usize::MAX
                    &&& !old(self).live@.contains_key((block.block_addr + HEADER_SIZE) as usize)
                    &&& forall|other: FreeLargeBlock| #[trigger]
                        final(self).has_free(other) ==> other.block_addr != block.block_addr
                },
                None => *final(self) == *old(self) && forall|size: usize| #[trigger]
                    old(self).free@.contains_key(size) ==> size < minimum_block_size,
            },
    {
        broadcast use vstd::std_specs::hash::group_hash_axioms;
        broadcast use vstd::std_specs::btree::group_btree_axioms;

        let size: usize = match self.smallest_size_from(minimum_block_size) {
            Some(size) => size,
            None => {
                return None;
            },
        };
        let mut result: Option<FreeLargeBlock> = None;
        proof {
            free_sums_remove(self.free@, size);
            free_sums_bound(self.free@.remove(size));
        }
        if let Some(taken) = self.free.remove(&size) {
            let ghost rest = self.free@;
            assert(rest =~= old(self).free@.remove(size));
            let mut bucket = taken;
            let ghost whole = bucket@;
            let last: usize = bucket.len() - 1;
            let block: FreeLargeBlock = bucket.swap_remove(last);
            assert(bucket@ =~= whole.drop_last());
            if bucket.len() > 0 {
                self.free.insert(size, bucket);
            }
            proof {
                let n = whole.len() as int;
                assert(size * n == size * (n - 1) + size) by (nonlinear_arith);
                assert(n > 0);
                if n > 1 {
                    assert(self.free@.remove(size) =~= rest);
                    free_sums_remove(self.free@, size);
                } else {
                    assert(size * (n - 1) == 0) by (nonlinear_arith)
                        requires
                            n == 1,
                    ;
                }
                assert(0 <= size * (n - 1)) by (nonlinear_arith)
                    requires
                        n >= 1,
                        size >= 0,
                ;
            }
            self.free_blocks = self.free_blocks - 1;
            self.free_bytes = self.free_bytes - block.block_size;
            proof {
                assert(old(self).free@[size]@[last as int] == block);
                assert(whole.contains(block));
                assert(old(self).put_back(*self, block)) by {
                    assert forall|other: usize| #[trigger] old(self).reusable(other) == if other
                        == size {
                        self.reusable(other).push(block)
                    } else {
                        self.reusable(other)
                    } by {
                        assert(self.reusable(size) =~= whole.drop_last());
                        assert(whole =~= whole.drop_last().push(block));
                    }
                }
                assert forall|other: FreeLargeBlock| #[trigger] self.has_free(other) <==> old(self).has_free(other) && other != block by {
                    if other.block_size == size {
                        if old(self).has_free(other) && other != block {
                            let at = choose|at: int| 0 <= at < whole.len() && whole[at] == other;
                            assert(bucket@[at] == other);
                        }
                        if self.has_free(other) {
                            let at = choose|at: int|
                                0 <= at < bucket@.len() && bucket@[at] == other;
                            assert(whole[at] == other);
                            assert(old(self).free@[size]@[at].block_addr != old(self).free@[size]@[last as int].block_addr);
                        }
                    }
                }
                assert forall|other: FreeLargeBlock| #[trigger] self.has_free(
                    other,
                ) implies other.block_addr != block.block_addr by {
                    assert(old(self).has_free(other));
                    let a = other.block_size;
                    let at = choose|at: int|
                        0 <= at < old(self).free@[a]@.len() && old(self).free@[a]@[at] == other;
                    assert(old(self).free@[a]@[at].block_addr != old(self).free@[size]@[last as int].block_addr);
                }
                assert forall|a: usize, index: int|
                    self.free@.contains_key(a) && 0 <= index < self.free@[a]@.len() implies old(self).free@.contains_key(a) && index < old(self).free@[a]@.len()
                    && #[trigger] self.free@[a]@[index] == old(self).free@[a]@[index] by {
                }
            }
            result = Some(block);
        }
        result
    }

    /// Finds the smallest size with a reusable block that is at least `minimum`.
    fn smallest_size_from(&self, minimum: usize) -> (result: Option<usize>)
        ensures
            match result {
                Some(size) => self.best_fit(minimum, size),
                None => forall|size: usize| #[trigger]
                    self.free@.contains_key(size) ==> size < minimum,
            },
    {
        broadcast use vstd::std_specs::btree::group_btree_axioms;

        let mut found: Option<usize> = None;
        for key in iter: self.free.keys()
            invariant
                match found {
                    Some(size) => self.free@.contains_key(size) && size >= minimum && forall|at: int|
                        0 <= at < iter.index() && *(#[trigger] iter.seq()[at]) >= minimum ==> size
                            <= *iter.seq()[at],
                    None => forall|at: int|
                        0 <= at < iter.index() ==> *(#[trigger] iter.seq()[at]) < minimum,
                },
        {
            if *key >= minimum {
                match found {
                    Some(size) => {
                        if *key < size {
                            found = Some(*key);
                        }
                    },
                    None => {
                        found = Some(*key);
                    },
                }
            }
        }
        found
    }
}

/// The record of the live allocation handed out at `user` is sound.
pub open spec fn record_is_sound(user: usize, record: LargeAllocationRecord) -> bool {
    &&& record.block_addr + HEADER_SIZE == user
    &&& record.block_size == record.usable_size + HEADER_SIZE
    &&& 0 < record.requested_size <= record.usable_size
}

/// Tracks allocations larger than the largest small class.
pub struct LargeObjectAllocator {
    state: LargeObjectState,
}

/// What releasing the allocation at `user` gives when its header says `requested_size` and
/// `usable_size`.
pub open spec fn release_outcome(
    live: Map<usize, LargeAllocationRecord>,
    user: usize,
    requested_size: usize,
    usable_size: usize,
) -> Result<(), FreeError> {
    if !live.contains_key(user) {
        Err(FreeError::AlreadyFreedOrUnknownLarge)
    } else if live[user].requested_size != requested_size || live[user].usable_size != usable_size {
        Err(FreeError::CorruptHeader)
    } else {
        Ok(())
    }
}

impl LargeObjectAllocator {
    /// The blocks it tracks.
    pub closed spec fn registry(self) -> LargeObjectState {
        self.state
    }

    /// The registry is in order.
    pub open spec fn wf(self) -> bool {
        self.registry().wf()
    }

    /// Creates an empty large-allocation registry.
    #[must_use]
    pub fn new() -> (large: Self)
        ensures
            large.wf(),
            large.registry().live@ == Map::<usize, LargeAllocationRecord>::empty(),
            large.registry().free@ == Map::<usize, Vec<FreeLargeBlock>>::empty(),
            large.registry().live_bytes == 0,
            large.registry().free_bytes == 0,
            large.registry().free_blocks == 0,
    {
        LargeObjectAllocator { state: LargeObjectState::new() }
    }

    /// Takes the reusable block that fits a request for at least `minimum_block_size` bytes
    /// best; of several, the one freed last.
    #[must_use]
    pub fn take_reusable_block(&mut self, minimum_block_size: usize) -> (result: Option<
        FreeLargeBlock,
    >)
        requires
            old(self).wf(),
        ensures
            final(self).wf(),
            final(self).registry().live@ == old(self).registry().live@,
            final(self).registry().live_bytes == old(self).registry().live_bytes,
            match result {
                Some(block) => {
                    &&& old(self).registry().best_fit(minimum_block_size, block.block_size)
                    &&& block == old(self).registry().free@[block.block_size]@.last()
                    &&& old(self).registry().has_free(block)
                    &&& old(self).registry().put_back(final(self).registry(), block)
                    &&& final(self).registry().free_bytes == old(self).registry().free_bytes
                        - block.block_size
                    &&& final(self).registry().free_blocks == old(self).registry().free_blocks - 1
                    &&& forall|other: FreeLargeBlock| #[trigger]
                        final(self).registry().has_free(other) <==> old(self).registry().has_free(
                            other,
                        ) && other != block
                    &&& block.block_size >= HEADER_SIZE
                    &&& block.block_addr + HEADER_SIZE <= usize::MAX
                    &&& !old(self).registry().live@.contains_key(
                        (block.block_addr + HEADER_SIZE) as usize,
                    )
                    &&& forall|other: FreeLargeBlock| #[trigger]
                        final(self).registry().has_free(other) ==> other.block_addr
                            != block.block_addr
                },
                None => *final(self) == *old(self) && forall|size: usize| #[trigger]
                    old(self).registry().free@.contains_key(size) ==> size < minimum_block_size,
            },
    {
        self.state.take_best_fit_block(minimum_block_size)
    }

    /// Returns a snapshot of the registry.
    #[must_use]
    pub fn stats(&self) -> (stats: LargeObjectStats)
        requires
            self.wf(),
        ensures
            stats.live_allocations == self.registry().live@.dom().len(),
            stats.live_bytes == self.registry().live_bytes,
            stats.free_blocks == self.registry().free_blocks,
            stats.free_bytes == self.registry().free_bytes,
    {
        broadcast use vstd::std_specs::hash::group_hash_axioms;

        LargeObjectStats {
            live_allocations: self.state.live.len(),
            live_bytes: self.state.live_bytes,
            free_blocks: self.state.free_blocks,
            free_bytes: self.state.free_bytes,
        }
    }

    /// Records one newly allocated large block as live.
    pub fn record_live_allocation(
        &mut self,
        user: usize,
        block_start: usize,
        block_size: usize,
        requested_size: usize,
        usable_size: usize,
    )
        requires
            old(self).wf(),
            record_is_sound(
                user,
                LargeAllocationRecord {
                    block_addr: block_start,
                    block_size,
                    requested_size,
                    usable_size,
                },
            ),
            !old(self).registry().live@.contains_key(user),
            forall|other: FreeLargeBlock| #[trigger]
                old(self).registry().has_free(other) ==> other.block_addr != block_start,
            old(self).registry().live_bytes + old(self).registry().free_bytes + block_size
                <= usize::MAX,
        ensures
            final(self).wf(),
            final(self).registry().live@ == old(self).registry().live@.insert(
                user,
                LargeAllocationRecord {
                    block_addr: block_start,
                    block_size,
                    requested_size,
                    usable_size,
                },
            ),
            final(self).registry().live_bytes == old(self).registry().live_bytes + block_size,
            final(self).registry().free@ == old(self).registry().free@,
            final(self).registry().free_blocks == old(self).registry().free_blocks,
            final(self).registry().free_bytes == old(self).registry().free_bytes,
    {
        broadcast use vstd::std_specs::hash::group_hash_axioms;

        let record = LargeAllocationRecord {
            block_addr: block_start,
            block_size,
            requested_size,
            usable_size,
        };
        self.state.live.insert(user, record);
        self.state.live_bytes = self.state.live_bytes + block_size;
        proof {
            let before = old(self).state;
            let after = self.state;
            live_sum_remove(after.live@, user);
            assert(after.live@.remove(user) =~= before.live@);
            assert forall|size: usize, index: int|
                after.free@.contains_key(size) && 0 <= index < after.free@[size]@.len() implies {
                let block = #[trigger] after.free@[size]@[index];
                &&& block.block_size == size
                &&& block.block_addr + HEADER_SIZE <= usize::MAX
                &&& !after.live@.contains_key((block.block_addr + HEADER_SIZE) as usize)
            } by {
                let block = before.free@[size]@[index];
                assert(before.free@[size]@.contains(block));
                assert(before.has_free(block));
            }
        }
    }

    /// Validates and releases the record of a large allocation; its block becomes reusable.
    ///
    /// # Errors
    ///
    /// Returns [`FreeError::AlreadyFreedOrUnknownLarge`] if `user` is not a currently tracked
    /// large allocation, or [`FreeError::CorruptHeader`] when the decoded header disagrees
    /// with the live registry entry.
    pub fn validate_and_release_live_allocation(
        &mut self,
        user: usize,
        requested_size: usize,
        usable_size: usize,
    ) -> (result: Result<(), FreeError>)
        requires
            old(self).wf(),
        ensures
            final(self).wf(),
            result == release_outcome(
                old(self).registry().live@,
                user,
                requested_size,
                usable_size,
            ),
            result is Err ==> *final(self) == *old(self),
            result is Ok ==> {
                let record = old(self).registry().live@[user];
                let block = FreeLargeBlock {
                    block_addr: record.block_addr,
                    block_size: record.block_size,
                };
                &&& final(self).registry().live@ == old(self).registry().live@.remove(user)
                &&& final(self).registry().live_bytes == old(self).registry().live_bytes
                    - record.block_size
                &&& final(self).registry().free_bytes == old(self).registry().free_bytes
                    + record.block_size
                &&& final(self).registry().free_blocks == old(self).registry().free_blocks + 1
                &&& final(self).registry().put_back(old(self).registry(), block)
                &&& final(self).registry().free@[record.block_size]@.last() == block
                &&& forall|other: FreeLargeBlock| #[trigger]
                    final(self).registry().has_free(other) <==> old(self).registry().has_free(other)
                        || other == block
            },
    {
        broadcast use vstd::std_specs::hash::group_hash_axioms;

        let record: LargeAllocationRecord = match self.state.live.get(&user) {
            Some(record) => *record,
            None => {
                return Err(FreeError::AlreadyFreedOrUnknownLarge);
            },
        };
        if record.requested_size != requested_size || record.usable_size != usable_size {
            return Err(FreeError::CorruptHeader);
        }
        proof {
            live_sum_remove(self.state.live@, user);
            live_sum_is_not_negative(self.state.live@.remove(user));
        }
        self.state.live.remove(&user);
        self.state.live_bytes = self.state.live_bytes - record.block_size;
        proof {
            let before = old(self).state;
            let after = self.state;
            assert(after.live@ =~= before.live@.remove(user));
            assert(record_is_sound(user, record));
            assert forall|other: FreeLargeBlock| #[trigger] after.has_free(
                other,
            ) implies other.block_addr != record.block_addr by {
                let size = other.block_size;
                let at = choose|at: int|
                    0 <= at < before.free@[size]@.len() && before.free@[size]@[at] == other;
                let block = before.free@[size]@[at];
                assert(!before.live@.contains_key((block.block_addr + HEADER_SIZE) as usize));
            }
        }
        self.state.insert_free_block(
            FreeLargeBlock { block_addr: record.block_addr, block_size: record.block_size },
        );
        Ok(())
    }

    /// Returns the number of live allocations.
    #[must_use]
    pub fn live_len(&self) -> (result: usize)
        ensures
            result == self.registry().live@.dom().len(),
    {
        broadcast use vstd::std_specs::hash::group_hash_axioms;

        self.state.live.len()
    }

    /// Returns the number of reusable blocks.
    #[must_use]
    pub fn free_len(&self) -> (result: usize)
        ensures
            result == self.registry().free_blocks,
    {
        self.state.free_blocks
    }
}

} // verus!
