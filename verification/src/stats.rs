use vstd::prelude::*;

use crate::size_class::{SizeClass, NUM_CLASSES};

verus! {

/// Snapshot of cached blocks for one fixed size class.
#[derive(Clone, Copy, Debug, PartialEq, Eq, Structural)]
pub struct SizeClassStats {
    /// The size class described by this snapshot.
    pub class: SizeClass,
    /// Number of detached blocks currently cached for this class.
    pub blocks: usize,
    /// Total bytes currently cached for this class, using normalized block size.
    pub bytes: usize,
}

/// Snapshot of allocator-wide shared state.
#[derive(Clone, Copy, Debug, PartialEq, Eq)]
pub struct AllocatorStats {
    /// Total usable bytes reserved by the arena mapping.
    pub arena_capacity: usize,
    /// Unreserved bytes still available from the monotonic arena.
    pub arena_remaining: usize,
    /// Shared central-pool occupancy for each fixed size class.
    pub small_central: [SizeClassStats; NUM_CLASSES],
    /// Number of currently live large allocations.
    pub large_live_allocations: usize,
    /// Total block bytes held by currently live large allocations.
    pub large_live_bytes: usize,
    /// Number of reusable freed large blocks retained for future requests.
    pub large_free_blocks: usize,
    /// Total block bytes retained in the reusable large-block pool.
    pub large_free_bytes: usize,
}

/// Snapshot of one caller-owned thread cache.
#[derive(Clone, Copy, Debug, PartialEq, Eq)]
pub struct ThreadCacheStats {
    /// Whether this cache is currently bound to an allocator instance.
    pub is_bound: bool,
    /// Local cached blocks for each fixed size class.
    pub local: [SizeClassStats; NUM_CLASSES],
}

/// The sum of the block counts of the given snapshots.
pub open spec fn total_blocks(stats: Seq<SizeClassStats>) -> int
    decreases stats.len(),
{
    if stats.len() == 0 {
        0
    } else {
        total_blocks(stats.drop_last()) + stats.last().blocks
    }
}

/// The sum of the byte counts of the given snapshots.
pub open spec fn total_bytes(stats: Seq<SizeClassStats>) -> int
    decreases stats.len(),
{
    if stats.len() == 0 {
        0
    } else {
        total_bytes(stats.drop_last()) + stats.last().bytes
    }
}

proof fn partial_sums_are_bounded(stats: Seq<SizeClassStats>, count: int)
    requires
        0 <= count <= stats.len(),
    ensures
        0 <= total_blocks(stats.take(count)) <= total_blocks(stats),
        0 <= total_bytes(stats.take(count)) <= total_bytes(stats),
    decreases stats.len(),
{
    if count == stats.len() {
        assert(stats.take(count) =~= stats);
        if count > 0 {
            partial_sums_are_bounded(stats.drop_last(), count - 1);
            assert(stats.drop_last().take(count - 1) =~= stats.drop_last());
        }
    } else {
        partial_sums_are_bounded(stats.drop_last(), count);
        assert(stats.drop_last().take(count) =~= stats.take(count));
    }
}

/// Law: every row counts. Replacing one row changes the totals by what the row changed,
/// wherever it stands and however many rows there are.
pub proof fn every_row_counts(stats: Seq<SizeClassStats>, index: int, row: SizeClassStats)
    requires
        0 <= index < stats.len(),
    ensures
        total_blocks(stats.update(index, row)) - total_blocks(stats) == row.blocks
            - stats[index].blocks,
        total_bytes(stats.update(index, row)) - total_bytes(stats) == row.bytes
            - stats[index].bytes,
    decreases stats.len(),
{
    let changed = stats.update(index, row);
    if index == stats.len() - 1 {
        assert(changed.drop_last() =~= stats.drop_last());
    } else {
        every_row_counts(stats.drop_last(), index, row);
        assert(changed.drop_last() =~= stats.drop_last().update(index, row));
    }
}

/// Law: where only one row counts anything, the totals are that row's, and where none does,
/// they are zero.
pub proof fn single_row_is_the_total(stats: Seq<SizeClassStats>, index: int)
    requires
        forall|other: int|
            0 <= other < stats.len() && other != index ==> (#[trigger] stats[other]).blocks == 0
                && stats[other].bytes == 0,
    ensures
        total_blocks(stats) == if 0 <= index < stats.len() {
            stats[index].blocks as int
        } else {
            0
        },
        total_bytes(stats) == if 0 <= index < stats.len() {
            stats[index].bytes as int
        } else {
            0
        },
    decreases stats.len(),
{
    if stats.len() > 0 {
        let rest = stats.drop_last();
        assert forall|other: int| 0 <= other < rest.len() && other != index implies (
        #[trigger] rest[other]).blocks == 0 && rest[other].bytes == 0 by {
            assert(rest[other] == stats[other]);
        }
        single_row_is_the_total(rest, index);
    }
}

/// Law: the totals of the rows of a snapshot of the central pool and of a cache, whatever the
/// counts are, sum up all twelve rows.
pub proof fn totals_sum_all_classes(shared: AllocatorStats, own: ThreadCacheStats)
    ensures
        total_blocks(shared.small_central@) == shared.small_central[0].blocks
            + shared.small_central[1].blocks + shared.small_central[2].blocks
            + shared.small_central[3].blocks + shared.small_central[4].blocks
            + shared.small_central[5].blocks + shared.small_central[6].blocks
            + shared.small_central[7].blocks + shared.small_central[8].blocks
            + shared.small_central[9].blocks + shared.small_central[10].blocks
            + shared.small_central[11].blocks,
        total_bytes(own.local@) == own.local[0].bytes + own.local[1].bytes + own.local[2].bytes
            + own.local[3].bytes + own.local[4].bytes + own.local[5].bytes + own.local[6].bytes
            + own.local[7].bytes + own.local[8].bytes + own.local[9].bytes + own.local[10].bytes
            + own.local[11].bytes,
{
    reveal_with_fuel(total_blocks, 13);
    reveal_with_fuel(total_bytes, 13);
}

fn sum_blocks(stats: &[SizeClassStats; NUM_CLASSES]) -> (total: usize)
    requires
        total_blocks(stats@) <= usize::MAX,
    ensures
        total == total_blocks(stats@),
{
    let mut total: usize = 0;
    let mut index: usize = 0;
    while index < NUM_CLASSES
        invariant
            index <= NUM_CLASSES,
            stats@.len() == NUM_CLASSES,
            total == total_blocks(stats@.take(index as int)),
            total_blocks(stats@) <= usize::MAX,
        decreases NUM_CLASSES - index,
    {
        proof {
            partial_sums_are_bounded(stats@, index + 1);
            assert(stats@.take(index + 1).drop_last() =~= stats@.take(index as int));
        }
        total = total + stats[index].blocks;
        index = index + 1;
    }
    assert(stats@.take(index as int) =~= stats@);
    total
}

fn sum_bytes(stats: &[SizeClassStats; NUM_CLASSES]) -> (total: usize)
    requires
        total_bytes(stats@) <= usize::MAX,
    ensures
        total == total_bytes(stats@),
{
    let mut total: usize = 0;
    let mut index: usize = 0;
    while index < NUM_CLASSES
        invariant
            index <= NUM_CLASSES,
            stats@.len() == NUM_CLASSES,
            total == total_bytes(stats@.take(index as int)),
            total_bytes(stats@) <= usize::MAX,
        decreases NUM_CLASSES - index,
    {
        proof {
            partial_sums_are_bounded(stats@, index + 1);
            assert(stats@.take(index + 1).drop_last() =~= stats@.take(index as int));
        }
        total = total + stats[index].bytes;
        index = index + 1;
    }
    assert(stats@.take(index as int) =~= stats@);
    total
}

impl AllocatorStats {
    /// Returns the total number of small cached blocks currently held in the shared central pool.
    #[must_use]
    pub fn total_small_central_blocks(&self) -> (total: usize)
        requires
            total_blocks(self.small_central@) <= usize::MAX,
        ensures
            total == total_blocks(self.small_central@),
    {
        sum_blocks(&self.small_central)
    }

    /// Returns the total number of bytes represented by the shared central-pool caches.
    #[must_use]
    pub fn total_small_central_bytes(&self) -> (total: usize)
        requires
            total_bytes(self.small_central@) <= usize::MAX,
        ensures
            total == total_bytes(self.small_central@),
    {
        sum_bytes(&self.small_central)
    }
}

impl ThreadCacheStats {
    /// Returns the total number of small cached blocks currently held locally.
    #[must_use]
    pub fn total_local_blocks(&self) -> (total: usize)
        requires
            total_blocks(self.local@) <= usize::MAX,
        ensures
            total == total_blocks(self.local@),
    {
        sum_blocks(&self.local)
    }

    /// Returns the total number of bytes represented by this cache's local block lists.
    #[must_use]
    pub fn total_local_bytes(&self) -> (total: usize)
        requires
            total_bytes(self.local@) <= usize::MAX,
        ensures
            total == total_bytes(self.local@),
    {
        sum_bytes(&self.local)
    }
}

} // verus!
