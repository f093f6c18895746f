use vstd::multiset::Multiset;
use vstd::prelude::*;

use crate::arena;
use crate::blocks;
use crate::blocks::Region;
use crate::class_cache;
use crate::free_list;
use crate::free_list::{Batch, FreeList};
use crate::header;
use crate::memory::Memory;
use crate::size_class::SizeClass;

verus! {

/// Epochs between two looks for slabs whose pages can be given back.
pub const SWEEP_INTERVAL: u64 = 64;

/// Epochs for which a slab has to be left alone before its pages are given back.
pub const COLD_EPOCHS: u64 = 4;

/// Slabs that one look inspects.
pub const SWEEP_SCAN_BUDGET: usize = 2;

/// What the central pool gives a thread cache that asks for blocks.
pub enum CentralRefill {
    /// The pool has no block of the class.
    Empty,
    /// Some blocks of a slab of which others are in use.
    Batch(Batch),
    /// All blocks of a slab.
    Slab {
        /// Address of the first block.
        start: usize,
        /// Bytes per block.
        block_size: usize,
        /// Number of blocks.
        capacity: usize,
    },
}

impl CentralRefill {
    /// The block that a cache hands out first: the first of a slab, the top of a batch.
    pub open spec fn first(self) -> usize {
        match self {
            CentralRefill::Empty => 0,
            CentralRefill::Batch(batch) => batch@.last(),
            CentralRefill::Slab { start, block_size, capacity } => start,
        }
    }

    /// The blocks that the refill hands over.
    pub open spec fn held(self) -> Multiset<usize> {
        match self {
            CentralRefill::Empty => Multiset::empty(),
            CentralRefill::Batch(batch) => batch.held(),
            CentralRefill::Slab { start, block_size, capacity } => class_cache::slab_region(
                start,
                block_size,
                capacity,
            ).all(),
        }
    }
}

/// How much of a slab the central pool holds.
#[derive(Clone, Copy, Debug, PartialEq, Eq, Structural)]
pub enum SlabState {
    /// Nothing.
    Loaned,
    /// Some blocks.
    Partial,
    /// All blocks.
    FullHot,
    /// All blocks, and the pages behind them were given back.
    FullCold,
}

/// One slab as the central pool records it.
pub struct SlabRecord {
    /// Address of the first block.
    pub start: usize,
    /// First address behind the slab.
    pub end_addr: usize,
    /// Bytes per block.
    pub block_size: usize,
    /// Number of blocks.
    pub capacity: usize,
    /// Number of blocks the pool holds.
    pub central_free_len: usize,
    /// The blocks the pool holds while it does not hold all.
    pub partial_free: FreeList,
    /// Epoch of the last change.
    pub last_touched_epoch: u64,
    /// How much the pool holds.
    pub state: SlabState,
    /// Position in the list of slabs of this state.
    pub bucket_slot: Option<usize>,
}

/// A run of whole pages of an idle slab that the system may reclaim.
#[derive(Clone, Copy, Debug, PartialEq, Eq, Structural)]
pub struct SweepRequest {
    /// Start address of the slab.
    pub slab_start: usize,
    /// Address of the first page.
    pub addr: usize,
    /// Bytes of all pages.
    pub len: usize,
}

/// The blocks among `blocks` that belong to `region`, in the same order.
pub open spec fn share_of(blocks: Seq<usize>, region: Region) -> Seq<usize>
    decreases blocks.len(),
{
    if blocks.len() == 0 {
        Seq::empty()
    } else if region.has(blocks.last() as int) {
        share_of(blocks.drop_last(), region).push(blocks.last())
    } else {
        share_of(blocks.drop_last(), region)
    }
}

/// Law: the share of a slab is every block that is one of the slab's, and no other.
pub proof fn shares_are_by_slab(blocks: Seq<usize>, region: Region)
    ensures
        share_of(blocks, region) == blocks.filter(|block: usize| region.has(block as int)),
    decreases blocks.len(),
{
    reveal(Seq::filter);
    if blocks.len() > 0 {
        shares_are_by_slab(blocks.drop_last(), region);
    }
    assert(share_of(blocks, region) =~= blocks.filter(|block: usize| region.has(block as int)));
}

impl SlabRecord {
    /// The slab's blocks.
    pub open spec fn region(self) -> Region {
        Region {
            start: self.start as int,
            block_size: self.block_size as int,
            capacity: self.capacity as int,
        }
    }

    /// All blocks of the slab are in the pool.
    pub open spec fn full(self) -> bool {
        self.state == SlabState::FullHot || self.state == SlabState::FullCold
    }

    /// The blocks of the slab that the pool holds.
    pub open spec fn held(self) -> Multiset<usize> {
        if self.full() {
            self.region().all()
        } else {
            self.partial_free.held()
        }
    }

    /// State, counter and list agree, and the listed blocks are different blocks of the slab.
    pub open spec fn wf(self) -> bool {
        &&& self.region().valid()
        &&& self.end_addr == self.region().end()
        &&& blocks::distinct(self.partial_free.held())
        &&& forall|block: usize| #[trigger]
            self.partial_free.held().count(block) > 0 ==> self.region().has(block as int)
        &&& match self.state {
            SlabState::Loaned => self.central_free_len == 0 && self.partial_free@.len() == 0,
            SlabState::Partial => 0 < self.central_free_len < self.capacity
                && self.partial_free@.len() == self.central_free_len,
            _ => self.central_free_len == self.capacity && self.partial_free@.len() == 0,
        }
    }

    /// The two records differ at most in their place among the slabs of the same state.
    pub open spec fn same_record(self, other: Self) -> bool {
        self == (SlabRecord { bucket_slot: self.bucket_slot, ..other })
    }

    /// What is held lies in the slab, nothing is held twice, and the counter is right.
    pub proof fn held_facts(self)
        requires
            self.wf(),
        ensures
            blocks::distinct(self.held()),
            self.held().len() == self.central_free_len,
            forall|block: usize| #[trigger] self.held().count(block) > 0 ==> self.region().has(
                block as int,
            ),
            self.held().count(0) == 0,
    {
        broadcast use vstd::multiset::group_multiset_axioms;

        self.region().tail_counts(0);
        blocks::blocks_of(self.partial_free@);
    }

    /// This record is `before` after the blocks `returned` came in at `epoch`, each slab
    /// taking its own.
    pub open spec fn took_back(self, before: Self, returned: Seq<usize>, epoch: u64) -> bool {
        let share = share_of(returned, before.region());
        &&& self.region() == before.region()
        &&& self.central_free_len == before.central_free_len + share.len()
        &&& share.len() == 0 ==> self.same_record(before)
        &&& share.len() > 0 ==> {
            &&& self.last_touched_epoch == epoch
            &&& self.central_free_len == self.capacity ==> self.state == SlabState::FullHot
            &&& self.central_free_len < self.capacity ==> self.state == SlabState::Partial
                && self.partial_free@ == before.partial_free@ + share
        }
    }

    /// This record is `before` after `block` came in at `epoch`, if it is one of its own.
    pub open spec fn took_one_back(self, before: Self, block: usize, epoch: u64) -> bool {
        if before.region().has(block as int) {
            &&& self.region() == before.region()
            &&& self.central_free_len == before.central_free_len + 1
            &&& self.last_touched_epoch == epoch
            &&& self.central_free_len == self.capacity ==> self.state == SlabState::FullHot
            &&& self.central_free_len < self.capacity ==> self.state == SlabState::Partial
                && self.partial_free@ == before.partial_free@.push(block)
            &&& self.central_free_len <= self.capacity
        } else {
            self.same_record(before)
        }
    }

    /// One more block after others came in.
    proof fn one_more_back(
        self,
        middle: Self,
        before: Self,
        returned: Seq<usize>,
        block: usize,
        epoch: u64,
    )
        requires
            middle.took_back(before, returned, epoch),
            self.took_one_back(middle, block, epoch),
            middle.central_free_len <= middle.capacity,
        ensures
            self.took_back(before, returned.push(block), epoch),
    {
        let more = returned.push(block);
        assert(more.drop_last() =~= returned);
        let share = share_of(returned, before.region());
        if before.region().has(block as int) {
            assert(share_of(more, before.region()) == share.push(block));
            if self.central_free_len < self.capacity {
                if share.len() > 0 {
                    assert(self.partial_free@ =~= before.partial_free@ + share.push(block));
                } else {
                    assert(share =~= Seq::<usize>::empty());
                    assert(self.partial_free@ =~= before.partial_free@ + share.push(block));
                }
            }
        } else {
            assert(share_of(more, before.region()) == share);
        }
    }

    /// Records a slab none of whose blocks the pool holds.
    #[must_use]
    pub fn new(start: usize, block_size: usize, capacity: usize, epoch: u64) -> (slab: Self)
        requires
            class_cache::slab_region(start, block_size, capacity).valid(),
        ensures
            slab.wf(),
            slab.region() == class_cache::slab_region(start, block_size, capacity),
            slab.state == SlabState::Loaned,
            slab.bucket_slot is None,
            slab.last_touched_epoch == epoch,
            slab.held() == Multiset::<usize>::empty(),
    {
        let slab = SlabRecord {
            start,
            end_addr: start + block_size * capacity,
            block_size,
            capacity,
            central_free_len: 0,
            partial_free: FreeList::new(),
            last_touched_epoch: epoch,
            state: SlabState::Loaned,
            bucket_slot: None,
        };
        proof {
            broadcast use vstd::multiset::group_multiset_axioms;

            blocks::blocks_of(slab.partial_free@);
            assert(slab.held() =~= Multiset::<usize>::empty());
        }
        slab
    }

    /// Whether `block` is the start of one of the slab's blocks.
    #[must_use]
    pub fn contains(&self, block: usize) -> (result: bool)
        requires
            self.wf(),
        ensures
            result == self.region().has(block as int),
    {
        block >= self.start && block < self.end_addr && (block - self.start) % self.block_size == 0
    }

    /// Returns the bytes of the whole slab.
    #[must_use]
    pub fn span_len(&self) -> (len: usize)
        requires
            self.wf(),
        ensures
            len == self.block_size * self.capacity,
    {
        proof {
            self.region().block_is_inside(0);
        }
        self.end_addr - self.start
    }

    /// Takes one block back into the pool.
    pub fn record_returned_block(&mut self, block: usize, memory: &mut Memory)
        requires
            old(self).wf(),
            old(self).region().has(block as int),
            old(self).held().count(block) == 0,
            old(self).partial_free.linked(*old(memory)),
            header::header_fits(*old(memory), block as int),
        ensures
            final(self).partial_free.linked(*final(memory)),
            final(memory).wf(),
            final(memory).same_outside(*old(memory), block + 24, 8),
            final(self).wf(),
            final(self).region() == old(self).region(),
            final(self).held() == old(self).held().insert(block),
            !old(self).full(),
            final(self).central_free_len == old(self).central_free_len + 1,
            final(self).last_touched_epoch == old(self).last_touched_epoch,
            final(self).bucket_slot == old(self).bucket_slot,
            final(self).central_free_len == final(self).capacity ==> final(self).state
                == SlabState::FullHot,
            final(self).central_free_len < final(self).capacity ==> final(self).state
                == SlabState::Partial && final(self).partial_free@ == old(self).partial_free@.push(
                block,
            ),
            forall|other: usize| #[trigger]
                final(self).partial_free.held().count(other) > 0 ==> other == block || old(self).partial_free.held().count(other) > 0,
    {
        broadcast use vstd::multiset::group_multiset_axioms;

        proof {
            self.region().tail_counts(0);
            self.held_facts();
            blocks::blocks_of(self.partial_free@);
            let more = self.partial_free.held().insert(block);
            assert forall|other: usize| #[trigger] more.count(other) <= 1 by {
                assert(self.partial_free.held().count(other) <= 1);
            }
            self.region().at_most_capacity(more);
            if self.full() {
                assert(self.held() == self.region().all());
            }
        }
        self.partial_free.push_block(block, memory);
        let ghost all = self.partial_free.held();
        self.central_free_len = self.central_free_len + 1;
        if self.central_free_len == self.capacity {
            self.state = SlabState::FullHot;
            self.partial_free = FreeList::new();
            proof {
                self.region().full_when_counted(all);
                blocks::blocks_of(self.partial_free@);
                free_list::empty_chain(*memory);
            }
        } else {
            self.state = SlabState::Partial;
        }
    }

    /// Detaches up to `max` of the blocks the pool holds of a slab in use.
    #[must_use]
    pub fn take_partial_batch(&mut self, max: usize, memory: &mut Memory) -> (batch: Batch)
        requires
            old(self).wf(),
            old(self).state == SlabState::Partial,
            max > 0,
            old(memory).wf(),
            old(self).partial_free.linked(*old(memory)),
        ensures
            final(self).partial_free.linked(*final(memory)),
            batch.linked(*final(memory)),
            final(memory).wf(),
            header::changes(*final(memory), *old(memory), Multiset::empty(), batch.held()),
            final(self).wf(),
            final(self).region() == old(self).region(),
            old(self).partial_free@ == final(self).partial_free@ + batch@,
            batch@.len() == if max <= old(self).partial_free@.len() {
                max as nat
            } else {
                old(self).partial_free@.len()
            },
            batch@.len() > 0,
            old(self).held() == final(self).held().add(batch.held()),
            final(self).state == if batch@.len() == old(self).partial_free@.len() {
                SlabState::Loaned
            } else {
                SlabState::Partial
            },
            final(self).last_touched_epoch == old(self).last_touched_epoch,
            final(self).bucket_slot == old(self).bucket_slot,
            forall|other: usize| #[trigger]
                final(self).partial_free.held().count(other) > 0 ==> old(self).partial_free.held().count(other) > 0,
            forall|other: usize| #[trigger]
                batch.held().count(other) > 0 ==> old(self).partial_free.held().count(other) > 0,
    {
        broadcast use vstd::multiset::group_multiset_axioms;

        proof {
            self.held_facts();
        }
        let batch = self.partial_free.pop_batch(max, memory);
        let moved: usize = batch.len();
        proof {
            blocks::split_in_two(old(self).held(), self.partial_free.held(), batch.held());
        }
        self.central_free_len = self.central_free_len - moved;
        if self.central_free_len == 0 {
            self.state = SlabState::Loaned;
        }
        batch
    }

    /// The slab is full and was left alone for long enough.
    pub open spec fn sweepable(self, epoch: u64) -> bool {
        self.state == SlabState::FullHot && epoch - self.last_touched_epoch >= COLD_EPOCHS
    }

    /// Whether the slab is full and was left alone for long enough.
    #[must_use]
    pub fn is_sweep_candidate(&self, epoch: u64) -> (result: bool)
        ensures
            result == self.sweepable(epoch),
    {
        self.state == SlabState::FullHot && epoch.saturating_sub(self.last_touched_epoch)
            >= COLD_EPOCHS
    }
}

/// The blocks that the pool holds of the given slabs.
pub open spec fn records_held(slabs: Seq<SlabRecord>) -> Multiset<usize>
    decreases slabs.len(),
{
    if slabs.len() == 0 {
        Multiset::empty()
    } else {
        records_held(slabs.drop_last()).add(slabs.last().held())
    }
}

/// The number of blocks that the pool holds of the given slabs.
pub open spec fn records_count(slabs: Seq<SlabRecord>) -> int
    decreases slabs.len(),
{
    if slabs.len() == 0 {
        0
    } else {
        records_count(slabs.drop_last()) + slabs.last().central_free_len
    }
}

proof fn records_held_update(slabs: Seq<SlabRecord>, index: int, slab: SlabRecord)
    requires
        0 <= index < slabs.len(),
    ensures
        forall|block: usize| #[trigger]
            records_held(slabs.update(index, slab)).count(block) + slabs[index].held().count(block)
                == records_held(slabs).count(block) + slab.held().count(block),
    decreases slabs.len(),
{
    broadcast use vstd::multiset::group_multiset_axioms;

    let updated = slabs.update(index, slab);
    let rest = slabs.drop_last();
    if index == slabs.len() - 1 {
        assert(updated.drop_last() =~= rest);
    } else {
        records_held_update(rest, index, slab);
        assert(updated.drop_last() =~= rest.update(index, slab));
        assert forall|block: usize| #[trigger]
            records_held(updated).count(block) + slabs[index].held().count(block) == records_held(
                slabs,
            ).count(block) + slab.held().count(block) by {
            assert(records_held(rest.update(index, slab)).count(block) + rest[index].held().count(
                block,
            ) == records_held(rest).count(block) + slab.held().count(block));
        }
    }
}

proof fn records_held_insert(slabs: Seq<SlabRecord>, index: int, slab: SlabRecord)
    requires
        0 <= index <= slabs.len(),
    ensures
        forall|block: usize| #[trigger]
            records_held(slabs.insert(index, slab)).count(block) == records_held(slabs).count(block)
                + slab.held().count(block),
    decreases slabs.len(),
{
    broadcast use vstd::multiset::group_multiset_axioms;

    let more = slabs.insert(index, slab);
    if index == slabs.len() {
        assert(more.drop_last() =~= slabs);
    } else {
        records_held_insert(slabs.drop_last(), index, slab);
        assert(more.drop_last() =~= slabs.drop_last().insert(index, slab));
        assert(more.last() == slabs.last());
        assert forall|block: usize| #[trigger]
            records_held(more).count(block) == records_held(slabs).count(block) + slab.held().count(
                block,
            ) by {
            assert(records_held(slabs.drop_last().insert(index, slab)).count(block) == records_held(
                slabs.drop_last(),
            ).count(block) + slab.held().count(block));
        }
    }
}

proof fn records_held_same(slabs: Seq<SlabRecord>, other: Seq<SlabRecord>)
    requires
        slabs.len() == other.len(),
        forall|index: int|
            0 <= index < slabs.len() ==> (#[trigger] slabs[index]).held() == other[index].held(),
    ensures
        records_held(slabs) == records_held(other),
    decreases slabs.len(),
{
    if slabs.len() > 0 {
        assert forall|index: int| 0 <= index < slabs.len() - 1 implies (
        #[trigger] slabs.drop_last()[index]).held() == other.drop_last()[index].held() by {
            assert(slabs[index].held() == other[index].held());
        }
        records_held_same(slabs.drop_last(), other.drop_last());
        assert(slabs[slabs.len() - 1].held() == other[slabs.len() - 1].held());
    }
}

/// What a slab holds, all slabs hold.
pub proof fn records_held_has(slabs: Seq<SlabRecord>, index: int)
    requires
        0 <= index < slabs.len(),
    ensures
        forall|block: usize| #[trigger]
            slabs[index].held().count(block) <= records_held(slabs).count(block),
    decreases slabs.len(),
{
    broadcast use vstd::multiset::group_multiset_axioms;

    if index < slabs.len() - 1 {
        records_held_has(slabs.drop_last(), index);
        assert forall|block: usize| #[trigger]
            slabs[index].held().count(block) <= records_held(slabs).count(block) by {
            assert(slabs.drop_last()[index].held().count(block) <= records_held(
                slabs.drop_last(),
            ).count(block));
        }
    }
}

proof fn records_held_from(slabs: Seq<SlabRecord>, block: usize) -> (index: int)
    requires
        records_held(slabs).count(block) > 0,
    ensures
        0 <= index < slabs.len(),
        slabs[index].held().count(block) > 0,
    decreases slabs.len(),
{
    broadcast use vstd::multiset::group_multiset_axioms;

    if slabs.len() == 0 {
        0
    } else if slabs.last().held().count(block) > 0 {
        slabs.len() - 1
    } else {
        let index = records_held_from(slabs.drop_last(), block);
        assert(slabs.drop_last()[index] == slabs[index]);
        index
    }
}

proof fn records_are_counted(slabs: Seq<SlabRecord>)
    requires
        forall|index: int| 0 <= index < slabs.len() ==> #[trigger] slabs[index].wf(),
    ensures
        records_held(slabs).len() == records_count(slabs),
        forall|count: int|
            0 <= count <= slabs.len() ==> 0 <= #[trigger] records_count(slabs.take(count))
                <= records_count(slabs),
    decreases slabs.len(),
{
    broadcast use vstd::multiset::group_multiset_axioms;

    if slabs.len() > 0 {
        assert forall|index: int| 0 <= index < slabs.len() - 1 implies #[trigger] slabs.drop_last()[index].wf() by {
            assert(slabs[index].wf());
        }
        records_are_counted(slabs.drop_last());
        assert(slabs[slabs.len() - 1].wf());
        slabs.last().held_facts();
        assert(slabs.drop_last().take(slabs.len() - 1) =~= slabs.drop_last());
        assert forall|count: int| 0 <= count <= slabs.len() implies 0 <= #[trigger] records_count(
            slabs.take(count),
        ) <= records_count(slabs) by {
            if count < slabs.len() {
                assert(slabs.drop_last().take(count) =~= slabs.take(count));
                assert(records_count(slabs.drop_last().take(count)) <= records_count(
                    slabs.drop_last(),
                ));
            } else {
                assert(slabs.take(count) =~= slabs);
                assert(records_count(slabs.drop_last().take(slabs.len() - 1)) >= 0);
            }
        }
    }
}

/// All slabs of one size class, by ascending address, and the blocks of them that no
/// thread cache holds.
pub struct ClassPool {
    /// The slabs, by ascending start address.
    pub slabs: Vec<SlabRecord>,
    /// Positions of the slabs of which the pool holds some blocks.
    pub partial_slabs: Vec<usize>,
    /// Positions of the slabs of which the pool holds all blocks.
    pub full_hot_slabs: Vec<usize>,
    /// Positions of the full slabs whose pages were given back.
    pub full_cold_slabs: Vec<usize>,
    /// Number of changes so far.
    pub epoch: u64,
    /// Where the next look for idle slabs starts.
    pub sweep_cursor: usize,
    /// Position of the slab used last.
    pub recent_slab: Option<usize>,
    /// Blocks that came in and were not yet put back into their slabs.
    pub inbox: FreeList,
    /// Bytes per page of the system.
    pub page_size: usize,
    /// The idle slabs that were found, the first one first, until their pages were given back.
    pub pending_sweeps: Vec<SweepRequest>,
}

impl ClassPool {
    /// The slabs in the given state, in the order of getting there.
    pub open spec fn bucket(self, state: SlabState) -> Seq<usize> {
        match state {
            SlabState::Loaned => Seq::empty(),
            SlabState::Partial => self.partial_slabs@,
            SlabState::FullHot => self.full_hot_slabs@,
            SlabState::FullCold => self.full_cold_slabs@,
        }
    }

    /// The state under which a slab is listed: its own, but `state` for the slab at `index`.
    pub open spec fn listed_state(self, index: int, state: SlabState, other: int) -> SlabState {
        if other == index {
            state
        } else {
            self.slabs@[other].state
        }
    }

    /// Slabs and the lists per state point at each other, where the slab at `index` counts as
    /// being in `state`.
    pub open spec fn linked_as(self, index: int, state: SlabState) -> bool {
        &&& forall|listed: SlabState, slot: int|
            0 <= slot < self.bucket(listed).len() ==> {
                let other = #[trigger] self.bucket(listed)[slot] as int;
                &&& 0 <= other < self.slabs@.len()
                &&& self.listed_state(index, state, other) == listed
                &&& self.slabs@[other].bucket_slot is Some
                &&& self.slabs@[other].bucket_slot->0 == slot
            }
        &&& forall|other: int|
            #![trigger self.slabs@[other]]
            0 <= other < self.slabs@.len() ==> match self.slabs@[other].bucket_slot {
                Some(slot) => {
                    let listed = self.listed_state(index, state, other);
                    listed != SlabState::Loaned && slot < self.bucket(listed).len() && self.bucket(
                        listed,
                    )[slot as int] == other
                },
                None => self.listed_state(index, state, other) == SlabState::Loaned,
            }
    }

    /// Slabs and the lists per state point at each other.
    pub open spec fn linked(self) -> bool {
        self.linked_as(-1, SlabState::Loaned)
    }

    /// The cursor is a position among the full slabs, or zero.
    pub open spec fn cursor_fits(self) -> bool {
        self.sweep_cursor < self.full_hot_slabs@.len() || self.sweep_cursor == 0
    }

    /// The slabs stand by ascending address and do not overlap.
    pub open spec fn sorted(self) -> bool {
        forall|i: int, j: int|
            0 <= i < j < self.slabs@.len() ==> (#[trigger] self.slabs@[i]).region().end() <= (
            #[trigger] self.slabs@[j]).region().start
    }

    /// `block` is a block of one of the slabs.
    pub open spec fn knows(self, block: usize) -> bool {
        exists|index: int|
            0 <= index < self.slabs@.len() && (#[trigger] self.slabs@[index]).region().has(
                block as int,
            )
    }

    /// `region` is one of the slabs.
    pub open spec fn registered(self, region: Region) -> bool {
        exists|index: int|
            0 <= index < self.slabs@.len() && (#[trigger] self.slabs@[index]).region() == region
    }

    /// The blocks that the pool holds.
    pub open spec fn held(self) -> Multiset<usize> {
        self.inbox.held().add(records_held(self.slabs@))
    }

    /// The pool is in order, holds no block twice, and knows all blocks it holds.
    pub open spec fn wf(self) -> bool {
        &&& forall|index: int| 0 <= index < self.slabs@.len() ==> #[trigger] self.slabs@[index].wf()
        &&& self.sorted()
        &&& self.linked()
        &&& self.cursor_fits()
        &&& (self.recent_slab matches Some(index) ==> index < self.slabs@.len())
        &&& 0 < self.page_size
        &&& blocks::distinct(self.held())
        &&& forall|block: usize| #[trigger] self.inbox.held().count(block) > 0 ==> self.knows(block)
    }

    /// The blocks of every list, but that of the slab at `index`, are linked in `memory`.
    pub open spec fn chained_but(self, memory: Memory, index: int) -> bool {
        &&& self.inbox.linked(memory)
        &&& forall|other: int|
            0 <= other < self.slabs@.len() && other != index ==> (
            #[trigger] self.slabs@[other]).partial_free.linked(memory)
    }

    /// The blocks of every list are linked in `memory`.
    pub open spec fn chained(self, memory: Memory) -> bool {
        self.chained_but(memory, -1)
    }

    /// The blocks that can leave without their whole slab are linked, and their headers are in
    /// place.
    pub open spec fn ready(self, memory: Memory, class: SizeClass) -> bool {
        self.chained(memory) && self.primed(memory, class)
    }

    /// The headers of the blocks that can leave without their whole slab are in place.
    pub open spec fn primed(self, memory: Memory, class: SizeClass) -> bool {
        &&& forall|block: usize| #[trigger]
            self.inbox.held().count(block) > 0 ==> header::prepared(memory, block as int, class)
        &&& forall|index: int, block: usize|
            0 <= index < self.slabs@.len() && #[trigger] self.slabs@[index].partial_free.held().count(
                block,
            ) > 0 ==> header::prepared(memory, block as int, class)
    }

    /// The same slabs are recorded.
    pub open spec fn same_slabs(self, other: Self) -> bool {
        &&& self.slabs@.len() == other.slabs@.len()
        &&& forall|index: int|
            0 <= index < self.slabs@.len() ==> (#[trigger] self.slabs@[index]).region()
                == other.slabs@[index].region()
    }

    /// The two pools differ at most in which lists the slabs stand.
    pub open spec fn same_records(self, other: Self) -> bool {
        &&& self.slabs@.len() == other.slabs@.len()
        &&& forall|index: int|
            0 <= index < self.slabs@.len() ==> (#[trigger] self.slabs@[index]).same_record(
                other.slabs@[index],
            )
        &&& self.epoch == other.epoch
        &&& self.recent_slab == other.recent_slab
        &&& self.inbox == other.inbox
        &&& self.page_size == other.page_size
        &&& self.pending_sweeps == other.pending_sweeps
    }

    proof fn records_are_kept(self, other: Self)
        requires
            self.same_records(other),
        ensures
            self.same_slabs(other),
            self.held() == other.held(),
            records_held(self.slabs@) == records_held(other.slabs@),
            other.sorted() ==> self.sorted(),
            forall|index: int|
                #![trigger self.slabs@[index]]
                0 <= index < self.slabs@.len() ==> {
                    &&& self.slabs@[index].same_record(other.slabs@[index])
                    &&& self.slabs@[index].wf() == other.slabs@[index].wf()
                    &&& self.slabs@[index].held() == other.slabs@[index].held()
                    &&& self.slabs@[index].region() == other.slabs@[index].region()
                    &&& self.slabs@[index].state == other.slabs@[index].state
                },
            forall|block: usize| self.knows(block) == other.knows(block),
            forall|memory: Memory, class: SizeClass|
                #![trigger self.ready(memory, class)]
                #![trigger other.ready(memory, class)]
                self.ready(memory, class) == other.ready(memory, class),
    {
        assert forall|index: int|
            #![trigger self.slabs@[index]]
            0 <= index < self.slabs@.len() implies self.slabs@[index].same_record(
            other.slabs@[index],
        ) by {
        }
        records_held_same(self.slabs@, other.slabs@);
        self.slabs_are_kept(other);
        assert forall|memory: Memory, class: SizeClass| #[trigger]
            self.ready(memory, class) == other.ready(memory, class) by {
            self.chains_are_same(other, memory);
            if self.primed(memory, class) {
                assert forall|index: int, block: usize|
                    0 <= index < other.slabs@.len()
                        && #[trigger] other.slabs@[index].partial_free.held().count(block)
                        > 0 implies header::prepared(memory, block as int, class) by {
                    assert(self.slabs@[index].partial_free.held().count(block) > 0);
                }
            }
            if other.primed(memory, class) {
                assert forall|index: int, block: usize|
                    0 <= index < self.slabs@.len()
                        && #[trigger] self.slabs@[index].partial_free.held().count(block)
                        > 0 implies header::prepared(memory, block as int, class) by {
                    assert(other.slabs@[index].partial_free.held().count(block) > 0);
                }
            }
        }
    }

    proof fn chains_are_same(self, other: Self, memory: Memory)
        requires
            self.same_records(other),
        ensures
            self.chained(memory) == other.chained(memory),
    {
        assert forall|index: int| 0 <= index < self.slabs@.len() implies (
        #[trigger] self.slabs@[index]).partial_free == other.slabs@[index].partial_free by {
            assert(self.slabs@[index].same_record(other.slabs@[index]));
        }
        if self.chained(memory) {
            assert forall|index: int| 0 <= index < other.slabs@.len() implies (
            #[trigger] other.slabs@[index]).partial_free.linked(memory) by {
                assert(self.slabs@[index].partial_free.linked(memory));
            }
        }
    }

    /// The lists stay linked when only headers of blocks that none of them holds change.
    proof fn chains_are_kept(
        self,
        memory: Memory,
        earlier: Memory,
        touched: Multiset<usize>,
        index: int,
    )
        requires
            self.chained_but(earlier, index),
            memory.wf(),
            header::touches_only(memory, earlier, touched),
            header::headers_fit(memory, touched),
            forall|block: usize| #[trigger]
                touched.count(block) > 0 ==> self.inbox.held().count(block) == 0,
            forall|other: int, block: usize|
                0 <= other < self.slabs@.len() && other != index && touched.count(block) > 0
                    ==> #[trigger] self.slabs@[other].partial_free.held().count(block) == 0,
        ensures
            self.chained_but(memory, index),
    {
        free_list::chain_is_kept(self.inbox@, memory, earlier, touched);
        assert forall|other: int| 0 <= other < self.slabs@.len() && other != index implies (
        #[trigger] self.slabs@[other]).partial_free.linked(memory) by {
            let list = self.slabs@[other].partial_free;
            assert forall|block: usize| #[trigger] touched.count(
                block,
            ) > 0 implies list.held().count(block) == 0 by {
            }
            free_list::chain_is_kept(list@, memory, earlier, touched);
        }
    }

    /// The headers stay in place when link words change.
    proof fn primed_is_relinked(
        self,
        memory: Memory,
        earlier: Memory,
        links: Multiset<usize>,
        class: SizeClass,
    )
        requires
            self.chained(earlier),
            self.primed(earlier, class),
            memory.wf(),
            header::changes(memory, earlier, Multiset::empty(), links),
            header::headers_fit(memory, links),
        ensures
            self.primed(memory, class),
    {
        broadcast use vstd::multiset::group_multiset_axioms;

        let none = Multiset::<usize>::empty();
        assert forall|block: usize| #[trigger] self.inbox.held().count(
            block,
        ) > 0 implies header::prepared(memory, block as int, class) by {
            header::header_is_relinked(memory, earlier, none, links, block as int);
        }
        assert forall|index: int, block: usize|
            0 <= index < self.slabs@.len() && #[trigger] self.slabs@[index].partial_free.held().count(
                block,
            ) > 0 implies header::prepared(memory, block as int, class) by {
            assert(self.slabs@[index].partial_free.linked(earlier));
            header::header_is_relinked(memory, earlier, none, links, block as int);
        }
    }

    /// What depends on the slabs' places only stays.
    pub proof fn slabs_are_kept(self, other: Self)
        requires
            self.same_slabs(other),
        ensures
            other.sorted() ==> self.sorted(),
            forall|block: usize| self.knows(block) == other.knows(block),
            forall|region: Region| #[trigger]
                self.registered(region) == other.registered(region),
    {
        assert forall|block: usize| self.knows(block) == other.knows(block) by {
            if self.knows(block) {
                let index = choose|index: int|
                    0 <= index < self.slabs@.len() && (#[trigger] self.slabs@[index]).region().has(
                        block as int,
                    );
                assert(other.slabs@[index].region().has(block as int));
            }
            if other.knows(block) {
                let index = choose|index: int|
                    0 <= index < other.slabs@.len() && (
                    #[trigger] other.slabs@[index]).region().has(block as int);
                assert(self.slabs@[index].region().has(block as int));
            }
        }
        assert forall|region: Region| #[trigger] self.registered(region) == other.registered(region) by {
            if self.registered(region) {
                let index = choose|index: int|
                    0 <= index < self.slabs@.len() && (#[trigger] self.slabs@[index]).region()
                        == region;
                assert(other.slabs@[index].region() == region);
            }
            if other.registered(region) {
                let index = choose|index: int|
                    0 <= index < other.slabs@.len() && (#[trigger] other.slabs@[index]).region()
                        == region;
                assert(self.slabs@[index].region() == region);
            }
        }
    }

    /// Blocks the pool holds belong to its slabs; there are few enough to be counted.
    pub proof fn held_facts(self)
        requires
            self.wf(),
        ensures
            self.held().count(0) == 0,
            self.held().len() <= usize::MAX,
            self.held().len() == self.inbox@.len() + records_count(self.slabs@),
            forall|block: usize| #[trigger] self.held().count(block) > 0 ==> self.knows(block),
            forall|index: int, block: usize|
                0 <= index < self.slabs@.len() ==> #[trigger] self.slabs@[index].held().count(block)
                    <= self.held().count(block),
            forall|block: usize| #[trigger]
                self.inbox.held().count(block) <= self.held().count(block),
            records_count(self.slabs@) >= 0,
    {
        broadcast use vstd::multiset::group_multiset_axioms;

        records_are_counted(self.slabs@);
        blocks::blocks_of(self.inbox@);
        assert forall|block: usize| #[trigger] self.held().count(block) > 0 implies self.knows(block) by {
            if records_held(self.slabs@).count(block) > 0 {
                let index = records_held_from(self.slabs@, block);
                assert(self.slabs@[index].wf());
                self.slabs@[index].held_facts();
                assert(self.slabs@[index].region().has(block as int));
            }
        }
        if self.held().count(0) > 0 {
            assert(self.knows(0));
            let index = choose|index: int|
                0 <= index < self.slabs@.len() && (#[trigger] self.slabs@[index]).region().has(0);
            assert(self.slabs@[index].wf());
        }
        blocks::countable_blocks(self.held());
        assert forall|index: int, block: usize| 0 <= index < self.slabs@.len() implies #[trigger] self.slabs@[index].held().count(
            block,
        ) <= self.held().count(block) by {
            records_held_has(self.slabs@, index);
        }
        assert(records_count(self.slabs@.take(0)) >= 0);
    }

    /// Creates an empty pool for a system with pages of `page_size` bytes.
    #[must_use]
    pub fn new(page_size: usize) -> (pool: Self)
        requires
            page_size > 0,
        ensures
            pool.wf(),
            pool.slabs@.len() == 0,
            pool.held() == Multiset::<usize>::empty(),
            pool.epoch == 0,
            pool.page_size == page_size,
            pool.pending_sweeps@.len() == 0,
            forall|memory: Memory, class: SizeClass| pool.ready(memory, class),
    {
        let pool = ClassPool {
            slabs: Vec::new(),
            partial_slabs: Vec::new(),
            full_hot_slabs: Vec::new(),
            full_cold_slabs: Vec::new(),
            epoch: 0,
            sweep_cursor: 0,
            recent_slab: None,
            inbox: FreeList::new(),
            page_size,
            pending_sweeps: Vec::new(),
        };
        proof {
            broadcast use vstd::multiset::group_multiset_axioms;

            blocks::blocks_of(pool.inbox@);
            assert(pool.held() =~= Multiset::<usize>::empty());
            assert forall|memory: Memory, class: SizeClass| #[trigger] pool.ready(
                memory,
                class,
            ) by {
                free_list::empty_chain(memory);
            }
        }
        pool
    }

    fn bump_epoch(&mut self) -> (epoch: u64)
        requires
            old(self).epoch < u64::MAX,
        ensures
            epoch == old(self).epoch + 1,
            *final(self) == (ClassPool { epoch, ..*old(self) }),
    {
        self.epoch = self.epoch + 1;
        self.epoch
    }

    fn normalize_sweep_cursor(&mut self)
        ensures
            final(self).cursor_fits(),
            *final(self) == (ClassPool { sweep_cursor: final(self).sweep_cursor, ..*old(self) }),
            final(self).sweep_cursor == cursor_within(
                old(self).sweep_cursor,
                old(self).full_hot_slabs@.len() as int,
            ),
    {
        if self.full_hot_slabs.len() == 0 {
            self.sweep_cursor = 0;
        } else {
            self.sweep_cursor = self.sweep_cursor % self.full_hot_slabs.len();
        }
    }

    /// Returns the number of blocks that the pool holds.
    #[must_use]
    pub fn central_block_count(&self) -> (count: usize)
        requires
            self.wf(),
        ensures
            count == self.held().len(),
    {
        proof {
            self.held_facts();
            records_are_counted(self.slabs@);
        }
        let mut count: usize = self.inbox.len();
        let mut index: usize = 0;
        while index < self.slabs.len()
            invariant
                index <= self.slabs@.len(),
                self.inbox@.len() + records_count(self.slabs@) <= usize::MAX,
                forall|n: int|
                    0 <= n <= self.slabs@.len() ==> 0 <= #[trigger] records_count(
                        self.slabs@.take(n),
                    ) <= records_count(self.slabs@),
                count == self.inbox@.len() + records_count(self.slabs@.take(index as int)),
            decreases self.slabs@.len() - index,
        {
            proof {
                assert(self.slabs@.take(index + 1).drop_last() =~= self.slabs@.take(index as int));
                assert(records_count(self.slabs@.take(index + 1)) <= records_count(self.slabs@));
            }
            count = count + self.slabs[index].central_free_len;
            index = index + 1;
        }
        assert(self.slabs@.take(index as int) =~= self.slabs@);
        count
    }

    /// What does not depend on counters and cursors stays when only those change.
    proof fn contents_are_kept(self, other: Self)
        requires
            other.wf(),
            self.slabs@ == other.slabs@,
            self.partial_slabs@ == other.partial_slabs@,
            self.full_hot_slabs@ == other.full_hot_slabs@,
            self.full_cold_slabs@ == other.full_cold_slabs@,
            self.inbox == other.inbox,
            self.page_size == other.page_size,
            self.cursor_fits(),
            self.recent_slab matches Some(index) ==> index < self.slabs@.len(),
        ensures
            self.wf(),
            self.same_slabs(other),
            self.held() == other.held(),
            forall|memory: Memory|
                #![trigger self.chained(memory)]
                #![trigger other.chained(memory)]
                self.chained(memory) == other.chained(memory),
            forall|memory: Memory, class: SizeClass|
                #![trigger self.primed(memory, class)]
                #![trigger other.primed(memory, class)]
                self.primed(memory, class) == other.primed(memory, class),
    {
        self.slabs_are_kept(other);
        self.links_are_kept(other, -1, SlabState::Loaned);
    }

    proof fn links_are_kept(self, other: Self, index: int, state: SlabState)
        requires
            other.linked_as(index, state),
            self.slabs@ == other.slabs@,
            self.partial_slabs@ == other.partial_slabs@,
            self.full_hot_slabs@ == other.full_hot_slabs@,
            self.full_cold_slabs@ == other.full_cold_slabs@,
        ensures
            self.linked_as(index, state),
    {
        assert forall|listed: SlabState| #[trigger] self.bucket(listed) == other.bucket(listed) by {
        }
        assert forall|listed: SlabState, slot: int| 0 <= slot < self.bucket(listed).len() implies {
            let at = #[trigger] self.bucket(listed)[slot] as int;
            &&& 0 <= at < self.slabs@.len()
            &&& self.listed_state(index, state, at) == listed
            &&& self.slabs@[at].bucket_slot is Some
            &&& self.slabs@[at].bucket_slot->0 == slot
        } by {
            let at = other.bucket(listed)[slot] as int;
            assert(other.listed_state(index, state, at) == listed);
        }
    }

    /// The lists per state are those of `before`, but for the slab at `index`: it left the
    /// list of slabs in state `from`, in whose place the last slab of that list stands, and
    /// is the last in the list of slabs in state `to`.
    pub open spec fn relisted(
        self,
        before: Self,
        index: int,
        from: SlabState,
        to: SlabState,
    ) -> bool {
        let slot = before.slabs@[index].bucket_slot->0 as int;
        &&& self.partial_slabs@ == relisting(
            before.partial_slabs@,
            SlabState::Partial,
            slot,
            index,
            from,
            to,
        )
        &&& self.full_hot_slabs@ == relisting(
            before.full_hot_slabs@,
            SlabState::FullHot,
            slot,
            index,
            from,
            to,
        )
        &&& self.full_cold_slabs@ == relisting(
            before.full_cold_slabs@,
            SlabState::FullCold,
            slot,
            index,
            from,
            to,
        )
    }

    /// The cursor is that of `before`, or the first when a full slab left the list and it
    /// stood at the end.
    pub open spec fn cursor_follows(self, before: Self, from: SlabState, to: SlabState) -> bool {
        self.sweep_cursor == if from == SlabState::FullHot && to != SlabState::FullHot {
            cursor_within(before.sweep_cursor, before.full_hot_slabs@.len() - 1)
        } else {
            before.sweep_cursor
        }
    }

    /// The lists are in order again once the last slab of a list took the place of another.
    proof fn unlisted(self, before: Self, index: int, state: SlabState, slot: int)
        requires
            0 <= index < before.slabs@.len(),
            before.linked_as(index, state),
            before.slabs@[index].bucket_slot is Some,
            before.slabs@[index].bucket_slot->0 == slot,
            state != SlabState::Loaned,
            self.slabs@.len() == before.slabs@.len(),
            self.bucket(state) == swapped_out(before.bucket(state), slot),
            forall|listed: SlabState|
                listed != state ==> #[trigger] self.bucket(listed) == before.bucket(listed),
            self.slabs@[index] == (SlabRecord { bucket_slot: None, ..before.slabs@[index] }),
            forall|other: int|
                #![trigger self.slabs@[other]]
                0 <= other < self.slabs@.len() && other != index ==> self.slabs@[other] == if other
                    == before.bucket(state).last() {
                    SlabRecord { bucket_slot: Some(slot as usize), ..before.slabs@[other] }
                } else {
                    before.slabs@[other]
                },
        ensures
            self.linked_as(index, SlabState::Loaned),
            self.relisted(before, index, state, SlabState::Loaned),
    {
        let list = before.bucket(state);
        assert(list[slot] == index);
        assert(self.relisted(before, index, state, SlabState::Loaned)) by {
            let partial = self.bucket(SlabState::Partial);
            let full_hot = self.bucket(SlabState::FullHot);
            let full_cold = self.bucket(SlabState::FullCold);
        }
        assert forall|listed: SlabState, at: int| 0 <= at < self.bucket(listed).len() implies {
            let other = #[trigger] self.bucket(listed)[at] as int;
            &&& 0 <= other < self.slabs@.len()
            &&& self.listed_state(index, SlabState::Loaned, other) == listed
            &&& self.slabs@[other].bucket_slot is Some
            &&& self.slabs@[other].bucket_slot->0 == at
        } by {
            assert(list[list.len() - 1] == list.last());
            if listed == state {
                if at == slot {
                    assert(self.bucket(listed)[at] == list[list.len() - 1]);
                } else {
                    assert(self.bucket(listed)[at] == list[at]);
                }
            } else {
                assert(self.bucket(listed)[at] == before.bucket(listed)[at]);
            }
        }
        assert forall|other: int|
            #![trigger self.slabs@[other]]
            0 <= other < self.slabs@.len() implies match self.slabs@[other].bucket_slot {
            Some(at) => {
                let listed = self.listed_state(index, SlabState::Loaned, other);
                listed != SlabState::Loaned && at < self.bucket(listed).len() && self.bucket(
                    listed,
                )[at as int] == other
            },
            None => self.listed_state(index, SlabState::Loaned, other) == SlabState::Loaned,
        } by {
            let earlier = before.slabs@[other];
            assert(list[list.len() - 1] == list.last());
        }
    }

    /// Takes the slab at `index` off the list of slabs in `state`.
    fn remove_from_bucket(&mut self, index: usize, state: SlabState)
        requires
            index < old(self).slabs@.len(),
            old(self).linked_as(index as int, state),
            old(self).cursor_fits(),
        ensures
            final(self).cursor_follows(*old(self), state, SlabState::Loaned),
            final(self).same_records(*old(self)),
            final(self).linked_as(index as int, SlabState::Loaned),
            final(self).relisted(*old(self), index as int, state, SlabState::Loaned),
            final(self).cursor_fits(),
    {
        let slot: usize = match self.slabs[index].bucket_slot {
            Some(slot) => slot,
            None => {
                self.normalize_sweep_cursor();
                proof {
                    let earlier = old(self).slabs@[index as int];
                    fitting_cursor_stays(
                        old(self).sweep_cursor,
                        old(self).full_hot_slabs.len() as int,
                    );
                    assert(old(self).slabs@[index as int].bucket_slot is None);
                    assert forall|listed: SlabState| #[trigger] self.bucket(listed) == old(self).bucket(listed) by {
                    }
                }
                return;
            },
        };
        proof {
            let earlier = self.slabs@[index as int];
            let last = self.bucket(state)[self.bucket(state).len() - 1] as int;
            assert(self.slabs@[last].bucket_slot->0 == self.bucket(state).len() - 1);
        }
        self.slabs[index].bucket_slot = None;
        let moved: Option<usize> = match state {
            SlabState::Loaned => None,
            SlabState::Partial => swap_out(&mut self.partial_slabs, slot),
            SlabState::FullHot => swap_out(&mut self.full_hot_slabs, slot),
            SlabState::FullCold => swap_out(&mut self.full_cold_slabs, slot),
        };
        if let Some(moved_index) = moved {
            self.slabs[moved_index].bucket_slot = Some(slot);
        }
        self.normalize_sweep_cursor();
        proof {
            fitting_cursor_stays(old(self).sweep_cursor, old(self).full_hot_slabs.len() as int);
            assert forall|listed: SlabState| listed != state implies #[trigger] self.bucket(listed) == old(self).bucket(listed) by {
            }
            self.unlisted(*old(self), index as int, state, slot as int);
        }
    }

    /// Puts the slab at `index` at the end of the list of slabs in `state`.
    fn add_to_bucket(&mut self, index: usize, state: SlabState)
        requires
            index < old(self).slabs@.len(),
            old(self).linked_as(index as int, SlabState::Loaned),
            old(self).cursor_fits(),
        ensures
            final(self).same_records(*old(self)),
            final(self).linked_as(index as int, state),
            final(self).cursor_fits(),
            final(self).relisted(*old(self), index as int, SlabState::Loaned, state),
            final(self).cursor_follows(*old(self), SlabState::Loaned, state),
    {
        let ghost before = *self;
        proof {
            let length = self.full_hot_slabs@.len() as int;
            assert(length == self.full_hot_slabs.len());
            fitting_cursor_stays(self.sweep_cursor, length);
            if state == SlabState::FullHot && length < usize::MAX {
                fitting_cursor_stays(self.sweep_cursor, length + 1);
            }
        }
        let slot: usize = match state {
            SlabState::Loaned => {
                self.slabs[index].bucket_slot = None;
                self.normalize_sweep_cursor();
                proof {
                    assert(before.slabs@[index as int].bucket_slot is None);
                    assert(self.slabs@ =~= before.slabs@);
                    assert forall|listed: SlabState| #[trigger] self.bucket(listed) == before.bucket(listed) by {
                    }
                }
                return;
            },
            SlabState::Partial => {
                self.partial_slabs.push(index);
                self.partial_slabs.len() - 1
            },
            SlabState::FullHot => {
                self.full_hot_slabs.push(index);
                self.full_hot_slabs.len() - 1
            },
            SlabState::FullCold => {
                self.full_cold_slabs.push(index);
                self.full_cold_slabs.len() - 1
            },
        };
        self.slabs[index].bucket_slot = Some(slot);
        self.normalize_sweep_cursor();
        proof {
            assert(before.slabs@[index as int].bucket_slot is None);
            assert(self.bucket(state) == before.bucket(state).push(index));
            assert forall|listed: SlabState| listed != state implies #[trigger] self.bucket(listed)
                == before.bucket(listed) by {
            }
            assert forall|listed: SlabState, at: int| 0 <= at < self.bucket(listed).len() implies {
                let other = #[trigger] self.bucket(listed)[at] as int;
                &&& 0 <= other < self.slabs@.len()
                &&& self.listed_state(index as int, state, other) == listed
                &&& self.slabs@[other].bucket_slot is Some
                &&& self.slabs@[other].bucket_slot->0 == at
            } by {
                if listed == state && at == slot {
                } else {
                    assert(self.bucket(listed)[at] == before.bucket(listed)[at]);
                }
            }
            assert forall|other: int|
                #![trigger self.slabs@[other]]
                0 <= other < self.slabs@.len() implies match self.slabs@[other].bucket_slot {
                Some(at) => {
                    let listed = self.listed_state(index as int, state, other);
                    listed != SlabState::Loaned && at < self.bucket(listed).len() && self.bucket(
                        listed,
                    )[at as int] == other
                },
                None => self.listed_state(index as int, state, other) == SlabState::Loaned,
            } by {
                let earlier = before.slabs@[other];
            }
        }
    }

    /// Moves the slab at `index`, whose state changed from `previous_state`, between the lists.
    fn reconcile_bucket_transition(
        &mut self,
        index: usize,
        previous_state: SlabState,
        next_state: SlabState,
    )
        requires
            index < old(self).slabs@.len(),
            old(self).slabs@[index as int].state == next_state,
            old(self).linked_as(index as int, previous_state),
            old(self).cursor_fits(),
        ensures
            final(self).same_records(*old(self)),
            final(self).linked(),
            final(self).cursor_fits(),
            final(self).relisted(*old(self), index as int, previous_state, next_state),
            final(self).cursor_follows(*old(self), previous_state, next_state),
            previous_state == next_state ==> *final(self) == *old(self),
    {
        if previous_state == next_state {
            proof {
                self.linked_own_state(index as int);
            }
            return;
        }
        self.remove_from_bucket(index, previous_state);
        let ghost middle = *self;
        self.add_to_bucket(index, next_state);
        proof {
            assert(self.slabs@[index as int].same_record(middle.slabs@[index as int]));
            assert(middle.slabs@[index as int].same_record(old(self).slabs@[index as int]));
            assert forall|at: int| 0 <= at < self.slabs@.len() implies (
            #[trigger] self.slabs@[at]).same_record(old(self).slabs@[at]) by {
                assert(middle.slabs@[at].same_record(old(self).slabs@[at]));
            }
            self.linked_own_state(index as int);
        }
    }

    /// Moves the slab at `index`, whose state was `previous_state`, between the lists.
    fn reconcile_bucket_state(&mut self, index: usize, previous_state: SlabState)
        requires
            index < old(self).slabs@.len(),
            old(self).linked_as(index as int, previous_state),
            old(self).cursor_fits(),
        ensures
            final(self).same_records(*old(self)),
            final(self).linked(),
            final(self).relisted(
                *old(self),
                index as int,
                previous_state,
                old(self).slabs@[index as int].state,
            ),
            final(self).cursor_follows(
                *old(self),
                previous_state,
                old(self).slabs@[index as int].state,
            ),
            final(self).cursor_fits(),
    {
        let next_state = self.slabs[index].state;
        self.reconcile_bucket_transition(index, previous_state, next_state);
    }

    /// A slab listed under its own state is listed like all others.
    proof fn linked_own_state(self, index: int)
        requires
            0 <= index < self.slabs@.len(),
        ensures
            self.linked_as(index, self.slabs@[index].state) == self.linked(),
    {
        let state = self.slabs@[index].state;
        assert forall|other: int| 0 <= other < self.slabs@.len() implies #[trigger] self.listed_state(
            index,
            state,
            other,
        ) == self.listed_state(-1, SlabState::Loaned, other) by {
        }
        if self.linked_as(index, state) {
            assert(self.linked()) by {
                assert forall|listed: SlabState, slot: int| 0 <= slot < self.bucket(
                    listed,
                ).len() implies {
                    let other = #[trigger] self.bucket(listed)[slot] as int;
                    &&& 0 <= other < self.slabs@.len()
                    &&& self.listed_state(-1, SlabState::Loaned, other) == listed
                    &&& self.slabs@[other].bucket_slot is Some
                &&& self.slabs@[other].bucket_slot->0 == slot
                } by {
                    let other = self.bucket(listed)[slot] as int;
                    assert(self.listed_state(index, state, other) == listed);
                }
            }
        }
        if self.linked() {
            assert(self.linked_as(index, state)) by {
                assert forall|listed: SlabState, slot: int| 0 <= slot < self.bucket(
                    listed,
                ).len() implies {
                    let other = #[trigger] self.bucket(listed)[slot] as int;
                    &&& 0 <= other < self.slabs@.len()
                    &&& self.listed_state(index, state, other) == listed
                    &&& self.slabs@[other].bucket_slot is Some
                &&& self.slabs@[other].bucket_slot->0 == slot
                } by {
                    let other = self.bucket(listed)[slot] as int;
                    assert(self.listed_state(-1, SlabState::Loaned, other) == listed);
                }
            }
        }
    }

    /// Counts the slabs that start at or below `addr`.
    fn slabs_not_above(&self, addr: usize) -> (count: usize)
        requires
            self.wf(),
        ensures
            count <= self.slabs@.len(),
            forall|index: int|
                0 <= index < count ==> (#[trigger] self.slabs@[index]).start <= addr,
            forall|index: int|
                count <= index < self.slabs@.len() ==> (#[trigger] self.slabs@[index]).start > addr,
    {
        let mut low: usize = 0;
        let mut high: usize = self.slabs.len();
        while low < high
            invariant
                self.wf(),
                low <= high <= self.slabs@.len(),
                forall|index: int|
                    0 <= index < low ==> (#[trigger] self.slabs@[index]).start <= addr,
                forall|index: int|
                    high <= index < self.slabs@.len() ==> (#[trigger] self.slabs@[index]).start
                        > addr,
            decreases high - low,
        {
            let middle: usize = low + (high - low) / 2;
            proof {
                assert forall|i: int, j: int| 0 <= i < j < self.slabs@.len() implies (
                #[trigger] self.slabs@[i]).start < (#[trigger] self.slabs@[j]).start by {
                    assert(self.slabs@[i].wf());
                    self.slabs@[i].region().block_is_inside(0);
                }
            }
            if self.slabs[middle].start <= addr {
                low = middle + 1;
            } else {
                high = middle;
            }
        }
        low
    }

    /// Finds the slab that `block` belongs to and remembers it.
    fn find_slab_index(&mut self, block: usize) -> (result: Option<usize>)
        requires
            old(self).wf(),
        ensures
            *final(self) == (ClassPool { recent_slab: final(self).recent_slab, ..*old(self) }),
            match result {
                Some(index) => index < old(self).slabs@.len() && old(self).slabs@[index as int].region().has(block as int) && final(self).recent_slab
                    == result,
                None => !old(self).knows(block) && *final(self) == *old(self),
            },
    {
        if let Some(recent) = self.recent_slab {
            if self.slabs[recent].contains(block) {
                return Some(recent);
            }
        }
        let count: usize = self.slabs_not_above(block);
        if count == 0 {
            return None;
        }
        let index: usize = count - 1;
        if self.slabs[index].contains(block) {
            self.recent_slab = Some(index);
            Some(index)
        } else {
            proof {
                assert forall|other: int| 0 <= other < self.slabs@.len() implies !(
                #[trigger] self.slabs@[other]).region().has(block as int) by {
                    if other < index {
                        assert(self.slabs@[other].region().end()
                            <= self.slabs@[index as int].region().start);
                    }
                }
            }
            None
        }
    }

    /// The position behind `slot` among the full slabs, going round.
    pub open spec fn slot_behind(self, slot: int) -> int {
        if slot + 1 == self.full_hot_slabs@.len() {
            0
        } else {
            slot + 1
        }
    }

    /// The pages that can be given back of the full slab at `slot`.
    pub open spec fn idle_pages(self, slot: int) -> Option<SweepRequest> {
        let slab = self.slabs@[self.full_hot_slabs@[slot] as int];
        if slab.sweepable(self.epoch) {
            match arena::inner_pages(
                slab.start as int,
                slab.block_size * slab.capacity,
                self.page_size as int,
            ) {
                Some((addr, len)) => Some(SweepRequest { slab_start: slab.start, addr, len }),
                None => None,
            }
        } else {
            None
        }
    }

    /// The pool is `before` after a look for idle slabs: every 64th epoch, up to two full slabs
    /// are inspected, going round from the cursor on, until one has pages to give back.
    pub open spec fn swept(self, before: Self) -> bool {
        let first = before.sweep_cursor as int;
        let second = before.slot_behind(first);
        &&& self == (ClassPool {
            sweep_cursor: self.sweep_cursor,
            pending_sweeps: self.pending_sweeps,
            ..before
        })
        &&& if before.epoch % SWEEP_INTERVAL != 0 || before.full_hot_slabs@.len() == 0 {
            self == before
        } else if before.idle_pages(first) is Some {
            &&& self.sweep_cursor == second
            &&& self.pending_sweeps@ == before.pending_sweeps@.push(before.idle_pages(first)->0)
        } else if before.full_hot_slabs@.len() == 1 {
            &&& self.sweep_cursor == second
            &&& self.pending_sweeps@ == before.pending_sweeps@
        } else if before.idle_pages(second) is Some {
            &&& self.sweep_cursor == before.slot_behind(second)
            &&& self.pending_sweeps@ == before.pending_sweeps@.push(before.idle_pages(second)->0)
        } else {
            &&& self.sweep_cursor == before.slot_behind(second)
            &&& self.pending_sweeps@ == before.pending_sweeps@
        }
    }

    /// Looks for an idle slab whose pages can be given back, when it is time.
    fn maybe_sweep(&mut self)
        requires
            old(self).wf(),
        ensures
            final(self).swept(*old(self)),
            final(self).wf(),
            final(self).held() == old(self).held(),
            forall|memory: Memory|
                #![trigger final(self).chained(memory)]
                #![trigger old(self).chained(memory)]
                final(self).chained(memory) == old(self).chained(memory),
            forall|memory: Memory, class: SizeClass|
                #![trigger final(self).primed(memory, class)]
                #![trigger old(self).primed(memory, class)]
                final(self).primed(memory, class) == old(self).primed(memory, class),
    {
        if self.epoch % SWEEP_INTERVAL != 0 || self.full_hot_slabs.len() == 0 {
            return;
        }
        let total: usize = self.full_hot_slabs.len();
        let budget: usize = if SWEEP_SCAN_BUDGET < total {
            SWEEP_SCAN_BUDGET
        } else {
            total
        };
        let ghost start = *self;
        let mut step: usize = 0;
        let mut found: bool = false;
        while step < budget && !found
            invariant
                start == *old(self),
                start.wf(),
                start.epoch % SWEEP_INTERVAL == 0,
                total == start.full_hot_slabs@.len(),
                total > 0,
                budget == if total < 2 {
                    1int
                } else {
                    2int
                },
                step <= budget,
                *self == (ClassPool {
                    sweep_cursor: self.sweep_cursor,
                    pending_sweeps: self.pending_sweeps,
                    ..start
                }),
                self.wf(),
                self.sweep_cursor < total,
                found ==> self.swept(start),
                !found ==> self.pending_sweeps@ == start.pending_sweeps@,
                !found && step == 0 ==> self.sweep_cursor == start.sweep_cursor,
                !found && step == 1 ==> start.idle_pages(start.sweep_cursor as int) is None
                    && self.sweep_cursor == start.slot_behind(start.sweep_cursor as int),
                !found && step == 2 ==> start.idle_pages(start.sweep_cursor as int) is None
                    && start.idle_pages(start.slot_behind(start.sweep_cursor as int)) is None
                    && self.sweep_cursor == start.slot_behind(
                    start.slot_behind(start.sweep_cursor as int),
                ),
            decreases budget - step,
        {
            let slot: usize = self.sweep_cursor;
            proof {
                if slot + 1 < total {
                    vstd::arithmetic::div_mod::lemma_small_mod((slot + 1) as nat, total as nat);
                } else {
                    vstd::arithmetic::div_mod::lemma_mod_self_0(total as int);
                }
                let listed = self.bucket(SlabState::FullHot)[slot as int];
                assert(self.listed_state(-1, SlabState::Loaned, listed as int)
                    == SlabState::FullHot);
            }
            let index: usize = self.full_hot_slabs[slot];
            self.sweep_cursor = (slot + 1) % total;
            step = step + 1;
            if self.slabs[index].is_sweep_candidate(self.epoch) {
                let span: usize = self.slabs[index].span_len();
                let slab_start: usize = self.slabs[index].start;
                if let Some((addr, len)) = arena::page_aligned_inner_range(
                    slab_start,
                    span,
                    self.page_size,
                ) {
                    self.pending_sweeps.push(SweepRequest { slab_start, addr, len });
                    found = true;
                }
            }
            proof {
                self.contents_are_kept(start);
            }
        }
        proof {
            self.contents_are_kept(start);
        }
    }

    /// A slab whose record changed is still listed under its earlier state.
    proof fn links_after_change(self, before: Self, index: int)
        requires
            before.linked(),
            0 <= index < before.slabs@.len(),
            self.slabs@.len() == before.slabs@.len(),
            forall|other: int|
                0 <= other < self.slabs@.len() && other != index ==> self.slabs@[other]
                    == before.slabs@[other],
            self.slabs@[index].bucket_slot == before.slabs@[index].bucket_slot,
            self.partial_slabs@ == before.partial_slabs@,
            self.full_hot_slabs@ == before.full_hot_slabs@,
            self.full_cold_slabs@ == before.full_cold_slabs@,
        ensures
            self.linked_as(index, before.slabs@[index].state),
    {
        let state = before.slabs@[index].state;
        assert forall|listed: SlabState| #[trigger] self.bucket(listed) == before.bucket(listed) by {
        }
        assert forall|listed: SlabState, slot: int| 0 <= slot < self.bucket(listed).len() implies {
            let at = #[trigger] self.bucket(listed)[slot] as int;
            &&& 0 <= at < self.slabs@.len()
            &&& self.listed_state(index, state, at) == listed
            &&& self.slabs@[at].bucket_slot is Some
            &&& self.slabs@[at].bucket_slot->0 == slot
        } by {
            let at = before.bucket(listed)[slot] as int;
            assert(before.listed_state(-1, SlabState::Loaned, at) == listed);
        }
        assert forall|other: int|
            #![trigger self.slabs@[other]]
            0 <= other < self.slabs@.len() implies match self.slabs@[other].bucket_slot {
            Some(slot) => {
                let listed = self.listed_state(index, state, other);
                listed != SlabState::Loaned && slot < self.bucket(listed).len() && self.bucket(
                    listed,
                )[slot as int] == other
            },
            None => self.listed_state(index, state, other) == SlabState::Loaned,
        } by {
            let earlier = before.slabs@[other];
            assert(before.listed_state(-1, SlabState::Loaned, other) == earlier.state);
        }
    }

    /// Everything is in order again once a changed slab was moved to its list.
    proof fn wf_after_move(
        self,
        middle: Self,
        before: Self,
        index: int,
        taken: Multiset<usize>,
        added: Multiset<usize>,
    )
        requires
            before.wf(),
            self.same_records(middle),
            self.linked(),
            self.cursor_fits(),
            0 <= index < before.slabs@.len(),
            middle.slabs@.len() == before.slabs@.len(),
            forall|other: int|
                0 <= other < middle.slabs@.len() && other != index ==> middle.slabs@[other]
                    == before.slabs@[other],
            middle.slabs@[index].wf(),
            middle.slabs@[index].region() == before.slabs@[index].region(),
            middle.inbox == before.inbox,
            middle.page_size == before.page_size,
            middle.recent_slab matches Some(recent) ==> recent < middle.slabs@.len(),
            before.slabs@[index].held().add(added) == middle.slabs@[index].held().add(taken),
            blocks::distinct(before.held().add(added)),
            forall|block: usize| #[trigger]
                middle.slabs@[index].partial_free.held().count(block) > 0
                    ==> before.slabs@[index].partial_free.held().count(block) > 0 || added.count(
                    block,
                ) > 0,
        ensures
            self.wf(),
            self.same_slabs(before),
            before.held().add(added) == self.held().add(taken),
            forall|memory: Memory, class: SizeClass|
                #![trigger self.primed(memory, class)]
                #![trigger before.primed(memory, class)]
                before.primed(memory, class) && (forall|block: usize| #[trigger]
                    added.count(block) > 0 ==> header::prepared(memory, block as int, class))
                    ==> self.primed(memory, class),
            forall|memory: Memory|
                #![trigger self.chained(memory)]
                #![trigger before.chained_but(memory, index)]
                before.chained_but(memory, index)
                    && middle.slabs@[index].partial_free.linked(memory) ==> self.chained(memory),
            middle.slabs@[index].partial_free == before.slabs@[index].partial_free ==> forall|
                memory: Memory,
            |
                #![trigger self.chained(memory)]
                #![trigger before.chained(memory)]
                before.chained(memory) ==> self.chained(memory),
    {
        broadcast use vstd::multiset::group_multiset_axioms;

        self.records_are_kept(middle);
        assert(middle.same_slabs(before)) by {
            assert forall|other: int| 0 <= other < middle.slabs@.len() implies (
            #[trigger] middle.slabs@[other]).region() == before.slabs@[other].region() by {
            }
        }
        middle.slabs_are_kept(before);
        let (old_part, new_part) = (before.slabs@[index].held(), middle.slabs@[index].held());
        records_held_update(before.slabs@, index, middle.slabs@[index]);
        assert(before.slabs@.update(index, middle.slabs@[index]) =~= middle.slabs@);
        let (left, right) = (old_part.add(added), new_part.add(taken));
        assert forall|block: usize| #[trigger] before.held().add(added).count(block) == self.held().add(
            taken,
        ).count(block) by {
            assert(left.count(block) == right.count(block));
            assert(records_held(middle.slabs@).count(block) + old_part.count(block) == records_held(
                before.slabs@,
            ).count(block) + new_part.count(block));
        }
        assert(before.held().add(added) =~= self.held().add(taken));
        assert forall|block: usize| #[trigger] self.held().count(block) <= 1 by {
            assert(before.held().add(added).count(block) <= 1);
        }
        assert forall|index2: int| 0 <= index2 < self.slabs@.len() implies #[trigger] self.slabs@[index2].wf() by {
            assert(before.slabs@[index2].wf());
        }
        assert forall|memory: Memory|
            #![trigger self.chained(memory)]
            #![trigger before.chained_but(memory, index)]
            before.chained_but(memory, index) && middle.slabs@[index].partial_free.linked(
                memory,
            ) implies self.chained(memory) by {
            assert(middle.inbox.linked(memory));
            assert forall|other: int| 0 <= other < middle.slabs@.len() implies (
            #[trigger] middle.slabs@[other]).partial_free.linked(memory) by {
                if other != index {
                    assert(before.slabs@[other].partial_free.linked(memory));
                }
            }
            assert(middle.chained(memory));
            self.chains_are_same(middle, memory);
        }
        if middle.slabs@[index].partial_free == before.slabs@[index].partial_free {
            assert forall|memory: Memory|
                #![trigger self.chained(memory)]
                #![trigger before.chained(memory)]
                before.chained(memory) implies self.chained(memory) by {
                assert(before.slabs@[index].partial_free.linked(memory));
                assert(before.chained_but(memory, index));
            }
        }
        assert forall|memory: Memory, class: SizeClass|
            before.primed(memory, class) && (forall|block: usize| #[trigger]
                added.count(block) > 0 ==> header::prepared(memory, block as int, class)) implies #[trigger] self.primed(
            memory,
            class,
        ) by {
            assert forall|at: int, block: usize|
                0 <= at < self.slabs@.len() && #[trigger] self.slabs@[at].partial_free.held().count(
                    block,
                ) > 0 implies header::prepared(memory, block as int, class) by {
                assert(middle.slabs@[at].partial_free.held().count(block) > 0);
                if at != index {
                    assert(before.slabs@[at].partial_free.held().count(block) > 0);
                } else if added.count(block) == 0 {
                    assert(before.slabs@[index].partial_free.held().count(block) > 0);
                }
            }
        }
    }

    /// The slab that gives blocks next: the last of which some are in use, or else the last
    /// full one, slabs whose pages were given back coming after the others.
    pub open spec fn serving(self) -> Option<usize> {
        if self.partial_slabs@.len() > 0 {
            Some(self.partial_slabs@.last())
        } else if self.full_hot_slabs@.len() > 0 {
            Some(self.full_hot_slabs@.last())
        } else if self.full_cold_slabs@.len() > 0 {
            Some(self.full_cold_slabs@.last())
        } else {
            None
        }
    }

    /// What is left of `before` when the slab at `index` gave up to `max` blocks, or all of
    /// its blocks where it was full.
    pub open spec fn left_by_slab(self, before: Self, index: int, epoch: u64, max: int) -> bool {
        let taken = before.slabs@[index];
        let left = self.slabs@[index];
        &&& self.slabs@.len() == before.slabs@.len()
        &&& forall|other: int|
            0 <= other < self.slabs@.len() && other != index ==> (
            #[trigger] self.slabs@[other]).same_record(before.slabs@[other])
        &&& left.region() == taken.region()
        &&& left.last_touched_epoch == epoch
        &&& left.partial_free@ == taken.partial_free@.take(
            taken.partial_free@.len() - top_of(taken.partial_free@, max).len(),
        )
        &&& left.state == if left.partial_free@.len() > 0 {
            SlabState::Partial
        } else {
            SlabState::Loaned
        }
        &&& self.relisted(before, index, taken.state, left.state)
        &&& self.cursor_follows(before, taken.state, left.state)
        &&& self.pending_sweeps == before.pending_sweeps
    }

    /// What is left of `before` when up to `max` blocks were asked for and idle slabs were
    /// looked for.
    pub open spec fn left_by_refill(self, before: Self, max: int) -> bool {
        if max == 0 {
            self == before
        } else {
            let epoch = (before.epoch + 1) as u64;
            match before.serving() {
                Some(index) => exists|middle: Self| #[trigger]
                    self.swept(middle) && middle.left_by_slab(before, index as int, epoch, max)
                        && middle.epoch == epoch,
                None => self.swept(ClassPool { epoch, ..before }),
            }
        }
    }

    /// Moving a slab between the lists keeps the records of the others.
    proof fn others_are_kept(self, middle: Self, before: Self, index: int)
        requires
            self.same_records(middle),
            middle.slabs@.len() == before.slabs@.len(),
            forall|other: int|
                0 <= other < middle.slabs@.len() && other != index ==> middle.slabs@[other]
                    == before.slabs@[other],
        ensures
            self.slabs@.len() == before.slabs@.len(),
            forall|other: int|
                0 <= other < self.slabs@.len() && other != index ==> (
                #[trigger] self.slabs@[other]).same_record(before.slabs@[other]),
    {
        assert forall|other: int| 0 <= other < self.slabs@.len() && other != index implies (
        #[trigger] self.slabs@[other]).same_record(before.slabs@[other]) by {
            assert(self.slabs@[other].same_record(middle.slabs@[other]));
            assert(middle.slabs@[other] == before.slabs@[other]);
        }
    }

    /// What a slab leaves does not depend on the epoch before.
    proof fn same_left(self, bumped: Self, middle: Self, index: int, max: int)
        requires
            bumped == (ClassPool { epoch: bumped.epoch, ..self }),
            middle.left_by_slab(bumped, index, bumped.epoch, max),
        ensures
            middle.left_by_slab(self, index, bumped.epoch, max),
    {
    }

    /// Hands over all blocks of the full slab at `index`.
    fn loan_whole_slab(&mut self, index: usize, epoch: u64) -> (refill: CentralRefill)
        requires
            old(self).wf(),
            index < old(self).slabs@.len(),
            old(self).slabs@[index as int].full(),
        ensures
            final(self).wf(),
            final(self).same_slabs(*old(self)),
            refill == (CentralRefill::Slab {
                start: old(self).slabs@[index as int].start,
                block_size: old(self).slabs@[index as int].block_size,
                capacity: old(self).slabs@[index as int].capacity,
            }),
            forall|max: int|
                max > 0 ==> #[trigger] final(self).left_by_slab(
                    *old(self),
                    index as int,
                    epoch,
                    max,
                ),
            old(self).held() == final(self).held().add(refill.held()),
            final(self).epoch == old(self).epoch,
            final(self).inbox == old(self).inbox,
            final(self).page_size == old(self).page_size,
            forall|memory: Memory|
                #![trigger final(self).chained(memory)]
                #![trigger old(self).chained(memory)]
                old(self).chained(memory) ==> final(self).chained(memory),
            forall|memory: Memory, class: SizeClass|
                #![trigger final(self).primed(memory, class)]
                #![trigger old(self).primed(memory, class)]
                old(self).primed(memory, class) ==> final(self).primed(memory, class),
    {
        let start: usize = self.slabs[index].start;
        let block_size: usize = self.slabs[index].block_size;
        let capacity: usize = self.slabs[index].capacity;
        let previous_state = self.slabs[index].state;
        proof {
            blocks::blocks_of(self.slabs@[index as int].partial_free@);
            assert(self.slabs@[index as int].wf());
        }
        self.slabs[index].state = SlabState::Loaned;
        self.slabs[index].central_free_len = 0;
        self.slabs[index].last_touched_epoch = epoch;
        self.recent_slab = Some(index);
        let ghost middle = *self;
        proof {
            self.links_after_change(*old(self), index as int);
        }
        self.reconcile_bucket_transition(index, previous_state, SlabState::Loaned);
        let refill = CentralRefill::Slab { start, block_size, capacity };
        proof {
            broadcast use vstd::multiset::group_multiset_axioms;

            let none = Multiset::<usize>::empty();
            assert(old(self).slabs@[index as int].held().add(none) =~= middle.slabs@[index as int].held().add(
                refill.held(),
            ));
            assert(old(self).held().add(none) =~= old(self).held());
            self.wf_after_move(middle, *old(self), index as int, refill.held(), none);
            assert(self.slabs@[index as int].same_record(middle.slabs@[index as int]));
            assert forall|max: int| max > 0 implies #[trigger] self.left_by_slab(
                *old(self),
                index as int,
                epoch,
                max,
            ) by {
                let free = old(self).slabs@[index as int].partial_free@;
                assert(free.take(free.len() - top_of(free, max).len()) =~= free);
                self.others_are_kept(middle, *old(self), index as int);
            }
        }
        refill
    }

    /// Takes up to `max` blocks of the slab at `index`, of which some blocks are in use.
    fn take_partial(&mut self, index: usize, epoch: u64, max: usize, memory: &mut Memory) -> (batch:
        Batch)
        requires
            old(self).wf(),
            index < old(self).slabs@.len(),
            old(self).slabs@[index as int].state == SlabState::Partial,
            max > 0,
            old(memory).wf(),
            old(self).chained(*old(memory)),
        ensures
            final(self).chained(*final(memory)),
            batch.linked(*final(memory)),
            final(memory).wf(),
            header::changes(*final(memory), *old(memory), Multiset::empty(), batch.held()),
            final(self).wf(),
            final(self).same_slabs(*old(self)),
            batch@ == top_of(old(self).slabs@[index as int].partial_free@, max as int),
            final(self).left_by_slab(*old(self), index as int, epoch, max as int),
            old(self).held() == final(self).held().add(batch.held()),
            final(self).epoch == old(self).epoch,
            final(self).inbox == old(self).inbox,
            final(self).page_size == old(self).page_size,
            forall|class: SizeClass|
                #![trigger final(self).primed(*final(memory), class)]
                #![trigger old(self).primed(*old(memory), class)]
                old(self).primed(*old(memory), class) ==> final(self).primed(*final(memory), class)
                    && forall|block: usize| #[trigger]
                    batch.held().count(block) > 0 ==> header::prepared(
                        *final(memory),
                        block as int,
                        class,
                    ),
    {
        proof {
            assert(self.slabs@[index as int].wf());
            assert(self.slabs@[index as int].partial_free.linked(*memory));
        }
        let batch = self.slabs[index].take_partial_batch(max, memory);
        self.recent_slab = Some(index);
        self.slabs[index].last_touched_epoch = epoch;
        let ghost middle = *self;
        proof {
            self.links_after_change(*old(self), index as int);
        }
        self.reconcile_bucket_state(index, SlabState::Partial);
        proof {
            broadcast use vstd::multiset::group_multiset_axioms;

            let none = Multiset::<usize>::empty();
            assert(old(self).slabs@[index as int].held().add(none)
                =~= middle.slabs@[index as int].held().add(batch.held()));
            assert(old(self).held().add(none) =~= old(self).held());
            self.wf_after_move(middle, *old(self), index as int, batch.held(), none);
            let free = old(self).slabs@[index as int].partial_free@;
            assert(batch@ =~= top_of(free, max as int));
            assert(self.slabs@[index as int].same_record(middle.slabs@[index as int]));
            assert(middle.slabs@[index as int].partial_free@ =~= free.take(
                free.len() - batch@.len(),
            ));
            self.others_are_kept(middle, *old(self), index as int);
            header::changes_touch(*memory, *old(memory), none, batch.held(), batch.held());
            assert forall|block: usize| #[trigger] batch.held().count(
                block,
            ) > 0 implies old(self).slabs@[index as int].held().count(block) > 0 by {
            }
            old(self).other_lists_are_apart(batch.held(), index as int);
            old(self).chains_are_kept(*memory, *old(memory), batch.held(), index as int);
            assert forall|class: SizeClass|
                #![trigger self.primed(*memory, class)]
                #![trigger old(self).primed(*old(memory), class)]
                old(self).primed(*old(memory), class) implies self.primed(*memory, class)
                && forall|block: usize| #[trigger]
                batch.held().count(block) > 0 ==> header::prepared(*memory, block as int, class) by {
                old(self).primed_is_relinked(*memory, *old(memory), batch.held(), class);
                assert(old(self).primed(*memory, class));
                assert forall|block: usize| #[trigger] batch.held().count(
                    block,
                ) > 0 implies header::prepared(*memory, block as int, class) by {
                    assert(old(self).slabs@[index as int].partial_free.held().count(block) > 0);
                }
            }
        }
        batch
    }

    /// Blocks that the pool does not hold stand in none of its lists.
    proof fn lists_are_apart(self, blocks: Multiset<usize>)
        requires
            self.wf(),
            blocks::distinct(self.held().add(blocks)),
        ensures
            forall|block: usize| #[trigger]
                blocks.count(block) > 0 ==> self.inbox.held().count(block) == 0,
            forall|other: int, block: usize|
                0 <= other < self.slabs@.len() && blocks.count(block) > 0
                    ==> #[trigger] self.slabs@[other].partial_free.held().count(block) == 0,
    {
        broadcast use vstd::multiset::group_multiset_axioms;

        self.held_facts();
        assert forall|block: usize| #[trigger] blocks.count(block) > 0 implies self.held().count(
            block,
        ) == 0 by {
            assert(self.held().add(blocks).count(block) <= 1);
        }
        assert forall|other: int, block: usize|
            0 <= other < self.slabs@.len() && blocks.count(
                block,
            ) > 0 implies #[trigger] self.slabs@[other].partial_free.held().count(block) == 0 by {
            assert(self.slabs@[other].wf());
            assert(self.slabs@[other].held().count(block) <= self.held().count(block));
            if self.slabs@[other].full() {
                blocks::blocks_of(self.slabs@[other].partial_free@);
            }
        }
        assert forall|block: usize| #[trigger] blocks.count(block) > 0 implies self.inbox.held().count(
            block,
        ) == 0 by {
            assert(self.inbox.held().count(block) <= self.held().count(block));
        }
    }

    /// Blocks that one slab holds stand in no other list.
    proof fn other_lists_are_apart(self, held: Multiset<usize>, index: int)
        requires
            self.wf(),
            0 <= index < self.slabs@.len(),
            forall|block: usize| #[trigger]
                held.count(block) > 0 ==> self.slabs@[index].held().count(block) > 0,
        ensures
            forall|block: usize| #[trigger]
                held.count(block) > 0 ==> self.inbox.held().count(block) == 0,
            forall|other: int, block: usize|
                0 <= other < self.slabs@.len() && other != index && held.count(block) > 0
                    ==> #[trigger] self.slabs@[other].partial_free.held().count(block) == 0,
    {
        broadcast use vstd::multiset::group_multiset_axioms;

        records_held_has(self.slabs@, index);
        assert(self.slabs@[index].wf());
        self.slabs@[index].held_facts();
        assert forall|block: usize| #[trigger] held.count(block) > 0 implies self.inbox.held().count(
            block,
        ) == 0 by {
            assert(self.slabs@[index].held().count(block) > 0);
            assert(self.held().count(block) <= 1);
        }
        assert forall|other: int, block: usize|
            0 <= other < self.slabs@.len() && other != index && held.count(
                block,
            ) > 0 implies #[trigger] self.slabs@[other].partial_free.held().count(block) == 0 by {
            self.block_is_in_one_slab(block, index, other);
        }
    }

    /// A block of one slab stands in no list of another.
    proof fn block_is_in_one_slab(self, block: usize, index: int, other: int)
        requires
            self.wf(),
            0 <= index < self.slabs@.len(),
            0 <= other < self.slabs@.len(),
            other != index,
            self.slabs@[index].region().has(block as int),
        ensures
            self.slabs@[other].partial_free.held().count(block) == 0,
    {
        assert(self.slabs@[other].wf());
        if other < index {
            assert(self.slabs@[other].region().end() <= self.slabs@[index].region().start);
        } else {
            assert(self.slabs@[index].region().end() <= self.slabs@[other].region().start);
        }
    }

    /// Takes blocks out of the pool: up to `max` of the slab of which blocks came back last,
    /// or else all blocks of the slab that became full last, slabs whose pages were given
    /// back coming after the others.
    #[must_use]
    #[verifier::rlimit(40)]
    pub fn take_refill(&mut self, max: usize, memory: &mut Memory) -> (refill: CentralRefill)
        requires
            old(self).wf(),
            old(self).epoch < u64::MAX,
            old(memory).wf(),
            old(self).chained(*old(memory)),
        ensures
            final(self).chained(*final(memory)),
            refill matches CentralRefill::Batch(batch) ==> batch.linked(*final(memory)),
            final(memory).wf(),
            header::changes(*final(memory), *old(memory), Multiset::empty(), refill.held()),
            refill !is Batch ==> *final(memory) == *old(memory),
            final(self).wf(),
            final(self).same_slabs(*old(self)),
            final(self).inbox == old(self).inbox,
            final(self).page_size == old(self).page_size,
            refill_is(*old(self), max as int, refill),
            final(self).left_by_refill(*old(self), max as int),
            old(self).held() == final(self).held().add(refill.held()),
            max == 0 ==> *final(self) == *old(self),
            max > 0 ==> final(self).epoch == old(self).epoch + 1,
            forall|class: SizeClass| #[trigger]
                old(self).primed(*old(memory), class) ==> final(self).primed(*final(memory), class)
                    && (refill matches CentralRefill::Batch(batch) ==> forall|block: usize| #[trigger]
                    batch.held().count(block) > 0 ==> header::prepared(
                        *final(memory),
                        block as int,
                        class,
                    )),
    {
        proof {
            broadcast use vstd::multiset::group_multiset_axioms;

            let none = Multiset::<usize>::empty();
            assert(self.held() =~= self.held().add(none));
            assert forall|held: Multiset<usize>| #[trigger] header::changes(
                *memory,
                *memory,
                none,
                held,
            ) by {
            }
        }
        if max == 0 {
            return CentralRefill::Empty;
        }
        let epoch: u64 = self.bump_epoch();
        let ghost bumped = *self;
        proof {
            self.contents_are_kept(*old(self));
        }
        if self.partial_slabs.len() > 0 {
            let index: usize = self.partial_slabs[self.partial_slabs.len() - 1];
            proof {
                let last = self.bucket(SlabState::Partial)[self.partial_slabs@.len() - 1] as int;
                assert(self.listed_state(-1, SlabState::Loaned, last) == SlabState::Partial);
                assert(self.slabs@[index as int].wf());
            }
            let batch = self.take_partial(index, epoch, max, memory);
            let ghost middle = *self;
            self.maybe_sweep();
            proof {
                old(self).same_left(bumped, middle, index as int, max as int);
            }
            return CentralRefill::Batch(batch);
        }
        if self.full_hot_slabs.len() > 0 {
            let index: usize = self.full_hot_slabs[self.full_hot_slabs.len() - 1];
            proof {
                let last = self.bucket(SlabState::FullHot)[self.full_hot_slabs@.len() - 1] as int;
                assert(self.listed_state(-1, SlabState::Loaned, last) == SlabState::FullHot);
            }
            let refill = self.loan_whole_slab(index, epoch);
            let ghost middle = *self;
            self.maybe_sweep();
            proof {
                assert(middle.left_by_slab(bumped, index as int, epoch, max as int));
                old(self).same_left(bumped, middle, index as int, max as int);
            }
            return refill;
        }
        if self.full_cold_slabs.len() > 0 {
            let index: usize = self.full_cold_slabs[self.full_cold_slabs.len() - 1];
            proof {
                let last = self.bucket(SlabState::FullCold)[self.full_cold_slabs@.len() - 1] as int;
                assert(self.listed_state(-1, SlabState::Loaned, last) == SlabState::FullCold);
            }
            let refill = self.loan_whole_slab(index, epoch);
            let ghost middle = *self;
            self.maybe_sweep();
            proof {
                assert(middle.left_by_slab(bumped, index as int, epoch, max as int));
                old(self).same_left(bumped, middle, index as int, max as int);
            }
            return refill;
        }
        self.maybe_sweep();
        CentralRefill::Empty
    }

    /// This pool is `before` after `block` went back into its slab, which stands in the list of
    /// its new state.
    pub open spec fn got_back(self, before: Self, block: usize, epoch: u64) -> bool {
        &&& self.slabs@.len() == before.slabs@.len()
        &&& self.epoch == before.epoch
        &&& self.pending_sweeps == before.pending_sweeps
        &&& forall|index: int|
            #![trigger self.slabs@[index]]
            0 <= index < self.slabs@.len() ==> self.slabs@[index].took_one_back(
                before.slabs@[index],
                block,
                epoch,
            )
        &&& exists|index: int|
            0 <= index < before.slabs@.len() && (#[trigger] before.slabs@[index]).region().has(
                block as int,
            ) && self.relisted(before, index, before.slabs@[index].state, self.slabs@[index].state)
                && self.cursor_follows(
                before,
                before.slabs@[index].state,
                self.slabs@[index].state,
            )
    }

    /// This pool is `before` after `blocks`, one by one, went back into their slabs and idle
    /// slabs were looked for.
    pub open spec fn got_all_back(self, before: Self, blocks: Seq<usize>) -> bool {
        exists|states: Seq<Self>| #[trigger]
            is_return(states, before, blocks) && self.swept(states.last())
    }

    /// Puts one block back into its slab.
    fn return_block(&mut self, block: usize, epoch: u64, memory: &mut Memory)
        requires
            old(self).wf(),
            old(self).knows(block),
            old(self).held().count(block) == 0,
            old(self).chained(*old(memory)),
            header::header_fits(*old(memory), block as int),
        ensures
            final(self).chained(*final(memory)),
            final(memory).wf(),
            final(memory).same_outside(*old(memory), block + 24, 8),
            final(self).wf(),
            final(self).same_slabs(*old(self)),
            final(self).held() == old(self).held().insert(block),
            final(self).epoch == old(self).epoch,
            final(self).inbox == old(self).inbox,
            final(self).page_size == old(self).page_size,
            final(self).pending_sweeps == old(self).pending_sweeps,
            forall|index: int|
                #![trigger final(self).slabs@[index]]
                0 <= index < old(self).slabs@.len() ==> final(self).slabs@[index].took_one_back(
                    old(self).slabs@[index],
                    block,
                    epoch,
                ),
            final(self).got_back(*old(self), block, epoch),
            forall|class: SizeClass|
                #![trigger final(self).primed(*final(memory), class)]
                #![trigger old(self).primed(*old(memory), class)]
                old(self).primed(*old(memory), class) && header::prepared(
                    *old(memory),
                    block as int,
                    class,
                ) ==> final(self).primed(*final(memory), class),
    {
        let found: Option<usize> = self.find_slab_index(block);
        let ghost start = *self;
        proof {
            self.contents_are_kept(*old(self));
        }
        if let Some(index) = found {
            proof {
                assert(self.slabs@[index as int].wf());
                self.held_facts();
                assert(self.slabs@[index as int].held().count(block) <= self.held().count(block));
                assert(self.inbox.held().count(block) <= self.held().count(block));
                assert(self.slabs@[index as int].partial_free.linked(*memory));
            }
            self.recent_slab = Some(index);
            self.slabs[index].last_touched_epoch = epoch;
            let previous_state = self.slabs[index].state;
            self.slabs[index].record_returned_block(block, memory);
            let ghost middle = *self;
            proof {
                self.links_after_change(start, index as int);
            }
            self.reconcile_bucket_state(index, previous_state);
            proof {
                broadcast use vstd::multiset::group_multiset_axioms;

                let none = Multiset::<usize>::empty();
                let one = Multiset::singleton(block);
                assert(start.slabs@[index as int].held().add(one)
                    =~= middle.slabs@[index as int].held().add(none));
                assert(start.held().add(one) =~= start.held().insert(block));
                assert forall|other: usize| #[trigger] start.held().add(one).count(other) <= 1 by {
                    assert(start.held().count(other) <= 1);
                }
                self.wf_after_move(middle, start, index as int, none, one);
                assert(self.held() =~= self.held().add(none));
                header::touches_one(*memory, *old(memory), block, block + 24, 8);
                header::changes_link(*memory, *old(memory), block);
                assert forall|other: int, single: usize|
                    0 <= other < start.slabs@.len() && other != index && one.count(
                        single,
                    ) > 0 implies #[trigger] start.slabs@[other].partial_free.held().count(single)
                    == 0 by {
                    start.block_is_in_one_slab(block, index as int, other);
                }
                assert(start.chained(*old(memory)));
                start.chains_are_kept(*memory, *old(memory), one, index as int);
                assert forall|class: SizeClass|
                    #![trigger self.primed(*memory, class)]
                    #![trigger old(self).primed(*old(memory), class)]
                    old(self).primed(*old(memory), class) && header::prepared(
                        *old(memory),
                        block as int,
                        class,
                    ) implies self.primed(*memory, class) by {
                    assert(start.primed(*old(memory), class));
                    start.primed_is_relinked(*memory, *old(memory), one, class);
                    header::header_is_relinked(*memory, *old(memory), none, one, block as int);
                }
                assert forall|at: int|
                    #![trigger self.slabs@[at]]
                    0 <= at < old(self).slabs@.len() implies self.slabs@[at].took_one_back(
                    old(self).slabs@[at],
                    block,
                    epoch,
                ) by {
                    assert(self.slabs@[at].same_record(middle.slabs@[at]));
                    if at != index {
                        assert(start.slabs@[at] == old(self).slabs@[at]);
                        assert(!start.slabs@[at].region().has(block as int)) by {
                            if at < index {
                                assert(start.slabs@[at].region().end()
                                    <= start.slabs@[index as int].region().start);
                            } else {
                                assert(start.slabs@[index as int].region().end()
                                    <= start.slabs@[at].region().start);
                            }
                        }
                    }
                }
                assert(old(self).slabs@[index as int].region().has(block as int));
                assert(self.slabs@[index as int].same_record(middle.slabs@[index as int]));
                assert(self.relisted(
                    *old(self),
                    index as int,
                    old(self).slabs@[index as int].state,
                    self.slabs@[index as int].state,
                ));
            }
        }
    }

    /// Returns a batch of blocks of registered slabs to the pool; each slab takes its own.
    pub fn return_batch(&mut self, batch: Batch, memory: &mut Memory)
        requires
            old(memory).wf(),
            old(self).chained(*old(memory)),
            batch.linked(*old(memory)),
            old(self).wf(),
            old(self).epoch < u64::MAX,
            forall|block: usize| #[trigger] batch.held().count(block) > 0 ==> old(self).knows(block),
            blocks::distinct(old(self).held().add(batch.held())),
        ensures
            final(self).wf(),
            final(self).same_slabs(*old(self)),
            final(self).held() == old(self).held().add(batch.held()),
            final(self).inbox == old(self).inbox,
            final(self).page_size == old(self).page_size,
            batch@.len() == 0 ==> *final(self) == *old(self),
            batch@.len() > 0 ==> final(self).epoch == old(self).epoch + 1,
            batch@.len() > 0 ==> final(self).got_all_back(*old(self), batch@.reverse()),
            forall|index: int|
                #![trigger final(self).slabs@[index]]
                0 <= index < old(self).slabs@.len() ==> final(self).slabs@[index].took_back(
                    old(self).slabs@[index],
                    batch@.reverse(),
                    (old(self).epoch + 1) as u64,
                ),
            final(self).chained(*final(memory)),
            final(memory).wf(),
            header::changes(*final(memory), *old(memory), Multiset::empty(), batch.held()),
            forall|class: SizeClass|
                #![trigger final(self).primed(*final(memory), class)]
                #![trigger old(self).primed(*old(memory), class)]
                old(self).primed(*old(memory), class) && (forall|block: usize| #[trigger]
                    batch.held().count(block) > 0 ==> header::prepared(
                        *old(memory),
                        block as int,
                        class,
                    )) ==> final(self).primed(*final(memory), class),
    {
        proof {
            broadcast use vstd::multiset::group_multiset_axioms;

            blocks::blocks_of(batch@);
            if batch@.len() == 0 {
                assert(batch@ =~= Seq::<usize>::empty());
                assert(batch@.reverse() =~= Seq::<usize>::empty());
                assert(self.held() =~= self.held().add(batch.held()));
            }
            header::changes_nothing(*memory, Multiset::empty(), batch.held());
        }
        if batch.is_empty() {
            return;
        }
        let epoch: u64 = self.bump_epoch();
        proof {
            self.contents_are_kept(*old(self));
        }
        let ghost whole = batch@;
        let mut list = FreeList::new();
        let ghost none = Multiset::<usize>::empty();
        proof {
            broadcast use vstd::multiset::group_multiset_axioms;

            free_list::empty_chain(*memory);
            blocks::blocks_of(list@);
            assert(list.held().add(batch.held()) =~= batch.held());
        }
        list.push_batch(batch, memory);
        proof {
            broadcast use vstd::multiset::group_multiset_axioms;

            header::changes_touch(*memory, *old(memory), none, batch.held(), batch.held());
            self.lists_are_apart(batch.held());
            self.chains_are_kept(*memory, *old(memory), batch.held(), -1);
            assert forall|class: SizeClass| old(self).primed(
                *old(memory),
                class,
            ) implies #[trigger] self.primed(*memory, class) by {
                assert(self.primed(*old(memory), class));
                self.primed_is_relinked(*memory, *old(memory), batch.held(), class);
            }
        }
        let ghost mut done: Seq<usize> = Seq::empty();
        let ghost mut states: Seq<ClassPool> = seq![*self];
        proof {
            broadcast use vstd::multiset::group_multiset_axioms;

            assert(list@ =~= whole);
            assert(done =~= whole.reverse().take(0));
            assert forall|index: int|
                #![trigger self.slabs@[index]]
                0 <= index < old(self).slabs@.len() implies self.slabs@[index].took_back(
                old(self).slabs@[index],
                done,
                epoch,
            ) by {
            }
        }
        while list.len() > 0
            invariant
                is_return(states, *old(self), done),
                states.last() == *self,
                self.wf(),
                self.same_slabs(*old(self)),
                self.inbox == old(self).inbox,
                self.page_size == old(self).page_size,
                self.epoch == epoch,
                epoch == old(self).epoch + 1,
                whole == batch@,
                list@.len() <= whole.len(),
                list@ == whole.take(list@.len() as int),
                done == whole.reverse().take(whole.len() - list@.len()),
                self.held().add(list.held()) == old(self).held().add(batch.held()),
                blocks::distinct(old(self).held().add(batch.held())),
                forall|block: usize| #[trigger]
                    batch.held().count(block) > 0 ==> old(self).knows(block),
                forall|index: int|
                    #![trigger self.slabs@[index]]
                    0 <= index < old(self).slabs@.len() ==> self.slabs@[index].took_back(
                        old(self).slabs@[index],
                        done,
                        epoch,
                    ),
                none == Multiset::<usize>::empty(),
                memory.wf(),
                self.chained(*memory),
                list.linked(*memory),
                header::headers_fit(*memory, batch.held()),
                header::changes(*memory, *old(memory), none, batch.held()),
                forall|class: SizeClass|
                    #![trigger self.primed(*memory, class)]
                    #![trigger old(self).primed(*old(memory), class)]
                    old(self).primed(*old(memory), class) && (forall|block: usize| #[trigger]
                        batch.held().count(block) > 0 ==> header::prepared(
                            *old(memory),
                            block as int,
                            class,
                        )) ==> self.primed(*memory, class),
            decreases list@.len(),
        {
            let ghost before = *self;
            let ghost listed = list;
            let ghost earlier = *memory;
            let block: usize = list.pop_block_unchecked(memory);
            proof {
                broadcast use vstd::multiset::group_multiset_axioms;

                blocks::blocks_of(whole);
                assert(whole[listed@.len() - 1] == block);
                assert(batch.held().count(block) > 0);
                self.slabs_are_kept(*old(self));
                assert(old(self).held().add(batch.held()).count(block) <= 1);
                assert(listed.held().count(block) > 0);
                assert(self.held().add(listed.held()).count(block) <= 1);
            }
            self.return_block(block, epoch, memory);
            proof {
                broadcast use vstd::multiset::group_multiset_axioms;

                header::relinks_one(*old(memory), earlier, *memory, none, batch.held(), block);
                header::changes_widen(
                    *memory,
                    *old(memory),
                    none,
                    batch.held().insert(block),
                    none,
                    batch.held(),
                );
                assert(list.held().count(block) == 0) by {
                    assert(self.held().add(list.held()).count(block) <= 1) by {
                        assert(before.held().add(listed.held()).count(block) <= 1);
                    }
                }
                free_list::chain_is_spared(list@, *memory, earlier, block);
                assert forall|class: SizeClass|
                    #![trigger self.primed(*memory, class)]
                    #![trigger old(self).primed(*old(memory), class)]
                    old(self).primed(*old(memory), class) && (forall|single: usize| #[trigger]
                        batch.held().count(single) > 0 ==> header::prepared(
                            *old(memory),
                            single as int,
                            class,
                        )) implies self.primed(*memory, class) by {
                    assert(before.primed(earlier, class));
                    header::header_is_relinked(
                        earlier,
                        *old(memory),
                        none,
                        batch.held(),
                        block as int,
                    );
                }

                let more = done.push(block);
                assert(more =~= whole.reverse().take(whole.len() - list@.len()));
                assert(list@ =~= whole.take(list@.len() as int));
                assert(self.held().add(list.held()) =~= before.held().add(listed.held()));
                assert(more.drop_last() =~= done);
                assert forall|index: int|
                    #![trigger self.slabs@[index]]
                    0 <= index < old(self).slabs@.len() implies self.slabs@[index].took_back(
                    old(self).slabs@[index],
                    more,
                    epoch,
                ) by {
                    assert(before.slabs@[index].took_back(old(self).slabs@[index], done, epoch));
                    assert(self.slabs@[index].took_one_back(before.slabs@[index], block, epoch));
                    assert(before.slabs@[index].wf());
                    self.slabs@[index].one_more_back(
                        before.slabs@[index],
                        old(self).slabs@[index],
                        done,
                        block,
                        epoch,
                    );
                }
                let longer = states.push(*self);
                assert forall|at: int| 0 < at < longer.len() implies (
                #[trigger] longer[at]).got_back(longer[at - 1], more[at - 1], epoch) by {
                    if at < states.len() {
                        assert(states[at].got_back(states[at - 1], done[at - 1], epoch));
                    }
                }
                states = longer;
                done = more;
            }
        }
        proof {
            broadcast use vstd::multiset::group_multiset_axioms;

            blocks::blocks_of(list@);
            assert(self.held() =~= self.held().add(list.held()));
            assert(done =~= whole.reverse());
            assert(is_return(states, *old(self), batch@.reverse()));
        }
        self.maybe_sweep();
    }

    /// This pool is `before` after the blocks of its inbox went back into their slabs.
    pub open spec fn emptied_inbox(self, before: Self) -> bool {
        exists|emptied: Self|
            emptied == (ClassPool { inbox: emptied.inbox, ..before }) && emptied.inbox@.len() == 0
                && #[trigger] self.got_all_back(emptied, before.inbox@.reverse())
    }

    /// Accepts blocks freed by caches that do not own them; their slabs are found later.
    pub fn publish_remote_batch(&mut self, batch: Batch, memory: &mut Memory)
        requires
            old(memory).wf(),
            old(self).chained(*old(memory)),
            batch.linked(*old(memory)),
            old(self).wf(),
            forall|block: usize| #[trigger] batch.held().count(block) > 0 ==> old(self).knows(block),
            blocks::distinct(old(self).held().add(batch.held())),
        ensures
            final(self).wf(),
            final(self).same_slabs(*old(self)),
            *final(self) == (ClassPool { inbox: final(self).inbox, ..*old(self) }),
            final(self).inbox@ == old(self).inbox@ + batch@,
            final(self).held() == old(self).held().add(batch.held()),
            final(self).chained(*final(memory)),
            final(memory).wf(),
            header::changes(*final(memory), *old(memory), Multiset::empty(), batch.held()),
            forall|class: SizeClass|
                #![trigger final(self).primed(*final(memory), class)]
                #![trigger old(self).primed(*old(memory), class)]
                old(self).primed(*old(memory), class) && (forall|block: usize| #[trigger]
                    batch.held().count(block) > 0 ==> header::prepared(
                        *old(memory),
                        block as int,
                        class,
                    )) ==> final(self).primed(*final(memory), class),
    {
        proof {
            broadcast use vstd::multiset::group_multiset_axioms;

            self.lists_are_apart(batch.held());
            assert forall|block: usize| #[trigger] self.inbox.held().add(batch.held()).count(
                block,
            ) <= 1 by {
                assert(self.held().add(batch.held()).count(block) <= 1);
            }
        }
        self.inbox.push_batch(batch, memory);
        proof {
            broadcast use vstd::multiset::group_multiset_axioms;

            let none = Multiset::<usize>::empty();
            header::changes_touch(*memory, *old(memory), none, batch.held(), batch.held());
            assert(header::headers_fit(*memory, batch.held()));
            old(self).chains_are_kept(*memory, *old(memory), batch.held(), -1);
            assert forall|class: SizeClass|
                #![trigger self.primed(*memory, class)]
                #![trigger old(self).primed(*old(memory), class)]
                old(self).primed(*old(memory), class) && (forall|block: usize| #[trigger]
                    batch.held().count(block) > 0 ==> header::prepared(
                        *old(memory),
                        block as int,
                        class,
                    )) implies self.primed(*memory, class) by {
                old(self).primed_is_relinked(*memory, *old(memory), batch.held(), class);
                assert forall|block: usize| #[trigger] batch.held().count(
                    block,
                ) > 0 implies header::prepared(*memory, block as int, class) by {
                    header::header_is_relinked(
                        *memory,
                        *old(memory),
                        none,
                        batch.held(),
                        block as int,
                    );
                }
            }

            self.slabs_are_kept(*old(self));
            self.links_are_kept(*old(self), -1, SlabState::Loaned);
            assert(self.held() =~= old(self).held().add(batch.held()));
        }
    }

    /// What changes while the inbox is drained, and at the blocks `moved` after it, changes in
    /// link words of blocks of the pool and of `moved`.
    pub proof fn links_are_held(
        self,
        memory: Memory,
        middle: Memory,
        earlier: Memory,
        moved: Multiset<usize>,
    )
        requires
            header::changes(middle, earlier, Multiset::empty(), self.inbox.held()),
            header::changes(memory, middle, Multiset::empty(), moved),
        ensures
            header::changes(memory, earlier, Multiset::empty(), self.held().add(moved)),
            (forall|block: usize| #[trigger]
                moved.count(block) > 0 ==> self.held().count(block) > 0) ==> header::changes(
                memory,
                earlier,
                Multiset::empty(),
                self.held(),
            ),
    {
        broadcast use vstd::multiset::group_multiset_axioms;

        let none = Multiset::<usize>::empty();
        let links = self.inbox.held().add(moved);
        header::changes_compose(
            earlier,
            middle,
            memory,
            none,
            self.inbox.held(),
            none,
            moved,
        );
        header::changes_widen(
            memory,
            earlier,
            none.add(none),
            links,
            none,
            self.held().add(moved),
        );
        if forall|block: usize| #[trigger]
            moved.count(block) > 0 ==> self.held().count(block) > 0 {
            header::changes_widen(memory, earlier, none.add(none), links, none, self.held());
        }
    }

    /// A batch of blocks that the pool does not hold stays as it is while the inbox is drained.
    pub proof fn batch_is_spared(
        self,
        batch: Batch,
        memory: Memory,
        earlier: Memory,
        class: SizeClass,
    )
        requires
            self.wf(),
            self.chained(earlier),
            batch.linked(earlier),
            blocks::distinct(self.held().add(batch.held())),
            memory.wf(),
            header::changes(memory, earlier, Multiset::empty(), self.inbox.held()),
            forall|block: usize| #[trigger]
                batch.held().count(block) > 0 ==> header::prepared(earlier, block as int, class),
        ensures
            batch.linked(memory),
            forall|block: usize| #[trigger]
                batch.held().count(block) > 0 ==> header::prepared(memory, block as int, class),
    {
        broadcast use vstd::multiset::group_multiset_axioms;

        let none = Multiset::<usize>::empty();
        let links = self.inbox.held();
        assert(header::headers_fit(memory, links));
        header::changes_touch(memory, earlier, none, links, links);
        assert forall|block: usize| #[trigger] links.count(block) > 0 implies batch.held().count(
            block,
        ) == 0 by {
            assert(self.held().add(batch.held()).count(block) <= 1);
        }
        free_list::chain_is_kept(batch@, memory, earlier, links);
        assert forall|block: usize| #[trigger] batch.held().count(block) > 0 implies header::prepared(
            memory,
            block as int,
            class,
        ) by {
            header::header_is_relinked(memory, earlier, none, links, block as int);
        }
    }

    /// Puts the blocks of the inbox back into their slabs.
    pub fn drain_inbox(&mut self, memory: &mut Memory)
        requires
            old(self).wf(),
            old(self).epoch < u64::MAX,
            old(memory).wf(),
            old(self).chained(*old(memory)),
        ensures
            final(self).chained(*final(memory)),
            final(memory).wf(),
            header::changes(*final(memory), *old(memory), Multiset::empty(), old(self).inbox.held()),
            old(self).inbox@.len() == 0 ==> *final(memory) == *old(memory),
            forall|class: SizeClass|
                #![trigger final(self).primed(*final(memory), class)]
                #![trigger old(self).primed(*old(memory), class)]
                old(self).primed(*old(memory), class) ==> final(self).primed(*final(memory), class),
            final(self).wf(),
            final(self).same_slabs(*old(self)),
            final(self).held() == old(self).held(),
            final(self).inbox@.len() == 0,
            final(self).page_size == old(self).page_size,
            final(self).epoch == old(self).epoch + if old(self).inbox@.len() == 0 {
                0int
            } else {
                1int
            },
            old(self).inbox@.len() == 0 ==> *final(self) == *old(self),
            old(self).inbox@.len() > 0 ==> final(self).emptied_inbox(*old(self)),
            forall|index: int|
                #![trigger final(self).slabs@[index]]
                0 <= index < old(self).slabs@.len() ==> final(self).slabs@[index].took_back(
                    old(self).slabs@[index],
                    old(self).inbox@.reverse(),
                    (old(self).epoch + 1) as u64,
                ),
    {
        let length: usize = self.inbox.len();
        proof {
            header::changes_nothing(*memory, Multiset::empty(), self.inbox.held());
        }
        if length == 0 {
            proof {
                assert(self.inbox@.reverse() =~= Seq::<usize>::empty());
            }
            return;
        }
        let batch = self.inbox.pop_batch(length, memory);
        let ghost emptied = *self;
        let ghost middle = *memory;
        let ghost none = Multiset::<usize>::empty();
        proof {
            broadcast use vstd::multiset::group_multiset_axioms;

            assert(self.inbox@.len() == 0);
            assert(batch@ =~= old(self).inbox@);
            blocks::blocks_of(self.inbox@);
            self.slabs_are_kept(*old(self));
            self.links_are_kept(*old(self), -1, SlabState::Loaned);
            assert(self.held().add(batch.held()) =~= old(self).held());
            assert forall|block: usize| #[trigger] self.held().count(block) <= 1 by {
                assert(old(self).held().count(block) <= 1);
            }
            assert(batch.held() == old(self).inbox.held());
            header::changes_touch(middle, *old(memory), none, batch.held(), batch.held());
            assert forall|block: usize| #[trigger] self.held().add(batch.held()).count(
                block,
            ) <= 1 by {
                assert(old(self).held().count(block) <= 1);
            }
            self.lists_are_apart(batch.held());
            free_list::empty_chain(*old(memory));
            assert(self.inbox@ =~= Seq::<usize>::empty());
            assert(self.chained(*old(memory)));
            self.chains_are_kept(middle, *old(memory), batch.held(), -1);
            assert forall|class: SizeClass| old(self).primed(
                *old(memory),
                class,
            ) implies #[trigger] self.primed(middle, class) && forall|block: usize| #[trigger]
                batch.held().count(block) > 0 ==> header::prepared(middle, block as int, class) by {
                old(self).primed_is_relinked(middle, *old(memory), batch.held(), class);
                assert(old(self).primed(middle, class));
                assert(self.primed(middle, class));
            }
        }
        self.return_batch(batch, memory);
        proof {
            broadcast use vstd::multiset::group_multiset_axioms;

            header::changes_compose(
                *old(memory),
                middle,
                *memory,
                none,
                batch.held(),
                none,
                batch.held(),
            );
            header::changes_widen(
                *memory,
                *old(memory),
                none.add(none),
                batch.held().add(batch.held()),
                none,
                batch.held(),
            );
            assert forall|class: SizeClass|
                #![trigger self.primed(*memory, class)]
                #![trigger old(self).primed(*old(memory), class)]
                old(self).primed(*old(memory), class) implies self.primed(*memory, class) by {
                assert(emptied.primed(middle, class));
            }
        }
    }

    /// Adds one to all positions that an insertion at `inserted_index` moved.
    fn shift_indices_for_insert(&mut self, inserted_index: usize)
        requires
            forall|listed: SlabState, slot: int|
                0 <= slot < old(self).bucket(listed).len() ==> #[trigger] old(self).bucket(
                    listed,
                )[slot] < usize::MAX,
            old(self).recent_slab matches Some(recent) ==> recent < usize::MAX,
            old(self).cursor_fits(),
        ensures
            final(self).sweep_cursor == old(self).sweep_cursor,
            *final(self) == (ClassPool {
                partial_slabs: final(self).partial_slabs,
                full_hot_slabs: final(self).full_hot_slabs,
                full_cold_slabs: final(self).full_cold_slabs,
                recent_slab: final(self).recent_slab,
                sweep_cursor: final(self).sweep_cursor,
                ..*old(self)
            }),
            final(self).cursor_fits(),
            final(self).shifted(*old(self), inserted_index),
            final(self).recent_slab == match old(self).recent_slab {
                Some(recent) => Some(moved_position(recent, inserted_index)),
                None => None,
            },
    {
        proof {
            assert forall|slot: int| 0 <= slot < self.partial_slabs@.len() implies #[trigger] self.partial_slabs@[slot]
                < usize::MAX by {
                assert(self.bucket(SlabState::Partial)[slot] < usize::MAX);
            }
            assert forall|slot: int| 0 <= slot < self.full_hot_slabs@.len() implies #[trigger] self.full_hot_slabs@[slot]
                < usize::MAX by {
                assert(self.bucket(SlabState::FullHot)[slot] < usize::MAX);
            }
            assert forall|slot: int| 0 <= slot < self.full_cold_slabs@.len() implies #[trigger] self.full_cold_slabs@[slot]
                < usize::MAX by {
                assert(self.bucket(SlabState::FullCold)[slot] < usize::MAX);
            }
        }
        shift_positions(&mut self.partial_slabs, inserted_index);
        shift_positions(&mut self.full_hot_slabs, inserted_index);
        shift_positions(&mut self.full_cold_slabs, inserted_index);
        if let Some(recent) = self.recent_slab {
            if recent >= inserted_index {
                self.recent_slab = Some(recent + 1);
            }
        }
        self.normalize_sweep_cursor();
        proof {
            fitting_cursor_stays(old(self).sweep_cursor, self.full_hot_slabs.len() as int);
        }
    }

    /// All listed positions are those of `other` after an insertion at `inserted`.
    pub open spec fn shifted(self, other: Self, inserted: usize) -> bool {
        &&& forall|listed: SlabState| #[trigger]
            self.bucket(listed).len() == other.bucket(listed).len()
        &&& forall|listed: SlabState, slot: int|
            0 <= slot < self.bucket(listed).len() ==> #[trigger] self.bucket(listed)[slot]
                == moved_position(other.bucket(listed)[slot], inserted)
    }

    /// The record at `place` says that all blocks of the slab at `region` were taken just
    /// now, and all others are those of `before`.
    pub open spec fn recorded(self, before: Self, place: int, region: Region) -> bool {
        &&& 0 <= place < self.slabs@.len()
        &&& self.slabs@[place].region() == region
        &&& self.slabs@[place].state == SlabState::Loaned
        &&& self.slabs@[place].last_touched_epoch == self.epoch
        &&& if before.registered(region) {
            &&& self.slabs@.len() == before.slabs@.len()
            &&& forall|index: int|
                0 <= index < self.slabs@.len() && index != place ==> #[trigger] self.slabs@[index]
                    == before.slabs@[index]
            &&& self.partial_slabs@ == before.partial_slabs@
            &&& self.full_hot_slabs@ == before.full_hot_slabs@
            &&& self.full_cold_slabs@ == before.full_cold_slabs@
        } else {
            &&& self.slabs@.remove(place) == before.slabs@
            &&& self.shifted(before, place as usize)
        }
    }

    /// Records a slab all of whose blocks a thread cache took.
    pub fn register_slab(&mut self, start: usize, block_size: usize, capacity: usize)
        requires
            old(self).wf(),
            old(self).epoch < u64::MAX,
            class_cache::slab_region(start, block_size, capacity).valid(),
            forall|index: int|
                0 <= index < old(self).slabs@.len() ==> ((#[trigger] old(self).slabs@[index]).region() == class_cache::slab_region(start, block_size, capacity)
                    && old(self).slabs@[index].state == SlabState::Loaned) || old(self).slabs@[index].region().apart(
                    class_cache::slab_region(start, block_size, capacity),
                ),
        ensures
            final(self).wf(),
            final(self).held() == old(self).held(),
            final(self).epoch == old(self).epoch + 1,
            final(self).inbox == old(self).inbox,
            final(self).page_size == old(self).page_size,
            exists|place: int| #[trigger]
                final(self).recorded(
                    *old(self),
                    place,
                    class_cache::slab_region(start, block_size, capacity),
                ),
            exists|middle: ClassPool| #[trigger]
                final(self).swept(middle) && middle.sweep_cursor == old(self).sweep_cursor
                    && middle.pending_sweeps == old(self).pending_sweeps && middle.epoch == old(self).epoch + 1,
            forall|region: Region| #[trigger]
                final(self).registered(region) <==> old(self).registered(region) || region
                    == class_cache::slab_region(start, block_size, capacity),
            final(self).slabs@.len() == if old(self).registered(
                class_cache::slab_region(start, block_size, capacity),
            ) {
                old(self).slabs@.len()
            } else {
                old(self).slabs@.len() + 1
            },
            forall|memory: Memory, class: SizeClass|
                #![trigger final(self).ready(memory, class)]
                #![trigger old(self).ready(memory, class)]
                old(self).ready(memory, class) ==> final(self).ready(memory, class),
    {
        let ghost region = class_cache::slab_region(start, block_size, capacity);
        let epoch: u64 = self.bump_epoch();
        let ghost bumped = *self;
        proof {
            self.contents_are_kept(*old(self));
            self.slabs_are_kept(*old(self));
        }
        self.record_slab(start, block_size, capacity, epoch);
        let ghost middle = *self;
        self.maybe_sweep();
        proof {
            self.slabs_are_kept(middle);
            let place = choose|place: int| #[trigger] middle.recorded(bumped, place, region);
            self.record_is_kept(middle, bumped, *old(self), place, region);
            assert forall|memory: Memory, class: SizeClass|
                #![trigger self.ready(memory, class)]
                #![trigger old(self).ready(memory, class)]
                old(self).ready(memory, class) implies self.ready(memory, class) by {
                assert(bumped.chained(memory));
                assert(bumped.primed(memory, class));
                assert(bumped.ready(memory, class));
                assert(middle.ready(memory, class));
                assert(self.chained(memory) == middle.chained(memory));
            }
        }
    }

    /// Makes the record of a slab all of whose blocks a thread cache took, or finds it.
    fn record_slab(&mut self, start: usize, block_size: usize, capacity: usize, epoch: u64)
        requires
            old(self).wf(),
            old(self).epoch == epoch,
            class_cache::slab_region(start, block_size, capacity).valid(),
            forall|index: int|
                0 <= index < old(self).slabs@.len() ==> ((#[trigger] old(self).slabs@[index]).region() == class_cache::slab_region(start, block_size, capacity)
                    && old(self).slabs@[index].state == SlabState::Loaned) || old(self).slabs@[index].region().apart(
                    class_cache::slab_region(start, block_size, capacity),
                ),
        ensures
            final(self).wf(),
            final(self).held() == old(self).held(),
            final(self).epoch == epoch,
            final(self).inbox == old(self).inbox,
            final(self).page_size == old(self).page_size,
            final(self).sweep_cursor == old(self).sweep_cursor,
            final(self).pending_sweeps == old(self).pending_sweeps,
            exists|place: int| #[trigger]
                final(self).recorded(
                    *old(self),
                    place,
                    class_cache::slab_region(start, block_size, capacity),
                ),
            forall|region: Region| #[trigger]
                final(self).registered(region) <==> old(self).registered(region) || region
                    == class_cache::slab_region(start, block_size, capacity),
            forall|memory: Memory, class: SizeClass|
                #![trigger final(self).ready(memory, class)]
                #![trigger old(self).ready(memory, class)]
                old(self).ready(memory, class) ==> final(self).ready(memory, class),
    {
        let ghost region = class_cache::slab_region(start, block_size, capacity);
        let ghost bumped = *self;
        proof {
            region.block_is_inside(0);
        }
        let count: usize = self.slabs_not_above(start);
        let ghost mut place: int = count as int;
        if count > 0 && self.slabs[count - 1].start == start {
            let index: usize = count - 1;
            proof {
                assert(self.slabs@[index as int].wf());
                self.slabs@[index as int].region().block_is_inside(0);
                assert(self.slabs@[index as int].region() == region);
                place = index as int;
            }
            self.recent_slab = Some(index);
            proof {
                self.contents_are_kept(bumped);
            }
            self.touch_slab(index, epoch);
            proof {
                self.slabs_are_kept(bumped);
                assert(bumped.registered(region));
                assert(self.recorded(bumped, place, region));
            }
        } else {
            proof {
                assert forall|index: int| 0 <= index < self.slabs@.len() implies (
                #[trigger] self.slabs@[index]).region().apart(region) by {
                    if self.slabs@[index].region() == region {
                        assert(index < count);
                        assert(index < count - 1);
                        assert(self.slabs@[index].region().end() <= self.slabs@[count
                            - 1].region().start);
                    }
                }
            }
            let slab = SlabRecord::new(start, block_size, capacity, epoch);
            self.insert_slab(count, slab);
            proof {
                assert(!bumped.registered(region)) by {
                    if bumped.registered(region) {
                        let index = choose|index: int|
                            0 <= index < bumped.slabs@.len() && (
                            #[trigger] bumped.slabs@[index]).region() == region;
                        assert(bumped.slabs@[index].region().apart(region));
                    }
                }
                assert(self.slabs@.remove(place) =~= bumped.slabs@);
                assert(self.recorded(bumped, place, region));
            }
        }
    }

    /// Looking for idle slabs keeps a record made before it.
    proof fn record_is_kept(
        self,
        middle: Self,
        bumped: Self,
        before: Self,
        place: int,
        region: Region,
    )
        requires
            bumped == (ClassPool { epoch: bumped.epoch, ..before }),
            middle.recorded(bumped, place, region),
            self.swept(middle),
        ensures
            self.recorded(before, place, region),
    {
        assert(bumped.registered(region) == before.registered(region));
        if !before.registered(region) {
            assert forall|listed: SlabState| #[trigger] self.bucket(listed).len() == before.bucket(listed).len() by {
                assert(self.bucket(listed) == middle.bucket(listed));
                assert(bumped.bucket(listed) == before.bucket(listed));
            }
            assert forall|listed: SlabState, slot: int| 0 <= slot < self.bucket(
                listed,
            ).len() implies #[trigger] self.bucket(listed)[slot] == moved_position(
                before.bucket(listed)[slot],
                place as usize,
            ) by {
                assert(self.bucket(listed) == middle.bucket(listed));
                assert(bumped.bucket(listed) == before.bucket(listed));
            }
        }
    }

    /// Notes that the slab at `index` was used in `epoch`.
    fn touch_slab(&mut self, index: usize, epoch: u64)
        requires
            old(self).wf(),
            index < old(self).slabs@.len(),
        ensures
            final(self).wf(),
            final(self).same_slabs(*old(self)),
            final(self).held() == old(self).held(),
            final(self).slabs@ == old(self).slabs@.update(
                index as int,
                SlabRecord { last_touched_epoch: epoch, ..old(self).slabs@[index as int] },
            ),
            *final(self) == (ClassPool { slabs: final(self).slabs, ..*old(self) }),
            forall|memory: Memory, class: SizeClass|
                #![trigger final(self).ready(memory, class)]
                #![trigger old(self).ready(memory, class)]
                old(self).ready(memory, class) ==> final(self).ready(memory, class),
    {
        proof {
            assert(self.slabs@[index as int].wf());
        }
        self.slabs[index].last_touched_epoch = epoch;
        proof {
            broadcast use vstd::multiset::group_multiset_axioms;

            let none = Multiset::<usize>::empty();
            self.links_after_change(*old(self), index as int);
            self.linked_own_state(index as int);
            assert(old(self).held().add(none) =~= old(self).held());
            self.wf_after_move(*self, *old(self), index as int, none, none);
            assert(self.held().add(none) =~= self.held());
        }
    }

    /// Puts the record of a new slab in its place.
    fn insert_slab(&mut self, place: usize, slab: SlabRecord)
        requires
            old(self).wf(),
            place <= old(self).slabs@.len(),
            slab.wf(),
            slab.state == SlabState::Loaned,
            slab.bucket_slot is None,
            slab.held() == Multiset::<usize>::empty(),
            forall|index: int|
                0 <= index < old(self).slabs@.len() ==> (#[trigger] old(self).slabs@[index]).region().apart(slab.region()),
            forall|index: int|
                0 <= index < place ==> (#[trigger] old(self).slabs@[index]).start <= slab.start,
            forall|index: int|
                place <= index < old(self).slabs@.len() ==> (#[trigger] old(self).slabs@[index]).start > slab.start,
        ensures
            final(self).wf(),
            final(self).held() == old(self).held(),
            final(self).epoch == old(self).epoch,
            final(self).inbox == old(self).inbox,
            final(self).page_size == old(self).page_size,
            final(self).slabs@ == old(self).slabs@.insert(place as int, slab),
            final(self).shifted(*old(self), place),
            final(self).sweep_cursor == old(self).sweep_cursor,
            final(self).pending_sweeps == old(self).pending_sweeps,
            forall|region: Region| #[trigger]
                final(self).registered(region) <==> old(self).registered(region) || region
                    == slab.region(),
            forall|memory: Memory, class: SizeClass|
                #![trigger final(self).ready(memory, class)]
                #![trigger old(self).ready(memory, class)]
                old(self).ready(memory, class) ==> final(self).ready(memory, class),
    {
        self.slabs.insert(place, slab);
        proof {
            assert(self.slabs@.len() == self.slabs.len());
            assert forall|listed: SlabState, slot: int| 0 <= slot < self.bucket(
                listed,
            ).len() implies #[trigger] self.bucket(listed)[slot] < usize::MAX by {
                assert(self.bucket(listed)[slot] == old(self).bucket(listed)[slot]);
            }
        }
        let ghost grown = *self;
        self.shift_indices_for_insert(place);
        let ghost moved = *self;
        self.recent_slab = Some(place);
        proof {
            assert(self.shifted(*old(self), place)) by {
                assert forall|listed: SlabState| #[trigger] self.bucket(listed).len() == old(self).bucket(listed).len() by {
                    assert(grown.bucket(listed) == old(self).bucket(listed));
                    assert(self.bucket(listed) == moved.bucket(listed));
                }
                assert forall|listed: SlabState, slot: int| 0 <= slot < self.bucket(
                    listed,
                ).len() implies #[trigger] self.bucket(listed)[slot] == moved_position(
                    old(self).bucket(listed)[slot],
                    place,
                ) by {
                    assert(grown.bucket(listed) == old(self).bucket(listed));
                    assert(self.bucket(listed) == moved.bucket(listed));
                }
            }
            self.inserted(*old(self), place as int, slab);
            assert forall|other: Region| #[trigger] self.registered(other) <==> old(self).registered(other) || other == slab.region() by {
                self.registered_after_insert(*old(self), place as int, slab, other);
            }
        }
    }

    proof fn registered_after_insert(
        self,
        before: Self,
        place: int,
        slab: SlabRecord,
        region: Region,
    )
        requires
            0 <= place <= before.slabs@.len(),
            self.slabs@ == before.slabs@.insert(place, slab),
        ensures
            self.registered(region) <==> before.registered(region) || region == slab.region(),
    {
        assert(self.slabs@[place] == slab);
        if before.registered(region) {
            let index = choose|index: int|
                0 <= index < before.slabs@.len() && (#[trigger] before.slabs@[index]).region()
                    == region;
            if index < place {
                assert(self.slabs@[index] == before.slabs@[index]);
            } else {
                assert(self.slabs@[index + 1] == before.slabs@[index]);
            }
        }
        if self.registered(region) {
            let index = choose|index: int|
                0 <= index < self.slabs@.len() && (#[trigger] self.slabs@[index]).region() == region;
            if index < place {
                assert(self.slabs@[index] == before.slabs@[index]);
            } else if index > place {
                assert(self.slabs@[index] == before.slabs@[index - 1]);
            }
        }
    }

    /// Everything is in order after a new slab was put in its place.
    proof fn inserted(self, before: Self, place: int, slab: SlabRecord)
        requires
            before.wf(),
            0 <= place <= before.slabs@.len(),
            before.slabs@.len() < usize::MAX,
            slab.wf(),
            slab.state == SlabState::Loaned,
            slab.bucket_slot is None,
            slab.held() == Multiset::<usize>::empty(),
            self.slabs@ == before.slabs@.insert(place, slab),
            self.shifted(before, place as usize),
            self.inbox == before.inbox,
            self.page_size == before.page_size,
            self.cursor_fits(),
            self.recent_slab matches Some(index) ==> index < self.slabs@.len(),
            forall|index: int|
                0 <= index < before.slabs@.len() ==> (#[trigger] before.slabs@[index]).region().apart(
                    slab.region(),
                ),
            forall|index: int|
                0 <= index < place ==> (#[trigger] before.slabs@[index]).start <= slab.start,
            forall|index: int|
                place <= index < before.slabs@.len() ==> (#[trigger] before.slabs@[index]).start
                    > slab.start,
        ensures
            self.wf(),
            self.held() == before.held(),
            forall|memory: Memory, class: SizeClass|
                #![trigger self.ready(memory, class)]
                #![trigger before.ready(memory, class)]
                before.ready(memory, class) ==> self.ready(memory, class),
    {
        broadcast use vstd::multiset::group_multiset_axioms;

        records_held_insert(before.slabs@, place, slab);
        assert(self.held() =~= before.held());
        slab.region().block_is_inside(0);
        assert forall|index: int| 0 <= index < self.slabs@.len() implies #[trigger] self.slabs@[index].wf() by {
            if index < place {
                assert(before.slabs@[index].wf());
            } else if index > place {
                assert(before.slabs@[index - 1].wf());
            }
        }
        assert forall|i: int, j: int| 0 <= i < j < self.slabs@.len() implies (
        #[trigger] self.slabs@[i]).region().end() <= (#[trigger] self.slabs@[j]).region().start by {
            let from = if i < place {
                i
            } else {
                i - 1
            };
            let to = if j < place {
                j
            } else {
                j - 1
            };
            if i == place {
                assert(self.slabs@[j] == before.slabs@[to]);
                assert(before.slabs@[to].wf());
                before.slabs@[to].region().block_is_inside(0);
            } else if j == place {
                assert(self.slabs@[i] == before.slabs@[from]);
                assert(before.slabs@[from].wf());
                before.slabs@[from].region().block_is_inside(0);
            } else {
                assert(self.slabs@[i] == before.slabs@[from]);
                assert(self.slabs@[j] == before.slabs@[to]);
            }
        }
        assert forall|block: usize| #[trigger] self.inbox.held().count(block) > 0 implies self.knows(
            block,
        ) by {
            assert(before.knows(block));
            let index = choose|index: int|
                0 <= index < before.slabs@.len() && (#[trigger] before.slabs@[index]).region().has(
                    block as int,
                );
            if index < place {
                assert(self.slabs@[index] == before.slabs@[index]);
            } else {
                assert(self.slabs@[index + 1] == before.slabs@[index]);
            }
        }
        assert(self.linked()) by {
            assert forall|listed: SlabState, slot: int| 0 <= slot < self.bucket(
                listed,
            ).len() implies {
                let other = #[trigger] self.bucket(listed)[slot] as int;
                &&& 0 <= other < self.slabs@.len()
                &&& self.listed_state(-1, SlabState::Loaned, other) == listed
                &&& self.slabs@[other].bucket_slot is Some
                &&& self.slabs@[other].bucket_slot->0 == slot
            } by {
                let at = before.bucket(listed)[slot] as int;
                assert(before.listed_state(-1, SlabState::Loaned, at) == listed);
                assert(self.bucket(listed)[slot] == moved_position(at as usize, place as usize));
            }
            assert forall|other: int|
                #![trigger self.slabs@[other]]
                0 <= other < self.slabs@.len() implies match self.slabs@[other].bucket_slot {
                Some(slot) => {
                    let listed = self.listed_state(-1, SlabState::Loaned, other);
                    listed != SlabState::Loaned && slot < self.bucket(listed).len() && self.bucket(
                        listed,
                    )[slot as int] == other
                },
                None => self.listed_state(-1, SlabState::Loaned, other) == SlabState::Loaned,
            } by {
                if other != place {
                    let at = if other < place {
                        other
                    } else {
                        other - 1
                    };
                    assert(self.slabs@[other] == before.slabs@[at]);
                    assert(before.listed_state(-1, SlabState::Loaned, at)
                        == before.slabs@[at].state);
                }
            }
        }
        assert forall|memory: Memory, class: SizeClass| before.ready(
            memory,
            class,
        ) implies #[trigger] self.ready(memory, class) by {
            assert forall|index: int| 0 <= index < self.slabs@.len() implies (
            #[trigger] self.slabs@[index]).partial_free.linked(memory) by {
                if index < place {
                    assert(before.slabs@[index].partial_free.linked(memory));
                } else if index > place {
                    assert(before.slabs@[index - 1].partial_free.linked(memory));
                } else {
                    free_list::empty_chain(memory);
                    assert(slab.partial_free@ =~= Seq::<usize>::empty());
                }
            }
            assert forall|index: int, block: usize|
                0 <= index < self.slabs@.len()
                    && #[trigger] self.slabs@[index].partial_free.held().count(block)
                    > 0 implies header::prepared(memory, block as int, class) by {
                if index < place {
                    assert(before.slabs@[index].partial_free.held().count(block) > 0);
                } else if index > place {
                    assert(before.slabs@[index - 1].partial_free.held().count(block) > 0);
                } else {
                    assert(slab.held().count(block) > 0);
                }
            }
        }
    }

    /// The pages of the slab at `index` can be given back, and are those of `request`.
    pub open spec fn idle_slab(self, index: int, request: SweepRequest) -> bool {
        let slab = self.slabs@[index];
        &&& 0 <= index < self.slabs@.len()
        &&& slab.start == request.slab_start
        &&& slab.sweepable(self.epoch)
        &&& arena::inner_pages(
            slab.start as int,
            slab.block_size * slab.capacity,
            self.page_size as int,
        ) == Some((request.addr, request.len))
    }

    /// Law: pages are only given back of slabs none of whose blocks is in use: all of them are
    /// in the pool, and for at least four changes of the pool the slab was left alone. The pages
    /// are whole pages inside the slab.
    pub proof fn only_idle_slabs_give_pages_back(self, index: int, request: SweepRequest)
        requires
            self.wf(),
            self.idle_slab(index, request),
        ensures
            self.epoch - self.slabs@[index].last_touched_epoch >= 4,
            forall|block: usize| #[trigger]
                self.slabs@[index].region().has(block as int) ==> self.held().count(block) > 0,
            self.slabs@[index].start <= request.addr,
            request.addr + request.len <= self.slabs@[index].region().end(),
            request.addr as int % self.page_size as int == 0,
            (request.addr + request.len) % self.page_size as int == 0,
    {
        broadcast use vstd::multiset::group_multiset_axioms;

        let slab = self.slabs@[index];
        assert(slab.wf());
        slab.region().tail_counts(0);
        records_held_has(self.slabs@, index);
        assert forall|block: usize| #[trigger] slab.region().has(
            block as int,
        ) implies self.held().count(block) > 0 by {
            assert(slab.region().all().count(block) > 0);
            assert(slab.held().count(block) > 0);
            assert(records_held(self.slabs@).count(block) >= slab.held().count(block));
        }
        arena::inner_pages_are_inside(
            slab.start as int,
            slab.block_size * slab.capacity,
            self.page_size as int,
            (request.addr, request.len),
        );
    }

    /// Law: every 64th change of the pool looks for idle slabs, and at least at the full slab
    /// that is next: if it was left alone for four changes, its whole pages are offered, `page`
    /// with all others. At other changes nothing is offered.
    pub proof fn idle_slabs_are_found(self, before: Self, page: int)
        requires
            before.wf(),
            self.swept(before),
        ensures
            before.epoch % 64 != 0 ==> self.pending_sweeps@ == before.pending_sweeps@,
            before.epoch % 64 == 0 && before.full_hot_slabs@.len() > 0 ==> ({
                let slab = before.slabs@[before.full_hot_slabs@[before.sweep_cursor as int] as int];
                let queue = self.pending_sweeps@;
                before.epoch - slab.last_touched_epoch >= 4 && page % before.page_size as int == 0
                    && slab.start <= page && page + before.page_size <= slab.region().end()
                    ==> queue.len() == before.pending_sweeps@.len() + 1 && queue.drop_last()
                    == before.pending_sweeps@ && queue.last().slab_start == slab.start
                    && queue.last().addr <= page && page + before.page_size <= queue.last().addr
                    + queue.last().len
            }),
    {
        if before.epoch % 64 == 0 && before.full_hot_slabs@.len() > 0 {
            let cursor = before.sweep_cursor as int;
            let index = before.bucket(SlabState::FullHot)[cursor] as int;
            let slab = before.slabs@[index];
            assert(before.listed_state(-1, SlabState::Loaned, index) == SlabState::FullHot);
            assert(slab.wf());
            let length = slab.block_size * slab.capacity;
            if before.epoch - slab.last_touched_epoch >= 4 && page % before.page_size as int == 0
                && slab.start <= page && page + before.page_size <= slab.region().end() {
                arena::every_inner_page_is_picked(
                    slab.start as int,
                    length,
                    before.page_size as int,
                    page,
                );
                assert(before.idle_pages(cursor) is Some);
                assert(self.pending_sweeps@.drop_last() =~= before.pending_sweeps@);
            }
        }
    }

    /// The slab that starts at `slab_start` has no pages to give back.
    pub open spec fn is_busy(self, slab_start: usize) -> bool {
        forall|index: int, request: SweepRequest| #[trigger]
            self.idle_slab(index, request) ==> request.slab_start != slab_start
    }

    /// The pool is `before` after `request` was taken: the first request whose slab is still
    /// idle. Those before it are dropped.
    pub open spec fn handed_over(self, before: Self, request: Option<SweepRequest>) -> bool {
        let pending = before.pending_sweeps@;
        &&& self == (ClassPool { pending_sweeps: self.pending_sweeps, ..before })
        &&& exists|taken: int|
            0 <= taken <= pending.len() && self.pending_sweeps@ == #[trigger] pending.skip(taken)
                && match request {
                Some(request) => {
                    &&& taken > 0
                    &&& pending[taken - 1].slab_start == request.slab_start
                    &&& exists|index: int| #[trigger] before.idle_slab(index, request)
                    &&& before.are_busy(pending.take(taken - 1))
                },
                None => taken == pending.len() && before.are_busy(pending),
            }
    }

    /// No slab that one of `requests` names has pages to give back.
    pub open spec fn are_busy(self, requests: Seq<SweepRequest>) -> bool {
        forall|at: int|
            0 <= at < requests.len() ==> self.is_busy((#[trigger] requests[at]).slab_start)
    }

    /// Returns the pages that the slab at `slab_start` can give back.
    fn idle_request(&self, slab_start: usize) -> (request: Option<SweepRequest>)
        requires
            self.wf(),
        ensures
            request is Some ==> request->0.slab_start == slab_start,
            request is Some ==> exists|index: int| #[trigger] self.idle_slab(index, request->0),
            request is None ==> self.is_busy(slab_start),
    {
        let count: usize = self.slabs_not_above(slab_start);
        proof {
            self.starts_ascend();
        }
        if count == 0 || self.slabs[count - 1].start != slab_start {
            return None;
        }
        let index: usize = count - 1;
        proof {
            assert forall|at: int, other: SweepRequest|
                #[trigger] self.idle_slab(at, other) && other.slab_start == slab_start implies at
                == index by {
                if at < index {
                    assert(self.slabs@[at].start < self.slabs@[index as int].start);
                } else if at > index {
                    assert(self.slabs@[index as int].start < self.slabs@[at].start);
                }
            }
        }
        if !self.slabs[index].is_sweep_candidate(self.epoch) {
            return None;
        }
        let span: usize = self.slabs[index].span_len();
        let pages: Option<(usize, usize)> = arena::page_aligned_inner_range(
            slab_start,
            span,
            self.page_size,
        );
        if pages.is_none() {
            return None;
        }
        let (addr, len) = pages.unwrap();
        let found = SweepRequest { slab_start, addr, len };
        let request = Some(found);
        assert(self.idle_slab(index as int, request->0));
        request
    }

    /// Takes the first request to give back the pages of an idle slab whose slab is still
    /// idle, and drops those before it.
    #[must_use]
    pub fn take_sweep_request(&mut self) -> (request: Option<SweepRequest>)
        requires
            old(self).wf(),
        ensures
            final(self).handed_over(*old(self), request),
            final(self).wf(),
            final(self).held() == old(self).held(),
            forall|memory: Memory, class: SizeClass|
                #![trigger final(self).ready(memory, class)]
                #![trigger old(self).ready(memory, class)]
                final(self).ready(memory, class) == old(self).ready(memory, class),
    {
        let mut found: Option<SweepRequest> = None;
        let mut at: usize = 0;
        while at < self.pending_sweeps.len() && found.is_none()
            invariant
                *self == *old(self),
                self.wf(),
                at <= self.pending_sweeps@.len(),
                forall|earlier: int|
                    0 <= earlier < at - (if found is Some {
                        1int
                    } else {
                        0int
                    }) ==> self.is_busy((#[trigger] self.pending_sweeps@[earlier]).slab_start),
                found matches Some(request) ==> at > 0 && self.pending_sweeps@[at - 1].slab_start
                    == request.slab_start && exists|index: int| #[trigger]
                    self.idle_slab(index, request),
            decreases self.pending_sweeps@.len() - at,
        {
            found = self.idle_request(self.pending_sweeps[at].slab_start);
            at = at + 1;
        }
        let ghost pending = self.pending_sweeps@;
        self.pending_sweeps = self.pending_sweeps.split_off(at);
        proof {
            self.contents_are_kept(*old(self));
            assert(self.pending_sweeps@ =~= pending.skip(at as int));
        }
        found
    }

    /// The pool is `before`, but that the pages of the full slab at `slab_start` were given
    /// back.
    pub open spec fn cooled_down(self, before: Self, slab_start: usize) -> bool {
        &&& self.slabs@.len() == before.slabs@.len()
        &&& forall|index: int|
            #![trigger self.slabs@[index]]
            0 <= index < self.slabs@.len() ==> if before.slabs@[index].start == slab_start {
                &&& self.slabs@[index].same_record(
                    SlabRecord { state: SlabState::FullCold, ..before.slabs@[index] },
                )
                &&& self.relisted(before, index, SlabState::FullHot, SlabState::FullCold)
            } else {
                self.slabs@[index].same_record(before.slabs@[index])
            }
    }

    /// Records that the system took the pages of the slab at `slab_start`. Nothing changes
    /// when that slab is in use again, or was lately.
    pub fn complete_sweep(&mut self, slab_start: usize, advised: bool) -> (cooled: bool)
        requires
            old(self).wf(),
        ensures
            final(self).wf(),
            final(self).same_slabs(*old(self)),
            final(self).held() == old(self).held(),
            final(self).epoch == old(self).epoch,
            final(self).inbox == old(self).inbox,
            final(self).page_size == old(self).page_size,
            cooled == (advised && exists|index: int|
                0 <= index < old(self).slabs@.len() && (#[trigger] old(self).slabs@[index]).start
                    == slab_start && old(self).slabs@[index].sweepable(old(self).epoch)),
            !cooled ==> *final(self) == *old(self),
            cooled ==> final(self).cooled_down(*old(self), slab_start),
            forall|memory: Memory, class: SizeClass|
                #![trigger final(self).ready(memory, class)]
                #![trigger old(self).ready(memory, class)]
                old(self).ready(memory, class) ==> final(self).ready(memory, class),
    {
        if !advised {
            return false;
        }
        let count: usize = self.slabs_not_above(slab_start);
        proof {
            self.starts_ascend();
        }
        if count == 0 || self.slabs[count - 1].start != slab_start {
            return false;
        }
        let index: usize = count - 1;
        if !self.slabs[index].is_sweep_candidate(self.epoch) {
            return false;
        }
        let previous_state = self.slabs[index].state;
        self.slabs[index].state = SlabState::FullCold;
        let ghost middle = *self;
        proof {
            assert(old(self).slabs@[index as int].wf());
            self.links_after_change(*old(self), index as int);
        }
        self.reconcile_bucket_transition(index, previous_state, SlabState::FullCold);
        proof {
            broadcast use vstd::multiset::group_multiset_axioms;

            let none = Multiset::<usize>::empty();
            assert(old(self).held().add(none) =~= old(self).held());
            self.wf_after_move(middle, *old(self), index as int, none, none);
            assert(self.held().add(none) =~= self.held());
            assert forall|at: int|
                #![trigger self.slabs@[at]]
                0 <= at < self.slabs@.len() implies if old(self).slabs@[at].start == slab_start {
                &&& self.slabs@[at].same_record(
                    SlabRecord { state: SlabState::FullCold, ..old(self).slabs@[at] },
                )
                &&& self.relisted(*old(self), at, SlabState::FullHot, SlabState::FullCold)
            } else {
                self.slabs@[at].same_record(old(self).slabs@[at])
            } by {
                assert(self.slabs@[at].same_record(middle.slabs@[at]));
                if at != index {
                    assert(old(self).slabs@[at].start != slab_start);
                }
            }
        }
        true
    }

    /// Headers stay ready when only headers of blocks that the pool does not hold change.
    pub proof fn ready_is_framed(
        self,
        memory: Memory,
        earlier: Memory,
        touched: Multiset<usize>,
        class: SizeClass,
    )
        requires
            self.wf(),
            self.ready(earlier, class),
            header::touches_only(memory, earlier, touched),
            header::headers_fit(memory, self.held()),
            header::headers_fit(memory, touched),
            forall|block: usize| #[trigger]
                touched.count(block) > 0 ==> self.held().count(block) == 0,
        ensures
            self.ready(memory, class),
    {
        self.held_facts();
        assert forall|other: int, block: usize|
            0 <= other < self.slabs@.len() && touched.count(
                block,
            ) > 0 implies #[trigger] self.slabs@[other].partial_free.held().count(block) == 0 by {
            assert(self.slabs@[other].wf());
            assert(self.slabs@[other].held().count(block) <= self.held().count(block));
            if self.slabs@[other].full() {
                blocks::blocks_of(self.slabs@[other].partial_free@);
            }
        }
        assert forall|block: usize| #[trigger] touched.count(block) > 0 implies self.inbox.held().count(
            block,
        ) == 0 by {
            assert(self.inbox.held().count(block) <= self.held().count(block));
        }
        self.chains_are_kept(memory, earlier, touched, -1);
        assert forall|block: usize| self.held().count(block) > 0 && header::prepared(
            earlier,
            block as int,
            class,
        ) implies #[trigger] header::prepared(memory, block as int, class) by {
            assert forall|other: usize| #[trigger] touched.count(other) > 0 implies other + 64
                <= block || block + 64 <= other by {
                header::headers_are_apart(memory, block as int, other as int);
            }
            header::header_is_untouched(memory, earlier, touched, block as int);
        }
        assert forall|index: int, block: usize|
            0 <= index < self.slabs@.len() && #[trigger] self.slabs@[index].partial_free.held().count(
                block,
            ) > 0 implies header::prepared(memory, block as int, class) by {
            assert(self.slabs@[index].wf());
            if self.slabs@[index].full() {
                blocks::blocks_of(self.slabs@[index].partial_free@);
            }
            assert(self.slabs@[index].held().count(block) > 0);
            assert(self.held().count(block) > 0);
        }
        assert forall|block: usize| #[trigger] self.inbox.held().count(block) > 0 implies header::prepared(
            memory,
            block as int,
            class,
        ) by {
            assert(self.held().count(block) > 0);
        }
    }

    /// Law: the pool has a slab to give from exactly when it holds a block that is not in its
    /// inbox.
    pub proof fn nothing_listed_means_empty(self)
        requires
            self.wf(),
            self.inbox@.len() == 0,
        ensures
            self.held().len() == 0 <==> self.partial_slabs@.len() == 0
                && self.full_hot_slabs@.len() == 0 && self.full_cold_slabs@.len() == 0,
    {
        broadcast use vstd::multiset::group_multiset_axioms;

        self.held_facts();
        if self.partial_slabs@.len() == 0 && self.full_hot_slabs@.len() == 0
            && self.full_cold_slabs@.len() == 0 {
            assert(self.held().len() == 0) by {
                if self.held().len() > 0 {
                    blocks::blocks_of(self.inbox@);
                    let block = self.held().choose();
                    assert(self.held().count(block) > 0);
                    let index = records_held_from(self.slabs@, block);
                    assert(self.slabs@[index].wf());
                    blocks::blocks_of(self.slabs@[index].partial_free@);
                    assert(self.listed_state(-1, SlabState::Loaned, index)
                        == self.slabs@[index].state);
                }
            }
        } else {
            let state = if self.partial_slabs@.len() > 0 {
                SlabState::Partial
            } else if self.full_hot_slabs@.len() > 0 {
                SlabState::FullHot
            } else {
                SlabState::FullCold
            };
            let index = self.bucket(state)[0] as int;
            assert(self.listed_state(-1, SlabState::Loaned, index) == state);
            assert(self.slabs@[index].wf());
            self.slabs@[index].held_facts();
            let block = self.slabs@[index].held().choose();
            assert(self.slabs@[index].held().count(block) > 0);
            assert(self.held().count(block) > 0);
        }
    }

    /// The slabs that a refill looks at are in the state they are listed under.
    pub proof fn listed_slabs_are_there(self)
        requires
            self.wf(),
        ensures
            self.partial_slabs@.len() > 0 ==> self.partial_slabs@.last() < self.slabs@.len()
                && self.slabs@[self.partial_slabs@.last() as int].partial_free@.len() > 0,
            self.full_hot_slabs@.len() > 0 ==> self.full_hot_slabs@.last() < self.slabs@.len(),
            self.full_cold_slabs@.len() > 0 ==> self.full_cold_slabs@.last() < self.slabs@.len(),
    {
        if self.partial_slabs@.len() > 0 {
            let index = self.bucket(SlabState::Partial)[self.partial_slabs@.len() - 1] as int;
            assert(self.listed_state(-1, SlabState::Loaned, index) == SlabState::Partial);
            assert(self.slabs@[index].wf());
        }
        if self.full_hot_slabs@.len() > 0 {
            let index = self.bucket(SlabState::FullHot)[self.full_hot_slabs@.len() - 1] as int;
        }
        if self.full_cold_slabs@.len() > 0 {
            let index = self.bucket(SlabState::FullCold)[self.full_cold_slabs@.len() - 1] as int;
        }
    }

    /// Law: a slab whose pages were given back is not offered again, and no other slab changes.
    pub proof fn cooled_slabs_are_left_alone(
        self,
        before: Self,
        slab_start: usize,
        index: int,
        request: SweepRequest,
    )
        requires
            self.cooled_down(before, slab_start),
            self.epoch == before.epoch,
            self.page_size == before.page_size,
        ensures
            self.idle_slab(index, request) <==> before.idle_slab(index, request)
                && request.slab_start != slab_start,
    {
    }

    /// Law: requests are taken in the order in which they were found, each as long as its slab
    /// is idle; none is left out, and none is given out for a slab that is in use again.
    pub proof fn idle_requests_are_taken_in_order(
        self,
        before: Self,
        request: Option<SweepRequest>,
        index: int,
        first: SweepRequest,
    )
        requires
            self.handed_over(before, request),
        ensures
            request matches Some(taken) ==> exists|at: int| #[trigger] before.idle_slab(at, taken),
            before.pending_sweeps@.len() > 0 && before.idle_slab(index, first) && first.slab_start
                == before.pending_sweeps@[0].slab_start ==> self.pending_sweeps@
                == before.pending_sweeps@.skip(1) && (request matches Some(taken)
                && taken.slab_start == first.slab_start),
            before.pending_sweeps@.len() == 0 ==> request is None && self.pending_sweeps@
                == before.pending_sweeps@,
    {
        let pending = before.pending_sweeps@;
        let taken = choose|taken: int|
            0 <= taken <= pending.len() && self.pending_sweeps@ == #[trigger] pending.skip(taken)
                && match request {
                Some(request) => {
                    &&& taken > 0
                    &&& pending[taken - 1].slab_start == request.slab_start
                    &&& exists|index: int| #[trigger] before.idle_slab(index, request)
                    &&& before.are_busy(pending.take(taken - 1))
                },
                None => taken == pending.len() && before.are_busy(pending),
            };
        if pending.len() > 0 && before.idle_slab(index, first) && first.slab_start
            == pending[0].slab_start {
            if request is None {
                assert(before.is_busy(pending[0].slab_start));
            } else if taken > 1 {
                assert(pending.take(taken - 1)[0] == pending[0]);
                assert(before.is_busy(pending[0].slab_start));
            }
        }
        if pending.len() == 0 {
            assert(pending.skip(0) =~= pending);
        }
    }

    /// `drained` is this pool after the blocks of its inbox went back into their slabs.
    pub open spec fn drains_to(self, drained: Self) -> bool {
        &&& self.inbox@.len() > 0 ==> drained.emptied_inbox(self)
        &&& drained.wf()
        &&& drained.same_slabs(self)
        &&& drained.inbox@.len() == 0
        &&& drained.held() == self.held()
        &&& self.inbox@.len() == 0 ==> drained == self
        &&& forall|index: int|
            #![trigger drained.slabs@[index]]
            0 <= index < self.slabs@.len() ==> drained.slabs@[index].took_back(
                self.slabs@[index],
                self.inbox@.reverse(),
                (self.epoch + 1) as u64,
            )
    }

    /// The pool is `before` after the blocks of its inbox, and `batch` after them, went back
    /// into their slabs.
    pub open spec fn took_in(self, before: Self, batch: Seq<usize>) -> bool {
        exists|drained: Self| #[trigger]
            before.drains_to(drained) && (if batch.len() == 0 {
                self == drained
            } else {
                self.got_all_back(drained, batch.reverse())
            }) && forall|index: int|
                #![trigger self.slabs@[index]]
                0 <= index < drained.slabs@.len() ==> self.slabs@[index].took_back(
                    drained.slabs@[index],
                    batch.reverse(),
                    (drained.epoch + 1) as u64,
                )
    }

    /// Law: a slab whose last missing block comes back can be given out as a whole again, and
    /// counts as just used: its pages are not given back before it was left alone.
    pub proof fn returned_slabs_are_hot(
        self,
        before: Self,
        batch: Seq<usize>,
        index: int,
        block: usize,
    )
        requires
            self.took_in(before, batch),
            0 <= index < before.slabs@.len(),
            batch.contains(block),
            before.slabs@[index].region().has(block as int),
            self.slabs@[index].central_free_len == self.slabs@[index].capacity,
        ensures
            self.slabs@[index].state == SlabState::FullHot,
            self.slabs@[index].last_touched_epoch > before.epoch || before.epoch >= u64::MAX - 1,
            self.slabs@[index].region() == before.slabs@[index].region(),
    {
        let (slab, epoch) = self.slab_took_back(before, batch, index);
        let at = choose|at: int| 0 <= at < batch.len() && batch[at] == block;
        let turned = batch.reverse();
        assert(turned[batch.len() - 1 - at] == block);
        share_has(turned, slab.region(), batch.len() - 1 - at);
    }

    /// What a slab was, and in which epoch, once the inbox was empty and before `batch` came in.
    #[verifier::rlimit(40)]
    #[verifier::spinoff_prover]
    proof fn slab_took_back(self, before: Self, batch: Seq<usize>, index: int) -> (slab: (
        SlabRecord,
        u64,
    ))
        requires
            self.took_in(before, batch),
            0 <= index < before.slabs@.len(),
        ensures
            slab.0.region() == before.slabs@[index].region(),
            slab.1 == before.epoch || slab.1 == (before.epoch + 1) as u64,
            self.slabs@[index].took_back(slab.0, batch.reverse(), (slab.1 + 1) as u64),
    {
        let drained = choose|drained: Self| #[trigger]
            before.drains_to(drained) && (if batch.len() == 0 {
                self == drained
            } else {
                self.got_all_back(drained, batch.reverse())
            }) && forall|index: int|
                #![trigger self.slabs@[index]]
                0 <= index < drained.slabs@.len() ==> self.slabs@[index].took_back(
                    drained.slabs@[index],
                    batch.reverse(),
                    (drained.epoch + 1) as u64,
                );
        before.draining_keeps_the_epoch(drained);
        assert(drained.slabs@[index].region() == before.slabs@[index].region());
        (drained.slabs@[index], drained.epoch)
    }

    /// Emptying the inbox takes the pool no further than to its next epoch.
    proof fn draining_keeps_the_epoch(self, drained: Self)
        requires
            self.drains_to(drained),
        ensures
            drained.epoch == self.epoch || drained.epoch == (self.epoch + 1) as u64,
    {
        if self.inbox@.len() > 0 {
            let emptied = choose|emptied: Self|
                emptied == (ClassPool { inbox: emptied.inbox, ..self }) && emptied.inbox@.len() == 0
                    && #[trigger] drained.got_all_back(emptied, self.inbox@.reverse());
            let states = choose|states: Seq<Self>| #[trigger]
                is_return(states, emptied, self.inbox@.reverse()) && drained.swept(states.last());
            returns_keep_the_epoch(states, emptied, self.inbox@.reverse(), states.len() - 1);
        }
    }

    /// The pool is what is left of `before` when the blocks of its inbox went back into their
    /// slabs and up to `max` blocks were asked for.
    pub open spec fn gave_out(self, before: Self, max: int, refill: CentralRefill) -> bool {
        exists|drained: Self| #[trigger]
            before.drains_to(drained) && refill_is(drained, max, refill) && self.left_by_refill(
                drained,
                max,
            )
    }

    /// The pool is `before` after an attempt, `cooled` telling how it went, to give back the
    /// pages of the slab that became full last: it goes well where the slab has a whole page.
    pub open spec fn forced_cold(self, before: Self, cooled: bool) -> bool {
        if before.full_hot_slabs@.len() == 0 {
            !cooled && self == before
        } else {
            let index = before.full_hot_slabs@.last() as int;
            let slab = before.slabs@[index];
            &&& self.epoch == SWEEP_INTERVAL
            &&& cooled == (arena::inner_pages(
                slab.start as int,
                slab.block_size * slab.capacity,
                before.page_size as int,
            ) is Some)
            &&& cooled ==> self.relisted(before, index, SlabState::FullHot, SlabState::FullCold)
            &&& self.slabs@[index].state == if cooled {
                SlabState::FullCold
            } else {
                SlabState::FullHot
            }
        }
    }

    /// Declares the slab that became full last idle and its pages given back.
    ///
    /// Support for exercising the path that reissues such a slab; it sets the epoch.
    pub fn force_first_full_hot_to_cold_for_test(&mut self) -> (cooled: bool)
        requires
            old(self).wf(),
        ensures
            final(self).wf(),
            final(self).same_slabs(*old(self)),
            final(self).held() == old(self).held(),
            final(self).inbox == old(self).inbox,
            final(self).page_size == old(self).page_size,
            final(self).forced_cold(*old(self), cooled),
            forall|memory: Memory, class: SizeClass|
                #![trigger final(self).ready(memory, class)]
                #![trigger old(self).ready(memory, class)]
                old(self).ready(memory, class) ==> final(self).ready(memory, class),
    {
        if self.full_hot_slabs.len() == 0 {
            return false;
        }
        let last: usize = self.full_hot_slabs.len() - 1;
        let index: usize = self.full_hot_slabs[last];
        proof {
            let listed = self.bucket(SlabState::FullHot)[last as int] as int;
            assert(self.listed_state(-1, SlabState::Loaned, listed) == SlabState::FullHot);
            assert(self.slabs@[index as int].wf());
        }
        self.epoch = SWEEP_INTERVAL;
        self.sweep_cursor = last;
        proof {
            self.contents_are_kept(*old(self));
        }
        self.touch_slab(index, SWEEP_INTERVAL - COLD_EPOCHS);
        self.sweep_at_cursor(index)
    }

    /// Looks for an idle slab, first of all at the slab at `index`, and declares its pages
    /// given back.
    fn sweep_at_cursor(&mut self, index: usize) -> (cooled: bool)
        requires
            old(self).wf(),
            old(self).epoch % SWEEP_INTERVAL == 0,
            old(self).full_hot_slabs@.len() > 0,
            old(self).full_hot_slabs@[old(self).sweep_cursor as int] == index,
            index < old(self).slabs@.len(),
            old(self).slabs@[index as int].sweepable(old(self).epoch),
        ensures
            final(self).wf(),
            final(self).same_slabs(*old(self)),
            final(self).held() == old(self).held(),
            final(self).inbox == old(self).inbox,
            final(self).page_size == old(self).page_size,
            final(self).epoch == old(self).epoch,
            cooled == old(self).idle_pages(old(self).sweep_cursor as int) is Some,
            cooled ==> final(self).relisted(
                *old(self),
                index as int,
                SlabState::FullHot,
                SlabState::FullCold,
            ),
            final(self).slabs@[index as int].state == if cooled {
                SlabState::FullCold
            } else {
                SlabState::FullHot
            },
            forall|memory: Memory, class: SizeClass|
                #![trigger final(self).ready(memory, class)]
                #![trigger old(self).ready(memory, class)]
                old(self).ready(memory, class) ==> final(self).ready(memory, class),
    {
        let ghost found = self.idle_pages(self.sweep_cursor as int);
        let earlier: usize = self.pending_sweeps.len();
        self.maybe_sweep();
        let ghost swept = *self;
        proof {
            self.starts_ascend();
        }
        if self.pending_sweeps.len() == earlier {
            return false;
        }
        match self.pending_sweeps.pop() {
            Some(request) => {
                let ghost asked = *self;
                proof {
                    self.contents_are_kept(swept);
                    let second = old(self).slot_behind(old(self).sweep_cursor as int);
                    let other = old(self).full_hot_slabs@[second] as int;
                    if found is None {
                        let listed = old(self).bucket(SlabState::FullHot)[second];
                        let own = old(self).bucket(SlabState::FullHot)[old(self).sweep_cursor as int];
                        assert(asked.slabs@[other].start == request.slab_start);
                        assert(other != index);
                    } else {
                        assert(asked.slabs@[index as int].start == request.slab_start);
                    }
                }
                let cooled: bool = self.complete_sweep(request.slab_start, true);
                let ghost record = self.slabs@[index as int];
                cooled && self.slabs[index].state == SlabState::FullCold
            },
            None => false,
        }
    }

    /// No two slabs start at the same address.
    proof fn starts_ascend(self)
        requires
            self.wf(),
        ensures
            forall|i: int, j: int|
                0 <= i < j < self.slabs@.len() ==> (#[trigger] self.slabs@[i]).start < (
                #[trigger] self.slabs@[j]).start,
    {
        assert forall|i: int, j: int| 0 <= i < j < self.slabs@.len() implies (
        #[trigger] self.slabs@[i]).start < (#[trigger] self.slabs@[j]).start by {
            assert(self.slabs@[i].wf());
            self.slabs@[i].region().block_is_inside(0);
        }
    }

    /// Different blocks of the slabs, all of `size` bytes, fit into the address space.
    pub proof fn known_bytes_fit(self, held: Multiset<usize>, size: int)
        requires
            self.wf(),
            blocks::distinct(held),
            forall|block: usize| #[trigger] held.count(block) > 0 ==> self.knows(block),
            forall|index: int|
                0 <= index < self.slabs@.len() ==> (#[trigger] self.slabs@[index]).block_size == size,
        ensures
            held.len() * size <= usize::MAX,
    {
        broadcast use vstd::multiset::group_multiset_axioms;

        if self.slabs@.len() == 0 {
            if held.len() > 0 {
                let block = held.choose();
                assert(held.count(block) > 0);
            }
        } else {
            assert forall|block: usize| #[trigger] held.count(block) > 0 implies exists|index: int|
                0 <= index < self.slabs@.len() && (#[trigger] self.slabs@[index]).region().has(
                    block as int,
                ) by {
                assert(self.knows(block));
            }
            count_is_bounded(self.slabs@, held);
            capacities_fit(self.slabs@, size);
            let (count, all) = (held.len() as int, capacities(self.slabs@));
            assert(self.slabs@[self.slabs@.len() - 1].wf());
            assert(self.slabs@[0].wf());
            assert(count * size <= all * size) by (nonlinear_arith)
                requires
                    count <= all,
                    size >= 0,
            ;
        }
    }
}

/// The number of blocks of the given slabs.
pub open spec fn capacities(slabs: Seq<SlabRecord>) -> int
    decreases slabs.len(),
{
    if slabs.len() == 0 {
        0
    } else {
        capacities(slabs.drop_last()) + slabs.last().capacity
    }
}

proof fn count_is_bounded(slabs: Seq<SlabRecord>, held: Multiset<usize>)
    requires
        forall|index: int| 0 <= index < slabs.len() ==> #[trigger] slabs[index].wf(),
        blocks::distinct(held),
        forall|block: usize| #[trigger]
            held.count(block) > 0 ==> exists|index: int|
                0 <= index < slabs.len() && (#[trigger] slabs[index]).region().has(block as int),
    ensures
        held.len() <= capacities(slabs),
    decreases slabs.len(),
{
    broadcast use vstd::multiset::group_multiset_axioms;

    if slabs.len() == 0 {
        if held.len() > 0 {
            let block = held.choose();
            assert(held.count(block) > 0);
        }
    } else {
        let region = slabs.last().region();
        let inside = held.filter(|block: usize| region.has(block as int));
        let outside = held.filter(|block: usize| !region.has(block as int));
        assert(held =~= inside.add(outside));
        assert(slabs[slabs.len() - 1].wf());
        assert forall|block: usize| #[trigger] inside.count(block) <= 1 by {
            assert(held.count(block) <= 1);
        }
        assert forall|block: usize| #[trigger] outside.count(block) <= 1 by {
            assert(held.count(block) <= 1);
        }
        region.at_most_capacity(inside);
        let rest = slabs.drop_last();
        assert forall|index: int| 0 <= index < rest.len() implies #[trigger] rest[index].wf() by {
            assert(slabs[index].wf());
        }
        assert forall|block: usize| #[trigger] outside.count(block) > 0 implies exists|index: int|
            0 <= index < rest.len() && (#[trigger] rest[index]).region().has(block as int) by {
            assert(held.count(block) > 0);
            let index = choose|index: int|
                0 <= index < slabs.len() && (#[trigger] slabs[index]).region().has(block as int);
            assert(rest[index] == slabs[index]);
        }
        count_is_bounded(rest, outside);
    }
}

proof fn capacities_fit(slabs: Seq<SlabRecord>, size: int)
    requires
        slabs.len() > 0,
        forall|index: int|
            0 <= index < slabs.len() ==> (#[trigger] slabs[index]).wf() && slabs[index].block_size
                == size,
        forall|i: int, j: int|
            0 <= i < j < slabs.len() ==> (#[trigger] slabs[i]).region().end() <= (
            #[trigger] slabs[j]).region().start,
    ensures
        capacities(slabs) * size <= slabs.last().region().end() - slabs[0].region().start,
        capacities(slabs) >= 0,
    decreases slabs.len(),
{
    let last = slabs.last();
    let rest = slabs.drop_last();
    assert(slabs[slabs.len() - 1].wf());
    assert(size * last.capacity == last.capacity * size) by (nonlinear_arith);
    if slabs.len() == 1 {
        assert(rest =~= Seq::<SlabRecord>::empty());
        assert(capacities(slabs) == last.capacity);
    } else {
        assert forall|index: int| 0 <= index < rest.len() implies (#[trigger] rest[index]).wf()
            && rest[index].block_size == size by {
            assert(slabs[index].wf());
        }
        assert forall|i: int, j: int| 0 <= i < j < rest.len() implies (
        #[trigger] rest[i]).region().end() <= (#[trigger] rest[j]).region().start by {
            assert(slabs[i].region().end() <= slabs[j].region().start);
        }
        capacities_fit(rest, size);
        assert(slabs[rest.len() - 1].region().end() <= slabs[slabs.len() - 1].region().start);
        let (n, m) = (capacities(rest), last.capacity as int);
        assert((n + m) * size == n * size + m * size) by (nonlinear_arith);
    }
}

/// Where the entry at `at` stands after an insertion at `inserted`.
pub open spec fn moved_position(at: usize, inserted: usize) -> usize {
    if at >= inserted {
        (at + 1) as usize
    } else {
        at
    }
}

fn shift_positions(bucket: &mut Vec<usize>, inserted: usize)
    requires
        forall|slot: int| 0 <= slot < old(bucket)@.len() ==> #[trigger] old(bucket)@[slot] < usize::MAX,
    ensures
        final(bucket)@.len() == old(bucket)@.len(),
        forall|slot: int|
            0 <= slot < old(bucket)@.len() ==> #[trigger] final(bucket)@[slot] == moved_position(
                old(bucket)@[slot],
                inserted,
            ),
{
    let mut slot: usize = 0;
    while slot < bucket.len()
        invariant
            slot <= bucket@.len(),
            bucket@.len() == old(bucket)@.len(),
            forall|at: int|
                0 <= at < old(bucket)@.len() ==> #[trigger] old(bucket)@[at] < usize::MAX,
            forall|at: int|
                0 <= at < slot ==> #[trigger] bucket@[at] == moved_position(
                    old(bucket)@[at],
                    inserted,
                ),
            forall|at: int| slot <= at < bucket@.len() ==> #[trigger] bucket@[at] == old(bucket)@[at],
        decreases bucket@.len() - slot,
    {
        assert(old(bucket)@[slot as int] < usize::MAX);
        if bucket[slot] >= inserted {
            bucket[slot] = bucket[slot] + 1;
        }
        slot = slot + 1;
    }
}

/// The up to `max` blocks that leave a list first.
pub open spec fn top_of(list: Seq<usize>, max: int) -> Seq<usize> {
    list.skip(
        if max <= list.len() {
            list.len() - max
        } else {
            0
        },
    )
}

/// `states` are `before` in the next epoch and what becomes of it when `blocks`, one by one, go
/// back into their slabs.
pub open spec fn is_return(states: Seq<ClassPool>, before: ClassPool, blocks: Seq<usize>) -> bool {
    let epoch = (before.epoch + 1) as u64;
    &&& states.len() == blocks.len() + 1
    &&& states[0] == (ClassPool { epoch, ..before })
    &&& forall|at: int|
        0 < at < states.len() ==> (#[trigger] states[at]).got_back(
            states[at - 1],
            blocks[at - 1],
            epoch,
        )
}

/// Blocks go back in one epoch.
proof fn returns_keep_the_epoch(
    states: Seq<ClassPool>,
    before: ClassPool,
    blocks: Seq<usize>,
    at: int,
)
    requires
        is_return(states, before, blocks),
        0 <= at < states.len(),
    ensures
        states[at].epoch == (before.epoch + 1) as u64,
    decreases at,
{
    if at > 0 {
        returns_keep_the_epoch(states, before, blocks, at - 1);
        assert(states[at].got_back(states[at - 1], blocks[at - 1], (before.epoch + 1) as u64));
    }
}

/// A slab's share is not empty where one of the blocks is its own.
proof fn share_has(blocks: Seq<usize>, region: Region, at: int)
    requires
        0 <= at < blocks.len(),
        region.has(blocks[at] as int),
    ensures
        share_of(blocks, region).len() > 0,
    decreases blocks.len(),
{
    if at < blocks.len() - 1 {
        share_has(blocks.drop_last(), region, at);
    }
}

/// `refill` is what the pool gives out when asked for up to `max` blocks.
pub open spec fn refill_is(pool: ClassPool, max: int, refill: CentralRefill) -> bool {
    if max == 0 {
        refill is Empty
    } else if pool.partial_slabs@.len() > 0 {
        let free = pool.slabs@[pool.partial_slabs@.last() as int].partial_free@;
        refill matches CentralRefill::Batch(batch) && batch@ == top_of(free, max)
    } else if pool.full_hot_slabs@.len() > 0 {
        whole_slab_is(pool.slabs@[pool.full_hot_slabs@.last() as int], refill)
    } else if pool.full_cold_slabs@.len() > 0 {
        whole_slab_is(pool.slabs@[pool.full_cold_slabs@.last() as int], refill)
    } else {
        refill is Empty
    }
}

/// `refill` is what `pool` gives when up to `max` blocks are asked for and the blocks of its
/// inbox are back in their slabs.
pub open spec fn gives(pool: ClassPool, max: int, refill: CentralRefill) -> bool {
    exists|drained: ClassPool|
        pool.drains_to(drained) && #[trigger] refill_is(drained, max, refill)
}

/// Law: a refill is as large as it can be. It takes blocks of one slab: all that was asked for,
/// or all that the pool has of the slab; and a slab that the pool has as a whole is only given,
/// and as a whole, when of no slab it has a part, one whose pages were given back coming last.
/// It is empty just when the pool is.
pub proof fn refills_take_what_there_is(pool: ClassPool, max: int, refill: CentralRefill)
    requires
        0 < max,
        gives(pool, max, refill),
    ensures
        refill is Empty <==> pool.held().len() == 0,
        exists|drained: ClassPool| #[trigger]
            pool.drains_to(drained) && match refill {
                CentralRefill::Empty => true,
                CentralRefill::Batch(batch) => exists|index: int|
                    0 <= index < drained.slabs@.len() && (#[trigger] drained.slabs@[index]).state
                        == SlabState::Partial && batch@.len() == (if max
                        < drained.slabs@[index].central_free_len {
                        max
                    } else {
                        drained.slabs@[index].central_free_len as int
                    }) && forall|block: usize| #[trigger]
                        batch.held().count(block) > 0 ==> drained.slabs@[index].region().has(
                            block as int,
                        ),
                CentralRefill::Slab { start, block_size, capacity } => {
                    &&& forall|index: int|
                        0 <= index < drained.slabs@.len() ==> (
                        #[trigger] drained.slabs@[index]).state != SlabState::Partial
                    &&& exists|index: int|
                        0 <= index < drained.slabs@.len() && (
                        #[trigger] drained.slabs@[index]).region() == class_cache::slab_region(
                            start,
                            block_size,
                            capacity,
                        ) && drained.slabs@[index].central_free_len == capacity && (
                        drained.slabs@[index].state == SlabState::FullCold ==> forall|other: int|
                            0 <= other < drained.slabs@.len() ==> (
                            #[trigger] drained.slabs@[other]).state != SlabState::FullHot)
                },
            },
{
    let drained = choose|drained: ClassPool|
        pool.drains_to(drained) && #[trigger] refill_is(drained, max, refill);
    drained.nothing_listed_means_empty();
    drained.listed_slabs_are_there();
    match refill {
        CentralRefill::Empty => {},
        CentralRefill::Batch(batch) => {
            let index = drained.bucket(SlabState::Partial)[drained.partial_slabs@.len() - 1] as int;
            let slab = drained.slabs@[index];
            assert(drained.listed_state(-1, SlabState::Loaned, index) == SlabState::Partial);
            assert(slab.wf());
            assert(batch@ == top_of(slab.partial_free@, max));
            assert forall|block: usize| #[trigger] batch.held().count(
                block,
            ) > 0 implies slab.region().has(block as int) by {
                blocks::blocks_of(batch@);
                blocks::blocks_of(slab.partial_free@);
                let at = choose|at: int| 0 <= at < batch@.len() && batch@[at] == block;
                let skipped = slab.partial_free@.len() - batch@.len();
                assert(slab.partial_free@[skipped + at] == block);
                assert(slab.partial_free.held().count(block) > 0);
            }
        },
        CentralRefill::Slab { start, block_size, capacity } => {
            let state = if drained.full_hot_slabs@.len() > 0 {
                SlabState::FullHot
            } else {
                SlabState::FullCold
            };
            let index = drained.bucket(state)[drained.bucket(state).len() - 1] as int;
            assert(drained.listed_state(-1, SlabState::Loaned, index) == state);
            assert(drained.slabs@[index].wf());
            assert(drained.slabs@[index].region() == class_cache::slab_region(
                start,
                block_size,
                capacity,
            ));
            assert forall|other: int| 0 <= other < drained.slabs@.len() implies (
            #[trigger] drained.slabs@[other]).state != SlabState::Partial && (state
                == SlabState::FullCold ==> drained.slabs@[other].state != SlabState::FullHot) by {
                assert(drained.listed_state(-1, SlabState::Loaned, other)
                    == drained.slabs@[other].state);
            }
        },
    }
}

/// `refill` hands over all blocks of `slab`.
pub open spec fn whole_slab_is(slab: SlabRecord, refill: CentralRefill) -> bool {
    refill == (CentralRefill::Slab {
        start: slab.start,
        block_size: slab.block_size,
        capacity: slab.capacity,
    })
}

/// A cursor over `length` slabs: `cursor`, going round.
pub open spec fn cursor_within(cursor: usize, length: int) -> usize {
    if length <= 0 {
        0
    } else {
        (cursor as int % length) as usize
    }
}

/// A cursor that fits stays where it is.
proof fn fitting_cursor_stays(cursor: usize, length: int)
    requires
        cursor < length || cursor == 0,
        length <= usize::MAX,
    ensures
        cursor_within(cursor, length) == cursor,
{
    if cursor < length {
        vstd::arithmetic::div_mod::lemma_small_mod(cursor as nat, length as nat);
    }
}

/// A list without its entry at `slot`, whose place the last entry takes.
pub open spec fn swapped_out(list: Seq<usize>, slot: int) -> Seq<usize> {
    list.update(slot, list.last()).drop_last()
}

/// The list of slabs in state `listed` once the slab at `index` changed from state `from`, in
/// whose list it stood at `slot`, to state `to`.
pub open spec fn relisting(
    list: Seq<usize>,
    listed: SlabState,
    slot: int,
    index: int,
    from: SlabState,
    to: SlabState,
) -> Seq<usize> {
    if from == to {
        list
    } else if listed == from {
        swapped_out(list, slot)
    } else if listed == to {
        list.push(index as usize)
    } else {
        list
    }
}

/// Takes the entry at `slot` out of a list; the last entry takes its place and is returned.
fn swap_out(bucket: &mut Vec<usize>, slot: usize) -> (moved: Option<usize>)
    requires
        slot < old(bucket)@.len(),
    ensures
        final(bucket)@ == swapped_out(old(bucket)@, slot as int),
        moved == if slot + 1 < old(bucket)@.len() {
            Some(old(bucket)@.last())
        } else {
            None
        },
{
    let removed: usize = bucket.swap_remove(slot);
    if slot < bucket.len() {
        Some(bucket[slot])
    } else {
        None
    }
}

} // verus!
