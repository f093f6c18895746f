use vstd::multiset::Multiset;
use vstd::prelude::*;

use crate::blocks;
use crate::blocks::Region;
use crate::free_list;
use crate::free_list::{Batch, FreeList};
use crate::header;
use crate::header::AllocationHeader;
use crate::memory::Memory;
use crate::size_class::SizeClass;

verus! {

/// How the header of a block that leaves a cache has to be brought up to date.
#[derive(Clone, Copy, Debug, PartialEq, Eq, Structural)]
pub enum BlockReuse {
    /// The header names this cache already; only the requested size is stale.
    HotReuseRequestedOnly,
    /// The routing fields stand; owner and requested size are stale.
    NeedsOwnerAndRequestedSizeRefresh,
    /// Nothing in the header can be relied on.
    NeedsHeaderRewrite,
}

/// One slab whose blocks a thread cache hands out: blocks never handed out since the slab
/// was taken, and blocks that came back.
pub struct LocalSlab {
    /// Address of the first block.
    pub start: usize,
    /// First address behind the slab.
    pub end_addr: usize,
    /// Bytes per block.
    pub block_size: usize,
    /// Number of blocks.
    pub capacity: usize,
    /// Position of the first block never handed out.
    pub next_fresh: usize,
    /// Blocks that came back.
    pub free: FreeList,
    /// Position in the cache's list of slabs that can serve.
    pub available_slot: Option<usize>,
}

/// The header at `block` is that of a block of `class` which the cache `owner` allocated.
pub open spec fn owned(memory: Memory, block: int, class: SizeClass, owner: u32) -> bool {
    &&& header::prepared(memory, block, class)
    &&& memory.word(block + 16) == owner
}

impl LocalSlab {
    /// The slab's blocks.
    pub open spec fn region(self) -> Region {
        Region {
            start: self.start as int,
            block_size: self.block_size as int,
            capacity: self.capacity as int,
        }
    }

    /// The blocks that came back are different, and all of them were handed out before.
    pub open spec fn wf(self) -> bool {
        &&& self.region().valid()
        &&& self.end_addr == self.region().end()
        &&& self.next_fresh <= self.capacity
        &&& blocks::distinct(self.free.held())
        &&& forall|block: usize| #[trigger]
            self.free.held().count(block) > 0 ==> self.region().has(block as int) && block
                < self.region().block(self.next_fresh as int)
    }

    /// The blocks that the slab can hand out.
    pub open spec fn held(self) -> Multiset<usize> {
        self.free.held().add(self.region().tail(self.next_fresh as int))
    }

    /// The slab can hand out a block.
    pub open spec fn available(self) -> bool {
        self.next_fresh < self.capacity || self.free@.len() > 0
    }

    /// The two records differ at most in their place in the list of slabs that can serve.
    pub open spec fn same_blocks(self, other: Self) -> bool {
        &&& self.start == other.start
        &&& self.end_addr == other.end_addr
        &&& self.block_size == other.block_size
        &&& self.capacity == other.capacity
        &&& self.next_fresh == other.next_fresh
        &&& self.free@ == other.free@
    }

    /// The block that leaves next, and how its header stands: one that came back, the last
    /// first, or else the first that was never handed out.
    pub open spec fn next(self) -> (usize, BlockReuse) {
        if self.free@.len() > 0 {
            (self.free@.last(), BlockReuse::HotReuseRequestedOnly)
        } else {
            (
                self.region().block(self.next_fresh as int) as usize,
                BlockReuse::NeedsHeaderRewrite,
            )
        }
    }

    /// What is left of `before` when its next block leaves.
    pub open spec fn popped(self, before: Self) -> bool {
        &&& self.region() == before.region()
        &&& if before.free@.len() > 0 {
            &&& self.free@ == before.free@.drop_last()
            &&& self.next_fresh == before.next_fresh
        } else {
            &&& self.free@ == before.free@
            &&& self.next_fresh == before.next_fresh + 1
        }
    }

    /// What is left of `before` when it is drained of up to `max` blocks.
    pub open spec fn left_by_drain(self, before: Self, max: int) -> bool {
        &&& self.region() == before.region()
        &&& self.free@ == before.free@.take(before.free@.len() - before.reclaimed_of(max))
        &&& self.next_fresh == before.next_fresh + before.fresh_of(max)
    }

    /// The blocks that came back are linked, and their headers name `owner` and `class`.
    pub open spec fn ready(self, memory: Memory, class: SizeClass, owner: u32) -> bool {
        &&& self.free.linked(memory)
        &&& forall|block: usize| #[trigger]
            self.free.held().count(block) > 0 ==> owned(memory, block as int, class, owner)
    }

    /// What is held lies in the slab, nothing is held twice, and the number is the sum of both
    /// kinds.
    pub proof fn held_facts(self)
        requires
            self.wf(),
        ensures
            blocks::distinct(self.held()),
            self.held().len() == self.free@.len() + (self.capacity - self.next_fresh),
            self.available() <==> self.held().len() > 0,
            forall|block: usize| #[trigger] self.held().count(block) > 0 ==> self.region().has(
                block as int,
            ),
            self.held().count(0) == 0,
            forall|index: int|
                0 <= index < self.free@.len() ==> self.free.held().count(#[trigger] self.free@[index])
                    > 0,
    {
        broadcast use vstd::multiset::group_multiset_axioms;

        self.region().tail_counts(self.next_fresh as int);
        blocks::blocks_of(self.free@);
        assert forall|block: usize| #[trigger] self.held().count(block) <= 1 by {
            if self.free.held().count(block) > 0 {
            }
        }
    }

    /// Creates the record of a slab none of whose blocks was handed out.
    #[must_use]
    pub fn new(start: usize, block_size: usize, capacity: usize) -> (slab: Self)
        requires
            (Region { start: start as int, block_size: block_size as int, capacity: capacity as int }).valid(),
        ensures
            slab.wf(),
            slab.region() == (Region {
                start: start as int,
                block_size: block_size as int,
                capacity: capacity as int,
            }),
            slab.next_fresh == 0,
            slab.free@ == Seq::<usize>::empty(),
            slab.available_slot is None,
            slab.held() == slab.region().all(),
    {
        let slab = LocalSlab {
            start,
            end_addr: start + block_size * capacity,
            block_size,
            capacity,
            next_fresh: 0,
            free: FreeList::new(),
            available_slot: None,
        };
        proof {
            broadcast use vstd::multiset::group_multiset_axioms;

            blocks::blocks_of(slab.free@);
            assert(slab.free.held() =~= Multiset::empty());
            assert(slab.held() =~= slab.region().all());
        }
        slab
    }

    /// Makes all blocks of the slab available again, as never handed out.
    pub fn reset(&mut self)
        requires
            old(self).wf(),
        ensures
            final(self).wf(),
            final(self).region() == old(self).region(),
            final(self).next_fresh == 0,
            final(self).free@ == Seq::<usize>::empty(),
            final(self).available_slot is None,
            final(self).held() == final(self).region().all(),
    {
        *self = LocalSlab::new(self.start, self.block_size, self.capacity);
    }

    /// Whether the slab can hand out a block.
    #[must_use]
    pub fn has_available_blocks(&self) -> (result: bool)
        ensures
            result == self.available(),
    {
        self.next_fresh < self.capacity || !self.free.is_empty()
    }

    /// Whether `block` is the start of one of the slab's blocks.
    #[must_use]
    pub fn contains(&self, block: usize) -> (result: bool)
        requires
            self.wf(),
        ensures
            result == self.region().has(block as int),
    {
        block >= self.start && block < self.end_addr && (block - self.start) % self.block_size == 0
    }

    /// Pops one block from a slab known to have reclaimed or fresh capacity.
    #[must_use]
    pub fn pop_block_unchecked(&mut self, memory: &Memory) -> (result: (usize, BlockReuse))
        requires
            old(self).wf(),
            old(self).available(),
            old(self).free.linked(*memory),
        ensures
            final(self).wf(),
            final(self).popped(*old(self)),
            final(self).available_slot == old(self).available_slot,
            result == old(self).next(),
            old(self).held() == final(self).held().insert(result.0),
            forall|block: usize| #[trigger]
                final(self).free.held().count(block) > 0 ==> old(self).free.held().count(block) > 0,
            result.1 is HotReuseRequestedOnly ==> old(self).free.held().count(result.0) > 0,
            !(result.1 is NeedsOwnerAndRequestedSizeRefresh),
            forall|other: Memory| #[trigger]
                old(self).free.linked(other) ==> final(self).free.linked(other),
    {
        broadcast use vstd::multiset::group_multiset_axioms;

        if !self.free.is_empty() {
            let block: usize = self.free.pop_block_unchecked(memory);
            assert forall|other: Memory| #[trigger] old(self).free.linked(
                other,
            ) implies self.free.linked(other) by {
                let length = old(self).free@.len();
                free_list::chain_below(old(self).free@, other, length - 1);
                assert(old(self).free@.take(length - 1) =~= self.free@);
            }
            assert(old(self).held() =~= self.held().insert(block));
            assert forall|other: usize| #[trigger] self.free.held().count(other) > 0 implies old(self).free.held().count(other) > 0 by {
            }
            assert forall|other: usize| #[trigger] self.free.held().count(other) <= 1 by {
                assert(old(self).free.held().count(other) <= 1);
            }
            return (block, BlockReuse::HotReuseRequestedOnly);
        }
        proof {
            self.region().block_is_inside(self.next_fresh as int);
            self.region().blocks_ascend(self.next_fresh as int, self.next_fresh + 1);
        }
        let block: usize = self.start + self.block_size * self.next_fresh;
        self.next_fresh = self.next_fresh + 1;
        assert(old(self).held() =~= self.held().insert(block));
        (block, BlockReuse::NeedsHeaderRewrite)
    }

    /// Takes back a block of this slab that was handed out.
    pub fn push_block(&mut self, block: usize, memory: &mut Memory)
        requires
            old(self).wf(),
            old(self).region().has(block as int),
            old(self).held().count(block) == 0,
            old(self).free.linked(*old(memory)),
            header::header_fits(*old(memory), block as int),
        ensures
            final(self).free.linked(*final(memory)),
            final(memory).wf(),
            final(memory).same_outside(*old(memory), block + 24, 8),
            final(self).wf(),
            final(self).region() == old(self).region(),
            final(self).next_fresh == old(self).next_fresh,
            final(self).available_slot == old(self).available_slot,
            final(self).free@ == old(self).free@.push(block),
            final(self).held() == old(self).held().insert(block),
            final(self).free.held() == old(self).free.held().insert(block),
    {
        broadcast use vstd::multiset::group_multiset_axioms;

        proof {
            self.region().tail_counts(self.next_fresh as int);
            assert(self.region().tail(self.next_fresh as int).count(block) == 0);
        }
        self.free.push_block(block, memory);
        assert(self.held() =~= old(self).held().insert(block));
    }

    /// The number of blocks that came back among `max` drained ones.
    pub open spec fn reclaimed_of(self, max: int) -> int {
        if self.free@.len() < max {
            self.free@.len() as int
        } else {
            max
        }
    }

    /// The number of blocks never handed out among `max` drained ones.
    pub open spec fn fresh_of(self, max: int) -> int {
        if max - self.reclaimed_of(max) < self.capacity - self.next_fresh {
            max - self.reclaimed_of(max)
        } else {
            self.capacity - self.next_fresh
        }
    }

    /// The blocks that draining up to `max` blocks gives: those that came back, in the order
    /// in which they would leave, and then blocks never handed out, by ascending address.
    pub open spec fn drained(self, max: int) -> Seq<usize> {
        let length = self.free@.len() as int;
        let first = self.next_fresh as int;
        Seq::new(
            (self.reclaimed_of(max) + self.fresh_of(max)) as nat,
            |index: int|
                if index < self.reclaimed_of(max) {
                    self.free@[length - 1 - index]
                } else {
                    self.region().block(first + (index - self.reclaimed_of(max))) as usize
                },
        )
    }

    /// The blocks never handed out among `max` drained ones.
    pub open spec fn fresh_drained(self, max: int) -> Multiset<usize> {
        fresh_run(self.region(), self.next_fresh as int, self.fresh_of(max))
    }

    /// Drained blocks either came back before or are fresh.
    pub proof fn drained_facts(self, max: int)
        requires
            self.wf(),
            max > 0,
        ensures
            forall|block: usize| #[trigger]
                self.drained(max).to_multiset().count(block) > 0 <==> (self.fresh_drained(max).count(
                    block,
                ) > 0 || exists|index: int|
                    self.free@.len() - self.reclaimed_of(max) <= index < self.free@.len()
                        && self.free@[index] == block),
            forall|block: usize| #[trigger]
                self.drained(max).to_multiset().count(block) > 0 && self.fresh_drained(max).count(
                    block,
                ) == 0 ==> self.free.held().count(block) > 0,
            forall|block: usize| #[trigger]
                self.fresh_drained(max).count(block) > 0 ==> self.drained(max).to_multiset().count(
                    block,
                ) > 0,
    {
        let region = self.region();
        let first = self.next_fresh as int;
        let reclaimed = self.reclaimed_of(max);
        let fresh = self.fresh_of(max);
        let all = self.drained(max);
        fresh_run_counts(region, first, fresh);
        blocks::blocks_of(all);
        blocks::blocks_of(self.free@);
        assert forall|block: usize| #[trigger] self.fresh_drained(max).count(block) > 0 implies all.to_multiset().count(
            block,
        ) > 0 by {
            let position = region.position_of(block as int);
            if position < first {
                region.blocks_ascend(position, first);
            }
            if position >= first + fresh {
                if position > first + fresh {
                    region.blocks_ascend(first + fresh, position);
                }
            }
            let index = reclaimed + (position - first);
            assert(all[index] == block);
        }
        assert forall|block: usize| #[trigger] all.to_multiset().count(block) > 0 implies self.fresh_drained(
            max,
        ).count(block) > 0 || exists|index: int|
            self.free@.len() - reclaimed <= index < self.free@.len() && self.free@[index] == block by {
            let index = choose|index: int| 0 <= index < all.len() && all[index] == block;
            if index < reclaimed {
                assert(self.free@[self.free@.len() - 1 - index] == block);
            } else {
                let position = first + (index - reclaimed);
                region.block_is_inside(position);
                if position > first {
                    region.blocks_ascend(first, position);
                }
                region.blocks_ascend(position, first + fresh);
            }
        }
        assert forall|block: usize|
            self.fresh_drained(max).count(block) > 0 || exists|index: int|
                self.free@.len() - reclaimed <= index < self.free@.len() && self.free@[index]
                    == block implies #[trigger] all.to_multiset().count(block) > 0 by {
            if self.fresh_drained(max).count(block) == 0 {
                let index = choose|index: int|
                    self.free@.len() - reclaimed <= index < self.free@.len() && self.free@[index]
                        == block;
                assert(all[self.free@.len() - 1 - index] == block);
            }
        }
    }

    /// Detaches up to `max` blocks from this slab for transfer to the central pool.
    ///
    /// Reclaimed blocks are drained first, but the returned batch may be topped up with
    /// untouched fresh capacity. The headers of fresh blocks that leave are initialized.
    pub fn pop_batch(&mut self, max: usize, class: SizeClass, memory: &mut Memory) -> (batch: Batch)
        requires
            old(self).wf(),
            old(self).available(),
            max > 0,
            region_fits(*old(memory), old(self).region()),
            old(self).free.linked(*old(memory)),
        ensures
            final(self).wf(),
            final(self).region() == old(self).region(),
            final(self).available_slot == old(self).available_slot,
            batch@ == old(self).drained(max as int),
            batch@.len() > 0,
            old(self).held() == final(self).held().add(batch.held()),
            final(self).left_by_drain(*old(self), max as int),
            final(self).free.linked(*final(memory)),
            batch.linked(*final(memory)),
            final(memory).wf(),
            header::changes(
                *final(memory),
                *old(memory),
                old(self).fresh_drained(max as int),
                batch.held(),
            ),
            header::changes_close(*final(memory), *old(memory)),
            forall|block: usize| #[trigger]
                old(self).fresh_drained(max as int).count(block) > 0 ==> header::prepared(
                    *final(memory),
                    block as int,
                    class,
                ),
    {
        let mut list = FreeList::new();
        let reclaimed: usize = if self.free.len() < max {
            self.free.len()
        } else {
            max
        };
        let ghost none = Multiset::<usize>::empty();
        proof {
            broadcast use vstd::multiset::group_multiset_axioms;

            blocks::blocks_of(list@);
            self.held_facts();
            free_list::empty_chain(*memory);
            header::changes_nothing(*memory, none, list.held());
            header::closes_nothing(*memory);
            assert(self.held().add(list.held()) =~= self.held());
        }
        let mut moved: usize = 0;
        while moved < reclaimed
            invariant
                moved <= reclaimed <= old(self).free@.len(),
                self.wf(),
                self.region() == old(self).region(),
                self.next_fresh == old(self).next_fresh,
                self.available_slot == old(self).available_slot,
                self.free@ == old(self).free@.take(old(self).free@.len() - moved),
                list@.len() == moved,
                forall|index: int|
                    0 <= index < moved ==> #[trigger] list@[index] == old(self).free@[old(self).free@.len() - 1 - index],
                self.held().add(list.held()) == old(self).held(),
                blocks::distinct(old(self).held()),
                region_fits(*old(memory), old(self).region()),
                memory.wf(),
                none == Multiset::<usize>::empty(),
                self.free.linked(*memory),
                list.linked(*memory),
                header::changes(*memory, *old(memory), none, list.held()),
                header::changes_close(*memory, *old(memory)),
            decreases reclaimed - moved,
        {
            let ghost before = *self;
            let ghost listed = list;
            let ghost earlier = *memory;
            let block: usize = self.free.pop_block_unchecked(memory);
            proof {
                broadcast use vstd::multiset::group_multiset_axioms;

                assert(before.held() =~= self.held().insert(block));
                assert(before.free.held().count(block) > 0);
                assert(header::header_fits(*old(memory), block as int));
                assert(self.held().insert(block).add(list.held()).count(block) <= 1) by {
                    assert(old(self).held().count(block) <= 1);
                }
            }
            list.push_block(block, memory);
            proof {
                broadcast use vstd::multiset::group_multiset_axioms;

                header::relinks_one(*old(memory), earlier, *memory, none, listed.held(), block);
                header::closes_compose(*old(memory), earlier, *memory);
                free_list::chain_is_spared(self.free@, *memory, earlier, block);
                assert(self.free@ =~= old(self).free@.take(old(self).free@.len() - moved - 1));
                assert(self.held().add(list.held()) =~= before.held().add(listed.held()));
                assert forall|other: usize| #[trigger] self.free.held().count(other) > 0 implies before.free.held().count(
                    other,
                ) > 0 by {
                }
                assert forall|other: usize| #[trigger] self.free.held().count(other) <= 1 by {
                    assert(before.free.held().count(other) <= 1);
                }
            }
            moved = moved + 1;
        }
        let left: usize = self.capacity - self.next_fresh;
        let fresh: usize = if max - reclaimed < left {
            max - reclaimed
        } else {
            left
        };
        let first: usize = self.next_fresh;
        let ghost mut touched: Multiset<usize> = fresh_run(self.region(), first as int, 0);
        proof {
            fresh_run_counts(self.region(), first as int, 0);
            header::changes_widen(
                *memory,
                *old(memory),
                none,
                list.held(),
                touched,
                list.held(),
            );
        }
        let mut added: usize = 0;
        while added < fresh
            invariant
                added <= fresh,
                reclaimed == old(self).reclaimed_of(max as int),
                fresh == old(self).fresh_of(max as int),
                first == old(self).next_fresh,
                first + fresh <= old(self).capacity,
                self.wf(),
                self.region() == old(self).region(),
                self.next_fresh == first + added,
                self.available_slot == old(self).available_slot,
                self.free@ == old(self).free@.take(old(self).free@.len() - reclaimed),
                list@.len() == reclaimed + added,
                forall|index: int|
                    0 <= index < reclaimed ==> #[trigger] list@[index] == old(self).free@[old(self).free@.len() - 1 - index],
                forall|index: int|
                    reclaimed <= index < reclaimed + added ==> #[trigger] list@[index] == old(self).region().block(first + (index - reclaimed)) as usize,
                self.held().add(list.held()) == old(self).held(),
                blocks::distinct(old(self).held()),
                region_fits(*old(memory), old(self).region()),
                memory.wf(),
                memory.same_place(*old(memory)),
                touched == fresh_run(self.region(), first as int, added as int),
                self.free.linked(*memory),
                list.linked(*memory),
                header::changes(*memory, *old(memory), touched, list.held()),
                header::changes_close(*memory, *old(memory)),
                forall|block: usize| #[trigger]
                    touched.count(block) > 0 ==> header::prepared(*memory, block as int, class),
            decreases fresh - added,
        {
            let ghost before = *self;
            let ghost listed = list;
            let ghost earlier = *memory;
            proof {
                self.region().block_is_inside(self.next_fresh as int);
                self.region().blocks_ascend(self.next_fresh as int, self.next_fresh + 1);
            }
            let block: usize = self.start + self.block_size * self.next_fresh;
            AllocationHeader::initialize_small_to_block_unchecked(memory, block, class);
            let ghost middle = *memory;
            self.next_fresh = self.next_fresh + 1;
            let ghost one = Multiset::singleton(block);
            let ghost wider = touched.add(one);
            proof {
                broadcast use vstd::multiset::group_multiset_axioms;

                assert(before.held() =~= self.held().insert(block));
                assert(self.held().insert(block).add(list.held()).count(block) <= 1) by {
                    assert(old(self).held().count(block) <= 1);
                }
                header::touches_one(middle, earlier, block, block as int, 64);
                header::changes_headers(middle, earlier, one, Multiset::empty());
                header::changes_compose(
                    *old(memory),
                    earlier,
                    middle,
                    touched,
                    list.held(),
                    one,
                    Multiset::empty(),
                );
                header::changes_widen(
                    middle,
                    *old(memory),
                    wider,
                    list.held().add(Multiset::empty()),
                    wider,
                    list.held(),
                );
                header::reset_is_refused(middle, block as int, class);
                header::closes_one(middle, earlier, block as int);
                header::closes_compose(*old(memory), earlier, middle);
                free_list::chain_is_kept(list@, middle, earlier, one);
                free_list::chain_is_kept(self.free@, middle, earlier, one);
            }
            list.push_block(block, memory);
            proof {
                broadcast use vstd::multiset::group_multiset_axioms;

                header::relinks_one(*old(memory), middle, *memory, wider, listed.held(), block);
                header::closes_compose(*old(memory), middle, *memory);
                free_list::chain_is_spared(self.free@, *memory, middle, block);
                assert(self.held().add(list.held()) =~= before.held().add(listed.held()));
                fresh_run_grows(self.region(), first as int, added as int);
                header::changes_link(*memory, middle, block);
                assert forall|other: usize| #[trigger] wider.count(other) > 0 implies header::prepared(
                    *memory,
                    other as int,
                    class,
                ) by {
                    if other != block {
                        assert(touched.count(other) > 0);
                        fresh_run_counts(self.region(), first as int, added as int);
                        self.region().blocks_do_not_overlap(other as int, block as int);
                        assert(header::header_fits(*old(memory), other as int));
                        assert(earlier.covers(other as int, 64));
                        header::header_is_framed(middle, earlier, other as int, block as int, 64);
                    }
                    header::header_is_relinked(
                        *memory,
                        middle,
                        Multiset::empty(),
                        one,
                        other as int,
                    );
                }
                touched = wider;
            }
            added = added + 1;
        }
        let length: usize = list.len();
        let ghost listed = list;
        let ghost earlier = *memory;
        let batch = list.pop_batch(length, memory);
        proof {
            broadcast use vstd::multiset::group_multiset_axioms;

            assert(batch@ =~= old(self).drained(max as int));
            self.held_facts();
            assert(list@.len() == 0);
            blocks::blocks_of(list@);
            assert(list.held() =~= Multiset::empty());
            assert(batch.held() =~= listed.held());
            header::closes_links(*memory, earlier, batch.held());
            header::closes_compose(*old(memory), earlier, *memory);
            header::changes_compose(
                *old(memory),
                earlier,
                *memory,
                touched,
                batch.held(),
                Multiset::empty(),
                batch.held(),
            );
            header::changes_widen(
                *memory,
                *old(memory),
                touched.add(Multiset::empty()),
                batch.held().add(batch.held()),
                touched,
                batch.held(),
            );
            header::changes_touch(
                *memory,
                earlier,
                Multiset::empty(),
                batch.held(),
                batch.held(),
            );
            assert forall|block: usize| #[trigger] batch.held().count(
                block,
            ) > 0 implies self.free.held().count(block) == 0 by {
                assert(old(self).held().count(block) <= 1);
            }
            free_list::chain_is_kept(self.free@, *memory, earlier, batch.held());
            fresh_run_counts(self.region(), first as int, fresh as int);
            assert forall|block: usize| #[trigger] touched.count(block) > 0 implies header::prepared(
                *memory,
                block as int,
                class,
            ) by {
                assert(header::header_fits(*old(memory), block as int));
                header::header_is_relinked(
                    *memory,
                    earlier,
                    Multiset::empty(),
                    batch.held(),
                    block as int,
                );
            }
        }
        batch
    }
}

/// The `count` blocks of `region` from position `first` on.
pub open spec fn fresh_run(region: Region, first: int, count: int) -> Multiset<usize> {
    region.tail(first).sub(region.tail(first + count))
}

/// A run holds each of its blocks once, and nothing else.
pub proof fn fresh_run_counts(region: Region, first: int, count: int)
    requires
        region.valid(),
        0 <= first,
        0 <= count,
        first + count <= region.capacity,
    ensures
        forall|block: usize| #[trigger]
            fresh_run(region, first, count).count(block) == if region.has(block as int)
                && region.block(first) <= block < region.block(first + count) {
                1nat
            } else {
                0nat
            },
{
    broadcast use vstd::multiset::group_multiset_axioms;

    region.tail_counts(first);
    region.tail_counts(first + count);
    if count > 0 {
        region.blocks_ascend(first, first + count);
    }
}

/// A run that is one block longer.
proof fn fresh_run_grows(region: Region, first: int, count: int)
    requires
        region.valid(),
        0 <= first,
        0 <= count,
        first + count < region.capacity,
    ensures
        fresh_run(region, first, count + 1) == fresh_run(region, first, count).add(
            Multiset::singleton(region.block(first + count) as usize),
        ),
{
    broadcast use vstd::multiset::group_multiset_axioms;

    let block = region.block(first + count) as usize;
    fresh_run_counts(region, first, count);
    fresh_run_counts(region, first, count + 1);
    region.tail_counts(first);
    region.tail_counts(first + count);
    region.tail_counts(first + count + 1);
    assert(region.tail(first + count) == region.tail(first + count + 1).insert(block));
    region.block_is_inside(first + count);
    if count > 0 {
        region.blocks_ascend(first, first + count);
    }
    assert(fresh_run(region, first, count + 1) =~= fresh_run(region, first, count).add(
        Multiset::singleton(block),
    ));
}

/// A header can be written at every block of `region`.
pub open spec fn region_fits(memory: Memory, region: Region) -> bool {
    &&& memory.wf()
    &&& forall|block: int| #[trigger] region.has(block) ==> header::header_fits(memory, block)
    &&& region.block_size >= header::HEADER_SIZE
}

} // verus!
