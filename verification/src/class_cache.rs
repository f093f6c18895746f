use vstd::multiset::Multiset;
use vstd::prelude::*;

use crate::blocks;
use crate::blocks::Region;
use crate::free_list;
use crate::free_list::{Batch, FreeList};
use crate::header;
use crate::local_slab;
use crate::local_slab::{BlockReuse, LocalSlab};
use crate::memory::Memory;
use crate::size_class::SizeClass;

verus! {

/// The blocks of one size class that a thread cache can hand out.
///
/// They come from four places: the block freed last, slabs that the cache took as a whole,
/// and a list of blocks of other slabs.
pub struct LocalClassCache {
    /// The block freed last.
    pub hot_block: Option<usize>,
    /// All slabs the cache ever took, in the order of taking.
    pub slabs: Vec<LocalSlab>,
    /// Positions in `slabs` by ascending start address.
    pub slabs_by_start: Vec<usize>,
    /// Positions in `slabs` of the slabs that can hand out a block.
    pub available_slabs: Vec<usize>,
    /// Position in `slabs` of the slab used last.
    pub recent_slab: Option<usize>,
    /// Blocks that belong to no slab of this cache.
    pub shared: FreeList,
    /// Number of blocks in `shared`.
    pub shared_len: usize,
    /// Number of blocks in all places.
    pub total_len: usize,
}

/// The block of an optional slot.
pub open spec fn slot_held(slot: Option<usize>) -> Multiset<usize> {
    match slot {
        Some(block) => Multiset::singleton(block),
        None => Multiset::empty(),
    }
}

/// The blocks that the given slabs can hand out.
pub open spec fn slabs_held(slabs: Seq<LocalSlab>) -> Multiset<usize>
    decreases slabs.len(),
{
    if slabs.len() == 0 {
        Multiset::empty()
    } else {
        slabs_held(slabs.drop_last()).add(slabs.last().held())
    }
}

proof fn slabs_held_update(slabs: Seq<LocalSlab>, index: int, slab: LocalSlab)
    requires
        0 <= index < slabs.len(),
    ensures
        slabs_held(slabs.update(index, slab)).add(slabs[index].held()) == slabs_held(slabs).add(
            slab.held(),
        ),
    decreases slabs.len(),
{
    broadcast use vstd::multiset::group_multiset_axioms;

    let updated = slabs.update(index, slab);
    let rest = slabs.drop_last();
    if index == slabs.len() - 1 {
        assert(updated.drop_last() =~= rest);
    } else {
        slabs_held_update(rest, index, slab);
        assert(updated.drop_last() =~= rest.update(index, slab));
        let left = slabs_held(rest.update(index, slab)).add(rest[index].held());
        let right = slabs_held(rest).add(slab.held());
        assert forall|block: usize|
            #![trigger slabs_held(updated).count(block)]
            slabs_held(updated).count(block) + slabs[index].held().count(block) == slabs_held(
                slabs,
            ).count(block) + slab.held().count(block) by {
            assert(left.count(block) == right.count(block));
        }
    }
    assert(slabs_held(updated).add(slabs[index].held()) =~= slabs_held(slabs).add(slab.held()));
}

proof fn slabs_held_push(slabs: Seq<LocalSlab>, slab: LocalSlab)
    ensures
        slabs_held(slabs.push(slab)) == slabs_held(slabs).add(slab.held()),
{
    assert(slabs.push(slab).drop_last() =~= slabs);
}

proof fn slabs_held_same(slabs: Seq<LocalSlab>, other: Seq<LocalSlab>)
    requires
        slabs.len() == other.len(),
        forall|id: int| 0 <= id < slabs.len() ==> #[trigger] slabs[id].same_blocks(other[id]),
    ensures
        slabs_held(slabs) == slabs_held(other),
    decreases slabs.len(),
{
    if slabs.len() > 0 {
        assert forall|id: int| 0 <= id < slabs.len() - 1 implies #[trigger] slabs.drop_last()[id].same_blocks(
            other.drop_last()[id],
        ) by {
            assert(slabs[id].same_blocks(other[id]));
        }
        slabs_held_same(slabs.drop_last(), other.drop_last());
        assert(slabs[slabs.len() - 1].same_blocks(other[slabs.len() - 1]));
    }
}

/// A block that one slab holds is held by the slabs together.
pub proof fn slabs_held_has(slabs: Seq<LocalSlab>, id: int)
    requires
        0 <= id < slabs.len(),
    ensures
        forall|block: usize| #[trigger]
            slabs[id].held().count(block) <= slabs_held(slabs).count(block),
    decreases slabs.len(),
{
    broadcast use vstd::multiset::group_multiset_axioms;

    if id < slabs.len() - 1 {
        slabs_held_has(slabs.drop_last(), id);
        assert(slabs.drop_last()[id] == slabs[id]);
        assert forall|block: usize| #[trigger]
            slabs[id].held().count(block) <= slabs_held(slabs).count(block) by {
            assert(slabs.drop_last()[id].held().count(block) <= slabs_held(slabs.drop_last()).count(
                block,
            ));
        }
    }
}

/// A block that the slabs hold together is held by one of them.
pub proof fn slabs_held_from(slabs: Seq<LocalSlab>, block: usize) -> (id: int)
    requires
        slabs_held(slabs).count(block) > 0,
    ensures
        0 <= id < slabs.len(),
        slabs[id].held().count(block) > 0,
    decreases slabs.len(),
{
    broadcast use vstd::multiset::group_multiset_axioms;

    if slabs.len() == 0 {
        0
    } else if slabs.last().held().count(block) > 0 {
        slabs.len() - 1
    } else {
        let id = slabs_held_from(slabs.drop_last(), block);
        assert(slabs.drop_last()[id] == slabs[id]);
        id
    }
}

proof fn slabs_held_none(slabs: Seq<LocalSlab>)
    requires
        forall|id: int|
            0 <= id < slabs.len() ==> #[trigger] slabs[id].wf() && !slabs[id].available(),
    ensures
        slabs_held(slabs).len() == 0,
    decreases slabs.len(),
{
    broadcast use vstd::multiset::group_multiset_axioms;

    if slabs.len() > 0 {
        assert forall|id: int| 0 <= id < slabs.len() - 1 implies #[trigger] slabs.drop_last()[id].wf()
            && !slabs.drop_last()[id].available() by {
            assert(slabs[id].wf());
        }
        slabs_held_none(slabs.drop_last());
        assert(slabs[slabs.len() - 1].wf());
        slabs.last().held_facts();
    }
}

impl LocalClassCache {
    /// The blocks that the cache can hand out.
    pub open spec fn held(self) -> Multiset<usize> {
        slot_held(self.hot_block).add(self.shared.held()).add(slabs_held(self.slabs@))
    }

    /// The cache has a record of the slab `region`.
    pub open spec fn owns(self, region: Region) -> bool {
        exists|id: int| 0 <= id < self.slabs@.len() && #[trigger] self.slabs@[id].region() == region
    }

    /// The slabs are listed by ascending address, and none overlaps another.
    pub open spec fn sorted(self) -> bool {
        &&& self.slabs_by_start@.len() == self.slabs@.len()
        &&& forall|k: int|
            0 <= k < self.slabs_by_start@.len() ==> 0 <= #[trigger] self.slabs_by_start@[k]
                < self.slabs@.len()
        &&& forall|k: int, l: int|
            0 <= k < l < self.slabs_by_start@.len()
                ==> self.slabs@[#[trigger] self.slabs_by_start@[k] as int].region().end()
                <= self.slabs@[#[trigger] self.slabs_by_start@[l] as int].region().start
        &&& forall|id: int| 0 <= id < self.slabs@.len() ==> #[trigger] self.is_listed(id)
    }

    /// The slab at position `id` stands in the list by address.
    pub open spec fn is_listed(self, id: int) -> bool {
        exists|k: int|
            0 <= k < self.slabs_by_start@.len() && #[trigger] self.slabs_by_start@[k] == id
    }

    /// Slabs and the list of slabs that can serve point at each other.
    pub open spec fn linked(self) -> bool {
        &&& forall|k: int|
            0 <= k < self.available_slabs@.len() ==> 0 <= #[trigger] self.available_slabs@[k]
                < self.slabs@.len() && self.slabs@[self.available_slabs@[k] as int].available_slot
                == Some(k as usize)
        &&& forall|id: int|
            0 <= id < self.slabs@.len() ==> match (#[trigger] self.slabs@[id]).available_slot {
                Some(k) => k < self.available_slabs@.len() && self.available_slabs@[k as int] == id,
                None => true,
            }
    }

    /// Everything but the counter of all blocks is in order.
    pub open spec fn structure(self) -> bool {
        &&& forall|id: int| 0 <= id < self.slabs@.len() ==> #[trigger] self.slabs@[id].wf()
        &&& self.sorted()
        &&& self.linked()
        &&& forall|id: int|
            0 <= id < self.slabs@.len() ==> ((#[trigger] self.slabs@[id]).available_slot is Some
                <==> self.slabs@[id].available())
        &&& (self.recent_slab matches Some(id) ==> id < self.slabs@.len())
        &&& self.shared_len == self.shared@.len()
    }

    /// The cache is in order, no block is held twice, and the counter is right.
    pub open spec fn wf(self) -> bool {
        &&& self.structure()
        &&& self.total_len == self.held().len()
        &&& blocks::distinct(self.held())
        &&& self.held().count(0) == 0
    }

    /// The two caches differ at most in which slabs can serve.
    pub open spec fn same_contents(self, other: Self) -> bool {
        &&& self.hot_block == other.hot_block
        &&& self.slabs@.len() == other.slabs@.len()
        &&& forall|id: int|
            0 <= id < self.slabs@.len() ==> #[trigger] self.slabs@[id].same_blocks(other.slabs@[id])
        &&& self.slabs_by_start@ == other.slabs_by_start@
        &&& self.recent_slab == other.recent_slab
        &&& self.shared@ == other.shared@
        &&& self.shared_len == other.shared_len
        &&& self.total_len == other.total_len
    }

    /// The two caches have records of the same slabs.
    pub open spec fn same_slabs(self, other: Self) -> bool {
        &&& self.slabs@.len() == other.slabs@.len()
        &&& forall|id: int|
            0 <= id < self.slabs@.len() ==> (#[trigger] self.slabs@[id]).region()
                == other.slabs@[id].region()
    }

    /// The block that leaves next, and how its header stands: the block freed last, or else one
    /// of the slab that became able to serve last, or else the top of the shared list.
    pub open spec fn next(self) -> (usize, BlockReuse) {
        match self.hot_block {
            Some(block) => (block, BlockReuse::HotReuseRequestedOnly),
            None => if self.available_slabs@.len() > 0 {
                self.slabs@[self.available_slabs@.last() as int].next()
            } else {
                (self.shared@.last(), BlockReuse::NeedsOwnerAndRequestedSizeRefresh)
            },
        }
    }

    /// The blocks that draining up to `max` blocks gives: of the shared list, or else of the
    /// slab that became able to serve last, or else the block freed last.
    pub open spec fn drained(self, max: int) -> Seq<usize> {
        if self.shared@.len() > 0 {
            let length = self.shared@.len() as int;
            self.shared@.skip(
                if max < length {
                    length - max
                } else {
                    0
                },
            )
        } else if self.available_slabs@.len() > 0 {
            self.slabs@[self.available_slabs@.last() as int].drained(max)
        } else {
            match self.hot_block {
                Some(block) => seq![block],
                None => Seq::empty(),
            }
        }
    }

    /// Law: a drain takes as many blocks as it may from one place: of the shared blocks, where
    /// there are any; or else of the slab that became able to serve last; or else the block
    /// freed last, and no block only where there is none.
    pub proof fn drains_take_what_they_may(self, max: int)
        requires
            self.wf(),
            1 <= max,
        ensures
            self.shared@.len() > 0 ==> self.drained(max).len() == (if max < self.shared@.len() {
                max
            } else {
                self.shared@.len() as int
            }),
            self.shared@.len() == 0 && self.available_slabs@.len() > 0 ==> ({
                let slab = self.slabs@[self.available_slabs@.last() as int];
                let left = slab.free@.len() + slab.capacity - slab.next_fresh;
                1 <= left && self.drained(max).len() == (if max < left {
                    max
                } else {
                    left
                })
            }),
            self.drained(max).len() == 0 <==> self.total_len == 0,
    {
        broadcast use vstd::multiset::group_multiset_axioms;

        if self.shared@.len() == 0 && self.available_slabs@.len() > 0 {
            let last = self.available_slabs@.len() - 1;
            let slab = self.slabs@[self.available_slabs@[last] as int];
            assert(slab.wf());
            assert(slab.available());
        }
        if self.total_len == 0 {
            self.nothing_is_available();
        } else if self.shared@.len() == 0 && self.available_slabs@.len() == 0 && self.hot_block
            is None {
            let block = self.held().choose();
            assert(self.held().count(block) > 0);
            blocks::blocks_of(self.shared@);
            assert(slabs_held(self.slabs@).count(block) > 0);
            let id = slabs_held_from(self.slabs@, block);
            self.slabs@[id].held_facts();
            assert(self.slabs@[id].held().len() > 0);
            assert(self.slabs@[id].available());
        }
    }

    /// What is left of `before` when its next block leaves. A slab that has none left leaves
    /// the list of slabs that can serve.
    pub open spec fn popped(self, before: Self) -> bool {
        if before.hot_block is Some {
            self == (LocalClassCache { hot_block: None, total_len: self.total_len, ..before })
        } else {
            &&& self.hot_block is None
            &&& if before.available_slabs@.len() > 0 {
                let serving = before.available_slabs@.last() as int;
                &&& self.shared@ == before.shared@
                &&& self.slabs@[serving].popped(before.slabs@[serving])
                &&& self.only_differs_in(before, serving)
            } else {
                &&& self.shared@ == before.shared@.drop_last()
                &&& self.slabs@ == before.slabs@
                &&& self.available_slabs@ == before.available_slabs@
            }
        }
    }

    /// What is left of `before` when it is drained of up to `max` blocks.
    pub open spec fn left_by_drain(self, before: Self, max: int) -> bool {
        if before.shared@.len() > 0 {
            let length = before.shared@.len() as int;
            &&& self.hot_block == before.hot_block
            &&& self.slabs@ == before.slabs@
            &&& self.available_slabs@ == before.available_slabs@
            &&& self.shared@ == before.shared@.take(
                if max < length {
                    length - max
                } else {
                    0
                },
            )
        } else if before.available_slabs@.len() > 0 {
            let serving = before.available_slabs@.last() as int;
            &&& self.hot_block == before.hot_block
            &&& self.shared@ == before.shared@
            &&& self.slabs@[serving].left_by_drain(before.slabs@[serving], max)
            &&& self.only_differs_in(before, serving)
        } else {
            self == (LocalClassCache { hot_block: None, total_len: self.total_len, ..before })
        }
    }

    /// The slabs but the one at `serving`, the last that can serve, hold what they held, and
    /// it stays listed as long as it can serve.
    pub open spec fn only_differs_in(self, before: Self, serving: int) -> bool {
        &&& self.slabs@.len() == before.slabs@.len()
        &&& forall|id: int|
            0 <= id < self.slabs@.len() && id != serving ==> #[trigger] self.slabs@[id].same_blocks(
                before.slabs@[id],
            )
        &&& self.available_slabs@ == if self.slabs@[serving].available() {
            before.available_slabs@
        } else {
            before.available_slabs@.drop_last()
        }
    }

    /// What `before` is with the slab at `region`, none of whose blocks was handed out, as the
    /// last that can serve.
    pub open spec fn took_slab(self, before: Self, region: Region) -> bool {
        let slab = self.slabs@[self.available_slabs@.last() as int];
        &&& self.hot_block == before.hot_block
        &&& self.shared@ == before.shared@
        &&& forall|id: int|
            0 <= id < before.slabs@.len() && (#[trigger] before.slabs@[id]).region() != region
                ==> self.slabs@[id].same_blocks(before.slabs@[id])
        &&& self.available_slabs@.len() > 0
        &&& self.available_slabs@.drop_last() == before.available_slabs@
        &&& slab.region() == region
        &&& slab.next_fresh == 0
        &&& slab.free@.len() == 0
    }

    /// The blocks of every list are linked in `memory`.
    pub open spec fn chained(self, memory: Memory) -> bool {
        &&& self.shared.linked(memory)
        &&& forall|id: int|
            0 <= id < self.slabs@.len() ==> (#[trigger] self.slabs@[id]).free.linked(memory)
    }

    /// The lists are linked, and the headers of the held blocks stand as [`BlockReuse`] says.
    pub open spec fn ready(self, memory: Memory, class: SizeClass, owner: u32) -> bool {
        &&& (self.hot_block matches Some(block) ==> local_slab::owned(
            memory,
            block as int,
            class,
            owner,
        ))
        &&& forall|id: int|
            0 <= id < self.slabs@.len() ==> #[trigger] self.slabs@[id].ready(memory, class, owner)
        &&& self.shared.linked(memory)
        &&& forall|block: usize| #[trigger]
            self.shared.held().count(block) > 0 ==> header::prepared(memory, block as int, class)
    }

    /// The lists of a cache that is ready are linked.
    pub proof fn ready_is_chained(self, memory: Memory, class: SizeClass, owner: u32)
        requires
            self.ready(memory, class, owner),
        ensures
            self.chained(memory),
    {
        assert forall|id: int| 0 <= id < self.slabs@.len() implies (
        #[trigger] self.slabs@[id]).free.linked(memory) by {
            assert(self.slabs@[id].ready(memory, class, owner));
        }
    }

    proof fn place_of(self, id: int) -> (k: int)
        requires
            self.sorted(),
            0 <= id < self.slabs@.len(),
        ensures
            0 <= k < self.slabs_by_start@.len(),
            self.slabs_by_start@[k] == id,
    {
        assert(self.is_listed(id));
        choose|k: int|
            0 <= k < self.slabs_by_start@.len() && #[trigger] self.slabs_by_start@[k] == id
    }

    proof fn sorted_is_kept(self, other: Self)
        requires
            other.sorted(),
            self.same_slabs(other),
            self.slabs_by_start@ == other.slabs_by_start@,
        ensures
            self.sorted(),
    {
        assert forall|id: int| 0 <= id < self.slabs@.len() implies #[trigger] self.is_listed(id) by {
            assert(other.is_listed(id));
        }
        assert forall|k: int, l: int| 0 <= k < l < self.slabs_by_start@.len() implies self.slabs@[#[trigger] self.slabs_by_start@[k] as int].region().end()
            <= self.slabs@[#[trigger] self.slabs_by_start@[l] as int].region().start by {
            assert(self.slabs@[self.slabs_by_start@[k] as int].region()
                == other.slabs@[other.slabs_by_start@[k] as int].region());
            assert(self.slabs@[self.slabs_by_start@[l] as int].region()
                == other.slabs@[other.slabs_by_start@[l] as int].region());
        }
    }

    proof fn contents_are_kept(self, other: Self)
        requires
            self.same_contents(other),
        ensures
            self.same_slabs(other),
            self.held() == other.held(),
            slabs_held(self.slabs@) == slabs_held(other.slabs@),
            forall|id: int|
                #![trigger self.slabs@[id]]
                0 <= id < self.slabs@.len() ==> {
                    &&& self.slabs@[id].wf() == other.slabs@[id].wf()
                    &&& self.slabs@[id].available() == other.slabs@[id].available()
                    &&& self.slabs@[id].held() == other.slabs@[id].held()
                    &&& self.slabs@[id].free@ == other.slabs@[id].free@
                    &&& self.slabs@[id].next_fresh == other.slabs@[id].next_fresh
                    &&& self.slabs@[id].region() == other.slabs@[id].region()
                },
    {
        assert forall|id: int|
            #![trigger self.slabs@[id]]
            0 <= id < self.slabs@.len() implies self.slabs@[id].same_blocks(other.slabs@[id]) by {
        }
        slabs_held_same(self.slabs@, other.slabs@);
    }

    /// Caches with the same slabs own the same slabs.
    pub proof fn owned_slabs_are_kept(self, other: Self, region: Region)
        requires
            self.same_slabs(other),
        ensures
            self.owns(region) == other.owns(region),
    {
        if self.owns(region) {
            let id = choose|id: int|
                0 <= id < self.slabs@.len() && #[trigger] self.slabs@[id].region() == region;
            assert(other.slabs@[id].region() == region);
        }
        if other.owns(region) {
            let id = choose|id: int|
                0 <= id < other.slabs@.len() && #[trigger] other.slabs@[id].region() == region;
            assert(self.slabs@[id].region() == region);
        }
    }

    /// Two slabs of the cache do not overlap.
    pub proof fn slabs_apart(self, one: int, other: int)
        requires
            self.structure(),
            0 <= one < self.slabs@.len(),
            0 <= other < self.slabs@.len(),
            one != other,
        ensures
            self.slabs@[one].region().apart(self.slabs@[other].region()),
    {
        let k = self.place_of(one);
        let l = self.place_of(other);
        if k < l {
        } else {
            assert(l < k);
        }
    }

    /// What the parts hold, the cache holds.
    pub proof fn parts_are_held(self)
        ensures
            self.hot_block matches Some(block) ==> self.held().count(block) > 0,
            forall|block: usize| #[trigger]
                self.shared.held().count(block) <= self.held().count(block),
            forall|id: int, block: usize|
                0 <= id < self.slabs@.len() ==> #[trigger] self.slabs@[id].held().count(block)
                    <= self.held().count(block),
            self.held().len() == slot_held(self.hot_block).len() + self.shared.held().len()
                + slabs_held(self.slabs@).len(),
            self.shared.held().len() == self.shared@.len(),
    {
        broadcast use vstd::multiset::group_multiset_axioms;

        blocks::blocks_of(self.shared@);
        assert forall|id: int, block: usize| 0 <= id < self.slabs@.len() implies #[trigger] self.slabs@[id].held().count(
            block,
        ) <= self.held().count(block) by {
            slabs_held_has(self.slabs@, id);
        }
    }

    /// A cache without blocks has no last freed block, no slab that can serve, and no shared
    /// block.
    pub proof fn nothing_is_available(self)
        requires
            self.wf(),
            self.total_len == 0,
        ensures
            self.hot_block is None,
            self.available_slabs@.len() == 0,
            self.shared@.len() == 0,
    {
        broadcast use vstd::multiset::group_multiset_axioms;

        self.parts_are_held();
        assert forall|block: usize| #[trigger] self.held().count(block) == 0 by {
            if self.held().count(block) > 0 {
                assert(self.held().len() > 0);
            }
        }
        if self.available_slabs@.len() > 0 {
            let id = self.available_slabs@[0] as int;
            let slab = self.slabs@[id];
            assert(slab.wf());
            assert(slab.available());
            slab.held_facts();
            let block = slab.held().choose();
            assert(slab.held().count(block) > 0);
            assert(self.held().count(block) > 0);
        }
    }

    proof fn held_header_is_framed(
        self,
        memory: Memory,
        earlier: Memory,
        touched: Multiset<usize>,
        block: usize,
    )
        requires
            header::touches_only(memory, earlier, touched),
            header::headers_fit(memory, self.held()),
            header::headers_fit(memory, touched),
            forall|other: usize| #[trigger]
                touched.count(other) > 0 ==> self.held().count(other) == 0,
            self.held().count(block) > 0,
        ensures
            memory.word(block + 16) == earlier.word(block + 16),
            forall|class: SizeClass|
                header::prepared(memory, block as int, class) == header::prepared(
                    earlier,
                    block as int,
                    class,
                ),
    {
        assert forall|other: usize| #[trigger] touched.count(other) > 0 implies other + 64 <= block
            || block + 64 <= other by {
            header::headers_are_apart(memory, block as int, other as int);
        }
        header::header_is_untouched(memory, earlier, touched, block as int);
    }

    /// Headers of held blocks stay ready when only headers of other blocks change.
    pub proof fn ready_is_framed(
        self,
        memory: Memory,
        earlier: Memory,
        touched: Multiset<usize>,
        class: SizeClass,
        owner: u32,
    )
        requires
            self.ready(earlier, class, owner),
            header::touches_only(memory, earlier, touched),
            header::headers_fit(memory, self.held()),
            header::headers_fit(memory, touched),
            forall|block: usize| #[trigger]
                touched.count(block) > 0 ==> self.held().count(block) == 0,
        ensures
            self.ready(memory, class, owner),
    {
        broadcast use vstd::multiset::group_multiset_axioms;

        self.parts_are_held();
        if let Some(block) = self.hot_block {
            self.held_header_is_framed(memory, earlier, touched, block);
        }
        assert forall|block: usize| #[trigger] self.shared.held().count(block) > 0 implies header::prepared(
            memory,
            block as int,
            class,
        ) by {
            assert(self.held().count(block) > 0);
            self.held_header_is_framed(memory, earlier, touched, block);
        }
        assert forall|block: usize| #[trigger] touched.count(
            block,
        ) > 0 implies self.shared.held().count(block) == 0 by {
            assert(self.shared.held().count(block) <= self.held().count(block));
        }
        free_list::chain_is_kept(self.shared@, memory, earlier, touched);
        assert forall|id: int| 0 <= id < self.slabs@.len() implies #[trigger] self.slabs@[id].ready(
            memory,
            class,
            owner,
        ) by {
            let slab = self.slabs@[id];
            assert(slab.ready(earlier, class, owner));
            assert forall|block: usize| #[trigger] touched.count(
                block,
            ) > 0 implies slab.free.held().count(block) == 0 by {
                assert(slab.held().count(block) <= self.held().count(block));
            }
            free_list::chain_is_kept(slab.free@, memory, earlier, touched);
            assert forall|block: usize| #[trigger] slab.free.held().count(block) > 0 implies local_slab::owned(
                memory,
                block as int,
                class,
                owner,
            ) by {
                assert(slab.held().count(block) > 0);
                assert(self.held().count(block) > 0);
                self.held_header_is_framed(memory, earlier, touched, block);
            }
        }
    }

    /// A non-empty cache has a place from which a block can leave.
    proof fn next_exists(self)
        requires
            self.wf(),
        ensures
            self.total_len > 0 ==> self.hot_block is Some || self.available_slabs@.len() > 0
                || self.shared@.len() > 0,
            self.hot_block is Some || self.available_slabs@.len() > 0 || self.shared@.len() > 0
                ==> self.total_len > 0,
    {
        broadcast use vstd::multiset::group_multiset_axioms;

        self.parts_are_held();
        if self.hot_block is None && self.available_slabs@.len() == 0 {
            assert forall|id: int| 0 <= id < self.slabs@.len() implies #[trigger] self.slabs@[id].wf()
                && !self.slabs@[id].available() by {
            }
            slabs_held_none(self.slabs@);
        }
        if self.available_slabs@.len() > 0 {
            let id = self.available_slabs@[0] as int;
            self.slabs@[id].held_facts();
            let block = self.slabs@[id].held().choose();
            assert(self.slabs@[id].held().count(block) > 0);
            assert(self.held().count(block) > 0);
        }
        if self.shared@.len() > 0 {
            assert(self.held().len() >= self.shared.held().len());
        }
    }

    /// Without shared blocks and slabs that can serve, only the hot block is left.
    proof fn nothing_but_hot(self)
        requires
            self.wf(),
            self.shared@.len() == 0,
            self.available_slabs@.len() == 0,
        ensures
            self.total_len <= 1,
    {
        broadcast use vstd::multiset::group_multiset_axioms;

        self.parts_are_held();
        assert forall|id: int| 0 <= id < self.slabs@.len() implies #[trigger] self.slabs@[id].wf()
            && !self.slabs@[id].available() by {
        }
        slabs_held_none(self.slabs@);
    }

    /// Creates an empty class cache.
    #[must_use]
    pub fn new() -> (cache: Self)
        ensures
            cache.wf(),
            cache.held() == Multiset::<usize>::empty(),
            cache.slabs@.len() == 0,
            cache.total_len == 0,
            forall|memory: Memory, class: SizeClass, owner: u32|
                cache.ready(memory, class, owner),
    {
        let cache = LocalClassCache {
            hot_block: None,
            slabs: Vec::new(),
            slabs_by_start: Vec::new(),
            available_slabs: Vec::new(),
            recent_slab: None,
            shared: FreeList::new(),
            shared_len: 0,
            total_len: 0,
        };
        proof {
            broadcast use vstd::multiset::group_multiset_axioms;

            blocks::blocks_of(cache.shared@);
            assert(cache.held() =~= Multiset::<usize>::empty());
            assert forall|memory: Memory, class: SizeClass, owner: u32| #[trigger] cache.ready(
                memory,
                class,
                owner,
            ) by {
                free_list::empty_chain(memory);
            }
        }
        cache
    }

    /// Returns the number of blocks that can be handed out.
    #[must_use]
    pub fn len(&self) -> (result: usize)
        ensures
            result == self.total_len,
    {
        self.total_len
    }

    /// Returns the number of blocks that statistics report.
    #[must_use]
    pub fn stats_len(&self) -> (result: usize)
        ensures
            result == self.total_len,
    {
        self.total_len
    }

    /// Whether no block can be handed out.
    #[must_use]
    pub fn is_empty(&self) -> (result: bool)
        ensures
            result == (self.total_len == 0),
    {
        self.total_len == 0
    }

    fn mark_slab_available(&mut self, slab_id: usize)
        requires
            old(self).linked(),
            slab_id < old(self).slabs@.len(),
        ensures
            final(self).linked(),
            final(self).same_contents(*old(self)),
            final(self).slabs@[slab_id as int].available_slot is Some,
            forall|id: int|
                0 <= id < old(self).slabs@.len() && id != slab_id ==> (
                #[trigger] final(self).slabs@[id]).available_slot == old(self).slabs@[id].available_slot,
            old(self).slabs@[slab_id as int].available_slot is None ==> final(self).available_slabs@ == old(self).available_slabs@.push(slab_id),
    {
        if self.slabs[slab_id].available_slot.is_some() {
            return;
        }
        let slot: usize = self.available_slabs.len();
        self.available_slabs.push(slab_id);
        self.slabs[slab_id].available_slot = Some(slot);
    }

    fn mark_slab_unavailable(&mut self, slab_id: usize)
        requires
            old(self).linked(),
            slab_id < old(self).slabs@.len(),
        ensures
            final(self).linked(),
            final(self).same_contents(*old(self)),
            final(self).slabs@[slab_id as int].available_slot is None,
            forall|id: int|
                0 <= id < old(self).slabs@.len() && id != slab_id ==> ((
                #[trigger] final(self).slabs@[id]).available_slot is Some <==> old(self).slabs@[id].available_slot is Some),
            old(self).slabs@[slab_id as int].available_slot is None ==> *final(self) == *old(self),
            old(self).available_slabs@.len() > 0 && old(self).available_slabs@.last() == slab_id
                ==> final(self).available_slabs@ == old(self).available_slabs@.drop_last(),
    {
        let slot: usize = match self.slabs[slab_id].available_slot {
            Some(slot) => slot,
            None => {
                return;
            },
        };
        self.slabs[slab_id].available_slot = None;
        let removed: usize = self.available_slabs.swap_remove(slot);
        if slot < self.available_slabs.len() {
            let moved_slab_id: usize = self.available_slabs[slot];
            self.slabs[moved_slab_id].available_slot = Some(slot);
        }
    }

    /// A part that is not changed by a step that keeps all held blocks of the others.
    proof fn held_update(self, other: Self, slab_id: int)
        requires
            self.slabs@.len() == other.slabs@.len(),
            0 <= slab_id < self.slabs@.len(),
            forall|id: int|
                0 <= id < self.slabs@.len() && id != slab_id ==> #[trigger] self.slabs@[id].same_blocks(
                    other.slabs@[id],
                ),
        ensures
            slabs_held(self.slabs@).add(other.slabs@[slab_id].held()) == slabs_held(
                other.slabs@,
            ).add(self.slabs@[slab_id].held()),
    {
        let middle = other.slabs@.update(slab_id, self.slabs@[slab_id]);
        slabs_held_update(other.slabs@, slab_id, self.slabs@[slab_id]);
        assert forall|id: int| 0 <= id < middle.len() implies #[trigger] middle[id].same_blocks(
            self.slabs@[id],
        ) by {
            if id != slab_id {
                assert(self.slabs@[id].same_blocks(other.slabs@[id]));
            }
        }
        slabs_held_same(middle, self.slabs@);
    }

    /// Counts the slabs that start at or below `addr`, in address order.
    fn slabs_not_above(&self, addr: usize) -> (count: usize)
        requires
            self.structure(),
        ensures
            count <= self.slabs_by_start@.len(),
            forall|k: int|
                0 <= k < count ==> self.slabs@[#[trigger] self.slabs_by_start@[k] as int].start
                    <= addr,
            forall|k: int|
                count <= k < self.slabs_by_start@.len()
                    ==> self.slabs@[#[trigger] self.slabs_by_start@[k] as int].start > addr,
    {
        let mut low: usize = 0;
        let mut high: usize = self.slabs_by_start.len();
        while low < high
            invariant
                self.structure(),
                low <= high <= self.slabs_by_start@.len(),
                forall|k: int|
                    0 <= k < low ==> self.slabs@[#[trigger] self.slabs_by_start@[k] as int].start
                        <= addr,
                forall|k: int|
                    high <= k < self.slabs_by_start@.len()
                        ==> self.slabs@[#[trigger] self.slabs_by_start@[k] as int].start > addr,
            decreases high - low,
        {
            let middle: usize = low + (high - low) / 2;
            let slab_id: usize = self.slabs_by_start[middle];
            proof {
                assert forall|k: int, l: int|
                    0 <= k < l < self.slabs_by_start@.len() implies self.slabs@[#[trigger] self.slabs_by_start@[k] as int].start
                    < self.slabs@[#[trigger] self.slabs_by_start@[l] as int].start by {
                    assert(self.slabs@[self.slabs_by_start@[k] as int].wf());
                    let region = self.slabs@[self.slabs_by_start@[k] as int].region();
                    region.block_is_inside(0);
                }
            }
            if self.slabs[slab_id].start <= addr {
                low = middle + 1;
            } else {
                high = middle;
            }
        }
        low
    }

    /// Finds the slab of this cache that `block` belongs to.
    fn find_slab(&self, block: usize) -> (result: Option<usize>)
        requires
            self.structure(),
        ensures
            match result {
                Some(id) => id < self.slabs@.len() && self.slabs@[id as int].region().has(
                    block as int,
                ),
                None => forall|id: int|
                    0 <= id < self.slabs@.len() ==> !(#[trigger] self.slabs@[id]).region().has(
                        block as int,
                    ),
            },
    {
        let index: usize = self.slabs_not_above(block);
        if index == 0 {
            proof {
                assert forall|id: int| 0 <= id < self.slabs@.len() implies !(
                #[trigger] self.slabs@[id]).region().has(block as int) by {
                    let k = self.place_of(id);
                    assert(self.slabs@[self.slabs_by_start@[k] as int].start > block);
                }
            }
            return None;
        }
        let slab_id: usize = self.slabs_by_start[index - 1];
        if self.slabs[slab_id].contains(block) {
            Some(slab_id)
        } else {
            proof {
                assert forall|id: int| 0 <= id < self.slabs@.len() implies !(
                #[trigger] self.slabs@[id]).region().has(block as int) by {
                    let k = self.place_of(id);
                    if k >= index {
                        assert(self.slabs@[self.slabs_by_start@[k] as int].start > block);
                    } else if k < index - 1 {
                        assert(self.slabs@[self.slabs_by_start@[k] as int].region().end()
                            <= self.slabs@[self.slabs_by_start@[index - 1] as int].region().start);
                    }
                }
            }
            None
        }
    }

    /// Takes over all blocks of a slab, as never handed out. A slab that this cache has a
    /// record of keeps that record.
    pub fn push_owned_slab(&mut self, start: usize, block_size: usize, capacity: usize)
        requires
            old(self).wf(),
            slab_region(start, block_size, capacity).valid(),
            forall|id: int|
                0 <= id < old(self).slabs@.len() ==> (#[trigger] old(self).slabs@[id]).region()
                    == slab_region(start, block_size, capacity) || old(self).slabs@[id].region().apart(
                    slab_region(start, block_size, capacity),
                ),
            forall|block: usize| #[trigger]
                old(self).held().count(block) > 0 ==> !slab_region(start, block_size, capacity).has(
                    block as int,
                ),
        ensures
            final(self).wf(),
            final(self).held() == old(self).held().add(
                slab_region(start, block_size, capacity).all(),
            ),
            final(self).total_len == old(self).total_len + capacity,
            forall|region: Region| #[trigger]
                final(self).owns(region) <==> old(self).owns(region) || region == slab_region(
                    start,
                    block_size,
                    capacity,
                ),
            final(self).slabs@.len() == if old(self).owns(slab_region(start, block_size, capacity)) {
                old(self).slabs@.len()
            } else {
                old(self).slabs@.len() + 1
            },
            final(self).took_slab(*old(self), slab_region(start, block_size, capacity)),
            final(self).hot_block is None ==> final(self).next() == (
                start,
                BlockReuse::NeedsHeaderRewrite,
            ),
            forall|memory: Memory, class: SizeClass, owner: u32|
                old(self).ready(memory, class, owner) ==> #[trigger] final(self).ready(
                    memory,
                    class,
                    owner,
                ),
    {
        let ghost region = slab_region(start, block_size, capacity);
        let count: usize = self.slabs_not_above(start);
        let mut known: bool = false;
        let mut slab_id: usize = 0;
        if count > 0 {
            slab_id = self.slabs_by_start[count - 1];
            known = self.slabs[slab_id].start == start;
        }
        proof {
            broadcast use vstd::multiset::group_multiset_axioms;

            self.parts_are_held();
            region.tail_counts(0);
            region.block_is_inside(0);
            if known {
                assert(self.slabs@[slab_id as int].wf());
                self.slabs@[slab_id as int].region().block_is_inside(0);
                assert(self.slabs@[slab_id as int].region() == region);
                self.slabs@[slab_id as int].held_facts();
                if self.slabs@[slab_id as int].available() {
                    let block = self.slabs@[slab_id as int].held().choose();
                    assert(self.slabs@[slab_id as int].held().count(block) > 0);
                    assert(self.held().count(block) > 0);
                }
                assert(self.slabs@[slab_id as int].held() =~= Multiset::<usize>::empty());
            }
            assert forall|block: usize| #[trigger] self.held().add(region.all()).count(block) <= 1 by {
            }
            blocks::countable_blocks(self.held().add(region.all()));
        }
        if known {
            self.mark_slab_unavailable(slab_id);
            proof {
                self.contents_are_kept(*old(self));
            }
            self.slabs[slab_id].reset();
            proof {
                self.held_update(*old(self), slab_id as int);
                assert(old(self).slabs@[slab_id as int].region() == region);
                self.sorted_is_kept(*old(self));
                let gone = old(self).slabs@[slab_id as int].held();
                assert(slabs_held(self.slabs@) =~= slabs_held(self.slabs@).add(gone)) by {
                    broadcast use vstd::multiset::group_multiset_axioms;

                }
            }
        } else {
            slab_id = self.slabs.len();
            let slab = LocalSlab::new(start, block_size, capacity);
            self.slabs.push(slab);
            self.slabs_by_start.insert(count, slab_id);
            proof {
                slabs_held_push(old(self).slabs@, slab);
                assert forall|id: int| 0 <= id < old(self).slabs@.len() implies (#[trigger] old(self).slabs@[id]).region().apart(region) by {
                    if old(self).slabs@[id].region() == region {
                        let k = old(self).place_of(id);
                        assert(old(self).slabs@[old(self).slabs_by_start@[k] as int].start
                            == start);
                        region.block_is_inside(0);
                        assert(k < count);
                        assert(k < count - 1);
                        assert(old(self).slabs@[old(self).slabs_by_start@[k] as int].region().end()
                            <= old(self).slabs@[old(self).slabs_by_start@[count
                            - 1] as int].region().start);
                    }
                }
                self.sorted_after_insert(*old(self), count as int, region);
            }
        }
        assert(slabs_held(self.slabs@) == slabs_held(old(self).slabs@).add(region.all()));
        let ghost middle = *self;
        self.mark_slab_available(slab_id);
        self.recent_slab = Some(slab_id);
        self.total_len = self.total_len + capacity;
        proof {
            broadcast use vstd::multiset::group_multiset_axioms;

            let marked = LocalClassCache {
                recent_slab: middle.recent_slab,
                total_len: middle.total_len,
                ..*self
            };
            marked.contents_are_kept(middle);
            self.sorted_is_kept(middle);
            assert(self.held() =~= old(self).held().add(region.all()));
            assert(self.slabs@[slab_id as int].region() == region);
            assert(self.available_slabs@.drop_last() =~= old(self).available_slabs@);
            assert forall|memory: Memory, class: SizeClass, owner: u32| old(self).ready(
                memory,
                class,
                owner,
            ) implies #[trigger] self.ready(memory, class, owner) by {
                assert forall|id: int| 0 <= id < self.slabs@.len() implies #[trigger] self.slabs@[id].ready(
                    memory,
                    class,
                    owner,
                ) by {
                    blocks::blocks_of(self.slabs@[id].free@);
                    free_list::empty_chain(memory);
                    if id != slab_id {
                        assert(old(self).slabs@[id].ready(memory, class, owner));
                        assert(self.slabs@[id].free@ == old(self).slabs@[id].free@);
                    }
                }
            }
            assert forall|other: Region| #[trigger] self.owns(other) <==> old(self).owns(other)
                || other == region by {
                if old(self).owns(other) {
                    let id = choose|id: int|
                        0 <= id < old(self).slabs@.len() && #[trigger] old(self).slabs@[id].region()
                            == other;
                    assert(self.slabs@[id].same_blocks(middle.slabs@[id]));
                    assert(self.slabs@[id].region() == other);
                }
                if self.owns(other) {
                    let id = choose|id: int|
                        0 <= id < self.slabs@.len() && #[trigger] self.slabs@[id].region() == other;
                    assert(self.slabs@[id].same_blocks(middle.slabs@[id]));
                    if id != slab_id {
                        assert(old(self).slabs@[id].region() == other);
                    }
                }
            }
        }
    }

    proof fn sorted_after_insert(self, before: Self, place: int, region: Region)
        requires
            before.structure(),
            region.valid(),
            0 <= place <= before.slabs_by_start@.len(),
            self.slabs@.len() == before.slabs@.len() + 1,
            forall|id: int| 0 <= id < before.slabs@.len() ==> self.slabs@[id] == before.slabs@[id],
            self.slabs@.last().region() == region,
            self.slabs_by_start@ == before.slabs_by_start@.insert(
                place,
                before.slabs@.len() as usize,
            ),
            before.slabs@.len() <= usize::MAX,
            forall|id: int|
                0 <= id < before.slabs@.len() ==> (#[trigger] before.slabs@[id]).region().apart(
                    region,
                ),
            forall|k: int|
                0 <= k < place ==> before.slabs@[#[trigger] before.slabs_by_start@[k] as int].start
                    <= region.start,
            forall|k: int|
                place <= k < before.slabs_by_start@.len()
                    ==> before.slabs@[#[trigger] before.slabs_by_start@[k] as int].start
                    > region.start,
        ensures
            self.sorted(),
    {
        let fresh = before.slabs@.len() as int;
        assert forall|id: int| 0 <= id < self.slabs@.len() implies #[trigger] self.is_listed(id) by {
            if id == fresh {
                assert(self.slabs_by_start@[place] == id);
            } else {
                let k = before.place_of(id);
                if k < place {
                    assert(self.slabs_by_start@[k] == id);
                } else {
                    assert(self.slabs_by_start@[k + 1] == id);
                }
            }
        }
        assert forall|k: int, l: int| 0 <= k < l < self.slabs_by_start@.len() implies self.slabs@[#[trigger] self.slabs_by_start@[k] as int].region().end()
            <= self.slabs@[#[trigger] self.slabs_by_start@[l] as int].region().start by {
            let from = if k < place {
                k
            } else {
                k - 1
            };
            let to = if l < place {
                l
            } else {
                l - 1
            };
            region.block_is_inside(0);
            if k == place {
                let other = before.slabs@[before.slabs_by_start@[to] as int];
                assert(other.wf());
                other.region().block_is_inside(0);
                assert(self.slabs_by_start@[l] == before.slabs_by_start@[to]);
            } else if l == place {
                let other = before.slabs@[before.slabs_by_start@[from] as int];
                assert(other.wf());
                other.region().block_is_inside(0);
                assert(self.slabs_by_start@[k] == before.slabs_by_start@[from]);
            } else {
                assert(self.slabs_by_start@[k] == before.slabs_by_start@[from]);
                assert(self.slabs_by_start@[l] == before.slabs_by_start@[to]);
            }
        }
    }

    /// Law: the header of the block that leaves next stands as its [`BlockReuse`] says.
    pub proof fn next_is_ready(self, memory: Memory, class: SizeClass, owner: u32)
        requires
            self.wf(),
            self.total_len > 0,
            self.ready(memory, class, owner),
        ensures
            self.held().count(self.next().0) > 0,
            match self.next().1 {
                BlockReuse::HotReuseRequestedOnly => local_slab::owned(
                    memory,
                    self.next().0 as int,
                    class,
                    owner,
                ),
                BlockReuse::NeedsOwnerAndRequestedSizeRefresh => header::prepared(
                    memory,
                    self.next().0 as int,
                    class,
                ),
                BlockReuse::NeedsHeaderRewrite => true,
            },
    {
        broadcast use vstd::multiset::group_multiset_axioms;

        self.next_exists();
        self.parts_are_held();
        blocks::blocks_of(self.shared@);
        if self.hot_block is None && self.available_slabs@.len() > 0 {
            let id = self.available_slabs@.last() as int;
            let slab = self.slabs@[id];
            assert(slab.wf());
            assert(slab.ready(memory, class, owner));
            slab.held_facts();
            slab.region().tail_counts(slab.next_fresh as int);
            if slab.free@.len() == 0 {
                slab.region().block_is_inside(slab.next_fresh as int);
            }
            assert(slab.held().count(slab.next().0) > 0);
        }
    }

    /// Pops one block, or `None` when the cache is empty.
    #[must_use]
    pub fn pop_block(&mut self, memory: &Memory) -> (result: Option<(usize, BlockReuse)>)
        requires
            old(self).wf(),
            old(self).chained(*memory),
        ensures
            final(self).wf(),
            final(self).same_slabs(*old(self)),
            old(self).total_len == 0 ==> result is None && *final(self) == *old(self),
            old(self).total_len > 0 ==> final(self).popped(*old(self)),
            old(self).total_len > 0 ==> result == Some(old(self).next()) && old(self).held()
                == final(self).held().insert(old(self).next().0) && final(self).total_len == old(self).total_len - 1,
            forall|bytes: Memory, class: SizeClass, owner: u32|
                old(self).ready(bytes, class, owner) ==> #[trigger] final(self).ready(
                    bytes,
                    class,
                    owner,
                ),
    {
        if self.total_len == 0 {
            None
        } else {
            Some(self.pop_block_unchecked(memory))
        }
    }

    /// Pops one block from a cache known to be non-empty.
    #[must_use]
    pub fn pop_block_unchecked(&mut self, memory: &Memory) -> (result: (usize, BlockReuse))
        requires
            old(self).wf(),
            old(self).total_len > 0,
            old(self).chained(*memory),
        ensures
            final(self).wf(),
            final(self).same_slabs(*old(self)),
            result == old(self).next(),
            final(self).popped(*old(self)),
            old(self).held() == final(self).held().insert(result.0),
            final(self).total_len == old(self).total_len - 1,
            forall|bytes: Memory, class: SizeClass, owner: u32|
                old(self).ready(bytes, class, owner) ==> #[trigger] final(self).ready(
                    bytes,
                    class,
                    owner,
                ),
    {
        proof {
            self.next_exists();
        }
        if let Some(block) = self.hot_block {
            self.hot_block = None;
            self.total_len = self.total_len - 1;
            proof {
                broadcast use vstd::multiset::group_multiset_axioms;

                assert(old(self).held() =~= self.held().insert(block));
                blocks::taken_out(old(self).held(), self.held(), block);
                self.sorted_is_kept(*old(self));
            }
            return (block, BlockReuse::HotReuseRequestedOnly);
        }
        if self.available_slabs.len() > 0 {
            let last: usize = self.available_slabs.len() - 1;
            let slab_id: usize = self.available_slabs[last];
            let (block, reuse) = self.slabs[slab_id].pop_block_unchecked(memory);
            self.recent_slab = Some(slab_id);
            self.total_len = self.total_len - 1;
            let ghost middle = *self;
            proof {
                self.held_update(*old(self), slab_id as int);
                self.sorted_is_kept(*old(self));
            }
            if !self.slabs[slab_id].has_available_blocks() {
                self.mark_slab_unavailable(slab_id);
                proof {
                    self.contents_are_kept(middle);
                    self.sorted_is_kept(middle);
                }
            }
            proof {
                broadcast use vstd::multiset::group_multiset_axioms;

                let before = old(self).slabs@[slab_id as int].held();
                let after = middle.slabs@[slab_id as int].held();
                let left = slabs_held(middle.slabs@).add(before);
                let right = slabs_held(old(self).slabs@).add(after);
                assert forall|other: usize| #[trigger] old(self).held().count(other)
                    == self.held().insert(block).count(other) by {
                    assert(left.count(other) == right.count(other));
                    assert(before.count(other) == after.insert(block).count(other));
                }
                assert(old(self).held() =~= self.held().insert(block));
                blocks::taken_out(old(self).held(), self.held(), block);
                assert forall|bytes: Memory, class: SizeClass, owner: u32| old(self).ready(
                    bytes,
                    class,
                    owner,
                ) implies #[trigger] self.ready(bytes, class, owner) by {
                    assert forall|id: int| 0 <= id < self.slabs@.len() implies #[trigger] self.slabs@[id].ready(
                        bytes,
                        class,
                        owner,
                    ) by {
                        assert(old(self).slabs@[id].ready(bytes, class, owner));
                        assert(old(self).slabs@[id].free.linked(bytes));
                        assert(self.slabs@[id].free@ == middle.slabs@[id].free@);
                    }
                }
            }
            return (block, reuse);
        }
        let block: usize = self.shared.pop_block_unchecked(memory);
        self.shared_len = self.shared_len - 1;
        self.total_len = self.total_len - 1;
        proof {
            broadcast use vstd::multiset::group_multiset_axioms;

            assert(old(self).held() =~= self.held().insert(block));
            blocks::taken_out(old(self).held(), self.held(), block);
            self.sorted_is_kept(*old(self));
            assert forall|other: usize| #[trigger] self.shared.held().count(other) > 0 implies old(self).shared.held().count(other) > 0 by {
                assert(old(self).shared.held().count(other) == self.shared.held().insert(block).count(other));
            }
            assert forall|bytes: Memory, class: SizeClass, owner: u32| old(self).ready(
                bytes,
                class,
                owner,
            ) implies #[trigger] self.ready(bytes, class, owner) by {
                let length = old(self).shared@.len();
                free_list::chain_below(old(self).shared@, bytes, length - 1);
                assert(old(self).shared@.take(length - 1) =~= self.shared@);
            }
        }
        (block, BlockReuse::NeedsOwnerAndRequestedSizeRefresh)
    }

    /// What `before` is with `block`, which is now the block freed last.
    pub open spec fn pushed(self, before: Self, block: usize) -> bool {
        match before.hot_block {
            Some(previous) => self.hot_block == Some(block) && self.spilled(before, previous),
            None => self == (LocalClassCache {
                hot_block: Some(block),
                total_len: self.total_len,
                ..before
            }),
        }
    }

    /// Where a block goes when a newer one takes the hot slot: the list of the slab it belongs
    /// to, or the shared list when no slab of this cache has it.
    pub open spec fn spilled(self, other: Self, block: usize) -> bool {
        &&& forall|id: int|
            #![trigger self.slabs@[id]]
            0 <= id < self.slabs@.len() ==> self.slabs@[id].next_fresh == other.slabs@[id].next_fresh
                && self.slabs@[id].free@ == if other.slabs@[id].region().has(block as int) {
                other.slabs@[id].free@.push(block)
            } else {
                other.slabs@[id].free@
            }
        &&& forall|id: int|
            0 <= id < other.slabs@.len() && (#[trigger] other.slabs@[id]).region().has(
                block as int,
            ) ==> self.available_slabs@ == if other.slabs@[id].available() {
                other.available_slabs@
            } else {
                other.available_slabs@.push(id as usize)
            }
        &&& if exists|id: int|
            0 <= id < other.slabs@.len() && (#[trigger] other.slabs@[id]).region().has(
                block as int,
            ) {
            self.shared@ == other.shared@
        } else {
            &&& self.shared@ == other.shared@.push(block)
            &&& self.available_slabs@ == other.available_slabs@
        }
    }

    /// Takes a freed block: it becomes the hot block, and the one that was hot is put away.
    pub fn push_block(&mut self, block: usize, memory: &mut Memory)
        requires
            old(self).wf(),
            block != 0,
            old(self).held().count(block) == 0,
            old(self).chained(*old(memory)),
            header::headers_fit(*old(memory), old(self).held()),
            header::header_fits(*old(memory), block as int),
        ensures
            final(self).chained(*final(memory)),
            final(memory).wf(),
            header::changes(
                *final(memory),
                *old(memory),
                Multiset::empty(),
                slot_held(old(self).hot_block),
            ),
            old(self).hot_block is None ==> *final(memory) == *old(memory),
            final(self).wf(),
            final(self).same_slabs(*old(self)),
            final(self).hot_block == Some(block),
            final(self).held() == old(self).held().insert(block),
            final(self).total_len == old(self).total_len + 1,
            final(self).pushed(*old(self), block),
            forall|class: SizeClass, owner: u32|
                old(self).ready(*old(memory), class, owner) && local_slab::owned(
                    *old(memory),
                    block as int,
                    class,
                    owner,
                ) ==> #[trigger] final(self).ready(*final(memory), class, owner),
    {
        proof {
            broadcast use vstd::multiset::group_multiset_axioms;

            assert forall|other: usize| #[trigger] self.held().insert(block).count(other) <= 1 by {
                assert(self.held().count(other) <= 1);
            }
            blocks::countable_blocks(self.held().insert(block));
        }
        if let Some(previous) = self.hot_block {
            self.hot_block = Some(block);
            self.total_len = self.total_len + 1;
            let ghost middle = *self;
            proof {
                broadcast use vstd::multiset::group_multiset_axioms;

                old(self).parts_are_held();
                self.sorted_is_kept(*old(self));
                assert(old(self).held().count(previous) <= 1);
                assert(slot_held(old(self).hot_block).count(previous) == 1);
                assert(self.shared.held().count(previous) == 0);
                assert(self.chained(*memory));
                assert forall|id: int| 0 <= id < self.slabs@.len() implies (
                #[trigger] self.slabs@[id]).held().count(previous) == 0 by {
                    slabs_held_has(self.slabs@, id);
                }
            }
            self.push_spilled_block(previous, memory);
            proof {
                broadcast use vstd::multiset::group_multiset_axioms;

                header::changes_link(*memory, *old(memory), previous);
                assert forall|class: SizeClass, owner: u32|
                    old(self).ready(*old(memory), class, owner) && local_slab::owned(
                        *old(memory),
                        block as int,
                        class,
                        owner,
                    ) implies #[trigger] self.ready(*memory, class, owner) by {
                    assert(middle.ready(*old(memory), class, owner));
                }

                let rest = self.shared.held().add(slabs_held(self.slabs@));
                let earlier = middle.shared.held().add(slabs_held(middle.slabs@)).insert(previous);
                assert forall|other: usize| #[trigger] self.held().count(other) == old(self).held().insert(block).count(other) by {
                    assert(rest.count(other) == earlier.count(other));
                }
                assert(self.held() =~= old(self).held().insert(block));
            }
            return;
        }
        self.hot_block = Some(block);
        self.total_len = self.total_len + 1;
        proof {
            broadcast use vstd::multiset::group_multiset_axioms;

            assert(self.held() =~= old(self).held().insert(block));
            self.sorted_is_kept(*old(self));
            header::changes_nothing(
                *memory,
                Multiset::empty(),
                slot_held(old(self).hot_block),
            );
        }
    }

    /// The cache is ready after a block went into one of its lists.
    proof fn ready_after_spill(
        self,
        before: Self,
        memory: Memory,
        earlier: Memory,
        block: usize,
        class: SizeClass,
        owner: u32,
    )
        requires
            before.ready(earlier, class, owner),
            local_slab::owned(earlier, block as int, class, owner),
            self.chained(memory),
            self.same_slabs(before),
            self.hot_block == before.hot_block,
            before.hot_block matches Some(hot) ==> header::header_fits(earlier, hot as int),
            header::header_fits(earlier, block as int),
            memory.wf(),
            memory.same_outside(earlier, block + 24, 8),
            forall|id: int|
                #![trigger self.slabs@[id]]
                0 <= id < self.slabs@.len() ==> self.slabs@[id].free@ == before.slabs@[id].free@
                    || self.slabs@[id].free@ == before.slabs@[id].free@.push(block),
            self.shared@ == before.shared@ || self.shared@ == before.shared@.push(block),
        ensures
            self.ready(memory, class, owner),
    {
        broadcast use vstd::multiset::group_multiset_axioms;

        let (none, one) = (Multiset::<usize>::empty(), Multiset::singleton(block));
        header::changes_link(memory, earlier, block);
        assert(header::headers_fit(memory, one));
        if let Some(hot) = self.hot_block {
            header::header_is_relinked(memory, earlier, none, one, hot as int);
        }
        blocks::push_block(before.shared@, block);
        assert forall|other: usize| #[trigger] self.shared.held().count(
            other,
        ) > 0 implies header::prepared(memory, other as int, class) by {
            assert(header::prepared(earlier, other as int, class)) by {
                if other != block {
                    assert(before.shared.held().count(other) > 0);
                }
            }
            header::header_is_relinked(memory, earlier, none, one, other as int);
        }
        assert forall|id: int| 0 <= id < self.slabs@.len() implies #[trigger] self.slabs@[id].ready(
            memory,
            class,
            owner,
        ) by {
            let (slab, old_slab) = (self.slabs@[id], before.slabs@[id]);
            assert(old_slab.ready(earlier, class, owner));
            blocks::push_block(old_slab.free@, block);
            assert(slab.free.linked(memory));
            assert forall|other: usize| #[trigger] slab.free.held().count(
                other,
            ) > 0 implies local_slab::owned(memory, other as int, class, owner) by {
                assert(local_slab::owned(earlier, other as int, class, owner)) by {
                    if other != block {
                        assert(old_slab.free.held().count(other) > 0);
                    }
                }
                header::header_is_relinked(memory, earlier, none, one, other as int);
            }
        }
    }

    /// Puts a block away in its slab, or in the shared list.
    fn push_spilled_block(&mut self, block: usize, memory: &mut Memory)
        requires
            old(self).chained(*old(memory)),
            header::header_fits(*old(memory), block as int),
            old(self).hot_block matches Some(hot) ==> header::header_fits(*old(memory), hot as int),
            old(self).shared.held().count(block) == 0,
            old(self).structure(),
            forall|id: int|
                0 <= id < old(self).slabs@.len() ==> (#[trigger] old(self).slabs@[id]).held().count(
                    block,
                ) == 0,
            old(self).shared@.len() < usize::MAX,
        ensures
            final(self).structure(),
            final(self).same_slabs(*old(self)),
            final(self).spilled(*old(self), block),
            final(self).hot_block == old(self).hot_block,
            final(self).total_len == old(self).total_len,
            final(self).shared.held().add(slabs_held(final(self).slabs@)) == old(self).shared.held().add(slabs_held(old(self).slabs@)).insert(block),
            final(self).chained(*final(memory)),
            final(memory).wf(),
            final(memory).same_outside(*old(memory), block + 24, 8),
            forall|class: SizeClass, owner: u32|
                old(self).ready(*old(memory), class, owner) && local_slab::owned(
                    *old(memory),
                    block as int,
                    class,
                    owner,
                ) ==> #[trigger] final(self).ready(*final(memory), class, owner),
    {
        let mut found: Option<usize> = None;
        if let Some(recent) = self.recent_slab {
            if self.slabs[recent].contains(block) {
                found = Some(recent);
            }
        }
        if found.is_none() {
            found = self.find_slab(block);
            if found.is_some() {
                self.recent_slab = found;
            }
        }
        if let Some(slab_id) = found {
            let ghost start = *self;
            let was_empty: bool = !self.slabs[slab_id].has_available_blocks();
            assert(self.slabs@[slab_id as int].free.linked(*memory));
            self.slabs[slab_id].push_block(block, memory);
            let ghost middle = *self;
            proof {
                self.held_update(*old(self), slab_id as int);
                self.sorted_is_kept(*old(self));
            }
            if was_empty {
                self.mark_slab_available(slab_id);
                proof {
                    self.contents_are_kept(middle);
                    self.sorted_is_kept(middle);
                }
            }
            proof {
                broadcast use vstd::multiset::group_multiset_axioms;

                let before = old(self).slabs@[slab_id as int].held();
                let after = middle.slabs@[slab_id as int].held();
                let left = slabs_held(middle.slabs@).add(before);
                let right = slabs_held(old(self).slabs@).add(after);
                let rest = old(self).shared.held().add(slabs_held(old(self).slabs@)).insert(block);
                assert forall|other: usize| #[trigger] rest.count(other) == self.shared.held().add(
                    slabs_held(self.slabs@),
                ).count(other) by {
                    assert(left.count(other) == right.count(other));
                    assert(after.count(other) == before.insert(block).count(other));
                }
                assert(self.shared.held().add(slabs_held(self.slabs@)) =~= rest);
                assert forall|id: int| 0 <= id < old(self).slabs@.len() && id != slab_id implies !(
                #[trigger] old(self).slabs@[id]).region().has(block as int) by {
                    old(self).slabs_apart(id, slab_id as int);
                }
                assert(old(self).slabs@[slab_id as int].region().has(block as int));
                assert(self.chained(*memory)) by {
                    free_list::chain_is_spared(self.shared@, *memory, *old(memory), block);
                    assert forall|id: int| 0 <= id < self.slabs@.len() implies (
                    #[trigger] self.slabs@[id]).free.linked(*memory) by {
                        assert(self.slabs@[id].free@ == middle.slabs@[id].free@);
                        if id != slab_id {
                            assert(old(self).slabs@[id].free.linked(*old(memory)));
                            assert(old(self).slabs@[id].held().count(block) == 0);
                            free_list::chain_is_spared(
                                self.slabs@[id].free@,
                                *memory,
                                *old(memory),
                                block,
                            );
                        }
                    }
                }
                assert forall|class: SizeClass, owner: u32|
                    old(self).ready(*old(memory), class, owner) && local_slab::owned(
                        *old(memory),
                        block as int,
                        class,
                        owner,
                    ) implies #[trigger] self.ready(*memory, class, owner) by {
                    self.ready_after_spill(
                        *old(self),
                        *memory,
                        *old(memory),
                        block,
                        class,
                        owner,
                    );
                }
            }
            return;
        }
        self.shared.push_block(block, memory);
        self.shared_len = self.shared_len + 1;
        proof {
            broadcast use vstd::multiset::group_multiset_axioms;

            assert(self.chained(*memory)) by {
                assert forall|id: int| 0 <= id < self.slabs@.len() implies (
                #[trigger] self.slabs@[id]).free.linked(*memory) by {
                    assert(old(self).slabs@[id].free.linked(*old(memory)));
                    assert(old(self).slabs@[id].held().count(block) == 0);
                    free_list::chain_is_spared(
                        self.slabs@[id].free@,
                        *memory,
                        *old(memory),
                        block,
                    );
                }
            }
            assert forall|class: SizeClass, owner: u32|
                old(self).ready(*old(memory), class, owner) && local_slab::owned(
                    *old(memory),
                    block as int,
                    class,
                    owner,
                ) implies #[trigger] self.ready(*memory, class, owner) by {
                self.ready_after_spill(*old(self), *memory, *old(memory), block, class, owner);
            }

            self.sorted_is_kept(*old(self));
            assert(self.shared.held().add(slabs_held(self.slabs@)) =~= old(self).shared.held().add(slabs_held(old(self).slabs@)).insert(block));
        }
    }

    /// Takes a batch of blocks from the central pool into the shared list.
    pub fn push_shared_batch(&mut self, batch: Batch, memory: &mut Memory)
        requires
            old(self).wf(),
            blocks::distinct(old(self).held().add(batch.held())),
            batch.held().count(0) == 0,
            old(self).chained(*old(memory)),
            header::headers_fit(*old(memory), old(self).held()),
            batch.linked(*old(memory)),
        ensures
            final(memory).wf(),
            header::changes(*final(memory), *old(memory), Multiset::empty(), batch.held()),
            final(self).wf(),
            final(self).same_slabs(*old(self)),
            final(self).held() == old(self).held().add(batch.held()),
            final(self).total_len == old(self).total_len + batch@.len(),
            *final(self) == (LocalClassCache {
                shared: final(self).shared,
                shared_len: final(self).shared_len,
                total_len: final(self).total_len,
                ..*old(self)
            }),
            final(self).shared@ == old(self).shared@ + batch@,
            forall|class: SizeClass, owner: u32|
                old(self).ready(*old(memory), class, owner) && (forall|block: usize| #[trigger]
                    batch.held().count(block) > 0 ==> header::prepared(
                        *old(memory),
                        block as int,
                        class,
                    )) ==> #[trigger] final(self).ready(*final(memory), class, owner),
    {
        let length: usize = batch.len();
        proof {
            broadcast use vstd::multiset::group_multiset_axioms;

            blocks::countable_blocks(self.held().add(batch.held()));
            blocks::blocks_of(batch@);
            self.parts_are_held();
            assert forall|block: usize| #[trigger] self.shared.held().add(batch.held()).count(
                block,
            ) <= 1 by {
                assert(self.shared.held().count(block) <= self.held().count(block));
                assert(self.held().add(batch.held()).count(block) <= 1);
            }
        }
        self.shared.push_batch(batch, memory);
        self.shared_len = self.shared_len + length;
        self.total_len = self.total_len + length;
        proof {
            broadcast use vstd::multiset::group_multiset_axioms;

            self.sorted_is_kept(*old(self));
            assert(self.held() =~= old(self).held().add(batch.held()));
            let none = Multiset::<usize>::empty();
            header::changes_touch(*memory, *old(memory), none, batch.held(), batch.held());
            assert(header::headers_fit(*memory, batch.held()));
            assert forall|class: SizeClass, owner: u32|
                old(self).ready(*old(memory), class, owner) && (forall|block: usize| #[trigger]
                    batch.held().count(block) > 0 ==> header::prepared(
                        *old(memory),
                        block as int,
                        class,
                    )) implies #[trigger] self.ready(*memory, class, owner) by {
                assert forall|block: usize| #[trigger] batch.held().count(
                    block,
                ) > 0 implies old(self).held().count(block) == 0 && header::prepared(
                    *memory,
                    block as int,
                    class,
                ) by {
                    assert(old(self).held().add(batch.held()).count(block) <= 1);
                    header::header_is_relinked(
                        *memory,
                        *old(memory),
                        none,
                        batch.held(),
                        block as int,
                    );
                }
                old(self).ready_is_framed(*memory, *old(memory), batch.held(), class, owner);
            }
        }
    }

    /// The blocks never handed out among `max` drained ones.
    pub open spec fn fresh_drained(self, max: int) -> Multiset<usize> {
        if self.shared@.len() == 0 && self.available_slabs@.len() > 0 {
            self.slabs@[self.available_slabs@.last() as int].fresh_drained(max)
        } else {
            Multiset::empty()
        }
    }

    /// Blocks never handed out are held, and the hot block is not one of them.
    pub proof fn fresh_is_not_hot(self, max: int)
        requires
            self.wf(),
            max > 0,
        ensures
            forall|block: usize| #[trigger]
                self.fresh_drained(max).count(block) > 0 ==> self.held().count(block) > 0
                    && self.hot_block != Some(block),
    {
        broadcast use vstd::multiset::group_multiset_axioms;

        if self.shared@.len() == 0 && self.available_slabs@.len() > 0 {
            let id = self.available_slabs@.last() as int;
            let slab = self.slabs@[id];
            assert(slab.wf());
            self.parts_are_held();
            slab.region().tail_counts(slab.next_fresh as int);
            local_slab::fresh_run_counts(
                slab.region(),
                slab.next_fresh as int,
                slab.fresh_of(max),
            );
            assert forall|block: usize| #[trigger] self.fresh_drained(max).count(
                block,
            ) > 0 implies self.held().count(block) > 0 && self.hot_block != Some(block) by {
                assert(slab.held().count(block) > 0);
                assert(slab.held().count(block) <= self.held().count(block));
                if self.hot_block == Some(block) {
                    slabs_held_has(self.slabs@, id);
                    assert(slot_held(self.hot_block).count(block) == 1);
                    assert(self.held().count(block) >= 2);
                }
            }
        }
    }

    /// Detaches up to `max` blocks for transfer to the central pool. The headers of blocks
    /// never handed out that leave are initialized.
    pub fn pop_batch(&mut self, max: usize, class: SizeClass, memory: &mut Memory) -> (batch: Batch)
        requires
            old(self).wf(),
            old(self).total_len > 0,
            max > 0,
            header::headers_fit(*old(memory), old(self).held()),
            forall|id: int|
                0 <= id < old(self).slabs@.len() ==> local_slab::region_fits(
                    *old(memory),
                    (#[trigger] old(self).slabs@[id]).region(),
                ),
            old(self).chained(*old(memory)),
        ensures
            batch.linked(*final(memory)),
            final(self).wf(),
            final(self).same_slabs(*old(self)),
            batch@ == old(self).drained(max as int),
            batch@.len() > 0,
            final(self).left_by_drain(*old(self), max as int),
            old(self).held() == final(self).held().add(batch.held()),
            final(self).total_len == old(self).total_len - batch@.len(),
            old(self).total_len > 1 ==> final(self).hot_block == old(self).hot_block,
            final(memory).wf(),
            header::changes(
                *final(memory),
                *old(memory),
                old(self).fresh_drained(max as int),
                batch.held(),
            ),
            header::changes_close(*final(memory), *old(memory)),
            forall|block: usize| #[trigger]
                old(self).fresh_drained(max as int).count(block) > 0 ==> batch.held().count(block)
                    > 0,
            forall|owner: u32| #[trigger]
                old(self).ready(*old(memory), class, owner) ==> final(self).ready(
                    *final(memory),
                    class,
                    owner,
                ) && forall|block: usize| #[trigger]
                    batch.held().count(block) > 0 ==> header::prepared(
                        *final(memory),
                        block as int,
                        class,
                    ),
    {
        proof {
            self.next_exists();
            self.parts_are_held();
        }
        if self.shared_len != 0 {
            let batch = self.shared.pop_batch_unchecked(max, memory);
            let length: usize = batch.len();
            proof {
                blocks::blocks_of(old(self).shared@);
            }
            self.shared_len = self.shared_len - length;
            self.total_len = self.total_len - length;
            proof {
                broadcast use vstd::multiset::group_multiset_axioms;

                assert(old(self).held() =~= self.held().add(batch.held()));
                blocks::split_in_two(old(self).held(), self.held(), batch.held());
                blocks::blocks_of(batch@);
                self.sorted_is_kept(*old(self));
                assert(batch@ =~= old(self).drained(max as int));
                let kept = old(self).shared@.len() - batch@.len();
                assert(self.shared@ =~= old(self).shared@.take(kept as int));
                assert forall|block: usize| #[trigger] self.shared.held().count(block) > 0 implies old(self).shared.held().count(block) > 0 by {
                    assert(old(self).shared.held().count(block) == self.shared.held().add(
                        batch.held(),
                    ).count(block));
                }
                assert forall|block: usize| #[trigger] batch.held().count(block) > 0 implies old(self).shared.held().count(block) > 0 by {
                    assert(old(self).shared.held().count(block) == self.shared.held().add(
                        batch.held(),
                    ).count(block));
                }
                header::closes_links(*memory, *old(memory), batch.held());
                assert forall|owner: u32| #[trigger] old(self).ready(
                    *old(memory),
                    class,
                    owner,
                ) implies self.ready(*memory, class, owner) && forall|block: usize| #[trigger]
                    batch.held().count(block) > 0 ==> header::prepared(
                        *memory,
                        block as int,
                        class,
                    ) by {
                    free_list::chain_below(old(self).shared@, *old(memory), kept as int);
                    assert(self.ready(*old(memory), class, owner));
                    self.ready_after_batch(
                        *memory,
                        *old(memory),
                        Multiset::empty(),
                        batch.held(),
                        class,
                        owner,
                    );
                }
            }
            return batch;
        }
        if self.available_slabs.len() > 0 {
            return self.pop_slab_batch(max, class, memory);
        }
        proof {
            broadcast use vstd::multiset::group_multiset_axioms;

            assert(self.hot_block is Some);
            self.nothing_but_hot();
        }
        match self.hot_block {
            Some(block) => {
                self.hot_block = None;
                self.total_len = self.total_len - 1;
                let batch = Batch::from_single(block, memory);
                proof {
                    broadcast use vstd::multiset::group_multiset_axioms;

                    single_block(block);
                    header::changes_link(*memory, *old(memory), block);
                    header::closes_links(*memory, *old(memory), batch.held());
                    assert(old(self).held() =~= self.held().add(batch.held()));
                    blocks::split_in_two(old(self).held(), self.held(), batch.held());
                    self.sorted_is_kept(*old(self));
                    assert forall|owner: u32| #[trigger] old(self).ready(
                        *old(memory),
                        class,
                        owner,
                    ) implies self.ready(*memory, class, owner) && forall|block: usize| #[trigger]
                        batch.held().count(block) > 0 ==> header::prepared(
                            *memory,
                            block as int,
                            class,
                        ) by {
                        assert(self.ready(*old(memory), class, owner));
                        self.ready_after_batch(
                            *memory,
                            *old(memory),
                            Multiset::empty(),
                            batch.held(),
                            class,
                            owner,
                        );
                    }
                }
                batch
            },
            None => Batch::empty(),
        }
    }

    /// Detaches up to `max` blocks of the slab that became able to serve last.
    fn pop_slab_batch(&mut self, max: usize, class: SizeClass, memory: &mut Memory) -> (batch: Batch)
        requires
            old(self).wf(),
            old(self).total_len > 0,
            max > 0,
            old(self).shared@.len() == 0,
            old(self).available_slabs@.len() > 0,
            header::headers_fit(*old(memory), old(self).held()),
            forall|id: int|
                0 <= id < old(self).slabs@.len() ==> local_slab::region_fits(
                    *old(memory),
                    (#[trigger] old(self).slabs@[id]).region(),
                ),
            old(self).chained(*old(memory)),
        ensures
            batch.linked(*final(memory)),
            final(self).wf(),
            final(self).same_slabs(*old(self)),
            batch@ == old(self).drained(max as int),
            batch@.len() > 0,
            final(self).left_by_drain(*old(self), max as int),
            old(self).held() == final(self).held().add(batch.held()),
            final(self).total_len == old(self).total_len - batch@.len(),
            old(self).total_len > 1 ==> final(self).hot_block == old(self).hot_block,
            final(memory).wf(),
            header::changes(
                *final(memory),
                *old(memory),
                old(self).fresh_drained(max as int),
                batch.held(),
            ),
            header::changes_close(*final(memory), *old(memory)),
            forall|block: usize| #[trigger]
                old(self).fresh_drained(max as int).count(block) > 0 ==> batch.held().count(block)
                    > 0,
            forall|owner: u32| #[trigger]
                old(self).ready(*old(memory), class, owner) ==> final(self).ready(
                    *final(memory),
                    class,
                    owner,
                ) && forall|block: usize| #[trigger]
                    batch.held().count(block) > 0 ==> header::prepared(
                        *final(memory),
                        block as int,
                        class,
                    ),
    {
        proof {
            self.parts_are_held();
        }
        let last: usize = self.available_slabs.len() - 1;
        let slab_id: usize = self.available_slabs[last];
        assert(self.slabs@[slab_id as int].free.linked(*memory));
        let batch = self.slabs[slab_id].pop_batch(max, class, memory);
        let length: usize = batch.len();
        let ghost middle = *self;
        proof {
            broadcast use vstd::multiset::group_multiset_axioms;

            self.held_update(*old(self), slab_id as int);
            self.sorted_is_kept(*old(self));
            let before = old(self).slabs@[slab_id as int].held();
            let after = self.slabs@[slab_id as int].held();
            let left = slabs_held(self.slabs@).add(before);
            let right = slabs_held(old(self).slabs@).add(after);
            assert forall|other: usize| #[trigger] old(self).held().count(other)
                == self.held().add(batch.held()).count(other) by {
                assert(left.count(other) == right.count(other));
                assert(before.count(other) == after.add(batch.held()).count(other));
            }
            assert(old(self).held() =~= self.held().add(batch.held()));
            blocks::split_in_two(old(self).held(), self.held(), batch.held());
            blocks::blocks_of(batch@);
        }
        self.total_len = self.total_len - length;
        if !self.slabs[slab_id].has_available_blocks() {
            self.mark_slab_unavailable(slab_id);
        }
        proof {
            let marked = LocalClassCache { total_len: middle.total_len, ..*self };
            marked.contents_are_kept(middle);
            self.sorted_is_kept(middle);
            let slab = old(self).slabs@[slab_id as int];
            assert forall|owner: u32| #[trigger] old(self).ready(
                *old(memory),
                class,
                owner,
            ) implies self.ready(*memory, class, owner) && forall|block: usize| #[trigger]
                batch.held().count(block) > 0 ==> header::prepared(
                    *memory,
                    block as int,
                    class,
                ) by {
                self.ready_after_slab_drain(
                    *old(self),
                    *memory,
                    *old(memory),
                    slab_id as int,
                    max as int,
                    batch.held(),
                    class,
                    owner,
                );
            }
            slab.drained_facts(max as int);
        }
        batch
    }

    /// The cache is ready, and so are the blocks of a batch that left it, once they are linked.
    proof fn ready_after_batch(
        self,
        memory: Memory,
        earlier: Memory,
        fresh: Multiset<usize>,
        batch: Multiset<usize>,
        class: SizeClass,
        owner: u32,
    )
        requires
            self.ready(earlier, class, owner),
            memory.wf(),
            header::changes(memory, earlier, fresh, batch),
            header::headers_fit(memory, batch),
            header::headers_fit(memory, self.held()),
            forall|block: usize| #[trigger] fresh.count(block) > 0 ==> batch.count(block) > 0,
            forall|block: usize| #[trigger] batch.count(block) > 0 ==> self.held().count(block) == 0,
            forall|block: usize| #[trigger]
                fresh.count(block) > 0 ==> header::prepared(memory, block as int, class),
            forall|block: usize| #[trigger]
                batch.count(block) > 0 && fresh.count(block) == 0 ==> header::prepared(
                    earlier,
                    block as int,
                    class,
                ),
        ensures
            self.ready(memory, class, owner),
            forall|block: usize| #[trigger]
                batch.count(block) > 0 ==> header::prepared(memory, block as int, class),
    {
        header::changes_touch(memory, earlier, fresh, batch, batch);
        self.ready_is_framed(memory, earlier, batch, class, owner);
        assert forall|block: usize| #[trigger] batch.count(block) > 0 implies header::prepared(
            memory,
            block as int,
            class,
        ) by {
            if fresh.count(block) == 0 {
                header::header_is_relinked(memory, earlier, fresh, batch, block as int);
            }
        }
    }

    proof fn ready_after_slab_drain(
        self,
        before: Self,
        memory: Memory,
        earlier: Memory,
        slab_id: int,
        max: int,
        batch: Multiset<usize>,
        class: SizeClass,
        owner: u32,
    )
        requires
            before.wf(),
            before.ready(earlier, class, owner),
            0 <= slab_id < before.slabs@.len(),
            max > 0,
            before.slabs@[slab_id].wf(),
            batch == before.slabs@[slab_id].drained(max).to_multiset(),
            before.held() == self.held().add(batch),
            self.hot_block == before.hot_block,
            self.shared@ == before.shared@,
            self.same_slabs(before),
            forall|id: int|
                #![trigger self.slabs@[id]]
                0 <= id < self.slabs@.len() && id != slab_id ==> self.slabs@[id].free@
                    == before.slabs@[id].free@,
            self.slabs@[slab_id].free@ == before.slabs@[slab_id].free@.take(
                before.slabs@[slab_id].free@.len() - before.slabs@[slab_id].reclaimed_of(max),
            ),
            header::headers_fit(earlier, before.held()),
            memory.wf(),
            header::changes(memory, earlier, before.slabs@[slab_id].fresh_drained(max), batch),
            header::headers_fit(memory, batch),
            forall|block: usize| #[trigger]
                before.slabs@[slab_id].fresh_drained(max).count(block) > 0 ==> header::prepared(
                    memory,
                    block as int,
                    class,
                ),
        ensures
            self.ready(memory, class, owner),
            forall|block: usize| #[trigger]
                batch.count(block) > 0 ==> header::prepared(memory, block as int, class),
    {
        broadcast use vstd::multiset::group_multiset_axioms;

        let slab = before.slabs@[slab_id];
        let touched = slab.fresh_drained(max);
        slab.drained_facts(max);
        before.parts_are_held();
        blocks::split_in_two(before.held(), self.held(), batch);
        assert(slab.ready(earlier, class, owner));
        assert forall|id: int| 0 <= id < self.slabs@.len() implies #[trigger] self.slabs@[id].ready(
            earlier,
            class,
            owner,
        ) by {
            assert(before.slabs@[id].ready(earlier, class, owner));
            if id == slab_id {
                let kept = self.slabs@[id].free@;
                free_list::chain_below(slab.free@, earlier, kept.len() as int);
                blocks::blocks_of(kept);
                blocks::blocks_of(slab.free@);
                assert forall|block: usize| #[trigger] self.slabs@[id].free.held().count(block)
                    > 0 implies local_slab::owned(earlier, block as int, class, owner) by {
                    let index = choose|index: int| 0 <= index < kept.len() && kept[index] == block;
                    assert(slab.free@[index] == block);
                    assert(slab.free.held().count(block) > 0);
                }
            } else {
                assert(self.slabs@[id].free.held() == before.slabs@[id].free.held());
            }
        }
        assert forall|block: usize| #[trigger] touched.count(block) > 0 implies header::header_fits(
            memory,
            block as int,
        ) && before.held().count(block) > 0 && self.held().count(block) == 0 by {
            assert(batch.count(block) > 0);
        }
        assert forall|block: usize| #[trigger] batch.count(block) > 0 && touched.count(
            block,
        ) == 0 implies header::prepared(earlier, block as int, class) by {
            assert(slab.free.held().count(block) > 0);
        }
        self.ready_after_batch(memory, earlier, touched, batch, class, owner);
    }
}

/// The region of a slab given by its three numbers.
pub open spec fn slab_region(start: usize, block_size: usize, capacity: usize) -> Region {
    Region { start: start as int, block_size: block_size as int, capacity: capacity as int }
}

/// A collection of one block.
pub proof fn single_block(block: usize)
    ensures
        seq![block].to_multiset() == Multiset::singleton(block),
{
    broadcast use vstd::multiset::group_multiset_axioms;

    blocks::push_block(Seq::<usize>::empty(), block);
    blocks::blocks_of(Seq::<usize>::empty());
    assert(Seq::<usize>::empty().push(block) =~= seq![block]);
    assert(seq![block].to_multiset() =~= Multiset::singleton(block));
}

} // verus!
