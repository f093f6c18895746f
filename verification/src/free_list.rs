use vstd::multiset::Multiset;
use vstd::prelude::*;

use crate::blocks;
use crate::header;
use crate::header::{read_small_free_list_next, write_small_free_list_next};
use crate::memory::Memory;

verus! {

/// Intrusive LIFO list of detached allocator blocks, each named by its start address. The link
/// word in a block's header holds the block that follows it.
///
/// The last block of the view is the list's front: the one that is popped next.
pub struct FreeList {
    head: Option<usize>,
    len: usize,
    blocks: Ghost<Seq<usize>>,
}

/// Detached chain of blocks used for transfers between lists, in list order.
pub struct Batch {
    head: Option<usize>,
    tail: Option<usize>,
    len: usize,
    blocks: Ghost<Seq<usize>>,
}

/// The front of a list of `blocks`.
pub open spec fn front(blocks: Seq<usize>) -> Option<usize> {
    if blocks.len() == 0 {
        None
    } else {
        Some(blocks.last())
    }
}

/// The address that the link word of the block at position `index` holds: that of the block
/// below it, or zero at the end of the list.
pub open spec fn below(blocks: Seq<usize>, index: int) -> int {
    if index == 0 {
        0
    } else {
        blocks[index - 1] as int
    }
}

/// The headers of `blocks`, which are different, link each block to the one below it.
pub open spec fn chain(blocks: Seq<usize>, memory: Memory) -> bool {
    &&& forall|block: usize| #[trigger]
        blocks.to_multiset().count(block) > 0 ==> header::header_fits(memory, block as int)
    &&& blocks::distinct(blocks.to_multiset())
    &&& forall|index: int|
        0 <= index < blocks.len() ==> #[trigger] header::link(memory, blocks[index] as int)
            == below(blocks, index)
}

/// No two positions of a chain hold the same block, and each block has a header in memory.
pub proof fn chain_facts(blocks: Seq<usize>, memory: Memory)
    requires
        chain(blocks, memory),
    ensures
        blocks.no_duplicates(),
        blocks.to_multiset().count(0) == 0,
        blocks.len() <= usize::MAX,
        forall|index: int|
            0 <= index < blocks.len() ==> header::header_fits(
                memory,
                #[trigger] blocks[index] as int,
            ) && blocks[index] != 0 && blocks.to_multiset().count(blocks[index]) > 0,
{
    blocks::blocks_of(blocks);
    blocks.lemma_multiset_has_no_duplicates_conv();
    assert(!header::header_fits(memory, 0));
    blocks::countable_blocks(blocks.to_multiset());
}

/// A chain stays a chain when blocks are taken off its front.
pub proof fn chain_below(blocks: Seq<usize>, memory: Memory, length: int)
    requires
        chain(blocks, memory),
        0 <= length <= blocks.len(),
    ensures
        chain(blocks.take(length), memory),
{
    broadcast use vstd::multiset::group_multiset_axioms;

    let part = blocks.take(length);
    let rest = blocks.skip(length);
    assert(blocks =~= part + rest);
    blocks::concat_blocks(part, rest);
    assert forall|block: usize| #[trigger] part.to_multiset().count(block)
        <= blocks.to_multiset().count(block) by {
    }
    assert forall|block: usize| #[trigger] part.to_multiset().count(block) <= 1 by {
        assert(blocks.to_multiset().count(block) <= 1);
    }
    assert forall|block: usize| #[trigger] part.to_multiset().count(
        block,
    ) > 0 implies header::header_fits(memory, block as int) by {
        assert(blocks.to_multiset().count(block) > 0);
    }
    assert forall|index: int| 0 <= index < part.len() implies #[trigger] header::link(
        memory,
        part[index] as int,
    ) == below(part, index) by {
        assert(header::link(memory, blocks[index] as int) == below(blocks, index));
    }
}

/// A chain stays a chain when only headers of blocks elsewhere change.
pub proof fn chain_is_kept(
    blocks: Seq<usize>,
    memory: Memory,
    earlier: Memory,
    touched: Multiset<usize>,
)
    requires
        chain(blocks, earlier),
        memory.wf(),
        header::touches_only(memory, earlier, touched),
        header::headers_fit(memory, touched),
        forall|block: usize| #[trigger]
            touched.count(block) > 0 ==> blocks.to_multiset().count(block) == 0,
    ensures
        chain(blocks, memory),
{
    chain_facts(blocks, earlier);
    assert forall|index: int| 0 <= index < blocks.len() implies #[trigger] header::link(
        memory,
        blocks[index] as int,
    ) == below(blocks, index) by {
        let block = blocks[index];
        assert(header::link(earlier, block as int) == below(blocks, index));
        assert(header::header_fits(memory, block as int));
        assert forall|other: usize| #[trigger] touched.count(other) > 0 implies other + 64 <= block
            || block + 64 <= other by {
            header::headers_are_apart(memory, block as int, other as int);
        }
        header::header_is_untouched(memory, earlier, touched, block as int);
    }
}

/// A chain stays a chain when one link word elsewhere changes.
pub proof fn chain_is_spared(blocks: Seq<usize>, memory: Memory, earlier: Memory, block: usize)
    requires
        chain(blocks, earlier),
        memory.wf(),
        header::header_fits(memory, block as int),
        memory.same_outside(earlier, block + 24, 8),
        blocks.to_multiset().count(block) == 0,
    ensures
        chain(blocks, memory),
{
    broadcast use vstd::multiset::group_multiset_axioms;

    header::touches_one(memory, earlier, block, block + 24, 8);
    chain_is_kept(blocks, memory, earlier, Multiset::singleton(block));
}

/// A chain stays a chain when a byte outside its headers changes.
pub proof fn chain_survives_byte(blocks: Seq<usize>, memory: Memory, earlier: Memory, address: int)
    requires
        chain(blocks, earlier),
        memory.wf(),
        memory.same_outside(earlier, address, 1),
        forall|block: usize| #[trigger]
            blocks.to_multiset().count(block) > 0 ==> !(block <= address < block + 64),
    ensures
        chain(blocks, memory),
{
    chain_facts(blocks, earlier);
    assert forall|index: int| 0 <= index < blocks.len() implies #[trigger] header::link(
        memory,
        blocks[index] as int,
    ) == below(blocks, index) by {
        assert(header::link(earlier, blocks[index] as int) == below(blocks, index));
        assert(header::header_fits(earlier, blocks[index] as int));
        header::header_is_framed(memory, earlier, blocks[index] as int, address, 1);
    }
}

/// A chain stays a chain when its headers keep their bytes.
pub proof fn chain_is_same(blocks: Seq<usize>, memory: Memory, earlier: Memory)
    requires
        chain(blocks, earlier),
        memory.wf(),
        memory.same_place(earlier),
        forall|block: usize| #[trigger]
            blocks.to_multiset().count(block) > 0 ==> header::same_header(
                memory,
                earlier,
                block as int,
            ),
    ensures
        chain(blocks, memory),
{
    chain_facts(blocks, earlier);
    assert forall|index: int| 0 <= index < blocks.len() implies #[trigger] header::link(
        memory,
        blocks[index] as int,
    ) == below(blocks, index) by {
        assert(header::link(earlier, blocks[index] as int) == below(blocks, index));
        header::header_is_kept(memory, earlier, blocks[index] as int);
    }
}

/// No blocks at all are a chain.
pub proof fn empty_chain(memory: Memory)
    ensures
        chain(Seq::empty(), memory),
{
    broadcast use vstd::multiset::group_multiset_axioms;

    blocks::blocks_of(Seq::<usize>::empty());
}

impl View for FreeList {
    type V = Seq<usize>;

    closed spec fn view(&self) -> Seq<usize> {
        self.blocks@
    }
}

impl View for Batch {
    type V = Seq<usize>;

    closed spec fn view(&self) -> Seq<usize> {
        self.blocks@
    }
}

impl FreeList {
    #[verifier::type_invariant]
    spec fn counted(self) -> bool {
        &&& self.len == self.blocks@.len()
        &&& self.head == front(self.blocks@)
    }

    /// The blocks of the list without their order.
    pub open spec fn held(self) -> Multiset<usize> {
        self@.to_multiset()
    }

    /// The blocks of the list are linked in `memory`.
    pub open spec fn linked(self, memory: Memory) -> bool {
        chain(self@, memory)
    }

    /// Creates an empty free list.
    #[must_use]
    pub fn new() -> (list: Self)
        ensures
            list@ == Seq::<usize>::empty(),
    {
        FreeList { head: None, len: 0, blocks: Ghost(Seq::empty()) }
    }

    /// Returns the number of linked blocks.
    #[must_use]
    pub fn len(&self) -> (result: usize)
        ensures
            result == self@.len(),
    {
        proof {
            use_type_invariant(self);
        }
        self.len
    }

    /// Returns `true` when the list has no blocks.
    #[must_use]
    pub fn is_empty(&self) -> (result: bool)
        ensures
            result == (self@.len() == 0),
    {
        proof {
            use_type_invariant(self);
        }
        self.head.is_none()
    }

    /// Pushes a free block onto the list: its link word names the block that was at the front.
    pub fn push_block(&mut self, block: usize, memory: &mut Memory)
        requires
            old(self).linked(*old(memory)),
            header::header_fits(*old(memory), block as int),
            old(self).held().count(block) == 0,
        ensures
            final(self)@ == old(self)@.push(block),
            final(self).held() == old(self).held().insert(block),
            final(self).linked(*final(memory)),
            final(memory).wf(),
            final(memory).same_outside(*old(memory), block + 24, 8),
    {
        proof {
            broadcast use vstd::multiset::group_multiset_axioms;

            use_type_invariant(&*self);
            blocks::push_block(self@, block);
            chain_facts(self@, *memory);
            let more = self.held().insert(block);
            assert forall|other: usize| #[trigger] more.count(other) <= 1 by {
                assert(self.held().count(other) <= 1);
            }
            assert(!header::header_fits(*memory, 0));
            blocks::countable_blocks(more);
        }
        write_small_free_list_next(memory, block, self.head);
        *self = FreeList {
            head: Some(block),
            len: self.len + 1,
            blocks: Ghost(self.blocks@.push(block)),
        };
        proof {
            broadcast use vstd::multiset::group_multiset_axioms;

            chain_is_spared(old(self)@, *memory, *old(memory), block);
            assert forall|index: int| 0 <= index < self@.len() implies #[trigger] header::link(
                *memory,
                self@[index] as int,
            ) == below(self@, index) by {
                if index < old(self)@.len() {
                    assert(header::link(*memory, old(self)@[index] as int) == below(
                        old(self)@,
                        index,
                    ));
                }
            }
        }
    }

    /// Pops one free block from the list. Its link word keeps its stale value.
    #[must_use]
    pub fn pop_block(&mut self, memory: &Memory) -> (result: Option<usize>)
        requires
            old(self).linked(*memory),
        ensures
            old(self)@.len() == 0 ==> result is None && final(self)@ == old(self)@,
            old(self)@.len() > 0 ==> result == Some(old(self)@.last()) && final(self)@ == old(self)@.drop_last() && old(self).held() == final(self).held().insert(old(self)@.last()),
            final(self).linked(*memory),
    {
        proof {
            use_type_invariant(&*self);
        }
        if self.len == 0 {
            return None;
        }
        Some(self.pop_block_unchecked(memory))
    }

    /// Pops one free block from a list that is known to be non-empty. Its link word keeps its
    /// stale value.
    #[must_use]
    pub fn pop_block_unchecked(&mut self, memory: &Memory) -> (block: usize)
        requires
            old(self).linked(*memory),
            old(self)@.len() > 0,
        ensures
            block == old(self)@.last(),
            final(self)@ == old(self)@.drop_last(),
            old(self).held() == final(self).held().insert(block),
            final(self).linked(*memory),
    {
        let ghost rest = self@.drop_last();
        proof {
            use_type_invariant(&*self);
            blocks::push_block(rest, self@.last());
            assert(rest.push(self@.last()) =~= self@);
            chain_facts(self@, *memory);
            chain_below(self@, *memory, self@.len() - 1);
            assert(self@.take(self@.len() - 1) =~= rest);
            assert(header::link(*memory, self@[self@.len() - 1] as int) == below(
                self@,
                self@.len() - 1,
            ));
        }
        let block: usize = self.head.unwrap();
        let next: Option<usize> = read_small_free_list_next(memory, block);
        *self = FreeList { head: next, len: self.len - 1, blocks: Ghost(rest) };
        block
    }

    /// Prepends a detached batch to this list while preserving batch order: the link word of the
    /// last block of the batch names the block that was at the front.
    pub fn push_batch(&mut self, batch: Batch, memory: &mut Memory)
        requires
            old(memory).wf(),
            old(self).linked(*old(memory)),
            batch.linked(*old(memory)),
            blocks::distinct(old(self).held().add(batch.held())),
        ensures
            final(self)@ == old(self)@ + batch@,
            final(self).held() == old(self).held().add(batch.held()),
            final(self).linked(*final(memory)),
            final(memory).wf(),
            header::changes(*final(memory), *old(memory), Multiset::empty(), batch.held()),
    {
        let ghost (under, over) = (self@, batch@);
        proof {
            use_type_invariant(&*self);
            use_type_invariant(&batch);
            blocks::concat_blocks(under, over);
            header::changes_nothing(*memory, Multiset::empty(), batch.held());
        }
        let Batch { head, tail, len, blocks } = batch;
        if len == 0 {
            assert(under =~= under + over);
            return;
        }
        proof {
            broadcast use vstd::multiset::group_multiset_axioms;

            chain_facts(under, *memory);
            chain_facts(over, *memory);
            blocks::countable_blocks(under.to_multiset().add(over.to_multiset()));
            blocks::blocks_of(under);
            blocks::blocks_of(over);
            assert(under.to_multiset().count(over[0]) == 0) by {
                assert(under.to_multiset().add(over.to_multiset()).count(over[0]) <= 1);
            }
        }
        let last: usize = tail.unwrap();
        write_small_free_list_next(memory, last, self.head);
        *self = FreeList {
            head,
            len: self.len + len,
            blocks: Ghost(self.blocks@ + blocks@),
        };
        proof {
            broadcast use vstd::multiset::group_multiset_axioms;

            header::changes_link(*memory, *old(memory), last);
            header::changes_widen(
                *memory,
                *old(memory),
                Multiset::empty(),
                Multiset::singleton(last),
                Multiset::empty(),
                over.to_multiset(),
            );
            chain_is_spared(under, *memory, *old(memory), last);
            joined_chain(under, over, *memory, *old(memory));
        }
    }

    /// Detaches up to `max` blocks from the front of the list.
    #[must_use]
    pub fn pop_batch(&mut self, max: usize, memory: &mut Memory) -> (batch: Batch)
        requires
            old(memory).wf(),
            old(self).linked(*old(memory)),
        ensures
            old(self)@ == final(self)@ + batch@,
            batch@.len() == if max <= old(self)@.len() {
                max as nat
            } else {
                old(self)@.len()
            },
            old(self).held() == final(self).held().add(batch.held()),
            final(self).linked(*final(memory)),
            batch.linked(*final(memory)),
            final(memory).wf(),
            header::changes(*final(memory), *old(memory), Multiset::empty(), batch.held()),
    {
        proof {
            use_type_invariant(&*self);
        }
        if max == 0 || self.len == 0 {
            let batch = Batch::empty();
            proof {
                assert(self@ =~= self@ + batch@);
                blocks::concat_blocks(self@, batch@);
                empty_chain(*memory);
                header::changes_nothing(*memory, Multiset::empty(), batch.held());
            }
            return batch;
        }
        self.pop_batch_unchecked(max, memory)
    }

    /// Detaches up to `max` blocks from the front of a list that is known to be non-empty: the
    /// link word of the last block detached is cleared.
    #[must_use]
    pub fn pop_batch_unchecked(&mut self, max: usize, memory: &mut Memory) -> (batch: Batch)
        requires
            old(self).linked(*old(memory)),
            max > 0,
            old(self)@.len() > 0,
        ensures
            old(self)@ == final(self)@ + batch@,
            batch@.len() == if max <= old(self)@.len() {
                max as nat
            } else {
                old(self)@.len()
            },
            old(self).held() == final(self).held().add(batch.held()),
            final(self).linked(*final(memory)),
            batch.linked(*final(memory)),
            final(memory).wf(),
            header::changes(*final(memory), *old(memory), Multiset::empty(), batch.held()),
    {
        proof {
            use_type_invariant(&*self);
            chain_facts(self@, *memory);
        }
        let ghost whole = self@;
        let take: usize = if max < self.len {
            max
        } else {
            self.len
        };
        let head: usize = self.head.unwrap();
        let mut tail: usize = head;
        let mut walked: usize = 1;
        while walked < take
            invariant
                1 <= walked <= take <= whole.len(),
                chain(whole, *memory),
                tail == whole[whole.len() - walked],
            decreases take - walked,
        {
            proof {
                chain_facts(whole, *memory);
                assert(header::link(*memory, whole[whole.len() - walked] as int) == below(
                    whole,
                    whole.len() - walked,
                ));
            }
            tail = read_small_free_list_next(memory, tail).unwrap();
            walked = walked + 1;
        }
        let ghost left = whole.take(whole.len() - take);
        let ghost taken = whole.skip(whole.len() - take);
        proof {
            broadcast use vstd::multiset::group_multiset_axioms;

            chain_facts(whole, *memory);
            assert(whole =~= left + taken);
            blocks::concat_blocks(left, taken);
            blocks::blocks_of(taken);
            assert(taken[0] == tail);
            assert(header::link(*memory, whole[whole.len() - take] as int) == below(
                whole,
                whole.len() - take,
            ));
            assert(left.to_multiset().count(tail) == 0) by {
                assert(whole.to_multiset().count(tail) <= 1);
            }
        }
        let remainder: Option<usize> = read_small_free_list_next(memory, tail);
        write_small_free_list_next(memory, tail, None);
        *self = FreeList { head: remainder, len: self.len - take, blocks: Ghost(left) };
        let batch = Batch { head: Some(head), tail: Some(tail), len: take, blocks: Ghost(taken) };
        proof {
            broadcast use vstd::multiset::group_multiset_axioms;

            header::changes_link(*memory, *old(memory), tail);
            header::changes_widen(
                *memory,
                *old(memory),
                Multiset::empty(),
                Multiset::singleton(tail),
                Multiset::empty(),
                taken.to_multiset(),
            );
            chain_below(whole, *old(memory), whole.len() - take);
            chain_is_spared(left, *memory, *old(memory), tail);
            cut_chain(whole, whole.len() - take, *memory, *old(memory));
        }
        batch
    }
}

impl Batch {
    #[verifier::type_invariant]
    spec fn counted(self) -> bool {
        &&& self.len == self.blocks@.len()
        &&& self.head == front(self.blocks@)
        &&& self.tail == if self.blocks@.len() == 0 {
            None
        } else {
            Some(self.blocks@[0])
        }
    }

    /// The blocks of the batch without their order.
    pub open spec fn held(self) -> Multiset<usize> {
        self@.to_multiset()
    }

    /// The blocks of the batch are linked in `memory`.
    pub open spec fn linked(self, memory: Memory) -> bool {
        chain(self@, memory)
    }

    /// Creates an empty detached batch.
    #[must_use]
    pub fn empty() -> (batch: Self)
        ensures
            batch@ == Seq::<usize>::empty(),
    {
        Batch { head: None, tail: None, len: 0, blocks: Ghost(Seq::empty()) }
    }

    /// Returns the number of blocks in the batch.
    #[must_use]
    pub fn len(&self) -> (result: usize)
        ensures
            result == self@.len(),
    {
        proof {
            use_type_invariant(self);
        }
        self.len
    }

    /// Creates a detached single-block batch: the link word of the block is cleared.
    #[must_use]
    pub fn from_single(block: usize, memory: &mut Memory) -> (batch: Self)
        requires
            header::header_fits(*old(memory), block as int),
        ensures
            batch@ == seq![block],
            batch.linked(*final(memory)),
            final(memory).wf(),
            final(memory).same_outside(*old(memory), block + 24, 8),
    {
        write_small_free_list_next(memory, block, None);
        let ghost one = seq![block];
        let batch = Batch { head: Some(block), tail: Some(block), len: 1, blocks: Ghost(one) };
        proof {
            broadcast use vstd::multiset::group_multiset_axioms;

            blocks::blocks_of(batch@);
            blocks::push_block(Seq::empty(), block);
            blocks::blocks_of(Seq::<usize>::empty());
            assert(Seq::<usize>::empty().push(block) =~= seq![block]);
        }
        batch
    }

    /// Returns `true` when the batch has no blocks.
    #[must_use]
    pub fn is_empty(&self) -> (result: bool)
        ensures
            result == (self@.len() == 0),
    {
        proof {
            use_type_invariant(self);
        }
        self.head.is_none()
    }
}

/// Two chains are one when the last block of the upper one links to the front of the lower one.
proof fn joined_chain(under: Seq<usize>, over: Seq<usize>, memory: Memory, earlier: Memory)
    requires
        chain(under, memory),
        chain(over, earlier),
        over.len() > 0,
        blocks::distinct(under.to_multiset().add(over.to_multiset())),
        memory.wf(),
        memory.same_outside(earlier, over[0] + 24, 8),
        header::link(memory, over[0] as int) == match front(under) {
            Some(block) => block as int,
            None => 0,
        },
    ensures
        chain(under + over, memory),
{
    broadcast use vstd::multiset::group_multiset_axioms;

    let whole = under + over;
    blocks::concat_blocks(under, over);
    chain_facts(over, earlier);
    assert forall|index: int| 0 <= index < whole.len() implies #[trigger] header::link(
        memory,
        whole[index] as int,
    ) == below(whole, index) by {
        if index < under.len() {
            assert(header::link(memory, under[index] as int) == below(under, index));
        } else if index > under.len() {
            let at = index - under.len();
            assert(header::link(earlier, over[at] as int) == below(over, at));
            assert(over[at] != over[0]);
            header::headers_are_apart(earlier, over[at] as int, over[0] as int);
            header::header_is_framed(memory, earlier, over[at] as int, over[0] + 24, 8);
        }
    }
}

/// The upper part of a chain is a chain once the link word of its last block is cleared.
proof fn cut_chain(whole: Seq<usize>, place: int, memory: Memory, earlier: Memory)
    requires
        chain(whole, earlier),
        0 <= place < whole.len(),
        memory.wf(),
        memory.same_outside(earlier, whole[place] + 24, 8),
        header::link(memory, whole[place] as int) == 0,
    ensures
        chain(whole.skip(place), memory),
{
    broadcast use vstd::multiset::group_multiset_axioms;

    let taken = whole.skip(place);
    assert(whole =~= whole.take(place) + taken);
    blocks::concat_blocks(whole.take(place), taken);
    chain_facts(whole, earlier);
    assert forall|block: usize| #[trigger] taken.to_multiset().count(block) <= 1 by {
        assert(whole.to_multiset().count(block) <= 1);
    }
    assert forall|block: usize| #[trigger] taken.to_multiset().count(
        block,
    ) > 0 implies header::header_fits(memory, block as int) by {
        assert(whole.to_multiset().count(block) > 0);
    }
    assert forall|index: int| 0 <= index < taken.len() implies #[trigger] header::link(
        memory,
        taken[index] as int,
    ) == below(taken, index) by {
        if index > 0 {
            let at = place + index;
            assert(header::link(earlier, whole[at] as int) == below(whole, at));
            assert(whole[at] != whole[place]);
            header::headers_are_apart(earlier, whole[at] as int, whole[place] as int);
            header::header_is_framed(memory, earlier, whole[at] as int, whole[place] + 24, 8);
        }
    }
}

/// Law: a batch taken from one list and pushed onto another comes out of the second list
/// in the order in which the first would have given it, ahead of what was there before.
pub proof fn batch_keeps_list_order(source: Seq<usize>, rest: Seq<usize>, batch: Seq<usize>, target: Seq<usize>)
    requires
        source == rest + batch,
    ensures
        (target + batch).len() == target.len() + batch.len(),
        forall|nth: int|
            0 <= nth < batch.len() ==> #[trigger] (target + batch)[(target + batch).len() - 1 - nth]
                == source[source.len() - 1 - nth],
        forall|nth: int|
            0 <= nth < target.len() ==> (target + batch)[target.len() - 1 - nth] == #[trigger] target[target.len()
                - 1 - nth],
{
}

} // verus!
