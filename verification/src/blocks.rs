use vstd::multiset::Multiset;
use vstd::prelude::*;

verus! {

/// The blocks of one slab: `capacity` blocks of `block_size` bytes, one after the other
/// from address `start`.
pub struct Region {
    pub start: int,
    pub block_size: int,
    pub capacity: int,
}

impl Region {
    /// The region holds at least one block and ends inside the address space.
    pub open spec fn valid(self) -> bool {
        &&& 0 < self.start
        &&& 0 < self.block_size
        &&& 0 < self.capacity
        &&& self.end() <= usize::MAX
    }

    /// The first address behind the region.
    pub open spec fn end(self) -> int {
        self.start + self.block_size * self.capacity
    }

    /// The address of the block at position `index`.
    pub open spec fn block(self, index: int) -> int {
        self.start + self.block_size * index
    }

    /// `address` is the start of one of the region's blocks.
    pub open spec fn has(self, address: int) -> bool {
        &&& self.start <= address < self.end()
        &&& (address - self.start) % self.block_size == 0
    }

    /// The two regions share no byte.
    pub open spec fn apart(self, other: Self) -> bool {
        self.end() <= other.start || other.end() <= self.start
    }

    /// The blocks from position `index` to the end of the region.
    pub open spec fn tail(self, index: int) -> Multiset<usize>
        decreases self.capacity - index,
    {
        if index >= self.capacity {
            Multiset::empty()
        } else {
            self.tail(index + 1).insert(self.block(index) as usize)
        }
    }

    /// All blocks of the region.
    pub open spec fn all(self) -> Multiset<usize> {
        self.tail(0)
    }

    /// The block at a position of the region lies inside it.
    pub proof fn block_is_inside(self, index: int)
        requires
            self.valid(),
            0 <= index < self.capacity,
        ensures
            self.has(self.block(index)),
            self.start <= self.block(index),
            self.block(index) + self.block_size <= self.end(),
            self.block(index) as usize == self.block(index),
    {
        let (size, capacity) = (self.block_size, self.capacity);
        assert(0 <= size * index && size * index + size <= size * capacity) by (nonlinear_arith)
            requires
                0 <= index < capacity,
                0 < size,
        ;
        assert((size * index) % size == 0) by {
            vstd::arithmetic::div_mod::lemma_mod_multiples_basic(index, size);
            assert(size * index == index * size) by (nonlinear_arith);
        }
    }

    /// Every block of the region stands at exactly one position.
    pub proof fn position_of(self, address: int) -> (index: int)
        requires
            self.valid(),
            self.has(address),
        ensures
            0 <= index < self.capacity,
            self.block(index) == address,
            index == (address - self.start) / self.block_size,
            address + self.block_size <= self.end(),
    {
        let (size, capacity) = (self.block_size, self.capacity);
        let offset = address - self.start;
        let index = offset / size;
        vstd::arithmetic::div_mod::lemma_fundamental_div_mod(offset, size);
        assert(0 <= index < capacity) by (nonlinear_arith)
            requires
                offset == size * index,
                0 <= offset < size * capacity,
                0 < size,
        ;
        self.block_is_inside(index);
        index
    }

    /// Later positions have higher addresses, at least one block size apart.
    pub proof fn blocks_ascend(self, low: int, high: int)
        requires
            self.valid(),
            low < high,
        ensures
            self.block(low) + self.block_size <= self.block(high),
    {
        let size = self.block_size;
        assert(size * low + size <= size * high) by (nonlinear_arith)
            requires
                low < high,
                0 < size,
        ;
    }

    /// Two different blocks of a region do not overlap.
    pub proof fn blocks_do_not_overlap(self, one: int, other: int)
        requires
            self.valid(),
            self.has(one),
            self.has(other),
            one != other,
        ensures
            one + self.block_size <= other || other + self.block_size <= one,
    {
        let i = self.position_of(one);
        let j = self.position_of(other);
        if i < j {
            self.blocks_ascend(i, j);
        } else {
            self.blocks_ascend(j, i);
        }
    }

    /// A tail holds each block from its first position on exactly once, and nothing else.
    pub proof fn tail_counts(self, index: int)
        requires
            self.valid(),
            0 <= index <= self.capacity,
        ensures
            self.tail(index).len() == self.capacity - index,
            forall|address: usize|
                #[trigger] self.tail(index).count(address) == if self.has(address as int) && address
                    >= self.block(index) {
                    1nat
                } else {
                    0nat
                },
        decreases self.capacity - index,
    {
        broadcast use vstd::multiset::group_multiset_axioms;

        if index == self.capacity {
            assert forall|address: usize| !(self.has(address as int) && address >= self.block(index)) by {
            }
        } else {
            self.tail_counts(index + 1);
            self.block_is_inside(index);
            let first = self.block(index) as usize;
            assert forall|address: usize| #[trigger]
                self.tail(index).count(address) == if self.has(address as int) && address >= self.block(
                    index,
                ) {
                    1nat
                } else {
                    0nat
                } by {
                self.blocks_ascend(index, index + 1);
                if address == first {
                } else if self.has(address as int) && address > first {
                    let j = self.position_of(address as int);
                    if j < index {
                        self.blocks_ascend(j, index);
                    } else if j > index + 1 {
                        self.blocks_ascend(index + 1, j);
                    }
                }
            }
        }
    }

    /// As many different blocks of the region as it has are all of them.
    pub proof fn full_when_counted(self, blocks: Multiset<usize>)
        requires
            self.valid(),
            forall|address: usize| #[trigger] blocks.count(address) > 0 ==> self.has(address as int),
            forall|address: usize| #[trigger] blocks.count(address) <= 1,
            blocks.len() >= self.capacity,
        ensures
            blocks == self.all(),
    {
        broadcast use vstd::multiset::group_multiset_axioms;

        self.tail_counts(0);
        let rest = self.all().sub(blocks);
        assert(self.all() =~= blocks.add(rest));
        assert(rest.len() == 0);
        assert(blocks =~= self.all());
    }

    /// A collection of different blocks of the region holds at most `capacity` of them.
    pub proof fn at_most_capacity(self, blocks: Multiset<usize>)
        requires
            self.valid(),
            forall|address: usize| #[trigger] blocks.count(address) > 0 ==> self.has(address as int),
            forall|address: usize| #[trigger] blocks.count(address) <= 1,
        ensures
            blocks.len() <= self.capacity,
    {
        broadcast use vstd::multiset::group_multiset_axioms;

        self.tail_counts(0);
        let rest = self.all().sub(blocks);
        assert(self.all() =~= blocks.add(rest));
    }
}

/// No block occurs twice.
pub open spec fn distinct(blocks: Multiset<usize>) -> bool {
    forall|address: usize| #[trigger] blocks.count(address) <= 1
}

/// The blocks of two sequences placed one behind the other.
pub proof fn concat_blocks(front: Seq<usize>, back: Seq<usize>)
    ensures
        (front + back).to_multiset() == front.to_multiset().add(back.to_multiset()),
{
    vstd::seq_lib::lemma_multiset_commutative(front, back);
}

/// One more block at the end of a sequence.
pub proof fn push_block(blocks: Seq<usize>, block: usize)
    ensures
        blocks.push(block).to_multiset() == blocks.to_multiset().insert(block),
        blocks.push(block).to_multiset().len() == blocks.len() + 1,
        blocks.to_multiset().len() == blocks.len(),
{
    broadcast use vstd::seq_lib::group_to_multiset_ensures;

}

/// A sequence's blocks are the elements of its collection, and both have the same size.
pub proof fn blocks_of(blocks: Seq<usize>)
    ensures
        blocks.to_multiset().len() == blocks.len(),
        forall|address: usize| #[trigger]
            blocks.to_multiset().count(address) > 0 <==> blocks.contains(address),
        forall|index: int|
            0 <= index < blocks.len() ==> blocks.to_multiset().count(#[trigger] blocks[index]) > 0,
{
    broadcast use vstd::seq_lib::group_to_multiset_ensures;

}

/// Different addresses below `limit` are at most `limit` many, and one fewer without zero.
pub proof fn bounded_blocks(blocks: Multiset<usize>, limit: int)
    requires
        0 < limit,
        distinct(blocks),
        blocks.count(0) == 0,
        forall|address: usize| #[trigger] blocks.count(address) > 0 ==> address < limit,
    ensures
        blocks.len() <= limit - 1,
    decreases limit,
{
    broadcast use vstd::multiset::group_multiset_axioms;

    if limit == 1 {
        if blocks.len() > 0 {
            let address = blocks.choose();
            assert(blocks.count(address) > 0);
        }
    } else if limit - 1 <= usize::MAX && blocks.count((limit - 1) as usize) > 0 {
        let last = (limit - 1) as usize;
        let rest = blocks.remove(last);
        bounded_blocks(rest, limit - 1);
        assert(rest.len() == blocks.len() - 1);
    } else {
        bounded_blocks(blocks, limit - 1);
    }
}

/// Different blocks, none of them at address zero, are few enough to be counted in a `usize`.
pub proof fn countable_blocks(blocks: Multiset<usize>)
    requires
        distinct(blocks),
        blocks.count(0) == 0,
    ensures
        blocks.len() <= usize::MAX,
{
    bounded_blocks(blocks, usize::MAX + 1);
}

/// Taking one block out of a collection of different blocks.
pub proof fn taken_out(all: Multiset<usize>, rest: Multiset<usize>, block: usize)
    requires
        all == rest.insert(block),
        distinct(all),
        all.count(0) == 0,
    ensures
        distinct(rest),
        rest.count(0) == 0,
        rest.count(block) == 0,
        block != 0,
        all.len() == rest.len() + 1,
        forall|other: usize| #[trigger] rest.count(other) <= all.count(other),
{
    broadcast use vstd::multiset::group_multiset_axioms;

    assert forall|other: usize| #[trigger] rest.count(other) <= all.count(other) by {
    }
    assert forall|other: usize| #[trigger] rest.count(other) <= 1 by {
        assert(all.count(other) <= 1);
    }
    assert(all.count(block) <= 1);
}

/// Splitting a collection of different blocks in two.
pub proof fn split_in_two(all: Multiset<usize>, rest: Multiset<usize>, part: Multiset<usize>)
    requires
        all == rest.add(part),
        distinct(all),
        all.count(0) == 0,
    ensures
        distinct(rest),
        distinct(part),
        rest.count(0) == 0,
        part.count(0) == 0,
        all.len() == rest.len() + part.len(),
        forall|other: usize| #[trigger] rest.count(other) > 0 ==> part.count(other) == 0,
        forall|other: usize| #[trigger] part.count(other) > 0 ==> rest.count(other) == 0,
        forall|other: usize| #[trigger] rest.count(other) <= all.count(other),
        forall|other: usize| #[trigger] part.count(other) <= all.count(other),
{
    broadcast use vstd::multiset::group_multiset_axioms;

    assert forall|other: usize| #[trigger] rest.count(other) <= 1 by {
        assert(all.count(other) <= 1);
    }
    assert forall|other: usize| #[trigger] part.count(other) <= 1 by {
        assert(all.count(other) <= 1);
    }
    assert forall|other: usize| #[trigger] rest.count(other) > 0 implies part.count(other) == 0 by {
        assert(all.count(other) <= 1);
    }
    assert forall|other: usize| #[trigger] part.count(other) > 0 implies rest.count(other) == 0 by {
        assert(all.count(other) <= 1);
    }
}

} // verus!
