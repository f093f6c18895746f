use vstd::prelude::*;

use crate::size_class::{SizeClass, BLOCK_ALIGNMENT};

verus! {

/// Sizing and cache-tuning parameters of one allocator.
#[derive(Clone, Copy, Debug, PartialEq, Eq, Structural)]
pub struct AllocatorConfig {
    /// Bytes of memory that the arena serves.
    pub arena_size: usize,
    /// Alignment of every block start.
    pub alignment: usize,
    /// Bytes that one refill of a thread cache aims at.
    pub refill_target_bytes: usize,
    /// Bytes per class that a thread cache may keep.
    pub local_cache_target_bytes: usize,
}

/// `count` blocks fit into `target` bytes just when `count` is at most their quotient.
proof fn fits_quotient(target: int, block: int, count: int)
    requires
        0 <= target,
        0 < block,
    ensures
        count * block <= target <==> count <= target / block,
{
    vstd::arithmetic::div_mod::lemma_fundamental_div_mod(target, block);
    vstd::arithmetic::div_mod::lemma_mod_bound(target, block);
    let (quotient, rest) = (target / block, target % block);
    if count <= quotient {
        assert(count * block <= block * quotient) by (nonlinear_arith)
            requires
                count <= quotient,
                block > 0,
        ;
    } else {
        assert(count * block >= block * quotient + block) by (nonlinear_arith)
            requires
                count >= quotient + 1,
                block > 0,
        ;
    }
}

impl AllocatorConfig {
    /// Blocks of `class` that one refill asks for.
    pub open spec fn refill_blocks(self, class: SizeClass) -> int {
        let count = self.refill_target_bytes as int / (class.payload() + 64);
        if count == 0 {
            1
        } else {
            count
        }
    }

    /// Blocks of `class` that a thread cache may keep.
    pub open spec fn local_blocks(self, class: SizeClass) -> int {
        let limit = self.local_cache_target_bytes as int / (class.payload() + 64);
        if limit < 2 {
            2
        } else {
            limit
        }
    }

    /// Blocks of `class` that one drain returns: half a refill, and at least one.
    pub open spec fn drain_blocks(self, class: SizeClass) -> int {
        let count = self.refill_blocks(class) / 2;
        if count == 0 {
            1
        } else {
            count
        }
    }

    /// Law: a refill is as many blocks as fit into its target bytes, each with 64 bytes of
    /// header, and at least one; a cache may keep as many as fit into its own target, and at
    /// least two; and two drains are no more than a refill, unless a drain is a single block.
    pub proof fn counts_fit_their_targets(self, class: SizeClass, count: int)
        ensures
            count <= self.refill_blocks(class) <==> count <= 1 || count * (class.payload() + 64)
                <= self.refill_target_bytes,
            count <= self.local_blocks(class) <==> count <= 2 || count * (class.payload() + 64)
                <= self.local_cache_target_bytes,
            count <= self.drain_blocks(class) <==> count <= 1 || 2 * count * (class.payload() + 64)
                <= self.refill_target_bytes,
    {
        let block = class.payload() + 64;
        fits_quotient(self.refill_target_bytes as int, block, count);
        fits_quotient(self.local_cache_target_bytes as int, block, count);
        fits_quotient(self.refill_target_bytes as int, block, 2 * count);
        fits_quotient(self.refill_target_bytes as int, block, 1);
        fits_quotient(self.refill_target_bytes as int, block, 2);
        fits_quotient(self.local_cache_target_bytes as int, block, 2);
        assert(count >= 1 ==> count * block >= block) by (nonlinear_arith)
            requires
                block > 0,
        ;
        assert(2 * count * block == (2 * count) * block);
    }

    /// Returns the full block size of `class` under this configuration's alignment.
    #[must_use]
    pub fn class_block_size(&self, class: SizeClass) -> (result: usize)
        ensures
            result == class.block_bytes(self.alignment as int),
    {
        class.block_size_for_alignment(self.alignment)
    }

    /// Returns the number of blocks that one refill of `class` asks for.
    #[must_use]
    pub fn refill_count(&self, class: SizeClass) -> (result: usize)
        ensures
            result == self.refill_blocks(class),
            result >= 1,
    {
        let count: usize = self.refill_target_bytes / class.block_size();
        if count == 0 {
            1
        } else {
            count
        }
    }

    /// Returns the number of blocks of `class` that a thread cache may keep.
    #[must_use]
    pub fn local_limit(&self, class: SizeClass) -> (result: usize)
        ensures
            result == self.local_blocks(class),
            result >= 2,
    {
        let limit: usize = self.local_cache_target_bytes / class.block_size();
        if limit < 2 {
            2
        } else {
            limit
        }
    }

    /// Returns the number of blocks of `class` that one drain returns.
    #[must_use]
    pub fn drain_count(&self, class: SizeClass) -> (result: usize)
        ensures
            result == self.drain_blocks(class),
            result >= 1,
    {
        let count: usize = self.refill_count(class) / 2;
        if count == 0 {
            1
        } else {
            count
        }
    }
}

impl Default for AllocatorConfig {
    fn default() -> (result: Self)
        ensures
            result == (AllocatorConfig {
                arena_size: 0x4000_0000,
                alignment: BLOCK_ALIGNMENT,
                refill_target_bytes: 0x8000,
                local_cache_target_bytes: 0x1_0000,
            }),
    {
        AllocatorConfig {
            arena_size: 0x4000_0000,
            alignment: BLOCK_ALIGNMENT,
            refill_target_bytes: 0x8000,
            local_cache_target_bytes: 0x1_0000,
        }
    }
}

} // verus!
