use vstd::prelude::*;

use crate::align;
use crate::config::AllocatorConfig;
use crate::error::{AllocError, InitError};
use crate::memory::Memory;

verus! {

/// Page size assumed where the system reports none.
pub const DEFAULT_PAGE_SIZE: usize = 4096;

/// Monotonic arena backed by one anonymous memory mapping.
///
/// Reservations are never returned to the arena.
pub struct Arena {
    memory: Memory,
    base: usize,
    len: usize,
    next: usize,
    alignment: usize,
}

/// One contiguous run of bytes reserved from an arena.
#[derive(Clone, Copy, Debug, PartialEq, Eq, Structural)]
pub struct ReservedSpan {
    /// Address of the first byte.
    pub start: usize,
    /// Number of bytes.
    pub size: usize,
}

/// The rule that an arena configuration breaks first, in words.
pub open spec fn config_fault(config: AllocatorConfig) -> Option<&'static str> {
    if config.arena_size == 0 {
        Some("arena size must be greater than zero")
    } else if config.alignment == 0 {
        Some("alignment must be greater than zero")
    } else if !align::power_of_two(config.alignment as int) {
        Some("alignment must be a power of two")
    } else if config.arena_size < config.alignment {
        Some("arena size must be at least the alignment")
    } else if config.arena_size + config.alignment - 1 > usize::MAX {
        Some("arena mapping size overflowed")
    } else {
        None
    }
}

impl Arena {
    /// The memory behind the arena.
    pub closed spec fn bytes(self) -> Memory {
        self.memory
    }

    /// The address of the first byte that the arena serves.
    pub closed spec fn origin(self) -> int {
        self.base as int
    }

    /// The number of bytes that the arena serves.
    pub closed spec fn total(self) -> int {
        self.len as int
    }

    /// The number of bytes reserved so far, the gaps that alignment left included.
    pub closed spec fn used(self) -> int {
        self.next as int
    }

    /// The alignment of every reservation.
    pub closed spec fn step(self) -> int {
        self.alignment as int
    }

    /// The arena lies inside its memory, starts aligned, and has reserved no more than it has.
    pub open spec fn wf(self) -> bool {
        &&& self.bytes().wf()
        &&& 0 < self.step() <= usize::MAX
        &&& align::power_of_two(self.step())
        &&& 0 < self.origin()
        &&& self.origin() % self.step() == 0
        &&& self.bytes().covers(self.origin(), self.total())
        &&& 0 <= self.used() <= self.total() <= usize::MAX
    }

    /// Everything but the memory's contents and the amount reserved is the same.
    pub open spec fn same_layout(self, other: Self) -> bool {
        &&& self.bytes().same_place(other.bytes())
        &&& self.origin() == other.origin()
        &&& self.total() == other.total()
        &&& self.step() == other.step()
    }

    /// The offset at which the next reservation starts.
    pub open spec fn next_offset(self) -> int {
        align::rounded_up(self.used(), self.step())
    }

    /// The number of blocks of `block_size` bytes that still fit.
    pub open spec fn blocks_left(self, block_size: int) -> int {
        if self.next_offset() < self.total() {
            (self.total() - self.next_offset()) / block_size
        } else {
            0
        }
    }

    /// `address` is an aligned address inside the arena.
    pub open spec fn has_block_start(self, address: int) -> bool {
        &&& self.origin() <= address < self.origin() + self.total()
        &&& (address - self.origin()) % self.step() == 0
    }

    /// Creates a new pre-mapped arena with monotonic bump allocation.
    ///
    /// # Errors
    ///
    /// Returns [`InitError::InvalidConfig`] when the arena size or alignment are invalid,
    /// or [`InitError::MapFailed`] when the anonymous mapping cannot be created.
    pub fn new(config: &AllocatorConfig) -> (result: Result<Self, InitError>)
        ensures
            match config_fault(*config) {
                Some(message) => result matches Err(InitError::InvalidConfig(text)) && text
                    == message,
                None => match result {
                    Ok(arena) => {
                        &&& arena.wf()
                        &&& arena.bytes().size() == config.arena_size + config.alignment - 1
                        &&& arena.origin() == align::rounded_up(
                            arena.bytes().start(),
                            config.alignment as int,
                        )
                        &&& arena.total() == config.arena_size
                        &&& arena.step() == config.alignment
                        &&& arena.used() == 0
                    },
                    Err(InitError::MapFailed(_)) => true,
                    Err(InitError::InvalidConfig(_)) => false,
                },
            },
            config_fault(*config) is None && config.arena_size + config.alignment - 1 > isize::MAX
                ==> result is Err,
    {
        match validate_config(config) {
            Ok(()) => {},
            Err(error) => {
                return Err(error);
            },
        }
        let length: usize = match mapping_length(config) {
            Some(length) => length,
            None => {
                return Err(InitError::InvalidConfig("arena mapping size overflowed"));
            },
        };
        match Memory::map(length) {
            Ok(memory) => Ok(Self::over(memory, config)),
            Err(error) => Err(InitError::MapFailed(error)),
        }
    }

    /// Lays an arena over mapped memory, from the first aligned address on.
    pub fn over(memory: Memory, config: &AllocatorConfig) -> (arena: Self)
        requires
            memory.wf(),
            config_fault(*config) is None,
            memory.size() == config.arena_size + config.alignment - 1,
        ensures
            arena.wf(),
            arena.bytes() == memory,
            arena.origin() == align::rounded_up(memory.start(), config.alignment as int),
            arena.total() == config.arena_size,
            arena.step() == config.alignment,
            arena.used() == 0,
    {
        let alignment: usize = config.alignment;
        let first: usize = memory.first_address();
        proof {
            align::rounded_up_is_least_multiple(first as int, alignment as int);
        }
        let remainder: usize = first % alignment;
        let base: usize = if remainder == 0 {
            first
        } else {
            first + (alignment - remainder)
        };
        Arena { memory, base, len: config.arena_size, next: 0, alignment }
    }

    /// Reserves `size` bytes from the arena and returns the aligned block start.
    ///
    /// # Errors
    ///
    /// Returns [`AllocError::ZeroSize`] for zero bytes and [`AllocError::OutOfMemory`] if the
    /// aligned reservation would exceed the arena bounds.
    pub fn allocate_block(&mut self, size: usize) -> (result: Result<usize, AllocError>)
        requires
            old(self).wf(),
        ensures
            final(self).wf(),
            final(self).same_layout(*old(self)),
            final(self).bytes() == old(self).bytes(),
            match old(self).span_outcome(size) {
                Ok(span) => result == Ok::<usize, AllocError>(span.start) && final(self).used()
                    == old(self).next_offset() + size,
                Err(error) => result == Err::<usize, AllocError>(error) && *final(self) == *old(self),
            },
    {
        match self.reserve_span(size) {
            Ok(span) => Ok(span.start),
            Err(error) => Err(error),
        }
    }

    /// What reserving `size` bytes gives.
    pub open spec fn span_outcome(self, size: usize) -> Result<ReservedSpan, AllocError> {
        if size == 0 {
            Err(AllocError::ZeroSize)
        } else if self.next_offset() + size > self.total() {
            Err(
                AllocError::OutOfMemory {
                    requested: size,
                    remaining: (self.total() - self.used()) as usize,
                },
            )
        } else {
            Ok(ReservedSpan { start: (self.origin() + self.next_offset()) as usize, size })
        }
    }

    /// Reserves one contiguous aligned span from the arena.
    ///
    /// # Errors
    ///
    /// Returns [`AllocError::ZeroSize`] for zero bytes and [`AllocError::OutOfMemory`] if the
    /// aligned reservation would exceed the arena bounds.
    pub fn reserve_span(&mut self, size: usize) -> (result: Result<ReservedSpan, AllocError>)
        requires
            old(self).wf(),
        ensures
            result == old(self).span_outcome(size),
            final(self).wf(),
            final(self).same_layout(*old(self)),
            final(self).bytes() == old(self).bytes(),
            result is Ok ==> final(self).used() == old(self).next_offset() + size,
            result is Err ==> *final(self) == *old(self),
    {
        if size == 0 {
            return Err(AllocError::ZeroSize);
        }
        let current: usize = self.next;
        proof {
            align::rounded_up_is_least_multiple(current as int, self.alignment as int);
        }
        let remaining: usize = self.len - current;
        let aligned: usize = match align::align_up_checked(current, self.alignment) {
            Some(aligned) => aligned,
            None => {
                return Err(AllocError::OutOfMemory { requested: size, remaining });
            },
        };
        let end: usize = match aligned.checked_add(size) {
            Some(end) => end,
            None => {
                return Err(AllocError::OutOfMemory { requested: size, remaining });
            },
        };
        if end > self.len {
            return Err(AllocError::OutOfMemory { requested: size, remaining });
        }
        self.next = end;
        Ok(ReservedSpan { start: self.base + aligned, size })
    }

    /// Reserves up to `target_blocks` contiguous blocks of `block_size` bytes.
    ///
    /// Returns `Ok(None)` when fewer than one block fits.
    ///
    /// # Errors
    ///
    /// Returns [`AllocError::ZeroSize`] when the block size or the target is zero.
    pub fn reserve_block_span(&mut self, block_size: usize, target_blocks: usize) -> (result: Result<
        Option<ReservedSpan>,
        AllocError,
    >)
        requires
            old(self).wf(),
        ensures
            final(self).wf(),
            final(self).same_layout(*old(self)),
            final(self).bytes() == old(self).bytes(),
            block_size == 0 || target_blocks == 0 ==> result == Err::<
                Option<ReservedSpan>,
                AllocError,
            >(AllocError::ZeroSize) && *final(self) == *old(self),
            block_size > 0 && target_blocks > 0 ==> {
                let fit = old(self).blocks_left(block_size as int);
                let blocks = if target_blocks < fit {
                    target_blocks as int
                } else {
                    fit
                };
                if fit == 0 {
                    result == Ok::<Option<ReservedSpan>, AllocError>(None) && *final(self) == *old(self)
                } else {
                    &&& result is Ok
                    &&& result->Ok_0 is Some
                    &&& result->Ok_0->0.start == old(self).origin() + old(self).next_offset()
                    &&& result->Ok_0->0.size == blocks * block_size
                    &&& blocks > 0
                    &&& final(self).used() == old(self).next_offset() + blocks * block_size
                }
            },
    {
        if block_size == 0 || target_blocks == 0 {
            return Err(AllocError::ZeroSize);
        }
        let current: usize = self.next;
        proof {
            align::rounded_up_is_least_multiple(current as int, self.alignment as int);
            self.origin_is_at_least_one_step();
        }
        let aligned: usize = match align::align_up_checked(current, self.alignment) {
            Some(aligned) => aligned,
            None => {
                return Err(
                    AllocError::OutOfMemory { requested: block_size, remaining: self.len - current },
                );
            },
        };
        let remaining: usize = self.len.saturating_sub(aligned);
        let available_blocks: usize = remaining / block_size;
        let reserved_blocks: usize = if target_blocks < available_blocks {
            target_blocks
        } else {
            available_blocks
        };
        if reserved_blocks == 0 {
            proof {
                if remaining == 0 {
                    vstd::arithmetic::div_mod::lemma_basic_div(0, block_size as int);
                }
            }
            return Ok(None);
        }
        proof {
            let (r, b, n, a) = (
                remaining as int,
                block_size as int,
                reserved_blocks as int,
                available_blocks as int,
            );
            vstd::arithmetic::div_mod::lemma_fundamental_div_mod(r, b);
            assert(0 <= n * b <= r) by (nonlinear_arith)
                requires
                    0 < n <= a,
                    0 < b,
                    r == b * a + r % b,
                    0 <= r % b,
            ;
            if remaining == 0 {
                vstd::arithmetic::div_mod::lemma_basic_div(0, block_size as int);
            }
        }
        let size: usize = reserved_blocks * block_size;
        self.next = aligned + size;
        Ok(Some(ReservedSpan { start: self.base + aligned, size }))
    }

    proof fn origin_is_at_least_one_step(self)
        requires
            self.wf(),
        ensures
            self.step() <= self.origin(),
    {
        if self.origin() < self.step() {
            vstd::arithmetic::div_mod::lemma_small_mod(self.origin() as nat, self.step() as nat);
        }
    }

    /// Returns the remaining unreserved capacity in bytes.
    #[must_use]
    pub fn remaining(&self) -> (result: usize)
        requires
            self.wf(),
        ensures
            result == self.total() - self.used(),
    {
        self.len.saturating_sub(self.next)
    }

    /// Returns the total usable capacity reserved by this arena mapping.
    #[must_use]
    pub fn capacity(&self) -> (result: usize)
        ensures
            result == self.total(),
    {
        self.len
    }

    /// Returns the configured block-start alignment.
    #[must_use]
    pub fn alignment(&self) -> (result: usize)
        ensures
            result == self.step(),
    {
        self.alignment
    }

    /// Whether `block_start` is an aligned address inside this arena.
    ///
    /// This is the ownership test for small blocks. It does not prove that the block is
    /// live or uniquely owned.
    #[must_use]
    pub fn contains_block_start(&self, block_start: usize) -> (result: bool)
        requires
            self.wf(),
        ensures
            result == self.has_block_start(block_start as int),
    {
        let end: usize = self.base + self.len;
        block_start >= self.base && block_start < end && (block_start - self.base) % self.alignment
            == 0
    }

    /// Returns the memory behind the arena for reading.
    #[must_use]
    pub fn memory(&self) -> (memory: &Memory)
        ensures
            *memory == self.bytes(),
    {
        &self.memory
    }

    /// Returns the memory behind the arena for writing.
    pub fn memory_mut(&mut self) -> (memory: &mut Memory)
        ensures
            *memory == old(self).bytes(),
            final(self).bytes() == *final(memory),
            final(self).origin() == old(self).origin(),
            final(self).total() == old(self).total(),
            final(self).used() == old(self).used(),
            final(self).step() == old(self).step(),
            *final(memory) == old(self).bytes() ==> *final(self) == *old(self),
    {
        &mut self.memory
    }
}

/// Returns the number of bytes to map for an arena, so that the arena fits behind the first
/// aligned address; `None` when that number is no `usize`.
#[must_use]
pub fn mapping_length(config: &AllocatorConfig) -> (length: Option<usize>)
    requires
        config.alignment > 0,
    ensures
        match length {
            Some(length) => length == config.arena_size + config.alignment - 1,
            None => config.arena_size + config.alignment - 1 > usize::MAX,
        },
{
    config.arena_size.checked_add(config.alignment - 1)
}

fn validate_config(config: &AllocatorConfig) -> (result: Result<(), InitError>)
    ensures
        match result {
            Ok(()) => config_fault(*config) is None || config_fault(*config) == Some(
                "arena mapping size overflowed",
            ),
            Err(error) => error matches InitError::InvalidConfig(text) && config_fault(*config)
                == Some(text),
        },
        result is Ok ==> 0 < config.alignment <= config.arena_size && align::power_of_two(
            config.alignment as int,
        ),
{
    if config.arena_size == 0 {
        return Err(InitError::InvalidConfig("arena size must be greater than zero"));
    }
    if config.alignment == 0 {
        return Err(InitError::InvalidConfig("alignment must be greater than zero"));
    }
    if !align::is_power_of_two(config.alignment) {
        return Err(InitError::InvalidConfig("alignment must be a power of two"));
    }
    if config.arena_size < config.alignment {
        return Err(InitError::InvalidConfig("arena size must be at least the alignment"));
    }
    Ok(())
}

/// The page size that a reported value stands for: a power of two that fits an address.
pub open spec fn reported_page_size(reported: i64) -> Option<usize> {
    if 0 <= reported <= usize::MAX && align::power_of_two(reported as int) {
        Some(reported as usize)
    } else {
        None
    }
}

/// Law: a reported page size is taken as it is, just when it is a power of two that an address
/// can be.
pub proof fn page_sizes_are_taken_as_reported(reported: i64, size: usize)
    ensures
        reported_page_size(reported) == Some(size) <==> size == reported && align::power_of_two(
            size as int,
        ),
{
}

/// Accepts the page size that the system reports, if it is a power of two.
#[must_use]
pub fn detect_system_page_size(reported: i64) -> (result: Option<usize>)
    ensures
        result == reported_page_size(reported),
{
    if reported < 0 || reported as u64 > usize::MAX as u64 {
        return None;
    }
    let size: usize = reported as usize;
    if align::is_power_of_two(size) {
        Some(size)
    } else {
        None
    }
}

/// Returns the page size in use: the cached one, or else the detected one, or else
/// [`DEFAULT_PAGE_SIZE`]. A cached value of zero stands for none.
#[must_use]
pub fn system_page_size(cached: usize, detected: Option<usize>) -> (page_size: usize)
    ensures
        page_size == if cached != 0 {
            cached
        } else {
            match detected {
                Some(size) => size,
                None => DEFAULT_PAGE_SIZE,
            }
        },
{
    if cached != 0 {
        return cached;
    }
    match detected {
        Some(size) => size,
        None => DEFAULT_PAGE_SIZE,
    }
}

/// The whole pages inside the `len` bytes from `start` on, as first address and length.
pub open spec fn inner_pages(start: int, len: int, page_size: int) -> Option<(usize, usize)> {
    let first = align::rounded_up(start, page_size);
    let last = align::rounded_down(start + len, page_size);
    if len > 0 && start + len <= usize::MAX && first < last {
        Some((first as usize, (last - first) as usize))
    } else {
        None
    }
}

/// Returns the whole pages inside the `len` bytes from `start` on; `None` when there is none
/// or the run overflows.
#[must_use]
pub fn page_aligned_inner_range(start: usize, len: usize, page_size: usize) -> (result: Option<
    (usize, usize),
>)
    requires
        page_size > 0,
    ensures
        result == inner_pages(start as int, len as int, page_size as int),
{
    if len == 0 {
        return None;
    }
    let end: usize = match start.checked_add(len) {
        Some(end) => end,
        None => {
            return None;
        },
    };
    proof {
        vstd::arithmetic::div_mod::lemma_mod_bound(end as int, page_size as int);
    }
    let aligned_start: usize = match align::align_up_checked(start, page_size) {
        Some(aligned) => aligned,
        None => {
            return None;
        },
    };
    let aligned_end: usize = align::align_down(end, page_size);
    if aligned_start >= aligned_end {
        return None;
    }
    Some((aligned_start, aligned_end - aligned_start))
}

/// Law: the pages picked from a run lie inside it and are whole pages.
pub proof fn inner_pages_are_inside(start: int, len: int, page_size: int, pages: (usize, usize))
    requires
        0 <= start,
        0 < page_size,
        inner_pages(start, len, page_size) == Some(pages),
    ensures
        start <= pages.0,
        pages.0 + pages.1 <= start + len,
        pages.0 as int % page_size == 0,
        (pages.0 + pages.1) % page_size == 0,
{
    align::rounded_up_is_least_multiple(start, page_size);
    vstd::arithmetic::div_mod::lemma_mod_bound(start + len, page_size);
    vstd::arithmetic::div_mod::lemma_fundamental_div_mod(start + len, page_size);
    let last = align::rounded_down(start + len, page_size);
    let quotient = (start + len) / page_size;
    vstd::arithmetic::div_mod::lemma_mod_multiples_basic(quotient, page_size);
    assert(page_size * quotient == quotient * page_size) by (nonlinear_arith);
}

/// Law: the pages picked from a run are all of its whole pages: every page inside the run is
/// among them, and where none is picked there is none.
pub proof fn every_inner_page_is_picked(start: int, len: int, page_size: int, page: int)
    requires
        0 <= start,
        0 < len,
        start + len <= usize::MAX,
        0 < page_size,
        page % page_size == 0,
        start <= page,
        page + page_size <= start + len,
    ensures
        inner_pages(start, len, page_size) matches Some(pages) && pages.0 <= page && page
            + page_size <= pages.0 + pages.1,
{
    let first = align::rounded_up(start, page_size);
    let last = align::rounded_down(start + len, page_size);
    align::rounded_up_is_least_multiple(start, page_size);
    align::rounded_down_is_greatest_multiple(start + len, page_size);
    vstd::arithmetic::div_mod::lemma_mod_add_multiples_vanish(page, page_size);
    assert((page + page_size) % page_size == 0);
    assert(first <= page);
    assert(page + page_size <= last);
}

/// Law: a configuration is accepted just when its arena is not empty, its alignment is a power
/// of two of at most the arena's size, and the mapping for both has a size.
pub proof fn sound_configs_have_no_fault(config: AllocatorConfig)
    ensures
        config_fault(config) is None <==> align::power_of_two(config.alignment as int)
            && config.alignment <= config.arena_size && config.arena_size + config.alignment
            <= usize::MAX + 1,
{
    if align::power_of_two(config.alignment as int) {
        let exponent = choose|exponent: nat|
            config.alignment as int == #[trigger] vstd::arithmetic::power2::pow2(exponent);
        vstd::arithmetic::power2::lemma_pow2_pos(exponent);
    }
}

/// Law: an arena gives what it has room for: a reservation fails just when no aligned offset
/// behind everything reserved leaves room for it, and each begins before the next aligned
/// offset is passed.
pub proof fn room_is_given(arena: Arena, size: usize, offset: int)
    requires
        arena.wf(),
        0 < size,
    ensures
        arena.used() <= offset && offset % arena.step() == 0 && offset + size <= arena.total()
            ==> arena.span_outcome(size) is Ok,
        arena.span_outcome(size) matches Ok(span) ==> {
            &&& span.size == size
            &&& arena.origin() + arena.used() <= span.start < arena.origin() + arena.used()
                + arena.step()
            &&& span.start + size <= arena.origin() + arena.total()
            &&& span.start as int % arena.step() == 0
        },
        arena.span_outcome(size) matches Err(error) ==> error == (AllocError::OutOfMemory {
            requested: size,
            remaining: (arena.total() - arena.used()) as usize,
        }),
{
    align::rounded_up_is_least_multiple(arena.used(), arena.step());
    vstd::arithmetic::div_mod::lemma_add_mod_noop(
        arena.origin(),
        arena.next_offset(),
        arena.step(),
    );
}

/// Law: the blocks that still fit into an arena do fit behind the next aligned offset, and one
/// more does not.
pub proof fn blocks_left_fit(arena: Arena, block_size: int)
    requires
        arena.wf(),
        0 < block_size,
    ensures
        0 <= arena.blocks_left(block_size),
        0 < arena.blocks_left(block_size) ==> arena.next_offset() + arena.blocks_left(block_size)
            * block_size <= arena.total(),
        arena.total() < arena.next_offset() + (arena.blocks_left(block_size) + 1) * block_size,
{
    let room = arena.total() - arena.next_offset();
    let count = arena.blocks_left(block_size);
    if room > 0 {
        vstd::arithmetic::div_mod::lemma_fundamental_div_mod(room, block_size);
        vstd::arithmetic::div_mod::lemma_mod_bound(room, block_size);
        vstd::arithmetic::div_mod::lemma_div_pos_is_pos(room, block_size);
        let rest = room % block_size;
        assert(count * block_size <= room < (count + 1) * block_size) by (nonlinear_arith)
            requires
                room == block_size * count + rest,
                0 <= rest < block_size,
        ;
    } else {
        assert((count + 1) * block_size == block_size) by (nonlinear_arith)
            requires
                count == 0,
        ;
    }
}

/// Law: reservations never overlap: one made later starts where the earlier one ended, or
/// behind it, and both lie inside the arena.
pub proof fn later_reservation_lies_behind(arena: Arena, size: usize, later: Arena, later_size: usize)
    requires
        arena.wf(),
        later.wf(),
        arena.span_outcome(size) is Ok,
        later.same_layout(arena),
        later.used() >= arena.next_offset() + size,
        later.span_outcome(later_size) is Ok,
    ensures
        arena.origin() <= arena.span_outcome(size)->Ok_0.start,
        arena.span_outcome(size)->Ok_0.start + size <= later.span_outcome(later_size)->Ok_0.start,
        later.span_outcome(later_size)->Ok_0.start + later_size <= arena.origin() + arena.total(),
{
    align::rounded_up_is_least_multiple(arena.used(), arena.step());
    align::rounded_up_is_least_multiple(later.used(), later.step());
}

/// Law: every reservation starts at an aligned address.
pub proof fn reservation_is_aligned(arena: Arena, size: usize)
    requires
        arena.wf(),
        arena.span_outcome(size) is Ok,
    ensures
        arena.span_outcome(size)->Ok_0.start as int % arena.step() == 0,
        arena.has_block_start(arena.span_outcome(size)->Ok_0.start as int),
{
    align::rounded_up_is_least_multiple(arena.used(), arena.step());
    vstd::arithmetic::div_mod::lemma_mod_adds(arena.origin(), arena.next_offset(), arena.step());
    let start = arena.origin() + arena.next_offset();
    vstd::arithmetic::div_mod::lemma_add_mod_noop(
        arena.origin(),
        arena.next_offset(),
        arena.step(),
    );
    vstd::arithmetic::div_mod::lemma_small_mod(0, arena.step() as nat);
}

} // verus!
