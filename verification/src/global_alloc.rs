use vstd::prelude::*;

use crate::align;
use crate::align::{align_up_checked, is_power_of_two};
use crate::allocator::Allocator;
use crate::api;
use crate::api::{try_allocate, try_deallocate, GlobalUnavailable, ThreadSlot};
use crate::error::{AllocError, FreeError, InitError};
use crate::header::{AllocationHeader, AllocationHeaderPrefix, HEADER_ALIGNMENT};
use crate::memory::Memory;
use crate::service;
use crate::thread_cache::ThreadCache;

verus! {

/// Size and alignment of a requested block of memory.
#[derive(Clone, Copy, Debug, PartialEq, Eq, Structural)]
pub struct Layout {
    size: usize,
    align: usize,
}

/// The parameters of a layout are out of range.
#[derive(Clone, Copy, Debug, PartialEq, Eq, Structural)]
pub struct LayoutError;

impl Layout {
    /// The requested bytes.
    pub closed spec fn bytes(self) -> int {
        self.size as int
    }

    /// The requested alignment.
    pub closed spec fn step(self) -> int {
        self.align as int
    }

    /// A layout of `size` bytes at a multiple of `align` exists: `align` is a power of two, and
    /// `size`, rounded up to it, is a possible object size.
    pub open spec fn allowed(size: int, align: int) -> bool {
        &&& align::power_of_two(align)
        &&& align::rounded_up(size, align) <= isize::MAX
    }

    /// Size and alignment are in range.
    pub open spec fn wf(self) -> bool {
        &&& 0 <= self.bytes() <= usize::MAX
        &&& 0 < self.step() <= usize::MAX
        &&& Self::allowed(self.bytes(), self.step())
    }

    /// Creates a layout of `size` bytes at a multiple of `align`.
    ///
    /// # Errors
    ///
    /// Returns [`LayoutError`] when `align` is no power of two, or when `size` rounded up to
    /// `align` exceeds `isize::MAX`.
    pub fn from_size_align(size: usize, align: usize) -> (result: Result<Self, LayoutError>)
        ensures
            Self::allowed(size as int, align as int) <==> result is Ok,
            result matches Ok(layout) ==> layout.wf() && layout.bytes() == size && layout.step()
                == align,
    {
        if !is_power_of_two(align) {
            return Err(LayoutError);
        }
        proof {
            power_is_positive(align as int);
        }
        match align_up_checked(size, align) {
            Some(rounded) if rounded <= isize::MAX as usize => Ok(Layout { size, align }),
            _ => Err(LayoutError),
        }
    }

    /// Returns the requested bytes.
    #[must_use]
    pub fn size(&self) -> (size: usize)
        ensures
            size == self.bytes(),
    {
        self.size
    }

    /// Returns the requested alignment.
    #[must_use]
    pub fn align(&self) -> (align: usize)
        ensures
            align == self.step(),
    {
        self.align
    }
}

/// Law: a layout exists just when its alignment is a power of two and some multiple of it holds
/// the size and is a possible object size.
pub proof fn layouts_can_be_rounded_up(size: usize, align: usize, multiple: int)
    ensures
        align::power_of_two(align as int) && size <= multiple <= isize::MAX && multiple
            % align as int == 0 ==> Layout::allowed(size as int, align as int),
        Layout::allowed(size as int, align as int) ==> align::power_of_two(align as int) && size
            <= isize::MAX,
{
    if align::power_of_two(align as int) {
        power_is_positive(align as int);
        align::rounded_up_is_least_multiple(size as int, align as int);
    }
}

/// The allocator that serves a layout.
#[derive(Clone, Copy, Debug, PartialEq, Eq, Structural)]
pub enum Backend {
    Orthotope,
    System,
}

/// An address that no prefix stands at.
pub const FALLBACK_EMPTY: usize = 0;

/// The first word of every fallback prefix.
pub const FALLBACK_MAGIC: u64 = 0x4f52_5448_4653_5953;

/// Bytes of a fallback prefix.
pub const FALLBACK_PREFIX_SIZE: usize = 24;

/// Alignment of a fallback prefix.
pub const FALLBACK_PREFIX_ALIGN: usize = 8;

/// What stands before a block that the system allocator gave in place of Orthotope.
#[derive(Clone, Copy, Debug, PartialEq, Eq, Structural)]
pub struct SystemFallbackPrefix {
    /// [`FALLBACK_MAGIC`].
    pub magic: u64,
    /// The address that the system allocator gave.
    pub raw_addr: usize,
    /// The address that the user got.
    pub user_addr: usize,
}

/// The allocator that serves a layout: Orthotope, but for empty and for over-aligned ones.
pub open spec fn backend_of(layout: Layout) -> Backend {
    if layout.bytes() == 0 || layout.step() > HEADER_ALIGNMENT {
        Backend::System
    } else {
        Backend::Orthotope
    }
}

/// Selects the allocator that serves `layout`.
#[must_use]
pub fn select_backend(layout: Layout) -> (backend: Backend)
    ensures
        backend == backend_of(layout),
        backend == Backend::System <==> layout.bytes() == 0 || layout.step() > 64,
{
    if layout.size() == 0 || layout.align() > HEADER_ALIGNMENT {
        Backend::System
    } else {
        Backend::Orthotope
    }
}

/// Law: the system allocator serves the layouts that are empty and those that ask for an
/// alignment of more than 64, and no others.
pub proof fn system_serves_what_the_arena_cannot_align(layout: Layout)
    ensures
        backend_of(layout) == Backend::System <==> layout.bytes() == 0 || layout.step() > 64,
        backend_of(layout) == Backend::Orthotope <==> layout.bytes() != 0 && layout.step() <= 64,
{
}

/// Law: an address from the arena is a multiple of the alignment that the layout asks for, and
/// the requested bytes lie behind it in the arena.
pub proof fn served_layouts_are_aligned(
    before: Allocator,
    cache: ThreadCache,
    after: Allocator,
    cache_after: ThreadCache,
    layout: Layout,
    user: usize,
)
    requires
        layout.wf(),
        backend_of(layout) == Backend::Orthotope,
        api::requested(before, cache, after, cache_after, layout.bytes() as usize, Ok(user)),
    ensures
        user as int % layout.step() == 0,
        after.ground().origin() + 64 <= user,
        user + layout.bytes() <= after.ground().origin() + after.ground().total(),
{
    service::served_addresses_are_aligned(
        before,
        cache,
        after,
        cache_after,
        layout.bytes() as usize,
        user,
    );
    small_power_divides_64(layout.step());
    let step = layout.step();
    vstd::arithmetic::div_mod::lemma_fundamental_div_mod(user as int, 64);
    vstd::arithmetic::div_mod::lemma_fundamental_div_mod(64, step);
    let (times, parts) = (user as int / 64, 64int / step);
    assert(user == (parts * times) * step) by (nonlinear_arith)
        requires
            user == 64 * times,
            64 == step * parts,
    ;
    vstd::arithmetic::div_mod::lemma_mod_multiples_basic(parts * times, step);
}

/// A power of two of at most 64 divides 64.
proof fn small_power_divides_64(value: int)
    requires
        align::power_of_two(value),
        value <= 64,
    ensures
        0 < value,
        64int % value == 0,
{
    let exponent = choose|exponent: nat|
        value == #[trigger] vstd::arithmetic::power2::pow2(exponent);
    vstd::arithmetic::power2::lemma2_to64();
    if exponent > 6 {
        vstd::arithmetic::power2::lemma_pow2_strictly_increases(6, exponent);
    }
    vstd::arithmetic::power2::lemma_pow2_pos(exponent);
    assert(exponent == 0 || exponent == 1 || exponent == 2 || exponent == 3 || exponent == 4
        || exponent == 5 || exponent == 6);
}

/// The alignment of a fallback block: enough for the user and for the prefix.
pub open spec fn fallback_step(layout: Layout) -> int {
    if layout.step() > FALLBACK_PREFIX_ALIGN {
        layout.step()
    } else {
        FALLBACK_PREFIX_ALIGN as int
    }
}

/// Returns the alignment of a fallback block.
#[must_use]
pub fn fallback_alignment(layout: Layout) -> (alignment: usize)
    ensures
        alignment == fallback_step(layout),
{
    if layout.align() > FALLBACK_PREFIX_ALIGN {
        layout.align()
    } else {
        FALLBACK_PREFIX_ALIGN
    }
}

/// The bytes of a fallback block: prefix and request, wherever the user's block is aligned.
pub open spec fn fallback_bytes(layout: Layout) -> int {
    layout.bytes() + FALLBACK_PREFIX_SIZE + fallback_step(layout) - 1
}

/// Returns the layout of the fallback block for `layout`; `None` when there is none.
#[must_use]
pub fn try_fallback_layout(layout: Layout) -> (result: Option<Layout>)
    requires
        layout.wf(),
    ensures
        match result {
            Some(raw) => raw.wf() && raw.bytes() == fallback_bytes(layout) && raw.step()
                == fallback_step(layout),
            None => !Layout::allowed(fallback_bytes(layout), fallback_step(layout)),
        },
{
    let alignment: usize = fallback_alignment(layout);
    proof {
        fallback_step_is_power(layout);
        align::rounded_up_is_least_multiple(fallback_bytes(layout), alignment as int);
    }
    match layout.size().checked_add(FALLBACK_PREFIX_SIZE) {
        None => None,
        Some(size) => match size.checked_add(alignment - 1) {
            None => None,
            Some(size) => match Layout::from_size_align(size, alignment) {
                Ok(raw) => Some(raw),
                Err(_) => None,
            },
        },
    }
}

/// Every power of two is positive.
proof fn power_is_positive(value: int)
    requires
        align::power_of_two(value),
    ensures
        0 < value,
{
    let exponent = choose|exponent: nat|
        value == #[trigger] vstd::arithmetic::power2::pow2(exponent);
    vstd::arithmetic::power2::lemma_pow2_pos(exponent);
}

proof fn fallback_step_is_power(layout: Layout)
    requires
        layout.wf(),
    ensures
        align::power_of_two(fallback_step(layout)),
        0 < fallback_step(layout) <= usize::MAX,
{
    vstd::arithmetic::power2::lemma2_to64();
    assert(align::power_of_two(vstd::arithmetic::power2::pow2(3) as int));
}

/// The address that the user gets of a fallback block at `raw_addr`.
pub open spec fn fallback_user(raw_addr: int, layout: Layout) -> int {
    align::rounded_up(raw_addr + FALLBACK_PREFIX_SIZE, fallback_step(layout))
}

/// Places the user's block inside the fallback block at `raw_addr`, behind room for the
/// prefix, and returns the user's address and the prefix; `None` when there is no such address.
#[must_use]
pub fn place_fallback(raw_addr: usize, layout: Layout) -> (result: Option<
    (usize, SystemFallbackPrefix),
>)
    requires
        layout.wf(),
    ensures
        match result {
            Some((user, prefix)) => {
                &&& user == fallback_user(raw_addr as int, layout)
                &&& prefix == (SystemFallbackPrefix {
                    magic: FALLBACK_MAGIC,
                    raw_addr,
                    user_addr: user,
                })
            },
            None => fallback_user(raw_addr as int, layout) > usize::MAX,
        },
{
    let alignment: usize = fallback_alignment(layout);
    proof {
        fallback_step_is_power(layout);
        align::rounded_up_is_least_multiple(raw_addr + FALLBACK_PREFIX_SIZE, alignment as int);
    }
    let first: usize = match raw_addr.checked_add(FALLBACK_PREFIX_SIZE) {
        Some(first) => first,
        None => {
            return None;
        },
    };
    match align_up_checked(first, alignment) {
        Some(user) => Some(
            (
                user,
                SystemFallbackPrefix { magic: FALLBACK_MAGIC, raw_addr, user_addr: user },
            ),
        ),
        None => None,
    }
}

/// Returns where the prefix of the block at `user` stands if it is a fallback block; `None`
/// when no prefix can stand there.
#[must_use]
pub fn fallback_prefix_address(user: usize) -> (result: Option<usize>)
    ensures
        result == if user > FALLBACK_PREFIX_SIZE {
            Some((user - FALLBACK_PREFIX_SIZE) as usize)
        } else {
            None
        },
{
    match user.checked_sub(FALLBACK_PREFIX_SIZE) {
        Some(address) if address != FALLBACK_EMPTY => Some(address),
        _ => None,
    }
}

/// The raw address that `prefix`, read before `user`, records; `None` when it is no fallback
/// prefix of `user`.
pub open spec fn fallback_raw(user: usize, prefix: Option<SystemFallbackPrefix>) -> Option<usize> {
    match prefix {
        Some(fields) => if fields.magic == FALLBACK_MAGIC && fields.user_addr == user {
            Some(fields.raw_addr)
        } else {
            None
        },
        None => None,
    }
}

/// Decodes the prefix that was read before `user`.
#[must_use]
pub fn fallback_raw_address(user: usize, prefix: Option<SystemFallbackPrefix>) -> (result: Option<
    usize,
>)
    ensures
        result == fallback_raw(user, prefix),
{
    match prefix {
        Some(fields) => {
            if fields.magic != FALLBACK_MAGIC || fields.user_addr != user {
                None
            } else {
                Some(fields.raw_addr)
            }
        },
        None => None,
    }
}

/// Law: a fallback block holds its prefix and the whole requested block, aligned as
/// requested, and decoding the prefix gives back the raw address.
pub proof fn fallback_block_holds_the_request(raw_addr: usize, layout: Layout)
    requires
        layout.wf(),
        Layout::allowed(fallback_bytes(layout), fallback_step(layout)),
        raw_addr + fallback_bytes(layout) <= usize::MAX,
    ensures
        ({
            let user = fallback_user(raw_addr as int, layout);
            let prefix = SystemFallbackPrefix {
                magic: FALLBACK_MAGIC,
                raw_addr,
                user_addr: user as usize,
            };
            &&& raw_addr <= user - FALLBACK_PREFIX_SIZE
            &&& user + layout.bytes() <= raw_addr + fallback_bytes(layout)
            &&& user % fallback_step(layout) == 0
            &&& user % layout.step() == 0
            &&& (user - FALLBACK_PREFIX_SIZE) % 8 == 0
            &&& fallback_bytes(layout) < layout.bytes() + FALLBACK_PREFIX_SIZE + layout.step() + 8
            &&& fallback_raw(user as usize, Some(prefix)) == Some(raw_addr)
        }),
{
    fallback_step_is_power(layout);
    align::rounded_up_is_least_multiple(raw_addr + FALLBACK_PREFIX_SIZE, fallback_step(layout));
    let user = fallback_user(raw_addr as int, layout);
    if layout.step() <= 8 {
        small_power_divides_8(layout.step());
        let step = layout.step();
        assert(user % 8 == 0);
        assert(step == 1 ==> user % step == user % 1);
        assert(step == 2 ==> user % step == user % 2);
        assert(step == 4 ==> user % step == user % 4);
        assert(step == 8 ==> user % step == user % 8);
    } else {
        large_power_is_multiple_of_8(layout.step());
        let step = layout.step();
        vstd::arithmetic::div_mod::lemma_fundamental_div_mod(user, step);
        vstd::arithmetic::div_mod::lemma_fundamental_div_mod(step, 8);
        let (times, parts) = (user / step, step / 8);
        assert(user == (parts * times) * 8) by (nonlinear_arith)
            requires
                user == step * times,
                step == 8 * parts,
        ;
        vstd::arithmetic::div_mod::lemma_mod_multiples_basic(parts * times, 8);
        assert(user % 8 == 0);
    }
    assert((user - FALLBACK_PREFIX_SIZE) % 8 == 0);
}

/// A multiple of 8 is a multiple of every power of two of at most 8.
proof fn small_power_divides_8(value: int)
    requires
        align::power_of_two(value),
        value <= 8,
    ensures
        value == 1 || value == 2 || value == 4 || value == 8,
{
    let exponent = choose|exponent: nat|
        value == #[trigger] vstd::arithmetic::power2::pow2(exponent);
    vstd::arithmetic::power2::lemma2_to64();
    if exponent > 3 {
        vstd::arithmetic::power2::lemma_pow2_strictly_increases(3, exponent);
    }
    assert(exponent == 0 || exponent == 1 || exponent == 2 || exponent == 3);
}

/// A power of two of more than 8 is a multiple of 8.
proof fn large_power_is_multiple_of_8(value: int)
    requires
        align::power_of_two(value),
        value > 8,
    ensures
        value % 8 == 0,
{
    let exponent = choose|exponent: nat|
        value == #[trigger] vstd::arithmetic::power2::pow2(exponent);
    vstd::arithmetic::power2::lemma2_to64();
    if exponent < 3 {
        vstd::arithmetic::power2::lemma_pow2_strictly_increases(exponent, 3);
    }
    vstd::arithmetic::power2::lemma_pow2_adds((exponent - 3) as nat, 3);
    let rest = vstd::arithmetic::power2::pow2((exponent - 3) as nat);
    assert(value == rest * 8);
}

/// Law: only a prefix with its mark that names the very address is decoded, and gives the raw
/// address it records; nothing else is taken for a fallback block.
pub proof fn foreign_prefixes_are_not_decoded(user: usize, prefix: Option<SystemFallbackPrefix>)
    ensures
        fallback_raw(user, prefix) is Some <==> (prefix matches Some(fields) && fields.magic
            == 0x4f52_5448_4653_5953 && fields.user_addr == user),
        fallback_raw(user, prefix) matches Some(raw) ==> raw == prefix->0.raw_addr,
{
}

/// Law: a free counts as done just when it went well, or when the cache was busy while the
/// thread unwinds; and a free that was refused keeps its own error.
pub proof fn failed_frees_are_not_lost(
    result: Result<Option<Result<(), FreeError>>, GlobalUnavailable>,
    panicking: bool,
)
    ensures
        collapsed(result, panicking) is Ok <==> result is Ok && (result->Ok_0 is Some
            && result->Ok_0->0 is Ok || result->Ok_0 is None && panicking),
        result matches Ok(Some(Err(error))) ==> collapsed(result, panicking) == Err::<
            (),
            FreeError,
        >(error),
{
}

/// Law: where a header was written, the bytes before the user's address do not read as a
/// fallback prefix, so a block of the arena is never routed to the system allocator.
pub proof fn header_is_no_fallback_prefix(memory: Memory, block: int, written: AllocationHeader)
    requires
        written.is_at(memory, block),
    ensures
        memory.long(block + HEADER_ALIGNMENT - FALLBACK_PREFIX_SIZE) != FALLBACK_MAGIC,
{
}

/// What freeing through the adapter came to.
pub open spec fn collapsed(
    result: Result<Option<Result<(), FreeError>>, GlobalUnavailable>,
    panicking: bool,
) -> Result<(), FreeError> {
    match result {
        Ok(Some(outcome)) => outcome,
        Ok(None) => if panicking {
            Ok(())
        } else {
            Err(FreeError::GlobalInitFailed)
        },
        Err(_) => Err(FreeError::GlobalInitFailed),
    }
}

/// Collapses the outcome of a free into one result.
///
/// A busy cache is only tolerated while the thread unwinds, where entering the allocator again
/// can recurse. Otherwise the free fails.
///
/// # Errors
///
/// Returns the free's own error, or [`FreeError::GlobalInitFailed`].
pub fn collapse_dealloc_result(
    result: Result<Option<Result<(), FreeError>>, GlobalUnavailable>,
    panicking: bool,
) -> (outcome: Result<(), FreeError>)
    ensures
        outcome == collapsed(result, panicking),
{
    match result {
        Ok(Some(outcome)) => outcome,
        Ok(None) => {
            if panicking {
                Ok(())
            } else {
                Err(FreeError::GlobalInitFailed)
            }
        },
        Err(_) => Err(FreeError::GlobalInitFailed),
    }
}

/// What is left to do for an allocation request.
#[derive(Clone, Copy, Debug, PartialEq, Eq, Structural)]
pub enum AllocStep {
    /// Ask the system allocator with the same layout.
    System,
    /// Hand out this address.
    Served(usize),
    /// Report failure.
    Failed,
    /// Ask the system allocator for a fallback block.
    Fallback,
}

/// What is left to do for a free.
#[derive(Clone, Copy, Debug, PartialEq, Eq, Structural)]
pub enum FreeStep {
    /// Free through the system allocator with the same address and layout.
    System,
    /// Free the fallback block at this address through the system allocator.
    SystemFallback(usize, Layout),
    /// Nothing.
    Done,
    /// Abort the process: the free is invalid and cannot be reported.
    Abort,
}

/// Process-global allocator adapter for programs that opt in.
///
/// - Layouts with `size == 0` are delegated to the system allocator.
/// - Layouts with `align > 64` are delegated to the system allocator.
/// - All other layouts use the process-global allocator and the thread's cache.
/// - While the thread's cache cannot be used, allocation falls back to the system allocator
///   with a prefix by which the free finds its way back.
pub struct OrthotopeGlobalAlloc;

impl OrthotopeGlobalAlloc {
    /// Creates the adapter.
    #[must_use]
    pub fn new() -> (adapter: Self)
        ensures
            adapter == OrthotopeGlobalAlloc,
    {
        OrthotopeGlobalAlloc
    }

    /// Serves an allocation request as far as it can, and says what is left to do.
    pub fn begin_alloc(
        &self,
        global: &mut Result<Allocator, InitError>,
        slot: &mut ThreadSlot,
        fresh_id: u32,
        layout: Layout,
    ) -> (step: AllocStep)
        requires
            layout.wf(),
            backend_of(layout) == Backend::Orthotope ==> api::usable(*old(global), *old(slot), 3),
        ensures
            backend_of(layout) == Backend::System ==> step == AllocStep::System && *final(global)
                == *old(global) && *final(slot) == *old(slot),
            backend_of(layout) == Backend::Orthotope ==> match *old(global) {
                Err(_) => step == AllocStep::Failed && *final(global) == *old(global)
                    && *final(slot) == *old(slot),
                Ok(before) => if old(slot).open() {
                    &&& *final(global) is Ok
                    &&& *final(slot) is Ready
                    &&& exists|cache: ThreadCache, result: Result<usize, AllocError>|
                        old(slot).offers(cache, before.settings(), fresh_id)
                            && #[trigger] api::requested(
                            before,
                            cache,
                            final(global)->Ok_0,
                            final(slot)->Ready_0,
                            layout.bytes() as usize,
                            result,
                        ) && step == match result {
                            Ok(user) => AllocStep::Served(user),
                            Err(_) => AllocStep::Failed,
                        }
                } else {
                    step == AllocStep::Fallback && *final(global) == *old(global) && *final(slot)
                        == *old(slot)
                },
            },
            step == AllocStep::System <==> layout.bytes() == 0 || layout.step() > 64,
            step matches AllocStep::Served(user) ==> user as int % layout.step() == 0,
    {
        match select_backend(layout) {
            Backend::System => AllocStep::System,
            Backend::Orthotope => {
                let result = try_allocate(global, slot, fresh_id, layout.size());
                match result {
                    Ok(Some(outcome)) => {
                        proof {
                            let before = old(global)->Ok_0;
                            let cache = choose|cache: ThreadCache| #[trigger]
                                old(slot).offers(cache, before.settings(), fresh_id)
                                    && api::requested(
                                    before,
                                    cache,
                                    global->Ok_0,
                                    slot->Ready_0,
                                    layout.bytes() as usize,
                                    outcome,
                                );
                            assert(api::requested(
                                before,
                                cache,
                                global->Ok_0,
                                slot->Ready_0,
                                layout.bytes() as usize,
                                outcome,
                            ));
                            if let Ok(user) = outcome {
                                served_layouts_are_aligned(
                                    before,
                                    cache,
                                    global->Ok_0,
                                    slot->Ready_0,
                                    layout,
                                    user,
                                );
                            }
                        }
                        match outcome {
                            Ok(user) => AllocStep::Served(user),
                            Err(_) => AllocStep::Failed,
                        }
                    },
                    Ok(None) => AllocStep::Fallback,
                    Err(_) => AllocStep::Failed,
                }
            },
        }
    }

    /// Frees the block at `user` as far as it can, and says what is left to do. `outside` is
    /// what stands in front of `user` if that is not the allocator's own memory, `prefix` is
    /// what stands at [`fallback_prefix_address`], and `panicking` says that the thread unwinds.
    pub fn begin_dealloc(
        &self,
        global: &mut Result<Allocator, InitError>,
        slot: &mut ThreadSlot,
        fresh_id: u32,
        user: usize,
        outside: Option<AllocationHeaderPrefix>,
        layout: Layout,
        prefix: Option<SystemFallbackPrefix>,
        panicking: bool,
    ) -> (step: FreeStep)
        requires
            layout.wf(),
            backend_of(layout) == Backend::Orthotope && user != 0 && fallback_raw(user, prefix)
                is None ==> api::usable(*old(global), *old(slot), 2) && api::may_free(
                *old(global),
                *old(slot),
                fresh_id,
                user,
                outside,
                Some(layout.bytes() as usize),
            ),
        ensures
            if backend_of(layout) == Backend::System {
                step == FreeStep::System && *final(global) == *old(global) && *final(slot) == *old(slot)
            } else if user == 0 {
                step == FreeStep::Done && *final(global) == *old(global) && *final(slot) == *old(slot)
            } else if fallback_raw(user, prefix) is Some {
                &&& *final(global) == *old(global)
                &&& *final(slot) == *old(slot)
                &&& match step {
                    FreeStep::SystemFallback(raw, raw_layout) => {
                        &&& fallback_raw(user, prefix) == Some(raw)
                        &&& raw_layout.wf()
                        &&& raw_layout.bytes() == fallback_bytes(layout)
                        &&& raw_layout.step() == fallback_step(layout)
                    },
                    FreeStep::Abort => !Layout::allowed(
                        fallback_bytes(layout),
                        fallback_step(layout),
                    ),
                    _ => false,
                }
            } else if *old(global) is Err || !old(slot).open() {
                &&& *final(global) == *old(global)
                &&& *final(slot) == *old(slot)
                &&& step == if *old(global) is Ok && panicking {
                    FreeStep::Done
                } else {
                    FreeStep::Abort
                }
            } else {
                &&& *final(global) is Ok
                &&& *final(slot) is Ready
                &&& exists|cache: ThreadCache, result: Result<(), FreeError>|
                    old(slot).offers(cache, old(global)->Ok_0.settings(), fresh_id)
                        && #[trigger] api::released(
                        old(global)->Ok_0,
                        cache,
                        final(global)->Ok_0,
                        final(slot)->Ready_0,
                        user,
                        outside,
                        Some(layout.bytes() as usize),
                        result,
                    ) && step == if result is Ok {
                        FreeStep::Done
                    } else {
                        FreeStep::Abort
                    }
            },
            step == FreeStep::System <==> layout.bytes() == 0 || layout.step() > 64,
    {
        match select_backend(layout) {
            Backend::System => FreeStep::System,
            Backend::Orthotope => {
                if user == 0 {
                    return FreeStep::Done;
                }
                if let Some(raw) = fallback_raw_address(user, prefix) {
                    return match try_fallback_layout(layout) {
                        Some(raw_layout) => FreeStep::SystemFallback(raw, raw_layout),
                        None => FreeStep::Abort,
                    };
                }
                let result = try_deallocate(
                    global,
                    slot,
                    fresh_id,
                    user,
                    outside,
                    Some(layout.size()),
                );
                match collapse_dealloc_result(result, panicking) {
                    Ok(()) => FreeStep::Done,
                    Err(_) => FreeStep::Abort,
                }
            },
        }
    }
}

impl Default for OrthotopeGlobalAlloc {
    fn default() -> (adapter: Self)
        ensures
            adapter == OrthotopeGlobalAlloc,
    {
        OrthotopeGlobalAlloc::new()
    }
}

} // verus!
