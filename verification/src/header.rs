use vstd::multiset::Multiset;
use vstd::prelude::*;

use crate::error::FreeError;
use crate::memory::Memory;
use crate::size_class::{SizeClass, NUM_CLASSES};

verus! {

/// Alignment required for allocation headers and block starts.
pub const HEADER_ALIGNMENT: usize = 64;

/// Bytes reserved for allocator metadata at the start of every block.
pub const HEADER_SIZE: usize = 64;

/// First word of every allocation header.
pub const HEADER_MAGIC: u32 = 0x4f52_5448;

/// Class index stored in the header of a large allocation.
pub const LARGE_CLASS_SENTINEL: u8 = 255;

/// Offset of the word that holds the next block of a free list.
pub const SMALL_FREE_LIST_LINK_OFFSET: usize = 24;

/// Offset of the word that marks a freed small block.
pub const SMALL_FREE_MARKER_OFFSET: usize = 32;

/// Constant mixed into every freed marker: the complement of [`HEADER_MAGIC`].
pub const SMALL_FREE_MARKER_SEED: u64 = 0xffff_ffff_b0ad_abb7;

/// Decoded allocation kind stored in the header.
#[derive(Clone, Copy, Debug, PartialEq, Eq, Structural)]
pub enum AllocationKind {
    /// A block of a fixed size class.
    Small(SizeClass),
    /// A block of the large-allocation path.
    Large,
}

/// Stored tag of an allocation's kind.
#[derive(Clone, Copy, Debug, PartialEq, Eq, Structural)]
pub enum AllocationKindTag {
    /// Stored as the byte 1.
    Small,
    /// Stored as the byte 2.
    Large,
}

/// The header fields that route a free.
#[derive(Clone, Copy, Debug, PartialEq, Eq, Structural)]
pub struct AllocationHeaderPrefix {
    /// [`HEADER_MAGIC`] in a valid header.
    pub magic: u32,
    /// Small or large.
    pub kind: AllocationKindTag,
    /// Dense class index, or [`LARGE_CLASS_SENTINEL`].
    pub class_index: u8,
    /// Bytes the caller asked for.
    pub requested_size: u32,
    /// Bytes the block can hold.
    pub usable_size: u32,
    /// Thread cache that allocated the block.
    pub owner_cache_id: u32,
}

/// Fixed header written at the start of every live allocation block.
#[derive(Clone, Copy, Debug, PartialEq, Eq, Structural)]
pub struct AllocationHeader {
    /// [`HEADER_MAGIC`] in a valid header.
    pub magic: u32,
    /// Small or large.
    pub kind: AllocationKindTag,
    /// Dense class index, or [`LARGE_CLASS_SENTINEL`].
    pub class_index: u8,
    /// Bytes the caller asked for.
    pub requested_size: u32,
    /// Bytes the block can hold.
    pub usable_size: u32,
    /// Thread cache that allocated the block.
    pub owner_cache_id: u32,
    /// Address of the next block in the free list that holds the block.
    pub free_list_link: u64,
    /// Freed marker of a small block; zero while it is live.
    pub small_free_marker: u64,
}

impl AllocationKindTag {
    /// The byte that stands for this tag.
    pub open spec fn code(self) -> int {
        match self {
            Self::Small => 1,
            Self::Large => 2,
        }
    }

    /// Returns the byte that stands for this tag.
    #[must_use]
    pub fn to_byte(self) -> (byte: u8)
        ensures
            byte == self.code(),
    {
        match self {
            Self::Small => 1,
            Self::Large => 2,
        }
    }

    /// Returns the tag that `byte` stands for.
    #[must_use]
    pub fn from_byte(byte: u8) -> (result: Option<Self>)
        ensures
            result == tag_of(byte as int),
    {
        match byte {
            1 => Some(Self::Small),
            2 => Some(Self::Large),
            _ => None,
        }
    }
}

/// The tag that a stored byte stands for.
pub open spec fn tag_of(byte: int) -> Option<AllocationKindTag> {
    if byte == 1 {
        Some(AllocationKindTag::Small)
    } else if byte == 2 {
        Some(AllocationKindTag::Large)
    } else {
        None
    }
}

/// The class at a dense index.
pub open spec fn class_at(index: int) -> Option<SizeClass> {
    if 0 <= index < 12 {
        Some(SizeClass::ALL[index])
    } else {
        None
    }
}

/// Law: classes and their indices in headers name each other: an index below the number of
/// classes names the class that has it, and no other index names one.
pub proof fn indices_name_classes(class: SizeClass, index: u8)
    ensures
        class_at(class.position()) == Some(class),
        class_at(index as int) is Some <==> index < NUM_CLASSES,
        class_at(index as int) matches Some(named) ==> named.position() == index,
{
}

impl AllocationHeaderPrefix {
    /// The allocation kind that the prefix routes to; `None` when it is inconsistent.
    pub open spec fn route(self) -> Option<AllocationKind> {
        if self.magic != HEADER_MAGIC || self.requested_size == 0 || self.usable_size
            < self.requested_size {
            None
        } else {
            match self.kind {
                AllocationKindTag::Small => match class_at(self.class_index as int) {
                    Some(class) if class.payload() == self.usable_size => Some(
                        AllocationKind::Small(class),
                    ),
                    _ => None,
                },
                AllocationKindTag::Large => if self.class_index == LARGE_CLASS_SENTINEL {
                    Some(AllocationKind::Large)
                } else {
                    None
                },
            }
        }
    }

    /// The prefix whose bytes stand at `block`; `None` when the kind byte names no kind.
    pub open spec fn stored(memory: Memory, block: int) -> Option<Self> {
        match tag_of(memory.byte(block + 4) as int) {
            Some(kind) => Some(
                AllocationHeaderPrefix {
                    magic: memory.word(block) as u32,
                    kind,
                    class_index: memory.byte(block + 5),
                    requested_size: memory.word(block + 8) as u32,
                    usable_size: memory.word(block + 12) as u32,
                    owner_cache_id: memory.word(block + 16) as u32,
                },
            ),
            None => None,
        }
    }

    /// The prefix that `bytes` hold; `None` when the kind byte names no kind.
    pub open spec fn held_in(bytes: Seq<u8>) -> Option<Self> {
        match tag_of(bytes[4] as int) {
            Some(kind) => Some(
                AllocationHeaderPrefix {
                    magic: word_in(bytes, 0) as u32,
                    kind,
                    class_index: bytes[5],
                    requested_size: word_in(bytes, 8) as u32,
                    usable_size: word_in(bytes, 12) as u32,
                    owner_cache_id: word_in(bytes, 16) as u32,
                },
            ),
            None => None,
        }
    }

    /// Reads the routing fields from the first bytes of a header.
    #[must_use]
    pub fn from_bytes(bytes: &[u8; 64]) -> (prefix: Option<Self>)
        ensures
            prefix == Self::held_in(bytes@),
    {
        match AllocationKindTag::from_byte(bytes[4]) {
            Some(kind) => Some(
                AllocationHeaderPrefix {
                    magic: read_word(bytes, 0),
                    kind,
                    class_index: bytes[5],
                    requested_size: read_word(bytes, 8),
                    usable_size: read_word(bytes, 12),
                    owner_cache_id: read_word(bytes, 16),
                },
            ),
            None => None,
        }
    }
}

/// The little-endian word at `at`.
pub open spec fn word_in(bytes: Seq<u8>, at: int) -> int {
    bytes[at] + 0x100 * bytes[at + 1] + 0x1_0000 * bytes[at + 2] + 0x100_0000 * bytes[at + 3]
}

fn read_word(bytes: &[u8; 64], at: usize) -> (word: u32)
    requires
        at <= 60,
    ensures
        word == word_in(bytes@, at as int),
{
    bytes[at] as u32 + 0x100 * bytes[at + 1] as u32 + 0x1_0000 * bytes[at + 2] as u32 + 0x100_0000
        * bytes[at + 3] as u32
}

/// Law: a header is routed just when all its fields agree: the magic word, a request that is
/// not empty and fits the block, and the class index of a class with this very payload, or the
/// mark of a large block.
pub proof fn routed_headers_are_consistent(prefix: AllocationHeaderPrefix, class: SizeClass)
    ensures
        prefix.route() == Some(AllocationKind::Small(class)) <==> prefix.magic == 0x4f52_5448
            && prefix.kind is Small && prefix.class_index == class.position() && prefix.usable_size
            == class.payload() && 0 < prefix.requested_size <= prefix.usable_size,
        prefix.route() == Some(AllocationKind::Large) <==> prefix.magic == 0x4f52_5448
            && prefix.kind is Large && prefix.class_index == 255 && 0 < prefix.requested_size
            <= prefix.usable_size,
{
    assert(class_at(class.position()) == Some(class));
}

/// The allocation kind that the header at `block` routes to; `None` when it is corrupt.
pub open spec fn stored_route(memory: Memory, block: int) -> Option<AllocationKind> {
    match AllocationHeaderPrefix::stored(memory, block) {
        Some(prefix) => prefix.route(),
        None => None,
    }
}

impl AllocationHeader {
    /// Bytes of the routing prefix.
    pub const PREFIX_SIZE: usize = 20;

    /// The routing fields of this header.
    pub open spec fn prefix_spec(self) -> AllocationHeaderPrefix {
        AllocationHeaderPrefix {
            magic: self.magic,
            kind: self.kind,
            class_index: self.class_index,
            requested_size: self.requested_size,
            usable_size: self.usable_size,
            owner_cache_id: self.owner_cache_id,
        }
    }

    /// The header of a live small allocation.
    pub open spec fn small(class: SizeClass, requested_size: int, owner_cache_id: u32) -> Self {
        AllocationHeader {
            magic: HEADER_MAGIC,
            kind: AllocationKindTag::Small,
            class_index: class.position() as u8,
            requested_size: requested_size as u32,
            usable_size: class.payload() as u32,
            owner_cache_id,
            free_list_link: 0,
            small_free_marker: 0,
        }
    }

    /// The header of a live large allocation.
    pub open spec fn large(requested_size: int, usable_size: int) -> Self {
        AllocationHeader {
            magic: HEADER_MAGIC,
            kind: AllocationKindTag::Large,
            class_index: LARGE_CLASS_SENTINEL,
            requested_size: requested_size as u32,
            usable_size: usable_size as u32,
            owner_cache_id: 0,
            free_list_link: 0,
            small_free_marker: 0,
        }
    }

    /// The 64 bytes at `block` are this header: its fields, and zeros everywhere else.
    pub open spec fn is_at(self, memory: Memory, block: int) -> bool {
        &&& memory.word(block) == self.magic
        &&& memory.byte(block + 4) == self.kind.code()
        &&& memory.byte(block + 5) == self.class_index
        &&& memory.byte(block + 6) == 0
        &&& memory.byte(block + 7) == 0
        &&& memory.word(block + 8) == self.requested_size
        &&& memory.word(block + 12) == self.usable_size
        &&& memory.word(block + 16) == self.owner_cache_id
        &&& memory.word(block + 20) == 0
        &&& memory.long(block + 24) == self.free_list_link
        &&& memory.long(block + 32) == self.small_free_marker
        &&& forall|at: int| block + 40 <= at < block + 64 ==> #[trigger] memory.byte(at) == 0
    }

    /// Builds the header of a small allocation; `None` when the request does not fit the class.
    #[must_use]
    pub fn new_small(class: SizeClass, requested_size: usize) -> (result: Option<Self>)
        ensures
            result == if 0 < requested_size <= class.payload() {
                Some(Self::small(class, requested_size as int, 0))
            } else {
                None
            },
    {
        match encode_small_fields(class, requested_size) {
            Some((class_index, requested_size, usable_size)) => Some(
                Self::from_encoded_fields(
                    AllocationKindTag::Small,
                    class_index,
                    requested_size,
                    usable_size,
                    0,
                ),
            ),
            None => None,
        }
    }

    /// Builds the header of a large allocation; `None` when the sizes cannot be recorded.
    #[must_use]
    pub fn new_large(requested_size: usize, usable_size: usize) -> (result: Option<Self>)
        ensures
            result == if large_fields_fit(requested_size as int, usable_size as int) {
                Some(Self::large(requested_size as int, usable_size as int))
            } else {
                None
            },
    {
        match encode_large_fields(requested_size, usable_size) {
            Some((requested_size, usable_size)) => Some(
                Self::from_encoded_fields(
                    AllocationKindTag::Large,
                    LARGE_CLASS_SENTINEL,
                    requested_size,
                    usable_size,
                    0,
                ),
            ),
            None => None,
        }
    }

    /// Returns the routing fields of this header.
    #[must_use]
    pub fn prefix(&self) -> (prefix: AllocationHeaderPrefix)
        ensures
            prefix == self.prefix_spec(),
    {
        AllocationHeaderPrefix {
            magic: self.magic,
            kind: self.kind,
            class_index: self.class_index,
            requested_size: self.requested_size,
            usable_size: self.usable_size,
            owner_cache_id: self.owner_cache_id,
        }
    }

    /// Validates the header fields and decodes the allocation routing kind.
    ///
    /// # Errors
    ///
    /// Returns [`FreeError::CorruptHeader`] when the magic value, size fields,
    /// or small-allocation class metadata are inconsistent.
    pub fn validate(&self) -> (result: Result<AllocationKind, FreeError>)
        ensures
            result == match self.prefix_spec().route() {
                Some(kind) => Ok::<AllocationKind, FreeError>(kind),
                None => Err(FreeError::CorruptHeader),
            },
    {
        validate_prefix(self.prefix())
    }

    /// Returns the bytes the caller asked for.
    #[must_use]
    pub fn requested_size(&self) -> (result: usize)
        ensures
            result == self.requested_size,
    {
        self.requested_size as usize
    }

    /// Returns the bytes the block can hold.
    #[must_use]
    pub fn usable_size(&self) -> (result: usize)
        ensures
            result == self.usable_size,
    {
        self.usable_size as usize
    }

    /// Returns the owning cache of a small allocation.
    #[must_use]
    pub fn small_owner_cache_id(&self) -> (result: Option<u32>)
        ensures
            result == match self.kind {
                AllocationKindTag::Small => Some(self.owner_cache_id),
                AllocationKindTag::Large => None,
            },
    {
        match self.kind {
            AllocationKindTag::Small => Some(self.owner_cache_id),
            AllocationKindTag::Large => None,
        }
    }

    fn from_encoded_fields(
        kind: AllocationKindTag,
        class_index: u8,
        requested_size: u32,
        usable_size: u32,
        owner_cache_id: u32,
    ) -> (header: Self)
        ensures
            header == (AllocationHeader {
                magic: HEADER_MAGIC,
                kind,
                class_index,
                requested_size,
                usable_size,
                owner_cache_id,
                free_list_link: 0,
                small_free_marker: 0,
            }),
    {
        AllocationHeader {
            magic: HEADER_MAGIC,
            kind,
            class_index,
            requested_size,
            usable_size,
            owner_cache_id,
            free_list_link: 0,
            small_free_marker: 0,
        }
    }
}

/// The sizes of a large allocation that its header can record.
pub open spec fn large_fields_fit(requested_size: int, usable_size: int) -> bool {
    0 < requested_size <= usable_size <= u32::MAX
}

fn encode_small_fields(class: SizeClass, requested_size: usize) -> (result: Option<(u8, u32, u32)>)
    ensures
        result == if 0 < requested_size <= class.payload() {
            Some((class.position() as u8, requested_size as u32, class.payload() as u32))
        } else {
            None
        },
{
    if requested_size == 0 || requested_size > class.payload_size() {
        return None;
    }
    Some((size_class_to_index(class), requested_size as u32, class.payload_size() as u32))
}

fn encode_large_fields(requested_size: usize, usable_size: usize) -> (result: Option<(u32, u32)>)
    ensures
        result == if large_fields_fit(requested_size as int, usable_size as int) {
            Some((requested_size as u32, usable_size as u32))
        } else {
            None
        },
{
    if requested_size == 0 || usable_size < requested_size {
        return None;
    }
    if requested_size as u64 > u32::MAX as u64 || usable_size as u64 > u32::MAX as u64 {
        return None;
    }
    Some((requested_size as u32, usable_size as u32))
}

/// Validates the routing fields of a header.
///
/// # Errors
///
/// Returns [`FreeError::CorruptHeader`] when the fields are inconsistent.
pub fn validate_prefix(prefix: AllocationHeaderPrefix) -> (result: Result<AllocationKind, FreeError>)
    ensures
        result == match prefix.route() {
            Some(kind) => Ok::<AllocationKind, FreeError>(kind),
            None => Err(FreeError::CorruptHeader),
        },
{
    if prefix.magic != HEADER_MAGIC {
        return Err(FreeError::CorruptHeader);
    }
    if prefix.requested_size == 0 || prefix.usable_size < prefix.requested_size {
        return Err(FreeError::CorruptHeader);
    }
    match prefix.kind {
        AllocationKindTag::Small => {
            match index_to_size_class(prefix.class_index) {
                Some(class) => {
                    if prefix.usable_size as usize != class.payload_size() {
                        return Err(FreeError::CorruptHeader);
                    }
                    Ok(AllocationKind::Small(class))
                },
                None => Err(FreeError::CorruptHeader),
            }
        },
        AllocationKindTag::Large => {
            if prefix.class_index != LARGE_CLASS_SENTINEL {
                return Err(FreeError::CorruptHeader);
            }
            Ok(AllocationKind::Large)
        },
    }
}

/// Returns the dense index of a class.
#[must_use]
pub fn size_class_to_index(class: SizeClass) -> (index: u8)
    ensures
        index == class.position(),
        class_at(index as int) == Some(class),
{
    match class {
        SizeClass::B64 => 0,
        SizeClass::B256 => 1,
        SizeClass::B4K => 2,
        SizeClass::B6K => 3,
        SizeClass::B8K => 4,
        SizeClass::B16K => 5,
        SizeClass::B32K => 6,
        SizeClass::B64K => 7,
        SizeClass::B128K => 8,
        SizeClass::B256K => 9,
        SizeClass::B1M => 10,
        SizeClass::B16M => 11,
    }
}

/// Returns the class at a dense index; `None` when no class has it.
#[must_use]
pub fn index_to_size_class(index: u8) -> (result: Option<SizeClass>)
    ensures
        result == class_at(index as int),
        result is Some <==> index < NUM_CLASSES,
        result matches Some(class) ==> class.position() == index,
{
    match index {
        0 => Some(SizeClass::B64),
        1 => Some(SizeClass::B256),
        2 => Some(SizeClass::B4K),
        3 => Some(SizeClass::B6K),
        4 => Some(SizeClass::B8K),
        5 => Some(SizeClass::B16K),
        6 => Some(SizeClass::B32K),
        7 => Some(SizeClass::B64K),
        8 => Some(SizeClass::B128K),
        9 => Some(SizeClass::B256K),
        10 => Some(SizeClass::B1M),
        11 => Some(SizeClass::B16M),
        _ => None,
    }
}

/// The block at `block` carries the routing fields of a small block of `class`.
pub open spec fn prepared(memory: Memory, block: int, class: SizeClass) -> bool {
    &&& memory.word(block) == HEADER_MAGIC
    &&& memory.byte(block + 4) == AllocationKindTag::Small.code()
    &&& memory.byte(block + 5) == class.position()
    &&& memory.word(block + 12) == class.payload()
}

/// A live small allocation of `class` stands at `block`: `requested_size` bytes, allocated
/// by the cache `owner_cache_id`, not marked as freed.
pub open spec fn live_small(
    memory: Memory,
    block: int,
    class: SizeClass,
    requested_size: int,
    owner_cache_id: u32,
) -> bool {
    &&& prepared(memory, block, class)
    &&& memory.word(block + 8) == requested_size
    &&& memory.word(block + 16) == owner_cache_id
    &&& memory.long(block + 32) == 0
}

/// The freed marker of a block: a mix of its address that no live header holds.
pub open spec fn free_marker(block: u64) -> u64 {
    SMALL_FREE_MARKER_SEED ^ ((block << 17) | (block >> 47)) ^ 64
}

/// The block at `block` carries its freed marker.
pub open spec fn marked_freed(memory: Memory, block: int) -> bool {
    memory.long(block + 32) == free_marker(block as u64)
}

/// Law: the freed marker of an aligned block is never zero, the value in a live header.
pub proof fn free_marker_is_not_zero(block: u64)
    requires
        block % 64 == 0,
    ensures
        free_marker(block) != 0,
{
    assert(SMALL_FREE_MARKER_SEED ^ ((block << 17) | (block >> 47)) ^ 64 != 0) by (bit_vector)
        requires
            block % 64 == 0,
    ;
}

/// Law: two different blocks have different freed markers.
pub proof fn free_markers_differ(one: u64, other: u64)
    requires
        one != other,
    ensures
        free_marker(one) != free_marker(other),
{
    assert(SMALL_FREE_MARKER_SEED ^ ((one << 17) | (one >> 47)) ^ 64 != SMALL_FREE_MARKER_SEED ^ ((
    other << 17) | (other >> 47)) ^ 64) by (bit_vector)
        requires
            one != other,
    ;
}

/// The bytes of the header at `block` are the same.
pub open spec fn same_header(memory: Memory, other: Memory, block: int) -> bool {
    forall|at: int| block <= at < block + 64 ==> #[trigger] memory.byte(at) == other.byte(at)
}

/// A header whose bytes are the same is the same.
pub proof fn header_is_kept(memory: Memory, other: Memory, block: int)
    requires
        same_header(memory, other, block),
    ensures
        memory.word(block) == other.word(block),
        memory.byte(block + 4) == other.byte(block + 4),
        memory.byte(block + 5) == other.byte(block + 5),
        memory.word(block + 8) == other.word(block + 8),
        memory.word(block + 12) == other.word(block + 12),
        memory.word(block + 16) == other.word(block + 16),
        memory.long(block + 24) == other.long(block + 24),
        memory.long(block + 32) == other.long(block + 32),
        AllocationHeaderPrefix::stored(memory, block) == AllocationHeaderPrefix::stored(other, block),
        stored_route(memory, block) == stored_route(other, block),
        marked_freed(memory, block) == marked_freed(other, block),
        forall|class: SizeClass| prepared(memory, block, class) == prepared(other, block, class),
{
}

/// A header stays what it is when memory changes only elsewhere.
pub proof fn header_is_framed(memory: Memory, other: Memory, block: int, address: int, length: int)
    requires
        memory.covers(block, 64),
        memory.same_outside(other, address, length),
        block + 64 <= address || address + length <= block,
    ensures
        memory.word(block) == other.word(block),
        memory.byte(block + 4) == other.byte(block + 4),
        memory.byte(block + 5) == other.byte(block + 5),
        memory.word(block + 8) == other.word(block + 8),
        memory.word(block + 12) == other.word(block + 12),
        memory.word(block + 16) == other.word(block + 16),
        memory.long(block + 24) == other.long(block + 24),
        memory.long(block + 32) == other.long(block + 32),
        AllocationHeaderPrefix::stored(memory, block) == AllocationHeaderPrefix::stored(other, block),
        stored_route(memory, block) == stored_route(other, block),
        marked_freed(memory, block) == marked_freed(other, block),
        forall|class: SizeClass| prepared(memory, block, class) == prepared(other, block, class),
{
}

/// The two memories differ at most in the headers of the blocks `touched`.
pub open spec fn touches_only(memory: Memory, other: Memory, touched: Multiset<usize>) -> bool {
    &&& memory.same_place(other)
    &&& forall|at: int|
        memory.covers(at, 1) && #[trigger] memory.byte(at) != other.byte(at) ==> exists|block: usize|
            #[trigger] touched.count(block) > 0 && block <= at < block + HEADER_SIZE
}

/// Changes in two steps touch the blocks of both steps.
pub proof fn touches_compose(
    first: Memory,
    second: Memory,
    third: Memory,
    one: Multiset<usize>,
    other: Multiset<usize>,
)
    requires
        touches_only(second, first, one),
        touches_only(third, second, other),
    ensures
        touches_only(third, first, one.add(other)),
{
    broadcast use vstd::multiset::group_multiset_axioms;

    assert forall|at: int| third.covers(at, 1) && #[trigger] third.byte(at) != first.byte(at) implies exists|
        block: usize,
    | #[trigger] one.add(other).count(block) > 0 && block <= at < block + HEADER_SIZE by {
        if third.byte(at) != second.byte(at) {
            let block = choose|block: usize| #[trigger]
                other.count(block) > 0 && block <= at < block + HEADER_SIZE;
            assert(one.add(other).count(block) > 0);
        } else {
            assert(second.byte(at) != first.byte(at));
            let block = choose|block: usize| #[trigger]
                one.count(block) > 0 && block <= at < block + HEADER_SIZE;
            assert(one.add(other).count(block) > 0);
        }
    }
}

/// Memory that does not change touches nothing.
pub proof fn touches_nothing(memory: Memory)
    ensures
        touches_only(memory, memory, Multiset::empty()),
{
}

/// What touches few blocks touches no more than a larger collection.
pub proof fn touches_widen(memory: Memory, other: Memory, few: Multiset<usize>, many: Multiset<usize>)
    requires
        touches_only(memory, other, few),
        forall|block: usize| #[trigger] few.count(block) > 0 ==> many.count(block) > 0,
    ensures
        touches_only(memory, other, many),
{
    assert forall|at: int| memory.covers(at, 1) && #[trigger] memory.byte(at) != other.byte(at) implies exists|
        block: usize,
    | #[trigger] many.count(block) > 0 && block <= at < block + HEADER_SIZE by {
        let block = choose|block: usize| #[trigger]
            few.count(block) > 0 && block <= at < block + HEADER_SIZE;
        assert(many.count(block) > 0);
    }
}

/// A change inside one header touches that block only.
pub proof fn touches_one(memory: Memory, other: Memory, block: usize, address: int, length: int)
    requires
        memory.same_outside(other, address, length),
        block <= address,
        address + length <= block + HEADER_SIZE,
    ensures
        touches_only(memory, other, Multiset::singleton(block)),
{
    broadcast use vstd::multiset::group_multiset_axioms;

    assert forall|at: int| memory.covers(at, 1) && #[trigger] memory.byte(at) != other.byte(at) implies exists|
        b: usize,
    | #[trigger] Multiset::singleton(block).count(b) > 0 && b <= at < b + HEADER_SIZE by {
        assert(Multiset::singleton(block).count(block) > 0);
    }
}

/// The two memories differ at most in the headers of the blocks `whole` and in the link words
/// of the blocks `links`.
pub open spec fn changes(
    memory: Memory,
    other: Memory,
    whole: Multiset<usize>,
    links: Multiset<usize>,
) -> bool {
    &&& memory.same_place(other)
    &&& forall|at: int|
        memory.covers(at, 1) && #[trigger] memory.byte(at) != other.byte(at) ==> {
            ||| exists|block: usize| #[trigger]
                whole.count(block) > 0 && block <= at < block + HEADER_SIZE
            ||| exists|block: usize| #[trigger]
                links.count(block) > 0 && block + SMALL_FREE_LIST_LINK_OFFSET <= at < block
                    + SMALL_FREE_MARKER_OFFSET
        }
}

/// Memory that does not change.
pub proof fn changes_nothing(memory: Memory, whole: Multiset<usize>, links: Multiset<usize>)
    ensures
        changes(memory, memory, whole, links),
{
}

/// A change inside one link word.
pub proof fn changes_link(memory: Memory, other: Memory, block: usize)
    requires
        memory.same_outside(
            other,
            block + SMALL_FREE_LIST_LINK_OFFSET,
            SMALL_FREE_MARKER_OFFSET - SMALL_FREE_LIST_LINK_OFFSET,
        ),
    ensures
        changes(memory, other, Multiset::empty(), Multiset::singleton(block)),
{
    broadcast use vstd::multiset::group_multiset_axioms;

    assert forall|at: int| memory.covers(at, 1) && #[trigger] memory.byte(at) != other.byte(at) implies exists|
        b: usize,
    | #[trigger]
        Multiset::singleton(block).count(b) > 0 && b + SMALL_FREE_LIST_LINK_OFFSET <= at < b
            + SMALL_FREE_MARKER_OFFSET by {
        assert(Multiset::singleton(block).count(block) > 0);
    }
}

/// Changes of headers that touch the blocks `whole` only.
pub proof fn changes_headers(
    memory: Memory,
    other: Memory,
    whole: Multiset<usize>,
    links: Multiset<usize>,
)
    requires
        touches_only(memory, other, whole),
    ensures
        changes(memory, other, whole, links),
{
}

/// What changes in two steps changes in the blocks of both steps.
pub proof fn changes_compose(
    first: Memory,
    second: Memory,
    third: Memory,
    whole: Multiset<usize>,
    links: Multiset<usize>,
    more_whole: Multiset<usize>,
    more_links: Multiset<usize>,
)
    requires
        changes(second, first, whole, links),
        changes(third, second, more_whole, more_links),
    ensures
        changes(third, first, whole.add(more_whole), links.add(more_links)),
{
    broadcast use vstd::multiset::group_multiset_axioms;

    let (all, linked) = (whole.add(more_whole), links.add(more_links));
    assert forall|at: int| third.covers(at, 1) && #[trigger] third.byte(at) != first.byte(at) implies {
        ||| exists|block: usize| #[trigger]
            all.count(block) > 0 && block <= at < block + HEADER_SIZE
        ||| exists|block: usize| #[trigger]
            linked.count(block) > 0 && block + SMALL_FREE_LIST_LINK_OFFSET <= at < block
                + SMALL_FREE_MARKER_OFFSET
    } by {
        let (w, l) = if third.byte(at) != second.byte(at) {
            (more_whole, more_links)
        } else {
            assert(second.byte(at) != first.byte(at));
            (whole, links)
        };
        if exists|block: usize| #[trigger] w.count(block) > 0 && block <= at < block + HEADER_SIZE {
            let block = choose|block: usize| #[trigger]
                w.count(block) > 0 && block <= at < block + HEADER_SIZE;
            assert(all.count(block) > 0);
        } else {
            let block = choose|block: usize| #[trigger]
                l.count(block) > 0 && block + SMALL_FREE_LIST_LINK_OFFSET <= at < block
                    + SMALL_FREE_MARKER_OFFSET;
            assert(linked.count(block) > 0);
        }
    }
}

/// What changes in few blocks changes in no more than a larger collection.
pub proof fn changes_widen(
    memory: Memory,
    other: Memory,
    whole: Multiset<usize>,
    links: Multiset<usize>,
    more_whole: Multiset<usize>,
    more_links: Multiset<usize>,
)
    requires
        changes(memory, other, whole, links),
        forall|block: usize| #[trigger] whole.count(block) > 0 ==> more_whole.count(block) > 0,
        forall|block: usize| #[trigger] links.count(block) > 0 ==> more_links.count(block) > 0,
    ensures
        changes(memory, other, more_whole, more_links),
{
    assert forall|at: int| memory.covers(at, 1) && #[trigger] memory.byte(at) != other.byte(at) implies {
        ||| exists|block: usize| #[trigger]
            more_whole.count(block) > 0 && block <= at < block + HEADER_SIZE
        ||| exists|block: usize| #[trigger]
            more_links.count(block) > 0 && block + SMALL_FREE_LIST_LINK_OFFSET <= at < block
                + SMALL_FREE_MARKER_OFFSET
    } by {
        if exists|block: usize| #[trigger] whole.count(block) > 0 && block <= at < block + HEADER_SIZE {
            let block = choose|block: usize| #[trigger]
                whole.count(block) > 0 && block <= at < block + HEADER_SIZE;
            assert(more_whole.count(block) > 0);
        } else {
            let block = choose|block: usize| #[trigger]
                links.count(block) > 0 && block + SMALL_FREE_LIST_LINK_OFFSET <= at < block
                    + SMALL_FREE_MARKER_OFFSET;
            assert(more_links.count(block) > 0);
        }
    }
}

/// Changes of headers and link words are changes of headers.
pub proof fn changes_touch(
    memory: Memory,
    other: Memory,
    whole: Multiset<usize>,
    links: Multiset<usize>,
    touched: Multiset<usize>,
)
    requires
        changes(memory, other, whole, links),
        forall|block: usize| #[trigger] whole.count(block) > 0 ==> touched.count(block) > 0,
        forall|block: usize| #[trigger] links.count(block) > 0 ==> touched.count(block) > 0,
    ensures
        touches_only(memory, other, touched),
{
    assert forall|at: int| memory.covers(at, 1) && #[trigger] memory.byte(at) != other.byte(at) implies exists|
        block: usize,
    | #[trigger] touched.count(block) > 0 && block <= at < block + HEADER_SIZE by {
        if exists|block: usize| #[trigger] whole.count(block) > 0 && block <= at < block + HEADER_SIZE {
            let block = choose|block: usize| #[trigger]
                whole.count(block) > 0 && block <= at < block + HEADER_SIZE;
            assert(touched.count(block) > 0);
        } else {
            let block = choose|block: usize| #[trigger]
                links.count(block) > 0 && block + SMALL_FREE_LIST_LINK_OFFSET <= at < block
                    + SMALL_FREE_MARKER_OFFSET;
            assert(touched.count(block) > 0);
        }
    }
}

/// One more link word changes.
pub proof fn relinks_one(
    first: Memory,
    second: Memory,
    third: Memory,
    whole: Multiset<usize>,
    links: Multiset<usize>,
    block: usize,
)
    requires
        changes(second, first, whole, links),
        third.same_outside(second, block + 24, 8),
        header_fits(third, block as int),
    ensures
        changes(third, first, whole, links.insert(block)),
        changes_close(third, second),
        touches_only(third, second, Multiset::singleton(block)),
{
    broadcast use vstd::multiset::group_multiset_axioms;

    let (none, one) = (Multiset::<usize>::empty(), Multiset::singleton(block));
    changes_link(third, second, block);
    changes_compose(first, second, third, whole, links, none, one);
    changes_widen(third, first, whole.add(none), links.add(one), whole, links.insert(block));
    closes_links(third, second, one);
    touches_one(third, second, block, block + 24, 8);
}

/// Everything in a header but its link word stays when only other headers and link words change.
pub proof fn header_is_relinked(
    memory: Memory,
    other: Memory,
    whole: Multiset<usize>,
    links: Multiset<usize>,
    block: int,
)
    requires
        header_fits(memory, block),
        changes(memory, other, whole, links),
        headers_fit(memory, links),
        headers_fit(memory, whole),
        0 <= block <= usize::MAX ==> whole.count(block as usize) == 0,
    ensures
        memory.word(block) == other.word(block),
        memory.byte(block + 4) == other.byte(block + 4),
        memory.byte(block + 5) == other.byte(block + 5),
        memory.word(block + 8) == other.word(block + 8),
        memory.word(block + 12) == other.word(block + 12),
        memory.word(block + 16) == other.word(block + 16),
        memory.long(block + 32) == other.long(block + 32),
        AllocationHeaderPrefix::stored(memory, block) == AllocationHeaderPrefix::stored(other, block),
        stored_route(memory, block) == stored_route(other, block),
        marked_freed(memory, block) == marked_freed(other, block),
        refused(memory, block) == refused(other, block),
        forall|class: SizeClass| prepared(memory, block, class) == prepared(other, block, class),
        forall|at: int|
            block <= at < block + 64 && !(24 <= at - block < 32) ==> #[trigger] memory.byte(at)
                == other.byte(at),
{
    assert forall|at: int|
        block <= at < block + 64 && !(24 <= at - block < 32) implies #[trigger] memory.byte(at)
        == other.byte(at) by {
        if memory.byte(at) != other.byte(at) {
            if exists|b: usize| #[trigger] whole.count(b) > 0 && b <= at < b + HEADER_SIZE {
                let b = choose|b: usize| #[trigger] whole.count(b) > 0 && b <= at < b + HEADER_SIZE;
                headers_are_apart(memory, block, b as int);
            } else {
                let b = choose|b: usize| #[trigger]
                    links.count(b) > 0 && b + SMALL_FREE_LIST_LINK_OFFSET <= at < b
                        + SMALL_FREE_MARKER_OFFSET;
                assert(header_fits(memory, b as int));
                if b != block {
                    headers_are_apart(memory, block, b as int);
                }
            }
        }
    }
    reveal(refused);
}

/// A header can be written at each of the given blocks.
pub open spec fn headers_fit(memory: Memory, blocks: Multiset<usize>) -> bool {
    &&& memory.wf()
    &&& forall|block: usize| #[trigger] blocks.count(block) > 0 ==> header_fits(memory, block as int)
}

/// The headers of two different aligned blocks do not overlap.
pub proof fn headers_are_apart(memory: Memory, one: int, other: int)
    requires
        header_fits(memory, one),
        header_fits(memory, other),
        one != other,
    ensures
        one + HEADER_SIZE <= other || other + HEADER_SIZE <= one,
{
}

/// A header stays what it is when only headers of blocks elsewhere change.
pub proof fn header_is_untouched(
    memory: Memory,
    other: Memory,
    touched: Multiset<usize>,
    block: int,
)
    requires
        memory.covers(block, 64),
        touches_only(memory, other, touched),
        forall|b: usize| #[trigger]
            touched.count(b) > 0 ==> b + HEADER_SIZE <= block || block + HEADER_SIZE <= b,
    ensures
        memory.word(block) == other.word(block),
        memory.byte(block + 4) == other.byte(block + 4),
        memory.byte(block + 5) == other.byte(block + 5),
        memory.word(block + 8) == other.word(block + 8),
        memory.word(block + 12) == other.word(block + 12),
        memory.word(block + 16) == other.word(block + 16),
        memory.long(block + 24) == other.long(block + 24),
        memory.long(block + 32) == other.long(block + 32),
        AllocationHeaderPrefix::stored(memory, block) == AllocationHeaderPrefix::stored(other, block),
        stored_route(memory, block) == stored_route(other, block),
        marked_freed(memory, block) == marked_freed(other, block),
        forall|class: SizeClass| prepared(memory, block, class) == prepared(other, block, class),
{
    assert forall|at: int| block <= at < block + 64 implies #[trigger] memory.byte(at) == other.byte(
        at,
    ) by {
    }
}

/// Law: what a header writer stored is what a header reader decodes.
pub proof fn written_header_reads_back(memory: Memory, block: int, header: AllocationHeader)
    requires
        header.is_at(memory, block),
    ensures
        AllocationHeaderPrefix::stored(memory, block) == Some(header.prefix_spec()),
        stored_route(memory, block) == header.prefix_spec().route(),
{
}

/// Freeing the block at `block` is refused: its header is none of an allocation, or it carries
/// the freed marker.
#[verifier::opaque]
pub open spec fn refused(memory: Memory, block: int) -> bool {
    stored_route(memory, block) is None || marked_freed(memory, block)
}

/// Every byte of `memory` that differs from `other` belongs to a link word, or to a header whose
/// block is refused.
pub open spec fn changes_close(memory: Memory, other: Memory) -> bool {
    &&& memory.same_place(other)
    &&& forall|at: int|
        memory.covers(at, 1) && #[trigger] memory.byte(at) != other.byte(at) ==> 24 <= at % 64 < 32
            || memory.covers(at - at % 64, 64) && refused(memory, at - at % 64)
}

/// The same bytes, whatever the link words are, are refused alike.
pub proof fn refused_alike(memory: Memory, other: Memory, block: int)
    requires
        forall|at: int|
            block <= at < block + 64 && !(24 <= at - block < 32) ==> #[trigger] memory.byte(at)
                == other.byte(at),
    ensures
        refused(memory, block) == refused(other, block),
{
    reveal(refused);
    assert(memory.word(block) == other.word(block));
    assert(memory.word(block + 8) == other.word(block + 8));
    assert(memory.word(block + 12) == other.word(block + 12));
    assert(memory.word(block + 16) == other.word(block + 16));
    assert(memory.long(block + 32) == other.long(block + 32));
}

/// A header of zeros is refused.
pub proof fn zeros_are_refused(memory: Memory, block: int)
    requires
        forall|at: int| block <= at < block + 64 ==> #[trigger] memory.byte(at) == 0,
    ensures
        refused(memory, block),
{
    reveal(refused);
    assert(memory.byte(block + 4) == 0);
}

/// A header as it is written when a slab is reserved is refused.
pub proof fn reset_is_refused(memory: Memory, block: int, class: SizeClass)
    requires
        AllocationHeader::small(class, 0, 0).is_at(memory, block),
    ensures
        refused(memory, block),
{
    reveal(refused);
    written_header_reads_back(memory, block, AllocationHeader::small(class, 0, 0));
}

/// A block that carries the freed marker is refused.
pub proof fn marked_is_refused(memory: Memory, block: int)
    requires
        marked_freed(memory, block),
    ensures
        refused(memory, block),
{
    reveal(refused);
}

/// Changing one header so that its block is refused.
pub proof fn closes_one(memory: Memory, other: Memory, block: int)
    requires
        block % 64 == 0,
        memory.covers(block, 64),
        memory.same_outside(other, block, 64),
        refused(memory, block),
    ensures
        changes_close(memory, other),
{
}

/// Changes of link words.
pub proof fn closes_links(memory: Memory, other: Memory, links: Multiset<usize>)
    requires
        changes(memory, other, Multiset::empty(), links),
        headers_fit(memory, links),
    ensures
        changes_close(memory, other),
{
    broadcast use vstd::multiset::group_multiset_axioms;

    assert forall|at: int|
        memory.covers(at, 1) && #[trigger] memory.byte(at) != other.byte(at) implies 24 <= at % 64
        < 32 by {
        let block = choose|block: usize| #[trigger]
            links.count(block) > 0 && block + SMALL_FREE_LIST_LINK_OFFSET <= at < block
                + SMALL_FREE_MARKER_OFFSET;
        assert(header_fits(memory, block as int));
    }
}

/// Changes of nothing.
pub proof fn closes_nothing(memory: Memory)
    ensures
        changes_close(memory, memory),
{
}

/// A block that is refused stays refused.
pub proof fn stays_refused(memory: Memory, other: Memory, block: int)
    requires
        changes_close(memory, other),
        block % 64 == 0,
        memory.covers(block, 64),
        refused(other, block),
    ensures
        refused(memory, block),
{
    if forall|at: int|
        block <= at < block + 64 && !(24 <= at - block < 32) ==> #[trigger] memory.byte(at)
            == other.byte(at) {
        refused_alike(memory, other, block);
    } else {
        let at = choose|at: int|
            block <= at < block + 64 && !(24 <= at - block < 32) && #[trigger] memory.byte(at)
                != other.byte(at);
        assert(memory.covers(at, 1));
        assert(at - at % 64 == block);
    }
}

/// Two such changes, one after the other.
pub proof fn closes_compose(first: Memory, second: Memory, third: Memory)
    requires
        changes_close(second, first),
        changes_close(third, second),
    ensures
        changes_close(third, first),
{
    assert forall|at: int|
        third.covers(at, 1) && #[trigger] third.byte(at) != first.byte(at) && !(24 <= at % 64
            < 32) implies third.covers(at - at % 64, 64) && refused(third, at - at % 64) by {
        let block = at - at % 64;
        if third.byte(at) == second.byte(at) {
            assert(second.byte(at) != first.byte(at));
            stays_refused(third, second, block);
        }
    }
}

/// Returns the header address of a block.
#[must_use]
pub fn header_from_block_start(block_start: usize) -> (header: usize)
    ensures
        header == block_start,
{
    block_start
}

/// Returns the block that a header starts.
#[must_use]
pub fn block_start_from_header(header: usize) -> (block_start: usize)
    ensures
        block_start == header,
{
    header
}

/// Returns the address handed to the user for a block.
#[must_use]
pub fn user_ptr_from_block_start(block_start: usize) -> (user: usize)
    requires
        block_start + HEADER_SIZE <= usize::MAX,
    ensures
        user == block_start + HEADER_SIZE,
{
    block_start + HEADER_SIZE
}

/// Returns the address handed to the user for the block of a header.
#[must_use]
pub fn user_ptr_from_header(header: usize) -> (user: usize)
    requires
        header + HEADER_SIZE <= usize::MAX,
    ensures
        user == header + HEADER_SIZE,
{
    user_ptr_from_block_start(block_start_from_header(header))
}

/// Converts a user address back to the header address at the start of the block.
#[must_use]
pub fn header_from_user_ptr(user: usize) -> (header: usize)
    requires
        user >= HEADER_SIZE,
    ensures
        header == user - HEADER_SIZE,
{
    user - HEADER_SIZE
}

/// Converts a user address back to the start of its block.
#[must_use]
pub fn block_start_from_user_ptr(user: usize) -> (block_start: usize)
    requires
        user >= HEADER_SIZE,
    ensures
        block_start == user - HEADER_SIZE,
{
    block_start_from_header(header_from_user_ptr(user))
}

/// A header can be written at `block`.
pub open spec fn header_fits(memory: Memory, block: int) -> bool {
    &&& memory.wf()
    &&& memory.covers(block, HEADER_SIZE as int)
    &&& block % HEADER_ALIGNMENT as int == 0
}

impl AllocationHeader {
    /// Stores this header at the start of a block and returns its address.
    pub fn write_to_block(self, memory: &mut Memory, block_start: usize) -> (header: usize)
        requires
            header_fits(*old(memory), block_start as int),
        ensures
            header == block_start,
            self.is_at(*final(memory), block_start as int),
            final(memory).wf(),
            final(memory).same_outside(*old(memory), block_start as int, HEADER_SIZE as int),
    {
        memory.write_word(block_start, self.magic);
        memory.write_byte(block_start + 4, self.kind.to_byte());
        memory.write_byte(block_start + 5, self.class_index);
        memory.write_byte(block_start + 6, 0);
        memory.write_byte(block_start + 7, 0);
        memory.write_word(block_start + 8, self.requested_size);
        memory.write_word(block_start + 12, self.usable_size);
        memory.write_word(block_start + 16, self.owner_cache_id);
        memory.write_word(block_start + 20, 0);
        memory.write_long(block_start + SMALL_FREE_LIST_LINK_OFFSET, self.free_list_link);
        memory.write_long(block_start + SMALL_FREE_MARKER_OFFSET, self.small_free_marker);
        memory.write_long(block_start + 40, 0);
        memory.write_long(block_start + 48, 0);
        memory.write_long(block_start + 56, 0);
        header_from_block_start(block_start)
    }

    /// Stores the header of a small allocation; `None`, with memory unchanged, when the
    /// request does not fit the class.
    pub fn write_small_to_block(
        memory: &mut Memory,
        block_start: usize,
        class: SizeClass,
        requested_size: usize,
        owner_cache_id: u32,
    ) -> (result: Option<usize>)
        requires
            header_fits(*old(memory), block_start as int),
        ensures
            0 < requested_size <= class.payload() ==> result == Some(block_start) && Self::small(
                class,
                requested_size as int,
                owner_cache_id,
            ).is_at(*final(memory), block_start as int),
            !(0 < requested_size <= class.payload()) ==> result is None && *final(memory) == *old(memory),
            final(memory).wf(),
            final(memory).same_outside(*old(memory), block_start as int, HEADER_SIZE as int),
    {
        match encode_small_fields(class, requested_size) {
            Some((class_index, requested_size, usable_size)) => {
                let header = Self::from_encoded_fields(
                    AllocationKindTag::Small,
                    class_index,
                    requested_size,
                    usable_size,
                    owner_cache_id,
                );
                Some(header.write_to_block(memory, block_start))
            },
            None => None,
        }
    }

    /// Stores the header of a small allocation whose request is known to fit the class.
    pub fn write_small_to_block_unchecked(
        memory: &mut Memory,
        block_start: usize,
        class: SizeClass,
        requested_size: usize,
        owner_cache_id: u32,
    ) -> (header: usize)
        requires
            header_fits(*old(memory), block_start as int),
            0 < requested_size <= class.payload(),
        ensures
            header == block_start,
            Self::small(class, requested_size as int, owner_cache_id).is_at(
                *final(memory),
                block_start as int,
            ),
            live_small(
                *final(memory),
                block_start as int,
                class,
                requested_size as int,
                owner_cache_id,
            ),
            final(memory).wf(),
            final(memory).same_outside(*old(memory), block_start as int, HEADER_SIZE as int),
    {
        let header = Self::from_encoded_fields(
            AllocationKindTag::Small,
            size_class_to_index(class),
            requested_size as u32,
            class.payload_size() as u32,
            owner_cache_id,
        );
        header.write_to_block(memory, block_start)
    }

    /// Stores the routing fields of a free small block: a request of zero bytes and no owner.
    pub fn initialize_small_to_block_unchecked(
        memory: &mut Memory,
        block_start: usize,
        class: SizeClass,
    ) -> (header: usize)
        requires
            header_fits(*old(memory), block_start as int),
        ensures
            header == block_start,
            Self::small(class, 0, 0).is_at(*final(memory), block_start as int),
            prepared(*final(memory), block_start as int, class),
            final(memory).wf(),
            final(memory).same_outside(*old(memory), block_start as int, HEADER_SIZE as int),
    {
        let header = Self::from_encoded_fields(
            AllocationKindTag::Small,
            size_class_to_index(class),
            0,
            class.payload_size() as u32,
            0,
        );
        header.write_to_block(memory, block_start)
    }

    /// Replaces the requested size in a small header and clears its freed marker.
    pub fn refresh_small_requested_size_unchecked(
        memory: &mut Memory,
        block_start: usize,
        requested_size: usize,
    ) -> (header: usize)
        requires
            header_fits(*old(memory), block_start as int),
            0 < requested_size <= old(memory).word(block_start + 12),
        ensures
            header == block_start,
            final(memory).word(block_start + 8) == requested_size,
            final(memory).long(block_start + 32) == 0,
            final(memory).word(block_start + 16) == old(memory).word(block_start + 16),
            forall|class: SizeClass|
                prepared(*old(memory), block_start as int, class) ==> prepared(
                    *final(memory),
                    block_start as int,
                    class,
                ),
            forall|at: int|
                #![trigger final(memory).byte(at)]
                old(memory).covers(at, 1) && !(8 <= at - block_start < 12) && !(32 <= at
                    - block_start < 40) ==> final(memory).byte(at) == old(memory).byte(at),
            final(memory).wf(),
            final(memory).same_outside(*old(memory), block_start as int, HEADER_SIZE as int),
    {
        memory.write_word(block_start + 8, requested_size as u32);
        clear_small_block_freed(memory, block_start);
        header_from_block_start(block_start)
    }

    /// Replaces the requested size and the owner in a small header and clears its freed marker.
    pub fn refresh_small_requested_size_and_owner_unchecked(
        memory: &mut Memory,
        block_start: usize,
        requested_size: usize,
        owner_cache_id: u32,
    ) -> (header: usize)
        requires
            header_fits(*old(memory), block_start as int),
            0 < requested_size <= old(memory).word(block_start + 12),
        ensures
            header == block_start,
            final(memory).word(block_start + 8) == requested_size,
            final(memory).word(block_start + 16) == owner_cache_id,
            final(memory).long(block_start + 32) == 0,
            forall|class: SizeClass|
                prepared(*old(memory), block_start as int, class) ==> prepared(
                    *final(memory),
                    block_start as int,
                    class,
                ),
            forall|at: int|
                #![trigger final(memory).byte(at)]
                old(memory).covers(at, 1) && !(8 <= at - block_start < 12) && !(16 <= at
                    - block_start < 20) && !(32 <= at - block_start < 40) ==> final(memory).byte(at)
                    == old(memory).byte(at),
            final(memory).wf(),
            final(memory).same_outside(*old(memory), block_start as int, HEADER_SIZE as int),
    {
        memory.write_word(block_start + 8, requested_size as u32);
        memory.write_word(block_start + 16, owner_cache_id);
        clear_small_block_freed(memory, block_start);
        header_from_block_start(block_start)
    }

    /// Stores the header of a large allocation; `None`, with memory unchanged, when the
    /// sizes cannot be recorded.
    pub fn write_large_to_block(
        memory: &mut Memory,
        block_start: usize,
        requested_size: usize,
        usable_size: usize,
    ) -> (result: Option<usize>)
        requires
            header_fits(*old(memory), block_start as int),
        ensures
            large_fields_fit(requested_size as int, usable_size as int) ==> result == Some(
                block_start,
            ) && Self::large(requested_size as int, usable_size as int).is_at(
                *final(memory),
                block_start as int,
            ),
            !large_fields_fit(requested_size as int, usable_size as int) ==> result is None
                && *final(memory) == *old(memory),
            final(memory).wf(),
            final(memory).same_outside(*old(memory), block_start as int, HEADER_SIZE as int),
    {
        match encode_large_fields(requested_size, usable_size) {
            Some((requested_size, usable_size)) => {
                let header = Self::from_encoded_fields(
                    AllocationKindTag::Large,
                    LARGE_CLASS_SENTINEL,
                    requested_size,
                    usable_size,
                    0,
                );
                Some(header.write_to_block(memory, block_start))
            },
            None => None,
        }
    }

    /// Reads and validates the routing fields of the header in front of a user address.
    ///
    /// # Errors
    ///
    /// Returns [`FreeError::CorruptHeader`] when the stored bytes are no valid header.
    pub fn read_from_user_ptr(memory: &Memory, user: usize) -> (result: Result<
        (AllocationHeaderPrefix, AllocationKind),
        FreeError,
    >)
        requires
            memory.wf(),
            memory.covers(user - HEADER_SIZE, HEADER_SIZE as int),
            user >= HEADER_SIZE,
        ensures
            match stored_route(*memory, user - HEADER_SIZE) {
                Some(kind) => result == Ok::<(AllocationHeaderPrefix, AllocationKind), FreeError>(
                    (AllocationHeaderPrefix::stored(*memory, user - HEADER_SIZE)->0, kind),
                ),
                None => result == Err::<(AllocationHeaderPrefix, AllocationKind), FreeError>(
                    FreeError::CorruptHeader,
                ),
            },
    {
        let block_start: usize = block_start_from_user_ptr(user);
        let kind = match AllocationKindTag::from_byte(memory.read_byte(block_start + 4)) {
            Some(kind) => kind,
            None => {
                return Err(FreeError::CorruptHeader);
            },
        };
        let prefix = AllocationHeaderPrefix {
            magic: memory.read_word(block_start),
            kind,
            class_index: memory.read_byte(block_start + 5),
            requested_size: memory.read_word(block_start + 8),
            usable_size: memory.read_word(block_start + 12),
            owner_cache_id: memory.read_word(block_start + 16),
        };
        match validate_prefix(prefix) {
            Ok(kind) => Ok((prefix, kind)),
            Err(error) => Err(error),
        }
    }
}

/// The address in the link word of the block at `block`.
pub open spec fn link(memory: Memory, block: int) -> int {
    memory.long(block + SMALL_FREE_LIST_LINK_OFFSET)
}

/// Reads the block that follows `block_start` in its free list.
#[must_use]
pub fn read_small_free_list_next(memory: &Memory, block_start: usize) -> (next: Option<usize>)
    requires
        memory.wf(),
        memory.covers(block_start as int, HEADER_SIZE as int),
        link(*memory, block_start as int) <= usize::MAX,
    ensures
        next == if link(*memory, block_start as int) == 0 {
            None
        } else {
            Some(link(*memory, block_start as int) as usize)
        },
{
    let next: u64 = memory.read_long(block_start + SMALL_FREE_LIST_LINK_OFFSET);
    if next == 0 {
        None
    } else {
        Some(next as usize)
    }
}

/// Stores the block that follows `block_start` in its free list.
pub fn write_small_free_list_next(memory: &mut Memory, block_start: usize, next: Option<usize>)
    requires
        old(memory).wf(),
        old(memory).covers(block_start as int, HEADER_SIZE as int),
    ensures
        link(*final(memory), block_start as int) == match next {
            Some(next) => next as int,
            None => 0,
        },
        final(memory).wf(),
        final(memory).same_outside(*old(memory), block_start + 24, 8),
{
    let address: u64 = match next {
        Some(next) => next as u64,
        None => 0,
    };
    memory.write_long(block_start + SMALL_FREE_LIST_LINK_OFFSET, address);
}

/// Computes the freed marker of a block.
#[must_use]
pub fn small_free_marker_for(block_start: usize) -> (marker: u64)
    ensures
        marker == free_marker(block_start as u64),
{
    let address: u64 = block_start as u64;
    SMALL_FREE_MARKER_SEED ^ ((address << 17) | (address >> 47)) ^ 64
}

/// Whether the block at `block_start` carries its freed marker.
#[must_use]
pub fn small_block_is_marked_freed(memory: &Memory, block_start: usize) -> (result: bool)
    requires
        memory.wf(),
        memory.covers(block_start as int, HEADER_SIZE as int),
    ensures
        result == marked_freed(*memory, block_start as int),
{
    memory.read_long(block_start + SMALL_FREE_MARKER_OFFSET) == small_free_marker_for(block_start)
}

/// Stores the freed marker of a block.
pub fn mark_small_block_freed(memory: &mut Memory, block_start: usize)
    requires
        old(memory).wf(),
        old(memory).covers(block_start as int, HEADER_SIZE as int),
    ensures
        marked_freed(*final(memory), block_start as int),
        final(memory).wf(),
        final(memory).same_outside(*old(memory), block_start + 32, 8),
{
    memory.write_long(block_start + SMALL_FREE_MARKER_OFFSET, small_free_marker_for(block_start));
}

/// Clears the freed marker of a block.
pub fn clear_small_block_freed(memory: &mut Memory, block_start: usize)
    requires
        old(memory).wf(),
        old(memory).covers(block_start as int, HEADER_SIZE as int),
    ensures
        final(memory).long(block_start + 32) == 0,
        final(memory).wf(),
        final(memory).same_outside(*old(memory), block_start + 32, 8),
{
    memory.write_long(block_start + SMALL_FREE_MARKER_OFFSET, 0);
}

} // verus!
