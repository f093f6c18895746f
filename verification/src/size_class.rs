use vstd::prelude::*;

use crate::align;
use crate::header::HEADER_SIZE;

verus! {

/// Number of fixed small-request classes.
pub const NUM_CLASSES: usize = 12;

/// Default block-start alignment used for class sizing.
pub const BLOCK_ALIGNMENT: usize = 64;

/// Fixed small-allocation classes.
#[derive(Clone, Copy, Debug, PartialEq, Eq, Hash, Structural)]
pub enum SizeClass {
    /// Requests in `1..=64`.
    B64,
    /// Requests in `65..=256`.
    B256,
    /// Requests in `257..=4096`.
    B4K,
    /// Requests in `4097..=6144`.
    B6K,
    /// Requests in `6145..=8192`.
    B8K,
    /// Requests in `8193..=16_384`.
    B16K,
    /// Requests in `16_385..=32_768`.
    B32K,
    /// Requests in `32_769..=65_536`.
    B64K,
    /// Requests in `65_537..=131_072`.
    B128K,
    /// Requests in `131_073..=262_144`.
    B256K,
    /// Requests in `262_145..=1_048_576`.
    B1M,
    /// Requests in `1_048_577..=16_777_216`.
    B16M,
}

/// The alignment that blocks of an allocator configured with `alignment` have.
pub open spec fn effective_alignment(alignment: int) -> int {
    if alignment < BLOCK_ALIGNMENT {
        BLOCK_ALIGNMENT as int
    } else {
        alignment
    }
}

impl SizeClass {
    /// All size classes in ascending order.
    pub const ALL: [Self; NUM_CLASSES] = [
        Self::B64,
        Self::B256,
        Self::B4K,
        Self::B6K,
        Self::B8K,
        Self::B16K,
        Self::B32K,
        Self::B64K,
        Self::B128K,
        Self::B256K,
        Self::B1M,
        Self::B16M,
    ];

    /// The largest request, in bytes, that a block of this class can hold.
    pub open spec fn payload(self) -> int {
        match self {
            Self::B64 => 64,
            Self::B256 => 256,
            Self::B4K => 4_096,
            Self::B6K => 6_144,
            Self::B8K => 8_192,
            Self::B16K => 16_384,
            Self::B32K => 32_768,
            Self::B64K => 65_536,
            Self::B128K => 131_072,
            Self::B256K => 262_144,
            Self::B1M => 1_048_576,
            Self::B16M => 16_777_216,
        }
    }

    /// The position of this class in [`Self::ALL`].
    pub open spec fn position(self) -> int {
        match self {
            Self::B64 => 0,
            Self::B256 => 1,
            Self::B4K => 2,
            Self::B6K => 3,
            Self::B8K => 4,
            Self::B16K => 5,
            Self::B32K => 6,
            Self::B64K => 7,
            Self::B128K => 8,
            Self::B256K => 9,
            Self::B1M => 10,
            Self::B16M => 11,
        }
    }

    /// Bytes of one block of this class: header and payload, rounded up to the effective
    /// alignment.
    pub open spec fn block_bytes(self, alignment: int) -> int {
        align::rounded_up(self.payload() + HEADER_SIZE, effective_alignment(alignment))
    }

    /// The class that serves requests of `size` bytes: the one with the smallest payload
    /// that holds the request.
    pub open spec fn serves(self, size: int) -> bool {
        &&& 0 < size <= self.payload()
        &&& forall|other: Self| #[trigger] other.position() < self.position() ==> other.payload() < size
    }

    /// Law: every size up to the largest payload has a class that serves it, and only one.
    pub proof fn small_sizes_have_one_class(size: int) -> (class: Self)
        requires
            0 < size <= Self::B16M.payload(),
        ensures
            class.serves(size),
            forall|other: Self| #[trigger] other.serves(size) ==> other == class,
    {
        let class = if size <= 64 {
            Self::B64
        } else if size <= 256 {
            Self::B256
        } else if size <= 4_096 {
            Self::B4K
        } else if size <= 6_144 {
            Self::B6K
        } else if size <= 8_192 {
            Self::B8K
        } else if size <= 16_384 {
            Self::B16K
        } else if size <= 32_768 {
            Self::B32K
        } else if size <= 65_536 {
            Self::B64K
        } else if size <= 131_072 {
            Self::B128K
        } else if size <= 262_144 {
            Self::B256K
        } else if size <= 1_048_576 {
            Self::B1M
        } else {
            Self::B16M
        };
        assert forall|other: Self| #[trigger] other.serves(size) implies other == class by {
            if other.position() < class.position() {
                assert(other.payload() < size);
            }
            if class.position() < other.position() {
                assert(class.payload() < size);
            }
        }
        class
    }

    /// Law: which sizes each class serves.
    pub proof fn classes_serve_their_ranges(size: int)
        ensures
            Self::B64.serves(size) <==> 1 <= size <= 64,
            Self::B256.serves(size) <==> 65 <= size <= 256,
            Self::B4K.serves(size) <==> 257 <= size <= 4_096,
            Self::B6K.serves(size) <==> 4_097 <= size <= 6_144,
            Self::B8K.serves(size) <==> 6_145 <= size <= 8_192,
            Self::B16K.serves(size) <==> 8_193 <= size <= 16_384,
            Self::B32K.serves(size) <==> 16_385 <= size <= 32_768,
            Self::B64K.serves(size) <==> 32_769 <= size <= 65_536,
            Self::B128K.serves(size) <==> 65_537 <= size <= 131_072,
            Self::B256K.serves(size) <==> 131_073 <= size <= 262_144,
            Self::B1M.serves(size) <==> 262_145 <= size <= 1_048_576,
            Self::B16M.serves(size) <==> 1_048_577 <= size <= 16_777_216,
    {
        assert(Self::B64.position() < Self::B256.position());
        assert(Self::B256.position() < Self::B4K.position());
        assert(Self::B4K.position() < Self::B6K.position());
        assert(Self::B6K.position() < Self::B8K.position());
        assert(Self::B8K.position() < Self::B16K.position());
        assert(Self::B16K.position() < Self::B32K.position());
        assert(Self::B32K.position() < Self::B64K.position());
        assert(Self::B64K.position() < Self::B128K.position());
        assert(Self::B128K.position() < Self::B256K.position());
        assert(Self::B256K.position() < Self::B1M.position());
        assert(Self::B1M.position() < Self::B16M.position());
    }

    /// Law: a block has room for the header and for every request that its class serves, is a
    /// multiple of the alignment, and wastes less than one alignment step.
    pub proof fn blocks_hold_their_requests(self, alignment: usize, size: int)
        requires
            self.serves(size),
        ensures
            64 + size <= self.block_bytes(alignment as int),
            64 <= alignment ==> self.block_bytes(alignment as int) % alignment as int == 0,
            64 <= alignment ==> self.block_bytes(alignment as int) < self.payload() + 64
                + alignment,
            alignment <= 64 ==> self.block_bytes(alignment as int) == self.payload() + 64,
    {
        if alignment >= 64 {
            align::rounded_up_is_least_multiple(self.payload() + HEADER_SIZE, alignment as int);
        }
    }

    /// Maps a request size to its small-allocation class, or `None` for zero and large requests.
    #[must_use]
    pub fn from_request(size: usize) -> (result: Option<Self>)
        ensures
            match result {
                Some(class) => class.serves(size as int),
                None => size == 0 || size > Self::B16M.payload(),
            },
            result is Some <==> 0 < size <= Self::B16M.payload(),
    {
        match size {
            1..=64 => Some(Self::B64),
            65..=256 => Some(Self::B256),
            257..=4_096 => Some(Self::B4K),
            4_097..=6_144 => Some(Self::B6K),
            6_145..=8_192 => Some(Self::B8K),
            8_193..=16_384 => Some(Self::B16K),
            16_385..=32_768 => Some(Self::B32K),
            32_769..=65_536 => Some(Self::B64K),
            65_537..=131_072 => Some(Self::B128K),
            131_073..=262_144 => Some(Self::B256K),
            262_145..=1_048_576 => Some(Self::B1M),
            1_048_577..=16_777_216 => Some(Self::B16M),
            _ => None,
        }
    }

    /// Returns the maximum user payload size, in bytes, for this class.
    #[must_use]
    pub fn payload_size(self) -> (result: usize)
        ensures
            result == self.payload(),
    {
        match self {
            Self::B64 => 64,
            Self::B256 => 256,
            Self::B4K => 4_096,
            Self::B6K => 6 * 1_024,
            Self::B8K => 8_192,
            Self::B16K => 16_384,
            Self::B32K => 32_768,
            Self::B64K => 65_536,
            Self::B128K => 131_072,
            Self::B256K => 262_144,
            Self::B1M => 1_048_576,
            Self::B16M => 16_777_216,
        }
    }

    /// Returns the full allocator block size for this class under the default 64-byte alignment.
    ///
    /// For allocator-specific capacity planning under a custom alignment, prefer
    /// [`Self::block_size_for_alignment`] or [`crate::AllocatorConfig::class_block_size`].
    #[must_use]
    pub fn block_size(self) -> (result: usize)
        ensures
            result == self.block_bytes(BLOCK_ALIGNMENT as int),
            result == self.payload() + HEADER_SIZE,
    {
        align_up(self.payload_size() + HEADER_SIZE, BLOCK_ALIGNMENT)
    }

    /// Returns the full allocator block size for this class using `alignment`.
    ///
    /// Alignments below the crate's minimum block alignment are clamped up to `64`
    /// so this helper remains total even before allocator validation.
    #[must_use]
    pub fn block_size_for_alignment(self, alignment: usize) -> (result: usize)
        ensures
            result == self.block_bytes(alignment as int),
            result >= self.payload() + HEADER_SIZE,
    {
        proof {
            self.block_bytes_fit(alignment);
        }
        align_up(self.payload_size() + HEADER_SIZE, effective_block_alignment(alignment))
    }

    /// Returns the stable dense array index for this class.
    #[must_use]
    pub fn index(self) -> (result: usize)
        ensures
            result == self.position(),
            result < NUM_CLASSES,
            Self::ALL[result as int] == self,
    {
        match self {
            Self::B64 => 0,
            Self::B256 => 1,
            Self::B4K => 2,
            Self::B6K => 3,
            Self::B8K => 4,
            Self::B16K => 5,
            Self::B32K => 6,
            Self::B64K => 7,
            Self::B128K => 8,
            Self::B256K => 9,
            Self::B1M => 10,
            Self::B16M => 11,
        }
    }

    /// Returns the largest request still handled by the small-allocation path.
    #[must_use]
    pub fn max_small_request() -> (result: usize)
        ensures
            result == Self::B16M.payload(),
            result == 16_777_216,
    {
        Self::B16M.payload_size()
    }

    /// A block size never overflows `usize`, covers header and payload, and is a multiple
    /// of the effective alignment.
    pub proof fn block_bytes_fit(self, alignment: usize)
        ensures
            self.payload() + HEADER_SIZE <= self.block_bytes(alignment as int) <= usize::MAX,
            self.block_bytes(alignment as int) % effective_alignment(alignment as int) == 0,
    {
        let value = self.payload() + HEADER_SIZE;
        let effective = effective_alignment(alignment as int);
        align::rounded_up_is_least_multiple(value, effective);
        if effective > value {
            vstd::arithmetic::div_mod::lemma_small_mod(value as nat, effective as nat);
            assert(align::rounded_up(value, effective) == effective);
        }
    }

    /// The class that serves a request is unique.
    pub proof fn serving_class_is_unique(self, other: Self, size: int)
        requires
            self.serves(size),
            other.serves(size),
        ensures
            self == other,
    {
        if self.position() < other.position() {
        } else if other.position() < self.position() {
        }
    }

    /// Larger classes hold larger requests and have larger blocks.
    pub proof fn classes_ascend(self, other: Self)
        requires
            self.position() < other.position(),
        ensures
            self.payload() < other.payload(),
            self.block_bytes(BLOCK_ALIGNMENT as int) < other.block_bytes(BLOCK_ALIGNMENT as int),
    {
    }
}

fn align_up(value: usize, alignment: usize) -> (result: usize)
    requires
        alignment > 0,
        align::rounded_up(value as int, alignment as int) <= usize::MAX,
    ensures
        result == align::rounded_up(value as int, alignment as int),
{
    let remainder: usize = value % alignment;
    if remainder == 0 {
        value
    } else {
        value + (alignment - remainder)
    }
}

fn effective_block_alignment(alignment: usize) -> (result: usize)
    ensures
        result == effective_alignment(alignment as int),
{
    if alignment < BLOCK_ALIGNMENT {
        BLOCK_ALIGNMENT
    } else {
        alignment
    }
}

} // verus!
