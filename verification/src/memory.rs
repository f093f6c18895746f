use memmap2::MmapMut;
use vstd::prelude::*;

verus! {

/// An anonymous memory mapping of the `memmap2` crate.
#[verifier::external_type_specification]
#[verifier::external_body]
pub struct ExMmapMut(MmapMut);

/// The bytes that a mapping holds, from its first to its last.
pub uninterp spec fn mapping_bytes(mapping: MmapMut) -> Seq<u8>;

/// Calls `memmap2::MmapMut::map_anon`: a mapping of exactly `length` bytes, or an error. More
/// than `isize::MAX` bytes are refused. Up to there, whether a mapping or the system's error
/// comes back, and what the bytes hold, is the system's affair and left unsaid.
#[verifier::external_body]
fn map_anonymous(length: usize) -> (result: Result<MmapMut, std::io::Error>)
    ensures
        result matches Ok(mapping) ==> mapping_bytes(mapping).len() == length,
        length > isize::MAX ==> result is Err,
{
    MmapMut::map_anon(length)
}

/// Reads the address of a mapping's first byte, through `memmap2::MmapMut`'s `deref` to a
/// byte slice. A slice is never at address zero and never reaches past the end of the
/// address space; where it lies is the system's affair and left unsaid.
#[verifier::external_body]
fn mapping_address(mapping: &MmapMut) -> (address: usize)
    ensures
        0 < address,
        address + mapping_bytes(*mapping).len() <= usize::MAX,
{
    mapping.as_ptr().addr()
}

/// Reads one byte of a mapping, through `memmap2::MmapMut`'s `deref` to a byte slice.
#[verifier::external_body]
fn mapping_read(mapping: &MmapMut, offset: usize) -> (byte: u8)
    requires
        offset < mapping_bytes(*mapping).len(),
    ensures
        byte == mapping_bytes(*mapping)[offset as int],
{
    mapping[offset]
}

/// Replaces one byte of a mapping, through `memmap2::MmapMut`'s `deref_mut` to a byte
/// slice, and leaves the others as they were.
#[verifier::external_body]
fn mapping_write(mapping: &mut MmapMut, offset: usize, byte: u8)
    requires
        offset < mapping_bytes(*old(mapping)).len(),
    ensures
        mapping_bytes(*final(mapping)) == mapping_bytes(*old(mapping)).update(offset as int, byte),
{
    mapping[offset] = byte;
}

/// A mapped run of bytes, read and written by address, with little-endian words.
pub struct Memory {
    mapping: MmapMut,
    base: usize,
}

impl Memory {
    /// The mapping ends inside the address space.
    pub open spec fn wf(self) -> bool {
        &&& 0 < self.start()
        &&& self.start() + self.size() <= usize::MAX
    }

    /// The address of the first byte.
    pub closed spec fn start(self) -> int {
        self.base as int
    }

    /// The number of bytes.
    pub closed spec fn size(self) -> int {
        mapping_bytes(self.mapping).len() as int
    }

    /// The byte at `address`.
    pub closed spec fn byte(self, address: int) -> u8 {
        mapping_bytes(self.mapping)[address - self.base]
    }

    /// The `length` bytes from `address` on lie in this memory.
    pub open spec fn covers(self, address: int, length: int) -> bool {
        self.start() <= address && address + length <= self.start() + self.size()
    }

    /// The 32-bit word at `address`.
    pub open spec fn word(self, address: int) -> int {
        self.byte(address) + 0x100 * self.byte(address + 1) + 0x1_0000 * self.byte(address + 2)
            + 0x100_0000 * self.byte(address + 3)
    }

    /// The 64-bit word at `address`.
    pub open spec fn long(self, address: int) -> int {
        self.word(address) + 0x1_0000_0000 * self.word(address + 4)
    }

    /// The same run of addresses.
    pub open spec fn same_place(self, other: Self) -> bool {
        &&& self.start() == other.start()
        &&& self.size() == other.size()
    }

    /// `self` and `other` differ at most in the `length` bytes from `address` on.
    pub open spec fn same_outside(self, other: Self, address: int, length: int) -> bool {
        &&& self.same_place(other)
        &&& forall|at: int|
            self.covers(at, 1) && !(address <= at < address + length) ==> #[trigger] self.byte(at)
                == other.byte(at)
    }

    /// Maps `length` bytes of fresh memory. Whether the system grants up to `isize::MAX` bytes
    /// is left unsaid.
    ///
    /// # Errors
    ///
    /// Returns an error when `length` exceeds `isize::MAX`, and the system's error when it
    /// refuses the mapping.
    pub fn map(length: usize) -> (result: Result<Self, std::io::Error>)
        ensures
            result matches Ok(memory) ==> memory.wf() && memory.size() == length,
            length > isize::MAX ==> result is Err,
    {
        Self::of_mapping(map_anonymous(length))
    }

    /// The memory that an attempt to map gave.
    ///
    /// # Errors
    ///
    /// Returns the error of an attempt that failed.
    pub fn of_mapping(outcome: Result<MmapMut, std::io::Error>) -> (result: Result<
        Self,
        std::io::Error,
    >)
        ensures
            match outcome {
                Ok(mapping) => result matches Ok(memory) && memory.wf() && memory.size()
                    == mapping_bytes(mapping).len() && forall|at: int|
                    memory.covers(at, 1) ==> #[trigger] memory.byte(at) == mapping_bytes(mapping)[at
                        - memory.start()],
                Err(error) => result == Err::<Self, std::io::Error>(error),
            },
    {
        match outcome {
            Ok(mapping) => {
                let base: usize = mapping_address(&mapping);
                Ok(Memory { mapping, base })
            },
            Err(error) => Err(error),
        }
    }

    /// Returns the address of the first byte.
    #[must_use]
    pub fn first_address(&self) -> (address: usize)
        requires
            self.wf(),
        ensures
            address == self.start(),
            0 < address,
            address + self.size() <= usize::MAX,
    {
        self.base
    }

    /// Whether the `length` bytes from `address` on lie in this memory.
    #[must_use]
    pub fn covers_range(&self, address: usize, length: usize) -> (result: bool)
        requires
            self.wf(),
        ensures
            result == self.covers(address as int, length as int),
    {
        if address < self.base {
            return false;
        }
        let offset: usize = address - self.base;
        let size: usize = self.length();
        offset <= size && length <= size - offset
    }

    /// Returns the number of bytes.
    #[must_use]
    pub fn length(&self) -> (size: usize)
        requires
            self.wf(),
        ensures
            size == self.size(),
    {
        mapping_length(&self.mapping)
    }

    /// Reads one byte.
    #[must_use]
    pub fn read_byte(&self, address: usize) -> (byte: u8)
        requires
            self.wf(),
            self.covers(address as int, 1),
        ensures
            byte == self.byte(address as int),
    {
        mapping_read(&self.mapping, address - self.base)
    }

    /// Writes one byte.
    pub fn write_byte(&mut self, address: usize, byte: u8)
        requires
            old(self).wf(),
            old(self).covers(address as int, 1),
        ensures
            final(self).wf(),
            final(self).byte(address as int) == byte,
            final(self).same_outside(*old(self), address as int, 1),
    {
        mapping_write(&mut self.mapping, address - self.base, byte);
    }

    /// Reads a 32-bit word.
    #[must_use]
    pub fn read_word(&self, address: usize) -> (word: u32)
        requires
            self.wf(),
            self.covers(address as int, 4),
        ensures
            word == self.word(address as int),
    {
        let b0: u32 = self.read_byte(address) as u32;
        let b1: u32 = self.read_byte(address + 1) as u32;
        let b2: u32 = self.read_byte(address + 2) as u32;
        let b3: u32 = self.read_byte(address + 3) as u32;
        b0 + 0x100 * b1 + 0x1_0000 * b2 + 0x100_0000 * b3
    }

    /// Writes a 32-bit word.
    pub fn write_word(&mut self, address: usize, word: u32)
        requires
            old(self).wf(),
            old(self).covers(address as int, 4),
        ensures
            final(self).wf(),
            final(self).word(address as int) == word,
            final(self).same_outside(*old(self), address as int, 4),
    {
        proof {
            assert(word == word % 0x100 + 0x100 * (word / 0x100 % 0x100) + 0x1_0000 * (word
                / 0x1_0000 % 0x100) + 0x100_0000 * (word / 0x100_0000)) by (bit_vector);
            assert(word / 0x100_0000 < 0x100) by (bit_vector);
        }
        let b0: u8 = (word % 0x100) as u8;
        let b1: u8 = (word / 0x100 % 0x100) as u8;
        let b2: u8 = (word / 0x1_0000 % 0x100) as u8;
        let b3: u8 = (word / 0x100_0000) as u8;
        self.write_byte(address, b0);
        self.write_byte(address + 1, b1);
        self.write_byte(address + 2, b2);
        self.write_byte(address + 3, b3);
    }

    /// Reads a 64-bit word.
    #[must_use]
    pub fn read_long(&self, address: usize) -> (long: u64)
        requires
            self.wf(),
            self.covers(address as int, 8),
        ensures
            long == self.long(address as int),
    {
        let low: u64 = self.read_word(address) as u64;
        let high: u64 = self.read_word(address + 4) as u64;
        low + 0x1_0000_0000 * high
    }

    /// Writes a 64-bit word.
    pub fn write_long(&mut self, address: usize, long: u64)
        requires
            old(self).wf(),
            old(self).covers(address as int, 8),
        ensures
            final(self).wf(),
            final(self).long(address as int) == long,
            final(self).same_outside(*old(self), address as int, 8),
    {
        self.write_word(address, (long % 0x1_0000_0000) as u32);
        self.write_word(address + 4, (long / 0x1_0000_0000) as u32);
    }
}

/// Reads the number of bytes of a mapping, through `memmap2::MmapMut`'s `deref` to a byte
/// slice.
#[verifier::external_body]
fn mapping_length(mapping: &MmapMut) -> (length: usize)
    ensures
        length == mapping_bytes(*mapping).len(),
{
    mapping.len()
}

} // verus!
