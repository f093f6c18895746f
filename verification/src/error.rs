use vstd::prelude::*;
use vstd::string::*;

use crate::text;
use crate::text::append_decimal;

verus! {

/// The operating system's error value; opaque here.
#[verifier::external_type_specification]
#[verifier::external_body]
pub struct ExIoError(std::io::Error);

/// Failures while constructing an allocator instance or the global allocator.
#[derive(Debug)]
pub enum InitError {
    /// Creating the arena mapping failed.
    MapFailed(std::io::Error),
    /// The supplied allocator configuration violated a required invariant.
    InvalidConfig(&'static str),
}

/// Failures that can occur while allocating memory.
#[derive(Clone, Copy, Debug, PartialEq, Eq, Structural)]
pub enum AllocError {
    /// Zero-sized requests are rejected.
    ZeroSize,
    /// The process-global allocator could not be initialized.
    GlobalInitFailed,
    /// The allocator could not reserve enough space for the request.
    OutOfMemory { requested: usize, remaining: usize },
}

/// Detectable failures while freeing memory.
#[derive(Clone, Copy, Debug, PartialEq, Eq, Structural)]
pub enum FreeError {
    /// The process-global allocator could not be initialized.
    GlobalInitFailed,
    /// The pointer does not belong to this allocator instance.
    ForeignPointer,
    /// The compatibility size argument disagreed with the stored allocation size.
    SizeMismatch { provided: usize, recorded: usize },
    /// A small allocation was freed twice while its freed marker was still intact.
    DoubleFree,
    /// A large allocation was already freed or was never recorded as live.
    AlreadyFreedOrUnknownLarge,
    /// The decoded allocation header was invalid.
    CorruptHeader,
}

/// Renders an error of the operating system with `std::io::Error`'s own `Display`.
///
/// Nothing is claimed of the text: it comes from the operating system and its locale.
#[verifier::external_body]
pub(crate) fn io_error_text(error: &std::io::Error) -> (text: String) {
    format!("{error}")
}

impl InitError {
    /// `words` describe the failure. How the system words its own part is left open.
    pub open spec fn described_by(self, words: Seq<char>) -> bool {
        match self {
            InitError::MapFailed(_) => exists|cause: Seq<char>|
                words == #[trigger] ("failed to create arena mapping: "@ + cause),
            InitError::InvalidConfig(text) => words == "invalid allocator configuration: "@ + text@,
        }
    }

    /// Describes the failure in words.
    #[must_use]
    pub fn message(&self) -> (message: String)
        ensures
            self.described_by(message@),
    {
        match self {
            InitError::MapFailed(error) => {
                let cause: String = io_error_text(error);
                let mut message: String = String::from_str("failed to create arena mapping: ");
                message.append(cause.as_str());
                message
            },
            InitError::InvalidConfig(text) => {
                let mut message: String = String::from_str("invalid allocator configuration: ");
                message.append(text);
                message
            },
        }
    }
}

impl AllocError {
    /// The failure in words.
    pub open spec fn text(self) -> Seq<char> {
        match self {
            AllocError::ZeroSize => "allocation size must be greater than zero"@,
            AllocError::GlobalInitFailed => "global allocator initialization failed"@,
            AllocError::OutOfMemory { requested, remaining } => {
                "allocator out of memory: requested "@ + text::decimal(requested as nat)
                    + " bytes, remaining "@ + text::decimal(remaining as nat) + " bytes"@
            },
        }
    }

    /// Describes the failure in words.
    #[must_use]
    pub fn message(&self) -> (message: String)
        ensures
            message@ == self.text(),
    {
        match *self {
            AllocError::ZeroSize => String::from_str("allocation size must be greater than zero"),
            AllocError::GlobalInitFailed => String::from_str(
                "global allocator initialization failed",
            ),
            AllocError::OutOfMemory { requested, remaining } => {
                let mut message: String = String::from_str("allocator out of memory: requested ");
                append_decimal(&mut message, requested);
                message.append(" bytes, remaining ");
                append_decimal(&mut message, remaining);
                message.append(" bytes");
                message
            },
        }
    }
}

impl FreeError {
    /// The failure in words.
    pub open spec fn text(self) -> Seq<char> {
        match self {
            FreeError::GlobalInitFailed => "global allocator initialization failed"@,
            FreeError::ForeignPointer => "pointer does not belong to this allocator"@,
            FreeError::SizeMismatch { provided, recorded } => {
                "provided size "@ + text::decimal(provided as nat)
                    + " does not match recorded allocation size "@ + text::decimal(recorded as nat)
            },
            FreeError::DoubleFree => "small allocation was already freed"@,
            FreeError::AlreadyFreedOrUnknownLarge => {
                "large allocation was already freed or is unknown"@
            },
            FreeError::CorruptHeader => "allocation header is corrupt"@,
        }
    }

    /// Describes the failure in words.
    #[must_use]
    pub fn message(&self) -> (message: String)
        ensures
            message@ == self.text(),
    {
        match *self {
            FreeError::GlobalInitFailed => String::from_str(
                "global allocator initialization failed",
            ),
            FreeError::ForeignPointer => String::from_str(
                "pointer does not belong to this allocator",
            ),
            FreeError::SizeMismatch { provided, recorded } => {
                let mut message: String = String::from_str("provided size ");
                append_decimal(&mut message, provided);
                message.append(" does not match recorded allocation size ");
                append_decimal(&mut message, recorded);
                message
            },
            FreeError::DoubleFree => String::from_str("small allocation was already freed"),
            FreeError::AlreadyFreedOrUnknownLarge => String::from_str(
                "large allocation was already freed or is unknown",
            ),
            FreeError::CorruptHeader => String::from_str("allocation header is corrupt"),
        }
    }
}

} // verus!
