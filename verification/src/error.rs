//! The ways in which an operation of this crate can fail.

use vstd::prelude::*;

verus! {

/// Why an operation was abandoned. Every failure ends the operation in
/// progress: nothing is skipped and nothing is written in part.
#[derive(Debug, Clone, Copy, PartialEq, Eq, Structural)]
pub enum CodecError {
    /// A buffer is too short for what has to be read from it, or a packed
    /// stream cannot be unpacked to the length asked for: it ends early,
    /// or it refers to bytes from before its own start.
    MalformedInput,
    /// A record does not fit the 32768 bytes of its slot or file.
    CapacityExceeded,
    /// A slot index outside `0..150`.
    UnsupportedSlot,
}

} // verus!
