//! The ways in which decoding can fail.

use vstd::prelude::*;

verus! {

/// Why a byte sequence was not accepted.
#[derive(Debug, Clone, Copy, PartialEq, Eq, Structural)]
pub enum ParseError {
    /// The input does not begin with the four bytes `"GOX "`.
    BadMagic,
    /// The bytes at a chunk boundary are none of the six known tags.
    UnrecognizedChunkTag,
    /// A fixed-size field or a length-prefixed blob runs past the end of the input.
    Truncated,
    /// A dictionary was expected but not a single entry could be read.
    EmptyDictionary,
    /// A layer declares more block records than the input holds.
    InvalidBlockCount,
}

} // verus!
