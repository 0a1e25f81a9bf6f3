//! The ways an operation on the index can fail.

use vstd::prelude::*;

verus! {

/// Failure of an index operation. A key or symbol that is simply not present
/// is not a failure: lookups report it as `None`.
#[derive(Clone, Copy, Debug, PartialEq, Eq, Structural)]
pub enum IndexError {
    /// A symbol argument lies outside the alphabet.
    InvalidSymbol,
    /// The children handed to a constructor do not match the bitmap.
    StructuralMismatch,
    /// A child was asked of a branch whose children do not match its
    /// bitmap. No constructor makes such a branch, and no operation of this
    /// library gives this answer.
    CorruptIndex,
}

} // verus!
