//! The failure taxonomy shared by all strict operations.

use vstd::prelude::*;

verus! {

/// Why a strict string operation was refused.
///
/// Strict operations return one of these and leave the string exactly as it
/// was; no partial mutation is ever observable.
#[derive(Clone, Copy, Debug, PartialEq, Eq, Structural)]
pub enum StringError {
    /// A byte index exceeds the current length.
    OutOfBounds,
    /// A byte index splits a multi-byte UTF-8 sequence.
    NotCharBoundary,
    /// The input bytes are not valid UTF-8; `valid_up_to` is the length of the
    /// longest valid prefix.
    Utf8Invalid { valid_up_to: usize },
    /// The input code units contain an unpaired or invalid surrogate.
    Utf16Invalid,
    /// The operation needs more bytes than the remaining capacity.
    CapacityOverflow,
}

} // verus!
