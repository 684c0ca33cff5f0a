//! The errors of a merge.

use vstd::prelude::*;

verus! {

/// Why a merge, or one of its passes, gave up.
#[derive(Clone, Copy, Debug, PartialEq, Eq, Structural)]
pub enum MergeError {
    /// A read reached past the end of the input bytes.
    UnexpectedEof,
    /// A box whose size is smaller than its own header, or whose end does not
    /// fit in 64 bits, or that is too small to hold a field that must be
    /// patched.
    MalformedBox,
    /// The descriptor lacks what a box needs: the track that the box belongs
    /// to, the payload region of the current file, a non-zero timescale to
    /// divide by, or written bytes at a position that is to be patched.
    InvariantViolation,
    /// A merged value does not fit the integer field that has to hold it.
    Overflow,
}

} // verus!
