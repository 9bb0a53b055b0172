use vstd::prelude::*;

verus! {

/// Why a codec call failed. Every failure is a property of the input alone:
/// calling again with the same bytes gives the same error.
#[derive(Debug, Clone, Copy, PartialEq, Eq, Structural)]
pub enum CodecError {
    /// The run-length `compress` was given a buffer of length zero.
    EmptyInput,
    /// The compressed stream ends in the middle of a record.
    TruncatedInput,
    /// A sliding-window record starts with a tag that is neither literal nor match.
    InvalidMarker,
    /// A match record refers to bytes that have not been decoded yet.
    InvalidOffset,
}

} // verus!
