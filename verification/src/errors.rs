use vstd::prelude::*;

verus! {

/// Failures surfaced by the codec.
///
/// Decoding is fail-fast: a malformed or truncated stream aborts the call and
/// no partial grammar is ever returned.
#[derive(Clone, Copy, Debug, PartialEq, Eq, Structural)]
pub enum CodecError {
    /// Fewer bits remained in the stream than the field being read required.
    UnexpectedEndOfStream,
    /// The caller selected a codec variant that this build does not implement
    /// for the requested direction.
    UnsupportedFormat,
}

} // verus!
