//! The fixed-format codec variant.
//!
//! Integer fields are little-endian; the stream head holds only the rule
//! count, and each rule stores its own absolute length in full. Not binary
//! compatible with the range-reduced variant.

use vstd::prelude::*;

verus! {

use crate::bits::{ByteOrder, stream_bits};
use crate::codec::{decode_stream, encode_stream, encoded_bits, spec_decode};
use crate::errors::CodecError;
use crate::grammar::{RawVec, grammar_fits, raw_grammar_view, to_raw_grammar};

/// Decode a fixed-format stream into a grammar. Fails exactly when some
/// field reaches past the end of the input.
pub fn decode(input: &[u8]) -> (r: Result<Vec<Vec<u32>>, CodecError>)
    ensures
        match r {
            Ok(g) => spec_decode(input@, ByteOrder::Little, false) == Some(g.deep_view()),
            Err(e) => e == CodecError::UnexpectedEndOfStream
                && spec_decode(input@, ByteOrder::Little, false) is None,
        },
{
    decode_stream(input, ByteOrder::Little, false)
}

/// Encode a grammar as a fixed-format stream.
pub fn encode(grammar: &Vec<Vec<u32>>) -> (r: Vec<u8>)
    requires
        grammar_fits(grammar.deep_view()),
    ensures
        stream_bits(r@) == encoded_bits(grammar.deep_view(), ByteOrder::Little, false),
        8 * r@.len() == encoded_bits(grammar.deep_view(), ByteOrder::Little, false).len(),
{
    encode_stream(grammar, ByteOrder::Little, false)
}

/// Decode a fixed-format stream, handing the grammar out as owned buffers.
pub fn decode_bytes(data: &[u8]) -> (r: Result<RawVec<RawVec<u32>>, CodecError>)
    ensures
        match r {
            Ok(g) => spec_decode(data@, ByteOrder::Little, false) == Some(raw_grammar_view(g)),
            Err(e) => e == CodecError::UnexpectedEndOfStream
                && spec_decode(data@, ByteOrder::Little, false) is None,
        },
{
    match decode(data) {
        Ok(g) => Ok(to_raw_grammar(g)),
        Err(e) => Err(e),
    }
}

} // verus!
