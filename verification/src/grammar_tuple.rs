//! The range-reduced codec variant.
//!
//! Integer fields are big-endian. The stream head holds the rule count and
//! the folded minimum and maximum rule length; each rule then stores its
//! length as the offset from the minimum, shrinking the field on average.

use vstd::prelude::*;

verus! {

use crate::bits::{ByteOrder, stream_bits};
use crate::codec::{decode_stream, encode_stream, encoded_bits, spec_decode};
use crate::errors::CodecError;
use crate::grammar::grammar_fits;

/// Decode a range-reduced stream into a grammar. Fails exactly when some
/// field reaches past the end of the input.
pub fn decode(input: &[u8]) -> (r: Result<Vec<Vec<u32>>, CodecError>)
    ensures
        match r {
            Ok(g) => spec_decode(input@, ByteOrder::Big, true) == Some(g.deep_view()),
            Err(e) => e == CodecError::UnexpectedEndOfStream
                && spec_decode(input@, ByteOrder::Big, true) is None,
        },
{
    decode_stream(input, ByteOrder::Big, true)
}

/// Encode a grammar as a range-reduced stream.
pub fn encode(grammar: &Vec<Vec<u32>>) -> (r: Vec<u8>)
    requires
        grammar_fits(grammar.deep_view()),
    ensures
        stream_bits(r@) == encoded_bits(grammar.deep_view(), ByteOrder::Big, true),
        8 * r@.len() == encoded_bits(grammar.deep_view(), ByteOrder::Big, true).len(),
{
    encode_stream(grammar, ByteOrder::Big, true)
}

} // verus!
