//! The range-reduced codec behind a buffer-shaped API: grammars cross this
//! boundary as owned, length-carrying buffers.

use vstd::prelude::*;

verus! {

use crate::bits::{ByteOrder, stream_bits};
use crate::codec::{encode_stream, encoded_bits, spec_decode};
use crate::errors::CodecError;
use crate::grammar::{RawVec, from_raw_grammar, grammar_fits, raw_grammar_view, to_raw_grammar};
use crate::grammar_tuple;

/// Decode a range-reduced stream, handing the grammar out as owned buffers.
pub fn decode_bytes(data: &[u8]) -> (r: Result<RawVec<RawVec<u32>>, CodecError>)
    ensures
        match r {
            Ok(g) => spec_decode(data@, ByteOrder::Big, true) == Some(raw_grammar_view(g)),
            Err(e) => e == CodecError::UnexpectedEndOfStream
                && spec_decode(data@, ByteOrder::Big, true) is None,
        },
{
    match grammar_tuple::decode(data) {
        Ok(g) => Ok(to_raw_grammar(g)),
        Err(e) => Err(e),
    }
}

/// Encode a buffer-shaped grammar as a range-reduced stream.
pub fn encode_grammar_to_byte_vec(grammar: &RawVec<RawVec<u32>>) -> (r: RawVec<u8>)
    requires
        grammar_fits(raw_grammar_view(*grammar)),
    ensures
        stream_bits(r@) == encoded_bits(raw_grammar_view(*grammar), ByteOrder::Big, true),
        8 * r@.len() == encoded_bits(raw_grammar_view(*grammar), ByteOrder::Big, true).len(),
{
    let g = from_raw_grammar(grammar);
    let bytes = encode_stream(&g, ByteOrder::Big, true);
    RawVec(bytes)
}

} // verus!
