//! Caller-facing selection of a coder.
//!
//! The codec never detects a variant from the stream itself: the coder used
//! to decode must be the one used to encode, communicated out of band. An
//! unimplemented selection fails closed rather than falling back.

use vstd::prelude::*;

verus! {

use crate::bits::{ByteOrder, stream_bits};
use crate::codec::{encoded_bits, spec_decode};
use crate::didactic;
use crate::didactic::didactic_text;
use crate::errors::CodecError;
use crate::grammar::grammar_fits;
use crate::grammar_tuple;

/// Selects which coder runs.
#[derive(Clone, Copy, Debug, PartialEq, Eq, Structural)]
#[non_exhaustive]
pub enum Coder {
    /// Human-readable text, one rule per line. Encode only.
    Didactic,
    /// The range-reduced binary format.
    GrammarTuple,
}

/// Decode an encoded grammar from bytes with the selected coder. The
/// didactic coder has no decoder, so selecting it fails closed.
pub fn from_bytes(data: &[u8], coder: Coder) -> (r: Result<Vec<Vec<u32>>, CodecError>)
    ensures
        match coder {
            Coder::GrammarTuple => (match r {
                Ok(g) => spec_decode(data@, ByteOrder::Big, true) == Some(g.deep_view()),
                Err(e) => e == CodecError::UnexpectedEndOfStream
                    && spec_decode(data@, ByteOrder::Big, true) is None,
            }),
            Coder::Didactic => r == Err::<Vec<Vec<u32>>, CodecError>(CodecError::UnsupportedFormat),
        },
{
    match coder {
        Coder::Didactic => Err(CodecError::UnsupportedFormat),
        Coder::GrammarTuple => grammar_tuple::decode(data),
    }
}

/// Encode a grammar to bytes with the selected coder.
pub fn to_bytes(grammar: &Vec<Vec<u32>>, coder: Coder) -> (r: Result<Vec<u8>, CodecError>)
    requires
        coder == Coder::GrammarTuple ==> grammar_fits(grammar.deep_view()),
    ensures
        match coder {
            Coder::GrammarTuple => r is Ok
                && stream_bits(r.unwrap()@) == encoded_bits(grammar.deep_view(), ByteOrder::Big, true)
                && 8 * r.unwrap()@.len() == encoded_bits(grammar.deep_view(), ByteOrder::Big, true).len(),
            Coder::Didactic => r is Ok && r.unwrap()@ == didactic_text(grammar.deep_view()),
        },
{
    match coder {
        Coder::Didactic => Ok(didactic::encode(grammar)),
        Coder::GrammarTuple => Ok(grammar_tuple::encode(grammar)),
    }
}

} // verus!
