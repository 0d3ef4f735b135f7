//! The mathematical model of the canonical boolean encoding.
//!
//! A boolean is carried in exactly one byte: `0x00` for false and `0xff` for
//! true. No other byte stands for true here, so every value has a single
//! encoding.

use super::error::ParseError;
use vstd::prelude::*;

verus! {

/// The encoding of `value`: the one byte `0xff` for true, `0x00` for false.
pub open spec fn encode_boolean(value: bool) -> Seq<u8> {
    if value {
        seq![0xffu8]
    } else {
        seq![0x00u8]
    }
}

/// The outcome of decoding `bytes` as a boolean: the two encodings give
/// their values, and every other sequence is invalid.
pub open spec fn decode_boolean(bytes: Seq<u8>) -> Result<bool, ParseError> {
    if bytes.len() == 1 && bytes[0] == 0x00 {
        Ok(false)
    } else if bytes.len() == 1 && bytes[0] == 0xff {
        Ok(true)
    } else {
        Err(ParseError::InvalidValue)
    }
}

/// Decoding the encoding of a boolean gives the boolean back.
pub proof fn boolean_round_trip(value: bool)
    ensures
        decode_boolean(encode_boolean(value)) == Ok::<bool, ParseError>(value),
{
}

/// A sequence decodes to a boolean only if it is that boolean's encoding.
pub proof fn boolean_encoding_is_unique(bytes: Seq<u8>, value: bool)
    requires
        decode_boolean(bytes) == Ok::<bool, ParseError>(value),
    ensures
        bytes == encode_boolean(value),
{
    assert(bytes =~= encode_boolean(value));
}

} // verus!
