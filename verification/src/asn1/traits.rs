//! Conversions between values and their ASN.1 content bytes.

use super::boolean::{decode_boolean, encode_boolean};
use super::error::ParseError;
use super::integer::{
    be_byte, be_bytes, be_value, decode_integer, encode_integer, encoding_is_canonical,
    is_canonical, lemma_be_value_bound, lemma_fits_by_length, lemma_pow256_8,
    lemma_strip_redundant, sign_bit, signed_reading, strip_redundant, twos_complement_value,
};
use vstd::arithmetic::power::lemma_pow_increases;
use vstd::prelude::*;
use vstd::slice::slice_to_vec;

verus! {

/// A value that can be decoded from the content bytes of its ASN.1 encoding.
pub trait FromASN1: Sized {
    type Error;

    fn from_asn1(data: &[u8]) -> Result<Self, Self::Error>;
}

/// A value that can be encoded as the content bytes of its ASN.1 encoding.
pub trait ToASN1: Sized {
    fn to_asn1(&self) -> Vec<u8>;
}

impl FromASN1 for bool {
    type Error = ParseError;

    /// Decodes a boolean from its single content byte, `0x00` or `0xff`.
    fn from_asn1(data: &[u8]) -> (r: Result<bool, ParseError>)
        ensures
            r == decode_boolean(data@),
    {
        if data.len() != 1 {
            Err(ParseError::InvalidValue)
        } else if data[0] == 0x00 {
            Ok(false)
        } else if data[0] == 0xff {
            Ok(true)
        } else {
            Err(ParseError::InvalidValue)
        }
    }
}

impl ToASN1 for bool {
    /// Encodes the boolean in one byte: `0xff` for true, `0x00` for false.
    fn to_asn1(&self) -> (out: Vec<u8>)
        ensures
            out@ == encode_boolean(*self),
    {
        if *self {
            vec![0xffu8; 1]
        } else {
            vec![0x00u8; 1]
        }
    }
}

/// Tells whether the sign bit of `byte` is set.
fn has_sign_bit(byte: u8) -> (set: bool)
    ensures
        set == sign_bit(byte),
{
    assert((byte & 0x80 == 0x80) == (byte >= 0x80)) by (bit_vector);
    byte & 0x80 == 0x80
}

/// Tells whether `lead` only repeats the sign bit of `next`, the byte behind
/// it.
fn repeats_sign(lead: u8, next: u8) -> (redundant: bool)
    ensures
        redundant == ((lead == 0x00 && !sign_bit(next)) || (lead == 0xff && sign_bit(next))),
{
    (lead == 0x00 && !has_sign_bit(next)) || (lead == 0xff && has_sign_bit(next))
}

/// Checks that `bytes` is a canonical integer encoding: not empty, and with
/// no leading byte that only repeats the sign bit of the byte behind it.
pub fn check_integer(bytes: &[u8]) -> (r: Result<(), ParseError>)
    ensures
        r == if is_canonical(bytes@) {
            Ok::<(), ParseError>(())
        } else {
            Err::<(), ParseError>(ParseError::InvalidValue)
        },
{
    if bytes.len() == 0 {
        Err(ParseError::InvalidValue)
    } else if bytes.len() == 1 {
        Ok(())
    } else if repeats_sign(bytes[0], bytes[1]) {
        Err(ParseError::InvalidValue)
    } else {
        Ok(())
    }
}

/// Returns `bytes` without its redundant leading bytes.
///
/// A leading byte goes when it is `0x00` or `0xff` and the byte behind it has
/// the same sign bit. The last byte always stays, so only an empty input
/// gives an empty result. What is left of other input is canonical and
/// denotes the same number in two's complement.
pub fn remove_int_leading_bytes(bytes: &[u8]) -> (out: Vec<u8>)
    ensures
        out@ == strip_redundant(bytes@),
        out@ == bytes@.skip(bytes@.len() - out@.len()),
        bytes@.len() >= 1 ==> is_canonical(out@) && twos_complement_value(out@)
            == twos_complement_value(bytes@),
{
    proof {
        if bytes@.len() >= 1 {
            lemma_strip_redundant(bytes@);
        }
    }
    let mut start: usize = 0;
    assert(bytes@.skip(0) == bytes@);
    while bytes.len() - start > 1 && repeats_sign(bytes[start], bytes[start + 1])
        invariant
            start <= bytes.len(),
            strip_redundant(bytes@) == strip_redundant(bytes@.skip(start as int)),
        decreases bytes.len() - start,
    {
        assert(bytes@.skip(start as int).skip(1) == bytes@.skip(start + 1));
        start += 1;
    }
    assert(bytes@.skip(start as int) == bytes@.subrange(start as int, bytes@.len() as int));
    slice_to_vec(&bytes[start..bytes.len()])
}

impl FromASN1 for u64 {
    type Error = ParseError;

    /// Decodes a canonical, non-negative integer of at most 64 bits.
    ///
    /// An encoding with its sign bit set is rejected as invalid, so the
    /// result is the plain big-endian reading of the bytes and no sign
    /// extension takes place. A value of `2^63` or more arrives in nine
    /// bytes, behind the zero byte that keeps its sign bit clear.
    fn from_asn1(data: &[u8]) -> (r: Result<u64, ParseError>)
        ensures
            r == decode_integer(data@),
    {
        match check_integer(data) {
            Err(e) => {
                return Err(e);
            },
            Ok(()) => {},
        }
        if has_sign_bit(data[0]) {
            return Err(ParseError::InvalidValue);
        }
        proof {
            lemma_fits_by_length(data@);
        }
        let bytes: &[u8] = if data.len() == 9 && data[0] == 0 {
            &data[1..9]
        } else {
            data
        };
        if bytes.len() > 8 {
            return Err(ParseError::IntegerOverflow);
        }
        assert(bytes@ == if data.len() == 9 {
            data@.skip(1)
        } else {
            data@
        });
        let mut ret: u64 = 0;
        let mut i: usize = 0;
        while i < bytes.len()
            invariant
                i <= bytes.len() <= 8,
                ret == be_value(bytes@.take(i as int)),
            decreases bytes.len() - i,
        {
            proof {
                let next = bytes@.take(i + 1);
                assert(next.drop_last() == bytes@.take(i as int));
                lemma_be_value_bound(next);
                lemma_pow_increases(256, next.len(), 8);
                lemma_pow256_8();
            }
            ret = ret * 256 + bytes[i] as u64;
            i += 1;
        }
        assert(bytes@.take(i as int) == bytes@);
        Ok(ret)
    }
}

impl ToASN1 for u64 {
    /// Encodes the value in the fewest bytes that denote the same 64 bits in
    /// two's complement.
    ///
    /// A value below `2^63` is encoded as the non-negative number it is. A
    /// value from `2^63` on has its top bit set and is encoded as those 64
    /// bits read as a signed number, so the result never exceeds eight bytes.
    fn to_asn1(&self) -> (out: Vec<u8>)
        ensures
            out@ == encode_integer(*self),
            is_canonical(out@),
            out@.len() <= 8,
            twos_complement_value(out@) == signed_reading(*self),
    {
        let value = *self;
        let mut buf: Vec<u8> = vec![0u8; 8];
        let mut i: usize = 0;
        while i < 8
            invariant
                i <= 8,
                buf@.len() == 8,
                forall|j: int| 0 <= j < i ==> buf@[j] == be_byte(value, j),
            decreases 8 - i,
        {
            let shift: u64 = 8 * (8 - i as u64 - 1);
            let mask: u64 = 0xff << shift;
            assert((value & mask) >> shift == (value >> shift) & 0xff) by (bit_vector)
                requires
                    shift < 64,
                    mask == 0xffu64 << shift,
            ;
            buf[i] = ((value & mask) >> shift) as u8;
            i += 1;
        }
        assert(buf@ == be_bytes(value));
        proof {
            encoding_is_canonical(value);
        }
        remove_int_leading_bytes(&buf)
    }
}

} // verus!
