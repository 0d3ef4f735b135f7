//! The mathematical model of the canonical integer encoding.
//!
//! An integer is carried as a non-empty sequence of bytes holding its
//! two's-complement representation, most significant byte first. Among all
//! the sequences that denote one number, only the shortest is canonical: a
//! leading `0x00` or `0xff` that merely repeats the sign bit of the byte
//! behind it is redundant, and a canonical encoding has none.
//!
//! Values are unsigned 64-bit integers. Encoding writes the 64 bits of a
//! value in the fewest bytes, so a value with its top bit set comes out as
//! the negative number that those bits denote. Decoding accepts non-negative
//! encodings only and treats a set sign bit as an invalid value; it never
//! extends a sign. The two are inverse to each other below `2^63`.

use super::error::ParseError;
use vstd::arithmetic::power::{lemma_pow_increases, pow};
use vstd::prelude::*;

verus! {

/// The natural number that `bytes` denotes when read as an unsigned
/// big-endian numeral with the most significant byte first.
pub open spec fn be_value(bytes: Seq<u8>) -> nat
    decreases bytes.len(),
{
    if bytes.len() == 0 {
        0
    } else {
        be_value(bytes.drop_last()) * 256 + bytes.last() as nat
    }
}

/// Whether the sign bit of `byte`, its most significant bit, is set.
pub open spec fn sign_bit(byte: u8) -> bool {
    byte >= 0x80
}

/// The integer that `bytes` denotes when read as a big-endian
/// two's-complement numeral: the unsigned reading, less `256^len` when the
/// sign bit of the first byte is set.
pub open spec fn twos_complement_value(bytes: Seq<u8>) -> int {
    if bytes.len() > 0 && sign_bit(bytes[0]) {
        be_value(bytes) - pow(256, bytes.len())
    } else {
        be_value(bytes) as int
    }
}

/// Whether the first byte of `bytes` only repeats the sign of what follows:
/// it is `0x00` before a byte with a clear sign bit, or `0xff` before a byte
/// with the sign bit set.
pub open spec fn has_redundant_lead(bytes: Seq<u8>) -> bool {
    bytes.len() >= 2 && ((bytes[0] == 0x00 && !sign_bit(bytes[1])) || (bytes[0] == 0xff
        && sign_bit(bytes[1])))
}

/// Whether `bytes` is a canonical integer encoding: not empty, and without a
/// redundant leading byte.
pub open spec fn is_canonical(bytes: Seq<u8>) -> bool {
    bytes.len() >= 1 && !has_redundant_lead(bytes)
}

/// `bytes` without its redundant leading bytes: the first byte is removed for
/// as long as it is redundant.
pub open spec fn strip_redundant(bytes: Seq<u8>) -> Seq<u8>
    decreases bytes.len(),
{
    if has_redundant_lead(bytes) {
        strip_redundant(bytes.skip(1))
    } else {
        bytes
    }
}

/// Byte `i` of the eight-byte big-endian representation of `value`.
pub open spec fn be_byte(value: u64, i: int) -> u8 {
    ((value >> ((8 * (7 - i)) as u64)) & 0xff) as u8
}

/// The full eight-byte big-endian representation of `value`.
pub open spec fn be_bytes(value: u64) -> Seq<u8> {
    Seq::new(8, |i: int| be_byte(value, i))
}

/// The integer that the 64 bits of `value` denote in two's complement:
/// `value` itself below `2^63`, and `value - 2^64` from there on.
pub open spec fn signed_reading(value: u64) -> int {
    if value < 0x8000_0000_0000_0000 {
        value as int
    } else {
        value - 0x1_0000_0000_0000_0000
    }
}

/// The canonical encoding of `value`: its eight-byte representation without
/// the redundant leading bytes.
pub open spec fn encode_integer(value: u64) -> Seq<u8> {
    strip_redundant(be_bytes(value))
}

/// The outcome of decoding `bytes` as an unsigned 64-bit integer.
///
/// An encoding that is empty, has a redundant leading byte or has its sign
/// bit set is invalid. A valid one denotes a natural number; it is the
/// result when it fits in 64 bits, and an overflow otherwise.
pub open spec fn decode_integer(bytes: Seq<u8>) -> Result<u64, ParseError> {
    if !is_canonical(bytes) || sign_bit(bytes[0]) {
        Err(ParseError::InvalidValue)
    } else if be_value(bytes) > u64::MAX {
        Err(ParseError::IntegerOverflow)
    } else {
        Ok(be_value(bytes) as u64)
    }
}

/// An unsigned reading of `n` bytes is below `256^n`.
pub proof fn lemma_be_value_bound(bytes: Seq<u8>)
    ensures
        be_value(bytes) < pow(256, bytes.len()),
    decreases bytes.len(),
{
    reveal(pow);
    if bytes.len() > 0 {
        lemma_be_value_bound(bytes.drop_last());
    }
}

/// The first byte weighs `256^(len - 1)`: the unsigned reading is that weight
/// times the first byte, plus the reading of the rest.
pub proof fn lemma_be_value_lead(bytes: Seq<u8>)
    requires
        bytes.len() >= 1,
    ensures
        be_value(bytes) == bytes[0] * pow(256, (bytes.len() - 1) as nat) + be_value(bytes.skip(1)),
    decreases bytes.len(),
{
    reveal(pow);
    if bytes.len() == 1 {
        assert(be_value(bytes.drop_last()) == 0);
        assert(be_value(bytes.skip(1)) == 0);
    } else {
        let front = bytes.drop_last();
        let rest = bytes.skip(1);
        let w = pow(256, (front.len() - 1) as nat);
        lemma_be_value_lead(front);
        assert(front.skip(1) =~= rest.drop_last());
        assert((bytes[0] * w + be_value(rest.drop_last())) * 256 == bytes[0] * (256 * w)
            + be_value(rest.drop_last()) * 256) by (nonlinear_arith);
    }
}

/// `256^8` is `2^64`, one more than the largest `u64`.
pub proof fn lemma_pow256_8()
    ensures
        pow(256, 8) == 0x1_0000_0000_0000_0000,
{
    reveal_with_fuel(pow, 9);
}

/// The eight-byte representation of `value` denotes `value`, and its sign bit
/// is set exactly when `value` is at least `2^63`.
pub proof fn lemma_be_bytes_value(value: u64)
    ensures
        be_value(be_bytes(value)) == value,
        sign_bit(be_bytes(value)[0]) <==> value >= 0x8000_0000_0000_0000,
{
    let b0 = (value >> 56) & 0xff;
    let b1 = (value >> 48) & 0xff;
    let b2 = (value >> 40) & 0xff;
    let b3 = (value >> 32) & 0xff;
    let b4 = (value >> 24) & 0xff;
    let b5 = (value >> 16) & 0xff;
    let b6 = (value >> 8) & 0xff;
    let b7 = (value >> 0) & 0xff;
    assert(b0 <= 0xff && b1 <= 0xff && b2 <= 0xff && b3 <= 0xff && b4 <= 0xff && b5 <= 0xff && b6
        <= 0xff && b7 <= 0xff) by (bit_vector)
        requires
            b0 == (value >> 56) & 0xff,
            b1 == (value >> 48) & 0xff,
            b2 == (value >> 40) & 0xff,
            b3 == (value >> 32) & 0xff,
            b4 == (value >> 24) & 0xff,
            b5 == (value >> 16) & 0xff,
            b6 == (value >> 8) & 0xff,
            b7 == (value >> 0) & 0xff,
    ;
    assert(value == ((((((b0 * 256 + b1) * 256 + b2) * 256 + b3) * 256 + b4) * 256 + b5) * 256
        + b6) * 256 + b7) by (bit_vector)
        requires
            b0 == (value >> 56) & 0xff,
            b1 == (value >> 48) & 0xff,
            b2 == (value >> 40) & 0xff,
            b3 == (value >> 32) & 0xff,
            b4 == (value >> 24) & 0xff,
            b5 == (value >> 16) & 0xff,
            b6 == (value >> 8) & 0xff,
            b7 == (value >> 0) & 0xff,
    ;
    assert(b0 >= 0x80 <==> value >= 0x8000_0000_0000_0000) by (bit_vector)
        requires
            b0 == (value >> 56) & 0xff,
    ;
    reveal_with_fuel(be_value, 9);
}

/// Removing a redundant leading byte changes neither the sign nor the
/// two's-complement value.
pub proof fn lemma_redundant_lead_keeps_value(bytes: Seq<u8>)
    requires
        has_redundant_lead(bytes),
    ensures
        sign_bit(bytes.skip(1)[0]) == sign_bit(bytes[0]),
        twos_complement_value(bytes.skip(1)) == twos_complement_value(bytes),
{
    let rest = bytes.skip(1);
    let w = pow(256, rest.len());
    lemma_be_value_lead(bytes);
    assert(pow(256, bytes.len()) == 256 * w) by {
        reveal(pow);
    }
    assert(bytes[0] == 0xff ==> bytes[0] * w == 256 * w - w) by (nonlinear_arith);
    assert(bytes[0] == 0x00 ==> bytes[0] * w == 0) by (nonlinear_arith);
}

/// What stripping leaves: a canonical suffix of the input with the same sign
/// and the same two's-complement value.
pub proof fn lemma_strip_redundant(bytes: Seq<u8>)
    requires
        bytes.len() >= 1,
    ensures
        is_canonical(strip_redundant(bytes)),
        strip_redundant(bytes).len() <= bytes.len(),
        strip_redundant(bytes) == bytes.skip(bytes.len() - strip_redundant(bytes).len()),
        sign_bit(strip_redundant(bytes)[0]) == sign_bit(bytes[0]),
        twos_complement_value(strip_redundant(bytes)) == twos_complement_value(bytes),
    decreases bytes.len(),
{
    if has_redundant_lead(bytes) {
        let rest = bytes.skip(1);
        lemma_redundant_lead_keeps_value(bytes);
        lemma_strip_redundant(rest);
    }
}

/// Whether a valid encoding fits in 64 bits can be told from its length: one
/// of up to eight bytes fits; one of nine bytes fits exactly when its first
/// byte is the zero that keeps an eight-byte value from reading as negative;
/// a longer one never fits.
pub proof fn lemma_fits_by_length(bytes: Seq<u8>)
    requires
        is_canonical(bytes),
        !sign_bit(bytes[0]),
    ensures
        bytes.len() <= 8 ==> be_value(bytes) <= u64::MAX,
        bytes.len() == 9 && bytes[0] == 0 ==> be_value(bytes) == be_value(bytes.skip(1))
            && be_value(bytes) <= u64::MAX,
        bytes.len() > 9 || (bytes.len() == 9 && bytes[0] != 0) ==> be_value(bytes) > u64::MAX,
{
    let rest = bytes.skip(1);
    let w = pow(256, rest.len());
    lemma_pow256_8();
    lemma_be_value_bound(bytes);
    lemma_be_value_bound(rest);
    lemma_be_value_lead(bytes);
    if bytes.len() <= 8 {
        lemma_pow_increases(256, bytes.len(), 8);
    } else if bytes[0] != 0 {
        lemma_pow_increases(256, 8, rest.len());
        assert(bytes[0] * w >= w) by (nonlinear_arith)
            requires
                bytes[0] >= 1,
                w >= 0,
        ;
    } else if bytes.len() == 9 {
        assert(bytes[0] * w == 0) by (nonlinear_arith)
            requires
                bytes[0] == 0,
        ;
    } else {
        let tail = rest.skip(1);
        let x = pow(256, tail.len());
        lemma_be_value_lead(rest);
        lemma_pow_increases(256, 8, tail.len());
        assert(bytes[0] * w == 0) by (nonlinear_arith)
            requires
                bytes[0] == 0,
        ;
        assert(rest[0] * x >= x) by (nonlinear_arith)
            requires
                rest[0] >= 1,
                x >= 0,
        ;
    }
}

/// Two byte sequences of one length with the same unsigned reading are the
/// same sequence.
pub proof fn lemma_be_value_is_injective(a: Seq<u8>, b: Seq<u8>)
    requires
        a.len() == b.len(),
        be_value(a) == be_value(b),
    ensures
        a == b,
    decreases a.len(),
{
    if a.len() > 0 {
        lemma_be_value_is_injective(a.drop_last(), b.drop_last());
        assert(a =~= a.drop_last().push(a.last()));
        assert(b =~= b.drop_last().push(b.last()));
    }
}

/// The numbers with a canonical encoding of a given length: a non-negative
/// one lies below `128 * 256^(len - 1)`, a negative one at or above the
/// negative of that, and with two bytes or more neither fits the same range
/// for one byte less.
pub proof fn lemma_canonical_range(bytes: Seq<u8>)
    requires
        is_canonical(bytes),
    ensures
        sign_bit(bytes[0]) <==> twos_complement_value(bytes) < 0,
        -128 * pow(256, (bytes.len() - 1) as nat) <= twos_complement_value(bytes) < 128 * pow(
            256,
            (bytes.len() - 1) as nat,
        ),
        bytes.len() >= 2 && !sign_bit(bytes[0]) ==> twos_complement_value(bytes) >= 128 * pow(
            256,
            (bytes.len() - 2) as nat,
        ),
        bytes.len() >= 2 && sign_bit(bytes[0]) ==> twos_complement_value(bytes) < -128 * pow(
            256,
            (bytes.len() - 2) as nat,
        ),
{
    let rest = bytes.skip(1);
    let w = pow(256, rest.len());
    lemma_be_value_lead(bytes);
    lemma_be_value_bound(rest);
    assert(pow(256, bytes.len()) == 256 * w) by {
        reveal(pow);
    }
    assert(0 <= bytes[0] * w <= 255 * w && (bytes[0] >= 1 ==> bytes[0] * w >= w) && (bytes[0]
        >= 128 ==> bytes[0] * w >= 128 * w) && (bytes[0] <= 127 ==> bytes[0] * w <= 127 * w)
        && (bytes[0] <= 254 ==> bytes[0] * w <= 254 * w)) by (nonlinear_arith)
        requires
            0 <= bytes[0] <= 255,
            w > 0,
    ;
    if bytes.len() >= 2 {
        let tail = rest.skip(1);
        let x = pow(256, tail.len());
        lemma_be_value_lead(rest);
        lemma_be_value_bound(tail);
        assert(w == 256 * x) by {
            reveal(pow);
        }
        assert((rest[0] >= 128 ==> rest[0] * x >= 128 * x) && (rest[0] <= 127 ==> rest[0] * x
            <= 127 * x)) by (nonlinear_arith)
            requires
                0 <= rest[0] <= 255,
                x > 0,
        ;
    }
}

/// A number has at most one canonical encoding: two canonical sequences
/// with the same two's-complement value are the same sequence.
pub proof fn canonical_encoding_is_unique(a: Seq<u8>, b: Seq<u8>)
    requires
        is_canonical(a),
        is_canonical(b),
        twos_complement_value(a) == twos_complement_value(b),
    ensures
        a == b,
{
    lemma_canonical_range(a);
    lemma_canonical_range(b);
    if a.len() < b.len() {
        lemma_pow_increases(256, (a.len() - 1) as nat, (b.len() - 2) as nat);
    } else if b.len() < a.len() {
        lemma_pow_increases(256, (b.len() - 1) as nat, (a.len() - 2) as nat);
    } else {
        lemma_be_value_is_injective(a, b);
    }
}

/// No two byte sequences decode to the same value.
pub proof fn decoding_is_injective(a: Seq<u8>, b: Seq<u8>)
    requires
        decode_integer(a) is Ok,
        decode_integer(a) == decode_integer(b),
    ensures
        a == b,
{
    canonical_encoding_is_unique(a, b);
}

/// A sequence that decodes to a value below `2^63` is the encoding of that
/// value. A value from `2^63` on decodes from nine bytes, which no value is
/// encoded in.
pub proof fn decoded_value_encodes_back(bytes: Seq<u8>)
    requires
        decode_integer(bytes) is Ok,
    ensures
        decode_integer(bytes).unwrap() < 0x8000_0000_0000_0000 ==> encode_integer(
            decode_integer(bytes).unwrap(),
        ) == bytes,
        decode_integer(bytes).unwrap() >= 0x8000_0000_0000_0000 ==> bytes.len() == 9,
{
    let value = decode_integer(bytes).unwrap();
    encoding_is_canonical(value);
    if value < 0x8000_0000_0000_0000 {
        canonical_encoding_is_unique(encode_integer(value), bytes);
    } else {
        lemma_fits_by_length(bytes);
        lemma_canonical_range(bytes);
        lemma_pow256_8();
        if bytes.len() < 8 {
            lemma_pow_increases(256, (bytes.len() - 1) as nat, 7);
        }
        assert(pow(256, 8) == 256 * pow(256, 7)) by {
            reveal(pow);
        }
    }
}

/// The encoding of every `value` is canonical, at most eight bytes long, and
/// denotes in two's complement the number that the 64 bits of `value` denote.
pub proof fn encoding_is_canonical(value: u64)
    ensures
        is_canonical(encode_integer(value)),
        encode_integer(value).len() <= 8,
        sign_bit(encode_integer(value)[0]) <==> value >= 0x8000_0000_0000_0000,
        twos_complement_value(encode_integer(value)) == signed_reading(value),
{
    lemma_be_bytes_value(value);
    lemma_strip_redundant(be_bytes(value));
    lemma_pow256_8();
}

/// Decoding the encoding of a value below `2^63` gives the value back.
pub proof fn integer_round_trip(value: u64)
    requires
        value < 0x8000_0000_0000_0000,
    ensures
        decode_integer(encode_integer(value)) == Ok::<u64, ParseError>(value),
{
    encoding_is_canonical(value);
}

/// The encoding of a value of `2^63` or more has its sign bit set, so
/// decoding it reports an invalid value.
pub proof fn high_values_encode_as_negative(value: u64)
    requires
        value >= 0x8000_0000_0000_0000,
    ensures
        decode_integer(encode_integer(value)) == Err::<u64, ParseError>(ParseError::InvalidValue),
{
    encoding_is_canonical(value);
}

} // verus!
