//! Hexadecimal text codec: bytes to lowercase hexadecimal text and back.
//!
//! Text to be decoded is taken as its bytes, one byte per character. Every
//! byte outside `0-9`, `a-f` and `A-F` is an invalid character, so text
//! beyond ASCII is rejected at its first byte.

use vstd::prelude::*;
use vstd::utf8::{encode_utf8, is_ascii_chars, is_ascii_chars_encode_utf8};

verus! {

/// A value that can be written as hexadecimal text.
pub trait ToHex {
    /// Converts the value of `self` to a hex value, returning the owned
    /// string.
    fn to_hex(&self) -> String;
}

/// A value that can be read from hexadecimal text.
pub trait FromHex: Sized {
    type Error;

    /// Reads a value from the bytes of its hexadecimal text.
    fn from_hex(hex: &[u8]) -> Result<Self, Self::Error>;
}

/// Errors that can occur when decoding a hex encoded string.
#[derive(Copy, Clone, Debug, PartialEq, Eq, Structural)]
pub enum FromHexError {
    /// The input contained a character not part of the hex format.
    InvalidHexCharacter { c: char, index: usize },
    /// The input had an invalid length.
    InvalidHexLength,
    /// The input had an odd number of characters.
    OddLength,
}

/// The lowercase hexadecimal digit for `n`, a number below 16.
pub open spec fn hex_digit(n: u8) -> char {
    if n < 10 {
        (0x30 + n) as char
    } else {
        (0x61 + (n - 10)) as char
    }
}

/// The hexadecimal text of `bytes`: two lowercase digits for each byte in
/// order, the high four bits first.
pub open spec fn encode_hex(bytes: Seq<u8>) -> Seq<char> {
    Seq::new(
        2 * bytes.len(),
        |i: int|
            if i % 2 == 0 {
                hex_digit(bytes[i / 2] / 16)
            } else {
                hex_digit(bytes[i / 2] % 16)
            },
    )
}

/// The number that the hexadecimal digit `c` stands for, in either case, or
/// `None` where `c` is no such digit.
pub open spec fn hex_value(c: u8) -> Option<u8> {
    if 0x30 <= c <= 0x39 {
        Some((c - 0x30) as u8)
    } else if 0x41 <= c <= 0x46 {
        Some((c - 0x41 + 10) as u8)
    } else if 0x61 <= c <= 0x66 {
        Some((c - 0x61 + 10) as u8)
    } else {
        None
    }
}

/// Whether `i` is the place of the first byte of `text` that is no
/// hexadecimal digit.
pub open spec fn is_first_invalid(text: Seq<u8>, i: int) -> bool {
    &&& 0 <= i < text.len()
    &&& hex_value(text[i]) is None
    &&& forall|j: int| 0 <= j < i ==> hex_value(#[trigger] text[j]) is Some
}

/// The byte that the two digits at `2 * k` and `2 * k + 1` of `text` spell,
/// the high four bits first.
pub open spec fn hex_pair(text: Seq<u8>, k: int) -> u8 {
    (hex_value(text[2 * k]).unwrap() * 16 + hex_value(text[2 * k + 1]).unwrap()) as u8
}

/// The outcome of decoding `text`.
///
/// Text of odd length is refused as such. Otherwise the first byte that is
/// no hexadecimal digit, if there is one, is reported with its place, and
/// text made of digits alone gives one byte for each pair of them.
pub open spec fn decode_hex(text: Seq<u8>) -> Result<Seq<u8>, FromHexError> {
    if text.len() % 2 != 0 {
        Err(FromHexError::OddLength)
    } else if exists|i: int| is_first_invalid(text, i) {
        let i = choose|i: int| is_first_invalid(text, i);
        Err(FromHexError::InvalidHexCharacter { c: text[i] as char, index: i as usize })
    } else {
        Ok(Seq::new(text.len() / 2, |k: int| hex_pair(text, k)))
    }
}

/// The decimal numeral of `n`, without leading zeros.
pub open spec fn decimal(n: nat) -> Seq<char>
    decreases n,
{
    if n < 10 {
        seq![(0x30 + n) as char]
    } else {
        decimal(n / 10).push((0x30 + n % 10) as char)
    }
}

/// Only one place can hold the first invalid byte of a text.
pub proof fn lemma_first_invalid_is_unique(text: Seq<u8>, i: int, j: int)
    requires
        is_first_invalid(text, i),
        is_first_invalid(text, j),
    ensures
        i == j,
{
    if i < j {
        assert(hex_value(text[i]) is Some);
    } else if j < i {
        assert(hex_value(text[j]) is Some);
    }
}

/// Text of even length whose first invalid byte is at `i` decodes to the
/// report of that byte.
pub proof fn lemma_reports_first_invalid(text: Seq<u8>, i: int)
    requires
        text.len() % 2 == 0,
        is_first_invalid(text, i),
    ensures
        decode_hex(text) == Err::<Seq<u8>, FromHexError>(
            FromHexError::InvalidHexCharacter { c: text[i] as char, index: i as usize },
        ),
{
    lemma_first_invalid_is_unique(text, i, choose|p: int| is_first_invalid(text, p));
}

/// Text of even length made of hexadecimal digits alone decodes to the
/// bytes that its pairs of digits spell.
pub proof fn lemma_decodes_digits(text: Seq<u8>)
    requires
        text.len() % 2 == 0,
        forall|j: int| 0 <= j < text.len() ==> hex_value(#[trigger] text[j]) is Some,
    ensures
        decode_hex(text) == Ok::<Seq<u8>, FromHexError>(
            Seq::new(text.len() / 2, |k: int| hex_pair(text, k)),
        ),
{
    assert forall|i: int| !is_first_invalid(text, i) by {
        if 0 <= i < text.len() {
            assert(hex_value(text[i]) is Some);
        }
    }
}

/// Hexadecimal text is ASCII, and each of its digits stands for the four
/// bits it was written for.
pub proof fn lemma_encode_hex_digits(bytes: Seq<u8>)
    ensures
        is_ascii_chars(encode_hex(bytes)),
        forall|k: int|
            0 <= k < bytes.len() ==> {
                &&& hex_value(#[trigger] encode_hex(bytes)[2 * k] as u8) == Some(
                    (bytes[k] / 16) as u8,
                )
                &&& hex_value(encode_hex(bytes)[2 * k + 1] as u8) == Some((bytes[k] % 16) as u8)
            },
{
    let text = encode_hex(bytes);
    assert forall|i: int| 0 <= i < text.len() implies '\0' <= #[trigger] text[i] <= '\u{7f}' by {
        assert(text[i] == hex_digit(bytes[i / 2] / 16) || text[i] == hex_digit(bytes[i / 2] % 16));
    }
    assert forall|k: int| 0 <= k < bytes.len() implies {
        &&& hex_value(#[trigger] text[2 * k] as u8) == Some((bytes[k] / 16) as u8)
        &&& hex_value(text[2 * k + 1] as u8) == Some((bytes[k] % 16) as u8)
    } by {
        assert(text[2 * k] == hex_digit(bytes[k] / 16));
        assert(text[2 * k + 1] == hex_digit(bytes[k] % 16));
    }
}

/// Decoding the text that encodes a byte sequence gives the sequence back.
/// The text reaches the decoder as its bytes in UTF-8, which for
/// hexadecimal text are its characters one by one.
pub proof fn hex_round_trip(bytes: Seq<u8>)
    ensures
        decode_hex(encode_utf8(encode_hex(bytes))) == Ok::<Seq<u8>, FromHexError>(bytes),
{
    let chars = encode_hex(bytes);
    let text = encode_utf8(chars);
    lemma_encode_hex_digits(bytes);
    is_ascii_chars_encode_utf8(chars);
    assert forall|j: int| 0 <= j < text.len() implies hex_value(#[trigger] text[j]) is Some by {
        let k = j / 2;
        assert(j == 2 * k || j == 2 * k + 1);
        assert(hex_value(chars[2 * k] as u8) is Some);
        assert(text[j] == chars[j] as u8);
    }
    assert forall|k: int| 0 <= k < bytes.len() implies hex_pair(text, k) == bytes[k] by {
        assert(hex_value(chars[2 * k] as u8) is Some);
        assert(text[2 * k] == chars[2 * k] as u8);
        assert(text[2 * k + 1] == chars[2 * k + 1] as u8);
    }
    lemma_decodes_digits(text);
    assert(Seq::new(text.len() / 2, |k: int| hex_pair(text, k)) =~= bytes);
}

/// `String::push` of the standard library appends the character to the end
/// of the string and changes nothing else.
pub assume_specification[ String::push ](text: &mut String, ch: char)
    ensures
        final(text)@ == old(text)@.push(ch),
;

/// Gives the lowercase hexadecimal digit for `n`.
fn digit(n: u8) -> (c: char)
    requires
        n < 16,
    ensures
        c == hex_digit(n),
{
    if n < 10 {
        (0x30 + n) as char
    } else {
        (0x61 + (n - 10)) as char
    }
}

impl ToHex for [u8] {
    /// Writes each byte as two lowercase hexadecimal digits, so the text is
    /// twice as long as the input.
    fn to_hex(&self) -> (text: String)
        ensures
            text@ == encode_hex(self@),
            text@.len() == 2 * self@.len(),
    {
        let mut text = String::new();
        let mut i: usize = 0;
        while i < self.len()
            invariant
                i <= self@.len(),
                text@ == encode_hex(self@.take(i as int)),
            decreases self@.len() - i,
        {
            let byte = self[i];
            assert(byte >> 4 == byte / 16 && byte & 0xf == byte % 16) by (bit_vector);
            text.push(digit(byte >> 4));
            text.push(digit(byte & 0xf));
            i += 1;
        }
        assert(self@.take(i as int) == self@);
        text
    }
}

/// Gives the number that the hexadecimal digit `c` stands for. A byte that is
/// no digit is reported as the invalid character at `idx`.
pub fn val(c: u8, idx: usize) -> (r: Result<u8, FromHexError>)
    ensures
        r == match hex_value(c) {
            Some(v) => Ok::<u8, FromHexError>(v),
            None => Err::<u8, FromHexError>(
                FromHexError::InvalidHexCharacter { c: c as char, index: idx },
            ),
        },
{
    if 0x41 <= c && c <= 0x46 {
        // 'A' to 'F'
        Ok(c - 0x41 + 10)
    } else if 0x61 <= c && c <= 0x66 {
        // 'a' to 'f'
        Ok(c - 0x61 + 10)
    } else if 0x30 <= c && c <= 0x39 {
        // '0' to '9'
        Ok(c - 0x30)
    } else {
        Err(FromHexError::InvalidHexCharacter { c: c as char, index: idx })
    }
}

impl FromHex for Vec<u8> {
    type Error = FromHexError;

    /// Decodes hexadecimal text, given as its bytes, into the bytes it
    /// spells.
    fn from_hex(hex: &[u8]) -> (r: Result<Vec<u8>, FromHexError>)
        ensures
            match r {
                Ok(bytes) => decode_hex(hex@) == Ok::<Seq<u8>, FromHexError>(bytes@),
                Err(e) => decode_hex(hex@) == Err::<Seq<u8>, FromHexError>(e),
            },
    {
        if hex.len() % 2 != 0 {
            return Err(FromHexError::OddLength);
        }
        let mut out: Vec<u8> = Vec::new();
        let mut i: usize = 0;
        while i < hex.len()
            invariant
                hex@.len() % 2 == 0,
                i % 2 == 0,
                i <= hex@.len(),
                out@.len() == i / 2,
                forall|j: int| 0 <= j < i ==> hex_value(#[trigger] hex@[j]) is Some,
                forall|k: int| 0 <= k < out@.len() ==> out@[k] == hex_pair(hex@, k),
            decreases hex@.len() - i,
        {
            let high = match val(hex[i], i) {
                Ok(v) => v,
                Err(e) => {
                    proof {
                        lemma_reports_first_invalid(hex@, i as int);
                    }
                    return Err(e);
                },
            };
            let low = match val(hex[i + 1], i + 1) {
                Ok(v) => v,
                Err(e) => {
                    proof {
                        lemma_reports_first_invalid(hex@, i + 1);
                    }
                    return Err(e);
                },
            };
            assert(high << 4 | low == high * 16 + low) by (bit_vector)
                requires
                    high < 16,
                    low < 16,
            ;
            out.push(high << 4 | low);
            i += 2;
        }
        proof {
            lemma_decodes_digits(hex@);
            assert(out@ =~= Seq::new(hex@.len() / 2, |k: int| hex_pair(hex@, k)));
        }
        Ok(out)
    }
}

impl FromHexError {
    /// The short description of the error.
    pub open spec fn description_text(self) -> Seq<char> {
        match self {
            FromHexError::InvalidHexCharacter { .. } => "invalid character"@,
            FromHexError::OddLength => "odd number of digits"@,
            FromHexError::InvalidHexLength => "invalid hex length"@,
        }
    }

    /// The message of the error: for an invalid character it quotes the
    /// character and gives its place in decimal.
    pub open spec fn message_text(self) -> Seq<char> {
        match self {
            FromHexError::InvalidHexCharacter { c, index } => "Invalid character '"@.push(c)
                + "' at position "@ + decimal(index as nat),
            FromHexError::OddLength => "Odd number of digits"@,
            FromHexError::InvalidHexLength => "Invalid hex length"@,
        }
    }

    /// Describes the kind of the error in a few words.
    pub fn description(&self) -> (text: &'static str)
        ensures
            text@ == self.description_text(),
    {
        match *self {
            FromHexError::InvalidHexCharacter { .. } => "invalid character",
            FromHexError::OddLength => "odd number of digits",
            FromHexError::InvalidHexLength => "invalid hex length",
        }
    }

    /// Writes the error out for a reader.
    pub fn message(&self) -> (text: String)
        ensures
            text@ == self.message_text(),
    {
        match *self {
            FromHexError::InvalidHexCharacter { c, index } => {
                let mut text = String::from_str("Invalid character '");
                text.push(c);
                text.append("' at position ");
                push_decimal(&mut text, index);
                text
            },
            FromHexError::OddLength => String::from_str("Odd number of digits"),
            FromHexError::InvalidHexLength => String::from_str("Invalid hex length"),
        }
    }
}

/// Appends the decimal numeral of `n` to `text`.
fn push_decimal(text: &mut String, n: usize)
    ensures
        final(text)@ == old(text)@ + decimal(n as nat),
    decreases n,
{
    if n >= 10 {
        push_decimal(text, n / 10);
    }
    text.push((0x30 + (n % 10) as u8) as char);
}

} // verus!
