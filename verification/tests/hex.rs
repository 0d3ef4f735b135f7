use asn1_codec::hex::{val, FromHex, FromHexError, ToHex};

#[test]
fn to_hex_writes_lowercase_pairs() {
    assert_eq!([0x00_u8, 0xff, 0xa9, 0x10, 0x01].to_hex(), "00ffa91001");
    assert_eq!([0xde_u8, 0xad, 0xbe, 0xef].to_hex(), "deadbeef");
    assert_eq!([0x0a_u8].to_hex(), "0a");
    assert_eq!([0x90_u8].to_hex(), "90");
}

#[test]
fn to_hex_of_nothing_is_empty() {
    let empty: [u8; 0] = [];
    assert_eq!(empty.to_hex(), "");
}

#[test]
fn to_hex_doubles_the_length() {
    let bytes: Vec<u8> = (0..=255).collect();
    let text = bytes.to_hex();
    assert_eq!(text.len(), 512);
    assert!(text.bytes().all(|c| matches!(c, b'0'..=b'9' | b'a'..=b'f')));
}

#[test]
fn from_hex_reads_both_cases() {
    assert_eq!(Vec::<u8>::from_hex(b"00ffa91001"), Ok(vec![0x00, 0xff, 0xa9, 0x10, 0x01]));
    assert_eq!(Vec::<u8>::from_hex(b"DEADBEEF"), Ok(vec![0xde, 0xad, 0xbe, 0xef]));
    assert_eq!(Vec::<u8>::from_hex(b"aBcDeF"), Ok(vec![0xab, 0xcd, 0xef]));
    assert_eq!(Vec::<u8>::from_hex("0123456789".as_bytes()), Ok(vec![0x01, 0x23, 0x45, 0x67, 0x89]));
}

#[test]
fn from_hex_of_nothing_is_empty() {
    assert_eq!(Vec::<u8>::from_hex(b""), Ok(vec![]));
}

#[test]
fn hex_round_trip() {
    let all: Vec<u8> = (0..=255).collect();
    assert_eq!(Vec::<u8>::from_hex(all.to_hex().as_bytes()), Ok(all));
    let some = vec![0x00_u8, 0x7f, 0x80, 0xff];
    assert_eq!(Vec::<u8>::from_hex(some.to_hex().as_bytes()), Ok(some));
    let none: Vec<u8> = Vec::new();
    assert_eq!(Vec::<u8>::from_hex(none.to_hex().as_bytes()), Ok(none));
}

#[test]
fn from_hex_rejects_odd_length() {
    assert_eq!(Vec::<u8>::from_hex("abc".as_bytes()), Err(FromHexError::OddLength));
    assert_eq!(Vec::<u8>::from_hex(b"0"), Err(FromHexError::OddLength));
}

#[test]
fn from_hex_checks_the_length_first() {
    assert_eq!(Vec::<u8>::from_hex(b"zzz"), Err(FromHexError::OddLength));
}

#[test]
fn from_hex_reports_invalid_character() {
    assert_eq!(
        Vec::<u8>::from_hex("zz".as_bytes()),
        Err(FromHexError::InvalidHexCharacter { c: 'z', index: 0 })
    );
    assert_eq!(
        Vec::<u8>::from_hex(b"0g"),
        Err(FromHexError::InvalidHexCharacter { c: 'g', index: 1 })
    );
    assert_eq!(
        Vec::<u8>::from_hex(b"00ff 0"),
        Err(FromHexError::InvalidHexCharacter { c: ' ', index: 4 })
    );
}

#[test]
fn from_hex_reports_the_first_invalid_character() {
    assert_eq!(
        Vec::<u8>::from_hex(b"0123x5y7"),
        Err(FromHexError::InvalidHexCharacter { c: 'x', index: 4 })
    );
    assert_eq!(
        Vec::<u8>::from_hex(b"01234567-G"),
        Err(FromHexError::InvalidHexCharacter { c: '-', index: 8 })
    );
}

#[test]
fn from_hex_rejects_the_neighbours_of_the_digits() {
    for c in [b'/', b':', b'@', b'G', b'`', b'g'] {
        assert_eq!(
            Vec::<u8>::from_hex(&[b'0', c]),
            Err(FromHexError::InvalidHexCharacter { c: c as char, index: 1 })
        );
    }
}

#[test]
fn from_hex_rejects_bytes_beyond_ascii() {
    assert_eq!(
        Vec::<u8>::from_hex("é".as_bytes()),
        Err(FromHexError::InvalidHexCharacter { c: '\u{c3}', index: 0 })
    );
    assert_eq!(
        Vec::<u8>::from_hex(&[b'a', 0xff]),
        Err(FromHexError::InvalidHexCharacter { c: '\u{ff}', index: 1 })
    );
}

#[test]
fn val_of_digits() {
    assert_eq!(val(b'0', 0), Ok(0));
    assert_eq!(val(b'9', 0), Ok(9));
    assert_eq!(val(b'a', 0), Ok(10));
    assert_eq!(val(b'f', 0), Ok(15));
    assert_eq!(val(b'A', 0), Ok(10));
    assert_eq!(val(b'F', 0), Ok(15));
    assert_eq!(val(b'5', 3), Ok(5));
    assert_eq!(val(b'c', 4), Ok(12));
    assert_eq!(val(b'C', 5), Ok(12));
}

#[test]
fn val_of_other_bytes() {
    assert_eq!(val(b'g', 7), Err(FromHexError::InvalidHexCharacter { c: 'g', index: 7 }));
    assert_eq!(val(b'G', 0), Err(FromHexError::InvalidHexCharacter { c: 'G', index: 0 }));
    assert_eq!(val(b' ', 2), Err(FromHexError::InvalidHexCharacter { c: ' ', index: 2 }));
    assert_eq!(val(0x00, 9), Err(FromHexError::InvalidHexCharacter { c: '\0', index: 9 }));
    assert_eq!(
        val(0x80, usize::MAX),
        Err(FromHexError::InvalidHexCharacter { c: '\u{80}', index: usize::MAX })
    );
}

#[test]
fn error_descriptions() {
    assert_eq!(
        FromHexError::InvalidHexCharacter { c: 'z', index: 0 }.description(),
        "invalid character"
    );
    assert_eq!(FromHexError::OddLength.description(), "odd number of digits");
    assert_eq!(FromHexError::InvalidHexLength.description(), "invalid hex length");
}

#[test]
fn error_messages() {
    assert_eq!(
        FromHexError::InvalidHexCharacter { c: 'z', index: 0 }.message(),
        "Invalid character 'z' at position 0"
    );
    assert_eq!(
        FromHexError::InvalidHexCharacter { c: 'g', index: 7 }.message(),
        "Invalid character 'g' at position 7"
    );
    assert_eq!(
        FromHexError::InvalidHexCharacter { c: ' ', index: 10 }.message(),
        "Invalid character ' ' at position 10"
    );
    assert_eq!(
        FromHexError::InvalidHexCharacter { c: 'é', index: 120_034 }.message(),
        "Invalid character 'é' at position 120034"
    );
    assert_eq!(FromHexError::OddLength.message(), "Odd number of digits");
    assert_eq!(FromHexError::InvalidHexLength.message(), "Invalid hex length");
}

#[test]
fn error_message_of_the_largest_index() {
    let c = '\u{10ffff}';
    let index = usize::MAX;
    assert_eq!(
        FromHexError::InvalidHexCharacter { c, index }.message(),
        format!("Invalid character '{}' at position {}", c, index)
    );
}

#[test]
fn errors_are_copied_and_compared() {
    let e = FromHexError::InvalidHexCharacter { c: 'z', index: 3 };
    let f = e;
    assert_eq!(e, f);
    assert_ne!(e, FromHexError::InvalidHexCharacter { c: 'z', index: 4 });
    assert_ne!(FromHexError::OddLength, FromHexError::InvalidHexLength);
}
