use asn1_codec::asn1::{FromASN1, ParseError, ToASN1};

#[test]
fn encode_boolean_bytes() {
    assert_eq!(true.to_asn1(), vec![0xff]);
    assert_eq!(false.to_asn1(), vec![0x00]);
}

#[test]
fn decode_boolean_bytes() {
    assert_eq!(bool::from_asn1(&[0xff]), Ok(true));
    assert_eq!(bool::from_asn1(&[0x00]), Ok(false));
}

#[test]
fn decode_boolean_rejects_other_bytes() {
    assert_eq!(bool::from_asn1(&[0x01]), Err(ParseError::InvalidValue));
    assert_eq!(bool::from_asn1(&[0x7f]), Err(ParseError::InvalidValue));
    assert_eq!(bool::from_asn1(&[0xfe]), Err(ParseError::InvalidValue));
}

#[test]
fn decode_boolean_rejects_other_lengths() {
    assert_eq!(bool::from_asn1(&[]), Err(ParseError::InvalidValue));
    assert_eq!(bool::from_asn1(&[0xff, 0xff]), Err(ParseError::InvalidValue));
    assert_eq!(bool::from_asn1(&[0x00, 0x00]), Err(ParseError::InvalidValue));
    assert_eq!(bool::from_asn1(b"0x00"), Err(ParseError::InvalidValue));
    assert_eq!(bool::from_asn1(b"0xff"), Err(ParseError::InvalidValue));
}

#[test]
fn boolean_round_trip() {
    for value in [true, false] {
        assert_eq!(bool::from_asn1(&value.to_asn1()), Ok(value));
    }
}
