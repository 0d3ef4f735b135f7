use vstd::prelude::*;

verus! {

/// The reasons for which decoding ASN.1 data can fail.
#[derive(Debug, PartialEq, Eq, Structural)]
pub enum ParseError {
    /// Something about the value was invalid.
    InvalidValue,
    /// An unexpected tag was encountered.
    UnexpectedTag { actual: u8 },
    /// There was not enough data available to complete parsing.
    ShortData,
    /// The value does not fit the width of the result.
    IntegerOverflow,
    /// There was extraneous data in the input.
    ExtraData,
}

} // verus!
