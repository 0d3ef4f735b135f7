//! Canonical codecs for primitive ASN.1 scalars, and a hexadecimal text codec.
//!
//! The [`asn1`] module encodes and decodes the content bytes of booleans and
//! unsigned 64-bit integers under the minimal two's-complement rule. The
//! [`hex`] module converts between bytes and lowercase hexadecimal text.

pub mod asn1;
pub mod hex;
