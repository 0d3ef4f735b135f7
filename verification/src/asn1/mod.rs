//! Content-byte codecs for ASN.1 booleans and integers.

pub mod boolean;
pub mod error;
pub mod integer;
pub mod traits;

pub use error::ParseError;
pub use traits::{FromASN1, ToASN1};
