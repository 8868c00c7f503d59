//! copstr is a COPy STRing crate.
//!
//! [`Str`] wraps a fixed-size array of `u8` and provides a string-like
//! interface on top. The size is specified using a const generic argument.
//!
//! The internal `u8` array holds UTF-8 encoded `char`s. Every operation
//! keeps the contents well-formed UTF-8, and truncation only happens at
//! UTF-8 character boundaries. Each public operation carries a contract
//! stating exactly what it does to the logical character sequence.

pub mod copstr;
pub mod encoding;

pub use copstr::Error;
pub use copstr::ErrorOverflow;
pub use copstr::Str;
