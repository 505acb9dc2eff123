//! Encoding of integer literal text into big-endian byte sequences.
//!
//! The entry point is [`encode`]: it takes the exact source spelling of a
//! non-negative integer literal (decimal, hexadecimal, octal or binary, with
//! optional `_` separators and an optional trailing suffix) together with an
//! [`EncodingPolicy`], and returns the literal's value as a big-endian byte
//! sequence, or a classified [`EncodeError`].

pub mod bignum;
pub mod encode;
pub mod laws;
pub mod literal;
pub mod numeric;

pub use encode::{encode, EncodeError, EncodingPolicy, ErrorKind};
pub use literal::Base;
pub use numeric::{be_value, bit_len, digits_value};
