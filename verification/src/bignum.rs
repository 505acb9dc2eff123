//! Trusted interface to the arbitrary-precision unsigned integers of the
//! `num_bigint` crate: parsing a digit string, taking the bit length, and
//! rendering the value as big-endian bytes.
//!
//! Each function here is believed, not verified; its contract states what
//! the crate's own source shows.

use vstd::prelude::*;

verus! {

use crate::numeric::{be_value, bit_len, digits_value, is_digit};

#[verifier::external_type_specification]
#[verifier::external_body]
pub struct ExBigUint(num_bigint::BigUint);

/// The non-negative integer a `BigUint` holds.
pub uninterp spec fn big_nat(n: num_bigint::BigUint) -> nat;

/// Relies on `num_bigint::BigUint::parse_bytes`: a non-empty string of
/// ASCII digits, each of numeric value below the radix, parses to the
/// number it spells, most significant digit first.
#[verifier::external_body]
pub(crate) fn big_from_digits(digits: &Vec<u8>, radix: u32) -> (n: num_bigint::BigUint)
    requires
        2 <= radix <= 16,
        digits@.len() > 0,
        forall|i: int| 0 <= i < digits@.len() ==> is_digit(digits@[i], radix as nat),
    ensures
        big_nat(n) == digits_value(digits@, radix as nat),
{
    num_bigint::BigUint::parse_bytes(digits.as_slice(), radix).expect("digit syntax was validated")
}

/// Relies on `num_bigint::BigUint::bits`: the fewest bits necessary to
/// express the value, 0 for the value zero.
#[verifier::external_body]
pub(crate) fn big_bits(n: &num_bigint::BigUint) -> (r: usize)
    requires
        bit_len(big_nat(*n)) <= usize::MAX,
    ensures
        r as nat == bit_len(big_nat(*n)),
{
    n.bits().try_into().expect("bit length fits a machine word")
}

/// Relies on `num_bigint::BigUint::to_bytes_be`: the value's big-endian
/// bytes with no leading zero byte, except that the value zero yields a
/// single zero byte.
#[verifier::external_body]
pub(crate) fn big_to_bytes_be(n: &num_bigint::BigUint) -> (r: Vec<u8>)
    ensures
        be_value(r@) == big_nat(*n),
        r@.len() > 0,
        big_nat(*n) == 0 ==> r@ == seq![0u8],
        big_nat(*n) > 0 ==> r@[0] != 0,
{
    n.to_bytes_be()
}

} // verus!
