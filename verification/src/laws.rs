//! The encoder's laws: properties that hold of every literal, stated
//! over [`spec_encode`](crate::encode::spec_encode) and proved once and
//! for all.

use vstd::prelude::*;

verus! {

use vstd::arithmetic::power::pow;
use vstd::arithmetic::power2::pow2;
use crate::literal::{base_of, has_minus, is_valid_literal, lit_digits, lit_value, lz_count,
    lemma_lit_digits_valid, lemma_lz_is};
use crate::numeric::{be_bytes_of, be_value, bit_len, digit_val, lemma_be_bytes_of_first,
    lemma_be_bytes_of_split, lemma_be_bytes_of_value, lemma_be_bytes_of_zero, lemma_bit_len_bounds,
    lemma_digits_value_zero, lemma_pow256_pow2, CHAR_ZERO};
use crate::encode::{spec_encode, spec_total_len, spec_zero_pad_bits, EncodingPolicy, ErrorKind};

/// The width that the encoder grants a value under no padding, and the
/// fit of the value in it: enough bytes, and for a positive value not
/// one byte to spare.
proof fn lemma_value_width(v: nat)
    ensures
        bit_len(v) <= 8 * spec_total_len(0, bit_len(v)),
        v < pow(256, spec_total_len(0, bit_len(v))),
        v > 0 ==> pow(256, (spec_total_len(0, bit_len(v)) - 1) as nat) <= v,
        spec_total_len(0, bit_len(v)) >= 1,
{
    let len = spec_total_len(0, bit_len(v));
    lemma_bit_len_bounds(v);
    lemma_pow256_pow2(len);
    if bit_len(v) < 8 * len {
        vstd::arithmetic::power2::lemma_pow2_strictly_increases(bit_len(v), 8 * len);
    }
    if v > 0 {
        lemma_pow256_pow2((len - 1) as nat);
        if 8 * (len - 1) < bit_len(v) - 1 {
            vstd::arithmetic::power2::lemma_pow2_strictly_increases(
                (8 * (len - 1)) as nat,
                (bit_len(v) - 1) as nat,
            );
        }
    }
}

/// Minimal-width round trip: every valid non-negative literal encodes
/// under the unrestricted minimal-width policy, decoding the bytes as a
/// big-endian unsigned integer reproduces the literal's value exactly,
/// and the bytes carry no leading zero byte — except that the value
/// zero is exactly one zero byte.
pub proof fn lemma_minimal_width_round_trip(text: Seq<u8>)
    requires
        is_valid_literal(text),
        !has_minus(text),
    ensures
        spec_encode(text, EncodingPolicy::MinimalWidth) is Ok,
        be_value(spec_encode(text, EncodingPolicy::MinimalWidth).unwrap()) == lit_value(text),
        spec_encode(text, EncodingPolicy::MinimalWidth).unwrap().len() >= 1,
        lit_value(text) == 0 ==> spec_encode(text, EncodingPolicy::MinimalWidth).unwrap()
            =~= seq![0u8],
        lit_value(text) > 0 ==> spec_encode(text, EncodingPolicy::MinimalWidth).unwrap()[0] != 0,
        base_of(text).has_fixed_digit_bits() ==> spec_encode(
            text,
            EncodingPolicy::MinimalWidthRestricted,
        ) == spec_encode(text, EncodingPolicy::MinimalWidth),
{
    let v = lit_value(text);
    let len = spec_total_len(0, bit_len(v));
    assert(spec_zero_pad_bits(base_of(text), lz_count(lit_digits(text)), EncodingPolicy::MinimalWidth)
        == 0);
    lemma_value_width(v);
    lemma_be_bytes_of_value(v, len);
    if v == 0 {
        lemma_be_bytes_of_zero(1);
        assert(be_bytes_of(0, 1) =~= seq![0u8]);
    } else {
        lemma_be_bytes_of_first(v, len);
    }
}

/// Exact-width output length: for hexadecimal and binary literals the
/// byte count is exactly the spelled zero bits plus the value's bits,
/// rounded up to whole bytes, and every whole byte covered by the
/// spelled zero bits is a zero byte.
pub proof fn lemma_exact_width_length(text: Seq<u8>)
    requires
        is_valid_literal(text),
        !has_minus(text),
        base_of(text).has_fixed_digit_bits(),
    ensures
        spec_encode(text, EncodingPolicy::ExactWidth) is Ok,
        be_value(spec_encode(text, EncodingPolicy::ExactWidth).unwrap()) == lit_value(text),
        spec_encode(text, EncodingPolicy::ExactWidth).unwrap().len() == (lz_count(lit_digits(text))
            * base_of(text).bits_per_zero_digit() + bit_len(lit_value(text)) + 7) / 8,
        forall|i: int|
            0 <= i < (lz_count(lit_digits(text)) * base_of(text).bits_per_zero_digit()) / 8
                ==> spec_encode(text, EncodingPolicy::ExactWidth).unwrap()[i] == 0,
{
    let base = base_of(text);
    let digits = lit_digits(text);
    let lz = lz_count(digits);
    let v = lit_value(text);
    let bpd = base.bits_per_zero_digit();
    let pad = spec_zero_pad_bits(base, lz, EncodingPolicy::ExactWidth);
    let len = spec_total_len(pad, bit_len(v));
    assert(pad == lz * bpd);
    assert(bpd >= 1);
    // the total bit count is never zero: a zero value is spelled with at
    // least one zero digit, which the fixed-ratio padding counts.
    if pad + bit_len(v) == 0 {
        assert(lz == 0) by (nonlinear_arith)
            requires
                lz * bpd == 0,
                bpd >= 1,
        ;
        assert(v == 0);
        lemma_digits_value_zero(digits, base.radix());
        lemma_lit_digits_valid(text);
        assert forall|i: int| 0 <= i < digits.len() implies digits[i] == CHAR_ZERO by {
            assert(digit_val(digits[i]) == 0);
        }
        lemma_lz_is(digits, digits.len() as nat);
        assert(lz * bpd >= 1 * 1) by (nonlinear_arith)
            requires
                lz >= 1,
                bpd >= 1,
        ;
        assert(false);
    }
    assert(len == (pad + bit_len(v) + 7) / 8);
    // the value fits in the total width
    lemma_bit_len_bounds(v);
    lemma_pow256_pow2(len);
    if bit_len(v) < 8 * len {
        vstd::arithmetic::power2::lemma_pow2_strictly_increases(bit_len(v), 8 * len);
    }
    lemma_be_bytes_of_value(v, len);
    // the leading whole bytes of padding are zero: split off the width
    // the value alone needs.
    let m = ((bit_len(v) + 7) / 8) as nat;
    lemma_pow256_pow2(m);
    if bit_len(v) < 8 * m {
        vstd::arithmetic::power2::lemma_pow2_strictly_increases(bit_len(v), 8 * m);
    }
    assert(m <= len);
    lemma_be_bytes_of_split(v, m, len);
    assert forall|i: int| 0 <= i < pad / 8 implies spec_encode(
        text,
        EncodingPolicy::ExactWidth,
    ).unwrap()[i] == 0 by {
        assert((pad + (bit_len(v) + 7)) / 8 >= pad / 8 + (bit_len(v) + 7) / 8) by {
            vstd::arithmetic::div_mod::lemma_fundamental_div_mod(pad as int, 8);
        }
        assert(i < len - m);
        assert(be_bytes_of(v, len)[i] == Seq::new((len - m) as nat, |k: int| 0u8)[i]);
    }
}

/// A leading minus sign is rejected under every policy.
pub proof fn lemma_negative_rejected(text: Seq<u8>, policy: EncodingPolicy)
    requires
        is_valid_literal(text),
        has_minus(text),
    ensures
        spec_encode(text, policy) == Err::<Seq<u8>, ErrorKind>(ErrorKind::NegativeUnsupported),
{
}

/// Decimal and octal literals with leading zero digits are rejected
/// under the exact-width policy, naming their base, but accepted under
/// the unrestricted minimal-width policy with the zeros discarded: the
/// output is the fewest bytes holding the value.
pub proof fn lemma_leading_zeros_decimal_octal(text: Seq<u8>)
    requires
        is_valid_literal(text),
        !has_minus(text),
        !base_of(text).has_fixed_digit_bits(),
        lz_count(lit_digits(text)) > 0,
    ensures
        spec_encode(text, EncodingPolicy::ExactWidth) == Err::<Seq<u8>, ErrorKind>(
            ErrorKind::LeadingZerosUnsupported(base_of(text)),
        ),
        spec_encode(text, EncodingPolicy::MinimalWidth) is Ok,
        be_value(spec_encode(text, EncodingPolicy::MinimalWidth).unwrap()) == lit_value(text),
        lit_value(text) == 0 ==> spec_encode(text, EncodingPolicy::MinimalWidth).unwrap()
            =~= seq![0u8],
        lit_value(text) > 0 ==> spec_encode(text, EncodingPolicy::MinimalWidth).unwrap()[0] != 0,
{
    lemma_minimal_width_round_trip(text);
}

} // verus!
