//! The encoder: classify a literal, apply the selected padding policy,
//! and render the literal's value as a big-endian byte sequence.

use vstd::prelude::*;

verus! {

use vstd::arithmetic::power::pow;
use vstd::arithmetic::power2::pow2;
use crate::literal::{Base, base_of, has_minus, is_valid_literal, lit_digits, lit_value, lz_count,
    parse_literal, lemma_lit_digits_valid};
use crate::numeric::{be_bytes_of, be_value, bit_len, digits_value, lemma_be_bytes_of_value,
    lemma_be_value_concat, lemma_be_value_first, lemma_be_value_injective, lemma_be_bytes_of_zero,
    lemma_bit_len_bounds, lemma_digits_bit_len, lemma_pow256_pow2};
use crate::bignum::{big_bits, big_from_digits, big_nat, big_to_bytes_be};

/// How zero padding spelled in the literal is treated.
#[derive(Clone, Copy, PartialEq, Eq, Structural, Debug)]
pub enum EncodingPolicy {
    /// Leading zero digits of hexadecimal and binary literals are
    /// preserved as leading zero bits of the output; decimal and octal
    /// literals with leading zeros are rejected as ambiguous.
    ExactWidth,
    /// The output is the fewest bytes able to hold the value; zero
    /// padding spelled in the literal is discarded. All four bases are
    /// accepted.
    MinimalWidth,
    /// Minimal width, accepting only the hexadecimal and binary forms.
    MinimalWidthRestricted,
}

/// The classified encoding failures.
#[derive(Clone, Copy, PartialEq, Eq, Structural, Debug)]
pub enum ErrorKind {
    /// The text is not a syntactically valid integer literal.
    NotAnInteger,
    /// The literal carries a leading minus sign.
    NegativeUnsupported,
    /// Exact-width encoding met leading zero digits in a base without a
    /// fixed digit-to-bit ratio; the field names that base.
    LeadingZerosUnsupported(Base),
    /// The restricted minimal-width policy rejected a base other than
    /// hexadecimal or binary.
    UnsupportedForm,
}

impl ErrorKind {
    /// The diagnostic text for this failure kind; the leading-zeros
    /// failure names the offending base.
    pub open spec fn spec_message(self) -> Seq<char> {
        match self {
            ErrorKind::NotAnInteger => "not an integer literal"@,
            ErrorKind::NegativeUnsupported => "negative values unsupported"@,
            ErrorKind::LeadingZerosUnsupported(base) => match base {
                Base::Decimal
                    => "leading zeros are not preserved or supported on integer literals in decimal form"@,
                Base::Octal
                    => "leading zeros are not preserved or supported on integer literals in octal form"@,
                Base::Hexadecimal
                    => "leading zeros are not preserved or supported on integer literals in hex form"@,
                Base::Binary
                    => "leading zeros are not preserved or supported on integer literals in binary form"@,
            },
            ErrorKind::UnsupportedForm => "unsupported integer literal form"@,
        }
    }

    /// Render the diagnostic text of this failure kind.
    pub fn message(&self) -> (m: &'static str)
        ensures
            m@ == self.spec_message(),
    {
        match self {
            ErrorKind::NotAnInteger => "not an integer literal",
            ErrorKind::NegativeUnsupported => "negative values unsupported",
            ErrorKind::LeadingZerosUnsupported(base) => match base {
                Base::Decimal
                    => "leading zeros are not preserved or supported on integer literals in decimal form",
                Base::Octal
                    => "leading zeros are not preserved or supported on integer literals in octal form",
                Base::Hexadecimal
                    => "leading zeros are not preserved or supported on integer literals in hex form",
                Base::Binary
                    => "leading zeros are not preserved or supported on integer literals in binary form",
            },
            ErrorKind::UnsupportedForm => "unsupported integer literal form",
        }
    }
}

/// An encoding failure: the failure kind together with the caller's
/// source locator, handed back unchanged and never interpreted.
#[derive(Debug, PartialEq, Eq)]
pub struct EncodeError<L> {
    /// What went wrong.
    pub kind: ErrorKind,
    /// The locator the caller handed to [`encode`].
    pub locator: L,
}

/// Bits of zero padding the policy grants the literal: the spelled
/// leading zero digits times the base's bits per digit, under the
/// exact-width policy in a fixed-ratio base; otherwise none.
pub open spec fn spec_zero_pad_bits(base: Base, lz: nat, policy: EncodingPolicy) -> nat {
    if policy is ExactWidth && base.has_fixed_digit_bits() {
        lz * base.bits_per_zero_digit()
    } else {
        0
    }
}

/// Bytes needed for `pad_bits` bits of padding plus a value of `vbits`
/// bits: the total rounded up to whole bytes, but never zero bytes.
pub open spec fn spec_total_len(pad_bits: nat, vbits: nat) -> nat {
    if pad_bits + vbits == 0 {
        1
    } else {
        ((pad_bits + vbits + 7) / 8) as nat
    }
}

/// What [`encode`] computes, as a function of the literal's text and the
/// policy: the classified error, or the value's big-endian bytes at the
/// policy's width.
pub open spec fn spec_encode(text: Seq<u8>, policy: EncodingPolicy) -> Result<Seq<u8>, ErrorKind> {
    if !is_valid_literal(text) {
        Err(ErrorKind::NotAnInteger)
    } else if has_minus(text) {
        Err(ErrorKind::NegativeUnsupported)
    } else {
        let base = base_of(text);
        let lz = lz_count(lit_digits(text));
        let v = lit_value(text);
        if policy is MinimalWidthRestricted && !base.has_fixed_digit_bits() {
            Err(ErrorKind::UnsupportedForm)
        } else if policy is ExactWidth && !base.has_fixed_digit_bits() && lz > 0 {
            Err(ErrorKind::LeadingZerosUnsupported(base))
        } else {
            Ok(
                be_bytes_of(
                    v,
                    spec_total_len(spec_zero_pad_bits(base, lz, policy), bit_len(v)),
                ),
            )
        }
    }
}

/// Encode the spelling of a non-negative integer literal as a big-endian
/// byte sequence under the given policy.
///
/// The `locator` is an opaque value for the caller's benefit: it is
/// threaded unchanged into any error and never interpreted.
#[verifier::rlimit(60)]
pub fn encode<L>(text: &[u8], locator: L, policy: EncodingPolicy) -> (r: Result<
    Vec<u8>,
    EncodeError<L>,
>)
    requires
        text@.len() < usize::MAX / 8,
    ensures
        match spec_encode(text@, policy) {
            Ok(bytes) => r matches Ok(out) && out@ == bytes,
            Err(kind) => r matches Err(e) && e.kind == kind && e.locator == locator,
        },
{
    let parsed = match parse_literal(text) {
        Some(p) => p,
        None => {
            return Err(EncodeError { kind: ErrorKind::NotAnInteger, locator });
        },
    };
    if parsed.negative {
        return Err(EncodeError { kind: ErrorKind::NegativeUnsupported, locator });
    }
    let base = parsed.base;
    let fixed = base.fixed_digit_bits();
    let restricted = match policy {
        EncodingPolicy::MinimalWidthRestricted => true,
        _ => false,
    };
    let exact = match policy {
        EncodingPolicy::ExactWidth => true,
        _ => false,
    };
    if restricted && !fixed {
        return Err(EncodeError { kind: ErrorKind::UnsupportedForm, locator });
    }
    if exact && !fixed && parsed.leading_zeros > 0 {
        return Err(EncodeError { kind: ErrorKind::LeadingZerosUnsupported(base), locator });
    }
    let ghost s = text@;
    let ghost v = lit_value(s);
    let ghost radix_spec = base_of(s).radix();
    let bpd = base.zero_digit_bits();
    proof {
        assert(parsed.leading_zeros * bpd <= 4 * parsed.leading_zeros) by (nonlinear_arith)
            requires
                bpd <= 4,
                parsed.leading_zeros >= 0,
        ;
    }
    let pad_bits: usize = if exact && fixed {
        parsed.leading_zeros * bpd
    } else {
        0
    };
    proof {
        assert(pad_bits as nat == spec_zero_pad_bits(base_of(s), lz_count(lit_digits(s)), policy));
    }
    let radix = base.radix_u32();
    proof {
        lemma_lit_digits_valid(s);
    }
    let big = big_from_digits(&parsed.digits, radix);
    proof {
        lemma_digits_bit_len(parsed.digits@, radix as nat);
        assert(big_nat(big) == v);
        assert(bit_len(v) <= 4 * parsed.digits@.len());
    }
    let vbits: usize = big_bits(&big);
    let vbytes: Vec<u8> = big_to_bytes_be(&big);
    let vlen = vbytes.len();
    let total_bits: usize = pad_bits + vbits;
    let total_len: usize = if total_bits == 0 {
        1
    } else {
        (total_bits + 7) / 8
    };
    proof {
        assert(total_len as nat == spec_total_len(pad_bits as nat, bit_len(v)));
        // the value fits in the chosen width
        assert(bit_len(v) <= 8 * total_len);
        lemma_bit_len_bounds(v);
        if bit_len(v) < 8 * (total_len as nat) {
            vstd::arithmetic::power2::lemma_pow2_strictly_increases(
                bit_len(v),
                8 * (total_len as nat),
            );
        }
        lemma_pow256_pow2(total_len as nat);
        assert(v < pow(256, total_len as nat));
        // the minimal bytes fit in the chosen width
        if big_nat(big) > 0 {
            lemma_be_value_first(vbytes@);
            vstd::arithmetic::power::lemma_pow_positive(256, (vlen - 1) as nat);
            assert(be_value(vbytes@) >= pow(256, (vlen - 1) as nat)) by (nonlinear_arith)
                requires
                    be_value(vbytes@) >= vbytes@[0] * pow(256, (vlen - 1) as nat),
                    vbytes@[0] >= 1,
                    pow(256, (vlen - 1) as nat) > 0,
            ;
            if vlen > total_len {
                vstd::arithmetic::power::lemma_pow_increases(
                    256,
                    total_len as nat,
                    (vlen - 1) as nat,
                );
                assert(false);
            }
        }
        assert(vlen <= total_len);
    }
    let pad_len: usize = total_len - vlen;
    let mut out: Vec<u8> = Vec::new();
    let mut i: usize = 0;
    while i < pad_len
        invariant
            i <= pad_len,
            out@.len() == i,
            forall|k: int| 0 <= k < i ==> out@[k] == 0u8,
        decreases pad_len - i,
    {
        out.push(0);
        i = i + 1;
    }
    let mut j: usize = 0;
    while j < vbytes.len()
        invariant
            j <= vbytes@.len(),
            vlen == vbytes@.len(),
            out@.len() == pad_len + j,
            forall|k: int| 0 <= k < pad_len ==> out@[k] == 0u8,
            forall|k: int| 0 <= k < j ==> out@[pad_len + k] == vbytes@[k],
        decreases vbytes@.len() - j,
    {
        let b = vbytes[j];
        out.push(b);
        j = j + 1;
    }
    proof {
        let zeros = Seq::new(pad_len as nat, |k: int| 0u8);
        assert(out@ =~= zeros + vbytes@);
        lemma_be_bytes_of_zero(pad_len as nat);
        assert(zeros =~= be_bytes_of(0, pad_len as nat));
        vstd::arithmetic::power::lemma_pow_positive(256, pad_len as nat);
        lemma_be_bytes_of_value(0, pad_len as nat);
        assert(be_value(zeros) == 0);
        lemma_be_value_concat(zeros, vbytes@);
        assert(be_value(out@) == v);
        lemma_be_bytes_of_value(v, total_len as nat);
        lemma_be_value_injective(out@, be_bytes_of(v, total_len as nat));
    }
    Ok(out)
}

} // verus!
