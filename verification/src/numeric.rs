//! The numeric model: values of digit strings, big-endian byte sequences,
//! and bit lengths, together with the lemmas that relate them.

use vstd::prelude::*;

verus! {

use vstd::arithmetic::power::pow;
use vstd::arithmetic::power2::pow2;

/// ASCII `'0'`.
pub const CHAR_ZERO: u8 = 48;

/// ASCII `'9'`.
pub const CHAR_NINE: u8 = 57;

/// ASCII `'a'`.
pub const CHAR_LOWER_A: u8 = 97;

/// ASCII `'f'`.
pub const CHAR_LOWER_F: u8 = 102;

/// ASCII `'A'`.
pub const CHAR_UPPER_A: u8 = 65;

/// ASCII `'F'`.
pub const CHAR_UPPER_F: u8 = 70;

/// Numeric value of one ASCII digit character, for bases up to 16.
/// Characters that are no digit of any such base map to 16, which no
/// radix in use admits.
pub open spec fn digit_val(c: u8) -> nat {
    if CHAR_ZERO <= c && c <= CHAR_NINE {
        (c - CHAR_ZERO) as nat
    } else if CHAR_LOWER_A <= c && c <= CHAR_LOWER_F {
        (c - CHAR_LOWER_A + 10) as nat
    } else if CHAR_UPPER_A <= c && c <= CHAR_UPPER_F {
        (c - CHAR_UPPER_A + 10) as nat
    } else {
        16
    }
}

/// Whether `c` is a digit of the given radix.
pub open spec fn is_digit(c: u8, radix: nat) -> bool {
    digit_val(c) < radix
}

/// The non-negative integer spelled by a digit string, most significant
/// digit first, in the given radix.
pub open spec fn digits_value(s: Seq<u8>, radix: nat) -> nat
    decreases s.len(),
{
    if s.len() == 0 {
        0
    } else {
        digits_value(s.drop_last(), radix) * radix + digit_val(s.last())
    }
}

/// The non-negative integer denoted by a byte sequence read as a
/// big-endian unsigned number.
pub open spec fn be_value(s: Seq<u8>) -> nat
    decreases s.len(),
{
    if s.len() == 0 {
        0
    } else {
        be_value(s.drop_last()) * 256 + s.last() as nat
    }
}

/// The fewest bits able to hold `v`: 0 for 0, otherwise floor(log2(v)) + 1.
pub open spec fn bit_len(v: nat) -> nat
    decreases v,
{
    if v == 0 {
        0
    } else {
        1 + bit_len(v / 2)
    }
}

/// The big-endian byte sequence of length `len` whose value is `v`
/// (truncated to the low `8 * len` bits if `v` does not fit).
pub open spec fn be_bytes_of(v: nat, len: nat) -> Seq<u8>
    decreases len,
{
    if len == 0 {
        Seq::empty()
    } else {
        be_bytes_of(v / 256, (len - 1) as nat).push((v % 256) as u8)
    }
}

/// Two byte sequences of one length with one value are the same sequence.
pub proof fn lemma_be_value_injective(s: Seq<u8>, t: Seq<u8>)
    requires
        s.len() == t.len(),
        be_value(s) == be_value(t),
    ensures
        s =~= t,
    decreases s.len(),
{
    if s.len() > 0 {
        let a = be_value(s.drop_last());
        let b = be_value(t.drop_last());
        assert(a * 256 + s.last() == b * 256 + t.last());
        assert(s.last() == t.last() && a == b) by (nonlinear_arith)
            requires
                a * 256 + s.last() == b * 256 + t.last(),
                s.last() < 256,
                t.last() < 256,
        ;
        lemma_be_value_injective(s.drop_last(), t.drop_last());
        assert(s =~= s.drop_last().push(s.last()));
        assert(t =~= t.drop_last().push(t.last()));
    }
}

/// `be_bytes_of(v, len)` has length `len`, and its value is `v` whenever
/// `v` fits in `len` bytes.
pub proof fn lemma_be_bytes_of_value(v: nat, len: nat)
    requires
        v < pow(256, len),
    ensures
        be_bytes_of(v, len).len() == len,
        be_value(be_bytes_of(v, len)) == v,
    decreases len,
{
    lemma_be_bytes_of_len(v, len);
    if len > 0 {
        assert(pow(256, len) == 256 * pow(256, (len - 1) as nat)) by {
            reveal(pow);
        }
        assert(v / 256 < pow(256, (len - 1) as nat)) by (nonlinear_arith)
            requires
                v < 256 * pow(256, (len - 1) as nat),
                pow(256, (len - 1) as nat) > 0,
        ;
        lemma_be_bytes_of_value(v / 256, (len - 1) as nat);
        let s = be_bytes_of(v, len);
        assert(s.drop_last() =~= be_bytes_of(v / 256, (len - 1) as nat));
        assert(be_value(s) == (v / 256) * 256 + v % 256);
        vstd::arithmetic::div_mod::lemma_fundamental_div_mod(v as int, 256);
    } else {
        vstd::arithmetic::power::lemma_pow0(256);
    }
}

/// `be_bytes_of` always yields a sequence of the requested length.
pub proof fn lemma_be_bytes_of_len(v: nat, len: nat)
    ensures
        be_bytes_of(v, len).len() == len,
    decreases len,
{
    if len > 0 {
        lemma_be_bytes_of_len(v / 256, (len - 1) as nat);
    }
}

/// The zero value renders as a run of zero bytes of any length.
pub proof fn lemma_be_bytes_of_zero(len: nat)
    ensures
        be_bytes_of(0, len) =~= Seq::new(len, |i: int| 0u8),
    decreases len,
{
    if len > 0 {
        lemma_be_bytes_of_zero((len - 1) as nat);
    }
}

/// The value of a concatenation: `a`'s value shifted past `b`'s bytes,
/// plus `b`'s value.
pub proof fn lemma_be_value_concat(a: Seq<u8>, b: Seq<u8>)
    ensures
        be_value(a + b) == be_value(a) * pow(256, b.len() as nat) + be_value(b),
    decreases b.len(),
{
    if b.len() == 0 {
        assert(a + b =~= a);
        assert(pow(256, 0) == 1) by {
            reveal(pow);
        }
    } else {
        lemma_be_value_concat(a, b.drop_last());
        assert((a + b).drop_last() =~= a + b.drop_last());
        assert((a + b).last() == b.last());
        let x = be_value(a);
        let y = be_value(b.drop_last());
        let p = pow(256, (b.len() - 1) as nat);
        assert(pow(256, b.len() as nat) == 256 * p) by {
            reveal(pow);
        }
        assert((x * p + y) * 256 + b.last() as nat == x * (256 * p) + (y * 256
            + b.last() as nat)) by (nonlinear_arith);
    }
}

/// The bit length bounds the value from both sides: `v < 2^bit_len(v)`,
/// and for positive `v` the top bit is set.
pub proof fn lemma_bit_len_bounds(v: nat)
    ensures
        v < pow2(bit_len(v)),
        v > 0 ==> pow2((bit_len(v) - 1) as nat) <= v,
    decreases v,
{
    vstd::arithmetic::power2::lemma_pow2_pos(bit_len(v));
    if v > 0 {
        lemma_bit_len_bounds(v / 2);
        vstd::arithmetic::div_mod::lemma_fundamental_div_mod(v as int, 2);
        vstd::arithmetic::power2::lemma_pow2_unfold(bit_len(v));
        if v / 2 > 0 {
            vstd::arithmetic::power2::lemma_pow2_unfold((bit_len(v) - 1) as nat);
        } else {
            assert(pow2(0) == 1) by {
                vstd::arithmetic::power2::lemma2_to64();
            }
        }
    }
}

/// `bit_len(v) <= k` holds exactly when `v` fits in `k` bits.
pub proof fn lemma_bit_len_le(v: nat, k: nat)
    ensures
        bit_len(v) <= k <==> v < pow2(k),
{
    lemma_bit_len_bounds(v);
    if bit_len(v) <= k {
        if bit_len(v) < k {
            vstd::arithmetic::power2::lemma_pow2_strictly_increases(bit_len(v), k);
        }
    }
    if v < pow2(k) && bit_len(v) > k {
        vstd::arithmetic::power2::lemma_pow2_strictly_increases(k, bit_len(v));
        if k < (bit_len(v) - 1) as nat {
            vstd::arithmetic::power2::lemma_pow2_strictly_increases(k, (bit_len(v) - 1) as nat);
        }
    }
}

/// A digit string in a radix of at most 16 spells a value of at most
/// 4 bits per digit.
pub proof fn lemma_digits_bit_len(s: Seq<u8>, radix: nat)
    requires
        radix <= 16,
        forall|i: int| 0 <= i < s.len() ==> is_digit(s[i], radix),
    ensures
        digits_value(s, radix) < pow2(4 * s.len()),
        bit_len(digits_value(s, radix)) <= 4 * s.len(),
    decreases s.len(),
{
    vstd::arithmetic::power2::lemma_pow2_pos(4 * s.len());
    if s.len() == 0 {
        assert(pow2(0) == 1) by {
            vstd::arithmetic::power2::lemma2_to64();
        }
    } else {
        lemma_digits_bit_len(s.drop_last(), radix);
        let vp = digits_value(s.drop_last(), radix);
        let d = digit_val(s.last());
        assert(pow2(4 * s.len()) == pow2((4 * (s.len() - 1)) as nat) * pow2(4)) by {
            vstd::arithmetic::power2::lemma_pow2_adds(4 * (s.len() - 1) as nat, 4);
        }
        assert(pow2(4) == 16) by {
            vstd::arithmetic::power2::lemma2_to64();
        }
        assert(vp * radix + d < pow2((4 * (s.len() - 1)) as nat) * 16) by (nonlinear_arith)
            requires
                vp < pow2((4 * (s.len() - 1)) as nat),
                radix <= 16,
                d < radix,
        ;
    }
    lemma_bit_len_le(digits_value(s, radix), 4 * s.len());
}

/// 256 to a power is 2 to eight times that power.
pub proof fn lemma_pow256_pow2(len: nat)
    ensures
        pow(256, len) == pow2(8 * len),
{
    vstd::arithmetic::power2::lemma_pow2(8);
    vstd::arithmetic::power2::lemma_pow2(8 * len);
    assert(pow2(8) == 256) by {
        vstd::arithmetic::power2::lemma2_to64();
    }
    vstd::arithmetic::power::lemma_pow_multiplies(2, 8, len);
}

/// The first byte contributes at least its shifted weight to the value.
pub proof fn lemma_be_value_first(s: Seq<u8>)
    requires
        s.len() > 0,
    ensures
        be_value(s) >= s[0] * pow(256, (s.len() - 1) as nat),
    decreases s.len(),
{
    if s.len() == 1 {
        assert(s.drop_last().len() == 0);
        assert(pow(256, 0) == 1) by {
            reveal(pow);
        }
    } else {
        lemma_be_value_first(s.drop_last());
        let p = pow(256, (s.len() - 2) as nat);
        assert(pow(256, (s.len() - 1) as nat) == 256 * p) by {
            reveal(pow);
        }
        assert(s.drop_last()[0] == s[0]);
        assert(be_value(s.drop_last()) * 256 + s.last() as nat >= s[0] * (256 * p))
            by (nonlinear_arith)
            requires
                be_value(s.drop_last()) >= s[0] * p,
        ;
    }
}

/// A value that fits in `m` bytes renders into `len >= m` bytes as
/// `len - m` zero bytes followed by its `m`-byte rendering.
pub proof fn lemma_be_bytes_of_split(v: nat, m: nat, len: nat)
    requires
        v < pow(256, m),
        m <= len,
    ensures
        be_bytes_of(v, len) =~= Seq::new((len - m) as nat, |i: int| 0u8) + be_bytes_of(v, m),
    decreases m, len,
{
    if m == 0 {
        assert(pow(256, 0) == 1) by {
            reveal(pow);
        }
        lemma_be_bytes_of_zero(len);
        lemma_be_bytes_of_zero(0);
    } else if len == m {
        lemma_be_bytes_of_len(v, m);
    } else {
        assert(pow(256, m) == 256 * pow(256, (m - 1) as nat)) by {
            reveal(pow);
        }
        vstd::arithmetic::power::lemma_pow_positive(256, (m - 1) as nat);
        assert(v / 256 < pow(256, (m - 1) as nat)) by (nonlinear_arith)
            requires
                v < 256 * pow(256, (m - 1) as nat),
                pow(256, (m - 1) as nat) > 0,
        ;
        lemma_be_bytes_of_split(v / 256, (m - 1) as nat, (len - 1) as nat);
        lemma_be_bytes_of_len(v / 256, (m - 1) as nat);
    }
}

/// A value whose top byte position is occupied renders with a nonzero
/// first byte.
pub proof fn lemma_be_bytes_of_first(v: nat, len: nat)
    requires
        len > 0,
        pow(256, (len - 1) as nat) <= v < pow(256, len),
    ensures
        be_bytes_of(v, len)[0] != 0,
    decreases len,
{
    lemma_be_bytes_of_len(v, len);
    if len == 1 {
        assert(pow(256, 0) == 1 && pow(256, 1) == 256) by {
            reveal(pow);
        }
        vstd::arithmetic::div_mod::lemma_small_mod(v, 256);
    } else {
        let p = pow(256, (len - 2) as nat);
        assert(pow(256, (len - 1) as nat) == 256 * p) by {
            reveal(pow);
        }
        assert(pow(256, len) == 256 * pow(256, (len - 1) as nat)) by {
            reveal(pow);
        }
        vstd::arithmetic::power::lemma_pow_positive(256, (len - 2) as nat);
        assert(p <= v / 256 < 256 * p) by (nonlinear_arith)
            requires
                256 * p <= v < 256 * (256 * p),
                p > 0,
        ;
        lemma_be_bytes_of_first(v / 256, (len - 1) as nat);
        lemma_be_bytes_of_len(v / 256, (len - 1) as nat);
        assert(be_bytes_of(v, len)[0] == be_bytes_of(v / 256, (len - 1) as nat)[0]);
    }
}

/// A digit string spelling the value zero consists of zero-valued digits.
pub proof fn lemma_digits_value_zero(s: Seq<u8>, radix: nat)
    requires
        radix >= 2,
        digits_value(s, radix) == 0,
    ensures
        forall|i: int| 0 <= i < s.len() ==> digit_val(s[i]) == 0,
    decreases s.len(),
{
    if s.len() > 0 {
        let vp = digits_value(s.drop_last(), radix);
        assert(vp == 0 && digit_val(s.last()) == 0) by (nonlinear_arith)
            requires
                vp * radix + digit_val(s.last()) == 0,
                radix >= 2,
        ;
        lemma_digits_value_zero(s.drop_last(), radix);
        assert forall|i: int| 0 <= i < s.len() implies digit_val(s[i]) == 0 by {
            if i < s.len() - 1 {
                assert(s.drop_last()[i] == s[i]);
            } else {
                assert(s[i] == s.last());
            }
        }
    }
}

} // verus!
