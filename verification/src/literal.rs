//! The integer-literal grammar: an optional minus sign, an optional base
//! prefix, a non-empty digit run optionally interleaved with `_`
//! separators, and an optional trailing alphanumeric suffix.
//!
//! The grammar is stated as spec functions over the literal's bytes, and
//! [`parse_literal`] is the verified scanner that classifies a literal
//! and yields its normalized digit body.

use vstd::prelude::*;

verus! {

use crate::numeric::{digit_val, is_digit, CHAR_ZERO, CHAR_NINE, CHAR_LOWER_A, CHAR_LOWER_F,
    CHAR_UPPER_A, CHAR_UPPER_F};

/// ASCII `'-'`.
pub const CHAR_MINUS: u8 = 45;

/// ASCII `'_'`.
pub const CHAR_UNDERSCORE: u8 = 95;

/// ASCII `'x'`.
pub const CHAR_LOWER_X: u8 = 120;

/// ASCII `'b'`.
pub const CHAR_LOWER_B: u8 = 98;

/// ASCII `'o'`.
pub const CHAR_LOWER_O: u8 = 111;

/// ASCII `'z'`.
pub const CHAR_LOWER_Z: u8 = 122;

/// ASCII `'Z'`.
pub const CHAR_UPPER_Z: u8 = 90;

/// The four supported bases of an integer literal.
#[derive(Clone, Copy, PartialEq, Eq, Structural, Debug)]
pub enum Base {
    Decimal,
    Hexadecimal,
    Octal,
    Binary,
}

impl Base {
    /// The radix the digit run is read in.
    pub open spec fn radix(self) -> nat {
        match self {
            Base::Decimal => 10,
            Base::Hexadecimal => 16,
            Base::Octal => 8,
            Base::Binary => 2,
        }
    }

    /// Whether one digit of this base covers a fixed number of bits, so
    /// that leading zero digits translate into leading zero bits.
    pub open spec fn has_fixed_digit_bits(self) -> bool {
        self is Hexadecimal || self is Binary
    }

    /// Bits covered by one leading zero digit: 4 for hexadecimal, 1 for
    /// binary; the other bases have no fixed digit-to-bit ratio.
    pub open spec fn bits_per_zero_digit(self) -> nat {
        match self {
            Base::Hexadecimal => 4,
            Base::Binary => 1,
            _ => 0,
        }
    }

    /// The radix as a machine integer.
    pub fn radix_u32(self) -> (r: u32)
        ensures
            r as nat == self.radix(),
    {
        match self {
            Base::Decimal => 10,
            Base::Hexadecimal => 16,
            Base::Octal => 8,
            Base::Binary => 2,
        }
    }

    /// Executable counterpart of [`Base::has_fixed_digit_bits`].
    pub fn fixed_digit_bits(self) -> (r: bool)
        ensures
            r == self.has_fixed_digit_bits(),
    {
        match self {
            Base::Hexadecimal => true,
            Base::Binary => true,
            _ => false,
        }
    }

    /// Executable counterpart of [`Base::bits_per_zero_digit`].
    pub fn zero_digit_bits(self) -> (r: usize)
        ensures
            r as nat == self.bits_per_zero_digit(),
    {
        match self {
            Base::Hexadecimal => 4,
            Base::Binary => 1,
            _ => 0,
        }
    }
}

/// Whether the literal carries a leading minus sign.
pub open spec fn has_minus(s: Seq<u8>) -> bool {
    s.len() > 0 && s[0] == CHAR_MINUS
}

/// The literal with any leading minus sign removed.
pub open spec fn after_sign(s: Seq<u8>) -> Seq<u8> {
    if has_minus(s) {
        s.skip(1)
    } else {
        s
    }
}

/// The base named by the two-character prefix, or decimal without one.
pub open spec fn base_of(s: Seq<u8>) -> Base {
    let t = after_sign(s);
    if t.len() >= 2 && t[0] == CHAR_ZERO && t[1] == CHAR_LOWER_X {
        Base::Hexadecimal
    } else if t.len() >= 2 && t[0] == CHAR_ZERO && t[1] == CHAR_LOWER_B {
        Base::Binary
    } else if t.len() >= 2 && t[0] == CHAR_ZERO && t[1] == CHAR_LOWER_O {
        Base::Octal
    } else {
        Base::Decimal
    }
}

/// The literal after sign and base prefix: digit run plus suffix.
pub open spec fn body_of(s: Seq<u8>) -> Seq<u8> {
    if base_of(s) is Decimal {
        after_sign(s)
    } else {
        after_sign(s).skip(2)
    }
}

/// A character that may stand in a digit run: a digit of the base, or a
/// `_` separator.
pub open spec fn is_run_char(c: u8, radix: nat) -> bool {
    is_digit(c, radix) || c == CHAR_UNDERSCORE
}

/// Length of the leading run of digit-or-separator characters.
pub open spec fn run_len(body: Seq<u8>, radix: nat) -> nat
    decreases body.len(),
{
    if body.len() == 0 || !is_run_char(body[0], radix) {
        0
    } else {
        1 + run_len(body.skip(1), radix)
    }
}

/// The digit run of the literal, separators included.
pub open spec fn digit_run(s: Seq<u8>) -> Seq<u8> {
    body_of(s).take(run_len(body_of(s), base_of(s).radix()) as int)
}

/// What follows the digit run: the literal's suffix.
pub open spec fn suffix_of(s: Seq<u8>) -> Seq<u8> {
    body_of(s).skip(run_len(body_of(s), base_of(s).radix()) as int)
}

/// A digit run with the `_` separators removed.
pub open spec fn strip_separators(s: Seq<u8>) -> Seq<u8>
    decreases s.len(),
{
    if s.len() == 0 {
        Seq::empty()
    } else if s.last() == CHAR_UNDERSCORE {
        strip_separators(s.drop_last())
    } else {
        strip_separators(s.drop_last()).push(s.last())
    }
}

/// The literal's normalized digit body: its digit run without separators.
pub open spec fn lit_digits(s: Seq<u8>) -> Seq<u8> {
    strip_separators(digit_run(s))
}

/// An ASCII letter.
pub open spec fn is_letter(c: u8) -> bool {
    (CHAR_LOWER_A <= c && c <= CHAR_LOWER_Z) || (CHAR_UPPER_A <= c && c <= CHAR_UPPER_Z)
}

/// An ASCII letter or decimal digit.
pub open spec fn is_alnum(c: u8) -> bool {
    is_letter(c) || (CHAR_ZERO <= c && c <= CHAR_NINE)
}

/// A valid suffix is empty, or starts with a letter and continues
/// alphanumerically.
pub open spec fn valid_suffix(sfx: Seq<u8>) -> bool {
    sfx.len() == 0 || (is_letter(sfx[0]) && forall|i: int| 0 <= i < sfx.len() ==> is_alnum(sfx[i]))
}

/// A syntactically valid integer literal: non-empty after the sign, a
/// decimal literal opens with a digit, the digit run holds at least one
/// digit, and anything after the run is a well-formed suffix.
pub open spec fn is_valid_literal(s: Seq<u8>) -> bool {
    &&& after_sign(s).len() > 0
    &&& (base_of(s) is Decimal ==> is_digit(after_sign(s)[0], 10))
    &&& lit_digits(s).len() > 0
    &&& valid_suffix(suffix_of(s))
}

/// Count of leading zero digit characters.
pub open spec fn lz_count(d: Seq<u8>) -> nat
    decreases d.len(),
{
    if d.len() == 0 || d[0] != CHAR_ZERO {
        0
    } else {
        1 + lz_count(d.skip(1))
    }
}

/// The numeric value spelled by the literal's digit body.
pub open spec fn lit_value(s: Seq<u8>) -> nat {
    crate::numeric::digits_value(lit_digits(s), base_of(s).radix())
}

/// `run_len` is the length of the maximal leading run: everything before
/// it is a run character, and the character after it (if any) is not.
pub proof fn lemma_run_len_char(body: Seq<u8>, radix: nat)
    ensures
        run_len(body, radix) <= body.len(),
        forall|i: int| 0 <= i < run_len(body, radix) ==> is_run_char(body[i], radix),
        run_len(body, radix) < body.len() ==> !is_run_char(
            body[run_len(body, radix) as int],
            radix,
        ),
    decreases body.len(),
{
    if body.len() > 0 && is_run_char(body[0], radix) {
        lemma_run_len_char(body.skip(1), radix);
        assert forall|i: int| 0 <= i < run_len(body, radix) implies is_run_char(
            body[i],
            radix,
        ) by {
            if i > 0 {
                assert(body.skip(1)[i - 1] == body[i]);
            }
        }
        if run_len(body, radix) < body.len() {
            assert(body.skip(1)[run_len(body, radix) - 1] == body[run_len(body, radix) as int]);
        }
    }
}

/// A maximal run of the given length pins `run_len` down.
pub proof fn lemma_run_len_is(body: Seq<u8>, radix: nat, n: nat)
    requires
        n <= body.len(),
        forall|i: int| 0 <= i < n ==> is_run_char(body[i], radix),
        n < body.len() ==> !is_run_char(body[n as int], radix),
    ensures
        run_len(body, radix) == n,
    decreases body.len(),
{
    if n == 0 {
    } else {
        assert(is_run_char(body[0], radix));
        assert forall|i: int| 0 <= i < n - 1 implies is_run_char(body.skip(1)[i], radix) by {
            assert(body.skip(1)[i] == body[i + 1]);
        }
        if n < body.len() {
            assert(body.skip(1)[n - 1] == body[n as int]);
        }
        lemma_run_len_is(body.skip(1), radix, (n - 1) as nat);
    }
}

/// Stripping separators from a run of run characters leaves digits only,
/// and never lengthens the sequence.
pub proof fn lemma_strip_digits(s: Seq<u8>, radix: nat)
    requires
        forall|i: int| 0 <= i < s.len() ==> is_run_char(s[i], radix),
    ensures
        strip_separators(s).len() <= s.len(),
        forall|i: int| 0 <= i < strip_separators(s).len() ==> is_digit(
            strip_separators(s)[i],
            radix,
        ),
    decreases s.len(),
{
    if s.len() > 0 {
        assert forall|i: int| 0 <= i < s.drop_last().len() implies is_run_char(
            s.drop_last()[i],
            radix,
        ) by {
            assert(s.drop_last()[i] == s[i]);
        }
        lemma_strip_digits(s.drop_last(), radix);
        if s.last() != CHAR_UNDERSCORE {
            let r = strip_separators(s);
            assert(r == strip_separators(s.drop_last()).push(s.last()));
            assert(is_digit(s.last(), radix));
            assert forall|i: int| 0 <= i < r.len() implies is_digit(r[i], radix) by {
                if i < r.len() - 1 {
                    assert(r[i] == strip_separators(s.drop_last())[i]);
                }
            }
        }
    }
}

/// Every character of the normalized digit body is a digit of the
/// literal's base, and the body is no longer than the run it came from.
pub proof fn lemma_lit_digits_valid(s: Seq<u8>)
    ensures
        forall|i: int| 0 <= i < lit_digits(s).len() ==> is_digit(
            lit_digits(s)[i],
            base_of(s).radix(),
        ),
        lit_digits(s).len() <= digit_run(s).len(),
{
    let body = body_of(s);
    let radix = base_of(s).radix();
    lemma_run_len_char(body, radix);
    assert forall|i: int| 0 <= i < digit_run(s).len() implies is_run_char(
        digit_run(s)[i],
        radix,
    ) by {
        assert(digit_run(s)[i] == body[i]);
    }
    lemma_strip_digits(digit_run(s), radix);
}

/// The classified parts of a syntactically valid literal: its sign, its
/// base, its digit body with separators removed, and the count of
/// leading zero digits in that body.
pub struct ParsedLiteral {
    /// Whether the literal carries a leading minus sign.
    pub negative: bool,
    /// The base named by the literal's prefix.
    pub base: Base,
    /// The digit body, separators stripped, suffix dropped.
    pub digits: Vec<u8>,
    /// How many leading zero digit characters `digits` opens with.
    pub leading_zeros: usize,
}

/// Executable counterpart of [`digit_val`].
fn digit_value_of(c: u8) -> (r: u8)
    ensures
        r as nat == digit_val(c),
{
    if CHAR_ZERO <= c && c <= CHAR_NINE {
        c - CHAR_ZERO
    } else if CHAR_LOWER_A <= c && c <= CHAR_LOWER_F {
        c - CHAR_LOWER_A + 10
    } else if CHAR_UPPER_A <= c && c <= CHAR_UPPER_F {
        c - CHAR_UPPER_A + 10
    } else {
        16
    }
}

/// Executable counterpart of [`is_digit`].
fn is_digit_char(c: u8, radix: u32) -> (r: bool)
    ensures
        r == is_digit(c, radix as nat),
{
    (digit_value_of(c) as u32) < radix
}

/// Executable counterpart of [`is_run_char`].
fn is_run_char_exec(c: u8, radix: u32) -> (r: bool)
    ensures
        r == is_run_char(c, radix as nat),
{
    is_digit_char(c, radix) || c == CHAR_UNDERSCORE
}

/// Executable counterpart of [`is_letter`].
fn is_letter_char(c: u8) -> (r: bool)
    ensures
        r == is_letter(c),
{
    (CHAR_LOWER_A <= c && c <= CHAR_LOWER_Z) || (CHAR_UPPER_A <= c && c <= CHAR_UPPER_Z)
}

/// Executable counterpart of [`is_alnum`].
fn is_alnum_char(c: u8) -> (r: bool)
    ensures
        r == is_alnum(c),
{
    is_letter_char(c) || (CHAR_ZERO <= c && c <= CHAR_NINE)
}

/// Scan the maximal run of digit-or-separator characters from `start`.
fn scan_run(text: &[u8], start: usize, radix: u32) -> (end: usize)
    requires
        start <= text@.len(),
    ensures
        start <= end <= text@.len(),
        forall|i: int| start <= i < end ==> is_run_char(text@[i], radix as nat),
        end < text@.len() ==> !is_run_char(text@[end as int], radix as nat),
{
    let mut j: usize = start;
    while j < text.len()
        invariant
            start <= j <= text@.len(),
            forall|i: int| start <= i < j ==> is_run_char(text@[i], radix as nat),
        decreases text@.len() - j,
    {
        if !is_run_char_exec(text[j], radix) {
            return j;
        }
        j = j + 1;
    }
    j
}

/// Scan alphanumeric characters from `start`.
fn scan_alnum(text: &[u8], start: usize) -> (end: usize)
    requires
        start <= text@.len(),
    ensures
        start <= end <= text@.len(),
        forall|i: int| start <= i < end ==> is_alnum(text@[i]),
        end < text@.len() ==> !is_alnum(text@[end as int]),
{
    let mut j: usize = start;
    while j < text.len()
        invariant
            start <= j <= text@.len(),
            forall|i: int| start <= i < j ==> is_alnum(text@[i]),
        decreases text@.len() - j,
    {
        if !is_alnum_char(text[j]) {
            return j;
        }
        j = j + 1;
    }
    j
}

/// Count the leading zero digit characters of a digit body.
fn count_leading_zeros(d: &Vec<u8>) -> (lz: usize)
    ensures
        lz as nat == lz_count(d@),
        lz <= d@.len(),
{
    let mut j: usize = 0;
    while j < d.len()
        invariant
            j <= d@.len(),
            forall|i: int| 0 <= i < j ==> d@[i] == CHAR_ZERO,
        decreases d@.len() - j,
    {
        if d[j] != CHAR_ZERO {
            proof {
                lemma_lz_is(d@, j as nat);
            }
            return j;
        }
        j = j + 1;
    }
    proof {
        lemma_lz_is(d@, j as nat);
    }
    j
}

/// Scan a literal's text: classify its sign and base, and produce the
/// normalized digit body with its count of leading zero digits.
///
/// Returns `None` exactly on text that is not a syntactically valid
/// integer literal.
#[verifier::rlimit(60)]
pub fn parse_literal(text: &[u8]) -> (r: Option<ParsedLiteral>)
    ensures
        r is Some <==> is_valid_literal(text@),
        r matches Some(p) ==> {
            &&& p.negative == has_minus(text@)
            &&& p.base == base_of(text@)
            &&& p.digits@ == lit_digits(text@)
            &&& p.leading_zeros as nat == lz_count(lit_digits(text@))
            &&& p.leading_zeros <= p.digits@.len()
            &&& p.digits@.len() <= text@.len()
        },
{
    let ghost s = text@;
    let n = text.len();
    let negative = n > 0 && text[0] == CHAR_MINUS;
    let pos: usize = if negative {
        1
    } else {
        0
    };
    proof {
        assert(after_sign(s) =~= s.skip(pos as int));
    }
    if pos >= n {
        return None;
    }
    let picked: (Base, usize) = if n - pos >= 2 && text[pos] == CHAR_ZERO && text[pos + 1]
        == CHAR_LOWER_X {
        (Base::Hexadecimal, pos + 2)
    } else if n - pos >= 2 && text[pos] == CHAR_ZERO && text[pos + 1] == CHAR_LOWER_B {
        (Base::Binary, pos + 2)
    } else if n - pos >= 2 && text[pos] == CHAR_ZERO && text[pos + 1] == CHAR_LOWER_O {
        (Base::Octal, pos + 2)
    } else {
        (Base::Decimal, pos)
    };
    let base = picked.0;
    let body_start = picked.1;
    proof {
        assert(after_sign(s)[0] == s[pos as int]);
        if after_sign(s).len() >= 2 {
            assert(after_sign(s)[1] == s[pos + 1]);
        }
        assert(base == base_of(s));
        assert(body_of(s) =~= s.skip(body_start as int));
    }
    let is_dec = match base {
        Base::Decimal => true,
        _ => false,
    };
    if is_dec && !is_digit_char(text[pos], 10) {
        return None;
    }
    let radix = base.radix_u32();
    let end = scan_run(text, body_start, radix);
    let ghost body = s.skip(body_start as int);
    proof {
        assert forall|i: int| 0 <= i < end - body_start implies is_run_char(
            body[i],
            radix as nat,
        ) by {
            assert(body[i] == s[body_start + i]);
        }
        if (end as int) < s.len() {
            assert(body[(end - body_start) as int] == s[end as int]);
        }
        lemma_run_len_is(body, radix as nat, (end - body_start) as nat);
        assert(digit_run(s) =~= body.take((end - body_start) as int));
    }
    let mut digits: Vec<u8> = Vec::new();
    let mut k = body_start;
    while k < end
        invariant
            body_start <= k <= end,
            end <= text@.len(),
            body == text@.skip(body_start as int),
            digits@ == strip_separators(body.take((k - body_start) as int)),
            digits@.len() <= k - body_start,
        decreases end - k,
    {
        let c = text[k];
        proof {
            let j = (k - body_start) as int;
            assert(body.take(j + 1).drop_last() =~= body.take(j));
            assert(body.take(j + 1).last() == body[j]);
            assert(body[j] == text@[k as int]);
        }
        if c != CHAR_UNDERSCORE {
            digits.push(c);
        }
        k = k + 1;
    }
    proof {
        assert(digits@ == lit_digits(s));
    }
    if digits.len() == 0 {
        return None;
    }
    if end < n {
        if !is_letter_char(text[end]) {
            proof {
                assert(suffix_of(s) =~= s.skip(end as int));
                assert(suffix_of(s)[0] == s[end as int]);
            }
            return None;
        }
        let stop = scan_alnum(text, end);
        if stop < n {
            proof {
                assert(suffix_of(s) =~= s.skip(end as int));
                assert(suffix_of(s)[stop - end] == s[stop as int]);
            }
            return None;
        }
        proof {
            assert(suffix_of(s) =~= s.skip(end as int));
            assert forall|i: int| 0 <= i < suffix_of(s).len() implies is_alnum(
                suffix_of(s)[i],
            ) by {
                assert(suffix_of(s)[i] == s[end + i]);
            }
            assert(suffix_of(s)[0] == s[end as int]);
        }
    } else {
        proof {
            assert(suffix_of(s) =~= s.skip(end as int));
            assert(suffix_of(s).len() == 0);
        }
    }
    let lz = count_leading_zeros(&digits);
    Some(ParsedLiteral { negative, base, digits, leading_zeros: lz })
}

/// A run of leading zeros of the given maximal length pins `lz_count`.
pub proof fn lemma_lz_is(d: Seq<u8>, n: nat)
    requires
        n <= d.len(),
        forall|i: int| 0 <= i < n ==> d[i] == CHAR_ZERO,
        n < d.len() ==> d[n as int] != CHAR_ZERO,
    ensures
        lz_count(d) == n,
    decreases d.len(),
{
    if n == 0 {
    } else {
        assert(d[0] == CHAR_ZERO);
        assert forall|i: int| 0 <= i < n - 1 implies d.skip(1)[i] == CHAR_ZERO by {
            assert(d.skip(1)[i] == d[i + 1]);
        }
        if n < d.len() {
            assert(d.skip(1)[n - 1] == d[n as int]);
        }
        lemma_lz_is(d.skip(1), (n - 1) as nat);
    }
}

} // verus!
