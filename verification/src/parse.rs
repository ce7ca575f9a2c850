//! Reading decimal numbers from text: the grammar, its errors, and the
//! rounding of literals with more digits than a coefficient holds.
use vstd::prelude::*;

use crate::ascii::{
    all_digits, dec_repr, digits_val, int_repr, is_digit, lemma_dec_repr_digits, lemma_pow10_mono, lemma_pow10_pos,
    pow10,
};
use crate::context::Signals;
use crate::num::{
    fit_wide, fits_at, lemma_quotient_no_fit, lemma_tail_zero, spec_finish, tail_state, wide, wide_add, wide_mul10,
    FitSpec, Fitted, Kind,
};
use crate::round::{RoundingMode, Sign};
use crate::uint::{cap, lemma_limb_cap_pos, valid_width, UInt};
use vstd::string::StringExecFns;

verus! {

/// Why reading a decimal number from text failed.
#[derive(Copy, Clone, Debug, PartialEq, Eq, Structural)]
pub enum ParseError {
    /// The text is empty.
    Empty,
    /// The text is not a decimal literal: a character outside the grammar, a
    /// misplaced sign or point, no digit, or a sign on its own.
    InvalidLiteral,
    /// The number is too large for the target type.
    PosOverflow,
    /// The number is too large (in magnitude, below zero) for the target type.
    NegOverflow,
    /// The exponent is outside the range of a 32-bit signed integer.
    ExponentOverflow,
    /// The text has a minus sign, which an unsigned type cannot hold.
    Signed,
    /// The radix is not ten.
    InvalidRadix,
    /// Another error.
    Unknown,
}

/// The message of each parse error.
pub open spec fn description_text(e: ParseError) -> Seq<char> {
    match e {
        ParseError::Empty => "cannot parse decimal from empty string"@,
        ParseError::InvalidLiteral => "invalid literal found in string"@,
        ParseError::PosOverflow => "number too large to fit in target type"@,
        ParseError::NegOverflow => "number too small to fit in target type"@,
        ParseError::Signed => "number would be signed for unsigned type"@,
        ParseError::InvalidRadix => "radix for decimal must be 10"@,
        ParseError::ExponentOverflow => "exponent is too large to fit in target type"@,
        ParseError::Unknown => "unknown error"@,
    }
}

impl ParseError {
    /// The message of the error.
    pub fn description(&self) -> (r: &'static str)
        ensures
            r@ == description_text(*self),
    {
        match self {
            ParseError::Empty => "cannot parse decimal from empty string",
            ParseError::InvalidLiteral => "invalid literal found in string",
            ParseError::PosOverflow => "number too large to fit in target type",
            ParseError::NegOverflow => "number too small to fit in target type",
            ParseError::Signed => "number would be signed for unsigned type",
            ParseError::InvalidRadix => "radix for decimal must be 10",
            ParseError::ExponentOverflow => "exponent is too large to fit in target type",
            ParseError::Unknown => "unknown error",
        }
    }
}

/// What a database driver reports for each parse error.
pub open spec fn pretty_text(e: ParseError) -> Seq<char> {
    match e {
        ParseError::Empty => "cannot be constructed from an empty string"@,
        ParseError::InvalidLiteral => "string contains invalid characters"@,
        ParseError::PosOverflow => "overflow"@,
        ParseError::NegOverflow => "negative overflow"@,
        ParseError::Signed => "does not support negative values"@,
        ParseError::InvalidRadix => "radix MUST be 10"@,
        ParseError::ExponentOverflow => "exponent overflow"@,
        ParseError::Unknown => "decimal unknown error"@,
    }
}

/// The message a database driver reports for the parse error `e` of the
/// type named `ty`: the library's prefix, the type's name and the error.
pub fn pretty_error_msg(ty: &str, e: ParseError) -> (r: String)
    ensures
        r@ == "(fastnum) "@ + ty@ + " "@ + pretty_text(e),
{
    let msg = match e {
        ParseError::Empty => "cannot be constructed from an empty string",
        ParseError::InvalidLiteral => "string contains invalid characters",
        ParseError::PosOverflow => "overflow",
        ParseError::NegOverflow => "negative overflow",
        ParseError::Signed => "does not support negative values",
        ParseError::InvalidRadix => "radix MUST be 10",
        ParseError::ExponentOverflow => "exponent overflow",
        ParseError::Unknown => "decimal unknown error",
    };
    let mut out = String::from_str("(fastnum) ");
    out.append(ty);
    out.append(" ");
    out.append(msg);
    out
}

/// The exponent marker, `e` or `E`.
pub open spec fn is_marker(c: u8) -> bool {
    c == 101 || c == 69
}

/// A character of the mantissa: a digit, the point `.`, or the digit
/// separator `_`.
pub open spec fn mant_char(c: u8) -> bool {
    is_digit(c) || c == 46 || c == 95
}

/// The index of the first character of `b` at or after `i` that cannot be
/// part of a mantissa (the length of `b` if there is none).
pub open spec fn split_from(b: Seq<u8>, i: int) -> int
    decreases b.len() - i,
{
    if i < 0 || i >= b.len() {
        b.len() as int
    } else if !mant_char(b[i]) {
        i
    } else {
        split_from(b, i + 1)
    }
}

/// The number of digits in `m`.
pub open spec fn digit_count(m: Seq<u8>) -> nat
    decreases m.len(),
{
    if m.len() == 0 {
        0
    } else {
        digit_count(m.drop_last()) + if is_digit(m.last()) { 1nat } else { 0nat }
    }
}

/// The number of points in `m`.
pub open spec fn dot_count(m: Seq<u8>) -> nat
    decreases m.len(),
{
    if m.len() == 0 {
        0
    } else {
        dot_count(m.drop_last()) + if m.last() == 46 { 1nat } else { 0nat }
    }
}

/// The number of digits of `m` after its first point.
pub open spec fn frac_count(m: Seq<u8>) -> nat
    decreases m.len(),
{
    if m.len() == 0 {
        0
    } else {
        frac_count(m.drop_last()) + if is_digit(m.last()) && dot_count(m.drop_last()) > 0 {
            1nat
        } else {
            0nat
        }
    }
}

/// The number that the digits of `m` spell, points and separators skipped.
pub open spec fn mant_value(m: Seq<u8>) -> nat
    decreases m.len(),
{
    if m.len() == 0 {
        0
    } else if is_digit(m.last()) {
        mant_value(m.drop_last()) * 10 + (m.last() - 48) as nat
    } else {
        mant_value(m.drop_last())
    }
}

/// A mantissa: digits, separators and at most one point, with a digit.
pub open spec fn mantissa_ok(m: Seq<u8>) -> bool {
    &&& forall|i: int| 0 <= i < m.len() ==> mant_char(#[trigger] m[i])
    &&& dot_count(m) <= 1
    &&& digit_count(m) >= 1
}

/// Where the digits of an exponent start: after its sign, if it has one.
pub open spec fn exp_digits_from(e: Seq<u8>) -> int {
    if e.len() > 0 && (e[0] == 43 || e[0] == 45) {
        1
    } else {
        0
    }
}

/// An exponent: an optional sign and at least one digit.
pub open spec fn exponent_ok(e: Seq<u8>) -> bool {
    e.len() > exp_digits_from(e) && all_digits(e.subrange(exp_digits_from(e), e.len() as int))
}

/// The value of an exponent.
pub open spec fn exponent_value(e: Seq<u8>) -> int {
    let v = digits_val(e.subrange(exp_digits_from(e), e.len() as int)) as int;
    if e.len() > 0 && e[0] == 45 {
        -v
    } else {
        v
    }
}

/// A number: a mantissa, then optionally an exponent marker and an exponent.
pub open spec fn number_ok(b: Seq<u8>) -> bool {
    let p = split_from(b, 0);
    mantissa_ok(b.take(p)) && (p == b.len() || (is_marker(b[p]) && exponent_ok(b.skip(p + 1))))
}

/// The exponent of a number (zero when it has none).
pub open spec fn number_exponent(b: Seq<u8>) -> int {
    let p = split_from(b, 0);
    if p == b.len() {
        0
    } else {
        exponent_value(b.skip(p + 1))
    }
}

/// The coefficient of a number: the value of the digits of its mantissa.
pub open spec fn number_coeff(b: Seq<u8>) -> nat {
    mant_value(b.take(split_from(b, 0)))
}

/// The scale of a number: its fractional digits less its exponent.
pub open spec fn number_scale(b: Seq<u8>) -> int {
    frac_count(b.take(split_from(b, 0))) - number_exponent(b)
}

/// Whether an exponent is in the range of a 32-bit signed integer.
pub open spec fn exponent_in_range(e: int) -> bool {
    -0x8000_0000 <= e < 0x8000_0000
}

/// An ASCII letter in lower case; other bytes unchanged.
pub open spec fn lower(c: u8) -> u8 {
    if 65 <= c <= 90 {
        (c + 32) as u8
    } else {
        c
    }
}

/// Whether `b` spells the lower-case word `w`, in any case.
pub open spec fn word_is(b: Seq<u8>, w: Seq<u8>) -> bool {
    b.len() == w.len() && forall|i: int| 0 <= i < b.len() ==> lower(#[trigger] b[i]) == w[i]
}

/// `inf` or `infinity`, in any case.
pub open spec fn inf_word(b: Seq<u8>) -> bool {
    word_is(b, seq![105u8, 110, 102]) || word_is(b, seq![105u8, 110, 102, 105, 110, 105, 116, 121])
}

/// `nan`, in any case.
pub open spec fn nan_word(b: Seq<u8>) -> bool {
    word_is(b, seq![110u8, 97, 110])
}

/// A special value: infinity or not a number, without signals.
pub open spec fn special(kind: Kind) -> FitSpec {
    FitSpec { kind, coeff: 0, scale: 0, signals: Signals::spec_empty() }
}

/// What the text `s` reads as, for an unsigned decimal of `n` limbs with the
/// rounding mode `rm`: an optional sign (`+` or `-`), then `inf`,
/// `infinity` or `nan` in any case, or a number: digits with `_` separators
/// and at most one `.`, then optionally `e` or `E` and an exponent with an
/// optional sign. A number reads as its exact value fitted to the
/// coefficient (see `spec_finish`). A minus sign on anything valid is the
/// `Signed` error, after the overflow errors.
pub open spec fn parsed(s: Seq<u8>, n: usize, rm: RoundingMode) -> Result<FitSpec, ParseError> {
    if s.len() == 0 {
        Err(ParseError::Empty)
    } else {
        let neg = s[0] == 45;
        let body = s.skip(if s[0] == 45 || s[0] == 43 { 1 } else { 0 });
        let sign = if neg { Sign::Minus } else { Sign::Plus };
        if inf_word(body) || nan_word(body) {
            if neg {
                Err(ParseError::Signed)
            } else if inf_word(body) {
                Ok(special(Kind::Infinite))
            } else {
                Ok(special(Kind::NaN))
            }
        } else if !number_ok(body) {
            Err(ParseError::InvalidLiteral)
        } else if !exponent_in_range(number_exponent(body)) {
            Err(ParseError::ExponentOverflow)
        } else {
            let f = spec_finish(number_coeff(body), number_scale(body), rm, sign, n);
            if f.kind == Kind::Infinite {
                if neg {
                    Err(ParseError::NegOverflow)
                } else {
                    Err(ParseError::PosOverflow)
                }
            } else if neg {
                Err(ParseError::Signed)
            } else {
                Ok(f)
            }
        }
    }
}

/// The head `w` and tail of the value `c` of the digits read so far: exact
/// (`w == c`) until it reaches `cap(n)`, then every further digit goes to the
/// tail.
pub open spec fn digit_state(c: nat, w: nat, k: nat, rd: nat, sticky: bool, n: usize) -> bool {
    &&& tail_state(c, w, k, rd, sticky)
    &&& rd <= 9
    &&& k == 0 ==> w == c
    &&& k > 0 ==> w >= cap(n)
    &&& w < cap(n) * 10
}

/// The first digit of a tail.
proof fn lemma_tail_start(c: nat, d: nat)
    requires
        d <= 9,
    ensures
        tail_state(c * 10 + d, c, 1, d, false),
{
    assert(pow10(1) == 10) by {
        assert(pow10(0) == 1);
    }
    assert(pow10(0) == 1);
    assert(d / 1 == d);
    assert(d % 1 == 0);
}

/// One more digit at the end of a tail.
proof fn lemma_tail_append(c: nat, w: nat, k: nat, rd: nat, sticky: bool, d: nat)
    requires
        tail_state(c, w, k, rd, sticky),
        k >= 1,
        d <= 9,
    ensures
        tail_state(c * 10 + d, w, k + 1, rd, sticky || d != 0),
{
    let t = (c - w * pow10(k)) as nat;
    let p1 = pow10((k - 1) as nat);
    lemma_pow10_pos((k - 1) as nat);
    assert(pow10(k) == 10 * p1);
    assert(pow10(k + 1) == 10 * pow10(k));
    vstd::arithmetic::div_mod::lemma_fundamental_div_mod(t as int, p1 as int);
    let tl = t % p1;
    assert(t == p1 * rd + tl);
    let t2 = t * 10 + d;
    assert(c * 10 + d - w * pow10(k + 1) == t2) by (nonlinear_arith)
        requires
            t == c - w * pow10(k),
            pow10(k + 1) == 10 * pow10(k),
            t2 == t * 10 + d,
    ;
    assert(t2 < pow10(k + 1)) by (nonlinear_arith)
        requires
            t < pow10(k),
            t2 == t * 10 + d,
            d <= 9,
            pow10(k + 1) == 10 * pow10(k),
    ;
    assert(t2 == pow10(k) * rd + (tl * 10 + d)) by (nonlinear_arith)
        requires
            t == p1 * rd + tl,
            t2 == t * 10 + d,
            pow10(k) == 10 * p1,
    ;
    assert(tl * 10 + d < pow10(k)) by (nonlinear_arith)
        requires
            tl < p1,
            d <= 9,
            pow10(k) == 10 * p1,
    ;
    vstd::arithmetic::div_mod::lemma_fundamental_div_mod_converse(
        t2 as int,
        pow10(k) as int,
        rd as int,
        (tl * 10 + d) as int,
    );
    assert(((k + 1) - 1) as nat == k);
}

/// Adds the digit `d` at the end of the digits read so far.
pub(crate) fn push_digit<const N: usize>(
    lo: UInt<N>,
    hi: UInt<N>,
    k: u64,
    rd: u8,
    sticky: bool,
    d: u8,
    Ghost(c): Ghost<nat>,
) -> (r: (UInt<N>, UInt<N>, u64, u8, bool))
    requires
        digit_state(c, wide(lo@, hi@, N), k as nat, rd as nat, sticky, N),
        d <= 9,
        k < 0xffff_ffff_ffff_ffff,
    ensures
        digit_state(c * 10 + d as nat, wide(r.0@, r.1@, N), r.2 as nat, r.3 as nat, r.4, N),
        r.2 <= k + 1,
{
    lo.width_is_valid();
    let ghost w = wide(lo@, hi@, N);
    proof {
        lo.lemma_bound();
        lemma_limb_cap_pos(N as nat);
        crate::uint::lemma_limb_cap_pos(N as nat);
    }
    if k == 0 && hi.is_zero() {
        proof {
            assert(w == lo@) by (nonlinear_arith)
                requires
                    w == lo@ + cap(N) * hi@,
                    hi@ == 0,
            ;
            assert(cap(N) >= 16);
            assert(w * 10 + 9 < cap(N) * 10) by (nonlinear_arith)
                requires
                    w < cap(N),
            ;
            assert(cap(N) * 10 <= cap(N) * cap(N)) by (nonlinear_arith)
                requires
                    cap(N) >= 16,
            ;
        }
        let (l10, h10) = wide_mul10(&lo, &hi).unwrap();
        let (l2, h2) = wide_add(&l10, &h10, &UInt::<N>::from_u64(d as u64));
        proof {
            lemma_tail_zero(c * 10 + d as nat, wide(l2@, h2@, N));
        }
        (l2, h2, 0, 0, false)
    } else if k == 0 {
        proof {
            if hi@ != 0 {
                assert(w >= cap(N)) by (nonlinear_arith)
                    requires
                        w == lo@ + cap(N) * hi@,
                        hi@ >= 1,
                ;
            }
            lemma_tail_start(c, d as nat);
        }
        (lo, hi, 1, d, false)
    } else {
        proof {
            lemma_tail_append(c, w, k as nat, rd as nat, sticky, d as nat);
        }
        (lo, hi, k + 1, rd, sticky || d != 0)
    }
}

/// The byte `c` in lower case when it is an ASCII letter.
fn lower_byte(c: u8) -> (r: u8)
    ensures
        r == lower(c),
{
    if 65 <= c && c <= 90 {
        c + 32
    } else {
        c
    }
}

/// Whether the bytes of `b` from `start` on spell the word `w` in any case.
fn word_matches(b: &[u8], start: usize, w: &Vec<u8>) -> (r: bool)
    requires
        start <= b@.len(),
    ensures
        r == word_is(b@.skip(start as int), w@),
{
    let ghost body = b@.skip(start as int);
    let len = b.len();
    if len - start != w.len() {
        return false;
    }
    let mut i: usize = 0;
    while i < w.len()
        invariant
            body == b@.skip(start as int),
            body.len() == w@.len(),
            start + w@.len() == b@.len(),
            len == b@.len(),
            i <= w@.len(),
            forall|j: int| 0 <= j < i ==> lower(#[trigger] body[j]) == w@[j],
        decreases w@.len() - i,
    {
        if lower_byte(b[start + i]) != w[i] {
            assert(lower(body[i as int]) != w@[i as int]);
            return false;
        }
        i = i + 1;
    }
    true
}

/// Whether the byte `c` is an ASCII digit.
fn is_digit_byte(c: u8) -> (r: bool)
    ensures
        r == is_digit(c),
{
    48 <= c && c <= 57
}

/// Reads the number in the bytes of `b` from `start` on (a sign already
/// read is `sign`): `InvalidLiteral` when it is not one, `ExponentOverflow`
/// when its exponent is out of range, and its value fitted otherwise.
#[verifier::spinoff_prover]
#[verifier::rlimit(40)]
fn parse_number<const N: usize>(b: &[u8], start: usize, rm: RoundingMode, sign: Sign) -> (r: Result<
    Fitted<N>,
    ParseError,
>)
    requires
        valid_width(N),
        start <= b@.len(),
    ensures
        ({
            let body = b@.skip(start as int);
            if !number_ok(body) {
                r == Err::<Fitted<N>, ParseError>(ParseError::InvalidLiteral)
            } else if !exponent_in_range(number_exponent(body)) {
                r == Err::<Fitted<N>, ParseError>(ParseError::ExponentOverflow)
            } else {
                r matches Ok(f) && f.spec() == spec_finish(number_coeff(body), number_scale(body), rm, sign, N)
            }
        }),
{
    let len = b.len();
    let ghost body = b@.skip(start as int);
    // the mantissa runs up to the first byte that cannot belong to it
    let mut p = start;
    while p < len && (is_digit_byte(b[p]) || b[p] == 46 || b[p] == 95)
        invariant
            start <= p <= len,
            len == b@.len(),
            body == b@.skip(start as int),
            split_from(body, 0) == split_from(body, p - start),
            forall|t: int| start <= t < p ==> mant_char(#[trigger] b@[t]),
        decreases len - p,
    {
        assert(body[p - start] == b@[p as int]);
        p = p + 1;
    }
    proof {
        if p < len {
            assert(body[p - start] == b@[p as int]);
        }
        assert(split_from(body, 0) == p - start);
    }
    let ghost m = b@.subrange(start as int, p as int);
    assert(m =~= body.take(p - start));
    // the digits of the mantissa
    let mut i = start;
    let mut dots: u64 = 0;
    let mut digits: u64 = 0;
    let mut frac: u64 = 0;
    let mut lo = UInt::<N>::zero();
    let mut hi = UInt::<N>::zero();
    let mut k: u64 = 0;
    let mut rd: u8 = 0;
    let mut sticky = false;
    proof {
        assert(b@.subrange(start as int, start as int) =~= Seq::<u8>::empty());
        lemma_limb_cap_pos(N as nat);
        assert(wide(0, 0, N) == 0) by (nonlinear_arith)
            requires
                wide(0, 0, N) == 0 + cap(N) * 0,
        ;
        lemma_tail_zero(0, 0);
    }
    while i < p
        invariant
            start <= i <= p <= len,
            len == b@.len(),
            valid_width(N),
            forall|t: int| start <= t < p ==> mant_char(#[trigger] b@[t]),
            dots as nat == dot_count(b@.subrange(start as int, i as int)),
            digits as nat == digit_count(b@.subrange(start as int, i as int)),
            frac as nat == frac_count(b@.subrange(start as int, i as int)),
            dots <= i - start,
            digits <= i - start,
            frac <= i - start,
            k <= i - start,
            digit_state(mant_value(b@.subrange(start as int, i as int)), wide(lo@, hi@, N), k as nat, rd as nat, sticky, N),
        decreases p - i,
    {
        let c = b[i];
        let ghost pre = b@.subrange(start as int, i as int);
        proof {
            let pre2 = b@.subrange(start as int, i + 1);
            assert(pre2.drop_last() =~= pre);
            assert(pre2.last() == c);
            assert(mant_char(b@[i as int]));
        }
        if c == 46 {
            dots = dots + 1;
        } else if c != 95 {
            digits = digits + 1;
            if dots > 0 {
                frac = frac + 1;
            }
            let (l2, h2, k2, rd2, st2) = push_digit(lo, hi, k, rd, sticky, c - 48, Ghost(mant_value(pre)));
            lo = l2;
            hi = h2;
            k = k2;
            rd = rd2;
            sticky = st2;
        }
        i = i + 1;
    }
    let ghost c = mant_value(m);
    let mant_ok = dots <= 1 && digits >= 1;
    // the exponent, if there is one
    let mut exp_ok = true;
    let mut e_neg = false;
    let mut e_acc: u64 = 0;
    let ghost mut ev: int = 0;
    if p < len {
        let ghost ex = body.skip(p - start + 1);
        assert(ex =~= b@.subrange(p + 1, len as int));
        if b[p] == 101 || b[p] == 69 {
            let mut q = p + 1;
            if q < len && (b[q] == 43 || b[q] == 45) {
                e_neg = b[q] == 45;
                q = q + 1;
            }
            proof {
                assert(exp_digits_from(ex) == q - p - 1);
                assert(ex.subrange(exp_digits_from(ex), ex.len() as int) =~= b@.subrange(q as int, len as int));
                assert(b@.subrange(q as int, q as int) =~= Seq::<u8>::empty());
            }
            let mut j = q;
            while j < len && is_digit_byte(b[j])
                invariant
                    q <= j <= len,
                    len == b@.len(),
                    all_digits(b@.subrange(q as int, j as int)),
                    digits_val(b@.subrange(q as int, j as int)) <= 0x1_0000_0000 ==> e_acc == digits_val(
                        b@.subrange(q as int, j as int),
                    ),
                    digits_val(b@.subrange(q as int, j as int)) > 0x1_0000_0000 ==> e_acc > 0x1_0000_0000,
                    e_acc <= 0xA_0000_0009,
                decreases len - j,
            {
                proof {
                    let s2 = b@.subrange(q as int, j + 1);
                    assert(s2.drop_last() =~= b@.subrange(q as int, j as int));
                    assert(s2.last() == b@[j as int]);
                    assert(all_digits(s2)) by {
                        assert forall|t: int| 0 <= t < s2.len() implies is_digit(#[trigger] s2[t]) by {
                            if t < s2.len() - 1 {
                                assert(s2[t] == b@.subrange(q as int, j as int)[t]);
                            }
                        }
                    }
                }
                if e_acc <= 0x1_0000_0000 {
                    e_acc = e_acc * 10 + (b[j] - 48) as u64;
                }
                j = j + 1;
            }
            proof {
                if j < len {
                    assert(!is_digit(b@.subrange(q as int, len as int)[j - q]));
                } else {
                    assert(b@.subrange(q as int, j as int) =~= b@.subrange(q as int, len as int));
                }
            }
            exp_ok = q < len && j == len;
            proof {
                ev = exponent_value(ex);
            }
        } else {
            exp_ok = false;
        }
    }
    proof {
        assert(b@.subrange(start as int, p as int) =~= m);
    }
    if !(mant_ok && exp_ok) {
        return Err(ParseError::InvalidLiteral);
    }
    let in_range = if e_neg { e_acc <= 0x8000_0000 } else { e_acc < 0x8000_0000 };
    if !in_range {
        return Err(ParseError::ExponentOverflow);
    }
    let e: i64 = if e_neg { -(e_acc as i64) } else { e_acc as i64 };
    proof {
        assert(number_exponent(body) == e);
        assert forall|j: nat| j < k implies !#[trigger] fits_at(c, j, N, rm, sign) by {
            let w = wide(lo@, hi@, N);
            lemma_pow10_mono(j, k as nat);
            assert(c >= cap(N) * pow10(j)) by (nonlinear_arith)
                requires
                    c >= w * pow10(k as nat),
                    w >= cap(N),
                    pow10(j) <= pow10(k as nat),
            ;
            lemma_quotient_no_fit(c, j, N, rm, sign);
        }
    }
    Ok(fit_wide(lo, hi, k, rd, sticky, frac as i128 - e as i128, rm, sign, Ghost(c)))
}

/// The bytes of a word.
fn word(letters: &[u8]) -> (r: Vec<u8>)
    ensures
        r@ == letters@,
{
    let mut v: Vec<u8> = Vec::new();
    let mut i: usize = 0;
    while i < letters.len()
        invariant
            i <= letters@.len(),
            v@ == letters@.take(i as int),
        decreases letters@.len() - i,
    {
        v.push(letters[i]);
        i = i + 1;
        assert(v@ =~= letters@.take(i as int));
    }
    assert(letters@.take(i as int) =~= letters@);
    v
}

/// A special value of the kind `kind`.
fn special_value<const N: usize>(kind: Kind) -> (r: Fitted<N>)
    requires
        valid_width(N),
    ensures
        r.spec() == special(kind),
{
    Fitted { kind, coeff: UInt::<N>::zero(), scale: 0, signals: Signals::empty() }
}

/// Reads the text of bytes `b` as an unsigned decimal of `N` limbs, with the
/// rounding mode `rm` (see `parsed`).
pub fn parse_bytes<const N: usize>(b: &[u8], rm: RoundingMode) -> (r: Result<Fitted<N>, ParseError>)
    requires
        valid_width(N),
    ensures
        match parsed(b@, N, rm) {
            Ok(f) => r matches Ok(g) && g.spec() == f,
            Err(e) => r == Err::<Fitted<N>, ParseError>(e),
        },
{
    let len = b.len();
    if len == 0 {
        return Err(ParseError::Empty);
    }
    let neg = b[0] == 45;
    let start: usize = if b[0] == 45 || b[0] == 43 { 1 } else { 0 };
    let sign = if neg { Sign::Minus } else { Sign::Plus };
    let inf3 = word(&[105u8, 110, 102]);
    let inf8 = word(&[105u8, 110, 102, 105, 110, 105, 116, 121]);
    let nan3 = word(&[110u8, 97, 110]);
    proof {
        assert(inf3@ =~= seq![105u8, 110, 102]);
        assert(inf8@ =~= seq![105u8, 110, 102, 105, 110, 105, 116, 121]);
        assert(nan3@ =~= seq![110u8, 97, 110]);
    }
    let is_inf = word_matches(b, start, &inf3) || word_matches(b, start, &inf8);
    let is_nan = word_matches(b, start, &nan3);
    if is_inf || is_nan {
        if neg {
            Err(ParseError::Signed)
        } else if is_inf {
            Ok(special_value(Kind::Infinite))
        } else {
            Ok(special_value(Kind::NaN))
        }
    } else {
        match parse_number::<N>(b, start, rm, sign) {
            Err(e) => Err(e),
            Ok(f) => match f.kind {
                Kind::Infinite => {
                    if neg {
                        Err(ParseError::NegOverflow)
                    } else {
                        Err(ParseError::PosOverflow)
                    }
                },
                _ => {
                    if neg {
                        Err(ParseError::Signed)
                    } else {
                        Ok(f)
                    }
                },
            },
        }
    }
}

/// Digits appended to a mantissa append to its value, keep its points, and
/// count as fractional once it has a point.
pub proof fn lemma_mantissa_append_digits(x: Seq<u8>, r: Seq<u8>)
    requires
        all_digits(r),
    ensures
        mant_value(x + r) == mant_value(x) * pow10(r.len()) + digits_val(r),
        dot_count(x + r) == dot_count(x),
        digit_count(x + r) == digit_count(x) + r.len(),
        frac_count(x + r) == frac_count(x) + if dot_count(x) > 0 {
            r.len()
        } else {
            0
        },
    decreases r.len(),
{
    if r.len() == 0 {
        assert(x + r =~= x);
        assert(pow10(0) == 1);
        assert(digits_val(r) == 0);
        assert(mant_value(x) * 1 == mant_value(x));
    } else {
        let r1 = r.drop_last();
        assert(all_digits(r1)) by {
            assert forall|i: int| 0 <= i < r1.len() implies is_digit(#[trigger] r1[i]) by {
                assert(r1[i] == r[i]);
            }
        }
        lemma_mantissa_append_digits(x, r1);
        assert((x + r).drop_last() =~= x + r1);
        assert((x + r).last() == r.last());
        assert(is_digit(r[r.len() - 1]));
        let v = mant_value(x);
        let p = pow10(r1.len());
        let y = digits_val(r1);
        assert((v * p + y) * 10 == v * (10 * p) + y * 10) by (nonlinear_arith);
        assert(pow10(r.len()) == 10 * p);
    }
}

/// The split point of a text whose bytes from `i` to `j` are mantissa
/// characters and whose byte `j` is not.
pub proof fn lemma_split_at_marker(b: Seq<u8>, i: int, j: int)
    requires
        0 <= i <= j < b.len(),
        forall|t: int| i <= t < j ==> mant_char(#[trigger] b[t]),
        !mant_char(b[j]),
    ensures
        split_from(b, i) == j,
    decreases j - i,
{
    if i < j {
        lemma_split_at_marker(b, i + 1, j);
    }
}

/// The text of an integer reads as an exponent of that value.
pub proof fn lemma_exponent_text(v: int)
    ensures
        exponent_ok(int_repr(v, false)),
        exponent_value(int_repr(v, false)) == v,
{
    if v < 0 {
        let d = dec_repr((-v) as nat);
        lemma_dec_repr_digits((-v) as nat);
        let e = seq![45u8] + d;
        assert(e[0] == 45u8);
        assert(e.subrange(1, e.len() as int) =~= d);
    } else {
        let d = dec_repr(v as nat);
        lemma_dec_repr_digits(v as nat);
        assert(is_digit(d[0]));
        assert(d.subrange(0, d.len() as int) =~= d);
    }
}

} // verus!
