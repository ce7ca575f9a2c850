//! What the texts of a number read back to: the plain text of an integer,
//! and the engineering and exponential notations, each spell the number's
//! value (rounded where a precision asks for it).
use vstd::prelude::*;

use crate::ascii::{
    all_digits, digits_val, int_repr, is_digit, lemma_padded_len, lemma_padded_val, lemma_pow10_pos,
    lemma_zeros_suffix, pow10, zeros,
};
use crate::format::{
    engineering_digits, engineering_shift, exponential_text, full_scale_text, pads_integer, rounded_to_prec, trim_body,
    with_point,
};
use crate::round::{round_div, RoundingMode, Sign};

verus! {

/// `m * 10^a == c * 10^b`.
pub open spec fn decimal_eq(m: nat, a: int, c: nat, b: int) -> bool {
    if a >= b {
        m * pow10((a - b) as nat) == c
    } else {
        m == c * pow10((b - a) as nat)
    }
}

/// A point and the digits `r`, or nothing when there are none.
pub open spec fn point_part(r: Seq<u8>) -> Seq<u8> {
    if r.len() > 0 {
        seq![46u8] + r
    } else {
        Seq::empty()
    }
}

/// The plain text of an integer (a scale of zero or below) reads back to its
/// value: the digits before the point spell `digits_val(s) * 10^-scale`, and
/// a requested precision adds a point and exactly that many zeros.
pub proof fn law_plain_integer_reads_back(s: Seq<u8>, scale: int, sign: Sign, precision: Option<usize>)
    requires
        all_digits(s),
        s.len() >= 1,
        scale <= 0,
        pads_integer(-scale, precision),
    ensures
        ({
            let t = full_scale_text(s, scale, sign, precision);
            let p: nat = match precision {
                Some(q) => q as nat,
                None => 0,
            };
            let k = if p > 0 {
                t.len() - (p + 1)
            } else {
                t.len() as int
            };
            &&& 0 <= k <= t.len()
            &&& all_digits(t.take(k))
            &&& digits_val(t.take(k)) == digits_val(s) * pow10((-scale) as nat)
            &&& p > 0 ==> t[k] == 46u8 && forall|i: int| k < i < t.len() ==> #[trigger] t[i] == 48u8
        }),
{
    let e = (-scale) as nat;
    let t = full_scale_text(s, scale, sign, precision);
    let body = s + zeros(e);
    lemma_zeros_suffix(s, e);
    let p: nat = match precision {
        Some(q) => q as nat,
        None => 0,
    };
    assert(t == body + crate::format::zero_fraction(precision));
    if p > 0 {
        let k = t.len() - (p + 1);
        assert(t =~= body + (seq![46u8] + zeros(p)));
        assert(k == body.len());
        assert(t.take(k) =~= body);
        assert forall|i: int| k < i < t.len() implies #[trigger] t[i] == 48u8 by {
            assert(t[i] == zeros(p)[i - k - 1]);
        }
    } else {
        assert(crate::format::zero_fraction(precision) =~= Seq::<u8>::empty());
        assert(t =~= body);
        assert(t.take(t.len() as int) =~= body);
    }
}

/// The plain text of a number with fractional digits (a positive scale)
/// reads back to its value rounded half-up (or extended with zeros) to the
/// requested precision, the scale when none is requested: digits, then a
/// point and exactly that many fractional digits (none without a point),
/// which together spell the rounded value in units of the last place.
pub proof fn law_plain_fraction_reads_back(s: Seq<u8>, scale: int, sign: Sign, precision: Option<usize>)
    requires
        all_digits(s),
        s.len() >= 1,
        scale > 0,
    ensures
        ({
            let prec: nat = match precision {
                Some(p) => p as nat,
                None => scale as nat,
            };
            exists|i: Seq<u8>, f: Seq<u8>|
                {
                    &&& full_scale_text(s, scale, sign, precision) == i + point_part(f)
                    &&& all_digits(i)
                    &&& i.len() >= 1
                    &&& all_digits(f)
                    &&& f.len() == prec
                    &&& digits_val(i + f) == rounded_to_prec(digits_val(s), scale as nat, prec, sign)
                }
        }),
{
    let prec: nat = match precision {
        Some(p) => p as nat,
        None => scale as nat,
    };
    let c = digits_val(s);
    let v = rounded_to_prec(c, scale as nat, prec, sign);
    let t = full_scale_text(s, scale, sign, precision);
    if scale < s.len() {
        let d = trim_body(s, scale as nat, prec, sign);
        assert(t == with_point(d, prec));
        let w = (s.len() - scale + prec) as nat;
        if prec < scale {
            let r = round_div(c, (scale - prec) as nat, RoundingMode::HalfUp, sign);
            if r == pow10(w) {
                lemma_one_zeros_digits(w);
                assert(d == seq![49u8] + zeros(w));
            } else {
                lemma_round_bound(s, w, sign);
                lemma_padded_len(r, w);
                lemma_padded_val(r, w);
                lemma_pow10_pos(w);
                vstd::arithmetic::div_mod::lemma_small_mod(r, pow10(w));
                assert(d == crate::ascii::padded(r, w));
            }
            assert(digits_val(d) == v);
        } else {
            lemma_zeros_suffix(s, (prec - scale) as nat);
        }
        assert(all_digits(d) && d.len() >= prec + 1 && digits_val(d) == v);
        let k = d.len() - prec;
        let i = d.take(k);
        let f = d.skip(k);
        assert(i + f =~= d);
        crate::ascii::lemma_all_digits_sub(d, 0, k);
        crate::ascii::lemma_all_digits_sub(d, k, d.len() as int);
        assert(i =~= d.subrange(0, k));
        assert(f =~= d.subrange(k, d.len() as int));
        if prec > 0 {
            assert(point_part(f) =~= seq![46u8] + f);
            assert(t =~= i + point_part(f));
        } else {
            assert(f =~= Seq::<u8>::empty());
            assert(t =~= i + point_part(f));
        }
    } else {
        assert(t == crate::ascii::fixed_point(v, prec));
        reveal(crate::ascii::fixed_point);
        if prec == 0 {
            let i = crate::ascii::dec_repr(v);
            let f = Seq::<u8>::empty();
            crate::ascii::lemma_dec_repr_digits(v);
            assert(i + f =~= i);
            assert(point_part(f) =~= Seq::<u8>::empty());
            assert(t =~= i + point_part(f));
        } else {
            lemma_pow10_pos(prec);
            let hi = v / pow10(prec);
            let lo = v % pow10(prec);
            let i = crate::ascii::dec_repr(hi);
            let f = crate::ascii::padded(lo, prec);
            crate::ascii::lemma_dec_repr_digits(hi);
            lemma_padded_len(lo, prec);
            lemma_padded_val(lo, prec);
            vstd::arithmetic::div_mod::lemma_mod_bound(v as int, pow10(prec) as int);
            vstd::arithmetic::div_mod::lemma_small_mod(lo, pow10(prec));
            crate::ascii::lemma_digits_val_append(i, f);
            vstd::arithmetic::div_mod::lemma_fundamental_div_mod(v as int, pow10(prec) as int);
            assert(digits_val(i + f) == hi * pow10(prec) + lo);
            assert(hi * pow10(prec) + lo == v) by (nonlinear_arith)
                requires
                    v == pow10(prec) * hi + lo,
            ;
            assert(point_part(f) =~= seq![46u8] + f);
            assert(t =~= i + point_part(f));
        }
    }
}

/// The engineering notation of digits `s` of scale `scale` reads back to
/// their value: a leading group of one to three digits, the other digits
/// after a point (if any), and an exponent that is a multiple of three, with
/// `group.rest * 10^exponent == digits_val(s) * 10^-scale`.
pub proof fn law_engineering_reads_back(s: Seq<u8>, scale: int)
    requires
        all_digits(s),
        s.len() >= 1,
    ensures
        exists|g: Seq<u8>, r: Seq<u8>, x: int|
            {
                &&& engineering_digits(s, scale) == g + point_part(r) + seq![101u8] + int_repr(x, false)
                &&& all_digits(g)
                &&& all_digits(r)
                &&& 1 <= g.len() <= 3
                &&& x % 3 == 0
                &&& decimal_eq(digits_val(g + r), x - r.len(), digits_val(s), -scale)
            },
{
    let shift = engineering_shift(s.len() as int, scale);
    let top = s.len() - scale;
    let x = s.len() - scale - shift;
    assert(1 <= shift <= 3);
    assert(x % 3 == 0) by {
        if top % 3 == 0 {
            assert(shift == 3);
            assert((top - 3) % 3 == 0) by {
                vstd::arithmetic::div_mod::lemma_mod_sub_multiples_vanish(top, 3);
            }
        } else {
            assert(shift == top % 3);
            vstd::arithmetic::div_mod::lemma_fundamental_div_mod(top, 3);
            assert(top - top % 3 == 3 * (top / 3));
            vstd::arithmetic::div_mod::lemma_mod_multiples_basic(top / 3, 3);
        }
    }
    if shift >= s.len() {
        let m = (shift - s.len()) as nat;
        let g = s + zeros(m);
        let r = Seq::<u8>::empty();
        lemma_zeros_suffix(s, m);
        assert(g + r =~= g);
        assert(point_part(r) =~= Seq::<u8>::empty());
        assert(engineering_digits(s, scale) =~= g + point_part(r) + seq![101u8] + int_repr(x, false));
        assert(-scale - (x - r.len()) == m);
        assert(pow10(0) == 1);
        if m == 0 {
            assert(digits_val(g) * pow10(0) == digits_val(s)) by (nonlinear_arith)
                requires
                    digits_val(g) == digits_val(s) * pow10(0),
                    pow10(0) == 1,
            ;
        }
        assert(decimal_eq(digits_val(g + r), x - r.len(), digits_val(s), -scale));
    } else {
        let g = s.take(shift);
        let r = s.skip(shift);
        assert(g + r =~= s);
        assert(all_digits(g)) by {
            assert forall|i: int| 0 <= i < g.len() implies is_digit(#[trigger] g[i]) by {
                assert(g[i] == s[i]);
            }
        }
        assert(all_digits(r)) by {
            assert forall|i: int| 0 <= i < r.len() implies is_digit(#[trigger] r[i]) by {
                assert(r[i] == s[i + shift]);
            }
        }
        assert(point_part(r) =~= seq![46u8] + r);
        assert(engineering_digits(s, scale) =~= g + point_part(r) + seq![101u8] + int_repr(x, false));
        assert(x - r.len() == -scale);
        assert(pow10(0) == 1);
        assert(digits_val(s) * pow10(0) == digits_val(s)) by (nonlinear_arith)
            requires
                pow10(0) == 1,
        ;
        assert(decimal_eq(digits_val(g + r), x - r.len(), digits_val(s), -scale));
    }
}

/// The exponential notation of digits `s` whose last digit is worth `10^exp`
/// reads back to their value, rounded half-up to `p + 1` significant digits
/// when a precision `p` asks for fewer than there are: one digit, the others
/// after a point (exactly `p` of them under a precision), `e_symbol` and an
/// exponent `x`, with `mantissa * 10^(x - others) ==` that value.
pub proof fn law_exponential_reads_back(s: Seq<u8>, exp: int, sign: Sign, precision: Option<usize>, e_symbol: u8)
    requires
        all_digits(s),
        s.len() >= 1,
    ensures
        exists|d0: u8, f: Seq<u8>, x: int|
            {
                &&& exponential_text(s, exp, sign, precision, e_symbol) == seq![d0] + point_part(f) + seq![e_symbol]
                    + int_repr(x, true)
                &&& is_digit(d0)
                &&& all_digits(f)
                &&& (precision matches Some(p) ==> f.len() == p)
                &&& match precision {
                    Some(p) => if p + 1 < s.len() {
                        decimal_eq(
                            digits_val(seq![d0] + f),
                            x - f.len(),
                            round_div(digits_val(s), (s.len() - (p + 1)) as nat, RoundingMode::HalfUp, sign),
                            exp + s.len() - (p + 1),
                        )
                    } else {
                        decimal_eq(digits_val(seq![d0] + f), x - f.len(), digits_val(s), exp)
                    },
                    None => decimal_eq(digits_val(seq![d0] + f), x - f.len(), digits_val(s), exp),
                }
            },
{
    let m = crate::format::exp_mantissa(s, precision, sign);
    let extra = crate::format::exp_extra(s, precision);
    let shift = crate::format::exp_shift(s, precision, sign);
    let x = m.len() + exp + shift - 1;
    assert(pow10(0) == 1);
    assert(all_digits(m) && m.len() >= 1) by {
        if crate::format::exp_rounds(s, precision) {
            let p = precision.unwrap();
            let r = crate::format::exp_rounded(s, precision, sign);
            if r == pow10((p + 1) as nat) {
                lemma_one_zeros_digits(p as nat);
            } else {
                lemma_padded_len(r, (p + 1) as nat);
            }
        }
    }
    let d0 = m[0];
    let f = m.skip(1) + zeros(extra);
    assert(m =~= seq![d0] + m.skip(1));
    assert(all_digits(m.skip(1))) by {
        assert forall|i: int| 0 <= i < m.skip(1).len() implies is_digit(#[trigger] m.skip(1)[i]) by {
            assert(m.skip(1)[i] == m[i + 1]);
        }
    }
    lemma_zeros_suffix(m.skip(1), extra);
    lemma_zeros_suffix(m, extra);
    assert(seq![d0] + f =~= m + zeros(extra));
    assert(is_digit(d0));
    if m.len() > 1 || extra > 0 {
        assert(point_part(f) =~= seq![46u8] + f);
        assert(exponential_text(s, exp, sign, precision, e_symbol) =~= seq![d0] + point_part(f) + seq![e_symbol]
            + int_repr(x, true));
    } else {
        assert(f =~= Seq::<u8>::empty());
        assert(point_part(f) =~= Seq::<u8>::empty());
        assert(exponential_text(s, exp, sign, precision, e_symbol) =~= seq![d0] + point_part(f) + seq![e_symbol]
            + int_repr(x, true));
    }
    let v = digits_val(seq![d0] + f);
    assert(v == digits_val(m) * pow10(extra));
    assert(f.len() == m.len() - 1 + extra);
    if crate::format::exp_rounds(s, precision) {
        let p = precision.unwrap();
        let r = round_div(digits_val(s), (s.len() - (p + 1)) as nat, RoundingMode::HalfUp, sign);
        assert(extra == 0);
        assert(pow10(0) == 1);
        assert(v == digits_val(m)) by (nonlinear_arith)
            requires
                v == digits_val(m) * pow10(extra),
                pow10(extra) == 1,
        ;
        if r == pow10((p + 1) as nat) {
            lemma_one_zeros_digits(p as nat);
            assert(m.len() == p + 1);
            assert(digits_val(m) == pow10(p as nat));
            assert(x - f.len() == exp + s.len() - (p + 1) + 1);
            assert(pow10(1) == 10) by {
                reveal_with_fuel(pow10, 2);
            }
            assert(pow10((p + 1) as nat) == 10 * pow10(p as nat)) by {
                reveal_with_fuel(pow10, 2);
            }
            assert(v * pow10(1) == r) by (nonlinear_arith)
                requires
                    v == pow10(p as nat),
                    pow10(1) == 10,
                    r == 10 * pow10(p as nat),
            ;
        } else {
            lemma_padded_len(r, (p + 1) as nat);
            lemma_padded_val(r, (p + 1) as nat);
            lemma_pow10_pos((p + 1) as nat);
            lemma_round_bound(s, (p + 1) as nat, sign);
            vstd::arithmetic::div_mod::lemma_small_mod(r, pow10((p + 1) as nat));
            assert(digits_val(m) == r);
            assert(x - f.len() == exp + s.len() - (p + 1));
            assert(v * pow10(0) == r) by (nonlinear_arith)
                requires
                    v == r,
                    pow10(0) == 1,
            ;
        }
    } else {
        assert(m == s);
        assert(x - f.len() == exp - extra);
        if extra == 0 {
            assert(v * pow10(0) == digits_val(s)) by (nonlinear_arith)
                requires
                    v == digits_val(s) * pow10(extra),
                    extra == 0,
                    pow10(0) == 1,
            ;
        }
    }
    assert(precision matches Some(p) ==> f.len() == p);
}

/// Rounding digits `s` to their first `t` digits gives at most `10^t`.
proof fn lemma_round_bound(s: Seq<u8>, t: nat, sign: Sign)
    requires
        all_digits(s),
        1 <= t < s.len(),
    ensures
        round_div(digits_val(s), (s.len() - t) as nat, RoundingMode::HalfUp, sign) <= pow10(t),
{
    crate::ascii::lemma_split_at(s, t as int);
    crate::ascii::lemma_all_digits_sub(s, 0, t as int);
    assert(s.take(t as int) =~= s.subrange(0, t as int));
    crate::ascii::lemma_digits_val_bound(s.take(t as int));
}

/// A one followed by `n` zeros spells `10^n`.
proof fn lemma_one_zeros_digits(n: nat)
    ensures
        all_digits(seq![49u8] + zeros(n)),
        digits_val(seq![49u8] + zeros(n)) == pow10(n),
        (seq![49u8] + zeros(n)).len() == n + 1,
{
    assert(seq![49u8].drop_last() =~= Seq::<u8>::empty());
    assert(digits_val(Seq::<u8>::empty()) == 0);
    assert(digits_val(seq![49u8]) == 1);
    assert(all_digits(seq![49u8]));
    lemma_zeros_suffix(seq![49u8], n);
}

} // verus!
