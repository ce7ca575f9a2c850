//! Text forms of a decimal number given by its ASCII coefficient digits and
//! its scale: plain, scientific, engineering and exponential notation.
use vstd::prelude::*;

use crate::ascii::{
    all_digits, canonical, digits_val, fixed_point, is_digit, lemma_all_digits_sub, lemma_digits_val_append,
    lemma_digits_val_bound, lemma_digits_val_zero, lemma_fixed_point_small, lemma_fixed_point_split,
    lemma_lead_digit, lemma_padded_digits, lemma_padded_len, lemma_padded_val, lemma_pow10_add,
    lemma_pow10_mono, lemma_pow10_pos, lemma_split_at, lemma_zeros_prefix, lemma_zeros_suffix, padded, pow10,
    push_int, push_zeros, zeros, int_repr,
};
use crate::round::{round_div, round_pair_digits, RoundingMode, Sign};

verus! {

/// Rounds the ASCII digit string `ascii_digits` to its first `prec` digits
/// (half-up), returning whether the rounding carried out of the first digit.
///
/// Without a carry the string becomes the `prec` digits of the rounded value;
/// with a carry it becomes `prec` zeros (the rounded value is `10^prec`).
/// `exp` grows by the number of dropped digits, and by one more on a carry.
/// A string shorter than `prec` is left as it is, without a carry.
#[verifier::spinoff_prover]
#[verifier::rlimit(40)]
pub fn apply_rounding_to_ascii_digits(ascii_digits: &mut Vec<u8>, exp: &mut i128, sign: Sign, prec: usize) -> (carry: bool)
    requires
        all_digits(old(ascii_digits)@),
        1 <= prec,
        prec != old(ascii_digits)@.len(),
        *old(exp) + old(ascii_digits)@.len() < i128::MAX,
    ensures
        old(ascii_digits)@.len() < prec ==> !carry && final(ascii_digits)@ == old(ascii_digits)@ && *final(exp) == *old(
            exp,
        ),
        old(ascii_digits)@.len() > prec ==> ({
            let s = old(ascii_digits)@;
            let r = round_div(digits_val(s), (s.len() - prec) as nat, RoundingMode::HalfUp, sign);
            &&& carry == (r == pow10(prec as nat))
            &&& r <= pow10(prec as nat)
            &&& !carry ==> final(ascii_digits)@ == padded(r, prec as nat)
            &&& carry ==> final(ascii_digits)@ == zeros(prec as nat)
            &&& *final(exp) == *old(exp) + (s.len() - prec) + if carry { 1int } else { 0int }
        }),
{
    let ghost s = ascii_digits@;
    let len = ascii_digits.len();
    if len < prec {
        return false;
    }
    // shift exp to align with new length of digits
    *exp += (len - prec) as i128;

    // true if all digits after the rounding digit are zeros
    let mut trailing_zeros = true;
    let mut j = prec + 1;
    while j < len
        invariant
            prec + 1 <= j <= len,
            len == ascii_digits@.len(),
            ascii_digits@ == s,
            trailing_zeros == (forall|t: int| prec + 1 <= t < j ==> s[t] == 48u8),
        decreases len - j,
    {
        if ascii_digits[j] != 48u8 {
            trailing_zeros = false;
        }
        j = j + 1;
    }

    let sig_digit = ascii_digits[prec - 1] - 48;
    let insig_digit = ascii_digits[prec] - 48;
    let ghost c = digits_val(s);
    let ghost k = (len - prec) as nat;
    let ghost a = s.take(prec - 1);
    proof {
        assert(is_digit(s[prec - 1]));
        assert(is_digit(s[prec as int]));
        lemma_split_at(s, prec as int);
        lemma_split_at(s, prec + 1);
        lemma_all_digits_sub(s, 0, prec as int);
        lemma_split_at(s.take(prec as int), prec - 1);
        assert(s.take(prec as int).take(prec - 1) =~= a);
        assert(s.take(prec as int).skip(prec - 1) =~= seq![s[prec - 1]]);
        assert(seq![s[prec - 1]].drop_last() =~= Seq::<u8>::empty());
        assert(digits_val(Seq::<u8>::empty()) == 0);
        assert(seq![s[prec - 1]].last() == s[prec - 1]);
        assert(digits_val(seq![s[prec - 1]]) == sig_digit);
        lemma_all_digits_sub(s, prec + 1, len as int);
        assert(s.skip(prec + 1) =~= s.subrange(prec + 1, len as int));
        lemma_digits_val_zero(s.skip(prec + 1));
        assert(trailing_zeros == (digits_val(s.skip(prec + 1)) == 0)) by {
            if trailing_zeros {
                assert forall|t: int| 0 <= t < s.skip(prec + 1).len() implies #[trigger] s.skip(prec + 1)[t] == 48u8 by {
                    assert(s.skip(prec + 1)[t] == s[prec + 1 + t]);
                }
            } else {
                let w = choose|t: int| prec + 1 <= t < len && s[t] != 48u8;
                assert(s.skip(prec + 1)[w - prec - 1] == s[w]);
            }
        }
        // the quotient, the rounding digit and the sticky remainder
        let p1 = pow10((k - 1) as nat);
        assert(pow10(k) == 10 * p1);
        lemma_pow10_pos((k - 1) as nat);
        assert(s.take(prec + 1) =~= s.take(prec as int).push(s[prec as int]));
        assert(s.take(prec + 1).drop_last() =~= s.take(prec as int));
        assert(c / p1 == digits_val(s.take(prec as int)) * 10 + insig_digit);
        assert(c / pow10(k) == digits_val(s.take(prec as int))) ;
        assert((c / p1) % 10 == insig_digit as nat);
        assert(c % p1 == digits_val(s.skip(prec + 1)));
        assert(pow10(0) == 1);
        assert(pow10(1) == 10 * pow10(0));
        assert(digits_val(s.take(prec as int)) == digits_val(a) * 10 + sig_digit);
        assert(digits_val(s.take(prec as int)) % 10 == sig_digit as nat);
    }

    let rounded_digit = round_pair_digits((sig_digit, insig_digit), sign, RoundingMode::default_mode(), trailing_zeros);
    let ghost r = round_div(c, k, RoundingMode::HalfUp, sign);
    assert(r == digits_val(a) * 10 + rounded_digit);

    // remove insignificant digits
    ascii_digits.truncate(prec - 1);
    assert(ascii_digits@ =~= a);

    // push rounded value
    if rounded_digit < 10 {
        ascii_digits.push(rounded_digit + 48);
        proof {
            let f = ascii_digits@;
            assert(f.drop_last() =~= a);
            lemma_all_digits_sub(s, 0, prec - 1);
            assert(all_digits(f)) by {
                assert forall|t: int| 0 <= t < f.len() implies is_digit(#[trigger] f[t]) by {
                    if t < f.len() - 1 {
                        assert(f[t] == a[t]);
                    }
                }
            }
            assert(digits_val(f) == r);
            lemma_padded_digits(f);
            lemma_digits_val_bound(f);
        }
        return false;
    }
    // push zero and carry the one
    ascii_digits.push(48u8);
    let ghost c1 = digits_val(a) + 1;
    assert(r == c1 * 10);
    let mut i = prec - 1;
    proof {
        assert(ascii_digits@.take(i as int) =~= s.take(i as int));
        assert(ascii_digits@.skip(i as int) =~= zeros(1));
        assert(s.take(i as int) =~= a);
        assert(pow10(0) == 1);
        assert(pow10(1) == 10 * pow10(0));
    }
    while i > 0
        invariant
            1 <= prec < s.len(),
            s == old(ascii_digits)@,
            all_digits(s),
            i <= prec - 1,
            ascii_digits@.len() == prec,
            ascii_digits@.take(i as int) =~= s.take(i as int),
            ascii_digits@.skip(i as int) =~= zeros((prec - i) as nat),
            r == (digits_val(s.take(i as int)) + 1) * pow10((prec - i) as nat),
            *exp == *old(exp) + (s.len() - prec),
            r == round_div(digits_val(s), (s.len() - prec) as nat, RoundingMode::HalfUp, sign),
        decreases i,
    {
        let jj = i - 1;
        let d = ascii_digits[jj];
        proof {
            assert(ascii_digits@[jj as int] == ascii_digits@.take(i as int)[jj as int]);
            assert(is_digit(s[jj as int]));
            assert(s.take(i as int).drop_last() =~= s.take(jj as int));
            assert(s.take(i as int).last() == s[jj as int]);
            assert(pow10((prec - jj) as nat) == 10 * pow10((prec - i) as nat));
        }
        if d < 57u8 {
            // we've carried the one as far as it will go
            ascii_digits.set(jj, d + 1);
            proof {
                let f = ascii_digits@;
                let head = s.take(jj as int).push((d + 1) as u8);
                assert(f =~= head + zeros((prec - i) as nat));
                lemma_all_digits_sub(s, 0, jj as int);
                assert(all_digits(head)) by {
                    assert forall|t: int| 0 <= t < head.len() implies is_digit(#[trigger] head[t]) by {
                        if t < jj {
                            assert(head[t] == s[t]);
                        }
                    }
                }
                assert(head.drop_last() =~= s.take(jj as int));
                assert(digits_val(head) == digits_val(s.take(i as int)) + 1);
                lemma_digits_val_append(head, zeros((prec - i) as nat));
                lemma_digits_val_zero(zeros((prec - i) as nat));
                assert(all_digits(zeros((prec - i) as nat)));
                assert(all_digits(f)) by {
                    assert forall|t: int| 0 <= t < f.len() implies is_digit(#[trigger] f[t]) by {
                        if t < head.len() {
                            assert(f[t] == head[t]);
                        } else {
                            assert(f[t] == 48u8);
                        }
                    }
                }
                assert(digits_val(f) == r);
                lemma_padded_digits(f);
                lemma_digits_val_bound(f);
            }
            return false;
        }
        // the digit was a 9: set it to zero and carry the one to the next digit
        let ghost before = ascii_digits@;
        ascii_digits.set(jj, 48u8);
        proof {
            assert forall|t: int| 0 <= t < prec - jj implies #[trigger] ascii_digits@.skip(jj as int)[t] == 48u8 by {
                if t > 0 {
                    assert(ascii_digits@.skip(jj as int)[t] == before.skip(i as int)[t - 1]);
                }
            }
            assert(s[jj as int] == 57u8);
            assert(ascii_digits@.take(jj as int) =~= s.take(jj as int));
            assert(ascii_digits@.skip(jj as int) =~= zeros((prec - jj) as nat));
            assert(digits_val(s.take(i as int)) == digits_val(s.take(jj as int)) * 10 + 9);
            let x = digits_val(s.take(jj as int));
            let p = pow10((prec - i) as nat);
            assert((x * 10 + 9 + 1) * p == (x + 1) * (10 * p)) by (nonlinear_arith);
        }
        i = jj;
    }
    *exp += 1;
    proof {
        assert(ascii_digits@ =~= zeros(prec as nat));
        assert(i == 0);
        assert(s.take(i as int) =~= Seq::<u8>::empty());
        assert((prec - i) as nat == prec as nat);
        assert(digits_val(Seq::<u8>::empty()) == 0);
        assert(digits_val(s.take(i as int)) == 0);
        let pp = pow10((prec - i) as nat);
        assert(r == (digits_val(s.take(i as int)) + 1) * pp);
        let dz = digits_val(s.take(i as int));
        assert((dz + 1) * pp == pp) by (nonlinear_arith)
            requires
                dz == 0,
        ;
        assert(r == pow10(prec as nat));
        assert(*exp == *old(exp) + (s.len() - prec) + 1);
    }
    true
}

/// The coefficient `c` of scale `scale` rounded (half-up) or extended with
/// zeros to exactly `prec` fractional digits, as an integer.
pub open spec fn rounded_to_prec(c: nat, scale: nat, prec: nat, sign: Sign) -> nat {
    if prec < scale {
        round_div(c, (scale - prec) as nat, RoundingMode::HalfUp, sign)
    } else {
        c * pow10((prec - scale) as nat)
    }
}

/// The rounding in `rounded_to_prec` carries into a new leading digit.
pub open spec fn rounding_carries(c: nat, len: nat, scale: nat, prec: nat, sign: Sign) -> bool {
    prec < scale && rounded_to_prec(c, scale, prec, sign) == pow10((len - scale + prec) as nat)
}

proof fn lemma_trim_no_carry(s: Seq<u8>, scale: nat, prec: nat, sign: Sign, d: Seq<u8>)
    requires
        canonical(s),
        prec < scale < s.len(),
        ({
            let t = (s.len() - scale + prec) as nat;
            let r = round_div(digits_val(s), (scale - prec) as nat, RoundingMode::HalfUp, sign);
            r <= pow10(t) && r != pow10(t) && d == padded(r, t)
        }),
    ensures
        all_digits(d),
        d.len() == s.len() - scale + prec,
        d.len() - prec == 1 || d[0] != 48u8,
        digits_val(d) == rounded_to_prec(digits_val(s), scale, prec, sign),
{
    let t = (s.len() - scale + prec) as nat;
    let r = round_div(digits_val(s), (scale - prec) as nat, RoundingMode::HalfUp, sign);
    lemma_padded_len(r, t);
    lemma_padded_val(r, t);
    lemma_pow10_pos(t);
    vstd::arithmetic::div_mod::lemma_small_mod(r, pow10(t));
    if s.len() - scale >= 2 {
        // the rounded value keeps the leading digit's magnitude
        assert(s[0] != 48u8);
        lemma_split_at(s, t as int);
        lemma_all_digits_sub(s, 0, t as int);
        assert(s.take(t as int) =~= s.subrange(0, t as int));
        assert(s.take(t as int)[0] == s[0]);
        lemma_lead_digit(s.take(t as int));
        assert(r >= digits_val(s.take(t as int)));
        lemma_lead_digit(d);
    }
}

proof fn lemma_trim_extend(s: Seq<u8>, scale: nat, prec: nat)
    requires
        canonical(s),
        scale < s.len(),
        prec >= scale,
    ensures
        ({
            let m = (prec - scale) as nat;
            let i = s.len() - scale;
            let d = s + zeros(m);
            &&& prec == 0 ==> fixed_point(digits_val(s) * pow10(m), prec) == s
            &&& prec > 0 ==> fixed_point(digits_val(s) * pow10(m), prec) == s.take(i) + seq![46u8] + s.skip(i) + zeros(m)
        }),
{
    let m = (prec - scale) as nat;
    let i = s.len() - scale;
    let d = s + zeros(m);
    lemma_zeros_suffix(s, m);
    if i >= 2 {
        assert(s[0] != 48u8);
        assert(d[0] == s[0]);
    }
    lemma_fixed_point_split(d, prec);
    if prec > 0 {
        assert(d.take(d.len() - prec) =~= s.take(i));
        assert(d.skip(d.len() - prec) =~= s.skip(i) + zeros(m));
        assert(s.take(i) + seq![46u8] + (s.skip(i) + zeros(m)) =~= s.take(i) + seq![46u8] + s.skip(i) + zeros(m));
    } else {
        assert(m == 0);
        assert(d =~= s);
        assert(pow10(0) == 1);
    }
}

/// The digits of `s` (of scale `scale`) rounded or extended to `prec`
/// fractional digits, before the point is placed: the rounded head at its
/// width (a one and zeros when the rounding carries into a new digit), or
/// the digits followed by zeros. Leading zeros of `s` stay.
pub open spec fn trim_body(s: Seq<u8>, scale: nat, prec: nat, sign: Sign) -> Seq<u8> {
    if prec < scale {
        let t = (s.len() - scale + prec) as nat;
        let r = round_div(digits_val(s), (scale - prec) as nat, RoundingMode::HalfUp, sign);
        if r == pow10(t) {
            seq![49u8] + zeros(t)
        } else {
            padded(r, t)
        }
    } else {
        s + zeros((prec - scale) as nat)
    }
}

/// The digits `d` with a point before their last `prec` (none when `prec` is
/// zero).
pub open spec fn with_point(d: Seq<u8>, prec: nat) -> Seq<u8> {
    if prec == 0 {
        d
    } else {
        d.take(d.len() - prec) + seq![46u8] + d.skip(d.len() - prec)
    }
}

/// Writes the digits of a number that has both integer and fractional digits
/// (`scale < digits.len()`) with exactly `prec` fractional digits, rounding
/// half-up when `prec < scale`. The digits keep their leading zeros; for
/// digits without any, the text is the plain text of the rounded value.
#[verifier::spinoff_prover]
#[verifier::rlimit(40)]
pub fn trim_ascii_digits(digits: &mut Vec<u8>, scale: usize, sign: Sign, prec: usize, exp: &mut i128)
    requires
        all_digits(old(digits)@),
        scale < old(digits)@.len(),
        *old(exp) + old(digits)@.len() < i128::MAX,
        old(digits)@.len() + prec + 2 < usize::MAX,
    ensures
        ({
            let s = old(digits)@;
            let c = digits_val(s);
            let carry = rounding_carries(c, s.len(), scale as nat, prec as nat, sign);
            &&& final(digits)@ == with_point(trim_body(s, scale as nat, prec as nat, sign), prec as nat)
            &&& canonical(s) ==> final(digits)@ == fixed_point(rounded_to_prec(c, scale as nat, prec as nat, sign), prec as nat)
            &&& prec >= scale ==> *final(exp) == *old(exp)
            &&& prec < scale ==> *final(exp) == *old(exp) + (scale - prec) + if carry { 1int } else { 0int }
        }),
{
    let ghost s = digits@;
    let ghost c = digits_val(s);
    let ghost r = rounded_to_prec(c, scale as nat, prec as nat, sign);
    let ghost body = trim_body(s, scale as nat, prec as nat, sign);
    let len = digits.len();
    // there are both integer and fractional digits
    let mut integer_digit_count = len - scale;
    if prec < scale {
        let t = integer_digit_count + prec;
        let carry = apply_rounding_to_ascii_digits(digits, exp, sign, t);
        if carry {
            digits.set(0, 49u8);
            integer_digit_count += 1;
            digits.push(48u8);
            proof {
                let d = digits@;
                assert(d =~= seq![49u8] + zeros(t as nat));
                assert(d == body);
                assert(seq![49u8].drop_last() =~= Seq::<u8>::empty());
                assert(digits_val(Seq::<u8>::empty()) == 0);
                assert(digits_val(seq![49u8]) == 1);
                assert(all_digits(seq![49u8]));
                lemma_zeros_suffix(seq![49u8], t as nat);
                assert(digits_val(d) == r);
                assert(d[0] == 49u8);
            }
        } else {
            proof {
                crate::ascii::lemma_padded_len(round_div(c, (scale - prec) as nat, RoundingMode::HalfUp, sign), t as nat);
                assert(digits@ == body);
                if canonical(s) {
                    lemma_trim_no_carry(s, scale as nat, prec as nat, sign, digits@);
                }
            }
        }
    } else {
        proof {
            if canonical(s) {
                lemma_trim_extend(s, scale as nat, prec as nat);
            }
        }
    }
    let ghost before_point = digits@;
    if prec != 0 {
        digits.insert(integer_digit_count, 46u8);
    }
    if scale < prec {
        // precision required beyond scale
        let trailing_zero_count = prec - scale;
        push_zeros(digits, trailing_zero_count);
    }
    proof {
        if prec < scale {
            assert(before_point == body);
            assert(before_point.len() - prec == integer_digit_count);
            if prec != 0 {
                assert(digits@ =~= before_point.take(integer_digit_count as int) + seq![46u8] + before_point.skip(
                    integer_digit_count as int,
                ));
            }
            if canonical(s) {
                lemma_fixed_point_split(before_point, prec as nat);
            }
        } else {
            let m = (prec - scale) as nat;
            let i = integer_digit_count as int;
            assert(body == s + zeros(m));
            if prec != 0 {
                assert(digits@ =~= s.take(i) + seq![46u8] + s.skip(i) + zeros(m));
                assert(body.take(body.len() - prec) =~= s.take(i));
                assert(body.skip(body.len() - prec) =~= s.skip(i) + zeros(m));
            } else {
                assert(digits@ =~= s);
                assert(body =~= s);
            }
        }
    }
}

proof fn lemma_padded_zero(w: nat)
    ensures
        padded(0, w) =~= zeros(w),
{
    assert(all_digits(Seq::<u8>::empty()));
    assert(digits_val(Seq::<u8>::empty()) == 0);
    lemma_zeros_prefix(w, Seq::<u8>::empty());
    assert(zeros(w) + Seq::<u8>::empty() =~= zeros(w));
}

/// `10^prec` written with `prec` fractional digits is a one and zeros.
proof fn lemma_fixed_point_pow10(prec: nat)
    requires
        prec > 0,
    ensures
        fixed_point(pow10(prec), prec) =~= seq![49u8, 46u8] + zeros(prec),
{
    reveal(fixed_point);
    lemma_pow10_pos(prec);
    assert(pow10(prec) / pow10(prec) == 1) by {
        vstd::arithmetic::div_mod::lemma_div_by_self(pow10(prec) as int);
    }
    assert(pow10(prec) % pow10(prec) == 0) by {
        vstd::arithmetic::div_mod::lemma_mod_self_0(pow10(prec) as int);
    }
    lemma_padded_zero(prec);
    assert(crate::ascii::dec_repr(1) =~= seq![49u8]);
}

/// The value of a one followed by `n` zeros.
proof fn lemma_one_zeros(n: nat)
    ensures
        all_digits(seq![49u8] + zeros(n)),
        digits_val(seq![49u8] + zeros(n)) == pow10(n),
{
    assert(seq![49u8].drop_last() =~= Seq::<u8>::empty());
    assert(digits_val(Seq::<u8>::empty()) == 0);
    assert(digits_val(seq![49u8]) == 1);
    assert(all_digits(seq![49u8]));
    lemma_zeros_suffix(seq![49u8], n);
}

proof fn lemma_shift_below(s: Seq<u8>, scale: nat, prec: nat, sign: Sign)
    requires
        all_digits(s),
        prec + s.len() < scale,
    ensures
        prec > 0 ==> fixed_point(rounded_to_prec(digits_val(s), scale, prec, sign), prec) == seq![48u8, 46u8] + zeros(prec),
        prec == 0 ==> fixed_point(rounded_to_prec(digits_val(s), scale, prec, sign), prec) == seq![48u8],
{
    let c = digits_val(s);
    let r = rounded_to_prec(c, scale, prec, sign);
    let k = (scale - prec) as nat;
    lemma_digits_val_bound(s);
    lemma_pow10_mono(s.len() as nat, (k - 1) as nat);
    lemma_pow10_pos((k - 1) as nat);
    assert(pow10(k) == 10 * pow10((k - 1) as nat));
    vstd::arithmetic::div_mod::lemma_basic_div(c as int, pow10(k) as int);
    vstd::arithmetic::div_mod::lemma_basic_div(c as int, pow10((k - 1) as nat) as int);
    assert(r == 0);
    reveal(fixed_point);
    lemma_padded_zero(prec);
    if prec > 0 {
        lemma_pow10_pos(prec);
        lemma_fixed_point_small(0, prec);
    } else {
        assert(crate::ascii::dec_repr(0) =~= seq![48u8]);
    }
}

proof fn lemma_shift_place(
    s: Seq<u8>,
    scale: nat,
    prec: nat,
    sign: Sign,
    carry: bool,
    d: Seq<u8>,
    mid: Seq<u8>,
    lz: nat,
    m: nat,
)
    requires
        all_digits(s),
        s.len() >= 1,
        s.len() <= scale,
        scale - s.len() < prec,
        ({
            let dp = (prec - (scale - s.len())) as nat;
            let r = rounded_to_prec(digits_val(s), scale, prec, sign);
            &&& m == if dp > s.len() { dp - s.len() } else { 0 }
            &&& dp >= s.len() ==> !carry && d == s && mid == s && lz == scale - s.len()
            &&& dp < s.len() ==> {
                &&& carry == (r == pow10(dp))
                &&& r <= pow10(dp)
                &&& !carry ==> d == padded(r, dp) && mid == d && lz == scale - s.len()
                &&& carry ==> d == zeros(dp)
                &&& carry && scale - s.len() > 0 ==> mid == seq![49u8] + d && lz == scale - s.len() - 1
                &&& carry && scale - s.len() == 0 ==> mid == d && lz == 0
            }
        }),
    ensures
        ({
            let r = rounded_to_prec(digits_val(s), scale, prec, sign);
            &&& carry && scale == s.len() ==> fixed_point(r, prec) == seq![49u8, 46u8] + zeros(lz) + mid + zeros(m)
            &&& !(carry && scale == s.len()) ==> fixed_point(r, prec) == seq![48u8, 46u8] + zeros(lz) + mid + zeros(m)
        }),
{
    let c = digits_val(s);
    let r = rounded_to_prec(c, scale, prec, sign);
    let lz0 = (scale - s.len()) as nat;
    let dp = (prec - lz0) as nat;
    if dp < s.len() {
        assert(m == 0);
        assert(zeros(0) =~= Seq::<u8>::empty());
        lemma_pow10_mono(dp, prec);
        if carry {
            lemma_one_zeros(dp);
            if lz0 == 0 {
                lemma_fixed_point_pow10(prec);
                assert(seq![49u8, 46u8] + zeros(lz) + mid + zeros(m) =~= seq![49u8, 46u8] + zeros(prec));
            } else {
                assert(mid =~= seq![49u8] + zeros(dp));
                lemma_zeros_prefix(lz, mid);
                assert(r < pow10(prec)) by {
                    lemma_pow10_mono((dp + 1) as nat, prec);
                    lemma_pow10_pos(dp);
                    assert(pow10((dp + 1) as nat) == 10 * pow10(dp));
                }
                lemma_fixed_point_small(r, prec);
                assert(seq![48u8, 46u8] + zeros(lz) + mid + zeros(m) =~= seq![48u8, 46u8] + (zeros(lz) + mid));
            }
        } else {
            lemma_padded_len(r, dp);
            lemma_padded_val(r, dp);
            lemma_pow10_pos(dp);
            vstd::arithmetic::div_mod::lemma_small_mod(r, pow10(dp));
            lemma_zeros_prefix(lz, mid);
            lemma_fixed_point_small(r, prec);
            assert(seq![48u8, 46u8] + zeros(lz) + mid + zeros(m) =~= seq![48u8, 46u8] + (zeros(lz) + mid));
        }
    } else {
        lemma_zeros_suffix(s, m);
        lemma_digits_val_bound(s + zeros(m));
        lemma_pow10_mono(dp, prec);
        lemma_zeros_prefix(lz, s + zeros(m));
        lemma_fixed_point_small(r, prec);
        assert(seq![48u8, 46u8] + zeros(lz) + mid + zeros(m) =~= seq![48u8, 46u8] + (zeros(lz) + (s + zeros(m))));
    }
}

/// The fractional text of a number below `10^-prec` (`prec` fractional zeros).
fn write_zero_fraction(digits: &mut Vec<u8>, prec: usize)
    requires
        prec + 3 < usize::MAX,
    ensures
        prec > 0 ==> final(digits)@ == seq![48u8, 46u8] + zeros(prec as nat),
        prec == 0 ==> final(digits)@ == seq![48u8],
{
    digits.clear();
    digits.push(48u8);
    if prec > 0 {
        digits.push(46u8);
        push_zeros(digits, prec);
    }
    proof {
        if prec > 0 {
            assert(digits@ =~= seq![48u8, 46u8] + zeros(prec as nat));
        } else {
            assert(digits@ =~= seq![48u8]);
        }
    }
}

/// The fractional text of a number whose first digit is the first one to be
/// dropped: `prec == scale - digits.len()`.
fn round_at_boundary(digits: &mut Vec<u8>, scale: usize, sign: Sign, prec: usize)
    requires
        all_digits(old(digits)@),
        old(digits)@.len() >= 1,
        scale >= old(digits)@.len(),
        prec == scale - old(digits)@.len(),
        prec + 3 < usize::MAX,
    ensures
        final(digits)@ == fixed_point(rounded_to_prec(digits_val(old(digits)@), scale as nat, prec as nat, sign), prec as nat),
{
    let ghost s = digits@;
    let ghost c = digits_val(s);
    let ghost r = rounded_to_prec(c, scale as nat, prec as nat, sign);
    let len = digits.len();
    let leading_zeros = prec;
    let insig_digit = digits[0] - 48;
    let mut trailing_zeros = true;
    let mut j: usize = 1;
    while j < len
        invariant
            1 <= j <= len,
            len == digits@.len(),
            digits@ == s,
            trailing_zeros == (forall|t: int| 1 <= t < j ==> s[t] == 48u8),
        decreases len - j,
    {
        if digits[j] != 48u8 {
            trailing_zeros = false;
        }
        j = j + 1;
    }
    proof {
        assert(is_digit(s[0]));
    }
    let rounded_value = round_pair_digits((0, insig_digit), sign, RoundingMode::default_mode(), trailing_zeros);
    proof {
        lemma_split_at(s, 1);
        let h = s.take(1);
        assert(h.drop_last() =~= Seq::<u8>::empty());
        assert(digits_val(Seq::<u8>::empty()) == 0);
        assert(h.last() == s[0]);
        assert(digits_val(h) == insig_digit);
        lemma_all_digits_sub(s, 1, len as int);
        assert(s.skip(1) =~= s.subrange(1, len as int));
        lemma_digits_val_zero(s.skip(1));
        assert(trailing_zeros == (digits_val(s.skip(1)) == 0)) by {
            if trailing_zeros {
                assert forall|t: int| 0 <= t < s.skip(1).len() implies #[trigger] s.skip(1)[t] == 48u8 by {
                    assert(s.skip(1)[t] == s[1 + t]);
                }
            } else {
                let w = choose|t: int| 1 <= t < len && s[t] != 48u8;
                assert(s.skip(1)[w - 1] == s[w]);
            }
        }
        lemma_digits_val_bound(s);
        lemma_pow10_pos(len as nat);
        vstd::arithmetic::div_mod::lemma_basic_div(c as int, pow10(len as nat) as int);
        vstd::arithmetic::div_mod::lemma_small_mod(insig_digit as nat, 10);
        assert(r == rounded_value);
    }
    digits.clear();
    if leading_zeros != 0 {
        digits.push(48u8);
        digits.push(46u8);
        push_zeros(digits, leading_zeros - 1);
    }
    digits.push(rounded_value + 48);
    proof {
        let dig = seq![(rounded_value + 48) as u8];
        assert(all_digits(dig));
        assert(dig.drop_last() =~= Seq::<u8>::empty());
        assert(digits_val(dig) == r);
        if leading_zeros != 0 {
            lemma_zeros_prefix((leading_zeros - 1) as nat, dig);
            lemma_pow10_mono(1, prec as nat);
            assert(pow10(0) == 1);
            assert(pow10(1) == 10 * pow10(0));
            lemma_fixed_point_small(r, prec as nat);
            assert(digits@ =~= seq![48u8, 46u8] + (zeros((leading_zeros - 1) as nat) + dig));
        } else {
            reveal(fixed_point);
            assert(crate::ascii::dec_repr(r) =~= dig);
            assert(digits@ =~= dig);
        }
    }
}

/// The fractional text of a number with `leading_zeros` zeros after the
/// point followed by its digits, keeping `digit_prec > 0` of them.
fn place_fraction(
    digits: &mut Vec<u8>,
    scale: usize,
    sign: Sign,
    prec: usize,
    leading_zeros: usize,
    digit_prec: usize,
    exp: &mut i128,
)
    requires
        all_digits(old(digits)@),
        old(digits)@.len() >= 1,
        scale >= old(digits)@.len(),
        leading_zeros == scale - old(digits)@.len(),
        digit_prec == prec - leading_zeros,
        prec > leading_zeros,
        *old(exp) + old(digits)@.len() < i128::MAX,
        prec + 3 < usize::MAX,
    ensures
        ({
            let s = old(digits)@;
            let r = rounded_to_prec(digits_val(s), scale as nat, prec as nat, sign);
            &&& final(digits)@ == fixed_point(r, prec as nat)
            &&& prec < scale ==> *final(exp) == *old(exp) + (scale - prec) + if r == pow10(digit_prec as nat) {
                1int
            } else {
                0int
            }
            &&& prec >= scale ==> *final(exp) == *old(exp)
        }),
{
    let ghost s = digits@;
    let ghost c = digits_val(s);
    let ghost r = rounded_to_prec(c, scale as nat, prec as nat, sign);
    let len = digits.len();
    let mut carry = false;
    let mut lz = leading_zeros;
    let trailing_zeros = if digit_prec > len { digit_prec - len } else { 0 };
    if digit_prec < len {
        carry = apply_rounding_to_ascii_digits(digits, exp, sign, digit_prec);
    }
    let ghost d = digits@;
    proof {
        assert((len - digit_prec) as nat == (scale - prec) as nat);
    }
    let mut out: Vec<u8> = Vec::new();
    if carry {
        if lz == 0 {
            out.push(49u8);
            out.push(46u8);
        } else {
            digits.insert(0, 49u8);
            lz = lz - 1;
            out.push(48u8);
            out.push(46u8);
        }
    } else {
        out.push(48u8);
        out.push(46u8);
    }
    push_zeros(&mut out, lz);
    let ghost mid = digits@;
    out.append(digits);
    // add any extra trailing zeros
    push_zeros(&mut out, trailing_zeros);
    *digits = out;
    proof {
        let dp = digit_prec as nat;
        assert(dp == (prec - (scale - s.len())) as nat);
        assert(trailing_zeros == if dp > s.len() { dp - s.len() } else { 0 });
        assert(dp >= s.len() ==> !carry && d == s && mid == s && lz == scale - s.len());
        assert(dp < s.len() ==> carry == (r == pow10(dp)));
        assert(dp < s.len() ==> r <= pow10(dp));
        assert(dp < s.len() && !carry ==> d == padded(r, dp) && mid == d && lz == scale - s.len());
        assert(dp < s.len() && carry ==> d == zeros(dp));
        assert(dp < s.len() && carry && scale - s.len() > 0 ==> mid == seq![49u8] + d && lz == scale - s.len() - 1);
        assert(dp < s.len() && carry && scale - s.len() == 0 ==> mid == d && lz == 0);
        lemma_shift_place(s, scale as nat, prec as nat, sign, carry, d, mid, lz as nat, trailing_zeros as nat);
        if carry && leading_zeros == 0 {
            assert(digits@ =~= seq![49u8, 46u8] + zeros(lz as nat) + mid + zeros(trailing_zeros as nat));
        } else {
            assert(digits@ =~= seq![48u8, 46u8] + zeros(lz as nat) + mid + zeros(trailing_zeros as nat));
        }
    }
}

/// Writes a number that has no integer digits (`scale >= digits.len()`) with
/// exactly `prec` fractional digits, rounding half-up when `prec < scale`.
pub fn shift_or_trim_fractional_digits(digits: &mut Vec<u8>, scale: usize, sign: Sign, prec: usize, exp: &mut i128)
    requires
        all_digits(old(digits)@),
        old(digits)@.len() >= 1,
        scale >= old(digits)@.len(),
        *old(exp) + old(digits)@.len() < i128::MAX,
        prec + 3 < usize::MAX,
    ensures
        ({
            let s = old(digits)@;
            let c = digits_val(s);
            let lz = scale - s.len();
            let r = rounded_to_prec(c, scale as nat, prec as nat, sign);
            &&& final(digits)@ == fixed_point(r, prec as nat)
            &&& lz < prec < scale ==> *final(exp) == *old(exp) + (scale - prec) + if r == pow10((prec - lz) as nat) {
                1int
            } else {
                0int
            }
            &&& !(lz < prec < scale) ==> *final(exp) == *old(exp)
        }),
{
    // there are no integer digits
    let leading_zeros = scale - digits.len();
    if prec < leading_zeros {
        proof {
            lemma_shift_below(digits@, scale as nat, prec as nat, sign);
        }
        write_zero_fraction(digits, prec);
    } else if prec == leading_zeros {
        // precision is at the decimal digit boundary, round one value
        round_at_boundary(digits, scale, sign, prec);
    } else {
        place_fraction(digits, scale, sign, prec, leading_zeros, prec - leading_zeros, exp);
    }
}

/// Largest number of zeros written out in full after an integer.
pub const FMT_MAX_INTEGER_PADDING: usize = 1000;

/// Beyond this many zeros between the point and the first significant digit,
/// a number is written in exponential form.
pub const EXPONENTIAL_FORMAT_LEADING_ZERO_THRESHOLD: u64 = 5;

/// Beyond this many zeros after the last significant digit, an integer is
/// written in exponential form.
pub const EXPONENTIAL_FORMAT_TRAILING_ZERO_THRESHOLD: u64 = 15;

/// Whether `zero_right_pad_integer_ascii_digits` writes the zeros of an integer with
/// `e` trailing zeros out in full.
pub open spec fn pads_integer(e: int, precision: Option<usize>) -> bool {
    let p: int = match precision {
        Some(p) => p as int,
        None => 0,
    };
    &&& e + p <= FMT_MAX_INTEGER_PADDING
    &&& !(precision is None && e > 20)
}

/// The fractional part that a requested precision adds after an integer:
/// nothing, or a point and that many zeros.
pub open spec fn zero_fraction(precision: Option<usize>) -> Seq<u8> {
    match precision {
        Some(p) => if p > 0 {
            seq![46u8] + zeros(p as nat)
        } else {
            Seq::empty()
        },
        None => Seq::empty(),
    }
}

/// Fills in the trailing zeros of an integer with `exp` trailing zeros (and
/// the point and fractional zeros that `precision` asks for), setting `exp`
/// to zero; leaves everything as it is when there would be too many zeros.
pub fn zero_right_pad_integer_ascii_digits(digits: &mut Vec<u8>, exp: &mut i128, precision: Option<usize>)
    requires
        *old(exp) >= 0,
    ensures
        pads_integer(*old(exp) as int, precision) ==> final(digits)@ == old(digits)@ + zeros(*old(exp) as nat)
            + zero_fraction(precision) && *final(exp) == 0,
        !pads_integer(*old(exp) as int, precision) ==> final(digits)@ == old(digits)@ && *final(exp) == *old(
            exp,
        ),
{
    if *exp > usize::MAX as i128 {
        return;
    }
    let trailing_zero_count = *exp as usize;
    let extra = match precision {
        Some(p) => p,
        None => 0,
    };
    let total_additional_zeros = trailing_zero_count.saturating_add(extra);
    if total_additional_zeros > FMT_MAX_INTEGER_PADDING {
        return;
    }
    // requested 'prec' digits of precision after decimal point
    match precision {
        None => {
            if trailing_zero_count > 20 {
                return;
            }
            push_zeros(digits, trailing_zero_count);
            *exp = 0;
            assert(zero_fraction(precision) =~= Seq::<u8>::empty());
        },
        Some(prec) => {
            push_zeros(digits, trailing_zero_count);
            if prec > 0 {
                digits.push(46u8);
                push_zeros(digits, prec);
            }
            *exp = 0;
        },
    }
}

/// Plain (non-exponential) text of a coefficient and scale: `(non_negative, text)`.
pub open spec fn full_scale_text(s: Seq<u8>, scale: int, sign: Sign, precision: Option<usize>) -> Seq<u8> {
    if scale <= 0 {
        let e = -scale;
        if pads_integer(e, precision) {
            s + zeros(e as nat) + zero_fraction(precision)
        } else if e != 0 {
            s + seq![101u8] + int_repr(e, true)
        } else {
            s
        }
    } else {
        let prec: nat = match precision {
            Some(p) => p as nat,
            None => scale as nat,
        };
        if scale < s.len() {
            with_point(trim_body(s, scale as nat, prec, sign), prec)
        } else {
            fixed_point(rounded_to_prec(digits_val(s), scale as nat, prec, sign), prec)
        }
    }
}

/// Writes the coefficient digits with the decimal point at its place, with
/// the requested precision; whether the number is non-negative is returned
/// beside the text.
pub fn format_full_scale(digits: Vec<u8>, scale: i16, sign: Sign, precision: Option<usize>) -> (r: (bool, Vec<u8>))
    requires
        all_digits(digits@),
        digits@.len() >= 1,
        digits@.len() <= isize::MAX,
        match precision {
            Some(p) => p + digits@.len() + 3 < usize::MAX,
            None => true,
        },
    ensures
        r.0 == (sign == Sign::Plus),
        r.1@ == full_scale_text(digits@, scale as int, sign, precision),
{
    let mut digits = digits;
    let mut exp: i128 = -(scale as i128);
    if scale <= 0 {
        // formatting an integer value (add trailing zeros to the right)
        zero_right_pad_integer_ascii_digits(&mut digits, &mut exp, precision);
    } else {
        let scale = scale as usize;
        // no precision behaves the same as precision matching scale
        let prec = match precision {
            Some(p) => p,
            None => scale,
        };
        if scale < digits.len() {
            // format both integer and fractional digits (always 'trim' to precision)
            trim_ascii_digits(&mut digits, scale, sign, prec, &mut exp);
        } else {
            // format only fractional digits
            shift_or_trim_fractional_digits(&mut digits, scale, sign, prec, &mut exp);
        }
        // never print exp in this branch
        exp = 0;
    }
    let mut buf = digits;
    // add exp part to buffer (if not zero)
    if exp != 0 {
        buf.push(101u8);
        push_int(&mut buf, exp, true);
    }
    let non_negative = match sign {
        Sign::Plus => true,
        Sign::Minus => false,
    };
    (non_negative, buf)
}

/// Text of an integer with many trailing zeros: its digits, `e_symbol` and the
/// signed exponent `-scale`.
pub fn format_dotless_exponential(digits: Vec<u8>, scale: i16, sign: Sign, e_symbol: u8) -> (r: (bool, Vec<u8>))
    requires
        scale <= 0,
    ensures
        r.0 == (sign == Sign::Plus),
        r.1@ == digits@ + seq![e_symbol] + int_repr(-scale, true),
{
    let mut digits = digits;
    digits.push(e_symbol);
    push_int(&mut digits, -(scale as i128), true);
    let non_negative = match sign {
        Sign::Plus => true,
        Sign::Minus => false,
    };
    (non_negative, digits)
}

/// Whether a requested precision rounds the mantissa digits `s`.
pub open spec fn exp_rounds(s: Seq<u8>, precision: Option<usize>) -> bool {
    match precision {
        Some(p) => p + 1 < s.len(),
        None => false,
    }
}

/// The rounded value of the mantissa when `exp_rounds` holds.
pub open spec fn exp_rounded(s: Seq<u8>, precision: Option<usize>, sign: Sign) -> nat {
    let p = precision.unwrap();
    round_div(digits_val(s), (s.len() - (p + 1)) as nat, RoundingMode::HalfUp, sign)
}

/// The mantissa digits in exponential notation, after rounding to the
/// requested precision.
pub open spec fn exp_mantissa(s: Seq<u8>, precision: Option<usize>, sign: Sign) -> Seq<u8> {
    if exp_rounds(s, precision) {
        let p = precision.unwrap();
        let r = exp_rounded(s, precision, sign);
        if r == pow10((p + 1) as nat) {
            seq![49u8] + zeros(p as nat)
        } else {
            padded(r, (p + 1) as nat)
        }
    } else {
        s
    }
}

/// How much rounding the mantissa raises the exponent of its last digit.
pub open spec fn exp_shift(s: Seq<u8>, precision: Option<usize>, sign: Sign) -> int {
    if exp_rounds(s, precision) {
        let p = precision.unwrap();
        (s.len() - (p + 1)) + if exp_rounded(s, precision, sign) == pow10((p + 1) as nat) {
            1int
        } else {
            0int
        }
    } else {
        0
    }
}

/// The zeros that a precision beyond the available digits adds.
pub open spec fn exp_extra(s: Seq<u8>, precision: Option<usize>) -> nat {
    match precision {
        Some(p) => if p + 1 > s.len() {
            (p + 1 - s.len()) as nat
        } else {
            0
        },
        None => 0,
    }
}

/// Exponential notation of the digits `s` whose last digit is worth `10^exp`:
/// one digit, a point and the others (when there are others), zeros up to the
/// precision, `e_symbol` and the signed exponent of the first digit.
pub open spec fn exponential_text(s: Seq<u8>, exp: int, sign: Sign, precision: Option<usize>, e_symbol: u8) -> Seq<u8> {
    let m = exp_mantissa(s, precision, sign);
    let extra = exp_extra(s, precision);
    let point = if m.len() > 1 || extra > 0 {
        seq![46u8] + m.skip(1)
    } else {
        Seq::empty()
    };
    seq![m[0]] + point + zeros(extra) + seq![e_symbol] + int_repr(m.len() + exp + exp_shift(s, precision, sign) - 1, true)
}

/// Writes the big-endian digits `digits`, whose last digit is worth
/// `10^exp`, in exponential notation.
#[verifier::spinoff_prover]
#[verifier::rlimit(40)]
pub fn format_exponential_be_ascii_digits(
    digits: Vec<u8>,
    exp: i128,
    sign: Sign,
    precision: Option<usize>,
    e_symbol: u8,
) -> (r: (bool, Vec<u8>))
    requires
        all_digits(digits@),
        digits@.len() >= 1,
        -0x1_0000_0000_0000_0000 < exp < 0x1_0000_0000_0000_0000,
        match precision {
            Some(p) => p + 3 < usize::MAX,
            None => true,
        },
    ensures
        r.0 == (sign == Sign::Plus),
        r.1@ == exponential_text(digits@, exp as int, sign, precision, e_symbol),
{
    let ghost s = digits@;
    let mut digits = digits;
    let mut exp = exp;
    // how many zeros to pad at the end of the decimal
    let mut extra_trailing_zero_count: usize = 0;
    if let Some(prec) = precision {
        // 'prec' is the number of digits after the decimal point
        let total_prec = prec + 1;
        let digit_count = digits.len();
        if total_prec < digit_count {
            // round to smaller precision
            if apply_rounding_to_ascii_digits(&mut digits, &mut exp, sign, total_prec) {
                digits.set(0, 49u8);
                proof {
                    assert(digits@ =~= seq![49u8] + zeros(prec as nat));
                }
            }
        } else if total_prec > digit_count {
            // increase number of zeros to add to end of digits
            extra_trailing_zero_count = total_prec - digit_count;
        }
    }
    let ghost m = digits@;
    proof {
        assert(m == exp_mantissa(s, precision, sign));
        assert(m.len() >= 1) by {
            if exp_rounds(s, precision) {
                crate::ascii::lemma_padded_len(exp_rounded(s, precision, sign), (precision.unwrap() + 1) as nat);
            }
        }
    }
    let needs_decimal_point = digits.len() > 1 || extra_trailing_zero_count > 0;
    let exponent = digits.len() as i128 + exp - 1;
    let mut abs_int = digits;
    if needs_decimal_point {
        // only add decimal point if there is more than 1 decimal digit
        abs_int.insert(1, 46u8);
    }
    push_zeros(&mut abs_int, extra_trailing_zero_count);
    // always print exponent in exponential mode
    abs_int.push(e_symbol);
    push_int(&mut abs_int, exponent, true);
    proof {
        if needs_decimal_point {
            assert(m.insert(1, 46u8) =~= seq![m[0]] + (seq![46u8] + m.skip(1)));
        } else {
            assert(m =~= seq![m[0]]);
        }
        assert(abs_int@ =~= exponential_text(s, exp as int - exp_shift(s, precision, sign), sign, precision, e_symbol));
    }
    let non_negative = match sign {
        Sign::Plus => true,
        Sign::Minus => false,
    };
    (non_negative, abs_int)
}

/// Exponential notation of a coefficient and scale.
pub fn format_exponential(digits: Vec<u8>, scale: i16, sign: Sign, precision: Option<usize>, e_symbol: u8) -> (r: (
    bool,
    Vec<u8>,
))
    requires
        all_digits(digits@),
        digits@.len() >= 1,
        match precision {
            Some(p) => p + 3 < usize::MAX,
            None => true,
        },
    ensures
        r.0 == (sign == Sign::Plus),
        r.1@ == exponential_text(digits@, -scale, sign, precision, e_symbol),
{
    let exp = -(scale as i128);
    format_exponential_be_ascii_digits(digits, exp, sign, precision, e_symbol)
}

/// The number of zeros between the point and the first significant digit.
pub open spec fn leading_zero_count(len: nat, scale: int) -> int {
    if scale >= len {
        scale - len
    } else {
        0
    }
}

/// The number of zeros after the last significant digit of an integer, or
/// zero when a precision is requested.
pub open spec fn trailing_zero_count(scale: int, precision: Option<usize>) -> int {
    if precision is Some || scale > 0 || scale == i16::MIN {
        0
    } else {
        -scale
    }
}

/// Text of a number given by its coefficient digits, scale and sign, as
/// `Display` writes it: exponential notation (with `E`) when the point lies
/// far to the left of the digits, dotless exponential notation (with `e`)
/// for integers with many trailing zeros, plain notation otherwise.
pub open spec fn display_text(s: Seq<u8>, scale: int, sign: Sign, precision: Option<usize>) -> Seq<u8> {
    if EXPONENTIAL_FORMAT_LEADING_ZERO_THRESHOLD < leading_zero_count(s.len(), scale) {
        exponential_text(s, -scale, sign, precision, 69u8)
    } else if EXPONENTIAL_FORMAT_TRAILING_ZERO_THRESHOLD < trailing_zero_count(scale, precision) {
        s + seq![101u8] + int_repr(-scale, true)
    } else {
        full_scale_text(s, scale, sign, precision)
    }
}

/// Writes a number given by its coefficient digits, scale and sign: returns
/// whether it is non-negative and the text without the sign.
pub fn format(digits: Vec<u8>, scale: i16, sign: Sign, precision: Option<usize>) -> (r: (bool, Vec<u8>))
    requires
        all_digits(digits@),
        digits@.len() >= 1,
        digits@.len() <= isize::MAX,
        match precision {
            Some(p) => p + digits@.len() + 3 < usize::MAX,
            None => true,
        },
    ensures
        r.0 == (sign == Sign::Plus),
        r.1@ == display_text(digits@, scale as int, sign, precision),
{
    let len = digits.len() as u64;
    // number of zeros between the most significant digit and decimal point
    let leading_zero_count: u64 = if scale >= 0 && scale as u64 >= len {
        scale as u64 - len
    } else {
        0
    };
    // number of zeros between last significant digit and decimal point
    let trailing_zero_count: Option<u64> = if scale <= 0 && scale > i16::MIN {
        Some((-scale) as u64)
    } else {
        None
    };
    // this ignores scientific formatting if precision is requested
    let trailing_zeros: u64 = match precision {
        Some(_) => 0,
        None => match trailing_zero_count {
            Some(t) => t,
            None => 0,
        },
    };
    // use exponential form if the decimal point is outside
    // the upper and lower thresholds of the decimal
    if EXPONENTIAL_FORMAT_LEADING_ZERO_THRESHOLD < leading_zero_count {
        format_exponential(digits, scale, sign, precision, 69u8)
    } else if EXPONENTIAL_FORMAT_TRAILING_ZERO_THRESHOLD < trailing_zeros {
        // non-scientific notation
        format_dotless_exponential(digits, scale, sign, 101u8)
    } else {
        format_full_scale(digits, scale, sign, precision)
    }
}

/// Writes the digits `digits` of scale `scale` in scientific notation: the
/// first digit, a point and the rest (if any), `e` and the exponent.
pub fn write_scientific_notation(digits: &Vec<u8>, scale: i16, w: &mut Vec<u8>)
    requires
        1 <= digits@.len() <= isize::MAX,
    ensures
        final(w)@ == old(w)@ + scientific_digits(digits@, scale as int),
{
    let ghost s = digits@;
    let ghost w0 = w@;
    w.push(digits[0]);
    let len = digits.len();
    if len > 1 {
        w.push(46u8);
        let mut i: usize = 1;
        while i < len
            invariant
                1 <= i <= len,
                len == s.len(),
                digits@ == s,
                w@ == w0 + seq![s[0]] + seq![46u8] + s.subrange(1, i as int),
            decreases len - i,
        {
            w.push(digits[i]);
            i = i + 1;
            assert(s.subrange(1, i as int) =~= s.subrange(1, (i - 1) as int).push(s[i - 1]));
        }
        assert(s.subrange(1, len as int) =~= s.skip(1));
    }
    w.push(101u8);
    push_int(w, (len as i128 - 1) - scale as i128, false);
    proof {
        if len > 1 {
            assert(w@ =~= w0 + seq![s[0]] + (seq![46u8] + s.skip(1)) + seq![101u8] + int_repr((s.len() - 1) - scale, false));
        } else {
            assert(w@ =~= w0 + seq![s[0]] + Seq::<u8>::empty() + seq![101u8] + int_repr((s.len() - 1) - scale, false));
        }
    }
}

/// The digits `s` of scale `scale` in scientific notation: the first digit,
/// a point and the others (if any), `e` and the exponent of the first digit.
pub open spec fn scientific_digits(s: Seq<u8>, scale: int) -> Seq<u8> {
    let point = if s.len() > 1 {
        seq![46u8] + s.skip(1)
    } else {
        Seq::empty()
    };
    seq![s[0]] + point + seq![101u8] + int_repr((s.len() - 1) - scale, false)
}

/// The digits `s` of scale `scale` in engineering notation: a leading group
/// of one to three digits (padded with zeros when there are fewer digits), a
/// point and the rest (if any), `e` and an exponent that is a multiple of
/// three.
pub open spec fn engineering_digits(s: Seq<u8>, scale: int) -> Seq<u8> {
    let shift = engineering_shift(s.len() as int, scale);
    let exp = s.len() - scale - shift;
    if shift >= s.len() {
        s + zeros((shift - s.len()) as nat) + seq![101u8] + int_repr(exp, false)
    } else {
        s.take(shift) + seq![46u8] + s.skip(shift) + seq![101u8] + int_repr(exp, false)
    }
}

/// The digits of the leading group in engineering notation: one, two or three.
pub open spec fn engineering_shift(len: int, scale: int) -> int {
    let top = len - scale;
    if top % 3 == 0 {
        3
    } else {
        top % 3
    }
}

/// Writes the digits `digits` of scale `scale` in engineering notation: a
/// leading group of one to three digits (padded with zeros when there are
/// fewer digits), a point and the rest (if any), `e` and an exponent that is a
/// multiple of three.
pub fn write_engineering_notation(digits: &Vec<u8>, scale: i16, out: &mut Vec<u8>)
    requires
        1 <= digits@.len() <= isize::MAX,
    ensures
        (digits@.len() - scale - engineering_shift(digits@.len() as int, scale as int)) % 3 == 0,
        final(out)@ == old(out)@ + engineering_digits(digits@, scale as int),
{
    let ghost s = digits@;
    let ghost o0 = out@;
    let digit_count = digits.len();
    let top_digit_exponent: i128 = digit_count as i128 - scale as i128;
    // the remainder of the top digit's exponent modulo three, taken from a
    // non-negative multiple-of-three offset
    let m = ((top_digit_exponent + 99999) as u64 % 3) as usize;
    let shift_amount: usize = if m == 0 { 3 } else { m };
    proof {
        assert(((top_digit_exponent + 99999) as int) % 3 == (top_digit_exponent as int) % 3) by {
            vstd::arithmetic::div_mod::lemma_mod_add_multiples_vanish(top_digit_exponent as int, 3);
            assert(99999 == 3 * 33333);
            vstd::arithmetic::div_mod::lemma_add_mod_noop(top_digit_exponent as int, 99999, 3);
        }
    }
    let exp = top_digit_exponent - shift_amount as i128;
    // handle adding zero padding
    if shift_amount >= digit_count {
        let padding_zero_count = shift_amount - digit_count;
        let mut i: usize = 0;
        while i < digit_count
            invariant
                i <= digit_count,
                digit_count == s.len(),
                digits@ == s,
                out@ == o0 + s.subrange(0, i as int),
            decreases digit_count - i,
        {
            out.push(digits[i]);
            i = i + 1;
            assert(s.subrange(0, i as int) =~= s.subrange(0, (i - 1) as int).push(s[i - 1]));
        }
        assert(s.subrange(0, digit_count as int) =~= s);
        push_zeros(out, padding_zero_count);
        out.push(101u8);
        push_int(out, exp as i128, false);
        return;
    }
    let mut i: usize = 0;
    while i < digit_count
        invariant
            i <= digit_count,
            shift_amount < digit_count,
            digit_count == s.len(),
            digits@ == s,
            i <= shift_amount ==> out@ == o0 + s.subrange(0, i as int),
            i > shift_amount ==> out@ == o0 + s.take(shift_amount as int) + seq![46u8] + s.subrange(
                shift_amount as int,
                i as int,
            ),
        decreases digit_count - i,
    {
        if i == shift_amount {
            out.push(46u8);
            assert(s.subrange(0, i as int) =~= s.take(shift_amount as int));
        }
        out.push(digits[i]);
        i = i + 1;
        proof {
            if i <= shift_amount {
                assert(s.subrange(0, i as int) =~= s.subrange(0, (i - 1) as int).push(s[i - 1]));
            } else if i - 1 == shift_amount {
                assert(s.subrange(shift_amount as int, i as int) =~= seq![s[i - 1]]);
            } else {
                assert(s.subrange(shift_amount as int, i as int) =~= s.subrange(shift_amount as int, (i - 1) as int).push(
                    s[i - 1],
                ));
            }
        }
    }
    assert(s.subrange(shift_amount as int, digit_count as int) =~= s.skip(shift_amount as int));
    out.push(101u8);
    push_int(out, exp as i128, false);
}

} // verus!
