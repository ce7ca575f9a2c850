//! Rounding a big exact coefficient to the width and scale range of a
//! decimal: the one place where every operation's result is made to fit.
use vstd::prelude::*;

use crate::ascii::{lemma_pow10_add, lemma_pow10_mono, lemma_pow10_pos, pow10};
use crate::context::Signals;
use crate::powers::{
    checked_power_of_ten, decimal_digits, lemma_max_power_of_ten, lemma_pow_nat_ten, max_power_of_ten_exec,
    unchecked_power_of_ten,
};
use crate::decimal::aligned;
use crate::round::{round_div, round_pair_digits, spec_round_up, RoundingMode, Sign};
use crate::uint::{cap, limb_base, limb_cap, lemma_limb_cap_pos, max_power_of_ten, num_digits, uint_max, valid_width, UInt};

verus! {

/// `c` with its last `k` digits dropped and rounded: the quotient, the
/// rounding decision and whether non-zero digits were dropped.
pub fn split_round<const N: usize>(c: &UInt<N>, k: u32, rm: RoundingMode, sign: Sign) -> (r: (UInt<N>, bool))
    ensures
        r.0@ == round_div(c@, k as nat, rm, sign),
        r.1 == (c@ % pow10(k as nat) != 0),
{
    c.width_is_valid();
    proof {
        c.lemma_bound();
        lemma_limb_cap_pos(N as nat);
    }
    if k == 0 {
        proof {
            assert(pow10(0) == 1);
        }
        return (*c, false);
    }
    let ten = UInt::<N>::from_u64(10);
    let (q, rd, sticky) = match checked_power_of_ten::<N>(k - 1) {
        Some(p) => {
            proof {
                lemma_pow10_pos((k - 1) as nat);
            }
            let q1 = c.checked_div(&p).unwrap();
            let r1 = c.checked_rem(&p).unwrap();
            let q = q1.checked_div(&ten).unwrap();
            let rd = q1.checked_rem(&ten).unwrap();
            (q, rd, !r1.is_zero())
        },
        None => (UInt::<N>::zero(), UInt::<N>::zero(), !c.is_zero()),
    };
    let ghost p1 = pow10((k - 1) as nat);
    proof {
        lemma_pow10_pos((k - 1) as nat);
        assert(pow10(k as nat) == p1 * 10);
        vstd::arithmetic::div_mod::lemma_div_denominator(c@ as int, p1 as int, 10);
        vstd::arithmetic::div_mod::lemma_mod_breakdown(c@ as int, p1 as int, 10);
        if !(p1 < cap(N)) {
            vstd::arithmetic::div_mod::lemma_basic_div(c@ as int, p1 as int);
            vstd::arithmetic::div_mod::lemma_small_mod(c@, p1);
            vstd::arithmetic::div_mod::lemma_basic_div(c@ as int, (p1 * 10) as int);
        }
        assert(q@ == c@ / pow10(k as nat));
        assert(rd@ == (c@ / p1) % 10);
        assert(sticky == (c@ % p1 != 0));
        assert(rd@ < 10);
        vstd::arithmetic::div_mod::lemma_mod_bound(q@ as int, 10);
    }
    // the last kept digit, for rounding half-even
    let last = q.checked_rem(&ten).unwrap();
    let last_digit = small_value(&last);
    let rd_digit = small_value(&rd);
    let rounded = round_pair_digits((last_digit, rd_digit), sign, rm, !sticky);
    let inexact = rd_digit != 0 || sticky;
    proof {
        assert(c@ % pow10(k as nat) == p1 * rd@ + c@ % p1);
        assert(inexact == (c@ % pow10(k as nat) != 0)) by {
            if rd@ != 0 {
                assert(p1 * rd@ >= p1) by (nonlinear_arith)
                    requires
                        rd@ >= 1,
                ;
            } else {
                assert(p1 * rd@ == 0) by (nonlinear_arith)
                    requires
                        rd@ == 0,
                ;
            }
        }
    }
    if rounded > last_digit {
        let one = UInt::<N>::from_u64(1);
        proof {
            // rounding up never leaves the width: q + 1 <= max(c, 1)
            let qq = q@;
            vstd::arithmetic::div_mod::lemma_fundamental_div_mod(c@ as int, pow10(k as nat) as int);
            assert(pow10(k as nat) >= 10);
            if c@ >= 2 {
                assert(qq * pow10(k as nat) <= c@) by (nonlinear_arith)
                    requires
                        c@ == pow10(k as nat) * qq + c@ % pow10(k as nat),
                        c@ % pow10(k as nat) >= 0,
                ;
                assert(qq + 1 < cap(N)) by (nonlinear_arith)
                    requires
                        qq * pow10(k as nat) <= c@,
                        pow10(k as nat) >= 10,
                        c@ < cap(N),
                        c@ >= 2,
                ;
            } else {
                assert(qq == 0) by {
                    vstd::arithmetic::div_mod::lemma_basic_div(c@ as int, pow10(k as nat) as int);
                }
                assert(cap(N) >= 2) by {
                    lemma_limb_cap_pos(N as nat);
                }
            }
        }
        (q.checked_add(&one).unwrap(), inexact)
    } else {
        (q, inexact)
    }
}

/// The value of a `UInt` below 10, as a byte.
fn small_value<const N: usize>(x: &UInt<N>) -> (r: u8)
    requires
        x@ < 10,
    ensures
        r == x@,
{
    x.width_is_valid();
    let mut i: u8 = 0;
    while i < 10
        invariant
            i <= 10,
            x@ >= i,
            x@ < 10,
            valid_width(N),
        decreases 10 - i,
    {
        let d = UInt::<N>::from_u64(i as u64);
        if x.eq(&d) {
            return i;
        }
        i = i + 1;
    }
    proof {
        assert(false);
    }
    0
}

/// `2^(64 n)` ends in the digit 6.
pub proof fn lemma_cap_mod10(n: nat)
    requires
        n >= 1,
    ensures
        limb_cap(n) % 10 == 6,
    decreases n,
{
    assert(limb_base() % 10 == 6);
    if n == 1 {
        assert(limb_cap(0) == 1);
        assert(limb_cap(1) == limb_base() * 1);
    } else {
        lemma_cap_mod10((n - 1) as nat);
        vstd::arithmetic::div_mod::lemma_mul_mod_noop_general(limb_base() as int, limb_cap((n - 1) as nat) as int, 10);
        assert((6 * 6) % 10 == 6);
    }
}

/// The value `lo + 2^(64 N) hi` of a two-halves number.
pub open spec fn wide(lo: nat, hi: nat, n: usize) -> nat {
    lo + cap(n) * hi
}

/// Divides the two-halves number `(lo, hi)` by ten: the quotient's halves and
/// the remainder digit.
pub fn div10_wide<const N: usize>(lo: &UInt<N>, hi: &UInt<N>) -> (r: (UInt<N>, UInt<N>, u8))
    ensures
        wide(r.0@, r.1@, N) == wide(lo@, hi@, N) / 10,
        r.2 == wide(lo@, hi@, N) % 10,
        r.1@ == hi@ / 10,
{
    lo.width_is_valid();
    proof {
        lo.lemma_bound();
        hi.lemma_bound();
        lemma_cap_mod10(N as nat);
        lemma_limb_cap_pos(N as nat);
    }
    let ten = UInt::<N>::from_u64(10);
    let qh = hi.checked_div(&ten).unwrap();
    let rh_u = hi.checked_rem(&ten).unwrap();
    let ql = lo.checked_div(&ten).unwrap();
    let rl_u = lo.checked_rem(&ten).unwrap();
    proof {
        vstd::arithmetic::div_mod::lemma_mod_bound(hi@ as int, 10);
        vstd::arithmetic::div_mod::lemma_mod_bound(lo@ as int, 10);
    }
    let rh = small_value(&rh_u);
    let rl = small_value(&rl_u);
    let u: u8 = 6 * rh + rl;
    let m = UInt::<N>::max_value();
    let d = m.checked_div(&ten).unwrap();
    let ghost cp = cap(N);
    let ghost dd = d@;
    proof {
        // 2^(64 N) = 10 d + 6 where d = max / 10
        vstd::arithmetic::div_mod::lemma_fundamental_div_mod(uint_max(N) as int, 10);
        vstd::arithmetic::div_mod::lemma_fundamental_div_mod(cp as int, 10);
        assert(uint_max(N) % 10 == 5);
        assert(cp == 10 * dd + 6);
        vstd::arithmetic::div_mod::lemma_fundamental_div_mod(hi@ as int, 10);
        vstd::arithmetic::div_mod::lemma_fundamental_div_mod(lo@ as int, 10);
        // cap * rh + lo < 10 cap, so its tenth fits
        assert((rh as nat) * dd + ql@ + ((u / 10) as nat) < cp) by (nonlinear_arith)
            requires
                cp == 10 * dd + 6,
                lo@ == 10 * ql@ + rl as nat,
                lo@ < cp,
                rh <= 9,
                rl <= 9,
                u == 6 * rh + rl,
        ;
        assert(dd * (rh as nat) == (rh as nat) * dd) by (nonlinear_arith);
        assert((rh as nat) * dd < cp) by (nonlinear_arith)
            requires
                cp == 10 * dd + 6,
                rh <= 9,
        ;
    }
    let t1 = d.checked_mul(&UInt::<N>::from_u64(rh as u64)).unwrap();
    let t2 = t1.checked_add(&ql).unwrap();
    let lo2 = t2.checked_add(&UInt::<N>::from_u64((u / 10) as u64)).unwrap();
    proof {
        let v = wide(lo@, hi@, N);
        assert(v == 10 * (wide(lo2@, qh@, N)) + (u % 10) as nat) by (nonlinear_arith)
            requires
                v == lo@ + cp * hi@,
                hi@ == 10 * qh@ + rh as nat,
                lo@ == 10 * ql@ + rl as nat,
                cp == 10 * dd + 6,
                u == 6 * rh + rl,
                lo2@ == dd * (rh as nat) + ql@ + (u / 10) as nat,
                wide(lo2@, qh@, N) == lo2@ + cp * qh@,
                u <= 63,
        ;
        vstd::arithmetic::div_mod::lemma_fundamental_div_mod_converse(
            v as int,
            10,
            wide(lo2@, qh@, N) as int,
            (u % 10) as int,
        );
    }
    (lo2, qh, u % 10)
}

/// Whether `c` rounded after dropping `k` digits fits a `UInt<n>`.
pub open spec fn fits_at(c: nat, k: nat, n: usize, rm: RoundingMode, sign: Sign) -> bool {
    round_div(c, k, rm, sign) < cap(n)
}

/// `k` is the fewest digits of `c` to drop for the rounded rest to fit.
pub open spec fn is_precision_drop(c: nat, k: nat, n: usize, rm: RoundingMode, sign: Sign) -> bool {
    &&& fits_at(c, k, n, rm, sign)
    &&& forall|j: nat| j < k ==> !#[trigger] fits_at(c, j, n, rm, sign)
}

/// The fewest digits of `c` to drop for the rounded rest to fit.
pub open spec fn precision_drop(c: nat, n: usize, rm: RoundingMode, sign: Sign) -> nat {
    choose|k: nat| is_precision_drop(c, k, n, rm, sign)
}

/// Dropping one more digit keeps a rounded value fitting.
pub proof fn lemma_fits_step(c: nat, k: nat, n: usize, rm: RoundingMode, sign: Sign)
    requires
        valid_width(n),
        fits_at(c, k, n, rm, sign),
    ensures
        fits_at(c, k + 1, n, rm, sign),
{
    lemma_limb_cap_pos(n as nat);
    lemma_pow10_pos(k);
    lemma_pow10_pos(k + 1);
    let q = c / pow10(k);
    assert(pow10(k + 1) == 10 * pow10(k));
    vstd::arithmetic::div_mod::lemma_div_denominator(c as int, pow10(k) as int, 10);
    assert(c / pow10(k + 1) == q / 10);
    assert(round_div(c, k, rm, sign) >= q);
    assert(round_div(c, k + 1, rm, sign) <= q / 10 + 1);
    if q == 0 {
        assert(cap(n) >= 2);
    } else {
        assert(q / 10 + 1 <= q);
    }
}

pub proof fn lemma_fits_mono(c: nat, j: nat, k: nat, n: usize, rm: RoundingMode, sign: Sign)
    requires
        valid_width(n),
        j <= k,
        fits_at(c, j, n, rm, sign),
    ensures
        fits_at(c, k, n, rm, sign),
    decreases k - j,
{
    if j < k {
        lemma_fits_step(c, j, n, rm, sign);
        lemma_fits_mono(c, j + 1, k, n, rm, sign);
    }
}

/// Fitting at `k` fixes the fewest digits to drop at or below `k`.
pub proof fn lemma_precision_drop_exists(c: nat, k: nat, n: usize, rm: RoundingMode, sign: Sign)
    requires
        valid_width(n),
        fits_at(c, k, n, rm, sign),
    ensures
        is_precision_drop(c, precision_drop(c, n, rm, sign), n, rm, sign),
        precision_drop(c, n, rm, sign) <= k,
    decreases k,
{
    if k > 0 && fits_at(c, (k - 1) as nat, n, rm, sign) {
        lemma_precision_drop_exists(c, (k - 1) as nat, n, rm, sign);
    } else {
        assert forall|j: nat| j < k implies !#[trigger] fits_at(c, j, n, rm, sign) by {
            if fits_at(c, j, n, rm, sign) {
                lemma_fits_mono(c, j, (k - 1) as nat, n, rm, sign);
            }
        }
        assert(is_precision_drop(c, k, n, rm, sign));
        let p = precision_drop(c, n, rm, sign);
        if p < k {
            assert(!fits_at(c, p, n, rm, sign));
        }
        if p > k {
            assert(!fits_at(c, k, n, rm, sign));
        }
    }
}

/// `c == w 10^k + t` with `t < 10^k`, where `rd` is the first digit of the
/// `k`-digit tail `t` and `sticky` tells whether the rest of it is non-zero.
pub open spec fn tail_state(c: nat, w: nat, k: nat, rd: nat, sticky: bool) -> bool {
    let t = (c - w * pow10(k)) as nat;
    &&& w * pow10(k) <= c
    &&& t < pow10(k)
    &&& k == 0 ==> rd == 0 && !sticky
    &&& k >= 1 ==> rd == t / pow10((k - 1) as nat) && sticky == (t % pow10((k - 1) as nat) != 0)
}

/// The rounded value after dropping the tail is the head, plus one when the
/// tail's first digit and stickiness ask for it; the tail is non-zero when
/// either is.
pub proof fn lemma_tail_round(c: nat, w: nat, k: nat, rd: nat, sticky: bool, rm: RoundingMode, sign: Sign)
    requires
        tail_state(c, w, k, rd, sticky),
    ensures
        round_div(c, k, rm, sign) == w + if spec_round_up(rm, sign, w % 10, rd, sticky) { 1nat } else { 0nat },
        (c % pow10(k) != 0) == (rd != 0 || sticky),
        c / pow10(k) == w,
{
    let t = (c - w * pow10(k)) as nat;
    lemma_pow10_pos(k);
    vstd::arithmetic::div_mod::lemma_fundamental_div_mod_converse(c as int, pow10(k) as int, w as int, t as int);
    if k == 0 {
        assert(pow10(0) == 1);
        assert(w * pow10(0) == w) by (nonlinear_arith)
            requires
                pow10(0) == 1,
        ;
        assert(t == 0);
        assert(c == w);
    } else {
        let p1 = pow10((k - 1) as nat);
        lemma_pow10_pos((k - 1) as nat);
        assert(pow10(k) == 10 * p1);
        vstd::arithmetic::div_mod::lemma_fundamental_div_mod(t as int, p1 as int);
        let tq = t / p1;
        let tr = t % p1;
        assert(tq < 10) by (nonlinear_arith)
            requires
                t < 10 * p1,
                t == p1 * tq + tr,
                tr >= 0,
                p1 >= 1,
        ;
        assert(c == (w * 10 + tq) * p1 + tr) by (nonlinear_arith)
            requires
                c == w * (10 * p1) + t,
                t == p1 * tq + tr,
        ;
        vstd::arithmetic::div_mod::lemma_fundamental_div_mod_converse(c as int, p1 as int, (w * 10 + tq) as int, tr as int);
        vstd::arithmetic::div_mod::lemma_fundamental_div_mod_converse((w * 10 + tq) as int, 10, w as int, tq as int);
        if tq == 0 {
            assert(t == tr) by (nonlinear_arith)
                requires
                    t == p1 * tq + tr,
                    tq == 0,
            ;
        } else {
            assert(t >= p1) by (nonlinear_arith)
                requires
                    t == p1 * tq + tr,
                    tq >= 1,
                    tr >= 0,
            ;
        }
    }
}

/// Dropping the last digit of the head moves it into the tail.
pub proof fn lemma_tail_step(c: nat, w: nat, k: nat, rd: nat, sticky: bool)
    requires
        tail_state(c, w, k, rd, sticky),
    ensures
        tail_state(c, w / 10, k + 1, w % 10, rd != 0 || sticky),
{
    let t = (c - w * pow10(k)) as nat;
    lemma_pow10_pos(k);
    assert(pow10(k + 1) == 10 * pow10(k));
    vstd::arithmetic::div_mod::lemma_fundamental_div_mod(w as int, 10);
    let wq = w / 10;
    let wr = w % 10;
    let t2 = wr * pow10(k) + t;
    assert(wq * pow10(k + 1) + t2 == c) by (nonlinear_arith)
        requires
            w == 10 * wq + wr,
            pow10(k + 1) == 10 * pow10(k),
            c == w * pow10(k) + t,
            t2 == wr * pow10(k) + t,
    ;
    assert(t2 < pow10(k + 1)) by (nonlinear_arith)
        requires
            wr <= 9,
            t < pow10(k),
            pow10(k + 1) == 10 * pow10(k),
            t2 == wr * pow10(k) + t,
    ;
    vstd::arithmetic::div_mod::lemma_fundamental_div_mod_converse(t2 as int, pow10(k) as int, wr as int, t as int);
    assert((c - wq * pow10(k + 1)) as nat == t2);
    assert(((k + 1) - 1) as nat == k);
    // the old tail is non-zero exactly when its first digit or the rest are
    if k == 0 {
        assert(pow10(0) == 1);
        assert(t == 0);
    } else {
        lemma_tail_round(c, w, k, rd, sticky, RoundingMode::Down, Sign::Plus);
        vstd::arithmetic::div_mod::lemma_small_mod(t, pow10(k));
        vstd::arithmetic::div_mod::lemma_fundamental_div_mod_converse(c as int, pow10(k) as int, w as int, t as int);
    }
}

/// What a decimal number is: a finite number, an infinity, or not a number.
#[derive(Copy, Clone, Debug, PartialEq, Eq, Structural)]
pub enum Kind {
    /// A finite number, `coefficient * 10^-scale`.
    Finite,
    /// Infinity.
    Infinite,
    /// Not a number.
    NaN,
}

/// The largest scale (number of fractional digits).
pub open spec fn max_scale() -> int {
    32767
}

/// The smallest scale.
pub open spec fn min_scale() -> int {
    -32768
}

/// A non-zero finite number is subnormal when its adjusted exponent (that of
/// its first digit) is below that of the smallest number with the full
/// `max_power_of_ten(n)` digits at the largest scale.
pub open spec fn is_subnormal_value(q: nat, s: int, n: usize) -> bool {
    q != 0 && num_digits(q) - s < max_power_of_ten(n) - max_scale()
}

/// A rounded result, with the signals its rounding raised.
pub struct FitSpec {
    pub kind: Kind,
    pub coeff: nat,
    pub scale: int,
    pub signals: Signals,
}

/// The result of fitting the exact number `c * 10^-s` of sign `sign` into a
/// `UInt<n>` coefficient and a scale in `min_scale()..=max_scale()`:
/// drop the fewest digits that make the rounded coefficient fit, and more if
/// the scale would exceed its maximum; a scale below its minimum is made up
/// with zeros in the coefficient when they fit (clamped), and is an overflow
/// to infinity otherwise.
pub open spec fn spec_finish(c: nat, s: int, rm: RoundingMode, sign: Sign, n: usize) -> FitSpec {
    let kk = finish_drop(c, s, rm, sign, n);
    finish_scale(round_div(c, kk, rm, sign), s - kk, kk > 0, c % pow10(kk) != 0, n)
}

/// The digits that fitting `c * 10^-s` drops: the fewest that make the
/// coefficient fit, or more when the scale would exceed its maximum.
pub open spec fn finish_drop(c: nat, s: int, rm: RoundingMode, sign: Sign, n: usize) -> nat {
    let k0 = precision_drop(c, n, rm, sign);
    if s - k0 > max_scale() {
        (s - max_scale()) as nat
    } else {
        k0
    }
}

/// The result of a rounded coefficient `q` of scale `s1`: clamped or overflown
/// when the scale is below its minimum, flagged subnormal when it is tiny:
/// below the smallest normal magnitude, or a non-zero exact result rounded
/// away to zero (which also underflows, being inexact).
pub open spec fn finish_scale(q: nat, s1: int, rounded: bool, inexact: bool, n: usize) -> FitSpec {
    if s1 < min_scale() {
        let e = (min_scale() - s1) as nat;
        if q * pow10(e) < cap(n) {
            FitSpec {
                kind: Kind::Finite,
                coeff: q * pow10(e),
                scale: min_scale(),
                signals: Signals { clamped: true, rounded, inexact, ..Signals::spec_empty() },
            }
        } else {
            FitSpec {
                kind: Kind::Infinite,
                coeff: 0,
                scale: 0,
                signals: Signals { overflow: true, inexact: true, rounded: true, ..Signals::spec_empty() },
            }
        }
    } else {
        let sub = is_subnormal_value(q, s1, n) || (q == 0 && inexact);
        FitSpec {
            kind: Kind::Finite,
            coeff: q,
            scale: s1,
            signals: Signals { rounded, inexact, subnormal: sub, underflow: sub && inexact, ..Signals::spec_empty() },
        }
    }
}

/// A rounded coefficient and scale, with the signals its rounding raised.
pub struct Fitted<const N: usize> {
    pub kind: Kind,
    pub coeff: UInt<N>,
    pub scale: i16,
    pub signals: Signals,
}

impl<const N: usize> Fitted<N> {
    pub open spec fn spec(self) -> FitSpec {
        FitSpec { kind: self.kind, coeff: self.coeff@, scale: self.scale as int, signals: self.signals }
    }
}

/// Fits the exact number `c * 10^-s`, given as a two-halves head `(lo, hi)`
/// after `k0` dropped digits (the tail, of first digit `rd0`, non-zero beyond
/// it when `sticky0`), knowing that fewer than `k0` dropped digits do not fit.
pub(crate) fn fit_wide<const N: usize>(
    lo: UInt<N>,
    hi: UInt<N>,
    k0: u64,
    rd0: u8,
    sticky0: bool,
    s: i128,
    rm: RoundingMode,
    sign: Sign,
    Ghost(c): Ghost<nat>,
) -> (r: Fitted<N>)
    requires
        tail_state(c, wide(lo@, hi@, N), k0 as nat, rd0 as nat, sticky0),
        rd0 <= 9,
        forall|j: nat| j < k0 ==> !#[trigger] fits_at(c, j, N, rm, sign),
        -0x1_0000_0000_0000_0000_0000 < s < 0x1_0000_0000_0000_0000_0000,
    ensures
        r.spec() == spec_finish(c, s as int, rm, sign, N),
{
    lo.width_is_valid();
    let ghost w0 = wide(lo@, hi@, N);
    proof {
        lo.lemma_bound();
        hi.lemma_bound();
        crate::uint::lemma_cap_le_pow10(N as nat);
        lemma_limb_cap_pos(N as nat);
        let cp = cap(N);
        assert(w0 < cp * cp) by (nonlinear_arith)
            requires
                w0 == lo@ + cp * hi@,
                lo@ < cp,
                hi@ < cp,
        ;
        lemma_pow10_add(20 * N as nat, 20 * N as nat);
        assert(cp * cp <= pow10(20 * N as nat) * pow10(20 * N as nat)) by (nonlinear_arith)
            requires
                cp <= pow10(20 * N as nat),
        ;
        assert(20 * N as nat + 20 * N as nat == 40 * N as nat);
    }
    proof {
        assert(w0 * pow10(0) == w0) by {
            assert(pow10(0) == 1);
        }
    }
    let target: u128 = if s > 32767 { (s - 32767) as u128 } else { 0 };
    let bound: u128 = k0 as u128 + target + 40 * (N as u128);
    let top = UInt::<N>::max_value();
    let ten = UInt::<N>::from_u64(10);
    let mut lo = lo;
    let mut hi = hi;
    let mut k: u128 = k0 as u128;
    let mut rd = rd0;
    let mut sticky = sticky0;
    let mut up = false;
    loop
        invariant
            valid_width(N),
            top@ == uint_max(N),
            ten@ == 10,
            tail_state(c, wide(lo@, hi@, N), k as nat, rd as nat, sticky),
            rd <= 9,
            forall|j: nat| j < k0 ==> !#[trigger] fits_at(c, j, N, rm, sign),
            forall|j: nat| k0 <= j < k ==> j < target || !#[trigger] fits_at(c, j, N, rm, sign),
            k0 <= k <= bound,
            bound == k0 + target + 40 * N,
            wide(lo@, hi@, N) * pow10((k - k0) as nat) <= w0,
            w0 < pow10(40 * N as nat),
        ensures
            tail_state(c, wide(lo@, hi@, N), k as nat, rd as nat, sticky),
            k >= target,
            hi@ == 0,
            up == spec_round_up(rm, sign, lo@ % 10, rd as nat, sticky),
            lo@ + if up { 1nat } else { 0nat } < cap(N),
            forall|j: nat| j < k ==> j < target || !#[trigger] fits_at(c, j, N, rm, sign),
        decreases bound - k,
    {
        proof {
            lo.lemma_bound();
            hi.lemma_bound();
            lemma_tail_round(c, wide(lo@, hi@, N), k as nat, rd as nat, sticky, rm, sign);
        }
        let mut fits = false;
        if hi.is_zero() {
            proof {
                vstd::arithmetic::div_mod::lemma_mod_bound(lo@ as int, 10);
            }
            let last = small_value(&lo.checked_rem(&ten).unwrap());
            let rounded = round_pair_digits((last, rd), sign, rm, !sticky);
            up = rounded > last;
            fits = !(up && lo.eq(&top));
        }
        proof {
            assert(fits == fits_at(c, k as nat, N, rm, sign)) by {
                if hi@ != 0 {
                    assert(wide(lo@, hi@, N) >= cap(N)) by (nonlinear_arith)
                        requires
                            hi@ >= 1,
                            wide(lo@, hi@, N) == lo@ + cap(N) * hi@,
                    ;
                }
            }
        }
        if k >= target && fits {
            break;
        }
        proof {
            // not fitting means the head is non-zero, so there are digits left to drop
            if k >= target {
                assert(wide(lo@, hi@, N) >= 1);
                assert(pow10((k - k0) as nat) <= w0) by (nonlinear_arith)
                    requires
                        wide(lo@, hi@, N) * pow10((k - k0) as nat) <= w0,
                        wide(lo@, hi@, N) >= 1,
                ;
                if k - k0 >= 40 * N {
                    lemma_pow10_mono(40 * N as nat, (k - k0) as nat);
                }
            }
        }
        let (lo2, hi2, d) = div10_wide(&lo, &hi);
        proof {
            lemma_tail_step(c, wide(lo@, hi@, N), k as nat, rd as nat, sticky);
            let wv = wide(lo@, hi@, N);
            lemma_pow10_pos((k - k0) as nat);
            vstd::arithmetic::div_mod::lemma_fundamental_div_mod(wv as int, 10);
            assert(pow10((k + 1 - k0) as nat) == 10 * pow10((k - k0) as nat));
            assert((wv / 10) * pow10((k + 1 - k0) as nat) <= w0) by (nonlinear_arith)
                requires
                    wv * pow10((k - k0) as nat) <= w0,
                    pow10((k + 1 - k0) as nat) == 10 * pow10((k - k0) as nat),
                    wv == 10 * (wv / 10) + wv % 10,
                    wv % 10 >= 0,
                    pow10((k - k0) as nat) >= 1,
            ;
        }
        sticky = sticky || rd != 0;
        rd = d;
        lo = lo2;
        hi = hi2;
        k = k + 1;
    }
    // the fewest dropped digits that fit, or the scale's bound if more
    let ghost k0s = precision_drop(c, N, rm, sign);
    proof {
        lemma_tail_round(c, wide(lo@, hi@, N), k as nat, rd as nat, sticky, rm, sign);
        assert(fits_at(c, k as nat, N, rm, sign));
        lemma_precision_drop_exists(c, k as nat, N, rm, sign);
        if k > target && k > k0s {
            lemma_fits_mono(c, k0s, (k - 1) as nat, N, rm, sign);
            assert(!fits_at(c, (k - 1) as nat, N, rm, sign));
        }
        assert(k == finish_drop(c, s as int, rm, sign, N));
    }
    let inexact = rd != 0 || sticky;
    let q = if up { lo.checked_add(&UInt::<N>::from_u64(1)).unwrap() } else { lo };
    fit_scale(q, s - k as i128, k > 0, inexact)
}

/// Builds the result of a rounded coefficient `q` of scale `s1`.
fn fit_scale<const N: usize>(q: UInt<N>, s1: i128, rounded: bool, inexact: bool) -> (r: Fitted<N>)
    requires
        -0x2_0000_0000_0000_0000_0000 < s1 < 0x2_0000_0000_0000_0000_0000,
        s1 <= 32767,
    ensures
        r.spec() == finish_scale(q@, s1 as int, rounded, inexact, N),
{
    q.width_is_valid();
    if s1 < -32768 {
        let e = -32768 - s1;
        let mut clamped: Option<UInt<N>> = None;
        if q.is_zero() {
            clamped = Some(q);
        } else if e <= 0xffff_ffff {
            match checked_power_of_ten::<N>(e as u32) {
                Some(p) => {
                    clamped = q.checked_mul(&p);
                },
                None => {},
            }
        }
        proof {
            let ee = (min_scale() - s1) as nat;
            lemma_pow10_pos(ee);
            if q@ == 0 {
                assert(q@ * pow10(ee) == 0) by (nonlinear_arith)
                    requires
                        q@ == 0,
                ;
            } else {
                assert(q@ * pow10(ee) >= pow10(ee)) by (nonlinear_arith)
                    requires
                        q@ >= 1,
                ;
                if e > 0xffff_ffff {
                    lemma_pow10_mono(40 * N as nat, ee);
                    crate::uint::lemma_cap_le_pow10(N as nat);
                    lemma_pow10_mono(20 * N as nat, 40 * N as nat);
                }
            }
        }
        proof {
            let ee = (min_scale() - s1) as nat;
            lemma_limb_cap_pos(N as nat);
            assert(e as nat == ee);
            if clamped is Some {
                assert(clamped->0@ == q@ * pow10(ee));
                assert(q@ * pow10(ee) < cap(N));
            } else {
                assert(!(q@ * pow10(ee) < cap(N)));
            }
        }
        match clamped {
            Some(v) => {
                return Fitted {
                    kind: Kind::Finite,
                    coeff: v,
                    scale: -32768,
                    signals: Signals {
                        clamped: true,
                        div_by_zero: false,
                        inexact,
                        invalid: false,
                        overflow: false,
                        rounded,
                        subnormal: false,
                        underflow: false,
                    },
                };
            },
            None => {
                return Fitted {
                    kind: Kind::Infinite,
                    coeff: UInt::<N>::zero(),
                    scale: 0,
                    signals: Signals {
                        clamped: false,
                        div_by_zero: false,
                        inexact: true,
                        invalid: false,
                        overflow: true,
                        rounded: true,
                        subnormal: false,
                        underflow: false,
                    },
                };
            },
        }
    }
    let nd = decimal_digits(&q);
    let p = max_power_of_ten_exec::<N>();
    let sub = if q.is_zero() {
        inexact
    } else {
        (nd as i128 - s1) < (p as i128 - 32767)
    };
    Fitted {
        kind: Kind::Finite,
        coeff: q,
        scale: s1 as i16,
        signals: Signals {
            clamped: false,
            div_by_zero: false,
            inexact,
            invalid: false,
            overflow: false,
            rounded,
            subnormal: sub,
            underflow: sub && inexact,
        },
    }
}

/// Compares the finite numbers `c1 * 10^-s1` and `c2 * 10^-s2`: `-1`, `0`
/// or `1` as the first is smaller, equal or greater.
pub fn compare_finite<const N: usize>(c1: &UInt<N>, s1: i16, c2: &UInt<N>, s2: i16) -> (r: i8)
    ensures
        r == -1 <==> crate::decimal::less_value(c1@, s1 as int, c2@, s2 as int),
        r == 0 <==> crate::decimal::same_value(c1@, s1 as int, c2@, s2 as int),
        r == -1 || r == 0 || r == 1,
{
    if s1 == s2 {
        proof {
            assert(pow10(0) == 1);
            assert(c1@ * pow10(0) == c1@) by (nonlinear_arith)
                requires
                    pow10(0) == 1,
            ;
            assert(c2@ * pow10(0) == c2@) by (nonlinear_arith)
                requires
                    pow10(0) == 1,
            ;
        }
        if c1.lt(c2) {
            -1
        } else if c1.eq(c2) {
            0
        } else {
            1
        }
    } else if s1 < s2 {
        let r = compare_scaled(c1, (s2 as i32 - s1 as i32) as u32, c2);
        proof {
            assert(c2@ * pow10(0) == c2@) by (nonlinear_arith)
                requires
                    pow10(0) == 1,
            ;
        }
        r
    } else {
        let r = compare_scaled(c2, (s1 as i32 - s2 as i32) as u32, c1);
        proof {
            assert(c1@ * pow10(0) == c1@) by (nonlinear_arith)
                requires
                    pow10(0) == 1,
            ;
        }
        -r
    }
}

/// Compares `a * 10^d` with `b`.
fn compare_scaled<const N: usize>(a: &UInt<N>, d: u32, b: &UInt<N>) -> (r: i8)
    ensures
        r == -1 <==> a@ * pow10(d as nat) < b@,
        r == 0 <==> a@ * pow10(d as nat) == b@,
        r == -1 || r == 0 || r == 1,
{
    a.width_is_valid();
    proof {
        b.lemma_bound();
        lemma_pow10_pos(d as nat);
    }
    match checked_power_of_ten::<N>(d) {
        Some(p) => match a.checked_mul(&p) {
            Some(x) => {
                if x.lt(b) {
                    -1
                } else if x.eq(b) {
                    0
                } else {
                    1
                }
            },
            None => 1,
        },
        None => {
            if a.is_zero() {
                proof {
                    assert(a@ * pow10(d as nat) == 0) by (nonlinear_arith)
                        requires
                            a@ == 0,
                    ;
                }
                if b.is_zero() {
                    0
                } else {
                    -1
                }
            } else {
                proof {
                    assert(a@ * pow10(d as nat) >= pow10(d as nat)) by (nonlinear_arith)
                        requires
                            a@ >= 1,
                    ;
                }
                1
            }
        },
    }
}

/// `(lo, hi) + x` as two halves.
pub fn wide_add<const N: usize>(lo: &UInt<N>, hi: &UInt<N>, x: &UInt<N>) -> (r: (UInt<N>, UInt<N>))
    requires
        wide(lo@, hi@, N) + x@ < cap(N) * cap(N),
    ensures
        wide(r.0@, r.1@, N) == wide(lo@, hi@, N) + x@,
{
    lo.width_is_valid();
    proof {
        lo.lemma_bound();
        hi.lemma_bound();
        x.lemma_bound();
    }
    match lo.checked_add(x) {
        Some(l) => (l, *hi),
        None => {
            // lo + x = (lo - (cap - x)) + cap
            let m = UInt::<N>::max_value();
            let gap = m.checked_sub(x).unwrap();
            let l = lo.checked_sub(&gap).unwrap().checked_sub(&UInt::<N>::from_u64(1)).unwrap();
            proof {
                assert(hi@ + 1 < cap(N)) by (nonlinear_arith)
                    requires
                        lo@ + cap(N) * hi@ + x@ < cap(N) * cap(N),
                        lo@ + x@ >= cap(N),
                ;
            }
            let h = hi.checked_add(&UInt::<N>::from_u64(1)).unwrap();
            proof {
                assert(wide(l@, h@, N) == wide(lo@, hi@, N) + x@) by (nonlinear_arith)
                    requires
                        l@ == lo@ - (uint_max(N) - x@) - 1,
                        h@ == hi@ + 1,
                        uint_max(N) == cap(N) - 1,
                        wide(l@, h@, N) == l@ + cap(N) * h@,
                        wide(lo@, hi@, N) == lo@ + cap(N) * hi@,
                ;
            }
            (l, h)
        },
    }
}

/// `(lo, hi) - x` as two halves.
pub fn wide_sub<const N: usize>(lo: &UInt<N>, hi: &UInt<N>, x: &UInt<N>) -> (r: (UInt<N>, UInt<N>))
    requires
        wide(lo@, hi@, N) >= x@,
    ensures
        wide(r.0@, r.1@, N) == wide(lo@, hi@, N) - x@,
{
    lo.width_is_valid();
    proof {
        lo.lemma_bound();
        hi.lemma_bound();
        x.lemma_bound();
    }
    match lo.checked_sub(x) {
        Some(l) => (l, *hi),
        None => {
            // borrow one from the high half: lo - x + cap = lo + (max - x) + 1
            proof {
                assert(hi@ >= 1) by (nonlinear_arith)
                    requires
                        lo@ + cap(N) * hi@ >= x@,
                        lo@ < x@,
                ;
            }
            let m = UInt::<N>::max_value();
            let gap = m.checked_sub(x).unwrap();
            let l1 = lo.checked_add(&gap).unwrap();
            let l = l1.checked_add(&UInt::<N>::from_u64(1)).unwrap();
            let h = hi.checked_sub(&UInt::<N>::from_u64(1)).unwrap();
            proof {
                assert(wide(l@, h@, N) == wide(lo@, hi@, N) - x@) by (nonlinear_arith)
                    requires
                        l@ == lo@ + (uint_max(N) - x@) + 1,
                        h@ == hi@ - 1,
                        uint_max(N) == cap(N) - 1,
                        wide(l@, h@, N) == l@ + cap(N) * h@,
                        wide(lo@, hi@, N) == lo@ + cap(N) * hi@,
                ;
            }
            (l, h)
        },
    }
}

/// `(lo, hi) * 10` as two halves, or `None` when it needs more.
pub fn wide_mul10<const N: usize>(lo: &UInt<N>, hi: &UInt<N>) -> (r: Option<(UInt<N>, UInt<N>)>)
    ensures
        r is Some <==> wide(lo@, hi@, N) * 10 < cap(N) * cap(N),
        r matches Some(v) ==> wide(v.0@, v.1@, N) == wide(lo@, hi@, N) * 10,
{
    lo.width_is_valid();
    proof {
        lo.lemma_bound();
        hi.lemma_bound();
    }
    let ten = UInt::<N>::from_u64(10);
    let (l, carry) = lo.widening_mul(&ten);
    proof {
        carry.lemma_bound();
        l.lemma_bound();
    }
    match hi.checked_mul(&ten) {
        Some(h10) => match h10.checked_add(&carry) {
            Some(h) => {
                proof {
                    assert(wide(l@, h@, N) == wide(lo@, hi@, N) * 10) by (nonlinear_arith)
                        requires
                            l@ + cap(N) * carry@ == lo@ * 10,
                            h@ == hi@ * 10 + carry@,
                            wide(l@, h@, N) == l@ + cap(N) * h@,
                            wide(lo@, hi@, N) == lo@ + cap(N) * hi@,
                    ;
                    assert(wide(l@, h@, N) < cap(N) * cap(N)) by (nonlinear_arith)
                        requires
                            l@ < cap(N),
                            h@ < cap(N),
                            wide(l@, h@, N) == l@ + cap(N) * h@,
                    ;
                }
                Some((l, h))
            },
            None => {
                proof {
                    assert(wide(lo@, hi@, N) * 10 >= cap(N) * cap(N)) by (nonlinear_arith)
                        requires
                            l@ + cap(N) * carry@ == lo@ * 10,
                            hi@ * 10 + carry@ >= cap(N),
                            l@ >= 0,
                            wide(lo@, hi@, N) == lo@ + cap(N) * hi@,
                    ;
                }
                None
            },
        },
        None => {
            proof {
                assert(wide(lo@, hi@, N) * 10 >= cap(N) * cap(N)) by (nonlinear_arith)
                    requires
                        hi@ * 10 >= cap(N),
                        lo@ >= 0,
                        wide(lo@, hi@, N) == lo@ + cap(N) * hi@,
                ;
            }
            None
        },
    }
}

/// A head of at least `10^m` at `m` digits above the dropped ones, with `m`
/// beyond the largest power of ten, does not fit: no drop of fewer digits
/// fits.
pub proof fn lemma_big_head_no_fit(c: nat, m: nat, j: nat, n: usize, rm: RoundingMode, sign: Sign)
    requires
        valid_width(n),
        c >= pow10(m + j),
        m > max_power_of_ten(n),
    ensures
        !fits_at(c, j, n, rm, sign),
{
    crate::powers::lemma_max_power_of_ten(n);
    lemma_pow10_mono(max_power_of_ten(n) + 1, m);
    lemma_pow10_add(m, j);
    lemma_pow10_pos(j);
    lemma_pow10_pos(m);
    vstd::arithmetic::div_mod::lemma_fundamental_div_mod(c as int, pow10(j) as int);
    let q = c / pow10(j);
    assert(q >= pow10(m)) by (nonlinear_arith)
        requires
            c >= pow10(m) * pow10(j),
            c == pow10(j) * q + c % pow10(j),
            c % pow10(j) < pow10(j),
            pow10(j) >= 1,
    ;
    if j > 0 {
        assert(round_div(c, j, rm, sign) >= q);
    }
}

/// The tail of `x` below `10^z`: its digits above (`x / 10^z`), the first
/// digit below, and whether any later digit is non-zero.
fn split_tail<const N: usize>(x: &UInt<N>, z: u32) -> (r: (UInt<N>, u8, bool))
    requires
        z >= 1,
    ensures
        r.0@ == x@ / pow10(z as nat),
        r.1 as nat == (x@ % pow10(z as nat)) / pow10((z - 1) as nat),
        r.1 <= 9,
        r.2 == ((x@ % pow10(z as nat)) % pow10((z - 1) as nat) != 0),
{
    x.width_is_valid();
    proof {
        x.lemma_bound();
        lemma_pow10_pos(z as nat);
        lemma_pow10_pos((z - 1) as nat);
        assert(pow10(z as nat) == 10 * pow10((z - 1) as nat));
    }
    let (q, t) = match checked_power_of_ten::<N>(z) {
        Some(p) => (x.checked_div(&p).unwrap(), x.checked_rem(&p).unwrap()),
        None => {
            proof {
                vstd::arithmetic::div_mod::lemma_basic_div(x@ as int, pow10(z as nat) as int);
                vstd::arithmetic::div_mod::lemma_small_mod(x@, pow10(z as nat));
            }
            (UInt::<N>::zero(), *x)
        },
    };
    proof {
        vstd::arithmetic::div_mod::lemma_mod_bound(x@ as int, pow10(z as nat) as int);
    }
    match checked_power_of_ten::<N>(z - 1) {
        Some(p1) => {
            let hd = t.checked_div(&p1).unwrap();
            let rest = t.checked_rem(&p1).unwrap();
            proof {
                vstd::arithmetic::div_mod::lemma_fundamental_div_mod(t@ as int, p1@ as int);
                assert(hd@ < 10) by (nonlinear_arith)
                    requires
                        t@ < 10 * p1@,
                        t@ == p1@ * hd@ + rest@,
                        p1@ >= 1,
                ;
            }
            (q, small_value(&hd), !rest.is_zero())
        },
        None => {
            proof {
                t.lemma_bound();
                vstd::arithmetic::div_mod::lemma_basic_div(t@ as int, pow10((z - 1) as nat) as int);
                vstd::arithmetic::div_mod::lemma_small_mod(t@, pow10((z - 1) as nat));
            }
            (q, 0, !t.is_zero())
        },
    }
}

/// The sum of the finite numbers `ca * 10^-sa` and `cb * 10^-sb`, fitted.
pub(crate) fn sum_finite<const N: usize>(ca: &UInt<N>, sa: i16, cb: &UInt<N>, sb: i16, rm: RoundingMode) -> (r: Fitted<N>)
    ensures
        ({
            let t = if sa >= sb { sa as int } else { sb as int };
            r.spec() == spec_finish(aligned(ca@, sa as int, t) + aligned(cb@, sb as int, t), t, rm, Sign::Plus, N)
        }),
{
    ca.width_is_valid();
    // `big` has the smaller scale and is scaled up to the other's
    let (big, sbig, small, t) = if sa <= sb { (ca, sa, cb, sb) } else { (cb, sb, ca, sa) };
    let d: u32 = (t as i32 - sbig as i32) as u32;
    let ghost c = big@ * pow10(d as nat) + small@;
    proof {
        assert(aligned(small@, t as int, t as int) == small@) by {
            assert(pow10(0) == 1);
            assert(small@ * pow10(0) == small@) by (nonlinear_arith)
                requires
                    pow10(0) == 1,
            ;
        }
        big.lemma_bound();
        small.lemma_bound();
        lemma_limb_cap_pos(N as nat);
    }
    let p = max_power_of_ten_exec::<N>();
    if d <= p {
        let pd = unchecked_power_of_ten::<N>(d);
        let (lo, hi) = big.widening_mul(&pd);
        proof {
            pd.lemma_bound();
            let m = uint_max(N);
            assert(big@ * pd@ + small@ < cap(N) * cap(N)) by (nonlinear_arith)
                requires
                    big@ <= m,
                    pd@ <= m,
                    small@ <= m,
                    m + 1 == cap(N),
            ;
        }
        let (lo2, hi2) = wide_add(&lo, &hi, small);
        proof {
            lemma_tail_zero(c, wide(lo2@, hi2@, N));
        }
        fit_wide(lo2, hi2, 0, 0, false, t as i128, rm, Sign::Plus, Ghost(c))
    } else if big.is_zero() {
        proof {
            assert(c == small@) by (nonlinear_arith)
                requires
                    c == big@ * pow10(d as nat) + small@,
                    big@ == 0,
            ;
            assert(wide(small@, 0, N) == small@) by (nonlinear_arith)
                requires
                    wide(small@, 0, N) == small@ + cap(N) * 0,
            ;
            lemma_tail_zero(c, small@);
        }
        fit_wide(*small, UInt::<N>::zero(), 0, 0, false, t as i128, rm, Sign::Plus, Ghost(c))
    } else {
        let z = d - p;
        let (q, rd, sticky) = split_tail(small, z);
        let pp = unchecked_power_of_ten::<N>(p);
        let (lo, hi) = big.widening_mul(&pp);
        proof {
            lemma_max_power_of_ten(N);
            pp.lemma_bound();
            lemma_pow10_pos(z as nat);
            vstd::arithmetic::div_mod::lemma_fundamental_div_mod(small@ as int, pow10(z as nat) as int);
            let m = uint_max(N);
            assert(q@ <= small@) by {
                vstd::arithmetic::div_mod::lemma_div_is_ordered_by_denominator(small@ as int, 1, pow10(z as nat) as int);
                vstd::arithmetic::div_mod::lemma_div_basics(small@ as int);
            }
            assert(big@ * pp@ + q@ < cap(N) * cap(N)) by (nonlinear_arith)
                requires
                    big@ <= m,
                    pp@ <= m,
                    q@ <= m,
                    m + 1 == cap(N),
            ;
        }
        let (lo2, hi2) = wide_add(&lo, &hi, &q);
        proof {
            let w = wide(lo2@, hi2@, N);
            let tt = small@ % pow10(z as nat);
            lemma_pow10_add(p as nat, z as nat);
            assert(p as nat + z as nat == d as nat);
            assert(c == w * pow10(z as nat) + tt) by (nonlinear_arith)
                requires
                    c == big@ * pow10(d as nat) + small@,
                    pow10(d as nat) == pow10(p as nat) * pow10(z as nat),
                    w == big@ * pow10(p as nat) + q@,
                    small@ == pow10(z as nat) * q@ + tt,
            ;
            vstd::arithmetic::div_mod::lemma_mod_bound(small@ as int, pow10(z as nat) as int);
            assert(w * pow10(z as nat) <= c);
            assert((c - w * pow10(z as nat)) as nat == tt);
            assert(tail_state(c, w, z as nat, rd as nat, sticky));
            assert forall|j: nat| j < z implies !#[trigger] fits_at(c, j, N, rm, Sign::Plus) by {
                lemma_pow10_add((d - j) as nat, j);
                lemma_pow10_pos((d - j) as nat);
                assert(c >= pow10((d - j) as nat + j)) by (nonlinear_arith)
                    requires
                        c == big@ * pow10(d as nat) + small@,
                        big@ >= 1,
                        pow10((d - j) as nat + j) == pow10(d as nat),
                ;
                lemma_big_head_no_fit(c, (d - j) as nat, j, N, rm, Sign::Plus);
            }
        }
        fit_wide(lo2, hi2, z as u64, rd, sticky, t as i128, rm, Sign::Plus, Ghost(c))
    }
}

/// An exact head: no dropped digit.
pub proof fn lemma_tail_zero(c: nat, w: nat)
    requires
        c == w,
    ensures
        tail_state(c, w, 0, 0, false),
        forall|j: nat| j < 0 ==> !#[trigger] fits_at(c, j, 1, RoundingMode::Down, Sign::Plus),
{
    assert(pow10(0) == 1);
    assert(w * pow10(0) == w) by (nonlinear_arith)
        requires
            pow10(0) == 1,
    ;
}

/// The product of the finite numbers `ca * 10^-sa` and `cb * 10^-sb`, fitted.
pub(crate) fn prod_finite<const N: usize>(ca: &UInt<N>, sa: i16, cb: &UInt<N>, sb: i16, rm: RoundingMode) -> (r: Fitted<N>)
    ensures
        r.spec() == spec_finish(ca@ * cb@, sa as int + sb as int, rm, Sign::Plus, N),
{
    let (lo, hi) = ca.widening_mul(cb);
    proof {
        lemma_tail_zero(ca@ * cb@, wide(lo@, hi@, N));
    }
    fit_wide(lo, hi, 0, 0, false, sa as i128 + sb as i128, rm, Sign::Plus, Ghost(ca@ * cb@))
}

/// `(x + y) % m` for `x` and `y` below `m`, without overflow.
fn add_mod<const N: usize>(x: &UInt<N>, y: &UInt<N>, m: &UInt<N>) -> (r: UInt<N>)
    requires
        x@ < m@,
        y@ < m@,
    ensures
        r@ == (x@ + y@) % m@,
        r@ < m@,
{
    proof {
        m.lemma_bound();
    }
    let gap = m.checked_sub(x).unwrap();
    if y.lt(&gap) {
        proof {
            vstd::arithmetic::div_mod::lemma_small_mod((x@ + y@) as nat, m@);
        }
        x.checked_add(y).unwrap()
    } else {
        proof {
            vstd::arithmetic::div_mod::lemma_fundamental_div_mod_converse(
                (x@ + y@) as int,
                m@ as int,
                1,
                (y@ - gap@) as int,
            );
        }
        y.checked_sub(&gap).unwrap()
    }
}

/// `(10 x) % m` for `x` below `m`, without overflow.
fn mul10_mod<const N: usize>(x: &UInt<N>, m: &UInt<N>) -> (r: UInt<N>)
    requires
        x@ < m@,
    ensures
        r@ == (x@ * 10) % m@,
        r@ < m@,
{
    let mut acc = UInt::<N>::zero_like(x);
    let mut i: u32 = 0;
    proof {
        vstd::arithmetic::div_mod::lemma_small_mod(0, m@);
    }
    while i < 10
        invariant
            i <= 10,
            x@ < m@,
            acc@ == (x@ * (i as nat)) % m@,
            acc@ < m@,
        decreases 10 - i,
    {
        let next = add_mod(&acc, x, m);
        proof {
            vstd::arithmetic::div_mod::lemma_small_mod(x@, m@);
            vstd::arithmetic::div_mod::lemma_add_mod_noop((x@ * (i as nat)) as int, x@ as int, m@ as int);
            assert(x@ * (i as nat) + x@ == x@ * ((i + 1) as nat)) by (nonlinear_arith);
        }
        acc = next;
        i = i + 1;
    }
    acc
}

/// The remainder of the finite numbers `ca * 10^-sa` by the non-zero
/// `cb * 10^-sb`, both brought to the larger scale; it is exact.
pub(crate) fn rem_finite<const N: usize>(ca: &UInt<N>, sa: i16, cb: &UInt<N>, sb: i16) -> (r: UInt<N>)
    requires
        cb@ != 0,
    ensures
        ({
            let t = if sa >= sb { sa as int } else { sb as int };
            r@ == aligned(ca@, sa as int, t) % aligned(cb@, sb as int, t)
        }),
{
    ca.width_is_valid();
    proof {
        ca.lemma_bound();
        cb.lemma_bound();
        assert(pow10(0) == 1);
        assert(ca@ * pow10(0) == ca@) by (nonlinear_arith)
            requires
                pow10(0) == 1,
        ;
        assert(cb@ * pow10(0) == cb@) by (nonlinear_arith)
            requires
                pow10(0) == 1,
        ;
    }
    if sa >= sb {
        // the divisor is brought up to the scale of the dividend
        let d = (sa as i32 - sb as i32) as u32;
        let scaled = match checked_power_of_ten::<N>(d) {
            Some(p) => cb.checked_mul(&p),
            None => None,
        };
        match scaled {
            Some(b) => {
                proof {
                    lemma_pow10_pos(d as nat);
                    assert(cb@ * pow10(d as nat) >= 1) by (nonlinear_arith)
                        requires
                            cb@ >= 1,
                            pow10(d as nat) >= 1,
                    ;
                }
                ca.checked_rem(&b).unwrap()
            },
            None => {
                proof {
                    lemma_pow10_pos(d as nat);
                    if pow10(d as nat) >= cap(N) {
                        assert(cb@ * pow10(d as nat) >= pow10(d as nat)) by (nonlinear_arith)
                            requires
                                cb@ >= 1,
                        ;
                    }
                    vstd::arithmetic::div_mod::lemma_small_mod(ca@, cb@ * pow10(d as nat));
                }
                *ca
            },
        }
    } else {
        // the dividend is brought up to the scale of the divisor, one digit
        // at a time, modulo the divisor
        let d = (sb as i32 - sa as i32) as u32;
        let mut r = ca.checked_rem(cb).unwrap();
        let mut k: u32 = 0;
        proof {
            vstd::arithmetic::div_mod::lemma_mod_pos_bound(ca@ as int, cb@ as int);
        }
        while k < d
            invariant
                k <= d,
                cb@ != 0,
                r@ < cb@,
                r@ == (ca@ * pow10(k as nat)) % cb@,
            decreases d - k,
        {
            let next = mul10_mod(&r, cb);
            proof {
                vstd::arithmetic::div_mod::lemma_mul_mod_noop_left((ca@ * pow10(k as nat)) as int, 10, cb@ as int);
                assert(pow10((k + 1) as nat) == 10 * pow10(k as nat));
                assert(ca@ * pow10(k as nat) * 10 == ca@ * pow10((k + 1) as nat)) by (nonlinear_arith)
                    requires
                        pow10((k + 1) as nat) == 10 * pow10(k as nat),
                ;
            }
            r = next;
            k = k + 1;
        }
        r
    }
}

/// A coefficient that fits, at a scale in range, is kept as it is.
pub proof fn lemma_finish_exact(c: nat, s: int, rm: RoundingMode, sign: Sign, n: usize)
    requires
        valid_width(n),
        c < cap(n),
        min_scale() <= s <= max_scale(),
    ensures
        spec_finish(c, s, rm, sign, n) == finish_scale(c, s, false, false, n),
{
    assert(fits_at(c, 0, n, rm, sign));
    lemma_precision_drop_exists(c, 0, n, rm, sign);
    assert(finish_drop(c, s, rm, sign, n) == 0);
    assert(pow10(0) == 1);
    assert(c % 1 == 0);
}

/// A number of at least `cap * 10^j` does not fit after dropping `j` digits.
pub proof fn lemma_quotient_no_fit(c: nat, j: nat, n: usize, rm: RoundingMode, sign: Sign)
    requires
        c >= cap(n) * pow10(j),
    ensures
        !fits_at(c, j, n, rm, sign),
{
    lemma_pow10_pos(j);
    vstd::arithmetic::div_mod::lemma_fundamental_div_mod(c as int, pow10(j) as int);
    let q = c / pow10(j);
    assert(q >= cap(n)) by (nonlinear_arith)
        requires
            c >= cap(n) * pow10(j),
            c == pow10(j) * q + c % pow10(j),
            c % pow10(j) < pow10(j),
            pow10(j) >= 1,
    ;
    if j > 0 {
        assert(round_div(c, j, rm, sign) >= q);
    }
}

/// The difference `a - b` (not negative) of the finite numbers
/// `ca * 10^-sa` and `cb * 10^-sb`, fitted.
pub(crate) fn diff_finite<const N: usize>(ca: &UInt<N>, sa: i16, cb: &UInt<N>, sb: i16, rm: RoundingMode) -> (r: Fitted<N>)
    requires
        !crate::decimal::less_value(ca@, sa as int, cb@, sb as int),
    ensures
        ({
            let t = if sa >= sb { sa as int } else { sb as int };
            r.spec() == spec_finish(
                (aligned(ca@, sa as int, t) - aligned(cb@, sb as int, t)) as nat,
                t,
                rm,
                Sign::Plus,
                N,
            )
        }),
{
    ca.width_is_valid();
    proof {
        ca.lemma_bound();
        cb.lemma_bound();
        lemma_limb_cap_pos(N as nat);
        assert(pow10(0) == 1);
        assert(ca@ * pow10(0) == ca@) by (nonlinear_arith)
            requires
                pow10(0) == 1,
        ;
        assert(cb@ * pow10(0) == cb@) by (nonlinear_arith)
            requires
                pow10(0) == 1,
        ;
    }
    if sa >= sb {
        // a has the larger scale: b is brought up to it, and stays below a
        let d = (sa as i32 - sb as i32) as u32;
        let ghost c = (ca@ - cb@ * pow10(d as nat)) as nat;
        let sub = if cb.is_zero() {
            proof {
                assert(cb@ * pow10(d as nat) == 0) by (nonlinear_arith)
                    requires
                        cb@ == 0,
                ;
            }
            *cb
        } else {
            proof {
                lemma_pow10_pos(d as nat);
                assert(cb@ * pow10(d as nat) >= pow10(d as nat)) by (nonlinear_arith)
                    requires
                        cb@ >= 1,
                ;
            }
            let pd = checked_power_of_ten::<N>(d).unwrap();
            cb.checked_mul(&pd).unwrap()
        };
        let diff = ca.checked_sub(&sub).unwrap();
        proof {
            assert(wide(diff@, 0, N) == diff@) by (nonlinear_arith)
                requires
                    wide(diff@, 0, N) == diff@ + cap(N) * 0,
            ;
            lemma_tail_zero(c, diff@);
        }
        return fit_wide(diff, UInt::<N>::zero(), 0, 0, false, sa as i128, rm, Sign::Plus, Ghost(c));
    }
    // b has the larger scale: a is brought up to it
    let d = (sb as i32 - sa as i32) as u32;
    let ghost c = (ca@ * pow10(d as nat) - cb@) as nat;
    let p = max_power_of_ten_exec::<N>();
    if d <= p {
        let pd = unchecked_power_of_ten::<N>(d);
        let (lo, hi) = ca.widening_mul(&pd);
        let (lo2, hi2) = wide_sub(&lo, &hi, cb);
        proof {
            lemma_tail_zero(c, wide(lo2@, hi2@, N));
        }
        return fit_wide(lo2, hi2, 0, 0, false, sb as i128, rm, Sign::Plus, Ghost(c));
    }
    if ca.is_zero() {
        proof {
            assert(ca@ * pow10(d as nat) == 0) by (nonlinear_arith)
                requires
                    ca@ == 0,
            ;
            assert(wide(0, 0, N) == 0) by (nonlinear_arith)
                requires
                    wide(0, 0, N) == 0 + cap(N) * 0,
            ;
            lemma_tail_zero(c, 0);
        }
        return fit_wide(*ca, *ca, 0, 0, false, sb as i128, rm, Sign::Plus, Ghost(c));
    }
    let pp = unchecked_power_of_ten::<N>(p);
    let (lo, hi) = ca.widening_mul(&pp);
    // the head ca * 10^(p + 1) when it fits two halves, ca * 10^p otherwise
    let m10 = wide_mul10(&lo, &hi);
    let scaled10 = m10.is_some();
    let (w_lo, w_hi, z) = match m10 {
        Some((l, h)) => (l, h, d - p - 1),
        None => (lo, hi, d - p),
    };
    let ghost w0 = wide(w_lo@, w_hi@, N);
    proof {
        lemma_max_power_of_ten(N);
        lemma_pow10_add(p as nat, (d - p) as nat);
        lemma_pow10_add((p + 1) as nat, (d - p - 1) as nat);
        assert(pow10((p + 1) as nat) == 10 * pow10(p as nat));
        assert(wide(lo@, hi@, N) == ca@ * pow10(p as nat));
        if scaled10 {
            assert(w0 == ca@ * pow10(p as nat) * 10);
            assert(w0 * pow10(z as nat) == ca@ * pow10(d as nat)) by (nonlinear_arith)
                requires
                    w0 == ca@ * pow10(p as nat) * 10,
                    z == d - p - 1,
                    pow10(d as nat) == pow10((p + 1) as nat) * pow10((d - p - 1) as nat),
                    pow10((p + 1) as nat) == 10 * pow10(p as nat),
            ;
        } else {
            assert(w0 == ca@ * pow10(p as nat));
            assert(w0 * pow10(z as nat) == ca@ * pow10(d as nat)) by (nonlinear_arith)
                requires
                    w0 == ca@ * pow10(p as nat),
                    z == d - p,
                    pow10(d as nat) == pow10(p as nat) * pow10((d - p) as nat),
            ;
        }
        // fewer than z dropped digits never fit
        assert forall|j: nat| j < z implies !#[trigger] fits_at(c, j, N, rm, Sign::Plus) by {
            lemma_no_fit_below(c, ca@, cb@, d as nat, p as nat, j, w0, z as nat, N, rm);
        }
    }
    if z == 0 {
        proof {
            assert(aligned(ca@, sa as int, sb as int) == ca@ * pow10(d as nat));
            assert(aligned(cb@, sb as int, sb as int) == cb@ * pow10(0));
            assert(pow10(0) == 1);
            assert(w0 * pow10(0) == w0) by (nonlinear_arith)
                requires
                    pow10(0) == 1,
            ;
            assert(w0 >= cb@);
        }
        let (l2, h2) = wide_sub(&w_lo, &w_hi, cb);
        proof {
            assert(pow10(0) == 1);
            assert(w0 * pow10(0) == w0) by (nonlinear_arith)
                requires
                    pow10(0) == 1,
            ;
            lemma_tail_zero(c, wide(l2@, h2@, N));
        }
        return fit_wide(l2, h2, 0, 0, false, sb as i128, rm, Sign::Plus, Ghost(c));
    }
    let (q, t1, sticky) = split_tail(cb, z);
    proof {
        assert(aligned(ca@, sa as int, sb as int) == ca@ * pow10(d as nat));
        assert(aligned(cb@, sb as int, sb as int) == cb@ * pow10(0));
        assert(w0 * pow10(z as nat) >= cb@);
        lemma_pow10_pos(z as nat);
        vstd::arithmetic::div_mod::lemma_fundamental_div_mod(cb@ as int, pow10(z as nat) as int);
        assert(w0 * pow10(z as nat) >= q@ * pow10(z as nat) + cb@ % pow10(z as nat)) by (nonlinear_arith)
            requires
                w0 * pow10(z as nat) >= cb@,
                cb@ == pow10(z as nat) * q@ + cb@ % pow10(z as nat),
        ;
        assert(w0 >= q@) by (nonlinear_arith)
            requires
                w0 * pow10(z as nat) >= q@ * pow10(z as nat) + cb@ % pow10(z as nat),
                pow10(z as nat) >= 1,
        ;
    }
    let (h_lo, h_hi) = wide_sub(&w_lo, &w_hi, &q);
    if t1 == 0 && !sticky {
        // the tail of b is zero: the difference is exact at 10^z
        proof {
            lemma_tail_sub_exact(c, w0, q@, cb@, z as nat, t1 as nat, sticky);
        }
        fit_wide(h_lo, h_hi, z as u64, 0, false, sb as i128, rm, Sign::Plus, Ghost(c))
    } else {
        // borrow one unit of 10^z: the tail becomes 10^z minus b's tail
        proof {
            lemma_tail_borrow_possible(w0, q@, cb@, z as nat, t1 as nat, sticky);
        }
        let (b_lo, b_hi) = wide_sub(&h_lo, &h_hi, &UInt::<N>::from_u64(1));
        let rd: u8 = if sticky { 9 - t1 } else { 10 - t1 };
        proof {
            lemma_tail_sub_borrow(c, w0, q@, cb@, z as nat, t1 as nat, sticky, rd as nat);
        }
        fit_wide(b_lo, b_hi, z as u64, rd, sticky, sb as i128, rm, Sign::Plus, Ghost(c))
    }
}

proof fn lemma_no_fit_below(
    c: nat,
    ca: nat,
    cb: nat,
    d: nat,
    p: nat,
    j: nat,
    w0: nat,
    z: nat,
    n: usize,
    rm: RoundingMode,
)
    requires
        valid_width(n),
        p == max_power_of_ten(n),
        d > p,
        ca >= 1,
        cb < cap(n),
        c == ca * pow10(d) - cb,
        j < z,
        (w0 == ca * pow10(p) * 10 && z == d - p - 1) || (w0 == ca * pow10(p) && z == d - p && ca * pow10(p)
            * 10 >= cap(n) * cap(n)),
    ensures
        !fits_at(c, j, n, rm, Sign::Plus),
{
    lemma_max_power_of_ten(n);
    lemma_limb_cap_pos(n as nat);
    let cp = cap(n);
    assert(cp <= pow10(p + 1));
    lemma_pow10_pos(j);
    if j + p + 2 <= d {
        // 10^d >= 10^(p + 2) 10^j >= 10 cap 10^j
        lemma_pow10_add((d - j) as nat, j);
        assert((d - j) as nat + j == d);
        lemma_pow10_mono(p + 2, (d - j) as nat);
        assert(pow10(p + 2) == 10 * pow10(p + 1));
        assert(c >= cp * pow10(j)) by (nonlinear_arith)
            requires
                c == ca * pow10(d) - cb,
                ca >= 1,
                cb < cp,
                pow10(d) == pow10((d - j) as nat) * pow10(j),
                pow10((d - j) as nat) >= pow10(p + 2),
                pow10(p + 2) == 10 * pow10(p + 1),
                cp <= pow10(p + 1),
                pow10(j) >= 1,
        ;
    } else {
        // j == d - p - 1, where ca 10^(p + 1) does not fit two halves
        assert(j == d - p - 1);
        lemma_pow10_add(p + 1, j);
        assert(p + 1 + j == d);
        assert(pow10(p + 1) == 10 * pow10(p));
        assert(c >= cp * pow10(j)) by (nonlinear_arith)
            requires
                c == ca * pow10(d) - cb,
                pow10(d) == pow10(p + 1) * pow10(j),
                pow10(p + 1) == 10 * pow10(p),
                ca * pow10(p) * 10 >= cp * cp,
                cb < cp,
                cp >= 2,
                pow10(j) >= 1,
        ;
    }
    lemma_quotient_no_fit(c, j, n, rm, Sign::Plus);
}

proof fn lemma_tail_sub_exact(c: nat, w0: nat, q: nat, cb: nat, z: nat, t1: nat, sticky: bool)
    requires
        z >= 1,
        c == w0 * pow10(z) - cb,
        w0 >= q,
        q == cb / pow10(z),
        t1 == (cb % pow10(z)) / pow10((z - 1) as nat),
        sticky == ((cb % pow10(z)) % pow10((z - 1) as nat) != 0),
        t1 == 0,
        !sticky,
    ensures
        tail_state(c, (w0 - q) as nat, z, 0, false),
{
    lemma_pow10_pos(z);
    lemma_pow10_pos((z - 1) as nat);
    let tt = cb % pow10(z);
    vstd::arithmetic::div_mod::lemma_fundamental_div_mod(tt as int, pow10((z - 1) as nat) as int);
    assert(tt == 0) by (nonlinear_arith)
        requires
            tt == pow10((z - 1) as nat) * t1 + tt % pow10((z - 1) as nat),
            t1 == 0,
            tt % pow10((z - 1) as nat) == 0,
    ;
    vstd::arithmetic::div_mod::lemma_fundamental_div_mod(cb as int, pow10(z) as int);
    assert(c == (w0 - q) * pow10(z)) by (nonlinear_arith)
        requires
            c == w0 * pow10(z) - cb,
            cb == pow10(z) * q + tt,
            tt == 0,
            w0 >= q,
    ;
    assert((c - (w0 - q) * pow10(z)) as nat == 0);
    assert(0nat / pow10((z - 1) as nat) == 0);
    assert(0nat % pow10((z - 1) as nat) == 0);
}

proof fn lemma_tail_borrow_possible(w0: nat, q: nat, cb: nat, z: nat, t1: nat, sticky: bool)
    requires
        z >= 1,
        w0 * pow10(z) >= cb,
        q == cb / pow10(z),
        t1 == (cb % pow10(z)) / pow10((z - 1) as nat),
        sticky == ((cb % pow10(z)) % pow10((z - 1) as nat) != 0),
        !(t1 == 0 && !sticky),
    ensures
        w0 >= q + 1,
        cb % pow10(z) > 0,
{
    lemma_pow10_pos(z);
    lemma_pow10_pos((z - 1) as nat);
    let tt = cb % pow10(z);
    if tt == 0 {
        assert(0nat / pow10((z - 1) as nat) == 0);
        assert(0nat % pow10((z - 1) as nat) == 0);
    }
    vstd::arithmetic::div_mod::lemma_fundamental_div_mod(cb as int, pow10(z) as int);
    assert(w0 >= q + 1) by (nonlinear_arith)
        requires
            w0 * pow10(z) >= cb,
            cb == pow10(z) * q + tt,
            tt > 0,
            pow10(z) >= 1,
    ;
}

proof fn lemma_tail_sub_borrow(c: nat, w0: nat, q: nat, cb: nat, z: nat, t1: nat, sticky: bool, rd: nat)
    requires
        z >= 1,
        c == w0 * pow10(z) - cb,
        w0 >= q + 1,
        q == cb / pow10(z),
        cb % pow10(z) > 0,
        t1 == (cb % pow10(z)) / pow10((z - 1) as nat),
        sticky == ((cb % pow10(z)) % pow10((z - 1) as nat) != 0),
        rd == if sticky { 9 - t1 } else { 10 - t1 },
    ensures
        tail_state(c, (w0 - q - 1) as nat, z, rd, sticky),
        rd <= 9,
{
    let p1 = pow10((z - 1) as nat);
    lemma_pow10_pos(z);
    lemma_pow10_pos((z - 1) as nat);
    assert(pow10(z) == 10 * p1);
    let tt = cb % pow10(z);
    let t0 = tt % p1;
    vstd::arithmetic::div_mod::lemma_fundamental_div_mod(cb as int, pow10(z) as int);
    vstd::arithmetic::div_mod::lemma_fundamental_div_mod(tt as int, p1 as int);
    vstd::arithmetic::div_mod::lemma_mod_bound(cb as int, pow10(z) as int);
    assert(t1 <= 9) by (nonlinear_arith)
        requires
            tt == p1 * t1 + t0,
            tt < 10 * p1,
            t0 >= 0,
            p1 >= 1,
    ;
    let w = (w0 - q - 1) as nat;
    let tn = (pow10(z) - tt) as nat;
    assert(c == w * pow10(z) + tn) by (nonlinear_arith)
        requires
            c == w0 * pow10(z) - cb,
            cb == pow10(z) * q + tt,
            w == w0 - q - 1,
            tn == pow10(z) - tt,
            tt < pow10(z),
    ;
    assert((c - w * pow10(z)) as nat == tn);
    if sticky {
        // tn = (9 - t1) p1 + (p1 - t0), with 0 < p1 - t0 < p1
        assert(tn == (9 - t1) * p1 + (p1 - t0)) by (nonlinear_arith)
            requires
                tn == 10 * p1 - tt,
                tt == p1 * t1 + t0,
                t1 <= 9,
        ;
        vstd::arithmetic::div_mod::lemma_fundamental_div_mod_converse(tn as int, p1 as int, (9 - t1) as int, (p1 - t0) as int);
    } else {
        assert(t1 >= 1) by {
            if t1 == 0 {
                assert(tt == 0) by (nonlinear_arith)
                    requires
                        tt == p1 * t1 + t0,
                        t1 == 0,
                        t0 == 0,
                ;
            }
        }
        assert(tn == (10 - t1) * p1) by (nonlinear_arith)
            requires
                tn == 10 * p1 - tt,
                tt == p1 * t1 + t0,
                t0 == 0,
                t1 <= 9,
        ;
        vstd::arithmetic::div_mod::lemma_fundamental_div_mod_converse(tn as int, p1 as int, (10 - t1) as int, 0);
    }
}

} // verus!
