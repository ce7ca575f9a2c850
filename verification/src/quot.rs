//! The quotient of two finite numbers: exact where a fitting coefficient
//! holds it, at the scale closest to the ideal one, and otherwise correctly
//! rounded at the largest precision that fits.
use vstd::prelude::*;

use crate::ascii::{lemma_pow10_add, lemma_pow10_mono, lemma_pow10_pos, pow10};
use crate::num::{
    finish_scale, fit_wide, fits_at, lemma_finish_exact, lemma_quotient_no_fit, lemma_tail_zero, max_scale,
    min_scale, spec_finish, tail_state, wide, wide_add, wide_mul10, FitSpec, Fitted,
};
use crate::powers::checked_power_of_ten;
use crate::round::{RoundingMode, Sign};
use crate::uint::{cap, lemma_limb_cap_pos, valid_width, UInt};

verus! {

/// The numerator of `ca / cb * 10^e` as a fraction of naturals.
pub open spec fn quot_num(ca: nat, e: int) -> nat {
    if e >= 0 {
        ca * pow10(e as nat)
    } else {
        ca
    }
}

/// The denominator of `ca / cb * 10^e` as a fraction of naturals.
pub open spec fn quot_den(cb: nat, e: int) -> nat {
    if e >= 0 {
        cb
    } else {
        cb * pow10((-e) as nat)
    }
}

/// `ca / cb * 10^e`, truncated.
pub open spec fn quot_floor(ca: nat, cb: nat, e: int) -> nat {
    quot_num(ca, e) / quot_den(cb, e)
}

/// Whether `ca / cb * 10^e` is an integer.
pub open spec fn quot_exact(ca: nat, cb: nat, e: int) -> bool {
    quot_num(ca, e) % quot_den(cb, e) == 0
}

/// Whether the quotient of ideal scale `si` is held exactly, at the scale
/// `s`, by a coefficient that fits.
pub open spec fn exact_fit_at(ca: nat, cb: nat, si: int, s: int, n: usize) -> bool {
    quot_exact(ca, cb, s - si) && quot_floor(ca, cb, s - si) < cap(n)
}

/// The first scale from `s` up to the largest at which the quotient is held
/// exactly by a coefficient that fits (one past the largest scale if none).
pub open spec fn first_exact_from(ca: nat, cb: nat, si: int, s: int, n: usize) -> int
    decreases max_scale() + 1 - s,
{
    if s > max_scale() {
        max_scale() + 1
    } else if exact_fit_at(ca, cb, si, s, n) {
        s
    } else {
        first_exact_from(ca, cb, si, s + 1, n)
    }
}

/// The lowest scale an exact quotient may take: the ideal one, or the
/// smallest scale when the ideal one is below it.
pub open spec fn quot_lowest(si: int) -> int {
    if si >= min_scale() {
        si
    } else {
        min_scale()
    }
}

/// The quotient truncated one digit beyond the largest scale, with a last
/// digit that is non-zero exactly when the truncation dropped something: it
/// rounds, to any scale up to the largest, as the quotient itself does.
pub open spec fn quot_surrogate(ca: nat, cb: nat, si: int) -> nat {
    let e = max_scale() + 1 - si;
    quot_floor(ca, cb, e) * 10 + if quot_exact(ca, cb, e) {
        0nat
    } else {
        1nat
    }
}

/// The quotient `ca * 10^-sa / (cb * 10^-sb)` of ideal scale `si = sa - sb`
/// for `n` limbs: exact, at the first scale from the ideal one (or the
/// smallest) where a fitting coefficient holds it, if there is one;
/// otherwise rounded by `rm` at the largest precision that fits (see
/// `spec_finish`).
pub open spec fn quotient_fit(ca: nat, cb: nat, si: int, rm: RoundingMode, n: usize) -> FitSpec {
    let f = first_exact_from(ca, cb, si, quot_lowest(si), n);
    if f <= max_scale() {
        finish_scale(quot_floor(ca, cb, f - si), f, false, false, n)
    } else {
        spec_finish(quot_surrogate(ca, cb, si), max_scale() + 2, rm, Sign::Plus, n)
    }
}

/// One more digit of a quotient.
proof fn lemma_quot_step(ca: nat, cb: nat, e: int, q: nat, r: nat, d: nat, r2: nat)
    requires
        e >= 0,
        cb > 0,
        q == quot_floor(ca, cb, e),
        r == quot_num(ca, e) % cb,
        r * 10 == d * cb + r2,
        r2 < cb,
    ensures
        quot_floor(ca, cb, e + 1) == q * 10 + d,
        quot_num(ca, e + 1) % cb == r2,
{
    let x = quot_num(ca, e);
    vstd::arithmetic::div_mod::lemma_fundamental_div_mod(x as int, cb as int);
    assert(pow10((e + 1) as nat) == 10 * pow10(e as nat));
    assert(quot_num(ca, e + 1) == x * 10) by (nonlinear_arith)
        requires
            quot_num(ca, e + 1) == ca * pow10((e + 1) as nat),
            x == ca * pow10(e as nat),
            pow10((e + 1) as nat) == 10 * pow10(e as nat),
    ;
    assert(x * 10 == (q * 10 + d) * cb + r2) by (nonlinear_arith)
        requires
            x == cb * q + r,
            r * 10 == d * cb + r2,
    ;
    vstd::arithmetic::div_mod::lemma_fundamental_div_mod_converse(
        (x * 10) as int,
        cb as int,
        (q * 10 + d) as int,
        r2 as int,
    );
}

/// A quotient grows tenfold with each scale.
proof fn lemma_quot_grow(ca: nat, cb: nat, e: int, j: nat)
    requires
        e >= 0,
        cb > 0,
    ensures
        quot_floor(ca, cb, e + j) >= quot_floor(ca, cb, e) * pow10(j),
{
    let x = quot_num(ca, e);
    let q = x / cb;
    vstd::arithmetic::div_mod::lemma_fundamental_div_mod(x as int, cb as int);
    lemma_pow10_add(e as nat, j);
    assert(e as nat + j == (e + j) as nat);
    assert(quot_num(ca, e + j) == x * pow10(j)) by (nonlinear_arith)
        requires
            quot_num(ca, e + j) == ca * pow10((e + j) as nat),
            x == ca * pow10(e as nat),
            pow10((e + j) as nat) == pow10(e as nat) * pow10(j),
    ;
    lemma_pow10_pos(j);
    assert(x * pow10(j) >= cb * (q * pow10(j))) by (nonlinear_arith)
        requires
            x == cb * q + x % cb,
            x % cb >= 0,
            pow10(j) >= 1,
    ;
    vstd::arithmetic::div_mod::lemma_div_is_ordered((cb * (q * pow10(j))) as int, (x * pow10(j)) as int, cb as int);
    vstd::arithmetic::div_mod::lemma_div_by_multiple((q * pow10(j)) as int, cb as int);
    assert(cb * (q * pow10(j)) == (q * pow10(j)) * cb) by (nonlinear_arith);
}

/// No scale from `x` up holds the quotient in a fitting coefficient once it
/// does not fit at `x`.
proof fn lemma_first_none(ca: nat, cb: nat, si: int, x: int, n: usize)
    requires
        x - si >= 0,
        cb > 0,
        quot_floor(ca, cb, x - si) >= cap(n),
    ensures
        first_exact_from(ca, cb, si, x, n) == max_scale() + 1,
    decreases max_scale() + 1 - x,
{
    if x <= max_scale() {
        lemma_quot_grow(ca, cb, x - si, 1);
        assert(pow10(1) == 10) by {
            assert(pow10(0) == 1);
        }
        assert(x + 1 - si == (x - si) + 1);
        lemma_first_none(ca, cb, si, x + 1, n);
    }
}

/// The tail of the surrogate after a head `h` that no longer fits: its first
/// digit is the next digit of the quotient, and the rest is non-zero exactly
/// when the remainder after that digit is.
proof fn lemma_quot_tail(ca: nat, cb: nat, si: int, s: int, h: nat, r1: nat, d2: nat, r2: nat)
    requires
        cb > 0,
        s + 1 - si >= 0,
        s < max_scale(),
        h == quot_floor(ca, cb, s + 1 - si),
        r1 == quot_num(ca, s + 1 - si) % cb,
        r1 * 10 == d2 * cb + r2,
        r2 < cb,
        d2 <= 9,
    ensures
        tail_state(quot_surrogate(ca, cb, si), h, (max_scale() + 1 - s) as nat, d2, r2 != 0),
{
    let e1 = s + 1 - si;
    let m = (max_scale() - s) as nat;
    let pm1 = pow10((m - 1) as nat);
    let pm = pow10(m);
    lemma_pow10_pos((m - 1) as nat);
    assert(pm == 10 * pm1);
    let big = max_scale() + 1 - si;
    assert(big == e1 + m);
    // the numerator at the surrogate's scale
    let x1 = quot_num(ca, e1);
    vstd::arithmetic::div_mod::lemma_fundamental_div_mod(x1 as int, cb as int);
    lemma_pow10_add(e1 as nat, m);
    assert(e1 as nat + m == big as nat);
    assert(quot_num(ca, big) == x1 * pm) by (nonlinear_arith)
        requires
            quot_num(ca, big) == ca * pow10(big as nat),
            x1 == ca * pow10(e1 as nat),
            pow10(big as nat) == pow10(e1 as nat) * pm,
    ;
    let y = r2 * pm1;
    let g = y / cb;
    let rr = y % cb;
    vstd::arithmetic::div_mod::lemma_fundamental_div_mod(y as int, cb as int);
    assert(quot_num(ca, big) == cb * (h * pm + d2 * pm1 + g) + rr) by (nonlinear_arith)
        requires
            quot_num(ca, big) == x1 * pm,
            x1 == cb * h + r1,
            r1 * 10 == d2 * cb + r2,
            pm == 10 * pm1,
            y == r2 * pm1,
            y == cb * g + rr,
    ;
    vstd::arithmetic::div_mod::lemma_mod_pos_bound(y as int, cb as int);
    assert(quot_num(ca, big) == (h * pm + d2 * pm1 + g) * cb + rr) by (nonlinear_arith)
        requires
            quot_num(ca, big) == cb * (h * pm + d2 * pm1 + g) + rr,
    ;
    vstd::arithmetic::div_mod::lemma_fundamental_div_mod_converse(
        quot_num(ca, big) as int,
        cb as int,
        (h * pm + d2 * pm1 + g) as int,
        rr as int,
    );
    let f = quot_floor(ca, cb, big);
    assert(f == h * pm + d2 * pm1 + g);
    assert(quot_exact(ca, cb, big) == (rr == 0));
    // the part below the next digit is below one unit of it
    assert(g < pm1) by (nonlinear_arith)
        requires
            y == r2 * pm1,
            y == cb * g + rr,
            rr >= 0,
            r2 < cb,
            pm1 >= 1,
    ;
    let st: nat = if rr == 0 {
        0
    } else {
        1
    };
    let c = quot_surrogate(ca, cb, si);
    assert(c == f * 10 + st);
    let k = m + 1;
    assert(pow10(k) == 10 * pm);
    let t = d2 * pm + (g * 10 + st);
    assert(c == h * pow10(k) + t) by (nonlinear_arith)
        requires
            c == f * 10 + st,
            f == h * pm + d2 * pm1 + g,
            pm == 10 * pm1,
            pow10(k) == 10 * pm,
            t == d2 * pm + (g * 10 + st),
    ;
    assert(g * 10 + st < pm) by (nonlinear_arith)
        requires
            g < pm1,
            st <= 1,
            pm == 10 * pm1,
    ;
    assert(t < pow10(k)) by (nonlinear_arith)
        requires
            t == d2 * pm + (g * 10 + st),
            g * 10 + st < pm,
            d2 <= 9,
            pow10(k) == 10 * pm,
    ;
    vstd::arithmetic::div_mod::lemma_fundamental_div_mod_converse(t as int, pm as int, d2 as int, (g * 10 + st) as int);
    assert((k - 1) as nat == m);
    // the rest is zero exactly when the remainder after the next digit is
    if r2 == 0 {
        assert(y == 0);
        assert(g == 0 && rr == 0) by {
            vstd::arithmetic::div_mod::lemma_div_of0(cb as int);
        }
    } else {
        assert(y > 0) by (nonlinear_arith)
            requires
                y == r2 * pm1,
                r2 >= 1,
                pm1 >= 1,
        ;
        assert(g > 0 || rr > 0) by (nonlinear_arith)
            requires
                y == cb * g + rr,
                y > 0,
        ;
    }
}

/// The next digit of a quotient and the remainder after it: `10 r = d b + r2`.
fn digit_step<const N: usize>(r: &UInt<N>, b: &UInt<N>) -> (out: (u8, UInt<N>))
    requires
        r@ < b@,
    ensures
        r@ * 10 == out.0 * b@ + out.1@,
        out.1@ < b@,
        out.0 <= 9,
{
    proof {
        b.lemma_bound();
    }
    let mut acc = UInt::<N>::zero_like(r);
    let mut d: u8 = 0;
    let mut i: u8 = 0;
    while i < 10
        invariant
            i <= 10,
            d <= i,
            r@ < b@,
            b@ < cap(N),
            acc@ < b@,
            r@ * i == d * b@ + acc@,
        decreases 10 - i,
    {
        let gap = b.checked_sub(&acc).unwrap();
        assert(r@ * (i + 1) == r@ * i + r@) by (nonlinear_arith);
        assert((d + 1) * b@ == d * b@ + b@) by (nonlinear_arith);
        if r.lt(&gap) {
            acc = acc.checked_add(r).unwrap();
        } else {
            acc = r.checked_sub(&gap).unwrap();
            d = d + 1;
        }
        i = i + 1;
    }
    if d == 10 {
        assert(r@ * 10 >= 10 * b@) by (nonlinear_arith)
            requires
                r@ * 10 == 10 * b@ + acc@,
        ;
    }
    (d, acc)
}

/// `10 w + d` as two halves, for `w` below `10 cap`.
pub(crate) fn times_ten_plus<const N: usize>(lo: &UInt<N>, hi: &UInt<N>, d: u8) -> (r: (UInt<N>, UInt<N>))
    requires
        wide(lo@, hi@, N) < cap(N) * 10,
        d <= 9,
    ensures
        wide(r.0@, r.1@, N) == wide(lo@, hi@, N) * 10 + d,
{
    lo.width_is_valid();
    proof {
        lemma_limb_cap_pos(N as nat);
        let cp = cap(N);
        assert(cp >= 0x1_0000_0000_0000_0000);
        assert(wide(lo@, hi@, N) * 10 + 9 < cp * cp) by (nonlinear_arith)
            requires
                wide(lo@, hi@, N) < cp * 10,
                cp >= 0x1_0000_0000_0000_0000,
        ;
    }
    let (l, h) = wide_mul10(lo, hi).unwrap();
    wide_add(&l, &h, &UInt::<N>::from_u64(d as u64))
}

/// The quotient of the finite `ca * 10^-sa` by the non-zero `cb * 10^-sb`,
/// fitted (see `quotient_fit`).
pub(crate) fn quot_finite<const N: usize>(ca: &UInt<N>, sa: i16, cb: &UInt<N>, sb: i16, rm: RoundingMode) -> (r: Fitted<
    N,
>)
    requires
        cb@ != 0,
    ensures
        r.spec() == quotient_fit(ca@, cb@, sa as int - sb as int, rm, N),
{
    ca.width_is_valid();
    let ghost a = ca@;
    let ghost b = cb@;
    let si: i32 = sa as i32 - sb as i32;
    let zero = UInt::<N>::zero_like(ca);
    proof {
        ca.lemma_bound();
        cb.lemma_bound();
        lemma_limb_cap_pos(N as nat);
        assert(pow10(0) == 1);
        assert(a * pow10(0) == a) by (nonlinear_arith)
            requires
                pow10(0) == 1,
        ;
        assert(quot_num(a, 0) == a);
        assert(wide(0, 0, N) == 0) by (nonlinear_arith)
            requires
                wide(0, 0, N) == 0 + cap(N) * 0,
        ;
    }
    let q0 = ca.checked_div(cb).unwrap();
    let r0 = ca.checked_rem(cb).unwrap();
    proof {
        vstd::arithmetic::div_mod::lemma_div_is_ordered_by_denominator(a as int, 1, b as int);
        vstd::arithmetic::div_mod::lemma_mod_pos_bound(a as int, b as int);
        assert(q0@ <= a);
    }
    if si > 32767 {
        // even the largest scale is below the ideal one: the quotient is
        // divided by a further power of ten
        let k = (si - 32768) as u32;
        let ghost e = max_scale() + 1 - si;
        proof {
            lemma_pow10_pos(k as nat);
        }
        let (f, m) = match checked_power_of_ten::<N>(k) {
            Some(p) => (q0.checked_div(&p).unwrap(), q0.checked_rem(&p).unwrap()),
            None => {
                proof {
                    vstd::arithmetic::div_mod::lemma_small_mod(q0@, pow10(k as nat));
                    vstd::arithmetic::div_mod::lemma_basic_div(q0@ as int, pow10(k as nat) as int);
                }
                (zero, q0)
            },
        };
        proof {
            lemma_pow10_pos(k as nat);
            assert(-e == k);
            if e == 0 {
                assert(b * pow10(0) == b) by (nonlinear_arith)
                    requires
                        pow10(0) == 1,
                ;
            }
            assert(quot_den(b, e) == b * pow10(k as nat));
            assert(quot_num(a, e) == a);
            vstd::arithmetic::div_mod::lemma_div_denominator(a as int, b as int, pow10(k as nat) as int);
            vstd::arithmetic::div_mod::lemma_mod_breakdown(a as int, b as int, pow10(k as nat) as int);
            assert(quot_floor(a, b, e) == f@);
            assert(quot_exact(a, b, e) == (r0@ == 0 && m@ == 0)) by (nonlinear_arith)
                requires
                    quot_num(a, e) % quot_den(b, e) == b * m@ + r0@,
                    b >= 1,
                    quot_exact(a, b, e) == (quot_num(a, e) % quot_den(b, e) == 0),
            ;
            assert(first_exact_from(a, b, si as int, quot_lowest(si as int), N) == max_scale() + 1);
            assert(wide(f@, 0, N) == f@) by (nonlinear_arith)
                requires
                    wide(f@, 0, N) == f@ + cap(N) * 0,
            ;
            f.lemma_bound();
        }
        let st: u8 = if r0.is_zero() && m.is_zero() { 0 } else { 1 };
        let (l, h) = times_ten_plus(&f, &zero, st);
        proof {
            lemma_tail_zero(quot_surrogate(a, b, si as int), wide(l@, h@, N));
        }
        return fit_wide(l, h, 0, 0, false, 32769, rm, Sign::Plus, Ghost(quot_surrogate(a, b, si as int)));
    }
    let lowest: i32 = if si >= -32768 { si } else { -32768 };
    let mut q = q0;
    let mut r = r0;
    let mut s: i32 = si;
    proof {
        vstd::arithmetic::div_mod::lemma_fundamental_div_mod(a as int, b as int);
    }
    loop
        invariant
            valid_width(N),
            a == ca@,
            -65535 <= si <= 32767,
            si == sa as int - sb as int,
            si <= s <= 32767,
            lowest == quot_lowest(si as int),
            lowest <= 32767,
            b == cb@,
            b != 0,
            b < cap(N),
            q@ == quot_floor(a, b, s - si),
            r@ == quot_num(a, s - si) % b,
            r@ < b,
            q@ < cap(N),
            zero@ == 0,
            s < lowest || first_exact_from(a, b, si as int, lowest as int, N) == first_exact_from(
                a,
                b,
                si as int,
                s as int,
                N,
            ),
        decreases 32767 - s,
    {
        if s >= lowest && r.is_zero() {
            // exact, at the first scale that can hold it
            proof {
                assert(exact_fit_at(a, b, si as int, s as int, N));
                lemma_finish_exact(q@, s as int, rm, Sign::Plus, N);
                assert(wide(q@, 0, N) == q@) by (nonlinear_arith)
                    requires
                        wide(q@, 0, N) == q@ + cap(N) * 0,
                ;
                lemma_tail_zero(q@, q@);
                assert(first_exact_from(a, b, si as int, s as int, N) == s);
                assert(first_exact_from(a, b, si as int, quot_lowest(si as int), N) == s);
            }
            let res = fit_wide(q, zero, 0, 0, false, s as i128, rm, Sign::Plus, Ghost(q@));
            assert(res.spec() == finish_scale(q@, s as int, false, false, N));
            return res;
        }
        proof {
            vstd::arithmetic::div_mod::lemma_mod_pos_bound(quot_num(a, s - si) as int, b as int);
        }
        let (d, r2) = digit_step(&r, cb);
        proof {
            lemma_quot_step(a, b, s - si, q@, r@, d as nat, r2@);
            if s >= lowest {
                assert(!exact_fit_at(a, b, si as int, s as int, N));
            }
            assert(wide(q@, 0, N) == q@) by (nonlinear_arith)
                requires
                    wide(q@, 0, N) == q@ + cap(N) * 0,
            ;
            assert(q@ < cap(N) * 10) by (nonlinear_arith)
                requires
                    q@ < cap(N),
            ;
        }
        let (hl, hh) = times_ten_plus(&q, &zero, d);
        if s == 32767 {
            // the largest scale: the next digit and whether anything follows
            // make the surrogate
            let st: u8 = if r2.is_zero() { 0 } else { 1 };
            proof {
                assert(wide(hl@, hh@, N) == q@ * 10 + d);
                assert(wide(hl@, hh@, N) < cap(N) * 10) by (nonlinear_arith)
                    requires
                        wide(hl@, hh@, N) == q@ * 10 + d,
                        q@ < cap(N),
                        d <= 9,
                ;
                assert(max_scale() + 1 - si == (s - si) + 1);
                assert(quot_exact(a, b, (s - si) + 1) == (r2@ == 0));
                assert(first_exact_from(a, b, si as int, (s + 1) as int, N) == max_scale() + 1);
            }
            let (l, h) = times_ten_plus(&hl, &hh, st);
            proof {
                assert(quot_floor(a, b, max_scale() + 1 - si) == q@ * 10 + d);
                assert(quot_surrogate(a, b, si as int) == wide(l@, h@, N));
                lemma_tail_zero(quot_surrogate(a, b, si as int), wide(l@, h@, N));
                assert(first_exact_from(a, b, si as int, s as int, N) == max_scale() + 1);
                assert(first_exact_from(a, b, si as int, quot_lowest(si as int), N) == max_scale() + 1);
            }
            return fit_wide(l, h, 0, 0, false, 32769, rm, Sign::Plus, Ghost(quot_surrogate(a, b, si as int)));
        }
        if !hh.is_zero() {
            // the next digit no longer fits: the rest is the tail
            proof {
                hl.lemma_bound();
                assert(wide(hl@, hh@, N) >= cap(N)) by (nonlinear_arith)
                    requires
                        wide(hl@, hh@, N) == hl@ + cap(N) * hh@,
                        hh@ >= 1,
                ;
                vstd::arithmetic::div_mod::lemma_mod_pos_bound(quot_num(a, (s - si) + 1) as int, b as int);
            }
            let (d2, r3) = digit_step(&r2, cb);
            let ghost c = quot_surrogate(a, b, si as int);
            let ghost w = wide(hl@, hh@, N);
            proof {
                assert((s + 1) - si == (s - si) + 1);
                lemma_quot_tail(a, b, si as int, s as int, w, r2@, d2 as nat, r3@);
                let k0 = (max_scale() + 1 - s) as nat;
                assert forall|j: nat| j < k0 implies !#[trigger] fits_at(c, j, N, rm, Sign::Plus) by {
                    lemma_pow10_mono(j, k0);
                    assert(c >= cap(N) * pow10(j)) by (nonlinear_arith)
                        requires
                            c >= w * pow10(k0),
                            w >= cap(N),
                            pow10(j) <= pow10(k0),
                    ;
                    lemma_quotient_no_fit(c, j, N, rm, Sign::Plus);
                }
                // no scale from here up holds the quotient exactly
                if s >= lowest {
                    lemma_first_none(a, b, si as int, (s + 1) as int, N);
                } else {
                    let j = (lowest - s - 1) as nat;
                    lemma_quot_grow(a, b, (s - si) + 1, j);
                    lemma_pow10_pos(j);
                    assert(quot_floor(a, b, lowest - si) >= cap(N)) by (nonlinear_arith)
                        requires
                            quot_floor(a, b, (s - si) + 1 + j) >= w * pow10(j),
                            (s - si) + 1 + j == lowest - si,
                            w >= cap(N),
                            pow10(j) >= 1,
                    ;
                    lemma_first_none(a, b, si as int, lowest as int, N);
                }
                assert(first_exact_from(a, b, si as int, quot_lowest(si as int), N) == max_scale() + 1);
            }
            return fit_wide(hl, hh, (32768 - s) as u64, d2, !r3.is_zero(), 32769, rm, Sign::Plus, Ghost(c));
        }
        proof {
            hl.lemma_bound();
            assert(wide(hl@, hh@, N) == hl@) by (nonlinear_arith)
                requires
                    wide(hl@, hh@, N) == hl@ + cap(N) * hh@,
                    hh@ == 0,
            ;
            assert((s + 1) - si == (s - si) + 1);
        }
        q = hl;
        r = r2;
        s = s + 1;
    }
}

} // verus!
