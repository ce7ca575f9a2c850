//! The square root of a finite number: exact where a fitting coefficient
//! holds it, at the scale closest to the ideal one (half the number's), and
//! otherwise correctly rounded at the largest precision that fits.
use vstd::prelude::*;

use crate::ascii::{
    all_digits, dec_repr, digits_val, lemma_dec_repr_digits, lemma_digits_val_append, lemma_digits_val_zero,
    lemma_pow10_add, lemma_pow10_mono, lemma_pow10_pos, pow10,
};
use crate::num::{
    finish_scale, fit_wide, fits_at, lemma_finish_exact, lemma_quotient_no_fit, lemma_tail_zero, max_scale, spec_finish,
    tail_state, wide, wide_add, wide_mul10, wide_sub, FitSpec, Fitted,
};
use crate::quot::times_ten_plus;
use crate::round::{RoundingMode, Sign};
use crate::uint::{cap, lemma_limb_cap_pos, UInt};

verus! {

/// `x` is the integer square root of `p`.
pub open spec fn is_root(x: nat, p: nat) -> bool {
    x * x <= p && p < (x + 1) * (x + 1)
}

/// The integer square root of `p`.
pub open spec fn isqrt(p: nat) -> nat {
    choose|x: nat| is_root(x, p)
}

/// Whether `p` is the square of an integer.
pub open spec fn is_square(p: nat) -> bool {
    isqrt(p) * isqrt(p) == p
}

/// Squares order as their roots.
proof fn lemma_square_lt(a: nat, b: nat)
    requires
        a * a < b * b,
    ensures
        a < b,
{
    if a >= b {
        assert(a * a >= b * b) by (nonlinear_arith)
            requires
                a >= b,
        ;
    }
}

/// Every natural number has an integer square root.
proof fn lemma_root_exists(p: nat)
    ensures
        is_root(isqrt(p), p),
    decreases p,
{
    if p == 0 {
        assert(0nat * 0nat == 0nat && 1nat * 1nat == 1nat);
        assert(is_root(0, 0));
    } else {
        lemma_root_exists((p - 1) as nat);
        let x = isqrt((p - 1) as nat);
        if (x + 1) * (x + 1) <= p {
            assert((x + 1) * (x + 1) == p) by (nonlinear_arith)
                requires
                    (x + 1) * (x + 1) <= p,
                    p - 1 < (x + 1) * (x + 1),
            ;
            assert(p < (x + 2) * (x + 2)) by (nonlinear_arith)
                requires
                    (x + 1) * (x + 1) == p,
            ;
            assert(is_root(x + 1, p));
        } else {
            assert(is_root(x, p));
        }
    }
}

/// The integer square root is the one root.
pub proof fn lemma_isqrt(x: nat, p: nat)
    requires
        is_root(x, p),
    ensures
        isqrt(p) == x,
{
    lemma_root_exists(p);
    let y = isqrt(p);
    if x < y {
        assert((x + 1) * (x + 1) <= y * y) by (nonlinear_arith)
            requires
                x + 1 <= y,
        ;
    }
    if y < x {
        assert((y + 1) * (y + 1) <= x * x) by (nonlinear_arith)
            requires
                y + 1 <= x,
        ;
    }
}

/// One more root digit: with `r = p - q^2` and the next pair of digits `pp`,
/// the largest digit `d` with `(20 q + d) d <= 100 r + pp` extends the root.
pub proof fn lemma_root_step(q: nat, p: nat, r: nat, pp: nat, d: nat)
    requires
        is_root(q, p),
        r == p - q * q,
        pp <= 99,
        d <= 9,
        (20 * q + d) * d <= 100 * r + pp,
        d == 9 || 100 * r + pp < (20 * q + d + 1) * (d + 1),
    ensures
        is_root(10 * q + d, 100 * p + pp),
        100 * r + pp - (20 * q + d) * d == (100 * p + pp) - (10 * q + d) * (10 * q + d),
{
    assert((10 * q + d) * (10 * q + d) == 100 * (q * q) + (20 * q + d) * d) by (nonlinear_arith);
    if d == 9 {
        assert(p + 1 <= (q + 1) * (q + 1));
        assert((10 * q + 10) * (10 * q + 10) == 100 * ((q + 1) * (q + 1))) by (nonlinear_arith);
    } else {
        assert((10 * q + d + 1) * (10 * q + d + 1) == 100 * (q * q) + (20 * q + d + 1) * (d + 1)) by (nonlinear_arith);
    }
}

/// Scaling by `100^j` scales the root by `10^j`, up to less than `10^j`.
pub proof fn lemma_root_scale(p: nat, j: nat)
    ensures
        isqrt(p) * pow10(j) <= isqrt(p * pow10(2 * j)),
        isqrt(p * pow10(2 * j)) < (isqrt(p) + 1) * pow10(j),
        is_square(p) ==> isqrt(p * pow10(2 * j)) == isqrt(p) * pow10(j) && is_square(p * pow10(2 * j)),
{
    lemma_root_exists(p);
    let q = isqrt(p);
    let t = pow10(j);
    lemma_pow10_add(j, j);
    assert(j + j == 2 * j);
    let big = p * pow10(2 * j);
    lemma_root_exists(big);
    let y = isqrt(big);
    lemma_pow10_pos(j);
    assert((q * t) * (q * t) <= big) by (nonlinear_arith)
        requires
            q * q <= p,
            big == p * (t * t),
    ;
    assert(big < ((q + 1) * t) * ((q + 1) * t)) by (nonlinear_arith)
        requires
            p < (q + 1) * (q + 1),
            big == p * (t * t),
            t >= 1,
    ;
    // y^2 <= big < ((q + 1) t)^2, and (q t)^2 <= big < (y + 1)^2
    lemma_square_lt(y, (q + 1) * t);
    lemma_square_lt(q * t, y + 1);
    if is_square(p) {
        assert((q * t) * (q * t) == big) by (nonlinear_arith)
            requires
                q * q == p,
                big == p * (t * t),
        ;
        assert(big < (q * t + 1) * (q * t + 1)) by (nonlinear_arith)
            requires
                (q * t) * (q * t) == big,
        ;
        lemma_isqrt(q * t, big);
    }
}

/// A square number's hundredfold is square only if the number is.
proof fn lemma_square_hundred(p: nat)
    requires
        !is_square(p),
    ensures
        !is_square(p * 100),
{
    lemma_root_exists(p);
    lemma_root_exists(p * 100);
    let y = isqrt(p * 100);
    if y * y == p * 100 {
        // y is a multiple of 2 and of 5
        let a = y / 10;
        let b = y % 10;
        vstd::arithmetic::div_mod::lemma_fundamental_div_mod(y as int, 10);
        assert(y * y == 100 * (a * a) + 20 * a * b + b * b) by (nonlinear_arith)
            requires
                y == 10 * a + b,
        ;
        assert((20 * a * b + b * b) % 100 == 0) by {
            vstd::arithmetic::div_mod::lemma_mod_multiples_vanish((a * a) as int, (20 * a * b + b * b) as int, 100);
        }
        assert(b == 0) by {
            // the square of a last digit other than zero is not a multiple
            // of ten, and neither is twenty a b plus it
            assert((20 * a * b + b * b) % 10 == (b * b) % 10) by {
                assert(20 * a * b + b * b == 10 * (2 * a * b) + b * b) by (nonlinear_arith);
                vstd::arithmetic::div_mod::lemma_mod_multiples_vanish((2 * a * b) as int, (b * b) as int, 10);
            }
            assert((20 * a * b + b * b) % 10 == 0) by {
                vstd::arithmetic::div_mod::lemma_fundamental_div_mod((20 * a * b + b * b) as int, 100);
                let k = (20 * a * b + b * b) / 100;
                assert(20 * a * b + b * b == 10 * (10 * k));
                vstd::arithmetic::div_mod::lemma_mod_multiples_vanish((10 * k) as int, 0, 10);
            }
            assert(b < 10);
            assert((b * b) % 10 == 0);
            if b != 0 {
                assert(b * b == 1 || b * b == 4 || b * b == 9 || b * b == 16 || b * b == 25 || b * b == 36 || b
                    * b == 49 || b * b == 64 || b * b == 81) by (nonlinear_arith)
                    requires
                        1 <= b < 10,
                ;
            }
        }
        assert(a * a == p) by (nonlinear_arith)
            requires
                y * y == 100 * (a * a) + 20 * a * b + b * b,
                b == 0,
                y * y == p * 100,
        ;
        assert(p < (a + 1) * (a + 1)) by (nonlinear_arith)
            requires
                a * a == p,
        ;
        lemma_isqrt(a, p);
    }
}

/// A number that is not square stays so when scaled by `100^j`.
pub proof fn lemma_not_square_scale(p: nat, j: nat)
    requires
        !is_square(p),
    ensures
        !is_square(p * pow10(2 * j)),
    decreases j,
{
    if j == 0 {
        assert(pow10(0) == 1);
        assert(p * 1 == p);
    } else {
        lemma_not_square_scale(p, (j - 1) as nat);
        lemma_square_hundred(p * pow10(2 * (j - 1) as nat));
        assert(pow10(2 * j) == 100 * pow10(2 * (j - 1) as nat)) by {
            assert(2 * j == 2 * (j - 1) as nat + 2);
            lemma_pow10_add(2 * (j - 1) as nat, 2);
            assert(pow10(2) == 100) by {
                reveal_with_fuel(pow10, 3);
            }
        }
        assert(p * pow10(2 * (j - 1) as nat) * 100 == p * pow10(2 * j)) by (nonlinear_arith)
            requires
                pow10(2 * j) == 100 * pow10(2 * (j - 1) as nat),
        ;
    }
}

/// `a + b` for two-halves numbers.
fn wide_add2<const N: usize>(al: &UInt<N>, ah: &UInt<N>, bl: &UInt<N>, bh: &UInt<N>) -> (r: (UInt<N>, UInt<N>))
    requires
        wide(al@, ah@, N) + wide(bl@, bh@, N) < cap(N) * cap(N),
    ensures
        wide(r.0@, r.1@, N) == wide(al@, ah@, N) + wide(bl@, bh@, N),
{
    al.width_is_valid();
    proof {
        bl.lemma_bound();
        bh.lemma_bound();
        lemma_limb_cap_pos(N as nat);
        assert(wide(bl@, bh@, N) >= bl@) by (nonlinear_arith)
            requires
                wide(bl@, bh@, N) == bl@ + cap(N) * bh@,
        ;
    }
    let (l, h) = wide_add(al, ah, bl);
    proof {
        l.lemma_bound();
        assert(h@ + bh@ < cap(N)) by (nonlinear_arith)
            requires
                l@ + cap(N) * h@ + cap(N) * bh@ < cap(N) * cap(N),
                l@ >= 0,
                cap(N) >= 1,
        ;
    }
    let h2 = h.checked_add(bh).unwrap();
    proof {
        assert(wide(l@, h2@, N) == wide(l@, h@, N) + cap(N) * bh@) by (nonlinear_arith)
            requires
                h2@ == h@ + bh@,
                wide(l@, h2@, N) == l@ + cap(N) * h2@,
                wide(l@, h@, N) == l@ + cap(N) * h@,
        ;
    }
    (l, h2)
}

/// `a - b` for two-halves numbers, `b <= a`.
fn wide_sub2<const N: usize>(al: &UInt<N>, ah: &UInt<N>, bl: &UInt<N>, bh: &UInt<N>) -> (r: (UInt<N>, UInt<N>))
    requires
        wide(bl@, bh@, N) <= wide(al@, ah@, N),
    ensures
        wide(r.0@, r.1@, N) == wide(al@, ah@, N) - wide(bl@, bh@, N),
{
    al.width_is_valid();
    proof {
        bl.lemma_bound();
        lemma_limb_cap_pos(N as nat);
        assert(wide(bl@, bh@, N) >= bl@) by (nonlinear_arith)
            requires
                wide(bl@, bh@, N) == bl@ + cap(N) * bh@,
        ;
    }
    let (l, h) = wide_sub(al, ah, bl);
    proof {
        l.lemma_bound();
        assert(h@ >= bh@) by (nonlinear_arith)
            requires
                l@ + cap(N) * h@ >= cap(N) * bh@,
                l@ < cap(N),
        ;
    }
    let h2 = h.checked_sub(bh).unwrap();
    proof {
        assert(wide(l@, h2@, N) == wide(l@, h@, N) - cap(N) * bh@) by (nonlinear_arith)
            requires
                h2@ == h@ - bh@,
                wide(l@, h2@, N) == l@ + cap(N) * h2@,
                wide(l@, h@, N) == l@ + cap(N) * h@,
        ;
    }
    (l, h2)
}

/// Whether `a <= b` for two-halves numbers.
fn wide_le<const N: usize>(al: &UInt<N>, ah: &UInt<N>, bl: &UInt<N>, bh: &UInt<N>) -> (r: bool)
    ensures
        r == (wide(al@, ah@, N) <= wide(bl@, bh@, N)),
{
    proof {
        al.lemma_bound();
        bl.lemma_bound();
    }
    if ah.lt(bh) {
        proof {
            assert(wide(al@, ah@, N) < wide(bl@, bh@, N)) by (nonlinear_arith)
                requires
                    wide(al@, ah@, N) == al@ + cap(N) * ah@,
                    wide(bl@, bh@, N) == bl@ + cap(N) * bh@,
                    ah@ + 1 <= bh@,
                    al@ < cap(N),
            ;
        }
        true
    } else if ah.eq(bh) {
        !bl.lt(al)
    } else {
        proof {
            assert(wide(al@, ah@, N) > wide(bl@, bh@, N)) by (nonlinear_arith)
                requires
                    wide(al@, ah@, N) == al@ + cap(N) * ah@,
                    wide(bl@, bh@, N) == bl@ + cap(N) * bh@,
                    bh@ + 1 <= ah@,
                    bl@ < cap(N),
            ;
        }
        false
    }
}

/// The next digit of a square root: with the root `q` so far and the
/// remainder `r`, the largest digit `d` with `(20 q + d) d <= 100 r + pp`,
/// and the new remainder.
fn root_digit<const N: usize>(ql: &UInt<N>, qh: &UInt<N>, rl: &UInt<N>, rh: &UInt<N>, pp: u8) -> (out: (
    u8,
    UInt<N>,
    UInt<N>,
))
    requires
        wide(ql@, qh@, N) < cap(N) * 10,
        wide(rl@, rh@, N) <= 2 * wide(ql@, qh@, N),
        pp <= 99,
    ensures
        ({
            let q = wide(ql@, qh@, N);
            let r = wide(rl@, rh@, N);
            let d = out.0 as nat;
            &&& d <= 9
            &&& (20 * q + d) * d <= 100 * r + pp
            &&& d == 9 || 100 * r + pp < (20 * q + d + 1) * (d + 1)
            &&& wide(out.1@, out.2@, N) == 100 * r + pp - (20 * q + d) * d
        }),
{
    ql.width_is_valid();
    let ghost q = wide(ql@, qh@, N);
    let ghost r = wide(rl@, rh@, N);
    proof {
        lemma_limb_cap_pos(N as nat);
        assert(cap(N) >= 0x1_0000_0000_0000_0000);
        assert(r * 100 + 99 < cap(N) * cap(N)) by (nonlinear_arith)
            requires
                r <= 2 * q,
                q < cap(N) * 10,
                cap(N) >= 0x1_0000_0000_0000_0000,
        ;
    }
    // 100 r + pp
    let (a1, b1) = wide_mul10(rl, rh).unwrap();
    let (a2, b2) = wide_mul10(&a1, &b1).unwrap();
    let (bigl, bigh) = wide_add(&a2, &b2, &UInt::<N>::from_u64(pp as u64));
    // 20 q
    proof {
        assert(q * 20 + 200 < cap(N) * cap(N)) by (nonlinear_arith)
            requires
                q < cap(N) * 10,
                cap(N) >= 0x1_0000_0000_0000_0000,
        ;
    }
    let (c1, e1) = wide_mul10(ql, qh).unwrap();
    let (twl, twh) = wide_add2(&c1, &e1, &c1, &e1);
    let zero = UInt::<N>::zero_like(ql);
    let mut tl = zero;
    let mut th = zero;
    let mut d: u8 = 0;
    let mut more = true;
    proof {
        assert(wide(0, 0, N) == 0) by (nonlinear_arith)
            requires
                wide(0, 0, N) == 0 + cap(N) * 0,
        ;
    }
    while d < 9 && more
        invariant
            d <= 9,
            pp <= 99,
            crate::uint::valid_width(N),
            wide(bigl@, bigh@, N) == 100 * r + pp,
            wide(twl@, twh@, N) == 20 * q,
            q < cap(N) * 10,
            r <= 2 * q,
            cap(N) >= 0x1_0000_0000_0000_0000,
            wide(tl@, th@, N) == (20 * q + d) * d,
            (20 * q + d) * d <= 100 * r + pp,
            !more ==> 100 * r + pp < (20 * q + d + 1) * (d + 1),
        decreases (9 - d) * 2 + if more { 1int } else { 0int },
    {
        proof {
            assert((20 * q + d + 1) * (d + 1) == (20 * q + d) * d + 20 * q + (2 * d + 1)) by (nonlinear_arith);
            assert((20 * q + d) * d + 20 * q + 2 * d + 1 < cap(N) * cap(N)) by (nonlinear_arith)
                requires
                    (20 * q + d) * d <= 100 * r + pp,
                    r <= 2 * q,
                    q < cap(N) * 10,
                    d <= 9,
                    pp <= 99,
                    cap(N) >= 0x1_0000_0000_0000_0000,
            ;
        }
        let (s1, s2) = wide_add2(&tl, &th, &twl, &twh);
        let (n1, n2) = wide_add(&s1, &s2, &UInt::<N>::from_u64(2 * d as u64 + 1));
        if wide_le(&n1, &n2, &bigl, &bigh) {
            tl = n1;
            th = n2;
            d = d + 1;
        } else {
            more = false;
        }
    }
    let (ol, oh) = wide_sub2(&bigl, &bigh, &tl, &th);
    (d, ol, oh)
}

/// The number `c * 10^-s` times `10^(2 t)`: an integer from the ideal scale
/// on.
pub open spec fn root_arg(c: nat, s: int, t: int) -> nat {
    c * pow10((2 * t - s) as nat)
}

/// The ideal scale of a square root: half the number's, rounded up.
pub open spec fn root_ideal(s: int) -> int {
    if s % 2 == 0 {
        s / 2
    } else {
        (s + 1) / 2
    }
}

/// Whether the square root of `c * 10^-s` is held exactly, at the scale `t`,
/// by a coefficient that fits.
pub open spec fn root_exact_fit_at(c: nat, s: int, t: int, n: usize) -> bool {
    is_square(root_arg(c, s, t)) && isqrt(root_arg(c, s, t)) < cap(n)
}

/// The first scale from `t` up to the largest at which the square root is
/// held exactly by a coefficient that fits (one past the largest if none).
pub open spec fn first_root_exact_from(c: nat, s: int, t: int, n: usize) -> int
    decreases max_scale() + 1 - t,
{
    if t > max_scale() {
        max_scale() + 1
    } else if root_exact_fit_at(c, s, t, n) {
        t
    } else {
        first_root_exact_from(c, s, t + 1, n)
    }
}

/// The square root truncated one digit beyond the largest scale, with a
/// last digit that is non-zero exactly when the truncation dropped
/// something.
pub open spec fn root_surrogate(c: nat, s: int) -> nat {
    let a = root_arg(c, s, max_scale() + 1);
    isqrt(a) * 10 + if is_square(a) {
        0nat
    } else {
        1nat
    }
}

/// The square root of `c * 10^-s` for `n` limbs: exact, at the first scale
/// from the ideal one where a fitting coefficient holds it, if there is one;
/// otherwise rounded by `rm` at the largest precision that fits (see
/// `spec_finish`).
pub open spec fn root_fit(c: nat, s: int, rm: RoundingMode, n: usize) -> FitSpec {
    let f = first_root_exact_from(c, s, root_ideal(s), n);
    if f <= max_scale() {
        finish_scale(isqrt(root_arg(c, s, f)), f, false, false, n)
    } else {
        spec_finish(root_surrogate(c, s), max_scale() + 2, rm, Sign::Plus, n)
    }
}

/// One scale more multiplies the argument by a hundred.
proof fn lemma_root_arg_next(c: nat, s: int, t: int)
    requires
        2 * t - s >= 0,
    ensures
        root_arg(c, s, t + 1) == 100 * root_arg(c, s, t),
{
    let e = (2 * t - s) as nat;
    assert((2 * (t + 1) - s) as nat == e + 2);
    lemma_pow10_add(e, 2);
    assert(pow10(2) == 100) by {
        reveal_with_fuel(pow10, 3);
    }
    assert(c * (pow10(e) * 100) == 100 * (c * pow10(e))) by (nonlinear_arith);
}

/// No scale from `x` up holds the root in a fitting coefficient once it does
/// not fit at `x`.
proof fn lemma_first_root_none(c: nat, s: int, x: int, n: usize)
    requires
        2 * x - s >= 0,
        isqrt(root_arg(c, s, x)) >= cap(n),
    ensures
        first_root_exact_from(c, s, x, n) == max_scale() + 1,
    decreases max_scale() + 1 - x,
{
    if x <= max_scale() {
        lemma_root_arg_next(c, s, x);
        lemma_root_scale(root_arg(c, s, x), 1);
        assert(pow10(1) == 10) by {
            reveal_with_fuel(pow10, 2);
        }
        assert(pow10(2 * 1) == 100) by {
            reveal_with_fuel(pow10, 3);
        }
        assert(root_arg(c, s, x) * 100 == root_arg(c, s, x + 1));
        lemma_first_root_none(c, s, x + 1, n);
    }
}

/// The tail of the surrogate after a head `h`, the root at scale `t + 1`,
/// that no longer fits: its first digit is the next root digit, and the rest
/// is non-zero exactly when the remainder after that digit is.
proof fn lemma_root_tail(c: nat, s: int, t: int, h: nat, d2: nat, r3: nat)
    requires
        2 * t - s >= 0,
        t < max_scale(),
        h == isqrt(root_arg(c, s, t + 1)),
        10 * h + d2 == isqrt(root_arg(c, s, t + 2)),
        d2 <= 9,
        r3 == root_arg(c, s, t + 2) - (10 * h + d2) * (10 * h + d2),
    ensures
        tail_state(root_surrogate(c, s), h, (max_scale() + 1 - t) as nat, d2, r3 != 0),
{
    let m = (max_scale() - t) as nat;
    let j = (m - 1) as nat;
    let p2 = root_arg(c, s, t + 2);
    let big = root_arg(c, s, max_scale() + 1);
    let q2 = 10 * h + d2;
    // the argument at the largest scale is that at t + 2 times 100^(m - 1)
    lemma_pow10_add((2 * (t + 2) - s) as nat, 2 * j);
    assert((2 * (t + 2) - s) as nat + 2 * j == (2 * (max_scale() + 1) - s) as nat);
    assert(big == p2 * pow10(2 * j)) by (nonlinear_arith)
        requires
            big == c * pow10((2 * (max_scale() + 1) - s) as nat),
            p2 == c * pow10((2 * (t + 2) - s) as nat),
            pow10((2 * (max_scale() + 1) - s) as nat) == pow10((2 * (t + 2) - s) as nat) * pow10(2 * j),
    ;
    lemma_root_scale(p2, j);
    let y = isqrt(big);
    let pj = pow10(j);
    lemma_pow10_pos(j);
    let tp = (y - q2 * pj) as nat;
    assert(y == q2 * pj + tp);
    assert(tp < pj) by (nonlinear_arith)
        requires
            y < (q2 + 1) * pj,
            y == q2 * pj + tp,
    ;
    lemma_root_exists(p2);
    let st: nat = if is_square(big) {
        0
    } else {
        1
    };
    if r3 == 0 {
        assert(is_square(p2));
        assert(tp == 0);
        assert(st == 0);
    } else {
        assert(!is_square(p2));
        lemma_not_square_scale(p2, j);
        assert(st == 1);
    }
    let k = m + 1;
    let pm = pow10(m);
    assert(pm == 10 * pj) by {
        assert(m == j + 1);
    }
    assert(pow10(k) == 10 * pm);
    let csur = root_surrogate(c, s);
    assert(csur == y * 10 + st);
    let tail = d2 * pm + (tp * 10 + st);
    assert(csur == h * pow10(k) + tail) by (nonlinear_arith)
        requires
            csur == y * 10 + st,
            y == q2 * pj + tp,
            q2 == 10 * h + d2,
            pm == 10 * pj,
            pow10(k) == 10 * pm,
            tail == d2 * pm + (tp * 10 + st),
    ;
    assert(tp * 10 + st < pm) by (nonlinear_arith)
        requires
            tp < pj,
            st <= 1,
            pm == 10 * pj,
    ;
    assert(tail < pow10(k)) by (nonlinear_arith)
        requires
            tail == d2 * pm + (tp * 10 + st),
            tp * 10 + st < pm,
            d2 <= 9,
            pow10(k) == 10 * pm,
    ;
    vstd::arithmetic::div_mod::lemma_fundamental_div_mod_converse(tail as int, pm as int, d2 as int, (tp * 10 + st) as int);
    assert((k - 1) as nat == m);
}

/// The decimal digits of `c`, times ten when `odd`, with a leading zero
/// where needed to make their number even.
fn root_arg_digits<const N: usize>(c: &UInt<N>, odd: bool) -> (dp: Vec<u8>)
    ensures
        all_digits(dp@),
        dp@.len() % 2 == 0,
        digits_val(dp@) == if odd { c@ * 10 } else { c@ },
{
    c.width_is_valid();
    let ghost cv = c@;
    let text = c.to_decimal_ascii();
    let ghost dtext = text@;
    proof {
        c.lemma_bound();
        lemma_dec_repr_digits(cv);
        crate::udec::lemma_coeff_repr(cv, N);
    }
    let mut dp: Vec<u8> = Vec::new();
    let total = text.len() + if odd { 1 } else { 0 };
    if total % 2 == 1 {
        dp.push(48u8);
    }
    let ghost lead = dp@;
    let mut i: usize = 0;
    while i < text.len()
        invariant
            i <= text@.len(),
            text@ == dtext,
            dp@ == lead + dtext.take(i as int),
        decreases text@.len() - i,
    {
        dp.push(text[i]);
        i = i + 1;
        assert(dp@ =~= lead + dtext.take(i as int));
    }
    assert(dtext.take(dtext.len() as int) =~= dtext);
    let ghost body = dp@;
    if odd {
        dp.push(48u8);
    }
    proof {
        assert(all_digits(lead)) by {
            assert forall|t: int| 0 <= t < lead.len() implies crate::ascii::is_digit(#[trigger] lead[t]) by {
                assert(lead[t] == 48u8);
            }
        }
        lemma_digits_val_zero(lead);
        lemma_digits_val_append(lead, dtext);
        assert(digits_val(body) == cv);
        if odd {
            lemma_digits_val_append(body, seq![48u8]);
            assert(seq![48u8].drop_last() =~= Seq::<u8>::empty());
            assert(digits_val(seq![48u8]) == 0);
            assert(dp@ =~= body + seq![48u8]);
            assert(pow10(1) == 10) by {
                reveal_with_fuel(pow10, 2);
            }
        } else {
            assert(dp@ == body);
        }
        assert(all_digits(dp@)) by {
            assert forall|t: int| 0 <= t < dp@.len() implies crate::ascii::is_digit(#[trigger] dp@[t]) by {
                if t < lead.len() {
                    assert(dp@[t] == lead[t]);
                } else if t < lead.len() + dtext.len() {
                    assert(dp@[t] == dtext[t - lead.len()]);
                } else {
                    assert(dp@[t] == 48u8);
                }
            }
        }
    }
    dp
}

/// The integer square root `q` of the number that the digits `dp` spell, and
/// the remainder `n0 - q^2`, two digits at a time.
fn isqrt_digits<const N: usize>(c: &UInt<N>, dp: &Vec<u8>, Ghost(n0): Ghost<nat>) -> (out: (
    UInt<N>,
    UInt<N>,
    UInt<N>,
    UInt<N>,
))
    requires
        all_digits(dp@),
        dp@.len() % 2 == 0,
        digits_val(dp@) == n0,
        n0 < cap(N) * 10,
    ensures
        is_root(wide(out.0@, out.1@, N), n0),
        wide(out.0@, out.1@, N) < cap(N),
        wide(out.2@, out.3@, N) == n0 - wide(out.0@, out.1@, N) * wide(out.0@, out.1@, N),
{
    c.width_is_valid();
    proof {
        lemma_limb_cap_pos(N as nat);
        assert(cap(N) >= 0x1_0000_0000_0000_0000);
    }
    let zero = UInt::<N>::zero_like(c);
    let mut ql = zero;
    let mut qh = zero;
    let mut rl = zero;
    let mut rh = zero;
    let npairs = dp.len() / 2;
    let mut j: usize = 0;
    proof {
        assert(wide(0, 0, N) == 0) by (nonlinear_arith)
            requires
                wide(0, 0, N) == 0 + cap(N) * 0,
        ;
        assert(dp@.take(0) =~= Seq::<u8>::empty());
        assert(is_root(0, 0)) by {
            assert(0nat * 0nat == 0nat && 1nat * 1nat == 1nat);
        }
    }
    while j < npairs
        invariant
            crate::uint::valid_width(N),
            cap(N) >= 0x1_0000_0000_0000_0000,
            npairs * 2 == dp@.len(),
            dp@.len() <= usize::MAX,
            j <= npairs,
            all_digits(dp@),
            digits_val(dp@) == n0,
            n0 < cap(N) * 10,
            is_root(wide(ql@, qh@, N), digits_val(dp@.take(2 * j as int))),
            wide(rl@, rh@, N) == digits_val(dp@.take(2 * j as int)) - wide(ql@, qh@, N) * wide(ql@, qh@, N),
        decreases npairs - j,
    {
        let ghost p = digits_val(dp@.take(2 * j as int));
        let ghost q = wide(ql@, qh@, N);
        assert(2 * j + 1 < dp@.len());
        let a = dp[2 * j];
        let b = dp[2 * j + 1];
        proof {
            assert(crate::ascii::is_digit(dp@[2 * j as int]) && crate::ascii::is_digit(dp@[2 * j + 1]));
            lemma_prefix_le(dp@, 2 * j as nat);
            assert(q < cap(N)) by (nonlinear_arith)
                requires
                    q * q <= p,
                    p <= n0,
                    n0 < cap(N) * 10,
                    cap(N) >= 0x1_0000_0000_0000_0000,
            ;
            assert(wide(rl@, rh@, N) <= 2 * q) by (nonlinear_arith)
                requires
                    p < (q + 1) * (q + 1),
                    wide(rl@, rh@, N) == p - q * q,
            ;
            assert(q < cap(N) * 10);
        }
        let pp = (a - 48) * 10 + (b - 48);
        let (d, nl, nh) = root_digit(&ql, &qh, &rl, &rh, pp);
        proof {
            lemma_root_step(q, p, wide(rl@, rh@, N), pp as nat, d as nat);
            lemma_pair_value(dp@, 2 * j as nat);
        }
        let (q2l, q2h) = times_ten_plus(&ql, &qh, d);
        ql = q2l;
        qh = q2h;
        rl = nl;
        rh = nh;
        j = j + 1;
        assert(2 * j as int == 2 * (j - 1) + 2);
    }
    proof {
        assert(dp@.take(2 * npairs as int) =~= dp@);
        let q = wide(ql@, qh@, N);
        assert(q < cap(N)) by (nonlinear_arith)
            requires
                q * q <= n0,
                n0 < cap(N) * 10,
                cap(N) >= 0x1_0000_0000_0000_0000,
        ;
    }
    (ql, qh, rl, rh)
}

/// A prefix of a digit string spells at most what the whole does.
proof fn lemma_prefix_le(dp: Seq<u8>, m: nat)
    requires
        m <= dp.len(),
    ensures
        digits_val(dp.take(m as int)) <= digits_val(dp),
{
    lemma_digits_val_append(dp.take(m as int), dp.skip(m as int));
    assert(dp.take(m as int) + dp.skip(m as int) =~= dp);
    lemma_pow10_pos(dp.skip(m as int).len());
    let p = digits_val(dp.take(m as int));
    assert(p <= digits_val(dp)) by (nonlinear_arith)
        requires
            digits_val(dp) == p * pow10(dp.skip(m as int).len()) + digits_val(dp.skip(m as int)),
            pow10(dp.skip(m as int).len()) >= 1,
    ;
}

/// Two more digits multiply what a prefix spells by a hundred and add them.
proof fn lemma_pair_value(dp: Seq<u8>, m: nat)
    requires
        m + 2 <= dp.len(),
        crate::ascii::is_digit(dp[m as int]),
        crate::ascii::is_digit(dp[m + 1int]),
    ensures
        digits_val(dp.take(m + 2int)) == 100 * digits_val(dp.take(m as int)) + (dp[m as int] - 48) * 10 + (dp[m + 1int]
            - 48),
{
    let a = dp[m as int];
    let b = dp[m + 1int];
    let two = seq![a, b];
    assert(dp.take(m + 2int) =~= dp.take(m as int) + two);
    lemma_digits_val_append(dp.take(m as int), two);
    assert(two.drop_last() =~= seq![a]);
    assert(seq![a].drop_last() =~= Seq::<u8>::empty());
    assert(digits_val(seq![a]) == (a - 48) as nat) by {
        assert(seq![a].last() == a);
        assert(digits_val(Seq::<u8>::empty()) == 0);
    }
    assert(two.last() == b);
    assert(digits_val(two) == (a - 48) * 10 + (b - 48));
    assert(pow10(2) == 100) by {
        reveal_with_fuel(pow10, 3);
    }
    assert(two.len() == 2);
    let pre = digits_val(dp.take(m as int));
    assert(digits_val(dp.take(m + 2int)) == pre * 100 + digits_val(two));
    assert(pre * 100 == 100 * pre) by (nonlinear_arith);
}

/// The square root of the finite `c * 10^-s`, fitted (see `root_fit`).
pub(crate) fn root_finite<const N: usize>(c: &UInt<N>, s: i16, rm: RoundingMode) -> (r: Fitted<N>)
    ensures
        r.spec() == root_fit(c@, s as int, rm, N),
{
    c.width_is_valid();
    let ghost cv = c@;
    let odd = s % 2 != 0;
    let t0: i32 = if odd { (s as i32 + 1) / 2 } else { s as i32 / 2 };
    let ghost n0 = root_arg(cv, s as int, t0 as int);
    proof {
        c.lemma_bound();
        lemma_limb_cap_pos(N as nat);
        assert(cap(N) >= 0x1_0000_0000_0000_0000);
        assert(t0 == root_ideal(s as int));
        assert(2 * t0 - s == if odd { 1int } else { 0int });
        assert(pow10(0) == 1);
        assert(pow10(1) == 10) by {
            reveal_with_fuel(pow10, 2);
        }
        assert(n0 == if odd { cv * 10 } else { cv }) by (nonlinear_arith)
            requires
                n0 == cv * pow10((2 * t0 - s) as nat),
                (2 * t0 - s) as nat == if odd { 1nat } else { 0nat },
                pow10(0) == 1,
                pow10(1) == 10,
        ;
        assert(n0 < cap(N) * 10) by (nonlinear_arith)
            requires
                n0 == cv * 10 || n0 == cv,
                cv < cap(N),
        ;
    }
    let dp = root_arg_digits(c, odd);
    let (ql, qh, rl, rh) = isqrt_digits(c, &dp, Ghost(n0));
    root_extend(c, s, rm, t0, ql, qh, rl, rh)
}

/// Extends the root `q` (with remainder `r`) of the argument at the ideal
/// scale `t0` one digit per scale, until it is exact, no longer fits, or
/// reaches the largest scale; then fits it.
fn root_extend<const N: usize>(
    c: &UInt<N>,
    s: i16,
    rm: RoundingMode,
    t0: i32,
    ql: UInt<N>,
    qh: UInt<N>,
    rl: UInt<N>,
    rh: UInt<N>,
) -> (r: Fitted<N>)
    requires
        crate::uint::valid_width(N),
        cap(N) >= 0x1_0000_0000_0000_0000,
        t0 == root_ideal(s as int),
        0 <= 2 * t0 - s <= 1,
        -16384 <= t0 <= 16384,
        is_root(wide(ql@, qh@, N), root_arg(c@, s as int, t0 as int)),
        wide(ql@, qh@, N) < cap(N),
        wide(rl@, rh@, N) == root_arg(c@, s as int, t0 as int) - wide(ql@, qh@, N) * wide(ql@, qh@, N),
    ensures
        r.spec() == root_fit(c@, s as int, rm, N),
{
    let ghost cv = c@;
    let mut ql = ql;
    let mut qh = qh;
    let mut rl = rl;
    let mut rh = rh;
    let mut t: i32 = t0;
    loop
        invariant
            crate::uint::valid_width(N),
            cap(N) >= 0x1_0000_0000_0000_0000,
            cv == c@,
            t0 == root_ideal(s as int),
            0 <= 2 * t0 - s <= 1,
            -16384 <= t0 <= t <= 32767,
            is_root(wide(ql@, qh@, N), root_arg(cv, s as int, t as int)),
            wide(ql@, qh@, N) < cap(N),
            wide(rl@, rh@, N) == root_arg(cv, s as int, t as int) - wide(ql@, qh@, N) * wide(ql@, qh@, N),
            first_root_exact_from(cv, s as int, t0 as int, N) == first_root_exact_from(cv, s as int, t as int, N),
        decreases 32767 - t,
    {
        let ghost p = root_arg(cv, s as int, t as int);
        let ghost q = wide(ql@, qh@, N);
        proof {
            lemma_isqrt(q, p);
            assert(wide(rl@, rh@, N) <= 2 * q) by (nonlinear_arith)
                requires
                    p < (q + 1) * (q + 1),
                    wide(rl@, rh@, N) == p - q * q,
            ;
            ql.lemma_bound();
            assert(qh@ == 0 && q == ql@) by (nonlinear_arith)
                requires
                    q == ql@ + cap(N) * qh@,
                    q < cap(N),
                    ql@ >= 0,
            ;
        }
        if rl.is_zero() && rh.is_zero() {
            // exact, at the first scale that can hold it
            proof {
                assert(wide(rl@, rh@, N) == 0) by (nonlinear_arith)
                    requires
                        wide(rl@, rh@, N) == rl@ + cap(N) * rh@,
                        rl@ == 0,
                        rh@ == 0,
                ;
                assert(root_exact_fit_at(cv, s as int, t as int, N));
                lemma_finish_exact(q, t as int, rm, Sign::Plus, N);
                lemma_tail_zero(q, q);
            }
            return fit_wide(ql, qh, 0, 0, false, t as i128, rm, Sign::Plus, Ghost(q));
        }
        proof {
            assert(wide(rl@, rh@, N) != 0) by (nonlinear_arith)
                requires
                    wide(rl@, rh@, N) == rl@ + cap(N) * rh@,
                    rl@ != 0 || rh@ != 0,
                    cap(N) >= 1,
            ;
            assert(!is_square(p));
            assert(!root_exact_fit_at(cv, s as int, t as int, N));
            assert(q < cap(N) * 10) by (nonlinear_arith)
                requires
                    q < cap(N),
            ;
        }
        let (d, r2l, r2h) = root_digit(&ql, &qh, &rl, &rh, 0);
        let (hl, hh) = times_ten_plus(&ql, &qh, d);
        let ghost h = wide(hl@, hh@, N);
        proof {
            lemma_root_step(q, p, wide(rl@, rh@, N), 0, d as nat);
            lemma_root_arg_next(cv, s as int, t as int);
            assert(100 * p + 0 == root_arg(cv, s as int, t + 1));
            assert(h == 10 * q + d);
            lemma_isqrt(h, root_arg(cv, s as int, t + 1));
            assert(h < cap(N) * 10) by (nonlinear_arith)
                requires
                    h == 10 * q + d,
                    q < cap(N),
                    d <= 9,
            ;
            assert(first_root_exact_from(cv, s as int, t as int, N) == first_root_exact_from(cv, s as int, t + 1, N));
        }
        if t == 32767 {
            // the largest scale: the next digit and whether anything follows
            // make the surrogate
            let st: u8 = if r2l.is_zero() && r2h.is_zero() { 0 } else { 1 };
            proof {
                let big = root_arg(cv, s as int, max_scale() + 1);
                assert(isqrt(big) == h);
                assert(wide(r2l@, r2h@, N) == big - h * h);
                assert((wide(r2l@, r2h@, N) == 0) == (r2l@ == 0 && r2h@ == 0)) by (nonlinear_arith)
                    requires
                        wide(r2l@, r2h@, N) == r2l@ + cap(N) * r2h@,
                        cap(N) >= 1,
                ;
                assert(is_square(big) == (st == 0));
                assert(first_root_exact_from(cv, s as int, t + 1, N) == max_scale() + 1);
            }
            let (l, hi2) = times_ten_plus(&hl, &hh, st);
            proof {
                lemma_tail_zero(root_surrogate(cv, s as int), wide(l@, hi2@, N));
            }
            return fit_wide(l, hi2, 0, 0, false, 32769, rm, Sign::Plus, Ghost(root_surrogate(cv, s as int)));
        }
        if !hh.is_zero() {
            // the next digit no longer fits: the rest is the tail
            proof {
                hl.lemma_bound();
                assert(h >= cap(N)) by (nonlinear_arith)
                    requires
                        h == hl@ + cap(N) * hh@,
                        hh@ >= 1,
                ;
                assert(wide(r2l@, r2h@, N) <= 2 * h) by (nonlinear_arith)
                    requires
                        root_arg(cv, s as int, t + 1) < (h + 1) * (h + 1),
                        wide(r2l@, r2h@, N) == root_arg(cv, s as int, t + 1) - h * h,
                ;
            }
            let (d2, r3l, r3h) = root_digit(&hl, &hh, &r2l, &r2h, 0);
            let ghost csur = root_surrogate(cv, s as int);
            proof {
                lemma_root_step(h, root_arg(cv, s as int, t + 1), wide(r2l@, r2h@, N), 0, d2 as nat);
                lemma_root_arg_next(cv, s as int, t + 1);
                lemma_isqrt((10 * h + d2) as nat, root_arg(cv, s as int, t + 2));
                lemma_root_tail(cv, s as int, t as int, h, d2 as nat, wide(r3l@, r3h@, N));
                assert((wide(r3l@, r3h@, N) != 0) == !(r3l@ == 0 && r3h@ == 0)) by (nonlinear_arith)
                    requires
                        wide(r3l@, r3h@, N) == r3l@ + cap(N) * r3h@,
                        cap(N) >= 1,
                ;
                let k0 = (max_scale() + 1 - t) as nat;
                assert forall|j: nat| j < k0 implies !#[trigger] fits_at(csur, j, N, rm, Sign::Plus) by {
                    lemma_pow10_mono(j, k0);
                    assert(csur >= cap(N) * pow10(j)) by (nonlinear_arith)
                        requires
                            csur >= h * pow10(k0),
                            h >= cap(N),
                            pow10(j) <= pow10(k0),
                    ;
                    lemma_quotient_no_fit(csur, j, N, rm, Sign::Plus);
                }
                lemma_first_root_none(cv, s as int, t + 1, N);
            }
            return fit_wide(
                hl,
                hh,
                (32768 - t) as u64,
                d2,
                !(r3l.is_zero() && r3h.is_zero()),
                32769,
                rm,
                Sign::Plus,
                Ghost(csur),
            );
        }
        proof {
            hl.lemma_bound();
            assert(h < cap(N)) by (nonlinear_arith)
                requires
                    h == hl@ + cap(N) * hh@,
                    hh@ == 0,
                    hl@ < cap(N),
            ;
        }
        ql = hl;
        qh = hh;
        rl = r2l;
        rh = r2h;
        t = t + 1;
    }
}

} // verus!
