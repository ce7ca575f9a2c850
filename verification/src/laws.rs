//! What holds across the operations on unsigned decimal numbers: the order
//! of comparison, the algebra of the arithmetic, and the round trips of
//! rescaling.
use vstd::prelude::*;

use crate::ascii::{
    all_digits, dec_repr, digits_val, int_repr, is_digit, lemma_dec_repr_digits, lemma_digits_val_append, lemma_pow10_add,
    lemma_pow10_pos, pow10,
};
use crate::parse::{
    digit_count, dot_count, frac_count, lemma_exponent_text, lemma_mantissa_append_digits, lemma_split_at_marker, lower,
    mant_char, mant_value, number_coeff, number_exponent, number_ok, number_scale, parsed, word_is,
};
use crate::round::{RoundingMode, Sign};
use crate::decimal::{aligned, less_value, same_value, Model};
use crate::num::{lemma_finish_exact, max_scale, min_scale, Kind};
use crate::quot::{exact_fit_at, first_exact_from, quot_den, quot_lowest, quot_num};
use crate::sint::fits_signed;
use crate::root::{first_root_exact_from, is_root, isqrt, lemma_isqrt, root_arg, root_exact_fit_at, root_ideal};
use crate::udec::{
    integer_power_model, power_model, root_model, common_scale, diff_model, equal_numbers, fused_model, order_code, product_model, quantized, quotient_model, rescaled,
    scientific_text, sum_model,
};
use crate::uint::{cap, lemma_limb_cap_pos, pow_nat, valid_width};

verus! {

/// Aligning to a larger scale multiplies by the power of ten between them.
proof fn lemma_aligned_shift(c: nat, s: int, t: int, u: int)
    requires
        s <= t <= u,
    ensures
        aligned(c, s, u) == aligned(c, s, t) * pow10((u - t) as nat),
{
    lemma_pow10_add((t - s) as nat, (u - t) as nat);
    assert((t - s) as nat + (u - t) as nat == (u - s) as nat);
    let p1 = pow10((t - s) as nat);
    let p2 = pow10((u - t) as nat);
    assert(c * (p1 * p2) == (c * p1) * p2) by (nonlinear_arith);
}

/// Comparisons made at any scale at least that of both numbers agree.
proof fn lemma_compare_at(c1: nat, s1: int, c2: nat, s2: int, u: int)
    requires
        s1 <= u,
        s2 <= u,
    ensures
        less_value(c1, s1, c2, s2) == (aligned(c1, s1, u) < aligned(c2, s2, u)),
        same_value(c1, s1, c2, s2) == (aligned(c1, s1, u) == aligned(c2, s2, u)),
{
    let t = if s1 >= s2 {
        s1
    } else {
        s2
    };
    lemma_aligned_shift(c1, s1, t, u);
    lemma_aligned_shift(c2, s2, t, u);
    let p = pow10((u - t) as nat);
    lemma_pow10_pos((u - t) as nat);
    let x = aligned(c1, s1, t);
    let y = aligned(c2, s2, t);
    assert((x < y) == (x * p < y * p)) by (nonlinear_arith)
        requires
            p >= 1,
    ;
    assert((x == y) == (x * p == y * p)) by (nonlinear_arith)
        requires
            p >= 1,
    ;
}

/// Swapping the operands of a comparison negates it.
pub proof fn law_order_antisymmetric(a: Model, b: Model)
    ensures
        order_code(a, b) == -order_code(b, a),
{
    if a.kind == Kind::Finite && b.kind == Kind::Finite {
        let u = common_scale(a, b);
        lemma_compare_at(a.coeff, a.scale, b.coeff, b.scale, u);
        lemma_compare_at(b.coeff, b.scale, a.coeff, a.scale, u);
    }
}

/// Every number compares equal to itself.
pub proof fn law_order_reflexive(a: Model)
    ensures
        order_code(a, a) == 0,
{
}

/// Comparison is transitive: `a <= b` and `b <= c` give `a <= c`.
pub proof fn law_order_transitive(a: Model, b: Model, c: Model)
    requires
        order_code(a, b) <= 0,
        order_code(b, c) <= 0,
    ensures
        order_code(a, c) <= 0,
        order_code(a, b) < 0 || order_code(b, c) < 0 ==> order_code(a, c) < 0,
{
    if a.kind == Kind::Finite && b.kind == Kind::Finite && c.kind == Kind::Finite {
        let u0 = common_scale(a, b);
        let u = if u0 >= c.scale {
            u0
        } else {
            c.scale
        };
        lemma_compare_at(a.coeff, a.scale, b.coeff, b.scale, u);
        lemma_compare_at(b.coeff, b.scale, c.coeff, c.scale, u);
        lemma_compare_at(a.coeff, a.scale, c.coeff, c.scale, u);
    }
}

/// Equality of numbers is comparing equal, for numbers that are not
/// not-a-number.
pub proof fn law_eq_is_order_equal(a: Model, b: Model)
    requires
        a.kind != Kind::NaN,
        b.kind != Kind::NaN,
    ensures
        equal_numbers(a, b) == (order_code(a, b) == 0),
{
    if a.kind == Kind::Finite && b.kind == Kind::Finite {
        let u = common_scale(a, b);
        lemma_compare_at(a.coeff, a.scale, b.coeff, b.scale, u);
    }
}

/// Addition commutes, for operands of one context.
pub proof fn law_add_commutative(a: Model, b: Model, n: usize)
    requires
        a.ctx == b.ctx,
    ensures
        sum_model(a, b, n) == sum_model(b, a, n),
{
    assert(a.signals.spec_combine(b.signals) == b.signals.spec_combine(a.signals));
    assert(common_scale(a, b) == common_scale(b, a));
}

/// Multiplication commutes, for operands of one context.
pub proof fn law_mul_commutative(a: Model, b: Model, n: usize)
    requires
        a.ctx == b.ctx,
    ensures
        product_model(a, b, n) == product_model(b, a, n),
{
    assert(a.signals.spec_combine(b.signals) == b.signals.spec_combine(a.signals));
    assert(a.coeff * b.coeff == b.coeff * a.coeff) by (nonlinear_arith);
}

/// Subtracting `b` from an exact sum `a + b` gives back the value of `a`.
pub proof fn law_sub_undoes_add(a: Model, b: Model, n: usize)
    requires
        valid_width(n),
        a.kind == Kind::Finite,
        b.kind == Kind::Finite,
        min_scale() <= a.scale <= max_scale(),
        min_scale() <= b.scale <= max_scale(),
        aligned(a.coeff, a.scale, common_scale(a, b)) + aligned(b.coeff, b.scale, common_scale(a, b)) < cap(n),
    ensures
        diff_model(sum_model(a, b, n), b, n).kind == Kind::Finite,
        same_value(
            diff_model(sum_model(a, b, n), b, n).coeff,
            diff_model(sum_model(a, b, n), b, n).scale,
            a.coeff,
            a.scale,
        ),
{
    let t = common_scale(a, b);
    let x = aligned(a.coeff, a.scale, t);
    let y = aligned(b.coeff, b.scale, t);
    lemma_finish_exact(x + y, t, a.ctx.rounding_mode, crate::round::Sign::Plus, n);
    let r = sum_model(a, b, n);
    assert(r.kind == Kind::Finite && r.coeff == x + y && r.scale == t);
    assert(common_scale(r, b) == t);
    assert(pow10(0) == 1);
    assert(aligned(x + y, t, t) == x + y) by (nonlinear_arith)
        requires
            aligned(x + y, t, t) == (x + y) * pow10(0),
            pow10(0) == 1,
    ;
    assert(aligned(x, t, t) == x) by (nonlinear_arith)
        requires
            aligned(x, t, t) == x * pow10(0),
            pow10(0) == 1,
    ;
    assert(!less_value(r.coeff, r.scale, b.coeff, b.scale));
    lemma_finish_exact(x, t, r.ctx.rounding_mode, crate::round::Sign::Plus, n);
    let d = diff_model(r, b, n);
    assert(d.coeff == x && d.scale == t);
    lemma_compare_at(d.coeff, d.scale, a.coeff, a.scale, t);
}

/// A finite number rescaled to a larger scale, where it fits, keeps its
/// value.
pub proof fn law_rescale_up_keeps_value(m: Model, t: int, n: usize)
    requires
        m.kind == Kind::Finite,
        t >= m.scale,
        m.coeff * pow10((t - m.scale) as nat) < cap(n),
    ensures
        rescaled(m, t, n).kind == Kind::Finite,
        rescaled(m, t, n).scale == t,
        same_value(rescaled(m, t, n).coeff, t, m.coeff, m.scale),
{
    lemma_compare_at(rescaled(m, t, n).coeff, t, m.coeff, m.scale, t);
    assert(pow10(0) == 1);
    let c = rescaled(m, t, n).coeff;
    assert(c * pow10(0) == c) by (nonlinear_arith)
        requires
            pow10(0) == 1,
    ;
}

/// Rescaling a finite number up to where it fits, then back to its own
/// scale, restores its coefficient and scale (only the `rounded` signal may
/// be added).
pub proof fn law_rescale_round_trip(m: Model, t: int, n: usize)
    requires
        m.kind == Kind::Finite,
        t >= m.scale,
        m.coeff * pow10((t - m.scale) as nat) < cap(n),
    ensures
        rescaled(rescaled(m, t, n), m.scale, n).kind == Kind::Finite,
        rescaled(rescaled(m, t, n), m.scale, n).coeff == m.coeff,
        rescaled(rescaled(m, t, n), m.scale, n).scale == m.scale,
        rescaled(rescaled(m, t, n), m.scale, n).ctx == m.ctx,
{
    let k = (t - m.scale) as nat;
    let c = m.coeff;
    let up = rescaled(m, t, n);
    assert(up == Model { coeff: c * pow10(k), scale: t, ..m });
    if k == 0 {
        assert(pow10(0) == 1);
        assert(c * pow10(0) == c) by (nonlinear_arith)
            requires
                pow10(0) == 1,
        ;
        assert(up == m);
        assert(rescaled(m, m.scale, n) == Model { coeff: c * pow10(0), scale: m.scale, ..m });
    } else {
        let big = c * pow10(k);
        let p1 = pow10((k - 1) as nat);
        lemma_pow10_pos((k - 1) as nat);
        assert(pow10(k) == 10 * p1);
        vstd::arithmetic::div_mod::lemma_fundamental_div_mod_converse(big as int, pow10(k) as int, c as int, 0);
        assert(big == (c * 10) * p1) by (nonlinear_arith)
            requires
                big == c * pow10(k),
                pow10(k) == 10 * p1,
        ;
        vstd::arithmetic::div_mod::lemma_fundamental_div_mod_converse(big as int, p1 as int, (c * 10) as int, 0);
        vstd::arithmetic::div_mod::lemma_fundamental_div_mod_converse((c * 10) as int, 10, c as int, 0);
        assert(big % pow10(k) == 0);
        assert(crate::round::round_div(big, k, m.ctx.rounding_mode, crate::round::Sign::Plus) == c);
        let down = rescaled(up, m.scale, n);
        assert(down.coeff == c);
    }
}

/// Quantizing a finite number by a finite one gives the other's scale,
/// unless it fails.
pub proof fn law_quantize_scale(m: Model, o: Model, n: usize)
    requires
        m.kind == Kind::Finite,
        o.kind == Kind::Finite,
        quantized(m, o, n).kind == Kind::Finite,
    ensures
        quantized(m, o, n).scale == o.scale,
{
}

/// A value that fits `n` limbs fits any wider width: widening an integer and
/// narrowing it back always succeeds.
pub proof fn law_widen_then_narrow(v: int, n: usize, m: usize)
    requires
        1 <= n <= m,
        fits_signed(v, n),
    ensures
        fits_signed(v, m),
{
    crate::uint::lemma_limb_cap_pos((n - 1) as nat);
    let a = crate::uint::limb_cap((n - 1) as nat);
    let b = crate::uint::limb_cap((m - 1) as nat);
    lemma_limb_cap_le((n - 1) as nat, (m - 1) as nat);
    assert(a * 0x8000_0000_0000_0000 <= b * 0x8000_0000_0000_0000) by (nonlinear_arith)
        requires
            a <= b,
    ;
}

/// More limbs, larger bounds.
proof fn lemma_limb_cap_le(a: nat, b: nat)
    requires
        a <= b,
    ensures
        crate::uint::limb_cap(a) <= crate::uint::limb_cap(b),
    decreases b,
{
    if a < b {
        lemma_limb_cap_le(a, (b - 1) as nat);
        crate::uint::lemma_limb_cap_pos((b - 1) as nat);
        assert(crate::uint::limb_cap(b) == crate::uint::limb_base() * crate::uint::limb_cap((b - 1) as nat));
    }
}

/// A fused multiply-add with a zero addend (of a scale no larger than the
/// product's, without signals) is the product.
pub proof fn law_mul_add_zero_is_mul(a: Model, x: Model, y: Model, n: usize)
    requires
        y.kind == Kind::Finite,
        y.coeff == 0,
        y.scale <= a.scale + x.scale,
        y.signals == crate::context::Signals::spec_empty(),
    ensures
        fused_model(a, x, y, n) == product_model(a, x, n),
{
    let s = a.signals.spec_combine(x.signals);
    assert(s.spec_combine(y.signals) == s);
    let sp = a.scale + x.scale;
    assert(pow10((sp - y.scale) as nat) >= 1) by {
        lemma_pow10_pos((sp - y.scale) as nat);
    }
    assert(aligned(0, y.scale, sp) == 0);
    assert(pow10(0) == 1);
    let p = a.coeff * x.coeff;
    assert(aligned(p, sp, sp) == p) by (nonlinear_arith)
        requires
            aligned(p, sp, sp) == p * pow10(0),
            pow10(0) == 1,
    ;
}

/// Dividing a finite number by one gives it back (its coefficient and
/// scale), when its scale is in range.
pub proof fn law_div_by_one(a: Model, b: Model, n: usize)
    requires
        valid_width(n),
        a.kind == Kind::Finite,
        b.kind == Kind::Finite,
        b.coeff == 1,
        b.scale == 0,
        min_scale() <= a.scale <= max_scale(),
        a.coeff < cap(n),
    ensures
        quotient_model(a, b, n).kind == Kind::Finite,
        quotient_model(a, b, n).coeff == a.coeff,
        quotient_model(a, b, n).scale == a.scale,
{
    let si = a.scale - b.scale;
    assert(si == a.scale);
    assert(quot_lowest(si) == si);
    assert(pow10(0) == 1);
    assert(a.coeff * pow10(0) == a.coeff) by (nonlinear_arith)
        requires
            pow10(0) == 1,
    ;
    assert(quot_num(a.coeff, 0) == a.coeff);
    assert(quot_den(1, 0) == 1);
    assert(a.coeff / 1 == a.coeff && a.coeff % 1 == 0);
    assert(exact_fit_at(a.coeff, 1, si, si, n));
    assert(first_exact_from(a.coeff, 1, si, si, n) == si);
}

/// The square root undoes an exact squaring: when the square of a finite
/// number fits at its doubled scale, its square root is that number again,
/// with the same coefficient and scale.
pub proof fn law_sqrt_undoes_square(a: Model, n: usize)
    requires
        valid_width(n),
        a.kind == Kind::Finite,
        a.coeff * a.coeff < cap(n),
        min_scale() <= 2 * a.scale <= max_scale(),
    ensures
        root_model(product_model(a, a, n), n).kind == Kind::Finite,
        root_model(product_model(a, a, n), n).coeff == a.coeff,
        root_model(product_model(a, a, n), n).scale == a.scale,
        !root_model(product_model(a, a, n), n).signals.inexact || a.signals.inexact,
{
    let c = a.coeff;
    let s = a.scale;
    lemma_finish_exact(c * c, 2 * s, a.ctx.rounding_mode, Sign::Plus, n);
    let p = product_model(a, a, n);
    assert(p.kind == Kind::Finite && p.coeff == c * c && p.scale == 2 * s);
    assert(root_ideal(2 * s) == s);
    assert(pow10(0) == 1);
    assert(root_arg(c * c, 2 * s, s) == c * c) by (nonlinear_arith)
        requires
            root_arg(c * c, 2 * s, s) == (c * c) * pow10(0),
            pow10(0) == 1,
    ;
    assert(c * c < (c + 1) * (c + 1)) by (nonlinear_arith);
    assert(is_root(c, c * c));
    lemma_isqrt(c, c * c);
    assert(c < cap(n)) by (nonlinear_arith)
        requires
            c * c < cap(n),
    ;
    assert(root_exact_fit_at(c * c, 2 * s, s, n));
    assert(first_root_exact_from(c * c, 2 * s, s, n) == s);
}

/// Powers add their exponents.
proof fn lemma_pow_nat_add(c: nat, a: nat, b: nat)
    ensures
        pow_nat(c, a + b) == pow_nat(c, a) * pow_nat(c, b),
    decreases a,
{
    if a > 0 {
        lemma_pow_nat_add(c, (a - 1) as nat, b);
        assert((a + b - 1) as nat == (a - 1) as nat + b);
        let x = pow_nat(c, (a - 1) as nat);
        let y = pow_nat(c, b);
        assert(pow_nat(c, a + b) == c * pow_nat(c, (a + b - 1) as nat));
        assert(c * (x * y) == (c * x) * y) by (nonlinear_arith);
    } else {
        assert(a + b == b);
        assert(pow_nat(c, 0) == 1);
    }
}

/// A power of a base of at least one grows with its exponent, and a power
/// of zero is at most one.
proof fn lemma_pow_nat_mono(c: nat, j: nat, k: nat)
    requires
        j <= k,
    ensures
        c >= 1 ==> pow_nat(c, j) <= pow_nat(c, k),
        c == 0 ==> pow_nat(c, j) <= 1,
    decreases k,
{
    if j < k {
        lemma_pow_nat_mono(c, j, (k - 1) as nat);
        let x = pow_nat(c, (k - 1) as nat);
        if c >= 1 {
            assert(x <= c * x) by (nonlinear_arith)
                requires
                    c >= 1,
            ;
        }
    } else if c == 0 && j > 0 {
        assert(pow_nat(0, j) == 0 * pow_nat(0, (j - 1) as nat));
    }
}

/// While every power fits, each product of the binary method is exact:
/// the power `k` of a finite number is its coefficient's power at `k` times
/// its scale, inexact only when the number was.
#[verifier::spinoff_prover]
#[verifier::rlimit(50)]
proof fn lemma_power_exact(a: Model, k: nat, n: usize)
    requires
        valid_width(n),
        a.kind == Kind::Finite,
        pow_nat(a.coeff, k) < cap(n),
        a.coeff == 0 ==> cap(n) >= 2,
        min_scale() <= k * a.scale <= max_scale(),
        min_scale() <= a.scale <= max_scale(),
    ensures
        power_model(a, k, n).kind == Kind::Finite,
        power_model(a, k, n).coeff == pow_nat(a.coeff, k),
        power_model(a, k, n).scale == k * a.scale,
        power_model(a, k, n).signals.inexact == a.signals.inexact,
    decreases k,
{
    let c = a.coeff;
    let s = a.scale;
    if k > 0 {
        let j: nat = if k % 2 == 0 { k / 2 } else { (k - 1) as nat };
        lemma_pow_nat_mono(c, j, k);
        assert(min_scale() <= j * s <= max_scale()) by (nonlinear_arith)
            requires
                j <= k,
                min_scale() <= k * s <= max_scale(),
                min_scale() <= s <= max_scale(),
                min_scale() < 0 < max_scale(),
        ;
        lemma_power_exact(a, j, n);
        let h = power_model(a, j, n);
        if k % 2 == 0 {
            lemma_pow_nat_add(c, j, j);
            assert(j + j == k);
            assert(j * s + j * s == k * s) by (nonlinear_arith)
                requires
                    j + j == k,
            ;
            lemma_finish_exact(pow_nat(c, k), k * s, h.ctx.rounding_mode, Sign::Plus, n);
        } else {
            assert(pow_nat(c, k) == c * pow_nat(c, j));
            assert(pow_nat(c, j) * c == c * pow_nat(c, j)) by (nonlinear_arith);
            assert(j * s + s == k * s) by (nonlinear_arith)
                requires
                    j + 1 == k,
            ;
            lemma_finish_exact(pow_nat(c, k), k * s, h.ctx.rounding_mode, Sign::Plus, n);
        }
    } else {
        assert(k * s == 0) by (nonlinear_arith)
            requires
                k == 0,
        ;
    }
}

/// A positive integer power is exact when it fits: the power `k` of a
/// finite number whose coefficient's power `k` fits, at `k` times its scale
/// in range, is that power at that scale, inexact only when the number was.
pub proof fn law_powi_exact(a: Model, k: nat, n: usize)
    requires
        valid_width(n),
        a.kind == Kind::Finite,
        k >= 1,
        pow_nat(a.coeff, k) < cap(n),
        min_scale() <= k * a.scale <= max_scale(),
    ensures
        integer_power_model(a, k as int, n).kind == Kind::Finite,
        integer_power_model(a, k as int, n).coeff == pow_nat(a.coeff, k),
        integer_power_model(a, k as int, n).scale == k * a.scale,
        integer_power_model(a, k as int, n).signals.inexact == a.signals.inexact,
{
    lemma_limb_cap_pos(n as nat);
    assert(min_scale() <= a.scale <= max_scale()) by (nonlinear_arith)
        requires
            k >= 1,
            min_scale() <= k * a.scale <= max_scale(),
            min_scale() < 0 < max_scale(),
    ;
    lemma_power_exact(a, k, n);
}

/// The mantissa of scientific notation: the first digit, then a point and
/// the others when there are others.
pub open spec fn scientific_mantissa(d: Seq<u8>) -> Seq<u8> {
    if d.len() > 1 {
        seq![d[0]] + (seq![46u8] + d.skip(1))
    } else {
        seq![d[0]]
    }
}

/// The scientific mantissa of digits reads as their value, with the digits
/// after the first as the fractional ones.
proof fn lemma_scientific_mantissa(d: Seq<u8>)
    requires
        all_digits(d),
        d.len() >= 1,
    ensures
        mant_value(scientific_mantissa(d)) == digits_val(d),
        dot_count(scientific_mantissa(d)) <= 1,
        digit_count(scientific_mantissa(d)) >= 1,
        frac_count(scientific_mantissa(d)) == d.len() - 1,
        forall|t: int| 0 <= t < scientific_mantissa(d).len() ==> mant_char(#[trigger] scientific_mantissa(d)[t]),
{
    let d0 = d[0];
    assert(is_digit(d0));
    let r = d.skip(1);
    assert(all_digits(r)) by {
        assert forall|i: int| 0 <= i < r.len() implies is_digit(#[trigger] r[i]) by {
            assert(r[i] == d[i + 1]);
        }
    }
    let x = seq![d0];
    assert(x.drop_last() =~= Seq::<u8>::empty());
    assert(x.last() == d0);
    assert(mant_value(x.drop_last()) == 0);
    assert(dot_count(x.drop_last()) == 0);
    assert(digit_count(x.drop_last()) == 0);
    assert(frac_count(x.drop_last()) == 0);
    assert(mant_value(x) == (d0 - 48) as nat);
    assert(dot_count(x) == 0 && digit_count(x) == 1 && frac_count(x) == 0);
    assert(d =~= x + r);
    lemma_digits_val_append(x, r);
    assert(digits_val(x.drop_last()) == 0);
    assert(digits_val(x) == (d0 - 48) as nat);
    let m = scientific_mantissa(d);
    if d.len() > 1 {
        let xd = seq![d0, 46u8];
        assert(xd.drop_last() =~= x);
        assert(xd.last() == 46u8);
        assert(m =~= xd + r);
        assert(mant_value(xd) == mant_value(x));
        assert(dot_count(xd) == 1 && digit_count(xd) == 1 && frac_count(xd) == 0);
        lemma_mantissa_append_digits(xd, r);
        assert forall|t: int| 0 <= t < m.len() implies mant_char(#[trigger] m[t]) by {
            if t == 0 {
                assert(m[0] == d0);
            } else if t == 1 {
                assert(m[1] == 46u8);
            } else {
                assert(m[t] == r[t - 2]);
            }
        }
    } else {
        assert(r.len() == 0);
        assert(m == x);
        assert(pow10(0) == 1);
        assert forall|t: int| 0 <= t < m.len() implies mant_char(#[trigger] m[t]) by {
            assert(m[t] == d0);
        }
    }
}

/// Reading back the scientific notation of a finite number gives the same
/// coefficient and scale.
pub proof fn law_scientific_round_trip(m: Model, n: usize, rm: RoundingMode)
    requires
        valid_width(n),
        m.kind == Kind::Finite,
        m.coeff < cap(n),
        min_scale() <= m.scale <= max_scale(),
    ensures
        parsed(scientific_text(m), n, rm) matches Ok(f) && f.kind == Kind::Finite && f.coeff == m.coeff && f.scale
            == m.scale,
{
    let c = m.coeff;
    let d = dec_repr(c);
    lemma_dec_repr_digits(c);
    // the coefficient has fewer than 2^30 digits
    crate::uint::lemma_cap_le_pow10(n as nat);
    if d.len() > 1 && (d.len() - 1) as nat >= 20 * n as nat {
        crate::ascii::lemma_pow10_mono(20 * n as nat, (d.len() - 1) as nat);
    }
    let e_val = (d.len() - 1) - m.scale;
    let ex = int_repr(e_val, false);
    let mant = scientific_mantissa(d);
    lemma_scientific_mantissa(d);
    let s = scientific_text(m);
    assert(s =~= mant + seq![101u8] + ex);
    assert(s[0] == d[0]);
    assert(is_digit(d[0]));
    assert(s.skip(0) =~= s);
    // not a special word
    assert(lower(s[0]) == s[0]);
    assert(!word_is(s, seq![105u8, 110, 102]) && !word_is(s, seq![105u8, 110, 102, 105, 110, 105, 116, 121])
        && !word_is(s, seq![110u8, 97, 110])) by {
        if word_is(s, seq![105u8, 110, 102]) {
            assert(lower(s[0]) == seq![105u8, 110, 102][0]);
        }
        if word_is(s, seq![105u8, 110, 102, 105, 110, 105, 116, 121]) {
            assert(lower(s[0]) == seq![105u8, 110, 102, 105, 110, 105, 116, 121][0]);
        }
        if word_is(s, seq![110u8, 97, 110]) {
            assert(lower(s[0]) == seq![110u8, 97, 110][0]);
        }
    }
    // the mantissa runs up to the exponent marker
    assert forall|t: int| 0 <= t < mant.len() implies mant_char(#[trigger] s[t]) by {
        assert(s[t] == mant[t]);
    }
    assert(s[mant.len() as int] == 101u8);
    lemma_split_at_marker(s, 0, mant.len() as int);
    assert(s.take(mant.len() as int) =~= mant);
    assert(s.skip(mant.len() as int + 1) =~= ex);
    lemma_exponent_text(e_val);
    assert(number_ok(s));
    assert(number_exponent(s) == e_val);
    assert(number_coeff(s) == c);
    assert(number_scale(s) == m.scale);
    lemma_finish_exact(c, m.scale, rm, Sign::Plus, n);
}

} // verus!
