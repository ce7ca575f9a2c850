//! The fused multiply-add `a * x + y` of finite numbers: the exact result,
//! streamed digit by digit into the fitting of `spec_finish`, so that it is
//! rounded once.
use vstd::prelude::*;

use crate::ascii::{
    all_digits, digit_char, digits_val, lemma_digits_val_append, lemma_padded_len, lemma_padded_val,
    lemma_pow10_add, lemma_pow10_mono, lemma_pow10_pos, padded, pow10,
};
use crate::decimal::aligned;
use crate::num::{
    div10_wide, fit_wide, fits_at, lemma_quotient_no_fit, lemma_tail_zero, spec_finish, wide, wide_add, Fitted,
};
use crate::parse::{digit_state, push_digit};
use crate::round::{RoundingMode, Sign};
use crate::uint::{cap, lemma_limb_cap_pos, valid_width, UInt};

verus! {

/// The digit at `j` of `n` written on `w` places is digit `w - 1 - j` of `n`
/// counted from the units.
proof fn lemma_padded_index(n: nat, w: nat, j: int)
    requires
        0 <= j < w,
    ensures
        padded(n, w)[j] == digit_char((n / pow10((w - 1 - j) as nat)) % 10),
    decreases w,
{
    lemma_padded_len(n / 10, (w - 1) as nat);
    if j == w - 1 {
        assert(pow10(0) == 1);
        assert(n / 1 == n);
    } else {
        lemma_padded_index(n / 10, (w - 1) as nat, j);
        let m = (w - 2 - j) as nat;
        assert((w - 1 - j) as nat == m + 1);
        lemma_pow10_pos(m);
        vstd::arithmetic::div_mod::lemma_div_denominator(n as int, 10, pow10(m) as int);
        assert(pow10(m + 1) == 10 * pow10(m));
    }
}

/// Below the `k`-th digit, `q 10^k + lo` has the digits of `lo`.
proof fn lemma_digit_below(w: nat, q: nat, lo: nat, m: nat, k: nat)
    requires
        m < k,
        w == q * pow10(k) + lo,
        lo < pow10(k),
    ensures
        (w / pow10(m)) % 10 == (lo / pow10(m)) % 10,
{
    let p = pow10(m);
    let e = (k - m - 1) as nat;
    lemma_pow10_pos(m);
    lemma_pow10_pos(e);
    lemma_pow10_add(m, (k - m) as nat);
    assert(m + (k - m) as nat == k);
    assert(pow10((k - m) as nat) == 10 * pow10(e)) by {
        assert((k - m) as nat == e + 1);
    }
    vstd::arithmetic::div_mod::lemma_fundamental_div_mod(lo as int, p as int);
    let a = q * (10 * pow10(e)) + lo / p;
    assert(w == a * p + lo % p) by (nonlinear_arith)
        requires
            w == q * pow10(k) + lo,
            pow10(k) == p * pow10((k - m) as nat),
            pow10((k - m) as nat) == 10 * pow10(e),
            lo == p * (lo / p) + lo % p,
            a == q * (10 * pow10(e)) + lo / p,
    ;
    vstd::arithmetic::div_mod::lemma_mod_pos_bound(lo as int, p as int);
    vstd::arithmetic::div_mod::lemma_fundamental_div_mod_converse(w as int, p as int, a as int, (lo % p) as int);
    assert(a == 10 * (q * pow10(e)) + lo / p) by (nonlinear_arith)
        requires
            a == q * (10 * pow10(e)) + lo / p,
    ;
    vstd::arithmetic::div_mod::lemma_mod_multiples_vanish((q * pow10(e)) as int, (lo / p) as int, 10);
}

/// The decimal digits of the two-halves number `(lo, hi)` from the units up,
/// at most `limit` of them: they stop early only at a zero quotient. Returns
/// the quotient left and the digits.
fn low_digits<const N: usize>(lo: &UInt<N>, hi: &UInt<N>, limit: u32) -> (r: (UInt<N>, UInt<N>, Vec<u8>))
    ensures
        r.2@.len() <= limit,
        r.2@.len() == limit || wide(r.0@, r.1@, N) == 0,
        wide(r.0@, r.1@, N) == wide(lo@, hi@, N) / pow10(r.2@.len()),
        forall|i: int| 0 <= i < r.2@.len() ==> #[trigger] r.2@[i] == (wide(lo@, hi@, N) / pow10(i as nat)) % 10,
{
    let ghost w0 = wide(lo@, hi@, N);
    let mut ql = *lo;
    let mut qh = *hi;
    let mut digits: Vec<u8> = Vec::new();
    let mut i: u32 = 0;
    proof {
        assert(pow10(0) == 1);
        assert(w0 / 1 == w0);
    }
    while i < limit && !(ql.is_zero() && qh.is_zero())
        invariant
            i <= limit,
            digits@.len() == i,
            wide(ql@, qh@, N) == w0 / pow10(i as nat),
            forall|t: int| 0 <= t < i ==> #[trigger] digits@[t] == (w0 / pow10(t as nat)) % 10,
        decreases limit - i,
    {
        let (l2, h2, d) = div10_wide(&ql, &qh);
        proof {
            lemma_pow10_pos(i as nat);
            vstd::arithmetic::div_mod::lemma_div_denominator(w0 as int, pow10(i as nat) as int, 10);
            assert(pow10((i + 1) as nat) == 10 * pow10(i as nat));
            assert(pow10(i as nat) * 10 == 10 * pow10(i as nat));
        }
        digits.push(d);
        ql = l2;
        qh = h2;
        i = i + 1;
    }
    proof {
        if i < limit {
            crate::uint::lemma_limb_cap_pos(N as nat);
            assert(wide(ql@, qh@, N) == 0) by (nonlinear_arith)
                requires
                    wide(ql@, qh@, N) == ql@ + cap(N) * qh@,
                    ql@ == 0,
                    qh@ == 0,
            ;
        }
    }
    (ql, qh, digits)
}

/// The exact `z * 10^k + w`, with `z` and `w` as two halves and `z + w /
/// 10^k` below `cap^2`, fitted at the scale `s` (see `spec_finish`).
fn fit_shifted_sum<const N: usize>(
    zl: &UInt<N>,
    zh: &UInt<N>,
    k: u32,
    wl: &UInt<N>,
    wh: &UInt<N>,
    s: i64,
    rm: RoundingMode,
) -> (r: Fitted<N>)
    requires
        valid_width(N),
        k <= 0x2_0000,
        zh@ == 0 || wh@ == 0,
        wide(zl@, zh@, N) + wide(wl@, wh@, N) / pow10(k as nat) < cap(N) * cap(N),
        -0x1_0000_0000 < s < 0x1_0000_0000,
    ensures
        r.spec() == spec_finish(
            wide(zl@, zh@, N) * pow10(k as nat) + wide(wl@, wh@, N),
            s as int,
            rm,
            Sign::Plus,
            N,
        ),
{
    let ghost z = wide(zl@, zh@, N);
    let ghost w = wide(wl@, wh@, N);
    let ghost c = z * pow10(k as nat) + w;
    // w = w_hi 10^k + w_lo, with the digits of w_lo from the units up
    let (hl, hh, wdigits) = low_digits(wl, wh, k);
    let ghost w_hi = wide(hl@, hh@, N);
    let ghost n_w = wdigits@.len();
    let ghost w_lo = w % pow10(k as nat);
    proof {
        lemma_pow10_pos(k as nat);
        lemma_pow10_pos(n_w);
        vstd::arithmetic::div_mod::lemma_fundamental_div_mod(w as int, pow10(k as nat) as int);
        if n_w < k {
            // the quotient ran out early: w is below 10^n_w, so below 10^k
            vstd::arithmetic::div_mod::lemma_fundamental_div_mod(w as int, pow10(n_w) as int);
            lemma_pow10_mono(n_w, k as nat);
            vstd::arithmetic::div_mod::lemma_small_mod(w, pow10(k as nat));
            vstd::arithmetic::div_mod::lemma_basic_div(w as int, pow10(k as nat) as int);
        }
        assert(w_hi == w / pow10(k as nat));
    }
    // h = z + w_hi, then its digits from the units up
    let (h_lo, h_hi) = if hh.is_zero() {
        proof {
            hl.lemma_bound();
            assert(w_hi == hl@) by (nonlinear_arith)
                requires
                    w_hi == hl@ + cap(N) * hh@,
                    hh@ == 0,
            ;
        }
        wide_add(zl, zh, &hl)
    } else {
        proof {
            crate::uint::lemma_limb_cap_pos(N as nat);
            wl.lemma_bound();
            // a quotient of at least cap comes from a w of two halves, so z
            // has one
            assert(w_hi >= cap(N)) by (nonlinear_arith)
                requires
                    w_hi == hl@ + cap(N) * hh@,
                    hh@ >= 1,
            ;
            vstd::arithmetic::div_mod::lemma_div_is_ordered_by_denominator(w as int, 1, pow10(k as nat) as int);
            assert(w / 1 == w);
            assert(wh@ != 0) by (nonlinear_arith)
                requires
                    w == wl@ + cap(N) * wh@,
                    wl@ < cap(N),
                    w >= w_hi,
                    w_hi >= cap(N),
            ;
            assert(z == zl@) by (nonlinear_arith)
                requires
                    z == zl@ + cap(N) * zh@,
                    zh@ == 0,
            ;
        }
        wide_add(&hl, &hh, zl)
    };
    let ghost h = wide(h_lo@, h_hi@, N);
    // h is below cap^2 <= 10^(40 N), so it has at most 40 N digits
    let limit: u32 = 40 * (N as u32) + 1;
    let (rest_l, rest_h, hdigits) = low_digits(&h_lo, &h_hi, limit);
    let n_h = hdigits.len();
    proof {
        assert(h == z + w_hi);
        crate::uint::lemma_limb_cap_pos(N as nat);
        crate::uint::lemma_cap_le_pow10(N as nat);
        lemma_pow10_pos(n_h as nat);
        vstd::arithmetic::div_mod::lemma_mod_pos_bound(h as int, pow10(n_h as nat) as int);
        if n_h == limit {
            lemma_pow10_add(20 * N as nat, 20 * N as nat);
            lemma_pow10_mono(40 * N as nat, n_h as nat);
            assert(cap(N) * cap(N) <= pow10(20 * N as nat) * pow10(20 * N as nat)) by (nonlinear_arith)
                requires
                    cap(N) <= pow10(20 * N as nat),
            ;
            assert(20 * N as nat + 20 * N as nat == 40 * N as nat);
        } else {
            vstd::arithmetic::div_mod::lemma_fundamental_div_mod(h as int, pow10(n_h as nat) as int);
            assert(wide(rest_l@, rest_h@, N) == 0);
            assert(h / pow10(n_h as nat) == 0);
            assert(pow10(n_h as nat) * (h / pow10(n_h as nat)) == 0) by (nonlinear_arith)
                requires
                    h / pow10(n_h as nat) == 0,
            ;
        }
        assert(h < pow10(n_h as nat));
    }
    // the digits of c: those of h on n_h places, then those of w_lo on k
    let ghost seq = padded(h, n_h as nat) + padded(w_lo, k as nat);
    proof {
        lemma_padded_len(h, n_h as nat);
        lemma_padded_len(w_lo, k as nat);
        lemma_digits_val_append(padded(h, n_h as nat), padded(w_lo, k as nat));
        lemma_padded_val(h, n_h as nat);
        lemma_padded_val(w_lo, k as nat);
        vstd::arithmetic::div_mod::lemma_small_mod(h, pow10(n_h as nat));
        vstd::arithmetic::div_mod::lemma_mod_pos_bound(w as int, pow10(k as nat) as int);
        vstd::arithmetic::div_mod::lemma_small_mod(w_lo, pow10(k as nat));
        assert(digits_val(seq) == c) by (nonlinear_arith)
            requires
                digits_val(seq) == h * pow10(k as nat) + w_lo,
                h == z + w_hi,
                w == pow10(k as nat) * w_hi + w_lo,
                c == z * pow10(k as nat) + w,
        ;
        assert(seq.take(0) =~= Seq::<u8>::empty());
        assert(wide(0, 0, N) == 0) by (nonlinear_arith)
            requires
                wide(0, 0, N) == 0 + cap(N) * 0,
        ;
        lemma_tail_zero(0, 0);
        assert(all_digits(seq)) by {
            assert forall|t: int| 0 <= t < seq.len() implies crate::ascii::is_digit(#[trigger] seq[t]) by {
                if t < n_h {
                    assert(seq[t] == padded(h, n_h as nat)[t]);
                } else {
                    assert(seq[t] == padded(w_lo, k as nat)[t - n_h]);
                }
            }
        }
    }
    let total: u64 = n_h as u64 + k as u64;
    let mut lo = UInt::<N>::zero();
    let mut hi = UInt::<N>::zero();
    let mut kk: u64 = 0;
    let mut rd: u8 = 0;
    let mut sticky = false;
    let mut j: u64 = 0;
    while j < total
        invariant
            valid_width(N),
            total == n_h + k,
            n_h <= 40 * N + 1,
            k <= 0x2_0000,
            total < 0x1_0000_0000,
            seq.len() == total,
            all_digits(seq),
            seq == padded(h, n_h as nat) + padded(w_lo, k as nat),
            padded(h, n_h as nat).len() == n_h,
            padded(w_lo, k as nat).len() == k,
            hdigits@.len() == n_h,
            forall|i: int| 0 <= i < n_h ==> #[trigger] hdigits@[i] == (h / pow10(i as nat)) % 10,
            wdigits@.len() == n_w,
            n_w <= k,
            n_w == k || w / pow10(n_w) == 0,
            forall|i: int| 0 <= i < n_w ==> #[trigger] wdigits@[i] == (w / pow10(i as nat)) % 10,
            w_lo == w % pow10(k as nat),
            j <= total,
            kk <= j,
            digit_state(digits_val(seq.take(j as int)), wide(lo@, hi@, N), kk as nat, rd as nat, sticky, N),
        decreases total - j,
    {
        let d: u8 = if j < n_h as u64 {
            hdigits[n_h - 1 - j as usize]
        } else {
            let m = k as u64 - 1 - (j - n_h as u64);
            if m < wdigits.len() as u64 {
                wdigits[m as usize]
            } else {
                0
            }
        };
        proof {
            let jj = j as int;
            lemma_pow10_pos(k as nat);
            lemma_pow10_pos(n_w);
            if jj < n_h {
                lemma_padded_index(h, n_h as nat, jj);
                assert(seq[jj] == padded(h, n_h as nat)[jj]);
            } else {
                let i = jj - n_h;
                let m = (k - 1 - i) as nat;
                lemma_padded_index(w_lo, k as nat, i);
                assert(seq[jj] == padded(w_lo, k as nat)[i]);
                lemma_pow10_pos(m);
                lemma_pow10_pos((k - m) as nat);
                lemma_pow10_add(m, (k - m) as nat);
                assert(m + (k - m) as nat == k as nat);
                // digit m of w_lo is digit m of w, below the k-th
                vstd::arithmetic::div_mod::lemma_fundamental_div_mod(w as int, pow10(k as nat) as int);
                let q = w / pow10(k as nat);
                assert(w == (q * pow10((k - m) as nat)) * pow10(m) + w_lo) by (nonlinear_arith)
                    requires
                        w == pow10(k as nat) * q + w_lo,
                        pow10(k as nat) == pow10(m) * pow10((k - m) as nat),
                ;
                vstd::arithmetic::div_mod::lemma_mod_pos_bound(w as int, pow10(k as nat) as int);
                assert(w == q * pow10(k as nat) + w_lo) by (nonlinear_arith)
                    requires
                        w == pow10(k as nat) * q + w_lo,
                ;
                lemma_digit_below(w, q, w_lo, m, k as nat);
                if m < n_w {
                } else {
                    // beyond the digits of w, w_lo has none either
                    lemma_pow10_mono(n_w, m);
                    vstd::arithmetic::div_mod::lemma_fundamental_div_mod(w as int, pow10(n_w) as int);
                    vstd::arithmetic::div_mod::lemma_mod_pos_bound(w as int, pow10(n_w) as int);
                    assert(w / pow10(n_w) == 0);
                    assert(pow10(n_w) * (w / pow10(n_w)) == 0) by (nonlinear_arith)
                        requires
                            w / pow10(n_w) == 0,
                    ;
                    assert(w < pow10(n_w));
                    lemma_pow10_mono(n_w, k as nat);
                    vstd::arithmetic::div_mod::lemma_small_mod(w, pow10(k as nat));
                    vstd::arithmetic::div_mod::lemma_basic_div(w_lo as int, pow10(m) as int);
                }
            }
            assert(seq.take(jj + 1).drop_last() =~= seq.take(jj));
            assert(seq.take(jj + 1).last() == seq[jj]);
            assert(seq[jj] == digit_char(d as nat));
        }
        let (l2, h2, k2, rd2, st2) = push_digit(lo, hi, kk, rd, sticky, d, Ghost(digits_val(seq.take(j as int))));
        lo = l2;
        hi = h2;
        kk = k2;
        rd = rd2;
        sticky = st2;
        j = j + 1;
    }
    proof {
        assert(seq.take(total as int) =~= seq);
        assert forall|i: nat| i < kk implies !#[trigger] fits_at(c, i, N, rm, Sign::Plus) by {
            let wv = wide(lo@, hi@, N);
            lemma_pow10_mono(i, kk as nat);
            assert(c >= cap(N) * pow10(i)) by (nonlinear_arith)
                requires
                    c >= wv * pow10(kk as nat),
                    wv >= cap(N),
                    pow10(i) <= pow10(kk as nat),
            ;
            lemma_quotient_no_fit(c, i, N, rm, Sign::Plus);
        }
    }
    fit_wide(lo, hi, kk, rd, sticky, s as i128, rm, Sign::Plus, Ghost(c))
}

/// `ca * 10^-sa` times `cx * 10^-sx`, plus `cy * 10^-sy`: the exact result
/// at the larger of the product's scale and `sy`, fitted once.
pub(crate) fn fused_finite<const N: usize>(
    ca: &UInt<N>,
    sa: i16,
    cx: &UInt<N>,
    sx: i16,
    cy: &UInt<N>,
    sy: i16,
    rm: RoundingMode,
) -> (r: Fitted<N>)
    ensures
        ({
            let sp = sa as int + sx as int;
            let t = if sp >= sy as int {
                sp
            } else {
                sy as int
            };
            r.spec() == spec_finish(
                aligned(ca@ * cx@, sp, t) + aligned(cy@, sy as int, t),
                t,
                rm,
                Sign::Plus,
                N,
            )
        }),
{
    ca.width_is_valid();
    let (pl, ph) = ca.widening_mul(cx);
    let zero = UInt::<N>::zero_like(ca);
    let sp: i32 = sa as i32 + sx as i32;
    let ghost p = ca@ * cx@;
    proof {
        ca.lemma_bound();
        cx.lemma_bound();
        cy.lemma_bound();
        lemma_limb_cap_pos(N as nat);
        let cp = cap(N);
        assert(p + cp <= cp * cp) by (nonlinear_arith)
            requires
                p == ca@ * cx@,
                ca@ < cp,
                cx@ < cp,
        ;
        assert(wide(cy@, 0, N) == cy@) by (nonlinear_arith)
            requires
                wide(cy@, 0, N) == cy@ + cap(N) * 0,
        ;
        assert(pow10(0) == 1);
        assert(p * pow10(0) == p) by (nonlinear_arith)
            requires
                pow10(0) == 1,
        ;
        assert(cy@ * pow10(0) == cy@) by (nonlinear_arith)
            requires
                pow10(0) == 1,
        ;
    }
    if sp >= sy as i32 {
        // the addend is brought up to the product's scale
        let k = (sp - sy as i32) as u32;
        proof {
            lemma_pow10_pos(k as nat);
            vstd::arithmetic::div_mod::lemma_div_is_ordered_by_denominator(p as int, 1, pow10(k as nat) as int);
            assert(p / 1 == p);
        }
        fit_shifted_sum(cy, &zero, k, &pl, &ph, sp as i64, rm)
    } else {
        // the product is brought up to the addend's scale
        let k = (sy as i32 - sp) as u32;
        proof {
            lemma_pow10_pos(k as nat);
            vstd::arithmetic::div_mod::lemma_div_is_ordered_by_denominator(cy@ as int, 1, pow10(k as nat) as int);
            assert(cy@ / 1 == cy@);
        }
        fit_shifted_sum(&pl, &ph, k, cy, &zero, sy as i64, rm)
    }
}

} // verus!
