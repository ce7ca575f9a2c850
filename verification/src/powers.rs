//! Decimal digit counts and powers of ten and five of `UInt<N>`.
use vstd::prelude::*;

use crate::ascii::{lemma_pow10_add, lemma_pow10_mono, lemma_pow10_pos, pow10};
use crate::uint::{cap, lemma_num_digits, lemma_num_digits_unique, max_power_of_ten, num_digits, pow_nat, uint_max, UInt};

verus! {

pub proof fn lemma_pow_nat_ten(k: nat)
    ensures
        pow_nat(10, k) == pow10(k),
    decreases k,
{
    if k > 0 {
        lemma_pow_nat_ten((k - 1) as nat);
    }
}

/// `10^p <= max < 10^(p + 1)` for the largest power of ten `p` of `UInt<N>`.
pub proof fn lemma_max_power_of_ten(n: usize)
    requires
        crate::uint::valid_width(n),
    ensures
        pow10(max_power_of_ten(n)) <= uint_max(n) < pow10(max_power_of_ten(n) + 1),
{
    crate::uint::lemma_limb_cap_pos(n as nat);
    lemma_num_digits(uint_max(n));
}

/// `c * t <= m` exactly when `c <= m / t`.
pub proof fn lemma_mul_le_iff_le_div(c: nat, t: nat, m: nat)
    requires
        t >= 1,
    ensures
        (c * t <= m) == (c <= m / t),
{
    let q = m / t;
    let r = m % t;
    vstd::arithmetic::div_mod::lemma_fundamental_div_mod(m as int, t as int);
    assert(m == t * q + r);
    assert(0 <= r < t);
    if c <= q {
        assert(c * t <= q * t) by (nonlinear_arith)
            requires
                c <= q,
        ;
        assert(q * t == t * q) by (nonlinear_arith);
    } else {
        assert(c * t >= (q + 1) * t) by (nonlinear_arith)
            requires
                c >= q + 1,
        ;
        assert((q + 1) * t == t * q + t) by (nonlinear_arith);
    }
}

/// The largest power of ten that fits, `max_power_of_ten(N)`.
pub fn max_power_of_ten_exec<const N: usize>() -> (r: u32)
    requires
        crate::uint::valid_width(N),
    ensures
        r == max_power_of_ten(N),
        pow10(r as nat) <= uint_max(N) < pow10(r as nat + 1),
{
    let m = UInt::<N>::max_value();
    proof {
        crate::uint::lemma_limb_cap_pos(N as nat);
    }
    match m.checked_ilog10() {
        Some(k) => {
            proof {
                lemma_num_digits_unique(m@, k as nat);
            }
            k
        },
        None => {
            proof {
                assert(false);
            }
            0
        },
    }
}

/// The number of decimal digits of `n` (zero for zero).
pub fn decimal_digits<const N: usize>(n: &UInt<N>) -> (r: u32)
    ensures
        r == num_digits(n@),
{
    decimal_digits_long(n)
}

fn decimal_digits_long<const N: usize>(n: &UInt<N>) -> (r: u32)
    ensures
        r == num_digits(n@),
{
    if n.is_zero() {
        return 0;
    }
    match n.checked_ilog10() {
        Some(k) => {
            proof {
                lemma_num_digits_unique(n@, k as nat);
                lemma_pow10_pos(k as nat);
                n.lemma_bound();
            }
            n.width_is_valid();
            proof {
                // a number of at most 20 N digits
                crate::uint::lemma_cap_le_pow10(N as nat);
                if k as nat + 1 > 20 * N {
                    lemma_pow10_mono(20 * N as nat, k as nat);
                }
            }
            k + 1
        },
        None => 0,
    }
}

/// The number of decimal digits that can still be appended to `n` (that is,
/// the largest `r` with `n * 10^r` a `UInt<N>`); one more than the largest
/// power of ten for zero.
pub fn remaining_decimal_digits<const N: usize>(n: &UInt<N>) -> (r: u32)
    ensures
        n@ == 0 ==> r == max_power_of_ten(N) + 1,
        n@ != 0 ==> n@ * pow10(r as nat) <= uint_max(N) < n@ * pow10(r as nat + 1),
{
    remaining_decimal_digits_long(n)
}

fn remaining_decimal_digits_long<const N: usize>(n: &UInt<N>) -> (r: u32)
    ensures
        n@ == 0 ==> r == max_power_of_ten(N) + 1,
        n@ != 0 ==> n@ * pow10(r as nat) <= uint_max(N) < n@ * pow10(r as nat + 1),
{
    n.width_is_valid();
    let dd = decimal_digits(n);
    let p = max_power_of_ten_exec::<N>();
    proof {
        crate::uint::lemma_cap_le_pow10(N as nat);
        n.lemma_bound();
        if p as nat + 1 > 20 * N {
            lemma_pow10_mono(20 * N as nat, p as nat);
        }
        if n@ != 0 {
            lemma_num_digits(n@);
            if dd > p + 1 {
                lemma_pow10_mono(p as nat + 1, (dd - 1) as nat);
            }
        }
    }
    let mut max_digits = p + 1;
    if dd != 0 {
        let reduced = unchecked_max_reduced_by_power_of_ten::<N>(max_digits - dd);
        if reduced.lt(n) {
            max_digits -= 1;
        }
        proof {
            let c = n@;
            let k = (p + 1 - dd) as nat;
            let m = uint_max(N);
            lemma_pow10_pos(k);
            lemma_pow10_add(k, (dd - 1) as nat);
            lemma_pow10_add(k, 1);
            lemma_pow10_add((k - 1) as nat, dd as nat);
            assert(pow10(1) == 10 * pow10(0));
            // n * 10^k <= max exactly when n <= max / 10^k
            lemma_mul_le_iff_le_div(c, pow10(k), m);
            if reduced@ < c {
                // n * 10^k > max, while n * 10^(k - 1) < 10^dd * 10^(k - 1) = 10^p <= max
                assert(k >= 1) by {
                    if k == 0 {
                        vstd::arithmetic::div_mod::lemma_div_basics(m as int);
                        assert(pow10(0) == 1);
                        assert(c <= m);
                    }
                }
                lemma_pow10_pos((k - 1) as nat);
                lemma_pow10_add((k - 1) as nat, dd as nat);
                assert((k - 1) as nat + dd as nat == p as nat);
                assert(c * pow10((k - 1) as nat) <= m) by (nonlinear_arith)
                    requires
                        c < pow10(dd as nat),
                        pow10((k - 1) as nat) * pow10(dd as nat) == pow10(p as nat),
                        pow10(p as nat) <= m,
                        pow10((k - 1) as nat) >= 1,
                ;
                assert(((k - 1) as nat + 1) as nat == k);
            } else {
                // n * 10^(k + 1) >= 10^(dd - 1) * 10^(k + 1) = 10^(p + 1) > max
                lemma_pow10_add(k + 1, (dd - 1) as nat);
                assert(k + 1 + (dd - 1) as nat == p as nat + 1);
                assert(c * pow10(k + 1) > m) by (nonlinear_arith)
                    requires
                        c >= pow10((dd - 1) as nat),
                        pow10(k + 1) * pow10((dd - 1) as nat) == pow10(p as nat + 1),
                        m < pow10(p as nat + 1),
                        pow10(k + 1) >= 1,
                ;
            }
        }
    }
    max_digits - dd
}

/// `max / 10^power`, for `power` at most the largest power of ten.
fn unchecked_max_reduced_by_power_of_ten<const N: usize>(power: u32) -> (r: UInt<N>)
    requires
        crate::uint::valid_width(N),
        power <= max_power_of_ten(N),
    ensures
        r@ == uint_max(N) / pow10(power as nat),
{
    let p = unchecked_power_of_ten::<N>(power);
    proof {
        lemma_pow10_pos(power as nat);
    }
    match UInt::<N>::max_value().checked_div(&p) {
        Some(q) => q,
        None => {
            proof {
                assert(false);
            }
            UInt::<N>::zero()
        },
    }
}

/// `10^power`, for `power` at most the largest power of ten.
pub fn unchecked_power_of_ten<const N: usize>(power: u32) -> (r: UInt<N>)
    requires
        crate::uint::valid_width(N),
        power <= max_power_of_ten(N),
    ensures
        r@ == pow10(power as nat),
{
    proof {
        lemma_max_power_of_ten(N);
        crate::uint::lemma_limb_cap_pos(N as nat);
        lemma_pow10_mono(power as nat, max_power_of_ten(N));
        lemma_pow_nat_ten(power as nat);
    }
    match checked_power_of_ten::<N>(power) {
        Some(v) => v,
        None => {
            proof {
                assert(false);
            }
            UInt::<N>::zero()
        },
    }
}

/// `5^power`, which must fit.
pub fn unchecked_power_of_five<const N: usize>(power: u32) -> (r: UInt<N>)
    requires
        crate::uint::valid_width(N),
        pow_nat(5, power as nat) < cap(N),
    ensures
        r@ == pow_nat(5, power as nat),
{
    match checked_power_of_five::<N>(power) {
        Some(v) => v,
        None => {
            proof {
                assert(false);
            }
            UInt::<N>::zero()
        },
    }
}

/// `10^power`, or `None` when it does not fit.
pub fn checked_power_of_ten<const N: usize>(power: u32) -> (r: Option<UInt<N>>)
    requires
        crate::uint::valid_width(N),
    ensures
        r is Some <==> pow10(power as nat) < cap(N),
        r matches Some(v) ==> v@ == pow10(power as nat),
{
    proof {
        lemma_pow_nat_ten(power as nat);
    }
    UInt::<N>::from_u64(10).checked_pow(power)
}

/// `5^power`, or `None` when it does not fit.
pub fn checked_power_of_five<const N: usize>(power: u32) -> (r: Option<UInt<N>>)
    requires
        crate::uint::valid_width(N),
    ensures
        r is Some <==> pow_nat(5, power as nat) < cap(N),
        r matches Some(v) ==> v@ == pow_nat(5, power as nat),
{
    UInt::<N>::from_u64(5).checked_pow(power)
}

/// Whether `n * 10^power` still fits.
pub fn can_scaled_by_power_of_ten<const N: usize>(n: &UInt<N>, power: u32) -> (r: bool)
    ensures
        r == (n@ * pow10(power as nat) <= uint_max(N)),
{
    n.width_is_valid();
    match checked_power_of_ten::<N>(power) {
        Some(p) => {
            let m = UInt::<N>::max_value();
            proof {
                lemma_pow10_pos(power as nat);
            }
            match m.checked_div(&p) {
                Some(q) => {
                    let r = !q.lt(n);
                    proof {
                        lemma_mul_le_iff_le_div(n@, pow10(power as nat), uint_max(N));
                    }
                    r
                },
                None => {
                    proof {
                        assert(false);
                    }
                    false
                },
            }
        },
        None => {
            proof {
                n.lemma_bound();
                lemma_pow10_pos(power as nat);
                let c = n@;
                let t = pow10(power as nat);
                assert(c >= 1 ==> c * t >= t) by (nonlinear_arith);
                assert(c == 0 ==> c * t == 0) by (nonlinear_arith);
            }
            n.is_zero()
        },
    }
}

} // verus!
