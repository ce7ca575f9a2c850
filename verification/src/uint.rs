//! Fixed-width unsigned big integers of `N` 64-bit limbs and their decimal
//! powers and digit counts. The arithmetic itself is `bnum`'s.
use vstd::prelude::*;

use bnum::BUint;

use crate::ascii::{dec_repr, lemma_dec_repr_digits, lemma_pow10_mono, lemma_pow10_pos, pow10};

verus! {

/// `2^64`, the base of a limb.
pub open spec fn limb_base() -> nat {
    0x1_0000_0000_0000_0000
}

/// `2^(64 n)`: one more than the largest value of `n` limbs.
pub open spec fn limb_cap(n: nat) -> nat
    decreases n,
{
    if n == 0 {
        1
    } else {
        limb_base() * limb_cap((n - 1) as nat)
    }
}

/// The value of little-endian 64-bit limbs.
pub open spec fn limbs_nat(s: Seq<u64>) -> nat
    decreases s.len(),
{
    if s.len() == 0 {
        0
    } else {
        s[0] as nat + limb_base() * limbs_nat(s.drop_first())
    }
}

/// One more than the largest value of a `UInt<N>`.
pub open spec fn cap(n: usize) -> nat {
    limb_cap(n as nat)
}

/// The largest value of a `UInt<N>`.
pub open spec fn uint_max(n: usize) -> nat {
    (cap(n) - 1) as nat
}

/// The number of decimal digits of `n` (zero for zero).
pub open spec fn num_digits(n: nat) -> nat {
    if n == 0 {
        0
    } else {
        dec_repr(n).len()
    }
}

/// The largest `p` such that `10^p` is a `UInt<N>`: every number of `p`
/// digits fits.
pub open spec fn max_power_of_ten(n: usize) -> nat {
    (num_digits(uint_max(n)) - 1) as nat
}

/// `base^e`.
pub open spec fn pow_nat(base: nat, e: nat) -> nat
    decreases e,
{
    if e == 0 {
        1
    } else {
        base * pow_nat(base, (e - 1) as nat)
    }
}

pub proof fn lemma_limb_cap_pos(n: nat)
    ensures
        limb_cap(n) >= 1,
        n >= 1 ==> limb_cap(n) >= limb_base(),
    decreases n,
{
    if n > 0 {
        lemma_limb_cap_pos((n - 1) as nat);
        let c = limb_cap((n - 1) as nat);
        assert(limb_base() * c >= limb_base()) by (nonlinear_arith)
            requires
                c >= 1,
        ;
    }
}

pub proof fn lemma_limbs_bound(s: Seq<u64>)
    ensures
        limbs_nat(s) < limb_cap(s.len()),
    decreases s.len(),
{
    if s.len() > 0 {
        lemma_limbs_bound(s.drop_first());
        let x = s[0] as nat;
        let y = limbs_nat(s.drop_first());
        let c = limb_cap((s.len() - 1) as nat);
        assert(x + limb_base() * y < limb_base() * c) by (nonlinear_arith)
            requires
                x < limb_base(),
                y < c,
        ;
    }
}

/// The number of digits of a positive number, and the powers of ten that
/// bracket it.
pub proof fn lemma_num_digits(n: nat)
    requires
        n >= 1,
    ensures
        num_digits(n) >= 1,
        pow10((num_digits(n) - 1) as nat) <= n < pow10(num_digits(n)),
{
    lemma_dec_repr_digits(n);
    if dec_repr(n).len() == 1 {
        assert(pow10(0) == 1);
    }
}

/// A number's digit count is fixed by the powers of ten that bracket it.
pub proof fn lemma_num_digits_unique(n: nat, k: nat)
    requires
        n >= 1,
        pow10(k) <= n < pow10(k + 1),
    ensures
        num_digits(n) == k + 1,
{
    lemma_num_digits(n);
    let d = num_digits(n);
    if d > k + 1 {
        lemma_pow10_mono(k + 1, (d - 1) as nat);
    }
    if d < k + 1 {
        lemma_pow10_mono(d, k);
    }
}

/// Whether `N` limbs make a usable integer width: at least one limb, and few
/// enough that the width in bits is a `u32`.
pub open spec fn valid_width(n: usize) -> bool {
    1 <= n <= 0x100_0000
}

/// `2^(64 n) <= 10^(20 n)`: a number of `n` limbs has at most `20 n` digits.
pub proof fn lemma_cap_le_pow10(n: nat)
    ensures
        limb_cap(n) <= pow10(20 * n),
    decreases n,
{
    if n > 0 {
        lemma_cap_le_pow10((n - 1) as nat);
        crate::ascii::lemma_pow10_add(20, 20 * (n - 1) as nat);
        assert(20 * n == 20 + 20 * (n - 1) as nat);
        assert(pow10(20) == 100000000000000000000) by {
            reveal_with_fuel(pow10, 21);
        }
        let a = limb_cap((n - 1) as nat);
        let b = pow10(20 * (n - 1) as nat);
        assert(limb_base() * a <= pow10(20) * b) by (nonlinear_arith)
            requires
                a <= b,
                limb_base() <= pow10(20),
        ;
    }
}

/// Fixed-size unsigned integer of `N` 64-bit limbs.
#[derive(Copy, Clone)]
pub struct UInt<const N: usize> {
    digits: [u64; N],
}

impl<const N: usize> UInt<N> {
    #[verifier::type_invariant]
    spec fn width_ok(self) -> bool {
        valid_width(N)
    }
}

impl<const N: usize> View for UInt<N> {
    type V = nat;

    closed spec fn view(&self) -> nat {
        limbs_nat(self.digits@)
    }
}

#[verifier::external_body]
fn bn_zero<const N: usize>() -> (r: [u64; N])
    ensures
        limbs_nat(r@) == 0,
{
    *BUint::<N>::ZERO.digits()
}

#[verifier::external_body]
fn bn_max<const N: usize>() -> (r: [u64; N])
    ensures
        limbs_nat(r@) == uint_max(N),
{
    *BUint::<N>::MAX.digits()
}

#[verifier::external_body]
fn bn_from_u64<const N: usize>(x: u64) -> (r: [u64; N])
    requires
        N >= 1,
    ensures
        limbs_nat(r@) == x,
{
    *BUint::<N>::from_digit(x).digits()
}

#[verifier::external_body]
fn bn_checked_add<const N: usize>(a: [u64; N], b: [u64; N]) -> (r: Option<[u64; N]>)
    ensures
        r is Some <==> limbs_nat(a@) + limbs_nat(b@) < cap(N),
        r matches Some(c) ==> limbs_nat(c@) == limbs_nat(a@) + limbs_nat(b@),
{
    match BUint::<N>::from_digits(a).checked_add(BUint::<N>::from_digits(b)) {
        Some(c) => Some(*c.digits()),
        None => None,
    }
}

#[verifier::external_body]
fn bn_checked_sub<const N: usize>(a: [u64; N], b: [u64; N]) -> (r: Option<[u64; N]>)
    ensures
        r is Some <==> limbs_nat(b@) <= limbs_nat(a@),
        r matches Some(c) ==> limbs_nat(c@) == limbs_nat(a@) - limbs_nat(b@),
{
    match BUint::<N>::from_digits(a).checked_sub(BUint::<N>::from_digits(b)) {
        Some(c) => Some(*c.digits()),
        None => None,
    }
}

#[verifier::external_body]
fn bn_checked_mul<const N: usize>(a: [u64; N], b: [u64; N]) -> (r: Option<[u64; N]>)
    ensures
        r is Some <==> limbs_nat(a@) * limbs_nat(b@) < cap(N),
        r matches Some(c) ==> limbs_nat(c@) == limbs_nat(a@) * limbs_nat(b@),
{
    match BUint::<N>::from_digits(a).checked_mul(BUint::<N>::from_digits(b)) {
        Some(c) => Some(*c.digits()),
        None => None,
    }
}

#[verifier::external_body]
fn bn_widening_mul<const N: usize>(a: [u64; N], b: [u64; N]) -> (r: ([u64; N], [u64; N]))
    ensures
        limbs_nat(r.0@) + cap(N) * limbs_nat(r.1@) == limbs_nat(a@) * limbs_nat(b@),
{
    let (lo, hi) = BUint::<N>::from_digits(a).widening_mul(BUint::<N>::from_digits(b));
    (*lo.digits(), *hi.digits())
}

#[verifier::external_body]
fn bn_checked_div<const N: usize>(a: [u64; N], b: [u64; N]) -> (r: Option<[u64; N]>)
    ensures
        r is Some <==> limbs_nat(b@) != 0,
        r matches Some(c) ==> limbs_nat(c@) == limbs_nat(a@) / limbs_nat(b@),
{
    match BUint::<N>::from_digits(a).checked_div(BUint::<N>::from_digits(b)) {
        Some(c) => Some(*c.digits()),
        None => None,
    }
}

#[verifier::external_body]
fn bn_checked_rem<const N: usize>(a: [u64; N], b: [u64; N]) -> (r: Option<[u64; N]>)
    ensures
        r is Some <==> limbs_nat(b@) != 0,
        r matches Some(c) ==> limbs_nat(c@) == limbs_nat(a@) % limbs_nat(b@),
{
    match BUint::<N>::from_digits(a).checked_rem(BUint::<N>::from_digits(b)) {
        Some(c) => Some(*c.digits()),
        None => None,
    }
}

#[verifier::external_body]
fn bn_checked_pow<const N: usize>(a: [u64; N], e: u32) -> (r: Option<[u64; N]>)
    ensures
        r is Some <==> pow_nat(limbs_nat(a@), e as nat) < cap(N),
        r matches Some(c) ==> limbs_nat(c@) == pow_nat(limbs_nat(a@), e as nat),
{
    match BUint::<N>::from_digits(a).checked_pow(e) {
        Some(c) => Some(*c.digits()),
        None => None,
    }
}

#[verifier::external_body]
fn bn_lt<const N: usize>(a: [u64; N], b: [u64; N]) -> (r: bool)
    ensures
        r == (limbs_nat(a@) < limbs_nat(b@)),
{
    BUint::<N>::from_digits(a).lt(&BUint::<N>::from_digits(b))
}

#[verifier::external_body]
fn bn_eq<const N: usize>(a: [u64; N], b: [u64; N]) -> (r: bool)
    ensures
        r == (limbs_nat(a@) == limbs_nat(b@)),
{
    BUint::<N>::from_digits(a).eq(&BUint::<N>::from_digits(b))
}

#[verifier::external_body]
fn bn_checked_ilog10<const N: usize>(a: [u64; N]) -> (r: Option<u32>)
    ensures
        r is Some <==> limbs_nat(a@) != 0,
        r matches Some(k) ==> pow10(k as nat) <= limbs_nat(a@) < pow10((k + 1) as nat),
{
    BUint::<N>::from_digits(a).checked_ilog10()
}

#[verifier::external_body]
fn bn_to_decimal_ascii<const N: usize>(a: [u64; N]) -> (r: Vec<u8>)
    ensures
        r@ == dec_repr(limbs_nat(a@)),
{
    BUint::<N>::from_digits(a).to_str_radix(10).into_bytes()
}

impl<const N: usize> UInt<N> {
    pub proof fn lemma_bound(self)
        ensures
            self@ < cap(N),
            self@ <= uint_max(N),
    {
        lemma_limbs_bound(self.digits@);
    }

    /// Every `UInt<N>` that exists has a valid width.
    pub fn width_is_valid(&self)
        ensures
            valid_width(N),
    {
        proof {
            use_type_invariant(self);
        }
    }

    /// Zero.
    pub fn zero() -> (r: Self)
        requires
            valid_width(N),
        ensures
            r@ == 0,
    {
        UInt { digits: bn_zero::<N>() }
    }

    /// Zero, of the width of `other`.
    pub fn zero_like(other: &Self) -> (r: Self)
        ensures
            r@ == 0,
    {
        proof {
            use_type_invariant(other);
        }
        UInt { digits: bn_zero::<N>() }
    }

    /// The largest value, `2^(64 N) - 1`.
    pub fn max_value() -> (r: Self)
        requires
            valid_width(N),
        ensures
            r@ == uint_max(N),
    {
        UInt { digits: bn_max::<N>() }
    }

    /// The value `x`.
    pub fn from_u64(x: u64) -> (r: Self)
        requires
            valid_width(N),
        ensures
            r@ == x,
    {
        UInt { digits: bn_from_u64::<N>(x) }
    }

    /// The integer whose little-endian limbs are `digits`.
    pub fn from_digits(digits: [u64; N]) -> (r: Self)
        requires
            valid_width(N),
        ensures
            r@ == limbs_nat(digits@),
    {
        UInt { digits }
    }

    /// The little-endian limbs.
    pub fn digits(&self) -> (r: [u64; N])
        ensures
            limbs_nat(r@) == self@,
    {
        self.digits
    }

    pub fn is_zero(&self) -> (r: bool)
        ensures
            r == (self@ == 0),
    {
        proof {
            use_type_invariant(self);
        }
        bn_eq(self.digits, bn_zero::<N>())
    }

    pub fn lt(&self, other: &Self) -> (r: bool)
        ensures
            r == (self@ < other@),
    {
        bn_lt(self.digits, other.digits)
    }

    pub fn eq(&self, other: &Self) -> (r: bool)
        ensures
            r == (self@ == other@),
    {
        bn_eq(self.digits, other.digits)
    }

    pub fn checked_add(&self, other: &Self) -> (r: Option<Self>)
        ensures
            r is Some <==> self@ + other@ < cap(N),
            r matches Some(c) ==> c@ == self@ + other@,
    {
        proof {
            use_type_invariant(self);
        }
        match bn_checked_add(self.digits, other.digits) {
            Some(d) => Some(UInt { digits: d }),
            None => None,
        }
    }

    pub fn checked_sub(&self, other: &Self) -> (r: Option<Self>)
        ensures
            r is Some <==> other@ <= self@,
            r matches Some(c) ==> c@ == self@ - other@,
    {
        proof {
            use_type_invariant(self);
        }
        match bn_checked_sub(self.digits, other.digits) {
            Some(d) => Some(UInt { digits: d }),
            None => None,
        }
    }

    pub fn checked_mul(&self, other: &Self) -> (r: Option<Self>)
        ensures
            r is Some <==> self@ * other@ < cap(N),
            r matches Some(c) ==> c@ == self@ * other@,
    {
        proof {
            use_type_invariant(self);
        }
        match bn_checked_mul(self.digits, other.digits) {
            Some(d) => Some(UInt { digits: d }),
            None => None,
        }
    }

    /// The full product as `(low, high)` halves: `low + 2^(64 N) high`.
    pub fn widening_mul(&self, other: &Self) -> (r: (Self, Self))
        ensures
            r.0@ + cap(N) * r.1@ == self@ * other@,
    {
        proof {
            use_type_invariant(self);
        }
        let (lo, hi) = bn_widening_mul(self.digits, other.digits);
        (UInt { digits: lo }, UInt { digits: hi })
    }

    pub fn checked_div(&self, other: &Self) -> (r: Option<Self>)
        ensures
            r is Some <==> other@ != 0,
            r matches Some(c) ==> c@ == self@ / other@,
    {
        proof {
            use_type_invariant(self);
        }
        match bn_checked_div(self.digits, other.digits) {
            Some(d) => Some(UInt { digits: d }),
            None => None,
        }
    }

    pub fn checked_rem(&self, other: &Self) -> (r: Option<Self>)
        ensures
            r is Some <==> other@ != 0,
            r matches Some(c) ==> c@ == self@ % other@,
    {
        proof {
            use_type_invariant(self);
        }
        match bn_checked_rem(self.digits, other.digits) {
            Some(d) => Some(UInt { digits: d }),
            None => None,
        }
    }

    pub fn checked_pow(&self, e: u32) -> (r: Option<Self>)
        ensures
            r is Some <==> pow_nat(self@, e as nat) < cap(N),
            r matches Some(c) ==> c@ == pow_nat(self@, e as nat),
    {
        proof {
            use_type_invariant(self);
        }
        match bn_checked_pow(self.digits, e) {
            Some(d) => Some(UInt { digits: d }),
            None => None,
        }
    }

    /// `floor(log10(self))`, or `None` for zero.
    pub fn checked_ilog10(&self) -> (r: Option<u32>)
        ensures
            r is Some <==> self@ != 0,
            r matches Some(k) ==> pow10(k as nat) <= self@ < pow10((k + 1) as nat),
    {
        bn_checked_ilog10(self.digits)
    }

    /// The decimal digits, as ASCII.
    pub fn to_decimal_ascii(&self) -> (r: Vec<u8>)
        ensures
            r@ == dec_repr(self@),
    {
        bn_to_decimal_ascii(self.digits)
    }
}

} // verus!
