//! Signed integers of `N` 64-bit limbs in two's complement, and the
//! conversions between widths: widening by sign extension, narrowing only
//! when the value fits.
use vstd::prelude::*;

use crate::parse::ParseError;
use crate::uint::{cap, lemma_limb_cap_pos, lemma_limbs_bound, limb_base, limb_cap, limbs_nat, valid_width, UInt};

verus! {

/// `2^(64 n - 1)`: the magnitude of the smallest signed value of `n` limbs.
pub open spec fn half_cap(n: usize) -> nat {
    limb_cap((n - 1) as nat) * 0x8000_0000_0000_0000
}

/// The value of the bits `x` of `n` limbs read in two's complement.
pub open spec fn signed_value(x: nat, n: usize) -> int {
    if x >= half_cap(n) {
        x - cap(n)
    } else {
        x as int
    }
}

/// Whether `v` is a signed value of `n` limbs.
pub open spec fn fits_signed(v: int, n: usize) -> bool {
    -(half_cap(n) as int) <= v < half_cap(n)
}

/// `2^(64 (a + b)) = 2^(64 a) 2^(64 b)`.
proof fn lemma_limb_cap_add(a: nat, b: nat)
    ensures
        limb_cap(a + b) == limb_cap(a) * limb_cap(b),
    decreases a,
{
    if a > 0 {
        lemma_limb_cap_add((a - 1) as nat, b);
        assert((a - 1) as nat + b + 1 == a + b);
        assert(limb_cap(a + b) == limb_base() * limb_cap(((a + b) - 1) as nat));
        assert(((a + b) - 1) as nat == (a - 1) as nat + b);
        let x = limb_cap((a - 1) as nat);
        assert(limb_cap(a) == limb_base() * x);
        assert(limb_base() * (x * limb_cap(b)) == (limb_base() * x) * limb_cap(b)) by (nonlinear_arith);
    } else {
        assert(limb_cap(0) == 1);
        assert(1 * limb_cap(b) == limb_cap(b));
    }
}

/// Twice the half is the whole.
proof fn lemma_half_cap(n: usize)
    requires
        n >= 1,
    ensures
        half_cap(n) * 2 == cap(n),
        half_cap(n) >= 1,
{
    lemma_limb_cap_pos((n - 1) as nat);
    assert(limb_cap(n as nat) == limb_base() * limb_cap((n - 1) as nat));
}

/// More limbs, larger bounds.
proof fn lemma_limb_cap_mono(a: nat, b: nat)
    requires
        a <= b,
    ensures
        limb_cap(a) <= limb_cap(b),
{
    lemma_limb_cap_add(a, (b - a) as nat);
    assert(a + (b - a) as nat == b);
    lemma_limb_cap_pos((b - a) as nat);
    lemma_limb_cap_pos(a);
    assert(limb_cap(a) * limb_cap((b - a) as nat) >= limb_cap(a)) by (nonlinear_arith)
        requires
            limb_cap((b - a) as nat) >= 1,
    ;
}

/// The limbs below `k` and those from `k` on.
proof fn lemma_limbs_split(s: Seq<u64>, k: nat)
    requires
        k <= s.len(),
    ensures
        limbs_nat(s) == limbs_nat(s.take(k as int)) + limb_cap(k) * limbs_nat(s.skip(k as int)),
    decreases k,
{
    if k == 0 {
        assert(s.take(0) =~= Seq::<u64>::empty());
        assert(limbs_nat(s.take(0)) == 0);
        assert(s.skip(0) =~= s);
        assert(limb_cap(0) == 1);
        assert(1 * limbs_nat(s) == limbs_nat(s));
    } else {
        let d = s.drop_first();
        lemma_limbs_split(d, (k - 1) as nat);
        assert(s.take(k as int).drop_first() =~= d.take(k - 1));
        assert(s.take(k as int)[0] == s[0]);
        assert(d.skip(k - 1) =~= s.skip(k as int));
        let lo = limbs_nat(d.take(k - 1));
        let hi = limbs_nat(s.skip(k as int));
        let c = limb_cap((k - 1) as nat);
        assert(limbs_nat(s) == s[0] as nat + limb_base() * limbs_nat(d));
        assert(limbs_nat(s.take(k as int)) == s[0] as nat + limb_base() * lo);
        assert(limb_cap(k) == limb_base() * c);
        assert(limb_base() * (lo + c * hi) == limb_base() * lo + (limb_base() * c) * hi) by (nonlinear_arith);
    }
}

/// Limbs all zero make zero, and only they do.
proof fn lemma_limbs_zero(u: Seq<u64>)
    ensures
        (limbs_nat(u) == 0) == (forall|i: int| 0 <= i < u.len() ==> u[i] == 0),
    decreases u.len(),
{
    if u.len() > 0 {
        let d = u.drop_first();
        lemma_limbs_zero(d);
        if limbs_nat(u) == 0 {
            assert(u[0] == 0 && limbs_nat(d) == 0) by (nonlinear_arith)
                requires
                    limbs_nat(u) == u[0] as nat + limb_base() * limbs_nat(d),
                    limbs_nat(u) == 0,
            ;
            assert forall|i: int| 0 <= i < u.len() implies u[i] == 0 by {
                if i > 0 {
                    assert(u[i] == d[i - 1]);
                }
            }
        }
        if forall|i: int| 0 <= i < u.len() ==> u[i] == 0 {
            assert forall|i: int| 0 <= i < d.len() implies d[i] == 0 by {
                assert(d[i] == u[i + 1]);
            }
        }
    }
}

/// Limbs all ones make the largest value of their width, and only they do.
proof fn lemma_limbs_ones(u: Seq<u64>)
    ensures
        (limbs_nat(u) + 1 == limb_cap(u.len())) == (forall|i: int| 0 <= i < u.len() ==> u[i] == 0xffff_ffff_ffff_ffff),
    decreases u.len(),
{
    if u.len() > 0 {
        let d = u.drop_first();
        lemma_limbs_ones(d);
        lemma_limbs_bound(d);
        let c = limb_cap(d.len());
        let x = u[0] as nat;
        let y = limbs_nat(d);
        assert(limb_cap(u.len()) == limb_base() * c);
        if limbs_nat(u) + 1 == limb_cap(u.len()) {
            assert(x == 0xffff_ffff_ffff_ffff && y + 1 == c) by (nonlinear_arith)
                requires
                    x + limb_base() * y + 1 == limb_base() * c,
                    x < limb_base(),
                    y < c,
                    limb_base() == 0x1_0000_0000_0000_0000,
            ;
            assert forall|i: int| 0 <= i < u.len() implies u[i] == 0xffff_ffff_ffff_ffff by {
                if i > 0 {
                    assert(u[i] == d[i - 1]);
                }
            }
        }
        if forall|i: int| 0 <= i < u.len() ==> u[i] == 0xffff_ffff_ffff_ffff {
            assert forall|i: int| 0 <= i < d.len() implies d[i] == 0xffff_ffff_ffff_ffff by {
                assert(d[i] == u[i + 1]);
            }
            assert(x + limb_base() * y + 1 == limb_base() * c) by (nonlinear_arith)
                requires
                    x == 0xffff_ffff_ffff_ffff,
                    y + 1 == c,
                    limb_base() == 0x1_0000_0000_0000_0000,
            ;
        }
    } else {
        assert(limb_cap(0) == 1);
    }
}

/// The sign bit is the top bit of the top limb.
proof fn lemma_sign_limb(s: Seq<u64>, n: usize)
    requires
        n >= 1,
        s.len() == n,
    ensures
        (limbs_nat(s) >= half_cap(n)) == (s[n - 1] >= 0x8000_0000_0000_0000),
{
    lemma_limbs_split(s, (n - 1) as nat);
    let lo = s.take(n - 1);
    let top = s.skip(n - 1);
    assert(top.drop_first() =~= Seq::<u64>::empty());
    assert(top[0] == s[n - 1]);
    assert(limbs_nat(top.drop_first()) == 0);
    assert(limbs_nat(top) == s[n - 1] as nat);
    lemma_limbs_bound(lo);
    let c = limb_cap((n - 1) as nat);
    let l = limbs_nat(lo);
    let t = s[n - 1] as nat;
    assert((l + c * t >= c * 0x8000_0000_0000_0000) == (t >= 0x8000_0000_0000_0000)) by (nonlinear_arith)
        requires
            l < c,
    ;
}

/// Fixed-size signed integer of `N` 64-bit limbs, in two's complement.
#[derive(Copy, Clone)]
pub struct Int<const N: usize> {
    bits: UInt<N>,
}

impl<const N: usize> View for Int<N> {
    type V = int;

    closed spec fn view(&self) -> int {
        signed_value(self.bits@, N)
    }
}

impl<const N: usize> Int<N> {
    /// The integer of the two's-complement bits `bits`.
    pub fn from_bits(bits: UInt<N>) -> (r: Self)
        ensures
            r@ == signed_value(bits@, N),
    {
        Int { bits }
    }

    /// The two's-complement bits.
    pub fn to_bits(&self) -> (r: UInt<N>)
        ensures
            signed_value(r@, N) == self@,
    {
        self.bits
    }

    /// Every value is in the signed range of its width.
    pub proof fn lemma_range(&self)
        requires
            valid_width(N),
        ensures
            fits_signed(self@, N),
    {
        self.bits.lemma_bound();
        lemma_half_cap(N);
    }

    /// The integer `v`, sign-extended to `N` limbs.
    pub fn from_i64(v: i64) -> (r: Self)
        requires
            valid_width(N),
        ensures
            r@ == v,
    {
        let low: u64 = if v >= 0 { v as u64 } else { 0xffff_ffff_ffff_ffff - ((-(v + 1)) as u64) };
        let ext: u64 = if v >= 0 { 0 } else { 0xffff_ffff_ffff_ffff };
        let mut limbs: [u64; N] = [ext; N];
        limbs[0] = low;
        let ghost s = limbs@;
        proof {
            lemma_limbs_split(s, 1);
            let top = s.skip(1);
            assert(s.take(1).drop_first() =~= Seq::<u64>::empty());
            assert(limbs_nat(s.take(1).drop_first()) == 0);
            assert(s.take(1)[0] == low);
            assert(limbs_nat(s.take(1)) == low as nat);
            assert(forall|i: int| 0 <= i < top.len() ==> top[i] == s[i + 1]);
            lemma_limbs_zero(top);
            lemma_limbs_ones(top);
            lemma_half_cap(N);
            lemma_limb_cap_pos((N - 1) as nat);
            let c1 = limb_cap((N - 1) as nat);
            assert(cap(N) == limb_base() * c1);
            if v >= 0 {
                assert(limbs_nat(s) == low as nat) by (nonlinear_arith)
                    requires
                        limbs_nat(s) == low as nat + limb_base() * limbs_nat(top),
                        limbs_nat(top) == 0,
                ;
                assert(half_cap(N) >= 0x8000_0000_0000_0000) by (nonlinear_arith)
                    requires
                        half_cap(N) == c1 * 0x8000_0000_0000_0000,
                        c1 >= 1,
                ;
            } else {
                assert(limbs_nat(s) == cap(N) + v) by (nonlinear_arith)
                    requires
                        limbs_nat(s) == low as nat + limb_base() * limbs_nat(top),
                        limbs_nat(top) + 1 == c1,
                        low == 0x1_0000_0000_0000_0000 + v,
                        cap(N) == limb_base() * c1,
                        limb_base() == 0x1_0000_0000_0000_0000,
                ;
                assert(cap(N) + v >= half_cap(N)) by (nonlinear_arith)
                    requires
                        half_cap(N) * 2 == cap(N),
                        cap(N) == limb_base() * c1,
                        c1 >= 1,
                        v >= -0x8000_0000_0000_0000,
                        limb_base() == 0x1_0000_0000_0000_0000,
                ;
            }
        }
        Int { bits: UInt::<N>::from_digits(limbs) }
    }

    /// Minus one.
    pub fn neg_one() -> (r: Self)
        requires
            valid_width(N),
        ensures
            r@ == -1,
    {
        Self::from_i64(-1)
    }

    /// Whether the value is below zero: its sign bit.
    pub fn is_negative(&self) -> (r: bool)
        ensures
            r == (self@ < 0),
    {
        self.bits.width_is_valid();
        let d = self.bits.digits();
        proof {
            lemma_sign_limb(d@, N);
            self.bits.lemma_bound();
            lemma_half_cap(N);
        }
        d[N - 1] >= 0x8000_0000_0000_0000
    }

    /// Whether the value is above zero.
    pub fn is_positive(&self) -> (r: bool)
        ensures
            r == (self@ > 0),
    {
        self.bits.width_is_valid();
        proof {
            self.bits.lemma_bound();
            lemma_half_cap(N);
        }
        !self.is_negative() && !self.bits.is_zero()
    }

    /// Whether two integers of one width are equal.
    pub fn eq(&self, other: &Self) -> (r: bool)
        ensures
            r == (self@ == other@),
    {
        self.bits.width_is_valid();
        proof {
            self.bits.lemma_bound();
            other.bits.lemma_bound();
            lemma_half_cap(N);
        }
        self.bits.eq(&other.bits)
    }

    /// The same value in `M >= N` limbs: the sign bit is extended.
    pub fn cast<const M: usize>(&self) -> (r: Int<M>)
        requires
            N <= M,
            valid_width(M),
        ensures
            r@ == self@,
    {
        self.bits.width_is_valid();
        let d = self.bits.digits();
        let negative = d[N - 1] >= 0x8000_0000_0000_0000;
        let ext: u64 = if negative { 0xffff_ffff_ffff_ffff } else { 0 };
        let mut out: [u64; M] = [ext; M];
        let mut j: usize = 0;
        while j < N
            invariant
                N <= M,
                j <= N,
                d@.len() == N,
                out@.len() == M,
                forall|i: int| 0 <= i < j ==> out@[i] == d@[i],
                forall|i: int| j <= i < M ==> out@[i] == ext,
            decreases N - j,
        {
            out[j] = d[j];
            j = j + 1;
        }
        proof {
            let s = out@;
            let x = limbs_nat(d@);
            lemma_limbs_split(s, N as nat);
            assert(s.take(N as int) =~= d@);
            let top = s.skip(N as int);
            lemma_limbs_zero(top);
            lemma_limbs_ones(top);
            lemma_sign_limb(d@, N);
            lemma_limb_cap_add(N as nat, (M - N) as nat);
            assert(N as nat + (M - N) as nat == M as nat);
            lemma_half_cap(N);
            lemma_half_cap(M);
            lemma_limb_cap_mono((N - 1) as nat, (M - 1) as nat);
            lemma_limbs_bound(d@);
            let cn = cap(N);
            let cm = cap(M);
            let ct = limb_cap((M - N) as nat);
            assert(half_cap(N) <= half_cap(M)) by (nonlinear_arith)
                requires
                    limb_cap((N - 1) as nat) <= limb_cap((M - 1) as nat),
                    half_cap(N) == limb_cap((N - 1) as nat) * 0x8000_0000_0000_0000,
                    half_cap(M) == limb_cap((M - 1) as nat) * 0x8000_0000_0000_0000,
            ;
            if negative {
                assert(limbs_nat(s) == x + cm - cn) by (nonlinear_arith)
                    requires
                        limbs_nat(s) == x + cn * limbs_nat(top),
                        limbs_nat(top) + 1 == ct,
                        cm == cn * ct,
                ;
            } else {
                assert(limbs_nat(s) == x) by (nonlinear_arith)
                    requires
                        limbs_nat(s) == x + cn * limbs_nat(top),
                        limbs_nat(top) == 0,
                ;
            }
        }
        Int { bits: UInt::<M>::from_digits(out) }
    }

    /// The same value in `M <= N` limbs when it fits there, and
    /// `PosOverflow` otherwise: it fits exactly when the limbs from `M` on
    /// all repeat the sign bit of limb `M - 1`.
    pub fn try_cast<const M: usize>(&self) -> (r: Result<Int<M>, ParseError>)
        requires
            M <= N,
            valid_width(M),
        ensures
            fits_signed(self@, M) ==> (r matches Ok(v) && v@ == self@),
            !fits_signed(self@, M) ==> r == Err::<Int<M>, ParseError>(ParseError::PosOverflow),
    {
        self.bits.width_is_valid();
        let digits = self.bits.digits();
        // the sign bit of the narrow value decides what the upper limbs must be
        let sign_digit = digits[M - 1];
        let expected: u64 = if sign_digit >= 0x8000_0000_0000_0000 { 0xffff_ffff_ffff_ffff } else { 0 };
        let ghost s = digits@;
        let ghost x = limbs_nat(s);
        let ghost low = s.take(M as int);
        let ghost high = s.skip(M as int);
        proof {
            lemma_limbs_split(s, M as nat);
            lemma_limbs_zero(high);
            lemma_limbs_ones(high);
            lemma_limbs_bound(low);
            lemma_limbs_bound(high);
            lemma_sign_limb(low, M);
            assert(low[M - 1] == sign_digit);
            lemma_limb_cap_add(M as nat, (N - M) as nat);
            assert(M as nat + (N - M) as nat == N as nat);
            lemma_half_cap(N);
            lemma_half_cap(M);
            lemma_limb_cap_mono((M - 1) as nat, (N - 1) as nat);
            lemma_limb_cap_pos((N - M) as nat);
            let cm = cap(M);
            let cn = cap(N);
            let ct = limb_cap((N - M) as nat);
            let l = limbs_nat(low);
            let h = limbs_nat(high);
            assert(half_cap(M) <= half_cap(N)) by (nonlinear_arith)
                requires
                    limb_cap((M - 1) as nat) <= limb_cap((N - 1) as nat),
                    half_cap(M) == limb_cap((M - 1) as nat) * 0x8000_0000_0000_0000,
                    half_cap(N) == limb_cap((N - 1) as nat) * 0x8000_0000_0000_0000,
            ;
            // the value fits exactly when the upper limbs extend the sign
            if fits_signed(self@, M) {
                if x < half_cap(N) {
                    assert(h == 0) by (nonlinear_arith)
                        requires
                            x == l + cm * h,
                            x < half_cap(M),
                            half_cap(M) * 2 == cm,
                    ;
                    assert(l < half_cap(M));
                } else {
                    assert(h + 1 == ct && l >= half_cap(M)) by (nonlinear_arith)
                        requires
                            x == l + cm * h,
                            x - cn >= -(half_cap(M) as int),
                            l < cm,
                            h < ct,
                            cn == cm * ct,
                            half_cap(M) * 2 == cm,
                    ;
                }
            }
            if expected == 0 && h == 0 {
                assert(x == l) by (nonlinear_arith)
                    requires
                        x == l + cm * h,
                        h == 0,
                ;
            }
            if expected != 0 && h + 1 == ct {
                assert(x == l + cn - cm) by (nonlinear_arith)
                    requires
                        x == l + cm * h,
                        h + 1 == ct,
                        cn == cm * ct,
                ;
            }
        }
        let ghost extends = forall|t: int| 0 <= t < high.len() ==> high[t] == expected;
        assert(fits_signed(self@, M) ==> extends);
        let mut i = M;
        while i < N
            invariant
                M <= i <= N,
                s == digits@,
                s.len() == N,
                high == s.skip(M as int),
                extends == (forall|t: int| 0 <= t < high.len() ==> high[t] == expected),
                fits_signed(self@, M) ==> extends,
                forall|t: int| M <= t < i ==> s[t] == expected,
            decreases N - i,
        {
            if digits[i] != expected {
                proof {
                    assert(high[i - M] == s[i as int]);
                    assert(!extends);
                }
                return Err(ParseError::PosOverflow);
            }
            i = i + 1;
        }
        proof {
            assert forall|t: int| 0 <= t < high.len() implies high[t] == expected by {
                assert(high[t] == s[t + M]);
            }
        }
        // the lower limbs hold the value
        let mut out: [u64; M] = [0u64; M];
        let mut j: usize = 0;
        while j < M
            invariant
                M <= N,
                j <= M,
                s == digits@,
                s.len() == N,
                out@.len() == M,
                forall|t: int| 0 <= t < j ==> out@[t] == s[t],
            decreases M - j,
        {
            out[j] = digits[j];
            j = j + 1;
        }
        assert(out@ =~= low);
        Ok(Int { bits: UInt::<M>::from_digits(out) })
    }

    /// The value as an unsigned integer of `M` limbs: `Signed` when it is
    /// negative, `PosOverflow` when it does not fit.
    pub fn try_cast_unsigned<const M: usize>(&self) -> (r: Result<UInt<M>, ParseError>)
        requires
            valid_width(M),
        ensures
            self@ < 0 ==> r == Err::<UInt<M>, ParseError>(ParseError::Signed),
            0 <= self@ < cap(M) ==> (r matches Ok(v) && v@ == self@),
            self@ >= cap(M) ==> r == Err::<UInt<M>, ParseError>(ParseError::PosOverflow),
    {
        if self.is_negative() {
            return Err(ParseError::Signed);
        }
        self.bits.width_is_valid();
        let digits = self.bits.digits();
        let ghost s = digits@;
        let ghost x = limbs_nat(s);
        proof {
            self.bits.lemma_bound();
            lemma_half_cap(N);
            assert(self@ == x);
            if N <= M {
                lemma_limb_cap_mono(N as nat, M as nat);
            }
        }
        if M < N {
            let ghost high = s.skip(M as int);
            let ghost zero_above = forall|t: int| 0 <= t < high.len() ==> high[t] == 0;
            proof {
                lemma_limbs_split(s, M as nat);
                lemma_limbs_zero(high);
                lemma_limbs_bound(s.take(M as int));
                let l = limbs_nat(s.take(M as int));
                let h = limbs_nat(high);
                assert((x < cap(M)) == (h == 0)) by (nonlinear_arith)
                    requires
                        x == l + cap(M) * h,
                        l < cap(M),
                ;
            }
            let mut i = M;
            while i < N
                invariant
                    M <= i <= N,
                    s == digits@,
                    s.len() == N,
                    high == s.skip(M as int),
                    zero_above == (forall|t: int| 0 <= t < high.len() ==> high[t] == 0),
                    x == limbs_nat(s),
                    self@ == x,
                    (x < cap(M)) == zero_above,
                    forall|t: int| M <= t < i ==> s[t] == 0,
                decreases N - i,
            {
                if digits[i] != 0 {
                    proof {
                        assert(high[i - M] == s[i as int]);
                        assert(!zero_above);
                    }
                    return Err(ParseError::PosOverflow);
                }
                i = i + 1;
            }
            proof {
                assert forall|t: int| 0 <= t < high.len() implies high[t] == 0 by {
                    assert(high[t] == s[t + M]);
                }
            }
        }
        // copy the limbs that fit, zero above them
        let mut out: [u64; M] = [0u64; M];
        let mut j: usize = 0;
        let top = if M < N { M } else { N };
        while j < top
            invariant
                top <= M,
                top <= N,
                top == M || top == N,
                j <= top,
                s == digits@,
                s.len() == N,
                out@.len() == M,
                forall|t: int| 0 <= t < j ==> out@[t] == s[t],
                forall|t: int| j <= t < M ==> out@[t] == 0,
            decreases top - j,
        {
            out[j] = digits[j];
            j = j + 1;
        }
        proof {
            let o = out@;
            lemma_limbs_split(o, top as nat);
            lemma_limbs_zero(o.skip(top as int));
            assert(o.take(top as int) =~= s.take(top as int));
            lemma_limbs_split(s, top as nat);
            if top == N {
                assert(s.take(N as int) =~= s);
                assert(s.skip(N as int).len() == 0);
            } else {
                lemma_limbs_zero(s.skip(M as int));
            }
        }
        Ok(UInt::<M>::from_digits(out))
    }
}

} // verus!
