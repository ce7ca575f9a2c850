//! Unsigned decimal numbers of `N` 64-bit limbs of coefficient.
use vstd::prelude::*;

use core::cmp::Ordering;

use crate::context::{Context, Signals};
use crate::decimal::{aligned, less_value, same_value, Decimal, DecimalError, FpCategory, Model};
use crate::ascii::{
    all_digits, ascii_string, ascii_text, dec_repr, digits_val, is_digit, int_repr, lemma_ascii_concat, lemma_dec_repr_digits, lemma_digits_ascii,
    lemma_int_repr_ascii, lemma_pow10_pos, pow10, text_chars, zeros,
};
use crate::format::{
    engineering_digits, engineering_shift, scientific_digits, write_engineering_notation, write_scientific_notation,
};
use crate::num::{compare_finite, diff_finite, fit_wide, prod_finite, rem_finite, sum_finite, Fitted, is_subnormal_value, spec_finish, split_round, tail_state, wide, FitSpec, Kind};
use crate::powers::checked_power_of_ten;
use crate::quot::{quot_finite, quotient_fit};
use crate::root::{root_finite, root_fit};
use crate::fused::fused_finite;
use crate::parse::{digit_state, parse_bytes, parsed, push_digit, ParseError};
use vstd::string::StringSliceAdditionalSpecFns;
use crate::round::round_div;
use crate::uint::cap;
use crate::powers::decimal_digits;
use crate::round::{RoundingMode, Sign};
use crate::uint::{num_digits, valid_width, UInt};

verus! {

/// Generic unsigned decimal number: a coefficient of `N` 64-bit limbs, a
/// scale, and the signals and context of the operations that made it.
#[derive(Copy, Clone)]
pub struct UnsignedDecimal<const N: usize>(Decimal<N>);

impl<const N: usize> View for UnsignedDecimal<N> {
    type V = Model;

    closed spec fn view(&self) -> Model {
        self.0@
    }
}

/// The number that a fitted result stands for, with the signals `carried`
/// from the operands and the context `ctx`.
pub open spec fn fitted_model(f: FitSpec, carried: Signals, ctx: Context) -> Model {
    Model {
        kind: f.kind,
        sign: Sign::Plus,
        coeff: f.coeff,
        scale: f.scale,
        signals: carried.spec_combine(f.signals),
        ctx,
    }
}

/// Whether a result raises a signal that its context traps (the operation
/// that makes it panics).
pub open spec fn traps(m: Model) -> bool {
    m.signals.spec_intersects(m.ctx.signal_traps)
}

/// Not a number, with the `invalid` signal added to `carried`.
pub open spec fn invalid_model(carried: Signals, ctx: Context) -> Model {
    Model {
        kind: Kind::NaN,
        sign: Sign::Plus,
        coeff: 0,
        scale: 0,
        signals: carried.spec_combine(Signals { invalid: true, ..Signals::spec_empty() }),
        ctx,
    }
}

/// How two numbers compare, as `-1`, `0` or `1`: by value for finite
/// numbers, infinity above every finite number, not-a-number above
/// everything else and equal to itself.
pub open spec fn order_code(a: Model, b: Model) -> int {
    if a.kind == Kind::NaN {
        if b.kind == Kind::NaN {
            0
        } else {
            1
        }
    } else if b.kind == Kind::NaN {
        -1
    } else if a.kind == Kind::Infinite {
        if b.kind == Kind::Infinite {
            0
        } else {
            1
        }
    } else if b.kind == Kind::Infinite {
        -1
    } else if less_value(a.coeff, a.scale, b.coeff, b.scale) {
        -1
    } else if same_value(a.coeff, a.scale, b.coeff, b.scale) {
        0
    } else {
        1
    }
}

/// Whether two numbers are equal: not a number equals nothing, infinity
/// equals infinity, finite numbers are equal when their values are.
pub open spec fn equal_numbers(a: Model, b: Model) -> bool {
    if a.kind == Kind::NaN || b.kind == Kind::NaN {
        false
    } else if a.kind == Kind::Infinite || b.kind == Kind::Infinite {
        a.kind == b.kind
    } else {
        same_value(a.coeff, a.scale, b.coeff, b.scale)
    }
}

/// A finite number brought to the scale `t` (not a number, invalid, for
/// infinity or not a number): multiplied by a power of ten
/// when `t` is larger (not a number, invalid, if that does not fit), rounded
/// by its context's mode when `t` is smaller.
pub open spec fn rescaled(m: Model, t: int, n: usize) -> Model {
    if m.kind != Kind::Finite {
        invalid_model(m.signals, m.ctx)
    } else if t >= m.scale {
        let c = m.coeff * pow10((t - m.scale) as nat);
        if c < cap(n) {
            Model { coeff: c, scale: t, ..m }
        } else {
            invalid_model(m.signals, m.ctx)
        }
    } else {
        let k = (m.scale - t) as nat;
        Model {
            coeff: round_div(m.coeff, k, m.ctx.rounding_mode, Sign::Plus),
            scale: t,
            signals: m.signals.spec_combine(
                Signals { rounded: true, inexact: m.coeff % pow10(k) != 0, ..Signals::spec_empty() },
            ),
            ..m
        }
    }
}

/// `m` brought to the scale of `o` (see `rescaled`); infinity stays infinity
/// against infinity, and not a number (invalid) results when either is not a
/// number or only one is infinite.
pub open spec fn quantized(m: Model, o: Model, n: usize) -> Model {
    if m.kind == Kind::NaN || o.kind == Kind::NaN {
        invalid_model(m.signals, m.ctx)
    } else if m.kind == Kind::Infinite && o.kind == Kind::Infinite {
        m
    } else if o.kind == Kind::Infinite {
        invalid_model(m.signals, m.ctx)
    } else {
        rescaled(m, o.scale, n)
    }
}

/// The number with at most `t` fractional digits, rounded by the context's
/// mode (unchanged when it has no more).
pub open spec fn rounded_to(m: Model, t: int, n: usize) -> Model {
    if m.kind == Kind::Finite && t < m.scale {
        rescaled(m, t, n)
    } else {
        m
    }
}

/// `rounded_to` with another rounding mode, the context kept.
pub open spec fn rounded_with(m: Model, t: int, rm: RoundingMode, n: usize) -> Model {
    Model { ctx: m.ctx, ..rounded_to(Model { ctx: Context { rounding_mode: rm, ..m.ctx }, ..m }, t, n) }
}

/// Infinity carrying `carried`.
pub open spec fn infinite_model(carried: Signals, ctx: Context) -> Model {
    Model { kind: Kind::Infinite, sign: Sign::Plus, coeff: 0, scale: 0, signals: carried, ctx }
}

/// The larger of two scales.
pub open spec fn common_scale(a: Model, b: Model) -> int {
    if a.scale >= b.scale {
        a.scale
    } else {
        b.scale
    }
}

/// `a + b`: not a number (invalid) when either is not a number, infinity
/// when either is infinite, and otherwise the exact sum at the larger scale,
/// fitted by the rounding mode of `a`; the result carries the signals of both
/// and the context of `a`.
pub open spec fn sum_model(a: Model, b: Model, n: usize) -> Model {
    let carried = a.signals.spec_combine(b.signals);
    if a.kind == Kind::NaN || b.kind == Kind::NaN {
        invalid_model(carried, a.ctx)
    } else if a.kind == Kind::Infinite || b.kind == Kind::Infinite {
        infinite_model(carried, a.ctx)
    } else {
        let t = common_scale(a, b);
        fitted_model(
            spec_finish(aligned(a.coeff, a.scale, t) + aligned(b.coeff, b.scale, t), t, a.ctx.rounding_mode, Sign::Plus, n),
            carried,
            a.ctx,
        )
    }
}

/// `a - b`: not a number (invalid) when either is not a number, when both are
/// infinite, and whenever the difference would be negative; infinity minus a
/// finite number is infinity; otherwise the exact difference at the larger
/// scale, fitted as in `sum_model`.
pub open spec fn diff_model(a: Model, b: Model, n: usize) -> Model {
    let carried = a.signals.spec_combine(b.signals);
    if a.kind == Kind::NaN || b.kind == Kind::NaN || b.kind == Kind::Infinite {
        invalid_model(carried, a.ctx)
    } else if a.kind == Kind::Infinite {
        infinite_model(carried, a.ctx)
    } else if less_value(a.coeff, a.scale, b.coeff, b.scale) {
        invalid_model(carried, a.ctx)
    } else {
        let t = common_scale(a, b);
        fitted_model(
            spec_finish(
                (aligned(a.coeff, a.scale, t) - aligned(b.coeff, b.scale, t)) as nat,
                t,
                a.ctx.rounding_mode,
                Sign::Plus,
                n,
            ),
            carried,
            a.ctx,
        )
    }
}

/// `a * b`: not a number (invalid) when either is not a number or when an
/// infinity meets a zero; infinity when either is infinite; otherwise the
/// exact product, of scale the sum of the scales, fitted as in `sum_model`.
pub open spec fn product_model(a: Model, b: Model, n: usize) -> Model {
    let carried = a.signals.spec_combine(b.signals);
    if a.kind == Kind::NaN || b.kind == Kind::NaN {
        invalid_model(carried, a.ctx)
    } else if a.kind == Kind::Infinite || b.kind == Kind::Infinite {
        if (a.kind == Kind::Finite && a.coeff == 0) || (b.kind == Kind::Finite && b.coeff == 0) {
            invalid_model(carried, a.ctx)
        } else {
            infinite_model(carried, a.ctx)
        }
    } else {
        fitted_model(spec_finish(a.coeff * b.coeff, a.scale + b.scale, a.ctx.rounding_mode, Sign::Plus, n), carried, a.ctx)
    }
}

/// `a % b`, the remainder of a division truncated towards zero: not a number
/// (invalid) when either is not a number, when `a` is infinite or `b` is
/// zero; `a` itself when `b` is infinite; otherwise the exact remainder of the
/// two brought to the larger scale. It carries the signals of both and the
/// context of `a`.
pub open spec fn remainder_model(a: Model, b: Model) -> Model {
    let carried = a.signals.spec_combine(b.signals);
    if a.kind == Kind::NaN || b.kind == Kind::NaN || a.kind == Kind::Infinite || (b.kind == Kind::Finite
        && b.coeff == 0) {
        invalid_model(carried, a.ctx)
    } else if b.kind == Kind::Infinite {
        Model { signals: carried, ..a }
    } else {
        let t = common_scale(a, b);
        Model {
            kind: Kind::Finite,
            sign: Sign::Plus,
            coeff: aligned(a.coeff, a.scale, t) % aligned(b.coeff, b.scale, t),
            scale: t,
            signals: carried,
            ctx: a.ctx,
        }
    }
}

/// The text of a number in scientific notation: `NaN`, `Inf`, or the digits
/// of its coefficient in scientific notation (see `scientific_digits`).
pub open spec fn scientific_text(m: Model) -> Seq<u8> {
    match m.kind {
        Kind::NaN => seq![78u8, 97, 78],
        Kind::Infinite => seq![73u8, 110, 102],
        Kind::Finite => scientific_digits(dec_repr(m.coeff), m.scale),
    }
}

/// The text of a number in engineering notation: `NaN`, `Inf`, or the
/// digits of its coefficient in engineering notation (see
/// `engineering_digits`).
pub open spec fn engineering_text(m: Model) -> Seq<u8> {
    match m.kind {
        Kind::NaN => seq![78u8, 97, 78],
        Kind::Infinite => seq![73u8, 110, 102],
        Kind::Finite => engineering_digits(dec_repr(m.coeff), m.scale),
    }
}

/// The number with a coefficient of `m` limbs: a finite number fitted to it
/// (see `spec_finish`), the others unchanged (with a zero coefficient and
/// scale).
pub open spec fn resized(a: Model, m: usize) -> Model {
    if a.kind == Kind::Finite {
        fitted_model(spec_finish(a.coeff, a.scale, a.ctx.rounding_mode, Sign::Plus, m), a.signals, a.ctx)
    } else {
        Model { coeff: 0, scale: 0, ..a }
    }
}

/// `a / b`: not a number (invalid) when either is not a number, when both
/// are infinite, and for zero divided by zero; infinity when `a` is infinite
/// or a non-zero number is divided by zero (with the division-by-zero
/// signal); zero (of scale zero) for a finite number divided by infinity;
/// otherwise the quotient of ideal scale `a.scale - b.scale` (see
/// `quotient_fit`). It carries the signals of both and the context of `a`.
pub open spec fn quotient_model(a: Model, b: Model, n: usize) -> Model {
    let carried = a.signals.spec_combine(b.signals);
    if a.kind == Kind::NaN || b.kind == Kind::NaN || (a.kind == Kind::Infinite && b.kind == Kind::Infinite) {
        invalid_model(carried, a.ctx)
    } else if a.kind == Kind::Infinite {
        infinite_model(carried, a.ctx)
    } else if b.kind == Kind::Infinite {
        Model { kind: Kind::Finite, sign: Sign::Plus, coeff: 0, scale: 0, signals: carried, ctx: a.ctx }
    } else if b.coeff == 0 {
        if a.coeff == 0 {
            invalid_model(carried, a.ctx)
        } else {
            infinite_model(carried.spec_combine(Signals { div_by_zero: true, ..Signals::spec_empty() }), a.ctx)
        }
    } else {
        fitted_model(quotient_fit(a.coeff, b.coeff, a.scale - b.scale, a.ctx.rounding_mode, n), carried, a.ctx)
    }
}

/// `a` raised to the power `k`, by the binary method, each product
/// rounded as `product_model` does: one for `k == 0`, the square of the
/// power `k / 2` for an even `k`, and the power `k - 1` times `a` for an odd
/// one.
pub open spec fn power_model(a: Model, k: nat, n: usize) -> Model
    decreases k,
{
    if k == 0 {
        one_like(a)
    } else if k % 2 == 0 {
        let h = power_model(a, k / 2, n);
        product_model(h, h, n)
    } else {
        product_model(power_model(a, (k - 1) as nat, n), a, n)
    }
}

/// `a` raised to the integer power `e`: not a number (invalid) when `a` is
/// not a number or when zero is raised to the power zero; one for any other
/// number to the power zero; the power of `power_model` for a positive `e`,
/// and one divided by the power `-e` for a negative one.
pub open spec fn integer_power_model(a: Model, e: int, n: usize) -> Model {
    if a.kind == Kind::NaN {
        invalid_model(a.signals, a.ctx)
    } else if e == 0 {
        if a.kind == Kind::Finite && a.coeff == 0 {
            invalid_model(a.signals, a.ctx)
        } else {
            one_like(a)
        }
    } else if e > 0 {
        power_model(a, e as nat, n)
    } else {
        let p = power_model(a, (-e) as nat, n);
        quotient_model(one_like(p), p, n)
    }
}

/// Whether `big` holds every signal that `small` holds.
pub open spec fn covers(big: Signals, small: Signals) -> bool {
    &&& small.clamped ==> big.clamped
    &&& small.div_by_zero ==> big.div_by_zero
    &&& small.inexact ==> big.inexact
    &&& small.invalid ==> big.invalid
    &&& small.overflow ==> big.overflow
    &&& small.rounded ==> big.rounded
    &&& small.subnormal ==> big.subnormal
    &&& small.underflow ==> big.underflow
}

/// A product carries the signals of both factors and the context of the
/// first; so does a quotient.
proof fn lemma_product_covers(x: Model, y: Model, n: usize)
    ensures
        covers(product_model(x, y, n).signals, x.signals),
        covers(product_model(x, y, n).signals, y.signals),
        product_model(x, y, n).ctx == x.ctx,
        covers(quotient_model(x, y, n).signals, x.signals),
        covers(quotient_model(x, y, n).signals, y.signals),
        quotient_model(x, y, n).ctx == x.ctx,
{
}

/// A power carries the signals and the context of its base, and of every
/// power that the binary method builds it from.
proof fn lemma_power_covers(a: Model, k: nat, n: usize)
    ensures
        covers(power_model(a, k, n).signals, a.signals),
        power_model(a, k, n).ctx == a.ctx,
        k > 0 && k % 2 == 0 ==> covers(power_model(a, k, n).signals, power_model(a, k / 2, n).signals),
        k > 0 && k % 2 == 1 ==> covers(power_model(a, k, n).signals, power_model(a, (k - 1) as nat, n).signals),
    decreases k,
{
    if k > 0 {
        if k % 2 == 0 {
            lemma_power_covers(a, k / 2, n);
            let h = power_model(a, k / 2, n);
            lemma_product_covers(h, h, n);
        } else {
            lemma_power_covers(a, (k - 1) as nat, n);
            lemma_product_covers(power_model(a, (k - 1) as nat, n), a, n);
        }
    }
}

/// A result that traps nothing came from results that trap nothing.
proof fn lemma_no_trap_below(big: Model, small: Model)
    requires
        covers(big.signals, small.signals),
        big.ctx == small.ctx,
        !traps(big),
    ensures
        !traps(small),
{
}

/// The square root of `a`: not a number (invalid) when `a` is not a number,
/// infinity when it is infinite, and otherwise the root of the finite value
/// as `root_fit` gives it, by the rounding mode of `a`, carrying its signals
/// and context.
pub open spec fn root_model(a: Model, n: usize) -> Model {
    if a.kind == Kind::NaN {
        invalid_model(a.signals, a.ctx)
    } else if a.kind == Kind::Infinite {
        infinite_model(a.signals, a.ctx)
    } else {
        fitted_model(root_fit(a.coeff, a.scale, a.ctx.rounding_mode, n), a.signals, a.ctx)
    }
}

/// One, with the signals and context of `m`.
pub open spec fn one_like(m: Model) -> Model {
    Model { kind: Kind::Finite, sign: Sign::Plus, coeff: 1, scale: 0, signals: m.signals, ctx: m.ctx }
}

/// `a * x + y`, rounded once: not a number (invalid) when any is not a
/// number or when an infinity meets a zero in the product; infinity when the
/// product or `y` is infinite; otherwise the exact result at the larger of
/// the product's scale and `y`'s, fitted by the rounding mode of `a`. It
/// carries the signals of all three and the context of `a`.
pub open spec fn fused_model(a: Model, x: Model, y: Model, n: usize) -> Model {
    let carried = a.signals.spec_combine(x.signals).spec_combine(y.signals);
    if a.kind == Kind::NaN || x.kind == Kind::NaN || y.kind == Kind::NaN {
        invalid_model(carried, a.ctx)
    } else if a.kind == Kind::Infinite || x.kind == Kind::Infinite {
        if (a.kind == Kind::Finite && a.coeff == 0) || (x.kind == Kind::Finite && x.coeff == 0) {
            invalid_model(carried, a.ctx)
        } else {
            infinite_model(carried, a.ctx)
        }
    } else if y.kind == Kind::Infinite {
        infinite_model(carried, a.ctx)
    } else {
        let sp = a.scale + x.scale;
        let t = if sp >= y.scale {
            sp
        } else {
            y.scale
        };
        fitted_model(
            spec_finish(aligned(a.coeff * x.coeff, sp, t) + aligned(y.coeff, y.scale, t), t, a.ctx.rounding_mode, Sign::Plus, n),
            carried,
            a.ctx,
        )
    }
}

impl<const N: usize> UnsignedDecimal<N> {
    #[verifier::type_invariant]
    spec fn non_negative(self) -> bool {
        self.0.sign == Sign::Plus
    }

    /// Every unsigned decimal is non-negative and has a valid width.
    pub fn lemma_valid(&self)
        ensures
            self@.sign == Sign::Plus,
            valid_width(N),
    {
        proof {
            use_type_invariant(self);
        }
        self.0.digits.width_is_valid();
    }

    /// The unsigned decimal of the non-negative decimal `dec`.
    pub(crate) fn new(dec: Decimal<N>) -> (r: Self)
        requires
            dec@.sign == Sign::Plus,
        ensures
            r@ == dec@,
    {
        UnsignedDecimal(dec)
    }

    fn from_model_parts(kind: Kind, digits: UInt<N>, scale: i16, signals: Signals, ctx: Context) -> (r: Self)
        ensures
            r@ == (Model { kind, sign: Sign::Plus, coeff: digits@, scale: scale as int, signals, ctx }),
    {
        UnsignedDecimal(Decimal { digits, scale, sign: Sign::Plus, kind, signals, ctx })
    }

    /// Creates an unsigned decimal `digits * 10^exp`, rounded to fit when
    /// `exp` lies outside the scale range.
    pub fn from_parts(digits: UInt<N>, exp: i32, ctx: Context) -> (r: Self)
        requires
            !traps(fitted_model(spec_finish(digits@, -exp, ctx.rounding_mode, Sign::Plus, N), Signals::spec_empty(), ctx)),
        ensures
            r@ == fitted_model(spec_finish(digits@, -exp, ctx.rounding_mode, Sign::Plus, N), Signals::spec_empty(), ctx),
    {
        digits.width_is_valid();
        proof {
            digits.lemma_bound();
            crate::uint::lemma_limb_cap_pos(N as nat);
            assert(wide(digits@, 0, N) == digits@) by (nonlinear_arith)
                requires
                    wide(digits@, 0, N) == digits@ + crate::uint::cap(N) * 0,
            ;
            assert(crate::ascii::pow10(0) == 1);
            assert(digits@ * crate::ascii::pow10(0) == digits@) by (nonlinear_arith)
                requires
                    crate::ascii::pow10(0) == 1,
            ;
        }
        let f = fit_wide(digits, UInt::<N>::zero(), 0, 0, false, -(exp as i128), ctx.rounding_mode, Sign::Plus, Ghost(digits@));
        let e = Signals::empty();
        Self::from_model_parts(f.kind, f.coeff, f.scale, e.combine(f.signals), ctx)
    }

    /// `1 * 10^exp`: one unit in the place of the exponent `exp`.
    pub fn quantum(exp: i32, ctx: Context) -> (r: Self)
        requires
            valid_width(N),
            !traps(fitted_model(spec_finish(1, -exp, ctx.rounding_mode, Sign::Plus, N), Signals::spec_empty(), ctx)),
        ensures
            r@ == fitted_model(spec_finish(1, -exp, ctx.rounding_mode, Sign::Plus, N), Signals::spec_empty(), ctx),
    {
        Self::from_parts(UInt::<N>::from_u64(1), exp, ctx)
    }

    /// The coefficient, with its significant trailing zeros.
    pub fn digits(&self) -> (r: UInt<N>)
        ensures
            r@ == self@.coeff,
    {
        self.0.digits
    }

    /// The number of decimal digits of the coefficient.
    pub fn digits_count(&self) -> (r: usize)
        ensures
            r == num_digits(self@.coeff),
    {
        decimal_digits(&self.0.digits) as usize
    }

    /// The scale: the number of digits after the decimal point, negative for
    /// trailing zeros before it.
    pub fn fractional_digits_count(&self) -> (r: i16)
        ensures
            r == self@.scale,
    {
        self.0.scale
    }

    /// Whether the number is a (finite) zero.
    pub fn is_zero(&self) -> (r: bool)
        ensures
            r == (self@.kind == Kind::Finite && self@.coeff == 0),
    {
        match self.0.kind {
            Kind::Finite => self.0.digits.is_zero(),
            _ => false,
        }
    }

    /// Whether the number is exactly one: coefficient one and scale zero.
    pub fn is_one(&self) -> (r: bool)
        ensures
            r == (self@.kind == Kind::Finite && self@.coeff == 1 && self@.scale == 0),
    {
        self.lemma_valid();
        match self.0.kind {
            Kind::Finite => self.0.scale == 0 && self.0.digits.eq(&UInt::<N>::from_u64(1)),
            _ => false,
        }
    }

    /// Whether the number results from a division by zero.
    pub fn is_op_div_by_zero(&self) -> (r: bool)
        ensures
            r == self@.signals.div_by_zero,
    {
        self.0.signals.div_by_zero
    }

    /// Whether the number carries the invalid-operation signal.
    pub fn is_op_invalid(&self) -> (r: bool)
        ensures
            r == self@.signals.invalid,
    {
        self.0.signals.invalid
    }

    /// Whether the number carries the subnormal signal.
    pub fn is_op_subnormal(&self) -> (r: bool)
        ensures
            r == self@.signals.subnormal,
    {
        self.0.signals.subnormal
    }

    /// Whether the number carries the inexact signal.
    pub fn is_op_inexact(&self) -> (r: bool)
        ensures
            r == self@.signals.inexact,
    {
        self.0.signals.inexact
    }

    /// Whether the number carries the rounded signal.
    pub fn is_op_rounded(&self) -> (r: bool)
        ensures
            r == self@.signals.rounded,
    {
        self.0.signals.rounded
    }

    /// Whether the number carries the clamped signal.
    pub fn is_op_clamped(&self) -> (r: bool)
        ensures
            r == self@.signals.clamped,
    {
        self.0.signals.clamped
    }

    /// Whether the number carries the overflow signal.
    pub fn is_op_overflow(&self) -> (r: bool)
        ensures
            r == self@.signals.overflow,
    {
        self.0.signals.overflow
    }

    /// Whether the number carries the underflow signal.
    pub fn is_op_underflow(&self) -> (r: bool)
        ensures
            r == self@.signals.underflow,
    {
        self.0.signals.underflow
    }

    /// Whether the number carries no signal.
    pub fn is_op_ok(&self) -> (r: bool)
        ensures
            r == self@.signals.spec_is_empty(),
    {
        self.0.signals.is_empty()
    }

    /// The signals the number carries.
    pub fn op_signals(&self) -> (r: Signals)
        ensures
            r == self@.signals,
    {
        self.signals()
    }

    pub(crate) fn signals(&self) -> (r: Signals)
        ensures
            r == self@.signals,
    {
        self.0.signals
    }

    /// The category of the number (a zero that a subnormal result was
    /// rounded away to is subnormal).
    pub fn classify(&self) -> (r: FpCategory)
        ensures
            r == match self@.kind {
                Kind::NaN => FpCategory::Nan,
                Kind::Infinite => FpCategory::Infinite,
                Kind::Finite => if self@.coeff == 0 && !self@.signals.subnormal {
                    FpCategory::Zero
                } else if self@.coeff == 0 || is_subnormal_value(self@.coeff, self@.scale, N) {
                    FpCategory::Subnormal
                } else {
                    FpCategory::Normal
                },
            },
    {
        match self.0.kind {
            Kind::NaN => FpCategory::Nan,
            Kind::Infinite => FpCategory::Infinite,
            Kind::Finite => {
                if self.0.digits.is_zero() && !self.0.signals.subnormal {
                    FpCategory::Zero
                } else if self.0.digits.is_zero() || self.subnormal_value() {
                    FpCategory::Subnormal
                } else {
                    FpCategory::Normal
                }
            },
        }
    }

    fn subnormal_value(&self) -> (r: bool)
        ensures
            r == is_subnormal_value(self@.coeff, self@.scale, N),
    {
        self.lemma_valid();
        let nd = decimal_digits(&self.0.digits);
        let p = crate::powers::max_power_of_ten_exec::<N>();
        !self.0.digits.is_zero() && (nd as i64 - self.0.scale as i64) < (p as i64 - 32767)
    }

    /// Whether the number is finite, non-zero and not subnormal.
    pub fn is_normal(self) -> (r: bool)
        ensures
            r == (self@.kind == Kind::Finite && self@.coeff != 0 && !is_subnormal_value(
                self@.coeff,
                self@.scale,
                N,
            )),
    {
        match self.0.kind {
            Kind::Finite => !self.0.digits.is_zero() && !self.subnormal_value(),
            _ => false,
        }
    }

    /// Whether the number is subnormal: finite and non-zero below the
    /// smallest normal magnitude, or a zero that a subnormal result rounded
    /// away to (it carries the subnormal signal).
    pub fn is_subnormal(self) -> (r: bool)
        ensures
            r == (self@.kind == Kind::Finite && (is_subnormal_value(self@.coeff, self@.scale, N) || (self@.coeff == 0
                && self@.signals.subnormal))),
    {
        match self.0.kind {
            Kind::Finite => self.subnormal_value() || (self.0.digits.is_zero() && self.0.signals.subnormal),
            _ => false,
        }
    }

    /// Whether the number is neither infinite nor not-a-number.
    pub fn is_finite(self) -> (r: bool)
        ensures
            r == (self@.kind == Kind::Finite),
    {
        match self.0.kind {
            Kind::Finite => true,
            _ => false,
        }
    }

    /// Whether the number is infinite.
    pub fn is_infinite(self) -> (r: bool)
        ensures
            r == (self@.kind == Kind::Infinite),
    {
        match self.0.kind {
            Kind::Infinite => true,
            _ => false,
        }
    }

    /// Whether the number is not a number.
    pub fn is_nan(self) -> (r: bool)
        ensures
            r == (self@.kind == Kind::NaN),
    {
        match self.0.kind {
            Kind::NaN => true,
            _ => false,
        }
    }

    /// The same number with the context `ctx`.
    pub fn with_ctx(self, ctx: Context) -> (r: Self)
        ensures
            r@ == (Model { ctx, ..self@ }),
    {
        self.lemma_valid();
        let mut d = self.0;
        d.ctx = ctx;
        UnsignedDecimal(d)
    }

    /// The same number with the rounding mode `rm`.
    pub fn with_rounding_mode(self, rm: RoundingMode) -> (r: Self)
        ensures
            r@ == (Model { ctx: Context { rounding_mode: rm, ..self@.ctx }, ..self@ }),
    {
        self.lemma_valid();
        let mut d = self.0;
        d.ctx = d.ctx.with_rounding_mode(rm);
        UnsignedDecimal(d)
    }

    /// The number with a negative sign, as a signed decimal.
    pub fn neg(self) -> (r: Decimal<N>)
        ensures
            r@ == (Model { sign: Sign::Minus, ..self@ }),
    {
        self.lemma_valid();
        self.0.neg()
    }

    /// The number as a signed decimal.
    pub fn to_signed(self) -> (r: Decimal<N>)
        ensures
            r@ == self@,
    {
        self.0
    }

    /// The unsigned decimal of a signed one, an error when it is negative.
    pub fn try_from_signed(d: Decimal<N>) -> (r: Result<Self, DecimalError>)
        ensures
            d@.sign == Sign::Minus ==> r == Err::<Self, DecimalError>(DecimalError::Invalid),
            d@.sign == Sign::Plus ==> (r matches Ok(u) && u@ == d@),
    {
        if d.is_negative() {
            return Err(DecimalError::Invalid);
        }
        Ok(Self::new(d))
    }

    /// The unsigned decimal of a signed one; not a number (with the invalid
    /// signal) when it is negative.
    pub(crate) fn from_signed(d: Decimal<N>) -> (r: Self)
        ensures
            d@.sign == Sign::Plus ==> r@ == d@,
            d@.sign == Sign::Minus ==> r@ == invalid_model(d@.signals, d@.ctx),
    {
        match Self::try_from_signed(d) {
            Ok(ud) => ud,
            Err(_) => {
                let mut s = d.signals;
                s.invalid = true;
                Self::from_model_parts(Kind::NaN, UInt::<N>::zero_like(&d.digits), 0, s, d.ctx)
            },
        }
    }

    /// Whether no signal the number carries is trapped by its context.
    pub fn is_ok(&self) -> (r: bool)
        ensures
            r == !traps(self@),
    {
        !self.0.signals.intersects(&self.0.ctx.signal_traps)
    }

    /// The number when no signal it carries is trapped by its context, and
    /// `None` otherwise.
    pub fn ok(self) -> (r: Option<Self>)
        ensures
            !traps(self@) ==> r == Some(self),
            traps(self@) ==> r is None,
    {
        if self.is_ok() {
            Some(self)
        } else {
            None
        }
    }

    /// Equality of values (not-a-number equals nothing).
    pub fn eq(&self, other: &Self) -> (r: bool)
        ensures
            r == equal_numbers(self@, other@),
    {
        match (self.0.kind, other.0.kind) {
            (Kind::NaN, _) => false,
            (_, Kind::NaN) => false,
            (Kind::Infinite, Kind::Infinite) => true,
            (Kind::Infinite, _) => false,
            (_, Kind::Infinite) => false,
            _ => compare_finite(&self.0.digits, self.0.scale, &other.0.digits, other.0.scale) == 0,
        }
    }

    /// Inequality of values: the negation of `eq`.
    pub fn ne(&self, other: &Self) -> (r: bool)
        ensures
            r == !equal_numbers(self@, other@),
    {
        !self.eq(other)
    }

    /// How `self` compares with `other`.
    pub fn cmp(&self, other: &Self) -> (r: Ordering)
        ensures
            (r == Ordering::Less) == (order_code(self@, other@) == -1),
            (r == Ordering::Equal) == (order_code(self@, other@) == 0),
            (r == Ordering::Greater) == (order_code(self@, other@) == 1),
    {
        match (self.0.kind, other.0.kind) {
            (Kind::NaN, Kind::NaN) => Ordering::Equal,
            (Kind::NaN, _) => Ordering::Greater,
            (_, Kind::NaN) => Ordering::Less,
            (Kind::Infinite, Kind::Infinite) => Ordering::Equal,
            (Kind::Infinite, _) => Ordering::Greater,
            (_, Kind::Infinite) => Ordering::Less,
            _ => {
                let c = compare_finite(&self.0.digits, self.0.scale, &other.0.digits, other.0.scale);
                if c < 0 {
                    Ordering::Less
                } else if c == 0 {
                    Ordering::Equal
                } else {
                    Ordering::Greater
                }
            },
        }
    }

    /// The larger of the two; `other` when they compare equal.
    pub fn max(self, other: Self) -> (r: Self)
        ensures
            r == if order_code(self@, other@) == 1 { self } else { other },
    {
        match self.cmp(&other) {
            Ordering::Less | Ordering::Equal => other,
            _ => self,
        }
    }

    /// The smaller of the two; `self` when they compare equal.
    pub fn min(self, other: Self) -> (r: Self)
        ensures
            r == if order_code(self@, other@) == 1 { other } else { self },
    {
        match self.cmp(&other) {
            Ordering::Less | Ordering::Equal => self,
            _ => other,
        }
    }

    /// `min` when the number is below `min`, `max` when it is above `max`,
    /// and the number itself otherwise.
    pub fn clamp(self, min: Self, max: Self) -> (r: Self)
        requires
            order_code(min@, max@) != 1,
        ensures
            r == if order_code(self@, min@) == -1 {
                min
            } else if order_code(self@, max@) == 1 {
                max
            } else {
                self
            },
    {
        if let Ordering::Less = self.cmp(&min) {
            min
        } else if let Ordering::Greater = self.cmp(&max) {
            max
        } else {
            self
        }
    }

    /// The number brought to the scale `new_scale`: zeros appended when it
    /// is larger, digits rounded off by the context's mode when smaller.
    pub fn rescale(self, new_scale: i16) -> (r: Self)
        requires
            !traps(rescaled(self@, new_scale as int, N)),
        ensures
            r@ == rescaled(self@, new_scale as int, N),
    {
        self.lemma_valid();
        let d = self.0;
        match d.kind {
            Kind::NaN | Kind::Infinite => Self::invalid(d.signals, d.ctx, &d.digits),
            Kind::Finite => {
                if new_scale >= d.scale {
                    let k = (new_scale as i32 - d.scale as i32) as u32;
                    let scaled = match checked_power_of_ten::<N>(k) {
                        Some(p) => d.digits.checked_mul(&p),
                        None => None,
                    };
                    proof {
                        d.digits.lemma_bound();
                        lemma_pow10_pos(k as nat);
                        if !(pow10(k as nat) < cap(N)) && d.digits@ != 0 {
                            assert(d.digits@ * pow10(k as nat) >= pow10(k as nat)) by (nonlinear_arith)
                                requires
                                    d.digits@ >= 1,
                            ;
                        }
                        if d.digits@ == 0 {
                            assert(d.digits@ * pow10(k as nat) == 0) by (nonlinear_arith)
                                requires
                                    d.digits@ == 0,
                            ;
                        }
                    }
                    match scaled {
                        Some(c) => Self::from_model_parts(Kind::Finite, c, new_scale, d.signals, d.ctx),
                        None => {
                            if d.digits.is_zero() {
                                // zero times anything fits
                                Self::from_model_parts(Kind::Finite, d.digits, new_scale, d.signals, d.ctx)
                            } else {
                                Self::invalid(d.signals, d.ctx, &d.digits)
                            }
                        },
                    }
                } else {
                    let k = (d.scale as i32 - new_scale as i32) as u32;
                    let (q, inexact) = split_round(&d.digits, k, d.ctx.rounding_mode, Sign::Plus);
                    let mut sig = d.signals;
                    sig.rounded = true;
                    sig.inexact = sig.inexact || inexact;
                    Self::from_model_parts(Kind::Finite, q, new_scale, sig, d.ctx)
                }
            },
        }
    }

    fn invalid(carried: Signals, ctx: Context, width: &UInt<N>) -> (r: Self)
        ensures
            r@ == invalid_model(carried, ctx),
    {
        let mut s = carried;
        s.invalid = true;
        Self::from_model_parts(Kind::NaN, UInt::<N>::zero_like(width), 0, s, ctx)
    }

    /// The number brought to the scale of `other` (see `quantized`).
    pub fn quantize(self, other: Self) -> (r: Self)
        requires
            !traps(
                quantized(self@, other@, N),
            ),
        ensures
            r@ == quantized(self@, other@, N),
    {
        match (self.0.kind, other.0.kind) {
            (Kind::NaN, _) | (_, Kind::NaN) => Self::invalid(self.0.signals, self.0.ctx, &self.0.digits),
            (Kind::Infinite, Kind::Infinite) => self,
            (_, Kind::Infinite) => Self::invalid(self.0.signals, self.0.ctx, &self.0.digits),
            _ => self.rescale(other.0.scale),
        }
    }

    /// The number with at most `digits` fractional digits, rounded by the
    /// context's mode.
    pub fn round(self, digits: i16) -> (r: Self)
        requires
            !traps(rounded_to(self@, digits as int, N)),
        ensures
            r@ == rounded_to(self@, digits as int, N),
    {
        match self.0.kind {
            Kind::Finite => {
                if digits < self.0.scale {
                    self.rescale(digits)
                } else {
                    self
                }
            },
            _ => self,
        }
    }

    /// The number with at most `scale` fractional digits, the others
    /// dropped (rounded towards zero).
    pub fn trunc_with_scale(self, scale: i16) -> (r: Self)
        requires
            !traps(rounded_with(self@, scale as int, RoundingMode::Down, N)),
        ensures
            r@ == rounded_with(self@, scale as int, RoundingMode::Down, N),
    {
        self.round_with(scale, RoundingMode::Down)
    }

    fn round_with(self, digits: i16, rm: RoundingMode) -> (r: Self)
        requires
            !traps(rounded_with(self@, digits as int, rm, N)),
        ensures
            r@ == rounded_with(self@, digits as int, rm, N),
    {
        let ctx = self.0.ctx;
        let r = self.with_rounding_mode(rm).round(digits);
        r.with_ctx(ctx)
    }

    /// The integer part (rounded towards zero).
    pub fn trunc(self) -> (r: Self)
        requires
            !traps(rounded_with(self@, 0, RoundingMode::Down, N)),
        ensures
            r@ == rounded_with(self@, 0, RoundingMode::Down, N),
    {
        self.round_with(0, RoundingMode::Down)
    }

    /// The largest integer not above the number.
    pub fn floor(self) -> (r: Self)
        requires
            !traps(rounded_with(self@, 0, RoundingMode::Floor, N)),
        ensures
            r@ == rounded_with(self@, 0, RoundingMode::Floor, N),
    {
        self.round_with(0, RoundingMode::Floor)
    }

    /// The smallest integer not below the number.
    pub fn ceil(self) -> (r: Self)
        requires
            !traps(rounded_with(self@, 0, RoundingMode::Ceiling, N)),
        ensures
            r@ == rounded_with(self@, 0, RoundingMode::Ceiling, N),
    {
        self.round_with(0, RoundingMode::Ceiling)
    }

    /// The shortest coefficient of the same value: trailing zeros of the
    /// coefficient moved into the exponent (as far as the scale allows); a
    /// zero becomes zero of scale zero.
    pub fn reduce(self) -> (r: Self)
        ensures
            self@.kind != Kind::Finite ==> r@ == self@,
            self@.kind == Kind::Finite && self@.coeff == 0 ==> r@ == (Model { scale: 0, ..self@ }),
            self@.kind == Kind::Finite && self@.coeff != 0 ==> {
                &&& r@.kind == Kind::Finite
                &&& r@.scale <= self@.scale
                &&& r@.coeff * pow10((self@.scale - r@.scale) as nat) == self@.coeff
                &&& (r@.coeff % 10 != 0 || r@.scale == -32768)
                &&& r@ == (Model { coeff: r@.coeff, scale: r@.scale, ..self@ })
            },
    {
        self.lemma_valid();
        let d = self.0;
        match d.kind {
            Kind::Finite => {},
            _ => return self,
        }
        if d.digits.is_zero() {
            return Self::from_model_parts(Kind::Finite, d.digits, 0, d.signals, d.ctx);
        }
        let ten = UInt::<N>::from_u64(10);
        let mut c = d.digits;
        let mut s = d.scale;
        proof {
            assert(pow10(0) == 1);
            assert(c@ * pow10(0) == c@) by (nonlinear_arith)
                requires
                    pow10(0) == 1,
            ;
        }
        loop
            invariant
                ten@ == 10,
                valid_width(N),
                c@ != 0,
                s <= d.scale,
                c@ * pow10((d.scale - s) as nat) == d.digits@,
            ensures
                c@ != 0,
                s <= d.scale,
                c@ * pow10((d.scale - s) as nat) == d.digits@,
                c@ % 10 != 0 || s == -32768,
            decreases c@,
        {
            if s == -32768 {
                break;
            }
            let r = c.checked_rem(&ten).unwrap();
            if !r.is_zero() {
                break;
            }
            let q = c.checked_div(&ten).unwrap();
            proof {
                vstd::arithmetic::div_mod::lemma_fundamental_div_mod(c@ as int, 10);
                let k = (d.scale - s) as nat;
                assert(pow10(k + 1) == 10 * pow10(k));
                assert(q@ * pow10(k + 1) == c@ * pow10(k)) by (nonlinear_arith)
                    requires
                        c@ == 10 * q@,
                        pow10(k + 1) == 10 * pow10(k),
                ;
                assert((d.scale - (s - 1)) as nat == k + 1);
            }
            c = q;
            s = s - 1;
        }
        Self::from_model_parts(Kind::Finite, c, s, d.signals, d.ctx)
    }

    /// Whether `self` compares below `other`.
    pub fn lt(&self, other: &Self) -> (r: bool)
        ensures
            r == (order_code(self@, other@) == -1),
    {
        match self.cmp(other) {
            Ordering::Less => true,
            _ => false,
        }
    }

    /// Whether `self` compares below or equal to `other`.
    pub fn le(&self, other: &Self) -> (r: bool)
        ensures
            r == (order_code(self@, other@) != 1),
    {
        match self.cmp(other) {
            Ordering::Less | Ordering::Equal => true,
            _ => false,
        }
    }

    /// Whether `self` compares above `other`.
    pub fn gt(&self, other: &Self) -> (r: bool)
        ensures
            r == (order_code(self@, other@) == 1),
    {
        match self.cmp(other) {
            Ordering::Greater => true,
            _ => false,
        }
    }

    /// Whether `self` compares above or equal to `other`.
    pub fn ge(&self, other: &Self) -> (r: bool)
        ensures
            r == (order_code(self@, other@) != -1),
    {
        match self.cmp(other) {
            Ordering::Greater | Ordering::Equal => true,
            _ => false,
        }
    }

    fn infinite(carried: Signals, ctx: Context, width: &UInt<N>) -> (r: Self)
        ensures
            r@ == infinite_model(carried, ctx),
    {
        Self::from_model_parts(Kind::Infinite, UInt::<N>::zero_like(width), 0, carried, ctx)
    }

    fn fitted(f: Fitted<N>, carried: Signals, ctx: Context) -> (r: Self)
        ensures
            r@ == fitted_model(f.spec(), carried, ctx),
    {
        Self::from_model_parts(f.kind, f.coeff, f.scale, carried.combine(f.signals), ctx)
    }

    /// `self + rhs` (see `sum_model`).
    pub fn add(self, rhs: Self) -> (r: Self)
        requires
            !traps(sum_model(self@, rhs@, N)),
        ensures
            r@ == sum_model(self@, rhs@, N),
    {
        let a = self.0;
        let b = rhs.0;
        let carried = a.signals.combine(b.signals);
        match (a.kind, b.kind) {
            (Kind::NaN, _) | (_, Kind::NaN) => Self::invalid(carried, a.ctx, &a.digits),
            (Kind::Infinite, _) | (_, Kind::Infinite) => Self::infinite(carried, a.ctx, &a.digits),
            _ => {
                let f = sum_finite(&a.digits, a.scale, &b.digits, b.scale, a.ctx.rounding_mode);
                proof {
                    let t = common_scale(self@, rhs@);
                    assert(t == if a.scale >= b.scale { a.scale as int } else { b.scale as int });
                    assert(f.spec() == spec_finish(
                        aligned(a.digits@, a.scale as int, t) + aligned(b.digits@, b.scale as int, t),
                        t,
                        a.ctx.rounding_mode,
                        Sign::Plus,
                        N,
                    ));
                }
                Self::fitted(f, carried, a.ctx)
            },
        }
    }

    /// `self - rhs` (see `diff_model`).
    pub fn sub(self, rhs: Self) -> (r: Self)
        requires
            !traps(diff_model(self@, rhs@, N)),
        ensures
            r@ == diff_model(self@, rhs@, N),
    {
        let a = self.0;
        let b = rhs.0;
        let carried = a.signals.combine(b.signals);
        match (a.kind, b.kind) {
            (Kind::NaN, _) | (_, Kind::NaN) | (_, Kind::Infinite) => Self::invalid(carried, a.ctx, &a.digits),
            (Kind::Infinite, _) => Self::infinite(carried, a.ctx, &a.digits),
            _ => {
                if compare_finite(&a.digits, a.scale, &b.digits, b.scale) < 0 {
                    Self::invalid(carried, a.ctx, &a.digits)
                } else {
                    let f = diff_finite(&a.digits, a.scale, &b.digits, b.scale, a.ctx.rounding_mode);
                    proof {
                        let t = common_scale(self@, rhs@);
                        assert(t == if a.scale >= b.scale { a.scale as int } else { b.scale as int });
                        assert(f.spec() == spec_finish(
                            (aligned(a.digits@, a.scale as int, t) - aligned(b.digits@, b.scale as int, t)) as nat,
                            t,
                            a.ctx.rounding_mode,
                            Sign::Plus,
                            N,
                        ));
                    }
                    Self::fitted(f, carried, a.ctx)
                }
            },
        }
    }

    /// `self * rhs` (see `product_model`).
    pub fn mul(self, rhs: Self) -> (r: Self)
        requires
            !traps(product_model(self@, rhs@, N)),
        ensures
            r@ == product_model(self@, rhs@, N),
    {
        let a = self.0;
        let b = rhs.0;
        let carried = a.signals.combine(b.signals);
        match (a.kind, b.kind) {
            (Kind::NaN, _) | (_, Kind::NaN) => Self::invalid(carried, a.ctx, &a.digits),
            (Kind::Infinite, Kind::Finite) => {
                if b.digits.is_zero() {
                    Self::invalid(carried, a.ctx, &a.digits)
                } else {
                    Self::infinite(carried, a.ctx, &a.digits)
                }
            },
            (Kind::Finite, Kind::Infinite) => {
                if a.digits.is_zero() {
                    Self::invalid(carried, a.ctx, &a.digits)
                } else {
                    Self::infinite(carried, a.ctx, &a.digits)
                }
            },
            (Kind::Infinite, Kind::Infinite) => Self::infinite(carried, a.ctx, &a.digits),
            _ => Self::fitted(prod_finite(&a.digits, a.scale, &b.digits, b.scale, a.ctx.rounding_mode), carried, a.ctx),
        }
    }


    /// `self / rhs` (see `quotient_model`).
    pub fn div(self, rhs: Self) -> (r: Self)
        requires
            !traps(quotient_model(self@, rhs@, N)),
        ensures
            r@ == quotient_model(self@, rhs@, N),
    {
        self.lemma_valid();
        let a = self.0;
        let b = rhs.0;
        let carried = a.signals.combine(b.signals);
        match (a.kind, b.kind) {
            (Kind::NaN, _) | (_, Kind::NaN) | (Kind::Infinite, Kind::Infinite) => Self::invalid(
                carried,
                a.ctx,
                &a.digits,
            ),
            (Kind::Infinite, _) => Self::infinite(carried, a.ctx, &a.digits),
            (_, Kind::Infinite) => Self::from_model_parts(
                Kind::Finite,
                UInt::<N>::zero_like(&a.digits),
                0,
                carried,
                a.ctx,
            ),
            _ => {
                if b.digits.is_zero() {
                    if a.digits.is_zero() {
                        Self::invalid(carried, a.ctx, &a.digits)
                    } else {
                        let mut s = carried;
                        s.div_by_zero = true;
                        Self::infinite(s, a.ctx, &a.digits)
                    }
                } else {
                    let f = quot_finite(&a.digits, a.scale, &b.digits, b.scale, a.ctx.rounding_mode);
                    Self::fitted(f, carried, a.ctx)
                }
            },
        }
    }

    /// `1 / self`, with the signals and context of `self` (see
    /// `quotient_model`).
    pub fn recip(self) -> (r: Self)
        requires
            !traps(quotient_model(one_like(self@), self@, N)),
        ensures
            r@ == quotient_model(one_like(self@), self@, N),
    {
        self.lemma_valid();
        let d = self.0;
        let one = Self::from_model_parts(Kind::Finite, UInt::<N>::from_u64(1), 0, d.signals, d.ctx);
        one.div(self)
    }

    /// `self` raised to the power `k` (see `power_model`).
    fn power(self, k: u32) -> (r: Self)
        requires
            !traps(power_model(self@, k as nat, N)),
        ensures
            r@ == power_model(self@, k as nat, N),
        decreases k,
    {
        self.lemma_valid();
        let d = self.0;
        proof {
            lemma_power_covers(self@, k as nat, N);
        }
        if k == 0 {
            Self::from_model_parts(Kind::Finite, UInt::<N>::from_u64(1), 0, d.signals, d.ctx)
        } else if k % 2 == 0 {
            proof {
                lemma_power_covers(self@, (k / 2) as nat, N);
                lemma_no_trap_below(power_model(self@, k as nat, N), power_model(self@, (k / 2) as nat, N));
            }
            let h = self.power(k / 2);
            h.mul(h)
        } else {
            proof {
                lemma_power_covers(self@, (k - 1) as nat, N);
                lemma_no_trap_below(power_model(self@, k as nat, N), power_model(self@, (k - 1) as nat, N));
            }
            let h = self.power(k - 1);
            h.mul(self)
        }
    }

    /// `self` raised to the integer power `n` (see `integer_power_model`).
    pub fn powi(self, n: i32) -> (r: Self)
        requires
            !traps(integer_power_model(self@, n as int, N)),
        ensures
            r@ == integer_power_model(self@, n as int, N),
    {
        self.lemma_valid();
        let d = self.0;
        match d.kind {
            Kind::NaN => Self::invalid(d.signals, d.ctx, &d.digits),
            _ => {
                if n == 0 {
                    if d.kind == Kind::Finite && d.digits.is_zero() {
                        Self::invalid(d.signals, d.ctx, &d.digits)
                    } else {
                        Self::from_model_parts(Kind::Finite, UInt::<N>::from_u64(1), 0, d.signals, d.ctx)
                    }
                } else if n > 0 {
                    self.power(n as u32)
                } else {
                    let k: u32 = (-(n as i64)) as u32;
                    let ghost p = power_model(self@, k as nat, N);
                    proof {
                        lemma_product_covers(one_like(p), p, N);
                        lemma_no_trap_below(quotient_model(one_like(p), p, N), p);
                    }
                    let q = self.power(k);
                    q.recip()
                }
            },
        }
    }

    /// The square root of `self` (see `root_model`).
    pub fn sqrt(self) -> (r: Self)
        requires
            !traps(root_model(self@, N)),
        ensures
            r@ == root_model(self@, N),
    {
        self.lemma_valid();
        let a = self.0;
        match a.kind {
            Kind::NaN => Self::invalid(a.signals, a.ctx, &a.digits),
            Kind::Infinite => Self::infinite(a.signals, a.ctx, &a.digits),
            Kind::Finite => {
                let f = root_finite(&a.digits, a.scale, a.ctx.rounding_mode);
                Self::fitted(f, a.signals, a.ctx)
            },
        }
    }

    /// `self * a + b`, rounded once (see `fused_model`).
    #[verifier::spinoff_prover]
    #[verifier::rlimit(30)]
    pub fn mul_add(self, a: Self, b: Self) -> (r: Self)
        requires
            !traps(fused_model(self@, a@, b@, N)),
        ensures
            r@ == fused_model(self@, a@, b@, N),
    {
        let s = self.0;
        let x = a.0;
        let y = b.0;
        let carried = s.signals.combine(x.signals).combine(y.signals);
        match (s.kind, x.kind, y.kind) {
            (Kind::NaN, _, _) | (_, Kind::NaN, _) | (_, _, Kind::NaN) => Self::invalid(carried, s.ctx, &s.digits),
            (Kind::Infinite, Kind::Finite, _) => {
                if x.digits.is_zero() {
                    Self::invalid(carried, s.ctx, &s.digits)
                } else {
                    Self::infinite(carried, s.ctx, &s.digits)
                }
            },
            (Kind::Finite, Kind::Infinite, _) => {
                if s.digits.is_zero() {
                    Self::invalid(carried, s.ctx, &s.digits)
                } else {
                    Self::infinite(carried, s.ctx, &s.digits)
                }
            },
            (Kind::Infinite, Kind::Infinite, _) | (_, _, Kind::Infinite) => Self::infinite(carried, s.ctx, &s.digits),
            _ => {
                let f = fused_finite(&s.digits, s.scale, &x.digits, x.scale, &y.digits, y.scale, s.ctx.rounding_mode);
                Self::fitted(f, carried, s.ctx)
            },
        }
    }

    /// `self % rhs` (see `remainder_model`).
    pub fn rem(self, rhs: Self) -> (r: Self)
        requires
            !traps(remainder_model(self@, rhs@)),
        ensures
            r@ == remainder_model(self@, rhs@),
    {
        self.lemma_valid();
        let a = self.0;
        let b = rhs.0;
        let carried = a.signals.combine(b.signals);
        match (a.kind, b.kind) {
            (Kind::NaN, _) | (_, Kind::NaN) | (Kind::Infinite, _) => Self::invalid(carried, a.ctx, &a.digits),
            (Kind::Finite, Kind::Infinite) => Self::from_model_parts(Kind::Finite, a.digits, a.scale, carried, a.ctx),
            _ => {
                if b.digits.is_zero() {
                    Self::invalid(carried, a.ctx, &a.digits)
                } else {
                    let c = rem_finite(&a.digits, a.scale, &b.digits, b.scale);
                    let t = if a.scale >= b.scale { a.scale } else { b.scale };
                    Self::from_model_parts(Kind::Finite, c, t, carried, a.ctx)
                }
            },
        }
    }


    /// Reads an unsigned decimal from text (see `parsed` for the grammar and
    /// the errors), fitted by the rounding mode of `ctx`, which the result
    /// carries.
    pub fn from_str(s: &str, ctx: Context) -> (r: Result<Self, ParseError>)
        requires
            valid_width(N),
        ensures
            match parsed(s.spec_bytes(), N, ctx.rounding_mode) {
                Ok(f) => r matches Ok(u) && u@ == fitted_model(f, Signals::spec_empty(), ctx),
                Err(e) => r == Err::<Self, ParseError>(e),
            },
    {
        match parse_bytes::<N>(s.as_bytes(), ctx.rounding_mode) {
            Ok(f) => Ok(Self::fitted(f, Signals::empty(), ctx)),
            Err(e) => Err(e),
        }
    }

    /// Reads an unsigned decimal from text that must read as one (see
    /// `from_str`).
    pub fn parse_str(s: &str, ctx: Context) -> (r: Self)
        requires
            valid_width(N),
            parsed(s.spec_bytes(), N, ctx.rounding_mode) is Ok,
        ensures
            parsed(s.spec_bytes(), N, ctx.rounding_mode) matches Ok(f) && r@ == fitted_model(
                f,
                Signals::spec_empty(),
                ctx,
            ),
    {
        match Self::from_str(s, ctx) {
            Ok(n) => n,
            Err(_) => {
                assert(false);
                Self::from_model_parts(Kind::NaN, UInt::<N>::zero(), 0, Signals::empty(), ctx)
            },
        }
    }


    /// The number with a coefficient of `M` limbs (see `resized`).
    pub fn resize<const M: usize>(self) -> (r: UnsignedDecimal<M>)
        requires
            valid_width(M),
            !traps(resized(self@, M)),
        ensures
            r@ == resized(self@, M),
    {
        self.lemma_valid();
        let d = self.0;
        match d.kind {
            Kind::Finite => {},
            _ => {
                return UnsignedDecimal::<M>::from_model_parts(d.kind, UInt::<M>::zero(), 0, d.signals, d.ctx);
            },
        }
        let text = d.digits.to_decimal_ascii();
        let ghost s = text@;
        let mut lo = UInt::<M>::zero();
        let mut hi = UInt::<M>::zero();
        let mut k: u64 = 0;
        let mut rd: u8 = 0;
        let mut sticky = false;
        let mut i: usize = 0;
        proof {
            d.digits.lemma_bound();
            lemma_coeff_repr(d.digits@, N);
            lemma_dec_repr_digits(d.digits@);
            crate::uint::lemma_limb_cap_pos(M as nat);
            assert(wide(0, 0, M) == 0) by (nonlinear_arith)
                requires
                    wide(0, 0, M) == 0 + cap(M) * 0,
            ;
            crate::num::lemma_tail_zero(0, 0);
            assert(s.take(0) =~= Seq::<u8>::empty());
        }
        while i < text.len()
            invariant
                i <= s.len(),
                text@ == s,
                s.len() < 0x4000_0000,
                all_digits(s),
                valid_width(M),
                k <= i,
                digit_state(digits_val(s.take(i as int)), wide(lo@, hi@, M), k as nat, rd as nat, sticky, M),
            decreases s.len() - i,
        {
            let c = text[i];
            proof {
                assert(is_digit(s[i as int]));
                assert(s.take(i + 1).drop_last() =~= s.take(i as int));
                assert(s.take(i + 1).last() == c);
            }
            let (l2, h2, k2, rd2, st2) = push_digit(lo, hi, k, rd, sticky, c - 48, Ghost(digits_val(s.take(i as int))));
            lo = l2;
            hi = h2;
            k = k2;
            rd = rd2;
            sticky = st2;
            i = i + 1;
        }
        let ghost c = d.digits@;
        proof {
            assert(s.take(s.len() as int) =~= s);
            assert(digits_val(s) == c);
            assert forall|j: nat| j < k implies !#[trigger] crate::num::fits_at(c, j, M, d.ctx.rounding_mode, Sign::Plus) by {
                let w = wide(lo@, hi@, M);
                crate::ascii::lemma_pow10_mono(j, k as nat);
                assert(c >= cap(M) * pow10(j)) by (nonlinear_arith)
                    requires
                        c >= w * pow10(k as nat),
                        w >= cap(M),
                        pow10(j) <= pow10(k as nat),
                ;
                crate::num::lemma_quotient_no_fit(c, j, M, d.ctx.rounding_mode, Sign::Plus);
            }
        }
        let f = fit_wide(lo, hi, k, rd, sticky, d.scale as i128, d.ctx.rounding_mode, Sign::Plus, Ghost(c));
        UnsignedDecimal::<M>::fitted(f, d.signals, d.ctx)
    }

    /// The number with a coefficient of `M` limbs: `resize`.
    pub fn transmute<const M: usize>(self) -> (r: UnsignedDecimal<M>)
        requires
            valid_width(M),
            !traps(resized(self@, M)),
        ensures
            r@ == resized(self@, M),
    {
        self.resize()
    }

    /// The number in scientific notation (see `scientific_text`).
    pub fn to_scientific_notation(&self) -> (r: String)
        ensures
            r@ == text_chars(scientific_text(self@)),
    {
        self.lemma_valid();
        let mut out: Vec<u8> = Vec::new();
        match self.0.kind {
            Kind::NaN => {
                out.push(78u8);
                out.push(97u8);
                out.push(78u8);
                proof {
                    assert(out@ =~= seq![78u8, 97, 78]);
                    lemma_word_ascii(78, 97, 78);
                }
            },
            Kind::Infinite => {
                out.push(73u8);
                out.push(110u8);
                out.push(102u8);
                proof {
                    assert(out@ =~= seq![73u8, 110, 102]);
                    lemma_word_ascii(73, 110, 102);
                }
            },
            Kind::Finite => {
                let d = self.0.digits.to_decimal_ascii();
                proof {
                    self.0.digits.lemma_bound();
                    lemma_coeff_repr(self.0.digits@, N);
                    lemma_scientific_ascii(d@, self.0.scale as int);
                }
                write_scientific_notation(&d, self.0.scale, &mut out);
                assert(out@ =~= scientific_digits(d@, self.0.scale as int));
            },
        }
        ascii_string(out)
    }

    /// The number in engineering notation (see `engineering_text`).
    pub fn to_engineering_notation(&self) -> (r: String)
        ensures
            r@ == text_chars(engineering_text(self@)),
    {
        self.lemma_valid();
        let mut out: Vec<u8> = Vec::new();
        match self.0.kind {
            Kind::NaN => {
                out.push(78u8);
                out.push(97u8);
                out.push(78u8);
                proof {
                    assert(out@ =~= seq![78u8, 97, 78]);
                    lemma_word_ascii(78, 97, 78);
                }
            },
            Kind::Infinite => {
                out.push(73u8);
                out.push(110u8);
                out.push(102u8);
                proof {
                    assert(out@ =~= seq![73u8, 110, 102]);
                    lemma_word_ascii(73, 110, 102);
                }
            },
            Kind::Finite => {
                let d = self.0.digits.to_decimal_ascii();
                proof {
                    self.0.digits.lemma_bound();
                    lemma_coeff_repr(self.0.digits@, N);
                    lemma_engineering_ascii(d@, self.0.scale as int);
                }
                write_engineering_notation(&d, self.0.scale, &mut out);
                assert(out@ =~= engineering_digits(d@, self.0.scale as int));
            },
        }
        ascii_string(out)
    }
}

/// A scientific-notation text of ASCII digits is ASCII.
pub proof fn lemma_scientific_ascii(s: Seq<u8>, scale: int)
    requires
        ascii_text(s),
        s.len() >= 1,
    ensures
        ascii_text(scientific_digits(s, scale)),
{
    let tail = s.skip(1);
    assert(ascii_text(tail)) by {
        assert forall|i: int| 0 <= i < tail.len() implies #[trigger] tail[i] < 128 by {
            assert(tail[i] == s[i + 1]);
        }
    }
    let first = seq![s[0]];
    assert(ascii_text(first)) by {
        assert forall|i: int| 0 <= i < 1 implies #[trigger] first[i] < 128 by {
            assert(first[i] == s[0]);
        }
    }
    assert(ascii_text(seq![46u8]));
    assert(ascii_text(seq![101u8]));
    lemma_ascii_concat(seq![46u8], tail);
    assert(ascii_text(Seq::<u8>::empty()));
    let point = if s.len() > 1 {
        seq![46u8] + tail
    } else {
        Seq::empty()
    };
    lemma_ascii_concat(seq![s[0]], point);
    lemma_ascii_concat(seq![s[0]] + point, seq![101u8]);
    lemma_int_repr_ascii((s.len() - 1) - scale, false);
    lemma_ascii_concat(seq![s[0]] + point + seq![101u8], int_repr((s.len() - 1) - scale, false));
}

/// An engineering-notation text of ASCII digits is ASCII.
pub proof fn lemma_engineering_ascii(s: Seq<u8>, scale: int)
    requires
        ascii_text(s),
        s.len() >= 1,
    ensures
        ascii_text(engineering_digits(s, scale)),
{
    let shift = engineering_shift(s.len() as int, scale);
    let exp = s.len() - scale - shift;
    assert(ascii_text(seq![46u8]));
    assert(ascii_text(seq![101u8]));
    lemma_int_repr_ascii(exp, false);
    if shift >= s.len() {
        let z = zeros((shift - s.len()) as nat);
        assert(ascii_text(z));
        lemma_ascii_concat(s, z);
        lemma_ascii_concat(s + z, seq![101u8]);
        lemma_ascii_concat(s + z + seq![101u8], int_repr(exp, false));
    } else {
        let a = s.take(shift);
        let b = s.skip(shift);
        assert(ascii_text(a)) by {
            assert forall|i: int| 0 <= i < a.len() implies #[trigger] a[i] < 128 by {
                assert(a[i] == s[i]);
            }
        }
        assert(ascii_text(b)) by {
            assert forall|i: int| 0 <= i < b.len() implies #[trigger] b[i] < 128 by {
                assert(b[i] == s[i + shift]);
            }
        }
        lemma_ascii_concat(a, seq![46u8]);
        lemma_ascii_concat(a + seq![46u8], b);
        lemma_ascii_concat(a + seq![46u8] + b, seq![101u8]);
        lemma_ascii_concat(a + seq![46u8] + b + seq![101u8], int_repr(exp, false));
    }
}

/// The digits of a coefficient: at least one, ASCII, and fewer than the
/// writers' bound.
pub proof fn lemma_coeff_repr(c: nat, n: usize)
    requires
        valid_width(n),
        c < cap(n),
    ensures
        1 <= dec_repr(c).len() < 0x4000_0000,
        ascii_text(dec_repr(c)),
{
    lemma_dec_repr_digits(c);
    lemma_digits_ascii(dec_repr(c));
    crate::uint::lemma_cap_le_pow10(n as nat);
    let len = dec_repr(c).len();
    if len > 1 && (len - 1) as nat >= 20 * n as nat {
        crate::ascii::lemma_pow10_mono(20 * n as nat, (len - 1) as nat);
    }
}

/// Three ASCII letters.
proof fn lemma_word_ascii(a: u8, b: u8, c: u8)
    requires
        a < 128,
        b < 128,
        c < 128,
    ensures
        ascii_text(seq![a, b, c]),
{
    let w = seq![a, b, c];
    assert forall|i: int| 0 <= i < 3 implies #[trigger] w[i] < 128 by {
        if i == 0 {
        } else if i == 1 {
        } else {
        }
    }
}


} // verus!
