//! The signed decimal number that an unsigned decimal wraps, and the
//! mathematical model that the contracts speak of.
use vstd::prelude::*;

use crate::ascii::pow10;
use crate::context::{Context, Signals};
use crate::num::Kind;
use crate::round::Sign;
use crate::uint::UInt;

verus! {

/// The category of a decimal number, as `core::num::FpCategory` names them.
#[derive(Copy, Clone, Debug, PartialEq, Eq, Structural)]
pub enum FpCategory {
    /// Not a number.
    Nan,
    /// Infinity.
    Infinite,
    /// Zero.
    Zero,
    /// A subnormal number.
    Subnormal,
    /// A normal number.
    Normal,
}

/// Errors of conversions between decimal types.
#[derive(Copy, Clone, Debug, PartialEq, Eq, Structural)]
pub enum DecimalError {
    /// The value is not valid for the target type (a negative number for an
    /// unsigned type).
    Invalid,
}

/// What a decimal number is, as the contracts see it: its kind, sign,
/// coefficient and scale (a finite number is `coeff * 10^-scale`), the
/// signals it carries and its context.
pub struct Model {
    pub kind: Kind,
    pub sign: Sign,
    pub coeff: nat,
    pub scale: int,
    pub signals: Signals,
    pub ctx: Context,
}

/// Signed decimal number of `N` 64-bit limbs of coefficient.
#[derive(Copy, Clone)]
pub struct Decimal<const N: usize> {
    /// The coefficient.
    pub digits: UInt<N>,
    /// The number of digits after the decimal point (negative for trailing
    /// zeros before it).
    pub scale: i16,
    /// The sign.
    pub sign: Sign,
    /// Finite, infinite or not a number.
    pub kind: Kind,
    /// The signals raised by the operations that made this number.
    pub signals: Signals,
    /// The context of the operations on this number.
    pub ctx: Context,
}

impl<const N: usize> View for Decimal<N> {
    type V = Model;

    open spec fn view(&self) -> Model {
        Model {
            kind: self.kind,
            sign: self.sign,
            coeff: self.digits@,
            scale: self.scale as int,
            signals: self.signals,
            ctx: self.ctx,
        }
    }
}

impl<const N: usize> Decimal<N> {
    /// Whether the sign is negative (negative zero included).
    pub fn is_negative(&self) -> (r: bool)
        ensures
            r == (self@.sign == Sign::Minus),
    {
        match self.sign {
            Sign::Plus => false,
            Sign::Minus => true,
        }
    }

    /// The number with the opposite sign.
    pub fn neg(self) -> (r: Decimal<N>)
        ensures
            r@ == (Model { sign: flip(self@.sign), ..self@ }),
    {
        let sign = match self.sign {
            Sign::Plus => Sign::Minus,
            Sign::Minus => Sign::Plus,
        };
        Decimal { sign, ..self }
    }
}

/// The opposite sign.
pub open spec fn flip(s: Sign) -> Sign {
    match s {
        Sign::Plus => Sign::Minus,
        Sign::Minus => Sign::Plus,
    }
}

/// The coefficient `c` of scale `s` brought to the larger scale `t`.
pub open spec fn aligned(c: nat, s: int, t: int) -> nat {
    c * pow10((t - s) as nat)
}

/// Whether the finite numbers `(c1, s1)` and `(c2, s2)` are equal in value.
pub open spec fn same_value(c1: nat, s1: int, c2: nat, s2: int) -> bool {
    let t = if s1 >= s2 { s1 } else { s2 };
    aligned(c1, s1, t) == aligned(c2, s2, t)
}

/// Whether the finite number `(c1, s1)` is smaller in value than `(c2, s2)`.
pub open spec fn less_value(c1: nat, s1: int, c2: nat, s2: int) -> bool {
    let t = if s1 >= s2 { s1 } else { s2 };
    aligned(c1, s1, t) < aligned(c2, s2, t)
}

} // verus!
