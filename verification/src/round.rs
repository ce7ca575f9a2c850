//! Rounding modes, signs, and the rounding rule that every operation shares.
use vstd::prelude::*;

use crate::ascii::pow10;

verus! {

/// Sign of a decimal number.
#[derive(Copy, Clone, Debug, PartialEq, Eq, Structural)]
pub enum Sign {
    /// Positive (or positive zero).
    Plus,
    /// Negative (or negative zero).
    Minus,
}

/// Rounding mode applied when digits have to be dropped.
#[derive(Copy, Clone, Debug, PartialEq, Eq, Structural)]
pub enum RoundingMode {
    /// Round away from zero.
    Up,
    /// Round towards zero (truncate).
    Down,
    /// Round towards positive infinity.
    Ceiling,
    /// Round towards negative infinity.
    Floor,
    /// Round to nearest, ties away from zero.
    HalfUp,
    /// Round to nearest, ties towards zero.
    HalfDown,
    /// Round to nearest, ties to the even neighbour.
    HalfEven,
}

impl RoundingMode {
    /// The default rounding mode, `HalfUp`.
    pub fn default_mode() -> (r: RoundingMode)
        ensures
            r == RoundingMode::HalfUp,
    {
        RoundingMode::HalfUp
    }
}

/// Whether a value whose last kept digit is `last`, whose first dropped digit
/// is `rd` and whose further dropped digits are non-zero exactly when `sticky`
/// is rounded up (away from zero by one unit in the last kept place).
pub open spec fn spec_round_up(rm: RoundingMode, sign: Sign, last: nat, rd: nat, sticky: bool) -> bool {
    let inexact = rd > 0 || sticky;
    match rm {
        RoundingMode::Up => inexact,
        RoundingMode::Down => false,
        RoundingMode::Ceiling => inexact && sign == Sign::Plus,
        RoundingMode::Floor => inexact && sign == Sign::Minus,
        RoundingMode::HalfUp => rd >= 5,
        RoundingMode::HalfDown => rd > 5 || (rd == 5 && sticky),
        RoundingMode::HalfEven => rd > 5 || (rd == 5 && (sticky || last % 2 == 1)),
    }
}

/// The magnitude `c`, with its `k` least significant decimal digits dropped
/// and the rest rounded by `rm` (for a number of sign `sign`).
pub open spec fn round_div(c: nat, k: nat, rm: RoundingMode, sign: Sign) -> nat {
    if k == 0 {
        c
    } else {
        let q = c / pow10(k);
        q + if spec_round_up(rm, sign, q % 10, (c / pow10((k - 1) as nat)) % 10, c % pow10((k - 1) as nat) != 0) {
            1nat
        } else {
            0nat
        }
    }
}

/// Rounds the digit pair `(significant, insignificant)`: returns the
/// significant digit, increased by one when the rounding rule asks for it.
/// `trailing_zeros` tells whether every digit after the insignificant one is
/// zero. The result is in `0..=10`.
pub fn round_pair_digits(pair: (u8, u8), sign: Sign, mode: RoundingMode, trailing_zeros: bool) -> (r: u8)
    requires
        pair.0 <= 9,
        pair.1 <= 9,
    ensures
        r == pair.0 + if spec_round_up(mode, sign, pair.0 as nat, pair.1 as nat, !trailing_zeros) { 1int } else { 0int },
{
    let (sig, insig) = pair;
    let inexact = insig > 0 || !trailing_zeros;
    let up = match mode {
        RoundingMode::Up => inexact,
        RoundingMode::Down => false,
        RoundingMode::Ceiling => inexact && matches!(sign, Sign::Plus),
        RoundingMode::Floor => inexact && matches!(sign, Sign::Minus),
        RoundingMode::HalfUp => insig >= 5,
        RoundingMode::HalfDown => insig > 5 || (insig == 5 && !trailing_zeros),
        RoundingMode::HalfEven => insig > 5 || (insig == 5 && (!trailing_zeros || sig % 2 == 1)),
    };
    if up {
        sig + 1
    } else {
        sig
    }
}

} // verus!
