//! Signals raised by decimal operations, and the context (rounding mode and
//! trapped signals) that a decimal carries.
use vstd::prelude::*;

use crate::round::RoundingMode;

verus! {

/// The exceptional conditions that an operation signals.
#[derive(Copy, Clone, Debug, PartialEq, Eq, Structural)]
pub struct Signals {
    /// The exponent was changed to fit the representable range.
    pub clamped: bool,
    /// A finite non-zero number was divided by zero.
    pub div_by_zero: bool,
    /// Non-zero digits were discarded by rounding.
    pub inexact: bool,
    /// The operation has no meaningful result.
    pub invalid: bool,
    /// The result's exponent is too large to be represented.
    pub overflow: bool,
    /// Digits were discarded by rounding (zero or not).
    pub rounded: bool,
    /// The result is subnormal.
    pub subnormal: bool,
    /// The result is subnormal and inexact.
    pub underflow: bool,
}

impl Signals {
    /// No signal.
    pub open spec fn spec_empty() -> Signals {
        Signals {
            clamped: false,
            div_by_zero: false,
            inexact: false,
            invalid: false,
            overflow: false,
            rounded: false,
            subnormal: false,
            underflow: false,
        }
    }

    /// Every signal that `self` or `other` holds.
    pub open spec fn spec_combine(self, other: Signals) -> Signals {
        Signals {
            clamped: self.clamped || other.clamped,
            div_by_zero: self.div_by_zero || other.div_by_zero,
            inexact: self.inexact || other.inexact,
            invalid: self.invalid || other.invalid,
            overflow: self.overflow || other.overflow,
            rounded: self.rounded || other.rounded,
            subnormal: self.subnormal || other.subnormal,
            underflow: self.underflow || other.underflow,
        }
    }

    /// Whether `self` and `other` share a signal.
    pub open spec fn spec_intersects(self, other: Signals) -> bool {
        ||| self.clamped && other.clamped
        ||| self.div_by_zero && other.div_by_zero
        ||| self.inexact && other.inexact
        ||| self.invalid && other.invalid
        ||| self.overflow && other.overflow
        ||| self.rounded && other.rounded
        ||| self.subnormal && other.subnormal
        ||| self.underflow && other.underflow
    }

    /// Whether no signal is set.
    pub open spec fn spec_is_empty(self) -> bool {
        self == Signals::spec_empty()
    }

    /// No signal.
    pub fn empty() -> (r: Signals)
        ensures
            r == Signals::spec_empty(),
    {
        Signals {
            clamped: false,
            div_by_zero: false,
            inexact: false,
            invalid: false,
            overflow: false,
            rounded: false,
            subnormal: false,
            underflow: false,
        }
    }

    /// Every signal that `self` or `other` holds.
    pub fn combine(self, other: Signals) -> (r: Signals)
        ensures
            r == self.spec_combine(other),
    {
        Signals {
            clamped: self.clamped || other.clamped,
            div_by_zero: self.div_by_zero || other.div_by_zero,
            inexact: self.inexact || other.inexact,
            invalid: self.invalid || other.invalid,
            overflow: self.overflow || other.overflow,
            rounded: self.rounded || other.rounded,
            subnormal: self.subnormal || other.subnormal,
            underflow: self.underflow || other.underflow,
        }
    }

    /// Whether `self` and `other` share a signal.
    pub fn intersects(&self, other: &Signals) -> (r: bool)
        ensures
            r == self.spec_intersects(*other),
    {
        (self.clamped && other.clamped) || (self.div_by_zero && other.div_by_zero) || (self.inexact
            && other.inexact) || (self.invalid && other.invalid) || (self.overflow && other.overflow)
            || (self.rounded && other.rounded) || (self.subnormal && other.subnormal) || (self.underflow
            && other.underflow)
    }

    /// Whether no signal is set.
    pub fn is_empty(&self) -> (r: bool)
        ensures
            r == self.spec_is_empty(),
    {
        !(self.clamped || self.div_by_zero || self.inexact || self.invalid || self.overflow
            || self.rounded || self.subnormal || self.underflow)
    }
}

/// The signals trapped by default: invalid operation, division by zero and
/// overflow.
pub open spec fn default_traps() -> Signals {
    Signals { div_by_zero: true, invalid: true, overflow: true, ..Signals::spec_empty() }
}

/// The context of a decimal: how it rounds and which signals trap (make an
/// operation panic).
#[derive(Copy, Clone, Debug, PartialEq, Eq, Structural)]
pub struct Context {
    /// Rounding mode of the operations.
    pub rounding_mode: RoundingMode,
    /// Signals that make an operation panic.
    pub signal_traps: Signals,
}

impl Context {
    /// Rounds half-up and traps invalid operation, division by zero and
    /// overflow.
    pub open spec fn spec_default() -> Context {
        Context { rounding_mode: RoundingMode::HalfUp, signal_traps: default_traps() }
    }

    /// The same context with no trapped signal.
    pub fn without_traps(self) -> (r: Context)
        ensures
            r == (Context { signal_traps: Signals::spec_empty(), ..self }),
    {
        Context { rounding_mode: self.rounding_mode, signal_traps: Signals::empty() }
    }

    /// The same context with another rounding mode.
    pub fn with_rounding_mode(self, rm: RoundingMode) -> (r: Context)
        ensures
            r == (Context { rounding_mode: rm, ..self }),
    {
        Context { rounding_mode: rm, signal_traps: self.signal_traps }
    }

    /// The rounding mode.
    pub fn rounding_mode(&self) -> (r: RoundingMode)
        ensures
            r == self.rounding_mode,
    {
        self.rounding_mode
    }

    /// The trapped signals.
    pub fn signal_traps(&self) -> (r: Signals)
        ensures
            r == self.signal_traps,
    {
        self.signal_traps
    }
}

impl Default for Context {
    fn default() -> (r: Context)
        ensures
            r == Context::spec_default(),
    {
        Context {
            rounding_mode: RoundingMode::HalfUp,
            signal_traps: Signals {
                clamped: false,
                div_by_zero: true,
                inexact: false,
                invalid: true,
                overflow: true,
                rounded: false,
                subnormal: false,
                underflow: false,
            },
        }
    }
}

} // verus!
