//! Failure taxonomy of the detection core. Every error is local to one
//! direction of one detection cycle; none aborts a whole `detect` call.

use vstd::prelude::*;

verus! {

/// Why one direction of a detection cycle was abandoned.
#[derive(Clone, Copy, PartialEq, Eq, Structural, Debug)]
pub enum ArbError {
    /// A rounding division was asked for with a zero denominator.
    DivisionByZero,
    /// An intermediate value did not fit the width of its result type.
    ArithmeticOverflow,
    /// A book side was exhausted before the walk reached its target.
    InsufficientDepth,
    /// The snapshot cannot be priced: zero liquidity, a price out of
    /// range, or an empty book side.
    InvalidSnapshot,
}

} // verus!
