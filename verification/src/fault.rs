//! The ways in which forcing or rendering a node can fail.
//!
//! Every failure is final for the evaluation it occurs in: nothing in this
//! crate retries, coerces or substitutes a value.

use crate::node::Node;
use vstd::prelude::*;

verus! {

/// Which operand of a binary operation is meant.
#[derive(Clone, Copy, PartialEq, Eq, Structural, Debug)]
pub enum Side {
    Left,
    Right,
}

/// A failure of the native integer operator.
#[derive(Clone, Copy, PartialEq, Eq, Structural, Debug)]
pub enum ArithmeticFault {
    /// The divisor was zero.
    DivisionByZero,
    /// The exact result does not fit in a signed 64-bit integer.
    Overflow,
}

/// A fatal condition met while forcing or rendering a node.
#[derive(Clone, Copy, PartialEq, Eq, Structural, Debug)]
pub enum Fault {
    /// An operand handed to an arithmetic operator is not an integer.
    /// `observed` is that operand.
    TypeMismatch { side: Side, observed: Node },
    /// The arithmetic operator itself failed.
    Arithmetic(ArithmeticFault),
    /// The graph is not what the reduction protocol takes it to be: a cell
    /// is pending where a result is due, a reference points at no cell, or
    /// a computation depends on, or hands back, a cell that is not older
    /// than its own.
    InvariantViolation,
    /// A node was asked for its user-facing form before it was forced.
    PrematureDisplay,
}

} // verus!
