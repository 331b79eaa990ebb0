//! The ways in which an operation can decline.

use vstd::prelude::*;

verus! {

/// Why an operation returned no number.
#[derive(Clone, Copy, Debug, PartialEq, Eq, Structural)]
pub enum DynUintError {
    /// The operation is not offered on these operands: a difference below
    /// zero, a remainder by a divisor that is no power of two, an addition
    /// that is asked to report overflow.
    Unsupported,
    /// The divisor of a remainder is zero.
    DivisionByZero,
    /// A subtraction that the ordering let pass still borrowed past its
    /// last byte.
    BorrowPastEnd,
}

} // verus!
