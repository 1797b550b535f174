//! The ways in which an operation of this library can fail.
use vstd::prelude::*;

verus! {

/// Why a fraction, a pitch or a lattice position could not be produced. An
/// operation that fails has changed nothing.
#[derive(Clone, Copy, Debug, PartialEq, Eq, Structural)]
pub enum Error {
    /// A fraction was asked for with a denominator of zero.
    InvalidFraction,
    /// A fraction was to be divided by a fraction of value zero.
    DivisionByZero,
    /// A pitch was asked for of a fraction that is zero or negative, which no
    /// doubling or halving brings into an octave.
    NotPositive,
    /// The exact result has a numerator or denominator beyond the 32 bits
    /// that a stored fraction has for each.
    Overflow,
    /// The search for a lattice position ran out before it met the pitch: the
    /// pitch does not lie on the axis of its limit within reach.
    PositionNotFound,
}

} // verus!
