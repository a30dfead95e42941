//! The ways in which a step of the simulation can fail.

use vstd::prelude::*;

verus! {

/// Why an operation of the simulation was refused. None of these is
/// transient: the same call on the same state fails again.
#[derive(Clone, Copy, Debug, PartialEq, Eq, Structural)]
pub enum GameError {
    /// A vector shorter than the tolerance was to be normalized.
    DegenerateVector,
    /// No cell of the board is free of the snake: there is nowhere to put
    /// food.
    BoardFull,
    /// The elapsed time is negative, or so long that the tail would have to
    /// retract past the head.
    InvalidTimespan,
    /// A point of the snake, a direction or the distance of a step would
    /// leave the range that the game admits, or the score the range of its
    /// type.
    OutOfRange,
}

} // verus!
