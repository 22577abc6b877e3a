//! The ways in which a session can fail.

use vstd::prelude::*;

verus! {

/// Why a line of guess input was turned down.
#[derive(Clone, Copy, Debug, PartialEq, Eq, Structural)]
pub enum InputFault {
    /// The line holds nothing but white space.
    Blank,
    /// The line is neither `undo` nor a letter followed by indices.
    Malformed,
    /// The letter has been guessed before.
    LetterAlreadyGuessed,
    /// An index is zero or lies beyond the last cell.
    IndexOutOfRange,
    /// The cell with this (0-based) index already holds a letter.
    CellAlreadyPlaced(usize),
}

/// Why an argument was not taken as a count.
#[derive(Clone, Copy, Debug, PartialEq, Eq, Structural)]
pub enum CountFault {
    /// The argument is empty.
    Empty,
    /// The argument is not an optional `+` followed by decimal digits.
    InvalidDigit,
    /// The number does not fit a machine integer.
    TooLarge,
    /// The number is zero.
    Zero,
}

/// Every failure the library reports.
#[derive(Clone, Copy, Debug, PartialEq, Eq, Structural)]
pub enum Error {
    /// The word length is zero, or no dictionary word has that length.
    InvalidConfiguration,
    /// A line of guess input was turned down; the session goes on.
    InvalidGuessInput(InputFault),
    /// There is no applied guess to take back; the session goes on.
    NothingToUndo,
    /// No dictionary word fits the feedback given so far.
    NoCandidatesRemaining,
    /// A simulated game did not arrive at its target word.
    SimulationDivergence,
}

} // verus!
