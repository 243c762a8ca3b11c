//! The two ways in which a request to the board can be refused.

use vstd::prelude::*;

verus! {

/// Why a position could not be built or a digit could not be stored.
#[derive(Debug, Clone, Copy, PartialEq, Eq, Structural)]
pub enum SudokuError {
    /// A row or column index lies outside `0..=8`.
    IndexOutOfRange,
    /// A digit lies outside `1..=9`.
    InvalidDigit,
}

impl SudokuError {
    /// The text that `message` returns for this error.
    pub open spec fn spec_message(self) -> Seq<char> {
        match self {
            SudokuError::IndexOutOfRange => "Index out of range"@,
            SudokuError::InvalidDigit => "Provided value is not in range 1..=9"@,
        }
    }

    /// A short description of the error, fit for showing to a user.
    pub fn message(&self) -> (text: &'static str)
        ensures
            text@ == self.spec_message(),
    {
        match self {
            SudokuError::IndexOutOfRange => "Index out of range",
            SudokuError::InvalidDigit => "Provided value is not in range 1..=9",
        }
    }
}

} // verus!
