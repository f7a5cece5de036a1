//! The one kind of failure that the library reports.

use vstd::prelude::*;
use vstd::string::StringExecFns;

verus! {

/// An input that a function does not accept.
#[derive(Clone, Copy, Debug, PartialEq, Eq, Structural)]
pub enum InvalidInput {
    /// Two vectors that are to be compared differ in length.
    LengthMismatch,
    /// A Fibonacci index above the largest that is served.
    IndexTooLarge,
    /// A score that is not a number stands among scores to be ordered.
    NotANumber,
}

impl InvalidInput {
    /// The message that goes with the error.
    pub fn message(&self) -> (text: String)
        ensures
            text@ == match *self {
                InvalidInput::LengthMismatch => "vectors must have same length"@,
                InvalidInput::IndexTooLarge => "n must be <= 50 to avoid overflow"@,
                InvalidInput::NotANumber => "scores must be numbers"@,
            },
    {
        match self {
            InvalidInput::LengthMismatch => String::from_str("vectors must have same length"),
            InvalidInput::IndexTooLarge => String::from_str("n must be <= 50 to avoid overflow"),
            InvalidInput::NotANumber => String::from_str("scores must be numbers"),
        }
    }
}

} // verus!
