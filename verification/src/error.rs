//! What can go wrong in the puzzle.

use vstd::prelude::*;

verus! {

/// The errors of the puzzle. Each is a value that is returned; nothing is
/// tried again.
#[derive(Clone, Copy, Debug, PartialEq, Eq, Structural)]
pub enum PuzzleError {
    /// The degree asked for is beyond what parameters can be made for.
    SetupError,
    /// The degree to trim to is beyond that of the reference string.
    ConfigError,
    /// The solution's target is below the minimum asked for.
    InsufficientWorkError,
    /// The batch is empty, too long, or holds an address twice.
    MalformedBatchError,
    /// A solution of the batch is not valid, or the batch weighs too little.
    VerificationError,
}

impl PuzzleError {
    /// The error in words.
    pub open spec fn text(self) -> Seq<char> {
        match self {
            PuzzleError::SetupError => "the degree is beyond the supported bound"@,
            PuzzleError::ConfigError => "the degree is beyond that of the reference string"@,
            PuzzleError::InsufficientWorkError => "the target is below the minimum"@,
            PuzzleError::MalformedBatchError => "the batch is empty, too long or repeats an address"@,
            PuzzleError::VerificationError => "the batch is not valid"@,
        }
    }

    /// The error in words.
    pub fn message(&self) -> (text: &'static str)
        ensures
            text@ == self.text(),
    {
        let text = match self {
            PuzzleError::SetupError => "the degree is beyond the supported bound",
            PuzzleError::ConfigError => "the degree is beyond that of the reference string",
            PuzzleError::InsufficientWorkError => "the target is below the minimum",
            PuzzleError::MalformedBatchError => "the batch is empty, too long or repeats an address",
            PuzzleError::VerificationError => "the batch is not valid",
        };
        text
    }
}

} // verus!
