//! Why a solving session ends without an answer.

use vstd::prelude::*;

verus! {

/// The error kinds that end a session.
#[derive(Clone, Copy, Debug, PartialEq, Eq, Structural)]
pub enum SolverError {
    /// The chosen word is not in the corpus.
    InvalidGuess,
    /// The constraints leave no word to rank.
    NoCandidates,
    /// The feedback could not be read.
    ObservationError,
    /// The guess could not be delivered.
    SubmissionError,
}

} // verus!
