//! A constraint-based word-guessing engine: candidate filtering under letter
//! feedback, letter-frequency scoring and the per-round guess decision.

pub mod word;
pub mod filter;
pub mod scorer;
pub mod corpus;
pub mod error;
pub mod solver;
pub mod feedback;
