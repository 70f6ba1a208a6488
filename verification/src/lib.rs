//! Optimal strategy trees for the code-breaking game Mastermind.
//!
//! A *code* is a fixed-length sequence of digits over a finite base. The
//! library enumerates the universe of codes, compares a guess against a
//! secret to produce a feedback [`response::Response`], and searches, by
//! branch and bound, for a decision tree that identifies any secret from
//! the universe in the fewest guesses in the worst case.

pub mod code;
pub mod options;
pub mod response;
pub mod tree;
