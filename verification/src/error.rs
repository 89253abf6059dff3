//! The failures that the statistics can end in.

use vstd::prelude::*;

verus! {

/// Why a statistic or a derived alphabet cannot be had.
#[derive(Debug, Clone, Copy, PartialEq, Eq, Structural)]
pub enum StatsError {
    /// The nominal size of the alphabet is not positive, so its optimal entropy is undefined.
    InvalidAlphabet,
    /// The empirical entropy is zero, so the redundancy is undefined.
    DivisionByZero,
    /// A letter chosen for a truncated alphabet has no entry in the catalogue.
    LetterNotFound,
}

} // verus!
