//! The exact side of the entropy measures: on which alphabets and probabilities they are
//! defined. The measures themselves are logarithms and are taken outside this library, from
//! the values that it hands out.

use crate::alphabet::Alphabet;
use crate::error::StatsError;
use crate::probabilities::Probabilities;
use vstd::prelude::*;

verus! {

impl Alphabet {
    /// The nominal size as the argument of the optimal entropy, which is its logarithm to
    /// base 2. The size has to be positive; `InvalidAlphabet` otherwise.
    pub fn entropy_power(&self) -> (power: Result<u32, StatsError>)
        ensures
            power == if self@.power >= 1 {
                Ok::<u32, StatsError>(self@.power as u32)
            } else {
                Err::<u32, StatsError>(StatsError::InvalidAlphabet)
            },
    {
        if self.power >= 1 {
            Ok(self.power as u32)
        } else {
            Err(StatsError::InvalidAlphabet)
        }
    }

    /// Decides whether the redundancy of this alphabet under `probabilities` is defined: it
    /// is the distance from 1 of the optimal entropy over the empirical entropy. The nominal
    /// size has to be positive (`InvalidAlphabet` otherwise), and some letter must have a
    /// probability other than 0 and 1 (`DivisionByZero` otherwise). Gives the nominal size.
    pub fn check_redundancy(&self, probabilities: &Probabilities) -> (checked: Result<
        u32,
        StatsError,
    >)
        ensures
            checked == if self@.power <= 0 {
                Err::<u32, StatsError>(StatsError::InvalidAlphabet)
            } else if probabilities@.is_degenerate() {
                Err::<u32, StatsError>(StatsError::DivisionByZero)
            } else {
                Ok::<u32, StatsError>(self@.power as u32)
            },
    {
        let power = self.entropy_power()?;
        if probabilities.is_degenerate() {
            Err(StatsError::DivisionByZero)
        } else {
            Ok(power)
        }
    }
}

} // verus!
