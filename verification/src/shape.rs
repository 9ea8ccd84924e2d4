//! The parameters of a constraint system and the bits of an error.
use vstd::prelude::*;

verus! {

/// What the soundness formulas read of an AIR.
#[derive(Clone, Copy, Debug, PartialEq, Eq)]
pub struct StarkAirParams {
    /// Number of constraints.
    pub num_constraints: usize,
    /// Largest degree of a constraint, in trace columns.
    pub max_constraint_degree: usize,
    /// Most out-of-domain openings of one column.
    pub max_combo: usize,
}

/// An error probability of at most `2^-bits`, in whole bits.
#[derive(Clone, Copy, Debug, PartialEq, Eq)]
pub struct ErrorBits {
    pub bits: u64,
}

impl ErrorBits {
    /// The number of bits.
    pub fn bits(&self) -> (r: u64)
        ensures
            r == self.bits,
    {
        self.bits
    }
}

} // verus!
