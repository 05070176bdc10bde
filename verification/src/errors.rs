use vstd::prelude::*;

verus! {

/// Why a computation was refused or abandoned.
#[derive(Clone, Copy, Debug, PartialEq, Eq, Structural)]
pub enum IcmError {
    /// The stack vector was empty.
    EmptyInput,
    /// Some chip stack was zero.
    ZeroStack,
    /// Stack and payout vectors differ in length.
    LengthMismatch,
    /// The requested trial count was zero.
    ZeroTrials,
    /// The requested worker count was zero.
    ZeroWorkers,
    /// A ranking handed to the accumulator was not a permutation.
    InvalidRanking,
    /// Partial results being merged do not agree on the player count.
    MismatchedParts,
    /// An intermediate value exceeded the machine's integer range.
    Overflow,
}

} // verus!
