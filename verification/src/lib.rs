//! Expected prize money under the Independent Chip Model (ICM).
//!
//! Given each player's chip stack and a prize ladder, the crate computes each
//! player's expected payout in two independent ways: an exact engine that
//! follows the Malmuth-Harville recursion over finishing orders, and the
//! integer core of a Monte Carlo engine ("SICM") whose randomized trials are
//! ranked outside and accumulated here exactly.
//!
//! All arithmetic is exact: results are rational numbers, so conservation of
//! the prize pool can be stated and proved rather than observed.

pub mod errors;
pub mod exact;
pub mod inputs;
pub mod laws;
pub mod rat;
pub mod sampling;
pub mod sortvec;
pub mod sums;
