//! Bill-splitting settlement engine.
//!
//! Given a list of participants and a split policy, the engine computes each
//! participant's fair share, their net balance, and a greedy set of
//! peer-to-peer payments that settles the balances.
//!
//! All monetary amounts are fixed-point values in cents (hundredths of a
//! currency unit), and percentages are in basis points (hundredths of a
//! percent), so that the two-decimal rounding the engine performs is exact
//! integer arithmetic.

pub mod engine;
pub mod laws;
pub mod models;
pub mod rounding;
