//! Simplified payment verification: filters, inclusion proofs and header chains.
pub mod bloom;
pub mod chain;
pub mod error;
pub mod filter;
pub mod golomb;
pub mod laws;
pub mod merkle;
pub mod stake;
pub mod stake_rules;
pub mod target;
