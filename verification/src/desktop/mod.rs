//! What the desktop application decides: which requests it takes, and what it answers.
pub mod claim;
pub mod error;
pub mod laws;
pub mod node;
pub mod staking;
pub mod swap;
pub mod swap_steps;
pub mod torrents;
pub mod wallet;
