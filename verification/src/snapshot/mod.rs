//! Snapshots of the legacy chain's unspent outputs.
pub mod chainstate;
pub mod embedded;
pub mod error;
pub mod file;
pub mod laws;
pub mod ranking;
pub mod utxo_set;
pub mod utxo_value;
