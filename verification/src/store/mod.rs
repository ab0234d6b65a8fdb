//! The stored chain: its tables, what is written to them, and how they are mended.
pub mod error;
pub mod heal;
pub mod laws;
pub mod plan;
pub mod query;
pub mod tables;
