//! A stack-based script language: scripts, their execution and their standard forms.
pub mod engine;
pub mod error;
pub mod form_laws;
pub mod laws;
pub mod number;
pub mod program;
pub mod spending;
pub mod standard;
