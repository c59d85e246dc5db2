//! The command-line surface, as plain values.

pub mod graph;
pub mod pki;
pub mod run;
