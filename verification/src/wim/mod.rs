//! The Windows imaging format: its header, its lookup table, and how to split a file of it
//! into parts.

pub mod entry;
pub mod header;
pub mod laws;
pub mod plan;
pub mod split;
