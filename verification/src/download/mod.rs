//! Downloading files.

pub mod hash;
pub mod transfer;
