//! Removable drives.

pub mod drives;
pub mod laws;
pub mod linux;
pub mod lists;
pub mod macos;
pub mod survey;
