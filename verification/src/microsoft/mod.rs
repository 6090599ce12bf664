//! What Microsoft offers for download, and how it is asked for.

pub mod api;
pub mod cabinet;
pub mod catalog;
pub mod json;
pub mod laws;
pub mod models;
