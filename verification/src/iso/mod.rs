//! Reading the files of an ISO image.

pub mod entry;
pub mod iso9660;
pub mod laws;
pub mod names;
pub mod reader;
pub mod udf;
pub mod volume;
pub mod walk;
