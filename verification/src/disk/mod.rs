//! Laying out a drive: partition tables, and what goes onto the file system.

pub mod crc;
pub mod fat32;
pub mod gpt;
pub mod laws;
pub mod mbr;
pub mod partition;
pub mod raw_write;
