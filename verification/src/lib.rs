//! Windows installation media: reading ISO images, splitting WIM files and laying out
//! bootable drives.

pub mod burn;
pub mod bytes;
pub mod cli;
pub mod disk;
pub mod download;
pub mod error;
pub mod iso;
pub mod microsoft;
pub mod models;
pub mod platform;
pub mod sort;
pub mod source;
pub mod text;
pub mod tree;
pub mod usb;
pub mod wim;
