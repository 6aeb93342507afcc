//! Reading and laying out exFAT volumes.
pub mod boot_sector;
pub mod cluster;
pub mod disk;
pub mod entry;
pub mod error;
pub mod fat;
pub mod fs;
pub mod image;
pub mod label;
pub mod laws;
pub mod le;
pub mod listing;
pub mod raw_root;
pub mod root;
pub mod scan;
pub mod timestamp;
