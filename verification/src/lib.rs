//! A verified core for browsing a Condo Control file library as a read-only
//! filesystem: display names, listing classification, the inode table behind
//! the filesystem operations, caches and configuration helpers.

pub mod text;
pub mod names;
pub mod clock;
pub mod model;
pub mod client;
pub mod vfs;
pub mod cache;
pub mod credentials;
pub mod config;
