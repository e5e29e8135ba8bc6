//! Manifests, their hashes and the layout on disk.

pub mod config;
pub mod enums;
pub mod models;
pub mod digest;
pub mod files;
