//! The peer runtime: sessions, store, scheduler and listener.

pub mod enums;
pub mod allocation;
pub mod state;
pub mod codec;
pub mod connection;
pub mod file;
pub mod client;
pub mod listener;
pub mod download;
