//! A peer-to-peer file distribution engine.
//!
//! A published file is cut into fixed-size pieces, each piece is hashed on its
//! own, and a downloader puts the file together again from pieces that it
//! fetches from several seeding peers, chosen by their measured latency.
//!
//! This crate holds the rules of the engine: the manifest and its hashes, the
//! length-prefixed framing of the wire, the decisions of a session and of the
//! listener, the file store, and the scheduler that shares the pieces of a file
//! among the peers. Sockets, files on disk and timers are the caller's.

pub mod values;
pub mod error;
pub mod text;
pub mod natural;
pub mod domain;
pub mod peer;
