//! States of a session and of a stored file.

use vstd::prelude::*;

verus! {

/// Where a session stands.
#[derive(Clone, Copy, Debug, PartialEq, Eq, Structural)]
pub enum ConnectionState {
    /// The socket is open; nothing is known of the peer yet.
    Connected,
    /// The peer has answered the first information and ping exchange.
    InfoRetrieved,
}

/// Whether the body of a stored file is on disk.
#[derive(Clone, Copy, Debug, PartialEq, Eq, Structural)]
pub enum FileStatus {
    Downloaded,
    Downloading,
    NotDownloaded,
}

} // verus!
