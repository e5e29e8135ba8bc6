//! The kinds of failure that the engine reports.

use vstd::prelude::*;

verus! {

/// Why an operation of the engine failed.
#[derive(Clone, Copy, Debug, PartialEq, Eq, Structural)]
pub enum RfsError {
    /// No session could be opened to the address.
    ConnectFailed,
    /// The stream ended before a whole frame had arrived.
    PeerClosed,
    /// A length prefix announces a body larger than the session accepts.
    FrameTooLarge,
    /// The body of a frame could not be decoded.
    MalformedFrame,
    /// A well-formed frame arrived where another kind was expected.
    UnexpectedFrame,
    /// The store holds no manifest under the file id.
    UnknownFile,
    /// The bytes of a piece, or of a whole file, do not hash to the value that
    /// the manifest records.
    PieceHashMismatch,
    /// Every surviving session has failed to deliver the piece.
    PieceUnavailable,
    /// No peer of the file has a usable latency.
    NoReachablePeers,
    /// A manifest with the same id and other contents is already stored.
    ConflictingManifest,
    /// The file system refused an operation.
    IoError,
    /// The configuration cannot be used.
    ConfigError,
}

} // verus!
