//! Progress of one piece.

use vstd::prelude::*;

verus! {

/// How far the download of one piece has come.
#[derive(Clone, Copy, Debug, PartialEq, Eq, Structural)]
pub enum PieceDownloadStatus {
    NotDownloaded,
    Downloading,
    Downloaded,
}

} // verus!
