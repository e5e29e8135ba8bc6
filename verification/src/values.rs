//! Defaults of a peer.

use vstd::prelude::*;

verus! {

/// Size of every piece of a file but possibly the last one, in bytes.
pub const DEFAULT_PIECE_SIZE: u64 = 16384;

/// Largest frame body that a session accepts, in bytes.
pub const DEFAULT_BUFFER_SIZE: usize = 65536;

/// Pause between two rounds of the liveness loop, in seconds.
pub const SYNC_DELAY_SECS: u64 = 1;

/// Longest wait for one frame, in seconds, before a session counts as failed.
pub const READ_DEADLINE_SECS: u64 = 30;

/// Address on which a peer listens when it is given none.
pub const LOCAL_PEER_ADDRESS: &'static str = "127.0.0.1:8001";

/// Directory below the home directory in which a peer keeps its files when it
/// is given none.
pub const DEFAULT_RFS_DIR: &'static str = ".rfs";

} // verus!
