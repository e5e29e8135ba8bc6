//! What a peer answers to the frames of an inbound session, and how a round
//! of the liveness loop is taken in.

use vstd::prelude::*;
use crate::domain::files::piece_of;
use crate::error::RfsError;
use crate::peer::connection::record_ping;
use crate::peer::connection::recorded_ping;
use crate::peer::connection::ConnectionFrame;
use crate::peer::connection::FilePieceResponseFrame;
use crate::peer::connection::GetFileFrame;
use crate::peer::connection::GetFilePieceFrame;
use crate::peer::connection::GetInfoFrame;
use crate::peer::connection::GetPingFrame;
use crate::peer::connection::InfoResponseFrame;
use crate::peer::connection::PingResponseFrame;
use crate::peer::state::clone_peers;
use crate::peer::state::distinct_addresses;
use crate::peer::state::with_pings;
use crate::peer::state::KnownPeer;
use crate::peer::state::KnownPeerView;
use crate::peer::state::State;
use crate::peer::state::lemma_with_pings_keeps_addresses;
use crate::peer::state::lemma_with_pings_last_wins;
use crate::peer::state::first_with_address;

verus! {

/// What the listener does with a frame that has arrived.
#[derive(Debug)]
pub enum Dispatch {
    /// Send this frame back.
    Reply(ConnectionFrame),
    /// Read the body at `path`, cut the piece out of it and send it back.
    ReadPiece { path: String, file_id: String, piece: u64 },
    /// Download the file, on a task of its own.
    Download { file_id: String },
    /// The request cannot be served. The session stays open.
    Reject(RfsError),
    /// The frame is no request. Go on reading.
    Ignore,
}

/// The answer to a ping.
pub fn process_get_ping_frame(frame: GetPingFrame) -> (reply: ConnectionFrame)
    ensures
        reply is PingResponse,
{
    ConnectionFrame::PingResponse(PingResponseFrame {  })
}

/// The answer to a request for information: the ids of the stored files and
/// the known peers.
pub fn process_get_info_frame(state: &State, frame: GetInfoFrame) -> (reply: ConnectionFrame)
    ensures
        reply matches ConnectionFrame::InfoResponse(info) && info.known_peers.deep_view()
            == state.known_peers.deep_view() && info.file_ids.deep_view().no_duplicates() && (
        forall|id: Seq<char>|
            state.file_manager@.dom().contains(id) <==> info.file_ids.deep_view().contains(id)),
{
    ConnectionFrame::InfoResponse(
        InfoResponseFrame {
            file_ids: state.file_manager.get_file_ids(),
            known_peers: clone_peers(&state.known_peers),
        },
    )
}

/// What a request for a piece leads to: the body to read, or `UnknownFile`
/// where the store does not hold the file.
pub fn process_get_file_piece_frame(state: &State, frame: GetFilePieceFrame) -> (res: Dispatch)
    ensures
        state.file_manager@.dom().contains(frame.file_id@) ==> (res matches Dispatch::ReadPiece {
            path,
            file_id,
            piece,
        } && path@ == state.file_manager.config().files_dir + "/"@
            + state.file_manager@[frame.file_id@].data.name && file_id@ == frame.file_id@ && piece
            == frame.piece),
        !state.file_manager@.dom().contains(frame.file_id@) ==> (res matches Dispatch::Reject(e)
            && e == RfsError::UnknownFile),
{
    match state.file_manager.body_path(frame.file_id.as_str()) {
        Ok(path) => Dispatch::ReadPiece { path, file_id: frame.file_id, piece: frame.piece },
        Err(e) => Dispatch::Reject(e),
    }
}

/// The frame that carries piece `piece` of the stored file `file_id`, cut
/// out of the body `contents`.
pub fn file_piece_response(state: &State, file_id: String, piece: u64, contents: &[u8]) -> (res:
    Result<ConnectionFrame, RfsError>)
    ensures
        state.file_manager@.dom().contains(file_id@) ==> (res matches Ok(
            ConnectionFrame::FilePieceResponse(r),
        ) && r.file_id@ == file_id@ && r.piece == piece && r.content@ == piece_of(
            contents@,
            state.file_manager@[file_id@].data.piece_size as nat,
            piece as nat,
        )),
        !state.file_manager@.dom().contains(file_id@) ==> (res matches Err(e) && e
            == RfsError::UnknownFile),
{
    match state.file_manager.get_file_piece(file_id.as_str(), piece, contents) {
        Ok(content) => Ok(
            ConnectionFrame::FilePieceResponse(FilePieceResponseFrame { file_id, piece, content }),
        ),
        Err(e) => Err(e),
    }
}

/// What a request to download a file leads to: the download, or
/// `UnknownFile` where the store does not hold the manifest.
pub fn process_get_file_frame(state: &State, frame: GetFileFrame) -> (res: Dispatch)
    ensures
        state.file_manager@.dom().contains(frame.file_id@) ==> (res matches Dispatch::Download {
            file_id,
        } && file_id@ == frame.file_id@),
        !state.file_manager@.dom().contains(frame.file_id@) ==> (res matches Dispatch::Reject(e)
            && e == RfsError::UnknownFile),
{
    match state.file_manager.body_path(frame.file_id.as_str()) {
        Ok(_) => Dispatch::Download { file_id: frame.file_id },
        Err(e) => Dispatch::Reject(e),
    }
}

/// What the listener does with one frame of an inbound session.
///
/// A ping and a request for information are answered at once; a request for
/// a piece or for a download is handed on, or rejected where the file is not
/// known; every other frame is ignored.
pub fn process_inbound_connection(state: &State, frame: ConnectionFrame) -> (res: Dispatch)
    ensures
        match frame {
            ConnectionFrame::GetPing(_) => res matches Dispatch::Reply(reply)
                && reply is PingResponse,
            ConnectionFrame::GetInfo(_) => res matches Dispatch::Reply(
                ConnectionFrame::InfoResponse(info),
            ) && info.known_peers.deep_view() == state.known_peers.deep_view()
                && info.file_ids.deep_view().no_duplicates() && (forall|id: Seq<char>|
                state.file_manager@.dom().contains(id) <==> info.file_ids.deep_view().contains(
                    id,
                )),
            ConnectionFrame::GetFilePiece(g) => if state.file_manager@.dom().contains(g.file_id@) {
                res matches Dispatch::ReadPiece { path, file_id, piece } && path@
                    == state.file_manager.config().files_dir + "/"@
                    + state.file_manager@[g.file_id@].data.name && file_id@ == g.file_id@ && piece
                    == g.piece
            } else {
                res matches Dispatch::Reject(e) && e == RfsError::UnknownFile
            },
            ConnectionFrame::GetFile(g) => if state.file_manager@.dom().contains(g.file_id@) {
                res matches Dispatch::Download { file_id } && file_id@ == g.file_id@
            } else {
                res matches Dispatch::Reject(e) && e == RfsError::UnknownFile
            },
            _ => res is Ignore,
        },
{
    match frame {
        ConnectionFrame::GetPing(f) => Dispatch::Reply(process_get_ping_frame(f)),
        ConnectionFrame::GetInfo(f) => Dispatch::Reply(process_get_info_frame(state, f)),
        ConnectionFrame::GetFilePiece(f) => process_get_file_piece_frame(state, f),
        ConnectionFrame::GetFile(f) => process_get_file_frame(state, f),
        _ => Dispatch::Ignore,
    }
}

/// What came of asking one peer for a ping.
#[derive(Debug)]
pub struct Probe {
    pub address: String,
    /// The round trip in microseconds; `None` where the peer could not be
    /// reached or did not answer.
    pub elapsed_micros: Option<u128>,
}

/// A `Probe` as plain mathematical values.
pub struct ProbeView {
    pub address: Seq<char>,
    pub elapsed_micros: Option<u128>,
}

impl View for Probe {
    type V = ProbeView;

    open spec fn view(&self) -> ProbeView {
        ProbeView { address: self.address@, elapsed_micros: self.elapsed_micros }
    }
}

impl DeepView for Probe {
    type V = ProbeView;

    open spec fn deep_view(&self) -> ProbeView {
        self@
    }
}

/// The measurement that a probe stands for: the recorded round trip, or no
/// ping where the peer was out of reach.
pub open spec fn measured(probe: ProbeView) -> KnownPeerView {
    KnownPeerView {
        address: probe.address,
        ping: match probe.elapsed_micros {
            Some(t) => Some(recorded_ping(t)),
            None => None,
        },
    }
}

/// The measurements that the probes of one round stand for, in order.
pub open spec fn measurements(probes: Seq<ProbeView>) -> Seq<KnownPeerView> {
    Seq::new(probes.len(), |i: int| measured(probes[i]))
}

/// Takes the probes of one round of the liveness loop into the known peers:
/// a peer that answered gets its new ping, one that did not gets none.
pub fn refresh_pings_for_peers(state: &mut State, probes: &Vec<Probe>)
    ensures
        final(state).known_peers.deep_view() == with_pings(
            old(state).known_peers.deep_view(),
            measurements(probes.deep_view()),
        ),
        final(state).file_manager == old(state).file_manager,
{
    let mut values: Vec<KnownPeer> = Vec::new();
    let mut i: usize = 0;
    while i < probes.len()
        invariant
            0 <= i <= probes@.len(),
            values@.len() == i,
            forall|j: int| 0 <= j < i ==> values@[j]@ == measured(probes@[j]@),
        decreases probes@.len() - i,
    {
        let probe = &probes[i];
        let ping = match probe.elapsed_micros {
            Some(t) => Some(record_ping(t)),
            None => None,
        };
        values.push(KnownPeer { address: probe.address.clone(), ping });
        i = i + 1;
    }
    proof {
        assert(values.deep_view() =~= measurements(probes.deep_view()));
    }
    state.update_pings_for_peers(values);
}

proof fn lemma_first_is_own_index(peers: Seq<KnownPeerView>, i: int)
    requires
        distinct_addresses(peers),
        0 <= i < peers.len(),
    ensures
        first_with_address(peers, peers[i].address) == i,
    decreases peers.len(),
{
    if i > 0 {
        let rest = peers.drop_first();
        assert(peers[0].address != peers[i].address);
        assert(distinct_addresses(rest)) by {
            assert forall|a: int, b: int| 0 <= a < b < rest.len() implies rest[a].address
                != rest[b].address by {
                assert(rest[a] == peers[a + 1]);
                assert(rest[b] == peers[b + 1]);
            }
        }
        assert(rest[i - 1] == peers[i]);
        lemma_first_is_own_index(rest, i - 1);
    }
}

/// After a round in which every known peer was probed once, each known peer
/// has the ping that its probe measured; one that was out of reach has none.
pub proof fn lemma_round_records_every_probe(peers: Seq<KnownPeerView>, probes: Seq<ProbeView>)
    requires
        distinct_addresses(peers),
        probes.len() == peers.len(),
        forall|i: int| 0 <= i < peers.len() ==> (#[trigger] probes[i]).address == peers[i].address,
    ensures
        with_pings(peers, measurements(probes)) == measurements(probes),
{
    let values = measurements(probes);
    let after = with_pings(peers, values);
    lemma_with_pings_keeps_addresses(peers, values);
    assert forall|i: int| 0 <= i < peers.len() implies after[i] == values[i] by {
        lemma_first_is_own_index(peers, i);
        assert(values[i].address == peers[i].address);
        assert forall|j: int| i < j < values.len() implies values[j].address
            != values[i].address by {
            assert(values[j].address == peers[j].address);
        }
        lemma_with_pings_last_wins(peers, values, i);
    }
    assert(after =~= values);
}

} // verus!
