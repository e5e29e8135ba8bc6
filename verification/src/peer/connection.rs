//! The messages of the wire and the decisions of one session.
//!
//! A `Connection` owns no socket. The caller sends the frames that it hands
//! out, and hands it every frame that arrives; the connection says what the
//! frame means for the request that is under way.

use vstd::prelude::*;
use vstd::string::StringExecFns;
use crate::domain::enums::PieceDownloadStatus;
use crate::error::RfsError;
use crate::peer::allocation::PING_UNUSABLE;
use crate::peer::enums::ConnectionState;
use crate::peer::state::KnownPeer;
use crate::peer::state::KnownPeerView;
use crate::text::decimal;
use crate::text::digit_char;
use crate::text::digit_value;
use crate::text::lemma_decimal;
use crate::text::lemma_decimal_injective;
use crate::text::push_decimal;

verus! {

/// Asks a peer for its files and the peers it knows.
#[derive(Debug)]
pub struct GetInfoFrame {}

/// The files of a peer and the peers it knows.
#[derive(Debug)]
pub struct InfoResponseFrame {
    pub file_ids: Vec<String>,
    pub known_peers: Vec<KnownPeer>,
}

/// Asks a peer for an immediate answer, to time the round trip.
#[derive(Debug)]
pub struct GetPingFrame {}

/// The answer to a `GetPingFrame`.
#[derive(Debug)]
pub struct PingResponseFrame {}

/// Asks a peer for one piece of a file.
#[derive(Debug)]
pub struct GetFilePieceFrame {
    pub file_id: String,
    pub piece: u64,
}

/// Tells a peer to download a file from the peers of its manifest.
#[derive(Debug)]
pub struct GetFileFrame {
    pub file_id: String,
}

/// One piece of a file.
#[derive(Debug)]
pub struct FilePieceResponseFrame {
    pub file_id: String,
    pub piece: u64,
    pub content: Vec<u8>,
}

/// Tells an observer how far the download of one piece has come.
#[derive(Debug)]
pub struct FilePieceDownloadStatusResponseFrame {
    pub file_id: String,
    pub piece: u64,
    pub status: PieceDownloadStatus,
}

/// Under what name a piece is staged: the file id, a colon, and the decimal
/// numeral of the piece index.
pub open spec fn piece_id(file_id: Seq<char>, piece: u64) -> Seq<char> {
    file_id + seq![':'] + decimal(piece as nat)
}

/// No two pieces are staged under the same name: the name tells the file
/// id and the piece index.
pub proof fn lemma_piece_id_injective(
    file_a: Seq<char>,
    piece_a: u64,
    file_b: Seq<char>,
    piece_b: u64,
)
    requires
        piece_id(file_a, piece_a) == piece_id(file_b, piece_b),
    ensures
        file_a == file_b,
        piece_a == piece_b,
{
    let name = piece_id(file_a, piece_a);
    let digits_a = decimal(piece_a as nat);
    let digits_b = decimal(piece_b as nat);
    lemma_decimal(piece_a as nat);
    lemma_decimal(piece_b as nat);
    assert(name.len() == file_a.len() + 1 + digits_a.len());
    assert(name.len() == file_b.len() + 1 + digits_b.len());
    assert(name[file_a.len() as int] == ':');
    assert(piece_id(file_b, piece_b)[file_b.len() as int] == ':');
    if file_a.len() > file_b.len() {
        let at = file_a.len() - file_b.len() - 1;
        assert(name[file_a.len() as int] == digits_b[at]);
        assert(digit_char(digit_value(digits_b[at])) == digits_b[at]);
    } else if file_b.len() > file_a.len() {
        let at = file_b.len() - file_a.len() - 1;
        assert(name[file_b.len() as int] == digits_a[at]);
        assert(digit_char(digit_value(digits_a[at])) == digits_a[at]);
    }
    assert(file_a =~= name.take(file_a.len() as int));
    assert(file_b =~= name.take(file_b.len() as int));
    assert(digits_a =~= name.skip(file_a.len() as int + 1));
    assert(digits_b =~= name.skip(file_b.len() as int + 1));
    lemma_decimal_injective(piece_a as nat, piece_b as nat);
}

/// The name under which piece `piece` of the file `file_id` is staged.
pub fn staged_name(file_id: &str, piece: u64) -> (id: String)
    ensures
        id@ == piece_id(file_id@, piece),
{
    proof {
        reveal_strlit(":");
    }
    let mut id = String::from_str(file_id);
    id.append(":");
    push_decimal(&mut id, piece);
    proof {
        assert(":"@ =~= seq![':']);
        assert(id@ =~= piece_id(file_id@, piece));
    }
    id
}

impl FilePieceResponseFrame {
    /// The name under which this piece is staged.
    pub fn get_piece_id(&self) -> (id: String)
        ensures
            id@ == piece_id(self.file_id@, self.piece),
    {
        staged_name(self.file_id.as_str(), self.piece)
    }
}

impl Clone for GetFileFrame {
    fn clone(&self) -> (res: Self)
        ensures
            res.file_id@ == self.file_id@,
    {
        GetFileFrame { file_id: self.file_id.clone() }
    }
}

/// A message of the wire.
#[derive(Debug)]
pub enum ConnectionFrame {
    GetInfo(GetInfoFrame),
    InfoResponse(InfoResponseFrame),
    GetPing(GetPingFrame),
    PingResponse(PingResponseFrame),
    GetFilePiece(GetFilePieceFrame),
    GetFile(GetFileFrame),
    FilePieceResponse(FilePieceResponseFrame),
    FilePieceDownloadStatusResponse(FilePieceDownloadStatusResponseFrame),
}

/// What a session has learnt of its peer.
#[derive(Debug)]
pub struct ConnectionInfo {
    /// Round trip in microseconds.
    pub ping: i64,
    pub file_ids: Vec<String>,
    pub known_peers: Vec<KnownPeer>,
}

/// A `ConnectionInfo` as plain mathematical values.
pub struct ConnectionInfoView {
    pub ping: i64,
    pub file_ids: Seq<Seq<char>>,
    pub known_peers: Seq<KnownPeerView>,
}

impl View for ConnectionInfo {
    type V = ConnectionInfoView;

    open spec fn view(&self) -> ConnectionInfoView {
        ConnectionInfoView {
            ping: self.ping,
            file_ids: self.file_ids.deep_view(),
            known_peers: self.known_peers.deep_view(),
        }
    }
}

/// A measured round trip as a session records it: the number of
/// microseconds, or the largest number that fits where it is larger.
pub open spec fn recorded_ping(elapsed_micros: u128) -> i64 {
    if elapsed_micros > i64::MAX as u128 {
        i64::MAX
    } else {
        elapsed_micros as i64
    }
}

/// The round trip as a session records it.
pub fn record_ping(elapsed_micros: u128) -> (ping: i64)
    ensures
        ping == recorded_ping(elapsed_micros),
{
    if elapsed_micros > i64::MAX as u128 {
        i64::MAX
    } else {
        elapsed_micros as i64
    }
}

/// The request of a session that waits for its answer.
#[derive(Debug)]
pub enum Pending {
    /// No request is under way.
    Nothing,
    /// The information of the peer has been asked for.
    Info,
    /// The information has arrived; the ping that completes it is under way.
    InfoPing(InfoResponseFrame),
    /// A ping has been asked for.
    Ping,
    /// A piece has been asked for.
    Piece { file_id: String, piece: u64 },
}

/// A `Pending` as plain mathematical values.
pub enum PendingView {
    Nothing,
    Info,
    InfoPing { file_ids: Seq<Seq<char>>, known_peers: Seq<KnownPeerView> },
    Ping,
    Piece { file_id: Seq<char>, piece: u64 },
}

impl View for Pending {
    type V = PendingView;

    open spec fn view(&self) -> PendingView {
        match self {
            Pending::Nothing => PendingView::Nothing,
            Pending::Info => PendingView::Info,
            Pending::InfoPing(f) => PendingView::InfoPing {
                file_ids: f.file_ids.deep_view(),
                known_peers: f.known_peers.deep_view(),
            },
            Pending::Ping => PendingView::Ping,
            Pending::Piece { file_id, piece } => PendingView::Piece {
                file_id: file_id@,
                piece: *piece,
            },
        }
    }
}

/// What a frame that has arrived means for the session.
#[derive(Debug)]
pub enum Reply {
    /// The frame is of no concern to the request under way: go on reading.
    Skipped,
    /// Send this frame and go on reading.
    Send(ConnectionFrame),
    /// The information of the peer is complete.
    InfoRetrieved,
    /// The ping has been answered after this many microseconds.
    Pong(u128),
    /// The piece that was asked for.
    Piece(FilePieceResponseFrame),
    /// The request has failed.
    Failed(RfsError),
}

/// One session with a peer, without its socket.
#[derive(Debug)]
pub struct Connection {
    state: ConnectionState,
    pub info: Option<ConnectionInfo>,
    pending: Pending,
}

impl Connection {
    /// Where the session stands.
    pub closed spec fn state(&self) -> ConnectionState {
        self.state
    }

    /// The request that waits for its answer.
    pub closed spec fn pending(&self) -> PendingView {
        self.pending@
    }

    /// What the session has learnt of its peer.
    pub closed spec fn info_view(&self) -> Option<ConnectionInfoView> {
        match self.info {
            Some(info) => Some(info@),
            None => None,
        }
    }

    /// A session on a socket that has just been opened or accepted.
    pub fn new() -> (res: Self)
        ensures
            res.state() == ConnectionState::Connected,
            res.pending() == PendingView::Nothing,
            res.info_view() is None,
    {
        Connection { state: ConnectionState::Connected, info: None, pending: Pending::Nothing }
    }

    /// Where the session stands.
    pub fn current_state(&self) -> (res: ConnectionState)
        ensures
            res == self.state(),
    {
        self.state
    }

    /// The ping of the peer for the scheduler: the round trip that the session
    /// has recorded, or `PING_UNUSABLE` where it has recorded none.
    pub fn usable_ping(&self) -> (ping: u128)
        ensures
            ping == match self.info_view() {
                Some(info) => if info.ping >= 0 {
                    info.ping as u128
                } else {
                    PING_UNUSABLE
                },
                None => PING_UNUSABLE,
            },
    {
        match &self.info {
            Some(info) => if info.ping >= 0 {
                info.ping as u128
            } else {
                PING_UNUSABLE
            },
            None => PING_UNUSABLE,
        }
    }

    /// Whether no request is under way, so that the next one may be sent.
    pub fn is_idle(&self) -> (res: bool)
        ensures
            res == (self.pending() == PendingView::Nothing),
    {
        match self.pending {
            Pending::Nothing => true,
            _ => false,
        }
    }

    /// Starts the first exchange of a session: hands out the request for the
    /// peer's information. The ping that completes the exchange follows when
    /// the information has arrived.
    pub fn retrieve_info(&mut self) -> (frame: ConnectionFrame)
        requires
            old(self).state() == ConnectionState::Connected,
            old(self).pending() == PendingView::Nothing,
        ensures
            frame is GetInfo,
            final(self).pending() == PendingView::Info,
            final(self).state() == old(self).state(),
            final(self).info_view() == old(self).info_view(),
    {
        self.pending = Pending::Info;
        ConnectionFrame::GetInfo(GetInfoFrame {  })
    }

    /// Starts the first exchange of a session where the session is fit for
    /// it: connected, with nothing known of the peer yet, and with no request
    /// under way. Otherwise the call fails with `UnexpectedFrame` and the
    /// session stays as it was.
    pub fn try_retrieve_info(&mut self) -> (res: Result<ConnectionFrame, RfsError>)
        ensures
            res is Ok <==> old(self).state() == ConnectionState::Connected && old(self).pending()
                == PendingView::Nothing,
            res matches Ok(frame) ==> frame is GetInfo && final(self).pending()
                == PendingView::Info,
            res is Err ==> (res matches Err(e) && e == RfsError::UnexpectedFrame)
                && final(self).pending() == old(self).pending(),
            final(self).state() == old(self).state(),
            final(self).info_view() == old(self).info_view(),
    {
        let connected = match self.state {
            ConnectionState::Connected => true,
            ConnectionState::InfoRetrieved => false,
        };
        if connected && self.is_idle() {
            Ok(self.retrieve_info())
        } else {
            Err(RfsError::UnexpectedFrame)
        }
    }

    /// Starts a ping where no request is under way. Otherwise the call fails
    /// with `UnexpectedFrame` and the session stays as it was.
    pub fn try_get_ping(&mut self) -> (res: Result<ConnectionFrame, RfsError>)
        ensures
            res is Ok <==> old(self).pending() == PendingView::Nothing,
            res matches Ok(frame) ==> frame is GetPing && final(self).pending()
                == PendingView::Ping,
            res is Err ==> (res matches Err(e) && e == RfsError::UnexpectedFrame)
                && final(self).pending() == old(self).pending(),
            final(self).state() == old(self).state(),
            final(self).info_view() == old(self).info_view(),
    {
        if self.is_idle() {
            Ok(self.get_ping())
        } else {
            Err(RfsError::UnexpectedFrame)
        }
    }

    /// Starts the fetch of one piece where no request is under way. Otherwise
    /// the call fails with `UnexpectedFrame` and the session stays as it was.
    pub fn try_get_file_piece(&mut self, file_id: String, piece: u64) -> (res: Result<
        ConnectionFrame,
        RfsError,
    >)
        ensures
            res is Ok <==> old(self).pending() == PendingView::Nothing,
            res matches Ok(frame) ==> (frame matches ConnectionFrame::GetFilePiece(f)
                && f.file_id@ == file_id@ && f.piece == piece) && final(self).pending() == (
            PendingView::Piece { file_id: file_id@, piece }),
            res is Err ==> (res matches Err(e) && e == RfsError::UnexpectedFrame)
                && final(self).pending() == old(self).pending(),
            final(self).state() == old(self).state(),
            final(self).info_view() == old(self).info_view(),
    {
        if self.is_idle() {
            Ok(self.get_file_piece(file_id, piece))
        } else {
            Err(RfsError::UnexpectedFrame)
        }
    }

    /// Starts a ping: hands out the request.
    pub fn get_ping(&mut self) -> (frame: ConnectionFrame)
        requires
            old(self).pending() == PendingView::Nothing,
        ensures
            frame is GetPing,
            final(self).pending() == PendingView::Ping,
            final(self).state() == old(self).state(),
            final(self).info_view() == old(self).info_view(),
    {
        self.pending = Pending::Ping;
        ConnectionFrame::GetPing(GetPingFrame {  })
    }

    /// Starts the fetch of one piece: hands out the request.
    pub fn get_file_piece(&mut self, file_id: String, piece: u64) -> (frame: ConnectionFrame)
        requires
            old(self).pending() == PendingView::Nothing,
        ensures
            frame matches ConnectionFrame::GetFilePiece(f) && f.file_id@ == file_id@ && f.piece
                == piece,
            final(self).pending() == (PendingView::Piece { file_id: file_id@, piece }),
            final(self).state() == old(self).state(),
            final(self).info_view() == old(self).info_view(),
    {
        let wanted = file_id.clone();
        self.pending = Pending::Piece { file_id: wanted, piece };
        ConnectionFrame::GetFilePiece(GetFilePieceFrame { file_id, piece })
    }

    /// The frame that tells an observer how far the download of a piece has
    /// come. It is sent without waiting for an answer.
    pub fn send_file_piece_download_status(
        file_id: String,
        piece: u64,
        status: PieceDownloadStatus,
    ) -> (frame: ConnectionFrame)
        ensures
            frame matches ConnectionFrame::FilePieceDownloadStatusResponse(f) && f.file_id@
                == file_id@ && f.piece == piece && f.status == status,
    {
        ConnectionFrame::FilePieceDownloadStatusResponse(
            FilePieceDownloadStatusResponseFrame { file_id, piece, status },
        )
    }

    /// Takes a frame that has arrived, `elapsed_micros` microseconds after
    /// the last frame was sent, and says what it means.
    ///
    /// - With no request under way the frame is skipped.
    /// - While the information is awaited, an `InfoResponse` is kept and the
    ///   ping is sent; any other frame fails the exchange.
    /// - While the ping of the first exchange is awaited, a `PingResponse`
    ///   completes it: the session records the information with the measured
    ///   ping and is in state `InfoRetrieved`. Any other frame fails it.
    /// - While a ping is awaited, a `PingResponse` answers it, and any other
    ///   frame fails it.
    /// - While a piece is awaited, the `FilePieceResponse` for that file and
    ///   piece is handed out; every other frame is skipped, and the piece is
    ///   still awaited.
    ///
    /// A failure is `UnexpectedFrame` and leaves no request under way.
    pub fn on_frame(&mut self, frame: ConnectionFrame, elapsed_micros: u128) -> (reply: Reply)
        ensures
            match old(self).pending() {
                PendingView::Nothing => {
                    &&& reply is Skipped
                    &&& final(self).pending() == old(self).pending()
                    &&& final(self).state() == old(self).state()
                    &&& final(self).info_view() == old(self).info_view()
                },
                PendingView::Info => {
                    &&& final(self).state() == old(self).state()
                    &&& final(self).info_view() == old(self).info_view()
                    &&& match frame {
                        ConnectionFrame::InfoResponse(f) => {
                            &&& reply matches Reply::Send(g) && g is GetPing
                            &&& final(self).pending() == (PendingView::InfoPing {
                                file_ids: f.file_ids.deep_view(),
                                known_peers: f.known_peers.deep_view(),
                            })
                        },
                        _ => {
                            &&& reply matches Reply::Failed(e) && e == RfsError::UnexpectedFrame
                            &&& final(self).pending() == PendingView::Nothing
                        },
                    }
                },
                PendingView::InfoPing { file_ids, known_peers } => {
                    &&& final(self).pending() == PendingView::Nothing
                    &&& match frame {
                        ConnectionFrame::PingResponse(_) => {
                            &&& reply is InfoRetrieved
                            &&& final(self).state() == ConnectionState::InfoRetrieved
                            &&& final(self).info_view() == Some(
                                ConnectionInfoView {
                                    ping: recorded_ping(elapsed_micros),
                                    file_ids,
                                    known_peers,
                                },
                            )
                        },
                        _ => {
                            &&& reply matches Reply::Failed(e) && e == RfsError::UnexpectedFrame
                            &&& final(self).state() == old(self).state()
                            &&& final(self).info_view() == old(self).info_view()
                        },
                    }
                },
                PendingView::Ping => {
                    &&& final(self).pending() == PendingView::Nothing
                    &&& final(self).state() == old(self).state()
                    &&& final(self).info_view() == old(self).info_view()
                    &&& match frame {
                        ConnectionFrame::PingResponse(_) => reply matches Reply::Pong(t) && t
                            == elapsed_micros,
                        _ => reply matches Reply::Failed(e) && e == RfsError::UnexpectedFrame,
                    }
                },
                PendingView::Piece { file_id, piece } => {
                    &&& final(self).state() == old(self).state()
                    &&& final(self).info_view() == old(self).info_view()
                    &&& match frame {
                        ConnectionFrame::FilePieceResponse(r) => if r.file_id@ == file_id
                            && r.piece == piece {
                            &&& reply matches Reply::Piece(got) && got.file_id@ == r.file_id@
                                && got.piece == r.piece && got.content@ == r.content@
                            &&& final(self).pending() == PendingView::Nothing
                        } else {
                            &&& reply is Skipped
                            &&& final(self).pending() == old(self).pending()
                        },
                        _ => {
                            &&& reply is Skipped
                            &&& final(self).pending() == old(self).pending()
                        },
                    }
                },
            },
    {
        let mut pending = Pending::Nothing;
        std::mem::swap(&mut pending, &mut self.pending);
        match pending {
            Pending::Nothing => Reply::Skipped,
            Pending::Info => match frame {
                ConnectionFrame::InfoResponse(f) => {
                    self.pending = Pending::InfoPing(f);
                    Reply::Send(ConnectionFrame::GetPing(GetPingFrame {  }))
                },
                _ => Reply::Failed(RfsError::UnexpectedFrame),
            },
            Pending::InfoPing(f) => match frame {
                ConnectionFrame::PingResponse(_) => {
                    self.state = ConnectionState::InfoRetrieved;
                    self.info = Some(
                        ConnectionInfo {
                            ping: record_ping(elapsed_micros),
                            file_ids: f.file_ids,
                            known_peers: f.known_peers,
                        },
                    );
                    Reply::InfoRetrieved
                },
                _ => Reply::Failed(RfsError::UnexpectedFrame),
            },
            Pending::Ping => match frame {
                ConnectionFrame::PingResponse(_) => Reply::Pong(elapsed_micros),
                _ => Reply::Failed(RfsError::UnexpectedFrame),
            },
            Pending::Piece { file_id, piece } => match frame {
                ConnectionFrame::FilePieceResponse(r) => {
                    if r.file_id == file_id && r.piece == piece {
                        Reply::Piece(r)
                    } else {
                        self.pending = Pending::Piece { file_id, piece };
                        Reply::Skipped
                    }
                },
                _ => {
                    self.pending = Pending::Piece { file_id, piece };
                    Reply::Skipped
                },
            },
        }
    }
}

} // verus!
