use distributed_fs::domain::enums::PieceDownloadStatus;
use distributed_fs::error::RfsError;
use distributed_fs::peer::allocation::PING_UNUSABLE;
use distributed_fs::peer::connection::{
    record_ping, Connection, ConnectionFrame, FilePieceDownloadStatusResponseFrame,
    FilePieceResponseFrame, GetFileFrame, InfoResponseFrame, PingResponseFrame, Reply,
};
use distributed_fs::peer::enums::ConnectionState;
use distributed_fs::peer::state::KnownPeer;

fn info_response() -> ConnectionFrame {
    ConnectionFrame::InfoResponse(InfoResponseFrame {
        file_ids: vec!["f1".to_string(), "f2".to_string()],
        known_peers: vec![KnownPeer { address: "127.0.0.1:8002".to_string(), ping: Some(120) }],
    })
}

fn pong() -> ConnectionFrame {
    ConnectionFrame::PingResponse(PingResponseFrame {})
}

fn piece(file_id: &str, piece: u64, content: &[u8]) -> ConnectionFrame {
    ConnectionFrame::FilePieceResponse(FilePieceResponseFrame {
        file_id: file_id.to_string(),
        piece,
        content: content.to_vec(),
    })
}

#[test]
fn the_first_exchange_fills_in_the_information() {
    let mut session = Connection::new();
    assert_eq!(session.current_state(), ConnectionState::Connected);
    assert!(session.is_idle());
    assert!(session.info.is_none());
    assert_eq!(session.usable_ping(), PING_UNUSABLE);

    assert!(matches!(session.retrieve_info(), ConnectionFrame::GetInfo(_)));
    assert!(!session.is_idle());
    let reply = session.on_frame(info_response(), 10);
    assert!(matches!(reply, Reply::Send(ConnectionFrame::GetPing(_))));
    assert_eq!(session.current_state(), ConnectionState::Connected);
    assert!(session.info.is_none());

    let reply = session.on_frame(pong(), 1500);
    assert!(matches!(reply, Reply::InfoRetrieved));
    assert_eq!(session.current_state(), ConnectionState::InfoRetrieved);
    assert!(session.is_idle());
    let info = session.info.as_ref().unwrap();
    assert_eq!(info.ping, 1500);
    assert_eq!(info.file_ids, vec!["f1".to_string(), "f2".to_string()]);
    assert_eq!(info.known_peers.len(), 1);
    assert_eq!(info.known_peers[0].address, "127.0.0.1:8002");
    assert_eq!(info.known_peers[0].ping, Some(120));
    assert_eq!(session.usable_ping(), 1500);
}

#[test]
fn a_wrong_frame_fails_the_first_exchange() {
    let mut session = Connection::new();
    session.retrieve_info();
    let reply = session.on_frame(pong(), 10);
    assert!(matches!(reply, Reply::Failed(RfsError::UnexpectedFrame)));
    assert!(session.is_idle());
    assert_eq!(session.current_state(), ConnectionState::Connected);

    session.retrieve_info();
    session.on_frame(info_response(), 10);
    let reply = session.on_frame(info_response(), 10);
    assert!(matches!(reply, Reply::Failed(RfsError::UnexpectedFrame)));
    assert!(session.is_idle());
    assert_eq!(session.current_state(), ConnectionState::Connected);
    assert!(session.info.is_none());
}

#[test]
fn a_ping_is_answered_by_a_ping_response_only() {
    let mut session = Connection::new();
    assert!(matches!(session.get_ping(), ConnectionFrame::GetPing(_)));
    assert!(matches!(session.on_frame(pong(), 321), Reply::Pong(321)));
    assert!(session.is_idle());
    session.get_ping();
    let reply = session.on_frame(piece("f", 0, b"x"), 5);
    assert!(matches!(reply, Reply::Failed(RfsError::UnexpectedFrame)));
    assert!(session.is_idle());
}

#[test]
fn other_frames_are_skipped_while_a_piece_is_awaited() {
    let mut session = Connection::new();
    let request = session.get_file_piece("f".to_string(), 3);
    match request {
        ConnectionFrame::GetFilePiece(g) => {
            assert_eq!(g.file_id, "f");
            assert_eq!(g.piece, 3);
        }
        other => panic!("unexpected request {:?}", other),
    }
    assert!(matches!(session.on_frame(pong(), 1), Reply::Skipped));
    assert!(matches!(session.on_frame(piece("f", 2, b"no"), 1), Reply::Skipped));
    assert!(matches!(session.on_frame(piece("g", 3, b"no"), 1), Reply::Skipped));
    assert!(!session.is_idle());
    match session.on_frame(piece("f", 3, b"yes"), 1) {
        Reply::Piece(r) => {
            assert_eq!(r.file_id, "f");
            assert_eq!(r.piece, 3);
            assert_eq!(r.content, b"yes".to_vec());
        }
        other => panic!("unexpected reply {:?}", other),
    }
    assert!(session.is_idle());
    assert!(matches!(session.on_frame(piece("f", 3, b"late"), 1), Reply::Skipped));
}

#[test]
fn pings_beyond_the_range_are_capped() {
    assert_eq!(record_ping(0), 0);
    assert_eq!(record_ping(1_000), 1_000);
    assert_eq!(record_ping(i64::MAX as u128), i64::MAX);
    assert_eq!(record_ping(i64::MAX as u128 + 1), i64::MAX);
    assert_eq!(record_ping(u128::MAX), i64::MAX);
}

#[test]
fn status_frames_carry_what_they_are_given() {
    let frame = Connection::send_file_piece_download_status(
        "f".to_string(),
        4,
        PieceDownloadStatus::Downloading,
    );
    match frame {
        ConnectionFrame::FilePieceDownloadStatusResponse(FilePieceDownloadStatusResponseFrame {
            file_id,
            piece,
            status,
        }) => {
            assert_eq!(file_id, "f");
            assert_eq!(piece, 4);
            assert_eq!(status, PieceDownloadStatus::Downloading);
        }
        other => panic!("unexpected frame {:?}", other),
    }
    let get = GetFileFrame { file_id: "f".to_string() };
    assert_eq!(get.clone().file_id, "f");
}

#[test]
fn a_request_is_refused_while_another_is_under_way() {
    let mut session = Connection::new();
    assert!(matches!(session.try_get_ping(), Ok(ConnectionFrame::GetPing(_))));
    assert!(matches!(session.try_get_ping(), Err(RfsError::UnexpectedFrame)));
    assert!(matches!(session.try_retrieve_info(), Err(RfsError::UnexpectedFrame)));
    assert!(matches!(
        session.try_get_file_piece("f".to_string(), 0),
        Err(RfsError::UnexpectedFrame)
    ));
    assert!(!session.is_idle());
    assert!(matches!(session.on_frame(pong(), 9), Reply::Pong(9)));
    match session.try_get_file_piece("f".to_string(), 4) {
        Ok(ConnectionFrame::GetFilePiece(g)) => {
            assert_eq!(g.file_id, "f");
            assert_eq!(g.piece, 4);
        }
        other => panic!("unexpected result {:?}", other),
    }
    assert!(matches!(session.on_frame(piece("f", 4, b"x"), 1), Reply::Piece(_)));
    assert!(session.is_idle());
}

#[test]
fn the_first_exchange_is_refused_once_the_information_is_there() {
    let mut session = Connection::new();
    assert!(matches!(session.try_retrieve_info(), Ok(ConnectionFrame::GetInfo(_))));
    session.on_frame(info_response(), 1);
    session.on_frame(pong(), 700);
    assert_eq!(session.current_state(), ConnectionState::InfoRetrieved);
    assert!(session.is_idle());
    assert!(matches!(session.try_retrieve_info(), Err(RfsError::UnexpectedFrame)));
    assert!(session.is_idle());
    assert_eq!(session.current_state(), ConnectionState::InfoRetrieved);
    assert_eq!(session.info.as_ref().unwrap().ping, 700);
    assert!(matches!(session.try_get_ping(), Ok(ConnectionFrame::GetPing(_))));
}
