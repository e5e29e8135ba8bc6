use distributed_fs::domain::config::FSConfig;
use distributed_fs::domain::files::build_manifest;
use distributed_fs::error::RfsError;
use distributed_fs::peer::connection::{
    ConnectionFrame, GetFileFrame, GetFilePieceFrame, GetInfoFrame, GetPingFrame,
    PingResponseFrame,
};
use distributed_fs::peer::listener::{
    file_piece_response, process_get_ping_frame, process_inbound_connection,
    refresh_pings_for_peers, Dispatch, Probe,
};
use distributed_fs::peer::state::{KnownPeer, State};

fn seeded_state(body: &[u8]) -> State {
    let mut state = State::new(FSConfig::new(None, "/home/a".to_string()));
    let file = build_manifest(
        "x-id".to_string(),
        "127.0.0.1:8001".to_string(),
        "x.bin".to_string(),
        body,
    );
    state.file_manager.add_file(file).unwrap();
    state.known_peers = vec![
        KnownPeer { address: "127.0.0.1:8002".to_string(), ping: Some(40) },
        KnownPeer { address: "127.0.0.1:8003".to_string(), ping: None },
    ];
    state
}

#[test]
fn a_ping_is_answered_at_once() {
    let state = seeded_state(b"body");
    assert!(matches!(
        process_get_ping_frame(GetPingFrame {}),
        ConnectionFrame::PingResponse(_)
    ));
    let dispatch = process_inbound_connection(&state, ConnectionFrame::GetPing(GetPingFrame {}));
    assert!(matches!(dispatch, Dispatch::Reply(ConnectionFrame::PingResponse(_))));
}

#[test]
fn information_lists_files_and_known_peers() {
    let state = seeded_state(b"body");
    match process_inbound_connection(&state, ConnectionFrame::GetInfo(GetInfoFrame {})) {
        Dispatch::Reply(ConnectionFrame::InfoResponse(info)) => {
            assert_eq!(info.file_ids, vec!["x-id".to_string()]);
            assert_eq!(info.known_peers.len(), 2);
            assert_eq!(info.known_peers[0].address, "127.0.0.1:8002");
            assert_eq!(info.known_peers[0].ping, Some(40));
            assert_eq!(info.known_peers[1].address, "127.0.0.1:8003");
            assert_eq!(info.known_peers[1].ping, None);
        }
        other => panic!("unexpected dispatch {:?}", other),
    }
}

#[test]
fn an_unknown_file_is_rejected_and_the_next_request_is_served() {
    let body: Vec<u8> = (0..40_000usize).map(|i| (i % 241) as u8).collect();
    let state = seeded_state(&body);
    let unknown = ConnectionFrame::GetFilePiece(GetFilePieceFrame {
        file_id: "nope".to_string(),
        piece: 0,
    });
    assert!(matches!(
        process_inbound_connection(&state, unknown),
        Dispatch::Reject(RfsError::UnknownFile)
    ));
    let known = ConnectionFrame::GetFilePiece(GetFilePieceFrame {
        file_id: "x-id".to_string(),
        piece: 2,
    });
    match process_inbound_connection(&state, known) {
        Dispatch::ReadPiece { path, file_id, piece } => {
            assert_eq!(path, "/home/a/.rfs/files/x.bin");
            assert_eq!(file_id, "x-id");
            assert_eq!(piece, 2);
            match file_piece_response(&state, file_id, piece, &body) {
                Ok(ConnectionFrame::FilePieceResponse(r)) => {
                    assert_eq!(r.file_id, "x-id");
                    assert_eq!(r.piece, 2);
                    assert_eq!(r.content, body[32_768..].to_vec());
                }
                other => panic!("unexpected response {:?}", other),
            }
        }
        other => panic!("unexpected dispatch {:?}", other),
    }
    assert_eq!(
        file_piece_response(&state, "nope".to_string(), 0, &body).err(),
        Some(RfsError::UnknownFile)
    );
}

#[test]
fn a_download_is_started_for_a_known_file_only() {
    let state = seeded_state(b"body");
    let known = ConnectionFrame::GetFile(GetFileFrame { file_id: "x-id".to_string() });
    match process_inbound_connection(&state, known) {
        Dispatch::Download { file_id } => assert_eq!(file_id, "x-id"),
        other => panic!("unexpected dispatch {:?}", other),
    }
    let unknown = ConnectionFrame::GetFile(GetFileFrame { file_id: "nope".to_string() });
    assert!(matches!(
        process_inbound_connection(&state, unknown),
        Dispatch::Reject(RfsError::UnknownFile)
    ));
}

#[test]
fn frames_that_are_no_requests_are_ignored() {
    let state = seeded_state(b"body");
    let frame = ConnectionFrame::PingResponse(PingResponseFrame {});
    assert!(matches!(process_inbound_connection(&state, frame), Dispatch::Ignore));
}

#[test]
fn a_peer_that_stops_answering_loses_its_ping() {
    let mut state = seeded_state(b"body");
    refresh_pings_for_peers(
        &mut state,
        &vec![
            Probe { address: "127.0.0.1:8002".to_string(), elapsed_micros: Some(900) },
            Probe { address: "127.0.0.1:8003".to_string(), elapsed_micros: Some(1_100) },
        ],
    );
    assert_eq!(state.known_peers[0].ping, Some(900));
    assert_eq!(state.known_peers[1].ping, Some(1_100));
    assert!(state.known_peers[0].accessible());

    refresh_pings_for_peers(
        &mut state,
        &vec![
            Probe { address: "127.0.0.1:8002".to_string(), elapsed_micros: None },
            Probe { address: "127.0.0.1:8003".to_string(), elapsed_micros: Some(u128::MAX) },
        ],
    );
    assert_eq!(state.known_peers[0].ping, None);
    assert!(!state.known_peers[0].accessible());
    assert_eq!(state.known_peers[1].ping, Some(i64::MAX));
    assert_eq!(state.known_peers.len(), 2);
}
