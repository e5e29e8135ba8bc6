use distributed_fs::domain::config::FSConfig;
use distributed_fs::domain::enums::PieceDownloadStatus;
use distributed_fs::domain::files::{build_manifest, read_piece, RFSFile};
use distributed_fs::error::RfsError;
use distributed_fs::peer::allocation::PING_UNUSABLE;
use distributed_fs::peer::connection::FilePieceResponseFrame;
use distributed_fs::peer::download::{Download, Received};
use distributed_fs::peer::enums::FileStatus;
use distributed_fs::peer::file::FileManager;
use distributed_fs::values::DEFAULT_PIECE_SIZE;

fn body() -> Vec<u8> {
    (0..40_000usize).map(|i| ((i * 7 + 3) % 251) as u8).collect()
}

fn manifest() -> RFSFile {
    build_manifest("x-id".to_string(), "127.0.0.1:8001".to_string(), "x.bin".to_string(), &body())
}

fn frame(piece: u64) -> FilePieceResponseFrame {
    FilePieceResponseFrame {
        file_id: "x-id".to_string(),
        piece,
        content: read_piece(&body(), DEFAULT_PIECE_SIZE, piece),
    }
}

fn statuses(download: &Download) -> Vec<PieceDownloadStatus> {
    download.progress().pieces.iter().map(|p| p.status).collect()
}

#[test]
fn a_single_peer_delivers_the_whole_file() {
    let mut store = FileManager::new(FSConfig::new(None, "/home/b".to_string()));
    store.add_file(manifest()).unwrap();
    let mut download = store.download_file("x-id", &vec![850]).unwrap();
    assert_eq!(store.get_file("x-id").unwrap().status, Some(FileStatus::Downloading));
    assert!(!download.is_complete());
    assert_eq!(download.finish(&store).err(), Some(RfsError::PieceUnavailable));

    let mut assembled = Vec::new();
    let mut staged = Vec::new();
    while let Some(k) = download.next_piece(0) {
        let f = frame(k);
        match download.piece_received(0, &f) {
            Received::Staged { name } => {
                assert_eq!(name, format!("x-id:{}", k));
                let piece = store.save_file_piece(f);
                assembled.extend_from_slice(&piece.content);
                staged.push(piece.path);
            }
            other => panic!("unexpected outcome {:?}", other),
        }
    }
    assert!(download.is_complete());
    assert_eq!(download.poll(), Ok(true));
    assert_eq!(download.next_piece(0), None);
    let plan = download.finish(&store).unwrap();
    assert_eq!(plan.parts, staged);
    assert_eq!(plan.target, "/home/b/.rfs/files/new-x.bin");
    assert_eq!(plan.destination, "/home/b/.rfs/files/x.bin");
    assert_eq!(assembled.len(), 40_000);
    assert_eq!(store.complete_download("x-id", &assembled), Ok(()));
    assert_eq!(store.get_file("x-id").unwrap().status, Some(FileStatus::Downloaded));
}

#[test]
fn two_peers_share_the_pieces_by_ping() {
    let mut download = Download::start(manifest().data, &vec![1_000, 3_000]).unwrap();
    assert_eq!(download.next_piece(0), Some(0));
    assert_eq!(download.next_piece(1), Some(2));
    assert_eq!(download.next_piece(0), Some(1));
    assert_eq!(download.next_piece(0), None);
    assert_eq!(download.next_piece(1), None);
    assert_eq!(download.next_piece(2), None);
    assert_eq!(
        statuses(&download),
        vec![PieceDownloadStatus::Downloading; 3]
    );
    assert_eq!(
        download.piece_ids(),
        vec!["x-id:0".to_string(), "x-id:1".to_string(), "x-id:2".to_string()]
    );
}

#[test]
fn a_corrupted_piece_is_fetched_from_the_other_peer() {
    let mut download = Download::start(manifest().data, &vec![1_000, 3_000]).unwrap();
    assert_eq!(download.next_piece(0), Some(0));
    assert!(matches!(download.piece_received(0, &frame(0)), Received::Staged { .. }));
    assert_eq!(download.next_piece(0), Some(1));
    let mut corrupted = frame(1);
    corrupted.content[5] ^= 0xff;
    assert!(matches!(
        download.piece_received(0, &corrupted),
        Received::Rerouted { session: 1 }
    ));
    assert_eq!(
        statuses(&download),
        vec![
            PieceDownloadStatus::Downloaded,
            PieceDownloadStatus::NotDownloaded,
            PieceDownloadStatus::NotDownloaded
        ]
    );
    assert_eq!(download.next_piece(0), None);
    assert_eq!(download.next_piece(1), Some(1));
    assert!(matches!(download.piece_received(1, &frame(1)), Received::Staged { .. }));
    assert_eq!(download.next_piece(1), Some(2));
    assert!(matches!(download.piece_received(1, &frame(2)), Received::Staged { .. }));
    assert!(download.is_complete());
}

#[test]
fn a_piece_that_every_peer_fails_to_deliver_is_unavailable() {
    let mut download = Download::start(manifest().data, &vec![1_000, 3_000]).unwrap();
    assert_eq!(download.next_piece(1), Some(2));
    assert!(matches!(download.piece_failed(1, 2), Received::Rerouted { session: 0 }));
    assert_eq!(download.next_piece(0), Some(0));
    assert_eq!(download.next_piece(0), Some(1));
    assert_eq!(download.next_piece(0), Some(2));
    let mut corrupted = frame(2);
    corrupted.content.push(0);
    assert_eq!(download.poll(), Ok(false));
    assert!(matches!(download.piece_received(0, &corrupted), Received::Unavailable));
    assert_eq!(download.poll(), Err(RfsError::PieceUnavailable));
    assert!(!download.is_complete());
    assert_eq!(download.next_piece(0), None);
    assert_eq!(download.next_piece(1), None);
    let store = FileManager::new(FSConfig::default());
    assert_eq!(download.finish(&store).err(), Some(RfsError::PieceUnavailable));
}

#[test]
fn reports_for_pieces_not_asked_for_are_ignored() {
    let mut download = Download::start(manifest().data, &vec![1_000, 3_000]).unwrap();
    assert!(matches!(download.piece_received(0, &frame(0)), Received::Ignored));
    assert_eq!(download.next_piece(0), Some(0));
    assert!(matches!(download.piece_received(1, &frame(0)), Received::Ignored));
    assert!(matches!(download.piece_received(0, &frame(1)), Received::Ignored));
    assert!(matches!(download.piece_received(0, &frame(7)), Received::Ignored));
    let mut other_file = frame(0);
    other_file.file_id = "y-id".to_string();
    assert!(matches!(download.piece_received(0, &other_file), Received::Ignored));
    assert!(matches!(download.piece_failed(0, 1), Received::Ignored));
    assert!(matches!(download.piece_failed(5, 0), Received::Ignored));
    assert!(matches!(download.piece_received(0, &frame(0)), Received::Staged { .. }));
    assert!(matches!(download.piece_received(0, &frame(0)), Received::Ignored));
}

#[test]
fn the_pieces_of_a_lost_session_go_to_the_others() {
    let pings = vec![1_000, 3_000, PING_UNUSABLE];
    let mut download = Download::start(manifest().data, &pings).unwrap();
    assert_eq!(download.next_piece(0), Some(0));
    assert!(matches!(download.piece_received(0, &frame(0)), Received::Staged { .. }));
    assert_eq!(download.next_piece(0), Some(1));
    assert_eq!(download.session_failed(0), Ok(()));
    assert_eq!(download.next_piece(0), None);
    assert_eq!(download.next_piece(1), Some(1));
    assert_eq!(download.next_piece(1), Some(2));
    assert_eq!(download.session_failed(7), Ok(()));
    assert_eq!(download.session_failed(1), Err(RfsError::PieceUnavailable));
    assert_eq!(
        statuses(&download),
        vec![
            PieceDownloadStatus::Downloaded,
            PieceDownloadStatus::NotDownloaded,
            PieceDownloadStatus::NotDownloaded
        ]
    );
    assert_eq!(download.next_piece(2), None);
}

#[test]
fn no_download_without_a_reachable_peer_or_a_manifest() {
    let mut store = FileManager::new(FSConfig::new(None, "/home/b".to_string()));
    store.add_file(manifest()).unwrap();
    assert_eq!(store.download_file("nope", &vec![5]).err(), Some(RfsError::UnknownFile));
    assert_eq!(
        store.download_file("x-id", &vec![PING_UNUSABLE]).err(),
        Some(RfsError::NoReachablePeers)
    );
    assert_eq!(store.download_file("x-id", &vec![]).err(), Some(RfsError::NoReachablePeers));
    assert_eq!(store.get_file("x-id").unwrap().status, None);
    assert_eq!(
        Download::start(manifest().data, &vec![]).err(),
        Some(RfsError::NoReachablePeers)
    );
}

#[test]
fn an_empty_file_is_complete_at_once() {
    let empty = build_manifest("e".to_string(), "h".to_string(), "e.bin".to_string(), b"");
    let store = FileManager::new(FSConfig::new(None, "/home/b".to_string()));
    let mut download = Download::start(empty.data, &vec![10]).unwrap();
    assert!(download.is_complete());
    assert_eq!(download.next_piece(0), None);
    let plan = download.finish(&store).unwrap();
    assert!(plan.parts.is_empty());
    assert!(download.progress().pieces.is_empty());
}
