use distributed_fs::domain::config::FSConfig;
use distributed_fs::domain::digest::{content_hash, hash_matches};
use distributed_fs::domain::files::{
    assemble_body, build_manifest, check_body_hash, check_piece_hash, check_piece_hashes,
    generate_meta_file, hash_pieces, is_metafile_path, read_piece, refresh_file_status,
    verify_all_pieces, verify_body, verify_piece, FileProbe, RFSFile,
};
use distributed_fs::domain::models::File;
use distributed_fs::error::RfsError;
use distributed_fs::peer::enums::FileStatus;
use distributed_fs::values::DEFAULT_PIECE_SIZE;

fn sample_body(len: usize) -> Vec<u8> {
    (0..len).map(|i| ((i * 7 + 3) % 251) as u8).collect()
}

fn small_manifest(body: &[u8], piece_size: u64) -> File {
    File {
        id: "f".to_string(),
        hash: content_hash(body),
        name: "small.bin".to_string(),
        length: body.len() as u64,
        peers: vec!["127.0.0.1:8001".to_string()],
        piece_size,
        hashes: hash_pieces(body, piece_size),
    }
}

#[test]
fn hash_of_known_inputs() {
    assert_eq!(content_hash(b""), "47DEQpj8HBSa+/TImW+5JCeuQeRkm5NMpJWZG3hSuFU=");
    assert_eq!(content_hash(b"abc"), "ungWv48Bz+pBQUDeXa4iI7ADYaOWF3qctBD/YfIAFa0=");
    assert!(hash_matches(b"abc", &"ungWv48Bz+pBQUDeXa4iI7ADYaOWF3qctBD/YfIAFa0=".to_string()));
    assert!(!hash_matches(b"abd", &"ungWv48Bz+pBQUDeXa4iI7ADYaOWF3qctBD/YfIAFa0=".to_string()));
}

#[test]
fn publishing_forty_thousand_bytes_gives_three_pieces() {
    let body = sample_body(40_000);
    let file = generate_meta_file("127.0.0.1:8001".to_string(), "/data/in/x.bin", &body);
    assert_eq!(file.data.name, "x.bin");
    assert_eq!(file.data.length, 40_000);
    assert_eq!(file.data.piece_size, 16_384);
    assert_eq!(file.data.peers, vec!["127.0.0.1:8001".to_string()]);
    assert_eq!(file.data.hash, "WcRRbIQS4ZNppKfnrhUB9V3JPkxbEArBGVQncHb+zyQ=");
    assert_eq!(
        file.data.hashes,
        vec![
            "kLg0ZmvZmASq1fDTEqiGL5GHLmNf1gY9Qv54fE4dhO4=".to_string(),
            "ZgLBkdbLU2L5H0TsQVY5Fe4ZhF336iGGsojOK3WR5QQ=".to_string(),
            "DzVxi8dx5zVM9YdmaWin8f+FedhIIBA3JyVO7qyCLuM=".to_string(),
        ]
    );
    assert_eq!(file.data.hashes[2], content_hash(&body[32_768..]));
    assert_eq!(body[32_768..].len(), 7_232);
    assert!(file.status.is_none());
}

#[test]
fn fresh_ids_are_hyphenated_and_differ() {
    let a = generate_meta_file("h".to_string(), "a.txt", b"a");
    let b = generate_meta_file("h".to_string(), "a.txt", b"a");
    assert_eq!(a.data.id.len(), 36);
    assert_eq!(a.data.id.matches('-').count(), 4);
    for (i, c) in a.data.id.chars().enumerate() {
        if i == 8 || i == 13 || i == 18 || i == 23 {
            assert_eq!(c, '-');
        } else {
            assert!(c.is_ascii_digit() || ('a'..='f').contains(&c));
        }
    }
    assert_eq!(a.data.id.chars().nth(14), Some('4'));
    assert_ne!(a.data.id, b.data.id);
}

#[test]
fn an_empty_body_has_no_piece() {
    let file = build_manifest("id".to_string(), "h".to_string(), "e".to_string(), b"");
    assert_eq!(file.data.length, 0);
    assert!(file.data.hashes.is_empty());
    assert_eq!(file.data.hash, "47DEQpj8HBSa+/TImW+5JCeuQeRkm5NMpJWZG3hSuFU=");
    assert_eq!(verify_all_pieces(b"", &file.data), Ok(()));
    assert_eq!(verify_body(b"", &file.data), Ok(()));
}

#[test]
fn a_body_of_whole_pieces_ends_in_a_full_piece() {
    let body: Vec<u8> = (0..32_768usize).map(|i| (i % 256) as u8).collect();
    let file = build_manifest("id".to_string(), "h".to_string(), "w".to_string(), &body);
    assert_eq!(file.data.hashes.len(), 2);
    assert_eq!(read_piece(&body, DEFAULT_PIECE_SIZE, 1).len(), 16_384);
    assert_eq!(file.data.hashes[1], "ofJZ1DZe1DIMN3zib1yMVtzcmonntkG/2Oq/u+rIZlQ=");
    assert_eq!(file.data.hash, "4RNgJR0Rc2UM3NIPER2PHKLkEvVy6LNqTcBnEhwXmbg=");
}

#[test]
fn pieces_put_together_are_the_body() {
    let body = sample_body(40_000);
    let mut rebuilt = Vec::new();
    for i in 0..3 {
        rebuilt.extend_from_slice(&read_piece(&body, DEFAULT_PIECE_SIZE, i));
    }
    assert_eq!(rebuilt, body);
    assert_eq!(read_piece(&body, DEFAULT_PIECE_SIZE, 2).len(), 40_000 % 16_384);
    assert!(read_piece(&body, DEFAULT_PIECE_SIZE, 3).is_empty());
    assert!(read_piece(&body, DEFAULT_PIECE_SIZE, u64::MAX).is_empty());
}

#[test]
fn small_pieces_are_cut_at_multiples_of_the_piece_size() {
    let body: Vec<u8> = (0..10u8).collect();
    assert_eq!(read_piece(&body, 4, 0), vec![0, 1, 2, 3]);
    assert_eq!(read_piece(&body, 4, 1), vec![4, 5, 6, 7]);
    assert_eq!(read_piece(&body, 4, 2), vec![8, 9]);
    assert_eq!(
        hash_pieces(&body, 4),
        vec![
            "BU7ewdAhH2JP7Qy8qdT5QAsOSRxDdCryxbCr6/DJkNg=".to_string(),
            "xtRM9Bj2EOP+nh2SlP9D3vgcbNytbLsYIM/0jTqkNV0=".to_string(),
            "c5B1iRAafoq4MXjn2ymXqrcnLNAtNk6OPswr7M2ktjE=".to_string(),
        ]
    );
}

#[test]
fn a_built_manifest_verifies_against_its_body() {
    let body = sample_body(40_000);
    let file = generate_meta_file("h".to_string(), "x.bin", &body);
    assert_eq!(verify_all_pieces(&body, &file.data), Ok(()));
    assert_eq!(verify_body(&body, &file.data), Ok(()));
    for i in 0..3u64 {
        let piece = read_piece(&body, DEFAULT_PIECE_SIZE, i);
        assert_eq!(verify_piece(&file.data, i, &piece), Ok(()));
    }
}

#[test]
fn a_changed_byte_is_a_hash_mismatch() {
    let body = sample_body(40_000);
    let file = generate_meta_file("h".to_string(), "x.bin", &body);
    let mut bad = body.clone();
    bad[20_000] ^= 1;
    assert_eq!(verify_all_pieces(&bad, &file.data), Err(RfsError::PieceHashMismatch));
    assert_eq!(verify_body(&bad, &file.data), Err(RfsError::PieceHashMismatch));
    let piece = read_piece(&bad, DEFAULT_PIECE_SIZE, 1);
    assert_eq!(verify_piece(&file.data, 1, &piece), Err(RfsError::PieceHashMismatch));
    let good = read_piece(&body, DEFAULT_PIECE_SIZE, 1);
    assert_eq!(verify_piece(&file.data, 0, &good), Err(RfsError::PieceHashMismatch));
    assert_eq!(verify_piece(&file.data, 3, &good), Err(RfsError::PieceHashMismatch));
}

#[test]
fn a_shorter_or_longer_body_does_not_verify() {
    let body = sample_body(100);
    let file = small_manifest(&body, 40);
    assert_eq!(verify_all_pieces(&body, &file), Ok(()));
    assert_eq!(verify_all_pieces(&body[..80], &file), Err(RfsError::PieceHashMismatch));
    assert_eq!(verify_body(&body[..99], &file), Err(RfsError::PieceHashMismatch));
    let mut zero = small_manifest(&body, 40);
    zero.piece_size = 0;
    assert_eq!(verify_all_pieces(&body, &zero), Err(RfsError::PieceHashMismatch));
}

#[test]
fn status_follows_what_is_on_disk() {
    let body = sample_body(100);
    let data = small_manifest(&body, 40);
    let mut file = RFSFile { data, status: None };

    refresh_file_status(&mut file, &FileProbe::Failed);
    assert_eq!(file.status, None);
    refresh_file_status(&mut file, &FileProbe::Missing);
    assert_eq!(file.status, Some(FileStatus::NotDownloaded));
    refresh_file_status(&mut file, &FileProbe::Found(body.clone()));
    assert_eq!(file.status, Some(FileStatus::Downloaded));
    refresh_file_status(&mut file, &FileProbe::Failed);
    assert_eq!(file.status, Some(FileStatus::Downloaded));
    refresh_file_status(&mut file, &FileProbe::Found(body[..50].to_vec()));
    assert_eq!(file.status, Some(FileStatus::NotDownloaded));

    file.data.length = 7;
    refresh_file_status(&mut file, &FileProbe::Found(body.clone()));
    assert_eq!(file.status, Some(FileStatus::Downloaded));
    assert_eq!(file.data.length, 7);
    file.data.length = 100;

    file.status = Some(FileStatus::Downloading);
    refresh_file_status(&mut file, &FileProbe::Missing);
    assert_eq!(file.status, Some(FileStatus::Downloading));
    refresh_file_status(&mut file, &FileProbe::Found(vec![1, 2, 3]));
    assert_eq!(file.status, Some(FileStatus::Downloading));
    refresh_file_status(&mut file, &FileProbe::Found(body));
    assert_eq!(file.status, Some(FileStatus::Downloaded));
}

#[test]
fn paths_of_a_file() {
    let name = "photo.tar.gz".to_string();
    let file = build_manifest("id".to_string(), "h".to_string(), name, b"x");
    assert_eq!(file.get_path("/home/u/.rfs/files"), "/home/u/.rfs/files/photo.tar.gz");
    let config = FSConfig::new(None, "/home/u".to_string());
    assert_eq!(file.get_path(&config.files_dir), "/home/u/.rfs/files/photo.tar.gz");
    assert_eq!(file.metafile_path("/home/u/.rfs/metafiles"), "/home/u/.rfs/metafiles/photo.rfs");
    let plain = build_manifest("id".to_string(), "h".to_string(), "README".to_string(), b"x");
    assert_eq!(plain.metafile_path("m"), "m/README.rfs");
}

#[test]
fn manifests_are_told_by_their_extension() {
    assert!(is_metafile_path("/home/u/.rfs/metafiles/x.rfs"));
    assert!(is_metafile_path("rfs"));
    assert!(!is_metafile_path("/home/u/.rfs/metafiles/x.rfs.bak"));
    assert!(!is_metafile_path("/home/u/.rfs/metafiles/xrfs"));
    assert!(!is_metafile_path(""));
}

#[test]
fn a_copy_of_a_file_is_the_same_file() {
    let file = generate_meta_file("h".to_string(), "dir/x.bin", &sample_body(20_000));
    let copy = file.clone();
    assert_eq!(copy.data.id, file.data.id);
    assert_eq!(copy.data.hash, file.data.hash);
    assert_eq!(copy.data.name, file.data.name);
    assert_eq!(copy.data.length, file.data.length);
    assert_eq!(copy.data.peers, file.data.peers);
    assert_eq!(copy.data.piece_size, file.data.piece_size);
    assert_eq!(copy.data.hashes, file.data.hashes);
    assert_eq!(copy.status, file.status);
}

#[test]
fn hashes_are_checked_against_what_the_manifest_records() {
    let file = File {
        id: "f".to_string(),
        hash: "whole".to_string(),
        name: "n".to_string(),
        length: 9,
        peers: vec![],
        piece_size: 4,
        hashes: vec!["h0".to_string(), "h1".to_string(), "h2".to_string()],
    };
    assert_eq!(check_piece_hash(&file, 1, &"h1".to_string()), Ok(()));
    assert_eq!(check_piece_hash(&file, 1, &"h2".to_string()), Err(RfsError::PieceHashMismatch));
    assert_eq!(check_piece_hash(&file, 3, &"h2".to_string()), Err(RfsError::PieceHashMismatch));
    assert_eq!(check_body_hash(&file, 9, &"whole".to_string()), Ok(()));
    assert_eq!(check_body_hash(&file, 8, &"whole".to_string()), Err(RfsError::PieceHashMismatch));
    assert_eq!(check_body_hash(&file, 9, &"other".to_string()), Err(RfsError::PieceHashMismatch));
    let same = vec!["h0".to_string(), "h1".to_string(), "h2".to_string()];
    assert_eq!(check_piece_hashes(&file, &same), Ok(()));
    assert_eq!(check_piece_hashes(&file, &same[..2].to_vec()), Err(RfsError::PieceHashMismatch));
    let mut swapped = same.clone();
    swapped.swap(0, 1);
    assert_eq!(check_piece_hashes(&file, &swapped), Err(RfsError::PieceHashMismatch));
    assert!(hash_pieces(b"abc", 0).is_empty());
}

#[test]
fn pieces_are_assembled_in_the_order_of_the_list() {
    let parts = vec![vec![1, 2], vec![], vec![3], vec![4, 5, 6]];
    assert_eq!(assemble_body(&parts), vec![1, 2, 3, 4, 5, 6]);
    assert!(assemble_body(&vec![]).is_empty());
    assert!(assemble_body(&vec![vec![], vec![]]).is_empty());
    let body = sample_body(40_000);
    let pieces: Vec<Vec<u8>> = (0..3).map(|i| read_piece(&body, DEFAULT_PIECE_SIZE, i)).collect();
    assert_eq!(assemble_body(&pieces), body);
    let swapped = vec![pieces[1].clone(), pieces[0].clone(), pieces[2].clone()];
    assert_ne!(assemble_body(&swapped), body);
}
