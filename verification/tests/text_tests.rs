use distributed_fs::domain::config::FSConfig;
use distributed_fs::peer::connection::{staged_name, FilePieceResponseFrame};
use distributed_fs::text::{first_segment_of, join, last_segment_of, push_decimal, same_text};

#[test]
fn decimal_numerals() {
    for (n, text) in [
        (0u64, "0"),
        (7, "7"),
        (10, "10"),
        (109, "109"),
        (16_384, "16384"),
        (u64::MAX, "18446744073709551615"),
    ] {
        let mut out = String::from("p");
        push_decimal(&mut out, n);
        assert_eq!(out, format!("p{}", text));
    }
}

#[test]
fn staged_names_join_id_and_index() {
    assert_eq!(staged_name("abc", 12), "abc:12");
    assert_eq!(staged_name("", 0), ":0");
    let frame = FilePieceResponseFrame {
        file_id: "0155d08b-609b-45fa-804d-53456c2a863d".to_string(),
        piece: 68,
        content: vec![1, 2, 3],
    };
    assert_eq!(frame.get_piece_id(), "0155d08b-609b-45fa-804d-53456c2a863d:68");
}

#[test]
fn segments_of_a_path() {
    assert_eq!(last_segment_of("/a/b/c.txt", '/'), "c.txt");
    assert_eq!(last_segment_of("c.txt", '/'), "c.txt");
    assert_eq!(last_segment_of("/a/b/", '/'), "");
    assert_eq!(last_segment_of("", '/'), "");
    assert_eq!(last_segment_of("/dir/\u{e9}t\u{e9}.bin", '/'), "\u{e9}t\u{e9}.bin");
    assert_eq!(first_segment_of("name.tar.gz", '.'), "name");
    assert_eq!(first_segment_of("name", '.'), "name");
    assert_eq!(first_segment_of(".hidden", '.'), "");
    assert_eq!(first_segment_of("", '.'), "");
}

#[test]
fn joining_and_comparing() {
    assert_eq!(join("ab", "cd"), "abcd");
    assert_eq!(join("", ""), "");
    assert!(same_text("x", "x"));
    assert!(!same_text("x", "y"));
    assert!(!same_text("x", "xx"));
}

#[test]
fn layout_below_the_home_directory() {
    let config = FSConfig::new(None, "/home/u".to_string());
    assert_eq!(config.home_dir, "/home/u");
    assert_eq!(config.rfs_dir, "/home/u/.rfs");
    assert_eq!(config.metafiles_dir, "/home/u/.rfs/metafiles");
    assert_eq!(config.file_parts_dir, "/home/u/.rfs/file_parts");
    assert_eq!(config.files_dir, "/home/u/.rfs/files");

    let other = FSConfig::new(Some(".rfs_peer2".to_string()), String::new());
    assert_eq!(other.home_dir, "");
    assert_eq!(other.rfs_dir, "/.rfs_peer2");
    assert_eq!(other.files_dir, "/.rfs_peer2/files");

    let copy = config.clone();
    assert_eq!(copy.file_parts_dir, config.file_parts_dir);
    let empty = FSConfig::default();
    assert_eq!(empty.rfs_dir, "");
}
