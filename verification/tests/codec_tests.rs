use distributed_fs::error::RfsError;
use distributed_fs::peer::codec::{encode_frame, length_prefix, read_length, FrameReader};
use distributed_fs::values::DEFAULT_BUFFER_SIZE;

#[test]
fn lengths_are_big_endian() {
    assert_eq!(length_prefix(0), vec![0, 0, 0, 0, 0, 0, 0, 0]);
    assert_eq!(length_prefix(5), vec![0, 0, 0, 0, 0, 0, 0, 5]);
    assert_eq!(length_prefix(0x0102_0304_0506_0708), vec![1, 2, 3, 4, 5, 6, 7, 8]);
    assert_eq!(length_prefix(u64::MAX), vec![255; 8]);
    assert_eq!(read_length(&[0, 0, 0, 0, 0, 0, 1, 0]), Some(256));
    assert_eq!(read_length(&[0, 0, 0, 0, 0, 0, 1]), None);
    assert_eq!(read_length(&[]), None);
    assert_eq!(read_length(&[1, 2, 3, 4, 5, 6, 7, 8, 99]), Some(0x0102_0304_0506_0708));
    assert_eq!(read_length(&[255; 8]), Some(u64::MAX));
    for n in [0u64, 1, 255, 256, 65_535, 65_536, 1 << 40, u64::MAX - 1] {
        assert_eq!(length_prefix(n), n.to_be_bytes().to_vec());
        assert_eq!(read_length(&length_prefix(n)), Some(n));
    }
}

#[test]
fn a_frame_is_its_length_and_its_body() {
    assert_eq!(encode_frame(b"abc"), vec![0, 0, 0, 0, 0, 0, 0, 3, b'a', b'b', b'c']);
    assert_eq!(encode_frame(b""), vec![0; 8]);
}

#[test]
fn frames_come_out_in_the_order_they_went_in() {
    let bodies: Vec<Vec<u8>> = vec![b"first".to_vec(), vec![], b"third and last".to_vec()];
    let mut wire = Vec::new();
    for body in &bodies {
        wire.extend_from_slice(&encode_frame(body));
    }
    let mut reader = FrameReader::new(DEFAULT_BUFFER_SIZE);
    reader.feed(&wire);
    let mut out = Vec::new();
    while let Some(body) = reader.next_frame().unwrap() {
        out.push(body);
    }
    assert_eq!(out, bodies);
    assert_eq!(reader.at_end_of_stream(), Ok(()));
}

#[test]
fn a_frame_may_arrive_in_parts() {
    let wire = encode_frame(b"hello world");
    let mut reader = FrameReader::new(64);
    assert_eq!(reader.next_frame(), Ok(None));
    for byte in &wire[..wire.len() - 1] {
        reader.feed(&[*byte]);
        assert_eq!(reader.next_frame(), Ok(None));
    }
    assert_eq!(reader.at_end_of_stream(), Err(RfsError::PeerClosed));
    reader.feed(&wire[wire.len() - 1..]);
    assert_eq!(reader.next_frame(), Ok(Some(b"hello world".to_vec())));
    assert_eq!(reader.next_frame(), Ok(None));
    assert_eq!(reader.at_end_of_stream(), Ok(()));
}

#[test]
fn a_length_beyond_the_limit_is_refused() {
    let mut reader = FrameReader::new(4);
    reader.feed(&encode_frame(b"abcd"));
    assert_eq!(reader.next_frame(), Ok(Some(b"abcd".to_vec())));
    reader.feed(&encode_frame(b"abcde"));
    assert_eq!(reader.next_frame(), Err(RfsError::FrameTooLarge));
    assert_eq!(reader.next_frame(), Err(RfsError::FrameTooLarge));

    let mut wide = FrameReader::new(DEFAULT_BUFFER_SIZE);
    wide.feed(&length_prefix(65_536));
    assert_eq!(wide.next_frame(), Ok(None));
    let mut wide = FrameReader::new(DEFAULT_BUFFER_SIZE);
    wide.feed(&length_prefix(65_537));
    assert_eq!(wide.next_frame(), Err(RfsError::FrameTooLarge));
    let mut wide = FrameReader::new(DEFAULT_BUFFER_SIZE);
    wide.feed(&length_prefix(u64::MAX));
    assert_eq!(wide.next_frame(), Err(RfsError::FrameTooLarge));
}

#[test]
fn the_end_of_the_stream_closes_the_session() {
    let mut reader = FrameReader::new(64);
    assert_eq!(reader.next_frame_at_end(), Err(RfsError::PeerClosed));
    reader.feed(&encode_frame(b"whole"));
    reader.feed(&encode_frame(b"cut off")[..10]);
    assert_eq!(reader.next_frame_at_end(), Ok(b"whole".to_vec()));
    assert_eq!(reader.next_frame_at_end(), Err(RfsError::PeerClosed));
    assert_eq!(reader.next_frame_at_end(), Err(RfsError::PeerClosed));
    let mut narrow = FrameReader::new(2);
    narrow.feed(&encode_frame(b"abc"));
    assert_eq!(narrow.next_frame_at_end(), Err(RfsError::FrameTooLarge));
}
