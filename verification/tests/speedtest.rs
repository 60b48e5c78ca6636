use relay::speedtest::{speedtest_buffer, speedtest_chunk, SPEEDTEST_CHUNK};

#[test]
fn the_stream_is_made_in_pieces_of_64_kibibytes() {
    let buffer = speedtest_buffer();
    assert_eq!(SPEEDTEST_CHUNK, 64 * 1024);
    assert_eq!(buffer.len(), 64 * 1024);
    assert!(buffer.iter().all(|b| *b == 0));
}

#[test]
fn each_piece_is_new_and_is_what_is_left_in_the_room() {
    let mut buffer = speedtest_buffer();
    let first = speedtest_chunk(&mut buffer);
    assert_eq!(first.len(), 64 * 1024);
    assert_eq!(&first[..], &buffer[..]);
    assert!(first.iter().any(|b| *b != 0));
    let second = speedtest_chunk(&mut buffer);
    assert_eq!(&second[..], &buffer[..]);
    assert!(first != second);
}

#[test]
fn a_piece_is_as_long_as_the_room() {
    let mut none: Vec<u8> = Vec::new();
    assert!(speedtest_chunk(&mut none).is_empty());
    let mut some: Vec<u8> = vec![0; 3];
    assert_eq!(speedtest_chunk(&mut some).len(), 3);
}
