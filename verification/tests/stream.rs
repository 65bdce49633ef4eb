use elo_touch::stream::{ByteRead, ByteStream};

#[test]
fn from_bytes_delivers_every_byte() {
    let mut stream = ByteStream::from_bytes(&[1, 2, 3]);
    assert_eq!(stream.read_next_byte(), Some(ByteRead::Byte(1)));
    assert_eq!(stream.read_next_byte(), Some(ByteRead::Byte(2)));
    assert_eq!(stream.read_next_byte(), Some(ByteRead::Byte(3)));
    assert_eq!(stream.read_next_byte(), None);
    assert_eq!(stream.read_next_byte(), None);
}

#[test]
fn read_next_byte_reports_failed_reads() {
    let mut stream = ByteStream::new(vec![ByteRead::Failed, ByteRead::Byte(9), ByteRead::Failed]);
    assert_eq!(stream.read_next_byte(), Some(ByteRead::Failed));
    assert_eq!(stream.read_next_byte(), Some(ByteRead::Byte(9)));
    assert_eq!(stream.read_next_byte(), Some(ByteRead::Failed));
    assert_eq!(stream.read_next_byte(), None);
}

#[test]
fn next_byte_passes_over_failed_reads() {
    let mut stream = ByteStream::new(vec![
        ByteRead::Failed,
        ByteRead::Failed,
        ByteRead::Byte(7),
        ByteRead::Failed,
        ByteRead::Byte(8),
    ]);
    assert_eq!(stream.next_byte(), Some(7));
    assert_eq!(stream.read_next_byte(), Some(ByteRead::Failed));
    assert_eq!(stream.next_byte(), Some(8));
    assert_eq!(stream.next_byte(), None);
}

#[test]
fn next_byte_reads_trailing_failures_to_the_end() {
    let mut stream = ByteStream::new(vec![ByteRead::Byte(7), ByteRead::Failed, ByteRead::Failed]);
    assert_eq!(stream.next_byte(), Some(7));
    assert_eq!(stream.next_byte(), None);
    assert_eq!(stream.read_next_byte(), None);
}

#[test]
fn empty_source_has_ended() {
    let mut stream = ByteStream::new(Vec::new());
    assert_eq!(stream.next_byte(), None);
    assert_eq!(stream.read_next_byte(), None);
}
