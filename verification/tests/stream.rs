use serde_bencode::stream::read::ReadBinaryStream;
use serde_bencode::stream::BinaryStream;
use serde_bencode::Error;

#[test]
fn peek_does_not_advance() {
    let stream = BinaryStream::new(b"ab");
    assert_eq!(stream.try_peek(), Ok(b'a'));
    assert_eq!(stream.try_peek(), Ok(b'a'));
}

#[test]
fn next_advances_by_one() {
    let mut stream = BinaryStream::new(b"ab");
    assert_eq!(stream.try_next(), Ok(b'a'));
    assert_eq!(stream.try_peek(), Ok(b'b'));
    assert_eq!(stream.try_next(), Ok(b'b'));
    assert_eq!(stream.try_peek(), Err(Error::Eof));
    assert_eq!(stream.try_next(), Err(Error::Eof));
}

#[test]
fn empty_stream_is_at_its_end() {
    let mut stream = BinaryStream::new(b"");
    assert_eq!(stream.try_peek(), Err(Error::Eof));
    assert_eq!(stream.try_next(), Err(Error::Eof));
    assert_eq!(stream.next(), None);
}

#[test]
fn next_as_option() {
    let mut stream = BinaryStream::new(b"xy");
    assert_eq!(stream.next(), Some(b'x'));
    assert_eq!(stream.next(), Some(b'y'));
    assert_eq!(stream.next(), None);
    assert_eq!(stream.next(), None);
}

#[test]
fn read_stream_peek_and_next() {
    let mut stream = ReadBinaryStream::new(b"ab");
    assert_eq!(stream.try_peek(), Ok(b'a'));
    assert_eq!(stream.try_next(), Ok(b'a'));
    assert_eq!(stream.next(), Some(b'b'));
    assert_eq!(stream.try_peek(), Err(Error::Eof));
    assert_eq!(stream.try_next(), Err(Error::Eof));
    assert_eq!(stream.next(), None);
}

#[test]
fn take_hands_out_exactly_n_bytes() {
    let mut stream = ReadBinaryStream::new(b"hello world");
    assert_eq!(stream.try_take(5), Ok(&b"hello"[..]));
    assert_eq!(stream.try_next(), Ok(b' '));
    assert_eq!(stream.try_take(5), Ok(&b"world"[..]));
    assert_eq!(stream.try_take(0), Ok(&b""[..]));
    assert_eq!(stream.try_peek(), Err(Error::Eof));
}

#[test]
fn take_borrows_from_the_buffer() {
    let data = b"abcdef".to_vec();
    let mut stream = ReadBinaryStream::new(&data);
    let _ = stream.try_next();
    let run = stream.try_take(3).unwrap();
    assert_eq!(run.as_ptr(), data[1..].as_ptr());
    assert_eq!(run, b"bcd");
}

#[test]
fn take_too_many_fails_and_stays() {
    let mut stream = ReadBinaryStream::new(b"abc");
    assert_eq!(stream.try_take(4), Err(Error::Eof));
    assert_eq!(stream.try_take(usize::MAX), Err(Error::Eof));
    assert_eq!(stream.try_take(3), Ok(&b"abc"[..]));
    assert_eq!(stream.try_take(1), Err(Error::Eof));
}
