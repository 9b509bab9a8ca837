use areq::body::{take_full, Full, Hint, Kind, Polled, ReadOutcome, Reader};
use areq::error::{Error, IoErrorKind};
use bytes::Bytes;

/// Reads from the reader as a poll of it does: it asks the body for a
/// chunk when it has none, and copies what the chunk gives.
fn poll_read(reader: &mut Reader, body: &mut Vec<Polled>, buf: &mut [u8]) -> ReadOutcome {
    if reader.wants_chunk(buf.len()) {
        let polled = if body.is_empty() { Polled::Ended } else { body.remove(0) };
        if let Some(settled) = reader.accept(polled) {
            return settled;
        }
    }
    reader.read(buf)
}

fn read_some(reader: &mut Reader, body: &mut Vec<Polled>, buf: &mut [u8]) -> Result<usize, Error> {
    loop {
        match poll_read(reader, body, buf) {
            ReadOutcome::Read(n) => return Ok(n),
            ReadOutcome::Failed(e) => return Err(e),
            ReadOutcome::Pending | ReadOutcome::Again => {}
        }
    }
}

fn chunks(src: &[&'static str]) -> Vec<Polled> {
    src.iter().map(|s| Polled::Chunk(Bytes::from_static(s.as_bytes()))).collect()
}

#[test]
fn full() {
    let src = "hi";
    let mut full = Full::new(src.as_bytes());
    let size = Hint::Full { len: Some(2) };
    let actual = take_full(size, full.chunk().map(Ok)).expect("take full body");

    assert_eq!(actual.unwrap_or_default(), src.as_bytes());
    assert!(full.is_end());
    assert_eq!(full.chunk(), None);
}

#[test]
fn body_read() {
    let mut body = chunks(&["h", "e", "ll", "o"]);
    let mut reader = Reader::new();

    let mut out = vec![];
    loop {
        let mut buf = [0; 8];
        let n = read_some(&mut reader, &mut body, &mut buf).expect("read body");
        if n == 0 {
            break;
        }
        out.extend_from_slice(&buf[..n]);
    }
    assert_eq!(out.len(), 5);
    assert_eq!(out, b"hello");
}

#[test]
fn reader_partial() {
    let mut body = chunks(&["h", "e", "ll", "o"]);
    let mut reader = Reader::new();

    for (size, part) in [
        (1, b"h\0"),
        (1, b"e\0"),
        (2, b"ll"),
        (1, b"o\0"),
        (0, b"\0\0"),
    ] {
        let mut buf = [0; 2];
        let n = read_some(&mut reader, &mut body, &mut buf).expect("read body part to the buffer");
        assert_eq!(n, size);
        assert_eq!(&buf, part);
    }
}

#[test]
fn reader_copies_from_the_current_chunk_before_the_next() {
    let mut body = chunks(&["abcde", "fg"]);
    let mut reader = Reader::new();
    let mut buf = [0; 2];
    let mut parts = vec![];
    loop {
        let n = read_some(&mut reader, &mut body, &mut buf).expect("read");
        if n == 0 {
            break;
        }
        parts.push(buf[..n].to_vec());
    }
    assert_eq!(parts, vec![b"ab".to_vec(), b"cd".to_vec(), b"e".to_vec(), b"fg".to_vec()]);
}

#[test]
fn reader_skips_empty_chunks() {
    let mut body = chunks(&["", "a", "", "", "b"]);
    let mut reader = Reader::new();
    let mut buf = [0; 4];

    assert_eq!(poll_read(&mut reader, &mut body, &mut buf), ReadOutcome::Again);
    assert_eq!(poll_read(&mut reader, &mut body, &mut buf), ReadOutcome::Read(1));
    assert_eq!(poll_read(&mut reader, &mut body, &mut buf), ReadOutcome::Again);
    assert_eq!(poll_read(&mut reader, &mut body, &mut buf), ReadOutcome::Again);
    assert_eq!(poll_read(&mut reader, &mut body, &mut buf), ReadOutcome::Read(1));
    assert_eq!(&buf[..1], b"b");
    assert_eq!(poll_read(&mut reader, &mut body, &mut buf), ReadOutcome::Read(0));
    assert_eq!(poll_read(&mut reader, &mut body, &mut buf), ReadOutcome::Read(0));
}

#[test]
fn reader_settles_without_asking() {
    let mut reader = Reader::new();
    assert!(!reader.wants_chunk(0));
    assert_eq!(reader.read(&mut []), ReadOutcome::Read(0));
    assert!(reader.wants_chunk(1));

    assert_eq!(reader.accept(Polled::Pending), Some(ReadOutcome::Pending));
    let failure = Error::Io(IoErrorKind::Other);
    assert_eq!(reader.accept(Polled::Failed(failure)), Some(ReadOutcome::Failed(failure)));
    assert_eq!(reader.accept(Polled::Ended), Some(ReadOutcome::Read(0)));
    assert!(!reader.wants_chunk(1));
}

#[test]
fn hint_kinds() {
    assert!(Hint::Empty.is_empty());
    assert!(Hint::Full { len: None }.is_full());
    assert!(Hint::Chunked { end: false }.is_chunked());
    assert!(!Hint::Empty.is_full());
    assert!(!Hint::Full { len: Some(1) }.is_chunked());

    assert!(Hint::Empty.end());
    assert!(Hint::Full { len: Some(0) }.end());
    assert!(!Hint::Full { len: Some(3) }.end());
    assert!(!Hint::Full { len: None }.end());
    assert!(Hint::Chunked { end: true }.end());
    assert!(!Hint::Chunked { end: false }.end());

    assert_eq!(Hint::Empty.kind(), Kind::Empty);
    assert_eq!(Hint::Full { len: None }.kind(), Kind::Full);
    assert_eq!(Hint::Chunked { end: true }.kind(), Kind::Chunked);
}

#[test]
fn take_full_outcomes() {
    let size = Hint::Full { len: None };
    assert_eq!(take_full::<u8>(size, None), Ok(None));
    assert_eq!(take_full(size, Some(Ok(7u8))), Ok(Some(7)));
    assert_eq!(take_full::<u8>(size, Some(Err(Error::Closed))), Err(Error::Closed));
}

#[test]
fn hints_of_bodies() {
    assert_eq!(Hint::of_buffer(Some(5)), Hint::Full { len: Some(5) });
    assert_eq!(Hint::of_buffer(Some(0)), Hint::Full { len: Some(0) });
    assert_eq!(Hint::of_buffer(None), Hint::Full { len: Some(0) });
    assert!(Hint::of_buffer(None).end());
    assert_eq!(Hint::of_deferred(false), Hint::Full { len: None });
    assert_eq!(Hint::of_deferred(true), Hint::Full { len: Some(0) });
    assert!(!Hint::of_deferred(false).end());
    assert_eq!(Hint::of_stream(None), Hint::Chunked { end: false });
    assert_eq!(Hint::of_stream(Some(2)), Hint::Chunked { end: false });
    assert_eq!(Hint::of_stream(Some(0)), Hint::Chunked { end: true });
}
