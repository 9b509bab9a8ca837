use areq::error::{Error, IoErrorKind, ParseError, Version};
use areq::handler::{ChunkRead, Handler, Step, BUFFER_LIMIT};
use areq::head::RequestHead;
use areq::parser::Parser;
use areq::response_scan::RawHead;
use areq::strategy::{ReadStrategy, Strategy};
use bytes::Bytes;
use http::{HeaderMap, HeaderName, HeaderValue};

struct Parts {
    parts: Vec<Vec<u8>>,
    at: usize,
    off: usize,
}

fn parts(reads: &[&[u8]]) -> Parts {
    Parts { parts: reads.iter().map(|r| r.to_vec()).collect(), at: 0, off: 0 }
}

fn parts_of(reads: &[&str]) -> Parts {
    Parts { parts: reads.iter().map(|r| r.as_bytes().to_vec()).collect(), at: 0, off: 0 }
}

impl Parts {
    fn read(&mut self, buf: &mut [u8]) -> usize {
        while self.at < self.parts.len() && self.off == self.parts[self.at].len() {
            self.at += 1;
            self.off = 0;
        }
        if self.at == self.parts.len() {
            return 0;
        }
        let part = &self.parts[self.at][self.off..];
        let n = usize::min(part.len(), buf.len());
        buf[..n].copy_from_slice(&part[..n]);
        self.off += n;
        n
    }
}

fn read_to_buf(h: &mut Handler, src: &mut Parts) -> Result<(), Error> {
    h.begin_read()?;
    let n = src.read(h.read_target());
    h.end_read(n)
}

fn read_until(h: &mut Handler, src: &mut Parts, sep: &[u8]) -> Result<Bytes, Error> {
    let mut cursor = 0;
    loop {
        match h.read_until(sep, &mut cursor) {
            Step::Ready(bytes) => return Ok(bytes),
            Step::NeedRead => read_to_buf(h, src)?,
        }
    }
}

fn read_header(h: &mut Handler, src: &mut Parts) -> Result<Bytes, Error> {
    let mut cursor = 0;
    loop {
        match h.read_header(&mut cursor) {
            Step::Ready(bytes) => return Ok(bytes),
            Step::NeedRead => read_to_buf(h, src)?,
        }
    }
}

fn pull_body(h: &mut Handler, src: &mut Parts, remaining: &mut usize) -> Result<Bytes, Error> {
    loop {
        match h.read_body(remaining) {
            Step::Ready(bytes) => return Ok(bytes),
            Step::NeedRead => read_to_buf(h, src)?,
        }
    }
}

fn read_chunk(h: &mut Handler, src: &mut Parts) -> Result<Bytes, Error> {
    let mut state = ChunkRead::SizeLine { cursor: 0 };
    loop {
        match h.read_chunk(&mut state)? {
            Step::Ready(bytes) => return Ok(bytes),
            Step::NeedRead => read_to_buf(h, src)?,
        }
    }
}

fn handler() -> Handler {
    Handler::new(ReadStrategy::default())
}

const RESPONSE: &[u8] = b"\
    HTTP/1.1 200 OK\r\n\
    date: mon, 27 jul 2009 12:28:53 gmt\r\n\
    last-modified: wed, 22 jul 2009 19:15:56 gmt\r\n\
    accept-ranges: bytes\r\n\
    content-length: 4\r\n\
    vary: accept-encoding\r\n\
    content-type: text/plain\r\n\
    \r\n\
    body\
";

fn header() -> &'static [u8] {
    RESPONSE.strip_suffix(b"body").expect("strip body")
}

#[test]
fn read_head() -> Result<(), Error> {
    let mut h = handler();
    let mut src = parts(&[RESPONSE]);
    let head = read_header(&mut h, &mut src)?;
    assert_eq!(head, header());
    Ok(())
}

#[test]
fn parse_head() -> Result<(), Error> {
    let res = header();
    let head = Parser::new().parse_header(Bytes::copy_from_slice(res))?;
    assert_eq!(head.status, 200);
    assert_eq!(head.version, Version::Http11);

    let headers = [
        ("date", "mon, 27 jul 2009 12:28:53 gmt"),
        ("last-modified", "wed, 22 jul 2009 19:15:56 gmt"),
        ("accept-ranges", "bytes"),
        ("content-length", "4"),
        ("vary", "accept-encoding"),
        ("content-type", "text/plain"),
    ];

    let headers: HeaderMap = headers
        .into_iter()
        .map(|(name, value)| {
            (
                HeaderName::from_bytes(name.as_bytes()).expect("lowercased header name"),
                HeaderValue::from_static(value),
            )
        })
        .collect();

    assert_eq!(&head.headers, &headers);
    Ok(())
}

#[test]
fn parse_head_max_headers() -> Result<(), Error> {
    let mut parser = Parser::new();
    parser.set_max_headers(5);

    let res = header();
    let e = parser
        .parse_header(Bytes::copy_from_slice(res))
        .err()
        .expect("too many headers");

    assert!(matches!(e, Error::Parse(ParseError::TooManyHeaders)));

    let mut parser = Parser::new();
    parser.set_max_headers(6);

    let head = parser.parse_header(Bytes::copy_from_slice(res))?;
    assert_eq!(head.status, 200);
    assert_eq!(head.version, Version::Http11);
    Ok(())
}

#[test]
fn read_body() -> Result<(), Error> {
    const BODY: &[u8] = b"Hello, World!";

    let mut h = handler();
    let mut src = parts(&[BODY]);
    let mut remaining = BODY.len();
    let body = pull_body(&mut h, &mut src, &mut remaining)?;
    assert_eq!(body, BODY);
    assert_eq!(remaining, 0);
    Ok(())
}

#[test]
fn read_response() -> Result<(), Error> {
    let mut h = handler();
    let mut src = parts(&[RESPONSE]);
    let head = read_header(&mut h, &mut src)?;
    assert_eq!(head, header());

    let mut remaining = 4;
    let body = pull_body(&mut h, &mut src, &mut remaining)?;
    assert_eq!(body, b"body"[..]);
    assert_eq!(remaining, 0);
    assert_eq!(h.buffered_len(), 0);
    Ok(())
}

#[test]
fn read_partial() -> Result<(), Error> {
    let cases = [
        (&["_", "_", "A"][..], "A", "__A"),
        (&["_", "_", "A", "_"][..], "A", "__A"),
        (&["A", "B"][..], "AB", "AB"),
        (&["A", "B", "C"][..], "ABC", "ABC"),
        (&["___A", "B", "___"][..], "AB", "___AB"),
        (&["___A", "B", "C___"][..], "ABC", "___ABC"),
        (&["_", "__", "_A", "B", "C___"][..], "ABC", "____ABC"),
        (&["_", "__", "_A", "B", "C___"][..], "A", "____A"),
        (&["AA", "_BA_", "_A", "B", "C___"][..], "AB", "AA_BA__AB"),
    ];

    for (reads, until, actual) in cases {
        let mut src = parts_of(reads);
        let mut h = handler();
        let bytes = read_until(&mut h, &mut src, until.as_bytes())?;
        assert_eq!(bytes, actual);
    }

    Ok(())
}

#[test]
fn write_head() {
    const REQUEST: &[u8] = b"\
        GET /get HTTP/1.1\r\n\
        name: value\r\n\
        \r\n\
    ";

    let mut headers = HeaderMap::new();
    headers.append("name", HeaderValue::from_static("value"));
    let req = RequestHead {
        method: b"GET".to_vec(),
        target: b"/get".to_vec(),
        version: Version::Http11,
        headers,
    };

    let mut h = handler();
    let write = h.write_header(&req).to_vec();
    assert_eq!(write, REQUEST);
}

#[test]
fn write_head_empty_path() {
    const REQUEST: &[u8] = b"\
        GET / HTTP/1.1\r\n\
        \r\n\
    ";

    let req = RequestHead {
        method: b"GET".to_vec(),
        target: Vec::new(),
        version: Version::Http11,
        headers: HeaderMap::new(),
    };

    let mut h = handler();
    let write = h.write_header(&req).to_vec();
    assert_eq!(write, REQUEST);
}

#[test]
fn exact_read() -> Result<(), Error> {
    let mut h = Handler::with_strategy(Strategy::Exact(2));
    let mut src = parts(&[RESPONSE]);

    read_to_buf(&mut h, &mut src)?;
    assert_eq!(h.read_strategy().next(), 2);
    assert_eq!(h.buffered_len(), 2);
    Ok(())
}

#[test]
fn adaptive_read() -> Result<(), Error> {
    let mut h = Handler::with_strategy(Strategy::Adaptive { next: 1, max: 10 });
    let mut src = parts(&[RESPONSE]);

    for n in [2, 4, 8, 10] {
        read_to_buf(&mut h, &mut src)?;
        assert_eq!(h.read_strategy().next(), n);
    }

    Ok(())
}

#[test]
fn write_head_walks_every_value() {
    let mut headers = HeaderMap::new();
    headers.append("a", HeaderValue::from_static("1"));
    headers.append("b", HeaderValue::from_static("2"));
    headers.append("a", HeaderValue::from_static("3"));
    let req = RequestHead {
        method: b"POST".to_vec(),
        target: b"/x?y=z".to_vec(),
        version: Version::Http11,
        headers,
    };
    let mut h = handler();
    let write = h.write_header(&req).to_vec();
    assert_eq!(write, b"POST /x?y=z HTTP/1.1\r\na: 1\r\na: 3\r\nb: 2\r\n\r\n");
}

#[test]
fn write_chunk_pieces() {
    let mut h = handler();
    let payload = [7u8; 26];
    let (size, body, tail) = h.write_chunk(&payload);
    assert_eq!(size, b"1A\r\n");
    assert_eq!(body, &payload[..]);
    assert_eq!(tail, b"\r\n");

    let (size, body, tail) = h.write_chunk(&[]);
    assert_eq!(size, b"0\r\n");
    assert!(body.is_empty());
    assert_eq!(tail, b"\r\n");
}

#[test]
fn read_chunk_cases() -> Result<(), Error> {
    let mut h = handler();
    let mut src = parts_of(&["5\r\nhel", "lo\r\n", "a", "\r\n0123456789\r\n0\r", "\n\r\n"]);
    assert_eq!(read_chunk(&mut h, &mut src)?, "hello");
    assert_eq!(read_chunk(&mut h, &mut src)?, "0123456789");
    assert!(read_chunk(&mut h, &mut src)?.is_empty());
    assert_eq!(h.buffered_len(), 0);
    Ok(())
}

#[test]
fn read_chunk_payload_may_hold_line_endings() -> Result<(), Error> {
    let mut h = handler();
    let mut src = parts_of(&["4\r\n\r\n\r\n\r\n"]);
    assert_eq!(read_chunk(&mut h, &mut src)?, "\r\n\r\n");
    Ok(())
}

#[test]
fn read_chunk_refuses_malformed() {
    for wire in ["x\r\n", "zz\r\n", "\r\n", "5;ext\r\nhello\r\n", "ffffffffffffffffff\r\n", "-1\r\n"] {
        let mut h = handler();
        let mut src = parts_of(&[wire]);
        let e = read_chunk(&mut h, &mut src).err().expect("malformed chunk size");
        assert_eq!(e, Error::Parse(ParseError::ChunkSize), "{wire:?}");
    }

    let mut h = handler();
    let mut src = parts(&[b"\xff\xfe\r\n"]);
    let e = read_chunk(&mut h, &mut src).err().expect("malformed chunk size");
    assert_eq!(e, Error::Parse(ParseError::ChunkSize));

    for wire in ["3\r\nabcXY", "0\r\n\n\r"] {
        let mut h = handler();
        let mut src = parts_of(&[wire]);
        let e = read_chunk(&mut h, &mut src).err().expect("payload without line ending");
        assert_eq!(e, Error::Io(IoErrorKind::InvalidInput), "{wire:?}");
    }
}

#[test]
fn read_chunk_size_that_does_not_leave_room_for_the_line_ending() {
    let wire = format!("{:x}\r\n", usize::MAX);
    let mut h = handler();
    let mut src = parts_of(&[&wire]);
    let e = read_chunk(&mut h, &mut src).err().expect("oversized chunk");
    assert_eq!(e, Error::Parse(ParseError::ChunkSize));
}

#[test]
fn read_until_end_of_stream() {
    let mut h = handler();
    let mut src = parts_of(&["no delimiter here"]);
    let e = read_until(&mut h, &mut src, b"\r\n").err().expect("end of stream");
    assert_eq!(e, Error::Io(IoErrorKind::UnexpectedEof));
}

#[test]
fn read_without_room_is_too_large() {
    let mut h = Handler::with_strategy(Strategy::Exact(0));
    assert_eq!(h.begin_read(), Err(Error::TooLargeInput));

    let mut h = Handler::with_strategy(Strategy::Exact(usize::MAX));
    assert_eq!(h.begin_read(), Ok(()));
    assert_eq!(h.read_target().len(), BUFFER_LIMIT);
    assert_eq!(h.buffer_limit(), BUFFER_LIMIT);
}

#[test]
fn stream_without_delimiter_is_too_large_at_the_limit() {
    let mut h = Handler::with_limit(Strategy::Exact(4), 10);
    let mut src = parts_of(&["0123456789abcdef\r\n"]);
    let mut cursor = 0;
    let mut seen = vec![];
    let e = loop {
        match h.read_until(b"\r\n", &mut cursor) {
            Step::Ready(_) => unreachable!(),
            Step::NeedRead => {
                seen.push(h.buffered_len());
                if let Err(e) = read_to_buf(&mut h, &mut src) {
                    break e;
                }
            }
        }
    };
    assert_eq!(e, Error::TooLargeInput);
    assert_eq!(seen, vec![0, 4, 8, 10]);
    assert_eq!(h.buffered_len(), 10);
}

#[test]
fn delimiter_within_the_limit_is_found() -> Result<(), Error> {
    let mut h = Handler::with_limit(Strategy::Exact(4), 10);
    let mut src = parts_of(&["01234567\r\nrest"]);
    assert_eq!(read_until(&mut h, &mut src, b"\r\n")?, "01234567\r\n");
    assert_eq!(h.buffered_len(), 0);

    // what was handed out makes room again
    assert_eq!(read_until(&mut h, &mut src, b"t")?, "rest");
    Ok(())
}

#[test]
fn chunk_beyond_the_limit_is_too_large() {
    let mut h = Handler::with_limit(Strategy::Exact(64), 8);
    let mut src = parts_of(&["a\r\n0123456789\r\n"]);
    assert_eq!(read_chunk(&mut h, &mut src).err(), Some(Error::TooLargeInput));

    let mut h = Handler::with_limit(Strategy::Exact(64), usize::MAX);
    assert_eq!(h.buffer_limit(), isize::MAX as usize);
}

#[test]
fn read_body_counts_down() -> Result<(), Error> {
    let mut h = Handler::with_strategy(Strategy::Exact(4));
    let mut src = parts_of(&["0123456789"]);
    let mut remaining = 6;
    assert_eq!(pull_body(&mut h, &mut src, &mut remaining)?, "0123");
    assert_eq!(remaining, 2);
    assert_eq!(pull_body(&mut h, &mut src, &mut remaining)?, "45");
    assert_eq!(remaining, 0);
    assert!(pull_body(&mut h, &mut src, &mut remaining)?.is_empty());
    assert_eq!(h.buffered_len(), 2);
    Ok(())
}

#[test]
fn spare_room_is_zeroed_and_kept() -> Result<(), Error> {
    let mut h = Handler::with_strategy(Strategy::Exact(8));
    h.begin_read()?;
    assert_eq!(h.read_target(), &[0u8; 8][..]);
    h.read_target()[..3].copy_from_slice(b"abc");
    h.end_read(3)?;
    assert_eq!(h.buffered_len(), 3);
    assert_eq!(h.read_target().len(), 5);
    h.begin_read()?;
    assert_eq!(h.read_target(), &[0u8; 8][..]);
    Ok(())
}

#[test]
fn parse_head_refusals() {
    let cases: [(&[u8], Error); 6] = [
        (b"HTTP/1.0 200 OK\r\n\r\n", Error::UnsupportedVersion(Version::Http10)),
        (b"HTTP/2.0 200 OK\r\n\r\n", Error::Parse(ParseError::Version)),
        (b"HTTP/1.1 2x0 OK\r\n\r\n", Error::Parse(ParseError::Status)),
        (b"HTTP/1.1 099 OK\r\n\r\n", Error::Parse(ParseError::Status)),
        (b"HTTP/1.1 200 OK\r\nna me: v\r\n\r\n", Error::Parse(ParseError::HeaderName)),
        (b"HTTP/1.1 200 OK\r\n", Error::Parse(ParseError::Incomplete)),
    ];
    for (block, expected) in cases {
        let e = Parser::new().parse_header(Bytes::copy_from_slice(block)).err();
        assert_eq!(e, Some(expected), "{:?}", String::from_utf8_lossy(block));
    }
}

#[test]
fn parse_head_beyond_the_head_is_incomplete() {
    let e = Parser::new()
        .parse_header(Bytes::from_static(b"HTTP/1.1 200 OK\r\n\r\nbody"))
        .err();
    assert_eq!(e, Some(Error::Parse(ParseError::Incomplete)));
}

#[test]
fn parse_head_keeps_repeated_names_in_order() -> Result<(), Error> {
    let head = Parser::new().parse_header(Bytes::from_static(
        b"HTTP/1.1 204 No Content\r\nSet-Cookie: a\r\nX: y\r\nset-cookie: b\r\n\r\n",
    ))?;
    assert_eq!(head.status, 204);
    let all: Vec<(&str, &[u8])> =
        head.headers.iter().map(|(n, v)| (n.as_str(), v.as_bytes())).collect();
    assert_eq!(
        all,
        vec![("set-cookie", &b"a"[..]), ("set-cookie", &b"b"[..]), ("x", &b"y"[..])],
    );
    Ok(())
}

#[test]
fn parse_head_scan_failures() {
    let cases: [(&[u8], ParseError); 3] = [
        (b"HTTP/1.1 200 OK\r\na: b\0c\r\n\r\n", ParseError::HeaderValue),
        (b"\rHTTP/1.1 200 OK\r\n\r\n", ParseError::NewLine),
        (b"HTTP/1.1 200 OK\r\n\0: b\r\n\r\n", ParseError::HeaderName),
    ];
    for (block, expected) in cases {
        let e = Parser::new().parse_header(Bytes::copy_from_slice(block)).err();
        assert_eq!(e, Some(Error::Parse(expected)), "{:?}", String::from_utf8_lossy(block));
    }
}

fn raw(version: Option<u8>, code: Option<u16>, fields: &[(&str, &str)]) -> RawHead {
    RawHead {
        len: 7,
        version,
        code,
        fields: fields
            .iter()
            .map(|(n, v)| (n.as_bytes().to_vec(), v.as_bytes().to_vec()))
            .collect(),
    }
}

#[test]
fn build_head_from_a_scan() {
    let head = Parser::build_head(Ok(Some(raw(Some(1), Some(404), &[("A-b", "c")]))), 7)
        .expect("a head");
    assert_eq!(head.status, 404);
    assert_eq!(head.version, Version::Http11);
    assert_eq!(head.headers.get("a-b"), Some(&HeaderValue::from_static("c")));

    let refused = |scan, len| Parser::build_head(scan, len).err();
    let ok = |r| Ok(Some(r));
    assert_eq!(
        refused(ok(raw(Some(9), Some(200), &[])), 7),
        Some(Error::UnsupportedVersion(Version::Http09)),
    );
    assert_eq!(
        refused(ok(raw(Some(0), Some(200), &[])), 7),
        Some(Error::UnsupportedVersion(Version::Http10)),
    );
    assert_eq!(refused(ok(raw(None, Some(200), &[])), 7), Some(Error::Parse(ParseError::Version)));
    assert_eq!(refused(ok(raw(Some(2), Some(200), &[])), 7), Some(Error::Parse(ParseError::Version)));
    assert_eq!(refused(ok(raw(Some(1), None, &[])), 7), Some(Error::Parse(ParseError::Status)));
    assert_eq!(refused(ok(raw(Some(1), Some(99), &[])), 7), Some(Error::Parse(ParseError::Status)));
    assert_eq!(refused(ok(raw(Some(1), Some(1000), &[])), 7), Some(Error::Parse(ParseError::Status)));
    assert_eq!(refused(ok(raw(Some(1), Some(999), &[])), 7), None);
    assert_eq!(refused(ok(raw(Some(1), Some(100), &[])), 7), None);
    assert_eq!(refused(ok(raw(Some(1), Some(200), &[])), 8), Some(Error::Parse(ParseError::Incomplete)));
    assert_eq!(refused(Ok(None), 7), Some(Error::Parse(ParseError::Incomplete)));
    assert_eq!(
        refused(ok(raw(Some(1), Some(200), &[("a", "b"), ("", "c"), ("d", "\n")])), 7),
        Some(Error::Parse(ParseError::HeaderName)),
    );
    assert_eq!(
        refused(ok(raw(Some(1), Some(200), &[("a", "b"), ("c", "\u{7f}"), ("e f", "g")])), 7),
        Some(Error::Parse(ParseError::HeaderValue)),
    );
    let kinds = [
        ParseError::HeaderName,
        ParseError::HeaderValue,
        ParseError::NewLine,
        ParseError::Status,
        ParseError::Token,
        ParseError::TooManyHeaders,
        ParseError::Version,
    ];
    for kind in kinds {
        assert_eq!(refused(Err(kind), 7), Some(Error::Parse(kind)));
    }

    // a header map takes what it can hold, and no more
    let many: Vec<(String, String)> = (0..30000).map(|i| (format!("h{i}"), String::new())).collect();
    let many: Vec<(&str, &str)> = many.iter().map(|(n, v)| (n.as_str(), v.as_str())).collect();
    assert_eq!(
        refused(ok(raw(Some(1), Some(200), &many)), 7),
        Some(Error::Parse(ParseError::TooManyHeaders)),
    );
    assert_eq!(refused(ok(raw(Some(1), Some(200), &many[..4096])), 7), None);
    assert_eq!(refused(ok(raw(Some(1), Some(200), &many[..4097])), 7), None);
}

#[test]
fn parse_head_with_many_headers() -> Result<(), Error> {
    let mut block = b"HTTP/1.1 200 OK\r\n".to_vec();
    for i in 0..4500 {
        block.extend_from_slice(format!("h{i}: {i}\r\n").as_bytes());
    }
    block.extend_from_slice(b"\r\n");

    let mut parser = Parser::new();
    parser.set_max_headers(5000);
    let head = parser.parse_header(Bytes::from(block.clone()))?;
    assert_eq!(head.headers.keys_len(), 4500);
    assert_eq!(head.headers.get("h4499"), Some(&HeaderValue::from_static("4499")));

    parser.set_max_headers(4499);
    let e = parser.parse_header(Bytes::from(block.clone())).err();
    assert_eq!(e, Some(Error::Parse(ParseError::TooManyHeaders)));

    parser.set_max_headers(usize::MAX);
    assert_eq!(parser.max_headers(), usize::MAX);
    let head = parser.parse_header(Bytes::from(block))?;
    assert_eq!(head.headers.keys_len(), 4500);
    Ok(())
}

#[test]
fn error_messages() {
    assert_eq!(Error::TooLargeInput.message(), ("too large input", ""));
    assert_eq!(Error::Closed.message(), ("connection closed", ""));
    assert_eq!(
        Error::Parse(ParseError::TooManyHeaders).message(),
        ("parse error: ", "too many headers"),
    );
    assert_eq!(
        Error::Io(IoErrorKind::UnexpectedEof).message(),
        ("io error: ", "unexpected end of file"),
    );
    assert_eq!(
        Error::UnsupportedVersion(Version::Http10).message(),
        ("unsupported http version: ", "HTTP/1.0"),
    );
}
