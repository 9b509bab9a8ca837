use areq::client::{Config, Connection, Flow, Next, ReadBodyState};
use areq::error::Error;
use areq::handler::{ChunkRead, Handler, Step};
use areq::headers::{
    has_chunked_encoding, insert_chunked_encoding, parse_content_len, remove_chunked_encoding,
    ContentLen,
};
use areq::number::{parse_unsigned, write_unsigned};
use areq::strategy::{ReadStrategy, Strategy, INIT_BUFFER_LEN, MAX_BUFFER_LEN};
use http::{HeaderMap, HeaderValue};

/// Cuts `stream` into reads of the given sizes, the last size repeating.
fn cut(stream: &[u8], sizes: &[usize]) -> Vec<Vec<u8>> {
    let mut out = vec![];
    let mut at = 0;
    let mut i = 0;
    while at < stream.len() {
        let n = usize::min(sizes[usize::min(i, sizes.len() - 1)], stream.len() - at);
        out.push(stream[at..at + n].to_vec());
        at += n;
        i += 1;
    }
    out
}

fn feed(conn: &mut Connection, reads: &mut Vec<Vec<u8>>) -> Result<(), Error> {
    if reads.is_empty() {
        conn.begin_read()?;
        return conn.end_read(0);
    }
    let part = reads.remove(0);
    let mut at = 0;
    while at < part.len() {
        conn.begin_read()?;
        let room = conn.read_target();
        let n = usize::min(room.len(), part.len() - at);
        room[..n].copy_from_slice(&part[at..at + n]);
        conn.end_read(n)?;
        at += n;
    }
    Ok(())
}

fn frames(mut reads: Vec<Vec<u8>>, mut state: ReadBodyState) -> Vec<Next> {
    let mut conn = Config::default().handshake();
    let mut out = vec![];
    loop {
        let next = loop {
            match conn.read_frame(&mut state) {
                Step::Ready(next) => break next,
                Step::NeedRead => {
                    if let Err(e) = feed(&mut conn, &mut reads) {
                        break Next::failed(e);
                    }
                }
            }
        };
        let flow = next.follow(Flow::Deliver, true);
        out.push(next);
        if flow == Flow::Done {
            return out;
        }
    }
}

const CUTS: [&[usize]; 6] = [&[1], &[2], &[3, 1, 4], &[7], &[1, 100], &[1000]];

#[test]
fn delimited_read_is_the_same_for_every_cut() {
    let stream = b"HTTP/1.1 200 OK\r\na: b\r\n\rx\n\r\n\r\nrest\r\n\r\n";
    let expected = b"HTTP/1.1 200 OK\r\na: b\r\n\rx\n\r\n\r\n";
    for sizes in CUTS {
        let mut reads = cut(stream, sizes);
        let mut h = Handler::new(ReadStrategy::default());
        let mut cursor = 0;
        let got = loop {
            match h.read_until(b"\r\n\r\n", &mut cursor) {
                Step::Ready(bytes) => break bytes,
                Step::NeedRead => {
                    let part = reads.remove(0);
                    h.begin_read().expect("room");
                    h.read_target()[..part.len()].copy_from_slice(&part);
                    h.end_read(part.len()).expect("bytes");
                }
            }
        };
        assert_eq!(&got[..], &expected[..], "{sizes:?}");
    }
}

#[test]
fn adaptive_sizes_double_up_to_the_cap() {
    let mut s = ReadStrategy::default().state();
    for k in 0..8u32 {
        let expected = usize::min(INIT_BUFFER_LEN << k, MAX_BUFFER_LEN);
        assert_eq!(s.next(), expected);
        let before = s;
        s.record(s.next() - 1);
        assert_eq!(s, before);
        s.record(s.next());
    }
    assert_eq!(s.next(), MAX_BUFFER_LEN);

    let mut s = ReadStrategy::Adaptive { max: 20000 }.state();
    s.record(usize::MAX);
    assert_eq!(s.next(), 16384);
    s.record(16384);
    assert_eq!(s.next(), 20000);
    s.record(20000);
    assert_eq!(s.next(), 20000);

    let mut s = Strategy::Adaptive { next: usize::MAX - 1, max: usize::MAX };
    s.record(usize::MAX);
    assert_eq!(s.next(), usize::MAX);

    let mut s = ReadStrategy::Exact(7).state();
    s.record(7);
    assert_eq!(s.next(), 7);

    // the cap holds before the first read too
    for max in [0usize, 1, 10, 8191, 8192, 8193] {
        let mut s = ReadStrategy::Adaptive { max }.state();
        assert_eq!(s.next(), usize::min(INIT_BUFFER_LEN, max));
        s.record(s.next());
        assert_eq!(s.next(), usize::min(INIT_BUFFER_LEN * 2, max));
    }
    let s = Strategy::Adaptive { next: 20, max: 10 };
    assert_eq!(s.next(), 10);
}

#[test]
fn counted_body_delivers_exactly_its_length() {
    let stream: Vec<u8> = (0..=255u8).cycle().take(300).collect();
    for n in [0usize, 1, 10, 299, 300] {
        for sizes in CUTS {
            let all = frames(cut(&stream, sizes), ReadBodyState::Remaining(n));
            let last = all.last().expect("a last frame");
            assert!(last.end);
            assert_eq!(last.frame.as_ref().map(|b| b.len()), Ok(0));
            let mut got = vec![];
            for next in &all[..all.len() - 1] {
                let bytes = next.frame.as_ref().expect("bytes");
                assert!(!bytes.is_empty());
                assert!(!next.end);
                got.extend_from_slice(bytes);
            }
            assert_eq!(got, &stream[..n], "{n} {sizes:?}");
        }
    }
}

#[test]
fn chunked_body_delivers_its_chunks() {
    let chunks: [&[u8]; 4] = [b"a", b"\r\n0\r\n\r\n", &[b'x'; 300], b"1f\r\n"];
    let mut wire = vec![];
    let mut h = Handler::new(ReadStrategy::default());
    for chunk in chunks.iter().copied().chain([&[][..]]) {
        let (size, payload, tail) = h.write_chunk(chunk);
        wire.extend_from_slice(size);
        wire.extend_from_slice(payload);
        wire.extend_from_slice(tail);
    }
    wire.extend_from_slice(b"HTTP/1.1 200 OK\r\n");

    for sizes in CUTS {
        let state = ReadBodyState::Chunked(ChunkRead::SizeLine { cursor: 0 });
        let all = frames(cut(&wire, sizes), state);
        assert_eq!(all.len(), chunks.len() + 1, "{sizes:?}");
        for (next, chunk) in all.iter().zip(chunks) {
            assert_eq!(next.frame.as_ref().map(|b| &b[..]), Ok(chunk));
            assert!(!next.end);
        }
        let last = all.last().expect("a last frame");
        assert!(last.end);
        assert_eq!(last.frame.as_ref().map(|b| b.len()), Ok(0));
    }
}

#[test]
fn numbers_are_read_back() {
    for radix in [10usize, 16] {
        for n in [0usize, 1, 9, 10, 15, 16, 255, 256, 65535, usize::MAX - 1, usize::MAX] {
            let mut digits = vec![];
            write_unsigned(&mut digits, n, radix);
            assert_eq!(parse_unsigned(&digits, radix), Some(n));
        }
    }
    let mut digits = vec![];
    write_unsigned(&mut digits, 48879, 16);
    assert_eq!(digits, b"BEEF");
    let mut digits = b"x".to_vec();
    write_unsigned(&mut digits, 1000, 10);
    assert_eq!(digits, b"x1000");

    assert_eq!(parse_unsigned(b"beef", 16), Some(48879));
    assert_eq!(parse_unsigned(b"+BeEf", 16), Some(48879));
    assert_eq!(parse_unsigned(b"0010", 10), Some(10));
    assert_eq!(parse_unsigned(b"a", 10), None);
    assert_eq!(parse_unsigned(b"", 16), None);
    assert_eq!(parse_unsigned(b"+", 16), None);
    assert_eq!(parse_unsigned(b"++1", 16), None);
    assert_eq!(parse_unsigned(b"1 ", 16), None);
    assert_eq!(parse_unsigned(b"18446744073709551616", 10), None);
    assert_eq!(parse_unsigned(b"10000000000000000", 16), None);
}

#[test]
fn chunked_coding_is_there_after_insert_and_gone_after_remove() {
    for value in ["", " ", "gzip", "chunked", "gzip , chunked", "chunked,chunked", "a,b,c"] {
        let mut h = HeaderMap::new();
        h.insert("content-length", HeaderValue::from_static("12"));
        h.insert("transfer-encoding", HeaderValue::from_static(value));

        insert_chunked_encoding(&mut h);
        assert!(has_chunked_encoding(&h), "{value:?}");
        assert_eq!(parse_content_len(&h), ContentLen::Num(12));

        remove_chunked_encoding(&mut h);
        assert!(!has_chunked_encoding(&h), "{value:?}");
        assert_eq!(parse_content_len(&h), ContentLen::Num(12));
    }
}

#[test]
fn one_chunk_comes_out_whole_for_every_cut() {
    let wire = b"5\r\nhel\r\n\r\nREST 0\r\n\r\n";
    for sizes in CUTS {
        let mut reads = cut(wire, sizes);
        let mut h = Handler::new(ReadStrategy::default());
        let mut state = ChunkRead::SizeLine { cursor: 0 };
        let chunk = loop {
            match h.read_chunk(&mut state).expect("a chunk") {
                Step::Ready(bytes) => break bytes,
                Step::NeedRead => {
                    let part = reads.remove(0);
                    h.begin_read().expect("room");
                    h.read_target()[..part.len()].copy_from_slice(&part);
                    h.end_read(part.len()).expect("bytes");
                }
            }
        };
        assert_eq!(&chunk[..], b"hel\r\n", "{sizes:?}");
        assert_eq!(state, ChunkRead::SizeLine { cursor: 0 });

        // what follows the chunk stays, buffered or yet to be read
        let mut rest = vec![];
        let mut remaining = usize::MAX;
        if h.buffered_len() > 0 {
            if let Step::Ready(bytes) = h.read_body(&mut remaining) {
                rest.extend_from_slice(&bytes);
            }
        }
        rest.extend(reads.concat());
        assert_eq!(rest, b"REST 0\r\n\r\n", "{sizes:?}");
    }
}
