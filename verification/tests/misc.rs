use areq::addr::{default_port, port_is_default, port_of, scheme_security, InvalidUri};
use areq::client::Config;
use areq::error::{Error, IoErrorKind, ParseError, Version};
use areq::init_bytes::InitBytesMut;
use areq::io::Io;
use areq::negotiate::{Alt, Http1, Negotiate, Select};
use areq::scan::{find, matches_at};

#[test]
fn init_bytes_reserve_advance_split() {
    let mut b = InitBytesMut::new();
    assert!(b.is_empty());
    assert_eq!(b.len(), 0);
    assert_eq!(b.spare_capacity_len(), 0);

    b.reserve(4);
    assert_eq!(b.spare_capacity_len(), 4);
    assert_eq!(b.spare_capacity_mut(), &[0, 0, 0, 0]);
    b.spare_capacity_mut().copy_from_slice(b"abcd");
    b.advance(3);
    assert_eq!(b.len(), 3);
    assert!(!b.is_empty());
    assert_eq!(b.as_slice(), b"abc");
    assert_eq!(b.spare_capacity_mut(), b"d");

    b.reserve(1);
    assert_eq!(b.spare_capacity_mut(), &[0]);
    b.reserve(3);
    assert_eq!(b.spare_capacity_mut(), &[0, 0, 0]);
    assert_eq!(b.as_slice(), b"abc");

    b.as_mut()[0] = b'x';
    let head = b.split_to(2);
    assert_eq!(&head[..], b"xb");
    assert_eq!(b.as_slice(), b"c");
    assert_eq!(b.spare_capacity_len(), 3);

    b.advance(0);
    assert_eq!(b.len(), 1);
    let all = b.split_to(1);
    assert_eq!(&all[..], b"c");
    assert!(b.is_empty());
}

#[test]
fn delimiter_search() {
    assert_eq!(find(b"abcabc", b"bc", 0), Some(1));
    assert_eq!(find(b"abcabc", b"bc", 1), Some(1));
    assert_eq!(find(b"abcabc", b"bc", 2), Some(4));
    assert_eq!(find(b"abcabc", b"bc", 5), None);
    assert_eq!(find(b"abcabc", b"bc", 100), None);
    assert_eq!(find(b"ab", b"abc", 0), None);
    assert_eq!(find(b"aaab", b"aab", 0), Some(1));
    assert_eq!(find(b"", b"a", 0), None);
    assert!(matches_at(b"xyz", b"yz", 1));
    assert!(!matches_at(b"xyz", b"yz", 0));
}

#[test]
fn error_kinds() {
    assert_eq!(Error::invalid_input(), Error::Io(IoErrorKind::InvalidInput));
    assert_eq!(Error::unexpected_eof(), Error::Io(IoErrorKind::UnexpectedEof));
    assert_eq!(Error::invalid_input().try_into_io(), Ok(IoErrorKind::InvalidInput));
    assert_eq!(Error::Closed.try_into_io(), Err(Error::Closed));
    assert_eq!(Error::TooLargeInput.into_io(), IoErrorKind::Other);
    assert_eq!(
        Error::Parse(ParseError::Token).try_into_io(),
        Err(Error::Parse(ParseError::Token)),
    );
}

#[test]
fn ports_and_schemes() {
    assert_eq!(default_port(false), 80);
    assert_eq!(default_port(true), 443);
    assert_eq!(port_of(true, None), 443);
    assert_eq!(port_of(false, Some(8080)), 8080);
    assert!(port_is_default(false, 80));
    assert!(!port_is_default(true, 80));
    assert_eq!(scheme_security(b"http"), Ok(false));
    assert_eq!(scheme_security(b"https"), Ok(true));
    assert_eq!(scheme_security(b"ftp"), Err(InvalidUri::NonHttpScheme));
    assert_eq!(scheme_security(b"httpx"), Err(InvalidUri::NonHttpScheme));
    assert_eq!(scheme_security(b""), Err(InvalidUri::NonHttpScheme));
}

#[test]
fn io_adapter_holds_its_stream() {
    let io = Io::new(vec![1u8, 2]);
    assert_eq!(io.into_inner(), vec![1, 2]);
}

#[test]
fn negotiation_asks_the_first_first() {
    let one = || Http1 { conf: Config::default() };
    assert!(one().negotiate(b"http/1.1").is_some());
    assert!(one().negotiate(b"h2").is_none());
    assert!(one().negotiate(b"HTTP/1.1").is_none());

    let both = Select(one(), one());
    assert!(matches!(both.negotiate(b"http/1.1"), Some(Alt::Lhs { .. })));
    let both = Select(one(), one());
    assert!(both.negotiate(b"h3").is_none());
    assert!(matches!(Alt::<u8, u8>::lhs(1), Alt::Lhs { l: 1 }));
    assert!(matches!(Alt::<u8, u8>::rhs(2), Alt::Rhs { r: 2 }));
}

#[test]
fn names_in_words() {
    assert_eq!(InvalidUri::NoScheme.message(), "no scheme");
    assert_eq!(InvalidUri::NonHttpScheme.message(), "non http(s) scheme");
    assert_eq!(InvalidUri::InvalidHost.message(), "invalid host");
    assert_eq!(Version::Http09.name(), "HTTP/0.9");
    assert_eq!(Version::Http11.name(), "HTTP/1.1");
    assert_eq!(Version::Http2.name(), "HTTP/2.0");
    assert_eq!(Version::Http3.name(), "HTTP/3.0");
    assert_eq!(ParseError::Incomplete.message(), "incomplete head");
    assert_eq!(ParseError::ChunkSize.message(), "invalid chunk size");
    assert_eq!(IoErrorKind::InvalidInput.message(), "invalid input parameter");
    assert_eq!(IoErrorKind::Other.message(), "other error");
}
