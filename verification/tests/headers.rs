use areq::headers::{
    has_chunked_encoding, insert_chunked_encoding, parse_content_len, remove_chunked_encoding,
    value_has_chunked, value_without_chunked, ContentLen,
};
use areq::header_map::{has_room, has_room_for};
use http::header::{self, HeaderName};
use http::{HeaderMap, HeaderValue};

fn headers(name: HeaderName, value: &'static str) -> HeaderMap {
    [(name, HeaderValue::from_static(value))]
        .into_iter()
        .collect()
}

#[test]
fn content_len_num() {
    let headers = headers(header::CONTENT_LENGTH, "10");
    assert_eq!(parse_content_len(&headers), ContentLen::Num(10));
}

#[test]
fn content_len_none() {
    let h = headers(HeaderName::from_static("foo"), "bar");
    assert_eq!(parse_content_len(&h), ContentLen::Missing);
}

#[test]
fn content_len_invalid() {
    let h = headers(header::CONTENT_LENGTH, "inv");
    assert_eq!(parse_content_len(&h), ContentLen::Invalid);
}

#[test]
fn has_none() {
    let h = headers(HeaderName::from_static("foo"), "bar");
    assert!(!has_chunked_encoding(&h));
}

#[test]
fn has_one() {
    let h = headers(header::TRANSFER_ENCODING, "chunked");
    assert!(has_chunked_encoding(&h));
}

#[test]
fn has_list() {
    let h = headers(header::TRANSFER_ENCODING, "bar, chunked , foo");
    assert!(has_chunked_encoding(&h));
}

#[test]
fn remove_none() {
    let mut h = headers(HeaderName::from_static("foo"), "bar");
    remove_chunked_encoding(&mut h);
    assert_eq!(h.len(), 1);
}

#[test]
fn remove_once() {
    let mut h = headers(header::TRANSFER_ENCODING, "chunked");
    remove_chunked_encoding(&mut h);
    assert!(h.is_empty());
}

#[test]
fn remove_twice() {
    let mut h = headers(header::TRANSFER_ENCODING, "chunked,chunked");
    remove_chunked_encoding(&mut h);
    assert!(h.is_empty());
}

#[test]
fn remove_list() {
    let mut h = headers(header::TRANSFER_ENCODING, "chunked,foo");
    remove_chunked_encoding(&mut h);
    assert_eq!(
        h.get(header::TRANSFER_ENCODING),
        Some(&HeaderValue::from_static("foo")),
    );
}

#[test]
fn remove_list_twice() {
    let mut h = headers(header::TRANSFER_ENCODING, "chunked ,foo, chunked");
    remove_chunked_encoding(&mut h);
    assert_eq!(
        h.get(header::TRANSFER_ENCODING),
        Some(&HeaderValue::from_static("foo")),
    );
}

#[test]
fn insert() {
    let mut h = headers(HeaderName::from_static("foo"), "bar");
    insert_chunked_encoding(&mut h);
    assert_eq!(h.len(), 2);
    assert_eq!(
        h.get(header::TRANSFER_ENCODING),
        Some(&HeaderValue::from_static("chunked")),
    );
}

#[test]
fn insert_none() {
    let mut h = headers(header::TRANSFER_ENCODING, "chunked");
    insert_chunked_encoding(&mut h);
    assert_eq!(h.len(), 1);
    assert_eq!(
        h.get(header::TRANSFER_ENCODING),
        Some(&HeaderValue::from_static("chunked")),
    );
}

#[test]
fn insert_list() {
    let mut h = headers(header::TRANSFER_ENCODING, "foo");
    insert_chunked_encoding(&mut h);
    assert_eq!(h.len(), 1);
    assert_eq!(
        h.get(header::TRANSFER_ENCODING),
        Some(&HeaderValue::from_static("foo,chunked")),
    );
}

#[test]
fn insert_blank_value() {
    let mut h = headers(header::TRANSFER_ENCODING, "  ");
    insert_chunked_encoding(&mut h);
    assert_eq!(
        h.get(header::TRANSFER_ENCODING),
        Some(&HeaderValue::from_static("chunked")),
    );
}

#[test]
fn content_len_plus_sign_and_overflow() {
    let h = headers(header::CONTENT_LENGTH, "+7");
    assert_eq!(parse_content_len(&h), ContentLen::Num(7));
    let h = headers(header::CONTENT_LENGTH, "99999999999999999999999999");
    assert_eq!(parse_content_len(&h), ContentLen::Invalid);
    let h = headers(header::CONTENT_LENGTH, "");
    assert_eq!(parse_content_len(&h), ContentLen::Invalid);
    let h = headers(header::CONTENT_LENGTH, "-1");
    assert_eq!(parse_content_len(&h), ContentLen::Invalid);
    let h = headers(header::CONTENT_LENGTH, " 1");
    assert_eq!(parse_content_len(&h), ContentLen::Invalid);
}

#[test]
fn content_len_reads_first_value_only() {
    let mut h = headers(header::CONTENT_LENGTH, "3");
    h.append(header::CONTENT_LENGTH, HeaderValue::from_static("inv"));
    assert_eq!(parse_content_len(&h), ContentLen::Num(3));
}

#[test]
fn remove_keeps_other_headers_in_walk_order() {
    let mut h = HeaderMap::new();
    h.insert(header::TRANSFER_ENCODING, HeaderValue::from_static("chunked"));
    h.insert(header::HOST, HeaderValue::from_static("a"));
    h.insert(header::ACCEPT, HeaderValue::from_static("b"));
    remove_chunked_encoding(&mut h);
    let names: Vec<&str> = h.iter().map(|(n, _)| n.as_str()).collect();
    assert_eq!(names, vec!["accept", "host"]);
}

#[test]
fn remove_keeps_spacing_of_kept_parts() {
    let mut h = headers(header::TRANSFER_ENCODING, " gzip , chunked,br ");
    remove_chunked_encoding(&mut h);
    assert_eq!(
        h.get(header::TRANSFER_ENCODING),
        Some(&HeaderValue::from_static(" gzip ,br ")),
    );
}

#[test]
fn value_scans() {
    assert!(value_has_chunked(b"\tchunked\r\n"));
    assert!(!value_has_chunked(b"Chunked"));
    assert!(!value_has_chunked(b"chunk ed"));
    assert!(!value_has_chunked(b""));
    assert_eq!(value_without_chunked(b"chunked, chunked"), None);
    assert_eq!(value_without_chunked(b"a,,chunked"), Some(b"a,".to_vec()));
    assert_eq!(value_without_chunked(b""), Some(Vec::new()));
}

#[test]
fn room_for_more_names() {
    let mut h = HeaderMap::new();
    assert!(has_room(&h));
    assert!(has_room_for(&h, 4096));
    assert!(!has_room_for(&h, 4097));
    assert!(!has_room_for(&h, usize::MAX));
    for i in 0..4095 {
        let name = HeaderName::from_bytes(format!("h{i}").as_bytes()).expect("a name");
        h.append(name.clone(), HeaderValue::from_static("a"));
        h.append(name, HeaderValue::from_static("b"));
    }
    assert!(has_room(&h));
    assert!(has_room_for(&h, 1));
    assert!(!has_room_for(&h, 2));
    h.insert("last", HeaderValue::from_static("c"));
    assert!(!has_room(&h));
    assert!(has_room_for(&h, 0));
    insert_chunked_encoding(&mut h);
    assert!(has_chunked_encoding(&h));
}
