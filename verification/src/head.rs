//! The head of a request and of a response, and the bytes of a request head
//! on the wire.

use vstd::prelude::*;
use crate::error::Version;
use crate::handler::crlf;
use crate::header_map::{fields, fields_view, header_entries, header_fields, Entry};

verus! {

/// The head of a request: what is sent before the body.
pub struct RequestHead {
    /// The method, as it is written on the request line.
    pub method: Vec<u8>,
    /// The request target; empty stands for `/`.
    pub target: Vec<u8>,
    pub version: Version,
    pub headers: ::http::HeaderMap,
}

/// The head of a response.
pub struct ResponseHead {
    /// The status code, from 100 to 999.
    pub status: u16,
    pub version: Version,
    pub headers: ::http::HeaderMap,
}

/// A response head as plain values.
pub struct ResponseHeadView {
    pub status: u16,
    pub version: Version,
    pub entries: Seq<Entry>,
}

impl View for ResponseHead {
    type V = ResponseHeadView;

    open spec fn view(&self) -> ResponseHeadView {
        ResponseHeadView {
            status: self.status,
            version: self.version,
            entries: header_entries(self.headers),
        }
    }
}

/// The end of a request line: a space, the protocol version, a line ending.
pub open spec fn request_line_end() -> Seq<u8> {
    seq![32u8, 72u8, 84u8, 84u8, 80u8, 47u8, 49u8, 46u8, 49u8, 13u8, 10u8]
}

/// The target as it is written: `/` in place of an empty one.
pub open spec fn written_target(target: Seq<u8>) -> Seq<u8> {
    if target.len() == 0 {
        seq![47u8]
    } else {
        target
    }
}

/// One header line: the name, a colon and a space, the value, a line ending.
pub open spec fn field_line(name: Seq<u8>, value: Seq<u8>) -> Seq<u8> {
    name + seq![58u8, 32u8] + value + crlf()
}

/// The header lines of the given fields, in their order.
pub open spec fn field_lines(fs: Seq<(Seq<u8>, Seq<u8>)>) -> Seq<u8>
    decreases fs.len(),
{
    if fs.len() == 0 {
        seq![]
    } else {
        field_lines(fs.drop_last()) + field_line(fs.last().0, fs.last().1)
    }
}

/// The bytes of a request head: the request line, one line for each field
/// of the header map in the map's order, and an empty line.
pub open spec fn head_bytes(method: Seq<u8>, target: Seq<u8>, entries: Seq<Entry>) -> Seq<u8> {
    method + seq![32u8] + written_target(target) + request_line_end() + field_lines(
        fields(entries),
    ) + crlf()
}

impl RequestHead {
    /// The bytes of this head on the wire.
    pub open spec fn wire(&self) -> Seq<u8> {
        head_bytes(self.method@, self.target@, header_entries(self.headers))
    }
}

/// Appends all of `src` to `buf`.
pub fn extend(buf: &mut Vec<u8>, src: &[u8])
    ensures
        final(buf)@ == old(buf)@ + src@,
{
    let mut i: usize = 0;
    while i < src.len()
        invariant
            i <= src@.len(),
            buf@ == old(buf)@ + src@.take(i as int),
        decreases src.len() - i,
    {
        buf.push(src[i]);
        assert(buf@ =~= old(buf)@ + src@.take(i + 1));
        i = i + 1;
    }
    assert(src@.take(i as int) =~= src@);
}

/// Appends the bytes of a request head to `buf`.
pub fn write_head(buf: &mut Vec<u8>, req: &RequestHead)
    ensures
        final(buf)@ == old(buf)@ + req.wire(),
{
    extend(buf, req.method.as_slice());
    buf.push(32);
    if req.target.len() == 0 {
        buf.push(47);
    } else {
        extend(buf, req.target.as_slice());
    }
    let line_end: [u8; 11] = [32, 72, 84, 84, 80, 47, 49, 46, 49, 13, 10];
    assert(line_end@ =~= request_line_end());
    extend(buf, line_end.as_slice());
    let ghost start = old(buf)@ + req.method@ + seq![32u8] + written_target(req.target@)
        + request_line_end();
    assert(buf@ =~= start);
    let fs = header_fields(&req.headers);
    let ghost all = fields(header_entries(req.headers));
    let mut k: usize = 0;
    assert(all.take(0) =~= Seq::<(Seq<u8>, Seq<u8>)>::empty());
    while k < fs.len()
        invariant
            k <= fs@.len(),
            fields_view(fs@) == all,
            buf@ == start + field_lines(all.take(k as int)),
        decreases fs.len() - k,
    {
        let ghost before = all.take(k as int);
        let ghost after = all.take(k + 1);
        assert(after.drop_last() =~= before);
        assert(after.last() == (fs@[k as int].0@, fs@[k as int].1@));
        let ghost base = buf@;
        extend(buf, fs[k].0.as_slice());
        buf.push(58);
        buf.push(32);
        extend(buf, fs[k].1.as_slice());
        buf.push(13);
        buf.push(10);
        assert(buf@ =~= base + field_line(fs@[k as int].0@, fs@[k as int].1@));
        assert(buf@ =~= start + field_lines(after));
        k = k + 1;
    }
    assert(all.take(k as int) =~= all);
    buf.push(13);
    buf.push(10);
    assert(buf@ =~= old(buf)@ + req.wire());
}

} // verus!
