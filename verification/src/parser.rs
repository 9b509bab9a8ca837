//! The header parser: a scan of one header block by `httparse`, and the
//! typed head built from what the scan found.

use vstd::prelude::*;
use crate::error::{Error, ParseError, Version};
use crate::head::{ResponseHead, ResponseHeadView};
use crate::header_map::{
    appended, header_append, lemma_entry_index, header_entries, is_field_name, is_field_value, is_name_byte,
    is_value_byte, lower, Entry, MAX_ENTRIES,
};
use crate::init_bytes::{bytes_as_slice, bytes_contents};
use crate::response_scan::{
    scan_response, scan_view, scanned_response, Scan, ScanView, MAX_SLOTS,
};

verus! {

/// The header map that holds the given fields, added one after the other.
pub open spec fn collected(fs: Seq<(Seq<u8>, Seq<u8>)>) -> Seq<Entry>
    decreases fs.len(),
{
    if fs.len() == 0 {
        seq![]
    } else {
        appended(collected(fs.drop_last()), lower(fs.last().0), fs.last().1)
    }
}

/// The index of the first field that a header map does not take: its name
/// is no field name or its value no field value.
pub open spec fn first_bad_field(fs: Seq<(Seq<u8>, Seq<u8>)>) -> Option<int>
    decreases fs.len(),
{
    if fs.len() == 0 {
        None
    } else if first_bad_field(fs.drop_last()) is Some {
        first_bad_field(fs.drop_last())
    } else if !is_field_name(fs.last().0) || !is_field_value(fs.last().1) {
        Some(fs.len() - 1)
    } else {
        None
    }
}

/// The version that a minor version number stands for, or the error that
/// refuses it: only HTTP/1.1 is spoken.
pub open spec fn version_of(minor: Option<u8>) -> Result<Version, Error> {
    match minor {
        Some(9) => Err(Error::UnsupportedVersion(Version::Http09)),
        Some(0) => Err(Error::UnsupportedVersion(Version::Http10)),
        Some(1) => Ok(Version::Http11),
        _ => Err(Error::Parse(ParseError::Version)),
    }
}

/// The head with the given status and version and the given fields, as far
/// as a header map takes them all.
pub open spec fn head_with_fields(
    status: u16,
    version: Version,
    fs: Seq<(Seq<u8>, Seq<u8>)>,
) -> Result<ResponseHeadView, Error> {
    match first_bad_field(fs) {
        Some(i) => if !is_field_name(fs[i].0) {
            Err(Error::Parse(ParseError::HeaderName))
        } else {
            Err(Error::Parse(ParseError::HeaderValue))
        },
        None => Ok(ResponseHeadView { status, version, entries: collected(fs) }),
    }
}

/// The typed head that a scan of a block of `block_len` bytes stands for.
///
/// A scan that failed is a parse error of the same kind. A scan that is not
/// complete, or complete before the block's end, is `Incomplete`. Then the
/// version decides, then the status code, which is from 100 to 999, then
/// the fields, each with a field name and a field value.
pub open spec fn head_of(scan: ScanView, block_len: int) -> Result<ResponseHeadView, Error> {
    match scan {
        Err(kind) => Err(Error::Parse(kind)),
        Ok(None) => Err(Error::Parse(ParseError::Incomplete)),
        Ok(Some(raw)) => if raw.len != block_len {
            Err(Error::Parse(ParseError::Incomplete))
        } else {
            match version_of(raw.version) {
                Err(e) => Err(e),
                Ok(version) => {
                    let code = raw.code.unwrap_or(0);
                    if !(100 <= code < 1000) {
                        Err(Error::Parse(ParseError::Status))
                    } else {
                        head_with_fields(code, version, raw.fields)
                    }
                },
            }
        },
    }
}

/// Whether a result is the one that the plain values describe.
pub open spec fn same_head(r: Result<ResponseHead, Error>, v: Result<ResponseHeadView, Error>) -> bool {
    match r {
        Ok(head) => v == Ok::<ResponseHeadView, Error>(head@),
        Err(e) => v == Err::<ResponseHeadView, Error>(e),
    }
}

/// The scan found more fields than a header map is sure to take.
pub open spec fn many_fields(scan: ScanView) -> bool {
    match scan {
        Ok(Some(raw)) => raw.fields.len() > MAX_ENTRIES,
        _ => false,
    }
}

/// Whether a result is the one that the plain values describe, or, where
/// `many` fields were found, the refusal of a header map that took no more
/// of them.
pub open spec fn built_head(
    r: Result<ResponseHead, Error>,
    v: Result<ResponseHeadView, Error>,
    many: bool,
) -> bool {
    same_head(r, v) || (many && r == Err::<ResponseHead, Error>(
        Error::Parse(ParseError::TooManyHeaders),
    ))
}

/// The parser of response heads, which keeps at most `max_headers` header
/// fields.
#[derive(Clone, Copy, Debug)]
pub struct Parser {
    max_headers: usize,
}

/// The number of header fields a parser keeps unless told otherwise.
pub const DEFAULT_MAX_HEADERS: usize = 150;

/// Tells whether `s` is a field name.
pub fn check_field_name(s: &[u8]) -> (ok: bool)
    ensures
        ok == is_field_name(s@),
{
    if s.len() < 1 || s.len() > 65535 {
        return false;
    }
    let mut i: usize = 0;
    while i < s.len()
        invariant
            i <= s@.len(),
            forall|j: int| 0 <= j < i ==> is_name_byte(#[trigger] s@[j]),
        decreases s.len() - i,
    {
        let b = s[i];
        let ok = (48 <= b && b <= 57) || (65 <= b && b <= 90) || (94 <= b && b <= 122) || b == 33
            || (35 <= b && b <= 39) || b == 42 || b == 43 || b == 45 || b == 46 || b == 124 || b
            == 126;
        if !ok {
            assert(!is_name_byte(s@[i as int]));
            return false;
        }
        i = i + 1;
    }
    true
}

/// Tells whether `s` is a field value.
pub fn check_field_value(s: &[u8]) -> (ok: bool)
    ensures
        ok == is_field_value(s@),
{
    let mut i: usize = 0;
    while i < s.len()
        invariant
            i <= s@.len(),
            forall|j: int| 0 <= j < i ==> is_value_byte(#[trigger] s@[j]),
        decreases s.len() - i,
    {
        let b = s[i];
        if !((b >= 32 && b != 127) || b == 9) {
            assert(!is_value_byte(s@[i as int]));
            return false;
        }
        i = i + 1;
    }
    true
}

impl Parser {
    /// The number of header fields this parser keeps.
    pub closed spec fn limit(&self) -> usize {
        self.max_headers
    }

    /// The number of header slots a scan is given: the parser's limit, and
    /// no more than [`MAX_SLOTS`].
    pub open spec fn slots(&self) -> usize {
        if self.limit() <= MAX_SLOTS {
            self.limit()
        } else {
            MAX_SLOTS
        }
    }

    pub fn new() -> (p: Self)
        ensures
            p.limit() == DEFAULT_MAX_HEADERS,
    {
        Parser { max_headers: DEFAULT_MAX_HEADERS }
    }

    pub fn set_max_headers(&mut self, n: usize)
        ensures
            final(self).limit() == n,
    {
        self.max_headers = n;
    }

    /// The number of header fields this parser keeps.
    pub fn max_headers(&self) -> (n: usize)
        ensures
            n == self.limit(),
    {
        self.max_headers
    }

    /// Builds the typed head that a scan of a block of `block_len` bytes
    /// stands for: see [`head_of`]. Of more than [`MAX_ENTRIES`] fields the
    /// header map may refuse one, which is a parse error for too many
    /// headers.
    pub fn build_head(scan: Scan, block_len: usize) -> (r: Result<ResponseHead, Error>)
        ensures
            built_head(
                r,
                head_of(scan_view(scan), block_len as int),
                many_fields(scan_view(scan)),
            ),
    {
        let raw = match scan {
            Err(kind) => {
                return Err(Error::Parse(kind));
            },
            Ok(None) => {
                return Err(Error::Parse(ParseError::Incomplete));
            },
            Ok(Some(raw)) => raw,
        };
        if raw.len != block_len {
            return Err(Error::Parse(ParseError::Incomplete));
        }
        let version = match raw.version {
            Some(9) => {
                return Err(Error::UnsupportedVersion(Version::Http09));
            },
            Some(0) => {
                return Err(Error::UnsupportedVersion(Version::Http10));
            },
            Some(1) => Version::Http11,
            _ => {
                return Err(Error::Parse(ParseError::Version));
            },
        };
        let code: u16 = match raw.code {
            Some(c) => c,
            None => 0,
        };
        if code < 100 || code >= 1000 {
            return Err(Error::Parse(ParseError::Status));
        }
        let ghost fs = raw@.fields;
        let mut headers = ::http::HeaderMap::new();
        let mut k: usize = 0;
        assert(fs.take(0) =~= Seq::<(Seq<u8>, Seq<u8>)>::empty());
        while k < raw.fields.len()
            invariant
                k <= raw.fields@.len(),
                fs == raw@.fields,
                many_fields(scan_view(scan)) == (raw.fields@.len() > MAX_ENTRIES),
                head_of(scan_view(scan), block_len as int) == head_with_fields(code, version, fs),
                first_bad_field(fs.take(k as int)) is None,
                header_entries(headers) == collected(fs.take(k as int)),
                header_entries(headers).len() <= k,
            decreases raw.fields.len() - k,
        {
            let ghost before = fs.take(k as int);
            let ghost after = fs.take(k + 1);
            assert(after.drop_last() =~= before);
            assert(after.last() == fs[k as int]);
            let name_ok = check_field_name(raw.fields[k].0.as_slice());
            let value_ok = check_field_value(raw.fields[k].1.as_slice());
            if !name_ok || !value_ok {
                proof {
                    lemma_first_bad_field_prefix(fs, k as int);
                }
                if !name_ok {
                    return Err(Error::Parse(ParseError::HeaderName));
                } else {
                    return Err(Error::Parse(ParseError::HeaderValue));
                }
            }
            proof {
                lemma_entry_index(header_entries(headers), lower(fs[k as int].0));
            }
            if !header_append(
                &mut headers,
                raw.fields[k].0.as_slice(),
                raw.fields[k].1.as_slice(),
            ) {
                return Err(Error::Parse(ParseError::TooManyHeaders));
            }
            k = k + 1;
        }
        assert(fs.take(k as int) =~= fs);
        Ok(ResponseHead { status: code, version, headers })
    }

    /// Parses one header block, as [`read_header`](crate::handler::Handler::read_header)
    /// delimits it: the head that `httparse` scans in it, built by
    /// [`build_head`](Self::build_head).
    pub fn parse_header(&self, block: ::bytes::Bytes) -> (r: Result<ResponseHead, Error>)
        ensures
            built_head(
                r,
                head_of(
                    scanned_response(bytes_contents(block), self.slots()),
                    bytes_contents(block).len() as int,
                ),
                many_fields(scanned_response(bytes_contents(block), self.slots())),
            ),
    {
        let slots: usize = if self.max_headers <= MAX_SLOTS {
            self.max_headers
        } else {
            MAX_SLOTS
        };
        let bytes = bytes_as_slice(&block);
        let scan = scan_response(bytes, slots);
        Parser::build_head(scan, bytes.len())
    }
}

/// A field that is bad, with none bad before it, is the first bad field.
pub proof fn lemma_first_bad_field_prefix(fs: Seq<(Seq<u8>, Seq<u8>)>, k: int)
    requires
        0 <= k < fs.len(),
        first_bad_field(fs.take(k)) is None,
        !is_field_name(fs[k].0) || !is_field_value(fs[k].1),
    ensures
        first_bad_field(fs) == Some(k),
    decreases fs.len() - k,
{
    if k == fs.len() - 1 {
        assert(fs.drop_last() =~= fs.take(k));
    } else {
        assert(fs.drop_last().take(k) =~= fs.take(k));
        lemma_first_bad_field_prefix(fs.drop_last(), k);
    }
}

} // verus!
