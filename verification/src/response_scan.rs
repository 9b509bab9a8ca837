//! What this library relies on from `httparse`: the scan of a response
//! head.

use vstd::prelude::*;
use ::httparse::{Error as Failure, Response, Status as Progress, EMPTY_HEADER};
use crate::error::ParseError;
use crate::error::ParseError::HeaderValue as FieldValue;
use crate::error::ParseError::{HeaderName, NewLine, Status, Token, TooManyHeaders, Version};

verus! {

/// The number of header slots a scan is given at most: no header map holds
/// more names.
pub const MAX_SLOTS: usize = 32768;

/// What a complete scan of a response head found.
pub struct RawHead {
    /// How many bytes of the block the head took.
    pub len: usize,
    /// The minor version on the status line.
    pub version: Option<u8>,
    /// The status code.
    pub code: Option<u16>,
    /// The header fields in their order, names as they were written.
    pub fields: Vec<(Vec<u8>, Vec<u8>)>,
}

/// A scanned head as plain values.
pub struct RawHeadView {
    pub len: usize,
    pub version: Option<u8>,
    pub code: Option<u16>,
    pub fields: Seq<(Seq<u8>, Seq<u8>)>,
}

impl View for RawHead {
    type V = RawHeadView;

    open spec fn view(&self) -> RawHeadView {
        RawHeadView {
            len: self.len,
            version: self.version,
            code: self.code,
            fields: Seq::new(self.fields@.len(), |i: int| (self.fields@[i].0@, self.fields@[i].1@)),
        }
    }
}

/// The outcome of a scan: a head, nothing yet because the block ends before
/// the head does, or the reason why the block is no head.
pub type Scan = Result<Option<RawHead>, ParseError>;

/// The outcome of a scan as plain values.
pub type ScanView = Result<Option<RawHeadView>, ParseError>;

/// The plain values of a scan's outcome.
pub open spec fn scan_view(scan: Scan) -> ScanView {
    match scan {
        Ok(Some(raw)) => Ok(Some(raw@)),
        Ok(None) => Ok(None),
        Err(e) => Err(e),
    }
}

/// What `httparse` finds when it scans `block` as a response head with room
/// for `max_headers` header fields.
pub uninterp spec fn scanned_response(block: Seq<u8>, max_headers: usize) -> ScanView;

/// `httparse::Response::parse` over `max_headers` empty header slots: its
/// outcome, with the version, the code and the fields it kept when the scan
/// is complete, and the kind of its error when it failed.
#[verifier::external_body]
pub(crate) fn scan_response(block: &[u8], max_headers: usize) -> (scan: Scan)
    requires
        max_headers <= MAX_SLOTS,
    ensures
        scan_view(scan) == scanned_response(block@, max_headers),
{
    let mut slots = vec![EMPTY_HEADER; max_headers];
    let mut out = Response::new(&mut slots);
    match out.parse(block) {
        Ok(Progress::Complete(len)) => Ok(Some(RawHead { len, version: out.version, code: out.code, fields: out.headers.iter().map(|h| (h.name.into(), h.value.into())).collect() })),
        Ok(Progress::Partial) => Ok(None),
        Err(Failure::HeaderName) => Err(HeaderName),
        Err(Failure::HeaderValue) => Err(FieldValue),
        Err(Failure::NewLine) => Err(NewLine),
        Err(Failure::Status) => Err(Status),
        Err(Failure::Token) => Err(Token),
        Err(Failure::TooManyHeaders) => Err(TooManyHeaders),
        Err(Failure::Version) => Err(Version)
    }
}

} // verus!
