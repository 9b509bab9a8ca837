//! The ways an exchange over one connection can fail.

use vstd::prelude::*;

verus! {

/// An HTTP protocol version.
#[derive(Clone, Copy, Debug, PartialEq, Eq, Structural)]
pub enum Version {
    Http09,
    Http10,
    Http11,
    Http2,
    Http3,
}

/// Why a header block could not be parsed.
#[derive(Clone, Copy, Debug, PartialEq, Eq, Structural)]
pub enum ParseError {
    /// Invalid byte in a header name.
    HeaderName,
    /// Invalid byte in a header value.
    HeaderValue,
    /// Invalid byte in a line ending.
    NewLine,
    /// Invalid byte in the status, or a status code outside `100..=999`.
    Status,
    /// Invalid byte where a token is required.
    Token,
    /// More headers than the parser was allowed to keep.
    TooManyHeaders,
    /// Invalid byte in the version, or a minor version that is not known.
    Version,
    /// The block ended before the head did, or went on after it.
    Incomplete,
    /// The size line of a chunk writes no length: it is no hexadecimal
    /// number, or one too large to count.
    ChunkSize,
}

/// The kind of an I/O failure.
#[derive(Clone, Copy, Debug, PartialEq, Eq, Structural)]
pub enum IoErrorKind {
    /// The peer sent something the wire format does not allow.
    InvalidInput,
    /// The stream ended in the middle of a message.
    UnexpectedEof,
    /// The stream itself failed.
    Other,
}

/// A failed exchange.
#[derive(Clone, Copy, Debug, PartialEq, Eq, Structural)]
pub enum Error {
    Io(IoErrorKind),
    Parse(ParseError),
    TooLargeInput,
    UnsupportedVersion(Version),
    Closed,
}

impl Version {
    /// The name of the version, as it stands on a status line.
    pub open spec fn spec_name(self) -> Seq<char> {
        match self {
            Version::Http09 => "HTTP/0.9"@,
            Version::Http10 => "HTTP/1.0"@,
            Version::Http11 => "HTTP/1.1"@,
            Version::Http2 => "HTTP/2.0"@,
            Version::Http3 => "HTTP/3.0"@,
        }
    }

    pub fn name(self) -> (s: &'static str)
        ensures
            s@ == self.spec_name(),
    {
        match self {
            Version::Http09 => "HTTP/0.9",
            Version::Http10 => "HTTP/1.0",
            Version::Http11 => "HTTP/1.1",
            Version::Http2 => "HTTP/2.0",
            Version::Http3 => "HTTP/3.0",
        }
    }
}

impl ParseError {
    /// What went wrong, in words.
    pub open spec fn spec_message(self) -> Seq<char> {
        match self {
            ParseError::HeaderName => "invalid header name"@,
            ParseError::HeaderValue => "invalid header value"@,
            ParseError::NewLine => "invalid new line"@,
            ParseError::Status => "invalid response status"@,
            ParseError::Token => "invalid token"@,
            ParseError::TooManyHeaders => "too many headers"@,
            ParseError::Version => "invalid HTTP version"@,
            ParseError::Incomplete => "incomplete head"@,
            ParseError::ChunkSize => "invalid chunk size"@,
        }
    }

    pub fn message(self) -> (s: &'static str)
        ensures
            s@ == self.spec_message(),
    {
        match self {
            ParseError::HeaderName => "invalid header name",
            ParseError::HeaderValue => "invalid header value",
            ParseError::NewLine => "invalid new line",
            ParseError::Status => "invalid response status",
            ParseError::Token => "invalid token",
            ParseError::TooManyHeaders => "too many headers",
            ParseError::Version => "invalid HTTP version",
            ParseError::Incomplete => "incomplete head",
            ParseError::ChunkSize => "invalid chunk size",
        }
    }
}

impl IoErrorKind {
    /// What went wrong, in words.
    pub open spec fn spec_message(self) -> Seq<char> {
        match self {
            IoErrorKind::InvalidInput => "invalid input parameter"@,
            IoErrorKind::UnexpectedEof => "unexpected end of file"@,
            IoErrorKind::Other => "other error"@,
        }
    }

    pub fn message(self) -> (s: &'static str)
        ensures
            s@ == self.spec_message(),
    {
        match self {
            IoErrorKind::InvalidInput => "invalid input parameter",
            IoErrorKind::UnexpectedEof => "unexpected end of file",
            IoErrorKind::Other => "other error",
        }
    }
}

impl Error {
    /// What the error says first, before what it holds.
    pub open spec fn spec_prefix(self) -> Seq<char> {
        match self {
            Error::Io(_) => "io error: "@,
            Error::Parse(_) => "parse error: "@,
            Error::TooLargeInput => "too large input"@,
            Error::UnsupportedVersion(_) => "unsupported http version: "@,
            Error::Closed => "connection closed"@,
        }
    }

    /// What the error says of what it holds.
    pub open spec fn spec_detail(self) -> Seq<char> {
        match self {
            Error::Io(k) => k.spec_message(),
            Error::Parse(e) => e.spec_message(),
            Error::UnsupportedVersion(v) => v.spec_name(),
            _ => Seq::<char>::empty(),
        }
    }

    /// The two parts of the error's message: what it says first, and what
    /// it says of what it holds. The message is the one behind the other.
    pub fn message(self) -> (parts: (&'static str, &'static str))
        ensures
            parts.0@ == self.spec_prefix(),
            parts.1@ == self.spec_detail(),
    {
        match self {
            Error::Io(k) => ("io error: ", k.message()),
            Error::Parse(e) => ("parse error: ", e.message()),
            Error::TooLargeInput => {
                proof {
                    reveal_strlit("");
                }
                assert(""@ =~= Seq::<char>::empty());
                ("too large input", "")
            },
            Error::UnsupportedVersion(v) => ("unsupported http version: ", v.name()),
            Error::Closed => {
                proof {
                    reveal_strlit("");
                }
                assert(""@ =~= Seq::<char>::empty());
                ("connection closed", "")
            },
        }
    }

    pub open spec fn invalid_input_spec() -> Self {
        Error::Io(IoErrorKind::InvalidInput)
    }

    pub open spec fn unexpected_eof_spec() -> Self {
        Error::Io(IoErrorKind::UnexpectedEof)
    }

    #[verifier::when_used_as_spec(invalid_input_spec)]
    pub fn invalid_input() -> (e: Self)
        ensures
            e == Error::Io(IoErrorKind::InvalidInput),
    {
        Error::Io(IoErrorKind::InvalidInput)
    }

    #[verifier::when_used_as_spec(unexpected_eof_spec)]
    pub fn unexpected_eof() -> (e: Self)
        ensures
            e == Error::Io(IoErrorKind::UnexpectedEof),
    {
        Error::Io(IoErrorKind::UnexpectedEof)
    }

    /// The I/O failure inside, or the error itself when it is of another
    /// kind.
    pub fn try_into_io(self) -> (r: Result<IoErrorKind, Self>)
        ensures
            r == match self {
                Error::Io(k) => Ok::<IoErrorKind, Error>(k),
                e => Err(e),
            },
    {
        match self {
            Error::Io(k) => Ok(k),
            e => Err(e),
        }
    }

    /// The I/O failure that stands for this error: its own kind when it is
    /// one, `Other` for every other error.
    pub open spec fn spec_into_io(self) -> IoErrorKind {
        match self {
            Error::Io(k) => k,
            _ => IoErrorKind::Other,
        }
    }

    #[verifier::when_used_as_spec(spec_into_io)]
    pub fn into_io(self) -> (k: IoErrorKind)
        ensures
            k == self.spec_into_io(),
    {
        match self.try_into_io() {
            Ok(k) => k,
            Err(_) => IoErrorKind::Other,
        }
    }
}

} // verus!
