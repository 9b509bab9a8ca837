//! The port and the security of an address.

use vstd::prelude::*;

verus! {

/// Why a URI names no address.
#[derive(Clone, Copy, Debug, PartialEq, Eq, Structural)]
pub enum InvalidUri {
    NoScheme,
    NonHttpScheme,
    InvalidHost,
}

impl InvalidUri {
    /// What is wrong with the URI, in words.
    pub open spec fn spec_message(self) -> Seq<char> {
        match self {
            InvalidUri::NoScheme => "no scheme"@,
            InvalidUri::NonHttpScheme => "non http(s) scheme"@,
            InvalidUri::InvalidHost => "invalid host"@,
        }
    }

    pub fn message(self) -> (s: &'static str)
        ensures
            s@ == self.spec_message(),
    {
        match self {
            InvalidUri::NoScheme => "no scheme",
            InvalidUri::NonHttpScheme => "non http(s) scheme",
            InvalidUri::InvalidHost => "invalid host",
        }
    }
}

/// The port of plain HTTP.
pub const HTTP_PORT: u16 = 80;

/// The port of HTTP over TLS.
pub const HTTPS_PORT: u16 = 443;

/// The port that an address has when it names none.
pub open spec fn spec_default_port(secure: bool) -> u16 {
    if secure {
        HTTPS_PORT
    } else {
        HTTP_PORT
    }
}

#[verifier::when_used_as_spec(spec_default_port)]
pub fn default_port(secure: bool) -> (port: u16)
    ensures
        port == spec_default_port(secure),
{
    if secure {
        HTTPS_PORT
    } else {
        HTTP_PORT
    }
}

/// The scheme `http`.
pub open spec fn http_scheme() -> Seq<u8> {
    seq![104u8, 116u8, 116u8, 112u8]
}

/// The scheme `https`.
pub open spec fn https_scheme() -> Seq<u8> {
    seq![104u8, 116u8, 116u8, 112u8, 115u8]
}

/// Whether a scheme asks for TLS, for the two schemes that are spoken.
pub open spec fn secure_of(scheme: Seq<u8>) -> Result<bool, InvalidUri> {
    if scheme == http_scheme() {
        Ok(false)
    } else if scheme == https_scheme() {
        Ok(true)
    } else {
        Err(InvalidUri::NonHttpScheme)
    }
}

/// Tells from a lower-case scheme whether the address is secure; any scheme
/// but `http` and `https` is refused.
pub fn scheme_security(scheme: &[u8]) -> (r: Result<bool, InvalidUri>)
    ensures
        r == secure_of(scheme@),
{
    if scheme.len() == 4 && scheme[0] == 104 && scheme[1] == 116 && scheme[2] == 116 && scheme[3]
        == 112 {
        assert(scheme@ =~= http_scheme());
        Ok(false)
    } else if scheme.len() == 5 && scheme[0] == 104 && scheme[1] == 116 && scheme[2] == 116
        && scheme[3] == 112 && scheme[4] == 115 {
        assert(scheme@ =~= https_scheme());
        Ok(true)
    } else {
        proof {
            if scheme@ == http_scheme() {
                assert(http_scheme().len() == 4);
                assert(http_scheme()[0] == 104 && http_scheme()[1] == 116 && http_scheme()[2]
                    == 116 && http_scheme()[3] == 112);
            }
            if scheme@ == https_scheme() {
                assert(https_scheme().len() == 5);
                assert(https_scheme()[0] == 104 && https_scheme()[1] == 116 && https_scheme()[2]
                    == 116 && https_scheme()[3] == 112 && https_scheme()[4] == 115);
            }
        }
        Err(InvalidUri::NonHttpScheme)
    }
}

/// The port of an address: the one it names, or the default of its
/// security.
pub fn port_of(secure: bool, named: Option<u16>) -> (port: u16)
    ensures
        port == match named {
            Some(p) => p,
            None => default_port(secure),
        },
{
    match named {
        Some(p) => p,
        None => default_port(secure),
    }
}

/// Whether an address is written without its port: it is when the port is
/// the default of its security.
pub fn port_is_default(secure: bool, port: u16) -> (r: bool)
    ensures
        r == (port == default_port(secure)),
{
    port == default_port(secure)
}

} // verus!
