//! Which hosts can be connected to.
use vstd::prelude::*;
use crate::text::text;

verus! {

/// What the parts of an address are: its scheme, and whether it names an
/// authority. An address that is none has a fault instead.
pub ghost enum Address {
    Parts { scheme: Option<Seq<char>>, has_authority: bool },
    Fault { reason: Seq<char> },
}

/// How a text is read as an address.
pub uninterp spec fn address_of(host: Seq<char>) -> Address;

/// The parts of an address, or its fault, as plain values.
pub open spec fn address_in(parts: Result<(Option<String>, bool), String>) -> Address {
    match parts {
        Ok((scheme, has_authority)) => Address::Parts {
            scheme: match scheme {
                Some(s) => Some(s@),
                None => None,
            },
            has_authority,
        },
        Err(reason) => Address::Fault { reason: reason@ },
    }
}

/// Calls `http::Uri`'s parser (`str::parse`), and hands out what `scheme_str`
/// and `authority` say of the result, or the text of its error. The contract
/// claims that all of this depends on the text alone; how addresses are read is
/// not stated.
#[verifier::external_body]
fn read_address(host: &str) -> (parts: Result<(Option<String>, bool), String>)
    ensures
        address_in(parts) == address_of(host@),
{
    match host.parse::<http::Uri>() {
        Ok(uri) => Ok((uri.scheme_str().map(str::to_owned), uri.authority().is_some())),
        Err(error) => Err(error.to_string()),
    }
}

/// Whether a scheme is one of the web.
pub open spec fn is_web_scheme(scheme: Seq<char>) -> bool {
    scheme == "http"@ || scheme == "https"@ || scheme == "ws"@ || scheme == "wss"@
}

/// Why an address cannot be connected to; nothing where it can.
pub open spec fn problem(address: Address) -> Option<Seq<char>> {
    match address {
        Address::Fault { reason } => Some(reason),
        Address::Parts { scheme, has_authority } => if scheme is Some && is_web_scheme(
            scheme.unwrap(),
        ) && has_authority {
            None
        } else {
            Some("expected an absolute http, https, ws, or wss URI"@)
        },
    }
}

/// Why the parts of an address cannot be connected to; nothing where they can.
pub fn parts_problem(parts: Result<(Option<String>, bool), String>) -> (reason: Option<String>)
    ensures
        match reason {
            Some(r) => problem(address_in(parts)) == Some(r@),
            None => problem(address_in(parts)) is None,
        },
{
    match parts {
        Err(reason) => Some(reason),
        Ok((scheme, has_authority)) => {
            let usable: bool = match scheme {
                Some(s) => has_authority && (s == text("http") || s == text("https") || s == text(
                    "ws",
                ) || s == text("wss")),
                None => false,
            };
            if usable {
                None
            } else {
                Some(text("expected an absolute http, https, ws, or wss URI"))
            }
        },
    }
}

/// Why a host cannot be connected to; nothing where it can.
pub fn host_problem(host: &str) -> (reason: Option<String>)
    ensures
        match reason {
            Some(r) => problem(address_of(host@)) == Some(r@),
            None => problem(address_of(host@)) is None,
        },
{
    parts_problem(read_address(host))
}

} // verus!
