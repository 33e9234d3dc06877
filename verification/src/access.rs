//! Who may call the interface: the secret of callers, the web origin, and the files
//! of TLS.
use crate::text::{chars_of, copy_text, strip_prefix, trim, trimmed};
use vstd::prelude::*;
use vstd::utf8::encode_utf8;

verus! {

/// Whether a secret is the expected one. All bytes of the expected one are looked
/// at, whatever was supplied.
pub fn bearer_token_matches(supplied: &[u8], expected: &[u8]) -> (r: bool)
    ensures
        r == (supplied@ == expected@),
{
    let mut difference: u8 = if supplied.len() != expected.len() {
        1
    } else {
        0
    };
    let mut i: usize = 0;
    while i < expected.len()
        invariant
            i <= expected@.len(),
            difference == 0 <==> supplied@.len() == expected@.len() && forall|j: int|
                0 <= j < i ==> supplied@[j] == expected@[j],
        decreases expected@.len() - i,
    {
        let x: u8 = if i < supplied.len() {
            supplied[i]
        } else {
            0
        };
        let y: u8 = expected[i];
        assert((difference | (x ^ y)) == 0u8 <==> (difference == 0u8 && x == y)) by (bit_vector);
        difference = difference | (x ^ y);
        i += 1;
    }
    if difference == 0 {
        assert(supplied@ =~= expected@);
    }
    difference == 0
}

/// The secret in the header of a request: what follows the word that says how it
/// is presented. Without that word there is none.
pub open spec fn token_in(header: Option<Seq<char>>) -> Seq<char> {
    match header {
        Some(h) => if "Bearer "@.is_prefix_of(h) {
            h.skip("Bearer "@.len() as int)
        } else {
            Seq::empty()
        },
        None => Seq::empty(),
    }
}

/// Whether a request may pass: one that only asks which requests are allowed, or
/// one that presents the secret.
pub fn is_authorized(is_preflight: bool, header: Option<&str>, token: &str) -> (r: bool)
    ensures
        r == (is_preflight || token_in(
            match header {
                Some(h) => Some(h@),
                None => None,
            },
        ) == token@),
{
    if is_preflight {
        return true;
    }
    let supplied = match header {
        Some(h) => match strip_prefix(h, "Bearer ") {
            Some(t) => t,
            None => String::new(),
        },
        None => String::new(),
    };
    proof {
        vstd::utf8::encode_utf8_decode_utf8(supplied@);
        vstd::utf8::encode_utf8_decode_utf8(token@);
    }
    assert(supplied@ =~= token_in(
        match header {
            Some(h) => Some(h@),
            None => None,
        },
    ));
    bearer_token_matches(supplied.as_str().as_bytes(), token.as_bytes())
}

/// The secret in a file: its text without white space around it, of at least 32
/// bytes.
pub fn read_token(text: &str) -> (r: Option<String>)
    ensures
        match r {
            Some(t) => t@ == trimmed(text@) && encode_utf8(t@).len() >= 32,
            None => encode_utf8(trimmed(text@)).len() < 32,
        },
{
    let token = trim(text);
    if token.as_str().as_bytes().len() >= 32 {
        Some(token)
    } else {
        None
    }
}

/// Why a web origin is refused.
#[derive(Clone, Copy, Debug, PartialEq, Eq, Structural)]
pub enum OriginError {
    /// It starts neither with `http://` nor with `https://`.
    Scheme,
    /// It names no host, or more than a scheme, a host and a port.
    Authority,
    /// It cannot stand in a header.
    Header,
}

/// What is told of a refused origin.
pub open spec fn origin_refusal(e: OriginError) -> Seq<char> {
    match e {
        OriginError::Scheme => "--cors-origin must be an http:// or https:// origin"@,
        OriginError::Authority =>
            "--cors-origin must contain only scheme, host, and optional port (no path or credentials)"@,
        OriginError::Header => "invalid --cors-origin: failed to parse header value"@,
    }
}

impl OriginError {
    /// What is told of the refused origin.
    pub fn message(self) -> (r: String)
        ensures
            r@ == origin_refusal(self),
    {
        match self {
            OriginError::Scheme => copy_text("--cors-origin must be an http:// or https:// origin"),
            OriginError::Authority => copy_text(
                "--cors-origin must contain only scheme, host, and optional port (no path or credentials)",
            ),
            OriginError::Header => copy_text("invalid --cors-origin: failed to parse header value"),
        }
    }
}

/// Whether a byte may stand in the value of a header.
pub open spec fn header_byte(b: u8) -> bool {
    b == 9 || (b >= 32 && b != 127)
}

/// Whether a text may stand in the value of a header.
pub open spec fn header_text(s: Seq<char>) -> bool {
    forall|i: int| 0 <= i < encode_utf8(s).len() ==> header_byte(#[trigger] encode_utf8(s)[i])
}

/// `axum::http::HeaderValue::from_str`: a text becomes the value of a header if all
/// its bytes may stand in one: no control characters but the tab.
#[verifier::external_body]
fn is_header_value(s: &str) -> (r: bool)
    ensures
        r == header_text(s@),
{
    axum::http::HeaderValue::from_str(s).is_ok()
}

/// What follows the scheme of an origin.
pub open spec fn authority_of(s: Seq<char>) -> Option<Seq<char>> {
    if "http://"@.is_prefix_of(s) {
        Some(s.skip("http://"@.len() as int))
    } else if "https://"@.is_prefix_of(s) {
        Some(s.skip("https://"@.len() as int))
    } else {
        None
    }
}

/// Whether what follows the scheme is a host, with a port or without.
pub open spec fn host_only(s: Seq<char>) -> bool {
    s.len() > 0 && !s.contains('/') && !s.contains('?') && !s.contains('#') && !s.contains('@')
}

/// What is wrong with an origin.
pub open spec fn origin_fault(s: Seq<char>) -> Option<OriginError> {
    match authority_of(s) {
        None => Some(OriginError::Scheme),
        Some(a) => if !host_only(a) {
            Some(OriginError::Authority)
        } else if !header_text(s) {
            Some(OriginError::Header)
        } else {
            None
        },
    }
}

fn is_host_only(s: &str) -> (r: bool)
    ensures
        r == host_only(s@),
{
    let cs = chars_of(s);
    let mut i: usize = 0;
    while i < cs.len()
        invariant
            i <= cs@.len(),
            cs@ == s@,
            forall|j: int|
                0 <= j < i ==> (#[trigger] s@[j]) != '/' && s@[j] != '?' && s@[j] != '#' && s@[j]
                    != '@',
        decreases cs@.len() - i,
    {
        let c = cs[i];
        if c == '/' || c == '?' || c == '#' || c == '@' {
            assert(s@[i as int] == c);
            assert(s@.contains(c));
            return false;
        }
        i += 1;
    }
    cs.len() > 0
}

/// The one web origin that may call the interface.
pub fn parse_cors_origin(origin: String) -> (r: Result<String, OriginError>)
    ensures
        match r {
            Ok(s) => s@ == origin@ && origin_fault(origin@) is None,
            Err(e) => origin_fault(origin@) == Some(e),
        },
{
    let authority = match strip_prefix(origin.as_str(), "http://") {
        Some(a) => a,
        None => match strip_prefix(origin.as_str(), "https://") {
            Some(a) => a,
            None => return Err(OriginError::Scheme),
        },
    };
    if !is_host_only(authority.as_str()) {
        return Err(OriginError::Authority);
    }
    if !is_header_value(origin.as_str()) {
        return Err(OriginError::Header);
    }
    Ok(origin)
}

/// Only one of the two files of TLS was given.
#[derive(Clone, Copy, Debug, PartialEq, Eq, Structural)]
pub struct TlsIncomplete;

impl TlsIncomplete {
    /// What is told of the missing file.
    pub fn message(self) -> (r: String)
        ensures
            r@ == "--tls-cert and --tls-key must be supplied together"@,
    {
        copy_text("--tls-cert and --tls-key must be supplied together")
    }
}

/// The certificate and the key of TLS: both or neither.
pub fn tls_files(cert: Option<String>, key: Option<String>) -> (r: Result<
    Option<(String, String)>,
    TlsIncomplete,
>)
    ensures
        match (cert, key) {
            (Some(c), Some(k)) => r == Ok::<Option<(String, String)>, TlsIncomplete>(Some((c, k))),
            (None, None) => r == Ok::<Option<(String, String)>, TlsIncomplete>(None),
            _ => r is Err,
        },
{
    match (cert, key) {
        (Some(c), Some(k)) => Ok(Some((c, k))),
        (None, None) => Ok(None),
        _ => Err(TlsIncomplete),
    }
}

} // verus!
