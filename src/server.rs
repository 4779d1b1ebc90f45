//! What a connection handler decides: the resolution to start for a request,
//! and the bytes of the response.
use vstd::prelude::*;
use vstd::string::is_ascii;

use crate::http::{ParseError, Request};
use crate::resolver::{start, ResolveError, Resolution, Resolver};

verus! {

broadcast use vstd::string::group_string_axioms;

/// Why a connection could not be served.
#[derive(Debug)]
pub enum ServerError {
    RequestParsing(ParseError),
    ResolverError(ResolveError),
}

pub const END_OF_CONTENT: &'static str = "\r\n\r\n";

pub const HEADER_STATUS: &'static str = "HTTP/1.1 200 OK\r\n";

pub const HEADER_CONTENT_TYPE: &'static str = "Content-Type: text/html; charset=UTF-8\r\n";

pub const HEADER_CONTENT_LENGTH: &'static str = "Content-Length: ";

pub const NEW_LINE: &'static str = "\r\n";

/// The bytes of an ASCII text.
pub open spec fn ascii_bytes(s: Seq<char>) -> Seq<u8> {
    Seq::new(s.len(), |i: int| s[i] as u8)
}

/// The decimal digits of `n`, in ASCII, without leading zeros.
pub open spec fn decimal(n: nat) -> Seq<u8>
    decreases n,
{
    if n < 10 {
        seq![(48 + n) as u8]
    } else {
        decimal(n / 10).push((48 + n % 10) as u8)
    }
}

/// The response that carries `body`: status line, content type, a content
/// length that counts the body and the trailing blank line, a blank line,
/// the body, and the trailing blank line.
pub open spec fn response_bytes(body: Seq<u8>) -> Seq<u8> {
    ascii_bytes(HEADER_STATUS@) + ascii_bytes(HEADER_CONTENT_TYPE@) + ascii_bytes(
        HEADER_CONTENT_LENGTH@,
    ) + decimal(body.len() + 4) + ascii_bytes(NEW_LINE@) + ascii_bytes(NEW_LINE@) + body
        + ascii_bytes(END_OF_CONTENT@)
}

fn push_ascii(out: &mut Vec<u8>, s: &str)
    requires
        is_ascii(s),
    ensures
        final(out)@ == old(out)@ + ascii_bytes(s@),
{
    let b = s.as_bytes();
    let mut i: usize = 0;
    while i < b.len()
        invariant
            b@ == ascii_bytes(s@),
            i <= b@.len(),
            out@ == old(out)@ + b@.take(i as int),
        decreases b.len() - i,
    {
        out.push(b[i]);
        i = i + 1;
        assert(out@ =~= old(out)@ + b@.take(i as int));
    }
    assert(b@.take(i as int) =~= b@);
}

fn push_decimal(out: &mut Vec<u8>, n: usize)
    ensures
        final(out)@ == old(out)@ + decimal(n as nat),
    decreases n,
{
    if n >= 10 {
        push_decimal(out, n / 10);
    }
    let d = (n % 10) as u8;
    out.push(48u8 + d);
    assert(out@ =~= old(out)@ + decimal(n as nat));
}

fn push_bytes(out: &mut Vec<u8>, b: &[u8])
    ensures
        final(out)@ == old(out)@ + b@,
{
    let mut i: usize = 0;
    while i < b.len()
        invariant
            i <= b@.len(),
            out@ == old(out)@ + b@.take(i as int),
        decreases b.len() - i,
    {
        out.push(b[i]);
        i = i + 1;
        assert(out@ =~= old(out)@ + b@.take(i as int));
    }
    assert(b@.take(i as int) =~= b@);
}

/// Serves static files; this part holds its decisions, not its I/O.
pub struct Server;

impl Server {
    /// Starts resolving the resource of `request` against `document_root`.
    pub fn parse_request(request: &Request, document_root: String) -> (r: Resolution)
        ensures
            r@ == start(document_root@, request.headers.resource@),
    {
        let resolver = Resolver::new(document_root);
        resolver.resolve(request.headers.resource.clone())
    }

    /// The whole response for a file whose contents are `body`.
    pub fn response(body: &[u8]) -> (r: Vec<u8>)
        requires
            body@.len() + 4 <= usize::MAX,
        ensures
            r@ == response_bytes(body@),
    {
        proof {
            reveal_strlit("HTTP/1.1 200 OK\r\n");
            reveal_strlit("Content-Type: text/html; charset=UTF-8\r\n");
            reveal_strlit("Content-Length: ");
            reveal_strlit("\r\n");
            reveal_strlit("\r\n\r\n");
        }
        let mut out: Vec<u8> = Vec::new();
        push_ascii(&mut out, HEADER_STATUS);
        push_ascii(&mut out, HEADER_CONTENT_TYPE);
        push_ascii(&mut out, HEADER_CONTENT_LENGTH);
        push_decimal(&mut out, body.len() + 4);
        push_ascii(&mut out, NEW_LINE);
        push_ascii(&mut out, NEW_LINE);
        push_bytes(&mut out, body);
        push_ascii(&mut out, END_OF_CONTENT);
        assert(out@ =~= response_bytes(body@));
        out
    }
}

} // verus!
