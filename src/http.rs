//! Requests: the request line, its tokens, and the errors of parsing it.
use std::collections::HashMap;

use vstd::prelude::*;

use crate::text::{chars_of, find_pair, same_chars, word_ranges, words};

verus! {

broadcast use vstd::string::group_string_axioms;

/// Errors that can occur when parsing a http request.
#[derive(Debug)]
pub enum ParseError {
    /// The request held no bytes at all.
    EmptyRequest,
    /// The request line did not hold exactly a method, a resource and a version.
    InvalidHeaders,
    /// The method token names no supported method.
    InvalidMethod(String),
    /// The path does not exist, or names no regular file where one is needed.
    InvalidPath(String),
}

/// What a [`ParseError`] says, over plain sequences.
pub enum ParseErrorView {
    EmptyRequest,
    InvalidHeaders,
    InvalidMethod(Seq<char>),
    InvalidPath(Seq<char>),
}

impl View for ParseError {
    type V = ParseErrorView;

    open spec fn view(&self) -> ParseErrorView {
        match self {
            ParseError::EmptyRequest => ParseErrorView::EmptyRequest,
            ParseError::InvalidHeaders => ParseErrorView::InvalidHeaders,
            ParseError::InvalidMethod(m) => ParseErrorView::InvalidMethod(m@),
            ParseError::InvalidPath(p) => ParseErrorView::InvalidPath(p@),
        }
    }
}

/// Supported HTTP methods.
#[derive(Debug, Clone, Copy, PartialEq, Eq, Structural)]
pub enum Method {
    Get,
    Post,
}

/// The parts of a request line, over plain sequences.
pub struct RequestLine {
    pub method: Method,
    pub resource: Seq<char>,
    pub version: Seq<char>,
}

/// The method that a token names: the token must match exactly, case included.
pub open spec fn method_of(token: Seq<char>) -> Option<Method> {
    if token == seq!['G', 'E', 'T'] {
        Some(Method::Get)
    } else if token == seq!['P', 'O', 'S', 'T'] {
        Some(Method::Post)
    } else {
        None
    }
}

/// The request line that a list of tokens makes: exactly three tokens,
/// the first a supported method.
pub open spec fn line_of_tokens(tokens: Seq<Seq<char>>) -> Result<RequestLine, ParseErrorView> {
    if tokens.len() != 3 {
        Err(ParseErrorView::InvalidHeaders)
    } else {
        match method_of(tokens[0]) {
            Some(m) => Ok(RequestLine { method: m, resource: tokens[1], version: tokens[2] }),
            None => Err(ParseErrorView::InvalidMethod(tokens[0])),
        }
    }
}

/// The characters of a request up to its first line break (`"\r\n"`), or all of them.
pub open spec fn first_line(s: Seq<char>) -> Seq<char> {
    s.take(find_pair(s, '\r', '\n', 0))
}

/// The request line that a whole request text makes.
pub open spec fn line_of_request(s: Seq<char>) -> Result<RequestLine, ParseErrorView> {
    if s.len() == 0 {
        Err(ParseErrorView::EmptyRequest)
    } else {
        line_of_tokens(words(first_line(s)))
    }
}

/// Representation of HTTP headers.
#[derive(Debug)]
pub struct Headers {
    pub method: Method,
    pub resource: String,
    pub version: String,
    /// Further header fields; none are parsed yet, so this stays empty.
    pub other_headers: HashMap<String, String>,
}

impl View for Headers {
    type V = RequestLine;

    open spec fn view(&self) -> RequestLine {
        RequestLine { method: self.method, resource: self.resource@, version: self.version@ }
    }
}

/// A parse result over plain sequences.
pub open spec fn headers_outcome(
    r: &Result<Headers, ParseError>,
) -> Result<RequestLine, ParseErrorView> {
    match r {
        Ok(h) => Ok(h@),
        Err(e) => Err(e@),
    }
}

impl Headers {
    /// Builds headers from the tokens of a request line: method, resource, version.
    pub fn new(headers: Vec<&str>) -> (r: Result<Headers, ParseError>)
        ensures
            headers_outcome(&r) == line_of_tokens(headers@.map_values(|t: &str| t@)),
            r is Ok ==> r->Ok_0.other_headers@ == Map::<String, String>::empty(),
    {
        let ghost tokens = headers@.map_values(|t: &str| t@);
        if headers.len() != 3 {
            return Err(ParseError::InvalidHeaders);
        }
        assert(tokens[0] == headers@[0]@);
        proof {
            reveal_strlit("GET");
            reveal_strlit("POST");
            assert("GET"@ =~= seq!['G', 'E', 'T']);
            assert("POST"@ =~= seq!['P', 'O', 'S', 'T']);
        }
        let method = if same_chars(headers[0], "GET") {
            Method::Get
        } else if same_chars(headers[0], "POST") {
            Method::Post
        } else {
            return Err(ParseError::InvalidMethod(headers[0].to_owned()));
        };
        let resource = headers[1].to_owned();
        let version = headers[2].to_owned();
        let other_headers = HashMap::new();
        Ok(Headers { method, resource, version, other_headers })
    }

    /// Parses one request line, without its line break.
    pub fn from_line(line: &str) -> (r: Result<Headers, ParseError>)
        ensures
            headers_outcome(&r) == line_of_tokens(words(line@)),
            r is Ok ==> r->Ok_0.other_headers@ == Map::<String, String>::empty(),
    {
        let chars = chars_of(line);
        let ranges = word_ranges(&chars);
        if ranges.len() != 3 {
            return Err(ParseError::InvalidHeaders);
        }
        let (s0, e0) = ranges[0];
        let (s1, e1) = ranges[1];
        let (s2, e2) = ranges[2];
        let tokens: Vec<&str> = vec![
            line.substring_char(s0, e0),
            line.substring_char(s1, e1),
            line.substring_char(s2, e2),
        ];
        assert(tokens@.map_values(|t: &str| t@) =~= words(line@));
        Headers::new(tokens)
    }
}

/// Representation of a HTTP request.
///
/// The body of a request is not read: it is always empty.
#[derive(Debug)]
pub struct Request {
    pub headers: Headers,
    pub body: Vec<u8>,
}

/// A request result over plain sequences.
pub open spec fn request_outcome(
    r: &Result<Request, ParseError>,
) -> Result<RequestLine, ParseErrorView> {
    match r {
        Ok(q) => Ok(q.headers@),
        Err(e) => Err(e@),
    }
}

impl Request {
    /// Parses a whole request text; only its first line is read.
    pub fn new(request: String) -> (r: Result<Request, ParseError>)
        ensures
            request_outcome(&r) == line_of_request(request@),
            r is Ok ==> r->Ok_0.headers.other_headers@ == Map::<String, String>::empty(),
            r is Ok ==> r->Ok_0.body@.len() == 0,
    {
        let text = request.as_str();
        let chars = chars_of(text);
        if chars.len() == 0 {
            return Err(ParseError::EmptyRequest);
        }
        let end = crate::text::find_crlf_chars(&chars);
        proof {
            crate::text::lemma_find_pair_bounds(request@, '\r', '\n', 0);
        }
        let line = text.substring_char(0, end);
        assert(line@ =~= first_line(request@));
        match Headers::from_line(line) {
            Ok(headers) => Ok(Request { headers, body: Vec::new() }),
            Err(e) => Err(e),
        }
    }
}

/// A valid path to a resource, after resolution.
#[derive(Debug)]
pub struct HttpPath(pub String);

impl View for HttpPath {
    type V = Seq<char>;

    open spec fn view(&self) -> Seq<char> {
        self.0@
    }
}

impl HttpPath {
    /// The path as text.
    pub fn as_str(&self) -> (r: &str)
        ensures
            r@ == self@,
    {
        self.0.as_str()
    }
}

} // verus!
