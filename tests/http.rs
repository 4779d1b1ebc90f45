use turbine::framing::Framer;
use turbine::http::{Headers, Method, ParseError, Request};

#[test]
pub fn test_parse_headers_fail() {
    assert!(Headers::new(vec![]).is_err());
    assert!(Headers::new(vec!["GET", "/"]).is_err());
    assert!(Headers::new(vec!["GWET", "/", "HTTP/1.1"]).is_err());
}

#[test]
pub fn test_parse_headers() {
    let header = Headers::new(vec!["GET", "/", "HTTP/1.1"]);
    println!("{header:?}");

    assert!(Headers::new(vec!["GET", "/", "HTTP/1.1"]).is_ok());
    assert!(Headers::new(vec!["POST", "/", "HTTP/1.1"]).is_ok());
    assert!(Headers::new(vec!["GET", "/foo", "HTTP/1.1"]).is_ok());
}

#[test]
fn headers_keep_tokens() {
    let h = Headers::new(vec!["POST", "/a/b", "HTTP/1.0"]).unwrap();
    assert_eq!(h.method, Method::Post);
    assert_eq!(h.resource, "/a/b");
    assert_eq!(h.version, "HTTP/1.0");
    assert!(h.other_headers.is_empty());
}

#[test]
fn headers_method_is_case_sensitive() {
    match Headers::new(vec!["get", "/", "HTTP/1.1"]) {
        Err(ParseError::InvalidMethod(m)) => assert_eq!(m, "get"),
        other => panic!("unexpected {other:?}"),
    }
}

#[test]
fn headers_too_many_tokens() {
    assert!(matches!(
        Headers::new(vec!["GET", "/", "HTTP/1.1", "x"]),
        Err(ParseError::InvalidHeaders)
    ));
}

#[test]
fn request_reads_first_line_only() {
    let r = Request::new("GET /index.html HTTP/1.1\r\nHost: localhost\r\n\r\n".to_string()).unwrap();
    assert_eq!(r.headers.method, Method::Get);
    assert_eq!(r.headers.resource, "/index.html");
    assert_eq!(r.headers.version, "HTTP/1.1");
    assert!(r.body.is_empty());
}

#[test]
fn request_splits_on_any_white_space() {
    let r = Request::new("POST \t /x\u{3000}HTTP/1.1".to_string()).unwrap();
    assert_eq!(r.headers.method, Method::Post);
    assert_eq!(r.headers.resource, "/x");
    assert_eq!(r.headers.version, "HTTP/1.1");
}

#[test]
fn request_empty_is_refused() {
    assert!(matches!(Request::new(String::new()), Err(ParseError::EmptyRequest)));
}

#[test]
fn request_blank_first_line_is_invalid() {
    assert!(matches!(
        Request::new("\r\nGET / HTTP/1.1\r\n\r\n".to_string()),
        Err(ParseError::InvalidHeaders)
    ));
}

#[test]
fn request_unknown_method() {
    match Request::new("PUT / HTTP/1.1\r\n\r\n".to_string()) {
        Err(ParseError::InvalidMethod(m)) => assert_eq!(m, "PUT"),
        other => panic!("unexpected {other:?}"),
    }
}

fn frame(chunks: &[&[u8]]) -> Result<Request, ParseError> {
    let mut framer = Framer::new();
    for c in chunks {
        if framer.feed(c) {
            break;
        }
    }
    framer.feed(&[]);
    framer.finish()
}

#[test]
fn frame_simple_get() {
    let r = frame(&[b"GET / HTTP/1.1\r\n\r\n"]).unwrap();
    assert_eq!(r.headers.method, Method::Get);
    assert_eq!(r.headers.resource, "/");
    assert_eq!(r.headers.version, "HTTP/1.1");
}

#[test]
fn frame_chunked_same_as_whole() {
    let whole: &[u8] = b"GET /foo HTTP/1.1\r\nHost: a\r\n\r\n";
    let one = frame(&[whole]).unwrap();
    let bytes: Vec<&[u8]> = whole.chunks(1).collect();
    let many = frame(&bytes).unwrap();
    let three = frame(&[&whole[..5], &whole[5..19], &whole[19..]]).unwrap();
    for r in [&many, &three] {
        assert_eq!(r.headers.method, one.headers.method);
        assert_eq!(r.headers.resource, one.headers.resource);
        assert_eq!(r.headers.version, one.headers.version);
    }
    assert_eq!(one.headers.resource, "/foo");
}

#[test]
fn framer_stops_at_blank_line() {
    let mut framer = Framer::new();
    assert!(!framer.feed(b"GET / HTTP/1.1\r\n"));
    assert!(framer.feed(b"\r\n"));
    assert!(framer.feed(b"ignored"));
    let r = framer.finish().unwrap();
    assert_eq!(r.headers.resource, "/");
}

#[test]
fn framer_parses_at_end_of_input() {
    let mut framer = Framer::new();
    assert!(!framer.feed(b"GET /a HTTP/1.1"));
    assert!(framer.feed(b""));
    assert_eq!(framer.finish().unwrap().headers.resource, "/a");
}

#[test]
fn framer_empty_input() {
    let mut framer = Framer::new();
    assert!(framer.feed(b""));
    assert!(matches!(framer.finish(), Err(ParseError::EmptyRequest)));
}

#[test]
fn framer_decodes_lossily() {
    let r = frame(&[b"GET /\xff\xfe HTTP/1.1\r\n\r\n"]).unwrap();
    assert_eq!(r.headers.resource, "/\u{FFFD}\u{FFFD}");
    let r = frame(&[b"GET /caf\xc3\xa9 HTTP/1.1\r\n\r\n"]).unwrap();
    assert_eq!(r.headers.resource, "/caf\u{e9}");
}

#[test]
fn request_post_ignores_later_lines_and_body() {
    let r = Request::new("POST /foo HTTP/1.1\r\nHost: x\r\n\r\nhello".to_string()).unwrap();
    assert_eq!(r.headers.method, Method::Post);
    assert_eq!(r.headers.resource, "/foo");
    assert_eq!(r.headers.version, "HTTP/1.1");
    assert!(r.headers.other_headers.is_empty());
    assert!(r.body.is_empty());
}

#[test]
fn request_same_first_line_same_headers() {
    let a = Request::new("GET /x HTTP/1.1\r\nHost: a\r\n\r\n".to_string()).unwrap();
    let b = Request::new("GET /x HTTP/1.1\r\nAccept: */*\r\nUser-Agent: t\r\n\r\n".to_string()).unwrap();
    assert_eq!(a.headers.method, b.headers.method);
    assert_eq!(a.headers.resource, b.headers.resource);
    assert_eq!(a.headers.version, b.headers.version);
    assert_eq!(a.headers.other_headers, b.headers.other_headers);
    assert!(a.headers.other_headers.is_empty());
}

#[test]
fn frame_get_has_no_headers_and_no_body() {
    let r = frame(&[b"GET / HTTP/1.1\r\n", b"Host: localhost\r\n\r\n"]).unwrap();
    assert_eq!(r.headers.method, Method::Get);
    assert_eq!(r.headers.resource, "/");
    assert_eq!(r.headers.version, "HTTP/1.1");
    assert!(r.headers.other_headers.is_empty());
    assert!(r.body.is_empty());
}
