use turbine::config::Config;
use turbine::http::{ParseError, Request};
use turbine::resolver::{Entry, EntryKind, ResolveError, Resolution, Resolver};
use turbine::server::Server;

const LINKS: [(&str, &str); 2] = [("/srv/web/link", "/etc"), ("/srv/web/sib", "/srv/webx")];

const ENTRIES: [(&str, EntryKind); 11] = [
    ("/", EntryKind::Dir),
    ("/srv", EntryKind::Dir),
    ("/srv/web", EntryKind::Dir),
    ("/srv/web/index.html", EntryKind::File),
    ("/srv/web/foo", EntryKind::Dir),
    ("/srv/web/foo/index.html", EntryKind::File),
    ("/srv/web/empty", EntryKind::Dir),
    ("/srv/web/dev", EntryKind::Other),
    ("/etc", EntryKind::Dir),
    ("/etc/passwd", EntryKind::File),
    ("/srv/webx", EntryKind::Dir),
];

/// Canonicalises `path` over a small in-memory tree, as the filesystem would.
fn lookup(path: &str) -> Option<Entry> {
    let mut parts: Vec<String> = Vec::new();
    let mut pending: Vec<String> = path.split('/').rev().map(|s| s.to_string()).collect();
    while let Some(seg) = pending.pop() {
        match seg.as_str() {
            "" | "." => {}
            ".." => {
                parts.pop();
            }
            name => {
                parts.push(name.to_string());
                let now = format!("/{}", parts.join("/"));
                if let Some((_, target)) = LINKS.iter().find(|(l, _)| *l == now) {
                    parts = target.split('/').filter(|s| !s.is_empty()).map(|s| s.to_string()).collect();
                }
                let kind = ENTRIES.iter().find(|(p, _)| *p == format!("/{}", parts.join("/")));
                if kind.is_none() {
                    return None;
                }
            }
        }
    }
    let canonical = format!("/{}", parts.join("/"));
    ENTRIES
        .iter()
        .find(|(p, _)| *p == canonical)
        .map(|(_, k)| Entry { canonical, kind: *k })
}

fn run(root: &str, resource: &str) -> Resolution {
    let resolver = Resolver::new(root.to_string());
    let mut step = resolver.resolve(resource.to_string());
    loop {
        match step {
            Resolution::Lookup(q) => {
                let e = lookup(&q.path);
                step = resolver.advance(q, e);
            }
            other => return other,
        }
    }
}

fn resolved(r: Resolution) -> String {
    match r {
        Resolution::Resolved(p) => p.as_str().to_string(),
        other => panic!("not resolved: {other:?}"),
    }
}

fn describe(r: Resolution) -> String {
    format!("{r:?}")
}

#[test]
fn root_resolves_to_index() {
    assert_eq!(resolved(run("/srv/web", "/")), "/srv/web/index.html");
}

#[test]
fn directory_resolves_to_its_index() {
    assert_eq!(resolved(run("/srv/web", "/foo")), "/srv/web/foo/index.html");
}

#[test]
fn trailing_separator_resolves_the_same() {
    assert_eq!(resolved(run("/srv/web", "/foo/")), "/srv/web/foo/index.html");
    assert_eq!(describe(run("/srv/web", "/foo/")), describe(run("/srv/web", "/foo")));
    assert_eq!(describe(run("/srv/web", "/index.html/")), describe(run("/srv/web", "/index.html")));
}

#[test]
fn repeated_separators_collapse() {
    assert_eq!(resolved(run("/srv/web", "//foo//index.html")), "/srv/web/foo/index.html");
}

#[test]
fn file_resolves_directly() {
    assert_eq!(resolved(run("/srv/web", "/index.html")), "/srv/web/index.html");
    assert_eq!(resolved(run("/srv/web", "/foo/../index.html")), "/srv/web/index.html");
}

#[test]
fn parent_segments_cannot_escape() {
    match run("/srv/web", "/../etc/passwd") {
        Resolution::Failed(ResolveError::HttpPathError(ParseError::InvalidPath(p))) => {
            assert_eq!(p, "/srv/web/../etc/passwd")
        }
        other => panic!("unexpected {other:?}"),
    }
    match run("/srv/web", "/../../etc/passwd") {
        Resolution::Failed(ResolveError::PathOutsideDocumentRoot(p)) => assert_eq!(p.as_str(), "/etc/passwd"),
        other => panic!("unexpected {other:?}"),
    }
    match run("/srv/web", "/foo/../../../etc/passwd") {
        Resolution::Failed(ResolveError::PathOutsideDocumentRoot(p)) => assert_eq!(p.as_str(), "/etc/passwd"),
        other => panic!("unexpected {other:?}"),
    }
}

#[test]
fn symbolic_links_cannot_escape() {
    match run("/srv/web", "/link/passwd") {
        Resolution::Failed(ResolveError::PathOutsideDocumentRoot(p)) => assert_eq!(p.as_str(), "/etc/passwd"),
        other => panic!("unexpected {other:?}"),
    }
    match run("/srv/web", "/sib") {
        Resolution::Failed(ResolveError::PathOutsideDocumentRoot(p)) => assert_eq!(p.as_str(), "/srv/webx"),
        other => panic!("unexpected {other:?}"),
    }
}

#[test]
fn resource_without_leading_separator_is_refused() {
    match run("/srv/web", "foo") {
        Resolution::Failed(ResolveError::PathShouldStartWithSlash(s)) => assert_eq!(s, "foo"),
        other => panic!("unexpected {other:?}"),
    }
    assert!(matches!(
        run("/srv/web", "index.html"),
        Resolution::Failed(ResolveError::PathShouldStartWithSlash(_))
    ));
    assert!(matches!(run("/srv/web", ""), Resolution::Failed(ResolveError::PathShouldStartWithSlash(_))));
}

#[test]
fn missing_path_is_invalid() {
    match run("/srv/web", "/missing") {
        Resolution::Failed(ResolveError::HttpPathError(ParseError::InvalidPath(p))) => {
            assert_eq!(p, "/srv/web/missing")
        }
        other => panic!("unexpected {other:?}"),
    }
}

#[test]
fn directory_without_default_file_is_invalid() {
    match run("/srv/web", "/empty") {
        Resolution::Failed(ResolveError::HttpPathError(ParseError::InvalidPath(p))) => {
            assert_eq!(p, "/srv/web/empty/index.html")
        }
        other => panic!("unexpected {other:?}"),
    }
}

#[test]
fn other_entry_is_invalid() {
    match run("/srv/web", "/dev") {
        Resolution::Failed(ResolveError::HttpPathError(ParseError::InvalidPath(p))) => assert_eq!(p, "/srv/web/dev"),
        other => panic!("unexpected {other:?}"),
    }
}

#[test]
fn directory_default_same_as_child() {
    assert_eq!(describe(run("/srv/web", "/foo")), describe(run("/srv/web", "/foo/index.html")));
    assert_eq!(describe(run("/srv/web", "/")), describe(run("/srv/web", "/index.html")));
}

#[test]
fn resolving_twice_is_the_same() {
    for r in ["/", "/foo", "/../etc/passwd", "foo", "/missing"] {
        assert_eq!(describe(run("/srv/web", r)), describe(run("/srv/web", r)));
    }
}

#[test]
fn root_with_trailing_separator() {
    let resolver = Resolver::new("/srv/web/".to_string());
    match resolver.resolve("/foo".to_string()) {
        Resolution::Lookup(q) => {
            assert_eq!(q.path, "/srv/web/foo");
            assert!(!q.default_child);
        }
        other => panic!("unexpected {other:?}"),
    }
    match resolver.resolve("/".to_string()) {
        Resolution::Lookup(q) => assert_eq!(q.path, "/srv/web/"),
        other => panic!("unexpected {other:?}"),
    }
}

#[test]
fn advance_from_directory_names_default_file() {
    let resolver = Resolver::new("/srv/web".to_string());
    let q = match resolver.resolve("/foo".to_string()) {
        Resolution::Lookup(q) => q,
        other => panic!("unexpected {other:?}"),
    };
    let entry = Entry { canonical: "/srv/web/foo".to_string(), kind: EntryKind::Dir };
    match resolver.advance(q, Some(entry)) {
        Resolution::Lookup(q) => {
            assert_eq!(q.path, "/srv/web/foo/index.html");
            assert!(q.default_child);
        }
        other => panic!("unexpected {other:?}"),
    }
}

#[test]
fn parse_request_starts_resolution() {
    let request = Request::new("GET /foo HTTP/1.1\r\n\r\n".to_string()).unwrap();
    match Server::parse_request(&request, "/srv/web".to_string()) {
        Resolution::Lookup(q) => assert_eq!(q.path, "/srv/web/foo"),
        other => panic!("unexpected {other:?}"),
    }
}

#[test]
fn response_bytes_exact() {
    let r = Server::response(b"hi");
    assert_eq!(
        r,
        b"HTTP/1.1 200 OK\r\nContent-Type: text/html; charset=UTF-8\r\nContent-Length: 6\r\n\r\nhi\r\n\r\n".to_vec()
    );
    let r = Server::response(b"abcdefghi");
    let text = String::from_utf8(r).unwrap();
    assert!(text.contains("Content-Length: 13\r\n\r\nabcdefghi\r\n\r\n"));
    let r = Server::response(b"");
    assert!(String::from_utf8(r).unwrap().ends_with("Content-Length: 4\r\n\r\n\r\n\r\n"));
}

#[test]
fn config_default_root() {
    assert_eq!(Config::default().document_root, "web_resources");
}
