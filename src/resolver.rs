//! Resolving a resource string to a file under the document root.
//!
//! Resolution consults the filesystem, which this library does not touch:
//! [`Resolver::resolve`] checks the resource and names the first path to look
//! up, and [`Resolver::advance`] takes what the filesystem said of a path
//! (its canonical form and kind, or nothing when it does not exist) and
//! decides the next step.
use vstd::prelude::*;

use crate::http::{HttpPath, ParseError, ParseErrorView};
use crate::text::chars_of;

verus! {

broadcast use vstd::string::group_string_axioms;

/// Errors that can occur when resolving a resource.
#[derive(Debug)]
pub enum ResolveError {
    /// The canonical path lies outside the document root.
    PathOutsideDocumentRoot(HttpPath),
    /// The resource does not start with `/`.
    PathShouldStartWithSlash(String),
    /// The path names no regular file.
    HttpPathError(ParseError),
}

pub enum ResolveErrorView {
    PathOutsideDocumentRoot(Seq<char>),
    PathShouldStartWithSlash(Seq<char>),
    HttpPathError(ParseErrorView),
}

impl View for ResolveError {
    type V = ResolveErrorView;

    open spec fn view(&self) -> ResolveErrorView {
        match self {
            ResolveError::PathOutsideDocumentRoot(p) => {
                ResolveErrorView::PathOutsideDocumentRoot(p@)
            },
            ResolveError::PathShouldStartWithSlash(s) => {
                ResolveErrorView::PathShouldStartWithSlash(s@)
            },
            ResolveError::HttpPathError(e) => ResolveErrorView::HttpPathError(e@),
        }
    }
}

/// What kind of entry a path names.
#[derive(Debug, Clone, Copy, PartialEq, Eq, Structural)]
pub enum EntryKind {
    File,
    Dir,
    Other,
}

/// What the filesystem says of an existing path: its canonical form and kind.
#[derive(Debug)]
pub struct Entry {
    pub canonical: String,
    pub kind: EntryKind,
}

/// A path to look up; `default_child` marks the default file of a directory.
#[derive(Debug)]
pub struct Query {
    pub path: String,
    pub default_child: bool,
}

/// The next step of a resolution.
#[derive(Debug)]
pub enum Resolution {
    /// Look this path up, then call [`Resolver::advance`].
    Lookup(Query),
    /// The resource is this regular file, inside the document root.
    Resolved(HttpPath),
    /// The resource cannot be served.
    Failed(ResolveError),
}

/// A resolution step over plain sequences.
pub enum Step {
    Lookup(Seq<char>, bool),
    Resolved(Seq<char>),
    Failed(ResolveErrorView),
}

impl View for Resolution {
    type V = Step;

    open spec fn view(&self) -> Step {
        match self {
            Resolution::Lookup(q) => Step::Lookup(q.path@, q.default_child),
            Resolution::Resolved(p) => Step::Resolved(p@),
            Resolution::Failed(e) => Step::Failed(e@),
        }
    }
}

/// What the filesystem says of a path, over plain sequences.
pub open spec fn entry_view(e: &Option<Entry>) -> Option<(Seq<char>, EntryKind)> {
    match e {
        Some(x) => Some((x.canonical@, x.kind)),
        None => None,
    }
}

/// The name of the file served for a directory.
pub open spec fn default_file() -> Seq<char> {
    seq!['i', 'n', 'd', 'e', 'x', '.', 'h', 't', 'm', 'l']
}

pub open spec fn ends_with_sep(p: Seq<char>) -> bool {
    p.len() > 0 && p.last() == '/'
}

/// `name` joined onto `dir` as one more path segment.
pub open spec fn join_seg(dir: Seq<char>, name: Seq<char>) -> Seq<char> {
    if ends_with_sep(dir) {
        dir + name
    } else {
        dir + seq!['/'] + name
    }
}

/// Whether the character at `i` survives normalisation: separators are kept
/// only when a non-separator follows them, so runs of them shrink to one and
/// trailing ones vanish.
pub open spec fn keep_at(s: Seq<char>, i: int) -> bool {
    s[i] != '/' || (i + 1 < s.len() && s[i + 1] != '/')
}

/// The kept characters among the first `n` of `s`.
pub open spec fn kept(s: Seq<char>, n: int) -> Seq<char>
    decreases n,
{
    if n <= 0 {
        Seq::empty()
    } else if keep_at(s, n - 1) {
        kept(s, n - 1).push(s[n - 1])
    } else {
        kept(s, n - 1)
    }
}

/// A resource with each run of separators made one and trailing ones
/// dropped: `"//a//b/"` becomes `"/a/b"`, `"/"` becomes empty.
pub open spec fn normalized(resource: Seq<char>) -> Seq<char> {
    kept(resource, resource.len() as int)
}

/// The normalised resource joined onto the document root.
pub open spec fn candidate(root: Seq<char>, resource: Seq<char>) -> Seq<char> {
    let rel = normalized(resource);
    if rel.len() == 0 {
        root
    } else if ends_with_sep(root) {
        root.drop_last() + rel
    } else {
        root + rel
    }
}

/// Whether `p` is `root` or lies beneath it, segment by segment.
pub open spec fn is_within(root: Seq<char>, p: Seq<char>) -> bool {
    p == root || (p.len() > root.len() && p.take(root.len() as int) == root && (ends_with_sep(root)
        || p[root.len() as int] == '/'))
}

pub open spec fn starts_with_sep(s: Seq<char>) -> bool {
    s.len() > 0 && s[0] == '/'
}

/// The first step of resolving `resource`.
pub open spec fn start(root: Seq<char>, resource: Seq<char>) -> Step {
    if !starts_with_sep(resource) {
        Step::Failed(ResolveErrorView::PathShouldStartWithSlash(resource))
    } else {
        Step::Lookup(candidate(root, resource), false)
    }
}

/// The step after looking up `path` and finding `entry`.
pub open spec fn advance_step(
    root: Seq<char>,
    path: Seq<char>,
    default_child: bool,
    entry: Option<(Seq<char>, EntryKind)>,
) -> Step {
    match entry {
        None => Step::Failed(ResolveErrorView::HttpPathError(ParseErrorView::InvalidPath(path))),
        Some((c, kind)) => {
            if !is_within(root, c) {
                Step::Failed(ResolveErrorView::PathOutsideDocumentRoot(c))
            } else if kind == EntryKind::File {
                Step::Resolved(c)
            } else if kind == EntryKind::Dir && !default_child {
                Step::Lookup(join_seg(c, default_file()), true)
            } else {
                Step::Failed(ResolveErrorView::HttpPathError(ParseErrorView::InvalidPath(c)))
            }
        },
    }
}

/// A filesystem, as resolution sees it: what a path canonicalises to and
/// what kind of entry that is, or nothing for a missing path.
pub type FsModel = spec_fn(Seq<char>) -> Option<(Seq<char>, EntryKind)>;

/// The whole resolution of `resource` against the filesystem `fs`.
pub open spec fn resolution(root: Seq<char>, resource: Seq<char>, fs: FsModel) -> Step {
    match start(root, resource) {
        Step::Lookup(p, d) => match advance_step(root, p, d, fs(p)) {
            Step::Lookup(p2, d2) => advance_step(root, p2, d2, fs(p2)),
            other => other,
        },
        other => other,
    }
}

/// A name looked up inside a path that the filesystem reports as the
/// directory `c` is the name looked up inside `c`.
pub open spec fn dir_lookup_coherent(fs: FsModel) -> bool {
    forall|p: Seq<char>, c: Seq<char>|
        #![trigger fs(p), fs(join_seg(c, default_file()))]
        fs(p) == Some((c, EntryKind::Dir)) ==> fs(join_seg(p, default_file())) == fs(
            join_seg(c, default_file()),
        )
}

/// The fixed resolver of one document root.
pub struct Resolver {
    /// The canonicalized document root.
    document_root: String,
}

impl View for Resolver {
    type V = Seq<char>;

    closed spec fn view(&self) -> Seq<char> {
        self.document_root@
    }
}

/// `name` joined onto `dir` as one more segment.
fn join_name(dir: &str, name: &str) -> (r: String)
    ensures
        r@ == join_seg(dir@, name@),
{
    let chars = chars_of(dir);
    let mut out = dir.to_owned();
    if chars.len() == 0 || chars[chars.len() - 1] != '/' {
        out.append("/");
        proof {
            reveal_strlit("/");
            assert("/"@ =~= seq!['/']);
        }
    }
    out.append(name);
    out
}

/// Whether `p` is `root` or lies beneath it.
fn within(root: &Vec<char>, p: &Vec<char>) -> (r: bool)
    ensures
        r == is_within(root@, p@),
{
    if p.len() < root.len() {
        return false;
    }
    let mut i: usize = 0;
    while i < root.len()
        invariant
            root.len() <= p.len(),
            i <= root.len(),
            forall|j: int| 0 <= j < i ==> root@[j] == p@[j],
        decreases root.len() - i,
    {
        if root[i] != p[i] {
            assert(p@.take(root.len() as int)[i as int] == p@[i as int]);
            return false;
        }
        i = i + 1;
    }
    assert(p@.take(root.len() as int) =~= root@);
    if p.len() == root.len() {
        assert(p@ =~= root@);
        return true;
    }
    (root.len() > 0 && root[root.len() - 1] == '/') || p[root.len()] == '/'
}

impl Resolver {
    pub fn new(document_root: String) -> (r: Self)
        ensures
            r@ == document_root@,
    {
        Self { document_root }
    }

    /// The document root joined with the normalised resource.
    fn candidate(&self, resource: &str) -> (r: String)
        ensures
            r@ == candidate(self@, resource@),
    {
        let s = chars_of(resource);
        let root_chars = chars_of(self.document_root.as_str());
        let mut out = String::new();
        let mut start: usize = 0;
        let mut i: usize = 0;
        while i < s.len()
            invariant
                s@ == resource@,
                start <= i <= s.len(),
                out@ == kept(s@, start as int),
                kept(s@, i as int) == kept(s@, start as int) + s@.subrange(start as int, i as int),
            decreases s.len() - i,
        {
            let keep = s[i] != '/' || (i + 1 < s.len() && s[i + 1] != '/');
            assert(keep == keep_at(s@, i as int));
            if keep {
                let ghost pending = s@.subrange(start as int, i as int);
                assert(s@.subrange(start as int, i + 1) =~= pending.push(s@[i as int]));
            } else {
                if start < i {
                    out.append(resource.substring_char(start, i));
                }
                start = i + 1;
                assert(s@.subrange(start as int, start as int) =~= Seq::<char>::empty());
                assert(kept(s@, i + 1) =~= kept(s@, i + 1) + Seq::<char>::empty());
            }
            i = i + 1;
        }
        if start < i {
            out.append(resource.substring_char(start, i));
        }
        assert(out@ == normalized(resource@));
        if out.as_str().is_empty() {
            self.document_root.clone()
        } else if root_chars.len() > 0 && root_chars[root_chars.len() - 1] == '/' {
            let root = self.document_root.as_str();
            let mut joined = root.substring_char(0, root_chars.len() - 1).to_owned();
            assert(self@.subrange(0, root_chars.len() - 1) =~= self@.drop_last());
            joined.append(out.as_str());
            joined
        } else {
            let mut joined = self.document_root.clone();
            joined.append(out.as_str());
            joined
        }
    }

    /// Parses the resource and names the first path to look up.
    ///
    /// A resource that does not start with `/` is refused; otherwise its
    /// runs of separators are made one, trailing ones dropped, and the result
    /// joined onto the document root.
    pub fn resolve(&self, resource: String) -> (r: Resolution)
        ensures
            r@ == start(self@, resource@),
            !starts_with_sep(resource@) ==> r@ == Step::Failed(
                ResolveErrorView::PathShouldStartWithSlash(resource@),
            ),
    {
        let chars = chars_of(resource.as_str());
        if chars.len() == 0 || chars[0] != '/' {
            return Resolution::Failed(ResolveError::PathShouldStartWithSlash(resource));
        }
        let path = self.candidate(resource.as_str());
        Resolution::Lookup(Query { path, default_child: false })
    }

    /// Decides the step after looking up `query`: `entry` is what the
    /// filesystem said of its path, `None` where the path does not exist.
    ///
    /// A canonical path outside the document root is refused; a regular
    /// file is the result; a directory leads to its default file, which must
    /// itself be a regular file.
    pub fn advance(&self, query: Query, entry: Option<Entry>) -> (r: Resolution)
        ensures
            r@ == advance_step(self@, query.path@, query.default_child, entry_view(&entry)),
            r@ matches Step::Resolved(p) ==> is_within(self@, p) && entry_view(&entry) == Some(
                (p, EntryKind::File),
            ),
    {
        let found = match entry {
            None => {
                let missing = ParseError::InvalidPath(query.path);
                return Resolution::Failed(ResolveError::HttpPathError(missing));
            },
            Some(found) => found,
        };
        let root_chars = chars_of(self.document_root.as_str());
        let c = chars_of(found.canonical.as_str());
        if !within(&root_chars, &c) {
            let outside = HttpPath(found.canonical);
            return Resolution::Failed(ResolveError::PathOutsideDocumentRoot(outside));
        }
        if found.kind == EntryKind::File {
            Resolution::Resolved(HttpPath(found.canonical))
        } else if found.kind == EntryKind::Dir && !query.default_child {
            proof {
                reveal_strlit("index.html");
                assert("index.html"@ =~= default_file());
            }
            let path = join_name(found.canonical.as_str(), "index.html");
            Resolution::Lookup(Query { path, default_child: true })
        } else {
            let invalid = ParseError::InvalidPath(found.canonical);
            Resolution::Failed(ResolveError::HttpPathError(invalid))
        }
    }
}

proof fn lemma_kept_agree(s: Seq<char>, t: Seq<char>, n: int)
    requires
        0 <= n <= s.len(),
        n <= t.len(),
        forall|i: int| 0 <= i < n ==> s[i] == t[i] && keep_at(s, i) == keep_at(t, i),
    ensures
        kept(s, n) == kept(t, n),
    decreases n,
{
    if n > 0 {
        lemma_kept_agree(s, t, n - 1);
    }
}

proof fn lemma_kept_all(t: Seq<char>, m: int, n: int)
    requires
        0 <= m <= n <= t.len(),
        forall|i: int| m <= i < n ==> keep_at(t, i),
    ensures
        kept(t, n) == kept(t, m) + t.subrange(m, n),
    decreases n - m,
{
    if n == m {
        assert(kept(t, m) + t.subrange(m, n) =~= kept(t, m));
    } else {
        lemma_kept_all(t, m, n - 1);
        let before = kept(t, m) + t.subrange(m, n - 1);
        assert(kept(t, m) + t.subrange(m, n) =~= before.push(t[n - 1]));
    }
}

/// A kept separator is always followed by a kept non-separator.
proof fn lemma_kept_last(s: Seq<char>, n: int)
    requires
        0 <= n <= s.len(),
    ensures
        kept(s, n).len() > 0 && kept(s, n).last() == '/' ==> n < s.len() && s[n] != '/',
    decreases n,
{
    if n > 0 {
        lemma_kept_last(s, n - 1);
    }
}

proof fn lemma_normalized_no_trailing_sep(s: Seq<char>)
    ensures
        !ends_with_sep(normalized(s)),
{
    lemma_kept_last(s, s.len() as int);
}

/// The candidate of a resource with one more segment is the candidate of
/// the resource with that segment joined on.
proof fn lemma_candidate_default_child(root: Seq<char>, r: Seq<char>)
    requires
        starts_with_sep(r),
    ensures
        candidate(root, r + seq!['/'] + default_file()) == join_seg(
            candidate(root, r),
            default_file(),
        ),
{
    let tail = seq!['/'] + default_file();
    let t = r + tail;
    assert(t =~= r + seq!['/'] + default_file());
    let n = r.len() as int;
    assert forall|i: int| 0 <= i < n implies r[i] == t[i] && keep_at(r, i) == keep_at(t, i) by {
        assert(t[i] == r[i]);
        if i + 1 < n {
            assert(t[i + 1] == r[i + 1]);
        } else {
            assert(t[i + 1] == '/');
        }
    }
    lemma_kept_agree(r, t, n);
    assert forall|i: int| n <= i < t.len() implies keep_at(t, i) by {
        assert(t[i] == tail[i - n]);
        if i == n {
            assert(t[i + 1] == tail[1]);
        }
    }
    lemma_kept_all(t, n, t.len() as int);
    assert(t.subrange(n, t.len() as int) =~= tail);
    let rel = normalized(r);
    assert(normalized(t) == rel + tail);
    lemma_normalized_no_trailing_sep(r);
    if rel.len() == 0 {
        assert(rel + tail =~= tail);
        if ends_with_sep(root) {
            assert(root.drop_last() + tail =~= root + default_file());
        } else {
            assert(root + tail =~= root + seq!['/'] + default_file());
        }
    } else {
        if ends_with_sep(root) {
            let c = root.drop_last() + rel;
            assert(c.last() == rel.last());
            assert(root.drop_last() + (rel + tail) =~= c + seq!['/'] + default_file());
        } else {
            let c = root + rel;
            assert(c.last() == rel.last());
            assert(root + (rel + tail) =~= c + seq!['/'] + default_file());
        }
    }
}

/// Traversal safety: whatever the resource (`..` segments, symbolic links,
/// relative-looking suffixes), a resolution that succeeds yields a path that
/// the filesystem reported as the canonical form of a regular file, and that
/// lies within the document root.
pub proof fn lemma_traversal_safety(root: Seq<char>, resource: Seq<char>, fs: FsModel)
    ensures
        resolution(root, resource, fs) matches Step::Resolved(p) ==> is_within(root, p) && exists|
            q: Seq<char>,
        | #[trigger] fs(q) == Some((p, EntryKind::File)),
{
    if let Step::Resolved(p) = resolution(root, resource, fs) {
        let q = candidate(root, resource);
        let (c, k) = fs(q)->0;
        if k == EntryKind::File {
            assert(fs(q) == Some((p, EntryKind::File)));
        } else {
            let q2 = join_seg(c, default_file());
            assert(fs(q2) == Some((p, EntryKind::File)));
        }
    }
}

/// A resource that does not start with `/` is refused, whatever the
/// filesystem holds.
pub proof fn lemma_leading_separator(root: Seq<char>, resource: Seq<char>, fs: FsModel)
    requires
        !starts_with_sep(resource),
    ensures
        resolution(root, resource, fs) == Step::Failed(
            ResolveErrorView::PathShouldStartWithSlash(resource),
        ),
{
}

/// Resolving a resource that names a directory inside the document root
/// gives what resolving its default file directly gives, where that file
/// exists and is not itself a directory.
pub proof fn lemma_directory_default(
    root: Seq<char>,
    resource: Seq<char>,
    fs: FsModel,
    dir: Seq<char>,
)
    requires
        starts_with_sep(resource),
        dir_lookup_coherent(fs),
        fs(candidate(root, resource)) == Some((dir, EntryKind::Dir)),
        is_within(root, dir),
        fs(join_seg(dir, default_file())) is Some,
        !(fs(join_seg(dir, default_file())) matches Some((_, EntryKind::Dir))),
    ensures
        resolution(root, resource + seq!['/'] + default_file(), fs) == resolution(
            root,
            resource,
            fs,
        ),
{
    let t = resource + seq!['/'] + default_file();
    lemma_candidate_default_child(root, resource);
    assert(starts_with_sep(t)) by {
        assert(t[0] == resource[0]);
    }
    let p = candidate(root, resource);
    assert(fs(join_seg(p, default_file())) == fs(join_seg(dir, default_file())));
}

/// Resolution reads nothing but the document root, the resource and what the
/// filesystem says of the paths it looks up: resolving the same resource
/// twice against an unchanged filesystem gives the same result.
pub proof fn lemma_idempotent(root: Seq<char>, resource: Seq<char>, fs1: FsModel, fs2: FsModel)
    requires
        fs1(candidate(root, resource)) == fs2(candidate(root, resource)),
        forall|c: Seq<char>|
            fs1(candidate(root, resource)) == Some((c, EntryKind::Dir)) ==> fs1(
                #[trigger] join_seg(c, default_file()),
            ) == fs2(join_seg(c, default_file())),
    ensures
        resolution(root, resource, fs1) == resolution(root, resource, fs2),
{
    let p = candidate(root, resource);
    if starts_with_sep(resource) {
        if let Some((c, k)) = fs1(p) {
            if k == EntryKind::Dir {
                assert(fs1(join_seg(c, default_file())) == fs2(join_seg(c, default_file())));
            }
        }
    }
}

/// A trailing separator changes nothing: `"/foo/"` resolves as `"/foo"` does.
pub proof fn lemma_trailing_separator(root: Seq<char>, resource: Seq<char>, fs: FsModel)
    requires
        starts_with_sep(resource),
    ensures
        resolution(root, resource.push('/'), fs) == resolution(root, resource, fs),
{
    let t = resource.push('/');
    let n = resource.len() as int;
    assert forall|i: int| 0 <= i < n implies resource[i] == t[i] && keep_at(resource, i) == keep_at(
        t,
        i,
    ) by {
        if i + 1 < n {
            assert(t[i + 1] == resource[i + 1]);
        }
    }
    lemma_kept_agree(resource, t, n);
    assert(!keep_at(t, n));
    assert(normalized(t) == normalized(resource));
    assert(t[0] == resource[0]);
}

} // verus!
