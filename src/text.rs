//! Character-level helpers shared by the request parser and the resolver.
use vstd::prelude::*;
use vstd::std_specs::iter::IteratorSpec;

verus! {

broadcast use vstd::string::group_string_axioms;

/// The characters of `s`, in order.
pub fn chars_of(s: &str) -> (r: Vec<char>)
    ensures
        r@ == s@,
{
    let mut it = s.chars();
    let mut out: Vec<char> = Vec::new();
    loop
        invariant
            out.len() <= s@.len(),
            it.remaining() == s@.skip(out.len() as int),
            out@ == s@.take(out.len() as int),
        ensures
            out@ == s@,
        decreases s@.len() - out.len(),
    {
        let ghost before = it.remaining();
        let next = it.next();
        match next {
            Some(c) => {
                proof {
                    assert(before.len() > 0);
                    assert(c == s@[out.len() as int]);
                }
                out.push(c);
                assert(out@ =~= s@.take(out.len() as int));
                assert(it.remaining() =~= s@.skip(out.len() as int));
            },
            None => {
                assert(s@.skip(out.len() as int).len() == 0);
                assert(out@ =~= s@);
                break;
            },
        }
    }
    out
}

} // verus!

verus! {

/// The first index `k >= i` at which `a` is directly followed by `b`, or the
/// length of `s` where there is none.
pub open spec fn find_pair<T>(s: Seq<T>, a: T, b: T, i: int) -> int
    decreases s.len() - i,
{
    if i < 0 || i + 1 >= s.len() {
        s.len() as int
    } else if s[i] == a && s[i + 1] == b {
        i
    } else {
        find_pair(s, a, b, i + 1)
    }
}

/// Where a search for a pair can end.
pub proof fn lemma_find_pair_bounds<T>(s: Seq<T>, a: T, b: T, i: int)
    requires
        0 <= i,
    ensures
        i <= find_pair(s, a, b, i) || find_pair(s, a, b, i) == s.len(),
        find_pair(s, a, b, i) <= s.len(),
        find_pair(s, a, b, i) < s.len() ==> find_pair(s, a, b, i) + 1 < s.len()
            && s[find_pair(s, a, b, i)] == a && s[find_pair(s, a, b, i) + 1] == b,
    decreases s.len() - i,
{
    if i + 1 < s.len() && !(s[i] == a && s[i + 1] == b) {
        lemma_find_pair_bounds(s, a, b, i + 1);
    }
}

/// A pair found at `j` bounds the search from `i <= j`.
pub proof fn lemma_find_pair_before<T>(s: Seq<T>, a: T, b: T, i: int, j: int)
    requires
        0 <= i <= j,
        j + 1 < s.len(),
        s[j] == a,
        s[j + 1] == b,
    ensures
        find_pair(s, a, b, i) <= j,
    decreases j - i,
{
    if i < j && !(s[i] == a && s[i + 1] == b) {
        lemma_find_pair_before(s, a, b, i + 1, j);
    }
}

/// A pair found inside a prefix is found at the same place in the whole.
pub proof fn lemma_find_pair_prefix<T>(p: Seq<T>, s: Seq<T>, a: T, b: T, i: int)
    requires
        0 <= i,
        p.len() <= s.len(),
        s.take(p.len() as int) == p,
        find_pair(p, a, b, i) < p.len(),
    ensures
        find_pair(s, a, b, i) == find_pair(p, a, b, i),
    decreases p.len() - i,
{
    assert(forall|k: int| 0 <= k < p.len() ==> s.take(p.len() as int)[k] == s[k]);
    if i + 1 < p.len() && !(p[i] == a && p[i + 1] == b) {
        lemma_find_pair_prefix(p, s, a, b, i + 1);
    }
}

/// Where the first `"\r\n"` starts in `s`, or its length.
pub fn find_crlf_chars(s: &Vec<char>) -> (r: usize)
    ensures
        r == find_pair(s@, '\r', '\n', 0),
{
    let mut i: usize = 0;
    while i < s.len() && i + 1 < s.len() && !(s[i] == '\r' && s[i + 1] == '\n')
        invariant
            i <= s.len(),
            find_pair(s@, '\r', '\n', i as int) == find_pair(s@, '\r', '\n', 0),
        decreases s.len() - i,
    {
        i = i + 1;
    }
    if i >= s.len() || i + 1 >= s.len() {
        s.len()
    } else {
        i
    }
}

/// Where the first `"\r\n"` starts in `s`, or its length.
pub fn find_crlf_bytes(s: &[u8]) -> (r: usize)
    ensures
        r == find_pair(s@, 13u8, 10u8, 0),
{
    let mut i: usize = 0;
    while i < s.len() && i + 1 < s.len() && !(s[i] == 13u8 && s[i + 1] == 10u8)
        invariant
            i <= s.len(),
            find_pair(s@, 13u8, 10u8, i as int) == find_pair(s@, 13u8, 10u8, 0),
        decreases s.len() - i,
    {
        i = i + 1;
    }
    if i >= s.len() || i + 1 >= s.len() {
        s.len()
    } else {
        i
    }
}

/// Whether two strings hold the same characters.
pub fn same_chars(a: &str, b: &str) -> (r: bool)
    ensures
        r == (a@ == b@),
{
    let x = chars_of(a);
    let y = chars_of(b);
    if x.len() != y.len() {
        return false;
    }
    let mut i: usize = 0;
    while i < x.len()
        invariant
            x.len() == y.len(),
            x@ == a@,
            y@ == b@,
            i <= x.len(),
            forall|j: int| 0 <= j < i ==> x@[j] == y@[j],
        decreases x.len() - i,
    {
        if x[i] != y[i] {
            return false;
        }
        i = i + 1;
    }
    assert(x@ =~= y@);
    true
}

/// Unicode white space, as `char::is_whitespace` documents it (the
/// `White_Space` property).
pub open spec fn is_ws(c: char) -> bool {
    let u = c as u32;
    (9 <= u && u <= 13) || u == 32 || u == 0x85 || u == 0xa0 || u == 0x1680 || (0x2000 <= u
        && u <= 0x200a) || u == 0x2028 || u == 0x2029 || u == 0x202f || u == 0x205f || u
        == 0x3000
}

/// Whether `c` is white space.
pub fn is_ws_exec(c: char) -> (r: bool)
    ensures
        r == is_ws(c),
{
    let u = c as u32;
    (9 <= u && u <= 13) || u == 32 || u == 0x85 || u == 0xa0 || u == 0x1680 || (0x2000 <= u
        && u <= 0x200a) || u == 0x2028 || u == 0x2029 || u == 0x202f || u == 0x205f || u
        == 0x3000
}

/// Splitting the first `n` characters of `s` at white space: the words
/// already ended, and the word still open (empty between words).
pub open spec fn scan_words(s: Seq<char>, n: int) -> (Seq<Seq<char>>, Seq<char>)
    decreases n,
{
    if n <= 0 {
        (Seq::empty(), Seq::empty())
    } else {
        let (done, cur) = scan_words(s, n - 1);
        if is_ws(s[n - 1]) {
            if cur.len() > 0 {
                (done.push(cur), Seq::empty())
            } else {
                (done, cur)
            }
        } else {
            (done, cur.push(s[n - 1]))
        }
    }
}

/// The maximal runs of non-white-space characters of `s`, in order.
pub open spec fn words(s: Seq<char>) -> Seq<Seq<char>> {
    let (done, cur) = scan_words(s, s.len() as int);
    if cur.len() > 0 {
        done.push(cur)
    } else {
        done
    }
}

/// The characters of `s` in the half-open range `r`.
pub open spec fn range_text(s: Seq<char>, r: (usize, usize)) -> Seq<char> {
    s.subrange(r.0 as int, r.1 as int)
}

/// The character ranges of the words of `s`.
pub fn word_ranges(s: &Vec<char>) -> (r: Vec<(usize, usize)>)
    ensures
        r@.map_values(|p: (usize, usize)| range_text(s@, p)) == words(s@),
        forall|k: int| 0 <= k < r@.len() ==> #[trigger] r@[k].0 <= r@[k].1 <= s@.len(),
{
    let mut out: Vec<(usize, usize)> = Vec::new();
    let mut start: usize = 0;
    let mut i: usize = 0;
    while i < s.len()
        invariant
            start <= i <= s.len(),
            out@.map_values(|p: (usize, usize)| range_text(s@, p)) == scan_words(s@, i as int).0,
            s@.subrange(start as int, i as int) == scan_words(s@, i as int).1,
            forall|k: int| 0 <= k < out@.len() ==> #[trigger] out@[k].0 <= out@[k].1 <= s@.len(),
        decreases s.len() - i,
    {
        let ghost prev = out@;
        if is_ws_exec(s[i]) {
            if start < i {
                out.push((start, i));
                assert(out@.map_values(|p: (usize, usize)| range_text(s@, p)) =~= prev.map_values(
                    |p: (usize, usize)| range_text(s@, p),
                ).push(s@.subrange(start as int, i as int)));
            }
            start = i + 1;
        } else {
            assert(s@.subrange(start as int, i + 1) =~= s@.subrange(start as int, i as int).push(
                s@[i as int],
            ));
        }
        i = i + 1;
        assert(s@.subrange(start as int, i as int) =~= scan_words(s@, i as int).1);
    }
    if start < i {
        let ghost prev = out@;
        out.push((start, i));
        assert(out@.map_values(|p: (usize, usize)| range_text(s@, p)) =~= prev.map_values(
            |p: (usize, usize)| range_text(s@, p),
        ).push(s@.subrange(start as int, i as int)));
    }
    out
}

} // verus!
