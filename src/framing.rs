//! Framing one request out of a byte stream that arrives in chunks.
use vstd::prelude::*;
use vstd::utf8::{decode_utf8, valid_utf8};

use crate::http::{request_outcome, Headers, ParseError, ParseErrorView, Request, RequestLine};
use crate::http::line_of_tokens;
use crate::text::{
    find_crlf_bytes, find_pair, lemma_find_pair_before, lemma_find_pair_bounds,
    lemma_find_pair_prefix, words,
};

verus! {

/// The characters that lossy UTF-8 decoding makes of some bytes.
pub uninterp spec fn lossy_of(b: Seq<u8>) -> Seq<char>;

/// Relies on `String::from_utf8_lossy`: invalid sequences become U+FFFD, the
/// result depends on the bytes alone, and valid UTF-8 comes back unchanged.
#[verifier::external_body]
fn decode_lossy(b: &[u8]) -> (r: String)
    ensures
        r@ == lossy_of(b@),
        valid_utf8(b@) ==> r@ == decode_utf8(b@),
{
    String::from_utf8_lossy(b).into_owned()
}

/// The blank line that ends a request: `"\r\n\r\n"`.
pub open spec fn terminator() -> Seq<u8> {
    seq![13u8, 10u8, 13u8, 10u8]
}

pub open spec fn ends_with_terminator(b: Seq<u8>) -> bool {
    b.len() >= 4 && b.subrange(b.len() - 4, b.len() as int) == terminator()
}

/// The bytes of a framed buffer before its first `"\r\n"`, or all of them.
pub open spec fn first_line_bytes(b: Seq<u8>) -> Seq<u8> {
    b.take(find_pair(b, 13u8, 10u8, 0))
}

/// The request line that a framed byte buffer makes: the bytes before the
/// first `"\r\n"`, decoded lossily, split at white space.
pub open spec fn line_of_bytes(b: Seq<u8>) -> Result<RequestLine, ParseErrorView> {
    if b.len() == 0 {
        Err(ParseErrorView::EmptyRequest)
    } else {
        line_of_tokens(words(lossy_of(first_line_bytes(b))))
    }
}

/// The state of a framer: the bytes taken so far, and whether the request is complete.
pub struct FramerState {
    pub buffer: Seq<u8>,
    pub complete: bool,
}

/// One chunk handed to a framer; an empty chunk marks the end of input.
pub open spec fn feed_step(st: FramerState, chunk: Seq<u8>) -> FramerState {
    if st.complete {
        st
    } else if chunk.len() == 0 {
        FramerState { buffer: st.buffer, complete: true }
    } else {
        FramerState {
            buffer: st.buffer + chunk,
            complete: ends_with_terminator(st.buffer + chunk),
        }
    }
}

/// A framer that was handed `chunks`, in order, from its start.
pub open spec fn framed(chunks: Seq<Seq<u8>>) -> FramerState
    decreases chunks.len(),
{
    if chunks.len() == 0 {
        FramerState { buffer: Seq::empty(), complete: false }
    } else {
        feed_step(framed(chunks.drop_last()), chunks.last())
    }
}

/// The bytes of `chunks`, one after another.
pub open spec fn concat(chunks: Seq<Seq<u8>>) -> Seq<u8>
    decreases chunks.len(),
{
    if chunks.len() == 0 {
        Seq::empty()
    } else {
        concat(chunks.drop_last()) + chunks.last()
    }
}

/// Accumulates the bytes of one request until it ends with a blank line, or
/// until the input ends.
pub struct Framer {
    buffer: Vec<u8>,
    complete: bool,
}

impl View for Framer {
    type V = FramerState;

    closed spec fn view(&self) -> FramerState {
        FramerState { buffer: self.buffer@, complete: self.complete }
    }
}

impl Framer {
    pub fn new() -> (r: Framer)
        ensures
            r@ == framed(Seq::empty()),
    {
        Framer { buffer: Vec::new(), complete: false }
    }

    /// Takes one chunk of input (an empty one when the input has ended) and
    /// says whether the request is now complete.
    pub fn feed(&mut self, chunk: &[u8]) -> (done: bool)
        ensures
            final(self)@ == feed_step(old(self)@, chunk@),
            done == final(self)@.complete,
    {
        if self.complete {
            return true;
        }
        if chunk.len() == 0 {
            self.complete = true;
            return true;
        }
        let mut i: usize = 0;
        let ghost start = self.buffer@;
        while i < chunk.len()
            invariant
                i <= chunk@.len(),
                self.buffer@ == start + chunk@.take(i as int),
                !self.complete,
            decreases chunk.len() - i,
        {
            self.buffer.push(chunk[i]);
            i = i + 1;
            assert(self.buffer@ =~= start + chunk@.take(i as int));
        }
        assert(chunk@.take(i as int) =~= chunk@);
        self.complete = self.ends_with_terminator();
        self.complete
    }

    fn ends_with_terminator(&self) -> (r: bool)
        ensures
            r == ends_with_terminator(self.buffer@),
    {
        let n = self.buffer.len();
        if n < 4 {
            return false;
        }
        let b = &self.buffer;
        let r = b[n - 4] == 13u8 && b[n - 3] == 10u8 && b[n - 2] == 13u8 && b[n - 1] == 10u8;
        let ghost tail = self.buffer@.subrange(n - 4, n as int);
        assert(r ==> tail =~= terminator());
        assert(tail == terminator() ==> tail[0] == 13u8 && tail[1] == 10u8 && tail[2] == 13u8
            && tail[3] == 10u8);
        r
    }

    /// Parses what was framed: the bytes up to the first line break are
    /// decoded lossily and read as the request line.
    pub fn finish(&self) -> (r: Result<Request, ParseError>)
        ensures
            request_outcome(&r) == line_of_bytes(self@.buffer),
            self@.buffer.len() > 0 && valid_utf8(first_line_bytes(self@.buffer)) ==> request_outcome(
                &r,
            ) == line_of_tokens(words(decode_utf8(first_line_bytes(self@.buffer)))),
            r is Ok ==> r->Ok_0.headers.other_headers@ == Map::<String, String>::empty(),
            r is Ok ==> r->Ok_0.body@.len() == 0,
    {
        if self.buffer.len() == 0 {
            return Err(ParseError::EmptyRequest);
        }
        let bytes = self.buffer.as_slice();
        let end = find_crlf_bytes(bytes);
        proof {
            lemma_find_pair_bounds(self.buffer@, 13u8, 10u8, 0);
        }
        let line = decode_lossy(vstd::slice::slice_subrange(bytes, 0, end));
        assert(self.buffer@.subrange(0, end as int) =~= self.buffer@.take(end as int));
        match Headers::from_line(line.as_str()) {
            Ok(headers) => Ok(Request { headers, body: Vec::new() }),
            Err(e) => Err(e),
        }
    }
}

/// A framer handed non-empty chunks holds a prefix of their bytes: all of
/// them while it waits for more, and one that ends with the blank line once
/// it is complete.
proof fn lemma_framed_prefix(chunks: Seq<Seq<u8>>)
    requires
        forall|i: int| 0 <= i < chunks.len() ==> (#[trigger] chunks[i]).len() > 0,
    ensures
        framed(chunks).buffer.len() <= concat(chunks).len(),
        concat(chunks).take(framed(chunks).buffer.len() as int) == framed(chunks).buffer,
        !framed(chunks).complete ==> framed(chunks).buffer == concat(chunks),
        framed(chunks).complete ==> ends_with_terminator(framed(chunks).buffer),
    decreases chunks.len(),
{
    if chunks.len() > 0 {
        let pre = chunks.drop_last();
        assert forall|i: int| 0 <= i < pre.len() implies (#[trigger] pre[i]).len() > 0 by {
            assert(pre[i] == chunks[i]);
        }
        lemma_framed_prefix(pre);
        assert(chunks[chunks.len() - 1] == chunks.last());
        let b = framed(pre).buffer;
        let s = concat(chunks);
        assert(s.take(concat(pre).len() as int) =~= concat(pre));
        assert(s.take(b.len() as int) =~= concat(pre).take(b.len() as int));
    }
}

/// However a stream of bytes is cut into non-empty chunks, framing it yields
/// the same request as framing it handed over in one piece.
pub proof fn lemma_chunking_invariant(chunks: Seq<Seq<u8>>)
    requires
        forall|i: int| 0 <= i < chunks.len() ==> (#[trigger] chunks[i]).len() > 0,
    ensures
        framed(seq![concat(chunks)]).buffer == concat(chunks),
        line_of_bytes(framed(chunks).buffer) == line_of_bytes(framed(seq![concat(chunks)]).buffer),
{
    let s = concat(chunks);
    let b = framed(chunks).buffer;
    assert(seq![s].drop_last() =~= Seq::<Seq<u8>>::empty());
    assert(seq![s].last() == s);
    assert(Seq::<u8>::empty() + s =~= s);
    assert(framed(seq![s]) == feed_step(framed(Seq::empty()), s));
    if s.len() == 0 {
        assert(s =~= Seq::<u8>::empty());
    }
    lemma_framed_prefix(chunks);
    if b != s {
        let n = b.len() as int;
        assert(b.subrange(n - 4, n)[2] == b[n - 2]);
        assert(b.subrange(n - 4, n)[3] == b[n - 1]);
        lemma_find_pair_before(b, 13u8, 10u8, 0, n - 2);
        lemma_find_pair_bounds(b, 13u8, 10u8, 0);
        lemma_find_pair_prefix(b, s, 13u8, 10u8, 0);
        let k = find_pair(b, 13u8, 10u8, 0);
        assert(s.take(k) =~= b.take(k));
    }
}

} // verus!
