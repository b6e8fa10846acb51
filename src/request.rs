//! Reading an HTTP request from a byte stream that arrives in fragments,
//! and splitting it into method, path and body.
use vstd::prelude::*;
use vstd::slice::{slice_subrange, slice_to_vec};
use crate::framing::{
    content_length, content_length_in, find_header_end, find_line_end, header_end,
    lemma_header_end_extend, lemma_terminator_from, line_end,
};

verus! {

/// The request method.
#[derive(Clone, Copy, Debug, PartialEq, Eq, Structural)]
pub enum Method {
    Get,
    Post,
    Other,
}

/// Why no request could be produced.
#[derive(Clone, Copy, Debug, PartialEq, Eq, Structural)]
pub enum ReadError {
    /// The connection closed before any byte arrived.
    ConnectionClosed,
    /// The connection closed in the middle of a message.
    IncompleteRequest,
    /// The request line has no space between method and path.
    MalformedRequest,
}

/// A request split into its parts.
#[derive(Clone, Debug)]
pub struct ParsedRequest {
    pub method: Method,
    pub path: Vec<u8>,
    pub body: Vec<u8>,
}

/// The mathematical value of a `ParsedRequest`.
pub struct RequestView {
    pub method: Method,
    pub path: Seq<u8>,
    pub body: Seq<u8>,
}

impl View for ParsedRequest {
    type V = RequestView;

    open spec fn view(&self) -> RequestView {
        RequestView { method: self.method, path: self.path@, body: self.body@ }
    }
}

/// The body length that the header block before `h` declares (zero if none).
pub open spec fn declared_len(b: Seq<u8>, h: int) -> nat {
    match content_length(b.subrange(0, h)) {
        Some(n) => n,
        None => 0,
    }
}

/// Whether `b` holds a whole message: the header terminator and then at least
/// the declared number of body bytes.
pub open spec fn message_complete(b: Seq<u8>) -> bool {
    header_end(b) matches Some(h) && b.len() >= h + 4 + declared_len(b, h)
}

/// The first position at or after `i` of byte `c` in `s`, or `s.len()`.
pub open spec fn index_of(s: Seq<u8>, c: u8, i: int) -> int
    decreases s.len() - i,
{
    if i < 0 || i >= s.len() {
        s.len() as int
    } else if s[i] == c {
        i
    } else {
        index_of(s, c, i + 1)
    }
}

/// The request line of a header block, without its line break.
pub open spec fn request_line(hb: Seq<u8>) -> Seq<u8> {
    let e = line_end(hb, 0);
    if e > 0 && hb[e - 1] == 13u8 {
        hb.subrange(0, e - 1)
    } else {
        hb.subrange(0, e)
    }
}

/// The method named by its bytes.
pub open spec fn method_of(m: Seq<u8>) -> Method {
    if m == seq![71u8, 69u8, 84u8] {
        Method::Get
    } else if m == seq![80u8, 79u8, 83u8, 84u8] {
        Method::Post
    } else {
        Method::Other
    }
}

/// `HTTP/`, the start of the protocol token.
pub open spec fn protocol_prefix() -> Seq<u8> {
    seq![72u8, 84u8, 84u8, 80u8, 47u8]
}

/// Whether the request line `rl` holds a protocol token starting at `i`.
pub open spec fn has_protocol(rl: Seq<u8>, i: int) -> bool {
    0 <= i && i + 5 <= rl.len() && rl.subrange(i, i + 5) == protocol_prefix()
}

/// The method and path of a request line: the method up to the first space,
/// the path up to the next; a protocol token starting with `HTTP/` must
/// follow.
pub open spec fn line_parts(rl: Seq<u8>) -> Option<(Method, Seq<u8>)> {
    let sp = index_of(rl, 32u8, 0);
    let pe = index_of(rl, 32u8, sp + 1);
    if sp >= rl.len() || !has_protocol(rl, pe + 1) {
        None
    } else {
        Some((method_of(rl.subrange(0, sp)), rl.subrange(sp + 1, pe)))
    }
}

/// The request that the buffered bytes `b` make up, or why there is none.
/// The method is the request line up to the first space, the path what
/// follows up to the next space, after which a protocol token starting with
/// `HTTP/` must come; the body is the declared number of bytes
/// after the header terminator.
pub open spec fn request_of(b: Seq<u8>) -> Result<RequestView, ReadError> {
    if !message_complete(b) {
        if b.len() == 0 {
            Err(ReadError::ConnectionClosed)
        } else {
            Err(ReadError::IncompleteRequest)
        }
    } else {
        let h = header_end(b)->0;
        let rl = request_line(b.subrange(0, h));
        match line_parts(rl) {
            None => Err(ReadError::MalformedRequest),
            Some((method, path)) => Ok(
                RequestView { method, path, body: b.subrange(h + 4, h + 4 + declared_len(b, h)) },
            ),
        }
    }
}

pub(crate) proof fn lemma_index_of(s: Seq<u8>, c: u8, i: int)
    requires
        0 <= i <= s.len(),
    ensures
        i <= index_of(s, c, i) <= s.len(),
    decreases s.len() - i,
{
    if i < s.len() && s[i] != c {
        lemma_index_of(s, c, i + 1);
    }
}

pub(crate) fn find_byte(b: &[u8], lo: usize, hi: usize, c: u8) -> (r: usize)
    requires
        lo <= hi <= b@.len(),
    ensures
        r as int == lo + index_of(b@.subrange(lo as int, hi as int), c, 0),
        lo <= r <= hi,
{
    let ghost s = b@.subrange(lo as int, hi as int);
    proof {
        lemma_index_of(s, c, 0);
    }
    let mut j = lo;
    while j < hi && b[j] != c
        invariant
            lo <= j <= hi <= b@.len(),
            s == b@.subrange(lo as int, hi as int),
            index_of(s, c, 0) == index_of(s, c, j - lo),
        decreases hi - j,
    {
        j = j + 1;
    }
    proof {
        lemma_index_of(s, c, j - lo);
    }
    j
}

fn copy_range(b: &[u8], lo: usize, hi: usize) -> (r: Vec<u8>)
    requires
        lo <= hi <= b@.len(),
    ensures
        r@ == b@.subrange(lo as int, hi as int),
{
    slice_to_vec(slice_subrange(b, lo, hi))
}

/// The total length of the message in `b` when it is complete.
pub fn message_len(b: &[u8]) -> (r: Option<usize>)
    ensures
        r is Some <==> message_complete(b@),
        r matches Some(n) ==> n == header_end(b@)->0 + 4 + declared_len(b@, header_end(b@)->0),
{
    match find_header_end(b) {
        None => None,
        Some(h) => {
            let cl = match content_length_in(b, h) {
                Some(n) => n,
                None => 0,
            };
            if b.len() - h - 4 >= cl {
                Some(h + 4 + cl)
            } else {
                None
            }
        },
    }
}

fn protocol_at(b: &[u8], end: usize, i: usize) -> (r: bool)
    requires
        end <= b@.len(),
        i <= end + 1,
    ensures
        r == has_protocol(b@.subrange(0, end as int), i as int),
{
    let ghost rl = b@.subrange(0, end as int);
    if i > end || end - i < 5 {
        return false;
    }
    let r = b[i] == 72u8 && b[i + 1] == 84u8 && b[i + 2] == 84u8 && b[i + 3] == 80u8 && b[i + 4] == 47u8;
    let ghost t = rl.subrange(i as int, i + 5);
    assert(t[0] == b@[i as int] && t[1] == b@[i + 1] && t[2] == b@[i + 2] && t[3] == b@[i + 3] && t[4]
        == b@[i + 4]);
    if r {
        assert(t =~= protocol_prefix());
    } else {
        assert(t != protocol_prefix());
    }
    r
}

/// Splits the request line `b[..end]` (see `line_parts`).
fn split_request_line(b: &[u8], end: usize) -> (r: Option<(Method, Vec<u8>)>)
    requires
        end <= b@.len(),
    ensures
        r matches Some((m, p)) ==> line_parts(b@.subrange(0, end as int)) == Some((m, p@)),
        r is None ==> line_parts(b@.subrange(0, end as int)) is None,
{
    let ghost rl = b@.subrange(0, end as int);
    let rl_end = end;
    assert(rl =~= b@.subrange(0, rl_end as int));
    let sp = find_byte(b, 0, rl_end, 32u8);
    if sp >= rl_end {
        return None;
    }
    let pe = find_byte(b, sp + 1, rl_end, 32u8);
    proof {
        assert(b@.subrange(sp + 1, rl_end as int) =~= rl.subrange(sp + 1, rl.len() as int));
        lemma_index_shift(rl, 32u8, sp + 1, 0);
    }
    if pe >= rl_end || !protocol_at(b, rl_end, pe + 1) {
        return None;
    }
    proof {
        assert(rl.subrange(0, sp as int) =~= b@.subrange(0, sp as int));
        assert(rl.subrange(sp + 1, pe as int) =~= b@.subrange(sp + 1, pe as int));
    }
    let mb = copy_range(b, 0, sp);
    let method = if mb.len() == 3 && mb[0] == 71u8 && mb[1] == 69u8 && mb[2] == 84u8 {
        assert(mb@ =~= seq![71u8, 69u8, 84u8]);
        Method::Get
    } else if mb.len() == 4 && mb[0] == 80u8 && mb[1] == 79u8 && mb[2] == 83u8 && mb[3] == 84u8 {
        assert(mb@ =~= seq![80u8, 79u8, 83u8, 84u8]);
        Method::Post
    } else {
        Method::Other
    };
    let path = copy_range(b, sp + 1, pe);
    Some((method, path))
}

/// Splits the buffered bytes `b` into a request (see `request_of`).
pub fn parse_request(b: &[u8]) -> (r: Result<ParsedRequest, ReadError>)
    ensures
        r matches Ok(p) ==> request_of(b@) == Ok::<RequestView, ReadError>(p@),
        r matches Err(e) ==> request_of(b@) == Err::<RequestView, ReadError>(e),
{
    let total = match message_len(b) {
        Some(t) => t,
        None => {
            if b.len() == 0 {
                return Err(ReadError::ConnectionClosed);
            } else {
                return Err(ReadError::IncompleteRequest);
            }
        },
    };
    let h = find_header_end(b).unwrap();
    let ghost hb = b@.subrange(0, h as int);
    let e = find_line_end(b, h, 0);
    let rl_end = if e > 0 && b[e - 1] == 13u8 {
        e - 1
    } else {
        e
    };
    let ghost rl = request_line(hb);
    assert(rl =~= b@.subrange(0, rl_end as int));
    match split_request_line(b, rl_end) {
        None => Err(ReadError::MalformedRequest),
        Some((method, path)) => {
            let body = copy_range(b, h + 4, total);
            Ok(ParsedRequest { method, path, body })
        },
    }
}

pub(crate) proof fn lemma_index_shift(s: Seq<u8>, c: u8, lo: int, k: int)
    requires
        0 <= lo <= s.len(),
        0 <= k <= s.len() - lo,
    ensures
        lo + index_of(s.subrange(lo, s.len() as int), c, k) == index_of(s, c, lo + k),
    decreases s.len() - lo - k,
{
    if k < s.len() - lo {
        assert(s.subrange(lo, s.len() as int)[k] == s[lo + k]);
        if s[lo + k] != c {
            lemma_index_shift(s, c, lo, k + 1);
        }
    }
}

/// Where a reader stands in receiving one message.
#[derive(Clone, Copy, Debug, PartialEq, Eq, Structural)]
pub enum ReadState {
    /// The header terminator has not arrived yet.
    AwaitingHeaders,
    /// The headers are in; this many body bytes are still owed.
    AwaitingBody(usize),
    /// The whole message is buffered.
    Complete,
}

/// The state of a reader that has buffered `b`.
pub open spec fn state_of(b: Seq<u8>) -> ReadState {
    match header_end(b) {
        None => ReadState::AwaitingHeaders,
        Some(h) => if b.len() >= h + 4 + declared_len(b, h) {
            ReadState::Complete
        } else {
            ReadState::AwaitingBody((h + 4 + declared_len(b, h) - b.len()) as usize)
        },
    }
}

/// Accumulates the fragments of one request as they arrive.
pub struct RequestReader {
    buffer: Vec<u8>,
}

impl View for RequestReader {
    type V = Seq<u8>;

    closed spec fn view(&self) -> Seq<u8> {
        self.buffer@
    }
}

impl RequestReader {
    /// A reader that has received nothing.
    pub fn new() -> (r: RequestReader)
        ensures
            r@ == Seq::<u8>::empty(),
    {
        RequestReader { buffer: Vec::new() }
    }

    /// Appends one fragment; says whether the message is now complete.
    pub fn feed(&mut self, chunk: &[u8]) -> (complete: bool)
        ensures
            final(self)@ == old(self)@ + chunk@,
            complete == message_complete(final(self)@),
    {
        let mut i: usize = 0;
        while i < chunk.len()
            invariant
                0 <= i <= chunk@.len(),
                self@ == old(self)@ + chunk@.subrange(0, i as int),
            decreases chunk@.len() - i,
        {
            self.buffer.push(chunk[i]);
            assert(chunk@.subrange(0, i + 1) =~= chunk@.subrange(0, i as int).push(chunk@[i as int]));
            i = i + 1;
        }
        assert(chunk@.subrange(0, chunk@.len() as int) =~= chunk@);
        message_len(self.buffer.as_slice()).is_some()
    }

    /// Where the reader stands.
    pub fn state(&self) -> (r: ReadState)
        ensures
            r == state_of(self@),
    {
        let b = self.buffer.as_slice();
        match find_header_end(b) {
            None => ReadState::AwaitingHeaders,
            Some(h) => {
                let cl = match content_length_in(b, h) {
                    Some(n) => n,
                    None => 0,
                };
                let got = b.len() - h - 4;
                if got >= cl {
                    ReadState::Complete
                } else {
                    ReadState::AwaitingBody(cl - got)
                }
            },
        }
    }

    /// The request, once the message is complete or the connection has
    /// closed (see `request_of`).
    pub fn finish(&self) -> (r: Result<ParsedRequest, ReadError>)
        ensures
            r matches Ok(p) ==> request_of(self@) == Ok::<RequestView, ReadError>(p@),
            r matches Err(e) ==> request_of(self@) == Err::<RequestView, ReadError>(e),
    {
        parse_request(self.buffer.as_slice())
    }
}

/// Once a buffered prefix holds a whole message, more bytes after it change
/// neither completeness nor the request.
pub proof fn lemma_complete_prefix(p: Seq<u8>, m: Seq<u8>)
    requires
        p.len() <= m.len(),
        p =~= m.subrange(0, p.len() as int),
        message_complete(p),
    ensures
        message_complete(m),
        request_of(m) == request_of(p),
{
    lemma_header_end_extend(p, m);
    let h = header_end(p)->0;
    lemma_terminator_from(p, 0);
    assert(p.subrange(0, h) =~= m.subrange(0, h));
    let n = declared_len(p, h);
    assert(p.subrange(h + 4, h + 4 + n) =~= m.subrange(h + 4, h + 4 + n));
}

/// The bytes of a sequence of fragments, in order.
pub open spec fn joined(chunks: Seq<Seq<u8>>) -> Seq<u8>
    decreases chunks.len(),
{
    if chunks.len() == 0 {
        Seq::empty()
    } else {
        joined(chunks.drop_last()) + chunks.last()
    }
}

proof fn lemma_joined_prefix(chunks: Seq<Seq<u8>>, k: int)
    requires
        0 <= k <= chunks.len(),
    ensures
        joined(chunks.take(k)).len() <= joined(chunks).len(),
        joined(chunks.take(k)) =~= joined(chunks).subrange(0, joined(chunks.take(k)).len() as int),
    decreases chunks.len() - k,
{
    if k < chunks.len() {
        lemma_joined_prefix(chunks, k + 1);
        let a = chunks.take(k + 1);
        assert(a.drop_last() =~= chunks.take(k));
        assert(joined(a) == joined(chunks.take(k)) + a.last());
    } else {
        assert(chunks.take(k) =~= chunks);
    }
}

/// A request delivered in fragments is read as if it came in one piece:
/// once the fragments received so far hold a whole message, the request
/// they give is the one that all fragments together give.
pub proof fn lemma_fragmented_read(chunks: Seq<Seq<u8>>, k: int)
    requires
        0 <= k <= chunks.len(),
        message_complete(joined(chunks.take(k))),
    ensures
        message_complete(joined(chunks)),
        request_of(joined(chunks.take(k))) == request_of(joined(chunks)),
{
    lemma_joined_prefix(chunks, k);
    lemma_complete_prefix(joined(chunks.take(k)), joined(chunks));
}

} // verus!
