//! The client side of the JSON API: framing requests and reading the body
//! of a response as it arrives.
use vstd::prelude::*;
use vstd::slice::slice_subrange;
use vstd::string::StringSliceAdditionalSpecFns;
use crate::framing::{content_length, content_length_in, find_header_end, header_end, lemma_terminator_from};
use crate::routes::starts_with;
use crate::response::{decimal_digits, header_terminator, push_all, push_decimal};

verus! {

/// `http://`.
pub open spec fn http_prefix() -> Seq<u8> {
    seq![104u8, 116u8, 116u8, 112u8, 58u8, 47u8, 47u8]
}

/// ` HTTP/1.1`, a line break and `Host: `.
pub open spec fn version_and_host() -> Seq<u8> {
    seq![32u8, 72u8, 84u8, 84u8, 80u8, 47u8, 49u8, 46u8, 49u8, 13u8, 10u8, 72u8, 111u8, 115u8, 116u8, 58u8, 32u8]
}

/// The JSON content type line and the `Content-Length: ` label.
pub open spec fn json_length_label() -> Seq<u8> {
    seq![13u8, 10u8, 67u8, 111u8, 110u8, 116u8, 101u8, 110u8, 116u8, 45u8, 84u8, 121u8, 112u8, 101u8, 58u8, 32u8, 97u8, 112u8, 112u8, 108u8, 105u8, 99u8, 97u8, 116u8, 105u8, 111u8, 110u8, 47u8, 106u8, 115u8, 111u8, 110u8, 13u8, 10u8, 67u8, 111u8, 110u8, 116u8, 101u8, 110u8, 116u8, 45u8, 76u8, 101u8, 110u8, 103u8, 116u8, 104u8, 58u8, 32u8]
}

/// `u` with every `http://` removed, scanning from the left as
/// `str::replace` does.
pub open spec fn host_of(u: Seq<u8>) -> Seq<u8>
    decreases u.len(),
{
    if u.len() == 0 {
        Seq::empty()
    } else if u.len() >= 7 && u.subrange(0, 7) == http_prefix() {
        host_of(u.subrange(7, u.len() as int))
    } else {
        seq![u[0]] + host_of(u.subrange(1, u.len() as int))
    }
}

/// The bytes of a request to `host`: request line, `Host` header and, with a
/// body, its JSON content type and length.
pub open spec fn request_bytes(method: Seq<u8>, endpoint: Seq<u8>, host: Seq<u8>, body: Option<Seq<u8>>) -> Seq<u8> {
    method + seq![32u8] + endpoint + version_and_host() + host + match body {
        Some(b) => json_length_label() + decimal_digits(b.len()) + header_terminator() + b,
        None => header_terminator(),
    }
}

/// Whether a buffered response is whole: its headers are in and declare a
/// length, and that many body bytes follow.
pub open spec fn response_complete(b: Seq<u8>) -> bool {
    b.len() > 4 && (header_end(b) matches Some(h) && (content_length(b.subrange(0, h)) matches Some(
        n,
    ) && b.len() >= h + 4 + n))
}

/// `b` without trailing zero bytes.
pub open spec fn without_trailing_zeros(b: Seq<u8>) -> Seq<u8>
    decreases b.len(),
{
    if b.len() > 0 && b.last() == 0u8 {
        without_trailing_zeros(b.drop_last())
    } else {
        b
    }
}

/// The body of a response: what follows the header terminator, without
/// trailing zero bytes; an error when there is no terminator, or when fewer
/// bytes follow it than the headers declare.
pub open spec fn response_body(b: Seq<u8>) -> Result<Seq<u8>, ClientError> {
    match header_end(b) {
        Some(h) => match content_length(b.subrange(0, h)) {
            Some(n) if b.len() < h + 4 + n => Err(ClientError::IncompleteResponse),
            _ => Ok(without_trailing_zeros(b.subrange(h + 4, b.len() as int))),
        },
        None => Err(ClientError::InvalidResponse),
    }
}

/// Why a response could not be read.
#[derive(Clone, Copy, Debug, PartialEq, Eq, Structural)]
pub enum ClientError {
    /// The response has no header terminator.
    InvalidResponse,
    /// The connection ended before the declared body length arrived.
    IncompleteResponse,
}

/// A client of the JSON API.
pub struct ApiClient {
    base_url: String,
}

impl ApiClient {
    /// The base URL the client talks to.
    pub closed spec fn base_url_view(&self) -> Seq<char> {
        self.base_url@
    }

    /// A client for `base_url`.
    pub fn new(base_url: &str) -> (r: ApiClient)
        ensures
            r.base_url_view() == base_url@,
    {
        ApiClient { base_url: String::from_str(base_url) }
    }

    /// The `Content-Length` of a header block (see `content_length`).
    pub fn extract_content_length(headers: &str) -> (r: Option<usize>)
        ensures
            r matches Some(v) ==> content_length(headers.spec_bytes()) == Some(v as nat),
            r is None ==> content_length(headers.spec_bytes()) is None,
    {
        let b = headers.as_bytes();
        assert(b@.subrange(0, b@.len() as int) =~= b@);
        content_length_in(b, b.len())
    }

    /// The host and port of the base URL.
    pub fn host(&self) -> (r: Vec<u8>)
        ensures
            r@ == host_of(vstd::utf8::encode_utf8(self.base_url_view())),
    {
        let b = self.base_url.as_str().as_bytes();
        let n = b.len();
        let prefix: [u8; 7] = [104u8, 116u8, 116u8, 112u8, 58u8, 47u8, 47u8];
        assert(prefix@ =~= http_prefix());
        let mut out: Vec<u8> = Vec::new();
        let mut i: usize = 0;
        assert(b@.subrange(0, n as int) =~= b@);
        while i < n
            invariant
                0 <= i <= n,
                n == b@.len(),
                prefix@ == http_prefix(),
                out@ + host_of(b@.subrange(i as int, n as int)) == host_of(b@),
            decreases n - i,
        {
            let ghost rest = b@.subrange(i as int, n as int);
            let tail = slice_subrange(b, i, n);
            if starts_with(tail, &prefix) {
                assert(rest.subrange(7, rest.len() as int) =~= b@.subrange(i + 7, n as int));
                i = i + 7;
            } else {
                assert(rest.subrange(1, rest.len() as int) =~= b@.subrange(i + 1, n as int));
                let ghost later = host_of(b@.subrange(i + 1, n as int));
                assert(out@.push(b@[i as int]) + later =~= out@ + (seq![rest[0]] + later));
                out.push(b[i]);
                i = i + 1;
            }
        }
        assert(b@.subrange(n as int, n as int) =~= Seq::<u8>::empty());
        assert(out@ + Seq::<u8>::empty() =~= out@);
        out
    }

    /// The bytes of a request for `endpoint` (see `request_bytes`).
    pub fn build_request(&self, method: &str, endpoint: &str, body: Option<&str>) -> (r: Vec<u8>)
        ensures
            r@ == request_bytes(
                method.spec_bytes(),
                endpoint.spec_bytes(),
                host_of(vstd::utf8::encode_utf8(self.base_url_view())),
                match body {
                    Some(t) => Some(t.spec_bytes()),
                    None => None,
                },
            ),
    {
        let mut out: Vec<u8> = Vec::new();
        push_all(&mut out, method.as_bytes());
        out.push(32u8);
        push_all(&mut out, endpoint.as_bytes());
        let vh: [u8; 17] = [32u8, 72u8, 84u8, 84u8, 80u8, 47u8, 49u8, 46u8, 49u8, 13u8, 10u8, 72u8, 111u8, 115u8, 116u8, 58u8, 32u8];
        assert(vh@ =~= version_and_host());
        push_all(&mut out, &vh);
        let host = self.host();
        push_all(&mut out, host.as_slice());
        let end: [u8; 4] = [13u8, 10u8, 13u8, 10u8];
        assert(end@ =~= header_terminator());
        match body {
            Some(t) => {
                let bytes = t.as_bytes();
                let label: [u8; 50] = [13u8, 10u8, 67u8, 111u8, 110u8, 116u8, 101u8, 110u8, 116u8, 45u8, 84u8, 121u8, 112u8, 101u8, 58u8, 32u8, 97u8, 112u8, 112u8, 108u8, 105u8, 99u8, 97u8, 116u8, 105u8, 111u8, 110u8, 47u8, 106u8, 115u8, 111u8, 110u8, 13u8, 10u8, 67u8, 111u8, 110u8, 116u8, 101u8, 110u8, 116u8, 45u8, 76u8, 101u8, 110u8, 103u8, 116u8, 104u8, 58u8, 32u8];
                assert(label@ =~= json_length_label());
                push_all(&mut out, &label);
                push_decimal(&mut out, bytes.len());
                push_all(&mut out, &end);
                push_all(&mut out, bytes);
            },
            None => {
                push_all(&mut out, &end);
            },
        }
        proof {
            let tail = match body {
                Some(t) => json_length_label() + decimal_digits(t.spec_bytes().len()) + header_terminator() + t.spec_bytes(),
                None => header_terminator(),
            };
            assert(out@ =~= method.spec_bytes() + seq![32u8] + endpoint.spec_bytes() + version_and_host() + host@ + tail);
        }
        out
    }

    /// Whether the buffered response `b` is whole (see `response_complete`).
    pub fn is_response_complete(b: &[u8]) -> (r: bool)
        ensures
            r == response_complete(b@),
    {
        if b.len() <= 4 {
            return false;
        }
        match find_header_end(b) {
            None => false,
            Some(h) => match content_length_in(b, h) {
                None => false,
                Some(n) => b.len() - h - 4 >= n,
            },
        }
    }

    /// The body of a buffered response (see `response_body`).
    pub fn extract_body(b: &[u8]) -> (r: Result<Vec<u8>, ClientError>)
        ensures
            r matches Ok(v) ==> response_body(b@) == Ok::<Seq<u8>, ClientError>(v@),
            r matches Err(e) ==> response_body(b@) == Err::<Seq<u8>, ClientError>(e),
    {
        match find_header_end(b) {
            None => Err(ClientError::InvalidResponse),
            Some(h) => {
                if let Some(n) = content_length_in(b, h) {
                    if b.len() - h - 4 < n {
                        return Err(ClientError::IncompleteResponse);
                    }
                }
                let mut e = b.len();
                let ghost whole = b@.subrange(h + 4, b@.len() as int);
                while e > h + 4 && b[e - 1] == 0u8
                    invariant
                        h + 4 <= e <= b@.len(),
                        whole == b@.subrange(h + 4, b@.len() as int),
                        without_trailing_zeros(whole) == without_trailing_zeros(b@.subrange(h + 4, e as int)),
                    decreases e,
                {
                    assert(b@.subrange(h + 4, e as int).drop_last() =~= b@.subrange(h + 4, e - 1));
                    e = e - 1;
                }
                let mut out: Vec<u8> = Vec::new();
                push_all(&mut out, slice_subrange(b, h + 4, e));
                Ok(out)
            },
        }
    }
}

} // verus!
