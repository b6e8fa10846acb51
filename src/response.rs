//! Serialising a response: status line, headers and `Content-Length`
//! framing of the body.
use vstd::prelude::*;
use vstd::string::StringSliceAdditionalSpecFns;
use crate::framing::{
    content_length, field_end, lower, parsed_digits, content_length_from, content_length_name, decimal_value, header_end, is_digit,
    lead_from, lemma_line_end, lemma_terminator_from, line_end, parsed_usize, starts_with_ci, terminator_at,
    trail_to, trimmed,
};

verus! {
/// `HTTP/1.1 `.
pub open spec fn status_prefix() -> Seq<u8> {
    seq![72u8, 84u8, 84u8, 80u8, 47u8, 49u8, 46u8, 49u8, 32u8]
}
/// A line break and `Content-Type: `.
pub open spec fn content_type_label() -> Seq<u8> {
    seq![13u8, 10u8, 67u8, 111u8, 110u8, 116u8, 101u8, 110u8, 116u8, 45u8, 84u8, 121u8, 112u8, 101u8, 58u8, 32u8]
}
/// A line break and `Content-Length: `.
pub open spec fn content_length_label() -> Seq<u8> {
    seq![13u8, 10u8, 67u8, 111u8, 110u8, 116u8, 101u8, 110u8, 116u8, 45u8, 76u8, 101u8, 110u8, 103u8, 116u8, 104u8, 58u8, 32u8]
}
/// A line break and `Access-Control-Allow-Origin: *`.
pub open spec fn cors_line() -> Seq<u8> {
    seq![13u8, 10u8, 65u8, 99u8, 99u8, 101u8, 115u8, 115u8, 45u8, 67u8, 111u8, 110u8, 116u8, 114u8, 111u8, 108u8, 45u8, 65u8, 108u8, 108u8, 111u8, 119u8, 45u8, 79u8, 114u8, 105u8, 103u8, 105u8, 110u8, 58u8, 32u8, 42u8]
}
/// The blank line that ends the headers.
pub open spec fn header_terminator() -> Seq<u8> {
    seq![13u8, 10u8, 13u8, 10u8]
}
/// The standard reason phrase of a status code, `Unknown` for others.
pub open spec fn reason(status: u16) -> Seq<u8> {
    if status == 200 {
        seq![79u8, 75u8]
    } else if status == 201 {
        seq![67u8, 114u8, 101u8, 97u8, 116u8, 101u8, 100u8]
    } else if status == 400 {
        seq![66u8, 97u8, 100u8, 32u8, 82u8, 101u8, 113u8, 117u8, 101u8, 115u8, 116u8]
    } else if status == 404 {
        seq![78u8, 111u8, 116u8, 32u8, 70u8, 111u8, 117u8, 110u8, 100u8]
    } else {
        seq![85u8, 110u8, 107u8, 110u8, 111u8, 119u8, 110u8]
    }
}

/// Decimal digits of `n`, without leading zeros.
pub open spec fn decimal_digits(n: nat) -> Seq<u8>
    decreases n,
{
    if n < 10 {
        seq![(48 + n) as u8]
    } else {
        decimal_digits(n / 10) + seq![(48 + n % 10) as u8]
    }
}

/// The status line and headers of a response, through the blank line.
pub open spec fn response_head(status: u16, content_type: Seq<u8>, len: nat, cors: bool) -> Seq<u8> {
    status_prefix() + decimal_digits(status as nat) + seq![32u8] + reason(status)
        + content_type_label() + content_type + content_length_label() + decimal_digits(len) + (
    if cors {
        cors_line()
    } else {
        Seq::empty()
    }) + header_terminator()
}

/// The full bytes of a response: the head, then the body and nothing else.
pub open spec fn response_bytes(status: u16, content_type: Seq<u8>, body: Seq<u8>, cors: bool) -> Seq<u8> {
    response_head(status, content_type, body.len(), cors) + body
}

pub(crate) fn push_all(out: &mut Vec<u8>, s: &[u8])
    ensures
        final(out)@ == old(out)@ + s@,
{
    let mut i: usize = 0;
    while i < s.len()
        invariant
            0 <= i <= s@.len(),
            out@ == old(out)@ + s@.subrange(0, i as int),
        decreases s@.len() - i,
    {
        out.push(s[i]);
        assert(s@.subrange(0, i + 1) =~= s@.subrange(0, i as int).push(s@[i as int]));
        i = i + 1;
    }
    assert(s@.subrange(0, s@.len() as int) =~= s@);
}

pub(crate) fn push_decimal(out: &mut Vec<u8>, n: usize)
    ensures
        final(out)@ == old(out)@ + decimal_digits(n as nat),
    decreases n,
{
    if n >= 10 {
        push_decimal(out, n / 10);
    }
    out.push((48 + n % 10) as u8);
    if n < 10 {
        assert(n % 10 == n);
    }
}
/// The reason phrase of `status` (see `reason`).
pub fn reason_phrase(status: u16) -> (r: Vec<u8>)
    ensures
        r@ == reason(status),
{
    let r = if status == 200 {
        vec![79u8, 75u8]
    } else if status == 201 {
        vec![67u8, 114u8, 101u8, 97u8, 116u8, 101u8, 100u8]
    } else if status == 400 {
        vec![66u8, 97u8, 100u8, 32u8, 82u8, 101u8, 113u8, 117u8, 101u8, 115u8, 116u8]
    } else if status == 404 {
        vec![78u8, 111u8, 116u8, 32u8, 70u8, 111u8, 117u8, 110u8, 100u8]
    } else {
        vec![85u8, 110u8, 107u8, 110u8, 111u8, 119u8, 110u8]
    };
    proof {
        assert(r@ =~= reason(status));
    }
    r
}

/// Serialises a response (see `response_bytes`): the `Content-Length`
/// header holds the body's length and the body ends the bytes.
pub fn build_response(status: u16, content_type: &str, body: &[u8], cors: bool) -> (r: Vec<u8>)
    ensures
        r@ == response_bytes(status, content_type.spec_bytes(), body@, cors),
{
    let mut out: Vec<u8> = Vec::new();
    let a: [u8; 9] = [72u8, 84u8, 84u8, 80u8, 47u8, 49u8, 46u8, 49u8, 32u8];
    push_all(&mut out, &a);
    assert(a@ =~= status_prefix());
    push_decimal(&mut out, status as usize);
    out.push(32u8);
    let rp = reason_phrase(status);
    push_all(&mut out, rp.as_slice());
    let a: [u8; 16] = [13u8, 10u8, 67u8, 111u8, 110u8, 116u8, 101u8, 110u8, 116u8, 45u8, 84u8, 121u8, 112u8, 101u8, 58u8, 32u8];
    push_all(&mut out, &a);
    assert(a@ =~= content_type_label());
    push_all(&mut out, content_type.as_bytes());
    let a: [u8; 18] = [13u8, 10u8, 67u8, 111u8, 110u8, 116u8, 101u8, 110u8, 116u8, 45u8, 76u8, 101u8, 110u8, 103u8, 116u8, 104u8, 58u8, 32u8];
    push_all(&mut out, &a);
    assert(a@ =~= content_length_label());
    push_decimal(&mut out, body.len());
    if cors {
        let a: [u8; 32] = [13u8, 10u8, 65u8, 99u8, 99u8, 101u8, 115u8, 115u8, 45u8, 67u8, 111u8, 110u8, 116u8, 114u8, 111u8, 108u8, 45u8, 65u8, 108u8, 108u8, 111u8, 119u8, 45u8, 79u8, 114u8, 105u8, 103u8, 105u8, 110u8, 58u8, 32u8, 42u8];
        push_all(&mut out, &a);
        assert(a@ =~= cors_line());
    }
    let a: [u8; 4] = [13u8, 10u8, 13u8, 10u8];
    push_all(&mut out, &a);
    assert(a@ =~= header_terminator());
    push_all(&mut out, body);
    proof {
        assert(out@ =~= response_bytes(status, content_type.spec_bytes(), body@, cors));
    }
    out
}

/// Whether `s` holds no carriage return and no line feed.
pub open spec fn no_line_break(s: Seq<u8>) -> bool {
    forall|k: int| 0 <= k < s.len() ==> #[trigger] s[k] != 13u8 && s[k] != 10u8
}

/// Every carriage return in `s` is followed, inside `s`, by a line feed and
/// then by something other than a carriage return.
pub(crate) open spec fn breaks_lead_on(s: Seq<u8>) -> bool {
    forall|k: int|
        0 <= k < s.len() && #[trigger] s[k] == 13u8 ==> k + 2 < s.len() && s[k + 1] == 10u8 && s[k + 2]
            != 13u8
}

pub(crate) proof fn lemma_breaks_concat(a: Seq<u8>, b: Seq<u8>)
    requires
        breaks_lead_on(a),
        breaks_lead_on(b),
    ensures
        breaks_lead_on(a + b),
{
    let c = a + b;
    assert forall|k: int| 0 <= k < c.len() && #[trigger] c[k] == 13u8 implies k + 2 < c.len() && c[k
        + 1] == 10u8 && c[k + 2] != 13u8 by {
        if k < a.len() {
            assert(a[k] == 13u8);
        } else {
            assert(b[k - a.len()] == 13u8);
        }
    }
}

pub(crate) proof fn lemma_line_led(rest: Seq<u8>)
    requires
        no_line_break(rest),
        rest.len() > 0,
    ensures
        breaks_lead_on(seq![13u8, 10u8] + rest),
{
    let s = seq![13u8, 10u8] + rest;
    assert forall|k: int| 0 <= k < s.len() && #[trigger] s[k] == 13u8 implies k + 2 < s.len() && s[k
        + 1] == 10u8 && s[k + 2] != 13u8 by {
        if k >= 2 {
            assert(s[k] == rest[k - 2]);
        } else if k == 1 {
        } else {
            assert(s[2] == rest[0]);
        }
    }
}

pub proof fn lemma_digits(n: nat)
    ensures
        decimal_digits(n).len() > 0,
        forall|k: int| 0 <= k < decimal_digits(n).len() ==> is_digit(#[trigger] decimal_digits(n)[k]),
        decimal_value(decimal_digits(n)) == n,
    decreases n,
{
    if n >= 10 {
        lemma_digits(n / 10);
        let d = decimal_digits(n);
        assert(d.drop_last() =~= decimal_digits(n / 10));
        assert(d.last() == (48 + n % 10) as u8);
        assert((d.last() - 48u8) as nat == n % 10);
        assert(decimal_value(d) == decimal_value(decimal_digits(n / 10)) * 10 + n % 10);
        assert(n == (n / 10) * 10 + n % 10);
        assert forall|k: int| 0 <= k < d.len() implies is_digit(#[trigger] d[k]) by {
            if k < d.len() - 1 {
                assert(d[k] == decimal_digits(n / 10)[k]);
            }
        }
    } else {
        let d = decimal_digits(n);
        assert(d.drop_last() =~= Seq::<u8>::empty());
        assert(decimal_value(Seq::<u8>::empty()) == 0);
        assert(d.last() == (48 + n) as u8);
        assert(decimal_value(d) == decimal_value(d.drop_last()) * 10 + (d.last() - 48u8) as nat);
    }
}

proof fn lemma_reason(status: u16)
    ensures
        no_line_break(reason(status)),
        reason(status).len() > 0,
{
}

pub(crate) proof fn lemma_line_end_at(s: Seq<u8>, i: int, j: int)
    requires
        0 <= i <= j <= s.len(),
        forall|k: int| i <= k < j ==> #[trigger] s[k] != 10u8,
        j < s.len() ==> s[j] == 10u8,
    ensures
        line_end(s, i) == j,
    decreases j - i,
{
    if i < j {
        lemma_line_end_at(s, i + 1, j);
    }
}

proof fn lemma_line_end_shift(p: Seq<u8>, s: Seq<u8>, i: int)
    requires
        0 <= i <= s.len(),
    ensures
        line_end(p + s, p.len() + i) == p.len() + line_end(s, i),
    decreases s.len() - i,
{
    if i < s.len() {
        assert((p + s)[p.len() + i] == s[i]);
        if s[i] != 10u8 {
            lemma_line_end_shift(p, s, i + 1);
        }
    }
}

proof fn lemma_field_end_shift(p: Seq<u8>, s: Seq<u8>, j: int, e: int)
    requires
        0 <= j <= e <= s.len(),
    ensures
        field_end(p + s, p.len() + j, p.len() + e) == p.len() + field_end(s, j, e),
        j <= field_end(s, j, e) <= e,
    decreases e - j,
{
    if j < e {
        assert((p + s)[p.len() + j] == s[j]);
        if s[j] != 58u8 {
            lemma_field_end_shift(p, s, j + 1, e);
        }
    }
}

proof fn lemma_field_end_none(h: Seq<u8>, j: int, e: int)
    requires
        0 <= j <= e <= h.len(),
        forall|k: int| j <= k < e ==> #[trigger] h[k] != 58u8,
    ensures
        field_end(h, j, e) == e,
    decreases e - j,
{
    if j < e {
        lemma_field_end_none(h, j + 1, e);
    }
}

pub(crate) proof fn lemma_content_length_shift(p: Seq<u8>, s: Seq<u8>, i: int)
    requires
        0 <= i <= s.len(),
    ensures
        content_length_from(p + s, p.len() + i) == content_length_from(s, i),
    decreases s.len() - i,
{
    let q = p + s;
    let j = p.len() + i;
    lemma_line_end_shift(p, s, i);
    lemma_line_end(s, i);
    let e = line_end(s, i);
    assert(q.subrange(j, p.len() + e) =~= s.subrange(i, e));
    if e - i >= 15 {
        lemma_field_end_shift(p, s, i + 15, e);
        let f = field_end(s, i + 15, e);
        assert(q.subrange(j + 15, p.len() + f) =~= s.subrange(i + 15, f));
    }
    if e < s.len() {
        lemma_content_length_shift(p, s, e + 1);
    }
}

proof fn lemma_trimmed_digits(d: Seq<u8>, tail: Seq<u8>)
    requires
        d.len() > 0,
        forall|k: int| 0 <= k < d.len() ==> is_digit(#[trigger] d[k]),
        tail == Seq::<u8>::empty() || tail == seq![13u8],
    ensures
        trimmed(seq![32u8] + d + tail) == d,
{
    let w = seq![32u8] + d + tail;
    assert(w[1] == d[0]);
    assert(lead_from(w, 1) == 1);
    assert(lead_from(w, 0) == 1);
    assert(w[d.len() as int] == d[d.len() - 1]);
    if tail.len() == 1 {
        assert(w[w.len() - 1] == 13u8);
        assert(trail_to(w, 1, w.len() - 1) == w.len() - 1);
        assert(trail_to(w, 1, w.len() as int) == w.len() - 1);
    } else {
        assert(trail_to(w, 1, w.len() as int) == w.len());
    }
    assert(w.subrange(1, 1 + d.len() as int) =~= d);
}

/// Headers whose line breaks are all CR LF followed by more text end at the
/// blank line put after them.
pub(crate) proof fn lemma_head_end(x: Seq<u8>, body: Seq<u8>)
    requires
        breaks_lead_on(x),
    ensures
        header_end(x + header_terminator() + body) == Some(x.len() as int),
{
    let r = x + header_terminator() + body;
    let h = x.len() as int;
    assert(terminator_at(r, h));
    assert forall|k: int| 0 <= k < h implies !terminator_at(r, k) by {
        if terminator_at(r, k) {
            assert(r[k] == x[k]);
            if k + 2 < h {
                assert(r[k + 2] == x[k + 2]);
            }
        }
    }
    lemma_terminator_from(r, 0);
    if let Some(g) = header_end(r) {
        if g < h {
            assert(!terminator_at(r, g));
        }
    }
}

/// The header lines of a response, without the blank line that ends them.
spec fn head_lines(status: u16, content_type: Seq<u8>, len: nat, cors: bool) -> Seq<u8> {
    status_prefix() + decimal_digits(status as nat) + seq![32u8] + reason(status)
        + content_type_label() + content_type + content_length_label() + decimal_digits(len) + (
    if cors {
        cors_line()
    } else {
        Seq::empty()
    })
}

#[verifier::rlimit(60)]
proof fn lemma_head_content_length(status: u16, content_type: Seq<u8>, len: nat, cors: bool)
    requires
        no_line_break(content_type),
        len <= usize::MAX,
    ensures
        content_length(head_lines(status, content_type, len, cors)) == Some(len),
{
    let x = head_lines(status, content_type, len, cors);
    let a = status_prefix() + decimal_digits(status as nat) + seq![32u8] + reason(status);
    let t1 = seq![67u8, 111u8, 110u8, 116u8, 101u8, 110u8, 116u8, 45u8, 84u8, 121u8, 112u8, 101u8, 58u8, 32u8] + content_type;
    let t2 = seq![67u8, 111u8, 110u8, 116u8, 101u8, 110u8, 116u8, 45u8, 76u8, 101u8, 110u8, 103u8, 116u8, 104u8, 58u8, 32u8] + decimal_digits(len);
    let d: Seq<u8> = if cors {
        cors_line()
    } else {
        Seq::empty()
    };
    let z = t2 + d;
    let y = t1 + seq![13u8, 10u8] + z;
    lemma_digits(status as nat);
    lemma_digits(len);
    lemma_reason(status);
    assert(x =~= a + seq![13u8, 10u8] + y);
    // the status line
    assert forall|k: int| 0 <= k < a.len() implies #[trigger] x[k] != 10u8 by {
        let sp = status_prefix();
        let ds = decimal_digits(status as nat);
        if k < sp.len() {
        } else if k < sp.len() + ds.len() {
            assert(x[k] == ds[k - sp.len()]);
        } else if k == sp.len() + ds.len() {
        } else {
            assert(x[k] == reason(status)[k - sp.len() - ds.len() - 1]);
        }
    }
    assert(x[a.len() as int] == 13u8);
    assert(x[a.len() as int + 1] == 10u8);
    lemma_line_end_at(x, a.len() as int + 1, a.len() as int + 1);
    lemma_line_end_at(x, 0, a.len() as int + 1);
    assert(x.subrange(0, a.len() as int + 1)[0] == 72u8);
    assert(!starts_with_ci(x.subrange(0, a.len() as int + 1), content_length_name())) by {
        if x.subrange(0, a.len() as int + 1).len() >= 15 {
            assert(lower(x.subrange(0, a.len() as int + 1)[0]) != content_length_name()[0]);
        }
    }
    assert(content_length_from(x, 0) == content_length_from(x, a.len() as int + 2));
    lemma_content_length_shift(a + seq![13u8, 10u8], y, 0);
    assert(a + seq![13u8, 10u8] + y == x);
    // the content type line
    assert forall|k: int| 0 <= k < t1.len() implies #[trigger] y[k] != 10u8 by {
        if k >= 14 {
            assert(y[k] == content_type[k - 14]);
        }
    }
    assert(y[t1.len() as int] == 13u8);
    assert(y[t1.len() as int + 1] == 10u8);
    lemma_line_end_at(y, 0, t1.len() as int + 1);
    assert(!starts_with_ci(y.subrange(0, t1.len() as int + 1), content_length_name())) by {
        if y.subrange(0, t1.len() as int + 1).len() >= 15 {
            assert(y.subrange(0, t1.len() as int + 1)[8] == 84u8);
            assert(lower(y.subrange(0, t1.len() as int + 1)[8]) != content_length_name()[8]);
        }
    }
    assert(content_length_from(y, 0) == content_length_from(y, t1.len() as int + 2));
    lemma_content_length_shift(t1 + seq![13u8, 10u8], z, 0);
    // the content length line
    let dd = decimal_digits(len);
    assert forall|k: int| 0 <= k < t2.len() implies #[trigger] z[k] != 10u8 by {
        if k >= 16 {
            assert(z[k] == dd[k - 16]);
            assert(is_digit(dd[k - 16]));
        }
    }
    let e = if cors {
        t2.len() as int + 1
    } else {
        t2.len() as int
    };
    if cors {
        assert(z[t2.len() as int] == 13u8);
        assert(z[t2.len() as int + 1] == 10u8);
        lemma_line_end_at(z, t2.len() as int, t2.len() as int + 1);
    } else {
        assert(z.len() == t2.len());
    }
    lemma_line_end_at(z, 0, e);
    let line = z.subrange(0, e);
    assert(starts_with_ci(line, content_length_name())) by {
        assert forall|k: int| 0 <= k < 15 implies lower(#[trigger] line[k]) == content_length_name()[k] by {
            assert(line[k] == t2[k]);
        }
    }
    let tail: Seq<u8> = if cors {
        seq![13u8]
    } else {
        Seq::empty()
    };
    assert forall|k: int| 15 <= k < e implies #[trigger] z[k] != 58u8 by {
        if 16 <= k < t2.len() {
            assert(z[k] == dd[k - 16]);
            assert(is_digit(dd[k - 16]));
        }
    }
    lemma_field_end_none(z, 15, e);
    assert(z.subrange(15, e) =~= seq![32u8] + dd + tail);
    lemma_trimmed_digits(dd, tail);
    assert(is_digit(dd[0]));
    assert(parsed_digits(dd) == Some(len));
    assert(parsed_usize(dd) == Some(len));
}

/// Framing of a response: its headers end right before the body, declare
/// exactly the body's length as `Content-Length`, and no byte follows the
/// body.
pub proof fn lemma_response_framing(status: u16, content_type: Seq<u8>, body: Seq<u8>, cors: bool)
    requires
        no_line_break(content_type),
        body.len() <= usize::MAX,
    ensures
        header_end(response_bytes(status, content_type, body, cors)) == Some(
            response_head(status, content_type, body.len(), cors).len() - 4,
        ),
        content_length(
            response_bytes(status, content_type, body, cors).subrange(
                0,
                response_head(status, content_type, body.len(), cors).len() - 4,
            ),
        ) == Some(body.len()),
        response_bytes(status, content_type, body, cors).len() == response_head(
            status,
            content_type,
            body.len(),
            cors,
        ).len() + body.len(),
        response_bytes(status, content_type, body, cors).subrange(
            response_head(status, content_type, body.len(), cors).len() as int,
            response_bytes(status, content_type, body, cors).len() as int,
        ) == body,
{
    let x = head_lines(status, content_type, body.len(), cors);
    let r = response_bytes(status, content_type, body, cors);
    let h = x.len() as int;
    assert(response_head(status, content_type, body.len(), cors) =~= x + header_terminator());
    assert(r =~= x + header_terminator() + body);
    lemma_head_content_length(status, content_type, body.len(), cors);
    assert(r.subrange(0, h) =~= x);
    // no blank line inside the head
    lemma_digits(status as nat);
    lemma_digits(body.len());
    lemma_reason(status);
    let a = status_prefix() + decimal_digits(status as nat) + seq![32u8] + reason(status);
    assert(no_line_break(a)) by {
        assert forall|k: int| 0 <= k < a.len() implies #[trigger] a[k] != 13u8 && a[k] != 10u8 by {
            let sp = status_prefix();
            let ds = decimal_digits(status as nat);
            if k < sp.len() {
            } else if k < sp.len() + ds.len() {
                assert(a[k] == ds[k - sp.len()]);
                assert(is_digit(ds[k - sp.len()]));
            } else if k == sp.len() + ds.len() {
            } else {
                assert(a[k] == reason(status)[k - sp.len() - ds.len() - 1]);
            }
        }
    }
    let l1 = seq![67u8, 111u8, 110u8, 116u8, 101u8, 110u8, 116u8, 45u8, 84u8, 121u8, 112u8, 101u8, 58u8, 32u8] + content_type;
    let dd = decimal_digits(body.len());
    let l2 = seq![67u8, 111u8, 110u8, 116u8, 101u8, 110u8, 116u8, 45u8, 76u8, 101u8, 110u8, 103u8, 116u8, 104u8, 58u8, 32u8] + dd;
    assert(no_line_break(l1)) by {
        assert forall|k: int| 0 <= k < l1.len() implies #[trigger] l1[k] != 13u8 && l1[k] != 10u8 by {
            if k >= 14 {
                assert(l1[k] == content_type[k - 14]);
            }
        }
    }
    assert(no_line_break(l2)) by {
        assert forall|k: int| 0 <= k < l2.len() implies #[trigger] l2[k] != 13u8 && l2[k] != 10u8 by {
            if k >= 16 {
                assert(l2[k] == dd[k - 16]);
                assert(is_digit(dd[k - 16]));
            }
        }
    }
    let l3 = seq![65u8, 99u8, 99u8, 101u8, 115u8, 115u8, 45u8, 67u8, 111u8, 110u8, 116u8, 114u8, 111u8, 108u8, 45u8, 65u8, 108u8, 108u8, 111u8, 119u8, 45u8, 79u8, 114u8, 105u8, 103u8, 105u8, 110u8, 58u8, 32u8, 42u8];
    assert(no_line_break(l3));
    lemma_line_led(l1);
    lemma_line_led(l2);
    lemma_line_led(l3);
    assert(breaks_lead_on(a));
    assert(content_type_label() + content_type =~= seq![13u8, 10u8] + l1);
    assert(content_length_label() + dd =~= seq![13u8, 10u8] + l2);
    assert(cors_line() =~= seq![13u8, 10u8] + l3);
    lemma_breaks_concat(a, seq![13u8, 10u8] + l1);
    lemma_breaks_concat(a + (seq![13u8, 10u8] + l1), seq![13u8, 10u8] + l2);
    let x3 = a + (seq![13u8, 10u8] + l1) + (seq![13u8, 10u8] + l2);
    if cors {
        lemma_breaks_concat(x3, seq![13u8, 10u8] + l3);
        assert(x =~= x3 + (seq![13u8, 10u8] + l3));
    } else {
        assert(x =~= x3);
    }
    assert(breaks_lead_on(x));
    lemma_head_end(x, body);
    assert(r.subrange(h + 4, r.len() as int) =~= body);
}

} // verus!
