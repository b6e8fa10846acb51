//! Byte-level framing of HTTP messages: the header terminator, header lines
//! and the `Content-Length` value.
use vstd::prelude::*;
use vstd::slice::slice_subrange;

verus! {

/// Whether the two-CRLF header terminator starts at `i`.
pub open spec fn terminator_at(b: Seq<u8>, i: int) -> bool {
    0 <= i && i + 4 <= b.len() && b[i] == 13u8 && b[i + 1] == 10u8 && b[i + 2] == 13u8 && b[i
        + 3] == 10u8
}

/// The first position at or after `i` where the header terminator starts.
pub open spec fn terminator_from(b: Seq<u8>, i: int) -> Option<int>
    decreases b.len() - i,
{
    if i < 0 || i + 4 > b.len() {
        None
    } else if terminator_at(b, i) {
        Some(i)
    } else {
        terminator_from(b, i + 1)
    }
}

/// Where the header block ends: the first occurrence of the terminator.
pub open spec fn header_end(b: Seq<u8>) -> Option<int> {
    terminator_from(b, 0)
}

pub proof fn lemma_terminator_from(b: Seq<u8>, i: int)
    requires
        0 <= i,
    ensures
        terminator_from(b, i) matches Some(h) ==> i <= h && terminator_at(b, h) && forall|k: int|
            i <= k < h ==> !terminator_at(b, k),
        terminator_from(b, i) is None ==> forall|k: int| i <= k ==> !terminator_at(b, k),
    decreases b.len() - i,
{
    if i + 4 <= b.len() && !terminator_at(b, i) {
        lemma_terminator_from(b, i + 1);
    }
}

/// The first occurrence is the same in any extension of `b`.
pub proof fn lemma_header_end_extend(b: Seq<u8>, m: Seq<u8>)
    requires
        b.len() <= m.len(),
        b =~= m.subrange(0, b.len() as int),
        header_end(b) is Some,
    ensures
        header_end(m) == header_end(b),
{
    lemma_terminator_from(b, 0);
    lemma_terminator_from(m, 0);
    let h = header_end(b)->0;
    assert(terminator_at(m, h)) by {
        assert(b[h] == m[h] && b[h + 1] == m[h + 1] && b[h + 2] == m[h + 2] && b[h + 3] == m[h + 3]);
    }
    assert forall|k: int| 0 <= k < h implies !terminator_at(m, k) by {
        assert(b[k] == m[k] && b[k + 1] == m[k + 1] && b[k + 2] == m[k + 2] && b[k + 3] == m[k + 3]);
        assert(!terminator_at(b, k));
    }
}

/// Finds the header terminator in `b`.
pub fn find_header_end(b: &[u8]) -> (r: Option<usize>)
    ensures
        r matches Some(h) ==> header_end(b@) == Some(h as int) && h + 4 <= b@.len(),
        r is None ==> header_end(b@) is None,
{
    let n = b.len();
    if n < 4 {
        return None;
    }
    let mut i: usize = 0;
    while i <= n - 4
        invariant
            n == b@.len(),
            n >= 4,
            0 <= i <= n - 3,
            header_end(b@) == terminator_from(b@, i as int),
        decreases n - i,
    {
        if b[i] == 13u8 && b[i + 1] == 10u8 && b[i + 2] == 13u8 && b[i + 3] == 10u8 {
            return Some(i);
        }
        i = i + 1;
    }
    None
}

/// ASCII whitespace: space, tab, line feed, vertical tab, form feed,
/// carriage return.
pub open spec fn is_space(c: u8) -> bool {
    c == 32u8 || c == 9u8 || c == 10u8 || c == 11u8 || c == 12u8 || c == 13u8
}

/// The byte length of the whitespace character (as `char::is_whitespace`
/// sees it) whose UTF-8 encoding starts at `i`, or 0 if none does: the ASCII
/// ones, U+0085, U+00A0, U+1680, U+2000 to U+200A, U+2028, U+2029, U+202F,
/// U+205F and U+3000.
pub open spec fn space_len_at(s: Seq<u8>, i: int) -> int {
    if i < 0 || i >= s.len() {
        0
    } else if is_space(s[i]) {
        1
    } else if i + 1 < s.len() && s[i] == 0xC2u8 && (s[i + 1] == 0x85u8 || s[i + 1] == 0xA0u8) {
        2
    } else if i + 2 < s.len() && ((s[i] == 0xE1u8 && s[i + 1] == 0x9Au8 && s[i + 2] == 0x80u8) || (
    s[i] == 0xE2u8 && s[i + 1] == 0x80u8 && ((0x80u8 <= s[i + 2] <= 0x8Au8) || s[i + 2] == 0xA8u8
        || s[i + 2] == 0xA9u8 || s[i + 2] == 0xAFu8)) || (s[i] == 0xE2u8 && s[i + 1] == 0x81u8 && s[i
        + 2] == 0x9Fu8) || (s[i] == 0xE3u8 && s[i + 1] == 0x80u8 && s[i + 2] == 0x80u8)) {
        3
    } else {
        0
    }
}

/// The byte length of a whitespace character whose encoding ends at `j`
/// and starts at or after `lo`, or 0 if none does.
pub open spec fn space_len_before(s: Seq<u8>, lo: int, j: int) -> int {
    if j - 1 >= lo && space_len_at(s, j - 1) == 1 {
        1
    } else if j - 2 >= lo && space_len_at(s, j - 2) == 2 {
        2
    } else if j - 3 >= lo && space_len_at(s, j - 3) == 3 {
        3
    } else {
        0
    }
}

/// Where `s[i..]` starts once leading whitespace is removed.
pub open spec fn lead_from(s: Seq<u8>, i: int) -> int
    decreases s.len() - i,
{
    if 0 <= i < s.len() && space_len_at(s, i) > 0 {
        lead_from(s, i + space_len_at(s, i))
    } else {
        i
    }
}

/// The end of `s[..j]` once trailing whitespace is removed, not below `lo`.
pub open spec fn trail_to(s: Seq<u8>, lo: int, j: int) -> int
    decreases j - lo,
{
    if lo < j && j <= s.len() && space_len_before(s, lo, j) > 0 {
        trail_to(s, lo, j - space_len_before(s, lo, j))
    } else {
        j
    }
}

/// `s` without leading and trailing whitespace, as `str::trim` leaves UTF-8
/// text.
pub open spec fn trimmed(s: Seq<u8>) -> Seq<u8> {
    let a = lead_from(s, 0);
    s.subrange(a, trail_to(s, a, s.len() as int))
}

proof fn lemma_lead_from(s: Seq<u8>, i: int)
    requires
        0 <= i <= s.len(),
    ensures
        i <= lead_from(s, i) <= s.len(),
    decreases s.len() - i,
{
    if i < s.len() && space_len_at(s, i) > 0 {
        lemma_lead_from(s, i + space_len_at(s, i));
    }
}

proof fn lemma_trail_to(s: Seq<u8>, lo: int, j: int)
    requires
        0 <= lo <= j <= s.len(),
    ensures
        lo <= trail_to(s, lo, j) <= j,
    decreases j - lo,
{
    if lo < j && space_len_before(s, lo, j) > 0 {
        lemma_trail_to(s, lo, j - space_len_before(s, lo, j));
    }
}

fn space_width(t: &[u8], i: usize) -> (r: usize)
    requires
        i <= t@.len(),
    ensures
        r as int == space_len_at(t@, i as int),
{
    let n = t.len();
    if i >= n {
        return 0;
    }
    let c = t[i];
    if c == 32u8 || c == 9u8 || c == 10u8 || c == 11u8 || c == 12u8 || c == 13u8 {
        return 1;
    }
    if n - i > 1 && c == 0xC2u8 && (t[i + 1] == 0x85u8 || t[i + 1] == 0xA0u8) {
        return 2;
    }
    if n - i > 2 {
        let d = t[i + 1];
        let e = t[i + 2];
        if (c == 0xE1u8 && d == 0x9Au8 && e == 0x80u8) || (c == 0xE2u8 && d == 0x80u8 && ((0x80u8 <= e
            && e <= 0x8Au8) || e == 0xA8u8 || e == 0xA9u8 || e == 0xAFu8)) || (c == 0xE2u8 && d
            == 0x81u8 && e == 0x9Fu8) || (c == 0xE3u8 && d == 0x80u8 && e == 0x80u8) {
            return 3;
        }
    }
    0
}

fn space_width_before(t: &[u8], lo: usize, j: usize) -> (r: usize)
    requires
        lo <= j <= t@.len(),
    ensures
        r as int == space_len_before(t@, lo as int, j as int),
{
    if j - lo >= 1 && space_width(t, j - 1) == 1 {
        1
    } else if j - lo >= 2 && space_width(t, j - 2) == 2 {
        2
    } else if j - lo >= 3 && space_width(t, j - 3) == 3 {
        3
    } else {
        0
    }
}

/// Finds the bounds of `b[start..end]` without surrounding whitespace.
fn trim_bounds(b: &[u8], start: usize, end: usize) -> (r: (usize, usize))
    requires
        start <= end <= b@.len(),
    ensures
        b@.subrange(r.0 as int, r.1 as int) == trimmed(b@.subrange(start as int, end as int)),
        start <= r.0 <= r.1 <= end,
{
    let t = slice_subrange(b, start, end);
    let ghost s = t@;
    let n = t.len();
    let mut a: usize = 0;
    loop
        invariant
            0 <= a <= n,
            n == s.len(),
            s == t@,
            lead_from(s, 0) == lead_from(s, a as int),
        ensures
            0 <= a <= n,
            lead_from(s, 0) == a,
        decreases n - a,
    {
        let w = space_width(t, a);
        if w == 0 {
            break;
        }
        a = a + w;
    }
    proof {
        lemma_lead_from(s, a as int);
    }
    let mut e = n;
    loop
        invariant
            0 <= a <= e <= n,
            n == s.len(),
            s == t@,
            lead_from(s, 0) == a,
            trail_to(s, a as int, n as int) == trail_to(s, a as int, e as int),
        ensures
            a <= e <= n,
            trail_to(s, a as int, n as int) == e,
        decreases e - a,
    {
        if e == a {
            break;
        }
        let w = space_width_before(t, a, e);
        if w == 0 {
            break;
        }
        e = e - w;
    }
    proof {
        lemma_trail_to(s, a as int, e as int);
        assert(b@.subrange(start + a, start + e) =~= s.subrange(a as int, e as int));
    }
    (start + a, start + e)
}

/// Whether `c` is an ASCII decimal digit.
pub open spec fn is_digit(c: u8) -> bool {
    48u8 <= c <= 57u8
}

/// The value of a string of decimal digits.
pub open spec fn decimal_value(s: Seq<u8>) -> nat
    decreases s.len(),
{
    if s.len() == 0 {
        0
    } else {
        decimal_value(s.drop_last()) * 10 + (s.last() - 48u8) as nat
    }
}

/// `s` read as a string of decimal digits whose value fits in `usize`.
pub open spec fn parsed_digits(s: Seq<u8>) -> Option<nat> {
    if s.len() > 0 && (forall|i: int| 0 <= i < s.len() ==> is_digit(#[trigger] s[i]))
        && decimal_value(s) <= usize::MAX {
        Some(decimal_value(s))
    } else {
        None
    }
}

/// `s` read as an unsigned decimal that fits in `usize`, as `str::parse`
/// reads it: an optional `+`, then at least one digit and nothing else.
pub open spec fn parsed_usize(s: Seq<u8>) -> Option<nat> {
    if s.len() > 0 && s[0] == 43u8 {
        parsed_digits(s.subrange(1, s.len() as int))
    } else {
        parsed_digits(s)
    }
}

proof fn lemma_decimal_monotone(s: Seq<u8>, i: int, j: int)
    requires
        0 <= i <= j <= s.len(),
        forall|k: int| 0 <= k < s.len() ==> is_digit(#[trigger] s[k]),
    ensures
        decimal_value(s.subrange(0, i)) <= decimal_value(s.subrange(0, j)),
    decreases j - i,
{
    if i < j {
        lemma_decimal_monotone(s, i, j - 1);
        assert(s.subrange(0, j).drop_last() =~= s.subrange(0, j - 1));
    }
}

/// Reads `b[start..end]` as an unsigned decimal (see `parsed_usize`).
pub fn parse_decimal(b: &[u8], start: usize, end: usize) -> (r: Option<usize>)
    requires
        start <= end <= b@.len(),
    ensures
        r matches Some(v) ==> parsed_usize(b@.subrange(start as int, end as int)) == Some(v as nat),
        r is None ==> parsed_usize(b@.subrange(start as int, end as int)) is None,
{
    let ghost s = b@.subrange(start as int, end as int);
    if start < end && b[start] == 43u8 {
        assert(s.subrange(1, s.len() as int) =~= b@.subrange(start + 1, end as int));
        parse_digits(b, start + 1, end)
    } else {
        parse_digits(b, start, end)
    }
}

fn parse_digits(b: &[u8], start: usize, end: usize) -> (r: Option<usize>)
    requires
        start <= end <= b@.len(),
    ensures
        r matches Some(v) ==> parsed_digits(b@.subrange(start as int, end as int)) == Some(v as nat),
        r is None ==> parsed_digits(b@.subrange(start as int, end as int)) is None,
{
    let ghost s = b@.subrange(start as int, end as int);
    if start == end {
        return None;
    }
    let mut i: usize = start;
    while i < end
        invariant
            start <= i <= end <= b@.len(),
            s == b@.subrange(start as int, end as int),
            forall|k: int| 0 <= k < i - start ==> is_digit(#[trigger] s[k]),
        decreases end - i,
    {
        let c = b[i];
        if !(48u8 <= c && c <= 57u8) {
            assert(!is_digit(s[i - start]));
            return None;
        }
        i = i + 1;
    }
    let mut acc: usize = 0;
    let mut i: usize = start;
    while i < end
        invariant
            start <= i <= end <= b@.len(),
            s == b@.subrange(start as int, end as int),
            forall|k: int| 0 <= k < s.len() ==> is_digit(#[trigger] s[k]),
            acc as nat == decimal_value(s.subrange(0, i - start)),
        decreases end - i,
    {
        let c = b[i];
        assert(s.subrange(0, i + 1 - start).drop_last() =~= s.subrange(0, i - start));
        assert(is_digit(s[i - start]));
        let next = match acc.checked_mul(10) {
            Some(m) => m.checked_add((c - 48u8) as usize),
            None => None,
        };
        match next {
            Some(v) => {
                acc = v;
            },
            None => {
                proof {
                    lemma_decimal_monotone(s, i + 1 - start, s.len() as int);
                    assert(s.subrange(0, s.len() as int) =~= s);
                }
                return None;
            },
        }
        i = i + 1;
    }
    assert(s.subrange(0, s.len() as int) =~= s);
    Some(acc)
}

/// ASCII lowercase of one byte.
pub open spec fn lower(c: u8) -> u8 {
    if 65u8 <= c <= 90u8 {
        (c + 32) as u8
    } else {
        c
    }
}

/// The header name `content-length:` in lowercase, colon included.
pub open spec fn content_length_name() -> Seq<u8> {
    seq![99u8, 111u8, 110u8, 116u8, 101u8, 110u8, 116u8, 45u8, 108u8, 101u8, 110u8, 103u8, 116u8, 104u8, 58u8]
}

/// Whether `s` starts with `p`, ignoring ASCII case in `s` (`p` is lowercase).
pub open spec fn starts_with_ci(s: Seq<u8>, p: Seq<u8>) -> bool {
    s.len() >= p.len() && forall|k: int| 0 <= k < p.len() ==> lower(#[trigger] s[k]) == p[k]
}

/// The end of the line that starts at `i`: the next line feed, or the end.
pub open spec fn line_end(h: Seq<u8>, i: int) -> int
    decreases h.len() - i,
{
    if i < 0 || i >= h.len() {
        h.len() as int
    } else if h[i] == 10u8 {
        i
    } else {
        line_end(h, i + 1)
    }
}

/// The end of the header field that starts at `j` in a line ending at `e`:
/// the next `:`, or `e`.
pub open spec fn field_end(h: Seq<u8>, j: int, e: int) -> int
    decreases e - j,
{
    if j < e && h[j] != 58u8 {
        field_end(h, j + 1, e)
    } else {
        j
    }
}

/// The `Content-Length` value of the header lines from the line that starts
/// at `i` on: the first line whose name matches decides.
pub open spec fn content_length_from(h: Seq<u8>, i: int) -> Option<nat>
    decreases h.len() - i,
{
    if i < 0 || i > h.len() {
        None
    } else {
        let e = line_end(h, i);
        if starts_with_ci(h.subrange(i, e), content_length_name()) {
            parsed_usize(trimmed(h.subrange(i + 15, field_end(h, i + 15, e))))
        } else if i <= e < h.len() {
            content_length_from(h, e + 1)
        } else {
            None
        }
    }
}

/// The `Content-Length` of a header block (case-insensitive name, first
/// matching line wins; its value runs up to the next `:` and is trimmed;
/// `None` when absent or not a number).
pub open spec fn content_length(h: Seq<u8>) -> Option<nat> {
    content_length_from(h, 0)
}

pub proof fn lemma_line_end(h: Seq<u8>, i: int)
    requires
        0 <= i <= h.len(),
    ensures
        i <= line_end(h, i) <= h.len(),
        line_end(h, i) < h.len() ==> h[line_end(h, i)] == 10u8,
    decreases h.len() - i,
{
    if i < h.len() && h[i] != 10u8 {
        lemma_line_end(h, i + 1);
    }
}

/// Finds the end of the line of `b[..lim]` that starts at `i`.
pub fn find_line_end(b: &[u8], lim: usize, i: usize) -> (r: usize)
    requires
        i <= lim <= b@.len(),
    ensures
        r as int == line_end(b@.subrange(0, lim as int), i as int),
        i <= r <= lim,
{
    let ghost h = b@.subrange(0, lim as int);
    proof {
        lemma_line_end(h, i as int);
    }
    let mut j = i;
    while j < lim && b[j] != 10u8
        invariant
            i <= j <= lim <= b@.len(),
            h == b@.subrange(0, lim as int),
            line_end(h, i as int) == line_end(h, j as int),
        decreases lim - j,
    {
        j = j + 1;
    }
    j
}

fn lower_byte(c: u8) -> (r: u8)
    ensures
        r == lower(c),
{
    if 65u8 <= c && c <= 90u8 {
        c + 32
    } else {
        c
    }
}

fn starts_with_content_length(b: &[u8], i: usize, e: usize) -> (r: bool)
    requires
        i <= e <= b@.len(),
    ensures
        r == starts_with_ci(b@.subrange(i as int, e as int), content_length_name()),
{
    let name: [u8; 15] = [99u8, 111u8, 110u8, 116u8, 101u8, 110u8, 116u8, 45u8, 108u8, 101u8, 110u8, 103u8, 116u8, 104u8, 58u8];
    assert(name@ =~= content_length_name());
    let ghost s = b@.subrange(i as int, e as int);
    if e - i < 15 {
        return false;
    }
    let mut k: usize = 0;
    while k < 15
        invariant
            i + 15 <= e <= b@.len(),
            s == b@.subrange(i as int, e as int),
            name@ == content_length_name(),
            0 <= k <= 15,
            forall|j: int| 0 <= j < k ==> lower(#[trigger] s[j]) == name@[j],
        decreases 15 - k,
    {
        if lower_byte(b[i + k]) != name[k] {
            assert(lower(s[k as int]) != content_length_name()[k as int]);
            return false;
        }
        k = k + 1;
    }
    true
}

fn find_field_end(b: &[u8], lim: usize, j: usize, e: usize) -> (r: usize)
    requires
        j <= e <= lim <= b@.len(),
    ensures
        r as int == field_end(b@.subrange(0, lim as int), j as int, e as int),
        j <= r <= e,
{
    let ghost h = b@.subrange(0, lim as int);
    let mut k = j;
    while k < e && b[k] != 58u8
        invariant
            j <= k <= e <= lim <= b@.len(),
            h == b@.subrange(0, lim as int),
            field_end(h, j as int, e as int) == field_end(h, k as int, e as int),
        decreases e - k,
    {
        k = k + 1;
    }
    k
}

/// The `Content-Length` of the header block `b[..lim]` (see `content_length`).
pub fn content_length_in(b: &[u8], lim: usize) -> (r: Option<usize>)
    requires
        lim <= b@.len(),
    ensures
        r matches Some(v) ==> content_length(b@.subrange(0, lim as int)) == Some(v as nat),
        r is None ==> content_length(b@.subrange(0, lim as int)) is None,
{
    let ghost h = b@.subrange(0, lim as int);
    let mut i: usize = 0;
    loop
        invariant
            i <= lim <= b@.len(),
            h == b@.subrange(0, lim as int),
            content_length(h) == content_length_from(h, i as int),
        decreases lim - i,
    {
        let e = find_line_end(b, lim, i);
        assert(b@.subrange(i as int, e as int) =~= h.subrange(i as int, e as int));
        if starts_with_content_length(b, i, e) {
            let f = find_field_end(b, lim, i + 15, e);
            let (a, z) = trim_bounds(b, i + 15, f);
            assert(b@.subrange(i + 15, f as int) =~= h.subrange(i + 15, f as int));
            return parse_decimal(b, a, z);
        }
        if e < lim {
            i = e + 1;
        } else {
            return None;
        }
    }
}

} // verus!
