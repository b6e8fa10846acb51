//! Percent/plus decoding of `application/x-www-form-urlencoded` values.
use vstd::prelude::*;
use vstd::string::StringSliceAdditionalSpecFns;
use vstd::utf8::{encode_scalar, encode_utf8};

verus! {

/// The value of an ASCII hexadecimal digit, if `c` is one.
pub open spec fn hex_value(c: char) -> Option<nat> {
    if '0' <= c && c <= '9' {
        Some((c as nat - '0' as nat) as nat)
    } else if 'a' <= c && c <= 'f' {
        Some((c as nat - 'a' as nat + 10) as nat)
    } else if 'A' <= c && c <= 'F' {
        Some((c as nat - 'A' as nat + 10) as nat)
    } else {
        None
    }
}

/// Value of one hexadecimal digit.
pub fn hex_digit(c: char) -> (r: Option<u8>)
    ensures
        r matches Some(v) ==> hex_value(c) == Some(v as nat),
        r is None ==> hex_value(c) is None,
{
    if '0' <= c && c <= '9' {
        Some((c as u32 - '0' as u32) as u8)
    } else if 'a' <= c && c <= 'f' {
        Some((c as u32 - 'a' as u32 + 10) as u8)
    } else if 'A' <= c && c <= 'F' {
        Some((c as u32 - 'A' as u32 + 10) as u8)
    } else {
        None
    }
}


/// The character that a decoded byte stands for (one character per byte).
pub open spec fn byte_char(b: u8) -> char {
    b as char
}

/// One decoding step at position `i`: the character produced and the
/// position after it, or `None` on a malformed percent sequence.
pub open spec fn decode_step(s: Seq<char>, i: int) -> Option<(char, int)> {
    if s[i] == '+' {
        Some((' ', i + 1))
    } else if s[i] == '%' {
        if i + 2 < s.len() && hex_value(s[i + 1]) is Some && hex_value(s[i + 2]) is Some {
            Some((byte_char((16 * hex_value(s[i + 1])->0 + hex_value(s[i + 2])->0) as u8), i + 3))
        } else {
            None
        }
    } else {
        Some((s[i], i + 1))
    }
}

/// Decoding of the suffix of `s` that starts at `i`.
pub open spec fn decoded_from(s: Seq<char>, i: int) -> Option<Seq<char>>
    decreases s.len() - i,
{
    if i < 0 || i >= s.len() {
        Some(Seq::empty())
    } else {
        match decode_step(s, i) {
            Some((c, j)) => if j > i {
                match decoded_from(s, j) {
                    Some(t) => Some(seq![c] + t),
                    None => None,
                }
            } else {
                None
            },
            None => None,
        }
    }
}

/// The decoded text of `s`: `+` becomes a space, `%XY` becomes the character
/// of the byte `0xXY`, anything else is kept; `None` when a `%` is not
/// followed by two hexadecimal digits.
pub open spec fn decoded(s: Seq<char>) -> Option<Seq<char>> {
    decoded_from(s, 0)
}

/// `out` followed by the decoded rest, when there is one.
pub open spec fn after(out: Seq<char>, rest: Option<Seq<char>>) -> Option<Seq<char>> {
    match rest {
        Some(t) => Some(out + t),
        None => None,
    }
}

proof fn lemma_decoded_from_len(s: Seq<char>, i: int)
    requires
        0 <= i <= s.len(),
    ensures
        decoded_from(s, i) matches Some(t) ==> t.len() <= s.len() - i,
    decreases s.len() - i,
{
    if i < s.len() {
        if let Some((c, j)) = decode_step(s, i) {
            lemma_decoded_from_len(s, j);
        }
    }
}

proof fn lemma_scalar_len(c: char)
    ensures
        (c as u32) <= 0x7F ==> encode_scalar(c as u32).len() == 1,
        (c as u32) <= 0x7FF ==> encode_scalar(c as u32).len() <= 2,
{
}

proof fn lemma_decoded_from_bytes(s: Seq<char>, i: int)
    requires
        0 <= i <= s.len(),
    ensures
        decoded_from(s, i) matches Some(t) ==> encode_utf8(t).len() <= encode_utf8(
            s.subrange(i, s.len() as int),
        ).len(),
    decreases s.len() - i,
{
    if i < s.len() {
        let r = s.subrange(i, s.len() as int);
        assert(r.drop_first() =~= s.subrange(i + 1, s.len() as int));
        assert(r[0] == s[i]);
        assert(encode_utf8(r) == encode_scalar(s[i] as u32) + encode_utf8(s.subrange(i + 1, s.len() as int)));
        if let Some((c, j)) = decode_step(s, i) {
            lemma_decoded_from_bytes(s, j);
            if let Some(t) = decoded_from(s, j) {
                let out = seq![c] + t;
                assert(out.drop_first() =~= t);
                assert(out[0] == c);
                assert(decoded_from(s, i) == Some(out));
                assert(encode_utf8(out) == encode_scalar(c as u32) + encode_utf8(t));
                lemma_scalar_len(c);
                lemma_scalar_len(s[i]);
                if s[i] == '%' {
                    let r1 = s.subrange(i + 1, s.len() as int);
                    let r2 = s.subrange(i + 2, s.len() as int);
                    assert(r1.drop_first() =~= r2);
                    assert(r2.drop_first() =~= s.subrange(i + 3, s.len() as int));
                    assert(r1[0] == s[i + 1]);
                    assert(r2[0] == s[i + 2]);
                    assert(encode_utf8(r1) == encode_scalar(s[i + 1] as u32) + encode_utf8(r2));
                    assert(encode_utf8(r2) == encode_scalar(s[i + 2] as u32) + encode_utf8(
                        s.subrange(i + 3, s.len() as int),
                    ));
                    assert((s[i + 1] as u32) <= 0x7F);
                    assert((s[i + 2] as u32) <= 0x7F);
                    assert((s[i] as u32) <= 0x7F);
                    assert((c as u32) <= 0xFF);
                    lemma_scalar_len(s[i + 1]);
                    lemma_scalar_len(s[i + 2]);
                } else if s[i] == '+' {
                    assert((s[i] as u32) <= 0x7F);
                    assert((c as u32) <= 0x7F);
                }
            }
        }
    }
}

/// Relies on `String::push`: appends one character.
#[verifier::external_body]
pub(crate) fn push_char(s: &mut String, c: char)
    ensures
        final(s)@ == old(s)@.push(c),
{
    s.push(c)
}

/// Decodes a form-encoded value (see `decoded`).
pub fn decode(string: &str) -> (r: Result<String, ()>)
    ensures
        r matches Ok(t) ==> decoded(string@) == Some(t@),
        r is Err <==> decoded(string@) is None,
        r matches Ok(t) ==> t@.len() <= string@.len(),
        r matches Ok(t) ==> encode_utf8(t@).len() <= string.spec_bytes().len(),
{
    let n = string.unicode_len();
    let mut out = String::new();
    let mut i: usize = 0;
    while i < n
        invariant
            n == string@.len(),
            0 <= i <= n,
            decoded(string@) == after(out@, decoded_from(string@, i as int)),
        decreases n - i,
    {
        let ch = string.get_char(i);
        if ch == '%' {
            if n - i > 2 {
                let h = hex_digit(string.get_char(i + 1));
                let l = hex_digit(string.get_char(i + 2));
                match (h, l) {
                    (Some(h), Some(l)) => {
                        let b: u8 = 16 * h + l;
                        proof {
                            assert(after(out@.push(byte_char(b)), decoded_from(string@, i + 3))
                                == after(out@, decoded_from(string@, i as int))) by {
                                match decoded_from(string@, i + 3) {
                                    Some(t) => assert(out@.push(byte_char(b)) + t =~= out@ + (seq![byte_char(b)] + t)),
                                    None => {},
                                }
                            }
                        }
                        push_char(&mut out, b as char);
                        i = i + 3;
                    },
                    _ => {
                        return Err(());
                    },
                }
            } else {
                return Err(());
            }
        } else {
            let c = if ch == '+' { ' ' } else { ch };
            proof {
                match decoded_from(string@, i + 1) {
                    Some(t) => assert(out@.push(c) + t =~= out@ + (seq![c] + t)),
                    None => {},
                }
            }
            push_char(&mut out, c);
            i = i + 1;
        }
    }
    proof {
        assert(out@ + Seq::<char>::empty() =~= out@);
        lemma_decoded_from_len(string@, 0);
        lemma_decoded_from_bytes(string@, 0);
        assert(string@.subrange(0, string@.len() as int) =~= string@);
    }
    Ok(out)
}


/// Characters that form encoding leaves as they are.
pub open spec fn is_unreserved(c: char) -> bool {
    ('a' <= c && c <= 'z') || ('A' <= c && c <= 'Z') || ('0' <= c && c <= '9') || c == '-'
        || c == '.' || c == '_' || c == '~'
}

/// The uppercase hexadecimal digit for `v < 16`.
pub open spec fn hex_char(v: nat) -> char {
    if v < 10 {
        ('0' as nat + v) as char
    } else {
        ('A' as nat + v - 10) as char
    }
}

/// Form encoding of one character whose code is below 256.
pub open spec fn encoded_char(c: char) -> Seq<char> {
    if is_unreserved(c) {
        seq![c]
    } else if c == ' ' {
        seq!['+']
    } else {
        seq!['%', hex_char(c as nat / 16), hex_char(c as nat % 16)]
    }
}

/// Form encoding: unreserved characters kept, space as `+`, the rest as `%XY`.
pub open spec fn encoded(s: Seq<char>) -> Seq<char>
    decreases s.len(),
{
    if s.len() == 0 {
        Seq::empty()
    } else {
        encoded_char(s[0]) + encoded(s.drop_first())
    }
}

proof fn lemma_decoded_from_shift(p: Seq<char>, e: Seq<char>, k: int)
    requires
        0 <= k <= e.len(),
    ensures
        decoded_from(p + e, p.len() + k) == decoded_from(e, k),
    decreases e.len() - k,
{
    let s = p + e;
    let i = p.len() + k;
    if k < e.len() {
        assert(s[i] == e[k]);
        if s[i] == '%' && i + 2 < s.len() {
            assert(s[i + 1] == e[k + 1]);
            assert(s[i + 2] == e[k + 2]);
        }
        match decode_step(e, k) {
            Some((c, j)) => {
                if j > k {
                    lemma_decoded_from_shift(p, e, j);
                }
            },
            None => {},
        }
    }
}

proof fn lemma_hex_round_trip(v: nat)
    requires
        v < 16,
    ensures
        hex_value(hex_char(v)) == Some(v),
{
}

proof fn lemma_char_round_trip(c: char, rest: Seq<char>)
    requires
        c as nat <= 0xFF,
    ensures
        decoded(encoded_char(c) + rest) == after(seq![c], decoded(rest)),
{
    let ec = encoded_char(c);
    let s = ec + rest;
    lemma_decoded_from_shift(ec, rest, 0);
    assert(s[0] == ec[0]);
    if !is_unreserved(c) && c != ' ' {
        assert(s[1] == ec[1]);
        assert(s[2] == ec[2]);
        lemma_hex_round_trip(c as nat / 16);
        lemma_hex_round_trip(c as nat % 16);
        let b = (16 * (c as nat / 16) + c as nat % 16) as u8;
        assert(b as nat == c as nat);
        assert(byte_char(b) == c);
    }
    match decoded(rest) {
        Some(t) => assert(seq![c] + t =~= seq![c] + t),
        None => {},
    }
}

/// Decoding undoes form encoding: for every text whose characters are all
/// below U+0100, `decoded(encoded(s))` is `s`.
pub proof fn lemma_decode_encode_round_trip(s: Seq<char>)
    requires
        forall|i: int| 0 <= i < s.len() ==> s[i] as nat <= 0xFF,
    ensures
        decoded(encoded(s)) == Some(s),
    decreases s.len(),
{
    if s.len() == 0 {
    } else {
        let rest = s.drop_first();
        lemma_decode_encode_round_trip(rest);
        lemma_char_round_trip(s[0], encoded(rest));
        assert(seq![s[0]] + rest =~= s);
    }
}

} // verus!
