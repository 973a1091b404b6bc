//! Percent-decoding of `application/x-www-form-urlencoded` field text, and
//! percent-encoding (through the `percent_encoding` crate) of outgoing text.

use vstd::prelude::*;
use vstd::utf8::*;

use crate::text::string_from_utf8;

verus! {

// ---------------------------------------------------------------------------
// Decoding
// ---------------------------------------------------------------------------

/// The value of an ASCII hexadecimal digit (either case).
pub open spec fn hex_digit_value(b: u8) -> Option<u8> {
    if 48 <= b && b <= 57 {
        Some((b - 48) as u8)
    } else if 97 <= b && b <= 102 {
        Some((b - 87) as u8)
    } else if 65 <= b && b <= 70 {
        Some((b - 55) as u8)
    } else {
        None
    }
}

/// Law: exactly the ASCII digits and the letters `a`-`f` and `A`-`F` are hex
/// digits, with values 0-9 and 10-15 in either case.
pub proof fn lemma_hex_digit_values(b: u8, n: u8)
    ensures
        hex_digit_value(b) is Some <==> (48 <= b <= 57 || 97 <= b <= 102 || 65 <= b <= 70),
        n < 10 ==> hex_digit_value((48 + n) as u8) == Some(n),
        10 <= n < 16 ==> hex_digit_value((87 + n) as u8) == Some(n) && hex_digit_value(
            (55 + n) as u8,
        ) == Some(n),
{
}

/// What `u8::from_str_radix(s, 16)` returns on the two-byte string `[a, b]`:
/// two hex digits, or a `+` sign followed by one hex digit.
pub open spec fn hex_pair_value(a: u8, b: u8) -> Option<u8> {
    if a == 43 {
        hex_digit_value(b)
    } else {
        match (hex_digit_value(a), hex_digit_value(b)) {
            (Some(x), Some(y)) => Some((x * 16 + y) as u8),
            _ => None,
        }
    }
}

/// The bytes that percent-decoding `s` yields: `+` becomes a space, `%`
/// followed by a two-byte hex number becomes that byte, every other byte
/// stays as it is.
pub open spec fn percent_decoded(s: Seq<u8>) -> Seq<u8>
    decreases s.len(),
{
    if s.len() == 0 {
        Seq::empty()
    } else if s[0] == 43 {
        seq![32u8] + percent_decoded(s.skip(1))
    } else if s[0] == 37 && s.len() > 2 && hex_pair_value(s[1], s[2]) is Some {
        seq![hex_pair_value(s[1], s[2])->0] + percent_decoded(s.skip(3))
    } else {
        seq![s[0]] + percent_decoded(s.skip(1))
    }
}

/// Whether percent-decoding the UTF-8 text `s` reaches a `%` whose two
/// following bytes end inside a multi-byte character: slicing the text there
/// is not on a character boundary, and the decoder panics.
pub open spec fn percent_decode_panics(s: Seq<u8>) -> bool
    decreases s.len(),
{
    if s.len() == 0 {
        false
    } else if s[0] == 37 && s.len() > 3 && is_continuation_byte(s[3]) {
        true
    } else if s[0] == 37 && s.len() > 2 && hex_pair_value(s[1], s[2]) is Some {
        percent_decode_panics(s.skip(3))
    } else {
        percent_decode_panics(s.skip(1))
    }
}

/// The text that bytes stand for when they are valid UTF-8, else the empty text
/// (`String::from_utf8(..).unwrap_or_default()`).
pub open spec fn utf8_or_empty(b: Seq<u8>) -> Seq<char> {
    if valid_utf8(b) {
        decode_utf8(b)
    } else {
        Seq::empty()
    }
}

/// The text that percent-decoding `s` yields.
pub open spec fn percent_decoded_text(s: Seq<u8>) -> Seq<char> {
    utf8_or_empty(percent_decoded(s))
}

fn hex_digit(b: u8) -> (r: Option<u8>)
    ensures
        r == hex_digit_value(b),
{
    if 48 <= b && b <= 57 {
        Some(b - 48)
    } else if 97 <= b && b <= 102 {
        Some(b - 87)
    } else if 65 <= b && b <= 70 {
        Some(b - 55)
    } else {
        None
    }
}

fn hex_pair(a: u8, b: u8) -> (r: Option<u8>)
    ensures
        r == hex_pair_value(a, b),
{
    if a == 43 {
        hex_digit(b)
    } else {
        match (hex_digit(a), hex_digit(b)) {
            (Some(x), Some(y)) => Some(x * 16 + y),
            _ => None,
        }
    }
}

proof fn lemma_subrange_skip(s: Seq<u8>, lo: int, i: int, hi: int, k: int)
    requires
        0 <= lo <= i,
        i + k <= hi <= s.len(),
        0 <= k,
    ensures
        s.subrange(i, hi).skip(k) == s.subrange(i + k, hi),
{
    assert(s.subrange(i, hi).skip(k) =~= s.subrange(i + k, hi));
}

/// Whether percent-decoding `bytes[lo..hi]` would panic.
pub fn percent_decode_panics_range(bytes: &[u8], lo: usize, hi: usize) -> (r: bool)
    requires
        lo <= hi <= bytes@.len(),
    ensures
        r == percent_decode_panics(bytes@.subrange(lo as int, hi as int)),
{
    let mut i: usize = lo;
    while i < hi
        invariant
            lo <= i <= hi <= bytes@.len(),
            percent_decode_panics(bytes@.subrange(lo as int, hi as int))
                == percent_decode_panics(bytes@.subrange(i as int, hi as int)),
        decreases hi - i,
    {
        let ghost s = bytes@.subrange(i as int, hi as int);
        let b = bytes[i];
        if b == 37 && hi - i > 3 && 0x80 <= bytes[i + 3] && bytes[i + 3] <= 0xBF {
            assert(s[3] == bytes@[i + 3]);
            return true;
        }
        assert(s[0] == b);
        if b == 37 && hi - i > 2 && hex_pair(bytes[i + 1], bytes[i + 2]).is_some() {
            assert(s[1] == bytes@[i + 1] && s[2] == bytes@[i + 2]);
            assert(hi - i > 3 ==> s[3] == bytes@[i + 3]);
            proof {
                lemma_subrange_skip(bytes@, lo as int, i as int, hi as int, 3);
            }
            i = i + 3;
        } else {
            assert(b == 37 && hi - i > 2 ==> s[1] == bytes@[i + 1] && s[2] == bytes@[i + 2]);
            assert(b == 37 && hi - i > 3 ==> s[3] == bytes@[i + 3]);
            proof {
                lemma_subrange_skip(bytes@, lo as int, i as int, hi as int, 1);
            }
            i = i + 1;
        }
    }
    assert(bytes@.subrange(i as int, hi as int).len() == 0);
    false
}

/// Percent-decodes `bytes[lo..hi]` into bytes.
pub fn percent_decode_range(bytes: &[u8], lo: usize, hi: usize) -> (out: Vec<u8>)
    requires
        lo <= hi <= bytes@.len(),
        !percent_decode_panics(bytes@.subrange(lo as int, hi as int)),
    ensures
        out@ == percent_decoded(bytes@.subrange(lo as int, hi as int)),
{
    let mut out: Vec<u8> = Vec::new();
    let mut i: usize = lo;
    while i < hi
        invariant
            lo <= i <= hi <= bytes@.len(),
            percent_decoded(bytes@.subrange(lo as int, hi as int)) == out@ + percent_decoded(
                bytes@.subrange(i as int, hi as int),
            ),
        decreases hi - i,
    {
        let ghost s = bytes@.subrange(i as int, hi as int);
        let ghost before = out@;
        let b = bytes[i];
        assert(s[0] == b);
        if b == 43 {
            out.push(32);
            proof {
                lemma_subrange_skip(bytes@, lo as int, i as int, hi as int, 1);
            }
            assert(out@ + percent_decoded(s.skip(1)) =~= before + percent_decoded(s));
            i = i + 1;
        } else {
            let pair = if b == 37 && hi - i > 2 {
                hex_pair(bytes[i + 1], bytes[i + 2])
            } else {
                None
            };
            assert(b == 37 && hi - i > 2 ==> s[1] == bytes@[i + 1] && s[2] == bytes@[i + 2]);
            match pair {
                Some(v) => {
                    out.push(v);
                    proof {
                        lemma_subrange_skip(bytes@, lo as int, i as int, hi as int, 3);
                    }
                    assert(out@ + percent_decoded(s.skip(3)) =~= before + percent_decoded(s));
                    i = i + 3;
                },
                None => {
                    out.push(b);
                    proof {
                        lemma_subrange_skip(bytes@, lo as int, i as int, hi as int, 1);
                    }
                    assert(out@ + percent_decoded(s.skip(1)) =~= before + percent_decoded(s));
                    i = i + 1;
                },
            }
        }
    }
    assert(bytes@.subrange(i as int, hi as int).len() == 0);
    assert(out@ + percent_decoded(bytes@.subrange(i as int, hi as int)) =~= out@);
    out
}

/// Percent-decodes `bytes[lo..hi]` into text (empty when the bytes are not UTF-8).
pub fn percent_decode_text_range(bytes: &[u8], lo: usize, hi: usize) -> (r: String)
    requires
        lo <= hi <= bytes@.len(),
        !percent_decode_panics(bytes@.subrange(lo as int, hi as int)),
    ensures
        r@ == percent_decoded_text(bytes@.subrange(lo as int, hi as int)),
{
    let out = percent_decode_range(bytes, lo, hi);
    match string_from_utf8(out) {
        Some(s) => s,
        None => String::new(),
    }
}

/// Law: a byte that is neither `+` nor `%` stands for itself, and the rest
/// is decoded on its own.
pub proof fn lemma_plain_byte_kept(b: u8, s: Seq<u8>)
    requires
        b != 43,
        b != 37,
    ensures
        percent_decoded(seq![b] + s) == seq![b] + percent_decoded(s),
        percent_decode_panics(seq![b] + s) == percent_decode_panics(s),
{
    let t = seq![b] + s;
    assert(t[0] == b);
    assert(t.skip(1) =~= s);
}

/// Law: a `%` that does not start a valid two-byte escape stands for itself.
pub proof fn lemma_lone_percent_kept(s: Seq<u8>)
    requires
        !(s.len() >= 2 && hex_pair_value(s[0], s[1]) is Some),
    ensures
        percent_decoded(seq![37u8] + s) == seq![37u8] + percent_decoded(s),
{
    let t = seq![37u8] + s;
    assert(t[0] == 37u8);
    assert(t.len() > 2 ==> t[1] == s[0] && t[2] == s[1]);
    assert(t.skip(1) =~= s);
}

/// Law: `+` stands for a space, and `%` followed by two hex digits for the
/// byte they spell.
pub proof fn lemma_plus_and_escape(s: Seq<u8>, hi: u8, lo: u8, h: u8, l: u8)
    requires
        hex_digit_value(hi) == Some(h),
        hex_digit_value(lo) == Some(l),
    ensures
        percent_decoded(seq![43u8] + s) == seq![32u8] + percent_decoded(s),
        percent_decoded(seq![37u8, hi, lo] + s) == seq![(h * 16 + l) as u8] + percent_decoded(s),
{
    let t = seq![43u8] + s;
    assert(t[0] == 43u8);
    assert(t.skip(1) =~= s);
    let e = seq![37u8, hi, lo] + s;
    assert(e[0] == 37u8 && e[1] == hi && e[2] == lo);
    assert(hi != 43u8);
    assert(e.skip(3) =~= s);
}

/// Law: bytes without `+` and `%` decode to themselves, without panicking.
pub proof fn lemma_plain_bytes_unchanged(s: Seq<u8>)
    requires
        forall|i: int| 0 <= i < s.len() ==> s[i] != 43 && s[i] != 37,
    ensures
        percent_decoded(s) == s,
        !percent_decode_panics(s),
    decreases s.len(),
{
    if s.len() > 0 {
        let r = s.skip(1);
        assert forall|i: int| 0 <= i < r.len() implies r[i] != 43 && r[i] != 37 by {
            assert(r[i] == s[i + 1]);
        }
        lemma_plain_bytes_unchanged(r);
        lemma_plain_byte_kept(s[0], r);
        assert(seq![s[0]] + r =~= s);
    }
}

/// Percent-decodes form-field text: `+` is a space, `%XX` is the byte `XX`,
/// and a result that is not UTF-8 becomes the empty string.
pub fn percent_decode(input: &str) -> (r: String)
    requires
        !percent_decode_panics(encode_utf8(input@)),
    ensures
        r@ == percent_decoded_text(encode_utf8(input@)),
{
    let bytes = input.as_bytes();
    assert(bytes@.subrange(0, bytes@.len() as int) =~= bytes@);
    percent_decode_text_range(bytes, 0, bytes.len())
}

// ---------------------------------------------------------------------------
// Encoding
// ---------------------------------------------------------------------------

pub open spec fn is_ascii_alphanumeric(b: u8) -> bool {
    (48 <= b && b <= 57) || (65 <= b && b <= 90) || (97 <= b && b <= 122)
}

/// The upper-case hexadecimal digit for `n < 16`.
pub open spec fn hex_upper(n: u8) -> char {
    if n < 10 {
        ((n + 48) as u8) as char
    } else {
        ((n + 55) as u8) as char
    }
}

/// The `NON_ALPHANUMERIC` encoding of one byte: ASCII letters and digits
/// stand for themselves, every other byte becomes `%` and two upper-case hex digits.
pub open spec fn percent_encode_byte(b: u8) -> Seq<char> {
    if is_ascii_alphanumeric(b) {
        seq![b as char]
    } else {
        seq!['%', hex_upper(b / 16), hex_upper(b % 16)]
    }
}

/// The `NON_ALPHANUMERIC` percent-encoding of a byte sequence.
pub open spec fn percent_encoded(s: Seq<u8>) -> Seq<char>
    decreases s.len(),
{
    if s.len() == 0 {
        Seq::empty()
    } else {
        percent_encode_byte(s[0]) + percent_encoded(s.skip(1))
    }
}

/// `percent_encoding::utf8_percent_encode(s, NON_ALPHANUMERIC).to_string()`:
/// each byte of the UTF-8 encoding of `s` that is not an ASCII letter or digit
/// is written as `%` and two upper-case hex digits; letters and digits are kept.
#[verifier::external_body]
pub(crate) fn utf8_percent_encode_non_alphanumeric(s: &str) -> (r: String)
    ensures
        r@ == percent_encoded(encode_utf8(s@)),
{
    percent_encoding::utf8_percent_encode(s, percent_encoding::NON_ALPHANUMERIC).to_string()
}

/// The bytes of a sequence of ASCII characters.
pub open spec fn ascii_bytes(cs: Seq<char>) -> Seq<u8> {
    Seq::new(cs.len(), |i: int| cs[i] as u8)
}

/// A character that percent-encoding can produce.
pub open spec fn is_percent_encoded_char(c: char) -> bool {
    c == '%' || ('0' <= c && c <= '9') || ('A' <= c && c <= 'Z') || ('a' <= c && c <= 'z')
}

proof fn lemma_hex_upper(n: u8)
    requires
        n < 16,
    ensures
        hex_digit_value(hex_upper(n) as u8) == Some(n),
        hex_upper(n) as u8 != 43,
        is_percent_encoded_char(hex_upper(n)),
        (hex_upper(n) as u32) < 128,
{
}

proof fn lemma_percent_encode_byte(b: u8)
    ensures
        forall|i: int|
            0 <= i < percent_encode_byte(b).len() ==> is_percent_encoded_char(
                #[trigger] percent_encode_byte(b)[i],
            ),
{
    lemma_hex_upper(b / 16);
    lemma_hex_upper(b % 16);
}

/// Law: percent-encoding yields only ASCII letters, digits and `%`.
pub proof fn lemma_percent_encoded_chars(s: Seq<u8>)
    ensures
        forall|i: int|
            0 <= i < percent_encoded(s).len() ==> is_percent_encoded_char(
                #[trigger] percent_encoded(s)[i],
            ),
    decreases s.len(),
{
    if s.len() > 0 {
        lemma_percent_encoded_chars(s.skip(1));
        lemma_percent_encode_byte(s[0]);
        let a = percent_encode_byte(s[0]);
        let t = percent_encoded(s.skip(1));
        assert forall|i: int| 0 <= i < percent_encoded(s).len() implies is_percent_encoded_char(
            #[trigger] percent_encoded(s)[i],
        ) by {
            if i < a.len() {
                assert(percent_encoded(s)[i] == a[i]);
            } else {
                assert(percent_encoded(s)[i] == t[i - a.len()]);
            }
        }
    }
}

proof fn lemma_ascii_encode_utf8(cs: Seq<char>)
    requires
        forall|i: int| 0 <= i < cs.len() ==> is_percent_encoded_char(#[trigger] cs[i]),
    ensures
        encode_utf8(cs) == ascii_bytes(cs),
{
    assert(is_ascii_chars(cs));
    is_ascii_chars_encode_utf8(cs);
    assert(encode_utf8(cs) =~= ascii_bytes(cs));
}

proof fn lemma_decode_of_encoded(s: Seq<u8>)
    ensures
        percent_decoded(ascii_bytes(percent_encoded(s))) == s,
        !percent_decode_panics(ascii_bytes(percent_encoded(s))),
    decreases s.len(),
{
    if s.len() > 0 {
        let a = percent_encode_byte(s[0]);
        let t = percent_encoded(s.skip(1));
        let x = ascii_bytes(percent_encoded(s));
        lemma_decode_of_encoded(s.skip(1));
        lemma_percent_encoded_chars(s.skip(1));
        lemma_hex_upper(s[0] / 16);
        lemma_hex_upper(s[0] % 16);
        assert(x.skip(a.len() as int) =~= ascii_bytes(t));
        if x.len() > 3 && a.len() == 3 {
            assert(x[3] == ascii_bytes(t)[0]);
            assert(is_percent_encoded_char(t[0]));
        }
        assert(percent_decoded(x) =~= seq![s[0]] + percent_decoded(ascii_bytes(t)));
        assert(seq![s[0]] + s.skip(1) =~= s);
    } else {
        assert(ascii_bytes(percent_encoded(s)) =~= Seq::<u8>::empty());
    }
}

/// Law: percent-decoding undoes `NON_ALPHANUMERIC` percent-encoding, for any
/// bytes, without panicking.
pub proof fn lemma_percent_roundtrip(s: Seq<u8>)
    ensures
        percent_decoded(encode_utf8(percent_encoded(s))) == s,
        !percent_decode_panics(encode_utf8(percent_encoded(s))),
{
    lemma_percent_encoded_chars(s);
    lemma_ascii_encode_utf8(percent_encoded(s));
    lemma_decode_of_encoded(s);
}

/// Law: percent-decoding the encoding of a text gives that text back.
pub proof fn lemma_percent_text_roundtrip(t: Seq<char>)
    ensures
        percent_decoded_text(encode_utf8(percent_encoded(encode_utf8(t)))) == t,
        !percent_decode_panics(encode_utf8(percent_encoded(encode_utf8(t)))),
{
    lemma_percent_roundtrip(encode_utf8(t));
    encode_utf8_valid_utf8(t);
    encode_utf8_decode_utf8(t);
}

} // verus!
