use base64::Engine;
use vstd::prelude::*;

verus! {

/// The character that stands for the 6-bit value `v` in the standard base64 alphabet
/// (`A`-`Z`, `a`-`z`, `0`-`9`, `+`, `/`).
pub open spec fn b64_char(v: int) -> char {
    if v < 26 {
        (65 + v) as char
    } else if v < 52 {
        (97 + (v - 26)) as char
    } else if v < 62 {
        (48 + (v - 52)) as char
    } else if v == 62 {
        '+'
    } else {
        '/'
    }
}

/// The standard base64 encoding (RFC 4648, section 4) of `b`, padded with `=`:
/// every group of three bytes becomes four characters, and a last group of one or
/// two bytes is completed with `==` or `=`.
pub open spec fn b64_encoding(b: Seq<u8>) -> Seq<char>
    decreases b.len(),
{
    let x0 = b[0] as int;
    let x1 = b[1] as int;
    let x2 = b[2] as int;
    if b.len() == 0 {
        seq![]
    } else if b.len() == 1 {
        seq![b64_char(x0 / 4), b64_char((x0 % 4) * 16), '=', '=']
    } else if b.len() == 2 {
        seq![
            b64_char(x0 / 4),
            b64_char((x0 % 4) * 16 + x1 / 16),
            b64_char((x1 % 16) * 4),
            '=',
        ]
    } else {
        seq![
            b64_char(x0 / 4),
            b64_char((x0 % 4) * 16 + x1 / 16),
            b64_char((x1 % 16) * 4 + x2 / 64),
            b64_char(x2 % 64),
        ] + b64_encoding(b.skip(3))
    }
}

/// The bytes whose standard base64 encoding is `s`, if there are any
/// (there is at most one such byte string: see `lemma_b64_injective`).
pub open spec fn b64_decoding(s: Seq<char>) -> Option<Seq<u8>> {
    if exists|v: Seq<u8>| b64_encoding(v) == s {
        Some(choose|v: Seq<u8>| b64_encoding(v) == s)
    } else {
        None
    }
}

/// The length of an encoding: four characters for every started group of three bytes.
pub open spec fn b64_len(n: nat) -> nat {
    4 * ((n + 2) / 3)
}

proof fn lemma_b64_char_props(v: int)
    requires
        0 <= v < 64,
    ensures
        b64_char(v) != '=',
        '\0' <= b64_char(v) <= '\u{7f}',
{
}

proof fn lemma_b64_char_injective(u: int, v: int)
    requires
        0 <= u < 64,
        0 <= v < 64,
        b64_char(u) == b64_char(v),
    ensures
        u == v,
{
    assert(b64_char(u) as u32 == b64_char(v) as u32);
}

/// The encoding of `b` has `b64_len(b.len())` characters.
pub proof fn lemma_b64_len(b: Seq<u8>)
    ensures
        b64_encoding(b).len() == b64_len(b.len()),
    decreases b.len(),
{
    if b.len() >= 3 {
        lemma_b64_len(b.skip(3));
    }
}

/// Every character of an encoding is ASCII.
pub proof fn lemma_b64_ascii(b: Seq<u8>)
    ensures
        vstd::utf8::is_ascii_chars(b64_encoding(b)),
    decreases b.len(),
{
    let e = b64_encoding(b);
    if b.len() == 0 {
    } else if b.len() < 3 {
        let x0 = b[0] as int;
        lemma_b64_char_props(x0 / 4);
        lemma_b64_char_props((x0 % 4) * 16);
        if b.len() == 2 {
            let x1 = b[1] as int;
            lemma_b64_char_props((x0 % 4) * 16 + x1 / 16);
            lemma_b64_char_props((x1 % 16) * 4);
        }
    } else {
        let x0 = b[0] as int;
        let x1 = b[1] as int;
        let x2 = b[2] as int;
        lemma_b64_char_props(x0 / 4);
        lemma_b64_char_props((x0 % 4) * 16 + x1 / 16);
        lemma_b64_char_props((x1 % 16) * 4 + x2 / 64);
        lemma_b64_char_props(x2 % 64);
        lemma_b64_ascii(b.skip(3));
        let t = b64_encoding(b.skip(3));
        assert forall|i| 0 <= i < e.len() implies '\0' <= #[trigger] e[i] <= '\u{7f}' by {
            if i >= 4 {
                assert(e[i] == t[i - 4]);
            }
        }
    }
}

proof fn lemma_group_injective(x0: u8, x1: u8, x2: u8, y0: u8, y1: u8, y2: u8)
    by (bit_vector)
    requires
        x0 / 4 == y0 / 4,
        (x0 % 4) * 16 + x1 / 16 == (y0 % 4) * 16 + y1 / 16,
        (x1 % 16) * 4 + x2 / 64 == (y1 % 16) * 4 + y2 / 64,
        x2 % 64 == y2 % 64,
    ensures
        x0 == y0,
        x1 == y1,
        x2 == y2,
{
}

proof fn lemma_pair_injective(x0: u8, x1: u8, y0: u8, y1: u8)
    by (bit_vector)
    requires
        x0 / 4 == y0 / 4,
        (x0 % 4) * 16 + x1 / 16 == (y0 % 4) * 16 + y1 / 16,
        (x1 % 16) * 4 == (y1 % 16) * 4,
    ensures
        x0 == y0,
        x1 == y1,
{
}

proof fn lemma_single_injective(x0: u8, y0: u8)
    by (bit_vector)
    requires
        x0 / 4 == y0 / 4,
        (x0 % 4) * 16 == (y0 % 4) * 16,
    ensures
        x0 == y0,
{
}

proof fn lemma_digit_ranges(x0: u8, x1: u8, x2: u8)
    by (bit_vector)
    ensures
        x0 / 4 < 64,
        (x0 % 4) * 16 + x1 / 16 < 64,
        (x1 % 16) * 4 + x2 / 64 < 64,
        x2 % 64 < 64,
        (x0 % 4) * 16 < 64,
        (x1 % 16) * 4 < 64,
{
}

/// Distinct byte strings have distinct encodings.
pub proof fn lemma_b64_injective(a: Seq<u8>, b: Seq<u8>)
    requires
        b64_encoding(a) == b64_encoding(b),
    ensures
        a == b,
    decreases a.len(),
{
    let ea = b64_encoding(a);
    let eb = b64_encoding(b);
    lemma_b64_len(a);
    lemma_b64_len(b);
    if a.len() == 0 || b.len() == 0 {
        assert(a =~= b);
        return;
    }
    let x0 = a[0];
    let y0 = b[0];
    let x1 = if a.len() > 1 { a[1] } else { 0u8 };
    let y1 = if b.len() > 1 { b[1] } else { 0u8 };
    let x2 = if a.len() > 2 { a[2] } else { 0u8 };
    let y2 = if b.len() > 2 { b[2] } else { 0u8 };
    lemma_digit_ranges(x0, x1, x2);
    lemma_digit_ranges(y0, y1, y2);
    assert(ea[0] == eb[0] && ea[1] == eb[1] && ea[2] == eb[2] && ea[3] == eb[3]);
    assert(ea[0] == b64_char(x0 as int / 4));
    assert(eb[0] == b64_char(y0 as int / 4));
    assert(a.len() >= 2 ==> ea[1] == b64_char((x0 as int % 4) * 16 + x1 as int / 16));
    assert(b.len() >= 2 ==> eb[1] == b64_char((y0 as int % 4) * 16 + y1 as int / 16));
    lemma_b64_char_injective(x0 as int / 4, y0 as int / 4);
    // the padding tells how many bytes the first group holds
    if a.len() >= 3 {
        lemma_b64_char_props(x2 as int % 64);
        lemma_b64_char_props((x1 as int % 16) * 4 + x2 as int / 64);
    }
    if b.len() >= 3 {
        lemma_b64_char_props(y2 as int % 64);
        lemma_b64_char_props((y1 as int % 16) * 4 + y2 as int / 64);
    }
    if a.len() == 2 {
        lemma_b64_char_props((x1 as int % 16) * 4);
    }
    if b.len() == 2 {
        lemma_b64_char_props((y1 as int % 16) * 4);
    }
    if a.len() == 1 {
        lemma_b64_char_injective((x0 as int % 4) * 16, (y0 as int % 4) * 16);
        lemma_single_injective(x0, y0);
        assert(a =~= b);
    } else if a.len() == 2 {
        lemma_b64_char_injective((x0 as int % 4) * 16 + x1 as int / 16, (y0 as int % 4) * 16 + y1 as int / 16);
        lemma_b64_char_injective((x1 as int % 16) * 4, (y1 as int % 16) * 4);
        lemma_pair_injective(x0, x1, y0, y1);
        assert(a =~= b);
    } else {
        assert(ea[2] == b64_char((x1 as int % 16) * 4 + x2 as int / 64));
        assert(ea[3] == b64_char(x2 as int % 64));
        assert(b.len() >= 3);
        assert(eb[2] == b64_char((y1 as int % 16) * 4 + y2 as int / 64));
        assert(eb[3] == b64_char(y2 as int % 64));
        lemma_b64_char_injective((x0 as int % 4) * 16 + x1 as int / 16, (y0 as int % 4) * 16 + y1 as int / 16);
        lemma_b64_char_injective((x1 as int % 16) * 4 + x2 as int / 64, (y1 as int % 16) * 4 + y2 as int / 64);
        lemma_b64_char_injective(x2 as int % 64, y2 as int % 64);
        lemma_group_injective(x0, x1, x2, y0, y1, y2);
        assert(b64_encoding(a.skip(3)) =~= ea.skip(4));
        assert(b64_encoding(b.skip(3)) =~= eb.skip(4));
        lemma_b64_injective(a.skip(3), b.skip(3));
        assert(a =~= a.take(3) + a.skip(3));
        assert(b =~= b.take(3) + b.skip(3));
        assert(a.take(3) =~= b.take(3));
    }
}

/// Decoding the encoding of `b` gives back `b`.
pub proof fn lemma_b64_decoding_of_encoding(b: Seq<u8>)
    ensures
        b64_decoding(b64_encoding(b)) == Some(b),
{
    let s = b64_encoding(b);
    assert(exists|v: Seq<u8>| b64_encoding(v) == s);
    let v = choose|v: Seq<u8>| b64_encoding(v) == s;
    lemma_b64_injective(v, b);
}

/// The error that `base64` reports for input that is not a standard base64 encoding.
#[verifier::external_type_specification]
#[verifier::external_body]
pub struct ExDecodeError(base64::DecodeError);

/// Encodes `b` in standard, padded base64.
///
/// Trusted: calls `Engine::encode` of `base64::engine::general_purpose::STANDARD`
/// (alphabet `A-Z a-z 0-9 + /`, padding with `=`); its result is taken to be
/// `b64_encoding(b@)`.
#[verifier::external_body]
pub fn encode(b: &[u8]) -> (res: String)
    ensures
        res@ == b64_encoding(b@),
{
    base64::engine::general_purpose::STANDARD.encode(b)
}

/// The error that decoding `s` reports, when `s` is not a standard base64 encoding.
pub uninterp spec fn b64_decode_error(s: Seq<char>) -> base64::DecodeError;

/// Decodes standard, padded base64.
///
/// Trusted: calls `Engine::decode` of `base64::engine::general_purpose::STANDARD`,
/// whose configuration requires canonical padding and rejects non-zero trailing
/// bits. The contract takes it to accept exactly the strings that are the encoding
/// of some byte string, and then to return those bytes. On other input the error,
/// which depends on the input alone, is named `b64_decode_error`.
#[verifier::external_body]
pub fn decode(s: &str) -> (res: Result<Vec<u8>, base64::DecodeError>)
    ensures
        res is Ok <==> b64_decoding(s@) is Some,
        res matches Ok(v) ==> b64_encoding(v@) == s@,
        res matches Err(e) ==> e == b64_decode_error(s@),
{
    base64::engine::general_purpose::STANDARD.decode(s)
}

} // verus!
