use vstd::prelude::*;
use vstd::string::StringSliceAdditionalSpecFns;
use vstd::utf8::*;

verus! {

/// Characters with the Unicode `White_Space` property: the ones that `str::trim` removes.
pub open spec fn is_white_space(c: char) -> bool {
    ||| '\u{9}' <= c <= '\u{d}'
    ||| c == ' '
    ||| c == '\u{85}'
    ||| c == '\u{a0}'
    ||| c == '\u{1680}'
    ||| '\u{2000}' <= c <= '\u{200a}'
    ||| c == '\u{2028}'
    ||| c == '\u{2029}'
    ||| c == '\u{202f}'
    ||| c == '\u{205f}'
    ||| c == '\u{3000}'
}

/// `s` without its leading white space.
pub open spec fn trim_start(s: Seq<char>) -> Seq<char>
    decreases s.len(),
{
    if s.len() > 0 && is_white_space(s[0]) {
        trim_start(s.drop_first())
    } else {
        s
    }
}

/// `s` without its trailing white space.
pub open spec fn trim_end(s: Seq<char>) -> Seq<char>
    decreases s.len(),
{
    if s.len() > 0 && is_white_space(s.last()) {
        trim_end(s.drop_last())
    } else {
        s
    }
}

/// `s` without its leading and trailing white space.
pub open spec fn trimmed(s: Seq<char>) -> Seq<char> {
    trim_end(trim_start(s))
}

/// Removes leading and trailing white space.
///
/// Trusted: calls `str::trim`, documented to remove the leading and trailing
/// characters that have the Unicode `White_Space` property (`is_white_space`).
#[verifier::external_body]
pub fn trim(s: &str) -> (res: &str)
    ensures
        res@ == trimmed(s@),
{
    s.trim()
}

/// The error that `std::str::from_utf8` reports for bytes that are not UTF-8.
#[verifier::external_type_specification]
#[verifier::external_body]
pub struct ExUtf8Error(std::str::Utf8Error);

/// Reads `bytes` as UTF-8 text.
///
/// Trusted: calls `std::str::from_utf8`, documented to fail exactly when the
/// bytes are not valid UTF-8 and otherwise to return a string over those bytes.
#[verifier::external_body]
pub fn str_from_utf8<'a>(bytes: &'a [u8]) -> (res: Result<&'a str, std::str::Utf8Error>)
    ensures
        res is Ok <==> valid_utf8(bytes@),
        res matches Ok(s) ==> s.spec_bytes() == bytes@,
{
    std::str::from_utf8(bytes)
}

/// The UTF-8 encoding of a concatenation is the concatenation of the encodings.
pub proof fn lemma_encode_utf8_concat(a: Seq<char>, b: Seq<char>)
    ensures
        encode_utf8(a + b) == encode_utf8(a) + encode_utf8(b),
    decreases a.len(),
{
    if a.len() == 0 {
        assert(a + b =~= b);
        assert(encode_utf8(a) + encode_utf8(b) =~= encode_utf8(b));
    } else {
        assert((a + b).drop_first() =~= a.drop_first() + b);
        lemma_encode_utf8_concat(a.drop_first(), b);
        assert(encode_utf8(a + b) =~= encode_scalar(a[0] as u32) + encode_utf8(a.drop_first() + b));
    }
}

/// For `s == a + b` with `b` a non-empty ASCII text: the UTF-8 encoding of `s` can be cut
/// where `b` starts, and the two pieces read back as `a` and `b`.
pub proof fn lemma_split_before_ascii(a: Seq<char>, b: Seq<char>)
    requires
        is_ascii_chars(b),
        b.len() > 0,
    ensures
        ({
            let bytes = encode_utf8(a + b);
            let mid = bytes.len() - b.len();
            &&& encode_utf8(b).len() == b.len()
            &&& bytes.len() >= b.len()
            &&& is_char_boundary(bytes, mid)
            &&& decode_utf8(bytes.take(mid)) == a
            &&& decode_utf8(bytes.skip(mid)) == b
        }),
{
    broadcast use encode_utf8_decode_utf8, encode_utf8_valid_utf8, is_ascii_chars_encode_utf8;

    lemma_encode_utf8_concat(a, b);
    let ea = encode_utf8(a);
    let eb = encode_utf8(b);
    let bytes = encode_utf8(a + b);
    let mid = bytes.len() - b.len();
    assert(mid == ea.len());
    assert(bytes.take(mid) =~= ea);
    assert(bytes.skip(mid) =~= eb);
    assert(bytes[mid] == eb[0]);
    assert(b[0] as u8 == eb[0]);
    assert('\0' <= b[0] <= '\u{7f}');
    assert(!is_continuation_byte(bytes[mid]));
    is_char_boundary_iff_not_is_continuation_byte(bytes, mid);
}

/// Every character of `s` is white space.
pub open spec fn all_white_space(s: Seq<char>) -> bool {
    forall|i: int| 0 <= i < s.len() ==> is_white_space(#[trigger] s[i])
}

proof fn lemma_trim_start_concat(a: Seq<char>, b: Seq<char>)
    ensures
        trim_start(a).len() > 0 ==> trim_start(a + b) == trim_start(a) + b,
        trim_start(a).len() == 0 ==> trim_start(a + b) == trim_start(b),
    decreases a.len(),
{
    if a.len() == 0 {
        assert(a + b =~= b);
    } else {
        assert((a + b)[0] == a[0]);
        assert((a + b).drop_first() =~= a.drop_first() + b);
        if is_white_space(a[0]) {
            lemma_trim_start_concat(a.drop_first(), b);
        }
    }
}

proof fn lemma_trim_start_white(s: Seq<char>)
    requires
        all_white_space(s),
    ensures
        trim_start(s).len() == 0,
    decreases s.len(),
{
    if s.len() > 0 {
        lemma_trim_start_white(s.drop_first());
    }
}

proof fn lemma_trim_end_white_suffix(a: Seq<char>, w: Seq<char>)
    requires
        all_white_space(w),
    ensures
        trim_end(a + w) == trim_end(a),
    decreases w.len(),
{
    if w.len() == 0 {
        assert(a + w =~= a);
    } else {
        let w2 = w.drop_last();
        assert((a + w).last() == w.last());
        assert((a + w).drop_last() =~= a + w2);
        lemma_trim_end_white_suffix(a, w2);
    }
}

/// Surrounding white space does not change what `trim` keeps.
pub proof fn lemma_trimmed_surrounded(before: Seq<char>, s: Seq<char>, after: Seq<char>)
    requires
        all_white_space(before),
        all_white_space(after),
    ensures
        trimmed(before + s + after) == trimmed(s),
{
    lemma_trim_start_white(before);
    assert(before + s + after =~= before + (s + after));
    lemma_trim_start_concat(before, s + after);
    lemma_trim_start_concat(s, after);
    if trim_start(s).len() > 0 {
        lemma_trim_end_white_suffix(trim_start(s), after);
    } else {
        lemma_trim_start_white(after);
        assert(trim_start(after) =~= trim_start(s));
    }
}

} // verus!
