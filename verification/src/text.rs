//! Calls into std's text handling, with what its documentation promises.

use vstd::prelude::*;
use vstd::utf8::{
    decode_utf8,
    encode_utf8,
    encode_utf8_decode_utf8,
    encode_utf8_valid_utf8,
    is_ascii_chars,
    is_char_boundary,
    is_char_boundary_iff_not_is_continuation_byte,
    is_char_boundary_start_end_of_seq,
    length_of_first_scalar,
    pop_first_scalar,
    valid_utf8,
    valid_utf8_split,
    decode_utf8_split,
};

use crate::bytesearch::{byte_contains, contains_bytes, occurs_at};
use crate::levenshtein::ascii_lower;

verus! {

/// The full Unicode lowercase mapping of a string, as `str::to_lowercase`
/// computes it from std's Unicode tables.
pub uninterp spec fn unicode_lowercase(s: Seq<char>) -> Seq<char>;

/// The Unicode `Alphabetic` or `Numeric` property of a char, as
/// `char::is_alphanumeric` reads it from std's Unicode tables.
pub uninterp spec fn unicode_alphanumeric(c: char) -> bool;

/// `needle` occurs as a contiguous run of chars in `s`.
pub open spec fn char_contains(s: Seq<char>, needle: Seq<char>) -> bool {
    exists|i: int|
        0 <= i && i + needle.len() <= s.len() && #[trigger] s.subrange(i, i + needle.len())
            == needle
}

/// The encoding of two strings one after the other is the encoding of the
/// first followed by that of the second.
pub proof fn lemma_encode_concat(a: Seq<char>, b: Seq<char>)
    ensures
        encode_utf8(a + b) == encode_utf8(a) + encode_utf8(b),
    decreases a.len(),
{
    if a.len() > 0 {
        assert((a + b).drop_first() =~= a.drop_first() + b);
        assert((a + b)[0] == a[0]);
        lemma_encode_concat(a.drop_first(), b);
        assert(encode_utf8(a + b) =~= encode_utf8(a) + encode_utf8(b));
    } else {
        assert(a + b =~= b);
        assert(encode_utf8(a) =~= Seq::<u8>::empty());
        assert(encode_utf8(a) + encode_utf8(b) =~= encode_utf8(b));
    }
}

/// A valid encoding that starts a valid encoding ends on a char boundary
/// of it.
proof fn lemma_prefix_ends_on_boundary(whole: Seq<u8>, prefix: Seq<u8>)
    requires
        valid_utf8(whole),
        valid_utf8(prefix),
        prefix.len() <= whole.len(),
        whole.subrange(0, prefix.len() as int) == prefix,
    ensures
        is_char_boundary(whole, prefix.len() as int),
    decreases prefix.len(),
{
    if prefix.len() > 0 {
        assert(whole[0] == whole.subrange(0, prefix.len() as int)[0]);
        let width = length_of_first_scalar(prefix);
        assert(length_of_first_scalar(whole) == width);
        assert forall|k: int| 0 <= k < width implies whole[k] == prefix[k] by {
            assert(whole[k] == whole.subrange(0, prefix.len() as int)[k]);
        }
        let rest_whole = pop_first_scalar(whole);
        let rest_prefix = pop_first_scalar(prefix);
        assert(rest_whole.subrange(0, rest_prefix.len() as int) =~= rest_prefix) by {
            assert forall|k: int| 0 <= k < rest_prefix.len() implies rest_whole[k]
                == rest_prefix[k] by {
                assert(whole[width + k] == whole.subrange(0, prefix.len() as int)[width + k]);
            }
        }
        lemma_prefix_ends_on_boundary(rest_whole, rest_prefix);
    }
}

/// Searching the UTF-8 bytes of a text for the bytes of a string finds it
/// exactly when the string occurs in the text as chars.
pub proof fn lemma_byte_search_is_text_search(text: Seq<char>, needle: Seq<char>)
    ensures
        byte_contains(encode_utf8(text), encode_utf8(needle)) == char_contains(text, needle),
{
    let b = encode_utf8(text);
    let p = encode_utf8(needle);
    if char_contains(text, needle) {
        let i = choose|i: int|
            0 <= i && i + needle.len() <= text.len() && #[trigger] text.subrange(i, i + needle.len())
                == needle;
        let before = text.subrange(0, i);
        let after = text.subrange(i + needle.len(), text.len() as int);
        assert(text =~= before + needle + after);
        lemma_encode_concat(before, needle);
        lemma_encode_concat(before + needle, after);
        let j = encode_utf8(before).len() as int;
        assert(b.subrange(j, j + p.len()) =~= p);
        assert(occurs_at(b, p, j));
    }
    if byte_contains(b, p) {
        if needle.len() == 0 {
            assert(text.subrange(0, 0) =~= needle);
        } else {
            let j = choose|j: int| occurs_at(b, p, j);
            encode_utf8_valid_utf8(text);
            encode_utf8_valid_utf8(needle);
            encode_utf8_decode_utf8(text);
            encode_utf8_decode_utf8(needle);
            assert(p.len() > 0) by {
                if p.len() == 0 {
                    assert(decode_utf8(p) =~= Seq::<char>::empty());
                }
            }
            is_char_boundary_start_end_of_seq(p);
            is_char_boundary_iff_not_is_continuation_byte(p, 0);
            assert(b[j] == b.subrange(j, j + p.len())[0]);
            is_char_boundary_iff_not_is_continuation_byte(b, j);
            valid_utf8_split(b, j);
            decode_utf8_split(b, j);
            let tail = b.subrange(j, b.len() as int);
            assert(tail.subrange(0, p.len() as int) =~= p);
            lemma_prefix_ends_on_boundary(tail, p);
            valid_utf8_split(tail, p.len() as int);
            decode_utf8_split(tail, p.len() as int);
            let head = b.subrange(0, j);
            let rest = tail.subrange(p.len() as int, tail.len() as int);
            assert(text == decode_utf8(head) + (needle + decode_utf8(rest)));
            let i = decode_utf8(head).len() as int;
            assert(text.subrange(i, i + needle.len()) =~= needle);
        }
    }
}

/// `str::to_lowercase`: the string's Unicode lowercase mapping, named by
/// `unicode_lowercase`. Of its values only the ASCII part is stated: an
/// ASCII string has its letters `A`-`Z` mapped to `a`-`z` and every other
/// char kept. What it gives for other chars (std's Unicode tables) is left
/// unsaid.
#[verifier::external_body]
pub(crate) fn to_lowercase(s: &str) -> (r: String)
    ensures
        r@ == unicode_lowercase(s@),
        is_ascii_chars(s@) ==> r@ == s@.map_values(|c: char| ascii_lower(c)),
{
    s.to_lowercase()
}

/// `char::is_alphanumeric`: whether the char is alphabetic or numeric in
/// Unicode, named by `unicode_alphanumeric`. Of its values only the ASCII
/// part is stated: an ASCII char is alphanumeric exactly when it is an
/// ASCII digit or letter. The property tables for other chars are left
/// unsaid.
#[verifier::external_body]
pub(crate) fn is_alphanumeric(c: char) -> (r: bool)
    ensures
        r == unicode_alphanumeric(c),
        c <= '\u{7f}' ==> r == (('0' <= c && c <= '9') || ('A' <= c && c <= 'Z') || ('a' <= c
            && c <= 'z')),
{
    c.is_alphanumeric()
}

/// Whether `needle` occurs in `haystack` as chars (the empty needle
/// always does), found by searching their UTF-8 bytes.
pub fn str_contains(haystack: &str, needle: &str) -> (r: bool)
    ensures
        r == char_contains(haystack@, needle@),
{
    proof {
        lemma_byte_search_is_text_search(haystack@, needle@);
    }
    contains_bytes(haystack.as_bytes(), needle.as_bytes())
}

/// `std::str::from_utf8`: the text the bytes encode when they are valid
/// UTF-8, `None` otherwise.
#[verifier::external_body]
pub(crate) fn from_utf8(bytes: &[u8]) -> (r: Option<&str>)
    ensures
        r is Some <==> valid_utf8(bytes@),
        r matches Some(text) ==> text@ == decode_utf8(bytes@),
{
    std::str::from_utf8(bytes).ok()
}

/// `String::push`: appends one char.
#[verifier::external_body]
pub(crate) fn push_char(s: &mut String, c: char)
    ensures
        final(s)@ == old(s)@.push(c),
{
    s.push(c)
}

/// The chars of a string, in order.
pub fn chars_of(s: &str) -> (r: Vec<char>)
    ensures
        r@ == s@,
{
    let mut out: Vec<char> = Vec::new();
    for c in it: s.chars()
        invariant
            it.seq() == s@,
            out@ == it.seq().take(it.index() as int),
    {
        out.push(c);
        assert(it.seq().take(it.index() + 1) == it.seq().take(it.index() as int).push(c));
    }
    assert(out@ == s@.take(s@.len() as int));
    out
}

} // verus!
