//! Matching entry names and file contents against the search patterns.

use vstd::prelude::*;
use vstd::slice::slice_subrange;
use vstd::utf8::{
    decode_utf8,
    decode_utf8_encode_utf8,
    encode_utf8,
    is_ascii_chars,
    is_ascii_chars_encode_utf8,
    valid_utf8,
};

use crate::bytesearch::{
    byte_contains,
    byte_contains_folded,
    byte_lower,
    contains_bytes,
    contains_bytes_ignore_case,
    lemma_folded_search_ignores_case,
    lemma_folded_search_without_capitals,
    no_ascii_capital,
    same_ignoring_ascii_case,
    to_ascii_lowercase,
};
use crate::cli::Args;
use crate::levenshtein::{ascii_lower, edit_distance, fold_word, within_distance};
use crate::text::{
    char_contains,
    chars_of,
    from_utf8,
    is_alphanumeric,
    lemma_byte_search_is_text_search,
    str_contains,
    to_lowercase,
    unicode_alphanumeric,
    unicode_lowercase,
};

verus! {

/// `char::is_ascii_alphanumeric`.
pub open spec fn ascii_alnum(c: char) -> bool {
    ('0' <= c && c <= '9') || ('A' <= c && c <= 'Z') || ('a' <= c && c <= 'z')
}

/// The chars that make up words: `char::is_alphanumeric` in names, ASCII
/// alphanumerics in file contents. Among ASCII chars the Unicode
/// alphanumerics are the ASCII letters and digits, as the contract of
/// `is_alphanumeric` states.
pub open spec fn word_char(c: char, ascii_only: bool) -> bool {
    if ascii_only || c <= '\u{7f}' {
        ascii_alnum(c)
    } else {
        unicode_alphanumeric(c)
    }
}

/// `s[a..b]` is a word: a maximal non-empty run of word chars.
pub open spec fn is_word(s: Seq<char>, a: int, b: int, ascii_only: bool) -> bool {
    &&& 0 <= a < b <= s.len()
    &&& forall|k: int| a <= k < b ==> word_char(#[trigger] s[k], ascii_only)
    &&& (a == 0 || !word_char(s[a - 1], ascii_only))
    &&& (b == s.len() || !word_char(s[b], ascii_only))
}

/// Bytes read one char per byte, as the ASCII words of a file are read.
pub open spec fn latin1_chars(bytes: Seq<u8>) -> Seq<char> {
    bytes.map_values(|b: u8| b as char)
}

/// `<[u8]>::make_ascii_lowercase`.
pub open spec fn lower_bytes(bytes: Seq<u8>) -> Seq<u8> {
    bytes.map_values(|b: u8| byte_lower(b))
}

/// What a matcher holds, as mathematical values.
pub struct MatcherView {
    /// The patterns, lowercased when matching ignores case.
    pub patterns: Seq<Seq<char>>,
    /// Whether case matters.
    pub case_sensitive: bool,
    /// Whether words within `threshold` edits of a pattern match too.
    pub fuzzy: bool,
    /// The largest Levenshtein distance that fuzzy matching accepts.
    pub threshold: usize,
    /// Whether file contents are searched too.
    pub content_search: bool,
    /// The largest file, in bytes, whose content is searched.
    pub max_content_size: u64,
}

impl MatcherView {
    /// Pattern `i` occurs in the bytes: exactly when matching is case
    /// sensitive, else ignoring ASCII case from its first byte on.
    pub open spec fn pattern_in_bytes(self, hay: Seq<u8>, i: int) -> bool {
        if self.case_sensitive {
            byte_contains(hay, encode_utf8(self.patterns[i]))
        } else {
            byte_contains_folded(hay, encode_utf8(self.patterns[i]))
        }
    }

    /// Some pattern occurs in the bytes, as `pattern_in_bytes` says.
    pub open spec fn any_pattern_in_bytes(self, hay: Seq<u8>) -> bool {
        exists|i: int| 0 <= i < self.patterns.len() && #[trigger] self.pattern_in_bytes(hay, i)
    }

    /// Some pattern occurs in the text as chars.
    pub open spec fn any_pattern_in_text(self, text: Seq<char>) -> bool {
        exists|i: int| 0 <= i < self.patterns.len() && char_contains(text, #[trigger] self.patterns[i])
    }

    /// The UTF-8 bytes of some pattern occur in the bytes, exactly.
    pub open spec fn any_pattern_bytes_exact(self, hay: Seq<u8>) -> bool {
        exists|i: int|
            0 <= i < self.patterns.len() && byte_contains(hay, encode_utf8(#[trigger] self.patterns[i]))
    }

    /// The word is within the threshold of some pattern.
    pub open spec fn word_within(self, word: Seq<char>) -> bool {
        exists|i: int|
            0 <= i < self.patterns.len() && edit_distance(
                fold_word(word, !self.case_sensitive),
                #[trigger] self.patterns[i],
            ) <= self.threshold
    }

    /// Some word of `s` is within the threshold of some pattern.
    pub open spec fn has_matching_word(self, s: Seq<char>, ascii_only: bool) -> bool {
        exists|a: int, b: int|
            #[trigger] is_word(s, a, b, ascii_only) && self.word_within(s.subrange(a, b))
    }

    /// Whether an entry name matches.
    pub open spec fn name_matches(self, name: Seq<char>) -> bool {
        if self.case_sensitive || is_ascii_chars(name) {
            self.any_pattern_in_bytes(encode_utf8(name)) || (self.fuzzy && self.has_matching_word(
                name,
                false,
            ))
        } else {
            let lowered = unicode_lowercase(name);
            self.any_pattern_in_text(lowered) || (self.fuzzy && self.has_matching_word(
                lowered,
                false,
            ))
        }
    }

    /// The text of UTF-8 content as it is searched: lowered with the full
    /// Unicode mapping, as names are, unless case matters.
    pub open spec fn searched_text(self, text: Seq<char>) -> Seq<char> {
        if self.case_sensitive {
            text
        } else {
            unicode_lowercase(text)
        }
    }

    /// The bytes of content as they are searched when it is not UTF-8, and
    /// as its ASCII words are read: ASCII-lowercased unless case matters.
    pub open spec fn folded_bytes(self, data: Seq<u8>) -> Seq<u8> {
        if self.case_sensitive {
            data
        } else {
            lower_bytes(data)
        }
    }

    /// Whether content holds a pattern: UTF-8 content as text, other
    /// content as bytes.
    pub open spec fn content_has_pattern(self, data: Seq<u8>) -> bool {
        if valid_utf8(data) {
            self.any_pattern_in_text(self.searched_text(decode_utf8(data)))
        } else {
            self.any_pattern_bytes_exact(self.folded_bytes(data))
        }
    }

    /// Whether the content of a file of `size` bytes is searched: only when
    /// content search is on and the file is neither empty nor larger than
    /// the maximum content size.
    pub open spec fn searches_content_of_size(self, size: nat) -> bool {
        self.content_search && 0 < size && size <= self.max_content_size
    }

    /// Whether a file's content matches: `Some((size, data))` is a file
    /// whose metadata gave `size` and whose bytes read were `data`, `None`
    /// a file that could not be opened or read.
    pub open spec fn content_matches(self, content: Option<(nat, Seq<u8>)>) -> bool {
        &&& content matches Some((size, data))
        &&& self.searches_content_of_size(size)
        &&& self.content_has_pattern(data) || (self.fuzzy && self.has_matching_word(
            latin1_chars(self.folded_bytes(data)),
            true,
        ))
    }
}

/// Two ASCII chars that lowercase alike are both alphanumeric or neither.
proof fn lemma_ascii_alnum_ignores_case(c1: char, c2: char)
    requires
        c1 <= '\u{7f}',
        c2 <= '\u{7f}',
        ascii_lower(c1) == ascii_lower(c2),
    ensures
        ascii_alnum(c1) == ascii_alnum(c2),
{
}

/// ASCII-lowercasing keeps ASCII text ASCII and leaves no capital letter in
/// its UTF-8 bytes.
proof fn lemma_ascii_lowercase_has_no_capital(s: Seq<char>)
    requires
        is_ascii_chars(s),
    ensures
        is_ascii_chars(fold_word(s, true)),
        no_ascii_capital(encode_utf8(fold_word(s, true))),
{
    let l = fold_word(s, true);
    assert forall|k: int| 0 <= k < l.len() implies '\0' <= #[trigger] l[k] <= '\u{7f}' && !('A'
        <= l[k] <= 'Z') by {
        assert('\0' <= s[k] <= '\u{7f}');
    }
    assert(is_ascii_chars(l));
    is_ascii_chars_encode_utf8(l);
    assert forall|k: int| 0 <= k < encode_utf8(l).len() implies !(0x41 <= #[trigger] encode_utf8(
        l,
    )[k] <= 0x5a) by {
        assert(l[k] as u8 == encode_utf8(l)[k]);
        assert(!('A' <= l[k] <= 'Z'));
        assert('\0' <= l[k] <= '\u{7f}');
    }
}

/// Under a case-insensitive search whose patterns hold no ASCII capital
/// (as `from_args` lowercases ASCII patterns), an ASCII name matches exactly
/// when its lowercase form holds some pattern as text, or, with fuzzy
/// matching, has a word within the threshold of some pattern.
pub proof fn lemma_ascii_name_match_is_lowercase_match(m: MatcherView, name: Seq<char>)
    requires
        !m.case_sensitive,
        is_ascii_chars(name),
        forall|i: int| 0 <= i < m.patterns.len() ==> no_ascii_capital(encode_utf8(#[trigger] m.patterns[i])),
    ensures
        m.name_matches(name) == (m.any_pattern_in_text(fold_word(name, true)) || (m.fuzzy
            && m.has_matching_word(fold_word(name, true), false))),
{
    let l = fold_word(name, true);
    lemma_ascii_lowercase_has_no_capital(name);
    assert forall|k: int| 0 <= k < name.len() implies ascii_lower(#[trigger] name[k]) == ascii_lower(l[k]) by {
        assert('\0' <= name[k] <= '\u{7f}');
    }
    assert forall|i: int|
        0 <= i < m.patterns.len() && encode_utf8(#[trigger] m.patterns[i]).len() > 0 implies !(0x41
        <= encode_utf8(m.patterns[i])[0] <= 0x5a) by {
        assert(no_ascii_capital(encode_utf8(m.patterns[i])));
    }
    lemma_name_match_ignores_case(m, name, l);
    assert forall|i: int| 0 <= i < m.patterns.len() implies #[trigger] m.pattern_in_bytes(
        encode_utf8(l),
        i,
    ) == char_contains(l, m.patterns[i]) by {
        lemma_folded_search_without_capitals(encode_utf8(l), encode_utf8(m.patterns[i]));
        lemma_byte_search_is_text_search(l, m.patterns[i]);
    }
    if m.any_pattern_in_bytes(encode_utf8(l)) {
        let i = choose|i: int| 0 <= i < m.patterns.len() && #[trigger] m.pattern_in_bytes(encode_utf8(l), i);
        assert(char_contains(l, m.patterns[i]));
    }
    if m.any_pattern_in_text(l) {
        let i = choose|i: int| 0 <= i < m.patterns.len() && char_contains(l, #[trigger] m.patterns[i]);
        assert(m.pattern_in_bytes(encode_utf8(l), i));
    }
}

/// A case-insensitive match of an ASCII name does not depend on the case
/// of the name, with fuzzy matching or without, as long as no pattern
/// starts with an ASCII capital (patterns are lowercased for such a
/// search).
pub proof fn lemma_name_match_ignores_case(m: MatcherView, n1: Seq<char>, n2: Seq<char>)
    requires
        !m.case_sensitive,
        is_ascii_chars(n1),
        is_ascii_chars(n2),
        n1.len() == n2.len(),
        forall|k: int| 0 <= k < n1.len() ==> ascii_lower(#[trigger] n1[k]) == ascii_lower(n2[k]),
        forall|i: int|
            0 <= i < m.patterns.len() && encode_utf8(#[trigger] m.patterns[i]).len() > 0 ==> !(0x41
                <= encode_utf8(m.patterns[i])[0] <= 0x5a),
    ensures
        m.name_matches(n1) == m.name_matches(n2),
{
    let b1 = encode_utf8(n1);
    let b2 = encode_utf8(n2);
    is_ascii_chars_encode_utf8(n1);
    is_ascii_chars_encode_utf8(n2);
    assert forall|k: int| 0 <= k < b1.len() implies byte_lower(#[trigger] b1[k]) == byte_lower(
        b2[k],
    ) by {
        assert(n1[k] as u8 == b1[k]);
        assert(n2[k] as u8 == b2[k]);
        assert(ascii_lower(n1[k]) == ascii_lower(n2[k]));
        assert('\0' <= n1[k] <= '\u{7f}');
        assert('\0' <= n2[k] <= '\u{7f}');
    }
    assert(same_ignoring_ascii_case(b1, b2));
    assert forall|i: int| 0 <= i < m.patterns.len() implies #[trigger] m.pattern_in_bytes(b1, i)
        == m.pattern_in_bytes(b2, i) by {
        lemma_folded_search_ignores_case(b1, b2, encode_utf8(m.patterns[i]));
    }
    if m.any_pattern_in_bytes(b1) {
        let i = choose|i: int| 0 <= i < m.patterns.len() && #[trigger] m.pattern_in_bytes(b1, i);
        assert(m.pattern_in_bytes(b2, i));
    }
    if m.any_pattern_in_bytes(b2) {
        let i = choose|i: int| 0 <= i < m.patterns.len() && #[trigger] m.pattern_in_bytes(b2, i);
        assert(m.pattern_in_bytes(b1, i));
    }
    if m.fuzzy {
        assert forall|k: int| 0 <= k < n1.len() implies word_char(#[trigger] n1[k], false)
            == word_char(n2[k], false) by {
            lemma_ascii_alnum_ignores_case(n1[k], n2[k]);
        }
        assert forall|a: int, b: int| #[trigger] is_word(n1, a, b, false) implies is_word(
            n2,
            a,
            b,
            false,
        ) && fold_word(n1.subrange(a, b), true) == fold_word(n2.subrange(a, b), true) by {
            assert forall|k: int| a <= k < b implies word_char(#[trigger] n2[k], false) by {
                assert(word_char(n1[k], false));
            }
            if a > 0 {
                assert(word_char(n1[a - 1], false) == word_char(n2[a - 1], false));
            }
            if b < n1.len() {
                assert(word_char(n1[b], false) == word_char(n2[b], false));
            }
            assert(fold_word(n1.subrange(a, b), true) =~= fold_word(n2.subrange(a, b), true));
        }
        assert forall|a: int, b: int| #[trigger] is_word(n2, a, b, false) implies is_word(
            n1,
            a,
            b,
            false,
        ) && fold_word(n1.subrange(a, b), true) == fold_word(n2.subrange(a, b), true) by {
            assert forall|k: int| a <= k < b implies word_char(#[trigger] n1[k], false) by {
                assert(word_char(n2[k], false));
            }
            if a > 0 {
                assert(word_char(n1[a - 1], false) == word_char(n2[a - 1], false));
            }
            if b < n1.len() {
                assert(word_char(n1[b], false) == word_char(n2[b], false));
            }
            assert(fold_word(n1.subrange(a, b), true) =~= fold_word(n2.subrange(a, b), true));
        }
        if m.has_matching_word(n1, false) {
            let (a, b) = choose|a: int, b: int|
                #[trigger] is_word(n1, a, b, false) && m.word_within(n1.subrange(a, b));
            let i = choose|i: int|
                0 <= i < m.patterns.len() && edit_distance(
                    fold_word(n1.subrange(a, b), true),
                    #[trigger] m.patterns[i],
                ) <= m.threshold;
            assert(edit_distance(fold_word(n2.subrange(a, b), true), m.patterns[i]) <= m.threshold);
            assert(m.word_within(n2.subrange(a, b)));
            assert(is_word(n2, a, b, false));
        }
        if m.has_matching_word(n2, false) {
            let (a, b) = choose|a: int, b: int|
                #[trigger] is_word(n2, a, b, false) && m.word_within(n2.subrange(a, b));
            let i = choose|i: int|
                0 <= i < m.patterns.len() && edit_distance(
                    fold_word(n2.subrange(a, b), true),
                    #[trigger] m.patterns[i],
                ) <= m.threshold;
            assert(edit_distance(fold_word(n1.subrange(a, b), true), m.patterns[i]) <= m.threshold);
            assert(m.word_within(n1.subrange(a, b)));
            assert(is_word(n1, a, b, false));
        }
    }
}

/// A case-sensitive search matches a name exactly when some pattern occurs
/// in it as text, or, with fuzzy matching, when one of its words is within
/// the threshold of some pattern.
pub proof fn lemma_case_sensitive_match_is_text_match(m: MatcherView, name: Seq<char>)
    requires
        m.case_sensitive,
    ensures
        m.name_matches(name) == (m.any_pattern_in_text(name) || (m.fuzzy && m.has_matching_word(
            name,
            false,
        ))),
{
    assert forall|i: int| 0 <= i < m.patterns.len() implies #[trigger] m.pattern_in_bytes(
        encode_utf8(name),
        i,
    ) == char_contains(name, m.patterns[i]) by {
        lemma_byte_search_is_text_search(name, m.patterns[i]);
    }
    if m.any_pattern_in_bytes(encode_utf8(name)) {
        let i = choose|i: int| 0 <= i < m.patterns.len() && #[trigger] m.pattern_in_bytes(encode_utf8(name), i);
        assert(char_contains(name, m.patterns[i]));
    }
    if m.any_pattern_in_text(name) {
        let i = choose|i: int| 0 <= i < m.patterns.len() && char_contains(name, #[trigger] m.patterns[i]);
        assert(m.pattern_in_bytes(encode_utf8(name), i));
    }
}

/// In a case-sensitive search, content holds a pattern exactly when the
/// pattern's bytes occur in it, whether or not the content is UTF-8 text.
pub proof fn lemma_content_match_is_byte_match(m: MatcherView, data: Seq<u8>)
    requires
        m.case_sensitive,
    ensures
        m.content_has_pattern(data) == m.any_pattern_bytes_exact(data),
{
    if valid_utf8(data) {
        let text = decode_utf8(data);
        decode_utf8_encode_utf8(data);
        assert forall|i: int| 0 <= i < m.patterns.len() implies char_contains(
            text,
            #[trigger] m.patterns[i],
        ) == byte_contains(data, encode_utf8(m.patterns[i])) by {
            lemma_byte_search_is_text_search(text, m.patterns[i]);
        }
        if m.any_pattern_in_text(text) {
            let i = choose|i: int| 0 <= i < m.patterns.len() && char_contains(text, #[trigger] m.patterns[i]);
            assert(byte_contains(data, encode_utf8(m.patterns[i])));
        }
        if m.any_pattern_bytes_exact(data) {
            let i = choose|i: int|
                0 <= i < m.patterns.len() && byte_contains(data, encode_utf8(#[trigger] m.patterns[i]));
            assert(char_contains(text, m.patterns[i]));
        }
    }
}

/// Turning fuzzy matching on never loses a name match.
pub proof fn lemma_fuzzy_keeps_matches(m: MatcherView, name: Seq<char>)
    requires
        m.name_matches(name),
    ensures
        (MatcherView { fuzzy: true, ..m }).name_matches(name),
{
    let f = MatcherView { fuzzy: true, ..m };
    if m.fuzzy {
        assert(f == m);
    } else if m.case_sensitive || is_ascii_chars(name) {
        let i = choose|i: int| 0 <= i < m.patterns.len() && #[trigger] m.pattern_in_bytes(encode_utf8(name), i);
        assert(f.pattern_in_bytes(encode_utf8(name), i));
    } else {
        let i = choose|i: int| 0 <= i < m.patterns.len() && char_contains(unicode_lowercase(name), #[trigger] m.patterns[i]);
        assert(char_contains(unicode_lowercase(name), f.patterns[i]));
    }
}

/// What `str::to_lowercase` gives for a name, as far as its contract says:
/// ASCII letters lowered for an ASCII name, the Unicode mapping otherwise.
pub open spec fn lowercase_form(name: Seq<char>) -> Seq<char> {
    if is_ascii_chars(name) {
        name.map_values(|c: char| ascii_lower(c))
    } else {
        unicode_lowercase(name)
    }
}

/// Under a case-insensitive search, a name matches exactly when its
/// lowercase form contains some pattern, whichever it is in the list, or,
/// with fuzzy matching, when some alphanumeric word of its lowercase form
/// is within the threshold of some pattern. This holds for ASCII and other
/// names alike; for ASCII names the patterns are taken to hold no ASCII
/// capital, as `from_args` lowercases them.
pub proof fn lemma_case_insensitive_name_match(m: MatcherView, name: Seq<char>)
    requires
        !m.case_sensitive,
        is_ascii_chars(name) ==> forall|i: int|
            0 <= i < m.patterns.len() ==> no_ascii_capital(encode_utf8(#[trigger] m.patterns[i])),
    ensures
        m.name_matches(name) == ((exists|i: int|
            0 <= i < m.patterns.len() && char_contains(lowercase_form(name), #[trigger] m.patterns[i]))
            || (m.fuzzy && exists|a: int, b: int, i: int|
            #![trigger is_word(lowercase_form(name), a, b, false), m.patterns[i]]
            0 <= i < m.patterns.len() && is_word(lowercase_form(name), a, b, false) && edit_distance(
                fold_word(lowercase_form(name).subrange(a, b), true),
                m.patterns[i],
            ) <= m.threshold)),
{
    let l = lowercase_form(name);
    if is_ascii_chars(name) {
        assert(l =~= fold_word(name, true));
        lemma_ascii_name_match_is_lowercase_match(m, name);
    }
    if m.fuzzy && m.has_matching_word(l, false) {
        let (a, b) = choose|a: int, b: int| #[trigger] is_word(l, a, b, false) && m.word_within(l.subrange(a, b));
        let i = choose|i: int|
            0 <= i < m.patterns.len() && edit_distance(fold_word(l.subrange(a, b), true), #[trigger] m.patterns[i])
                <= m.threshold;
        assert(is_word(l, a, b, false) && edit_distance(fold_word(l.subrange(a, b), true), m.patterns[i])
            <= m.threshold);
    }
    if m.fuzzy && exists|a: int, b: int, i: int|
        #![trigger is_word(l, a, b, false), m.patterns[i]]
        0 <= i < m.patterns.len() && is_word(l, a, b, false) && edit_distance(
            fold_word(l.subrange(a, b), true),
            m.patterns[i],
        ) <= m.threshold {
        let (a, b, i) = choose|a: int, b: int, i: int|
            #![trigger is_word(l, a, b, false), m.patterns[i]]
            0 <= i < m.patterns.len() && is_word(l, a, b, false) && edit_distance(
                fold_word(l.subrange(a, b), true),
                m.patterns[i],
            ) <= m.threshold;
        assert(m.word_within(l.subrange(a, b)));
        assert(m.has_matching_word(l, false));
    }
}

/// The chars that make up words: for an ASCII char, exactly the ASCII
/// letters and digits, in names as in contents; for any other char, the
/// alphanumerics of `char::is_alphanumeric` in names, and none in contents.
pub proof fn lemma_word_chars(c: char, ascii_only: bool)
    ensures
        c <= '\u{7f}' ==> (word_char(c, ascii_only) <==> ('0' <= c && c <= '9') || ('A' <= c && c
            <= 'Z') || ('a' <= c && c <= 'z')),
        c > '\u{7f}' ==> (word_char(c, ascii_only) <==> !ascii_only && unicode_alphanumeric(c)),
{
}

/// A non-empty run of ASCII letters and digits, such as `report2023`, is
/// one word, and the only one it holds.
pub proof fn lemma_alphanumeric_run_is_one_word(s: Seq<char>, ascii_only: bool)
    requires
        s.len() > 0,
        forall|k: int|
            0 <= k < s.len() ==> ('0' <= #[trigger] s[k] && s[k] <= '9') || ('A' <= s[k] && s[k]
                <= 'Z') || ('a' <= s[k] && s[k] <= 'z'),
    ensures
        is_word(s, 0, s.len() as int, ascii_only),
        forall|a: int, b: int| #[trigger] is_word(s, a, b, ascii_only) ==> a == 0 && b == s.len(),
{
    assert forall|k: int| 0 <= k < s.len() implies word_char(#[trigger] s[k], ascii_only) by {
        lemma_word_chars(s[k], ascii_only);
    }
    assert forall|a: int, b: int| #[trigger] is_word(s, a, b, ascii_only) implies a == 0 && b
        == s.len() by {
        if a > 0 {
            assert(word_char(s[a - 1], ascii_only));
        }
        if b < s.len() {
            assert(word_char(s[b], ascii_only));
        }
    }
}

/// Lowered bytes read as chars hold no ASCII capital, so ASCII-lowering
/// them again changes nothing.
proof fn lemma_lowered_chars_stay(data: Seq<u8>)
    ensures
        fold_word(latin1_chars(lower_bytes(data)), true) == latin1_chars(lower_bytes(data)),
{
    let t = latin1_chars(lower_bytes(data));
    assert forall|k: int| 0 <= k < t.len() implies ascii_lower(#[trigger] t[k]) == t[k] by {
        let b = byte_lower(data[k]);
        assert(t[k] == (b as char));
        assert(!(0x41 <= b <= 0x5a));
    }
    assert(fold_word(t, true) =~= t);
}

/// With fuzzy matching, a searched file matches whenever some word of its
/// content (lowercased first under a case-insensitive search) is within
/// the threshold of some pattern, whether the search is case sensitive or
/// not.
pub proof fn lemma_content_word_makes_match(
    m: MatcherView,
    size: nat,
    data: Seq<u8>,
    a: int,
    b: int,
    i: int,
)
    requires
        m.fuzzy,
        m.content_search,
        0 < size <= m.max_content_size,
        0 <= i < m.patterns.len(),
        is_word(
            latin1_chars(
                if m.case_sensitive {
                    data
                } else {
                    lower_bytes(data)
                },
            ),
            a,
            b,
            true,
        ),
        edit_distance(
            latin1_chars(
                if m.case_sensitive {
                    data
                } else {
                    lower_bytes(data)
                },
            ).subrange(a, b),
            m.patterns[i],
        ) <= m.threshold,
    ensures
        m.content_matches(Some((size, data))),
{
    let t = latin1_chars(m.folded_bytes(data));
    if !m.case_sensitive {
        lemma_lowered_chars_stay(data);
        assert(fold_word(t.subrange(a, b), true) =~= fold_word(t, true).subrange(a, b));
    }
    assert(fold_word(t.subrange(a, b), !m.case_sensitive) == t.subrange(a, b));
    assert(m.word_within(t.subrange(a, b)));
    assert(m.has_matching_word(t, true));
}

/// Under a case-sensitive search, a name matches exactly when it contains
/// some pattern, whichever it is in the list, or, with fuzzy matching, when
/// some alphanumeric word of it is within the threshold of some pattern.
pub proof fn lemma_case_sensitive_name_match(m: MatcherView, name: Seq<char>)
    requires
        m.case_sensitive,
    ensures
        m.name_matches(name) == ((exists|i: int|
            0 <= i < m.patterns.len() && char_contains(name, #[trigger] m.patterns[i])) || (m.fuzzy
            && exists|a: int, b: int, i: int|
            #![trigger is_word(name, a, b, false), m.patterns[i]]
            0 <= i < m.patterns.len() && is_word(name, a, b, false) && edit_distance(
                name.subrange(a, b),
                m.patterns[i],
            ) <= m.threshold)),
{
    lemma_case_sensitive_match_is_text_match(m, name);
    if m.fuzzy && m.has_matching_word(name, false) {
        let (a, b) = choose|a: int, b: int|
            #[trigger] is_word(name, a, b, false) && m.word_within(name.subrange(a, b));
        let i = choose|i: int|
            0 <= i < m.patterns.len() && edit_distance(fold_word(name.subrange(a, b), false), #[trigger] m.patterns[i])
                <= m.threshold;
        assert(is_word(name, a, b, false) && edit_distance(name.subrange(a, b), m.patterns[i])
            <= m.threshold);
    }
    if m.fuzzy && exists|a: int, b: int, i: int|
        #![trigger is_word(name, a, b, false), m.patterns[i]]
        0 <= i < m.patterns.len() && is_word(name, a, b, false) && edit_distance(
            name.subrange(a, b),
            m.patterns[i],
        ) <= m.threshold {
        let (a, b, i) = choose|a: int, b: int, i: int|
            #![trigger is_word(name, a, b, false), m.patterns[i]]
            0 <= i < m.patterns.len() && is_word(name, a, b, false) && edit_distance(
                name.subrange(a, b),
                m.patterns[i],
            ) <= m.threshold;
        assert(m.word_within(name.subrange(a, b)));
        assert(m.has_matching_word(name, false));
    }
}

/// What content search reports, in full: nothing for a file that could not
/// be read; for a file that was, only when content search is on and its
/// size (from its metadata) is neither 0 nor above the maximum, and then
/// when its text (UTF-8 content, Unicode-lowercased under a
/// case-insensitive search) or else its bytes (ASCII-lowercased under a
/// case-insensitive search) contain some pattern, or, with fuzzy matching,
/// when some ASCII-alphanumeric word of its bytes (ASCII-lowercased under a
/// case-insensitive search) is within the threshold of some pattern.
pub proof fn lemma_content_match_rule(m: MatcherView, size: nat, data: Seq<u8>)
    ensures
        !m.content_matches(None),
        m.content_matches(Some((size, data))) == (m.content_search && 0 < size
            <= m.max_content_size && ((valid_utf8(data) && exists|i: int|
            0 <= i < m.patterns.len() && char_contains(
                if m.case_sensitive {
                    decode_utf8(data)
                } else {
                    unicode_lowercase(decode_utf8(data))
                },
                #[trigger] m.patterns[i],
            )) || (!valid_utf8(data) && exists|i: int|
            0 <= i < m.patterns.len() && byte_contains(
                if m.case_sensitive {
                    data
                } else {
                    lower_bytes(data)
                },
                encode_utf8(#[trigger] m.patterns[i]),
            )) || (m.fuzzy && m.case_sensitive && exists|a: int, b: int, i: int|
            #![trigger is_word(latin1_chars(data), a, b, true), m.patterns[i]]
            0 <= i < m.patterns.len() && is_word(latin1_chars(data), a, b, true) && edit_distance(
                latin1_chars(data).subrange(a, b),
                m.patterns[i],
            ) <= m.threshold) || (m.fuzzy && !m.case_sensitive && exists|a: int, b: int, i: int|
            #![trigger is_word(latin1_chars(lower_bytes(data)), a, b, true), m.patterns[i]]
            0 <= i < m.patterns.len() && is_word(latin1_chars(lower_bytes(data)), a, b, true)
                && edit_distance(latin1_chars(lower_bytes(data)).subrange(a, b), m.patterns[i])
                <= m.threshold))),
{
    let t = if m.case_sensitive {
        latin1_chars(data)
    } else {
        latin1_chars(lower_bytes(data))
    };
    assert(t == latin1_chars(m.folded_bytes(data)));
    assert(fold_word(t, !m.case_sensitive) == t) by {
        if !m.case_sensitive {
            lemma_lowered_chars_stay(data);
        }
    }
    assert forall|a: int, b: int| 0 <= a <= b <= t.len() implies fold_word(
        #[trigger] t.subrange(a, b),
        !m.case_sensitive,
    ) == t.subrange(a, b) by {
        if !m.case_sensitive {
            assert(fold_word(t.subrange(a, b), true) =~= fold_word(t, true).subrange(a, b));
        }
    }
    if m.fuzzy && m.has_matching_word(t, true) {
        let (a, b) = choose|a: int, b: int| #[trigger] is_word(t, a, b, true) && m.word_within(t.subrange(a, b));
        let i = choose|i: int|
            0 <= i < m.patterns.len() && edit_distance(fold_word(t.subrange(a, b), !m.case_sensitive), #[trigger] m.patterns[i])
                <= m.threshold;
        assert(is_word(t, a, b, true) && edit_distance(t.subrange(a, b), m.patterns[i]) <= m.threshold);
    }
    if m.fuzzy && exists|a: int, b: int, i: int|
        #![trigger is_word(t, a, b, true), m.patterns[i]]
        0 <= i < m.patterns.len() && is_word(t, a, b, true) && edit_distance(t.subrange(a, b), m.patterns[i])
            <= m.threshold {
        let (a, b, i) = choose|a: int, b: int, i: int|
            #![trigger is_word(t, a, b, true), m.patterns[i]]
            0 <= i < m.patterns.len() && is_word(t, a, b, true) && edit_distance(t.subrange(a, b), m.patterns[i])
                <= m.threshold;
        assert(m.word_within(t.subrange(a, b)));
        assert(m.has_matching_word(t, true));
    }
}

/// Matches names and contents against the search patterns.
pub struct PatternMatcher {
    patterns: Vec<String>,
    pattern_chars: Vec<Vec<char>>,
    case_sensitive: bool,
    fuzzy: bool,
    threshold: usize,
    content_search: bool,
    max_content_size: u64,
}

impl View for PatternMatcher {
    type V = MatcherView;

    closed spec fn view(&self) -> MatcherView {
        MatcherView {
            patterns: self.patterns@.map_values(|p: String| p@),
            case_sensitive: self.case_sensitive,
            fuzzy: self.fuzzy,
            threshold: self.threshold,
            content_search: self.content_search,
            max_content_size: self.max_content_size,
        }
    }
}

impl PatternMatcher {
    /// The fuzzy patterns are the chars of the patterns when fuzzy matching
    /// is on, and there are none otherwise.
    #[verifier::type_invariant]
    closed spec fn inv(self) -> bool {
        &&& self.pattern_chars@.len() == if self.fuzzy {
            self.patterns@.len()
        } else {
            0
        }
        &&& forall|i: int|
            0 <= i < self.pattern_chars@.len() ==> #[trigger] self.pattern_chars@[i]@
                == self.patterns@[i]@
    }

    /// Builds the matcher of a search: patterns lowercased unless the search
    /// is case sensitive.
    pub fn from_args(args: &Args) -> (m: Self)
        ensures
            m@.case_sensitive == !args.case_insensitive,
            m@.fuzzy == args.fuzzy,
            m@.threshold == args.fuzzy_threshold,
            m@.content_search == args.content_search,
            m@.max_content_size == args.max_content_size,
            m@.patterns.len() == args.patterns@.len(),
            forall|i: int|
                0 <= i < args.patterns@.len() ==> #[trigger] m@.patterns[i] == if args.case_insensitive {
                    unicode_lowercase(args.patterns@[i]@)
                } else {
                    args.patterns@[i]@
                },
            forall|i: int|
                0 <= i < args.patterns@.len() && args.case_insensitive && is_ascii_chars(
                    args.patterns@[i]@,
                ) ==> #[trigger] m@.patterns[i] == fold_word(args.patterns@[i]@, true)
                    && no_ascii_capital(encode_utf8(m@.patterns[i])),
    {
        let case_sensitive = !args.case_insensitive;
        let mut patterns: Vec<String> = Vec::new();
        for i in 0..args.patterns.len()
            invariant
                case_sensitive == !args.case_insensitive,
                patterns@.len() == i,
                forall|k: int|
                    0 <= k < i ==> #[trigger] patterns@[k]@ == if args.case_insensitive {
                        unicode_lowercase(args.patterns@[k]@)
                    } else {
                        args.patterns@[k]@
                    },
                forall|k: int|
                    0 <= k < i && args.case_insensitive && is_ascii_chars(args.patterns@[k]@)
                        ==> #[trigger] patterns@[k]@ == fold_word(args.patterns@[k]@, true)
                        && no_ascii_capital(encode_utf8(patterns@[k]@)),
        {
            let pattern = &args.patterns[i];
            if case_sensitive {
                patterns.push(pattern.clone());
            } else {
                let lowered = to_lowercase(pattern.as_str());
                proof {
                    if is_ascii_chars(pattern@) {
                        lemma_ascii_lowercase_has_no_capital(pattern@);
                        assert(lowered@ =~= fold_word(pattern@, true));
                    }
                }
                patterns.push(lowered);
            }
        }
        let mut pattern_chars: Vec<Vec<char>> = Vec::new();
        if args.fuzzy {
            for i in 0..patterns.len()
                invariant
                    pattern_chars@.len() == i,
                    forall|k: int| 0 <= k < i ==> #[trigger] pattern_chars@[k]@ == patterns@[k]@,
            {
                pattern_chars.push(chars_of(patterns[i].as_str()));
            }
        }
        let m = PatternMatcher {
            patterns,
            pattern_chars,
            case_sensitive,
            fuzzy: args.fuzzy,
            threshold: args.fuzzy_threshold,
            content_search: args.content_search,
            max_content_size: args.max_content_size,
        };
        assert(m@.patterns.len() == args.patterns@.len());
        m
    }

    /// Whether file contents are searched too.
    pub fn content_search(&self) -> (r: bool)
        ensures
            r == self@.content_search,
    {
        self.content_search
    }

    /// The largest file, in bytes, whose content is searched.
    pub fn max_content_size(&self) -> (r: u64)
        ensures
            r == self@.max_content_size,
    {
        self.max_content_size
    }

    /// Whether the word is within the threshold of some fuzzy pattern.
    fn word_matches(&self, word: &[char]) -> (r: bool)
        ensures
            r == (self@.fuzzy && self@.word_within(word@)),
    {
        proof {
            use_type_invariant(self);
        }
        let fold = !self.case_sensitive;
        for i in 0..self.pattern_chars.len()
            invariant
                fold == !self@.case_sensitive,
                self.pattern_chars@.len() == if self.fuzzy { self.patterns@.len() } else { 0 },
                forall|k: int|
                    0 <= k < self.pattern_chars@.len() ==> #[trigger] self.pattern_chars@[k]@
                        == self.patterns@[k]@,
                forall|k: int|
                    0 <= k < i ==> !(edit_distance(fold_word(word@, fold), #[trigger] self@.patterns[k])
                        <= self@.threshold),
        {
            assert(self@.patterns[i as int] == self.pattern_chars@[i as int]@);
            if within_distance(self.pattern_chars[i].as_slice(), word, self.threshold, fold) {
                return true;
            }
        }
        proof {
            if self.fuzzy && self@.word_within(word@) {
                let k = choose|k: int|
                    0 <= k < self@.patterns.len() && edit_distance(
                        fold_word(word@, !self@.case_sensitive),
                        #[trigger] self@.patterns[k],
                    ) <= self@.threshold;
                assert(false);
            }
        }
        false
    }

    /// Whether some word of `text` is within the threshold of some fuzzy
    /// pattern; words are runs of alphanumeric chars (ASCII ones only when
    /// `ascii_only` is set).
    fn any_word_matches(&self, text: &[char], ascii_only: bool) -> (r: bool)
        ensures
            r == (self@.fuzzy && self@.has_matching_word(text@, ascii_only)),
    {
        let len = text.len();
        let ghost s = text@;
        let mut in_word = false;
        let mut start: usize = 0;
        for i in 0..len
            invariant
                len == s.len(),
                s == text@,
                in_word ==> start < i && (start == 0 || !word_char(s[start - 1], ascii_only))
                    && forall|k: int| start <= k < i ==> word_char(#[trigger] s[k], ascii_only),
                !in_word ==> (i == 0 || !word_char(s[i - 1], ascii_only)),
                forall|a: int, b: int|
                    #[trigger] is_word(s, a, b, ascii_only) && b < i ==> !(self@.fuzzy
                        && self@.word_within(s.subrange(a, b))),
        {
            let c = text[i];
            if is_word_char(c, ascii_only) {
                if !in_word {
                    start = i;
                    in_word = true;
                }
            } else if in_word {
                assert(is_word(s, start as int, i as int, ascii_only));
                if self.word_matches(slice_subrange(text, start, i)) {
                    return true;
                }
                proof {
                    assert forall|a: int, b: int|
                        #[trigger] is_word(s, a, b, ascii_only) && b < i + 1 implies !(self@.fuzzy
                        && self@.word_within(s.subrange(a, b))) by {
                        if b == i {
                            if a < start {
                                assert(word_char(s[start - 1], ascii_only));
                            }
                            if a > start {
                                assert(word_char(s[a - 1], ascii_only));
                            }
                        }
                    }
                }
                in_word = false;
            } else {
                proof {
                    assert forall|a: int, b: int|
                        #[trigger] is_word(s, a, b, ascii_only) && b < i + 1 implies !(self@.fuzzy
                        && self@.word_within(s.subrange(a, b))) by {
                        if b == i {
                            assert(word_char(s[i - 1], ascii_only));
                        }
                    }
                }
            }
        }
        if in_word {
            assert(is_word(s, start as int, len as int, ascii_only));
            if self.word_matches(slice_subrange(text, start, len)) {
                return true;
            }
        }
        proof {
            assert forall|a: int, b: int| #[trigger] is_word(s, a, b, ascii_only) implies !(self@.fuzzy
                && self@.word_within(s.subrange(a, b))) by {
                if b == len {
                    if in_word {
                        if a < start {
                            assert(word_char(s[start - 1], ascii_only));
                        }
                        if a > start {
                            assert(word_char(s[a - 1], ascii_only));
                        }
                    } else {
                        assert(word_char(s[len - 1], ascii_only));
                    }
                }
            }
        }
        false
    }

    /// Whether some pattern occurs in the bytes of a name, ignoring ASCII
    /// case unless the search is case sensitive.
    fn contains_any(&self, haystack: &[u8]) -> (r: bool)
        ensures
            r == self@.any_pattern_in_bytes(haystack@),
    {
        for i in 0..self.patterns.len()
            invariant
                forall|k: int| 0 <= k < i ==> !#[trigger] self@.pattern_in_bytes(haystack@, k),
        {
            let needle = self.patterns[i].as_str().as_bytes();
            let found = if self.case_sensitive {
                contains_bytes(haystack, needle)
            } else {
                contains_bytes_ignore_case(haystack, needle)
            };
            if found {
                assert(self@.pattern_in_bytes(haystack@, i as int));
                return true;
            }
        }
        false
    }

    /// Whether some pattern occurs in the text.
    fn contains_any_text(&self, text: &str) -> (r: bool)
        ensures
            r == self@.any_pattern_in_text(text@),
    {
        for i in 0..self.patterns.len()
            invariant
                forall|k: int| 0 <= k < i ==> !char_contains(text@, #[trigger] self@.patterns[k]),
        {
            if str_contains(text, self.patterns[i].as_str()) {
                assert(char_contains(text@, self@.patterns[i as int]));
                return true;
            }
        }
        false
    }

    /// Whether some pattern occurs in content: as text when it is UTF-8
    /// (Unicode-lowercased unless case matters), as bytes otherwise
    /// (ASCII-lowercased unless case matters).
    fn contains_any_folded(&self, data: &[u8]) -> (r: bool)
        ensures
            r == self@.content_has_pattern(data@),
    {
        let decoded = from_utf8(data);
        if let Some(text) = decoded {
            if self.case_sensitive {
                return self.contains_any_text(text);
            }
            let lowered = to_lowercase(text);
            return self.contains_any_text(lowered.as_str());
        }
        assert(!valid_utf8(data@));
        let folded = self.fold_bytes(data);
        for i in 0..self.patterns.len()
            invariant
                !valid_utf8(data@),
                folded@ == self@.folded_bytes(data@),
                forall|k: int|
                    0 <= k < i ==> !byte_contains(folded@, encode_utf8(#[trigger] self@.patterns[k])),
        {
            if contains_bytes(folded.as_slice(), self.patterns[i].as_str().as_bytes()) {
                assert(byte_contains(folded@, encode_utf8(self@.patterns[i as int])));
                return true;
            }
        }
        false
    }

    /// The bytes of content as they are searched byte by byte:
    /// ASCII-lowercased unless case matters.
    fn fold_bytes(&self, data: &[u8]) -> (folded: Vec<u8>)
        ensures
            folded@ == self@.folded_bytes(data@),
    {
        let mut folded: Vec<u8> = Vec::new();
        for i in 0..data.len()
            invariant
                folded@.len() == i,
                forall|k: int|
                    0 <= k < i ==> folded@[k] == if self.case_sensitive {
                        data@[k]
                    } else {
                        byte_lower(data@[k])
                    },
        {
            if self.case_sensitive {
                folded.push(data[i]);
            } else {
                folded.push(to_ascii_lowercase(data[i]));
            }
        }
        assert(folded@ =~= self@.folded_bytes(data@));
        folded
    }

    /// Whether an entry name matches some pattern, or, with fuzzy matching,
    /// has a word within the threshold of one.
    pub fn matches(&self, name: &str) -> (r: bool)
        ensures
            r == self@.name_matches(name@),
    {
        if self.case_sensitive || name.is_ascii() {
            if self.contains_any(name.as_bytes()) {
                return true;
            }
            return self.fuzzy && self.any_word_matches(chars_of(name).as_slice(), false);
        }
        let lowered = to_lowercase(name);
        if self.contains_any_text(lowered.as_str()) {
            return true;
        }
        self.fuzzy && self.any_word_matches(chars_of(lowered.as_str()).as_slice(), false)
    }

    /// Whether the content of a file of `size` bytes is searched: only when
    /// content search is on and the file is neither empty nor larger than
    /// `max_content_size`. The file is read only when it is.
    pub fn wants_content(&self, size: u64) -> (r: bool)
        ensures
            r == (self@.content_search && 0 < size && size <= self@.max_content_size),
    {
        self.content_search && 0 < size && size <= self.max_content_size
    }

    /// Whether a file's content matches. `content` is the file's size, as
    /// its metadata gives it, and the bytes read from it, or `None` when it
    /// could not be opened or read. The size decides whether the content
    /// is searched at all; the bytes are searched whatever their number.
    pub fn matches_content(&self, content: Option<(u64, Vec<u8>)>) -> (r: bool)
        ensures
            r == self@.content_matches(
                match content {
                    Some((size, data)) => Some((size as nat, data@)),
                    None => None,
                },
            ),
    {
        let (size, data) = match content {
            Some(content) => content,
            None => {
                return false;
            },
        };
        if !self.wants_content(size) {
            return false;
        }
        if self.contains_any_folded(data.as_slice()) {
            return true;
        }
        if !self.fuzzy {
            return false;
        }
        let folded = self.fold_bytes(data.as_slice());
        let mut chars: Vec<char> = Vec::new();
        for i in 0..folded.len()
            invariant
                chars@.len() == i,
                forall|k: int| 0 <= k < i ==> chars@[k] == (folded@[k] as char),
        {
            chars.push(folded[i] as char);
        }
        assert(chars@ =~= latin1_chars(folded@));
        self.any_word_matches(chars.as_slice(), true)
    }
}

/// Whether `c` is a word char.
fn is_word_char(c: char, ascii_only: bool) -> (r: bool)
    ensures
        r == word_char(c, ascii_only),
{
    if ascii_only {
        ('0' <= c && c <= '9') || ('A' <= c && c <= 'Z') || ('a' <= c && c <= 'z')
    } else {
        is_alphanumeric(c)
    }
}

} // verus!
