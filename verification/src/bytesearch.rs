//! Byte search: the first occurrence of a byte or of either of two bytes,
//! found eight bytes at a time, and substring search built on it.

use vstd::prelude::*;
use vstd::slice::slice_subrange;

verus! {

/// A `u64` with every byte set to 0x01.
pub const SWAR_LOW: u64 = 0x0101_0101_0101_0101;

/// A `u64` with the high bit of every byte set.
pub const SWAR_HIGH: u64 = 0x8080_8080_8080_8080;

/// Bytes examined per block before the exact position is looked for.
pub const SWAR_BLOCK: usize = 64;

/// Nonzero exactly when some byte of `word` is zero.
pub open spec fn zero_byte_mask_spec(word: u64) -> u64 {
    ((word - SWAR_LOW) as u64) & !word & SWAR_HIGH
}

/// The little-endian word made of eight bytes.
pub open spec fn word_of(b0: u8, b1: u8, b2: u8, b3: u8, b4: u8, b5: u8, b6: u8, b7: u8) -> u64 {
    (b0 as u64) | ((b1 as u64) << 8u64) | ((b2 as u64) << 16u64) | ((b3 as u64) << 24u64) | ((
    b4 as u64) << 32u64) | ((b5 as u64) << 40u64) | ((b6 as u64) << 48u64) | ((b7 as u64)
        << 56u64)
}

/// The eight bytes of `s` from `i` as one word.
pub open spec fn word_at(s: Seq<u8>, i: int) -> u64 {
    word_of(s[i], s[i + 1], s[i + 2], s[i + 3], s[i + 4], s[i + 5], s[i + 6], s[i + 7])
}

/// `needle` repeated in every byte of a word.
pub open spec fn repeated(needle: u8) -> u64 {
    (SWAR_LOW * (needle as u64)) as u64
}

/// Some byte of `s[start..end]` is `needle`.
pub open spec fn has_byte_in(s: Seq<u8>, start: int, end: int, needle: u8) -> bool {
    exists|j: int| start <= j < end && #[trigger] s[j] == needle
}

/// `s` holds `needle` at `i`.
pub open spec fn occurs_at(s: Seq<u8>, needle: Seq<u8>, i: int) -> bool {
    0 <= i && i + needle.len() <= s.len() && s.subrange(i, i + needle.len()) == needle
}

/// `needle` occurs as a contiguous part of `s` (the empty needle always does).
pub open spec fn byte_contains(s: Seq<u8>, needle: Seq<u8>) -> bool {
    exists|i: int| occurs_at(s, needle, i)
}

/// `u8::to_ascii_lowercase`.
pub open spec fn byte_lower(b: u8) -> u8 {
    if 0x41 <= b <= 0x5a {
        (b + 32) as u8
    } else {
        b
    }
}

/// `u8::to_ascii_uppercase`.
pub open spec fn byte_upper(b: u8) -> u8 {
    if 0x61 <= b <= 0x7a {
        (b - 32) as u8
    } else {
        b
    }
}

/// `<[u8]>::eq_ignore_ascii_case`: equal lengths, and equal bytes once both
/// are ASCII-lowercased.
pub open spec fn eq_ignore_ascii_case(a: Seq<u8>, b: Seq<u8>) -> bool {
    a.len() == b.len() && forall|j: int| 0 <= j < a.len() ==> byte_lower(#[trigger] a[j])
        == byte_lower(b[j])
}

/// A case-insensitive match of `needle` at `i`: the first byte is the
/// needle's first byte or its ASCII capital, the rest match ignoring
/// ASCII case.
pub open spec fn occurs_folded_at(s: Seq<u8>, needle: Seq<u8>, i: int) -> bool {
    &&& needle.len() > 0
    &&& 0 <= i
    &&& i + needle.len() <= s.len()
    &&& (s[i] == needle[0] || s[i] == byte_upper(needle[0]))
    &&& eq_ignore_ascii_case(s.subrange(i + 1, i + needle.len()), needle.drop_first())
}

/// What `contains_bytes_ignore_case` finds: the empty needle, or a
/// case-insensitive match somewhere.
pub open spec fn byte_contains_folded(s: Seq<u8>, needle: Seq<u8>) -> bool {
    needle.len() == 0 || exists|i: int| occurs_folded_at(s, needle, i)
}

proof fn lemma_mask(b0: u8, b1: u8, b2: u8, b3: u8, b4: u8, b5: u8, b6: u8, b7: u8, n: u8)
    ensures
        (zero_byte_mask_spec(word_of(b0, b1, b2, b3, b4, b5, b6, b7) ^ repeated(n)) != 0) <==> (
        b0 == n || b1 == n || b2 == n || b3 == n || b4 == n || b5 == n || b6 == n || b7 == n),
{
    assert((zero_byte_mask_spec(word_of(b0, b1, b2, b3, b4, b5, b6, b7) ^ repeated(n)) != 0)
        <==> (b0 == n || b1 == n || b2 == n || b3 == n || b4 == n || b5 == n || b6 == n || b7
        == n)) by (bit_vector);
}

proof fn lemma_or_nonzero(x: u64, y: u64)
    ensures
        ((x | y) != 0) <==> (x != 0 || y != 0),
{
    assert(((x | y) != 0) <==> (x != 0 || y != 0)) by (bit_vector);
}

/// Nonzero exactly when some byte of `word` is zero.
fn zero_byte_mask(word: u64) -> (r: u64)
    ensures
        r == zero_byte_mask_spec(word),
{
    let lowered = word.wrapping_sub(SWAR_LOW);
    assert(lowered == (word - SWAR_LOW) as u64) by (bit_vector)
        requires
            lowered == (if word - SWAR_LOW < 0 {
                (word - SWAR_LOW + 0x1_0000_0000_0000_0000) as u64
            } else {
                (word - SWAR_LOW) as u64
            }),
    ;
    lowered & !word & SWAR_HIGH
}

/// The eight bytes of `s` from `i` as one word.
fn load_word(s: &[u8], i: usize) -> (r: u64)
    requires
        i + 8 <= s@.len(),
    ensures
        r == word_at(s@, i as int),
{
    (s[i] as u64) | ((s[i + 1] as u64) << 8u64) | ((s[i + 2] as u64) << 16u64) | ((s[i + 3] as u64)
        << 24u64) | ((s[i + 4] as u64) << 32u64) | ((s[i + 5] as u64) << 40u64) | ((s[i + 6] as u64)
        << 48u64) | ((s[i + 7] as u64) << 56u64)
}

/// Whether the 64-byte block at `base` holds `first` or `second`, eight
/// bytes at a time.
fn block_has_either(haystack: &[u8], base: usize, first: u8, second: u8) -> (r: bool)
    requires
        base + SWAR_BLOCK <= haystack@.len(),
    ensures
        r == (has_byte_in(haystack@, base as int, base + SWAR_BLOCK, first) || has_byte_in(
            haystack@,
            base as int,
            base + SWAR_BLOCK,
            second,
        )),
{
    let len = haystack.len();
    let lower = SWAR_LOW * (first as u64);
    let upper = SWAR_LOW * (second as u64);
    let mut hits: u64 = 0;
    let mut w: usize = 0;
    while w < 8
        invariant
            w <= 8,
            base + SWAR_BLOCK <= haystack@.len(),
            len == haystack@.len(),
            lower == repeated(first),
            upper == repeated(second),
            (hits != 0) == (has_byte_in(haystack@, base as int, base + 8 * w, first) || has_byte_in(
                haystack@,
                base as int,
                base + 8 * w,
                second,
            )),
        decreases 8 - w,
    {
        let at = base + 8 * w;
        let value = load_word(haystack, at);
        let ghost s = haystack@;
        let ghost i = at as int;
        proof {
            lemma_mask(s[i], s[i + 1], s[i + 2], s[i + 3], s[i + 4], s[i + 5], s[i + 6], s[i + 7], first);
            lemma_mask(s[i], s[i + 1], s[i + 2], s[i + 3], s[i + 4], s[i + 5], s[i + 6], s[i + 7], second);
        }
        let m1 = zero_byte_mask(value ^ lower);
        let m2 = zero_byte_mask(value ^ upper);
        proof {
            lemma_or_nonzero(m1, m2);
            lemma_or_nonzero(hits, m1 | m2);
            if has_byte_in(s, base as int, at + 8, first) {
                let j = choose|j: int| base <= j < at + 8 && #[trigger] s[j] == first;
                if j < at {
                    assert(has_byte_in(s, base as int, at as int, first));
                } else {
                    assert(j == i || j == i + 1 || j == i + 2 || j == i + 3 || j == i + 4 || j == i
                        + 5 || j == i + 6 || j == i + 7);
                }
            }
            if has_byte_in(s, base as int, at + 8, second) {
                let j = choose|j: int| base <= j < at + 8 && #[trigger] s[j] == second;
                if j < at {
                    assert(has_byte_in(s, base as int, at as int, second));
                } else {
                    assert(j == i || j == i + 1 || j == i + 2 || j == i + 3 || j == i + 4 || j == i
                        + 5 || j == i + 6 || j == i + 7);
                }
            }
        }
        hits = hits | (m1 | m2);
        w += 1;
    }
    hits != 0
}

/// The first position in `haystack[start..end]` that holds `first` or
/// `second`, scanning byte by byte.
fn scan_either(haystack: &[u8], start: usize, end: usize, first: u8, second: u8) -> (r: Option<
    usize,
>)
    requires
        start <= end <= haystack@.len(),
    ensures
        r matches Some(p) ==> start <= p < end && (haystack@[p as int] == first || haystack@[p as int]
            == second) && !has_byte_in(haystack@, start as int, p as int, first) && !has_byte_in(
            haystack@,
            start as int,
            p as int,
            second,
        ),
        r is None ==> !has_byte_in(haystack@, start as int, end as int, first) && !has_byte_in(
            haystack@,
            start as int,
            end as int,
            second,
        ),
{
    let mut j = start;
    while j < end
        invariant
            start <= j <= end <= haystack@.len(),
            !has_byte_in(haystack@, start as int, j as int, first),
            !has_byte_in(haystack@, start as int, j as int, second),
        decreases end - j,
    {
        if haystack[j] == first || haystack[j] == second {
            return Some(j);
        }
        j += 1;
    }
    None
}

/// The first position in `haystack` that holds `first` or `second`.
pub fn find_byte_pair(haystack: &[u8], first: u8, second: u8) -> (r: Option<usize>)
    ensures
        r matches Some(p) ==> p < haystack@.len() && (haystack@[p as int] == first
            || haystack@[p as int] == second) && !has_byte_in(haystack@, 0, p as int, first)
            && !has_byte_in(haystack@, 0, p as int, second),
        r is None ==> !has_byte_in(haystack@, 0, haystack@.len() as int, first) && !has_byte_in(
            haystack@,
            0,
            haystack@.len() as int,
            second,
        ),
{
    let len = haystack.len();
    let blocks = len / SWAR_BLOCK;
    let mut index: usize = 0;
    while index < blocks
        invariant
            blocks == haystack@.len() as int / SWAR_BLOCK as int,
            len == haystack@.len(),
            index <= blocks,
            !has_byte_in(haystack@, 0, index * SWAR_BLOCK, first),
            !has_byte_in(haystack@, 0, index * SWAR_BLOCK, second),
        decreases blocks - index,
    {
        assert((index + 1) * SWAR_BLOCK <= len) by (nonlinear_arith)
            requires
                index < blocks,
                blocks == len as int / SWAR_BLOCK as int,
        ;
        let base = index * SWAR_BLOCK;
        if block_has_either(haystack, base, first, second) {
            match scan_either(haystack, base, base + SWAR_BLOCK, first, second) {
                Some(p) => {
                    assert(!has_byte_in(haystack@, 0, p as int, first)) by {
                        if has_byte_in(haystack@, 0, p as int, first) {
                            let j = choose|j: int| 0 <= j < p && #[trigger] haystack@[j] == first;
                            if j < base {
                                assert(has_byte_in(haystack@, 0, base as int, first));
                            } else {
                                assert(has_byte_in(haystack@, base as int, p as int, first));
                            }
                        }
                    }
                    assert(!has_byte_in(haystack@, 0, p as int, second)) by {
                        if has_byte_in(haystack@, 0, p as int, second) {
                            let j = choose|j: int| 0 <= j < p && #[trigger] haystack@[j] == second;
                            if j < base {
                                assert(has_byte_in(haystack@, 0, base as int, second));
                            } else {
                                assert(has_byte_in(haystack@, base as int, p as int, second));
                            }
                        }
                    }
                    return Some(p);
                },
                None => {
                    return None;
                },
            }
        }
        proof {
            assert forall|j: int| 0 <= j < (index + 1) * SWAR_BLOCK implies #[trigger] haystack@[j]
                != first && haystack@[j] != second by {
                if j < base {
                    assert(!has_byte_in(haystack@, 0, base as int, first));
                    assert(!has_byte_in(haystack@, 0, base as int, second));
                } else {
                    assert(!has_byte_in(haystack@, base as int, base + SWAR_BLOCK, first));
                    assert(!has_byte_in(haystack@, base as int, base + SWAR_BLOCK, second));
                }
            }
        }
        index += 1;
    }
    assert(blocks * SWAR_BLOCK <= len) by (nonlinear_arith)
        requires
            blocks == len as int / SWAR_BLOCK as int,
    ;
    let tail = blocks * SWAR_BLOCK;
    match scan_either(haystack, tail, haystack.len(), first, second) {
        Some(p) => {
            assert(!has_byte_in(haystack@, 0, p as int, first)) by {
                if has_byte_in(haystack@, 0, p as int, first) {
                    let j = choose|j: int| 0 <= j < p && #[trigger] haystack@[j] == first;
                    if j < tail {
                        assert(has_byte_in(haystack@, 0, tail as int, first));
                    } else {
                        assert(has_byte_in(haystack@, tail as int, p as int, first));
                    }
                }
            }
            assert(!has_byte_in(haystack@, 0, p as int, second)) by {
                if has_byte_in(haystack@, 0, p as int, second) {
                    let j = choose|j: int| 0 <= j < p && #[trigger] haystack@[j] == second;
                    if j < tail {
                        assert(has_byte_in(haystack@, 0, tail as int, second));
                    } else {
                        assert(has_byte_in(haystack@, tail as int, p as int, second));
                    }
                }
            }
            Some(p)
        },
        None => {
            assert forall|j: int| 0 <= j < haystack@.len() implies #[trigger] haystack@[j] != first
                && haystack@[j] != second by {
                if j < tail {
                    assert(!has_byte_in(haystack@, 0, tail as int, first));
                    assert(!has_byte_in(haystack@, 0, tail as int, second));
                } else {
                    assert(!has_byte_in(haystack@, tail as int, haystack@.len() as int, first));
                    assert(!has_byte_in(haystack@, tail as int, haystack@.len() as int, second));
                }
            }
            None
        },
    }
}

/// The first position in `haystack` that holds `needle`.
pub fn find_byte(haystack: &[u8], needle: u8) -> (r: Option<usize>)
    ensures
        r matches Some(p) ==> p < haystack@.len() && haystack@[p as int] == needle && !has_byte_in(
            haystack@,
            0,
            p as int,
            needle,
        ),
        r is None ==> !has_byte_in(haystack@, 0, haystack@.len() as int, needle),
{
    find_byte_pair(haystack, needle, needle)
}

/// Whether `haystack[start..start + expected.len()]` equals `expected`.
fn equal_at(haystack: &[u8], start: usize, expected: &[u8]) -> (r: bool)
    requires
        start + expected@.len() <= haystack@.len(),
    ensures
        r == (haystack@.subrange(start as int, start + expected@.len()) == expected@),
{
    let hlen = haystack.len();
    let mut j: usize = 0;
    while j < expected.len()
        invariant
            j <= expected@.len(),
            hlen == haystack@.len(),
            start + expected@.len() <= haystack@.len(),
            forall|k: int| 0 <= k < j ==> haystack@[start + k] == expected@[k],
        decreases expected@.len() - j,
    {
        if haystack[start + j] != expected[j] {
            assert(haystack@.subrange(start as int, start + expected@.len())[j as int]
                != expected@[j as int]);
            return false;
        }
        j += 1;
    }
    assert(haystack@.subrange(start as int, start + expected@.len()) =~= expected@);
    true
}

/// Whether `haystack[start..start + expected.len()]` equals `expected`
/// ignoring ASCII case.
fn equal_folded_at(haystack: &[u8], start: usize, expected: &[u8]) -> (r: bool)
    requires
        start + expected@.len() <= haystack@.len(),
    ensures
        r == eq_ignore_ascii_case(
            haystack@.subrange(start as int, start + expected@.len()),
            expected@,
        ),
{
    let hlen = haystack.len();
    let mut j: usize = 0;
    while j < expected.len()
        invariant
            j <= expected@.len(),
            hlen == haystack@.len(),
            start + expected@.len() <= haystack@.len(),
            forall|k: int|
                0 <= k < j ==> byte_lower(#[trigger] haystack@[start + k]) == byte_lower(
                    expected@[k],
                ),
        decreases expected@.len() - j,
    {
        if to_ascii_lowercase(haystack[start + j]) != to_ascii_lowercase(expected[j]) {
            assert(haystack@.subrange(start as int, start + expected@.len())[j as int]
                == haystack@[start + j]);
            return false;
        }
        j += 1;
    }
    assert forall|k: int| 0 <= k < expected@.len() implies byte_lower(
        #[trigger] haystack@.subrange(start as int, start + expected@.len())[k],
    ) == byte_lower(expected@[k]) by {
        assert(haystack@.subrange(start as int, start + expected@.len())[k] == haystack@[start
            + k]);
    }
    true
}

/// `u8::to_ascii_lowercase`.
pub fn to_ascii_lowercase(b: u8) -> (r: u8)
    ensures
        r == byte_lower(b),
{
    if 0x41 <= b && b <= 0x5a {
        b + 32
    } else {
        b
    }
}

/// `u8::to_ascii_uppercase`.
pub fn to_ascii_uppercase(b: u8) -> (r: u8)
    ensures
        r == byte_upper(b),
{
    if 0x61 <= b && b <= 0x7a {
        b - 32
    } else {
        b
    }
}

/// Whether `needle` occurs in `haystack`.
pub fn contains_bytes(haystack: &[u8], needle: &[u8]) -> (r: bool)
    ensures
        r == byte_contains(haystack@, needle@),
{
    if needle.len() == 0 {
        assert(haystack@.subrange(0, 0) =~= needle@);
        assert(occurs_at(haystack@, needle@, 0));
        return true;
    }
    if needle.len() > haystack.len() {
        return false;
    }
    let first = needle[0];
    let rest = slice_subrange(needle, 1, needle.len());
    let mut offset: usize = 0;
    let limit = haystack.len() - rest.len();
    loop
        invariant
            0 < needle@.len() <= haystack@.len(),
            first == needle@[0],
            rest@ == needle@.drop_first(),
            limit == haystack@.len() - rest@.len(),
            offset <= limit,
            forall|i: int| 0 <= i < offset ==> !occurs_at(haystack@, needle@, i),
        decreases limit - offset,
    {
        let window = slice_subrange(haystack, offset, limit);
        match find_byte(window, first) {
            None => {
                assert forall|i: int| !occurs_at(haystack@, needle@, i) by {
                    if occurs_at(haystack@, needle@, i) && i >= offset {
                        assert(haystack@.subrange(i, i + needle@.len())[0] == haystack@[i]);
                        assert(window@[i - offset] == first);
                    }
                }
                return false;
            },
            Some(position) => {
                let start = offset + position + 1;
                proof {
                    assert forall|i: int| 0 <= i < start - 1 implies !occurs_at(
                        haystack@,
                        needle@,
                        i,
                    ) by {
                        if occurs_at(haystack@, needle@, i) && i >= offset {
                            assert(haystack@.subrange(i, i + needle@.len())[0] == haystack@[i]);
                            assert(window@[i - offset] == first);
                        }
                    }
                }
                if equal_at(haystack, start, rest) {
                    assert(haystack@.subrange(start - 1, start - 1 + needle@.len()) =~= needle@)
                        by {
                        assert(haystack@[start - 1] == window@[position as int]);
                        assert forall|k: int| 1 <= k < needle@.len() implies haystack@.subrange(
                            start - 1,
                            start - 1 + needle@.len(),
                        )[k] == needle@[k] by {
                            assert(haystack@.subrange(start as int, start + rest@.len())[k - 1]
                                == rest@[k - 1]);
                        }
                    }
                    assert(occurs_at(haystack@, needle@, start - 1));
                    return true;
                }
                assert(!occurs_at(haystack@, needle@, start - 1)) by {
                    if occurs_at(haystack@, needle@, start - 1) {
                        assert(haystack@.subrange(start as int, start + rest@.len()) =~= rest@);
                    }
                }
                offset = start;
            },
        }
    }
}

/// Whether `needle` occurs in `haystack` ignoring ASCII case, looking for
/// its first byte or that byte's ASCII capital.
pub fn contains_bytes_ignore_case(haystack: &[u8], needle: &[u8]) -> (r: bool)
    ensures
        r == byte_contains_folded(haystack@, needle@),
{
    if needle.len() == 0 {
        return true;
    }
    if needle.len() > haystack.len() {
        return false;
    }
    let first = needle[0];
    let rest = slice_subrange(needle, 1, needle.len());
    let upper = to_ascii_uppercase(first);
    let mut offset: usize = 0;
    let limit = haystack.len() - rest.len();
    loop
        invariant
            0 < needle@.len() <= haystack@.len(),
            first == needle@[0],
            upper == byte_upper(first),
            rest@ == needle@.drop_first(),
            limit == haystack@.len() - rest@.len(),
            offset <= limit,
            forall|i: int| 0 <= i < offset ==> !occurs_folded_at(haystack@, needle@, i),
        decreases limit - offset,
    {
        let window = slice_subrange(haystack, offset, limit);
        let found = if upper == first {
            find_byte(window, first)
        } else {
            find_byte_pair(window, first, upper)
        };
        match found {
            None => {
                assert forall|i: int| !occurs_folded_at(haystack@, needle@, i) by {
                    if occurs_folded_at(haystack@, needle@, i) && i >= offset {
                        assert(window@[i - offset] == haystack@[i]);
                    }
                }
                return false;
            },
            Some(position) => {
                let start = offset + position + 1;
                proof {
                    assert forall|i: int| 0 <= i < start - 1 implies !occurs_folded_at(
                        haystack@,
                        needle@,
                        i,
                    ) by {
                        if occurs_folded_at(haystack@, needle@, i) && i >= offset {
                            assert(window@[i - offset] == haystack@[i]);
                        }
                    }
                    assert(haystack@[start - 1] == window@[position as int]);
                }
                if equal_folded_at(haystack, start, rest) {
                    assert(occurs_folded_at(haystack@, needle@, start - 1));
                    return true;
                }
                offset = start;
            },
        }
    }
}

/// Two byte strings that are equal once ASCII-lowercased.
pub open spec fn same_ignoring_ascii_case(a: Seq<u8>, b: Seq<u8>) -> bool {
    a.len() == b.len() && forall|j: int| 0 <= j < a.len() ==> byte_lower(#[trigger] a[j]) == byte_lower(b[j])
}

proof fn lemma_folded_at_same(h1: Seq<u8>, h2: Seq<u8>, needle: Seq<u8>, i: int)
    requires
        same_ignoring_ascii_case(h1, h2),
        needle.len() > 0 ==> !(0x41 <= needle[0] <= 0x5a),
        occurs_folded_at(h1, needle, i),
    ensures
        occurs_folded_at(h2, needle, i),
{
    let n = needle.len();
    assert(byte_lower(h1[i]) == byte_lower(h2[i]));
    let s1 = h1.subrange(i + 1, i + n);
    let s2 = h2.subrange(i + 1, i + n);
    assert forall|j: int| 0 <= j < s2.len() implies byte_lower(#[trigger] s2[j]) == byte_lower(
        needle.drop_first()[j],
    ) by {
        assert(s1[j] == h1[i + 1 + j]);
        assert(s2[j] == h2[i + 1 + j]);
        assert(byte_lower(h1[i + 1 + j]) == byte_lower(h2[i + 1 + j]));
        assert(byte_lower(s1[j]) == byte_lower(needle.drop_first()[j]));
    }
}

/// A case-insensitive search does not depend on the case of the bytes
/// searched, as long as the needle does not start with an ASCII capital
/// (patterns are lowercased before such a search).
pub proof fn lemma_folded_search_ignores_case(h1: Seq<u8>, h2: Seq<u8>, needle: Seq<u8>)
    requires
        same_ignoring_ascii_case(h1, h2),
        needle.len() > 0 ==> !(0x41 <= needle[0] <= 0x5a),
    ensures
        byte_contains_folded(h1, needle) == byte_contains_folded(h2, needle),
{
    if needle.len() > 0 {
        if exists|i: int| occurs_folded_at(h1, needle, i) {
            let i = choose|i: int| occurs_folded_at(h1, needle, i);
            lemma_folded_at_same(h1, h2, needle, i);
        }
        if exists|i: int| occurs_folded_at(h2, needle, i) {
            let i = choose|i: int| occurs_folded_at(h2, needle, i);
            lemma_folded_at_same(h2, h1, needle, i);
        }
    }
}

/// No byte is an ASCII capital letter.
pub open spec fn no_ascii_capital(s: Seq<u8>) -> bool {
    forall|k: int| 0 <= k < s.len() ==> !(0x41 <= #[trigger] s[k] <= 0x5a)
}

/// Where neither the bytes searched nor the needle hold an ASCII capital,
/// the case-insensitive search finds exactly what the exact search finds.
pub proof fn lemma_folded_search_without_capitals(h: Seq<u8>, needle: Seq<u8>)
    requires
        no_ascii_capital(h),
        no_ascii_capital(needle),
    ensures
        byte_contains_folded(h, needle) == byte_contains(h, needle),
{
    if needle.len() == 0 {
        assert(occurs_at(h, needle, 0)) by {
            assert(h.subrange(0, 0) =~= needle);
        }
    } else {
        if exists|i: int| occurs_folded_at(h, needle, i) {
            let i = choose|i: int| occurs_folded_at(h, needle, i);
            let n = needle.len();
            assert(h[i] == needle[0]) by {
                assert(!(0x41 <= h[i] <= 0x5a));
                assert(!(0x41 <= needle[0] <= 0x5a));
            }
            assert forall|j: int| 0 <= j < n implies #[trigger] h.subrange(i, i + n)[j]
                == needle[j] by {
                if j > 0 {
                    assert(h.subrange(i + 1, i + n)[j - 1] == h[i + j]);
                    assert(needle.drop_first()[j - 1] == needle[j]);
                    assert(byte_lower(h[i + j]) == byte_lower(needle[j]));
                    assert(!(0x41 <= h[i + j] <= 0x5a));
                    assert(!(0x41 <= needle[j] <= 0x5a));
                }
            }
            assert(h.subrange(i, i + n) =~= needle);
            assert(occurs_at(h, needle, i));
        }
        if exists|i: int| occurs_at(h, needle, i) {
            let i = choose|i: int| occurs_at(h, needle, i);
            let n = needle.len();
            assert(h[i] == h.subrange(i, i + n)[0]);
            assert forall|j: int| 0 <= j < n - 1 implies byte_lower(
                #[trigger] h.subrange(i + 1, i + n)[j],
            ) == byte_lower(needle.drop_first()[j]) by {
                assert(h.subrange(i + 1, i + n)[j] == h.subrange(i, i + n)[j + 1]);
            }
            assert(occurs_folded_at(h, needle, i));
        }
    }
}

} // verus!
