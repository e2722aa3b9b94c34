//! Bounded Levenshtein distance, used by fuzzy matching.

use vstd::prelude::*;

verus! {

pub open spec fn min3(x: nat, y: nat, z: nat) -> nat {
    if x <= y && x <= z {
        x
    } else if y <= z {
        y
    } else {
        z
    }
}

/// The Levenshtein distance: the fewest single-char insertions, deletions
/// and substitutions that turn `a` into `b`.
pub open spec fn edit_distance(a: Seq<char>, b: Seq<char>) -> nat
    decreases a.len() + b.len(),
{
    if a.len() == 0 {
        b.len()
    } else if b.len() == 0 {
        a.len()
    } else {
        min3(
            edit_distance(a.drop_last(), b) + 1,
            edit_distance(a, b.drop_last()) + 1,
            edit_distance(a.drop_last(), b.drop_last()) + if a.last() == b.last() {
                0nat
            } else {
                1nat
            },
        )
    }
}

/// `char::to_ascii_lowercase`: ASCII capitals become small letters, every
/// other char is kept.
pub open spec fn ascii_lower(c: char) -> char {
    if 'A' <= c && c <= 'Z' {
        ((c as u32) + 32) as char
    } else {
        c
    }
}

/// The word as it is compared: ASCII-lowercased when `fold` is set.
pub open spec fn fold_word(word: Seq<char>, fold: bool) -> Seq<char> {
    if fold {
        word.map_values(|c: char| ascii_lower(c))
    } else {
        word
    }
}

/// `char::to_ascii_lowercase`.
pub fn to_ascii_lower(c: char) -> (r: char)
    ensures
        r == ascii_lower(c),
{
    if 'A' <= c && c <= 'Z' {
        ((c as u8) + 32) as char
    } else {
        c
    }
}

proof fn lemma_distance_bounds(a: Seq<char>, b: Seq<char>)
    ensures
        edit_distance(a, b) >= a.len() - b.len(),
        edit_distance(a, b) >= b.len() - a.len(),
        edit_distance(a, b) <= if a.len() >= b.len() { a.len() } else { b.len() },
    decreases a.len() + b.len(),
{
    if a.len() != 0 && b.len() != 0 {
        lemma_distance_bounds(a.drop_last(), b);
        lemma_distance_bounds(a, b.drop_last());
        lemma_distance_bounds(a.drop_last(), b.drop_last());
    }
}

/// If every entry of row `i` of the table is at least `lb`, so is every
/// entry of row `i + 1`.
proof fn lemma_next_row_bound(a: Seq<char>, b: Seq<char>, i: int, lb: nat, k: int)
    requires
        0 <= i < a.len(),
        0 <= k <= b.len(),
        forall|j: int| 0 <= j <= b.len() ==> #[trigger] edit_distance(a.take(i), b.take(j)) >= lb,
    ensures
        edit_distance(a.take(i + 1), b.take(k)) >= lb,
    decreases k,
{
    assert(edit_distance(a.take(i), b.take(k)) >= lb);
    if k > 0 {
        lemma_next_row_bound(a, b, i, lb, k - 1);
        assert(edit_distance(a.take(i), b.take(k - 1)) >= lb);
        assert(a.take(i + 1).drop_last() == a.take(i));
        assert(b.take(k).drop_last() == b.take(k - 1));
    }
}

/// A lower bound on a whole row of the table bounds the final distance.
proof fn lemma_row_bound_final(a: Seq<char>, b: Seq<char>, i: int, lb: nat)
    requires
        0 <= i <= a.len(),
        forall|j: int| 0 <= j <= b.len() ==> #[trigger] edit_distance(a.take(i), b.take(j)) >= lb,
    ensures
        edit_distance(a, b) >= lb,
    decreases a.len() - i,
{
    if i == a.len() {
        assert(a.take(i) == a);
        assert(b.take(b.len() as int) == b);
        assert(edit_distance(a.take(i), b.take(b.len() as int)) >= lb);
    } else {
        assert forall|j: int| 0 <= j <= b.len() implies #[trigger] edit_distance(
            a.take(i + 1),
            b.take(j),
        ) >= lb by {
            lemma_next_row_bound(a, b, i, lb, j);
        }
        lemma_row_bound_final(a, b, i + 1, lb);
    }
}

/// A sequence is at distance 0 from itself.
pub proof fn lemma_edit_distance_identity(a: Seq<char>)
    ensures
        edit_distance(a, a) == 0,
    decreases a.len(),
{
    if a.len() > 0 {
        lemma_edit_distance_identity(a.drop_last());
    }
}

/// The distance does not depend on which sequence is edited into which.
pub proof fn lemma_edit_distance_symmetric(a: Seq<char>, b: Seq<char>)
    ensures
        edit_distance(a, b) == edit_distance(b, a),
    decreases a.len() + b.len(),
{
    if a.len() > 0 && b.len() > 0 {
        lemma_edit_distance_symmetric(a.drop_last(), b);
        lemma_edit_distance_symmetric(a, b.drop_last());
        lemma_edit_distance_symmetric(a.drop_last(), b.drop_last());
    }
}

/// Whether `word` (ASCII-lowercased when `fold` is set) is within `max`
/// The distance is never less than the difference of the lengths, and
/// never more than the longer length.
pub proof fn lemma_edit_distance_bounds(a: Seq<char>, b: Seq<char>)
    ensures
        edit_distance(a, b) >= a.len() - b.len(),
        edit_distance(a, b) >= b.len() - a.len(),
        edit_distance(a, b) <= if a.len() >= b.len() {
            a.len()
        } else {
            b.len()
        },
{
    lemma_distance_bounds(a, b);
}

/// The distance is zero exactly between equal words.
pub proof fn lemma_edit_distance_zero_iff_equal(a: Seq<char>, b: Seq<char>)
    ensures
        edit_distance(a, b) == 0 <==> a == b,
    decreases a.len() + b.len(),
{
    lemma_distance_bounds(a, b);
    if a == b {
        lemma_edit_distance_identity(a);
    } else if a.len() == 0 || b.len() == 0 {
        if edit_distance(a, b) == 0 {
            assert(a =~= b);
        }
    } else if edit_distance(a, b) == 0 {
        lemma_distance_bounds(a.drop_last(), b);
        lemma_distance_bounds(a, b.drop_last());
        lemma_edit_distance_zero_iff_equal(a.drop_last(), b.drop_last());
        assert(a.drop_last() == b.drop_last());
        assert(a.last() == b.last());
        assert(a =~= a.drop_last().push(a.last()));
        assert(b =~= b.drop_last().push(b.last()));
        assert(a =~= b);
    }
}

/// Words of one length that differ at most in the char at `k` are within
/// distance one: a substitution costs one.
pub proof fn lemma_edit_distance_substitution(a: Seq<char>, b: Seq<char>, k: int)
    requires
        a.len() == b.len(),
        0 <= k < a.len(),
        forall|j: int| 0 <= j < a.len() && j != k ==> a[j] == b[j],
    ensures
        edit_distance(a, b) <= 1,
    decreases a.len(),
{
    if k == a.len() - 1 {
        assert(a.drop_last() =~= b.drop_last());
        lemma_edit_distance_identity(a.drop_last());
    } else {
        assert(a.last() == b.last());
        lemma_edit_distance_substitution(a.drop_last(), b.drop_last(), k);
    }
}

/// Removing the char at `k` costs exactly one: a deletion (and, the other
/// way round, an insertion) is one edit.
pub proof fn lemma_edit_distance_deletion(a: Seq<char>, k: int)
    requires
        0 <= k < a.len(),
    ensures
        edit_distance(a, a.remove(k)) == 1,
        edit_distance(a.remove(k), a) == 1,
    decreases a.len(),
{
    lemma_distance_bounds(a, a.remove(k));
    if k == a.len() - 1 {
        assert(a.remove(k) =~= a.drop_last());
        lemma_edit_distance_identity(a.drop_last());
    } else {
        let r = a.remove(k);
        assert(r.last() == a.last());
        assert(r.drop_last() =~= a.drop_last().remove(k));
        lemma_edit_distance_deletion(a.drop_last(), k);
    }
    lemma_edit_distance_symmetric(a, a.remove(k));
}

/// edits of `pattern`.
pub fn within_distance(pattern: &[char], word: &[char], max: usize, fold: bool) -> (r: bool)
    ensures
        r == (edit_distance(fold_word(word@, fold), pattern@) <= max),
{
    let pattern_len = pattern.len();
    let word_len = word.len();
    proof {
        lemma_distance_bounds(fold_word(word@, fold), pattern@);
    }
    let diff = if pattern_len >= word_len {
        pattern_len - word_len
    } else {
        word_len - pattern_len
    };
    if diff > max {
        return false;
    }
    if pattern_len == 0 || word_len == 0 {
        return true;
    }
    distance_row(pattern, word, max, fold)
}

/// The row-by-row Levenshtein computation, with an early exit once a whole
/// row exceeds `max`. `row[k]` holds the distance to the first `k + 1`
/// pattern chars; the distance to the empty prefix is the word position.
fn distance_row(pattern: &[char], word: &[char], max: usize, fold: bool) -> (r: bool)
    requires
        0 < word@.len(),
    ensures
        r == (edit_distance(fold_word(word@, fold), pattern@) <= max),
{
    let ghost w = fold_word(word@, fold);
    let ghost p = pattern@;
    let ceiling = max as u128;
    let pattern_len = pattern.len();
    let word_len = word.len();
    let mut row: Vec<u128> = Vec::new();
    for j in 0..pattern_len
        invariant
            pattern_len == p.len(),
            row@.len() == j,
            forall|k: int| 0 <= k < j ==> row@[k] == k + 1,
    {
        row.push(j as u128 + 1);
    }
    proof {
        assert forall|k: int| 0 <= k < pattern_len implies row@[k] == edit_distance(
            w.take(0),
            #[trigger] p.take(k + 1),
        ) by {}
    }
    let mut last: u128 = 0;
    for index in 0..word_len
        invariant
            word_len == word@.len(),
            pattern_len == p.len(),
            p == pattern@,
            w == fold_word(word@, fold),
            w.len() == word@.len(),
            ceiling == max,
            row@.len() == pattern_len,
            forall|k: int|
                0 <= k < pattern_len ==> row@[k] == edit_distance(
                    w.take(index as int),
                    #[trigger] p.take(k + 1),
                ),
            index > 0 ==> last == edit_distance(w.take(index as int), p),
    {
        let character = if fold {
            to_ascii_lower(word[index])
        } else {
            word[index]
        };
        assert(character == w[index as int]);
        let ghost prev = row@;
        let ghost a = w.take(index + 1);
        assert(a.drop_last() == w.take(index as int));
        assert(edit_distance(w.take(index as int), p.take(0)) == index);
        assert(edit_distance(a, p.take(0)) == index + 1);
        let mut diagonal = index as u128;
        let mut left = index as u128 + 1;
        let mut row_minimum = left;
        let ghost mut min_at: int = -1;
        for j in 0..pattern_len
            invariant
                0 <= index < word_len,
                word_len == word@.len(),
                pattern_len == p.len(),
                p == pattern@,
                w.len() == word@.len(),
                a == w.take(index + 1),
                a.drop_last() == w.take(index as int),
                a.last() == character,
                row@.len() == pattern_len,
                prev.len() == pattern_len,
                forall|k: int|
                    0 <= k < pattern_len ==> prev[k] == edit_distance(
                        w.take(index as int),
                        #[trigger] p.take(k + 1),
                    ),
                forall|k: int|
                    0 <= k < j ==> row@[k] == edit_distance(a, #[trigger] p.take(k + 1)),
                forall|k: int| j <= k < pattern_len ==> row@[k] == prev[k],
                diagonal == edit_distance(w.take(index as int), p.take(j as int)),
                left == edit_distance(a, p.take(j as int)),
                -1 <= min_at < j,
                min_at == -1 ==> row_minimum == index + 1,
                min_at >= 0 ==> row_minimum == row@[min_at],
                index + 1 >= row_minimum,
                forall|k: int| 0 <= k < j ==> row_minimum <= #[trigger] row@[k],
        {
            let above = row[j];
            let ghost b = p.take(j + 1);
            assert(b.drop_last() == p.take(j as int));
            assert(b.last() == p[j as int]);
            proof {
                lemma_distance_bounds(a, p.take(j as int));
                lemma_distance_bounds(w.take(index as int), b);
                lemma_distance_bounds(w.take(index as int), p.take(j as int));
            }
            let cost: u128 = if pattern[j] != character {
                1
            } else {
                0
            };
            let mut value = left + 1;
            if above + 1 < value {
                value = above + 1;
            }
            if diagonal + cost < value {
                value = diagonal + cost;
            }
            assert(value == edit_distance(a, b));
            row.set(j, value);
            diagonal = above;
            left = value;
            if value < row_minimum {
                row_minimum = value;
                proof {
                    min_at = j as int;
                }
            }
        }
        assert(p.take(pattern_len as int) == p);
        if row_minimum > ceiling {
            proof {
                assert(edit_distance(a, p.take(0)) == index + 1);
                assert forall|k: int| 0 <= k <= pattern_len implies #[trigger] edit_distance(
                    w.take(index + 1),
                    p.take(k),
                ) >= row_minimum by {
                    if k > 0 {
                        assert(row_minimum <= row@[k - 1]);
                        assert(p.take(k) == p.take((k - 1) + 1));
                    }
                }
                lemma_row_bound_final(w, p, index + 1, row_minimum as nat);
            }
            return false;
        }
        last = left;
    }
    assert(w.take(word_len as int) == w);
    last <= ceiling
}

} // verus!
