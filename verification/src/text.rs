//! Characters and substring containment.
//!
//! Everything here works on sequences of characters (`Seq<char>`, the view of
//! `&str` and `String`), so slicing always happens on character boundaries,
//! never inside a multi-byte encoding.

use vstd::prelude::*;

verus! {

/// Simple per-character case folding: the twenty-six ASCII capital letters
/// map to their lower-case forms, every other character is unchanged.
pub open spec fn lower_char(c: char) -> char {
    if c == 'A' { 'a' }
    else if c == 'B' { 'b' }
    else if c == 'C' { 'c' }
    else if c == 'D' { 'd' }
    else if c == 'E' { 'e' }
    else if c == 'F' { 'f' }
    else if c == 'G' { 'g' }
    else if c == 'H' { 'h' }
    else if c == 'I' { 'i' }
    else if c == 'J' { 'j' }
    else if c == 'K' { 'k' }
    else if c == 'L' { 'l' }
    else if c == 'M' { 'm' }
    else if c == 'N' { 'n' }
    else if c == 'O' { 'o' }
    else if c == 'P' { 'p' }
    else if c == 'Q' { 'q' }
    else if c == 'R' { 'r' }
    else if c == 'S' { 's' }
    else if c == 'T' { 't' }
    else if c == 'U' { 'u' }
    else if c == 'V' { 'v' }
    else if c == 'W' { 'w' }
    else if c == 'X' { 'x' }
    else if c == 'Y' { 'y' }
    else if c == 'Z' { 'z' }
    else { c }
}

/// A whole sequence folded character by character.
pub open spec fn lower_seq(s: Seq<char>) -> Seq<char> {
    Seq::new(s.len(), |i: int| lower_char(s[i]))
}

/// The sequence as the comparison sees it: folded when `fold` is set,
/// untouched otherwise.
pub open spec fn folded(s: Seq<char>, fold: bool) -> Seq<char> {
    if fold { lower_seq(s) } else { s }
}

/// Runtime counterpart of [`lower_char`].
pub fn lower_char_x(c: char) -> (r: char)
    ensures
        r == lower_char(c),
{
    if c == 'A' { 'a' }
    else if c == 'B' { 'b' }
    else if c == 'C' { 'c' }
    else if c == 'D' { 'd' }
    else if c == 'E' { 'e' }
    else if c == 'F' { 'f' }
    else if c == 'G' { 'g' }
    else if c == 'H' { 'h' }
    else if c == 'I' { 'i' }
    else if c == 'J' { 'j' }
    else if c == 'K' { 'k' }
    else if c == 'L' { 'l' }
    else if c == 'M' { 'm' }
    else if c == 'N' { 'n' }
    else if c == 'O' { 'o' }
    else if c == 'P' { 'p' }
    else if c == 'Q' { 'q' }
    else if c == 'R' { 'r' }
    else if c == 'S' { 's' }
    else if c == 'T' { 't' }
    else if c == 'U' { 'u' }
    else if c == 'V' { 'v' }
    else if c == 'W' { 'w' }
    else if c == 'X' { 'x' }
    else if c == 'Y' { 'y' }
    else if c == 'Z' { 'z' }
    else { c }
}

/// The pattern `pat` occurs in `text` starting at position `i`.
pub open spec fn is_match_at(text: Seq<char>, pat: Seq<char>, i: int) -> bool {
    &&& 0 <= i
    &&& i + pat.len() <= text.len()
    &&& text.subrange(i, i + pat.len() as int) == pat
}

/// `pat` occurs somewhere in `text`.  The empty pattern occurs in every text.
pub open spec fn has_substring(text: Seq<char>, pat: Seq<char>) -> bool {
    exists|i: int| is_match_at(text, pat, i)
}

/// Position of the first occurrence of `pat` in `text`; meaningful only when
/// `has_substring(text, pat)` holds (see `lemma_first_match`).
pub open spec fn first_match(text: Seq<char>, pat: Seq<char>) -> int
    decreases text.len(),
{
    if is_match_at(text, pat, 0) {
        0
    } else if text.len() == 0 {
        0
    } else {
        1 + first_match(text.drop_first(), pat)
    }
}

/// Occurrences shift by one position when the first character is dropped.
proof fn lemma_match_shift(text: Seq<char>, pat: Seq<char>, i: int)
    requires
        text.len() > 0,
        i >= 1,
    ensures
        is_match_at(text, pat, i) <==> is_match_at(text.drop_first(), pat, i - 1),
{
    if is_match_at(text, pat, i) {
        assert(text.drop_first().subrange(i - 1, i - 1 + pat.len() as int)
            =~= text.subrange(i, i + pat.len() as int));
    }
    if is_match_at(text.drop_first(), pat, i - 1) {
        assert(text.subrange(i, i + pat.len() as int)
            =~= text.drop_first().subrange(i - 1, i - 1 + pat.len() as int));
    }
}

/// When `pat` occurs in `text`, `first_match` names its leftmost occurrence.
pub proof fn lemma_first_match(text: Seq<char>, pat: Seq<char>)
    requires
        has_substring(text, pat),
    ensures
        0 <= first_match(text, pat),
        first_match(text, pat) + pat.len() <= text.len(),
        is_match_at(text, pat, first_match(text, pat)),
        forall|k: int| 0 <= k < first_match(text, pat) ==> !is_match_at(text, pat, k),
    decreases text.len(),
{
    if is_match_at(text, pat, 0) {
    } else {
        let j = choose|j: int| is_match_at(text, pat, j);
        if text.len() == 0 {
            assert(j == 0);
            assert(false);
        } else {
            assert(j >= 1);
            lemma_match_shift(text, pat, j);
            assert(has_substring(text.drop_first(), pat));
            lemma_first_match(text.drop_first(), pat);
            let f = first_match(text.drop_first(), pat);
            assert(first_match(text, pat) == 1 + f);
            lemma_match_shift(text, pat, 1 + f);
            assert forall|k: int| 0 <= k < 1 + f implies !is_match_at(text, pat, k) by {
                if k >= 1 {
                    lemma_match_shift(text, pat, k);
                }
            }
        }
    }
}

/// A leftmost occurrence is unique, so it equals `first_match`.
pub proof fn lemma_first_match_unique(text: Seq<char>, pat: Seq<char>, i: int)
    requires
        is_match_at(text, pat, i),
        forall|k: int| 0 <= k < i ==> !is_match_at(text, pat, k),
    ensures
        i == first_match(text, pat),
{
    assert(has_substring(text, pat));
    lemma_first_match(text, pat);
}

/// One scan serves both comparison modes: it looks for the first occurrence
/// of `pat` in `text`, comparing characters after folding both sides when
/// `fold` is set.  Positions count characters, not bytes.
fn find_in(text: &str, pat: &str, fold: bool) -> (r: Option<usize>)
    ensures
        r is Some <==> has_substring(folded(text@, fold), folded(pat@, fold)),
        match r {
            Some(i) => i == first_match(folded(text@, fold), folded(pat@, fold))
                && is_match_at(folded(text@, fold), folded(pat@, fold), i as int),
            None => !has_substring(folded(text@, fold), folded(pat@, fold)),
        },
{
    let ghost t = folded(text@, fold);
    let ghost p = folded(pat@, fold);
    let n = text.unicode_len();
    let m = pat.unicode_len();
    if m > n {
        assert forall|k: int| !is_match_at(t, p, k) by {}
        return None;
    }
    if m == 0 {
        proof {
            assert(t.subrange(0, 0) =~= p);
            lemma_first_match_unique(t, p, 0);
        }
        return Some(0);
    }
    let mut i: usize = 0;
    while i <= n - m
        invariant
            t == folded(text@, fold),
            p == folded(pat@, fold),
            1 <= m <= n,
            n == text@.len(),
            m == pat@.len(),
            i <= n - m + 1,
            forall|k: int| 0 <= k < i ==> !is_match_at(t, p, k),
        decreases n - m + 1 - i,
    {
        let mut j: usize = 0;
        let mut hit = true;
        while j < m
            invariant
                t == folded(text@, fold),
                p == folded(pat@, fold),
                m <= n,
                n == text@.len(),
                m == pat@.len(),
                i + m <= n,
                j <= m,
                hit ==> forall|l: int| 0 <= l < j ==> t[i + l] == p[l],
                !hit ==> !is_match_at(t, p, i as int),
            decreases m - j,
        {
            if hit {
                let mut a = text.get_char(i + j);
                let mut b = pat.get_char(j);
                if fold {
                    a = lower_char_x(a);
                    b = lower_char_x(b);
                }
                if a != b {
                    proof {
                        assert(t[i + j] != p[j as int]);
                        if is_match_at(t, p, i as int) {
                            assert(t.subrange(i as int, i + p.len() as int)[j as int]
                                == p[j as int]);
                        }
                    }
                    hit = false;
                }
            }
            j += 1;
        }
        if hit {
            proof {
                assert(t.subrange(i as int, i + p.len() as int) =~= p);
                lemma_first_match_unique(t, p, i as int);
            }
            return Some(i);
        }
        i += 1;
    }
    proof {
        assert forall|k: int| !is_match_at(t, p, k) by {}
    }
    None
}

/// Finds the position of the first exact occurrence of `pat` in `text`, or
/// returns `None` when `pat` does not occur.
pub fn find_first(text: &str, pat: &str) -> (r: Option<usize>)
    ensures
        r is Some <==> has_substring(text@, pat@),
        match r {
            Some(i) => i == first_match(text@, pat@) && is_match_at(text@, pat@, i as int),
            None => !has_substring(text@, pat@),
        },
{
    find_in(text, pat, false)
}

/// Exact (case-sensitive) substring containment.
pub fn contains_substring(text: &str, pat: &str) -> (r: bool)
    ensures
        r == has_substring(text@, pat@),
{
    find_in(text, pat, false).is_some()
}

/// Case-insensitive substring containment: both sides are folded with
/// [`lower_char`] before comparison.
pub fn contains_substring_fold(text: &str, pat: &str) -> (r: bool)
    ensures
        r == has_substring(lower_seq(text@), lower_seq(pat@)),
{
    find_in(text, pat, true).is_some()
}

} // verus!
