//! Properties of the line filter that relate its modes and repeated runs.

use vstd::prelude::*;

use crate::search::{line_matches, matching_lines};
use crate::text::{has_substring, is_match_at, lower_seq};

verus! {

/// `a` is an order-preserving selection from `b`: every element of `a`
/// appears in `b`, in the same order, with nothing reordered or inserted.
pub open spec fn is_subsequence(a: Seq<Seq<char>>, b: Seq<Seq<char>>) -> bool
    decreases a.len() + b.len(),
{
    if a.len() == 0 {
        true
    } else if b.len() == 0 {
        false
    } else if a[0] == b[0] {
        is_subsequence(a.drop_first(), b.drop_first())
    } else {
        is_subsequence(a, b.drop_first())
    }
}

/// Dropping the head of a subsequence keeps it a subsequence.
proof fn lemma_subsequence_drop_first(a: Seq<Seq<char>>, b: Seq<Seq<char>>)
    requires
        is_subsequence(a, b),
        a.len() > 0,
    ensures
        is_subsequence(a.drop_first(), b),
    decreases b.len(),
{
    if b.len() == 0 {
    } else if a[0] == b[0] {
        if a.drop_first().len() == 0 {
        } else if a.drop_first()[0] == b[0] {
            lemma_subsequence_drop_first(a.drop_first(), b.drop_first());
        } else {
        }
    } else {
        lemma_subsequence_drop_first(a, b.drop_first());
        if a.drop_first().len() == 0 {
        } else if a.drop_first()[0] == b[0] {
            lemma_subsequence_drop_first(a.drop_first(), b.drop_first());
        } else {
        }
    }
}

/// A subsequence of `b` is also a subsequence of `b` with one element put in
/// front.
proof fn lemma_subsequence_cons(a: Seq<Seq<char>>, b: Seq<Seq<char>>, x: Seq<char>)
    requires
        is_subsequence(a, b),
    ensures
        is_subsequence(a, seq![x] + b),
{
    assert((seq![x] + b).drop_first() =~= b);
    if a.len() == 0 {
    } else if a[0] == x {
        lemma_subsequence_drop_first(a, b);
    } else {
    }
}

/// An exact occurrence survives folding: when `pat` occurs in `text`, the
/// folded pattern occurs in the folded text, at the same position.
pub proof fn lemma_match_survives_fold(text: Seq<char>, pat: Seq<char>)
    requires
        has_substring(text, pat),
    ensures
        has_substring(lower_seq(text), lower_seq(pat)),
{
    let i = choose|i: int| is_match_at(text, pat, i);
    assert(lower_seq(text).subrange(i, i + lower_seq(pat).len() as int) =~= lower_seq(pat)) by {
        assert forall|j: int| 0 <= j < pat.len()
            implies lower_seq(text)[i + j] == lower_seq(pat)[j] by {
            assert(text.subrange(i, i + pat.len() as int)[j] == pat[j]);
        }
    }
    assert(is_match_at(lower_seq(text), lower_seq(pat), i));
}

/// A line kept by the case-sensitive filter is kept by the case-insensitive
/// one as well.
pub proof fn lemma_sensitive_match_implies_insensitive(line: Seq<char>, query: Seq<char>)
    requires
        line_matches(line, query, true),
    ensures
        line_matches(line, query, false),
{
    lemma_match_survives_fold(line, query);
}

/// For any line sequence and query, the case-sensitive match set is an
/// order-preserving selection from the case-insensitive one.
pub proof fn lemma_sensitive_subsequence_of_insensitive(ls: Seq<Seq<char>>, query: Seq<char>)
    ensures
        is_subsequence(
            matching_lines(ls, query, true),
            matching_lines(ls, query, false),
        ),
    decreases ls.len(),
{
    if ls.len() == 0 {
    } else {
        let t = ls.drop_first();
        lemma_sensitive_subsequence_of_insensitive(t, query);
        let a = matching_lines(t, query, true);
        let b = matching_lines(t, query, false);
        if line_matches(ls[0], query, true) {
            lemma_sensitive_match_implies_insensitive(ls[0], query);
            assert(matching_lines(ls, query, true) == seq![ls[0]] + a);
            assert(matching_lines(ls, query, false) == seq![ls[0]] + b);
            assert((seq![ls[0]] + a).drop_first() =~= a);
            assert((seq![ls[0]] + b).drop_first() =~= b);
            assert((seq![ls[0]] + a)[0] == (seq![ls[0]] + b)[0]);
        } else if line_matches(ls[0], query, false) {
            lemma_subsequence_cons(a, b, ls[0]);
        } else {
        }
    }
}

/// The empty query matches every line, in both modes: filtering with it
/// returns the line sequence unchanged.
pub proof fn lemma_empty_query_matches_all(ls: Seq<Seq<char>>, sensitive: bool)
    ensures
        matching_lines(ls, Seq::empty(), sensitive) == ls,
    decreases ls.len(),
{
    if ls.len() == 0 {
    } else {
        assert(line_matches(ls[0], Seq::empty(), sensitive)) by {
            if sensitive {
                assert(ls[0].subrange(0, 0) =~= Seq::<char>::empty());
                assert(is_match_at(ls[0], Seq::empty(), 0));
            } else {
                assert(lower_seq(Seq::<char>::empty()) =~= Seq::<char>::empty());
                assert(lower_seq(ls[0]).subrange(0, 0) =~= Seq::<char>::empty());
                assert(is_match_at(lower_seq(ls[0]), lower_seq(Seq::empty()), 0));
            }
        }
        lemma_empty_query_matches_all(ls.drop_first(), sensitive);
        assert(seq![ls[0]] + ls.drop_first() =~= ls);
    }
}

/// Every line the filter keeps satisfies the match predicate.
proof fn lemma_matching_lines_all_match(ls: Seq<Seq<char>>, query: Seq<char>, sensitive: bool)
    ensures
        forall|k: int|
            0 <= k < matching_lines(ls, query, sensitive).len()
                ==> line_matches(#[trigger] matching_lines(ls, query, sensitive)[k], query,
                    sensitive),
    decreases ls.len(),
{
    if ls.len() == 0 {
    } else {
        lemma_matching_lines_all_match(ls.drop_first(), query, sensitive);
        let m = matching_lines(ls, query, sensitive);
        let mt = matching_lines(ls.drop_first(), query, sensitive);
        assert forall|k: int| 0 <= k < m.len() implies line_matches(m[k], query, sensitive) by {
            if line_matches(ls[0], query, sensitive) {
                assert(m == seq![ls[0]] + mt);
                if k > 0 {
                    assert(m[k] == mt[k - 1]);
                }
            } else {
                assert(m == mt);
            }
        }
    }
}

/// Filtering a sequence whose lines all match returns it unchanged.
proof fn lemma_matching_lines_of_matching(ls: Seq<Seq<char>>, query: Seq<char>, sensitive: bool)
    requires
        forall|k: int| 0 <= k < ls.len() ==> line_matches(#[trigger] ls[k], query, sensitive),
    ensures
        matching_lines(ls, query, sensitive) == ls,
    decreases ls.len(),
{
    if ls.len() == 0 {
    } else {
        assert(line_matches(ls[0], query, sensitive));
        lemma_matching_lines_of_matching(ls.drop_first(), query, sensitive);
        assert(seq![ls[0]] + ls.drop_first() =~= ls);
    }
}

/// Filtering is idempotent: running the filter on its own output, with the
/// same query and mode, changes nothing.
pub proof fn lemma_filter_idempotent(ls: Seq<Seq<char>>, query: Seq<char>, sensitive: bool)
    ensures
        matching_lines(matching_lines(ls, query, sensitive), query, sensitive)
            == matching_lines(ls, query, sensitive),
{
    lemma_matching_lines_all_match(ls, query, sensitive);
    lemma_matching_lines_of_matching(matching_lines(ls, query, sensitive), query, sensitive);
}

} // verus!
