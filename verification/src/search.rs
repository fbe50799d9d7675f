//! Line filtering: which lines of the content contain the query.

use vstd::prelude::*;

use crate::lines::{line_seq, split_lines};
use crate::text::{
    contains_substring, contains_substring_fold, has_substring, lower_seq,
};

verus! {

/// What one invocation works with: the query, an optional source file (none
/// means standard input) and the comparison mode.
pub struct Config {
    pub query: String,
    pub filename: Option<String>,
    pub sensitive: bool,
}

/// A line is kept when it contains the query: exactly in case-sensitive
/// mode, after folding both sides in case-insensitive mode.
pub open spec fn line_matches(line: Seq<char>, query: Seq<char>, sensitive: bool) -> bool {
    if sensitive {
        has_substring(line, query)
    } else {
        has_substring(lower_seq(line), lower_seq(query))
    }
}

/// The lines that match, in their original order, duplicates kept.
pub open spec fn matching_lines(ls: Seq<Seq<char>>, query: Seq<char>, sensitive: bool)
    -> Seq<Seq<char>>
    decreases ls.len(),
{
    if ls.len() == 0 {
        Seq::empty()
    } else if line_matches(ls[0], query, sensitive) {
        seq![ls[0]] + matching_lines(ls.drop_first(), query, sensitive)
    } else {
        matching_lines(ls.drop_first(), query, sensitive)
    }
}

/// Splits `contents` into lines and keeps those that contain `query` under
/// the selected comparison mode.
pub fn filter_lines(query: &str, contents: &str, sensitive: bool) -> (r: Vec<String>)
    ensures
        Seq::new(r@.len(), |k: int| r@[k]@)
            == matching_lines(line_seq(contents@), query@, sensitive),
{
    let lines = split_lines(contents);
    let ghost all = line_seq(contents@);
    let mut r: Vec<String> = Vec::new();
    let mut i: usize = 0;
    proof {
        assert(all.subrange(0, all.len() as int) =~= all);
        assert(Seq::new(r@.len(), |k: int| r@[k]@)
            + matching_lines(all, query@, sensitive)
            =~~= matching_lines(all, query@, sensitive));
    }
    while i < lines.len()
        invariant
            all == line_seq(contents@),
            lines@.len() == all.len(),
            forall|k: int| 0 <= k < all.len() ==> lines@[k]@ == all[k],
            i <= lines@.len(),
            matching_lines(all, query@, sensitive)
                == Seq::new(r@.len(), |k: int| r@[k]@)
                    + matching_lines(all.subrange(i as int, all.len() as int), query@,
                        sensitive),
        decreases lines@.len() - i,
    {
        let ghost suf = all.subrange(i as int, all.len() as int);
        let ghost suf1 = all.subrange(i + 1, all.len() as int);
        proof {
            assert(suf.len() > 0);
            assert(suf[0] == all[i as int]);
            assert(suf.drop_first() =~= suf1);
        }
        let line = &lines[i];
        let keep = if sensitive {
            contains_substring(line.as_str(), query)
        } else {
            contains_substring_fold(line.as_str(), query)
        };
        if keep {
            let ghost prefix = Seq::new(r@.len(), |k: int| r@[k]@);
            r.push(line.clone());
            proof {
                assert(matching_lines(suf, query@, sensitive)
                    == seq![all[i as int]] + matching_lines(suf1, query@, sensitive));
                assert(Seq::new(r@.len(), |k: int| r@[k]@)
                    + matching_lines(suf1, query@, sensitive)
                    =~~= prefix + matching_lines(suf, query@, sensitive));
            }
        } else {
            proof {
                assert(matching_lines(suf, query@, sensitive)
                    == matching_lines(suf1, query@, sensitive));
            }
        }
        i += 1;
    }
    proof {
        assert(all.subrange(all.len() as int, all.len() as int) =~= Seq::<Seq<char>>::empty());
        assert(matching_lines(Seq::empty(), query@, sensitive) == Seq::<Seq<char>>::empty());
        assert(Seq::new(r@.len(), |k: int| r@[k]@)
            + Seq::<Seq<char>>::empty()
            =~~= Seq::new(r@.len(), |k: int| r@[k]@));
    }
    r
}

/// Case-sensitive search: the lines of `contents` that contain `query`
/// exactly.
pub fn search_sensitive(query: &str, contents: &str) -> (r: Vec<String>)
    ensures
        Seq::new(r@.len(), |k: int| r@[k]@)
            == matching_lines(line_seq(contents@), query@, true),
{
    filter_lines(query, contents, true)
}

/// Case-insensitive search: the lines of `contents` that contain `query`
/// after simple per-character lowercasing of both sides.
pub fn search_insensitive(query: &str, contents: &str) -> (r: Vec<String>)
    ensures
        Seq::new(r@.len(), |k: int| r@[k]@)
            == matching_lines(line_seq(contents@), query@, false),
{
    filter_lines(query, contents, false)
}

/// The match set that a run with this configuration prints, line by line.
pub fn matched_lines(config: &Config, contents: &str) -> (r: Vec<String>)
    ensures
        Seq::new(r@.len(), |k: int| r@[k]@)
            == matching_lines(line_seq(contents@), config.query@, config.sensitive),
{
    filter_lines(config.query.as_str(), contents, config.sensitive)
}

} // verus!
