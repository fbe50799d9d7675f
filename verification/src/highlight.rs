//! Splitting a matched line into words and marking the query inside them.
//!
//! This is presentation logic: the caller decides how to style the three
//! segments of a word. Rejoining the words inserts a single space between
//! them, so runs of whitespace in the original line are not preserved.

use vstd::prelude::*;

use crate::lines::line_seq;
use crate::search::{matched_lines, matching_lines, Config};
use crate::text::{find_first, first_match, has_substring, is_match_at};

verus! {

/// The whitespace that separates words: the common ASCII space characters.
pub open spec fn is_space(c: char) -> bool {
    c == ' ' || c == '\t' || c == '\n' || c == '\r' || c == '\u{b}' || c == '\u{c}'
}

/// Runtime counterpart of [`is_space`].
pub fn is_space_x(c: char) -> (r: bool)
    ensures
        r == is_space(c),
{
    c == ' ' || c == '\t' || c == '\n' || c == '\r' || c == '\u{b}' || c == '\u{c}'
}

/// The whitespace-delimited words of `s`, in order, with no empty words:
/// a space character separates, any other character extends the word that
/// follows it.
pub open spec fn word_seq(s: Seq<char>) -> Seq<Seq<char>>
    decreases s.len(),
{
    if s.len() == 0 {
        Seq::empty()
    } else {
        let rest = word_seq(s.drop_first());
        if is_space(s[0]) {
            rest
        } else if s.len() > 1 && !is_space(s[1]) && rest.len() > 0 {
            seq![seq![s[0]] + rest[0]] + rest.drop_first()
        } else {
            seq![seq![s[0]]] + rest
        }
    }
}

/// A run of non-space characters before a space splits off as one word.
proof fn lemma_word_seq_space_break(cur: Seq<char>, sp: char, t: Seq<char>)
    requires
        forall|j: int| 0 <= j < cur.len() ==> !is_space(#[trigger] cur[j]),
        is_space(sp),
    ensures
        word_seq(cur + seq![sp] + t)
            == (if cur.len() > 0 { seq![cur] } else { Seq::<Seq<char>>::empty() })
                + word_seq(t),
    decreases cur.len(),
{
    let s = cur + seq![sp] + t;
    if cur.len() == 0 {
        assert(s.drop_first() =~= t);
        assert(is_space(s[0]));
        assert(Seq::<Seq<char>>::empty() + word_seq(t) =~= word_seq(t));
    } else {
        let cur1 = cur.drop_first();
        lemma_word_seq_space_break(cur1, sp, t);
        assert(s.drop_first() =~= cur1 + seq![sp] + t);
        let rest = word_seq(cur1 + seq![sp] + t);
        assert(!is_space(s[0]));
        if cur.len() >= 2 {
            assert(s[1] == cur[1]);
            assert(rest == seq![cur1] + word_seq(t));
            assert(rest.len() > 0);
            assert(word_seq(s) == seq![seq![s[0]] + rest[0]] + rest.drop_first());
            assert(seq![s[0]] + rest[0] =~= cur);
            assert(rest.drop_first() =~= word_seq(t));
            assert(seq![seq![s[0]] + rest[0]] + rest.drop_first() =~~= seq![cur] + word_seq(t));
        } else {
            assert(s[1] == sp);
            assert(rest == Seq::<Seq<char>>::empty() + word_seq(t));
            assert(rest =~= word_seq(t));
            assert(word_seq(s) == seq![seq![s[0]]] + rest);
            assert(seq![s[0]] =~= cur);
            assert(seq![seq![s[0]]] + rest =~~= seq![cur] + word_seq(t));
        }
    }
}

/// A nonempty run of non-space characters is a single word.
proof fn lemma_word_seq_single(w: Seq<char>)
    requires
        w.len() > 0,
        forall|j: int| 0 <= j < w.len() ==> !is_space(#[trigger] w[j]),
    ensures
        word_seq(w) == seq![w],
    decreases w.len(),
{
    let w1 = w.drop_first();
    if w.len() == 1 {
        assert(word_seq(w) == seq![seq![w[0]]] + word_seq(w1));
        assert(word_seq(w1) == Seq::<Seq<char>>::empty());
        assert(seq![seq![w[0]]] + Seq::<Seq<char>>::empty() =~~= seq![w]);
    } else {
        lemma_word_seq_single(w1);
        assert(!is_space(w[1]));
        assert(word_seq(w) == seq![seq![w[0]] + w1] + word_seq(w1).drop_first());
        assert(seq![w[0]] + w1 =~= w);
        assert(word_seq(w1).drop_first() =~= Seq::<Seq<char>>::empty());
        assert(seq![seq![w[0]] + w1] + word_seq(w1).drop_first() =~~= seq![w]);
    }
}

/// Splits `line` into its whitespace-delimited words, as [`word_seq`]
/// describes; leading, trailing and repeated whitespace produce no empty
/// words.
pub fn split_words(line: &str) -> (r: Vec<String>)
    ensures
        r@.len() == word_seq(line@).len(),
        forall|k: int| 0 <= k < r@.len() ==> r@[k]@ == word_seq(line@)[k],
{
    let n = line.unicode_len();
    let mut r: Vec<String> = Vec::new();
    let mut start: usize = 0;
    let mut i: usize = 0;
    let ghost all = word_seq(line@);
    proof {
        assert(line@.subrange(0, n as int) =~= line@);
        assert(Seq::new(r@.len(), |k: int| r@[k]@) + all =~~= all);
    }
    while i < n
        invariant
            n == line@.len(),
            start <= i <= n,
            all == word_seq(line@),
            forall|j: int| start <= j < i ==> !is_space(#[trigger] line@[j]),
            all == Seq::new(r@.len(), |k: int| r@[k]@)
                + word_seq(line@.subrange(start as int, n as int)),
        decreases n - i,
    {
        let ghost cur = line@.subrange(start as int, i as int);
        let c = line.get_char(i);
        if is_space_x(c) {
            proof {
                assert(line@.subrange(start as int, n as int)
                    =~= cur + seq![line@[i as int]] + line@.subrange(i + 1, n as int));
                lemma_word_seq_space_break(cur, line@[i as int],
                    line@.subrange(i + 1, n as int));
            }
            if start < i {
                let ghost prefix = Seq::new(r@.len(), |k: int| r@[k]@);
                let word = String::from_str(line.substring_char(start, i));
                r.push(word);
                proof {
                    assert(Seq::new(r@.len(), |k: int| r@[k]@)
                        + word_seq(line@.subrange(i + 1, n as int))
                        =~~= prefix
                            + (seq![cur] + word_seq(line@.subrange(i + 1, n as int))));
                }
            } else {
                proof {
                    assert(cur.len() == 0);
                    assert(Seq::<Seq<char>>::empty()
                        + word_seq(line@.subrange(i + 1, n as int))
                        =~~= word_seq(line@.subrange(i + 1, n as int)));
                }
            }
            start = i + 1;
        }
        i += 1;
    }
    if start < n {
        let ghost cur = line@.subrange(start as int, n as int);
        let ghost prefix = Seq::new(r@.len(), |k: int| r@[k]@);
        let word = String::from_str(line.substring_char(start, n));
        r.push(word);
        proof {
            lemma_word_seq_single(cur);
            assert(Seq::new(r@.len(), |k: int| r@[k]@) =~~= prefix + seq![cur]);
            assert(all =~~= Seq::new(r@.len(), |k: int| r@[k]@));
        }
    } else {
        proof {
            assert(line@.subrange(start as int, n as int).len() == 0);
            assert(word_seq(line@.subrange(start as int, n as int))
                == Seq::<Seq<char>>::empty());
            assert(all =~~= Seq::new(r@.len(), |k: int| r@[k]@));
        }
    }
    r
}

/// One word of a matched line, cut around the first exact occurrence of the
/// query: the occurrence sits in `matched`, the rest of the word in `before`
/// and `after`.  A word without an exact occurrence is carried whole in
/// `before`, with `matched` and `after` empty, and is displayed unstyled.
pub struct HighlightedWord {
    pub before: String,
    pub matched: String,
    pub after: String,
}

/// Where a word is cut: at the first exact occurrence of the query when
/// there is one, otherwise not at all.
pub open spec fn split_at_match(word: Seq<char>, query: Seq<char>) -> (Seq<char>, Seq<char>,
    Seq<char>) {
    if has_substring(word, query) {
        let i = first_match(word, query);
        (word.subrange(0, i), query, word.subrange(i + query.len() as int, word.len() as int))
    } else {
        (word, Seq::empty(), Seq::empty())
    }
}

impl HighlightedWord {
    /// The three segments are exactly the cut of `word` around the first
    /// occurrence of `query`.
    pub open spec fn is_split_of(self, word: Seq<char>, query: Seq<char>) -> bool {
        (self.before@, self.matched@, self.after@) == split_at_match(word, query)
    }
}

/// Cuts one word around the first exact occurrence of `query`, as
/// [`split_at_match`] describes; the three segments always concatenate back
/// to the word itself.
pub fn highlight_word(word: &str, query: &str) -> (r: HighlightedWord)
    ensures
        r.is_split_of(word@, query@),
        r.before@ + r.matched@ + r.after@ == word@,
{
    match find_first(word, query) {
        Some(i) => {
            let m = query.unicode_len();
            let n = word.unicode_len();
            let before = String::from_str(word.substring_char(0, i));
            let matched = String::from_str(word.substring_char(i, i + m));
            let after = String::from_str(word.substring_char(i + m, n));
            proof {
                assert(matched@ == query@);
                assert(before@ + matched@ + after@ =~= word@);
            }
            HighlightedWord { before, matched, after }
        },
        None => {
            let r = HighlightedWord {
                before: String::from_str(word),
                matched: String::new(),
                after: String::new(),
            };
            proof {
                assert(r.before@ + r.matched@ + r.after@ =~= word@);
            }
            r
        },
    }
}

/// Cuts every word of `line` around the first exact occurrence of `query`.
/// The exact query is used even when the line was matched case-insensitively,
/// so a word whose case differs from the query is carried whole and unstyled.
pub fn highlight_line(line: &str, query: &str) -> (r: Vec<HighlightedWord>)
    ensures
        r@.len() == word_seq(line@).len(),
        forall|k: int|
            0 <= k < r@.len() ==> (#[trigger] r@[k]).is_split_of(word_seq(line@)[k], query@),
        forall|k: int|
            0 <= k < r@.len()
                ==> (#[trigger] r@[k]).before@ + r@[k].matched@ + r@[k].after@
                    == word_seq(line@)[k],
{
    let words = split_words(line);
    let mut r: Vec<HighlightedWord> = Vec::new();
    let mut j: usize = 0;
    while j < words.len()
        invariant
            words@.len() == word_seq(line@).len(),
            forall|k: int| 0 <= k < words@.len() ==> words@[k]@ == word_seq(line@)[k],
            j <= words@.len(),
            r@.len() == j,
            forall|k: int|
                0 <= k < j ==> (#[trigger] r@[k]).is_split_of(word_seq(line@)[k], query@),
            forall|k: int|
                0 <= k < j
                    ==> (#[trigger] r@[k]).before@ + r@[k].matched@ + r@[k].after@
                        == word_seq(line@)[k],
        decreases words@.len() - j,
    {
        let hw = highlight_word(words[j].as_str(), query);
        r.push(hw);
        j += 1;
    }
    r
}

/// The whole pipeline of one invocation, after the input has been read:
/// the matching lines, each cut into words around the query for display.
pub fn highlight_matches(config: &Config, contents: &str) -> (r: Vec<Vec<HighlightedWord>>)
    ensures
        ({
            let ml = matching_lines(line_seq(contents@), config.query@, config.sensitive);
            &&& r@.len() == ml.len()
            &&& forall|j: int| 0 <= j < r@.len() ==> (#[trigger] r@[j])@.len()
                == word_seq(ml[j]).len()
            &&& forall|j: int, k: int|
                0 <= j < r@.len() && 0 <= k < r@[j]@.len()
                    ==> (#[trigger] r@[j]@[k]).is_split_of(word_seq(ml[j])[k], config.query@)
        }),
{
    let ghost ml = matching_lines(line_seq(contents@), config.query@, config.sensitive);
    let matched = matched_lines(config, contents);
    let mut r: Vec<Vec<HighlightedWord>> = Vec::new();
    let mut j: usize = 0;
    while j < matched.len()
        invariant
            ml == matching_lines(line_seq(contents@), config.query@, config.sensitive),
            matched@.len() == ml.len(),
            forall|k: int| 0 <= k < ml.len() ==> matched@[k]@ == ml[k],
            j <= matched@.len(),
            r@.len() == j,
            forall|i: int| 0 <= i < j ==> (#[trigger] r@[i])@.len() == word_seq(ml[i]).len(),
            forall|i: int, k: int|
                0 <= i < j && 0 <= k < r@[i]@.len()
                    ==> (#[trigger] r@[i]@[k]).is_split_of(word_seq(ml[i])[k], config.query@),
        decreases matched@.len() - j,
    {
        let hl = highlight_line(matched[j].as_str(), config.query.as_str());
        r.push(hl);
        j += 1;
    }
    r
}

} // verus!
