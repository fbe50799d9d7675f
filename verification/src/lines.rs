//! Splitting a content buffer into lines.
//!
//! Lines are separated by `'\n'`; content that ends in a newline yields no
//! trailing empty line, while interior empty lines are kept.

use vstd::prelude::*;

verus! {

/// The sequence of lines of `s`, split on `'\n'`, defined one character at a
/// time from the front: a newline opens a fresh (possibly empty) line, any
/// other character extends the line that follows it.
pub open spec fn line_seq(s: Seq<char>) -> Seq<Seq<char>>
    decreases s.len(),
{
    if s.len() == 0 {
        Seq::empty()
    } else if s[0] == '\n' {
        seq![Seq::<char>::empty()] + line_seq(s.drop_first())
    } else {
        let rest = line_seq(s.drop_first());
        if rest.len() == 0 {
            seq![seq![s[0]]]
        } else {
            seq![seq![s[0]] + rest[0]] + rest.drop_first()
        }
    }
}

/// A partially read line `cur` placed in front of the lines of the remaining
/// text: it extends the first remaining line, or stands alone at the end of
/// the content when it is not empty.
pub open spec fn glue_line(cur: Seq<char>, rest: Seq<Seq<char>>) -> Seq<Seq<char>> {
    if rest.len() == 0 {
        if cur.len() == 0 { Seq::empty() } else { seq![cur] }
    } else {
        seq![cur + rest[0]] + rest.drop_first()
    }
}

/// Nonempty text has at least one line.
proof fn lemma_line_seq_nonempty(s: Seq<char>)
    requires
        s.len() > 0,
    ensures
        line_seq(s).len() >= 1,
{
}

/// Splits `contents` into its lines, as [`line_seq`] describes.
pub fn split_lines(contents: &str) -> (r: Vec<String>)
    ensures
        r@.len() == line_seq(contents@).len(),
        forall|k: int| 0 <= k < r@.len() ==> r@[k]@ == line_seq(contents@)[k],
{
    let n = contents.unicode_len();
    let mut r: Vec<String> = Vec::new();
    let mut start: usize = 0;
    let mut i: usize = 0;
    let ghost all = line_seq(contents@);
    proof {
        assert(contents@.subrange(0, n as int) =~= contents@);
        assert(contents@.subrange(0, 0) =~= Seq::<char>::empty());
        assert(glue_line(Seq::<char>::empty(), all) =~~= all);
        assert(Seq::new(r@.len(), |k: int| r@[k]@) + glue_line(Seq::<char>::empty(), all)
            =~~= all);
    }
    while i < n
        invariant
            n == contents@.len(),
            start <= i <= n,
            all == line_seq(contents@),
            forall|j: int| start <= j < i ==> contents@[j] != '\n',
            all == Seq::new(r@.len(), |k: int| r@[k]@)
                + glue_line(contents@.subrange(start as int, i as int),
                    line_seq(contents@.subrange(i as int, n as int))),
        decreases n - i,
    {
        let ghost cur = contents@.subrange(start as int, i as int);
        let ghost suf = contents@.subrange(i as int, n as int);
        let ghost suf1 = contents@.subrange(i + 1, n as int);
        proof {
            assert(suf.len() > 0);
            assert(suf[0] == contents@[i as int]);
            assert(suf.drop_first() =~= suf1);
        }
        let c = contents.get_char(i);
        if c == '\n' {
            let ghost prefix = Seq::new(r@.len(), |k: int| r@[k]@);
            let line = String::from_str(contents.substring_char(start, i));
            proof {
                let l1 = line_seq(suf1);
                assert(line_seq(suf) == seq![Seq::<char>::empty()] + l1);
                assert((seq![Seq::<char>::empty()] + l1).drop_first() =~= l1);
                assert(glue_line(cur, line_seq(suf))
                    =~~= seq![cur] + glue_line(Seq::<char>::empty(), l1));
            }
            r.push(line);
            proof {
                let l1 = line_seq(suf1);
                assert(Seq::new(r@.len(), |k: int| r@[k]@) + glue_line(Seq::<char>::empty(), l1)
                    =~~= prefix + (seq![cur] + glue_line(Seq::<char>::empty(), l1)));
                assert(prefix + (seq![cur] + glue_line(Seq::<char>::empty(), l1))
                    =~~= prefix + glue_line(cur, line_seq(suf)));
            }
            start = i + 1;
        } else {
            proof {
                let rest = line_seq(suf1);
                let cur1 = contents@.subrange(start as int, i + 1);
                assert(cur1 =~= cur.push(suf[0]));
                if rest.len() == 0 {
                    assert(line_seq(suf) == seq![seq![suf[0]]]);
                } else {
                    assert(line_seq(suf) == seq![seq![suf[0]] + rest[0]] + rest.drop_first());
                    assert((seq![seq![suf[0]] + rest[0]] + rest.drop_first()).drop_first()
                        =~= rest.drop_first());
                }
                assert(glue_line(cur, line_seq(suf)) =~~= glue_line(cur1, rest));
            }
            i += 1;
            continue;
        }
        i += 1;
    }
    proof {
        assert(contents@.subrange(n as int, n as int) =~= Seq::<char>::empty());
        assert(line_seq(Seq::<char>::empty()) == Seq::<Seq<char>>::empty());
    }
    if start < n {
        let ghost prefix = Seq::new(r@.len(), |k: int| r@[k]@);
        let line = String::from_str(contents.substring_char(start, n));
        r.push(line);
        proof {
            let cur = contents@.subrange(start as int, n as int);
            assert(glue_line(cur, line_seq(contents@.subrange(n as int, n as int)))
                =~~= seq![cur]);
            assert(Seq::new(r@.len(), |k: int| r@[k]@) =~~= prefix + seq![cur]);
            assert(all =~~= Seq::new(r@.len(), |k: int| r@[k]@));
        }
    } else {
        proof {
            let cur = contents@.subrange(start as int, n as int);
            assert(cur.len() == 0);
            assert(glue_line(cur, line_seq(contents@.subrange(n as int, n as int)))
                =~~= Seq::<Seq<char>>::empty());
            assert(all =~~= Seq::new(r@.len(), |k: int| r@[k]@));
        }
    }
    r
}

/// The lines joined back together with a single `'\n'` between them.
pub open spec fn join_lines(ls: Seq<Seq<char>>) -> Seq<char>
    decreases ls.len(),
{
    if ls.len() == 0 {
        Seq::empty()
    } else if ls.len() == 1 {
        ls[0]
    } else {
        ls[0] + seq!['\n'] + join_lines(ls.drop_first())
    }
}

/// Splitting and rejoining is the identity on content that does not end in a
/// newline.
pub proof fn lemma_lines_round_trip(s: Seq<char>)
    requires
        s.len() == 0 || s[s.len() - 1] != '\n',
    ensures
        join_lines(line_seq(s)) == s,
    decreases s.len(),
{
    if s.len() == 0 {
    } else {
        let t = s.drop_first();
        if s[0] == '\n' {
            assert(s.len() >= 2);
            assert(t[t.len() - 1] != '\n');
            lemma_lines_round_trip(t);
            lemma_line_seq_nonempty(t);
            let ls = seq![Seq::<char>::empty()] + line_seq(t);
            assert(ls.len() >= 2);
            assert(ls.drop_first() =~= line_seq(t));
            assert(join_lines(ls) == ls[0] + seq!['\n'] + join_lines(line_seq(t)));
            assert(Seq::<char>::empty() + seq!['\n'] + t =~= s);
        } else {
            if t.len() == 0 {
                assert(line_seq(s) == seq![seq![s[0]]]);
                assert(seq![s[0]] =~= s);
            } else {
                assert(t[t.len() - 1] != '\n');
                lemma_lines_round_trip(t);
                let rest = line_seq(t);
                lemma_line_seq_nonempty(t);
                if rest.len() == 1 {
                    assert(join_lines(rest) == rest[0]);
                    assert(line_seq(s) == seq![seq![s[0]] + rest[0]]);
                    assert(join_lines(line_seq(s)) == seq![s[0]] + rest[0]);
                    assert(seq![s[0]] + rest[0] =~= s) by {
                        assert(rest[0] == join_lines(rest));
                    }
                } else {
                    let ls = seq![seq![s[0]] + rest[0]] + rest.drop_first();
                    assert(line_seq(s) == ls);
                    assert(ls.len() >= 2);
                    assert(ls.drop_first() =~= rest.drop_first());
                    assert(join_lines(ls)
                        == (seq![s[0]] + rest[0]) + seq!['\n'] + join_lines(rest.drop_first()));
                    assert(join_lines(rest)
                        == rest[0] + seq!['\n'] + join_lines(rest.drop_first()));
                    assert((seq![s[0]] + rest[0]) + seq!['\n'] + join_lines(rest.drop_first())
                        =~= seq![s[0]] + (rest[0] + seq!['\n'] + join_lines(rest.drop_first())));
                    assert(seq![s[0]] + t =~= s);
                }
            }
        }
    }
}

} // verus!
