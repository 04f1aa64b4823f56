//! Splitting a text into numbered lines.
//!
//! A text is split at every newline character; a line that a newline
//! terminated loses one trailing carriage return (so `\r\n` terminators are
//! handled), while a final line without terminator keeps its text as it
//! stands; a trailing newline does not produce an extra empty final line.
//! The first line gets number 1, and each following line the next number.

use vstd::prelude::*;
use vstd::string::StrSliceExecFns;
use crate::line::Line;

verus! {

/// Number of characters of `s` before its first newline (all of `s` if none).
pub open spec fn line_break(s: Seq<char>) -> nat
    decreases s.len(),
{
    if s.len() == 0 || s[0] == '\n' {
        0
    } else {
        (1 + line_break(s.skip(1))) as nat
    }
}

/// A line segment loses one trailing carriage return, if it has one.
pub open spec fn strip_cr(l: Seq<char>) -> Seq<char> {
    if l.len() > 0 && l.last() == '\r' {
        l.drop_last()
    } else {
        l
    }
}

/// The lines of `s`: split at each newline; a segment that a newline
/// terminated loses one trailing carriage return, while a final segment
/// without terminator is kept as it stands; a trailing newline ends the
/// last line rather than opening an empty one.
pub open spec fn split_lines(s: Seq<char>) -> Seq<Seq<char>>
    decreases s.len() via split_lines_decreases
{
    if s.len() == 0 {
        Seq::empty()
    } else {
        let k = line_break(s) as int;
        if k < s.len() {
            seq![strip_cr(s.take(k))] + split_lines(s.skip(k + 1))
        } else {
            seq![s.take(k)] + split_lines(s.skip(k))
        }
    }
}

#[via_fn]
proof fn split_lines_decreases(s: Seq<char>) {
    lemma_line_break_bounds(s);
}

/// The texts of a sequence of lines, in order.
pub open spec fn texts_of(ls: Seq<Line>) -> Seq<Seq<char>> {
    ls.map_values(|l: Line| l.line@)
}

/// `line_break` is at most the length of `s`, no character before it is a
/// newline, and the character at it (if any) is one.
pub proof fn lemma_line_break_bounds(s: Seq<char>)
    ensures
        line_break(s) <= s.len(),
        forall|m: int| 0 <= m < line_break(s) ==> s[m] != '\n',
        line_break(s) < s.len() ==> s[line_break(s) as int] == '\n',
    decreases s.len(),
{
    if s.len() == 0 || s[0] == '\n' {
    } else {
        lemma_line_break_bounds(s.skip(1));
        assert forall|m: int| 0 <= m < line_break(s) implies s[m] != '\n' by {
            if m > 0 {
                assert(s.skip(1)[m - 1] == s[m]);
            }
        }
        if line_break(s) < s.len() {
            assert(s.skip(1)[line_break(s) - 1] == s[line_break(s) as int]);
        }
    }
}

/// `line_break` is the unique cut: if nothing before `k` is a newline and
/// `k` is the end of `s` or a newline, then `line_break(s) == k`.
pub proof fn lemma_line_break_at(s: Seq<char>, k: int)
    requires
        0 <= k <= s.len(),
        forall|m: int| 0 <= m < k ==> s[m] != '\n',
        k == s.len() || s[k] == '\n',
    ensures
        line_break(s) == k,
    decreases s.len(),
{
    if k == 0 {
    } else {
        assert(s[0] != '\n');
        assert forall|m: int| 0 <= m < k - 1 implies s.skip(1)[m] != '\n' by {
            assert(s.skip(1)[m] == s[m + 1]);
        }
        if k < s.len() {
            assert(s.skip(1)[k - 1] == s[k]);
        }
        lemma_line_break_at(s.skip(1), k - 1);
    }
}

/// The given line texts joined by single newlines.
pub open spec fn join_lines(ls: Seq<Seq<char>>) -> Seq<char>
    decreases ls.len(),
{
    if ls.len() == 0 {
        Seq::empty()
    } else if ls.len() == 1 {
        ls[0]
    } else {
        ls[0] + seq!['\n'] + join_lines(ls.skip(1))
    }
}

/// A non-empty text has at least one line.
pub proof fn lemma_split_lines_nonempty(s: Seq<char>)
    requires
        s.len() > 0,
    ensures
        split_lines(s).len() >= 1,
{
    let k = line_break(s) as int;
    lemma_line_break_bounds(s);
    if k < s.len() {
        assert(split_lines(s) == seq![strip_cr(s.take(k))] + split_lines(s.skip(k + 1)));
    } else {
        assert(split_lines(s) == seq![s.take(k)] + split_lines(s.skip(k)));
    }
}

/// Joining the lines of a text with newlines reproduces the text, up to one
/// trailing newline, provided no carriage return of the text immediately
/// precedes a newline (such a carriage return is stripped by the split and
/// not restored by the join).
pub proof fn lemma_split_lines_roundtrip(t: Seq<char>)
    requires
        forall|m: int| 0 <= m < t.len() - 1 ==> !(#[trigger] t[m] == '\r' && t[m + 1] == '\n'),
    ensures
        t.len() > 0 && t.last() == '\n' ==> join_lines(split_lines(t)).push('\n') == t,
        !(t.len() > 0 && t.last() == '\n') ==> join_lines(split_lines(t)) == t,
    decreases t.len(),
{
    if t.len() == 0 {
        assert(join_lines(split_lines(t)) =~= t);
    } else {
        let k = line_break(t) as int;
        lemma_line_break_bounds(t);
        if k == t.len() {
            assert(t.skip(k) =~= Seq::<char>::empty());
            assert(split_lines(t) == seq![t.take(k)] + split_lines(t.skip(k)));
            assert(split_lines(t) =~= seq![t.take(k)]);
            assert(join_lines(split_lines(t)) =~= t);
            assert(t.last() != '\n');
        } else {
            let line0 = strip_cr(t.take(k));
            assert(line0 =~= t.take(k)) by {
                if k > 0 {
                    assert(t.take(k).last() == t[k - 1]);
                    assert(t[k] == '\n');
                    assert(t[k - 1] != '\r');
                }
            }
            let rest = t.skip(k + 1);
            assert(split_lines(t) == seq![line0] + split_lines(rest));
            if rest.len() == 0 {
                assert(split_lines(t) =~= seq![t.take(k)]);
                assert(join_lines(split_lines(t)) == t.take(k));
                assert(t.last() == t[k] == '\n');
                assert(t.take(k).push('\n') =~= t);
            } else {
                lemma_split_lines_nonempty(rest);
                assert forall|m: int| 0 <= m < rest.len() - 1
                    implies !(#[trigger] rest[m] == '\r' && rest[m + 1] == '\n') by {
                    assert(rest[m] == t[k + 1 + m]);
                    assert(rest[m + 1] == t[k + 1 + m + 1]);
                }
                lemma_split_lines_roundtrip(rest);
                let ls = split_lines(t);
                assert(ls.len() >= 2);
                assert(ls[0] == t.take(k));
                assert(ls.skip(1) =~= split_lines(rest));
                assert(join_lines(ls) == ls[0] + seq!['\n'] + join_lines(split_lines(rest)));
                assert(rest.last() == t.last());
                if t.last() == '\n' {
                    assert(join_lines(split_lines(rest)).push('\n') == rest);
                    assert(join_lines(ls).push('\n')
                        =~= t.take(k) + seq!['\n'] + join_lines(split_lines(rest)).push('\n'));
                    assert(t.take(k) + seq!['\n'] + rest =~= t);
                } else {
                    assert(join_lines(split_lines(rest)) == rest);
                    assert(t.take(k) + seq!['\n'] + rest =~= t);
                }
            }
        }
    }
}

/// Splits `contents` into its lines, pairing the first with number 1 and
/// each following line with the next number.
#[verifier::loop_isolation(false)]
pub fn lines_to_vec_lines(contents: &str) -> (lines: Vec<Line>)
    requires
        contents@.len() <= u32::MAX,
    ensures
        texts_of(lines@) == split_lines(contents@),
        lines@.len() == split_lines(contents@).len(),
        forall|i: int| 0 <= i < lines@.len() ==> lines@[i].number as int == i + 1,
{
    let n = contents.unicode_len();
    let mut lines: Vec<Line> = Vec::new();
    let mut i: usize = 0;
    proof {
        assert(contents@.skip(0) =~= contents@);
        assert(texts_of(lines@) =~= Seq::<Seq<char>>::empty());
        assert(texts_of(lines@) + split_lines(contents@) =~= split_lines(contents@));
    }
    while i < n
        invariant
            i <= n,
            lines@.len() <= i,
            split_lines(contents@) == texts_of(lines@) + split_lines(contents@.skip(i as int)),
            forall|m: int| 0 <= m < lines@.len() ==> lines@[m].number as int == m + 1,
        decreases n - i,
    {
        let ghost s = contents@;
        let ghost t = s.skip(i as int);
        let mut j: usize = i;
        while j < n && contents.get_char(j) != '\n'
            invariant
                i <= j <= n,
                forall|m: int| i <= m < j ==> s[m] != '\n',
            decreases n - j,
        {
            j = j + 1;
        }
        proof {
            let k = j - i;
            assert forall|m: int| 0 <= m < k implies t[m] != '\n' by {
                assert(t[m] == s[i + m]);
            }
            if j < n {
                assert(t[k] == s[j as int]);
            }
            lemma_line_break_at(t, k);
        }
        let end = if j < n && j > i && contents.get_char(j - 1) == '\r' {
            j - 1
        } else {
            j
        };
        let text = contents.substring_char(i, end).to_owned();
        proof {
            let k = (j - i) as int;
            if j < n {
                if k > 0 {
                    assert(t.take(k).last() == s[j - 1]);
                }
                assert(text@ =~= strip_cr(t.take(k)));
            } else {
                assert(text@ =~= t.take(k));
            }
        }
        let number = (lines.len() + 1) as u32;
        let ghost old_lines = lines@;
        lines.push(Line::new(text, number));
        proof {
            let k = (j - i) as int;
            let rest = if j < n {
                t.skip(k + 1)
            } else {
                t.skip(k)
            };
            if j < n {
                assert(split_lines(t) == seq![strip_cr(t.take(k))] + split_lines(rest));
                assert(rest =~= s.skip(j + 1));
            } else {
                assert(split_lines(t) == seq![t.take(k)] + split_lines(rest));
                assert(rest =~= s.skip(n as int));
            }
            assert(texts_of(lines@) =~= texts_of(old_lines).push(text@));
            assert(texts_of(old_lines) + split_lines(t)
                =~= texts_of(lines@) + split_lines(rest));
        }
        i = if j < n {
            j + 1
        } else {
            n
        };
    }
    proof {
        assert(contents@.skip(n as int) =~= Seq::<char>::empty());
        assert(split_lines(contents@) =~= texts_of(lines@) + Seq::<Seq<char>>::empty());
        assert(split_lines(contents@) =~= texts_of(lines@));
    }
    lines
}

} // verus!
