//! Filtering numbered lines by substring containment.
//!
//! A line matches a query if the query occurs in the line's text as a
//! contiguous substring. In case-insensitive mode the query and each line's
//! text are lowercased character by character before the same containment
//! test; matching lines are returned with their original text.

use vstd::prelude::*;
use vstd::string::StrSliceExecFns;
use crate::line::Line;

verus! {

/// `q` occurs in `t` as a contiguous substring starting at position `i`.
pub open spec fn is_match_at(t: Seq<char>, q: Seq<char>, i: int) -> bool {
    0 <= i && i + q.len() <= t.len() && t.subrange(i, i + q.len()) == q
}

/// `q` occurs somewhere in `t` as a contiguous substring.
pub open spec fn contains_sub(t: Seq<char>, q: Seq<char>) -> bool {
    exists|i: int| is_match_at(t, q, i)
}

/// What `char::to_lowercase` yields for one character.
pub uninterp spec fn lower_char_of(c: char) -> Seq<char>;

/// Relies on `char::to_lowercase`: the lowercase mapping of a character is
/// a function of that character alone.
#[verifier::external_body]
fn lowercase_char(c: char) -> (r: String)
    ensures
        r@ == lower_char_of(c),
{
    c.to_lowercase().collect()
}

/// The lowercase form of a text: each character replaced by its lowercase
/// mapping, in order.
pub open spec fn lower_seq(s: Seq<char>) -> Seq<char>
    decreases s.len(),
{
    if s.len() == 0 {
        Seq::empty()
    } else {
        lower_char_of(s[0]) + lower_seq(s.skip(1))
    }
}

/// Lowercases `s` one character at a time.
#[verifier::loop_isolation(false)]
fn to_lowercase_chars(s: &str) -> (r: String)
    ensures
        r@ == lower_seq(s@),
{
    let n = s.unicode_len();
    let mut r = String::new();
    let mut i: usize = 0;
    proof {
        assert(s@.skip(0) =~= s@);
        assert(r@ + lower_seq(s@) =~= lower_seq(s@));
    }
    while i < n
        invariant
            i <= n,
            lower_seq(s@) == r@ + lower_seq(s@.skip(i as int)),
        decreases n - i,
    {
        let c = s.get_char(i);
        let lc = lowercase_char(c);
        let ghost old_r = r@;
        r.append(lc.as_str());
        proof {
            let t = s@.skip(i as int);
            assert(t[0] == s@[i as int]);
            assert(t.skip(1) =~= s@.skip(i + 1));
            assert(lower_seq(t) == lower_char_of(t[0]) + lower_seq(t.skip(1)));
            assert(old_r + lower_seq(t) =~= r@ + lower_seq(s@.skip(i + 1)));
        }
        i = i + 1;
    }
    proof {
        assert(s@.skip(n as int) =~= Seq::<char>::empty());
        assert(r@ + lower_seq(s@.skip(n as int)) =~= r@);
    }
    r
}

/// Does `haystack` contain `needle` as a contiguous substring?
#[verifier::loop_isolation(false)]
fn contains_substr(haystack: &str, needle: &str) -> (r: bool)
    ensures
        r == contains_sub(haystack@, needle@),
{
    let tn = haystack.unicode_len();
    let qn = needle.unicode_len();
    if qn > tn {
        proof {
            assert(forall|i: int| !is_match_at(haystack@, needle@, i));
        }
        return false;
    }
    let mut i: usize = 0;
    while i <= tn - qn
        invariant
            i <= tn - qn + 1,
            forall|ii: int| 0 <= ii < i ==> !is_match_at(haystack@, needle@, ii),
        decreases tn - qn - i + 1,
    {
        let mut m: usize = 0;
        while m < qn && haystack.get_char(i + m) == needle.get_char(m)
            invariant
                i + qn <= tn,
                m <= qn,
                forall|mm: int| 0 <= mm < m ==> haystack@[i + mm] == needle@[mm],
            decreases qn - m,
        {
            m = m + 1;
        }
        if m == qn {
            proof {
                assert(haystack@.subrange(i as int, i + qn) =~= needle@);
                assert(is_match_at(haystack@, needle@, i as int));
            }
            return true;
        }
        proof {
            assert(haystack@[i + m] != needle@[m as int]);
            assert forall|ii: int| ii == i implies !is_match_at(haystack@, needle@, ii) by {
                if is_match_at(haystack@, needle@, ii) {
                    assert(haystack@.subrange(ii, ii + needle@.len())[m as int]
                        == haystack@[i + m]);
                }
            }
        }
        i = i + 1;
    }
    proof {
        assert forall|ii: int| !is_match_at(haystack@, needle@, ii) by {
            if ii >= i {
                assert(ii + needle@.len() > haystack@.len());
            }
        }
    }
    false
}

/// The line matches the query in the given mode: by exact containment when
/// `cs` is true, by containment of the lowercased texts when it is false.
pub open spec fn line_matches(q: Seq<char>, l: Line, cs: bool) -> bool {
    if cs {
        contains_sub(l.line@, q)
    } else {
        contains_sub(lower_seq(l.line@), lower_seq(q))
    }
}

/// The subsequence of `ls` whose lines match `q` in mode `cs`, in original
/// order, with original text and numbers.
pub open spec fn matched_lines(q: Seq<char>, ls: Seq<Line>, cs: bool) -> Seq<Line>
    decreases ls.len(),
{
    if ls.len() == 0 {
        Seq::empty()
    } else {
        let rest = matched_lines(q, ls.skip(1), cs);
        if line_matches(q, ls[0], cs) {
            seq![ls[0]] + rest
        } else {
            rest
        }
    }
}

/// Lowercasing distributes over concatenation: it maps each character
/// independently.
pub proof fn lemma_lower_seq_concat(a: Seq<char>, b: Seq<char>)
    ensures
        lower_seq(a + b) == lower_seq(a) + lower_seq(b),
    decreases a.len(),
{
    if a.len() == 0 {
        assert(a + b =~= b);
        assert(lower_seq(a) + lower_seq(b) =~= lower_seq(b));
    } else {
        assert((a + b).skip(1) =~= a.skip(1) + b);
        lemma_lower_seq_concat(a.skip(1), b);
        assert((a + b)[0] == a[0]);
        assert(lower_char_of(a[0]) + (lower_seq(a.skip(1)) + lower_seq(b))
            =~= (lower_char_of(a[0]) + lower_seq(a.skip(1))) + lower_seq(b));
    }
}

/// Substring containment survives lowercasing: if `q` occurs in `t`, then
/// the lowercase form of `q` occurs in the lowercase form of `t`.
pub proof fn lemma_contains_lower(t: Seq<char>, q: Seq<char>)
    requires
        contains_sub(t, q),
    ensures
        contains_sub(lower_seq(t), lower_seq(q)),
{
    let i = choose|i: int| is_match_at(t, q, i);
    let pre = t.subrange(0, i);
    let post = t.subrange(i + q.len(), t.len() as int);
    assert(t =~= (pre + q) + post);
    lemma_lower_seq_concat(pre + q, post);
    lemma_lower_seq_concat(pre, q);
    let lp = lower_seq(pre);
    let lq = lower_seq(q);
    let lt = lower_seq(t);
    assert(lt == (lp + lq) + lower_seq(post));
    assert(lt.subrange(lp.len() as int, lp.len() + lq.len() as int) =~= lq);
    assert(is_match_at(lt, lq, lp.len() as int));
}

/// Every line of a match result matches the query in that mode.
pub proof fn lemma_matched_lines_all_match(q: Seq<char>, ls: Seq<Line>, cs: bool)
    ensures
        forall|j: int| 0 <= j < matched_lines(q, ls, cs).len()
            ==> line_matches(q, #[trigger] matched_lines(q, ls, cs)[j], cs),
    decreases ls.len(),
{
    if ls.len() > 0 {
        lemma_matched_lines_all_match(q, ls.skip(1), cs);
        let m = matched_lines(q, ls, cs);
        let rest = matched_lines(q, ls.skip(1), cs);
        assert forall|j: int| 0 <= j < m.len() implies line_matches(q, #[trigger] m[j], cs) by {
            if line_matches(q, ls[0], cs) {
                if j > 0 {
                    assert(m[j] == rest[j - 1]);
                }
            } else {
                assert(m[j] == rest[j]);
            }
        }
    }
}

/// Filtering a sequence all of whose lines match changes nothing.
pub proof fn lemma_matched_lines_id(q: Seq<char>, ls: Seq<Line>, cs: bool)
    requires
        forall|j: int| 0 <= j < ls.len() ==> line_matches(q, #[trigger] ls[j], cs),
    ensures
        matched_lines(q, ls, cs) == ls,
    decreases ls.len(),
{
    if ls.len() == 0 {
        assert(matched_lines(q, ls, cs) =~= ls);
    } else {
        assert forall|j: int| 0 <= j < ls.skip(1).len()
            implies line_matches(q, #[trigger] ls.skip(1)[j], cs) by {
            assert(ls.skip(1)[j] == ls[j + 1]);
        }
        lemma_matched_lines_id(q, ls.skip(1), cs);
        assert(seq![ls[0]] + ls.skip(1) =~= ls);
    }
}

/// Filtering twice changes nothing: a second match over the result of a
/// first match with the same query and mode returns that result unchanged.
pub proof fn lemma_match_idempotent(q: Seq<char>, ls: Seq<Line>, cs: bool)
    ensures
        matched_lines(q, matched_lines(q, ls, cs), cs) == matched_lines(q, ls, cs),
{
    lemma_matched_lines_all_match(q, ls, cs);
    lemma_matched_lines_id(q, matched_lines(q, ls, cs), cs);
}

/// A line stands in a match result exactly when it stands in the input and
/// matches the query in that mode.
pub proof fn lemma_matched_lines_contains(q: Seq<char>, ls: Seq<Line>, cs: bool, l: Line)
    ensures
        matched_lines(q, ls, cs).contains(l) <==> (ls.contains(l) && line_matches(q, l, cs)),
    decreases ls.len(),
{
    if ls.len() == 0 {
        assert(!ls.contains(l));
        assert(!matched_lines(q, ls, cs).contains(l));
    } else {
        lemma_matched_lines_contains(q, ls.skip(1), cs, l);
        let rest = matched_lines(q, ls.skip(1), cs);
        assert(ls.contains(l) <==> (ls[0] == l || ls.skip(1).contains(l))) by {
            if ls.contains(l) {
                let idx = choose|idx: int| 0 <= idx < ls.len() && ls[idx] == l;
                if idx > 0 {
                    assert(ls.skip(1)[idx - 1] == l);
                }
            }
            if ls.skip(1).contains(l) {
                let idx = choose|idx: int| 0 <= idx < ls.skip(1).len() && ls.skip(1)[idx] == l;
                assert(ls[idx + 1] == l);
            }
        }
        if line_matches(q, ls[0], cs) {
            let m = seq![ls[0]] + rest;
            assert(m.contains(l) <==> (ls[0] == l || rest.contains(l))) by {
                if m.contains(l) {
                    let idx = choose|idx: int| 0 <= idx < m.len() && m[idx] == l;
                    if idx > 0 {
                        assert(rest[idx - 1] == l);
                    }
                }
                if rest.contains(l) {
                    let idx = choose|idx: int| 0 <= idx < rest.len() && rest[idx] == l;
                    assert(m[idx + 1] == l);
                }
                assert(m[0] == ls[0]);
            }
        }
    }
}

/// A line that matches case-sensitively also matches case-insensitively, so
/// the case-insensitive result contains every line of the case-sensitive
/// one; indeed the case-sensitive result is exactly the case-sensitive
/// filtering of the case-insensitive result.
pub proof fn lemma_case_insensitive_superset(q: Seq<char>, ls: Seq<Line>)
    ensures
        forall|l: Line| matched_lines(q, ls, true).contains(l)
            ==> matched_lines(q, ls, false).contains(l),
        matched_lines(q, ls, true) == matched_lines(q, matched_lines(q, ls, false), true),
    decreases ls.len(),
{
    assert forall|l: Line| matched_lines(q, ls, true).contains(l)
        implies matched_lines(q, ls, false).contains(l) by {
        lemma_matched_lines_contains(q, ls, true, l);
        lemma_matched_lines_contains(q, ls, false, l);
        lemma_contains_lower(l.line@, q);
    }
    if ls.len() == 0 {
    } else {
        lemma_case_insensitive_superset(q, ls.skip(1));
        let h = ls[0];
        let rest_f = matched_lines(q, ls.skip(1), false);
        if line_matches(q, h, false) {
            let m = seq![h] + rest_f;
            assert(m[0] == h);
            assert(m.skip(1) =~= rest_f);
            assert(matched_lines(q, m, true) == if line_matches(q, h, true) {
                seq![h] + matched_lines(q, rest_f, true)
            } else {
                matched_lines(q, rest_f, true)
            });
        } else {
            assert(!line_matches(q, h, true)) by {
                if line_matches(q, h, true) {
                    lemma_contains_lower(h.line@, q);
                }
            }
        }
    }
}

/// An empty query matches every line, in either mode: the result is the
/// input unchanged.
pub proof fn lemma_empty_query_matches_all(ls: Seq<Line>, cs: bool)
    ensures
        matched_lines(Seq::empty(), ls, cs) == ls,
{
    let q = Seq::<char>::empty();
    assert forall|j: int| 0 <= j < ls.len() implies line_matches(q, #[trigger] ls[j], cs) by {
        assert(ls[j].line@.subrange(0, 0) =~= q);
        assert(is_match_at(ls[j].line@, q, 0));
        assert(lower_seq(ls[j].line@).subrange(0, 0) =~= q);
        assert(lower_seq(q) == q);
        assert(is_match_at(lower_seq(ls[j].line@), lower_seq(q), 0));
    }
    lemma_matched_lines_id(q, ls, cs);
}

/// Returns the lines of `contents` whose text contains `query` as a
/// contiguous substring, compared exactly, in original order.
#[verifier::loop_isolation(false)]
pub fn search(query: &str, contents: Vec<Line>) -> (r: Vec<Line>)
    ensures
        r@ == matched_lines(query@, contents@, true),
{
    let mut out: Vec<Line> = Vec::new();
    let mut i: usize = 0;
    proof {
        assert(contents@.skip(0) =~= contents@);
        assert(out@ + matched_lines(query@, contents@, true)
            =~= matched_lines(query@, contents@, true));
    }
    while i < contents.len()
        invariant
            i <= contents@.len(),
            matched_lines(query@, contents@, true)
                == out@ + matched_lines(query@, contents@.skip(i as int), true),
        decreases contents@.len() - i,
    {
        let ghost t = contents@.skip(i as int);
        let ghost old_out = out@;
        let l = &contents[i];
        if contains_substr(l.line.as_str(), query) {
            out.push(Line::new(l.line.clone(), l.number));
        }
        proof {
            assert(t[0] == contents@[i as int]);
            assert(t.skip(1) =~= contents@.skip(i + 1));
            if line_matches(query@, t[0], true) {
                assert(out@ =~= old_out.push(t[0]));
                assert(old_out + (seq![t[0]] + matched_lines(query@, t.skip(1), true))
                    =~= out@ + matched_lines(query@, contents@.skip(i + 1), true));
            }
        }
        i = i + 1;
    }
    proof {
        assert(contents@.skip(contents@.len() as int) =~= Seq::<Line>::empty());
        assert(out@ + Seq::<Line>::empty() =~= out@);
    }
    out
}

/// Returns the lines of `contents` whose text contains `query` as a
/// contiguous substring once both are lowercased, in original order and
/// with their original, non-lowercased text.
#[verifier::loop_isolation(false)]
pub fn search_case_insensitive(query: &str, contents: Vec<Line>) -> (r: Vec<Line>)
    ensures
        r@ == matched_lines(query@, contents@, false),
{
    let lowered_query = to_lowercase_chars(query);
    let mut out: Vec<Line> = Vec::new();
    let mut i: usize = 0;
    proof {
        assert(contents@.skip(0) =~= contents@);
        assert(out@ + matched_lines(query@, contents@, false)
            =~= matched_lines(query@, contents@, false));
    }
    while i < contents.len()
        invariant
            i <= contents@.len(),
            lowered_query@ == lower_seq(query@),
            matched_lines(query@, contents@, false)
                == out@ + matched_lines(query@, contents@.skip(i as int), false),
        decreases contents@.len() - i,
    {
        let ghost t = contents@.skip(i as int);
        let ghost old_out = out@;
        let l = &contents[i];
        let lowered_line = to_lowercase_chars(l.line.as_str());
        if contains_substr(lowered_line.as_str(), lowered_query.as_str()) {
            out.push(Line::new(l.line.clone(), l.number));
        }
        proof {
            assert(t[0] == contents@[i as int]);
            assert(t.skip(1) =~= contents@.skip(i + 1));
            if line_matches(query@, t[0], false) {
                assert(out@ =~= old_out.push(t[0]));
                assert(old_out + (seq![t[0]] + matched_lines(query@, t.skip(1), false))
                    =~= out@ + matched_lines(query@, contents@.skip(i + 1), false));
            }
        }
        i = i + 1;
    }
    proof {
        assert(contents@.skip(contents@.len() as int) =~= Seq::<Line>::empty());
        assert(out@ + Seq::<Line>::empty() =~= out@);
    }
    out
}

} // verus!
