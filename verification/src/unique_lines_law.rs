//! Removing repeated lines twice is removing them once.
use vstd::prelude::*;

use crate::selection_tools::{
    dedup, eol_of, is_first_occurrences, lemma_dedup_is_subsequence, lemma_dedup_keeps_lines,
    lemma_dedup_unique, spec_unique_lines,
};
use crate::split_join::{
    crlf_sep, ends_with_cr, feeds_follow_returns, lemma_join_crlf, lemma_join_last,
    lemma_join_no_crlf, lemma_join_split, lemma_split_crlf_pieces, lemma_split_join,
    lemma_split_lf_pieces, lf_sep, line_ending_sep, no_line_feed,
};
use crate::text::{contains, ends_with, first_match, has_char, join, lemma_first_match_bounds, matches_at, split};

verus! {

/// In a text that holds `"\r\n"`, every line feed follows a carriage
/// return.
pub open spec fn consistent_line_ends(text: Seq<char>) -> bool {
    contains(text, crlf_sep()) ==> feeds_follow_returns(text)
}

/// No line occurs twice.
pub open spec fn distinct_lines(ls: Seq<Seq<char>>) -> bool {
    forall|i: int, j: int| 0 <= i < j < ls.len() ==> #[trigger] ls[i] != #[trigger] ls[j]
}

proof fn lemma_dedup_distinct(ls: Seq<Seq<char>>)
    requires
        distinct_lines(ls),
    ensures
        dedup(ls) == ls,
    decreases ls.len(),
{
    if ls.len() > 0 {
        let rest = ls.drop_last();
        assert(distinct_lines(rest)) by {
            assert forall|i: int, j: int| 0 <= i < j < rest.len() implies #[trigger] rest[i]
                != #[trigger] rest[j] by {
                assert(rest[i] == ls[i] && rest[j] == ls[j]);
            }
        }
        lemma_dedup_distinct(rest);
        if rest.contains(ls.last()) {
            let k = choose|k: int| 0 <= k < rest.len() && rest[k] == ls.last();
            assert(ls[k] == ls[ls.len() - 1]);
        }
        assert(rest.push(ls.last()) =~= ls);
    }
}

/// A match of a separator makes the text contain it.
proof fn lemma_contains_at(s: Seq<char>, sep: Seq<char>, k: int)
    requires
        sep.len() > 0,
        k >= 0,
        matches_at(s, sep, k),
    ensures
        contains(s, sep),
{
    lemma_first_match_bounds(s, sep, 0);
}

/// A match in a prefix is a match in the text.
proof fn lemma_match_in_prefix(s: Seq<char>, n: int, sep: Seq<char>, k: int)
    requires
        0 <= n <= s.len(),
        matches_at(s.subrange(0, n), sep, k),
    ensures
        matches_at(s, sep, k),
{
    assert(s.subrange(0, n).subrange(k, k + sep.len()) =~= s.subrange(k, k + sep.len()));
}

/// Lines without line feeds, with no repetition (but for an empty last
/// line), joined by the text's own line ending, are their unique lines.
proof fn lemma_unique_of_join(m: Seq<Seq<char>>, sep: Seq<char>)
    requires
        m.len() >= 1,
        line_ending_sep(sep),
        sep == lf_sep() || sep == crlf_sep(),
        forall|i: int| 0 <= i < m.len() ==> no_line_feed(#[trigger] m[i]),
        eol_of(join(m, sep)) == sep,
        distinct_lines(m.drop_last()),
        m.len() < 2 || m.last().len() > 0 ==> distinct_lines(m),
    ensures
        spec_unique_lines(join(m, sep)) == join(m, sep),
{
    let out = join(m, sep);
    if m.len() >= 2 && m.last().len() == 0 {
        let front = m.drop_last();
        let j = join(front, sep);
        assert(out == j + sep + m.last());
        assert(out =~= j + sep);
        assert(ends_with(out, sep)) by {
            assert(out.subrange(out.len() - sep.len(), out.len() as int) =~= sep);
        }
        assert(out.subrange(0, out.len() - sep.len()) =~= j);
        assert forall|i: int| 0 <= i < front.len() implies no_line_feed(#[trigger] front[i]) by {
            assert(front[i] == m[i]);
        }
        lemma_split_join(front, sep);
        lemma_dedup_distinct(front);
    } else {
        assert(!ends_with(out, sep)) by {
            if m.last().len() > 0 {
                lemma_join_last(m, sep);
                if ends_with(out, sep) {
                    assert(out.subrange(out.len() - sep.len(), out.len() as int)[sep.len() - 1]
                        == out.last());
                    assert(m.last()[m.last().len() - 1] == '\n');
                    assert(has_char(m.last(), '\n'));
                }
            } else {
                assert(m.len() == 1);
                assert(out == m[0]);
                assert(out.len() == 0);
            }
        }
        lemma_split_join(m, sep);
        lemma_dedup_distinct(m);
    }
}

/// Removing repeated lines from its own result changes nothing, for a text
/// whose line feeds all follow carriage returns when it holds a `"\r\n"`.
#[verifier::rlimit(40)]
pub proof fn lemma_unique_lines_idempotent(text: Seq<char>)
    requires
        consistent_line_ends(text),
    ensures
        spec_unique_lines(spec_unique_lines(text)) == spec_unique_lines(text),
{
    let eol = eol_of(text);
    let crlf = crlf_sep();
    let lf = lf_sep();
    assert(crlf =~= seq!['\r', '\n']);
    assert(lf =~= seq!['\n']);
    let t = ends_with(text, eol);
    let n = if t {
        text.len() - eol.len()
    } else {
        text.len() as int
    };
    let body = text.subrange(0, n);
    assert(body == (if t {
        text.subrange(0, text.len() - eol.len())
    } else {
        text
    })) by {
        if !t {
            assert(text.subrange(0, text.len() as int) =~= text);
        }
    }
    let p = split(body, eol);
    lemma_join_split(body, eol, 0);
    assert(body.subrange(0, body.len() as int) =~= body);
    if eol == crlf {
        assert(feeds_follow_returns(body)) by {
            assert forall|q: int| 0 <= q < body.len() && #[trigger] body[q] == '\n' implies q > 0
                && body[q - 1] == '\r' by {
                assert(text[q] == '\n');
            }
        }
        lemma_split_crlf_pieces(body, 0);
    } else {
        lemma_split_lf_pieces(body, 0);
    }
    let l = dedup(p);
    lemma_dedup_keeps_lines(p, p[0]);
    assert(p.contains(p[0]));
    assert(l.len() >= 1);
    assert forall|i: int| 0 <= i < l.len() implies no_line_feed(#[trigger] l[i]) by {
        lemma_dedup_keeps_lines(p, l[i]);
        assert(l.contains(l[i]));
        let k = choose|k: int| 0 <= k < p.len() && p[k] == l[i];
    }
    assert(distinct_lines(l)) by {
        assert forall|i: int, j: int| 0 <= i < j < l.len() implies #[trigger] l[i] != #[trigger] l[j] by {
            if l[i] == l[j] {
                lemma_dedup_unique(p, i, j);
            }
        }
    }
    let m = if t {
        l.push(seq![])
    } else {
        l
    };
    assert(spec_unique_lines(text) == join(m, eol)) by {
        if t {
            assert(m.drop_last() =~= l);
            assert(join(m, eol) == join(l, eol) + eol + seq![]);
            assert(join(l, eol) + eol + seq![] =~= join(l, eol) + eol);
        }
    }
    assert forall|i: int| 0 <= i < m.len() implies no_line_feed(#[trigger] m[i]) by {
        if t && i == m.len() - 1 {
            assert(m[i] == Seq::<char>::empty());
        } else {
            assert(m[i] == l[i]);
        }
    }
    assert(distinct_lines(m.drop_last())) by {
        if t {
            assert(m.drop_last() =~= l);
        } else {
            assert forall|i: int, j: int| 0 <= i < j < m.drop_last().len() implies #[trigger] m.drop_last()[i]
                != #[trigger] m.drop_last()[j] by {
                assert(m.drop_last()[i] == l[i] && m.drop_last()[j] == l[j]);
            }
        }
    }
    if eol == crlf {
        if m.len() >= 2 {
            let front = join(m.drop_last(), eol);
            assert(join(m, eol) == front + eol + m.last());
            let out = join(m, eol);
            assert(out.subrange(front.len() as int, front.len() as int + 2) =~= crlf);
            lemma_contains_at(out, crlf, front.len() as int);
            assert(line_ending_sep(crlf));
            lemma_unique_of_join(m, eol);
        } else {
            assert(!t);
            let l0 = m[0];
            assert(join(m, eol) == l0);
            assert(join(m, lf) == l0);
            assert(!contains(l0, crlf)) by {
                lemma_first_match_bounds(l0, crlf, 0);
                if first_match(l0, crlf, 0) is Some {
                    let k = first_match(l0, crlf, 0)->0;
                    assert(l0[k + 1] == l0.subrange(k, k + 2)[1]);
                    assert(has_char(l0, '\n'));
                }
            }
            assert(line_ending_sep(lf));
            lemma_unique_of_join(m, lf);
        }
    } else {
        assert(eol == lf);
        assert(!contains(text, crlf));
        lemma_dedup_is_subsequence(p);
        let idx = choose|idx: Seq<int>| #[trigger] is_first_occurrences(p, l, idx);
        assert(is_first_occurrences(p, l, idx));
        assert forall|i: int| 0 <= i < m.len() - 1 implies !ends_with_cr(#[trigger] m[i]) by {
            assert(m[i] == l[i]);
            let k = idx[i];
            assert(p[k] == l[i]);
            if ends_with_cr(m[i]) {
                if k < p.len() - 1 {
                    let q = lemma_join_crlf(p, k);
                    lemma_match_in_prefix(text, n, crlf, q);
                    lemma_contains_at(text, crlf, q);
                } else {
                    assert(t);
                    let p2 = p.push(seq![]);
                    assert(p2[k] == p[k]);
                    let q = lemma_join_crlf(p2, k);
                    assert(p2.drop_last() =~= p);
                    assert(join(p2, lf) == join(p, lf) + lf + seq![]);
                    assert(text =~= join(p2, lf)) by {
                        assert(text.subrange(text.len() - 1, text.len() as int) =~= lf);
                        assert(text =~= body + text.subrange(text.len() - 1, text.len() as int));
                    }
                    lemma_contains_at(text, crlf, q);
                }
            }
        }
        lemma_join_no_crlf(m);
        assert(!contains(join(m, lf), crlf)) by {
            lemma_first_match_bounds(join(m, lf), crlf, 0);
        }
        assert(line_ending_sep(lf));
        lemma_unique_of_join(m, lf);
    }
}

} // verus!
