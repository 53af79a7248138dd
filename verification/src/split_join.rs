//! How splitting text at a separator and joining the pieces with it undo
//! each other.
use vstd::prelude::*;

use crate::line_sort::{lemma_first_match_first, lemma_newline_match};
use crate::text::{first_match, has_char, join, lemma_first_match_bounds, matches_at, split, split_from};

verus! {

/// `p` holds no line feed.
pub open spec fn no_line_feed(p: Seq<char>) -> bool {
    !has_char(p, '\n')
}

/// A line ending: it ends with a line feed and holds no other.
pub open spec fn line_ending_sep(sep: Seq<char>) -> bool {
    &&& sep.len() > 0
    &&& sep.last() == '\n'
    &&& forall|k: int| 0 <= k < sep.len() - 1 ==> sep[k] != '\n'
}

proof fn lemma_matches_shift(p: Seq<char>, t: Seq<char>, sep: Seq<char>, j: int)
    requires
        j >= 0,
    ensures
        matches_at(p + t, sep, p.len() + j) == matches_at(t, sep, j),
{
    if j + sep.len() <= t.len() {
        assert((p + t).subrange(p.len() + j, p.len() + j + sep.len()) =~= t.subrange(j, j + sep.len()));
    }
}

proof fn lemma_first_match_shift(p: Seq<char>, t: Seq<char>, sep: Seq<char>, j: int)
    requires
        j >= 0,
    ensures
        first_match(p + t, sep, p.len() + j) == match first_match(t, sep, j) {
            None => None,
            Some(m) => Some(p.len() + m),
        },
    decreases t.len() - j,
{
    lemma_matches_shift(p, t, sep, j);
    if j < t.len() && j + sep.len() <= t.len() && !matches_at(t, sep, j) {
        lemma_first_match_shift(p, t, sep, j + 1);
    }
}

/// Splitting after a prefix is splitting what follows it.
pub proof fn lemma_split_shift(p: Seq<char>, t: Seq<char>, sep: Seq<char>, j: int)
    requires
        0 <= j <= t.len(),
        sep.len() > 0,
    ensures
        split_from(p + t, sep, p.len() + j) == split_from(t, sep, j),
    decreases t.len() - j,
{
    lemma_first_match_shift(p, t, sep, j);
    lemma_first_match_bounds(t, sep, j);
    match first_match(t, sep, j) {
        Some(m) => {
            assert((p + t).subrange(p.len() + j, p.len() + m) =~= t.subrange(j, m));
            lemma_split_shift(p, t, sep, m + sep.len());
        },
        None => {
            assert((p + t).subrange(p.len() + j, (p + t).len() as int) =~= t.subrange(j, t.len() as int));
        },
    }
}

/// Joining a first piece to the rest.
pub proof fn lemma_join_cons(a: Seq<char>, rest: Seq<Seq<char>>, sep: Seq<char>)
    requires
        rest.len() >= 1,
    ensures
        join(seq![a] + rest, sep) == a + sep + join(rest, sep),
    decreases rest.len(),
{
    let x = seq![a] + rest;
    assert(x.len() >= 2);
    assert(x.last() == rest.last());
    assert(join(x, sep) == join(x.drop_last(), sep) + sep + x.last());
    if rest.len() == 1 {
        assert(x.drop_last() =~= seq![a]);
        assert(join(seq![a], sep) == a);
        assert(join(rest, sep) == rest[0]);
        assert(rest.last() == rest[0]);
    } else {
        assert(x.drop_last() =~= seq![a] + rest.drop_last());
        assert(join(rest, sep) == join(rest.drop_last(), sep) + sep + rest.last());
        lemma_join_cons(a, rest.drop_last(), sep);
        assert(a + sep + join(rest.drop_last(), sep) + sep + rest.last() =~= a + sep + (join(
            rest.drop_last(),
            sep,
        ) + sep + rest.last()));
    }
}

/// Joining the pieces of a split gives the text back.
pub proof fn lemma_join_split(s: Seq<char>, sep: Seq<char>, start: int)
    requires
        sep.len() > 0,
        0 <= start <= s.len(),
    ensures
        join(split_from(s, sep, start), sep) == s.subrange(start, s.len() as int),
        split_from(s, sep, start).len() >= 1,
    decreases s.len() - start,
{
    lemma_first_match_bounds(s, sep, start);
    match first_match(s, sep, start) {
        Some(i) => {
            lemma_join_split(s, sep, i + sep.len());
            let rest = split_from(s, sep, i + sep.len());
            lemma_join_cons(s.subrange(start, i), rest, sep);
            assert(s.subrange(i, i + sep.len()) == sep);
            assert(s.subrange(start, i) + sep + s.subrange(i + sep.len(), s.len() as int)
                =~= s.subrange(start, s.len() as int));
        },
        None => {
            assert(split_from(s, sep, start) =~= seq![s.subrange(start, s.len() as int)]);
        },
    }
}

/// A line ending matches only where a line feed ends it.
proof fn lemma_match_needs_line_feed(s: Seq<char>, sep: Seq<char>, k: int)
    requires
        line_ending_sep(sep),
        matches_at(s, sep, k),
    ensures
        s[k + sep.len() - 1] == '\n',
{
    assert(s.subrange(k, k + sep.len())[sep.len() - 1] == sep[sep.len() - 1]);
}

/// Pieces without line feeds, joined by a line ending, split back into
/// themselves.
pub proof fn lemma_split_join(ls: Seq<Seq<char>>, sep: Seq<char>)
    requires
        ls.len() >= 1,
        line_ending_sep(sep),
        forall|i: int| 0 <= i < ls.len() ==> no_line_feed(#[trigger] ls[i]),
    ensures
        split(join(ls, sep), sep) == ls,
    decreases ls.len(),
{
    let j = join(ls, sep);
    let a = ls[0];
    if ls.len() == 1 {
        assert(j == a);
        assert forall|k: int| 0 <= k implies !#[trigger] matches_at(j, sep, k) by {
            if matches_at(j, sep, k) {
                lemma_match_needs_line_feed(j, sep, k);
                assert(has_char(a, '\n'));
            }
        }
        lemma_first_match_bounds(j, sep, 0);
        if first_match(j, sep, 0) is Some {
            assert(matches_at(j, sep, first_match(j, sep, 0)->0));
        }
        assert(split(j, sep) =~= seq![j.subrange(0, j.len() as int)]);
        assert(j.subrange(0, j.len() as int) =~= a);
        assert(ls =~= seq![a]);
    } else {
        let rest = ls.drop_first();
        assert(ls =~= seq![a] + rest);
        lemma_join_cons(a, rest, sep);
        let tail = join(rest, sep);
        assert(j == a + sep + tail);
        assert forall|k: int| 0 <= k < a.len() implies !#[trigger] matches_at(j, sep, k) by {
            if matches_at(j, sep, k) {
                lemma_match_needs_line_feed(j, sep, k);
                let q = k + sep.len() - 1;
                if q < a.len() {
                    assert(j[q] == a[q]);
                    assert(has_char(a, '\n'));
                } else {
                    assert(j[q] == sep[q - a.len()]);
                }
            }
        }
        assert(j.subrange(a.len() as int, a.len() as int + sep.len()) =~= sep);
        lemma_first_match_at(j, sep, 0, a.len() as int);
        assert(j.subrange(0, a.len() as int) =~= a);
        assert(j =~= (a + sep) + tail);
        lemma_split_shift(a + sep, tail, sep, 0);
        assert forall|i: int| 0 <= i < rest.len() implies no_line_feed(#[trigger] rest[i]) by {
            assert(rest[i] == ls[i + 1]);
        }
        lemma_split_join(rest, sep);
        assert(split_from(j, sep, 0) == seq![a] + split_from(j, sep, a.len() as int + sep.len()));
    }
}

/// The first match from `i` is `m` when one lies at `m` and none before.
pub proof fn lemma_first_match_at(s: Seq<char>, sep: Seq<char>, i: int, m: int)
    requires
        sep.len() > 0,
        0 <= i <= m,
        matches_at(s, sep, m),
        forall|k: int| i <= k < m ==> !#[trigger] matches_at(s, sep, k),
    ensures
        first_match(s, sep, i) == Some(m),
    decreases m - i,
{
    if i < m {
        lemma_first_match_at(s, sep, i + 1, m);
    }
}

/// A line feed.
pub open spec fn lf_sep() -> Seq<char> {
    seq!['\n']
}

/// A carriage return and a line feed.
pub open spec fn crlf_sep() -> Seq<char> {
    seq!['\r', '\n']
}

/// `p` ends with a carriage return.
pub open spec fn ends_with_cr(p: Seq<char>) -> bool {
    p.len() > 0 && p.last() == '\r'
}

/// The pieces of a split at line feeds hold no line feed.
pub proof fn lemma_split_lf_pieces(s: Seq<char>, start: int)
    requires
        0 <= start <= s.len(),
    ensures
        forall|i: int|
            0 <= i < split_from(s, lf_sep(), start).len() ==> no_line_feed(
                #[trigger] split_from(s, lf_sep(), start)[i],
            ),
    decreases s.len() - start,
{
    let nl = lf_sep();
    lemma_first_match_bounds(s, nl, start);
    lemma_first_match_first(s, nl, start);
    match first_match(s, nl, start) {
        Some(m) => {
            lemma_split_lf_pieces(s, m + 1);
            let piece = s.subrange(start, m);
            assert(no_line_feed(piece)) by {
                if has_char(piece, '\n') {
                    let k = choose|k: int| 0 <= k < piece.len() && piece[k] == '\n';
                    lemma_newline_match(s, start + k);
                }
            }
            let parts = split_from(s, nl, start);
            assert(parts == seq![piece] + split_from(s, nl, m + 1));
            assert forall|i: int| 0 <= i < parts.len() implies no_line_feed(#[trigger] parts[i]) by {
                if i > 0 {
                    assert(parts[i] == split_from(s, nl, m + 1)[i - 1]);
                } else {
                    assert(parts[i] == piece);
                }
            }
        },
        None => {
            let piece = s.subrange(start, s.len() as int);
            assert(no_line_feed(piece)) by {
                if has_char(piece, '\n') {
                    let k = choose|k: int| 0 <= k < piece.len() && piece[k] == '\n';
                    lemma_newline_match(s, start + k);
                }
            }
        },
    }
}

/// In `s` every line feed follows a carriage return.
pub open spec fn feeds_follow_returns(s: Seq<char>) -> bool {
    forall|m: int| 0 <= m < s.len() && #[trigger] s[m] == '\n' ==> m > 0 && s[m - 1] == '\r'
}

/// When every line feed follows a carriage return, the pieces of a split at
/// `"\r\n"` hold no line feed.
pub proof fn lemma_split_crlf_pieces(s: Seq<char>, start: int)
    requires
        0 <= start <= s.len(),
        feeds_follow_returns(s),
        start == 0 || s[start - 1] == '\n',
    ensures
        forall|i: int|
            0 <= i < split_from(s, crlf_sep(), start).len() ==> no_line_feed(
                #[trigger] split_from(s, crlf_sep(), start)[i],
            ),
    decreases s.len() - start,
{
    let crlf = crlf_sep();
    lemma_first_match_bounds(s, crlf, start);
    lemma_first_match_first(s, crlf, start);
    let end = match first_match(s, crlf, start) {
        Some(m) => m,
        None => s.len() as int,
    };
    let piece = s.subrange(start, end);
    assert(no_line_feed(piece)) by {
        if has_char(piece, '\n') {
            let k = choose|k: int| 0 <= k < piece.len() && piece[k] == '\n';
            let q = start + k;
            assert(s[q] == '\n');
            assert(q > 0 && s[q - 1] == '\r');
            if q - 1 >= start {
                assert(s.subrange(q - 1, q + 1) =~= crlf);
                assert(matches_at(s, crlf, q - 1));
            }
        }
    }
    match first_match(s, crlf, start) {
        Some(m) => {
            assert(s.subrange(m, m + 2) == crlf);
            assert(s[m + 1] == s.subrange(m, m + 2)[1]);
            lemma_split_crlf_pieces(s, m + 2);
            let parts = split_from(s, crlf, start);
            assert(parts == seq![piece] + split_from(s, crlf, m + 2));
            assert forall|i: int| 0 <= i < parts.len() implies no_line_feed(#[trigger] parts[i]) by {
                if i > 0 {
                    assert(parts[i] == split_from(s, crlf, m + 2)[i - 1]);
                } else {
                    assert(parts[i] == piece);
                }
            }
        },
        None => {},
    }
}

/// The last character of a join whose last piece is not empty.
pub proof fn lemma_join_last(q: Seq<Seq<char>>, sep: Seq<char>)
    requires
        q.len() >= 1,
        q.last().len() > 0,
    ensures
        join(q, sep).len() > 0,
        join(q, sep).last() == q.last().last(),
        join(q, sep).len() >= q.last().len(),
{
}

/// Pieces without line feeds, none but the last ending with a carriage
/// return, joined by line feeds hold no `"\r\n"`.
pub proof fn lemma_join_no_crlf(q: Seq<Seq<char>>)
    requires
        q.len() >= 1,
        forall|i: int| 0 <= i < q.len() ==> no_line_feed(#[trigger] q[i]),
        forall|i: int| 0 <= i < q.len() - 1 ==> !ends_with_cr(#[trigger] q[i]),
    ensures
        forall|m: int| !#[trigger] matches_at(join(q, lf_sep()), crlf_sep(), m),
    decreases q.len(),
{
    let nl = lf_sep();
    let crlf = crlf_sep();
    let j = join(q, nl);
    if q.len() == 1 {
        assert forall|m: int| !#[trigger] matches_at(j, crlf, m) by {
            if matches_at(j, crlf, m) {
                assert(j[m + 1] == j.subrange(m, m + 2)[1]);
                assert(has_char(q[0], '\n'));
            }
        }
    } else {
        let x = join(q.drop_last(), nl);
        let y = q.last();
        assert(j == x + nl + y);
        lemma_join_no_crlf(q.drop_last());
        assert forall|m: int| !#[trigger] matches_at(j, crlf, m) by {
            if matches_at(j, crlf, m) {
                assert(j[m] == j.subrange(m, m + 2)[0]);
                assert(j[m + 1] == j.subrange(m, m + 2)[1]);
                if m + 1 < x.len() {
                    assert(x.subrange(m, m + 2) =~= j.subrange(m, m + 2));
                    assert(matches_at(x, crlf, m));
                } else if m + 1 == x.len() {
                    let prev = q[q.len() - 2];
                    assert(q.drop_last().last() == prev);
                    if prev.len() > 0 {
                        lemma_join_last(q.drop_last(), nl);
                        assert(ends_with_cr(prev));
                    } else if q.len() - 1 >= 2 {
                        assert(x == join(q.drop_last().drop_last(), nl) + nl + prev);
                        assert(x[m] == '\n');
                    } else {
                        assert(x == prev);
                    }
                } else if m == x.len() {
                } else {
                    assert(j[m + 1] == y[m + 1 - x.len() - 1]);
                    assert(has_char(y, '\n'));
                }
            }
        }
    }
}

/// Pieces joined by line feeds hold `"\r\n"` where a piece other than the
/// last ends with a carriage return.
pub proof fn lemma_join_crlf(q: Seq<Seq<char>>, k: int) -> (m: int)
    requires
        0 <= k < q.len() - 1,
        ends_with_cr(q[k]),
    ensures
        matches_at(join(q, lf_sep()), crlf_sep(), m),
    decreases q.len(),
{
    let nl = lf_sep();
    let crlf = crlf_sep();
    let x = join(q.drop_last(), nl);
    let j = join(q, nl);
    assert(j == x + nl + q.last());
    if k == q.len() - 2 {
        assert(q.drop_last().last() == q[k]);
        lemma_join_last(q.drop_last(), nl);
        let m = x.len() - 1;
        assert(j.subrange(m, m + 2) =~= crlf);
        m
    } else {
        assert(q.drop_last()[k] == q[k]);
        let m = lemma_join_crlf(q.drop_last(), k);
        assert(j.subrange(m, m + 2) =~= x.subrange(m, m + 2));
        m
    }
}

} // verus!
