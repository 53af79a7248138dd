//! Laws of the calculator: blanks or parentheses around an expression change
//! nothing, and the texts of a value lose only their commas where the
//! expression has none.
use vstd::prelude::*;

use crate::calculation::{
    all_digits, calculation, digits_end, evaluates_to, first_index, increment, is_blank, is_digit,
    is_unsigned_decimal, lemma_group_only_adds_commas, lemma_index_from, literal_significance,
    outcome, parse_additive, parse_additive_rest, parse_expression, parse_literal, parse_multiply,
    parse_multiply_rest, parse_power, parse_primary, parse_unary, reads_as, rounded_digits,
    rounding_of, skip_blank, spec_group, spec_precise, spec_round_decimal, split_dot, take_token,
    texts_from, unsigned_part, value_texts, without, zeros, Expr, Number,
};
use crate::text::{has_char, matches_at};

verus! {

/// Every character of `s` is a blank that the parser skips.
pub open spec fn all_blank(s: Seq<char>) -> bool {
    forall|i: int| 0 <= i < s.len() ==> is_blank(#[trigger] s[i])
}

/// A token of the parser: not empty, and no character of it is blank.
pub open spec fn solid(t: Seq<char>) -> bool {
    t.len() > 0 && forall|i: int| 0 <= i < t.len() ==> !is_blank(#[trigger] t[i])
}

/// The position in `s` that a position `p` of a padded text `a + s + w`
/// stands for, where `a` has `k` characters and `s` has `n`: the start of
/// `s` within or before it, its end within or after it.
pub open spec fn inner_pos(k: int, n: int, p: int) -> int {
    if p <= k {
        0
    } else if p >= k + n {
        n
    } else {
        p - k
    }
}

/// `q2` in the padded text stands for `q1`: at the same place in `s`, or
/// at the end of both.
pub open spec fn same_place(k: int, n: int, len2: int, q2: int, q1: int) -> bool {
    ||| q2 == k + q1 && 0 <= q1 <= n
    ||| q1 == n && q2 == len2
}

proof fn lemma_skip_pad(a: Seq<char>, s: Seq<char>, w: Seq<char>, p: int)
    requires
        all_blank(a),
        all_blank(w),
        0 <= p <= (a + s + w).len(),
    ensures
        ({
            let s2 = a + s + w;
            let q2 = skip_blank(s2, p);
            let q1 = skip_blank(s, inner_pos(a.len() as int, s.len() as int, p));
            &&& p <= q2 <= s2.len()
            &&& inner_pos(a.len() as int, s.len() as int, p) <= q1 <= s.len()
            &&& same_place(a.len() as int, s.len() as int, s2.len() as int, q2, q1)
            &&& q1 < s.len() ==> q2 == a.len() + q1
            &&& q1 == s.len() ==> q2 == s2.len()
        }),
    decreases (a + s + w).len() - p,
{
    let s2 = a + s + w;
    let k = a.len() as int;
    let n = s.len() as int;
    if p < s2.len() {
        if p < k {
            assert(s2[p] == a[p]);
            lemma_skip_pad(a, s, w, p + 1);
        } else if p < k + n {
            assert(s2[p] == s[p - k]);
            if is_blank(s[p - k]) {
                lemma_skip_pad(a, s, w, p + 1);
            }
        } else {
            assert(s2[p] == w[p - k - n]);
            lemma_skip_pad(a, s, w, p + 1);
        }
    }
}

proof fn lemma_match_pad(a: Seq<char>, s: Seq<char>, w: Seq<char>, q2: int, q1: int, t: Seq<char>)
    requires
        all_blank(w),
        solid(t),
        same_place(a.len() as int, s.len() as int, (a + s + w).len() as int, q2, q1),
    ensures
        matches_at(a + s + w, t, q2) == matches_at(s, t, q1),
{
    let s2 = a + s + w;
    let k = a.len() as int;
    let n = s.len() as int;
    if q2 == k + q1 && 0 <= q1 <= n {
        if q1 + t.len() <= n {
            assert(s2.subrange(q2, q2 + t.len()) =~= s.subrange(q1, q1 + t.len()));
        } else if matches_at(s2, t, q2) {
            let i = n - q1;
            assert(s2.subrange(q2, q2 + t.len())[i] == s2[k + n]);
            assert(s2[k + n] == w[0]);
            assert(!is_blank(t[i]));
        }
    }
}

proof fn lemma_take_pad(a: Seq<char>, s: Seq<char>, w: Seq<char>, p: int, t: Seq<char>)
    requires
        all_blank(a),
        all_blank(w),
        solid(t),
        0 <= p <= (a + s + w).len(),
    ensures
        ({
            let s2 = a + s + w;
            let p1 = inner_pos(a.len() as int, s.len() as int, p);
            let (b2, q2) = take_token(s2, p, t);
            let (b1, q1) = take_token(s, p1, t);
            &&& b2 == b1
            &&& p <= q2 <= s2.len()
            &&& p1 <= q1 <= s.len()
            &&& same_place(a.len() as int, s.len() as int, s2.len() as int, q2, q1)
            &&& b2 ==> q2 > p && q1 > p1
            &&& matches_at(s2, t, skip_blank(s2, p)) == matches_at(s, t, skip_blank(s, p1))
        }),
{
    lemma_skip_pad(a, s, w, p);
    let s2 = a + s + w;
    let k = a.len() as int;
    let n = s.len() as int;
    let p1 = inner_pos(k, n, p);
    let r2 = skip_blank(s2, p);
    let r1 = skip_blank(s, p1);
    lemma_match_pad(a, s, w, r2, r1, t);
    if matches_at(s, t, r1) {
        assert(r1 + t.len() <= n);
        assert(r1 < n);
    }
}

proof fn lemma_digits_pad(a: Seq<char>, s: Seq<char>, w: Seq<char>, x: int, commas: bool)
    requires
        all_blank(w),
        0 <= x <= s.len(),
    ensures
        digits_end(a + s + w, a.len() + x, commas) == a.len() + digits_end(s, x, commas),
        x <= digits_end(s, x, commas) <= s.len(),
    decreases s.len() - x,
{
    let s2 = a + s + w;
    let k = a.len() as int;
    let n = s.len() as int;
    if x < n {
        assert(s2[k + x] == s[x]);
        lemma_digits_pad(a, s, w, x + 1, commas);
    } else if k + n < s2.len() {
        assert(s2[k + n] == w[0]);
        assert(is_blank(w[0]));
    }
}

/// The literal ranges of an expression moved `k` places on.
pub open spec fn shift_expr(e: Expr, k: int) -> Expr
    decreases e,
{
    match e {
        Expr::Number(start, end) => Expr::Number((start + k) as usize, (end + k) as usize),
        Expr::Neg(x) => Expr::Neg(Box::new(shift_expr(*x, k))),
        Expr::Add(x, y) => Expr::Add(Box::new(shift_expr(*x, k)), Box::new(shift_expr(*y, k))),
        Expr::Sub(x, y) => Expr::Sub(Box::new(shift_expr(*x, k)), Box::new(shift_expr(*y, k))),
        Expr::Mul(x, y) => Expr::Mul(Box::new(shift_expr(*x, k)), Box::new(shift_expr(*y, k))),
        Expr::Div(x, y) => Expr::Div(Box::new(shift_expr(*x, k)), Box::new(shift_expr(*y, k))),
        Expr::Pow(x, y) => Expr::Pow(Box::new(shift_expr(*x, k)), Box::new(shift_expr(*y, k))),
    }
}

/// Every literal range of `e` lies within `n` characters.
pub open spec fn ranges_within(e: Expr, n: int) -> bool
    decreases e,
{
    match e {
        Expr::Number(start, end) => start <= end <= n,
        Expr::Neg(x) => ranges_within(*x, n),
        Expr::Add(x, y) => ranges_within(*x, n) && ranges_within(*y, n),
        Expr::Sub(x, y) => ranges_within(*x, n) && ranges_within(*y, n),
        Expr::Mul(x, y) => ranges_within(*x, n) && ranges_within(*y, n),
        Expr::Div(x, y) => ranges_within(*x, n) && ranges_within(*y, n),
        Expr::Pow(x, y) => ranges_within(*x, n) && ranges_within(*y, n),
    }
}

/// A parse result of the padded text stands for one of `s`: both fail, or
/// both give the same expression (moved past the padding), the same
/// significance and positions that stand for each other, after the start.
pub open spec fn parse_pad(
    k: int,
    n: int,
    len2: int,
    p2: int,
    o2: Option<(Expr, int, int)>,
    o1: Option<(Expr, int, int)>,
) -> bool {
    match (o2, o1) {
        (None, None) => true,
        (Some((e2, q2, g2)), Some((e1, q1, g1))) => {
            &&& e2 == shift_expr(e1, k)
            &&& ranges_within(e1, n)
            &&& g2 == g1
            &&& p2 <= q2 <= len2
            &&& inner_pos(k, n, p2) <= q1 <= n
            &&& same_place(k, n, len2, q2, q1)
            &&& inner_pos(k, n, q2) == q1
        },
        _ => false,
    }
}

proof fn lemma_literal_pad(a: Seq<char>, s: Seq<char>, w: Seq<char>, p: int, sig: int)
    requires
        all_blank(a),
        all_blank(w),
        0 <= p <= (a + s + w).len(),
        (a + s + w).len() <= usize::MAX,
    ensures
        parse_pad(
            a.len() as int,
            s.len() as int,
            (a + s + w).len() as int,
            p,
            parse_literal(a + s + w, p, sig),
            parse_literal(s, inner_pos(a.len() as int, s.len() as int, p), sig),
        ),
{
    lemma_skip_pad(a, s, w, p);
    let s2 = a + s + w;
    let k = a.len() as int;
    let n = s.len() as int;
    let p1 = inner_pos(k, n, p);
    let st2 = skip_blank(s2, p);
    let st1 = skip_blank(s, p1);
    if st1 == n {
        assert(st2 == s2.len());
        assert(digits_end(s2, st2, true) == st2);
        assert(digits_end(s, st1, true) == st1);
        assert(s2.subrange(st2, st2) =~= s.subrange(st1, st1));
    } else {
        lemma_digits_pad(a, s, w, st1, true);
        let e1 = digits_end(s, st1, true);
        let e2 = digits_end(s2, st2, true);
        assert(e2 == k + e1);
        assert(s2.subrange(st2, e2) =~= s.subrange(st1, e1));
        if e1 < n {
            assert(s2[e2] == s[e1]);
            if s[e1] == '.' {
                lemma_digits_pad(a, s, w, e1 + 1, false);
                let f1 = digits_end(s, e1 + 1, false);
                let f2 = digits_end(s2, e2 + 1, false);
                assert(f2 == k + f1);
                assert(s2.subrange(st2, f2) =~= s.subrange(st1, f1));
                assert(literal_significance(s2, st2, e2, f2) == literal_significance(s, st1, e1, f1));
            } else {
                assert(literal_significance(s2, st2, e2, e2) == literal_significance(s, st1, e1, e1));
            }
        } else {
            if e2 < s2.len() {
                assert(s2[e2] == w[0]);
                assert(is_blank(w[0]));
            }
            assert(literal_significance(s2, st2, e2, e2) == literal_significance(s, st1, e1, e1));
        }
    }
}

/// `s2` is `s` with `k` blanks before it and only blanks after it, and
/// its positions fit in a `usize`.
#[verifier::opaque]
pub open spec fn padded(s2: Seq<char>, s: Seq<char>, k: int) -> bool {
    &&& 0 <= k
    &&& k + s.len() <= s2.len() <= usize::MAX
    &&& s2.subrange(k, k + s.len()) == s
    &&& all_blank(s2.subrange(0, k))
    &&& all_blank(s2.subrange(k + s.len(), s2.len() as int))
}

/// The padding of a padded text.
proof fn lemma_padded_parts(s2: Seq<char>, s: Seq<char>, k: int) -> (parts: (Seq<char>, Seq<char>))
    requires
        padded(s2, s, k),
    ensures
        s2 == parts.0 + s + parts.1,
        parts.0.len() == k,
        all_blank(parts.0),
        all_blank(parts.1),
        s2.len() <= usize::MAX,
        k + s.len() <= s2.len(),
        k >= 0,
{
    reveal(padded);
    let a = s2.subrange(0, k);
    let w = s2.subrange(k + s.len(), s2.len() as int);
    assert(s2 =~= a + s + w);
    (a, w)
}

proof fn lemma_take_padded(s2: Seq<char>, s: Seq<char>, k: int, p: int, t: Seq<char>)
    requires
        padded(s2, s, k),
        solid(t),
        0 <= p <= s2.len(),
    ensures
        ({
            let p1 = inner_pos(k, s.len() as int, p);
            let (b2, q2) = take_token(s2, p, t);
            let (b1, q1) = take_token(s, p1, t);
            &&& b2 == b1
            &&& p <= q2 <= s2.len()
            &&& p1 <= q1 <= s.len()
            &&& same_place(k, s.len() as int, s2.len() as int, q2, q1)
            &&& b2 ==> q2 > p && q1 > p1
            &&& matches_at(s2, t, skip_blank(s2, p)) == matches_at(s, t, skip_blank(s, p1))
            &&& same_place(k, s.len() as int, s2.len() as int, skip_blank(s2, p), skip_blank(s, p1))
            &&& inner_pos(k, s.len() as int, q2) == q1
            &&& inner_pos(k, s.len() as int, skip_blank(s2, p)) == skip_blank(s, p1)
            &&& (skip_blank(s2, p) == s2.len() <==> skip_blank(s, p1) == s.len())
            &&& p <= skip_blank(s2, p) <= s2.len()
            &&& p1 <= skip_blank(s, p1) <= s.len()
        }),
{
    let (a, w) = lemma_padded_parts(s2, s, k);
    lemma_take_pad(a, s, w, p, t);
    lemma_skip_pad(a, s, w, p);
}

proof fn lemma_literal_padded(s2: Seq<char>, s: Seq<char>, k: int, p: int, sig: int)
    requires
        padded(s2, s, k),
        0 <= p <= s2.len(),
    ensures
        parse_pad(
            k,
            s.len() as int,
            s2.len() as int,
            p,
            parse_literal(s2, p, sig),
            parse_literal(s, inner_pos(k, s.len() as int, p), sig),
        ),
{
    let (a, w) = lemma_padded_parts(s2, s, k);
    lemma_literal_pad(a, s, w, p, sig);
}

proof fn lemma_tokens_solid()
    ensures
        solid(seq!['(']),
        solid(seq![')']),
        solid(seq!['*', '*']),
        solid(seq!['^']),
        solid(seq!['+']),
        solid(seq!['-']),
        solid(seq!['*']),
        solid(seq!['x']),
        solid(seq!['/']),
{
    assert(seq!['('][0] == '(');
    assert(seq![')'][0] == ')');
    assert(seq!['*', '*'][0] == '*' && seq!['*', '*'][1] == '*');
    assert(seq!['^'][0] == '^');
    assert(seq!['+'][0] == '+');
    assert(seq!['-'][0] == '-');
    assert(seq!['*'][0] == '*');
    assert(seq!['x'][0] == 'x');
    assert(seq!['/'][0] == '/');
}

#[verifier::rlimit(100)]
#[verifier::spinoff_prover]
proof fn lemma_primary_pad(s2: Seq<char>, s: Seq<char>, k: int, p: int, depth: int, sig: int)
    requires
        padded(s2, s, k),
        0 <= p <= s2.len(),
    ensures
        parse_pad(
            k,
            s.len() as int,
            s2.len() as int,
            p,
            parse_primary(s2, p, depth, sig),
            parse_primary(s, inner_pos(k, s.len() as int, p), depth, sig),
        ),
    decreases s2.len() - p, 0int,
{
    lemma_tokens_solid();
    lemma_take_padded(s2, s, k, p, seq!['(']);
    let (open, p1) = take_token(s2, p, seq!['(']);
    if open {
        lemma_additive_pad(s2, s, k, p1, depth, sig);
        match parse_additive(s2, p1, depth, sig) {
            None => {},
            Some((e, q, g)) => {
                lemma_take_padded(s2, s, k, q, seq![')']);
            },
        }
    } else {
        lemma_literal_padded(s2, s, k, p1, sig);
    }
}

#[verifier::rlimit(100)]
#[verifier::spinoff_prover]
proof fn lemma_power_pad(s2: Seq<char>, s: Seq<char>, k: int, p: int, depth: int, sig: int)
    requires
        padded(s2, s, k),
        0 <= p <= s2.len(),
    ensures
        parse_pad(
            k,
            s.len() as int,
            s2.len() as int,
            p,
            parse_power(s2, p, depth, sig),
            parse_power(s, inner_pos(k, s.len() as int, p), depth, sig),
        ),
    decreases s2.len() - p, 1int,
{
    lemma_tokens_solid();
    lemma_primary_pad(s2, s, k, p, depth, sig);
    match parse_primary(s2, p, depth, sig) {
        None => {},
        Some((base, q, g)) => {
            lemma_take_padded(s2, s, k, q, seq!['*', '*']);
            let (stars, q1) = take_token(s2, q, seq!['*', '*']);
            lemma_take_padded(s2, s, k, q1, seq!['^']);
            let (caret, q2) = take_token(s2, q1, seq!['^']);
            if stars || caret {
                let r = if stars {
                    q1
                } else {
                    q2
                };
                lemma_unary_pad(s2, s, k, r, depth, g);
            }
        },
    }
}

#[verifier::rlimit(100)]
#[verifier::spinoff_prover]
proof fn lemma_unary_pad(s2: Seq<char>, s: Seq<char>, k: int, p: int, depth: int, sig: int)
    requires
        padded(s2, s, k),
        0 <= p <= s2.len(),
    ensures
        parse_pad(
            k,
            s.len() as int,
            s2.len() as int,
            p,
            parse_unary(s2, p, depth, sig),
            parse_unary(s, inner_pos(k, s.len() as int, p), depth, sig),
        ),
    decreases s2.len() - p, 2int,
{
    lemma_tokens_solid();
    if depth < 128 {
        lemma_take_padded(s2, s, k, p, seq!['+']);
        let (plus, p1) = take_token(s2, p, seq!['+']);
        if plus {
            lemma_unary_pad(s2, s, k, p1, depth + 1, sig);
        } else {
            lemma_take_padded(s2, s, k, p1, seq!['-']);
            let (minus, p2) = take_token(s2, p1, seq!['-']);
            if minus {
                lemma_unary_pad(s2, s, k, p2, depth + 1, sig);
            } else {
                lemma_power_pad(s2, s, k, p2, depth + 1, sig);
            }
        }
    }
}

#[verifier::rlimit(100)]
#[verifier::spinoff_prover]
proof fn lemma_multiply_rest_pad(
    s2: Seq<char>,
    s: Seq<char>,
    k: int,
    acc: Expr,
    p: int,
    depth: int,
    sig: int,
)
    requires
        padded(s2, s, k),
        0 <= p <= s2.len(),
        ranges_within(acc, s.len() as int),
    ensures
        parse_pad(
            k,
            s.len() as int,
            s2.len() as int,
            p,
            parse_multiply_rest(s2, shift_expr(acc, k), p, depth, sig),
            parse_multiply_rest(s, acc, inner_pos(k, s.len() as int, p), depth, sig),
        ),
    decreases s2.len() - p, 3int,
{
    lemma_tokens_solid();
    lemma_take_padded(s2, s, k, p, seq!['*', '*']);
    let p0 = skip_blank(s2, p);
    if !matches_at(s2, seq!['*', '*'], p0) {
        lemma_take_padded(s2, s, k, p0, seq!['*']);
        let (star, p1) = take_token(s2, p0, seq!['*']);
        lemma_take_padded(s2, s, k, p1, seq!['x']);
        let (cross, p2) = take_token(s2, p1, seq!['x']);
        lemma_take_padded(s2, s, k, p2, seq!['/']);
        let (slash, p3) = take_token(s2, p2, seq!['/']);
        let multiplies = star || cross;
        if multiplies || slash {
            let q = if star {
                p1
            } else if cross {
                p2
            } else {
                p3
            };
            lemma_unary_pad(s2, s, k, q, depth, sig);
            let r2 = parse_unary(s2, q, depth, sig);
            let r1 = parse_unary(s, inner_pos(k, s.len() as int, q), depth, sig);
            match (r2, r1) {
                (Some((e2, q2, g2)), Some((e1, q1, g1))) => {
                    let next1 = if multiplies {
                        Expr::Mul(Box::new(acc), Box::new(e1))
                    } else {
                        Expr::Div(Box::new(acc), Box::new(e1))
                    };
                    assert(ranges_within(next1, s.len() as int));
                    lemma_multiply_rest_pad(s2, s, k, next1, q2, depth, g1);
                },
                _ => {},
            }
        }
    }
}

#[verifier::rlimit(100)]
#[verifier::spinoff_prover]
proof fn lemma_multiply_pad(s2: Seq<char>, s: Seq<char>, k: int, p: int, depth: int, sig: int)
    requires
        padded(s2, s, k),
        0 <= p <= s2.len(),
    ensures
        parse_pad(
            k,
            s.len() as int,
            s2.len() as int,
            p,
            parse_multiply(s2, p, depth, sig),
            parse_multiply(s, inner_pos(k, s.len() as int, p), depth, sig),
        ),
    decreases s2.len() - p, 4int,
{
    lemma_unary_pad(s2, s, k, p, depth, sig);
    let r2 = parse_unary(s2, p, depth, sig);
    let r1 = parse_unary(s, inner_pos(k, s.len() as int, p), depth, sig);
    match (r2, r1) {
        (Some((e2, q2, g2)), Some((e1, q1, g1))) => {
            lemma_multiply_rest_pad(s2, s, k, e1, q2, depth, g1);
        },
        _ => {},
    }
}

#[verifier::rlimit(100)]
#[verifier::spinoff_prover]
proof fn lemma_additive_rest_pad(
    s2: Seq<char>,
    s: Seq<char>,
    k: int,
    acc: Expr,
    p: int,
    depth: int,
    sig: int,
)
    requires
        padded(s2, s, k),
        0 <= p <= s2.len(),
        ranges_within(acc, s.len() as int),
    ensures
        parse_pad(
            k,
            s.len() as int,
            s2.len() as int,
            p,
            parse_additive_rest(s2, shift_expr(acc, k), p, depth, sig),
            parse_additive_rest(s, acc, inner_pos(k, s.len() as int, p), depth, sig),
        ),
    decreases s2.len() - p, 5int,
{
    lemma_tokens_solid();
    lemma_take_padded(s2, s, k, p, seq!['+']);
    let (plus, p1) = take_token(s2, p, seq!['+']);
    lemma_take_padded(s2, s, k, p1, seq!['-']);
    let (minus, p2) = take_token(s2, p1, seq!['-']);
    if plus || minus {
        let q = if plus {
            p1
        } else {
            p2
        };
        lemma_multiply_pad(s2, s, k, q, depth, sig);
        let r2 = parse_multiply(s2, q, depth, sig);
        let r1 = parse_multiply(s, inner_pos(k, s.len() as int, q), depth, sig);
        match (r2, r1) {
            (Some((e2, q2, g2)), Some((e1, q1, g1))) => {
                let next1 = if plus {
                    Expr::Add(Box::new(acc), Box::new(e1))
                } else {
                    Expr::Sub(Box::new(acc), Box::new(e1))
                };
                assert(ranges_within(next1, s.len() as int));
                lemma_additive_rest_pad(s2, s, k, next1, q2, depth, g1);
            },
            _ => {},
        }
    }
}

#[verifier::rlimit(100)]
#[verifier::spinoff_prover]
proof fn lemma_additive_pad(s2: Seq<char>, s: Seq<char>, k: int, p: int, depth: int, sig: int)
    requires
        padded(s2, s, k),
        0 <= p <= s2.len(),
    ensures
        parse_pad(
            k,
            s.len() as int,
            s2.len() as int,
            p,
            parse_additive(s2, p, depth, sig),
            parse_additive(s, inner_pos(k, s.len() as int, p), depth, sig),
        ),
    decreases s2.len() - p, 6int,
{
    lemma_multiply_pad(s2, s, k, p, depth, sig);
    let r2 = parse_multiply(s2, p, depth, sig);
    let r1 = parse_multiply(s, inner_pos(k, s.len() as int, p), depth, sig);
    match (r2, r1) {
        (Some((e2, q2, g2)), Some((e1, q1, g1))) => {
            lemma_additive_rest_pad(s2, s, k, e1, q2, depth, g1);
        },
        _ => {},
    }
}

proof fn lemma_parse_expression_padded(s2: Seq<char>, s: Seq<char>, k: int)
    requires
        padded(s2, s, k),
    ensures
        match parse_expression(s) {
            None => parse_expression(s2) is None,
            Some((e, g)) => parse_expression(s2) == Some((shift_expr(e, k), g)) && ranges_within(
                e,
                s.len() as int,
            ),
        },
{
    let (a, w) = lemma_padded_parts(s2, s, k);
    lemma_tokens_solid();
    lemma_additive_pad(s2, s, k, 0, 0, 0);
    match (parse_additive(s2, 0, 0, 0), parse_additive(s, 0, 0, 0)) {
        (Some((e2, q2, g2)), Some((e1, q1, g1))) => {
            lemma_take_padded(s2, s, k, q2, seq!['(']);
        },
        _ => {},
    }
}

proof fn lemma_has_char_padded(s2: Seq<char>, s: Seq<char>, k: int, c: char)
    requires
        padded(s2, s, k),
        !is_blank(c),
    ensures
        has_char(s2, c) == has_char(s, c),
{
    let (a, w) = lemma_padded_parts(s2, s, k);
    if has_char(s2, c) {
        let i = choose|i: int| 0 <= i < s2.len() && s2[i] == c;
        if i < k {
            assert(s2[i] == a[i]);
        } else if i < k + s.len() {
            assert(s2[i] == s[i - k]);
        } else {
            assert(s2[i] == w[i - k - s.len()]);
        }
    }
    if has_char(s, c) {
        let i = choose|i: int| 0 <= i < s.len() && s[i] == c;
        assert(s2[k + i] == s[i]);
    }
}

proof fn lemma_texts_same<N: Number>(s2: Seq<char>, s: Seq<char>)
    requires
        has_char(s2, '.') == has_char(s, '.'),
        has_char(s2, ',') == has_char(s, ','),
    ensures
        forall|g: int, value: N, r: Option<(Seq<char>, Seq<char>)>|
            #[trigger] value_texts::<N>(s2, g, value, r) == value_texts::<N>(s, g, value, r),
{
    assert forall|x: Seq<char>| #[trigger] spec_group(x, s2) == spec_group(x, s) by {}
    assert forall|
        g: int,
        zero: bool,
        sf: bool,
        neg: bool,
        dec: Seq<char>,
        sci: Seq<char>,
        r: Option<(Seq<char>, Seq<char>)>,
    | #[trigger] texts_from::<N>(s2, g, zero, sf, neg, dec, sci, r) == texts_from::<N>(
        s,
        g,
        zero,
        sf,
        neg,
        dec,
        sci,
        r,
    ) by {}
    assert forall|g: int, value: N, r: Option<(Seq<char>, Seq<char>)>|
        #[trigger] value_texts::<N>(s2, g, value, r) == value_texts::<N>(s, g, value, r) by {}
}

/// `s2` holds `s` from position `k` on, and its positions fit in a `usize`.
pub open spec fn embeds(s2: Seq<char>, s: Seq<char>, k: int) -> bool {
    &&& 0 <= k
    &&& k + s.len() <= s2.len() <= usize::MAX
    &&& s2.subrange(k, k + s.len()) == s
}

proof fn lemma_literal_evaluates_moved<N: Number>(
    s2: Seq<char>,
    s: Seq<char>,
    k: int,
    start: usize,
    end: usize,
)
    requires
        embeds(s2, s, k),
        start <= end <= s.len(),
    ensures
        forall|v: Option<N>|
            #[trigger] evaluates_to::<N>(s2, shift_expr(Expr::Number(start, end), k), v)
                == evaluates_to::<N>(s, Expr::Number(start, end), v),
{
    let st = start as int;
    let en = end as int;
    let st2 = (st + k) as usize;
    let en2 = (en + k) as usize;
    assert(st2 as int == st + k && en2 as int == en + k);
    assert(shift_expr(Expr::Number(start, end), k) == Expr::Number(st2, en2));
    let text2 = without(s2.subrange(st2 as int, en2 as int), ',');
    let text1 = without(s.subrange(st, en), ',');
    assert(s2.subrange(st2 as int, en2 as int) =~= s.subrange(st, en));
    assert(text2 == text1);
    assert forall|v: Option<N>| #[trigger] evaluates_to::<N>(s2, Expr::Number(st2, en2), v)
        == evaluates_to::<N>(s, Expr::Number(start, end), v) by {
        if evaluates_to::<N>(s2, Expr::Number(st2, en2), v) {
            let t = choose|t: &str| #[trigger] call_ensures(N::parse_decimal, (t,), v) && t@ == text2;
            assert(call_ensures(N::parse_decimal, (t,), v) && t@ == text1);
        }
        if evaluates_to::<N>(s, Expr::Number(start, end), v) {
            let t = choose|t: &str| #[trigger] call_ensures(N::parse_decimal, (t,), v) && t@ == text1;
            assert(call_ensures(N::parse_decimal, (t,), v) && t@ == text2);
        }
    }
}

/// Evaluating `a1` over `i1` and `a2` over `i2` admits the same outcomes.
pub open spec fn same_outcomes<N: Number>(i1: Seq<char>, a1: Expr, i2: Seq<char>, a2: Expr) -> bool {
    forall|v: Option<N>|
        #![trigger evaluates_to::<N>(i1, a1, v)]
        #![trigger evaluates_to::<N>(i2, a2, v)]
        evaluates_to::<N>(i1, a1, v) == evaluates_to::<N>(i2, a2, v)
}

pub(crate) proof fn lemma_neg_implies<N: Number>(i1: Seq<char>, a1: Expr, i2: Seq<char>, a2: Expr, v: Option<N>)
    requires
        same_outcomes::<N>(i1, a1, i2, a2),
        evaluates_to::<N>(i1, Expr::Neg(Box::new(a1)), v),
    ensures
        evaluates_to::<N>(i2, Expr::Neg(Box::new(a2)), v),
{
    let x0 = choose|x: Option<N>|
        #[trigger] outcome::<N>(x) && evaluates_to::<N>(i1, a1, x) && match x {
            None => v is None,
            Some(xv) => v matches Some(r) && call_ensures(N::neg, (&xv,), r),
        };
    assert(evaluates_to::<N>(i2, a2, x0));
    assert(outcome::<N>(x0));
}

pub(crate) proof fn lemma_add_implies<N: Number>(
    i1: Seq<char>,
    a1: Expr,
    b1: Expr,
    i2: Seq<char>,
    a2: Expr,
    b2: Expr,
    v: Option<N>,
)
    requires
        same_outcomes::<N>(i1, a1, i2, a2),
        same_outcomes::<N>(i1, b1, i2, b2),
        evaluates_to::<N>(i1, Expr::Add(Box::new(a1), Box::new(b1)), v),
    ensures
        evaluates_to::<N>(i2, Expr::Add(Box::new(a2), Box::new(b2)), v),
{
    let x0 = choose|x: Option<N>|
        #[trigger] outcome::<N>(x) && evaluates_to::<N>(i1, a1, x) && match x {
            None => v is None,
            Some(xv) => exists|y: Option<N>|
                #[trigger] outcome::<N>(y) && evaluates_to::<N>(i1, b1, y) && match y {
                    None => v is None,
                    Some(yv) => v matches Some(r) && call_ensures(N::add, (&xv, &yv), r),
                },
        };
    assert(evaluates_to::<N>(i2, a2, x0));
    assert(outcome::<N>(x0));
    if let Some(xv) = x0 {
        let y0 = choose|y: Option<N>|
            #[trigger] outcome::<N>(y) && evaluates_to::<N>(i1, b1, y) && match y {
                None => v is None,
                Some(yv) => v matches Some(r) && call_ensures(N::add, (&xv, &yv), r),
            };
        assert(evaluates_to::<N>(i2, b2, y0));
        assert(outcome::<N>(y0));
    }
}

pub(crate) proof fn lemma_sub_implies<N: Number>(
    i1: Seq<char>,
    a1: Expr,
    b1: Expr,
    i2: Seq<char>,
    a2: Expr,
    b2: Expr,
    v: Option<N>,
)
    requires
        same_outcomes::<N>(i1, a1, i2, a2),
        same_outcomes::<N>(i1, b1, i2, b2),
        evaluates_to::<N>(i1, Expr::Sub(Box::new(a1), Box::new(b1)), v),
    ensures
        evaluates_to::<N>(i2, Expr::Sub(Box::new(a2), Box::new(b2)), v),
{
    let x0 = choose|x: Option<N>|
        #[trigger] outcome::<N>(x) && evaluates_to::<N>(i1, a1, x) && match x {
            None => v is None,
            Some(xv) => exists|y: Option<N>|
                #[trigger] outcome::<N>(y) && evaluates_to::<N>(i1, b1, y) && match y {
                    None => v is None,
                    Some(yv) => v matches Some(r) && call_ensures(N::sub, (&xv, &yv), r),
                },
        };
    assert(evaluates_to::<N>(i2, a2, x0));
    assert(outcome::<N>(x0));
    if let Some(xv) = x0 {
        let y0 = choose|y: Option<N>|
            #[trigger] outcome::<N>(y) && evaluates_to::<N>(i1, b1, y) && match y {
                None => v is None,
                Some(yv) => v matches Some(r) && call_ensures(N::sub, (&xv, &yv), r),
            };
        assert(evaluates_to::<N>(i2, b2, y0));
        assert(outcome::<N>(y0));
    }
}

pub(crate) proof fn lemma_mul_implies<N: Number>(
    i1: Seq<char>,
    a1: Expr,
    b1: Expr,
    i2: Seq<char>,
    a2: Expr,
    b2: Expr,
    v: Option<N>,
)
    requires
        same_outcomes::<N>(i1, a1, i2, a2),
        same_outcomes::<N>(i1, b1, i2, b2),
        evaluates_to::<N>(i1, Expr::Mul(Box::new(a1), Box::new(b1)), v),
    ensures
        evaluates_to::<N>(i2, Expr::Mul(Box::new(a2), Box::new(b2)), v),
{
    let x0 = choose|x: Option<N>|
        #[trigger] outcome::<N>(x) && evaluates_to::<N>(i1, a1, x) && match x {
            None => v is None,
            Some(xv) => exists|y: Option<N>|
                #[trigger] outcome::<N>(y) && evaluates_to::<N>(i1, b1, y) && match y {
                    None => v is None,
                    Some(yv) => v matches Some(r) && call_ensures(N::mul, (&xv, &yv), r),
                },
        };
    assert(evaluates_to::<N>(i2, a2, x0));
    assert(outcome::<N>(x0));
    if let Some(xv) = x0 {
        let y0 = choose|y: Option<N>|
            #[trigger] outcome::<N>(y) && evaluates_to::<N>(i1, b1, y) && match y {
                None => v is None,
                Some(yv) => v matches Some(r) && call_ensures(N::mul, (&xv, &yv), r),
            };
        assert(evaluates_to::<N>(i2, b2, y0));
        assert(outcome::<N>(y0));
    }
}

pub(crate) proof fn lemma_pow_implies<N: Number>(
    i1: Seq<char>,
    a1: Expr,
    b1: Expr,
    i2: Seq<char>,
    a2: Expr,
    b2: Expr,
    v: Option<N>,
)
    requires
        same_outcomes::<N>(i1, a1, i2, a2),
        same_outcomes::<N>(i1, b1, i2, b2),
        evaluates_to::<N>(i1, Expr::Pow(Box::new(a1), Box::new(b1)), v),
    ensures
        evaluates_to::<N>(i2, Expr::Pow(Box::new(a2), Box::new(b2)), v),
{
    let x0 = choose|x: Option<N>|
        #[trigger] outcome::<N>(x) && evaluates_to::<N>(i1, a1, x) && match x {
            None => v is None,
            Some(xv) => exists|y: Option<N>|
                #[trigger] outcome::<N>(y) && evaluates_to::<N>(i1, b1, y) && match y {
                    None => v is None,
                    Some(yv) => v matches Some(r) && call_ensures(N::pow, (&xv, &yv), r),
                },
        };
    assert(evaluates_to::<N>(i2, a2, x0));
    assert(outcome::<N>(x0));
    if let Some(xv) = x0 {
        let y0 = choose|y: Option<N>|
            #[trigger] outcome::<N>(y) && evaluates_to::<N>(i1, b1, y) && match y {
                None => v is None,
                Some(yv) => v matches Some(r) && call_ensures(N::pow, (&xv, &yv), r),
            };
        assert(evaluates_to::<N>(i2, b2, y0));
        assert(outcome::<N>(y0));
    }
}

pub(crate) proof fn lemma_div_implies<N: Number>(
    i1: Seq<char>,
    a1: Expr,
    b1: Expr,
    i2: Seq<char>,
    a2: Expr,
    b2: Expr,
    v: Option<N>,
)
    requires
        same_outcomes::<N>(i1, a1, i2, a2),
        same_outcomes::<N>(i1, b1, i2, b2),
        evaluates_to::<N>(i1, Expr::Div(Box::new(a1), Box::new(b1)), v),
    ensures
        evaluates_to::<N>(i2, Expr::Div(Box::new(a2), Box::new(b2)), v),
{
    let x0 = choose|x: Option<N>|
        #[trigger] outcome::<N>(x) && evaluates_to::<N>(i1, a1, x) && match x {
            None => v is None,
            Some(xv) => exists|y: Option<N>|
                #[trigger] outcome::<N>(y) && evaluates_to::<N>(i1, b1, y) && match y {
                    None => v is None,
                    Some(yv) => exists|zero: bool|
                        #[trigger] call_ensures(N::is_zero, (&yv,), zero) && if zero {
                            v is None
                        } else {
                            v matches Some(r) && call_ensures(N::div, (&xv, &yv), r)
                        },
                },
        };
    assert(evaluates_to::<N>(i2, a2, x0));
    assert(outcome::<N>(x0));
    if let Some(xv) = x0 {
        let y0 = choose|y: Option<N>|
            #[trigger] outcome::<N>(y) && evaluates_to::<N>(i1, b1, y) && match y {
                None => v is None,
                Some(yv) => exists|zero: bool|
                    #[trigger] call_ensures(N::is_zero, (&yv,), zero) && if zero {
                        v is None
                    } else {
                        v matches Some(r) && call_ensures(N::div, (&xv, &yv), r)
                    },
            };
        assert(evaluates_to::<N>(i2, b2, y0));
        assert(outcome::<N>(y0));
    }
}

proof fn lemma_evaluates_moved<N: Number>(s2: Seq<char>, s: Seq<char>, k: int, e: Expr)
    requires
        embeds(s2, s, k),
        ranges_within(e, s.len() as int),
    ensures
        forall|v: Option<N>|
            #[trigger] evaluates_to::<N>(s2, shift_expr(e, k), v) == evaluates_to::<N>(s, e, v),
    decreases e,
{
    match e {
        Expr::Number(start, end) => {
            lemma_literal_evaluates_moved::<N>(s2, s, k, start, end);
            assert(e == Expr::Number(start, end));
            assert forall|v: Option<N>| #[trigger] evaluates_to::<N>(s2, shift_expr(e, k), v)
                == evaluates_to::<N>(s, e, v) by {
                assert(evaluates_to::<N>(s2, shift_expr(Expr::Number(start, end), k), v)
                    == evaluates_to::<N>(s, Expr::Number(start, end), v));
            }
        },
        Expr::Neg(x) => {
            lemma_evaluates_moved::<N>(s2, s, k, *x);
            let xs = shift_expr(*x, k);
            assert(shift_expr(e, k) == Expr::Neg(Box::new(xs)));
            assert(same_outcomes::<N>(s2, xs, s, *x));
            assert(same_outcomes::<N>(s, *x, s2, xs));
            assert forall|v: Option<N>| #[trigger] evaluates_to::<N>(s2, shift_expr(e, k), v)
                == evaluates_to::<N>(s, e, v) by {
                if evaluates_to::<N>(s2, shift_expr(e, k), v) {
                    lemma_neg_implies::<N>(s2, xs, s, *x, v);
                }
                if evaluates_to::<N>(s, e, v) {
                    lemma_neg_implies::<N>(s, *x, s2, xs, v);
                }
            }
        },
        Expr::Add(x, y) => {
            lemma_evaluates_moved::<N>(s2, s, k, *x);
            lemma_evaluates_moved::<N>(s2, s, k, *y);
            let xs = shift_expr(*x, k);
            let ys = shift_expr(*y, k);
            assert(shift_expr(e, k) == Expr::Add(Box::new(xs), Box::new(ys)));
            assert(same_outcomes::<N>(s2, xs, s, *x) && same_outcomes::<N>(s, *x, s2, xs));
            assert(same_outcomes::<N>(s2, ys, s, *y) && same_outcomes::<N>(s, *y, s2, ys));
            assert forall|v: Option<N>| #[trigger] evaluates_to::<N>(s2, shift_expr(e, k), v)
                == evaluates_to::<N>(s, e, v) by {
                if evaluates_to::<N>(s2, shift_expr(e, k), v) {
                    lemma_add_implies::<N>(s2, xs, ys, s, *x, *y, v);
                }
                if evaluates_to::<N>(s, e, v) {
                    lemma_add_implies::<N>(s, *x, *y, s2, xs, ys, v);
                }
            }
        },
        Expr::Sub(x, y) => {
            lemma_evaluates_moved::<N>(s2, s, k, *x);
            lemma_evaluates_moved::<N>(s2, s, k, *y);
            let xs = shift_expr(*x, k);
            let ys = shift_expr(*y, k);
            assert(shift_expr(e, k) == Expr::Sub(Box::new(xs), Box::new(ys)));
            assert(same_outcomes::<N>(s2, xs, s, *x) && same_outcomes::<N>(s, *x, s2, xs));
            assert(same_outcomes::<N>(s2, ys, s, *y) && same_outcomes::<N>(s, *y, s2, ys));
            assert forall|v: Option<N>| #[trigger] evaluates_to::<N>(s2, shift_expr(e, k), v)
                == evaluates_to::<N>(s, e, v) by {
                if evaluates_to::<N>(s2, shift_expr(e, k), v) {
                    lemma_sub_implies::<N>(s2, xs, ys, s, *x, *y, v);
                }
                if evaluates_to::<N>(s, e, v) {
                    lemma_sub_implies::<N>(s, *x, *y, s2, xs, ys, v);
                }
            }
        },
        Expr::Mul(x, y) => {
            lemma_evaluates_moved::<N>(s2, s, k, *x);
            lemma_evaluates_moved::<N>(s2, s, k, *y);
            let xs = shift_expr(*x, k);
            let ys = shift_expr(*y, k);
            assert(shift_expr(e, k) == Expr::Mul(Box::new(xs), Box::new(ys)));
            assert(same_outcomes::<N>(s2, xs, s, *x) && same_outcomes::<N>(s, *x, s2, xs));
            assert(same_outcomes::<N>(s2, ys, s, *y) && same_outcomes::<N>(s, *y, s2, ys));
            assert forall|v: Option<N>| #[trigger] evaluates_to::<N>(s2, shift_expr(e, k), v)
                == evaluates_to::<N>(s, e, v) by {
                if evaluates_to::<N>(s2, shift_expr(e, k), v) {
                    lemma_mul_implies::<N>(s2, xs, ys, s, *x, *y, v);
                }
                if evaluates_to::<N>(s, e, v) {
                    lemma_mul_implies::<N>(s, *x, *y, s2, xs, ys, v);
                }
            }
        },
        Expr::Div(x, y) => {
            lemma_evaluates_moved::<N>(s2, s, k, *x);
            lemma_evaluates_moved::<N>(s2, s, k, *y);
            let xs = shift_expr(*x, k);
            let ys = shift_expr(*y, k);
            assert(shift_expr(e, k) == Expr::Div(Box::new(xs), Box::new(ys)));
            assert(same_outcomes::<N>(s2, xs, s, *x) && same_outcomes::<N>(s, *x, s2, xs));
            assert(same_outcomes::<N>(s2, ys, s, *y) && same_outcomes::<N>(s, *y, s2, ys));
            assert forall|v: Option<N>| #[trigger] evaluates_to::<N>(s2, shift_expr(e, k), v)
                == evaluates_to::<N>(s, e, v) by {
                if evaluates_to::<N>(s2, shift_expr(e, k), v) {
                    lemma_div_implies::<N>(s2, xs, ys, s, *x, *y, v);
                }
                if evaluates_to::<N>(s, e, v) {
                    lemma_div_implies::<N>(s, *x, *y, s2, xs, ys, v);
                }
            }
        },
        Expr::Pow(x, y) => {
            lemma_evaluates_moved::<N>(s2, s, k, *x);
            lemma_evaluates_moved::<N>(s2, s, k, *y);
            let xs = shift_expr(*x, k);
            let ys = shift_expr(*y, k);
            assert(shift_expr(e, k) == Expr::Pow(Box::new(xs), Box::new(ys)));
            assert(same_outcomes::<N>(s2, xs, s, *x) && same_outcomes::<N>(s, *x, s2, xs));
            assert(same_outcomes::<N>(s2, ys, s, *y) && same_outcomes::<N>(s, *y, s2, ys));
            assert forall|v: Option<N>| #[trigger] evaluates_to::<N>(s2, shift_expr(e, k), v)
                == evaluates_to::<N>(s, e, v) by {
                if evaluates_to::<N>(s2, shift_expr(e, k), v) {
                    lemma_pow_implies::<N>(s2, xs, ys, s, *x, *y, v);
                }
                if evaluates_to::<N>(s, e, v) {
                    lemma_pow_implies::<N>(s, *x, *y, s2, xs, ys, v);
                }
            }
        },
    }
}

/// Blanks before and after an expression change nothing: the padded text
/// admits exactly the outcomes of `calculate` that the expression does.
pub proof fn lemma_blanks_around_expression<N: Number>(
    before: Seq<char>,
    e: Seq<char>,
    after: Seq<char>,
    r: Option<(Seq<char>, Seq<char>)>,
)
    requires
        all_blank(before),
        all_blank(after),
        (before + e + after).len() <= usize::MAX,
    ensures
        calculation::<N>(before + e + after, r) == calculation::<N>(e, r),
{
    let s2 = before + e + after;
    let k = before.len() as int;
    assert(padded(s2, e, k)) by {
        reveal(padded);
        assert(s2.subrange(k, k + e.len()) =~= e);
        assert(s2.subrange(0, k) =~= before);
        assert(s2.subrange(k + e.len(), s2.len() as int) =~= after);
    }
    lemma_parse_expression_padded(s2, e, k);
    lemma_has_char_padded(s2, e, k, '.');
    lemma_has_char_padded(s2, e, k, ',');
    lemma_texts_same::<N>(s2, e);
    match parse_expression(e) {
        None => {},
        Some((ex, g)) => {
            assert(s2.subrange(k, k + e.len()) =~= e);
            lemma_evaluates_moved::<N>(s2, e, k, ex);
        },
    }
}

/// `s2` holds `s` from position `k` on and a closing parenthesis right
/// after it, and its positions fit in a `usize`.
#[verifier::opaque]
pub open spec fn enclosed(s2: Seq<char>, s: Seq<char>, k: int) -> bool {
    &&& 0 <= k
    &&& k + s.len() < s2.len() <= usize::MAX
    &&& s2.subrange(k, k + s.len()) == s
    &&& s2[k + s.len()] == ')'
}

proof fn lemma_enclosed_bounds(s2: Seq<char>, s: Seq<char>, k: int)
    requires
        enclosed(s2, s, k),
    ensures
        0 <= k,
        k + s.len() < s2.len() <= usize::MAX,
{
    reveal(enclosed);
}

proof fn lemma_enclosed_chars(s2: Seq<char>, s: Seq<char>, k: int)
    requires
        enclosed(s2, s, k),
    ensures
        0 <= k,
        k + s.len() < s2.len() <= usize::MAX,
        s2[k + s.len()] == ')',
        s2.subrange(k, k + s.len()) == s,
        forall|i: int| 0 <= i < s.len() ==> s2[k + i] == #[trigger] s[i],
{
    reveal(enclosed);
    assert forall|i: int| 0 <= i < s.len() implies s2[k + i] == #[trigger] s[i] by {
        assert(s2.subrange(k, k + s.len())[i] == s2[k + i]);
    }
}

/// A parse of `s` that succeeds, moved `k` places on, is the parse at the
/// same place in the enclosing text; it ends within `s`.
pub open spec fn parse_moved(
    k: int,
    n: int,
    p: int,
    o2: Option<(Expr, int, int)>,
    o1: Option<(Expr, int, int)>,
) -> bool {
    match o1 {
        None => true,
        Some((e1, q1, g1)) => {
            &&& o2 == Some((shift_expr(e1, k), q1 + k, g1))
            &&& ranges_within(e1, n)
            &&& p <= q1 <= n
        },
    }
}

proof fn lemma_skip_enclosed(s2: Seq<char>, s: Seq<char>, k: int, p: int)
    requires
        enclosed(s2, s, k),
        0 <= p <= s.len(),
    ensures
        skip_blank(s2, k + p) == k + skip_blank(s, p),
        p <= skip_blank(s, p) <= s.len(),
    decreases s.len() - p,
{
    lemma_enclosed_chars(s2, s, k);
    if p < s.len() {
        assert(s2[k + p] == s[p]);
        if is_blank(s[p]) {
            lemma_skip_enclosed(s2, s, k, p + 1);
        }
    } else {
        assert(!is_blank(')'));
    }
}

proof fn lemma_digits_enclosed(s2: Seq<char>, s: Seq<char>, k: int, x: int, commas: bool)
    requires
        enclosed(s2, s, k),
        0 <= x <= s.len(),
    ensures
        digits_end(s2, k + x, commas) == k + digits_end(s, x, commas),
        x <= digits_end(s, x, commas) <= s.len(),
    decreases s.len() - x,
{
    lemma_enclosed_chars(s2, s, k);
    if x < s.len() {
        assert(s2[k + x] == s[x]);
        lemma_digits_enclosed(s2, s, k, x + 1, commas);
    }
}

/// No character of the token `t` is a closing parenthesis.
pub open spec fn opens(t: Seq<char>) -> bool {
    forall|i: int| 0 <= i < t.len() ==> t[i] != ')'
}

/// Taking a token without a closing parenthesis in the enclosing text is
/// taking it in `s`.
proof fn lemma_take_enclosed(s2: Seq<char>, s: Seq<char>, k: int, p: int, t: Seq<char>)
    requires
        enclosed(s2, s, k),
        0 <= p <= s.len(),
        t.len() > 0,
        opens(t),
    ensures
        ({
            let (b1, q1) = take_token(s, p, t);
            &&& p <= q1 <= s.len()
            &&& b1 ==> q1 > p
            &&& take_token(s2, k + p, t) == (b1, k + q1)
            &&& matches_at(s2, t, skip_blank(s2, k + p)) == matches_at(s, t, skip_blank(s, p))
            &&& skip_blank(s2, k + p) == k + skip_blank(s, p)
            &&& p <= skip_blank(s, p) <= s.len()
        }),
{
    lemma_enclosed_chars(s2, s, k);
    lemma_skip_enclosed(s2, s, k, p);
    let n = s.len() as int;
    let r = skip_blank(s, p);
    if r + t.len() <= n {
        assert(s2.subrange(k + r, k + r + t.len()) =~= s.subrange(r, r + t.len()));
    } else if matches_at(s2, t, k + r) {
        assert(s2.subrange(k + r, k + r + t.len())[n - r] == s2[k + n]);
        assert(t[n - r] != ')');
    }
}

/// A closing parenthesis that `s` gives is given in the enclosing text.
proof fn lemma_close_enclosed(s2: Seq<char>, s: Seq<char>, k: int, p: int)
    requires
        enclosed(s2, s, k),
        0 <= p <= s.len(),
    ensures
        ({
            let (b1, q1) = take_token(s, p, seq![')']);
            &&& p <= q1 <= s.len()
            &&& b1 ==> take_token(s2, k + p, seq![')']) == (true, k + q1)
        }),
{
    lemma_enclosed_chars(s2, s, k);
    lemma_skip_enclosed(s2, s, k, p);
    let r = skip_blank(s, p);
    if matches_at(s, seq![')'], r) {
        assert(s2.subrange(k + r, k + r + 1) =~= s.subrange(r, r + 1));
    }
}

proof fn lemma_tokens_open()
    ensures
        opens(seq!['(']) && seq!['('].len() > 0,
        opens(seq!['*', '*']) && seq!['*', '*'].len() > 0,
        opens(seq!['^']) && seq!['^'].len() > 0,
        opens(seq!['+']) && seq!['+'].len() > 0,
        opens(seq!['-']) && seq!['-'].len() > 0,
        opens(seq!['*']) && seq!['*'].len() > 0,
        opens(seq!['x']) && seq!['x'].len() > 0,
        opens(seq!['/']) && seq!['/'].len() > 0,
{
    assert(seq!['('][0] == '(');
    assert(seq!['*', '*'][0] == '*' && seq!['*', '*'][1] == '*');
    assert(seq!['^'][0] == '^');
    assert(seq!['+'][0] == '+');
    assert(seq!['-'][0] == '-');
    assert(seq!['*'][0] == '*');
    assert(seq!['x'][0] == 'x');
    assert(seq!['/'][0] == '/');
}

proof fn lemma_literal_enclosed(s2: Seq<char>, s: Seq<char>, k: int, p: int, sig: int)
    requires
        enclosed(s2, s, k),
        0 <= p <= s.len(),
    ensures
        parse_moved(k, s.len() as int, p, parse_literal(s2, k + p, sig), parse_literal(s, p, sig)),
{
    lemma_enclosed_chars(s2, s, k);
    lemma_skip_enclosed(s2, s, k, p);
    let n = s.len() as int;
    let st1 = skip_blank(s, p);
    let st2 = k + st1;
    lemma_digits_enclosed(s2, s, k, st1, true);
    let e1 = digits_end(s, st1, true);
    let e2 = k + e1;
    assert(s2.subrange(st2, e2) =~= s.subrange(st1, e1));
    if e1 < n {
        assert(s2[e2] == s[e1]);
        if s[e1] == '.' {
            lemma_digits_enclosed(s2, s, k, e1 + 1, false);
            let f1 = digits_end(s, e1 + 1, false);
            let f2 = k + f1;
            assert(s2.subrange(st2, f2) =~= s.subrange(st1, f1));
            assert(literal_significance(s2, st2, e2, f2) == literal_significance(s, st1, e1, f1));
            assert(shift_expr(Expr::Number(st1 as usize, f1 as usize), k) == Expr::Number(
                st2 as usize,
                f2 as usize,
            ));
        } else {
            assert(literal_significance(s2, st2, e2, e2) == literal_significance(s, st1, e1, e1));
            assert(shift_expr(Expr::Number(st1 as usize, e1 as usize), k) == Expr::Number(
                st2 as usize,
                e2 as usize,
            ));
        }
    } else {
        assert(s2[e2] == ')');
        assert(literal_significance(s2, st2, e2, e2) == literal_significance(s, st1, e1, e1));
        assert(shift_expr(Expr::Number(st1 as usize, e1 as usize), k) == Expr::Number(
            st2 as usize,
            e2 as usize,
        ));
    }
}

#[verifier::rlimit(100)]
#[verifier::spinoff_prover]
proof fn lemma_primary_enclosed(s2: Seq<char>, s: Seq<char>, k: int, p: int, depth: int, sig: int)
    requires
        enclosed(s2, s, k),
        0 <= p <= s.len(),
    ensures
        parse_moved(
            k,
            s.len() as int,
            p,
            parse_primary(s2, k + p, depth, sig),
            parse_primary(s, p, depth, sig),
        ),
    decreases s.len() - p, 0int,
{
    lemma_enclosed_bounds(s2, s, k);
    lemma_tokens_open();
    lemma_take_enclosed(s2, s, k, p, seq!['(']);
    let (open, p1) = take_token(s, p, seq!['(']);
    if open {
        lemma_additive_enclosed(s2, s, k, p1, depth, sig);
        match parse_additive(s, p1, depth, sig) {
            None => {},
            Some((e, q, g)) => {
                lemma_close_enclosed(s2, s, k, q);
            },
        }
    } else {
        lemma_literal_enclosed(s2, s, k, p1, sig);
    }
}

#[verifier::rlimit(100)]
#[verifier::spinoff_prover]
proof fn lemma_power_enclosed(s2: Seq<char>, s: Seq<char>, k: int, p: int, depth: int, sig: int)
    requires
        enclosed(s2, s, k),
        0 <= p <= s.len(),
    ensures
        parse_moved(
            k,
            s.len() as int,
            p,
            parse_power(s2, k + p, depth, sig),
            parse_power(s, p, depth, sig),
        ),
    decreases s.len() - p, 1int,
{
    lemma_enclosed_bounds(s2, s, k);
    lemma_tokens_open();
    lemma_primary_enclosed(s2, s, k, p, depth, sig);
    match parse_primary(s, p, depth, sig) {
        None => {},
        Some((base, q, g)) => {
            lemma_take_enclosed(s2, s, k, q, seq!['*', '*']);
            let (stars, q1) = take_token(s, q, seq!['*', '*']);
            lemma_take_enclosed(s2, s, k, q1, seq!['^']);
            let (caret, q2) = take_token(s, q1, seq!['^']);
            if stars || caret {
                let r = if stars {
                    q1
                } else {
                    q2
                };
                if q < r <= s.len() {
                    lemma_unary_enclosed(s2, s, k, r, depth, g);
                    match parse_unary(s, r, depth, g) {
                        None => {},
                        Some((x, t, h)) => {
                            assert(shift_expr(Expr::Pow(Box::new(base), Box::new(x)), k)
                                == Expr::Pow(Box::new(shift_expr(base, k)), Box::new(shift_expr(x, k))));
                        },
                    }
                }
            }
        },
    }
}

#[verifier::rlimit(100)]
#[verifier::spinoff_prover]
proof fn lemma_unary_enclosed(s2: Seq<char>, s: Seq<char>, k: int, p: int, depth: int, sig: int)
    requires
        enclosed(s2, s, k),
        0 <= p <= s.len(),
    ensures
        parse_moved(
            k,
            s.len() as int,
            p,
            parse_unary(s2, k + p, depth, sig),
            parse_unary(s, p, depth, sig),
        ),
    decreases s.len() - p, 2int,
{
    lemma_enclosed_bounds(s2, s, k);
    lemma_tokens_open();
    lemma_take_enclosed(s2, s, k, p, seq!['+']);
    let (plus, p1) = take_token(s, p, seq!['+']);
    if plus {
        lemma_unary_enclosed(s2, s, k, p1, depth + 1, sig);
    } else {
        lemma_take_enclosed(s2, s, k, p1, seq!['-']);
        let (minus, p2) = take_token(s, p1, seq!['-']);
        if minus {
            lemma_unary_enclosed(s2, s, k, p2, depth + 1, sig);
            match parse_unary(s, p2, depth + 1, sig) {
                None => {},
                Some((x, t, h)) => {
                    assert(shift_expr(Expr::Neg(Box::new(x)), k) == Expr::Neg(
                        Box::new(shift_expr(x, k)),
                    ));
                },
            }
        } else {
            lemma_power_enclosed(s2, s, k, p2, depth + 1, sig);
        }
    }
}

#[verifier::rlimit(100)]
#[verifier::spinoff_prover]
proof fn lemma_multiply_rest_enclosed(
    s2: Seq<char>,
    s: Seq<char>,
    k: int,
    acc: Expr,
    p: int,
    depth: int,
    sig: int,
)
    requires
        enclosed(s2, s, k),
        0 <= p <= s.len(),
        ranges_within(acc, s.len() as int),
    ensures
        parse_moved(
            k,
            s.len() as int,
            p,
            parse_multiply_rest(s2, shift_expr(acc, k), k + p, depth, sig),
            parse_multiply_rest(s, acc, p, depth, sig),
        ),
    decreases s.len() - p, 3int,
{
    lemma_enclosed_bounds(s2, s, k);
    lemma_tokens_open();
    lemma_take_enclosed(s2, s, k, p, seq!['*', '*']);
    let p0 = skip_blank(s, p);
    if !matches_at(s, seq!['*', '*'], p0) {
        lemma_take_enclosed(s2, s, k, p0, seq!['*']);
        let (star, p1) = take_token(s, p0, seq!['*']);
        lemma_take_enclosed(s2, s, k, p1, seq!['x']);
        let (cross, p2) = take_token(s, p1, seq!['x']);
        lemma_take_enclosed(s2, s, k, p2, seq!['/']);
        let (slash, p3) = take_token(s, p2, seq!['/']);
        let multiplies = star || cross;
        if multiplies || slash {
            let q = if star {
                p1
            } else if cross {
                p2
            } else {
                p3
            };
            if p < q <= s.len() {
                lemma_unary_enclosed(s2, s, k, q, depth, sig);
                match parse_unary(s, q, depth, sig) {
                    None => {},
                    Some((x, t, g)) => {
                        let next = if multiplies {
                            Expr::Mul(Box::new(acc), Box::new(x))
                        } else {
                            Expr::Div(Box::new(acc), Box::new(x))
                        };
                        assert(shift_expr(next, k) == if multiplies {
                            Expr::Mul(Box::new(shift_expr(acc, k)), Box::new(shift_expr(x, k)))
                        } else {
                            Expr::Div(Box::new(shift_expr(acc, k)), Box::new(shift_expr(x, k)))
                        });
                        lemma_multiply_rest_enclosed(s2, s, k, next, t, depth, g);
                    },
                }
            }
        }
    }
}

#[verifier::rlimit(100)]
#[verifier::spinoff_prover]
proof fn lemma_multiply_enclosed(s2: Seq<char>, s: Seq<char>, k: int, p: int, depth: int, sig: int)
    requires
        enclosed(s2, s, k),
        0 <= p <= s.len(),
    ensures
        parse_moved(
            k,
            s.len() as int,
            p,
            parse_multiply(s2, k + p, depth, sig),
            parse_multiply(s, p, depth, sig),
        ),
    decreases s.len() - p, 4int,
{
    lemma_enclosed_bounds(s2, s, k);
    lemma_unary_enclosed(s2, s, k, p, depth, sig);
    match parse_unary(s, p, depth, sig) {
        None => {},
        Some((x, t, g)) => {
            lemma_multiply_rest_enclosed(s2, s, k, x, t, depth, g);
            assert(parse_unary(s2, k + p, depth, sig) == Some((shift_expr(x, k), t + k, g)));
            assert(parse_multiply(s2, k + p, depth, sig) == parse_multiply_rest(
                s2,
                shift_expr(x, k),
                k + t,
                depth,
                g,
            ));
        },
    }
}

#[verifier::rlimit(100)]
#[verifier::spinoff_prover]
proof fn lemma_additive_rest_enclosed(
    s2: Seq<char>,
    s: Seq<char>,
    k: int,
    acc: Expr,
    p: int,
    depth: int,
    sig: int,
)
    requires
        enclosed(s2, s, k),
        0 <= p <= s.len(),
        ranges_within(acc, s.len() as int),
    ensures
        parse_moved(
            k,
            s.len() as int,
            p,
            parse_additive_rest(s2, shift_expr(acc, k), k + p, depth, sig),
            parse_additive_rest(s, acc, p, depth, sig),
        ),
    decreases s.len() - p, 5int,
{
    lemma_enclosed_bounds(s2, s, k);
    lemma_tokens_open();
    lemma_take_enclosed(s2, s, k, p, seq!['+']);
    let (plus, p1) = take_token(s, p, seq!['+']);
    lemma_take_enclosed(s2, s, k, p1, seq!['-']);
    let (minus, p2) = take_token(s, p1, seq!['-']);
    if plus || minus {
        let q = if plus {
            p1
        } else {
            p2
        };
        if p < q <= s.len() {
            lemma_multiply_enclosed(s2, s, k, q, depth, sig);
            match parse_multiply(s, q, depth, sig) {
                None => {},
                Some((x, t, g)) => {
                    let next = if plus {
                        Expr::Add(Box::new(acc), Box::new(x))
                    } else {
                        Expr::Sub(Box::new(acc), Box::new(x))
                    };
                    assert(shift_expr(next, k) == if plus {
                        Expr::Add(Box::new(shift_expr(acc, k)), Box::new(shift_expr(x, k)))
                    } else {
                        Expr::Sub(Box::new(shift_expr(acc, k)), Box::new(shift_expr(x, k)))
                    });
                    lemma_additive_rest_enclosed(s2, s, k, next, t, depth, g);
                },
            }
        }
    }
}

/// One step of the additive parse in the enclosing text: its multiply,
/// then its rest.
proof fn lemma_additive_step(
    s2: Seq<char>,
    s: Seq<char>,
    k: int,
    p: int,
    depth: int,
    sig: int,
    x: Expr,
    t: int,
    g: int,
)
    requires
        0 <= k,
        0 <= p <= t <= s.len(),
        k + s.len() < s2.len(),
        parse_multiply(s, p, depth, sig) == Some((x, t, g)),
        parse_multiply(s2, k + p, depth, sig) == Some((shift_expr(x, k), t + k, g)),
        parse_moved(
            k,
            s.len() as int,
            t,
            parse_additive_rest(s2, shift_expr(x, k), k + t, depth, g),
            parse_additive_rest(s, x, t, depth, g),
        ),
    ensures
        parse_moved(
            k,
            s.len() as int,
            p,
            parse_additive(s2, k + p, depth, sig),
            parse_additive(s, p, depth, sig),
        ),
{
}

#[verifier::rlimit(100)]
#[verifier::spinoff_prover]
proof fn lemma_additive_enclosed(s2: Seq<char>, s: Seq<char>, k: int, p: int, depth: int, sig: int)
    requires
        enclosed(s2, s, k),
        0 <= p <= s.len(),
    ensures
        parse_moved(
            k,
            s.len() as int,
            p,
            parse_additive(s2, k + p, depth, sig),
            parse_additive(s, p, depth, sig),
        ),
    decreases s.len() - p, 6int,
{
    lemma_enclosed_bounds(s2, s, k);
    lemma_multiply_enclosed(s2, s, k, p, depth, sig);
    if let Some((x, t, g)) = parse_multiply(s, p, depth, sig) {
        lemma_additive_rest_enclosed(s2, s, k, x, t, depth, g);
        lemma_additive_step(s2, s, k, p, depth, sig, x, t, g);
    }
}

proof fn lemma_primary_shallower(s: Seq<char>, p: int, d1: int, d2: int, sig: int)
    requires
        d1 <= d2,
    ensures
        parse_primary(s, p, d2, sig) is Some ==> parse_primary(s, p, d1, sig) == parse_primary(
            s,
            p,
            d2,
            sig,
        ),
    decreases s.len() - p, 0int,
{
    let (open, p1) = take_token(s, p, seq!['(']);
    if open && p < p1 <= s.len() {
        lemma_additive_shallower(s, p1, d1, d2, sig);
    }
}

proof fn lemma_power_shallower(s: Seq<char>, p: int, d1: int, d2: int, sig: int)
    requires
        d1 <= d2,
    ensures
        parse_power(s, p, d2, sig) is Some ==> parse_power(s, p, d1, sig) == parse_power(
            s,
            p,
            d2,
            sig,
        ),
    decreases s.len() - p, 1int,
{
    lemma_primary_shallower(s, p, d1, d2, sig);
    if let Some((base, q, g)) = parse_primary(s, p, d2, sig) {
        if p <= q <= s.len() {
            let (stars, q1) = take_token(s, q, seq!['*', '*']);
            let (caret, q2) = take_token(s, q1, seq!['^']);
            let r = if stars {
                q1
            } else {
                q2
            };
            if (stars || caret) && q < r <= s.len() {
                lemma_unary_shallower(s, r, d1, d2, g);
            }
        }
    }
}

proof fn lemma_unary_shallower(s: Seq<char>, p: int, d1: int, d2: int, sig: int)
    requires
        d1 <= d2,
    ensures
        parse_unary(s, p, d2, sig) is Some ==> parse_unary(s, p, d1, sig) == parse_unary(
            s,
            p,
            d2,
            sig,
        ),
    decreases s.len() - p, 2int,
{
    if d2 < 128 {
        let (plus, p1) = take_token(s, p, seq!['+']);
        let (minus, p2) = take_token(s, p1, seq!['-']);
        if plus {
            if p < p1 <= s.len() {
                lemma_unary_shallower(s, p1, d1 + 1, d2 + 1, sig);
            }
        } else if minus {
            if p < p2 <= s.len() {
                lemma_unary_shallower(s, p2, d1 + 1, d2 + 1, sig);
            }
        } else if p <= p2 <= s.len() {
            lemma_power_shallower(s, p2, d1 + 1, d2 + 1, sig);
        }
    }
}

proof fn lemma_multiply_rest_shallower(
    s: Seq<char>,
    acc: Expr,
    p: int,
    d1: int,
    d2: int,
    sig: int,
)
    requires
        d1 <= d2,
    ensures
        parse_multiply_rest(s, acc, p, d2, sig) is Some ==> parse_multiply_rest(s, acc, p, d1, sig)
            == parse_multiply_rest(s, acc, p, d2, sig),
    decreases s.len() - p, 3int,
{
    let p0 = skip_blank(s, p);
    if !matches_at(s, seq!['*', '*'], p0) {
        let (star, p1) = take_token(s, p0, seq!['*']);
        let (cross, p2) = take_token(s, p1, seq!['x']);
        let (slash, p3) = take_token(s, p2, seq!['/']);
        let multiplies = star || cross;
        let q = if star {
            p1
        } else if cross {
            p2
        } else {
            p3
        };
        if (multiplies || slash) && p < q <= s.len() {
            lemma_unary_shallower(s, q, d1, d2, sig);
            if let Some((x, t, g)) = parse_unary(s, q, d2, sig) {
                if q <= t <= s.len() {
                    let next = if multiplies {
                        Expr::Mul(Box::new(acc), Box::new(x))
                    } else {
                        Expr::Div(Box::new(acc), Box::new(x))
                    };
                    lemma_multiply_rest_shallower(s, next, t, d1, d2, g);
                }
            }
        }
    }
}

proof fn lemma_multiply_shallower(s: Seq<char>, p: int, d1: int, d2: int, sig: int)
    requires
        d1 <= d2,
    ensures
        parse_multiply(s, p, d2, sig) is Some ==> parse_multiply(s, p, d1, sig) == parse_multiply(
            s,
            p,
            d2,
            sig,
        ),
    decreases s.len() - p, 4int,
{
    lemma_unary_shallower(s, p, d1, d2, sig);
    if let Some((x, t, g)) = parse_unary(s, p, d2, sig) {
        if p <= t <= s.len() {
            lemma_multiply_rest_shallower(s, x, t, d1, d2, g);
        }
    }
}

proof fn lemma_additive_rest_shallower(
    s: Seq<char>,
    acc: Expr,
    p: int,
    d1: int,
    d2: int,
    sig: int,
)
    requires
        d1 <= d2,
    ensures
        parse_additive_rest(s, acc, p, d2, sig) is Some ==> parse_additive_rest(s, acc, p, d1, sig)
            == parse_additive_rest(s, acc, p, d2, sig),
    decreases s.len() - p, 5int,
{
    let (plus, p1) = take_token(s, p, seq!['+']);
    let (minus, p2) = take_token(s, p1, seq!['-']);
    let q = if plus {
        p1
    } else {
        p2
    };
    if (plus || minus) && p < q <= s.len() {
        lemma_multiply_shallower(s, q, d1, d2, sig);
        if let Some((x, t, g)) = parse_multiply(s, q, d2, sig) {
            if q <= t <= s.len() {
                let next = if plus {
                    Expr::Add(Box::new(acc), Box::new(x))
                } else {
                    Expr::Sub(Box::new(acc), Box::new(x))
                };
                lemma_additive_rest_shallower(s, next, t, d1, d2, g);
            }
        }
    }
}

proof fn lemma_additive_shallower(s: Seq<char>, p: int, d1: int, d2: int, sig: int)
    requires
        d1 <= d2,
    ensures
        parse_additive(s, p, d2, sig) is Some ==> parse_additive(s, p, d1, sig) == parse_additive(
            s,
            p,
            d2,
            sig,
        ),
    decreases s.len() - p, 6int,
{
    lemma_multiply_shallower(s, p, d1, d2, sig);
    if let Some((x, t, g)) = parse_multiply(s, p, d2, sig) {
        if p <= t <= s.len() {
            lemma_additive_rest_shallower(s, x, t, d1, d2, g);
        }
    }
}

/// `s` parses as a whole expression when its parse starts `depth` levels of
/// nesting deep.
pub open spec fn parses_at_depth(s: Seq<char>, depth: int) -> bool {
    match parse_additive(s, 0, depth, 0) {
        None => false,
        Some((x, p, g)) => skip_blank(s, p) == s.len(),
    }
}

proof fn lemma_has_char_enclosing(e: Seq<char>, c: char)
    requires
        c != '(' && c != ')',
    ensures
        has_char(seq!['('] + e + seq![')'], c) == has_char(e, c),
{
    let s2 = seq!['('] + e + seq![')'];
    if has_char(s2, c) {
        let i = choose|i: int| 0 <= i < s2.len() && s2[i] == c;
        assert(0 < i < s2.len() - 1);
        assert(s2[i] == e[i - 1]);
    }
    if has_char(e, c) {
        let i = choose|i: int| 0 <= i < e.len() && e[i] == c;
        assert(s2[i + 1] == e[i]);
    }
}

proof fn lemma_take_at_end(s: Seq<char>, t: Seq<char>)
    requires
        t.len() > 0,
    ensures
        skip_blank(s, s.len() as int) == s.len(),
        !matches_at(s, t, s.len() as int),
        take_token(s, s.len() as int, t) == (false, s.len() as int),
{
}

proof fn lemma_enclosing_start(e: Seq<char>)
    ensures
        ({
            let s2 = seq!['('] + e + seq![')'];
            &&& take_token(s2, 0, seq!['+']) == (false, 0int)
            &&& take_token(s2, 0, seq!['-']) == (false, 0int)
            &&& take_token(s2, 0, seq!['(']) == (true, 1int)
        }),
{
    let s2 = seq!['('] + e + seq![')'];
    assert(!is_blank('(')) by {
        lemma_tokens_solid();
        assert(seq!['('][0] == '(');
    }
    assert(skip_blank(s2, 0) == 0);
    assert(s2.subrange(0, 1) =~= seq!['(']);
    assert(s2.subrange(0, 1)[0] == '(');
    assert(!matches_at(s2, seq!['+'], 0));
    assert(!matches_at(s2, seq!['-'], 0));
}

/// After the whole text, the rest of every level of the parse takes
/// nothing.
proof fn lemma_rests_at_end(s: Seq<char>, x: Expr, depth: int, g: int)
    ensures
        parse_multiply_rest(s, x, s.len() as int, depth, g) == Some((x, s.len() as int, g)),
        parse_additive_rest(s, x, s.len() as int, depth, g) == Some((x, s.len() as int, g)),
{
    lemma_take_at_end(s, seq!['*', '*']);
    lemma_take_at_end(s, seq!['*']);
    lemma_take_at_end(s, seq!['x']);
    lemma_take_at_end(s, seq!['/']);
    lemma_take_at_end(s, seq!['+']);
    lemma_take_at_end(s, seq!['-']);
}

/// The parse of an expression in parentheses: the parse of the expression
/// one level deeper, moved one place on.
#[verifier::rlimit(100)]
#[verifier::spinoff_prover]
proof fn lemma_parse_expression_enclosing(e: Seq<char>)
    requires
        parses_at_depth(e, 1),
        e.len() + 2 <= usize::MAX,
    ensures
        ({
            let (x, q, g) = parse_additive(e, 0, 1, 0)->0;
            &&& parse_expression(e) == Some((x, g))
            &&& parse_expression(seq!['('] + e + seq![')']) == Some((shift_expr(x, 1), g))
            &&& ranges_within(x, e.len() as int)
        }),
{
    let s2 = seq!['('] + e + seq![')'];
    let n = e.len() as int;
    let len2 = s2.len() as int;
    assert(enclosed(s2, e, 1)) by {
        reveal(enclosed);
        assert(s2.subrange(1, 1 + n) =~= e);
    }
    lemma_additive_enclosed(s2, e, 1, 0, 1, 0);
    lemma_additive_shallower(e, 0, 0, 1, 0);
    let (x, q, g) = parse_additive(e, 0, 1, 0)->0;
    let big = shift_expr(x, 1);
    assert(parse_additive(s2, 1, 1, 0) == Some((big, q + 1, g)));
    lemma_skip_enclosed(s2, e, 1, q);
    lemma_enclosing_start(e);
    assert(skip_blank(s2, q + 1) == n + 1);
    assert(s2.subrange(n + 1, n + 2) =~= seq![')']);
    assert(take_token(s2, q + 1, seq![')']) == (true, n + 2));
    assert(parse_primary(s2, 0, 1, 0) == Some((big, len2, g)));
    lemma_take_at_end(s2, seq!['*', '*']);
    lemma_take_at_end(s2, seq!['^']);
    assert(parse_power(s2, 0, 1, 0) == Some((big, len2, g)));
    assert(parse_unary(s2, 0, 0, 0) == Some((big, len2, g)));
    lemma_rests_at_end(s2, big, 0, g);
    assert(parse_multiply(s2, 0, 0, 0) == Some((big, len2, g)));
    assert(parse_additive(s2, 0, 0, 0) == Some((big, len2, g)));
}

/// Parentheses around an expression change nothing: the parenthesized text
/// admits exactly the outcomes of `calculate` that the expression does, for
/// an expression that still parses with the one more level of nesting that
/// the parentheses add (every expression of fewer than 127 characters that
/// parses does: `lemma_short_expression_parses_deeper`).
#[verifier::rlimit(100)]
#[verifier::spinoff_prover]
pub proof fn lemma_parentheses_around_expression<N: Number>(
    e: Seq<char>,
    r: Option<(Seq<char>, Seq<char>)>,
)
    requires
        parses_at_depth(e, 1),
        e.len() + 2 <= usize::MAX,
    ensures
        calculation::<N>(seq!['('] + e + seq![')'], r) == calculation::<N>(e, r),
{
    let s2 = seq!['('] + e + seq![')'];
    lemma_parse_expression_enclosing(e);
    let (x, q, g) = parse_additive(e, 0, 1, 0)->0;
    lemma_has_char_enclosing(e, '.');
    lemma_has_char_enclosing(e, ',');
    lemma_texts_same::<N>(s2, e);
    assert(s2.subrange(1, 1 + e.len() as int) =~= e);
    lemma_evaluates_moved::<N>(s2, e, 1, x);
    let big = shift_expr(x, 1);
    if calculation::<N>(s2, r) {
        let v = choose|v: Option<N>|
            #[trigger] outcome::<N>(v) && evaluates_to::<N>(s2, big, v) && match v {
                None => r is None,
                Some(value) => value_texts::<N>(s2, g, value, r),
            };
        assert(evaluates_to::<N>(e, x, v));
        assert(outcome::<N>(v));
    }
    if calculation::<N>(e, r) {
        let v = choose|v: Option<N>|
            #[trigger] outcome::<N>(v) && evaluates_to::<N>(e, x, v) && match v {
                None => r is None,
                Some(value) => value_texts::<N>(e, g, value, r),
            };
        assert(evaluates_to::<N>(s2, big, v));
        assert(outcome::<N>(v));
    }
}

proof fn lemma_primary_deeper(s: Seq<char>, p: int, depth: int, sig: int)
    requires
        depth + 1 + s.len() - p <= 128,
    ensures
        parse_primary(s, p, depth, sig) is Some ==> parse_primary(s, p, depth, sig) == parse_primary(
            s,
            p,
            depth + 1,
            sig,
        ),
    decreases s.len() - p, 0int,
{
    let (open, p1) = take_token(s, p, seq!['(']);
    if open && p < p1 <= s.len() {
        lemma_additive_deeper(s, p1, depth, sig);
    }
}

proof fn lemma_power_deeper(s: Seq<char>, p: int, depth: int, sig: int)
    requires
        depth + 1 + s.len() - p <= 128,
    ensures
        parse_power(s, p, depth, sig) is Some ==> parse_power(s, p, depth, sig) == parse_power(
            s,
            p,
            depth + 1,
            sig,
        ),
    decreases s.len() - p, 1int,
{
    lemma_primary_deeper(s, p, depth, sig);
    if let Some((base, q, g)) = parse_primary(s, p, depth, sig) {
        if p <= q <= s.len() {
            let (stars, q1) = take_token(s, q, seq!['*', '*']);
            let (caret, q2) = take_token(s, q1, seq!['^']);
            let r = if stars {
                q1
            } else {
                q2
            };
            if (stars || caret) && q < r <= s.len() {
                lemma_unary_deeper(s, r, depth, g);
            }
        }
    }
}

proof fn lemma_unary_deeper(s: Seq<char>, p: int, depth: int, sig: int)
    requires
        depth + 1 + s.len() - p < 128,
    ensures
        parse_unary(s, p, depth, sig) is Some ==> parse_unary(s, p, depth, sig) == parse_unary(
            s,
            p,
            depth + 1,
            sig,
        ),
    decreases s.len() - p, 2int,
{
    if depth < 128 {
        let (plus, p1) = take_token(s, p, seq!['+']);
        let (minus, p2) = take_token(s, p1, seq!['-']);
        if plus {
            if p < p1 <= s.len() {
                lemma_unary_deeper(s, p1, depth + 1, sig);
            }
        } else if minus {
            if p < p2 <= s.len() {
                lemma_unary_deeper(s, p2, depth + 1, sig);
            }
        } else if p <= p2 <= s.len() {
            lemma_power_deeper(s, p2, depth + 1, sig);
        }
    }
}

proof fn lemma_multiply_rest_deeper(
    s: Seq<char>,
    acc: Expr,
    p: int,
    depth: int,
    sig: int,
)
    requires
        depth + 1 + s.len() - p < 128,
    ensures
        parse_multiply_rest(s, acc, p, depth, sig) is Some ==> parse_multiply_rest(s, acc, p, depth, sig)
            == parse_multiply_rest(s, acc, p, depth + 1, sig),
    decreases s.len() - p, 3int,
{
    let p0 = skip_blank(s, p);
    if !matches_at(s, seq!['*', '*'], p0) {
        let (star, p1) = take_token(s, p0, seq!['*']);
        let (cross, p2) = take_token(s, p1, seq!['x']);
        let (slash, p3) = take_token(s, p2, seq!['/']);
        let multiplies = star || cross;
        let q = if star {
            p1
        } else if cross {
            p2
        } else {
            p3
        };
        if (multiplies || slash) && p < q <= s.len() {
            lemma_unary_deeper(s, q, depth, sig);
            if let Some((x, t, g)) = parse_unary(s, q, depth, sig) {
                if q <= t <= s.len() {
                    let next = if multiplies {
                        Expr::Mul(Box::new(acc), Box::new(x))
                    } else {
                        Expr::Div(Box::new(acc), Box::new(x))
                    };
                    lemma_multiply_rest_deeper(s, next, t, depth, g);
                }
            }
        }
    }
}

proof fn lemma_multiply_deeper(s: Seq<char>, p: int, depth: int, sig: int)
    requires
        depth + 1 + s.len() - p < 128,
    ensures
        parse_multiply(s, p, depth, sig) is Some ==> parse_multiply(s, p, depth, sig) == parse_multiply(
            s,
            p,
            depth + 1,
            sig,
        ),
    decreases s.len() - p, 4int,
{
    lemma_unary_deeper(s, p, depth, sig);
    if let Some((x, t, g)) = parse_unary(s, p, depth, sig) {
        if p <= t <= s.len() {
            lemma_multiply_rest_deeper(s, x, t, depth, g);
        }
    }
}

proof fn lemma_additive_rest_deeper(
    s: Seq<char>,
    acc: Expr,
    p: int,
    depth: int,
    sig: int,
)
    requires
        depth + 1 + s.len() - p < 128,
    ensures
        parse_additive_rest(s, acc, p, depth, sig) is Some ==> parse_additive_rest(s, acc, p, depth, sig)
            == parse_additive_rest(s, acc, p, depth + 1, sig),
    decreases s.len() - p, 5int,
{
    let (plus, p1) = take_token(s, p, seq!['+']);
    let (minus, p2) = take_token(s, p1, seq!['-']);
    let q = if plus {
        p1
    } else {
        p2
    };
    if (plus || minus) && p < q <= s.len() {
        lemma_multiply_deeper(s, q, depth, sig);
        if let Some((x, t, g)) = parse_multiply(s, q, depth, sig) {
            if q <= t <= s.len() {
                let next = if plus {
                    Expr::Add(Box::new(acc), Box::new(x))
                } else {
                    Expr::Sub(Box::new(acc), Box::new(x))
                };
                lemma_additive_rest_deeper(s, next, t, depth, g);
            }
        }
    }
}

proof fn lemma_additive_deeper(s: Seq<char>, p: int, depth: int, sig: int)
    requires
        depth + 1 + s.len() - p < 128,
    ensures
        parse_additive(s, p, depth, sig) is Some ==> parse_additive(s, p, depth, sig) == parse_additive(
            s,
            p,
            depth + 1,
            sig,
        ),
    decreases s.len() - p, 6int,
{
    lemma_multiply_deeper(s, p, depth, sig);
    if let Some((x, t, g)) = parse_multiply(s, p, depth, sig) {
        if p <= t <= s.len() {
            lemma_additive_rest_deeper(s, x, t, depth, g);
        }
    }
}

/// An expression of fewer than 127 characters that parses still parses
/// one level of nesting deeper: each level of the parse takes at least one
/// character, and the parser allows 128.
pub proof fn lemma_short_expression_parses_deeper(e: Seq<char>)
    requires
        parse_expression(e) is Some,
        e.len() < 127,
    ensures
        parses_at_depth(e, 1),
{
    lemma_additive_deeper(e, 0, 0, 0);
}

proof fn lemma_increment_digits(d: Seq<char>)
    requires
        all_digits(d),
    ensures
        all_digits(increment(d)),
    decreases d.len(),
{
    if d.len() > 0 {
        if d.last() == '9' {
            lemma_increment_digits(d.drop_last());
            let r = increment(d.drop_last()).push('0');
            assert forall|i: int| 0 <= i < r.len() implies is_digit(#[trigger] r[i]) by {
                if i < r.len() - 1 {
                    assert(r[i] == increment(d.drop_last())[i]);
                }
            }
        } else {
            let last = d.last();
            assert(is_digit(last));
            let next = ((last as u32) + 1) as char;
            assert('0' <= next <= '9');
            let r = d.drop_last().push(next);
            assert forall|i: int| 0 <= i < r.len() implies is_digit(#[trigger] r[i]) by {
                if i < r.len() - 1 {
                    assert(r[i] == d[i]);
                }
            }
        }
    }
}

/// The parts of an unsigned decimal around its point are digits, and it
/// holds no comma.
proof fn lemma_unsigned_decimal_parts(u: Seq<char>)
    requires
        is_unsigned_decimal(u),
    ensures
        ({
            let (integer, fraction, dot) = split_dot(u);
            &&& all_digits(integer)
            &&& all_digits(fraction)
            &&& !has_char(u, ',')
        }),
{
    lemma_index_from(u, '.', 0);
    let (integer, fraction, dot) = split_dot(u);
    if has_char(u, ',') {
        let i = choose|i: int| 0 <= i < u.len() && u[i] == ',';
        match first_index(u, '.') {
            Some(j) => {
                if i < j {
                    assert(integer[i] == u[i]);
                } else if i > j {
                    assert(fraction[i - j - 1] == u[i]);
                }
            },
            None => {
                assert(integer[i] == u[i]);
            },
        }
    }
}

proof fn lemma_rounded_digits_digits(abs: Seq<char>, places: int)
    requires
        is_unsigned_decimal(abs),
    ensures
        all_digits(rounded_digits(abs, places)),
{
    lemma_unsigned_decimal_parts(abs);
    let (integer, fraction, _) = split_dot(abs);
    let digits = integer + fraction;
    assert(all_digits(digits)) by {
        assert forall|i: int| 0 <= i < digits.len() implies is_digit(#[trigger] digits[i]) by {
            if i < integer.len() {
                assert(digits[i] == integer[i]);
            } else {
                assert(digits[i] == fraction[i - integer.len()]);
            }
        }
    }
    let keep = integer.len() + places;
    if 0 <= keep < digits.len() {
        let truncated = digits.take(keep);
        assert(all_digits(truncated)) by {
            assert forall|i: int| 0 <= i < truncated.len() implies is_digit(#[trigger] truncated[i]) by {
                assert(truncated[i] == digits[i]);
            }
        }
        lemma_increment_digits(truncated);
    } else if keep >= digits.len() {
        let r = digits + zeros(keep - digits.len());
        assert forall|i: int| 0 <= i < r.len() implies is_digit(#[trigger] r[i]) by {
            if i < digits.len() {
                assert(r[i] == digits[i]);
            } else {
                assert(r[i] == zeros(keep - digits.len())[i - digits.len()]);
            }
        }
    } else {
        assert(seq!['0'][0] == '0');
    }
}

/// The rounded text of an unsigned decimal holds no comma.
proof fn lemma_round_decimal_no_comma(abs: Seq<char>, negative: bool, places: int)
    requires
        is_unsigned_decimal(abs),
    ensures
        !has_char(spec_round_decimal(abs, negative, places), ','),
{
    lemma_rounded_digits_digits(abs, places);
    let digits = rounded_digits(abs, places);
    let r = spec_round_decimal(abs, negative, places);
    if has_char(r, ',') {
        let i = choose|i: int| 0 <= i < r.len() && r[i] == ',';
        let nonzero = exists|j: int| 0 <= j < digits.len() && digits[j] != '0';
        let body = if places > 0 {
            let padded = if digits.len() < places + 1 {
                zeros(places + 1 - digits.len()) + digits
            } else {
                digits
            };
            assert(all_digits(padded)) by {
                assert forall|j: int| 0 <= j < padded.len() implies is_digit(#[trigger] padded[j]) by {
                    if digits.len() < places + 1 {
                        if j < places + 1 - digits.len() {
                            assert(padded[j] == zeros(places + 1 - digits.len())[j]);
                        } else {
                            assert(padded[j] == digits[j - (places + 1 - digits.len())]);
                        }
                    }
                }
            }
            let b = padded.take(padded.len() - places) + seq!['.'] + padded.skip(padded.len() - places);
            assert forall|j: int| 0 <= j < b.len() implies #[trigger] b[j] != ',' by {
                let h = padded.len() - places;
                if j < h {
                    assert(b[j] == padded[j]);
                } else if j > h {
                    assert(b[j] == padded[j - 1]);
                }
            }
            b
        } else if places < 0 {
            let b = digits + zeros(-places);
            assert forall|j: int| 0 <= j < b.len() implies #[trigger] b[j] != ',' by {
                if j < digits.len() {
                    assert(b[j] == digits[j]);
                } else {
                    assert(b[j] == zeros(-places)[j - digits.len()]);
                }
            }
            b
        } else {
            assert forall|j: int| 0 <= j < digits.len() implies #[trigger] digits[j] != ',' by {
                assert(is_digit(digits[j]));
            }
            digits
        };
        assert(forall|j: int| 0 <= j < body.len() ==> #[trigger] body[j] != ',');
        if negative && nonzero {
            assert(r == seq!['-'] + body);
            assert(r[i] == body[i - 1]);
        } else {
            assert(r == body);
        }
    }
}

/// The precise text of a value holds no comma when its decimal text is
/// plain digits and its scientific text holds no comma.
proof fn lemma_precise_no_comma(
    zero: bool,
    scientific_form: bool,
    decimal: Seq<char>,
    scientific: Seq<char>,
    p: Seq<char>,
)
    requires
        is_unsigned_decimal(unsigned_part(decimal)),
        !has_char(scientific, ','),
        spec_precise(zero, scientific_form, decimal, scientific) == Some(p),
    ensures
        !has_char(p, ','),
{
    let u = unsigned_part(decimal);
    lemma_unsigned_decimal_parts(u);
    if has_char(p, ',') {
        let i = choose|i: int| 0 <= i < p.len() && p[i] == ',';
        if zero {
            assert(p == seq!['0']);
        } else if scientific_form {
            lemma_index_from(scientific, 'e', 0);
            let j = first_index(scientific, 'e')->0;
            let mantissa = scientific.take(j);
            let exp = scientific.skip(j + 1);
            let sign = if exp.len() > 0 && exp[0] == '-' {
                seq![]
            } else {
                seq!['+']
            };
            assert(p == mantissa + seq!['e'] + sign + exp);
            if i < j {
                assert(p[i] == scientific[i]);
            } else if i > j + sign.len() {
                assert(p[i] == exp[i - j - 1 - sign.len()]);
                assert(exp[i - j - 1 - sign.len()] == scientific[i - sign.len()]);
            } else if i > j {
                assert(p[i] == sign[i - j - 1]);
            }
        } else if decimal.len() > 0 && decimal[0] == '-' {
            assert(p == decimal);
            if i > 0 {
                assert(decimal[i] == u[i - 1]);
            }
        } else {
            assert(p == u);
        }
    }
}

/// Without their commas, the texts calculated for a value of an expression
/// that groups by thousands are the texts that the same value has for an
/// expression without commas that has a decimal point just when the first
/// one does, for a number type whose scientific text holds no comma.
pub proof fn lemma_texts_without_commas<N: Number>(
    expression: Seq<char>,
    bare: Seq<char>,
    significant: int,
    value: N,
    a: Seq<char>,
    b: Seq<char>,
)
    requires
        !has_char(bare, ','),
        has_char(bare, '.') == has_char(expression, '.'),
        forall|v: N, t: String|
            #[trigger] call_ensures(N::to_scientific, (&v,), t) ==> !has_char(t@, ','),
        value_texts::<N>(expression, significant, value, Some((a, b))),
    ensures
        value_texts::<N>(bare, significant, value, Some((without(a, ','), without(b, ',')))),
{
    let r = Some((a, b));
    let finite = choose|finite: bool|
        #[trigger] call_ensures(N::is_finite, (&value,), finite) && if !finite {
            r is None
        } else {
            exists|
                zero: bool,
                scientific_form: bool,
                negative: bool,
                decimal: String,
                scientific: String,
            |
                #[trigger] reads_as::<N>(value, zero, scientific_form, negative, decimal, scientific)
                    && texts_from::<N>(
                    expression,
                    significant,
                    zero,
                    scientific_form,
                    negative,
                    decimal@,
                    scientific@,
                    r,
                )
        };
    let (zero, scientific_form, negative, decimal, scientific) = choose|
        zero: bool,
        scientific_form: bool,
        negative: bool,
        decimal: String,
        scientific: String,
    |
        #[trigger] reads_as::<N>(value, zero, scientific_form, negative, decimal, scientific)
            && texts_from::<N>(
            expression,
            significant,
            zero,
            scientific_form,
            negative,
            decimal@,
            scientific@,
            r,
        );
    let p = spec_precise(zero, scientific_form, decimal@, scientific@)->0;
    let u = unsigned_part(decimal@);
    let point = has_char(expression, '.');
    let rounding = choose|rounding: Option<(i32, Option<i32>, i32)>|
        #[trigger] rounding_of::<N>(u, negative, zero, scientific@, significant, point, rounding)
            && match rounding {
            None => r is None,
            Some((_, _, places)) => r == Some(
                (
                    spec_group(spec_round_decimal(u, negative, places as int), expression),
                    spec_group(p, expression),
                ),
            ),
        };
    let (_, _, places) = rounding->0;
    let t = spec_round_decimal(u, negative, places as int);
    lemma_round_decimal_no_comma(u, negative, places as int);
    assert(call_ensures(N::to_scientific, (&value,), scientific));
    lemma_precise_no_comma(zero, scientific_form, decimal@, scientific@, p);
    lemma_group_only_adds_commas(t, expression);
    lemma_group_only_adds_commas(p, expression);
    assert(spec_group(t, bare) == t);
    assert(spec_group(p, bare) == p);
    let bare_texts = Some((without(a, ','), without(b, ',')));
    assert(rounding_of::<N>(u, negative, zero, scientific@, significant, has_char(bare, '.'), rounding));
    assert(texts_from::<N>(
        bare,
        significant,
        zero,
        scientific_form,
        negative,
        decimal@,
        scientific@,
        bare_texts,
    ));
    assert(reads_as::<N>(value, zero, scientific_form, negative, decimal, scientific));
    assert(call_ensures(N::is_finite, (&value,), finite));
}

} // verus!
