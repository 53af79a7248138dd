//! Removing the thousands separators of an expression that calculates
//! removes them from what it calculates.
use vstd::prelude::*;

use crate::calculation::{
    calculation, digits_end, evaluates_to, is_blank, lemma_without_concat, lemma_without_none,
    literal_significance, outcome, parse_additive, parse_additive_rest, parse_expression,
    parse_literal, parse_multiply, parse_multiply_rest, parse_power, parse_primary, parse_unary,
    skip_blank, take_token, value_texts, well_grouped, without, Expr, Number,
};
use crate::calculation_laws::{
    lemma_add_implies, lemma_div_implies, lemma_mul_implies, lemma_neg_implies, lemma_pow_implies,
    lemma_sub_implies, lemma_texts_without_commas, ranges_within, same_outcomes,
};
use crate::text::{first_match, has_char, matches_at, split};

verus! {

/// Where position `p` of `s` lands once the commas of `s` are gone: the
/// number of characters before it that are not commas.
pub open spec fn kept(s: Seq<char>, p: int) -> int {
    without(s.take(p), ',').len() as int
}

/// Position `q` of `s` holds a comma, or a star right before a comma:
/// nothing parses from there on.
pub open spec fn stuck(s: Seq<char>, q: int) -> bool {
    &&& 0 <= q < s.len()
    &&& s[q] == ',' || (s[q] == '*' && q + 1 < s.len() && s[q + 1] == ',')
}

proof fn lemma_without_free(s: Seq<char>)
    ensures
        !has_char(without(s, ','), ','),
        without(without(s, ','), ',') == without(s, ','),
    decreases s.len(),
{
    if s.len() > 0 {
        lemma_without_free(s.drop_last());
        let w = without(s.drop_last(), ',');
        if s.last() != ',' {
            assert forall|i: int| 0 <= i < w.push(s.last()).len() implies w.push(s.last())[i]
                != ',' by {
                if i < w.len() {
                    assert(w.push(s.last())[i] == w[i]);
                }
            }
        }
    }
    lemma_without_none(without(s, ','));
}

proof fn lemma_kept_step(s: Seq<char>, p: int)
    requires
        0 <= p < s.len(),
    ensures
        s[p] == ',' ==> kept(s, p + 1) == kept(s, p),
        s[p] != ',' ==> kept(s, p + 1) == kept(s, p) + 1 && without(s, ',')[kept(s, p)] == s[p],
        kept(s, p + 1) <= without(s, ',').len(),
{
    assert(s.take(p + 1).drop_last() =~= s.take(p));
    assert(s.take(p + 1).last() == s[p]);
    lemma_without_concat(s.take(p + 1), s.skip(p + 1), ',');
    assert(s.take(p + 1) + s.skip(p + 1) =~= s);
    if s[p] != ',' {
        assert(without(s.take(p + 1), ',') == without(s.take(p), ',').push(s[p]));
        assert(without(s, ',')[kept(s, p)] == without(s.take(p + 1), ',')[kept(s, p)]);
    }
}

proof fn lemma_kept_ends(s: Seq<char>)
    ensures
        kept(s, 0) == 0,
        kept(s, s.len() as int) == without(s, ',').len(),
{
    assert(s.take(0) =~= Seq::<char>::empty());
    assert(s.take(s.len() as int) =~= s);
}

/// Between `p` and `q`, `kept` grows by the characters that are not commas.
proof fn lemma_kept_mono(s: Seq<char>, p: int, q: int)
    requires
        0 <= p <= q <= s.len(),
    ensures
        kept(s, p) <= kept(s, q) <= kept(s, p) + (q - p),
        (forall|i: int| p <= i < q ==> #[trigger] s[i] != ',') ==> kept(s, q) == kept(s, p) + (q
            - p),
        kept(s, q) <= without(s, ',').len(),
    decreases q - p,
{
    lemma_kept_ends(s);
    if p < q {
        lemma_kept_mono(s, p, q - 1);
        lemma_kept_step(s, q - 1);
    } else if q < s.len() {
        lemma_kept_step(s, q);
    }
}

proof fn lemma_kept_monotone(s: Seq<char>)
    ensures
        forall|a: int, b: int|
            0 <= a <= b <= s.len() ==> #[trigger] kept(s, a) <= #[trigger] kept(s, b) <= without(
                s,
                ',',
            ).len(),
        kept(s, 0) == 0,
        kept(s, s.len() as int) == without(s, ',').len() <= s.len(),
{
    lemma_kept_ends(s);
    lemma_kept_mono(s, 0, s.len() as int);
    assert forall|a: int, b: int| 0 <= a <= b <= s.len() implies #[trigger] kept(s, a) <= #[trigger] kept(
        s,
        b,
    ) <= without(s, ',').len() by {
        lemma_kept_mono(s, a, b);
    }
}

/// The characters of `s` from `a` to `b` without their commas are the
/// characters of `s` without commas from where `a` lands to where `b` does.
proof fn lemma_kept_range(s: Seq<char>, a: int, b: int)
    requires
        0 <= a <= b <= s.len(),
    ensures
        without(s, ',').subrange(kept(s, a), kept(s, b)) == without(s.subrange(a, b), ','),
{
    let x = s.take(a);
    let y = s.subrange(a, b);
    let z = s.skip(b);
    assert(s =~= x + y + z);
    assert(s.take(b) =~= x + y);
    lemma_without_concat(x + y, z, ',');
    lemma_without_concat(x, y, ',');
    let w = without(s, ',');
    assert(w == without(x, ',') + without(y, ',') + without(z, ','));
    assert(w.subrange(kept(s, a), kept(s, b)) =~= without(y, ','));
}

proof fn lemma_skip_kept(s: Seq<char>, p: int)
    requires
        0 <= p <= s.len(),
        !(skip_blank(s, p) < s.len() && s[skip_blank(s, p)] == ','),
    ensures
        p <= skip_blank(s, p) <= s.len(),
        skip_blank(without(s, ','), kept(s, p)) == kept(s, skip_blank(s, p)),
    decreases s.len() - p,
{
    lemma_kept_ends(s);
    if p < s.len() {
        lemma_kept_step(s, p);
        if is_blank(s[p]) {
            assert(s[p] != ',');
            lemma_skip_kept(s, p + 1);
        }
    }
}

/// Taking a token of one or two characters, none a comma, two only as
/// `**`: where it stops at no stuck position, the same as in the text
/// without commas; where it does, it takes nothing but a lone star before
/// a comma.
proof fn lemma_take_kept(s: Seq<char>, p: int, t: Seq<char>)
    requires
        0 <= p <= s.len(),
        1 <= t.len() <= 2,
        t[0] != ',',
        t.len() == 2 ==> t[0] == '*' && t[1] == '*',
    ensures
        ({
            let r = skip_blank(s, p);
            let (b, q) = take_token(s, p, t);
            let w = without(s, ',');
            &&& p <= r <= s.len()
            &&& b ==> q == r + t.len() && q > p && q <= s.len()
            &&& !b ==> q == r
            &&& !stuck(s, r) ==> take_token(w, kept(s, p), t) == (b, kept(s, q)) && matches_at(
                w,
                t,
                skip_blank(w, kept(s, p)),
            ) == matches_at(s, t, r) && skip_blank(w, kept(s, p)) == kept(s, r)
            &&& stuck(s, r) && b ==> t.len() == 1 && t[0] == '*' && q < s.len() && s[q] == ','
        }),
{
    let n = s.len() as int;
    let w = without(s, ',');
    let r = skip_blank(s, p);
    lemma_skip_blank_bounds(s, p);
    lemma_kept_ends(s);
    if !stuck(s, r) {
        lemma_skip_kept(s, p);
        let kr = kept(s, r);
        if r < n {
            lemma_kept_step(s, r);
            lemma_kept_mono(s, r + 1, n);
            if t.len() == 1 {
                if matches_at(s, t, r) {
                    assert(s.subrange(r, r + 1)[0] == s[r]);
                    assert(w.subrange(kr, kr + 1) =~= t);
                } else if matches_at(w, t, kr) {
                    assert(w.subrange(kr, kr + 1)[0] == w[kr]);
                    assert(s.subrange(r, r + 1) =~= t);
                }
            } else if s[r] == '*' && r + 1 < n {
                assert(s[r + 1] != ',');
                lemma_kept_step(s, r + 1);
                lemma_kept_mono(s, r + 2, n);
                if matches_at(s, t, r) {
                    assert(s.subrange(r, r + 2)[1] == s[r + 1]);
                    assert(w.subrange(kr, kr + 2) =~= t);
                } else if matches_at(w, t, kr) {
                    assert(w.subrange(kr, kr + 2)[1] == w[kr + 1]);
                    assert(s.subrange(r, r + 2) =~= t);
                }
            } else if s[r] == '*' {
                assert(!matches_at(w, t, kr));
            } else {
                assert(!matches_at(s, t, r)) by {
                    if matches_at(s, t, r) {
                        assert(s.subrange(r, r + 2)[0] == s[r]);
                    }
                }
                assert(!matches_at(w, t, kr)) by {
                    if matches_at(w, t, kr) {
                        assert(w.subrange(kr, kr + 2)[0] == w[kr]);
                    }
                }
            }
            if matches_at(s, t, r) {
                lemma_kept_mono(s, r, r + t.len());
                assert forall|i: int| r <= i < r + t.len() implies #[trigger] s[i] != ',' by {
                    assert(s.subrange(r, r + t.len())[i - r] == s[i]);
                }
            }
        }
    } else if matches_at(s, t, r) {
        assert(s.subrange(r, r + t.len())[0] == s[r]);
        if t.len() == 2 {
            assert(s.subrange(r, r + 2)[1] == s[r + 1]);
        }
    }
}

proof fn lemma_skip_blank_bounds(s: Seq<char>, p: int)
    requires
        0 <= p <= s.len(),
    ensures
        p <= skip_blank(s, p) <= s.len(),
        skip_blank(s, p) < s.len() ==> !is_blank(s[skip_blank(s, p)]),
    decreases s.len() - p,
{
    if p < s.len() && is_blank(s[p]) {
        lemma_skip_blank_bounds(s, p + 1);
    }
}

proof fn lemma_digits_kept(s: Seq<char>, x: int, commas: bool)
    requires
        0 <= x <= s.len(),
        commas || !(digits_end(s, x, false) < s.len() && s[digits_end(s, x, false)] == ','),
    ensures
        x <= digits_end(s, x, commas) <= s.len(),
        digits_end(without(s, ','), kept(s, x), commas) == kept(s, digits_end(s, x, commas)),
        !commas ==> kept(s, digits_end(s, x, commas)) - kept(s, x) == digits_end(s, x, commas) - x,
    decreases s.len() - x,
{
    lemma_kept_ends(s);
    if x < s.len() {
        lemma_kept_step(s, x);
        if ('0' <= s[x] <= '9') || (commas && s[x] == ',') {
            lemma_digits_kept(s, x + 1, commas);
        }
    }
}

proof fn lemma_digits_bounds(s: Seq<char>, x: int, commas: bool)
    requires
        0 <= x <= s.len(),
    ensures
        x <= digits_end(s, x, commas) <= s.len(),
        digits_end(s, x, commas) < s.len() ==> !('0' <= s[digits_end(s, x, commas)] <= '9') && !(
        commas && s[digits_end(s, x, commas)] == ','),
    decreases s.len() - x,
{
    if x < s.len() && (('0' <= s[x] <= '9') || (commas && s[x] == ',')) {
        lemma_digits_bounds(s, x + 1, commas);
    }
}

proof fn lemma_no_comma_match(s: Seq<char>, i: int)
    requires
        !has_char(s, ','),
        0 <= i,
    ensures
        first_match(s, seq![','], i) is None,
    decreases s.len() - i,
{
    if i < s.len() && i + 1 <= s.len() {
        if matches_at(s, seq![','], i) {
            assert(s.subrange(i, i + 1)[0] == s[i]);
        }
        lemma_no_comma_match(s, i + 1);
    }
}

/// A nonempty integer part without commas is well grouped; one that is
/// empty or starts with a comma is not.
proof fn lemma_grouping(integer: Seq<char>)
    ensures
        !has_char(integer, ',') && integer.len() > 0 ==> well_grouped(integer),
        integer.len() == 0 || integer[0] == ',' ==> !well_grouped(integer),
{
    if !has_char(integer, ',') {
        lemma_no_comma_match(integer, 0);
        assert(integer.subrange(0, integer.len() as int) =~= integer);
    }
    if integer.len() > 0 && integer[0] == ',' {
        assert(integer.subrange(0, 1) =~= seq![',']);
        assert(first_match(integer, seq![','], 0) == Some(0int));
        assert(split(integer, seq![','])[0] =~= integer.subrange(0, 0));
    }
}

/// Moves the literal ranges of an expression to where they land once the
/// commas of `s` are gone.
pub open spec fn remap(e: Expr, s: Seq<char>) -> Expr
    decreases e,
{
    match e {
        Expr::Number(start, end) => Expr::Number(
            kept(s, start as int) as usize,
            kept(s, end as int) as usize,
        ),
        Expr::Neg(x) => Expr::Neg(Box::new(remap(*x, s))),
        Expr::Add(x, y) => Expr::Add(Box::new(remap(*x, s)), Box::new(remap(*y, s))),
        Expr::Sub(x, y) => Expr::Sub(Box::new(remap(*x, s)), Box::new(remap(*y, s))),
        Expr::Mul(x, y) => Expr::Mul(Box::new(remap(*x, s)), Box::new(remap(*y, s))),
        Expr::Div(x, y) => Expr::Div(Box::new(remap(*x, s)), Box::new(remap(*y, s))),
        Expr::Pow(x, y) => Expr::Pow(Box::new(remap(*x, s)), Box::new(remap(*y, s))),
    }
}

/// A parse of `s` that succeeds either stops at a stuck position or, moved
/// to where its positions land, is the parse of `s` without commas; it
/// ends within `s`.
pub open spec fn parse_kept(
    s: Seq<char>,
    p: int,
    o2: Option<(Expr, int, int)>,
    o1: Option<(Expr, int, int)>,
) -> bool {
    match o1 {
        None => true,
        Some((x, q, g)) => {
            &&& p <= q <= s.len()
            &&& ranges_within(x, s.len() as int)
            &&& stuck(s, q) || o2 == Some((remap(x, s), kept(s, q), g))
        },
    }
}

proof fn lemma_literal_kept(s: Seq<char>, p: int, sig: int)
    requires
        0 <= p <= s.len(),
        s.len() <= usize::MAX,
    ensures
        parse_kept(s, p, parse_literal(without(s, ','), kept(s, p), sig), parse_literal(s, p, sig)),
{
    let n = s.len() as int;
    let w = without(s, ',');
    lemma_kept_ends(s);
    lemma_kept_mono(s, 0, n);
    lemma_skip_blank_bounds(s, p);
    let st = skip_blank(s, p);
    let end1 = digits_end(s, st, true);
    lemma_digits_kept(s, st, true);
    let integer = s.subrange(st, end1);
    lemma_grouping(integer);
    lemma_digits_bounds(s, st, true);
    assert(st as usize as int == st && end1 as usize as int == end1);
    if st < n && s[st] == ',' {
        lemma_digits_kept(s, st + 1, true);
        assert(integer[0] == s[st]);
    } else if well_grouped(integer) {
        lemma_skip_kept(s, p);
        let kst = kept(s, st);
        let kend1 = kept(s, end1);
        lemma_kept_range(s, st, end1);
        lemma_without_free(integer);
        lemma_kept_mono(s, st, end1);
        assert(integer[0] == s[st]);
        lemma_kept_step(s, st);
        lemma_kept_mono(s, st + 1, end1);
        assert(w.subrange(kst, kend1) == without(integer, ','));
        lemma_grouping(without(integer, ','));
        lemma_kept_mono(s, end1, n);
        if end1 < n {
            lemma_kept_step(s, end1);
        }
        if end1 < n && s[end1] == '.' {
            let end2 = digits_end(s, end1 + 1, false);
            lemma_digits_bounds(s, end1 + 1, false);
            assert(end2 as usize as int == end2);
            if !(end2 < n && s[end2] == ',') {
                lemma_digits_kept(s, end1 + 1, false);
            }
            if !(end2 < n && s[end2] == ',') && end2 != end1 + 1 {
                let kend2 = kept(s, end2);
                lemma_kept_range(s, st, end2);
                lemma_without_free(s.subrange(st, end2));
                assert(literal_significance(w, kst, kend1, kend2) == literal_significance(
                    s,
                    st,
                    end1,
                    end2,
                ));
                lemma_kept_mono(s, end2, n);
                assert(kend2 as usize as int == kend2);
                assert(remap(Expr::Number(st as usize, end2 as usize), s) == Expr::Number(
                    kst as usize,
                    kend2 as usize,
                ));
            }
        } else {
            lemma_kept_range(s, st, end1);
            lemma_without_free(integer);
            assert(literal_significance(w, kst, kend1, kend1) == literal_significance(
                s,
                st,
                end1,
                end1,
            ));
            assert(kend1 as usize as int == kend1 && kst as usize as int == kst);
            assert(remap(Expr::Number(st as usize, end1 as usize), s) == Expr::Number(
                kst as usize,
                kend1 as usize,
            ));
            if end1 < n {
                assert(w[kend1] == s[end1]);
                assert(s[end1] != '.');
            }
        }
    }
}

/// Nothing parses as a literal, a primary, a power or a unary expression
/// from a stuck position, after blanks.
proof fn lemma_unary_stuck(s: Seq<char>, p: int, depth: int, sig: int)
    requires
        0 <= p <= s.len(),
        stuck(s, skip_blank(s, p)),
    ensures
        parse_literal(s, p, sig) is None,
        parse_primary(s, p, depth, sig) is None,
        parse_power(s, p, depth, sig) is None,
        parse_unary(s, p, depth, sig) is None,
{
    let r = skip_blank(s, p);
    lemma_skip_blank_bounds(s, p);
    lemma_digits_bounds(s, r, true);
    lemma_grouping(s.subrange(r, digits_end(s, r, true)));
    if s[r] == ',' {
        lemma_digits_bounds(s, r + 1, true);
        assert(s.subrange(r, digits_end(s, r, true))[0] == s[r]);
    }
    lemma_take_kept(s, p, seq!['(']);
    lemma_take_kept(s, p, seq!['+']);
    let (plus, p1) = take_token(s, p, seq!['+']);
    lemma_take_kept(s, p1, seq!['-']);
    let (minus, p2) = take_token(s, p1, seq!['-']);
    assert(skip_blank(s, r) == r);
    lemma_take_kept(s, r, seq!['(']);
    assert(parse_literal(s, r, sig) is None);
    assert(parse_primary(s, r, depth + 1, sig) is None);
    assert(parse_power(s, r, depth + 1, sig) is None);
}

/// The rests of a product or a sum take nothing from a stuck position:
/// they fail, or end there.
proof fn lemma_rests_stuck(s: Seq<char>, acc: Expr, p: int, depth: int, sig: int)
    requires
        0 <= p <= s.len(),
        stuck(s, skip_blank(s, p)),
    ensures
        parse_multiply_rest(s, acc, p, depth, sig) is None || parse_multiply_rest(
            s,
            acc,
            p,
            depth,
            sig,
        ) == Some((acc, skip_blank(s, p), sig)),
        parse_additive_rest(s, acc, p, depth, sig) == Some((acc, skip_blank(s, p), sig)),
{
    let r = skip_blank(s, p);
    lemma_skip_blank_bounds(s, p);
    assert(skip_blank(s, r) == r);
    lemma_take_kept(s, p, seq!['+']);
    lemma_take_kept(s, r, seq!['-']);
    lemma_take_kept(s, r, seq!['*', '*']);
    lemma_take_kept(s, r, seq!['*']);
    let (star, p1) = take_token(s, r, seq!['*']);
    if star {
        lemma_skip_blank_bounds(s, p1);
        assert(skip_blank(s, p1) == p1);
        lemma_unary_stuck(s, p1, depth, sig);
    } else {
        lemma_take_kept(s, r, seq!['x']);
        lemma_take_kept(s, r, seq!['/']);
    }
}

#[verifier::rlimit(100)]
#[verifier::spinoff_prover]
proof fn lemma_primary_kept(s: Seq<char>, p: int, depth: int, sig: int)
    requires
        0 <= p <= s.len(),
        s.len() <= usize::MAX,
    ensures
        parse_kept(
            s,
            p,
            parse_primary(without(s, ','), kept(s, p), depth, sig),
            parse_primary(s, p, depth, sig),
        ),
    decreases s.len() - p, 0int,
{
    let w = without(s, ',');
    lemma_kept_monotone(s);
    let r = skip_blank(s, p);
    lemma_take_kept(s, p, seq!['(']);
    if stuck(s, r) {
        lemma_unary_stuck(s, p, depth, sig);
    } else {
        let (open, p1) = take_token(s, p, seq!['(']);
        if open {
            lemma_additive_kept(s, p1, depth, sig);
            if let Some((x, q, g)) = parse_additive(s, p1, depth, sig) {
                lemma_take_kept(s, q, seq![')']);
                lemma_skip_blank_bounds(s, q);
                lemma_kept_mono(s, q, s.len() as int);
            }
        } else {
            lemma_literal_kept(s, p1, sig);
        }
    }
}

#[verifier::rlimit(100)]
#[verifier::spinoff_prover]
proof fn lemma_power_kept(s: Seq<char>, p: int, depth: int, sig: int)
    requires
        0 <= p <= s.len(),
        s.len() <= usize::MAX,
    ensures
        parse_kept(
            s,
            p,
            parse_power(without(s, ','), kept(s, p), depth, sig),
            parse_power(s, p, depth, sig),
        ),
    decreases s.len() - p, 1int,
{
    lemma_kept_monotone(s);
    lemma_primary_kept(s, p, depth, sig);
    if let Some((base, q, g)) = parse_primary(s, p, depth, sig) {
        let r = skip_blank(s, q);
        lemma_skip_blank_bounds(s, q);
        lemma_take_kept(s, q, seq!['*', '*']);
        let (stars, q1) = take_token(s, q, seq!['*', '*']);
        lemma_take_kept(s, q1, seq!['^']);
        let (caret, q2) = take_token(s, q1, seq!['^']);
        if stuck(s, r) {
            assert(skip_blank(s, r) == r);
        } else {
            if stars || caret {
                let t = if stars {
                    q1
                } else {
                    q2
                };
                lemma_unary_kept(s, t, depth, g);
                if let Some((x, e, h)) = parse_unary(s, t, depth, g) {
                    assert(remap(Expr::Pow(Box::new(base), Box::new(x)), s) == Expr::Pow(
                        Box::new(remap(base, s)),
                        Box::new(remap(x, s)),
                    ));
                }
            }
        }
    }
}

#[verifier::rlimit(100)]
#[verifier::spinoff_prover]
proof fn lemma_unary_kept(s: Seq<char>, p: int, depth: int, sig: int)
    requires
        0 <= p <= s.len(),
        s.len() <= usize::MAX,
    ensures
        parse_kept(
            s,
            p,
            parse_unary(without(s, ','), kept(s, p), depth, sig),
            parse_unary(s, p, depth, sig),
        ),
    decreases s.len() - p, 2int,
{
    lemma_kept_monotone(s);
    let r = skip_blank(s, p);
    lemma_skip_blank_bounds(s, p);
    if stuck(s, r) {
        lemma_unary_stuck(s, p, depth, sig);
    } else if depth < 128 {
        lemma_take_kept(s, p, seq!['+']);
        let (plus, p1) = take_token(s, p, seq!['+']);
        if plus {
            lemma_unary_kept(s, p1, depth + 1, sig);
        } else {
            lemma_take_kept(s, p1, seq!['-']);
            let (minus, p2) = take_token(s, p1, seq!['-']);
            if minus {
                lemma_unary_kept(s, p2, depth + 1, sig);
                if let Some((x, t, h)) = parse_unary(s, p2, depth + 1, sig) {
                    assert(remap(Expr::Neg(Box::new(x)), s) == Expr::Neg(Box::new(remap(x, s))));
                }
            } else {
                lemma_power_kept(s, p2, depth + 1, sig);
            }
        }
    }
}

#[verifier::rlimit(100)]
#[verifier::spinoff_prover]
proof fn lemma_multiply_rest_kept(s: Seq<char>, acc: Expr, p: int, depth: int, sig: int)
    requires
        0 <= p <= s.len(),
        s.len() <= usize::MAX,
        ranges_within(acc, s.len() as int),
    ensures
        parse_kept(
            s,
            p,
            parse_multiply_rest(without(s, ','), remap(acc, s), kept(s, p), depth, sig),
            parse_multiply_rest(s, acc, p, depth, sig),
        ),
    decreases s.len() - p, 3int,
{
    lemma_kept_monotone(s);
    let p0 = skip_blank(s, p);
    lemma_skip_blank_bounds(s, p);
    if stuck(s, p0) {
        lemma_rests_stuck(s, acc, p, depth, sig);
    } else {
        lemma_take_kept(s, p, seq!['*', '*']);
        assert(skip_blank(s, p0) == p0);
        lemma_take_kept(s, p0, seq!['*']);
        let (star, p1) = take_token(s, p0, seq!['*']);
        lemma_take_kept(s, p1, seq!['x']);
        let (cross, p2) = take_token(s, p1, seq!['x']);
        lemma_take_kept(s, p2, seq!['/']);
        let (slash, p3) = take_token(s, p2, seq!['/']);
        lemma_skip_blank_bounds(s, p1);
        lemma_skip_blank_bounds(s, p2);
        let multiplies = star || cross;
        let q = if star {
            p1
        } else if cross {
            p2
        } else {
            p3
        };
        if !matches_at(s, seq!['*', '*'], p0) && (multiplies || slash) && p < q <= s.len() {
            lemma_unary_kept(s, q, depth, sig);
            if let Some((x, t, g)) = parse_unary(s, q, depth, sig) {
                let next = if multiplies {
                    Expr::Mul(Box::new(acc), Box::new(x))
                } else {
                    Expr::Div(Box::new(acc), Box::new(x))
                };
                assert(remap(next, s) == if multiplies {
                    Expr::Mul(Box::new(remap(acc, s)), Box::new(remap(x, s)))
                } else {
                    Expr::Div(Box::new(remap(acc, s)), Box::new(remap(x, s)))
                });
                lemma_skip_blank_bounds(s, t);
                if stuck(s, t) {
                    assert(skip_blank(s, t) == t);
                    lemma_rests_stuck(s, next, t, depth, g);
                } else {
                    lemma_multiply_rest_kept(s, next, t, depth, g);
                }
            }
        }
    }
}

#[verifier::rlimit(100)]
#[verifier::spinoff_prover]
proof fn lemma_multiply_kept(s: Seq<char>, p: int, depth: int, sig: int)
    requires
        0 <= p <= s.len(),
        s.len() <= usize::MAX,
    ensures
        parse_kept(
            s,
            p,
            parse_multiply(without(s, ','), kept(s, p), depth, sig),
            parse_multiply(s, p, depth, sig),
        ),
    decreases s.len() - p, 4int,
{
    lemma_kept_monotone(s);
    lemma_unary_kept(s, p, depth, sig);
    if let Some((x, t, g)) = parse_unary(s, p, depth, sig) {
        lemma_skip_blank_bounds(s, t);
        if stuck(s, t) {
            assert(skip_blank(s, t) == t);
            lemma_rests_stuck(s, x, t, depth, g);
        } else {
            lemma_multiply_rest_kept(s, x, t, depth, g);
        }
    }
}

#[verifier::rlimit(100)]
#[verifier::spinoff_prover]
proof fn lemma_additive_rest_kept(s: Seq<char>, acc: Expr, p: int, depth: int, sig: int)
    requires
        0 <= p <= s.len(),
        s.len() <= usize::MAX,
        ranges_within(acc, s.len() as int),
    ensures
        parse_kept(
            s,
            p,
            parse_additive_rest(without(s, ','), remap(acc, s), kept(s, p), depth, sig),
            parse_additive_rest(s, acc, p, depth, sig),
        ),
    decreases s.len() - p, 5int,
{
    lemma_kept_monotone(s);
    let r = skip_blank(s, p);
    lemma_skip_blank_bounds(s, p);
    if stuck(s, r) {
        lemma_rests_stuck(s, acc, p, depth, sig);
    } else {
        lemma_take_kept(s, p, seq!['+']);
        let (plus, p1) = take_token(s, p, seq!['+']);
        lemma_take_kept(s, p1, seq!['-']);
        let (minus, p2) = take_token(s, p1, seq!['-']);
        lemma_skip_blank_bounds(s, p1);
        let q = if plus {
            p1
        } else {
            p2
        };
        if (plus || minus) && p < q <= s.len() {
            lemma_multiply_kept(s, q, depth, sig);
            if let Some((x, t, g)) = parse_multiply(s, q, depth, sig) {
                let next = if plus {
                    Expr::Add(Box::new(acc), Box::new(x))
                } else {
                    Expr::Sub(Box::new(acc), Box::new(x))
                };
                assert(remap(next, s) == if plus {
                    Expr::Add(Box::new(remap(acc, s)), Box::new(remap(x, s)))
                } else {
                    Expr::Sub(Box::new(remap(acc, s)), Box::new(remap(x, s)))
                });
                lemma_skip_blank_bounds(s, t);
                if stuck(s, t) {
                    assert(skip_blank(s, t) == t);
                    lemma_rests_stuck(s, next, t, depth, g);
                } else {
                    lemma_additive_rest_kept(s, next, t, depth, g);
                }
            }
        }
    }
}

/// One step of the additive parse: its product, then its rest.
proof fn lemma_additive_kept_step(s: Seq<char>, p: int, depth: int, sig: int, x: Expr, t: int, g: int)
    requires
        0 <= p <= t <= s.len(),
        kept(s, p) <= kept(s, t) <= without(s, ',').len(),
        ranges_within(x, s.len() as int),
        parse_multiply(s, p, depth, sig) == Some((x, t, g)),
        stuck(s, t) ==> parse_additive_rest(s, x, t, depth, g) == Some((x, t, g)),
        !stuck(s, t) ==> parse_multiply(without(s, ','), kept(s, p), depth, sig) == Some(
            (remap(x, s), kept(s, t), g),
        ),
        !stuck(s, t) ==> parse_kept(
            s,
            t,
            parse_additive_rest(without(s, ','), remap(x, s), kept(s, t), depth, g),
            parse_additive_rest(s, x, t, depth, g),
        ),
    ensures
        parse_kept(
            s,
            p,
            parse_additive(without(s, ','), kept(s, p), depth, sig),
            parse_additive(s, p, depth, sig),
        ),
{
}

#[verifier::rlimit(100)]
#[verifier::spinoff_prover]
proof fn lemma_additive_kept(s: Seq<char>, p: int, depth: int, sig: int)
    requires
        0 <= p <= s.len(),
        s.len() <= usize::MAX,
    ensures
        parse_kept(
            s,
            p,
            parse_additive(without(s, ','), kept(s, p), depth, sig),
            parse_additive(s, p, depth, sig),
        ),
    decreases s.len() - p, 6int,
{
    lemma_kept_monotone(s);
    lemma_multiply_kept(s, p, depth, sig);
    if let Some((x, t, g)) = parse_multiply(s, p, depth, sig) {
        lemma_skip_blank_bounds(s, t);
        if stuck(s, t) {
            assert(skip_blank(s, t) == t);
            lemma_rests_stuck(s, x, t, depth, g);
        } else {
            lemma_additive_rest_kept(s, x, t, depth, g);
        }
        lemma_additive_kept_step(s, p, depth, sig, x, t, g);
    }
}

proof fn lemma_has_char_kept(s: Seq<char>, c: char)
    requires
        c != ',',
    ensures
        has_char(without(s, ','), c) == has_char(s, c),
    decreases s.len(),
{
    if s.len() > 0 {
        let rest = s.drop_last();
        lemma_has_char_kept(rest, c);
        let w = without(rest, ',');
        if has_char(s, c) {
            let i = choose|i: int| 0 <= i < s.len() && s[i] == c;
            if i < s.len() - 1 {
                assert(rest[i] == s[i]);
                let j = choose|j: int| 0 <= j < w.len() && w[j] == c;
                if s.last() != ',' {
                    assert(w.push(s.last())[j] == w[j]);
                }
            } else {
                assert(w.push(s.last())[w.len() as int] == c);
            }
        }
        if has_char(without(s, ','), c) {
            let ws = without(s, ',');
            let j = choose|j: int| 0 <= j < ws.len() && ws[j] == c;
            if s.last() != ',' && j == w.len() {
                assert(s[s.len() - 1] == c);
            } else {
                assert(w[j] == c);
                let i = choose|i: int| 0 <= i < rest.len() && rest[i] == c;
                assert(s[i] == c);
            }
        }
    }
}

proof fn lemma_literal_evaluates_kept<N: Number>(s: Seq<char>, start: usize, end: usize)
    requires
        start <= end <= s.len(),
        s.len() <= usize::MAX,
    ensures
        forall|v: Option<N>|
            #[trigger] evaluates_to::<N>(without(s, ','), remap(Expr::Number(start, end), s), v)
                == evaluates_to::<N>(s, Expr::Number(start, end), v),
{
    let w = without(s, ',');
    lemma_kept_monotone(s);
    let ks = kept(s, start as int);
    let ke = kept(s, end as int);
    assert(ks <= ke <= w.len());
    assert(ks as usize as int == ks && ke as usize as int == ke);
    let moved = Expr::Number(ks as usize, ke as usize);
    assert(remap(Expr::Number(start, end), s) == moved);
    lemma_kept_range(s, start as int, end as int);
    lemma_without_free(s.subrange(start as int, end as int));
    let text1 = without(s.subrange(start as int, end as int), ',');
    let text2 = without(w.subrange(ks, ke), ',');
    assert(text2 == text1);
    assert forall|v: Option<N>| #[trigger] evaluates_to::<N>(w, moved, v) == evaluates_to::<N>(
        s,
        Expr::Number(start, end),
        v,
    ) by {
        if evaluates_to::<N>(w, moved, v) {
            let t = choose|t: &str| #[trigger] call_ensures(N::parse_decimal, (t,), v) && t@ == text2;
            assert(call_ensures(N::parse_decimal, (t,), v) && t@ == text1);
        }
        if evaluates_to::<N>(s, Expr::Number(start, end), v) {
            let t = choose|t: &str| #[trigger] call_ensures(N::parse_decimal, (t,), v) && t@ == text1;
            assert(call_ensures(N::parse_decimal, (t,), v) && t@ == text2);
        }
    }
}

proof fn lemma_evaluates_kept<N: Number>(s: Seq<char>, e: Expr)
    requires
        ranges_within(e, s.len() as int),
        s.len() <= usize::MAX,
    ensures
        same_outcomes::<N>(without(s, ','), remap(e, s), s, e),
        same_outcomes::<N>(s, e, without(s, ','), remap(e, s)),
    decreases e,
{
    let w = without(s, ',');
    match e {
        Expr::Number(start, end) => {
            lemma_literal_evaluates_kept::<N>(s, start, end);
        },
        Expr::Neg(x) => {
            lemma_evaluates_kept::<N>(s, *x);
            let xs = remap(*x, s);
            assert(remap(e, s) == Expr::Neg(Box::new(xs)));
            assert forall|v: Option<N>| #[trigger] evaluates_to::<N>(w, remap(e, s), v)
                == evaluates_to::<N>(s, e, v) by {
                if evaluates_to::<N>(w, remap(e, s), v) {
                    lemma_neg_implies::<N>(w, xs, s, *x, v);
                }
                if evaluates_to::<N>(s, e, v) {
                    lemma_neg_implies::<N>(s, *x, w, xs, v);
                }
            }
        },
        Expr::Add(x, y) => {
            lemma_evaluates_kept::<N>(s, *x);
            lemma_evaluates_kept::<N>(s, *y);
            let xs = remap(*x, s);
            let ys = remap(*y, s);
            assert(remap(e, s) == Expr::Add(Box::new(xs), Box::new(ys)));
            assert forall|v: Option<N>| #[trigger] evaluates_to::<N>(w, remap(e, s), v)
                == evaluates_to::<N>(s, e, v) by {
                if evaluates_to::<N>(w, remap(e, s), v) {
                    lemma_add_implies::<N>(w, xs, ys, s, *x, *y, v);
                }
                if evaluates_to::<N>(s, e, v) {
                    lemma_add_implies::<N>(s, *x, *y, w, xs, ys, v);
                }
            }
        },
        Expr::Sub(x, y) => {
            lemma_evaluates_kept::<N>(s, *x);
            lemma_evaluates_kept::<N>(s, *y);
            let xs = remap(*x, s);
            let ys = remap(*y, s);
            assert(remap(e, s) == Expr::Sub(Box::new(xs), Box::new(ys)));
            assert forall|v: Option<N>| #[trigger] evaluates_to::<N>(w, remap(e, s), v)
                == evaluates_to::<N>(s, e, v) by {
                if evaluates_to::<N>(w, remap(e, s), v) {
                    lemma_sub_implies::<N>(w, xs, ys, s, *x, *y, v);
                }
                if evaluates_to::<N>(s, e, v) {
                    lemma_sub_implies::<N>(s, *x, *y, w, xs, ys, v);
                }
            }
        },
        Expr::Mul(x, y) => {
            lemma_evaluates_kept::<N>(s, *x);
            lemma_evaluates_kept::<N>(s, *y);
            let xs = remap(*x, s);
            let ys = remap(*y, s);
            assert(remap(e, s) == Expr::Mul(Box::new(xs), Box::new(ys)));
            assert forall|v: Option<N>| #[trigger] evaluates_to::<N>(w, remap(e, s), v)
                == evaluates_to::<N>(s, e, v) by {
                if evaluates_to::<N>(w, remap(e, s), v) {
                    lemma_mul_implies::<N>(w, xs, ys, s, *x, *y, v);
                }
                if evaluates_to::<N>(s, e, v) {
                    lemma_mul_implies::<N>(s, *x, *y, w, xs, ys, v);
                }
            }
        },
        Expr::Div(x, y) => {
            lemma_evaluates_kept::<N>(s, *x);
            lemma_evaluates_kept::<N>(s, *y);
            let xs = remap(*x, s);
            let ys = remap(*y, s);
            assert(remap(e, s) == Expr::Div(Box::new(xs), Box::new(ys)));
            assert forall|v: Option<N>| #[trigger] evaluates_to::<N>(w, remap(e, s), v)
                == evaluates_to::<N>(s, e, v) by {
                if evaluates_to::<N>(w, remap(e, s), v) {
                    lemma_div_implies::<N>(w, xs, ys, s, *x, *y, v);
                }
                if evaluates_to::<N>(s, e, v) {
                    lemma_div_implies::<N>(s, *x, *y, w, xs, ys, v);
                }
            }
        },
        Expr::Pow(x, y) => {
            lemma_evaluates_kept::<N>(s, *x);
            lemma_evaluates_kept::<N>(s, *y);
            let xs = remap(*x, s);
            let ys = remap(*y, s);
            assert(remap(e, s) == Expr::Pow(Box::new(xs), Box::new(ys)));
            assert forall|v: Option<N>| #[trigger] evaluates_to::<N>(w, remap(e, s), v)
                == evaluates_to::<N>(s, e, v) by {
                if evaluates_to::<N>(w, remap(e, s), v) {
                    lemma_pow_implies::<N>(w, xs, ys, s, *x, *y, v);
                }
                if evaluates_to::<N>(s, e, v) {
                    lemma_pow_implies::<N>(s, *x, *y, w, xs, ys, v);
                }
            }
        },
    }
}

/// The parse of an expression without its commas is the parse of the
/// expression, moved to where its positions land.
proof fn lemma_parse_expression_kept(s: Seq<char>)
    requires
        parse_expression(s) is Some,
        s.len() <= usize::MAX,
    ensures
        ({
            let (x, g) = parse_expression(s)->0;
            &&& parse_expression(without(s, ',')) == Some((remap(x, s), g))
            &&& ranges_within(x, s.len() as int)
        }),
{
    lemma_additive_kept(s, 0, 0, 0);
    lemma_kept_monotone(s);
    let (x, q, g) = parse_additive(s, 0, 0, 0)->0;
    lemma_skip_blank_bounds(s, q);
    if stuck(s, q) {
        assert(skip_blank(s, q) == q);
    }
    lemma_skip_kept(s, q);
}

/// Removing the thousands separators of an expression removes them from
/// what it calculates: without its commas, each outcome of the expression
/// is an outcome of the expression without commas, in a number type whose
/// scientific text holds no comma.
pub proof fn lemma_commas_removed<N: Number>(e: Seq<char>, a: Seq<char>, b: Seq<char>)
    requires
        forall|v: N, t: String|
            #[trigger] call_ensures(N::to_scientific, (&v,), t) ==> !has_char(t@, ','),
        calculation::<N>(e, Some((a, b))),
        e.len() <= usize::MAX,
    ensures
        calculation::<N>(without(e, ','), Some((without(a, ','), without(b, ',')))),
{
    let w = without(e, ',');
    lemma_parse_expression_kept(e);
    let (x, g) = parse_expression(e)->0;
    lemma_evaluates_kept::<N>(e, x);
    let r = Some((a, b));
    let v = choose|v: Option<N>|
        #[trigger] outcome::<N>(v) && evaluates_to::<N>(e, x, v) && match v {
            None => r is None,
            Some(value) => value_texts::<N>(e, g, value, r),
        };
    let value = v->0;
    lemma_without_free(e);
    lemma_has_char_kept(e, '.');
    lemma_texts_without_commas::<N>(e, w, g, value, a, b);
    assert(evaluates_to::<N>(w, remap(x, e), v));
    assert(outcome::<N>(v));
}

} // verus!
