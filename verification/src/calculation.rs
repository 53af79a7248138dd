//! The selection calculator: a recursive-descent parser for arithmetic on
//! decimal literals with optional thousands separators, the evaluation of
//! the parsed expression in a caller-chosen number type, and the decimal
//! text of the result (rounded to the precision of the input, and grouped
//! like the input).
use vstd::prelude::*;


use crate::text::{
    chars_of, has_char, has_char_exec, is_whitespace, matches_at, push_all, slice_chars, split,
    split_chars, spec_is_whitespace, string_from_chars, views,
};

verus! {

/// The number type an expression is evaluated in: the arithmetic and the
/// texts that the calculator reads off a value.
pub trait Number: Sized {
    /// Parses a decimal literal such as `1000.5`.
    fn parse_decimal(text: &str) -> Option<Self>;

    fn add(&self, other: &Self) -> Self;

    fn sub(&self, other: &Self) -> Self;

    fn mul(&self, other: &Self) -> Self;

    fn div(&self, other: &Self) -> Self;

    fn neg(&self) -> Self;

    /// `self` raised to the power `exponent`.
    fn pow(&self, exponent: &Self) -> Self;

    fn is_zero(&self) -> bool;

    fn is_finite(&self) -> bool;

    /// Whether the value is below zero.
    fn is_negative(&self) -> bool;

    /// Whether the value is so large or so small that its precise text uses
    /// scientific notation.
    fn needs_scientific(&self) -> bool;

    /// The shortest decimal text that reads back as the value, without an
    /// exponent, such as `-0.125`.
    fn to_decimal(&self) -> String;

    /// The shortest scientific text that reads back as the value, such as
    /// `-1.25e-1`.
    fn to_scientific(&self) -> String;
}

/// A parsed expression; a number is the range of its literal in the input.
pub enum Expr {
    Number(usize, usize),
    Neg(Box<Expr>),
    Add(Box<Expr>, Box<Expr>),
    Sub(Box<Expr>, Box<Expr>),
    Mul(Box<Expr>, Box<Expr>),
    Div(Box<Expr>, Box<Expr>),
    Pow(Box<Expr>, Box<Expr>),
}

/// The state a parse returns: the expression, the position after it and the
/// largest count of significant digits among its literals so far.
pub struct Parsed {
    pub expr: Expr,
    pub pos: usize,
    pub significant: usize,
}

/// Whitespace, or the byte order mark, which the parser skips.
pub open spec fn is_blank(c: char) -> bool {
    spec_is_whitespace(c) || c == '\u{feff}'
}

/// The first position at or after `pos` that is not blank.
pub open spec fn skip_blank(s: Seq<char>, pos: int) -> int
    decreases s.len() - pos,
{
    if 0 <= pos < s.len() && is_blank(s[pos]) {
        skip_blank(s, pos + 1)
    } else {
        pos
    }
}

/// Skips blanks, then consumes `token` if it comes next; gives whether it
/// did and the new position.
pub open spec fn take_token(s: Seq<char>, pos: int, token: Seq<char>) -> (bool, int) {
    let p = skip_blank(s, pos);
    if matches_at(s, token, p) {
        (true, p + token.len())
    } else {
        (false, p)
    }
}

/// The first position at or after `pos` that holds neither an ASCII digit
/// nor, when `commas` holds, a comma.
pub open spec fn digits_end(s: Seq<char>, pos: int, commas: bool) -> int
    decreases s.len() - pos,
{
    if 0 <= pos < s.len() && (('0' <= s[pos] <= '9') || (commas && s[pos] == ',')) {
        digits_end(s, pos + 1, commas)
    } else {
        pos
    }
}

/// `s` without any occurrence of `c`.
pub open spec fn without(s: Seq<char>, c: char) -> Seq<char>
    decreases s.len(),
{
    if s.len() == 0 {
        s
    } else if s.last() == c {
        without(s.drop_last(), c)
    } else {
        without(s.drop_last(), c).push(s.last())
    }
}

/// The first position at or after `k` whose character is not `c`.
pub open spec fn run_end_of(s: Seq<char>, k: int, c: char) -> int
    decreases s.len() - k,
{
    if 0 <= k < s.len() && s[k] == c {
        run_end_of(s, k + 1, c)
    } else {
        k
    }
}

/// The integer part of a literal is well grouped: it is not empty and, if
/// it has commas, it starts with one to three digits and every later group
/// has three.
pub open spec fn well_grouped(integer: Seq<char>) -> bool {
    let groups = split(integer, seq![',']);
    &&& groups[0].len() > 0
    &&& groups.len() > 1 ==> groups[0].len() <= 3 && forall|i: int|
        1 <= i < groups.len() ==> #[trigger] groups[i].len() == 3
}

/// The significant digits of the literal `s[start..end]`: its digits without
/// leading zeros; for a literal that is all zeros, the number of its
/// fraction digits, at least one.
pub open spec fn literal_significance(s: Seq<char>, start: int, dot: int, end: int) -> int {
    let token = without(s.subrange(start, end), ',');
    let digits = without(token, '.');
    let count = digits.len() - run_end_of(digits, 0, '0');
    if count == 0 {
        if dot < end {
            if end - (dot + 1) > 1 {
                end - (dot + 1)
            } else {
                1
            }
        } else {
            1
        }
    } else {
        count
    }
}

pub open spec fn max(a: int, b: int) -> int {
    if a >= b {
        a
    } else {
        b
    }
}

/// A number literal at `pos` (after blanks): digits with optional thousands
/// separators, then optionally a point and at least one digit.
pub open spec fn parse_literal(s: Seq<char>, pos: int, sig: int) -> Option<(Expr, int, int)> {
    let start = skip_blank(s, pos);
    let end1 = digits_end(s, start, true);
    if !well_grouped(s.subrange(start, end1)) {
        None
    } else if end1 < s.len() && s[end1] == '.' {
        let end2 = digits_end(s, end1 + 1, false);
        if end2 == end1 + 1 {
            None
        } else {
            Some(
                (
                    Expr::Number(start as usize, end2 as usize),
                    end2,
                    max(sig, literal_significance(s, start, end1, end2)),
                ),
            )
        }
    } else {
        Some(
            (
                Expr::Number(start as usize, end1 as usize),
                end1,
                max(sig, literal_significance(s, start, end1, end1)),
            ),
        )
    }
}

/// `primary := '(' additive ')' | literal`
pub open spec fn parse_primary(s: Seq<char>, pos: int, depth: int, sig: int) -> Option<
    (Expr, int, int),
>
    decreases s.len() - pos, 0int,
{
    let (open, p1) = take_token(s, pos, seq!['(']);
    if open {
        if p1 <= pos || p1 > s.len() {
            None
        } else {
            match parse_additive(s, p1, depth, sig) {
                None => None,
                Some((e, p, g)) => {
                    let (close, q) = take_token(s, p, seq![')']);
                    if close {
                        Some((e, q, g))
                    } else {
                        None
                    }
                },
            }
        }
    } else {
        parse_literal(s, p1, sig)
    }
}

/// `power := primary (('**' | '^') unary)?`
pub open spec fn parse_power(s: Seq<char>, pos: int, depth: int, sig: int) -> Option<
    (Expr, int, int),
>
    decreases s.len() - pos, 1int,
{
    match parse_primary(s, pos, depth, sig) {
        None => None,
        Some((base, p, g)) => {
            if p < pos || p > s.len() {
                None
            } else {
                let (stars, q1) = take_token(s, p, seq!['*', '*']);
                let (caret, q2) = take_token(s, q1, seq!['^']);
                if stars || caret {
                    let q = if stars {
                        q1
                    } else {
                        q2
                    };
                    if q <= p || q > s.len() {
                        None
                    } else {
                        match parse_unary(s, q, depth, g) {
                            None => None,
                            Some((exponent, r, h)) => Some(
                                (Expr::Pow(Box::new(base), Box::new(exponent)), r, h),
                            ),
                        }
                    }
                } else {
                    Some((base, q2, g))
                }
            }
        }
    }
}

/// `unary := ('+' | '-') unary | power`, at most 128 levels deep.
pub open spec fn parse_unary(s: Seq<char>, pos: int, depth: int, sig: int) -> Option<
    (Expr, int, int),
>
    decreases s.len() - pos, 2int,
{
    if depth >= 128 {
        None
    } else {
        let (plus, p1) = take_token(s, pos, seq!['+']);
        if plus {
            if p1 <= pos || p1 > s.len() {
                None
            } else {
                parse_unary(s, p1, depth + 1, sig)
            }
        } else {
            let (minus, p2) = take_token(s, p1, seq!['-']);
            if minus {
                if p2 <= pos || p2 > s.len() {
                    None
                } else {
                    match parse_unary(s, p2, depth + 1, sig) {
                        None => None,
                        Some((e, p, g)) => Some((Expr::Neg(Box::new(e)), p, g)),
                    }
                }
            } else {
                if p2 < pos || p2 > s.len() {
                    None
                } else {
                    parse_power(s, p2, depth + 1, sig)
                }
            }
        }
    }
}

/// The rest of `multiply := unary (('*' | 'x' | '/') unary)*` after `acc`;
/// it stops before `**`.
pub open spec fn parse_multiply_rest(
    s: Seq<char>,
    acc: Expr,
    pos: int,
    depth: int,
    sig: int,
) -> Option<(Expr, int, int)>
    decreases s.len() - pos, 3int,
{
    let p0 = skip_blank(s, pos);
    if matches_at(s, seq!['*', '*'], p0) {
        Some((acc, p0, sig))
    } else {
        let (star, p1) = take_token(s, p0, seq!['*']);
        let (cross, p2) = take_token(s, p1, seq!['x']);
        let (slash, p3) = take_token(s, p2, seq!['/']);
        let multiplies = star || cross;
        if multiplies || slash {
            let q = if star {
                p1
            } else if cross {
                p2
            } else {
                p3
            };
            if q <= pos || q > s.len() {
                None
            } else {
                match parse_unary(s, q, depth, sig) {
                    None => None,
                    Some((e, p, g)) => {
                        if p < q || p > s.len() {
                            None
                        } else {
                            let next = if multiplies {
                                Expr::Mul(Box::new(acc), Box::new(e))
                            } else {
                                Expr::Div(Box::new(acc), Box::new(e))
                            };
                            parse_multiply_rest(s, next, p, depth, g)
                        }
                    },
                }
            }
        } else {
            Some((acc, p3, sig))
        }
    }
}

/// `multiply := unary (('*' | 'x' | '/') unary)*`
pub open spec fn parse_multiply(s: Seq<char>, pos: int, depth: int, sig: int) -> Option<
    (Expr, int, int),
>
    decreases s.len() - pos, 4int,
{
    match parse_unary(s, pos, depth, sig) {
        None => None,
        Some((e, p, g)) => if p < pos || p > s.len() {
            None
        } else {
            parse_multiply_rest(s, e, p, depth, g)
        },
    }
}

/// The rest of `additive := multiply (('+' | '-') multiply)*` after `acc`.
pub open spec fn parse_additive_rest(
    s: Seq<char>,
    acc: Expr,
    pos: int,
    depth: int,
    sig: int,
) -> Option<(Expr, int, int)>
    decreases s.len() - pos, 5int,
{
    let (plus, p1) = take_token(s, pos, seq!['+']);
    let (minus, p2) = take_token(s, p1, seq!['-']);
    if plus || minus {
        let q = if plus {
            p1
        } else {
            p2
        };
        if q <= pos || q > s.len() {
            None
        } else {
            match parse_multiply(s, q, depth, sig) {
                None => None,
                Some((e, p, g)) => {
                    if p < q || p > s.len() {
                        None
                    } else {
                        let next = if plus {
                            Expr::Add(Box::new(acc), Box::new(e))
                        } else {
                            Expr::Sub(Box::new(acc), Box::new(e))
                        };
                        parse_additive_rest(s, next, p, depth, g)
                    }
                },
            }
        }
    } else {
        Some((acc, p2, sig))
    }
}

/// `additive := multiply (('+' | '-') multiply)*`
pub open spec fn parse_additive(s: Seq<char>, pos: int, depth: int, sig: int) -> Option<
    (Expr, int, int),
>
    decreases s.len() - pos, 6int,
{
    match parse_multiply(s, pos, depth, sig) {
        None => None,
        Some((e, p, g)) => if p < pos || p > s.len() {
            None
        } else {
            parse_additive_rest(s, e, p, depth, g)
        },
    }
}

/// The parse of a whole expression: an additive expression followed by
/// nothing but blanks.
pub open spec fn parse_expression(s: Seq<char>) -> Option<(Expr, int)> {
    match parse_additive(s, 0, 0, 0) {
        None => None,
        Some((e, p, g)) => if skip_blank(s, p) == s.len() {
            Some((e, g))
        } else {
            None
        },
    }
}

pub open spec fn parsed_as(r: Option<Parsed>, spec: Option<(Expr, int, int)>, pos: int, len: int) -> bool {
    match r {
        Some(p) => spec == Some((p.expr, p.pos as int, p.significant as int)) && pos <= p.pos
            <= len,
        None => spec is None,
    }
}

/// The characters of an expression, with the parser over them.
pub struct Parser {
    pub input: Vec<char>,
}

impl Parser {
    /// The first position at or after `pos` that is not blank.
    pub fn skip(&self, pos: usize) -> (r: usize)
        requires
            pos <= self.input.len(),
        ensures
            r as int == skip_blank(self.input@, pos as int),
            pos <= r <= self.input.len(),
    {
        let mut p = pos;
        while p < self.input.len() && (is_whitespace(self.input[p]) || self.input[p] == '\u{feff}')
            invariant
                pos <= p <= self.input.len(),
                skip_blank(self.input@, pos as int) == skip_blank(self.input@, p as int),
            decreases self.input.len() - p,
        {
            p += 1;
        }
        p
    }

    /// Skips blanks, then consumes the one-character token `c` if it comes
    /// next.
    pub fn take(&self, pos: usize, c: char) -> (r: (bool, usize))
        requires
            pos <= self.input.len(),
        ensures
            (r.0, r.1 as int) == take_token(self.input@, pos as int, seq![c]),
            pos <= r.1 <= self.input.len(),
            r.0 ==> pos < r.1,
    {
        let p = self.skip(pos);
        if p < self.input.len() && self.input[p] == c {
            assert(self.input@.subrange(p as int, p + 1) =~= seq![c]);
            (true, p + 1)
        } else {
            assert(!matches_at(self.input@, seq![c], p as int)) by {
                if p < self.input.len() {
                    assert(self.input@.subrange(p as int, p + 1)[0] == self.input@[p as int]);
                }
            }
            (false, p)
        }
    }

    /// Whether `**` comes at `p`.
    fn double_star_at(&self, p: usize) -> (r: bool)
        requires
            p <= self.input.len(),
        ensures
            r == matches_at(self.input@, seq!['*', '*'], p as int),
    {
        if self.input.len() - p > 1 && self.input[p] == '*' && self.input[p + 1] == '*' {
            assert(self.input@.subrange(p as int, p + 2) =~= seq!['*', '*']);
            true
        } else {
            assert(!matches_at(self.input@, seq!['*', '*'], p as int)) by {
                if p + 1 < self.input.len() {
                    let sub = self.input@.subrange(p as int, p + 2);
                    assert(sub[0] == self.input@[p as int]);
                    assert(sub[1] == self.input@[p + 1]);
                }
            }
            false
        }
    }

    /// Skips blanks, then consumes `**` if it comes next.
    fn take_double_star(&self, pos: usize) -> (r: (bool, usize))
        requires
            pos <= self.input.len(),
        ensures
            (r.0, r.1 as int) == take_token(self.input@, pos as int, seq!['*', '*']),
            pos <= r.1 <= self.input.len(),
            r.0 ==> pos < r.1,
    {
        let p = self.skip(pos);
        if self.double_star_at(p) {
            (true, p + 2)
        } else {
            (false, p)
        }
    }

    fn digits_end(&self, pos: usize, commas: bool) -> (r: usize)
        requires
            pos <= self.input.len(),
        ensures
            r as int == digits_end(self.input@, pos as int, commas),
            pos <= r <= self.input.len(),
    {
        let mut p = pos;
        while p < self.input.len() && (('0' <= self.input[p] && self.input[p] <= '9') || (commas
            && self.input[p] == ','))
            invariant
                pos <= p <= self.input.len(),
                digits_end(self.input@, pos as int, commas) == digits_end(
                    self.input@,
                    p as int,
                    commas,
                ),
            decreases self.input.len() - p,
        {
            p += 1;
        }
        p
    }

    fn literal(&self, pos: usize, sig: usize) -> (r: Option<Parsed>)
        requires
            pos <= self.input.len(),
        ensures
            parsed_as(r, parse_literal(self.input@, pos as int, sig as int), pos as int, self.input.len() as int),
    {
        let start = self.skip(pos);
        let end1 = self.digits_end(start, true);
        let integer = slice_chars(&self.input, start, end1);
        if !well_grouped_exec(&integer) {
            return None;
        }
        let (dot, end) = if end1 < self.input.len() && self.input[end1] == '.' {
            let end2 = self.digits_end(end1 + 1, false);
            if end2 == end1 + 1 {
                return None;
            }
            (end1, end2)
        } else {
            (end1, end1)
        };
        let count = significance(&self.input, start, dot, end);
        let significant = if sig >= count {
            sig
        } else {
            count
        };
        Some(Parsed { expr: Expr::Number(start, end), pos: end, significant })
    }

    pub fn primary(&self, pos: usize, depth: usize, sig: usize) -> (r: Option<Parsed>)
        requires
            pos <= self.input.len(),
        ensures
            parsed_as(r, parse_primary(self.input@, pos as int, depth as int, sig as int), pos as int, self.input.len() as int),
        decreases self.input.len() - pos, 0int,
    {
        let (open, p1) = self.take(pos, '(');
        if open {
            let inner = self.additive(p1, depth, sig)?;
            let (close, q) = self.take(inner.pos, ')');
            if close {
                Some(Parsed { expr: inner.expr, pos: q, significant: inner.significant })
            } else {
                None
            }
        } else {
            self.literal(p1, sig)
        }
    }

    pub fn power(&self, pos: usize, depth: usize, sig: usize) -> (r: Option<Parsed>)
        requires
            pos <= self.input.len(),
        ensures
            parsed_as(r, parse_power(self.input@, pos as int, depth as int, sig as int), pos as int, self.input.len() as int),
        decreases self.input.len() - pos, 1int,
    {
        let base = self.primary(pos, depth, sig)?;
        let (stars, q1) = self.take_double_star(base.pos);
        let (caret, q2) = self.take(q1, '^');
        if stars || caret {
            let q = if stars {
                q1
            } else {
                q2
            };
            let exponent = self.unary(q, depth, base.significant)?;
            Some(
                Parsed {
                    expr: Expr::Pow(Box::new(base.expr), Box::new(exponent.expr)),
                    pos: exponent.pos,
                    significant: exponent.significant,
                },
            )
        } else {
            Some(Parsed { expr: base.expr, pos: q2, significant: base.significant })
        }
    }

    pub fn unary(&self, pos: usize, depth: usize, sig: usize) -> (r: Option<Parsed>)
        requires
            pos <= self.input.len(),
        ensures
            parsed_as(r, parse_unary(self.input@, pos as int, depth as int, sig as int), pos as int, self.input.len() as int),
        decreases self.input.len() - pos, 2int,
    {
        if depth >= 128 {
            return None;
        }
        let (plus, p1) = self.take(pos, '+');
        if plus {
            return self.unary(p1, depth + 1, sig);
        }
        let (minus, p2) = self.take(p1, '-');
        if minus {
            let inner = self.unary(p2, depth + 1, sig)?;
            return Some(
                Parsed {
                    expr: Expr::Neg(Box::new(inner.expr)),
                    pos: inner.pos,
                    significant: inner.significant,
                },
            );
        }
        self.power(p2, depth + 1, sig)
    }

    pub fn multiply(&self, pos: usize, depth: usize, sig: usize) -> (r: Option<Parsed>)
        requires
            pos <= self.input.len(),
        ensures
            parsed_as(r, parse_multiply(self.input@, pos as int, depth as int, sig as int), pos as int, self.input.len() as int),
        decreases self.input.len() - pos, 4int,
    {
        let first = self.unary(pos, depth, sig)?;
        let mut acc = first.expr;
        let mut p = first.pos;
        let mut g = first.significant;
        loop
            invariant
                pos <= p <= self.input.len(),
                parse_multiply(self.input@, pos as int, depth as int, sig as int)
                    == parse_multiply_rest(self.input@, acc, p as int, depth as int, g as int),
            decreases self.input.len() - p,
        {
            let p0 = self.skip(p);
            if self.double_star_at(p0) {
                return Some(Parsed { expr: acc, pos: p0, significant: g });
            }
            let (star, p1) = self.take(p0, '*');
            let (cross, p2) = self.take(p1, 'x');
            let (slash, p3) = self.take(p2, '/');
            let multiplies = star || cross;
            if multiplies || slash {
                let q = if star {
                    p1
                } else if cross {
                    p2
                } else {
                    p3
                };
                let rhs = self.unary(q, depth, g)?;
                acc = if multiplies {
                    Expr::Mul(Box::new(acc), Box::new(rhs.expr))
                } else {
                    Expr::Div(Box::new(acc), Box::new(rhs.expr))
                };
                p = rhs.pos;
                g = rhs.significant;
            } else {
                return Some(Parsed { expr: acc, pos: p3, significant: g });
            }
        }
    }

    pub fn additive(&self, pos: usize, depth: usize, sig: usize) -> (r: Option<Parsed>)
        requires
            pos <= self.input.len(),
        ensures
            parsed_as(r, parse_additive(self.input@, pos as int, depth as int, sig as int), pos as int, self.input.len() as int),
        decreases self.input.len() - pos, 6int,
    {
        let first = self.multiply(pos, depth, sig)?;
        let mut acc = first.expr;
        let mut p = first.pos;
        let mut g = first.significant;
        loop
            invariant
                pos <= p <= self.input.len(),
                parse_additive(self.input@, pos as int, depth as int, sig as int)
                    == parse_additive_rest(self.input@, acc, p as int, depth as int, g as int),
            decreases self.input.len() - p,
        {
            let (plus, p1) = self.take(p, '+');
            let (minus, p2) = self.take(p1, '-');
            if plus || minus {
                let q = if plus {
                    p1
                } else {
                    p2
                };
                let rhs = self.multiply(q, depth, g)?;
                acc = if plus {
                    Expr::Add(Box::new(acc), Box::new(rhs.expr))
                } else {
                    Expr::Sub(Box::new(acc), Box::new(rhs.expr))
                };
                p = rhs.pos;
                g = rhs.significant;
            } else {
                return Some(Parsed { expr: acc, pos: p2, significant: g });
            }
        }
    }
}

fn well_grouped_exec(integer: &Vec<char>) -> (r: bool)
    ensures
        r == well_grouped(integer@),
{
    let mut comma: Vec<char> = Vec::new();
    comma.push(',');
    assert(comma@ =~= seq![',']);
    let groups = split_chars(integer, &comma);
    proof {
        crate::text::lemma_split_nonempty(integer@, seq![',']);
    }
    assert(views(groups@)[0] == groups@[0]@);
    if groups[0].len() == 0 {
        return false;
    }
    if groups.len() > 1 {
        if groups[0].len() > 3 {
            return false;
        }
        let mut i: usize = 1;
        while i < groups.len()
            invariant
                1 <= i <= groups.len(),
                views(groups@) == split(integer@, seq![',']),
                forall|j: int| 1 <= j < i ==> #[trigger] views(groups@)[j].len() == 3,
            decreases groups.len() - i,
        {
            assert(views(groups@)[i as int] == groups@[i as int]@);
            if groups[i].len() != 3 {
                return false;
            }
            i += 1;
        }
    }
    true
}

/// `s` without the character `c`.
fn without_exec(s: &Vec<char>, c: char) -> (r: Vec<char>)
    ensures
        r@ == without(s@, c),
{
    let mut r: Vec<char> = Vec::new();
    let mut i: usize = 0;
    while i < s.len()
        invariant
            i <= s.len(),
            r@ == without(s@.take(i as int), c),
        decreases s.len() - i,
    {
        assert(s@.take(i + 1).drop_last() =~= s@.take(i as int));
        if s[i] != c {
            r.push(s[i]);
        }
        i += 1;
    }
    assert(s@.take(s.len() as int) =~= s@);
    r
}

fn significance(s: &Vec<char>, start: usize, dot: usize, end: usize) -> (r: usize)
    requires
        start <= dot <= end <= s.len(),
    ensures
        r as int == literal_significance(s@, start as int, dot as int, end as int),
{
    let literal = slice_chars(s, start, end);
    let token = without_exec(&literal, ',');
    let digits = without_exec(&token, '.');
    proof {
        lemma_without_len(literal@, ',');
        lemma_without_len(token@, '.');
    }
    let mut z: usize = 0;
    while z < digits.len() && digits[z] == '0'
        invariant
            z <= digits.len(),
            run_end_of(digits@, 0, '0') == run_end_of(digits@, z as int, '0'),
        decreases digits.len() - z,
    {
        z += 1;
    }
    let count = digits.len() - z;
    if count == 0 {
        if dot < end {
            let fraction = end - (dot + 1);
            if fraction > 1 {
                fraction
            } else {
                1
            }
        } else {
            1
        }
    } else {
        count
    }
}

proof fn lemma_without_len(s: Seq<char>, c: char)
    ensures
        without(s, c).len() <= s.len(),
    decreases s.len(),
{
    if s.len() > 0 {
        lemma_without_len(s.drop_last(), c);
    }
}

/// An ASCII digit.
pub open spec fn is_digit(c: char) -> bool {
    '0' <= c <= '9'
}

pub open spec fn all_digits(s: Seq<char>) -> bool {
    forall|i: int| 0 <= i < s.len() ==> is_digit(#[trigger] s[i])
}

/// The value of a string of decimal digits.
pub open spec fn digits_value(s: Seq<char>) -> int
    decreases s.len(),
{
    if s.len() == 0 {
        0
    } else {
        digits_value(s.drop_last()) * 10 + (s.last() as int - '0' as int)
    }
}

/// `i32::from_str`: an optional sign, then one or more digits, in range.
pub open spec fn spec_parse_i32(s: Seq<char>) -> Option<i32> {
    let negative = s.len() > 0 && s[0] == '-';
    let body = if s.len() > 0 && (s[0] == '-' || s[0] == '+') {
        s.drop_first()
    } else {
        s
    };
    if body.len() == 0 || !all_digits(body) {
        None
    } else {
        let v = if negative {
            -digits_value(body)
        } else {
            digits_value(body)
        };
        if i32::MIN <= v <= i32::MAX {
            Some(v as i32)
        } else {
            None
        }
    }
}

proof fn lemma_digits_value_prefix(s: Seq<char>, k: int)
    requires
        all_digits(s),
        0 <= k <= s.len(),
    ensures
        0 <= digits_value(s.take(k)) <= digits_value(s),
    decreases s.len(),
{
    if k < s.len() {
        lemma_digits_value_prefix(s.drop_last(), k);
        assert(s.drop_last().take(k) =~= s.take(k));
        assert(is_digit(s[s.len() - 1]));
    } else {
        assert(s.take(k) =~= s);
        lemma_digits_value_nonneg(s);
    }
}

proof fn lemma_digits_value_nonneg(s: Seq<char>)
    requires
        all_digits(s),
    ensures
        digits_value(s) >= 0,
    decreases s.len(),
{
    if s.len() > 0 {
        lemma_digits_value_nonneg(s.drop_last());
        assert(is_digit(s[s.len() - 1]));
    }
}

/// Parses a decimal `i32` as `str::parse::<i32>` does.
pub fn parse_i32(s: &Vec<char>) -> (r: Option<i32>)
    ensures
        r == spec_parse_i32(s@),
{
    let negative = s.len() > 0 && s[0] == '-';
    let start: usize = if s.len() > 0 && (s[0] == '-' || s[0] == '+') {
        1
    } else {
        0
    };
    let body = slice_chars(s, start, s.len());
    let ghost spec_body = if s@.len() > 0 && (s@[0] == '-' || s@[0] == '+') {
        s@.drop_first()
    } else {
        s@
    };
    assert(body@ =~= spec_body);
    if body.len() == 0 {
        return None;
    }
    let mut value: i64 = 0;
    let mut i: usize = 0;
    while i < body.len()
        invariant
            i <= body.len(),
            all_digits(body@.take(i as int)),
            body@ == spec_body,
            spec_body == (if s@.len() > 0 && (s@[0] == '-' || s@[0] == '+') {
                s@.drop_first()
            } else {
                s@
            }),
            value == digits_value(body@.take(i as int)),
            0 <= value <= 0x8000_0000,
        decreases body.len() - i,
    {
        let c = body[i];
        if !('0' <= c && c <= '9') {
            assert(!is_digit(spec_body[i as int]));
            return None;
        }
        let ghost before = body@.take(i as int);
        assert(body@.take(i + 1).drop_last() =~= before);
        value = value * 10 + (c as i64 - '0' as i64);
        i += 1;
        assert(all_digits(body@.take(i as int))) by {
            assert forall|j: int| 0 <= j < i implies is_digit(#[trigger] body@.take(i as int)[j]) by {
                if j < i - 1 {
                    assert(body@.take(i as int)[j] == before[j]);
                }
            }
        }
        if value > 0x8000_0000 {
            proof {
                if all_digits(spec_body) {
                    lemma_digits_value_prefix(spec_body, i as int);
                }
            }
            return None;
        }
    }
    assert(body@.take(body.len() as int) =~= body@);
    if negative {
        Some((-value) as i32)
    } else if value <= 0x7fff_ffff {
        Some(value as i32)
    } else {
        None
    }
}

/// Splits at the first `'.'`: the part before it, the part after it and
/// whether there was one.
pub open spec fn split_dot(s: Seq<char>) -> (Seq<char>, Seq<char>, bool) {
    match first_index(s, '.') {
        Some(i) => (s.take(i), s.skip(i + 1), true),
        None => (s, seq![], false),
    }
}

/// The first index at or after `i` where `c` occurs in `s`.
pub open spec fn index_from(s: Seq<char>, c: char, i: int) -> Option<int>
    decreases s.len() - i,
{
    if i < 0 || i >= s.len() {
        None
    } else if s[i] == c {
        Some(i)
    } else {
        index_from(s, c, i + 1)
    }
}

/// The first index of `c` in `s`.
pub open spec fn first_index(s: Seq<char>, c: char) -> Option<int> {
    index_from(s, c, 0)
}

pub(crate) proof fn lemma_index_from(s: Seq<char>, c: char, i: int)
    ensures
        index_from(s, c, i) matches Some(j) ==> i <= j < s.len() && s[j] == c,
    decreases s.len() - i,
{
    if 0 <= i < s.len() && s[i] != c {
        lemma_index_from(s, c, i + 1);
    }
}

fn first_index_exec(s: &Vec<char>, c: char) -> (r: Option<usize>)
    ensures
        r matches Some(i) ==> first_index(s@, c) == Some(i as int) && i < s.len(),
        r is None ==> first_index(s@, c) is None,
{
    let mut i: usize = 0;
    while i < s.len()
        invariant
            i <= s.len(),
            index_from(s@, c, 0) == index_from(s@, c, i as int),
        decreases s.len() - i,
    {
        if s[i] == c {
            return Some(i);
        }
        i += 1;
    }
    None
}

/// Unsigned decimal text: digits, then optionally a point and digits.
pub open spec fn is_unsigned_decimal(s: Seq<char>) -> bool {
    let (integer, fraction, _) = split_dot(s);
    all_digits(integer) && all_digits(fraction)
}

/// `n` zeros.
pub open spec fn zeros(n: int) -> Seq<char> {
    Seq::new(n as nat, |i: int| '0')
}

/// Adds one to a string of decimal digits, growing it on a carry out.
pub open spec fn increment(d: Seq<char>) -> Seq<char>
    decreases d.len(),
{
    if d.len() == 0 {
        seq!['1']
    } else if d.last() == '9' {
        increment(d.drop_last()).push('0')
    } else {
        d.drop_last().push(((d.last() as u32) + 1) as char)
    }
}

/// The digits of an unsigned decimal kept to `places` decimal places, with
/// ties away from zero; negative `places` round to tens, hundreds and so on.
pub open spec fn rounded_digits(abs: Seq<char>, places: int) -> Seq<char> {
    let (integer, fraction, _) = split_dot(abs);
    let digits = integer + fraction;
    let keep = integer.len() + places;
    if keep < 0 {
        seq!['0']
    } else if keep < digits.len() {
        let truncated = digits.take(keep);
        let r = if digits[keep] >= '5' {
            increment(truncated)
        } else {
            truncated
        };
        if r.len() == 0 {
            seq!['0']
        } else {
            r
        }
    } else {
        digits + zeros(keep - digits.len())
    }
}

/// The text of the unsigned decimal `abs` (negative when `negative` holds)
/// rounded to `places` decimal places, ties away from zero: with exactly
/// `places` digits after the point, or with `-places` trailing zeros, and a
/// minus sign only when a nonzero digit remains.
pub open spec fn spec_round_decimal(abs: Seq<char>, negative: bool, places: int) -> Seq<char> {
    let digits = rounded_digits(abs, places);
    let nonzero = exists|i: int| 0 <= i < digits.len() && digits[i] != '0';
    let body = if places > 0 {
        let padded = if digits.len() < places + 1 {
            zeros(places + 1 - digits.len()) + digits
        } else {
            digits
        };
        padded.take(padded.len() - places) + seq!['.'] + padded.skip(padded.len() - places)
    } else if places < 0 {
        digits + zeros(-places)
    } else {
        digits
    };
    if negative && nonzero {
        seq!['-'] + body
    } else {
        body
    }
}

proof fn lemma_increment(d: Seq<char>, j: int)
    requires
        0 <= j < d.len(),
        d[j] != '9',
        forall|k: int| j < k < d.len() ==> d[k] == '9',
    ensures
        increment(d) == d.take(j).push(((d[j] as u32) + 1) as char) + zeros(d.len() - j - 1),
    decreases d.len(),
{
    if j == d.len() - 1 {
        assert(d.drop_last() =~= d.take(j));
        assert(zeros(0) =~= seq![]);
        assert(d.take(j).push(((d[j] as u32) + 1) as char) + zeros(0) =~= d.take(j).push(
            ((d[j] as u32) + 1) as char,
        ));
    } else {
        let e = d.drop_last();
        lemma_increment(e, j);
        assert(e.take(j) =~= d.take(j));
        assert(zeros(e.len() - j - 1).push('0') =~= zeros(d.len() - j - 1));
        assert(increment(d) == increment(e).push('0'));
        assert((e.take(j).push(((d[j] as u32) + 1) as char) + zeros(e.len() - j - 1)).push('0')
            =~= e.take(j).push(((d[j] as u32) + 1) as char) + zeros(e.len() - j - 1).push('0'));
    }
}

proof fn lemma_increment_nines(d: Seq<char>)
    requires
        forall|k: int| 0 <= k < d.len() ==> d[k] == '9',
    ensures
        increment(d) == seq!['1'] + zeros(d.len() as int),
    decreases d.len(),
{
    if d.len() == 0 {
        assert(seq!['1'] + zeros(0) =~= seq!['1']);
    } else {
        lemma_increment_nines(d.drop_last());
        assert((seq!['1'] + zeros(d.len() - 1)).push('0') =~= seq!['1'] + zeros(d.len() as int));
    }
}

fn zeros_exec(n: usize) -> (r: Vec<char>)
    ensures
        r@ == zeros(n as int),
{
    let mut r: Vec<char> = Vec::new();
    let mut i: usize = 0;
    while i < n
        invariant
            i <= n,
            r@ == zeros(i as int),
        decreases n - i,
    {
        r.push('0');
        i += 1;
        assert(r@ =~= zeros(i as int));
    }
    r
}

fn increment_exec(d: &Vec<char>) -> (r: Vec<char>)
    requires
        all_digits(d@),
    ensures
        r@ == increment(d@),
        all_digits(r@),
{
    let mut k = d.len();
    while k > 0 && d[k - 1] == '9'
        invariant
            k <= d.len(),
            forall|j: int| k <= j < d.len() ==> d@[j] == '9',
        decreases k,
    {
        k -= 1;
    }
    if k == 0 {
        proof {
            lemma_increment_nines(d@);
        }
        let mut r: Vec<char> = Vec::new();
        r.push('1');
        let z = zeros_exec(d.len());
        push_all(&mut r, &z);
        assert(r@ =~= seq!['1'] + zeros(d.len() as int));
        r
    } else {
        let j = k - 1;
        proof {
            lemma_increment(d@, j as int);
        }
        let mut r = slice_chars(d, 0, j);
        let c = d[j];
        assert(is_digit(d@[j as int]));
        let next = if c == '0' {
            '1'
        } else if c == '1' {
            '2'
        } else if c == '2' {
            '3'
        } else if c == '3' {
            '4'
        } else if c == '4' {
            '5'
        } else if c == '5' {
            '6'
        } else if c == '6' {
            '7'
        } else if c == '7' {
            '8'
        } else {
            '9'
        };
        assert(next == ((c as u32) + 1) as char);
        r.push(next);
        let z = zeros_exec(d.len() - j - 1);
        push_all(&mut r, &z);
        assert(r@ =~= d@.take(j as int).push(((d@[j as int] as u32) + 1) as char) + zeros(
            d.len() - j - 1,
        ));
        r
    }
}

fn rounded_digits_exec(abs: &Vec<char>, places: i32) -> (r: Vec<char>)
    requires
        is_unsigned_decimal(abs@),
        abs@.len() <= 0x4000_0000,
    ensures
        r@ == rounded_digits(abs@, places as int),
{
    let (integer, fraction) = match first_index_exec(abs, '.') {
        Some(i) => (slice_chars(abs, 0, i), slice_chars(abs, i + 1, abs.len())),
        None => (slice_chars(abs, 0, abs.len()), Vec::new()),
    };
    assert(abs@.subrange(0, abs@.len() as int) =~= abs@);
    let ghost (gi, gf, _) = split_dot(abs@);
    assert(integer@ =~= gi && fraction@ =~= gf);
    let mut digits = slice_chars(&integer, 0, integer.len());
    assert(integer@.subrange(0, integer@.len() as int) =~= integer@);
    push_all(&mut digits, &fraction);
    assert(all_digits(digits@)) by {
        assert forall|i: int| 0 <= i < digits@.len() implies is_digit(#[trigger] digits@[i]) by {
            if i < integer@.len() {
                assert(digits@[i] == integer@[i]);
            } else {
                assert(digits@[i] == fraction@[i - integer@.len()]);
            }
        }
    }
    let keep: i64 = integer.len() as i64 + places as i64;
    if keep < 0 {
        let mut r = Vec::new();
        r.push('0');
        assert(r@ =~= seq!['0']);
        r
    } else if (keep as usize) < digits.len() {
        let k = keep as usize;
        let truncated = slice_chars(&digits, 0, k);
        assert(truncated@ =~= digits@.take(k as int));
        assert(all_digits(truncated@)) by {
            assert forall|i: int| 0 <= i < truncated@.len() implies is_digit(
                #[trigger] truncated@[i],
            ) by {
                assert(truncated@[i] == digits@[i]);
            }
        }
        let r = if digits[k] >= '5' {
            increment_exec(&truncated)
        } else {
            truncated
        };
        if r.len() == 0 {
            let mut z = Vec::new();
            z.push('0');
            assert(z@ =~= seq!['0']);
            z
        } else {
            r
        }
    } else {
        let z = zeros_exec(keep as usize - digits.len());
        let mut r = digits;
        push_all(&mut r, &z);
        r
    }
}

fn lay_out(rounded: Vec<char>, negative: bool, places: i32) -> (r: Vec<char>)
    requires
        rounded@.len() <= 0xC000_0000,
    ensures
        r@ == ({
            let digits = rounded@;
            let nonzero = exists|i: int| 0 <= i < digits.len() && digits[i] != '0';
            let body = if places > 0 {
                let padded = if digits.len() < places + 1 {
                    zeros(places + 1 - digits.len()) + digits
                } else {
                    digits
                };
                padded.take(padded.len() - places) + seq!['.'] + padded.skip(
                    padded.len() - places,
                )
            } else if places < 0 {
                digits + zeros(-places)
            } else {
                digits
            };
            if negative && nonzero {
                seq!['-'] + body
            } else {
                body
            }
        }),
{
    let mut nonzero = false;
    let mut i: usize = 0;
    while i < rounded.len()
        invariant
            i <= rounded.len(),
            nonzero == exists|j: int| 0 <= j < i && rounded@[j] != '0',
        decreases rounded.len() - i,
    {
        if rounded[i] != '0' {
            nonzero = true;
        }
        i += 1;
    }
    let body: Vec<char> = if places > 0 {
        let p = places as usize;
        let padded = if rounded.len() < p + 1 {
            let mut z = zeros_exec(p + 1 - rounded.len());
            push_all(&mut z, &rounded);
            z
        } else {
            rounded
        };
        let mut b = slice_chars(&padded, 0, padded.len() - p);
        b.push('.');
        let tail = slice_chars(&padded, padded.len() - p, padded.len());
        push_all(&mut b, &tail);
        assert(b@ =~= padded@.take(padded.len() - p) + seq!['.'] + padded@.skip(
            padded.len() - p,
        ));
        b
    } else if places < 0 {
        let z = zeros_exec((-(places as i64)) as usize);
        let mut b = rounded;
        push_all(&mut b, &z);
        b
    } else {
        rounded
    };
    if negative && nonzero {
        let mut out: Vec<char> = Vec::new();
        out.push('-');
        push_all(&mut out, &body);
        out
    } else {
        body
    }
}

/// Rounds the unsigned decimal `abs` to `places` decimal places, ties away
/// from zero, working on its digits so that a decimal tie such as `1.005`
/// rounds up. The text has exactly `places` digits after the point when
/// `places` is positive, and `-places` zeros in place of the last digits
/// when it is negative; it starts with `-` when `negative` holds and a
/// nonzero digit remains.
pub fn round_decimal(abs: &str, negative: bool, places: i32) -> (r: String)
    requires
        is_unsigned_decimal(abs@),
        abs@.len() <= 0x4000_0000,
    ensures
        r@ == spec_round_decimal(abs@, negative, places as int),
{
    let text = chars_of(abs);
    let rounded = rounded_digits_exec(&text, places);
    proof {
        lemma_rounded_digits_len(abs@, places as int);
    }
    let out = lay_out(rounded, negative, places);
    string_from_chars(&out)
}

proof fn lemma_rounded_digits_len(abs: Seq<char>, places: int)
    requires
        abs.len() <= 0x4000_0000,
        i32::MIN <= places <= i32::MAX,
    ensures
        rounded_digits(abs, places).len() <= 0xC000_0000,
{
    let (integer, fraction, _) = split_dot(abs);
    lemma_split_dot_len(abs);
    let digits = integer + fraction;
    let keep = integer.len() + places;
    if 0 <= keep < digits.len() {
        lemma_increment_len(digits.take(keep));
    }
}

proof fn lemma_split_dot_len(s: Seq<char>)
    ensures
        split_dot(s).0.len() + split_dot(s).1.len() <= s.len(),
{
    lemma_index_from(s, '.', 0);
}

proof fn lemma_increment_len(d: Seq<char>)
    ensures
        increment(d).len() <= d.len() + 1,
    decreases d.len(),
{
    if d.len() > 0 {
        lemma_increment_len(d.drop_last());
    }
}

/// The number of bytes that `c` takes in UTF-8.
pub open spec fn utf8_width(c: char) -> int {
    if (c as u32) < 0x80 {
        1
    } else if (c as u32) < 0x800 {
        2
    } else if (c as u32) < 0x10000 {
        3
    } else {
        4
    }
}

/// The number of bytes that `s` takes in UTF-8.
pub open spec fn utf8_len(s: Seq<char>) -> int
    decreases s.len(),
{
    if s.len() == 0 {
        0
    } else {
        utf8_len(s.drop_last()) + utf8_width(s.last())
    }
}

/// `text` with its integer digits grouped by thousands when `expression`
/// itself uses commas, and unchanged when it does not or when `text` is in
/// scientific notation. Groups are counted in characters from the end of the
/// integer part.
pub open spec fn spec_group(text: Seq<char>, expression: Seq<char>) -> Seq<char> {
    if !has_char(expression, ',') || has_char(text, 'e') {
        text
    } else {
        let negative = text.len() > 0 && text[0] == '-';
        let rest = if negative {
            text.drop_first()
        } else {
            text
        };
        let (integer, fraction, dot) = split_dot(rest);
        let body = grouped_from(integer, utf8_len(integer), 0) + if dot {
            seq!['.'] + fraction
        } else {
            seq![]
        };
        if negative {
            seq!['-'] + body
        } else {
            body
        }
    }
}

/// The characters of `integer` from `i` on, with a comma before each one
/// (but the first) that leaves a multiple of three characters of
/// `byte_len` from it on.
pub open spec fn grouped_from(integer: Seq<char>, byte_len: int, i: int) -> Seq<char>
    decreases integer.len() - i,
{
    if i < 0 || i >= integer.len() {
        seq![]
    } else {
        let comma = if i > 0 && (byte_len - i) % 3 == 0 {
            seq![',']
        } else {
            seq![]
        };
        comma + seq![integer[i]] + grouped_from(integer, byte_len, i + 1)
    }
}

/// The number of bytes that `s` takes in UTF-8.
fn utf8_len_exec(s: &Vec<char>) -> (r: u128)
    ensures
        r as int == utf8_len(s@),
        s@.len() <= r,
{
    let mut total: u128 = 0;
    let mut k: usize = 0;
    while k < s.len()
        invariant
            k <= s.len(),
            total as int == utf8_len(s@.take(k as int)),
            k <= total <= 4 * k,
        decreases s.len() - k,
    {
        assert(s@.take(k + 1).drop_last() =~= s@.take(k as int));
        let c = s[k] as u32;
        let width: u128 = if c < 0x80 {
            1
        } else if c < 0x800 {
            2
        } else if c < 0x10000 {
            3
        } else {
            4
        };
        total = total + width;
        k += 1;
    }
    assert(s@.take(s.len() as int) =~= s@);
    total
}

/// Groups the integer digits of `text` by thousands with commas when
/// `expression` contains a comma, as in `1,000.5`; text in scientific
/// notation stays as it is.
pub fn group(text: &str, expression: &str) -> (r: String)
    ensures
        r@ == spec_group(text@, expression@),
{
    let chars = chars_of(text);
    let expr = chars_of(expression);
    if !has_char_exec(&expr, ',') || has_char_exec(&chars, 'e') {
        return string_from_chars(&chars);
    }
    let negative = chars.len() > 0 && chars[0] == '-';
    let rest = if negative {
        slice_chars(&chars, 1, chars.len())
    } else {
        slice_chars(&chars, 0, chars.len())
    };
    assert(negative ==> rest@ =~= chars@.drop_first());
    assert(!negative ==> rest@ =~= chars@);
    let (integer, fraction, dot) = match first_index_exec(&rest, '.') {
        Some(i) => (slice_chars(&rest, 0, i), slice_chars(&rest, i + 1, rest.len()), true),
        None => (slice_chars(&rest, 0, rest.len()), Vec::new(), false),
    };
    assert(rest@.subrange(0, rest@.len() as int) =~= rest@);
    let ghost (gi, gf, gd) = split_dot(rest@);
    assert(integer@ =~= gi && fraction@ =~= gf && dot == gd);
    let byte_len = utf8_len_exec(&integer);
    let ghost byte_len_spec = utf8_len(integer@);
    let mut out: Vec<char> = Vec::new();
    if negative {
        out.push('-');
    }
    let ghost sign = out@;
    let mut i: usize = 0;
    while i < integer.len()
        invariant
            i <= integer.len() <= byte_len,
            byte_len as int == byte_len_spec,
            sign + grouped_from(integer@, byte_len_spec, 0) == out@ + grouped_from(
                integer@,
                byte_len_spec,
                i as int,
            ),
        decreases integer.len() - i,
    {
        let ghost before = out@;
        if i > 0 && (byte_len - i as u128) % 3 == 0 {
            out.push(',');
        }
        out.push(integer[i]);
        proof {
            let ghost comma = if i > 0 && (byte_len_spec - i) % 3 == 0 {
                seq![',']
            } else {
                seq![]
            };
            assert(out@ =~= before + comma + seq![integer@[i as int]]);
            assert(grouped_from(integer@, byte_len_spec, i as int) == comma + seq![integer@[i as int]]
                + grouped_from(integer@, byte_len_spec, i + 1));
            assert(before + (comma + seq![integer@[i as int]] + grouped_from(
                integer@,
                byte_len_spec,
                i + 1,
            )) =~= before + comma + seq![integer@[i as int]] + grouped_from(
                integer@,
                byte_len_spec,
                i + 1,
            ));
        }
        i += 1;
    }
    let ghost grouped = out@;
    if dot {
        out.push('.');
        push_all(&mut out, &fraction);
    }
    proof {
        assert(grouped_from(integer@, byte_len_spec, i as int) =~= seq![]);
        assert(grouped =~= sign + grouped_from(integer@, byte_len_spec, 0));
        if negative {
            assert(out@ =~= seq!['-'] + (grouped_from(integer@, byte_len_spec, 0) + if dot {
                seq!['.'] + fraction@
            } else {
                seq![]
            }));
        } else {
            assert(sign =~= seq![]);
            assert(out@ =~= grouped_from(integer@, byte_len_spec, 0) + if dot {
                seq!['.'] + fraction@
            } else {
                seq![]
            });
        }
    }
    string_from_chars(&out)
}

/// The exponent in scientific text such as `-1.25e-1`: what follows the
/// first `e`, read as an `i32`.
pub open spec fn spec_exponent(scientific: Seq<char>) -> Option<i32> {
    match first_index(scientific, 'e') {
        Some(i) => spec_parse_i32(scientific.skip(i + 1)),
        None => None,
    }
}

/// The decimal exponent of scientific text such as `-1.25e-1`.
pub fn exponent(scientific: &str) -> (r: Option<i32>)
    ensures
        r == spec_exponent(scientific@),
{
    let chars = chars_of(scientific);
    match first_index_exec(&chars, 'e') {
        Some(i) => {
            let tail = slice_chars(&chars, i + 1, chars.len());
            assert(tail@ =~= chars@.skip(i + 1));
            parse_i32(&tail)
        },
        None => None,
    }
}

/// The precise text of a value: `0` for zero; the scientific text with an
/// explicit `+` on a nonnegative exponent when `scientific_form` holds;
/// otherwise the decimal text.
pub open spec fn spec_precise(
    zero: bool,
    scientific_form: bool,
    decimal: Seq<char>,
    scientific: Seq<char>,
) -> Option<Seq<char>> {
    if zero {
        Some(seq!['0'])
    } else if scientific_form {
        match first_index(scientific, 'e') {
            Some(i) => {
                let mantissa = scientific.take(i);
                let exp = scientific.skip(i + 1);
                let sign = if exp.len() > 0 && exp[0] == '-' {
                    seq![]
                } else {
                    seq!['+']
                };
                Some(mantissa + seq!['e'] + sign + exp)
            },
            None => None,
        }
    } else {
        Some(decimal)
    }
}

/// The precise text of a value from its decimal and scientific texts.
pub fn precise_text(zero: bool, scientific_form: bool, decimal: &str, scientific: &str) -> (r:
    Option<String>)
    ensures
        r matches Some(s) ==> spec_precise(zero, scientific_form, decimal@, scientific@) == Some(
            s@,
        ),
        r is None ==> spec_precise(zero, scientific_form, decimal@, scientific@) is None,
{
    if zero {
        let mut z: Vec<char> = Vec::new();
        z.push('0');
        assert(z@ =~= seq!['0']);
        return Some(string_from_chars(&z));
    }
    if !scientific_form {
        let d = chars_of(decimal);
        return Some(string_from_chars(&d));
    }
    let chars = chars_of(scientific);
    match first_index_exec(&chars, 'e') {
        Some(i) => {
            let mut out = slice_chars(&chars, 0, i);
            let exp = slice_chars(&chars, i + 1, chars.len());
            out.push('e');
            if !(exp.len() > 0 && exp[0] == '-') {
                out.push('+');
            }
            push_all(&mut out, &exp);
            proof {
                let mantissa = chars@.take(i as int);
                let e = chars@.skip(i + 1);
                assert(exp@ =~= e);
                let sign = if e.len() > 0 && e[0] == '-' {
                    seq![]
                } else {
                    seq!['+']
                };
                assert(out@ =~= mantissa + seq!['e'] + sign + e);
            }
            Some(string_from_chars(&out))
        },
        None => None,
    }
}

fn is_unsigned_decimal_exec(s: &Vec<char>) -> (r: bool)
    ensures
        r == is_unsigned_decimal(s@),
{
    let (integer, fraction) = match first_index_exec(s, '.') {
        Some(i) => (slice_chars(s, 0, i), slice_chars(s, i + 1, s.len())),
        None => (slice_chars(s, 0, s.len()), Vec::new()),
    };
    assert(s@.subrange(0, s@.len() as int) =~= s@);
    let ghost (gi, gf, _) = split_dot(s@);
    assert(integer@ =~= gi && fraction@ =~= gf);
    all_digits_exec(&integer) && all_digits_exec(&fraction)
}

fn all_digits_exec(s: &Vec<char>) -> (r: bool)
    ensures
        r == all_digits(s@),
{
    let mut i: usize = 0;
    while i < s.len()
        invariant
            i <= s.len(),
            forall|j: int| 0 <= j < i ==> is_digit(#[trigger] s@[j]),
        decreases s.len() - i,
    {
        if !('0' <= s[i] && s[i] <= '9') {
            assert(!is_digit(s@[i as int]));
            return false;
        }
        i += 1;
    }
    true
}

/// A decimal text without its leading minus sign.
pub open spec fn unsigned_part(decimal: Seq<char>) -> Seq<char> {
    if decimal.len() > 0 && decimal[0] == '-' {
        decimal.skip(1)
    } else {
        decimal
    }
}

/// The number of decimal places of the rounded result: two for an
/// expression without a decimal point; otherwise enough for `significant`
/// significant digits of a value whose decimal exponent is `exp`, one place
/// fewer for each power of ten that rounding to those places adds, where
/// `rounded_exp` is the exponent of that rounding when it is neither zero
/// nor infinite.
pub open spec fn result_places(
    has_point: bool,
    significant: int,
    exp: int,
    rounded_exp: Option<i32>,
) -> int {
    if !has_point {
        2
    } else {
        match rounded_exp {
            Some(re) => if re > exp {
                significant - re
            } else {
                significant - exp
            },
            None => significant - exp,
        }
    }
}

/// `rounded` and `precise` are what `calculate` gives for `expression` when
/// its value is zero or not, is negative or not, needs scientific notation
/// or not, has the decimal text `decimal` and the scientific text
/// `scientific`, and its rounding to the initial places has the exponent
/// `rounded_exp`: the precise text grouped as the expression, and the
/// unsigned decimal text rounded to `result_places`, grouped likewise.
#[verifier::opaque]
pub open spec fn calculated(
    expression: Seq<char>,
    zero: bool,
    scientific_form: bool,
    negative: bool,
    decimal: Seq<char>,
    scientific: Seq<char>,
    exp: int,
    rounded_exp: Option<i32>,
    rounded: Seq<char>,
    precise: Seq<char>,
) -> bool {
    &&& parse_expression(expression) matches Some((_, significant))
    &&& spec_precise(zero, scientific_form, decimal, scientific) matches Some(p)
    &&& precise == spec_group(p, expression)
    &&& has_char(expression, '.') ==> if zero {
        exp == 0
    } else {
        spec_exponent(scientific) matches Some(e) && exp == e
    }
    &&& rounded == spec_group(
        spec_round_decimal(
            unsigned_part(decimal),
            negative,
            result_places(has_char(expression, '.'), significant, exp, rounded_exp),
        ),
        expression,
    )
}

/// The decimal exponent of a value that is zero, or else has the
/// scientific text `scientific`.
pub open spec fn value_exponent(zero: bool, scientific: Seq<char>) -> Option<i32> {
    if zero {
        Some(0i32)
    } else {
        spec_exponent(scientific)
    }
}

/// The decimal exponent of a value that is zero, or else has the
/// scientific text `scientific`.
fn exponent_of(zero: bool, scientific: &str) -> (r: Option<i32>)
    ensures
        r == value_exponent(zero, scientific@),
{
    if zero {
        Some(0)
    } else {
        exponent(scientific)
    }
}

/// `result_places` as an `i32`: `None` when the count of significant
/// digits or the places do not fit in one.
pub open spec fn places_fit(has_point: bool, significant: int, exp: int, rounded_exp: Option<i32>) -> Option<
    i32,
> {
    if !has_point {
        Some(2i32)
    } else if significant > 0x7fff_ffff {
        None
    } else {
        let p = result_places(true, significant, exp, rounded_exp);
        if i32::MIN <= p <= i32::MAX {
            Some(p as i32)
        } else {
            None
        }
    }
}

/// `result_places` in an `i32`; `None` when it does not fit.
fn places_of(has_point: bool, significant: usize, exp: i32, rounded_exp: Option<i32>) -> (r: Option<
    i32,
>)
    ensures
        !has_point ==> r == Some(2i32),
        r matches Some(p) ==> p as int == result_places(
            has_point,
            significant as int,
            exp as int,
            rounded_exp,
        ),
        r == places_fit(has_point, significant as int, exp as int, rounded_exp),
{
    if !has_point {
        return Some(2);
    }
    if significant > 0x7fff_ffff {
        return None;
    }
    let top: i32 = match rounded_exp {
        Some(re) => if re > exp {
            re
        } else {
            exp
        },
        None => exp,
    };
    let places: i64 = significant as i64 - top as i64;
    if places < i32::MIN as i64 || places > i32::MAX as i64 {
        return None;
    }
    Some(places as i32)
}

/// What reading `text` back in the number type `N` gives: `None` when `N`
/// does not read it, or when its scientific text has no exponent;
/// `Some(None)` when the value read is zero or not finite; otherwise
/// `Some(Some(e))` with the value's decimal exponent `e`. Each step is a
/// possible outcome of the `Number` method it names.
pub open spec fn reread_exponent<N: Number>(text: Seq<char>, outcome: Option<Option<i32>>) -> bool {
    exists|t: &str, read: Option<N>|
        #![trigger call_ensures(N::parse_decimal, (t,), read)]
        t@ == text && call_ensures(N::parse_decimal, (t,), read) && match read {
            None => outcome is None,
            Some(x) => exists|zero: bool|
                #[trigger] call_ensures(N::is_zero, (&x,), zero) && if zero {
                    outcome == Some(None::<i32>)
                } else {
                    exists|finite: bool|
                        #[trigger] call_ensures(N::is_finite, (&x,), finite) && if !finite {
                            outcome == Some(None::<i32>)
                        } else {
                            exists|scientific: String|
                                #[trigger] call_ensures(N::to_scientific, (&x,), scientific)
                                    && outcome == match spec_exponent(scientific@) {
                                    None => None,
                                    Some(e) => Some(Some(e)),
                                }
                        }
                },
        }
}

/// The exponent of a value, the exponent of its rounding to the initial
/// places read back in `N` and the places of the result, for a value that
/// is zero or not, with the unsigned decimal text `abs` and the scientific
/// text `scientific`: `None` when an exponent cannot be read, the places do
/// not fit in an `i32`, or `N` does not read the rounding back.
pub open spec fn rounding_of<N: Number>(
    abs: Seq<char>,
    negative: bool,
    zero: bool,
    scientific: Seq<char>,
    significant: int,
    has_point: bool,
    r: Option<(i32, Option<i32>, i32)>,
) -> bool {
    if !has_point {
        r == Some((0i32, None::<i32>, 2i32))
    } else {
        match value_exponent(zero, scientific) {
            None => r is None,
            Some(exp) => match places_fit(true, significant, exp as int, None) {
                None => r is None,
                Some(initial) => exists|outcome: Option<Option<i32>>|
                    #[trigger] reread_exponent::<N>(
                        spec_round_decimal(abs, negative, initial as int),
                        outcome,
                    ) && match outcome {
                        None => r is None,
                        Some(rounded_exp) => match places_fit(
                            true,
                            significant,
                            exp as int,
                            rounded_exp,
                        ) {
                            None => r is None,
                            Some(places) => r == Some((exp, rounded_exp, places)),
                        },
                    },
            },
        }
    }
}

/// What `N` tells of a value: whether it is zero, needs scientific notation
/// and is negative, and its decimal and scientific texts, each a possible
/// outcome of the `Number` method of that name.
pub open spec fn reads_as<N: Number>(
    value: N,
    zero: bool,
    scientific_form: bool,
    negative: bool,
    decimal: String,
    scientific: String,
) -> bool {
    &&& call_ensures(N::is_zero, (&value,), zero)
    &&& call_ensures(N::needs_scientific, (&value,), scientific_form)
    &&& call_ensures(N::is_negative, (&value,), negative)
    &&& call_ensures(N::to_decimal, (&value,), decimal)
    &&& call_ensures(N::to_scientific, (&value,), scientific)
}

/// The texts of `calculate` for `expression`, whose most precise literal
/// has `significant` significant digits, and a value that `N` reads as
/// given: `None` when the scientific text has no exponent where the precise
/// text needs one, when the decimal text is not plain digits (after a minus
/// sign), or when the places cannot be had (`rounding_of`); otherwise the
/// rounded and the precise texts, grouped as the expression.
pub open spec fn texts_from<N: Number>(
    expression: Seq<char>,
    significant: int,
    zero: bool,
    scientific_form: bool,
    negative: bool,
    decimal: Seq<char>,
    scientific: Seq<char>,
    r: Option<(Seq<char>, Seq<char>)>,
) -> bool {
    match spec_precise(zero, scientific_form, decimal, scientific) {
        None => r is None,
        Some(p) => if unsigned_part(decimal).len() > 0x4000_0000 || !is_unsigned_decimal(
            unsigned_part(decimal),
        ) {
            r is None
        } else {
            exists|rounding: Option<(i32, Option<i32>, i32)>|
                #[trigger] rounding_of::<N>(
                    unsigned_part(decimal),
                    negative,
                    zero,
                    scientific,
                    significant,
                    has_char(expression, '.'),
                    rounding,
                ) && match rounding {
                    None => r is None,
                    Some((_, _, places)) => r == Some(
                        (
                            spec_group(
                                spec_round_decimal(unsigned_part(decimal), negative, places as int),
                                expression,
                            ),
                            spec_group(p, expression),
                        ),
                    ),
                }
        },
    }
}

/// The texts of `calculate` for a value of `expression`: `None` when `N`
/// calls the value not finite; otherwise `texts_from` what `N` reads of it.
pub open spec fn value_texts<N: Number>(
    expression: Seq<char>,
    significant: int,
    value: N,
    r: Option<(Seq<char>, Seq<char>)>,
) -> bool {
    exists|finite: bool|
        #[trigger] call_ensures(N::is_finite, (&value,), finite) && if !finite {
            r is None
        } else {
            exists|
                zero: bool,
                scientific_form: bool,
                negative: bool,
                decimal: String,
                scientific: String,
            |
                #[trigger] reads_as::<N>(value, zero, scientific_form, negative, decimal, scientific)
                    && texts_from::<N>(
                    expression,
                    significant,
                    zero,
                    scientific_form,
                    negative,
                    decimal@,
                    scientific@,
                    r,
                )
        }
}

/// A possible outcome of `calculate` for `expression` (of at most 4096
/// bytes): `None` when it does not parse or its evaluation fails; otherwise
/// the `value_texts` of its value.
pub open spec fn calculation<N: Number>(expression: Seq<char>, r: Option<(Seq<char>, Seq<char>)>) -> bool {
    match parse_expression(expression) {
        None => r is None,
        Some((e, significant)) => exists|v: Option<N>|
            #[trigger] outcome::<N>(v) && evaluates_to::<N>(expression, e, v) && match v {
                None => r is None,
                Some(value) => value_texts::<N>(expression, significant, value, r),
            },
    }
}

/// The views of a pair of texts.
pub open spec fn texts_view(r: Option<(String, String)>) -> Option<(Seq<char>, Seq<char>)> {
    match r {
        None => None,
        Some((a, b)) => Some((a@, b@)),
    }
}

proof fn lemma_value_texts<N: Number>(
    expression: Seq<char>,
    significant: int,
    value: N,
    zero: bool,
    scientific_form: bool,
    negative: bool,
    decimal: String,
    scientific: String,
    r: Option<(Seq<char>, Seq<char>)>,
)
    requires
        call_ensures(N::is_finite, (&value,), true),
        reads_as::<N>(value, zero, scientific_form, negative, decimal, scientific),
        texts_from::<N>(
            expression,
            significant,
            zero,
            scientific_form,
            negative,
            decimal@,
            scientific@,
            r,
        ),
    ensures
        value_texts::<N>(expression, significant, value, r),
{
}

proof fn lemma_calculation<N: Number>(
    expression: Seq<char>,
    e: Expr,
    significant: int,
    v: Option<N>,
    r: Option<(Seq<char>, Seq<char>)>,
)
    requires
        parse_expression(expression) == Some((e, significant)),
        evaluates_to::<N>(expression, e, v),
        match v {
            None => r is None,
            Some(value) => value_texts::<N>(expression, significant, value, r),
        },
    ensures
        calculation::<N>(expression, r),
{
    assert(outcome::<N>(v));
}

proof fn lemma_parsed(s: Seq<char>, e: Expr, p: int, g: int)
    requires
        parse_additive(s, 0, 0, 0) == Some((e, p, g)),
        skip_blank(s, p) == s.len(),
    ensures
        parse_expression(s) == Some((e, g)),
{
}

/// The exponent of the value, the exponent of its rounding to the initial
/// places (when that rounding is neither zero nor infinite) and the places
/// of the result, for a value with the unsigned decimal text `abs` and the
/// scientific text `scientific`.
fn rounding_places<N: Number>(
    abs: &str,
    negative: bool,
    zero: bool,
    scientific: &str,
    significant: usize,
    has_point: bool,
) -> (r: Option<(i32, Option<i32>, i32)>)
    requires
        is_unsigned_decimal(abs@),
        abs@.len() <= 0x4000_0000,
    ensures
        rounding_of::<N>(abs@, negative, zero, scientific@, significant as int, has_point, r),
        r matches Some((exp, rounded_exp, places)) ==> {
            &&& places as int == result_places(has_point, significant as int, exp as int, rounded_exp)
            &&& has_point ==> if zero {
                exp == 0
            } else {
                spec_exponent(scientific@) == Some(exp)
            }
        },
{
    if !has_point {
        return Some((0, None, 2));
    }
    let exp: i32 = match exponent_of(zero, scientific) {
        Some(e) => e,
        None => {
            return None;
        },
    };
    let initial = match places_of(true, significant, exp, None) {
        Some(p) => p,
        None => {
            return None;
        },
    };
    let first = round_decimal(abs, negative, initial);
    let first_text = first.as_str();
    let read = N::parse_decimal(first_text);
    let ghost text = spec_round_decimal(abs@, negative, initial as int);
    assert(first_text@ == text);
    let rounded = match read {
        Some(x) => x,
        None => {
            assert(reread_exponent::<N>(text, None));
            return None;
        },
    };
    let rounded_zero = rounded.is_zero();
    let rounded_exp: Option<i32> = if rounded_zero {
        assert(reread_exponent::<N>(text, Some(None)));
        None
    } else {
        let finite = rounded.is_finite();
        if !finite {
            assert(reread_exponent::<N>(text, Some(None)));
            None
        } else {
            let rounded_scientific = rounded.to_scientific();
            match exponent_of(false, rounded_scientific.as_str()) {
                Some(e) => {
                    assert(reread_exponent::<N>(text, Some(Some(e))));
                    Some(e)
                },
                None => {
                    assert(reread_exponent::<N>(text, None));
                    return None;
                },
            }
        }
    };
    let places = match places_of(true, significant, exp, rounded_exp) {
        Some(p) => p,
        None => {
            assert(reread_exponent::<N>(text, Some(rounded_exp)));
            return None;
        },
    };
    assert(reread_exponent::<N>(text, Some(rounded_exp)));
    Some((exp, rounded_exp, places))
}

/// Always true: it only marks a possible outcome of an evaluation as the
/// trigger of the quantifiers in `evaluates_to` and `calculation`, so that
/// proofs can point at the outcome they mean. No contract rests on its
/// value.
pub open spec fn outcome<N: Number>(x: Option<N>) -> bool {
    true
}

/// `v` is a possible outcome of evaluating `e` over `input` in the number
/// type `N`: a literal is the text of its range of `input` without commas,
/// read by `N::parse_decimal`; an operation on the values of its operands
/// (the left one evaluated first) is done by the `Number` method of that
/// name. The outcome is `None` for a literal outside `input`, a literal
/// that `N` does not read, an operand that fails, or a division by a value
/// that `N` calls zero.
pub open spec fn evaluates_to<N: Number>(input: Seq<char>, e: Expr, v: Option<N>) -> bool
    decreases e,
{
    match e {
        Expr::Number(start, end) => if start <= end && end <= input.len() {
            exists|t: &str|
                #[trigger] call_ensures(N::parse_decimal, (t,), v) && t@ == without(
                    input.subrange(start as int, end as int),
                    ',',
                )
        } else {
            v is None
        },
        Expr::Neg(a) => exists|x: Option<N>|
            #[trigger] outcome::<N>(x) && evaluates_to::<N>(input, *a, x) && match x {
                None => v is None,
                Some(xv) => v matches Some(r) && call_ensures(N::neg, (&xv,), r),
            },
        Expr::Add(a, b) => exists|x: Option<N>|
            #[trigger] outcome::<N>(x) && evaluates_to::<N>(input, *a, x) && match x {
                None => v is None,
                Some(xv) => exists|y: Option<N>|
                    #[trigger] outcome::<N>(y) && evaluates_to::<N>(input, *b, y) && match y {
                        None => v is None,
                        Some(yv) => v matches Some(r) && call_ensures(N::add, (&xv, &yv), r),
                    },
            },
        Expr::Sub(a, b) => exists|x: Option<N>|
            #[trigger] outcome::<N>(x) && evaluates_to::<N>(input, *a, x) && match x {
                None => v is None,
                Some(xv) => exists|y: Option<N>|
                    #[trigger] outcome::<N>(y) && evaluates_to::<N>(input, *b, y) && match y {
                        None => v is None,
                        Some(yv) => v matches Some(r) && call_ensures(N::sub, (&xv, &yv), r),
                    },
            },
        Expr::Mul(a, b) => exists|x: Option<N>|
            #[trigger] outcome::<N>(x) && evaluates_to::<N>(input, *a, x) && match x {
                None => v is None,
                Some(xv) => exists|y: Option<N>|
                    #[trigger] outcome::<N>(y) && evaluates_to::<N>(input, *b, y) && match y {
                        None => v is None,
                        Some(yv) => v matches Some(r) && call_ensures(N::mul, (&xv, &yv), r),
                    },
            },
        Expr::Div(a, b) => exists|x: Option<N>|
            #[trigger] outcome::<N>(x) && evaluates_to::<N>(input, *a, x) && match x {
                None => v is None,
                Some(xv) => exists|y: Option<N>|
                    #[trigger] outcome::<N>(y) && evaluates_to::<N>(input, *b, y) && match y {
                        None => v is None,
                        Some(yv) => exists|zero: bool|
                            #[trigger] call_ensures(N::is_zero, (&yv,), zero) && if zero {
                                v is None
                            } else {
                                v matches Some(r) && call_ensures(N::div, (&xv, &yv), r)
                            },
                    },
            },
        Expr::Pow(a, b) => exists|x: Option<N>|
            #[trigger] outcome::<N>(x) && evaluates_to::<N>(input, *a, x) && match x {
                None => v is None,
                Some(xv) => exists|y: Option<N>|
                    #[trigger] outcome::<N>(y) && evaluates_to::<N>(input, *b, y) && match y {
                        None => v is None,
                        Some(yv) => v matches Some(r) && call_ensures(N::pow, (&xv, &yv), r),
                    },
            },
    }
}

/// Evaluates an expression over `input` in the number type `N`; `None` on a
/// division by zero or a literal that `N` does not read.
fn evaluate<N: Number>(input: &Vec<char>, e: &Expr) -> (r: Option<N>)
    ensures
        evaluates_to::<N>(input@, *e, r),
    decreases e,
{
    match e {
        Expr::Number(start, end) => {
            if *start <= *end && *end <= input.len() {
                let literal = slice_chars(input, *start, *end);
                let token = without_exec(&literal, ',');
                let text = string_from_chars(&token);
                let t = text.as_str();
                let r = N::parse_decimal(t);
                assert(t@ == without(input@.subrange(*start as int, *end as int), ','));
                r
            } else {
                None
            }
        },
        Expr::Neg(a) => {
            let x = evaluate::<N>(input, a);
            let xv = match x {
                Some(v) => v,
                None => {
                    assert(outcome::<N>(x) && evaluates_to::<N>(input@, **a, x));
                    return None;
                },
            };
            let r = xv.neg();
            assert(outcome::<N>(x) && evaluates_to::<N>(input@, **a, x));
            Some(r)
        },
        Expr::Add(a, b) => {
            let x = evaluate::<N>(input, a);
            let xv = match x {
                Some(v) => v,
                None => {
                    assert(outcome::<N>(x) && evaluates_to::<N>(input@, **a, x));
                    return None;
                },
            };
            let y = evaluate::<N>(input, b);
            let yv = match y {
                Some(v) => v,
                None => {
                    assert(outcome::<N>(y) && evaluates_to::<N>(input@, **b, y));
                    assert(outcome::<N>(x) && evaluates_to::<N>(input@, **a, x));
                    return None;
                },
            };
            let r = xv.add(&yv);
            assert(outcome::<N>(y) && evaluates_to::<N>(input@, **b, y));
            assert(outcome::<N>(x) && evaluates_to::<N>(input@, **a, x));
            Some(r)
        },
        Expr::Sub(a, b) => {
            let x = evaluate::<N>(input, a);
            let xv = match x {
                Some(v) => v,
                None => {
                    assert(outcome::<N>(x) && evaluates_to::<N>(input@, **a, x));
                    return None;
                },
            };
            let y = evaluate::<N>(input, b);
            let yv = match y {
                Some(v) => v,
                None => {
                    assert(outcome::<N>(y) && evaluates_to::<N>(input@, **b, y));
                    assert(outcome::<N>(x) && evaluates_to::<N>(input@, **a, x));
                    return None;
                },
            };
            let r = xv.sub(&yv);
            assert(outcome::<N>(y) && evaluates_to::<N>(input@, **b, y));
            assert(outcome::<N>(x) && evaluates_to::<N>(input@, **a, x));
            Some(r)
        },
        Expr::Mul(a, b) => {
            let x = evaluate::<N>(input, a);
            let xv = match x {
                Some(v) => v,
                None => {
                    assert(outcome::<N>(x) && evaluates_to::<N>(input@, **a, x));
                    return None;
                },
            };
            let y = evaluate::<N>(input, b);
            let yv = match y {
                Some(v) => v,
                None => {
                    assert(outcome::<N>(y) && evaluates_to::<N>(input@, **b, y));
                    assert(outcome::<N>(x) && evaluates_to::<N>(input@, **a, x));
                    return None;
                },
            };
            let r = xv.mul(&yv);
            assert(outcome::<N>(y) && evaluates_to::<N>(input@, **b, y));
            assert(outcome::<N>(x) && evaluates_to::<N>(input@, **a, x));
            Some(r)
        },
        Expr::Div(a, b) => {
            let x = evaluate::<N>(input, a);
            let xv = match x {
                Some(v) => v,
                None => {
                    assert(outcome::<N>(x) && evaluates_to::<N>(input@, **a, x));
                    return None;
                },
            };
            let y = evaluate::<N>(input, b);
            let yv = match y {
                Some(v) => v,
                None => {
                    assert(outcome::<N>(y) && evaluates_to::<N>(input@, **b, y));
                    assert(outcome::<N>(x) && evaluates_to::<N>(input@, **a, x));
                    return None;
                },
            };
            let zero = yv.is_zero();
            assert(outcome::<N>(y) && evaluates_to::<N>(input@, **b, y));
            assert(outcome::<N>(x) && evaluates_to::<N>(input@, **a, x));
            if zero {
                None
            } else {
                Some(xv.div(&yv))
            }
        },
        Expr::Pow(a, b) => {
            let x = evaluate::<N>(input, a);
            let xv = match x {
                Some(v) => v,
                None => {
                    assert(outcome::<N>(x) && evaluates_to::<N>(input@, **a, x));
                    return None;
                },
            };
            let y = evaluate::<N>(input, b);
            let yv = match y {
                Some(v) => v,
                None => {
                    assert(outcome::<N>(y) && evaluates_to::<N>(input@, **b, y));
                    assert(outcome::<N>(x) && evaluates_to::<N>(input@, **a, x));
                    return None;
                },
            };
            let r = xv.pow(&yv);
            assert(outcome::<N>(y) && evaluates_to::<N>(input@, **b, y));
            assert(outcome::<N>(x) && evaluates_to::<N>(input@, **a, x));
            Some(r)
        },
    }
}

/// Evaluates the arithmetic expression `expression` in the number type `N`
/// and gives two texts of the result: one rounded and one precise. Numbers
/// are decimal literals, optionally grouped by thousands with commas;
/// operators are `+`, `-`, `*` or `x`, `/`, and `**` or `^` (right
/// associative, binding tighter than a unary minus on its left); parentheses
/// group. The rounded text has two decimal places, or, when the expression
/// has a decimal point, as many significant digits as its most precise
/// literal. Both texts are grouped by thousands when the expression uses
/// commas. `None` for an expression longer than 4096 bytes, one that does
/// not parse, a division by zero or a result that is not finite.
pub fn calculate<N: Number>(expression: &str) -> (r: Option<(String, String)>)
    ensures
        expression.len() > 4096 ==> r is None,
        expression.len() <= 4096 ==> calculation::<N>(expression@, texts_view(r)),
        parse_expression(expression@) is None ==> r is None,
        r matches Some((rounded, precise)) ==> exists|
            zero: bool,
            scientific_form: bool,
            negative: bool,
            decimal: Seq<char>,
            scientific: Seq<char>,
            exp: int,
            rounded_exp: Option<i32>,
        |
            #[trigger] calculated(
                expression@,
                zero,
                scientific_form,
                negative,
                decimal,
                scientific,
                exp,
                rounded_exp,
                rounded@,
                precise@,
            ),
{
    if expression.len() > 4096 {
        return None;
    }
    let parser = Parser { input: chars_of(expression) };
    let parsed = match parser.additive(0, 0, 0) {
        Some(p) => p,
        None => {
            return None;
        },
    };
    let end = parser.skip(parsed.pos);
    if end != parser.input.len() {
        return None;
    }
    proof {
        lemma_parsed(
            expression@,
            parsed.expr,
            parsed.pos as int,
            parsed.significant as int,
        );
    }
    let ghost g = parsed.significant as int;
    let evaluated = evaluate::<N>(&parser.input, &parsed.expr);
    let value: N = match evaluated {
        Some(v) => v,
        None => {
            proof {
                lemma_calculation::<N>(expression@, parsed.expr, g, evaluated, None);
            }
            return None;
        },
    };
    let finite = value.is_finite();
    if !finite {
        proof {
            assert(value_texts::<N>(expression@, g, value, None));
            lemma_calculation::<N>(expression@, parsed.expr, g, evaluated, None);
        }
        return None;
    }
    let zero = value.is_zero();
    let scientific_form = value.needs_scientific();
    let negative = value.is_negative();
    let decimal = value.to_decimal();
    let scientific = value.to_scientific();
    proof {
        assert(reads_as::<N>(value, zero, scientific_form, negative, decimal, scientific));
    }
    let precise = match precise_text(zero, scientific_form, decimal.as_str(), scientific.as_str()) {
        Some(p) => p,
        None => {
            proof {
                lemma_value_texts::<N>(
                    expression@,
                    g,
                    value,
                    zero,
                    scientific_form,
                    negative,
                    decimal,
                    scientific,
                    None,
                );
                lemma_calculation::<N>(expression@, parsed.expr, g, evaluated, None);
            }
            return None;
        },
    };
    let text = chars_of(decimal.as_str());
    let abs = if text.len() > 0 && text[0] == '-' {
        slice_chars(&text, 1, text.len())
    } else {
        slice_chars(&text, 0, text.len())
    };
    assert(abs@ =~= unsigned_part(decimal@));
    if abs.len() > 0x4000_0000 || !is_unsigned_decimal_exec(&abs) {
        proof {
            lemma_value_texts::<N>(
                expression@,
                g,
                value,
                zero,
                scientific_form,
                negative,
                decimal,
                scientific,
                None,
            );
            lemma_calculation::<N>(expression@, parsed.expr, g, evaluated, None);
        }
        return None;
    }
    let abs_text = string_from_chars(&abs);
    let has_point = has_char_exec(&parser.input, '.');
    let rounding = rounding_places::<N>(
        abs_text.as_str(),
        negative,
        zero,
        scientific.as_str(),
        parsed.significant,
        has_point,
    );
    let (exp, rounded_exp, places) = match rounding {
        Some(t) => t,
        None => {
            proof {
                assert(texts_from::<N>(
                    expression@,
                    g,
                    zero,
                    scientific_form,
                    negative,
                    decimal@,
                    scientific@,
                    None,
                ));
                lemma_value_texts::<N>(
                    expression@,
                    g,
                    value,
                    zero,
                    scientific_form,
                    negative,
                    decimal,
                    scientific,
                    None,
                );
                lemma_calculation::<N>(expression@, parsed.expr, g, evaluated, None);
            }
            return None;
        },
    };
    let rounded = round_decimal(abs_text.as_str(), negative, places);
    let rounded_grouped = group(rounded.as_str(), expression);
    let precise_grouped = group(precise.as_str(), expression);
    proof {
        lemma_calculated(
            expression@,
            parsed.significant as int,
            zero,
            scientific_form,
            negative,
            decimal@,
            scientific@,
            exp as int,
            rounded_exp,
            places as int,
            precise@,
            rounded_grouped@,
            precise_grouped@,
        );
        let out = Some((rounded_grouped@, precise_grouped@));
        assert(texts_from::<N>(
            expression@,
            g,
            zero,
            scientific_form,
            negative,
            decimal@,
            scientific@,
            out,
        ));
        lemma_value_texts::<N>(
            expression@,
            g,
            value,
            zero,
            scientific_form,
            negative,
            decimal,
            scientific,
            out,
        );
        lemma_calculation::<N>(expression@, parsed.expr, g, evaluated, out);
    }
    let result = Some((rounded_grouped, precise_grouped));
    assert(result matches Some((a, b)) ==> a@ == rounded_grouped@ && b@ == precise_grouped@);
    result
}

proof fn lemma_calculated(
    expression: Seq<char>,
    significant: int,
    zero: bool,
    scientific_form: bool,
    negative: bool,
    decimal: Seq<char>,
    scientific: Seq<char>,
    exp: int,
    rounded_exp: Option<i32>,
    places: int,
    precise_text: Seq<char>,
    rounded: Seq<char>,
    precise: Seq<char>,
)
    requires
        parse_expression(expression) matches Some((_, g)) && g == significant,
        spec_precise(zero, scientific_form, decimal, scientific) == Some(precise_text),
        precise == spec_group(precise_text, expression),
        has_char(expression, '.') ==> if zero {
            exp == 0
        } else {
            spec_exponent(scientific) matches Some(e) && exp == e
        },
        places == result_places(has_char(expression, '.'), significant, exp, rounded_exp),
        rounded == spec_group(spec_round_decimal(unsigned_part(decimal), negative, places), expression),
    ensures
        calculated(
            expression,
            zero,
            scientific_form,
            negative,
            decimal,
            scientific,
            exp,
            rounded_exp,
            rounded,
            precise,
        ),
{
    reveal(calculated);
}

/// With a positive number of places, the rounded text ends with a point and
/// exactly that many digits.
pub proof fn lemma_round_decimal_places(abs: Seq<char>, negative: bool, places: int)
    requires
        places > 0,
    ensures
        ({
            let r = spec_round_decimal(abs, negative, places);
            r.len() >= places + 2 && r[r.len() - places - 1] == '.'
        }),
{
    let digits = rounded_digits(abs, places);
    let padded = if digits.len() < places + 1 {
        zeros(places + 1 - digits.len()) + digits
    } else {
        digits
    };
    let body = padded.take(padded.len() - places) + seq!['.'] + padded.skip(padded.len() - places);
    assert(body[body.len() - places - 1] == '.');
    let nonzero = exists|i: int| 0 <= i < digits.len() && digits[i] != '0';
    if negative && nonzero {
        let r = seq!['-'] + body;
        assert(r[r.len() - places - 1] == body[body.len() - places - 1]);
    }
}

pub(crate) proof fn lemma_without_concat(a: Seq<char>, b: Seq<char>, c: char)
    ensures
        without(a + b, c) == without(a, c) + without(b, c),
    decreases b.len(),
{
    if b.len() == 0 {
        assert(a + b =~= a);
        assert(without(a, c) + without(b, c) =~= without(a, c));
    } else {
        lemma_without_concat(a, b.drop_last(), c);
        assert((a + b).drop_last() =~= a + b.drop_last());
        assert((a + b).last() == b.last());
        if b.last() != c {
            assert(without(a, c) + without(b.drop_last(), c).push(b.last()) =~= (without(a, c)
                + without(b.drop_last(), c)).push(b.last()));
        }
    }
}

proof fn lemma_without_grouped(integer: Seq<char>, len: int, i: int)
    requires
        0 <= i <= integer.len(),
        forall|k: int| 0 <= k < integer.len() ==> integer[k] != ',',
    ensures
        without(grouped_from(integer, len, i), ',') == without(
            integer.subrange(i, integer.len() as int),
            ',',
        ),
    decreases integer.len() - i,
{
    if i < integer.len() {
        lemma_without_grouped(integer, len, i + 1);
        let comma = if i > 0 && (len - i) % 3 == 0 {
            seq![',']
        } else {
            seq![]
        };
        let rest = grouped_from(integer, len, i + 1);
        lemma_without_concat(comma + seq![integer[i]], rest, ',');
        lemma_without_concat(comma, seq![integer[i]], ',');
        assert(without(comma, ',') =~= seq![]) by {
            assert(without(Seq::<char>::empty(), ',') =~= Seq::<char>::empty());
            if comma.len() > 0 {
                assert(comma.drop_last() =~= Seq::<char>::empty());
                assert(comma.last() == ',');
            } else {
                assert(comma =~= Seq::<char>::empty());
            }
        }
        assert(without(seq![integer[i]], ',') =~= seq![integer[i]]) by {
            let single = seq![integer[i]];
            assert(integer[i] != ',');
            assert(single.last() == integer[i]);
            assert(single.drop_last() =~= Seq::<char>::empty());
            assert(without(Seq::<char>::empty(), ',') =~= Seq::<char>::empty());
            assert(without(single, ',') == without(single.drop_last(), ',').push(single.last()));
            assert(Seq::<char>::empty().push(integer[i]) =~= single);
        }
        let tail = integer.subrange(i, integer.len() as int);
        assert(tail =~= seq![integer[i]] + integer.subrange(i + 1, integer.len() as int));
        lemma_without_concat(seq![integer[i]], integer.subrange(i + 1, integer.len() as int), ',');
    } else {
        assert(integer.subrange(i, integer.len() as int) =~= Seq::<char>::empty());
    }
}

/// Grouping only inserts thousands separators: without its commas, the
/// grouped text of comma-free text is that text.
pub proof fn lemma_group_only_adds_commas(text: Seq<char>, expression: Seq<char>)
    requires
        !has_char(text, ','),
    ensures
        without(spec_group(text, expression), ',') == text,
{
    lemma_without_none(text);
    if !has_char(expression, ',') || has_char(text, 'e') {
    } else {
        let negative = text.len() > 0 && text[0] == '-';
        let rest = if negative {
            text.drop_first()
        } else {
            text
        };
        let (integer, fraction, dot) = split_dot(rest);
        lemma_index_from(rest, '.', 0);
        assert forall|k: int| 0 <= k < integer.len() implies integer[k] != ',' by {
            assert(integer[k] == rest[k]);
            if negative {
                assert(rest[k] == text[k + 1]);
            }
        }
        lemma_without_grouped(integer, utf8_len(integer), 0);
        assert(integer.subrange(0, integer.len() as int) =~= integer);
        let tail = if dot {
            seq!['.'] + fraction
        } else {
            seq![]
        };
        let body = grouped_from(integer, utf8_len(integer), 0) + tail;
        lemma_without_concat(grouped_from(integer, utf8_len(integer), 0), tail, ',');
        lemma_without_concat(integer, tail, ',');
        assert(rest =~= integer + tail);
        lemma_without_none(rest);
        if negative {
            lemma_without_concat(seq!['-'], body, ',');
            lemma_without_concat(seq!['-'], rest, ',');
            assert(text =~= seq!['-'] + rest);
        }
    }
}

pub(crate) proof fn lemma_without_none(s: Seq<char>)
    requires
        !has_char(s, ','),
    ensures
        without(s, ',') == s,
    decreases s.len(),
{
    if s.len() > 0 {
        assert(!has_char(s.drop_last(), ',')) by {
            if has_char(s.drop_last(), ',') {
                let k = choose|k: int| 0 <= k < s.drop_last().len() && s.drop_last()[k] == ',';
                assert(s[k] == ',');
            }
        }
        lemma_without_none(s.drop_last());
        assert(s.last() != ',') by {
            assert(s[s.len() - 1] == s.last());
        }
        assert(s.drop_last().push(s.last()) =~= s);
    }
}


proof fn lemma_index_from_first(s: Seq<char>, c: char, k: int, i: int)
    requires
        0 <= k <= i <= s.len(),
        i < s.len() ==> s[i] == c,
        forall|j: int| k <= j < i ==> s[j] != c,
    ensures
        index_from(s, c, k) == if i < s.len() {
            Some(i)
        } else {
            None::<int>
        },
    decreases i - k,
{
    if k < i {
        lemma_index_from_first(s, c, k + 1, i);
    }
}

proof fn lemma_utf8_len_digits(s: Seq<char>)
    requires
        all_digits(s),
    ensures
        utf8_len(s) == s.len(),
    decreases s.len(),
{
    if s.len() > 0 {
        assert(all_digits(s.drop_last())) by {
            assert forall|i: int| 0 <= i < s.drop_last().len() implies is_digit(
                #[trigger] s.drop_last()[i],
            ) by {
                assert(s.drop_last()[i] == s[i]);
            }
        }
        lemma_utf8_len_digits(s.drop_last());
        assert(is_digit(s.last()));
        assert((s.last() as u32) < 0x80);
    }
}

/// The grouping of an integer part from its `i`-th digit on: a comma
/// stands exactly where it leaves three, seven, eleven, ... characters after
/// it, so that three digits follow each comma up to the next one or the end.
proof fn lemma_grouped_shape(integer: Seq<char>, i: int)
    requires
        all_digits(integer),
        0 <= i <= integer.len(),
    ensures
        ({
            let n = integer.len() as int;
            let g = grouped_from(integer, n, i);
            &&& i >= 1 ==> g.len() == (n - i) + (n - i) / 3
            &&& i == 0 && n > 0 ==> g.len() == n + (n - 1) / 3
            &&& forall|k: int|
                0 <= k < g.len() ==> (#[trigger] g[k] == ',' <==> (g.len() - 1 - k) % 4 == 3)
        }),
    decreases integer.len() - i,
{
    let n = integer.len() as int;
    if i < n {
        lemma_grouped_shape(integer, i + 1);
        let g = grouped_from(integer, n, i);
        let rest = grouped_from(integer, n, i + 1);
        let m = n - i;
        let t = m / 3;
        assert(rest.len() == (m - 1) + (m - 1) / 3);
        assert(is_digit(integer[i]));
        assert(integer[i] != ',');
        if i > 0 && m % 3 == 0 {
            assert(g == seq![','] + seq![integer[i]] + rest);
            assert(m == 3 * t);
            assert((m - 1) / 3 == t - 1);
            assert(g.len() == 4 * t);
            assert forall|k: int| 0 <= k < g.len() implies (#[trigger] g[k] == ',' <==> (g.len() - 1
                - k) % 4 == 3) by {
                if k >= 2 {
                    assert(g[k] == rest[k - 2]);
                }
            }
        } else {
            assert(g == seq![integer[i]] + rest);
            assert((rest.len()) % 4 != 3) by {
                let r = (m - 1) % 3;
                let q = (m - 1) / 3;
                assert(m - 1 == 3 * q + r);
                assert(rest.len() == 4 * q + r);
                if i > 0 {
                    assert(r != 2);
                }
            }
            if i > 0 {
                assert((m - 1) / 3 == m / 3);
            }
            assert forall|k: int| 0 <= k < g.len() implies (#[trigger] g[k] == ',' <==> (g.len() - 1
                - k) % 4 == 3) by {
                if k >= 1 {
                    assert(g[k] == rest[k - 1]);
                }
            }
        }
    }
}


/// Grouping a decimal text, with a minus sign or without, for an expression
/// that uses commas: the sign, and the point with every digit after it, stay
/// as they are; the digits before the point keep their order and get a comma
/// exactly where three, seven, eleven, ... characters follow it before the
/// point, that is before each group of three digits counted from the point,
/// and nowhere else.
pub proof fn lemma_group_integer_part_only(
    negative: bool,
    integer: Seq<char>,
    dot: bool,
    fraction: Seq<char>,
    expression: Seq<char>,
)
    requires
        all_digits(integer),
        all_digits(fraction),
        has_char(expression, ','),
    ensures
        ({
            let sign = if negative {
                seq!['-']
            } else {
                seq![]
            };
            let tail = if dot {
                seq!['.'] + fraction
            } else {
                seq![]
            };
            let r = spec_group(sign + integer + tail, expression);
            let g = r.subrange(sign.len() as int, r.len() - tail.len());
            &&& sign.len() + tail.len() <= r.len()
            &&& r.take(sign.len() as int) == sign
            &&& r.skip(r.len() - tail.len()) == tail
            &&& without(g, ',') == integer
            &&& forall|k: int|
                0 <= k < g.len() ==> (#[trigger] g[k] == ',' <==> (g.len() - 1 - k) % 4 == 3)
        }),
{
    let sign: Seq<char> = if negative {
        seq!['-']
    } else {
        seq![]
    };
    let tail: Seq<char> = if dot {
        seq!['.'] + fraction
    } else {
        seq![]
    };
    let text = sign + integer + tail;
    let n = integer.len() as int;
    assert forall|j: int| 0 <= j < text.len() implies #[trigger] text[j] != 'e' && (j > 0 || !negative
        ==> text[j] != '-') by {
        if j < sign.len() {
        } else if j < sign.len() + n {
            assert(text[j] == integer[j - sign.len()]);
            assert(is_digit(integer[j - sign.len()]));
        } else {
            let u = j - sign.len() - n;
            assert(text[j] == tail[u]);
            if u > 0 {
                assert(tail[u] == fraction[u - 1]);
                assert(is_digit(fraction[u - 1]));
            }
        }
    }
    assert(!has_char(text, 'e'));
    let rest = integer + tail;
    if negative {
        assert(text[0] == '-');
        assert(text.drop_first() =~= rest);
    } else {
        assert(text =~= rest);
    }
    assert forall|j: int| 0 <= j < n implies rest[j] != '.' by {
        assert(rest[j] == integer[j]);
        assert(is_digit(integer[j]));
    }
    if dot {
        assert(rest[n] == '.');
        lemma_index_from_first(rest, '.', 0, n);
        assert(rest.take(n) =~= integer);
        assert(rest.skip(n + 1) =~= fraction);
    } else {
        assert(rest =~= integer);
        lemma_index_from_first(rest, '.', 0, n);
    }
    lemma_utf8_len_digits(integer);
    lemma_grouped_shape(integer, 0);
    let grouped = grouped_from(integer, n, 0);
    let r = spec_group(text, expression);
    assert(r =~= sign + grouped + tail);
    assert(r.subrange(sign.len() as int, r.len() - tail.len()) =~= grouped);
    assert(r.take(sign.len() as int) =~= sign);
    assert(r.skip(r.len() - tail.len()) =~= tail);
    assert forall|k: int| 0 <= k < integer.len() implies integer[k] != ',' by {
        assert(is_digit(integer[k]));
    }
    lemma_without_grouped(integer, n, 0);
    assert(integer.subrange(0, n) =~= integer);
    lemma_without_none(integer);
}

/// A text in scientific notation is never grouped.
pub proof fn lemma_group_keeps_scientific(text: Seq<char>, expression: Seq<char>)
    requires
        has_char(text, 'e'),
    ensures
        spec_group(text, expression) == text,
{
}

/// An expression without commas leaves the text ungrouped.
pub proof fn lemma_group_needs_commas(text: Seq<char>, expression: Seq<char>)
    requires
        !has_char(expression, ','),
    ensures
        spec_group(text, expression) == text,
{
}

} // verus!
