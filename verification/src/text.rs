//! Character-sequence helpers shared by the text transformations: splitting,
//! joining, searching and Unicode whitespace.
use vstd::prelude::*;

verus! {

/// The views of a list of character vectors.
pub open spec fn views(parts: Seq<Vec<char>>) -> Seq<Seq<char>> {
    parts.map_values(|p: Vec<char>| p@)
}

/// `char::is_whitespace`: the Unicode `White_Space` property.
pub open spec fn spec_is_whitespace(c: char) -> bool {
    ||| '\u{9}' <= c <= '\u{d}'
    ||| c == ' '
    ||| c == '\u{85}'
    ||| c == '\u{a0}'
    ||| c == '\u{1680}'
    ||| '\u{2000}' <= c <= '\u{200a}'
    ||| c == '\u{2028}'
    ||| c == '\u{2029}'
    ||| c == '\u{202f}'
    ||| c == '\u{205f}'
    ||| c == '\u{3000}'
}

pub fn is_whitespace(c: char) -> (r: bool)
    ensures
        r == spec_is_whitespace(c),
{
    ('\u{9}' <= c && c <= '\u{d}') || c == ' ' || c == '\u{85}' || c == '\u{a0}' || c == '\u{1680}'
        || ('\u{2000}' <= c && c <= '\u{200a}') || c == '\u{2028}' || c == '\u{2029}' || c
        == '\u{202f}' || c == '\u{205f}' || c == '\u{3000}'
}

/// Every character of `s` is whitespace.
pub open spec fn all_whitespace(s: Seq<char>) -> bool {
    forall|i: int| 0 <= i < s.len() ==> spec_is_whitespace(#[trigger] s[i])
}

/// `s` contains the character `c`.
pub open spec fn has_char(s: Seq<char>, c: char) -> bool {
    exists|i: int| 0 <= i < s.len() && s[i] == c
}

/// `sep` occurs in `s` at index `i`.
pub open spec fn matches_at(s: Seq<char>, sep: Seq<char>, i: int) -> bool {
    0 <= i && i + sep.len() <= s.len() && s.subrange(i, i + sep.len()) == sep
}

/// The first index at or after `i` where `sep` occurs in `s`.
pub open spec fn first_match(s: Seq<char>, sep: Seq<char>, i: int) -> Option<int>
    decreases s.len() - i,
{
    if i < 0 || i >= s.len() || i + sep.len() > s.len() {
        None
    } else if matches_at(s, sep, i) {
        Some(i)
    } else {
        first_match(s, sep, i + 1)
    }
}

/// `s` contains `sep`.
pub open spec fn contains(s: Seq<char>, sep: Seq<char>) -> bool {
    first_match(s, sep, 0) is Some
}

/// `str::split` with a non-empty pattern, on the part of `s` from `start` on.
pub open spec fn split_from(s: Seq<char>, sep: Seq<char>, start: int) -> Seq<Seq<char>>
    decreases s.len() - start,
{
    if sep.len() == 0 || start < 0 || start > s.len() {
        seq![]
    } else {
        match first_match(s, sep, start) {
            Some(i) => if start <= i && i + sep.len() <= s.len() {
                seq![s.subrange(start, i)] + split_from(s, sep, i + sep.len())
            } else {
                seq![]
            },
            None => seq![s.subrange(start, s.len() as int)],
        }
    }
}

/// `str::split` with a non-empty pattern: the pieces between the
/// non-overlapping occurrences of `sep`, found from left to right.
pub open spec fn split(s: Seq<char>, sep: Seq<char>) -> Seq<Seq<char>> {
    split_from(s, sep, 0)
}

/// `join` on a list of strings.
pub open spec fn join(parts: Seq<Seq<char>>, sep: Seq<char>) -> Seq<char>
    decreases parts.len(),
{
    if parts.len() == 0 {
        seq![]
    } else if parts.len() == 1 {
        parts[0]
    } else {
        join(parts.drop_last(), sep) + sep + parts.last()
    }
}

/// `s` ends with `suffix`.
pub open spec fn ends_with(s: Seq<char>, suffix: Seq<char>) -> bool {
    suffix.len() <= s.len() && s.subrange(s.len() - suffix.len(), s.len() as int) == suffix
}

pub proof fn lemma_first_match_bounds(s: Seq<char>, sep: Seq<char>, i: int)
    requires
        i >= 0,
    ensures
        first_match(s, sep, i) matches Some(j) ==> i <= j && matches_at(s, sep, j),
        sep.len() > 0 && first_match(s, sep, i) is None ==> forall|k: int|
            i <= k ==> !#[trigger] matches_at(s, sep, k),
    decreases s.len() - i,
{
    if i < 0 || i >= s.len() || i + sep.len() > s.len() {
    } else if matches_at(s, sep, i) {
    } else {
        lemma_first_match_bounds(s, sep, i + 1);
        if sep.len() > 0 && first_match(s, sep, i) is None {
            assert forall|k: int| i <= k implies !#[trigger] matches_at(s, sep, k) by {
                if k == i {
                }
            }
        }
    }
}

pub proof fn lemma_split_nonempty(s: Seq<char>, sep: Seq<char>)
    requires
        sep.len() > 0,
    ensures
        split(s, sep).len() >= 1,
{
    lemma_first_match_bounds(s, sep, 0);
}

/// The characters of a string.
pub fn chars_of(s: &str) -> (v: Vec<char>)
    ensures
        v@ == s@,
{
    let mut v: Vec<char> = Vec::new();
    for c in it: s.chars()
        invariant
            v@ == it.seq().take(it.index() as int),
            it.seq() == s@,
    {
        v.push(c);
    }
    v
}

/// Collects characters into a `String` (`FromIterator<char>` for `String`).
#[verifier::external_body]
pub(crate) fn string_from_chars(v: &Vec<char>) -> (s: String)
    ensures
        s@ == v@,
{
    v.iter().collect()
}

/// The characters `s[from..to]`.
pub fn slice_chars(s: &Vec<char>, from: usize, to: usize) -> (r: Vec<char>)
    requires
        from <= to <= s.len(),
    ensures
        r@ == s@.subrange(from as int, to as int),
{
    let mut r: Vec<char> = Vec::new();
    let mut i = from;
    while i < to
        invariant
            from <= i <= to <= s.len(),
            r@ == s@.subrange(from as int, i as int),
        decreases to - i,
    {
        r.push(s[i]);
        i += 1;
        assert(r@ =~= s@.subrange(from as int, i as int));
    }
    r
}

/// Appends `s` to `out`.
pub fn push_all(out: &mut Vec<char>, s: &Vec<char>)
    ensures
        final(out)@ == old(out)@ + s@,
{
    let ghost start = out@;
    let mut i: usize = 0;
    while i < s.len()
        invariant
            i <= s.len(),
            out@ == start + s@.take(i as int),
        decreases s.len() - i,
    {
        out.push(s[i]);
        i += 1;
        assert(out@ =~= start + s@.take(i as int));
    }
    assert(s@.take(s.len() as int) =~= s@);
}

/// Whether `sep` occurs in `s` at index `i`.
pub fn matches_at_exec(s: &Vec<char>, sep: &Vec<char>, i: usize) -> (r: bool)
    ensures
        r == matches_at(s@, sep@, i as int),
{
    if i > s.len() || sep.len() > s.len() - i {
        return false;
    }
    let mut k: usize = 0;
    while k < sep.len()
        invariant
            i + sep.len() <= s.len(),
            k <= sep.len(),
            forall|j: int| 0 <= j < k ==> s@[i + j] == sep@[j],
        decreases sep.len() - k,
    {
        if s[i + k] != sep[k] {
            assert(s@.subrange(i as int, i + sep.len())[k as int] != sep@[k as int]);
            return false;
        }
        k += 1;
    }
    assert(s@.subrange(i as int, i + sep.len()) =~= sep@);
    true
}

/// Whether `sep` occurs anywhere in `s`.
pub fn contains_exec(s: &Vec<char>, sep: &Vec<char>) -> (r: bool)
    requires
        sep.len() > 0,
    ensures
        r == contains(s@, sep@),
{
    let mut i: usize = 0;
    while i <= s.len()
        invariant
            i <= s.len() + 1,
            sep.len() > 0,
            first_match(s@, sep@, 0) == first_match(s@, sep@, i as int),
        decreases s.len() + 1 - i,
    {
        if matches_at_exec(s, sep, i) {
            return true;
        }
        if sep.len() >= s.len() - i {
            assert(first_match(s@, sep@, i as int + 1) is None);
            return false;
        }
        i += 1;
    }
    false
}

/// Whether `c` occurs in `s`.
pub fn has_char_exec(s: &Vec<char>, c: char) -> (r: bool)
    ensures
        r == has_char(s@, c),
{
    let mut i: usize = 0;
    while i < s.len()
        invariant
            i <= s.len(),
            forall|j: int| 0 <= j < i ==> s@[j] != c,
        decreases s.len() - i,
    {
        if s[i] == c {
            return true;
        }
        i += 1;
    }
    false
}

/// Whether two character vectors are equal.
pub fn chars_eq(a: &Vec<char>, b: &Vec<char>) -> (r: bool)
    ensures
        r == (a@ == b@),
{
    if a.len() != b.len() {
        return false;
    }
    let mut i: usize = 0;
    while i < a.len()
        invariant
            a.len() == b.len(),
            i <= a.len(),
            forall|j: int| 0 <= j < i ==> a@[j] == b@[j],
        decreases a.len() - i,
    {
        if a[i] != b[i] {
            return false;
        }
        i += 1;
    }
    assert(a@ =~= b@);
    true
}

/// Whether `s` ends with `suffix`.
pub fn ends_with_exec(s: &Vec<char>, suffix: &Vec<char>) -> (r: bool)
    ensures
        r == ends_with(s@, suffix@),
{
    if suffix.len() > s.len() {
        return false;
    }
    let r = matches_at_exec(s, suffix, s.len() - suffix.len());
    r
}

/// `str::split` with a non-empty pattern.
pub fn split_chars(s: &Vec<char>, sep: &Vec<char>) -> (parts: Vec<Vec<char>>)
    requires
        sep.len() > 0,
    ensures
        views(parts@) == split(s@, sep@),
{
    let mut parts: Vec<Vec<char>> = Vec::new();
    let mut start: usize = 0;
    let mut i: usize = 0;
    while i <= s.len() && sep.len() <= s.len() - i
        invariant
            sep.len() > 0,
            start <= i <= s.len(),
            first_match(s@, sep@, start as int) == first_match(s@, sep@, i as int),
            views(parts@) + split_from(s@, sep@, start as int) == split(s@, sep@),
        decreases s.len() - i,
    {
        if matches_at_exec(s, sep, i) {
            let piece = slice_chars(s, start, i);
            proof {
                let ghost old_views = views(parts@);
                assert(split_from(s@, sep@, start as int) == seq![piece@] + split_from(
                    s@,
                    sep@,
                    i + sep.len(),
                ));
                assert(views(parts@.push(piece)) =~= old_views.push(piece@));
                assert(old_views.push(piece@) + split_from(s@, sep@, i + sep.len()) =~= old_views
                    + (seq![piece@] + split_from(s@, sep@, i + sep.len())));
            }
            parts.push(piece);
            start = i + sep.len();
            i = start;
        } else {
            i += 1;
        }
    }
    let piece = slice_chars(s, start, s.len());
    proof {
        let ghost old_views = views(parts@);
        assert(first_match(s@, sep@, i as int) is None);
        assert(views(parts@.push(piece)) =~= old_views.push(piece@));
        assert(old_views.push(piece@) =~= old_views + seq![piece@]);
    }
    parts.push(piece);
    parts
}

/// `join` on a list of character vectors.
pub fn join_chars(parts: &Vec<Vec<char>>, sep: &Vec<char>) -> (r: Vec<char>)
    ensures
        r@ == join(views(parts@), sep@),
{
    let mut r: Vec<char> = Vec::new();
    let mut i: usize = 0;
    while i < parts.len()
        invariant
            i <= parts.len(),
            r@ == join(views(parts@).take(i as int), sep@),
        decreases parts.len() - i,
    {
        let ghost before = views(parts@).take(i as int);
        if i != 0 {
            push_all(&mut r, sep);
        }
        push_all(&mut r, &parts[i]);
        proof {
            let ghost after = views(parts@).take(i + 1);
            assert(after.drop_last() =~= before);
            assert(after.last() == parts@[i as int]@);
            if i == 0 {
                assert(r@ =~= after[0]);
            }
        }
        i += 1;
    }
    assert(views(parts@).take(parts.len() as int) =~= views(parts@));
    r
}

} // verus!
