//! Sorting the lines that selections cover: selections on touching rows
//! form one group, and each group's lines are sorted as a whole.
use vstd::prelude::*;

use vstd::relations::{sorted_by, total_ordering};

use crate::order::{
    insertion_sort, lemma_lex_antisymmetric, lemma_lex_total, lemma_lex_transitive, lex_le,
    lex_le_exec, sorted, Ordered,
};
use crate::personal_actions::{row_of, selections_wf, Selection};
use crate::text::{
    first_match, join, lemma_first_match_bounds, matches_at, push_all, slice_chars, split,
    split_chars, split_from, views,
};

verus! {

broadcast use vstd::seq_lib::group_to_multiset_ensures;

/// Lines in descending order: `a` may come before `b` when `b` comes
/// before `a` in text order.
pub open spec fn line_desc() -> spec_fn(Seq<char>, Seq<char>) -> bool {
    |a: Seq<char>, b: Seq<char>| lex_le(b, a)
}

/// The row of a selection's start.
pub open spec fn first_row(text: Seq<char>, s: Selection) -> int {
    row_of(text, s.start as int)
}

/// The row after the last row a selection covers: a selection ending at
/// the start of a row does not cover that row, unless it is empty.
pub open spec fn end_row(text: Seq<char>, s: Selection) -> int {
    if s.start == s.end || (s.end > 0 && text[s.end - 1] != '\n') {
        row_of(text, s.end as int) + 1
    } else {
        row_of(text, s.end as int)
    }
}

/// The end row of a group that goes on at selection `j` with end row `end`,
/// and the first selection after the group: a selection that starts on a
/// row before `end` joins the group.
pub open spec fn group_end(text: Seq<char>, sels: Seq<Selection>, j: int, end: int) -> (int, int)
    decreases sels.len() - j,
{
    if 0 <= j < sels.len() && first_row(text, sels[j]) <= end {
        group_end(text, sels, j + 1, end_row(text, sels[j]))
    } else {
        (end, j)
    }
}

/// The row groups of the selections from `i` on: first row, end row,
/// whether the group's first selection is reversed, and the range of
/// selections in the group.
pub open spec fn row_groups(text: Seq<char>, sels: Seq<Selection>, i: int) -> Seq<
    (int, int, bool, int, int),
>
    decreases sels.len() - i,
{
    if i < 0 || i >= sels.len() {
        seq![]
    } else {
        let (end, j) = group_end(text, sels, i + 1, end_row(text, sels[i]));
        if j <= i || j > sels.len() {
            seq![]
        } else {
            seq![(first_row(text, sels[i]), end, sels[i].reversed, i, j)] + row_groups(
                text,
                sels,
                j,
            )
        }
    }
}

/// The index of the group that holds selection `k`, among the groups from
/// selection `i` on.
pub open spec fn group_index(text: Seq<char>, sels: Seq<Selection>, i: int, k: int) -> int
    decreases sels.len() - i,
{
    if i < 0 || i >= sels.len() {
        0
    } else {
        let (end, j) = group_end(text, sels, i + 1, end_row(text, sels[i]));
        if j <= i || j > sels.len() || k < j {
            0
        } else {
            1 + group_index(text, sels, j, k)
        }
    }
}

/// `lines` with the lines of rows `a..b` sorted in descending order.
pub open spec fn sort_segment(lines: Seq<Seq<char>>, a: int, b: int) -> Seq<Seq<char>> {
    lines.subrange(0, a) + lines.subrange(a, b).sort_by(line_desc()) + lines.subrange(
        b,
        lines.len() as int,
    )
}

/// `lines` with the rows of every group sorted in descending order.
pub open spec fn sort_groups(lines: Seq<Seq<char>>, groups: Seq<(int, int, bool, int, int)>) -> Seq<
    Seq<char>,
>
    decreases groups.len(),
{
    if groups.len() == 0 {
        lines
    } else {
        sort_segment(sort_groups(lines, groups.drop_last()), groups.last().0, groups.last().1)
    }
}

/// The offset where row `r` of `lines` starts in their text.
pub open spec fn line_start(lines: Seq<Seq<char>>, r: int) -> int
    decreases r,
{
    if r <= 0 {
        0
    } else {
        line_start(lines, r - 1) + lines[r - 1].len() + 1
    }
}

/// The lines of `text` with the rows of each selection group sorted in
/// descending order.
pub open spec fn sorted_lines(text: Seq<char>, sels: Seq<Selection>) -> Seq<Seq<char>> {
    sort_groups(split(text, seq!['\n']), row_groups(text, sels, 0))
}

/// The text with the rows of each selection group sorted in descending
/// order.
pub open spec fn sorted_text(text: Seq<char>, sels: Seq<Selection>) -> Seq<char> {
    join(sorted_lines(text, sels), seq!['\n'])
}

/// One selection per group, over the whole of its rows after sorting.
pub open spec fn sorted_selections(text: Seq<char>, sels: Seq<Selection>) -> Seq<Selection> {
    let lines = sorted_lines(text, sels);
    let groups = row_groups(text, sels, 0);
    Seq::new(
        groups.len(),
        |g: int|
            Selection {
                start: line_start(lines, groups[g].0) as usize,
                end: (line_start(lines, groups[g].1 - 1) + lines[groups[g].1 - 1].len()) as usize,
                reversed: groups[g].2,
            },
    )
}

/// A line, ordered so that later lines in text order come first.
pub struct DescendingLine {
    pub chars: Vec<char>,
}

impl Ordered for DescendingLine {
    open spec fn spec_le(&self, other: &Self) -> bool {
        lex_le(other.chars@, self.chars@)
    }

    fn le(&self, other: &Self) -> (r: bool) {
        lex_le_exec(&other.chars, &self.chars)
    }

    proof fn lemma_total(a: &Self, b: &Self) {
        lemma_lex_total(a.chars@, b.chars@);
    }

    proof fn lemma_transitive(a: &Self, b: &Self, c: &Self) {
        lemma_lex_transitive(c.chars@, b.chars@, a.chars@);
    }
}

pub proof fn lemma_line_desc_total()
    ensures
        total_ordering(line_desc()),
{
    let r = line_desc();
    assert forall|x: Seq<char>| #[trigger] r(x, x) by {
        lemma_lex_total(x, x);
    }
    assert forall|x: Seq<char>, y: Seq<char>| #[trigger] r(x, y) && #[trigger] r(y, x) implies x
        == y by {
        lemma_lex_antisymmetric(x, y);
    }
    assert forall|x: Seq<char>, y: Seq<char>, z: Seq<char>|
        #[trigger] r(x, y) && #[trigger] r(y, z) implies r(x, z) by {
        lemma_lex_transitive(z, y, x);
    }
    assert forall|x: Seq<char>, y: Seq<char>| #[trigger] r(x, y) || #[trigger] r(y, x) by {
        lemma_lex_total(x, y);
    }
}

proof fn lemma_row_of_monotone(text: Seq<char>, x: int, y: int)
    requires
        0 <= x <= y <= text.len(),
    ensures
        row_of(text, x) <= row_of(text, y),
    decreases y - x,
{
    if x < y {
        lemma_row_of_monotone(text, x, y - 1);
    }
}

proof fn lemma_row_of_flat(text: Seq<char>, x: int, y: int)
    requires
        0 <= x <= y <= text.len(),
        forall|k: int| x <= k < y ==> text[k] != '\n',
    ensures
        row_of(text, x) == row_of(text, y),
    decreases y - x,
{
    if x < y {
        lemma_row_of_flat(text, x, y - 1);
    }
}

pub proof fn lemma_first_match_first(s: Seq<char>, sep: Seq<char>, i: int)
    requires
        i >= 0,
    ensures
        first_match(s, sep, i) matches Some(j) ==> forall|k: int|
            i <= k < j ==> !#[trigger] matches_at(s, sep, k),
    decreases s.len() - i,
{
    if 0 <= i < s.len() && i + sep.len() <= s.len() && !matches_at(s, sep, i) {
        lemma_first_match_first(s, sep, i + 1);
    }
}

pub proof fn lemma_newline_match(s: Seq<char>, k: int)
    ensures
        matches_at(s, seq!['\n'], k) == (0 <= k < s.len() && s[k] == '\n'),
{
    if 0 <= k < s.len() {
        assert(s.subrange(k, k + 1)[0] == s[k]);
        if s[k] == '\n' {
            assert(s.subrange(k, k + 1) =~= seq!['\n']);
        }
    }
}

proof fn lemma_split_from_len(s: Seq<char>, start: int)
    requires
        0 <= start <= s.len(),
    ensures
        split_from(s, seq!['\n'], start).len() == row_of(s, s.len() as int) - row_of(s, start) + 1,
    decreases s.len() - start,
{
    let nl = seq!['\n'];
    lemma_first_match_bounds(s, nl, start);
    lemma_first_match_first(s, nl, start);
    match first_match(s, nl, start) {
        Some(i) => {
            lemma_newline_match(s, i);
            assert forall|k: int| start <= k < i implies s[k] != '\n' by {
                lemma_newline_match(s, k);
            }
            lemma_row_of_flat(s, start, i);
            lemma_split_from_len(s, i + 1);
        },
        None => {
            assert forall|k: int| start <= k < s.len() implies s[k] != '\n' by {
                lemma_newline_match(s, k);
            }
            lemma_row_of_flat(s, start, s.len() as int);
        },
    }
}

/// The text has one more line than line breaks.
pub proof fn lemma_line_count(text: Seq<char>)
    ensures
        split(text, seq!['\n']).len() == row_of(text, text.len() as int) + 1,
{
    lemma_split_from_len(text, 0);
}

proof fn lemma_end_row_bounds(text: Seq<char>, s: Selection)
    requires
        s.start <= s.end <= text.len(),
    ensures
        first_row(text, s) < end_row(text, s) <= row_of(text, text.len() as int) + 1,
{
    lemma_row_of_monotone(text, s.start as int, s.end as int);
    lemma_row_of_monotone(text, s.end as int, text.len() as int);
    if !(s.start == s.end || (s.end > 0 && text[s.end - 1] != '\n')) {
        lemma_row_of_monotone(text, s.start as int, s.end - 1);
    }
}

/// The rows before `r` and their line breaks take `line_start(lines, r)`
/// characters, which only grows with `r`.
proof fn lemma_line_start_monotone(lines: Seq<Seq<char>>, x: int, y: int)
    requires
        0 <= x <= y <= lines.len(),
    ensures
        line_start(lines, x) <= line_start(lines, y),
        x < y ==> line_start(lines, x) + lines[x].len() < line_start(lines, y),
    decreases y - x,
{
    if x < y {
        lemma_line_start_monotone(lines, x, y - 1);
    }
}

proof fn lemma_sort_segment_len(lines: Seq<Seq<char>>, a: int, b: int)
    requires
        0 <= a <= b <= lines.len(),
    ensures
        sort_segment(lines, a, b).len() == lines.len(),
{
    lemma_line_desc_total();
    lines.subrange(a, b).lemma_sort_by_ensures(line_desc());
    vstd::seq_lib::to_multiset_len(lines.subrange(a, b));
    vstd::seq_lib::to_multiset_len(lines.subrange(a, b).sort_by(line_desc()));
}

/// Sorting rows `a..b` leaves the other rows where they are and puts rows
/// `a..b` in descending order.
proof fn lemma_sort_segment_parts(lines: Seq<Seq<char>>, a: int, b: int)
    requires
        0 <= a <= b <= lines.len(),
    ensures
        sort_segment(lines, a, b).len() == lines.len(),
        forall|k: int|
            0 <= k < lines.len() && (k < a || b <= k) ==> #[trigger] sort_segment(lines, a, b)[k]
                == lines[k],
        sorted_by(sort_segment(lines, a, b).subrange(a, b), line_desc()),
{
    lemma_sort_segment_len(lines, a, b);
    lemma_line_desc_total();
    let mid = lines.subrange(a, b).sort_by(line_desc());
    lines.subrange(a, b).lemma_sort_by_ensures(line_desc());
    assert(mid.len() == b - a);
    let r = sort_segment(lines, a, b);
    assert forall|k: int| 0 <= k < lines.len() && (k < a || b <= k) implies #[trigger] r[k]
        == lines[k] by {
        if k < a {
            assert(r[k] == lines.subrange(0, a)[k]);
        } else {
            assert(r[k] == lines.subrange(b, lines.len() as int)[k - b]);
        }
    }
    assert(r.subrange(a, b) =~= mid);
}

/// Groups that come in order of rows and do not touch: every group ends
/// before any later one starts.
proof fn lemma_groups_apart(groups: Seq<(usize, usize, bool, usize, usize)>, p: int, q: int)
    requires
        forall|h: int| 0 <= h < groups.len() ==> (#[trigger] groups[h]).0 < groups[h].1,
        forall|h: int| 0 <= h < groups.len() - 1 ==> (#[trigger] groups[h]).1 < groups[h + 1].0,
        0 <= p < q < groups.len(),
    ensures
        groups[p].1 < groups[q].0,
    decreases q - p,
{
    if q > p + 1 {
        lemma_groups_apart(groups, p, q - 1);
        assert(groups[q - 1].1 < groups[q].0);
    }
}

/// Sorting a segment keeps every line, as often as it occurs.
proof fn lemma_sort_segment_multiset(lines: Seq<Seq<char>>, a: int, b: int)
    requires
        0 <= a <= b <= lines.len(),
    ensures
        sort_segment(lines, a, b).to_multiset() == lines.to_multiset(),
{
    lemma_line_desc_total();
    let pre = lines.subrange(0, a);
    let mid = lines.subrange(a, b);
    let post = lines.subrange(b, lines.len() as int);
    mid.lemma_sort_by_ensures(line_desc());
    vstd::seq_lib::lemma_multiset_commutative(pre, mid.sort_by(line_desc()));
    vstd::seq_lib::lemma_multiset_commutative(pre + mid.sort_by(line_desc()), post);
    vstd::seq_lib::lemma_multiset_commutative(pre, mid);
    vstd::seq_lib::lemma_multiset_commutative(pre + mid, post);
    assert(pre + mid + post =~= lines);
}

/// The groups of the selections, with the index of the newest one's group.
fn groups_of(text: &Vec<char>, sels: &Vec<Selection>, newest: usize, nlines: usize) -> (r: (
    Vec<(usize, usize, bool, usize, usize)>,
    usize,
))
    requires
        selections_wf(sels@, newest as int, text@.len() as int),
        nlines == row_of(text@, text@.len() as int) + 1,
    ensures
        r.0@.len() == row_groups(text@, sels@, 0).len(),
        forall|g: int|
            0 <= g < r.0@.len() ==> {
                let x = #[trigger] r.0@[g];
                let y = row_groups(text@, sels@, 0)[g];
                &&& x.0 as int == y.0 && x.1 as int == y.1 && x.2 == y.2 && x.3 as int == y.3
                    && x.4 as int == y.4
                &&& x.0 < x.1 <= row_of(text@, text@.len() as int) + 1
            },
        forall|g: int|
            0 <= g < r.0@.len() - 1 ==> (#[trigger] r.0@[g]).1 < r.0@[g + 1].0,
        r.0@.len() > 0,
        r.1 < r.0@.len(),
        r.1 as int == group_index(text@, sels@, 0, newest as int),
{
    let mut groups: Vec<(usize, usize, bool, usize, usize)> = Vec::new();
    let mut newest_group: usize = 0;
    let mut i: usize = 0;
    let ghost t = text@;
    let ghost s = sels@;
    let ghost total_rows = row_of(t, t.len() as int) + 1;
    while i < sels.len()
        invariant
            t == text@,
            s == sels@,
            selections_wf(s, newest as int, t.len() as int),
            total_rows == row_of(t, t.len() as int) + 1,
            nlines == total_rows,
            i <= s.len(),
            row_groups(t, s, 0) == views_of_groups(groups@) + row_groups(t, s, i as int),
            forall|g: int|
                0 <= g < groups@.len() ==> #[trigger] groups@[g].0 < groups@[g].1 <= total_rows,
            forall|g: int| 0 <= g < groups@.len() - 1 ==> (#[trigger] groups@[g]).1 < groups@[g + 1].0,
            groups@.len() > 0 ==> groups@.last().4 == i,
            groups@.len() > 0 && i < s.len() ==> groups@.last().1 < first_row(t, s[i as int]),
            i > 0 ==> groups@.len() > 0,
            newest < i ==> newest_group < groups@.len() && group_index(t, s, 0, newest as int)
                == newest_group + 0,
            newest >= i ==> group_index(t, s, 0, newest as int) == groups@.len() + group_index(
                t,
                s,
                i as int,
                newest as int,
            ),
        decreases s.len() - i,
    {
        let first = self::row_at_exec(text, sels[i].start);
        let mut end = self::end_row_exec(text, sels[i], nlines);
        proof {
            assert(s[i as int].start <= s[i as int].end <= t.len());
            lemma_end_row_bounds(t, s[i as int]);
        }
        let mut j = i + 1;
        while j < sels.len() && self::row_at_exec(text, sels[j].start) <= end
            invariant
                t == text@,
                s == sels@,
                selections_wf(s, newest as int, t.len() as int),
                i < j <= s.len(),
                first as int == first_row(t, s[i as int]),
                first < end <= total_rows,
                total_rows == row_of(t, t.len() as int) + 1,
                nlines == total_rows,
                group_end(t, s, i + 1, end_row(t, s[i as int])) == group_end(
                    t,
                    s,
                    j as int,
                    end as int,
                ),
            decreases s.len() - j,
        {
            proof {
                assert(s[j as int].start <= s[j as int].end <= t.len());
                lemma_end_row_bounds(t, s[j as int]);
                assert(s[j - 1].end <= s[j as int].start);
                assert(s[i as int].start <= s[i as int].end);
                lemma_start_order(t, s, newest as int, i as int, j as int);
                lemma_row_of_monotone(t, s[i as int].start as int, s[j as int].start as int);
            }
            end = self::end_row_exec(text, sels[j], nlines);
            j += 1;
        }
        proof {
            assert(row_groups(t, s, i as int) == seq![
                (first as int, end as int, s[i as int].reversed, i as int, j as int),
            ] + row_groups(t, s, j as int));
            if j < s.len() {
                assert(first_row(t, s[j as int]) > end);
            }
        }
        if newest >= i && newest < j {
            newest_group = groups.len();
        }
        let ghost old_groups = groups@;
        groups.push((first, end, sels[i].reversed, i, j));
        proof {
            assert(views_of_groups(groups@) =~= views_of_groups(old_groups).push(
                (first as int, end as int, s[i as int].reversed, i as int, j as int),
            ));
            assert(views_of_groups(old_groups).push(
                (first as int, end as int, s[i as int].reversed, i as int, j as int),
            ) + row_groups(t, s, j as int) =~= views_of_groups(old_groups) + (seq![
                (first as int, end as int, s[i as int].reversed, i as int, j as int),
            ] + row_groups(t, s, j as int)));
            if old_groups.len() > 0 {
                assert(old_groups.last().1 < first);
            }
        }
        i = j;
    }
    proof {
        assert(row_groups(t, s, i as int) =~= seq![]);
        assert(views_of_groups(groups@) + seq![] =~= views_of_groups(groups@));
    }
    (groups, newest_group)
}

pub open spec fn views_of_groups(groups: Seq<(usize, usize, bool, usize, usize)>) -> Seq<
    (int, int, bool, int, int),
> {
    groups.map_values(
        |x: (usize, usize, bool, usize, usize)| (x.0 as int, x.1 as int, x.2, x.3 as int, x.4 as int),
    )
}

proof fn lemma_start_order(text: Seq<char>, sels: Seq<Selection>, newest: int, i: int, j: int)
    requires
        selections_wf(sels, newest, text.len() as int),
        0 <= i <= j < sels.len(),
    ensures
        sels[i].start <= sels[j].start,
    decreases j - i,
{
    if i < j {
        lemma_start_order(text, sels, newest, i, j - 1);
        assert(sels[j - 1].start <= sels[j - 1].end);
        assert(sels[j - 1].end <= sels[j].start);
    }
}

fn row_at_exec(text: &Vec<char>, offset: usize) -> (r: usize)
    requires
        offset <= text.len(),
    ensures
        r as int == row_of(text@, offset as int),
{
    let mut row: usize = 0;
    let mut k: usize = 0;
    while k < offset
        invariant
            k <= offset <= text.len(),
            row as int == row_of(text@, k as int),
            row <= k,
        decreases offset - k,
    {
        if text[k] == '\n' {
            row += 1;
        }
        k += 1;
    }
    row
}

fn end_row_exec(text: &Vec<char>, s: Selection, nlines: usize) -> (r: usize)
    requires
        s.start <= s.end <= text.len(),
        nlines == row_of(text@, text@.len() as int) + 1,
    ensures
        r as int == end_row(text@, s),
{
    let row = row_at_exec(text, s.end);
    proof {
        lemma_row_of_monotone(text@, s.end as int, text@.len() as int);
    }
    if s.start == s.end || (s.end > 0 && text[s.end - 1] != '\n') {
        row + 1
    } else {
        row
    }
}

/// Sorts rows `a..b` of `lines` in descending order.
fn sort_segment_exec(lines: &mut Vec<Vec<char>>, a: usize, b: usize)
    requires
        a <= b <= old(lines)@.len(),
    ensures
        views(final(lines)@) == sort_segment(views(old(lines)@), a as int, b as int),
        views(final(lines)@).to_multiset() == views(old(lines)@).to_multiset(),
        final(lines)@.len() == old(lines)@.len(),
{
    let ghost before = views(lines@);
    let mut segment: Vec<DescendingLine> = Vec::new();
    let mut k: usize = a;
    while k < b
        invariant
            a <= k <= b <= lines@.len(),
            before == views(lines@),
            segment@.len() == k - a,
            forall|m: int| 0 <= m < k - a ==> #[trigger] segment@[m].chars@ == lines@[a + m]@,
        decreases b - k,
    {
        let copy = slice_chars(&lines[k], 0, lines[k].len());
        assert(lines@[k as int]@.subrange(0, lines@[k as int]@.len() as int) =~= lines@[k as int]@);
        segment.push(DescendingLine { chars: copy });
        k += 1;
    }
    let ghost unsorted = segment@;
    let ghost view = |d: DescendingLine| d.chars@;
    assert(unsorted.map_values(view) =~= before.subrange(a as int, b as int));
    insertion_sort(&mut segment);
    proof {
        crate::command_history::lemma_map_values_multiset(segment@, unsorted, view);
        lemma_line_desc_total();
        let sorted_view = segment@.map_values(view);
        assert(sorted_by(sorted_view, line_desc())) by {
            assert forall|x: int, y: int| 0 <= x < y < sorted_view.len() implies #[trigger] line_desc()(
                sorted_view[x],
                sorted_view[y],
            ) by {
                assert(segment@[x].spec_le(&segment@[y]));
            }
        }
        before.subrange(a as int, b as int).lemma_sort_by_ensures(line_desc());
        vstd::seq_lib::lemma_sorted_unique(
            sorted_view,
            before.subrange(a as int, b as int).sort_by(line_desc()),
            line_desc(),
        );
        vstd::seq_lib::to_multiset_len(unsorted);
        vstd::seq_lib::to_multiset_len(segment@);
    }
    let ghost mid = lines@;
    let mut m: usize = 0;
    while m < segment.len()
        invariant
            m <= segment@.len(),
            segment@.len() == b - a,
            b <= lines@.len(),
            lines@.len() == mid.len(),
            forall|x: int| 0 <= x < a ==> #[trigger] lines@[x] == mid[x],
            forall|x: int| b <= x < lines@.len() ==> #[trigger] lines@[x] == mid[x],
            forall|x: int| a <= x < a + m ==> #[trigger] lines@[x]@ == segment@[x - a].chars@,
        decreases segment@.len() - m,
    {
        let copy = slice_chars(&segment[m].chars, 0, segment[m].chars.len());
        assert(segment@[m as int].chars@.subrange(0, segment@[m as int].chars@.len() as int)
            =~= segment@[m as int].chars@);
        lines.set(a + m, copy);
        m += 1;
    }
    proof {
        lemma_sort_segment_len(before, a as int, b as int);
        assert forall|x: int| 0 <= x < views(lines@).len() implies #[trigger] views(lines@)[x]
            == sort_segment(before, a as int, b as int)[x] by {
            if x < a {
                assert(lines@[x] == mid[x]);
            } else if x < b {
                assert(lines@[x]@ == segment@[x - a].chars@);
                assert(segment@.map_values(view)[x - a] == segment@[x - a].chars@);
            } else {
                assert(lines@[x] == mid[x]);
            }
        }
        assert(views(lines@) =~= sort_segment(before, a as int, b as int));
        lemma_sort_segment_multiset(before, a as int, b as int);
    }
}

/// Joins `lines` with line breaks, with the offset where each line starts.
fn join_lines(lines: &Vec<Vec<char>>) -> (r: (Vec<char>, Vec<usize>))
    requires
        lines@.len() > 0,
    ensures
        r.0@ == join(views(lines@), seq!['\n']),
        r.1@.len() == lines@.len(),
        forall|x: int| 0 <= x < r.1@.len() ==> #[trigger] r.1@[x] as int == line_start(views(lines@), x),
        r.0@.len() == line_start(views(lines@), lines@.len() - 1) + lines@[lines@.len() - 1]@.len(),
{
    let ghost all = views(lines@);
    let mut out: Vec<char> = Vec::new();
    let mut starts: Vec<usize> = Vec::new();
    let mut r: usize = 0;
    while r < lines.len()
        invariant
            r <= lines@.len(),
            all == views(lines@),
            r > 0 ==> out@ == join(all.take(r as int), seq!['\n']),
            r == 0 ==> out@.len() == 0,
            starts@.len() == r,
            forall|x: int| 0 <= x < r ==> #[trigger] starts@[x] as int == line_start(all, x),
            r > 0 ==> out@.len() == line_start(all, r - 1) + all[r - 1].len(),
        decreases lines@.len() - r,
    {
        if r > 0 {
            out.push('\n');
        }
        starts.push(out.len());
        push_all(&mut out, &lines[r]);
        proof {
            let t = all.take(r + 1);
            if r > 0 {
                assert(t.drop_last() =~= all.take(r as int));
                assert(t.last() == all[r as int]);
            } else {
                assert(t =~= seq![all[0]]);
            }
        }
        r += 1;
    }
    assert(all.take(lines.len() as int) =~= all);
    (out, starts)
}

/// Sorts the rows of each group in turn.
fn sort_rows(
    lines: &mut Vec<Vec<char>>,
    groups: &Vec<(usize, usize, bool, usize, usize)>,
    Ghost(spec_groups): Ghost<Seq<(int, int, bool, int, int)>>,
)
    requires
        spec_groups.len() == groups@.len(),
        forall|h: int|
            0 <= h < groups@.len() ==> {
                let x = #[trigger] groups@[h];
                &&& x.0 as int == spec_groups[h].0 && x.1 as int == spec_groups[h].1
                &&& x.0 < x.1 <= old(lines)@.len()
            },
        forall|h: int| 0 <= h < groups@.len() - 1 ==> (#[trigger] groups@[h]).1 < groups@[h + 1].0,
    ensures
        final(lines)@.len() == old(lines)@.len(),
        views(final(lines)@) == sort_groups(views(old(lines)@), spec_groups),
        views(final(lines)@).to_multiset() == views(old(lines)@).to_multiset(),
        forall|h: int|
            0 <= h < spec_groups.len() ==> sorted_by(
                views(final(lines)@).subrange(#[trigger] spec_groups[h].0, spec_groups[h].1),
                line_desc(),
            ),
{
    let ghost start_lines = views(lines@);
    let mut g: usize = 0;
    while g < groups.len()
        invariant
            g <= groups.len(),
            spec_groups.len() == groups@.len(),
            forall|h: int|
                0 <= h < groups@.len() ==> {
                    let x = #[trigger] groups@[h];
                    &&& x.0 as int == spec_groups[h].0 && x.1 as int == spec_groups[h].1
                    &&& x.0 < x.1 <= start_lines.len()
                },
            lines@.len() == start_lines.len(),
            views(lines@) == sort_groups(start_lines, spec_groups.take(g as int)),
            views(lines@).to_multiset() == start_lines.to_multiset(),
            forall|h: int| 0 <= h < groups@.len() - 1 ==> (#[trigger] groups@[h]).1 < groups@[h + 1].0,
            forall|h: int|
                0 <= h < g ==> sorted_by(
                    views(lines@).subrange(#[trigger] spec_groups[h].0, spec_groups[h].1),
                    line_desc(),
                ),
        decreases groups.len() - g,
    {
        let (a, b, _, _, _) = groups[g];
        let ghost prev = views(lines@);
        sort_segment_exec(lines, a, b);
        proof {
            assert(spec_groups.take(g + 1).drop_last() =~= spec_groups.take(g as int));
            assert(spec_groups.take(g + 1).last() == spec_groups[g as int]);
            lemma_sort_segment_parts(prev, a as int, b as int);
            let now = views(lines@);
            assert forall|h: int| 0 <= h < g + 1 implies sorted_by(
                now.subrange(#[trigger] spec_groups[h].0, spec_groups[h].1),
                line_desc(),
            ) by {
                if h < g {
                    let x = groups@[h];
                    let y = groups@[g as int];
                    lemma_groups_apart(groups@, h, g as int);
                    assert(now.subrange(x.0 as int, x.1 as int) =~= prev.subrange(x.0 as int, x.1 as int)) by {
                        assert forall|k: int| 0 <= k < x.1 - x.0 implies now.subrange(x.0 as int, x.1 as int)[k]
                            == prev.subrange(x.0 as int, x.1 as int)[k] by {
                            assert(now[x.0 + k] == prev[x.0 + k]);
                        }
                    }
                } else {
                    assert(groups@[h].0 == a && groups@[h].1 == b);
                }
            }
        }
        g += 1;
    }
    assert(spec_groups.take(groups.len() as int) =~= spec_groups);
}

/// One selection per group, from the start of its first row to the end of
/// its last row.
fn group_selections(
    lines: &Vec<Vec<char>>,
    starts: &Vec<usize>,
    text_len: usize,
    groups: &Vec<(usize, usize, bool, usize, usize)>,
) -> (r: Vec<Selection>)
    requires
        lines@.len() > 0,
        starts@.len() == lines@.len(),
        forall|x: int| 0 <= x < starts@.len() ==> #[trigger] starts@[x] as int == line_start(views(lines@), x),
        text_len == line_start(views(lines@), lines@.len() - 1) + lines@[lines@.len() - 1]@.len(),
        forall|q: int| 0 <= q < groups@.len() ==> (#[trigger] groups@[q]).0 < groups@[q].1 <= lines@.len(),
        forall|q: int| 0 <= q < groups@.len() - 1 ==> (#[trigger] groups@[q]).1 < groups@[q + 1].0,
    ensures
        r@.len() == groups@.len(),
        forall|q: int|
            0 <= q < groups@.len() ==> #[trigger] r@[q] == (Selection {
                start: line_start(views(lines@), groups@[q].0 as int) as usize,
                end: (line_start(views(lines@), groups@[q].1 - 1) + lines@[groups@[q].1 - 1]@.len()) as usize,
                reversed: groups@[q].2,
            }),
        forall|q: int| 0 <= q < r@.len() ==> (#[trigger] r@[q]).start <= r@[q].end <= text_len,
        forall|q: int| 0 <= q < r@.len() - 1 ==> (#[trigger] r@[q]).end <= r@[q + 1].start,
{
    let ghost all = views(lines@);
    let mut selections: Vec<Selection> = Vec::new();
    let mut h: usize = 0;
    while h < groups.len()
        invariant
            h <= groups@.len(),
            all == views(lines@),
            all.len() > 0,
            forall|q: int| 0 <= q < groups@.len() ==> (#[trigger] groups@[q]).0 < groups@[q].1 <= all.len(),
            forall|q: int| 0 <= q < groups@.len() - 1 ==> (#[trigger] groups@[q]).1 < groups@[q + 1].0,
            starts@.len() == all.len(),
            forall|x: int| 0 <= x < starts@.len() ==> #[trigger] starts@[x] as int == line_start(all, x),
            text_len == line_start(all, all.len() - 1) + all[all.len() - 1].len(),
            selections@.len() == h,
            forall|q: int|
                0 <= q < h ==> #[trigger] selections@[q] == (Selection {
                    start: line_start(all, groups@[q].0 as int) as usize,
                    end: (line_start(all, groups@[q].1 - 1) + all[groups@[q].1 - 1].len()) as usize,
                    reversed: groups@[q].2,
                }),
            forall|q: int| 0 <= q < h ==> (#[trigger] selections@[q]).start <= selections@[q].end <= text_len,
            forall|q: int| 0 <= q < h - 1 ==> (#[trigger] selections@[q]).end <= selections@[q + 1].start,
            h > 0 ==> selections@[h - 1].end as int == line_start(all, groups@[h - 1].1 - 1) + all[groups@[h - 1].1 - 1].len(),
        decreases groups@.len() - h,
    {
        let (a, b, reversed, _, _) = groups[h];
        proof {
            lemma_line_start_monotone(all, a as int, b - 1);
            lemma_line_start_monotone(all, b - 1, all.len() - 1);
            if h > 0 {
                let pb = groups@[h - 1].1;
                lemma_line_start_monotone(all, pb - 1, a as int);
            }
        }
        let start = starts[a];
        let end = starts[b - 1] + lines[b - 1].len();
        selections.push(Selection { start, end, reversed });
        h += 1;
    }
    selections
}

/// Sorts the lines of `text` group by group and gives the new text, one
/// selection per group over its rows, and the index of the newest
/// selection's group.
pub fn sort_line_groups(text: &Vec<char>, sels: &Vec<Selection>, newest: usize) -> (r: (
    Vec<char>,
    Vec<Selection>,
    usize,
))
    requires
        selections_wf(sels@, newest as int, text@.len() as int),
    ensures
        r.0@ == sorted_text(text@, sels@),
        r.1@ == sorted_selections(text@, sels@),
        r.2 as int == group_index(text@, sels@, 0, newest as int),
        selections_wf(r.1@, r.2 as int, r.0@.len() as int),
        sorted_lines(text@, sels@).to_multiset() == split(text@, seq!['\n']).to_multiset(),
        forall|g: int|
            0 <= g < row_groups(text@, sels@, 0).len() ==> sorted_by(
                sorted_lines(text@, sels@).subrange(
                    #[trigger] row_groups(text@, sels@, 0)[g].0,
                    row_groups(text@, sels@, 0)[g].1,
                ),
                line_desc(),
            ),
{
    let mut nl: Vec<char> = Vec::new();
    nl.push('\n');
    assert(nl@ =~= seq!['\n']);
    let mut lines = split_chars(text, &nl);
    proof {
        lemma_line_count(text@);
        lemma_row_of_monotone(text@, 0, text@.len() as int);
    }
    let (groups, newest_group) = groups_of(text, sels, newest, lines.len());
    let ghost all_groups = row_groups(text@, sels@, 0);
    sort_rows(&mut lines, &groups, Ghost(all_groups));
    let ghost final_lines = views(lines@);
    assert(final_lines == sorted_lines(text@, sels@));
    let (out, starts) = join_lines(&lines);
    let selections = group_selections(&lines, &starts, out.len(), &groups);
    proof {
        let expected = sorted_selections(text@, sels@);
        assert forall|q: int| 0 <= q < selections@.len() implies #[trigger] selections@[q] == expected[q] by {
            let x = groups@[q];
            assert(lines@[x.1 - 1]@ == final_lines[x.1 - 1]);
        }
        assert(selections@ =~= expected);
    }
    (out, selections, newest_group)
}

} // verus!
