//! Text transformations behind the selection actions: removing duplicate
//! lines and finding the fenced code block around a row.
use vstd::prelude::*;

use crate::text::{
    all_whitespace, chars_eq, chars_of, contains, has_char, has_char_exec, is_whitespace,
    spec_is_whitespace, contains_exec, ends_with, ends_with_exec, join, join_chars,
    push_all, slice_chars, split, split_chars, string_from_chars, views,
};

verus! {

/// The line ending of `text`: `"\r\n"` when it occurs anywhere, else `"\n"`.
pub open spec fn eol_of(text: Seq<char>) -> Seq<char> {
    if contains(text, seq!['\r', '\n']) {
        seq!['\r', '\n']
    } else {
        seq!['\n']
    }
}

/// `lines` with every line that occurred earlier removed.
pub open spec fn dedup(lines: Seq<Seq<char>>) -> Seq<Seq<char>>
    decreases lines.len(),
{
    if lines.len() == 0 {
        seq![]
    } else {
        let kept = dedup(lines.drop_last());
        if kept.contains(lines.last()) {
            kept
        } else {
            kept.push(lines.last())
        }
    }
}

/// The lines of `text` without repetitions, in the order of their first
/// occurrence, joined by the text's line ending; a trailing line ending is
/// kept.
pub open spec fn spec_unique_lines(text: Seq<char>) -> Seq<char> {
    let eol = eol_of(text);
    let trailing = ends_with(text, eol);
    let body = if trailing {
        text.subrange(0, text.len() - eol.len())
    } else {
        text
    };
    let joined = join(dedup(split(body, eol)), eol);
    if trailing {
        joined + eol
    } else {
        joined
    }
}

fn line_ending(text: &Vec<char>) -> (eol: Vec<char>)
    ensures
        eol@ == eol_of(text@),
{
    let mut crlf: Vec<char> = Vec::new();
    crlf.push('\r');
    crlf.push('\n');
    assert(crlf@ =~= seq!['\r', '\n']);
    if contains_exec(text, &crlf) {
        crlf
    } else {
        let mut lf: Vec<char> = Vec::new();
        lf.push('\n');
        assert(lf@ =~= seq!['\n']);
        lf
    }
}

fn contains_line(lines: &Vec<Vec<char>>, line: &Vec<char>) -> (r: bool)
    ensures
        r == views(lines@).contains(line@),
{
    let mut i: usize = 0;
    while i < lines.len()
        invariant
            i <= lines.len(),
            forall|j: int| 0 <= j < i ==> lines@[j]@ != line@,
        decreases lines.len() - i,
    {
        if chars_eq(&lines[i], line) {
            assert(views(lines@)[i as int] == line@);
            return true;
        }
        i += 1;
    }
    proof {
        if views(lines@).contains(line@) {
            let j = choose|j: int| 0 <= j < views(lines@).len() && views(lines@)[j] == line@;
            assert(lines@[j]@ == line@);
        }
    }
    false
}

/// Removes repeated lines from `text`, keeping the first occurrence of each.
/// The line ending is `"\r\n"` when the text contains one and `"\n"`
/// otherwise, and a trailing line ending stays.
pub fn unique_lines(text: &str) -> (r: String)
    ensures
        r@ == spec_unique_lines(text@),
{
    let chars = chars_of(text);
    let eol = line_ending(&chars);
    let trailing = ends_with_exec(&chars, &eol);
    let body = if trailing {
        slice_chars(&chars, 0, chars.len() - eol.len())
    } else {
        slice_chars(&chars, 0, chars.len())
    };
    assert(chars@.subrange(0, chars@.len() as int) =~= chars@);
    let lines = split_chars(&body, &eol);
    let mut kept: Vec<Vec<char>> = Vec::new();
    let mut i: usize = 0;
    while i < lines.len()
        invariant
            i <= lines.len(),
            views(kept@) == dedup(views(lines@).take(i as int)),
        decreases lines.len() - i,
    {
        let ghost prefix = views(lines@).take(i + 1);
        assert(prefix.drop_last() =~= views(lines@).take(i as int));
        assert(prefix.last() == lines@[i as int]@);
        if !contains_line(&kept, &lines[i]) {
            let line = slice_chars(&lines[i], 0, lines[i].len());
            let ghost whole = lines@[i as int]@;
            assert(whole.subrange(0, whole.len() as int) =~= whole);
            assert(views(kept@.push(line)) =~= views(kept@).push(line@));
            kept.push(line);
        }
        i += 1;
    }
    assert(views(lines@).take(lines.len() as int) =~= views(lines@));
    let mut joined = join_chars(&kept, &eol);
    if trailing {
        push_all(&mut joined, &eol);
    }
    string_from_chars(&joined)
}

/// The lines of `text`: split at `'\n'`, each without a trailing `'\r'`.
pub open spec fn text_lines(text: Seq<char>) -> Seq<Seq<char>> {
    split(text, seq!['\n']).map_values(|line: Seq<char>| strip_cr(line))
}

/// `line` without one trailing `'\r'`.
pub open spec fn strip_cr(line: Seq<char>) -> Seq<char> {
    if line.len() > 0 && line.last() == '\r' {
        line.drop_last()
    } else {
        line
    }
}

/// The first index at or after `k` whose character is not whitespace.
pub open spec fn whitespace_end(s: Seq<char>, k: int) -> int
    decreases s.len() - k,
{
    if 0 <= k < s.len() && spec_is_whitespace(s[k]) {
        whitespace_end(s, k + 1)
    } else {
        k
    }
}

/// The first index at or after `k` whose character is not `ch`.
pub open spec fn run_end(s: Seq<char>, k: int, ch: char) -> int
    decreases s.len() - k,
{
    if 0 <= k < s.len() && s[k] == ch {
        run_end(s, k + 1, ch)
    } else {
        k
    }
}

/// A fence line: after its indentation, a run of at least three of the
/// same character, a backtick or a tilde. Gives that character, the length
/// of the run and the index where the run ends.
pub open spec fn fence_of(line: Seq<char>) -> Option<(char, int, int)> {
    let w = whitespace_end(line, 0);
    let ch = if w < line.len() {
        line[w]
    } else {
        ' '
    };
    let end = run_end(line, w, ch);
    if (ch == '`' || ch == '~') && end - w >= 3 {
        Some((ch, end - w, end))
    } else {
        None
    }
}

/// The scan for a closed fenced block around `row`, from line `i` on, with
/// `opening` the open fence (its line, character and length), if any.
pub open spec fn scan_blocks(
    lines: Seq<Seq<char>>,
    row: int,
    i: int,
    opening: Option<(int, char, int)>,
) -> Option<Seq<char>>
    decreases lines.len() - i,
{
    if i < 0 || i >= lines.len() {
        None
    } else {
        let line = lines[i];
        match fence_of(line) {
            None => scan_blocks(lines, row, i + 1, opening),
            Some((ch, count, end)) => {
                let rest = line.subrange(end, line.len() as int);
                match opening {
                    Some((start, fence, length)) => {
                        if ch == fence && count >= length && all_whitespace(rest) {
                            if start <= row < i {
                                Some(join(lines.subrange(start + 1, i), seq!['\n']))
                            } else {
                                scan_blocks(lines, row, i + 1, None)
                            }
                        } else {
                            scan_blocks(lines, row, i + 1, opening)
                        }
                    },
                    None => {
                        if ch != '`' || !has_char(rest, '`') {
                            scan_blocks(lines, row, i + 1, Some((i, ch, count)))
                        } else {
                            scan_blocks(lines, row, i + 1, None)
                        }
                    },
                }
            },
        }
    }
}

/// The content of the closed fenced code block whose rows, from its opening
/// fence up to before its closing fence, include `row`.
pub open spec fn spec_code_block(text: Seq<char>, row: int) -> Option<Seq<char>> {
    scan_blocks(text_lines(text), row, 0, None)
}

fn whitespace_end_exec(s: &Vec<char>) -> (k: usize)
    ensures
        k as int == whitespace_end(s@, 0),
        k <= s.len(),
{
    let mut k: usize = 0;
    while k < s.len() && is_whitespace(s[k])
        invariant
            k <= s.len(),
            whitespace_end(s@, 0) == whitespace_end(s@, k as int),
        decreases s.len() - k,
    {
        k += 1;
    }
    k
}

fn run_end_exec(s: &Vec<char>, start: usize, ch: char) -> (k: usize)
    requires
        start <= s.len(),
    ensures
        k as int == run_end(s@, start as int, ch),
        start <= k <= s.len(),
{
    let mut k: usize = start;
    while k < s.len() && s[k] == ch
        invariant
            start <= k <= s.len(),
            run_end(s@, start as int, ch) == run_end(s@, k as int, ch),
        decreases s.len() - k,
    {
        k += 1;
    }
    k
}

fn all_whitespace_from(s: &Vec<char>, start: usize) -> (r: bool)
    requires
        start <= s.len(),
    ensures
        r == all_whitespace(s@.subrange(start as int, s.len() as int)),
{
    let mut k: usize = start;
    while k < s.len()
        invariant
            start <= k <= s.len(),
            forall|j: int| start <= j < k ==> spec_is_whitespace(s@[j]),
        decreases s.len() - k,
    {
        if !is_whitespace(s[k]) {
            assert(s@.subrange(start as int, s.len() as int)[k - start] == s@[k as int]);
            return false;
        }
        k += 1;
    }
    assert forall|j: int| 0 <= j < s@.subrange(start as int, s.len() as int).len() implies spec_is_whitespace(
        #[trigger] s@.subrange(start as int, s.len() as int)[j],
    ) by {
        assert(s@.subrange(start as int, s.len() as int)[j] == s@[start + j]);
    }
    true
}

fn lines_of(text: &Vec<char>) -> (lines: Vec<Vec<char>>)
    ensures
        views(lines@) == text_lines(text@),
{
    let mut nl: Vec<char> = Vec::new();
    nl.push('\n');
    assert(nl@ =~= seq!['\n']);
    let pieces = split_chars(text, &nl);
    let mut lines: Vec<Vec<char>> = Vec::new();
    let mut i: usize = 0;
    while i < pieces.len()
        invariant
            i <= pieces.len(),
            views(pieces@) == split(text@, seq!['\n']),
            views(lines@) == views(pieces@).take(i as int).map_values(
                |line: Seq<char>| strip_cr(line),
            ),
        decreases pieces.len() - i,
    {
        let piece = &pieces[i];
        let line = if piece.len() > 0 && piece[piece.len() - 1] == '\r' {
            slice_chars(piece, 0, piece.len() - 1)
        } else {
            slice_chars(piece, 0, piece.len())
        };
        proof {
            let ghost p = pieces@[i as int]@;
            assert(p.subrange(0, p.len() as int) =~= p);
            assert(p.len() > 0 ==> p.subrange(0, p.len() - 1) =~= p.drop_last());
            assert(line@ == strip_cr(p));
            assert(views(lines@.push(line)) =~= views(lines@).push(line@));
            assert(views(pieces@).take(i + 1).map_values(|line: Seq<char>| strip_cr(line))
                =~= views(pieces@).take(i as int).map_values(|line: Seq<char>| strip_cr(line)).push(
                strip_cr(p),
            ));
        }
        lines.push(line);
        i += 1;
    }
    assert(views(pieces@).take(pieces.len() as int) =~= views(pieces@));
    lines
}

/// The content, without its fences, of the closed fenced code block (``` or
/// ~~~, three or more) that covers `row`: a block covers the rows from its
/// opening fence up to before its closing fence. A closing fence uses the
/// opening character, at least as many times, and nothing but whitespace
/// after it; a backtick fence whose info string holds a backtick opens
/// nothing. `None` when `row` is on a closing fence or in no closed block.
pub fn code_block(text: &str, row: usize) -> (r: Option<String>)
    ensures
        r matches Some(s) ==> spec_code_block(text@, row as int) == Some(s@),
        r is None ==> spec_code_block(text@, row as int) is None,
{
    let chars = chars_of(text);
    let lines = lines_of(&chars);
    let ghost all = views(lines@);
    let mut opening: Option<(usize, char, usize)> = None;
    let mut i: usize = 0;
    while i < lines.len()
        invariant
            i <= lines.len(),
            all == views(lines@),
            all == text_lines(text@),
            spec_code_block(text@, row as int) == scan_blocks(
                all,
                row as int,
                i as int,
                match opening {
                    Some((s, c, l)) => Some((s as int, c, l as int)),
                    None => None,
                },
            ),
            opening matches Some((s, c, l)) ==> s < i,
        decreases lines.len() - i,
    {
        let line = &lines[i];
        assert(all[i as int] == line@);
        let w = whitespace_end_exec(line);
        let ch = if w < line.len() {
            line[w]
        } else {
            ' '
        };
        let end = run_end_exec(line, w, ch);
        let count = end - w;
        if (ch == '`' || ch == '~') && count >= 3 {
            match opening {
                Some((start, fence, length)) => {
                    if ch == fence && count >= length && all_whitespace_from(line, end) {
                        if row >= start && row < i {
                            let mut inner: Vec<Vec<char>> = Vec::new();
                            let mut k: usize = start + 1;
                            while k < i
                                invariant
                                    start + 1 <= k <= i,
                                    i < lines.len(),
                                    views(inner@) == views(lines@).subrange(
                                        start + 1,
                                        k as int,
                                    ),
                                decreases i - k,
                            {
                                let copy = slice_chars(&lines[k], 0, lines[k].len());
                                proof {
                                    let ghost p = lines@[k as int]@;
                                    assert(p.subrange(0, p.len() as int) =~= p);
                                    assert(views(inner@.push(copy)) =~= views(inner@).push(
                                        copy@,
                                    ));
                                    assert(views(lines@).subrange(start + 1, k + 1) =~= views(
                                        lines@,
                                    ).subrange(start + 1, k as int).push(p));
                                }
                                inner.push(copy);
                                k += 1;
                            }
                            let mut nl: Vec<char> = Vec::new();
                            nl.push('\n');
                            assert(nl@ =~= seq!['\n']);
                            let joined = join_chars(&inner, &nl);
                            return Some(string_from_chars(&joined));
                        }
                        opening = None;
                    }
                },
                None => {
                    if ch != '`' || !has_backtick_from(line, end) {
                        opening = Some((i, ch, count));
                    }
                },
            }
        }
        i += 1;
    }
    None
}

fn has_backtick_from(s: &Vec<char>, start: usize) -> (r: bool)
    requires
        start <= s.len(),
    ensures
        r == has_char(s@.subrange(start as int, s.len() as int), '`'),
{
    let rest = slice_chars(s, start, s.len());
    has_char_exec(&rest, '`')
}

/// No block that the scan finds from line `i` on holds `row` when `row`
/// comes before the open fence (or, with none open, before line `i`).
proof fn lemma_scan_before(lines: Seq<Seq<char>>, row: int, i: int, opening: Option<(int, char, int)>)
    requires
        match opening {
            None => row < i,
            Some((start, _, _)) => row < start && start < i,
        },
    ensures
        scan_blocks(lines, row, i, opening) is None,
    decreases lines.len() - i,
{
    if 0 <= i < lines.len() {
        let line = lines[i];
        match fence_of(line) {
            None => lemma_scan_before(lines, row, i + 1, opening),
            Some((ch, count, end)) => {
                let rest = line.subrange(end, line.len() as int);
                match opening {
                    Some((start, fence, length)) => {
                        if ch == fence && count >= length && all_whitespace(rest) {
                            lemma_scan_before(lines, row, i + 1, None);
                        } else {
                            lemma_scan_before(lines, row, i + 1, opening);
                        }
                    },
                    None => {
                        if ch != '`' || !has_char(rest, '`') {
                            lemma_scan_before(lines, row, i + 1, Some((i, ch, count)));
                        } else {
                            lemma_scan_before(lines, row, i + 1, None);
                        }
                    },
                }
            },
        }
    }
}

/// The block that the scan from line `i` finds for `row`: its opening row
/// and its closing row, with every row in between finding the same block
/// and the closing row finding none.
proof fn lemma_scan_block(
    lines: Seq<Seq<char>>,
    row: int,
    i: int,
    opening: Option<(int, char, int)>,
) -> (block: (int, int))
    requires
        scan_blocks(lines, row, i, opening) is Some,
        opening matches Some((start, _, _)) ==> start < i,
    ensures
        block.0 <= row < block.1,
        match opening {
            None => i <= block.0,
            Some((start, _, _)) => start <= block.0,
        },
        forall|r: int|
            block.0 <= r < block.1 ==> #[trigger] scan_blocks(lines, r, i, opening) == scan_blocks(
                lines,
                row,
                i,
                opening,
            ),
        scan_blocks(lines, block.1, i, opening) is None,
    decreases lines.len() - i,
{
    let line = lines[i];
    let b = match fence_of(line) {
        None => lemma_scan_block(lines, row, i + 1, opening),
        Some((ch, count, end)) => {
            let rest = line.subrange(end, line.len() as int);
            match opening {
                Some((start, fence, length)) => {
                    if ch == fence && count >= length && all_whitespace(rest) {
                        if start <= row < i {
                            lemma_scan_before(lines, i, i + 1, None);
                            (start, i)
                        } else {
                            lemma_scan_block(lines, row, i + 1, None)
                        }
                    } else {
                        lemma_scan_block(lines, row, i + 1, opening)
                    }
                },
                None => {
                    if ch != '`' || !has_char(rest, '`') {
                        lemma_scan_block(lines, row, i + 1, Some((i, ch, count)))
                    } else {
                        lemma_scan_block(lines, row, i + 1, None)
                    }
                },
            }
        },
    };
    assert forall|r: int| b.0 <= r < b.1 implies #[trigger] scan_blocks(lines, r, i, opening)
        == scan_blocks(lines, row, i, opening) by {
        match fence_of(line) {
            None => {
                assert(scan_blocks(lines, r, i + 1, opening) == scan_blocks(lines, row, i + 1, opening));
            },
            Some((ch, count, end)) => {
                let rest = line.subrange(end, line.len() as int);
                match opening {
                    Some((start, fence, length)) => {
                        if ch == fence && count >= length && all_whitespace(rest) {
                            if !(start <= row < i) {
                                assert(scan_blocks(lines, r, i + 1, None) == scan_blocks(lines, row, i + 1, None));
                            }
                        } else {
                            assert(scan_blocks(lines, r, i + 1, opening) == scan_blocks(lines, row, i + 1, opening));
                        }
                    },
                    None => {
                        if ch != '`' || !has_char(rest, '`') {
                            assert(scan_blocks(lines, r, i + 1, Some((i, ch, count))) == scan_blocks(lines, row, i + 1, Some((i, ch, count))));
                        } else {
                            assert(scan_blocks(lines, r, i + 1, None) == scan_blocks(lines, row, i + 1, None));
                        }
                    },
                }
            },
        }
    }
    b
}

/// A code block is found from every row from its opening fence up to
/// before its closing fence, and the closing fence's row finds none.
pub proof fn lemma_code_block_rows(text: Seq<char>, row: int) -> (block: (int, int))
    requires
        spec_code_block(text, row) is Some,
    ensures
        block.0 <= row < block.1,
        forall|r: int|
            block.0 <= r < block.1 ==> #[trigger] spec_code_block(text, r) == spec_code_block(
                text,
                row,
            ),
        spec_code_block(text, block.1) is None,
{
    let b = lemma_scan_block(text_lines(text), row, 0, None);
    assert forall|r: int| b.0 <= r < b.1 implies #[trigger] spec_code_block(text, r)
        == spec_code_block(text, row) by {
        assert(scan_blocks(text_lines(text), r, 0, None) == scan_blocks(text_lines(text), row, 0, None));
    }
    b
}

/// In `dedup(s)` no two positions hold the same line.
pub proof fn lemma_dedup_unique(s: Seq<Seq<char>>, i: int, j: int)
    requires
        0 <= i < dedup(s).len(),
        0 <= j < dedup(s).len(),
        dedup(s)[i] == dedup(s)[j],
    ensures
        i == j,
    decreases s.len(),
{
    if s.len() > 0 {
        let kept = dedup(s.drop_last());
        if kept.contains(s.last()) {
            lemma_dedup_unique(s.drop_last(), i, j);
        } else {
            if i < kept.len() && j < kept.len() {
                lemma_dedup_unique(s.drop_last(), i, j);
            } else if i < kept.len() {
                assert(kept[i] == s.last());
            } else if j < kept.len() {
                assert(kept[j] == s.last());
            }
        }
    }
}

/// Removing duplicate lines keeps every line: a line occurs among the
/// result exactly when it occurs among the input.
pub proof fn lemma_dedup_keeps_lines(lines: Seq<Seq<char>>, line: Seq<char>)
    ensures
        dedup(lines).contains(line) == lines.contains(line),
    decreases lines.len(),
{
    if lines.len() > 0 {
        let rest = lines.drop_last();
        lemma_dedup_keeps_lines(rest, line);
        let kept = dedup(rest);
        if lines.contains(line) {
            let j = choose|j: int| 0 <= j < lines.len() && lines[j] == line;
            if j < lines.len() - 1 {
                assert(rest[j] == line);
            }
        }
        if rest.contains(line) {
            let j = choose|j: int| 0 <= j < rest.len() && rest[j] == line;
            assert(lines[j] == line);
        }
        if dedup(lines).contains(line) && !kept.contains(line) {
            assert(dedup(lines) == kept.push(lines.last()));
            let j = choose|j: int| 0 <= j < dedup(lines).len() && dedup(lines)[j] == line;
            if j < kept.len() {
                assert(kept[j] == line);
            }
        }
        if kept.contains(line) && !kept.contains(lines.last()) {
            let j = choose|j: int| 0 <= j < kept.len() && kept[j] == line;
            assert(kept.push(lines.last())[j] == line);
        }
        if !kept.contains(lines.last()) {
            assert(kept.push(lines.last())[kept.len() as int] == lines.last());
        }
    }
}

/// The result of removing duplicate lines keeps them in the order of their
/// first occurrence: a line comes before another in the result only if its
/// first occurrence comes first in the input.
pub proof fn lemma_dedup_is_subsequence(lines: Seq<Seq<char>>)
    ensures
        exists|idx: Seq<int>| #[trigger] is_first_occurrences(lines, dedup(lines), idx),
    decreases lines.len(),
{
    if lines.len() == 0 {
        assert(is_first_occurrences(lines, dedup(lines), seq![]));
    } else {
        let rest = lines.drop_last();
        lemma_dedup_is_subsequence(rest);
        let idx = choose|idx: Seq<int>| #[trigger] is_first_occurrences(rest, dedup(rest), idx);
        let kept = dedup(rest);
        assert forall|k: int| 0 <= k < rest.len() implies #[trigger] lines[k] == rest[k] by {}
        if kept.contains(lines.last()) {
            assert(dedup(lines) == kept);
            assert forall|k: int| 0 <= k < idx.len() implies lines[#[trigger] idx[k]] == kept[k] by {
                assert(rest[idx[k]] == kept[k]);
            }
            assert forall|k: int, j: int|
                0 <= k < idx.len() && 0 <= j < idx[k] implies #[trigger] lines[j]
                != #[trigger] kept[k] by {
                assert(rest[j] != kept[k]);
            }
            assert(is_first_occurrences(lines, dedup(lines), idx));
        } else {
            let n = lines.len() - 1;
            lemma_dedup_keeps_lines(rest, lines.last());
            let idx2 = idx.push(n);
            let out = kept.push(lines.last());
            assert(dedup(lines) == out);
            assert forall|k: int| 0 <= k < n implies lines[k] != lines[n] by {
                assert(rest[k] == lines[k]);
                if lines[k] == lines[n] {
                    assert(rest.contains(lines.last()));
                }
            }
            assert forall|k: int| 0 <= k < idx2.len() implies 0 <= #[trigger] idx2[k] < lines.len() by {
                if k < idx.len() {
                    assert(idx2[k] == idx[k]);
                }
            }
            assert forall|k: int| 0 <= k < idx2.len() implies lines[#[trigger] idx2[k]] == out[k] by {
                if k < idx.len() {
                    assert(idx2[k] == idx[k]);
                    assert(rest[idx[k]] == kept[k]);
                }
            }
            assert forall|k: int, j: int|
                0 <= k < idx2.len() && 0 <= j < idx2[k] implies #[trigger] lines[j]
                != #[trigger] out[k] by {
                if k < idx.len() {
                    assert(idx2[k] == idx[k]);
                    assert(rest[j] != kept[k]);
                } else {
                    assert(rest[j] == lines[j]);
                }
            }
            assert forall|k: int, l: int| 0 <= k < l < idx2.len() implies #[trigger] idx2[k]
                < #[trigger] idx2[l] by {
                if l < idx.len() {
                    assert(idx2[k] == idx[k] && idx2[l] == idx[l]);
                } else {
                    assert(idx2[k] == idx[k]);
                }
            }
            assert(is_first_occurrences(lines, dedup(lines), idx2));
        }
    }
}

/// `idx` gives, for each line of `result`, the index of its first
/// occurrence in `lines`, increasing.
pub open spec fn is_first_occurrences(lines: Seq<Seq<char>>, result: Seq<Seq<char>>, idx: Seq<int>) -> bool {
    &&& idx.len() == result.len()
    &&& forall|k: int| 0 <= k < idx.len() ==> 0 <= #[trigger] idx[k] < lines.len()
    &&& forall|k: int| 0 <= k < idx.len() ==> lines[#[trigger] idx[k]] == result[k]
    &&& forall|k: int, j: int| 0 <= k < idx.len() && 0 <= j < idx[k] ==> #[trigger] lines[j] != #[trigger] result[k]
    &&& forall|k: int, l: int| 0 <= k < l < idx.len() ==> #[trigger] idx[k] < #[trigger] idx[l]
}

} // verus!
