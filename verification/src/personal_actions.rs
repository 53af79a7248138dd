//! The personal editor actions on a model of an editor: its buffer text,
//! its selections, and the project and file it shows.
use vstd::prelude::*;

use crate::calculation::{calculate, calculation, texts_view, Number};
use vstd::utf8::encode_utf8;
use crate::line_sort::{
    group_index, line_desc, row_groups, sort_line_groups, sorted_lines, sorted_selections,
    sorted_text,
};
use vstd::relations::sorted_by;
use crate::selection_tools::{code_block, spec_code_block, spec_unique_lines, unique_lines};
use crate::text::{chars_eq, chars_of, push_all, slice_chars, split, string_from_chars, views};

verus! {

/// A selection: a range of character offsets into the buffer, with its head
/// at `start` when `reversed` holds and at `end` otherwise.
#[derive(Clone, Copy, Debug, PartialEq, Eq)]
pub struct Selection {
    pub start: usize,
    pub end: usize,
    pub reversed: bool,
}

/// A worktree of a project.
pub struct Worktree {
    pub abs_path: String,
    pub is_single_file: bool,
}

/// What the actions read of a project.
pub struct Project {
    pub is_local: bool,
    pub visible_worktrees: Vec<Worktree>,
}

/// An entry of the clipboard.
pub enum ClipboardEntry {
    Text(String),
    Other,
}

/// Why an action did nothing.
#[derive(Clone, Copy, Debug, PartialEq, Eq)]
pub enum PersonalError {
    InvalidSelection,
    NoClipboardText,
    NotSingleFile,
    NotInCodeBlock,
    NoLocalDirectory,
}

/// The notification shown for an error.
pub open spec fn message_of(error: PersonalError) -> Seq<char> {
    match error {
        PersonalError::InvalidSelection => "Select valid text in every selection."@,
        PersonalError::NoClipboardText => "The clipboard does not contain text."@,
        PersonalError::NotSingleFile => "Code blocks can only be copied from a single-file editor."@,
        PersonalError::NotInCodeBlock => "The cursor is not inside a closed code block."@,
        PersonalError::NoLocalDirectory => "No local directory is open."@,
    }
}

impl PersonalError {
    /// The notification shown for the error.
    pub fn message(&self) -> (r: &'static str)
        ensures
            r@ == message_of(*self),
    {
        match self {
            PersonalError::InvalidSelection => "Select valid text in every selection.",
            PersonalError::NoClipboardText => "The clipboard does not contain text.",
            PersonalError::NotSingleFile => "Code blocks can only be copied from a single-file editor.",
            PersonalError::NotInCodeBlock => "The cursor is not inside a closed code block.",
            PersonalError::NoLocalDirectory => "No local directory is open.",
        }
    }
}

/// The editor state that the personal actions read and change.
pub struct Editor {
    /// The buffer text.
    pub text: Vec<char>,
    /// The selections, ordered and not overlapping.
    pub selections: Vec<Selection>,
    /// The index of the newest selection.
    pub newest: usize,
    pub read_only: bool,
    /// The buffer shows a single file.
    pub singleton: bool,
    /// The absolute path of the local file the buffer shows, if any.
    pub local_file: Option<String>,
    pub project: Option<Project>,
}

/// The text a selection covers.
pub open spec fn selection_text(text: Seq<char>, s: Selection) -> Seq<char> {
    text.subrange(s.start as int, s.end as int)
}

/// How far the edits of the selections before `i` move later offsets.
pub open spec fn shift(sels: Seq<Selection>, reps: Seq<Seq<char>>, i: int) -> int
    decreases i,
{
    if i <= 0 || i > sels.len() {
        0
    } else {
        shift(sels, reps, i - 1) + reps[i - 1].len() - (sels[i - 1].end - sels[i - 1].start)
    }
}

/// The text from offset `from` on, with selection `k` replaced by `reps[k]`
/// for every `k >= i`.
pub open spec fn edited_text_from(
    text: Seq<char>,
    sels: Seq<Selection>,
    reps: Seq<Seq<char>>,
    i: int,
    from: int,
) -> Seq<char>
    decreases sels.len() - i,
{
    if i < 0 || i >= sels.len() {
        text.subrange(from, text.len() as int)
    } else {
        text.subrange(from, sels[i].start as int) + reps[i] + edited_text_from(
            text,
            sels,
            reps,
            i + 1,
            sels[i].end as int,
        )
    }
}

/// The text with every selection replaced by its replacement.
pub open spec fn edited_text(text: Seq<char>, sels: Seq<Selection>, reps: Seq<Seq<char>>) -> Seq<
    char,
> {
    edited_text_from(text, sels, reps, 0, 0)
}

/// Selection `i` after the edit: a selection whose text stays the same keeps
/// covering it when `keep_unchanged` holds; every other selection becomes a
/// cursor after its replacement.
pub open spec fn edited_selection(
    text: Seq<char>,
    sels: Seq<Selection>,
    reps: Seq<Seq<char>>,
    i: int,
    keep_unchanged: bool,
) -> Selection {
    let start = sels[i].start + shift(sels, reps, i);
    let end = start + reps[i].len();
    if keep_unchanged && reps[i] == selection_text(text, sels[i]) {
        Selection { start: start as usize, end: end as usize, reversed: sels[i].reversed }
    } else {
        Selection { start: end as usize, end: end as usize, reversed: sels[i].reversed }
    }
}

pub open spec fn edited_selections(
    text: Seq<char>,
    sels: Seq<Selection>,
    reps: Seq<Seq<char>>,
    keep_unchanged: bool,
) -> Seq<Selection> {
    Seq::new(sels.len(), |i: int| edited_selection(text, sels, reps, i, keep_unchanged))
}

/// Selections over a text of length `len`: at least one, each within the
/// text, ordered and not overlapping, with a valid newest one.
pub open spec fn selections_wf(sels: Seq<Selection>, newest: int, len: int) -> bool {
    &&& sels.len() > 0
    &&& 0 <= newest < sels.len()
    &&& forall|i: int| #![trigger sels[i]] 0 <= i < sels.len() ==> sels[i].start <= sels[i].end <= len
    &&& forall|i: int|
        #![trigger sels[i].end]
        0 <= i < sels.len() - 1 ==> sels[i].end <= sels[i + 1].start
}

/// Every selection is non-empty and has a replacement.
pub open spec fn all_replaced(sels: Seq<Selection>, results: Seq<Option<Seq<char>>>) -> bool {
    &&& results.len() == sels.len()
    &&& forall|i: int|
        0 <= i < sels.len() ==> sels[i].start < sels[i].end && #[trigger] results[i] is Some
}

pub open spec fn unwrap_all(results: Seq<Option<Seq<char>>>) -> Seq<Seq<char>> {
    results.map_values(|r: Option<Seq<char>>| r.unwrap())
}

/// The view of an optional character vector.
pub open spec fn opt_view(o: Option<Vec<char>>) -> Option<Seq<char>> {
    match o {
        Some(v) => Some(v@),
        None => None,
    }
}

/// The views of a list of optional character vectors.
pub open spec fn results_view(results: Seq<Option<Vec<char>>>) -> Seq<Option<Seq<char>>> {
    Seq::new(results.len(), |i: int| opt_view(results[i]))
}

/// The replacements that `uniq_selection` makes: the unique lines of every
/// non-empty selection.
pub open spec fn unique_results(text: Seq<char>, sels: Seq<Selection>) -> Seq<Option<Seq<char>>> {
    Seq::new(
        sels.len(),
        |i: int|
            if sels[i].start < sels[i].end {
                Some(spec_unique_lines(selection_text(text, sels[i])))
            } else {
                None
            },
    )
}

/// `n` copies of the `file://` URI of `path`.
pub open spec fn file_uris(n: nat, path: Seq<char>) -> Seq<Seq<char>> {
    Seq::new(n, |i: int| seq!['f', 'i', 'l', 'e', ':', '/', '/'] + path)
}

/// The number of line breaks before `offset`: the row of that offset.
pub open spec fn row_of(text: Seq<char>, offset: int) -> int
    decreases offset,
{
    if offset <= 0 || offset > text.len() {
        0
    } else {
        row_of(text, offset - 1) + if text[offset - 1] == '\n' {
            1int
        } else {
            0int
        }
    }
}

/// The head of a selection.
pub open spec fn head(s: Selection) -> int {
    if s.reversed {
        s.start as int
    } else {
        s.end as int
    }
}

/// `Path::parent`, taken as a function of the path's text.
pub uninterp spec fn path_parent_of(path: Seq<char>) -> Option<Seq<char>>;

/// Calls `std::path::Path::parent` and gives the parent as text. Its result
/// is named `path_parent_of`; as the documentation states, the empty path
/// and the root have no parent. Paths here are UTF-8 text, so the text of
/// the parent is exact.
#[verifier::external_body]
fn path_parent(path: &str) -> (r: Option<String>)
    ensures
        r matches Some(p) ==> path_parent_of(path@) == Some(p@),
        r is None ==> path_parent_of(path@) is None,
        path@.len() == 0 ==> r is None,
        path@ == seq!['/'] ==> r is None,
{
    match std::path::Path::new(path).parent() {
        Some(parent) => Some(parent.to_string_lossy().into_owned()),
        None => None,
    }
}

/// The directory of a project for a terminal: the first visible worktree of
/// a local project, or the parent directory of a single-file worktree.
pub open spec fn spec_project_directory(project: Project) -> Option<Seq<char>> {
    if !project.is_local || project.visible_worktrees@.len() == 0 {
        None
    } else {
        let worktree = project.visible_worktrees@[0];
        if worktree.is_single_file {
            path_parent_of(worktree.abs_path@)
        } else {
            Some(worktree.abs_path@)
        }
    }
}

/// A possible outcome of `calculate::<N>` on `text`: nothing for a text of
/// more than 4096 bytes, otherwise a `calculation` of it.
pub open spec fn calculate_outcome<N: Number>(text: Seq<char>, r: Option<(Seq<char>, Seq<char>)>) -> bool {
    if (encode_utf8(text).len() as usize) > 4096 {
        r is None
    } else {
        calculation::<N>(text, r)
    }
}

/// The rounded text of a calculation's outcome, or its precise text for
/// `precise`.
pub open spec fn picked(r: Option<(Seq<char>, Seq<char>)>, precise: bool) -> Option<Seq<char>> {
    match r {
        None => None,
        Some((rounded, exact)) => Some(
            if precise {
                exact
            } else {
                rounded
            },
        ),
    }
}

/// What calculating `text` gives a selection: the rounded text (or, for
/// `precise`, the precise text) of an outcome of `calculate::<N>` on it, and
/// nothing when that outcome is nothing.
pub open spec fn calculation_allows<N: Number>(
    text: Seq<char>,
    result: Option<Seq<char>>,
    precise: bool,
) -> bool {
    exists|r: Option<(Seq<char>, Seq<char>)>|
        #[trigger] calculate_outcome::<N>(text, r) && result == picked(r, precise)
}

/// The results of calculating every selection: none for an empty
/// selection, and what `calculation_allows` for the others.
pub open spec fn calculation_results<N: Number>(
    text: Seq<char>,
    sels: Seq<Selection>,
    results: Seq<Option<Seq<char>>>,
    precise: bool,
) -> bool {
    &&& results.len() == sels.len()
    &&& forall|i: int|
        0 <= i < sels.len() ==> {
            &&& sels[i].start == sels[i].end ==> #[trigger] results[i] is None
            &&& sels[i].start != sels[i].end ==> calculation_allows::<N>(
                selection_text(text, sels[i]),
                results[i],
                precise,
            )
        }
}

impl Editor {
    pub open spec fn wf(&self) -> bool {
        selections_wf(self.selections@, self.newest as int, self.text@.len() as int)
    }

    /// The fields that the editing actions leave as they are.
    pub open spec fn same_settings(&self, other: &Editor) -> bool {
        &&& self.newest == other.newest
        &&& self.read_only == other.read_only
        &&& self.singleton == other.singleton
        &&& self.local_file == other.local_file
        &&& self.project == other.project
    }

    /// `self` is `old` unchanged.
    pub open spec fn unchanged(&self, old: &Editor) -> bool {
        &&& self.text@ == old.text@
        &&& self.selections@ == old.selections@
        &&& self.same_settings(old)
    }

    /// `self` is `old` with every selection replaced by `reps`.
    pub open spec fn replaced(&self, old: &Editor, reps: Seq<Seq<char>>, keep_unchanged: bool) -> bool {
        &&& self.text@ == edited_text(old.text@, old.selections@, reps)
        &&& self.selections@ == edited_selections(
            old.text@,
            old.selections@,
            reps,
            keep_unchanged,
        )
        &&& self.same_settings(old)
    }

    /// The outcome of transforming every selection with `results` (one per
    /// selection, `None` where the transform failed): nothing changes on a
    /// read-only editor; nothing changes and an error comes when a selection
    /// is empty or failed; otherwise every selection is replaced, and one
    /// whose text stays the same keeps its range.
    pub open spec fn transformed(
        &self,
        old: &Editor,
        results: Seq<Option<Seq<char>>>,
        r: Result<(), PersonalError>,
    ) -> bool {
        if old.read_only {
            self.unchanged(old) && r is Ok
        } else if !all_replaced(old.selections@, results) {
            self.unchanged(old) && r == Err::<(), PersonalError>(PersonalError::InvalidSelection)
        } else {
            self.replaced(old, unwrap_all(results), true) && r is Ok
        }
    }

    /// Replaces every selection `i` by `reps[i]`, all at once.
    fn replace_selections(&mut self, reps: &Vec<Vec<char>>, keep_unchanged: bool)
        requires
            old(self).wf(),
            reps.len() == old(self).selections.len(),
        ensures
            final(self).wf(),
            final(self).replaced(old(self), views(reps@), keep_unchanged),
    {
        let ghost t = self.text@;
        let ghost s = self.selections@;
        let ghost r = views(reps@);
        let mut out: Vec<char> = Vec::new();
        let mut sels: Vec<Selection> = Vec::new();
        let mut prev: usize = 0;
        let mut i: usize = 0;
        while i < self.selections.len()
            invariant
                t == self.text@,
                s == self.selections@,
                r == views(reps@),
                reps.len() == s.len(),
                selections_wf(s, self.newest as int, t.len() as int),
                i <= s.len(),
                prev == (if i == 0 {
                    0
                } else {
                    s[i - 1].end as int
                }),
                prev <= t.len(),
                out@.len() == prev + shift(s, r, i as int),
                edited_text(t, s, r) == out@ + edited_text_from(t, s, r, i as int, prev as int),
                sels@.len() == i,
                forall|k: int| 0 <= k < i ==> #[trigger] sels@[k] == edited_selection(t, s, r, k, keep_unchanged),
                forall|k: int| 0 <= k < i ==> #[trigger] sels@[k].start <= sels@[k].end <= out@.len(),
                forall|k: int| 0 <= k < i - 1 ==> #[trigger] sels@[k].end <= sels@[k + 1].start,
            decreases s.len() - i,
        {
            let sel = self.selections[i];
            assert(s[i as int] == sel);
            assert(sel.start <= sel.end <= t.len());
            assert(i > 0 ==> s[i - 1].end <= s[i as int].start);
            let ghost before = out@;
            let gap = slice_chars(&self.text, prev, sel.start);
            push_all(&mut out, &gap);
            let new_start = out.len();
            push_all(&mut out, &reps[i]);
            let new_end = out.len();
            assert(r[i as int] == reps@[i as int]@);
            let current = slice_chars(&self.text, sel.start, sel.end);
            let keep = keep_unchanged && chars_eq(&reps[i], &current);
            let next = if keep {
                Selection { start: new_start, end: new_end, reversed: sel.reversed }
            } else {
                Selection { start: new_end, end: new_end, reversed: sel.reversed }
            };
            proof {
                assert(edited_text_from(t, s, r, i as int, prev as int) == t.subrange(
                    prev as int,
                    sel.start as int,
                ) + r[i as int] + edited_text_from(t, s, r, i + 1, sel.end as int));
                assert(out@ =~= before + t.subrange(prev as int, sel.start as int) + r[i as int]);
                assert(edited_text(t, s, r) =~= out@ + edited_text_from(
                    t,
                    s,
                    r,
                    i + 1,
                    sel.end as int,
                ));
                assert(shift(s, r, i + 1) == shift(s, r, i as int) + r[i as int].len() - (sel.end
                    - sel.start));
                assert(next == edited_selection(t, s, r, i as int, keep_unchanged));
            }
            sels.push(next);
            prev = sel.end;
            i += 1;
        }
        let tail = slice_chars(&self.text, prev, self.text.len());
        let ghost before = out@;
        push_all(&mut out, &tail);
        proof {
            assert(edited_text_from(t, s, r, i as int, prev as int) == t.subrange(
                prev as int,
                t.len() as int,
            ));
            assert(out@ =~= before + t.subrange(prev as int, t.len() as int));
            assert(sels@ =~= edited_selections(t, s, r, keep_unchanged));
        }
        self.text = out;
        self.selections = sels;
    }

    /// The text of selection `i`.
    fn selection_chars(&self, i: usize) -> (r: Vec<char>)
        requires
            self.wf(),
            i < self.selections.len(),
        ensures
            r@ == selection_text(self.text@, self.selections@[i as int]),
    {
        let sel = self.selections[i];
        assert(self.selections@[i as int].start <= self.selections@[i as int].end
            <= self.text@.len());
        slice_chars(&self.text, sel.start, sel.end)
    }

    /// Applies `results` (one per selection) as `transformed` states.
    fn apply_results(&mut self, results: Vec<Option<Vec<char>>>) -> (r: Result<(), PersonalError>)
        requires
            old(self).wf(),
            !old(self).read_only,
            results.len() == old(self).selections.len(),
        ensures
            final(self).wf(),
            final(self).transformed(
                old(self),
                results_view(results@),
                r,
            ),
    {
        let ghost gr = results_view(results@);
        let mut reps: Vec<Vec<char>> = Vec::new();
        let mut changed = false;
        let mut i: usize = 0;
        while i < results.len()
            invariant
                self.wf(),
                !self.read_only,
                results.len() == self.selections.len(),
                gr == results_view(results@),
                i <= results.len(),
                reps@.len() == i,
                forall|k: int| 0 <= k < i ==> self.selections@[k].start < self.selections@[k].end,
                forall|k: int| 0 <= k < i ==> #[trigger] gr[k] is Some,
                forall|k: int| 0 <= k < i ==> #[trigger] reps@[k]@ == gr[k].unwrap(),
                changed == !(forall|k: int|
                    0 <= k < i ==> #[trigger] reps@[k]@ == selection_text(
                        self.text@,
                        self.selections@[k],
                    )),
            decreases results.len() - i,
        {
            let sel = self.selections[i];
            if sel.start >= sel.end {
                assert(!all_replaced(self.selections@, gr));
                assert(self.unchanged(old(self)));
                return Err(PersonalError::InvalidSelection);
            }
            let rep = match &results[i] {
                Some(v) => slice_chars(v, 0, v.len()),
                None => {
                    assert(gr[i as int] is None);
                    assert(!all_replaced(self.selections@, gr));
                    return Err(PersonalError::InvalidSelection);
                },
            };
            let current = self.selection_chars(i);
            let same = chars_eq(&rep, &current);
            if !same {
                changed = true;
            }
            assert(gr[i as int] == Some(rep@)) by {
                let v = results@[i as int]->0;
                assert(v@.subrange(0, v@.len() as int) =~= v@);
            }
            let ghost old_reps = reps@;
            reps.push(rep);
            proof {
                let ghost txt = self.text@;
                let ghost ss = self.selections@;
                assert(reps@[i as int] == rep);
                assert forall|k: int| 0 <= k < i implies #[trigger] reps@[k] == old_reps[k] by {}
                if !same {
                    assert(!(reps@[i as int]@ == selection_text(txt, ss[i as int])));
                } else if forall|k: int|
                    0 <= k < i ==> #[trigger] old_reps[k]@ == selection_text(txt, ss[k]) {
                    assert forall|k: int| 0 <= k < i + 1 implies #[trigger] reps@[k]@
                        == selection_text(txt, ss[k]) by {
                        if k < i {
                            assert(reps@[k] == old_reps[k]);
                            assert(old_reps[k]@ == selection_text(txt, ss[k]));
                        }
                    }
                } else {
                    let k0 = choose|k: int|
                        0 <= k < i && !(#[trigger] old_reps[k]@ == selection_text(txt, ss[k]));
                    assert(reps@[k0] == old_reps[k0]);
                    assert(!(reps@[k0]@ == selection_text(txt, ss[k0])));
                }
            }
            i += 1;
        }
        assert(all_replaced(self.selections@, gr));
        assert(views(reps@) =~= unwrap_all(gr));
        if !changed {
            proof {
                lemma_identity_edit(self.text@, self.selections@, self.newest as int, views(reps@));
            }
            return Ok(());
        }
        self.replace_selections(&reps, true);
        Ok(())
    }

    /// Replaces every selection by the rounded result of calculating its
    /// text, in the number type `N`, as one edit. Nothing changes on a
    /// read-only editor. When a selection is empty or its text does not
    /// calculate, nothing changes and the error asks for valid selections.
    pub fn calculate_selection<N: Number>(&mut self) -> (r: Result<(), PersonalError>)
        requires
            old(self).wf(),
        ensures
            final(self).wf(),
            exists|results: Seq<Option<Seq<char>>>|
                (!old(self).read_only ==> calculation_results::<N>(
                    old(self).text@,
                    old(self).selections@,
                    results,
                    false,
                )) && #[trigger] final(self).transformed(old(self), results, r),
    {
        self.calculate_with::<N>(false)
    }

    /// Replaces every selection by the precise result of calculating its
    /// text, in the number type `N`, as one edit; otherwise as
    /// `calculate_selection`.
    pub fn precise_calculation<N: Number>(&mut self) -> (r: Result<(), PersonalError>)
        requires
            old(self).wf(),
        ensures
            final(self).wf(),
            exists|results: Seq<Option<Seq<char>>>|
                (!old(self).read_only ==> calculation_results::<N>(
                    old(self).text@,
                    old(self).selections@,
                    results,
                    true,
                )) && #[trigger] final(self).transformed(old(self), results, r),
    {
        self.calculate_with::<N>(true)
    }

    fn calculate_with<N: Number>(&mut self, precise: bool) -> (r: Result<(), PersonalError>)
        requires
            old(self).wf(),
        ensures
            final(self).wf(),
            exists|results: Seq<Option<Seq<char>>>|
                (!old(self).read_only ==> calculation_results::<N>(
                    old(self).text@,
                    old(self).selections@,
                    results,
                    precise,
                )) && #[trigger] final(self).transformed(old(self), results, r),
    {
        let ghost text = self.text@;
        let ghost sels = self.selections@;
        if self.read_only {
            let ghost none = Seq::new(sels.len(), |k: int| None::<Seq<char>>);
            assert(self.transformed(old(self), none, Ok(())));
            return Ok(());
        }
        let mut results: Vec<Option<Vec<char>>> = Vec::new();
        let mut i: usize = 0;
        while i < self.selections.len()
            invariant
                self.wf(),
                text == self.text@,
                sels == self.selections@,
                i <= self.selections.len(),
                results@.len() == i,
                forall|k: int|
                    0 <= k < i ==> {
                        &&& sels[k].start == sels[k].end ==> #[trigger] results@[k] is None
                        &&& sels[k].start != sels[k].end ==> calculation_allows::<N>(
                            selection_text(text, sels[k]),
                            opt_view(results@[k]),
                            precise,
                        )
                    },
            decreases self.selections.len() - i,
        {
            let sel = self.selections[i];
            let result = if sel.start == sel.end {
                None
            } else {
                let text = string_from_chars(&self.selection_chars(i));
                let outcome = calculate::<N>(text.as_str());
                proof {
                    assert(calculate_outcome::<N>(text@, texts_view(outcome)));
                }
                match outcome {
                    Some((rounded, exact)) => {
                        let chosen = if precise {
                            exact
                        } else {
                            rounded
                        };
                        let chars = chars_of(chosen.as_str());
                        assert(Some(chars@) == picked(texts_view(outcome), precise));
                        Some(chars)
                    },
                    None => None,
                }
            };
            results.push(result);
            i += 1;
        }
        let ghost gr = results_view(results@);
        assert(calculation_results::<N>(text, sels, gr, precise)) by {
            assert forall|k: int| 0 <= k < sels.len() implies {
                &&& sels[k].start == sels[k].end ==> #[trigger] gr[k] is None
                &&& sels[k].start != sels[k].end ==> calculation_allows::<N>(
                    selection_text(text, sels[k]),
                    gr[k],
                    precise,
                )
            } by {
                assert(gr[k] == opt_view(results@[k]));
            }
        }
        self.apply_results(results)
    }

    /// Replaces the text of every selection by its lines without
    /// repetitions (`unique_lines`), as one edit; a selection whose text
    /// has no repeated line keeps its range. Nothing changes on a read-only
    /// editor; when a selection is empty, nothing changes and the error asks
    /// for valid selections.
    pub fn uniq_selection(&mut self) -> (r: Result<(), PersonalError>)
        requires
            old(self).wf(),
        ensures
            final(self).wf(),
            final(self).transformed(
                old(self),
                unique_results(old(self).text@, old(self).selections@),
                r,
            ),
    {
        let ghost expected = unique_results(self.text@, self.selections@);
        if self.read_only {
            return Ok(());
        }
        let mut results: Vec<Option<Vec<char>>> = Vec::new();
        let mut i: usize = 0;
        while i < self.selections.len()
            invariant
                self.wf(),
                i <= self.selections.len(),
                results@.len() == i,
                expected == unique_results(self.text@, self.selections@),
                forall|k: int|
                    0 <= k < i ==> #[trigger] opt_view(results@[k]) == expected[k],
            decreases self.selections.len() - i,
        {
            let sel = self.selections[i];
            let result = if sel.start == sel.end {
                None
            } else {
                let text = string_from_chars(&self.selection_chars(i));
                Some(chars_of(unique_lines(text.as_str()).as_str()))
            };
            results.push(result);
            i += 1;
        }
        assert(results_view(results@) =~= expected);
        self.apply_results(results)
    }

    /// Sorts the lines under the selections in descending order. Selections
    /// on touching rows form one group whose rows are sorted together; each
    /// group then becomes one selection over its whole rows, and the newest
    /// selection is that of the group which held the newest one. Every line
    /// stays, as often as it occurred. Nothing changes on a read-only editor.
    pub fn sort_lines_descending(&mut self)
        requires
            old(self).wf(),
        ensures
            final(self).wf(),
            old(self).read_only ==> final(self).unchanged(old(self)),
            !old(self).read_only ==> {
                &&& final(self).text@ == sorted_text(old(self).text@, old(self).selections@)
                &&& final(self).selections@ == sorted_selections(
                    old(self).text@,
                    old(self).selections@,
                )
                &&& final(self).newest as int == group_index(
                    old(self).text@,
                    old(self).selections@,
                    0,
                    old(self).newest as int,
                )
                &&& final(self).read_only == old(self).read_only
                &&& final(self).singleton == old(self).singleton
                &&& final(self).local_file == old(self).local_file
                &&& final(self).project == old(self).project
                &&& sorted_lines(old(self).text@, old(self).selections@).to_multiset() == split(
                    old(self).text@,
                    seq!['\n'],
                ).to_multiset()
                &&& forall|g: int|
                    0 <= g < row_groups(old(self).text@, old(self).selections@, 0).len()
                        ==> sorted_by(
                        sorted_lines(old(self).text@, old(self).selections@).subrange(
                            #[trigger] row_groups(old(self).text@, old(self).selections@, 0)[g].0,
                            row_groups(old(self).text@, old(self).selections@, 0)[g].1,
                        ),
                        line_desc(),
                    )
            },
    {
        if self.read_only {
            return;
        }
        let (text, selections, newest) = sort_line_groups(
            &self.text,
            &self.selections,
            self.newest,
        );
        self.text = text;
        self.selections = selections;
        self.newest = newest;
    }

    /// Inserts `file://` followed by the first text on the clipboard in
    /// place of every selection, leaving a cursor after each insertion.
    /// Nothing changes on a read-only editor; with no text on the clipboard,
    /// nothing changes and the error says so.
    pub fn insert_clipboard_file_uri(&mut self, clipboard: &Vec<ClipboardEntry>) -> (r: Result<
        (),
        PersonalError,
    >)
        requires
            old(self).wf(),
        ensures
            final(self).wf(),
            old(self).read_only ==> final(self).unchanged(old(self)) && r is Ok,
            !old(self).read_only ==> match first_clipboard_text(clipboard@) {
                None => final(self).unchanged(old(self)) && r == Err::<(), PersonalError>(
                    PersonalError::NoClipboardText,
                ),
                Some(t) => final(self).replaced(
                    old(self),
                    file_uris(old(self).selections@.len(), t),
                    false,
                ) && r is Ok,
            },
    {
        if self.read_only {
            return Ok(());
        }
        let text = match first_text_exec(clipboard) {
            Some(t) => t,
            None => {
                return Err(PersonalError::NoClipboardText);
            },
        };
        let mut uri: Vec<char> = Vec::new();
        uri.push('f');
        uri.push('i');
        uri.push('l');
        uri.push('e');
        uri.push(':');
        uri.push('/');
        uri.push('/');
        let body = chars_of(text.as_str());
        push_all(&mut uri, &body);
        let mut reps: Vec<Vec<char>> = Vec::new();
        let mut i: usize = 0;
        while i < self.selections.len()
            invariant
                i <= self.selections.len(),
                reps@.len() == i,
                forall|k: int| 0 <= k < i ==> #[trigger] reps@[k]@ == uri@,
            decreases self.selections.len() - i,
        {
            reps.push(slice_chars(&uri, 0, uri.len()));
            assert(uri@.subrange(0, uri@.len() as int) =~= uri@);
            i += 1;
        }
        assert(uri@ =~= seq!['f', 'i', 'l', 'e', ':', '/', '/'] + text@);
        assert(views(reps@) =~= file_uris(self.selections@.len(), text@));
        self.replace_selections(&reps, false);
        Ok(())
    }

    /// The text of the fenced code block around the head of the newest
    /// selection, for the clipboard. Only a single-file editor has code
    /// blocks; a head outside every closed block is an error.
    pub fn copy_current_code_block(&self) -> (r: Result<String, PersonalError>)
        requires
            self.wf(),
        ensures
            !self.singleton ==> r == Err::<String, PersonalError>(PersonalError::NotSingleFile),
            self.singleton ==> match spec_code_block(
                self.text@,
                row_of(self.text@, head(self.selections@[self.newest as int])),
            ) {
                Some(block) => r matches Ok(s) && s@ == block,
                None => r == Err::<String, PersonalError>(PersonalError::NotInCodeBlock),
            },
    {
        if !self.singleton {
            return Err(PersonalError::NotSingleFile);
        }
        let sel = self.selections[self.newest];
        let head = if sel.reversed {
            sel.start
        } else {
            sel.end
        };
        assert(head <= self.text.len());
        let row = row_at(&self.text, head);
        match code_block(string_from_chars(&self.text).as_str(), row) {
            Some(block) => Ok(block),
            None => Err(PersonalError::NotInCodeBlock),
        }
    }

    /// The directory of the buffer's local file.
    pub open spec fn spec_working_directory(&self) -> Option<Seq<char>> {
        if !self.singleton {
            None
        } else {
            match &self.local_file {
                Some(path) => path_parent_of(path@),
                None => None,
            }
        }
    }

    fn working_directory(&self) -> (r: Option<String>)
        ensures
            r matches Some(d) ==> self.spec_working_directory() == Some(d@),
            r is None ==> self.spec_working_directory() is None,
    {
        if !self.singleton {
            return None;
        }
        match &self.local_file {
            Some(path) => path_parent(path.as_str()),
            None => None,
        }
    }

    /// The directory to open a terminal in: for a local project, the
    /// directory of the local file, else the project's directory; without a
    /// project, the directory of the local file.
    pub open spec fn spec_tilix_directory(&self) -> Option<Seq<char>> {
        match &self.project {
            Some(project) => {
                let from_file = if project.is_local {
                    self.spec_working_directory()
                } else {
                    None
                };
                if from_file is Some {
                    from_file
                } else {
                    spec_project_directory(*project)
                }
            },
            None => self.spec_working_directory(),
        }
    }

    /// The directory of the editor's local file, falling back to the
    /// project's directory (`tilix_directory_for_project`). Remote projects
    /// yield `None`.
    pub fn tilix_directory(&self) -> (r: Option<String>)
        ensures
            r matches Some(d) ==> self.spec_tilix_directory() == Some(d@),
            r is None ==> self.spec_tilix_directory() is None,
    {
        match &self.project {
            Some(project) => {
                let from_file = if project.is_local {
                    self.working_directory()
                } else {
                    None
                };
                if from_file.is_some() {
                    from_file
                } else {
                    Editor::tilix_directory_for_project(project)
                }
            },
            None => self.working_directory(),
        }
    }

    /// The directory a terminal opens in when no local file is focused: the
    /// first visible worktree of a local project. A single-file worktree has
    /// the file itself as its root, so its parent directory is used.
    pub fn tilix_directory_for_project(project: &Project) -> (r: Option<String>)
        ensures
            r matches Some(d) ==> spec_project_directory(*project) == Some(d@),
            r is None ==> spec_project_directory(*project) is None,
    {
        if !project.is_local || project.visible_worktrees.len() == 0 {
            return None;
        }
        let worktree = &project.visible_worktrees[0];
        if worktree.is_single_file {
            path_parent(worktree.abs_path.as_str())
        } else {
            Some(worktree.abs_path.clone())
        }
    }

    /// The directory to open Tilix in, or the error that no local directory
    /// is open.
    pub fn open_directory_in_tilix(&self) -> (r: Result<String, PersonalError>)
        ensures
            match self.spec_tilix_directory() {
                Some(d) => r matches Ok(s) && s@ == d,
                None => r == Err::<String, PersonalError>(PersonalError::NoLocalDirectory),
            },
    {
        match self.tilix_directory() {
            Some(d) => Ok(d),
            None => Err(PersonalError::NoLocalDirectory),
        }
    }
}

/// The first text entry of the clipboard.
pub open spec fn first_clipboard_text(entries: Seq<ClipboardEntry>) -> Option<Seq<char>>
    decreases entries.len(),
{
    if entries.len() == 0 {
        None
    } else {
        match entries[0] {
            ClipboardEntry::Text(t) => Some(t@),
            ClipboardEntry::Other => first_clipboard_text(entries.drop_first()),
        }
    }
}

fn first_text_exec(entries: &Vec<ClipboardEntry>) -> (r: Option<String>)
    ensures
        r matches Some(t) ==> first_clipboard_text(entries@) == Some(t@),
        r is None ==> first_clipboard_text(entries@) is None,
{
    let mut i: usize = 0;
    assert(entries@.skip(0) =~= entries@);
    while i < entries.len()
        invariant
            i <= entries.len(),
            first_clipboard_text(entries@) == first_clipboard_text(entries@.skip(i as int)),
        decreases entries.len() - i,
    {
        assert(entries@.skip(i as int)[0] == entries@[i as int]);
        assert(entries@.skip(i as int).drop_first() =~= entries@.skip(i + 1));
        match &entries[i] {
            ClipboardEntry::Text(t) => {
                return Some(t.clone());
            },
            ClipboardEntry::Other => {},
        }
        i += 1;
    }
    None
}

fn row_at(text: &Vec<char>, offset: usize) -> (r: usize)
    requires
        offset <= text.len(),
    ensures
        r as int == row_of(text@, offset as int),
{
    let mut row: usize = 0;
    let mut k: usize = 0;
    while k < offset
        invariant
            k <= offset <= text.len(),
            row as int == row_of(text@, k as int),
            row <= k,
        decreases offset - k,
    {
        if text[k] == '\n' {
            row += 1;
        }
        k += 1;
    }
    row
}

/// When every replacement is the text it replaces, the edit changes
/// nothing: the text and the selections stay as they are.
pub proof fn lemma_identity_edit(text: Seq<char>, sels: Seq<Selection>, newest: int, reps: Seq<Seq<char>>)
    requires
        selections_wf(sels, newest, text.len() as int),
        reps.len() == sels.len(),
        forall|i: int| 0 <= i < sels.len() ==> #[trigger] reps[i] == selection_text(text, sels[i]),
    ensures
        edited_text(text, sels, reps) == text,
        edited_selections(text, sels, reps, true) == sels,
{
    assert forall|i: int| 0 <= i <= sels.len() implies #[trigger] shift(sels, reps, i) == 0 by {
        lemma_shift_zero(text, sels, reps, i);
    }
    lemma_identity_text(text, sels, newest, reps, 0);
    assert(edited_text_from(text, sels, reps, 0, 0) == text.subrange(0, text.len() as int));
    assert(text.subrange(0, text.len() as int) =~= text);
    assert(edited_selections(text, sels, reps, true) =~= sels);
}

proof fn lemma_shift_zero(text: Seq<char>, sels: Seq<Selection>, reps: Seq<Seq<char>>, i: int)
    requires
        0 <= i <= sels.len(),
        reps.len() == sels.len(),
        forall|k: int| 0 <= k < sels.len() ==> #[trigger] sels[k].start <= sels[k].end <= text.len(),
        forall|k: int| 0 <= k < sels.len() ==> #[trigger] reps[k] == selection_text(text, sels[k]),
    ensures
        shift(sels, reps, i) == 0,
    decreases i,
{
    if i > 0 {
        lemma_shift_zero(text, sels, reps, i - 1);
        assert(reps[i - 1] == selection_text(text, sels[i - 1]));
    }
}

proof fn lemma_identity_text(
    text: Seq<char>,
    sels: Seq<Selection>,
    newest: int,
    reps: Seq<Seq<char>>,
    i: int,
)
    requires
        selections_wf(sels, newest, text.len() as int),
        reps.len() == sels.len(),
        forall|k: int| 0 <= k < sels.len() ==> #[trigger] reps[k] == selection_text(text, sels[k]),
        0 <= i <= sels.len(),
    ensures
        ({
            let from = if i == 0 {
                0
            } else {
                sels[i - 1].end as int
            };
            edited_text_from(text, sels, reps, i, from) == text.subrange(from, text.len() as int)
        }),
    decreases sels.len() - i,
{
    let from = if i == 0 {
        0
    } else {
        sels[i - 1].end as int
    };
    if i > 0 {
        assert(sels[i - 1].start <= sels[i - 1].end <= text.len());
    }
    if i < sels.len() {
        lemma_identity_text(text, sels, newest, reps, i + 1);
        let next_from = sels[i].end as int;
        assert(sels[i].start <= sels[i].end <= text.len());
        assert(i > 0 ==> sels[i - 1].end <= sels[i].start);
        assert(reps[i] == selection_text(text, sels[i]));
        assert(text.subrange(from, sels[i].start as int) + reps[i] + text.subrange(
            next_from,
            text.len() as int,
        ) =~= text.subrange(from, text.len() as int));
    }
}

/// The text before selection `i`'s replacement: the text up to the first
/// selection and every earlier replacement with the text between.
pub open spec fn edited_prefix(text: Seq<char>, sels: Seq<Selection>, reps: Seq<Seq<char>>, i: int) -> Seq<
    char,
>
    decreases i,
{
    if i <= 0 || i > sels.len() {
        seq![]
    } else {
        let from = if i == 1 {
            0
        } else {
            sels[i - 2].end as int
        };
        edited_prefix(text, sels, reps, i - 1) + text.subrange(from, sels[i - 1].start as int)
            + reps[i - 1]
    }
}

proof fn lemma_edited_prefix(
    text: Seq<char>,
    sels: Seq<Selection>,
    newest: int,
    reps: Seq<Seq<char>>,
    i: int,
)
    requires
        selections_wf(sels, newest, text.len() as int),
        reps.len() == sels.len(),
        0 <= i <= sels.len(),
    ensures
        ({
            let from = if i == 0 {
                0
            } else {
                sels[i - 1].end as int
            };
            &&& edited_text(text, sels, reps) == edited_prefix(text, sels, reps, i)
                + edited_text_from(text, sels, reps, i, from)
            &&& edited_prefix(text, sels, reps, i).len() == from + shift(sels, reps, i)
        }),
    decreases i,
{
    if i == 0 {
        assert(edited_prefix(text, sels, reps, 0) + edited_text(text, sels, reps) =~= edited_text(
            text,
            sels,
            reps,
        ));
    } else {
        lemma_edited_prefix(text, sels, newest, reps, i - 1);
        let from = if i == 1 {
            0
        } else {
            sels[i - 2].end as int
        };
        assert(sels[i - 1].start <= sels[i - 1].end <= text.len());
        assert(i >= 2 ==> sels[i - 2].end <= sels[i - 1].start);
        assert(edited_text_from(text, sels, reps, i - 1, from) == text.subrange(
            from,
            sels[i - 1].start as int,
        ) + reps[i - 1] + edited_text_from(text, sels, reps, i, sels[i - 1].end as int));
        assert(edited_prefix(text, sels, reps, i - 1) + (text.subrange(
            from,
            sels[i - 1].start as int,
        ) + reps[i - 1] + edited_text_from(text, sels, reps, i, sels[i - 1].end as int))
            =~= edited_prefix(text, sels, reps, i) + edited_text_from(
            text,
            sels,
            reps,
            i,
            sels[i - 1].end as int,
        ));
    }
}

/// Each replacement lands where its selection was: in the edited text, the
/// replacement of selection `i` starts at the selection's start moved by
/// the edits before it.
pub proof fn lemma_replacement_in_place(
    text: Seq<char>,
    sels: Seq<Selection>,
    newest: int,
    reps: Seq<Seq<char>>,
    i: int,
)
    requires
        selections_wf(sels, newest, text.len() as int),
        reps.len() == sels.len(),
        0 <= i < sels.len(),
    ensures
        ({
            let p = sels[i].start + shift(sels, reps, i);
            let edited = edited_text(text, sels, reps);
            &&& 0 <= p
            &&& p + reps[i].len() <= edited.len()
            &&& edited.subrange(p, p + reps[i].len()) == reps[i]
        }),
{
    lemma_edited_prefix(text, sels, newest, reps, i);
    let from = if i == 0 {
        0
    } else {
        sels[i - 1].end as int
    };
    assert(sels[i].start <= sels[i].end <= text.len());
    assert(i > 0 ==> sels[i - 1].end <= sels[i].start);
    let prefix = edited_prefix(text, sels, reps, i);
    let gap = text.subrange(from, sels[i].start as int);
    let rest = edited_text_from(text, sels, reps, i + 1, sels[i].end as int);
    let edited = edited_text(text, sels, reps);
    assert(edited == prefix + (gap + reps[i] + rest));
    assert(edited =~= prefix + gap + reps[i] + rest);
    let p = sels[i].start + shift(sels, reps, i);
    assert(p == prefix.len() + gap.len());
    assert(edited.subrange(p, p + reps[i].len()) =~= reps[i]);
}


/// Only the first visible worktree decides where a terminal opens: two
/// projects, equally local, whose first visible worktrees are the same open
/// in the same directory, whatever worktrees follow.
pub proof fn lemma_first_worktree_decides(p1: Project, p2: Project)
    requires
        p1.is_local == p2.is_local,
        p1.visible_worktrees@.len() > 0,
        p2.visible_worktrees@.len() > 0,
        p1.visible_worktrees@[0] == p2.visible_worktrees@[0],
    ensures
        spec_project_directory(p1) == spec_project_directory(p2),
{
}

/// A local project opens in its first visible worktree's own path when that
/// worktree is a directory, and in the parent of that path when it is a
/// single file; a remote project, or one with no visible worktree, opens
/// nowhere.
pub proof fn lemma_directory_of_first_worktree(project: Project)
    ensures
        project.is_local && project.visible_worktrees@.len() > 0
            && !project.visible_worktrees@[0].is_single_file ==> spec_project_directory(project)
            == Some(project.visible_worktrees@[0].abs_path@),
        project.is_local && project.visible_worktrees@.len() > 0
            && project.visible_worktrees@[0].is_single_file ==> spec_project_directory(project)
            == path_parent_of(project.visible_worktrees@[0].abs_path@),
        !project.is_local || project.visible_worktrees@.len() == 0 ==> spec_project_directory(
            project,
        ) is None,
{
}

} // verus!
