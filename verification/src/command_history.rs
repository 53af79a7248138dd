//! The command history: which dispatched actions are recorded, the order of
//! recorded events, and the Markdown summary of a history.
use vstd::prelude::*;

use vstd::relations::{sorted_by, total_ordering};

use crate::order::{
    insertion_sort, lemma_lex_antisymmetric, lemma_lex_total, lemma_lex_transitive, lex_le,
    lex_le_exec, sorted, stable_arrangement, Ordered,
};
use crate::selection_tools::{dedup, lemma_dedup_unique};
use crate::calculation::{all_digits, digits_value, is_digit};
use crate::text::{chars_eq, chars_of, push_all, slice_chars, string_from_chars};

verus! {

broadcast use vstd::seq_lib::group_to_multiset_ensures, vstd::multiset::group_multiset_axioms;

/// Whether `pattern` excludes `action`: a pattern that ends in `*` covers
/// every action that starts with what precedes the `*`; any other pattern
/// covers the action of that name.
pub open spec fn spec_excluded(pattern: Seq<char>, action: Seq<char>) -> bool {
    if pattern.len() > 0 && pattern.last() == '*' {
        let prefix = pattern.drop_last();
        prefix.len() <= action.len() && action.subrange(0, prefix.len() as int) == prefix
    } else {
        pattern == action
    }
}

/// Whether `pattern` excludes `action` from the history: a trailing `*`
/// covers a namespace such as `vim::*`.
pub fn excluded(pattern: &str, action: &str) -> (r: bool)
    ensures
        r == spec_excluded(pattern@, action@),
{
    let p = chars_of(pattern);
    let a = chars_of(action);
    if p.len() > 0 && p[p.len() - 1] == '*' {
        let prefix = slice_chars(&p, 0, p.len() - 1);
        assert(prefix@ =~= p@.drop_last());
        if prefix.len() > a.len() {
            return false;
        }
        let head = slice_chars(&a, 0, prefix.len());
        chars_eq(&head, &prefix)
    } else {
        chars_eq(&p, &a)
    }
}

/// The history configuration.
pub struct Config {
    pub enabled: bool,
    /// Action names, or namespaces with a trailing `*` such as `vim::*`.
    pub excluded_actions: Vec<String>,
}

impl Default for Config {
    fn default() -> (r: Self)
        ensures
            r.enabled,
            r.excluded_actions@.len() == 0,
    {
        Config { enabled: true, excluded_actions: Vec::new() }
    }
}

impl Config {
    /// The history is enabled and no pattern excludes `action`.
    pub open spec fn spec_records(&self, action: Seq<char>) -> bool {
        self.enabled && !exists|i: int|
            0 <= i < self.excluded_actions@.len() && spec_excluded(
                #[trigger] self.excluded_actions@[i]@,
                action,
            )
    }

    /// Whether a dispatch of `action` is recorded.
    pub fn records(&self, action: &str) -> (r: bool)
        ensures
            r == self.spec_records(action@),
    {
        if !self.enabled {
            return false;
        }
        let mut i: usize = 0;
        while i < self.excluded_actions.len()
            invariant
                i <= self.excluded_actions@.len(),
                forall|j: int|
                    0 <= j < i ==> !spec_excluded(#[trigger] self.excluded_actions@[j]@, action@),
            decreases self.excluded_actions.len() - i,
        {
            if excluded(self.excluded_actions[i].as_str(), action) {
                return false;
            }
            i += 1;
        }
        true
    }
}

/// Tracks whether a failure to write the history was reported: a full disk
/// fails on every action, so only the first failure is reported.
pub struct WriteFailures {
    pub reported: bool,
}

impl WriteFailures {
    pub fn new() -> (r: Self)
        ensures
            !r.reported,
    {
        WriteFailures { reported: false }
    }

    /// Notes a failed write; gives whether to report it, which holds for
    /// the first failure only.
    pub fn failed(&mut self) -> (report: bool)
        ensures
            report == !old(self).reported,
            final(self).reported,
    {
        if self.reported {
            false
        } else {
            self.reported = true;
            true
        }
    }
}

/// What reaches the recorder thread: a dispatch to record, the news that
/// writing a record failed, a request for a report (or an export), or a
/// request to flush the session file before quitting.
#[derive(Clone, Copy, Debug, PartialEq, Eq)]
pub enum RecorderInput {
    Dispatch,
    WriteFailed,
    Report { export: bool },
    Flush,
}

/// What the recorder thread does next.
#[derive(Clone, Copy, Debug, PartialEq, Eq)]
pub enum RecorderAction {
    /// Nothing: the history is disabled and has no session file.
    Skip,
    /// Append the record to the session file.
    Write,
    /// Show the write failure to the user.
    Notify,
    /// Only log the write failure.
    Log,
    /// Build the report (or the export) and reply with its path.
    Report { export: bool },
    /// Sync the session file to disk and reply.
    Sync,
    /// Reply that there was nothing to flush.
    Done,
}

/// The action for `input` and whether a write failure has been reported
/// afterwards, for a recorder that has a session file when `recording`.
pub open spec fn step_of(recording: bool, reported: bool, input: RecorderInput) -> (
    RecorderAction,
    bool,
) {
    match input {
        RecorderInput::Dispatch => (
            if recording {
                RecorderAction::Write
            } else {
                RecorderAction::Skip
            },
            reported,
        ),
        RecorderInput::WriteFailed => (
            if reported {
                RecorderAction::Log
            } else {
                RecorderAction::Notify
            },
            true,
        ),
        RecorderInput::Report { export } => (RecorderAction::Report { export }, reported),
        RecorderInput::Flush => (
            if recording {
                RecorderAction::Sync
            } else {
                RecorderAction::Done
            },
            reported,
        ),
    }
}

/// The actions for a run of inputs.
pub open spec fn actions_of(recording: bool, reported: bool, inputs: Seq<RecorderInput>) -> Seq<
    RecorderAction,
>
    decreases inputs.len(),
{
    if inputs.len() == 0 {
        seq![]
    } else {
        let (action, now_reported) = step_of(recording, reported, inputs[0]);
        seq![action] + actions_of(recording, now_reported, inputs.drop_first())
    }
}

/// The recorder thread's state: whether it has a session file, which only
/// an enabled history creates, and whether a write failure was reported.
pub struct RecorderState {
    pub recording: bool,
    pub failures: WriteFailures,
}

impl RecorderState {
    pub fn new(enabled: bool) -> (r: Self)
        ensures
            r.recording == enabled,
            !r.failures.reported,
    {
        RecorderState { recording: enabled, failures: WriteFailures::new() }
    }

    /// The action for `input`: a dispatch is written when there is a
    /// session file, the first write failure is shown and later ones are
    /// only logged, and reports are served in turn with the records, so the
    /// records sent before a report are in it.
    pub fn step(&mut self, input: RecorderInput) -> (action: RecorderAction)
        ensures
            final(self).recording == old(self).recording,
            (action, final(self).failures.reported) == step_of(
                old(self).recording,
                old(self).failures.reported,
                input,
            ),
    {
        match input {
            RecorderInput::Dispatch => {
                if self.recording {
                    RecorderAction::Write
                } else {
                    RecorderAction::Skip
                }
            },
            RecorderInput::WriteFailed => {
                if self.failures.failed() {
                    RecorderAction::Notify
                } else {
                    RecorderAction::Log
                }
            },
            RecorderInput::Report { export } => RecorderAction::Report { export },
            RecorderInput::Flush => {
                if self.recording {
                    RecorderAction::Sync
                } else {
                    RecorderAction::Done
                }
            },
        }
    }
}

/// However many writes fail, the user is shown at most one failure, and
/// none once one was shown; a recorder without a session file never writes.
pub proof fn lemma_one_failure_notice(recording: bool, reported: bool, inputs: Seq<RecorderInput>)
    ensures
        forall|i: int, j: int|
            0 <= i < j < inputs.len() && #[trigger] actions_of(recording, reported, inputs)[i]
                == RecorderAction::Notify ==> #[trigger] actions_of(recording, reported, inputs)[j]
                != RecorderAction::Notify,
        reported ==> forall|i: int|
            0 <= i < inputs.len() ==> #[trigger] actions_of(recording, reported, inputs)[i]
                != RecorderAction::Notify,
        !recording ==> forall|i: int|
            0 <= i < inputs.len() ==> #[trigger] actions_of(recording, reported, inputs)[i]
                != RecorderAction::Write,
        actions_of(recording, reported, inputs).len() == inputs.len(),
    decreases inputs.len(),
{
    if inputs.len() > 0 {
        let (action, now) = step_of(recording, reported, inputs[0]);
        let rest = inputs.drop_first();
        lemma_one_failure_notice(recording, now, rest);
        let all = actions_of(recording, reported, inputs);
        let tail = actions_of(recording, now, rest);
        assert(all == seq![action] + tail);
        assert forall|k: int| 0 < k < inputs.len() implies all[k] == tail[k - 1] by {}
        if action == RecorderAction::Notify {
            assert(now);
        }
    }
}

/// A recorded dispatch.
pub struct Event {
    pub timestamp: String,
    pub action: String,
}

impl Ordered for Event {
    open spec fn spec_le(&self, other: &Self) -> bool {
        lex_le(self.timestamp@, other.timestamp@)
    }

    fn le(&self, other: &Self) -> (r: bool) {
        lex_le_exec(&chars_of(self.timestamp.as_str()), &chars_of(other.timestamp.as_str()))
    }

    proof fn lemma_total(a: &Self, b: &Self) {
        lemma_lex_total(a.timestamp@, b.timestamp@);
    }

    proof fn lemma_transitive(a: &Self, b: &Self, c: &Self) {
        lemma_lex_transitive(a.timestamp@, b.timestamp@, c.timestamp@);
    }
}

/// Orders events by their timestamps, keeping events with equal timestamps
/// in their order.
pub fn sort_events(events: &mut Vec<Event>)
    ensures
        sorted(final(events)@),
        final(events)@.to_multiset() == old(events)@.to_multiset(),
        stable_arrangement(final(events)@, old(events)@),
{
    insertion_sort(events);
}

/// The number of events of `action`.
pub open spec fn count_in(events: Seq<Event>, action: Seq<char>) -> nat
    decreases events.len(),
{
    if events.len() == 0 {
        0
    } else {
        count_in(events.drop_last(), action) + if events.last().action@ == action {
            1nat
        } else {
            0nat
        }
    }
}

/// The actions of `events`, in order.
pub open spec fn event_actions(events: Seq<Event>) -> Seq<Seq<char>> {
    events.map_values(|e: Event| e.action@)
}

/// Every distinct action of `events` with its count, in the order of first
/// dispatch.
pub open spec fn count_table(events: Seq<Event>) -> Seq<(Seq<char>, nat)> {
    dedup(event_actions(events)).map_values(|a: Seq<char>| (a, count_in(events, a)))
}

/// The order of the summary's rows: more dispatches first, then by name.
pub open spec fn row_before(a: (Seq<char>, nat), b: (Seq<char>, nat)) -> bool {
    a.1 > b.1 || (a.1 == b.1 && lex_le(a.0, b.0))
}

pub open spec fn row_order() -> spec_fn((Seq<char>, nat), (Seq<char>, nat)) -> bool {
    |a: (Seq<char>, nat), b: (Seq<char>, nat)| row_before(a, b)
}

/// The summary's rows: every distinct action with its count, most
/// dispatched first and then by name.
pub open spec fn count_rows(events: Seq<Event>) -> Seq<(Seq<char>, nat)> {
    count_table(events).sort_by(row_order())
}

/// The decimal digits of `n`.
pub open spec fn decimal(n: nat) -> Seq<char>
    decreases n,
{
    if n < 10 {
        seq![digit_char(n)]
    } else {
        decimal(n / 10).push(digit_char(n % 10))
    }
}

pub open spec fn digit_char(d: nat) -> char {
    if d == 0 {
        '0'
    } else if d == 1 {
        '1'
    } else if d == 2 {
        '2'
    } else if d == 3 {
        '3'
    } else if d == 4 {
        '4'
    } else if d == 5 {
        '5'
    } else if d == 6 {
        '6'
    } else if d == 7 {
        '7'
    } else if d == 8 {
        '8'
    } else {
        '9'
    }
}

/// The decimal text of `n`, as `Display` writes it.
pub fn decimal_text(n: usize) -> (r: Vec<char>)
    ensures
        r@ == decimal(n as nat),
    decreases n,
{
    let d = n % 10;
    let c = if d == 0 {
        '0'
    } else if d == 1 {
        '1'
    } else if d == 2 {
        '2'
    } else if d == 3 {
        '3'
    } else if d == 4 {
        '4'
    } else if d == 5 {
        '5'
    } else if d == 6 {
        '6'
    } else if d == 7 {
        '7'
    } else if d == 8 {
        '8'
    } else {
        '9'
    };
    if n < 10 {
        let mut r = Vec::new();
        r.push(c);
        assert(r@ =~= seq![digit_char(n as nat)]);
        r
    } else {
        let mut r = decimal_text(n / 10);
        r.push(c);
        r
    }
}

/// The lines of the summary's table.
pub open spec fn rows_text(rows: Seq<(Seq<char>, nat)>) -> Seq<char>
    decreases rows.len(),
{
    if rows.len() == 0 {
        seq![]
    } else {
        rows_text(rows.drop_last()) + "| "@ + decimal(rows.last().1) + " | `"@ + rows.last().0
            + "` |\n"@
    }
}

/// The latest events, newest first, at most 200 of them.
pub open spec fn latest(events: Seq<Event>) -> Seq<Event> {
    let n = if events.len() < 200 {
        events.len() as int
    } else {
        200
    };
    Seq::new(n as nat, |k: int| events[events.len() - 1 - k])
}

/// The list lines of the latest events.
pub open spec fn event_lines(events: Seq<Event>) -> Seq<char>
    decreases events.len(),
{
    if events.len() == 0 {
        seq![]
    } else {
        event_lines(events.drop_last()) + "- "@ + events.last().timestamp@ + " `"@
            + events.last().action@ + "`\n"@
    }
}

/// The Markdown summary of a history (ordered by time): the number of
/// dispatches, a table of dispatch counts per action (most dispatched
/// first, then by name) and the latest 200 dispatches, newest first.
pub open spec fn summary_text(events: Seq<Event>) -> Seq<char> {
    "# Command history\n\n"@ + decimal(events.len()) + SUMMARY_INTRO@ + rows_text(
        count_rows(events),
    ) + "\n## Latest 200 dispatches\n\n"@ + event_lines(latest(events))
}

/// The text between the number of dispatches and the rows of the table.
pub const SUMMARY_INTRO: &'static str =
    " dispatches. Arguments and document contents are not recorded.\n\n| Count | Action |\n|---:|---|\n";

/// A row of the summary's table.
pub struct ActionCount {
    pub action: Vec<char>,
    pub count: usize,
}

impl ActionCount {
    pub open spec fn view(&self) -> (Seq<char>, nat) {
        (self.action@, self.count as nat)
    }
}

impl Ordered for ActionCount {
    open spec fn spec_le(&self, other: &Self) -> bool {
        row_before(self.view(), other.view())
    }

    fn le(&self, other: &Self) -> (r: bool) {
        self.count > other.count || (self.count == other.count && lex_le_exec(
            &self.action,
            &other.action,
        ))
    }

    proof fn lemma_total(a: &Self, b: &Self) {
        lemma_lex_total(a.action@, b.action@);
    }

    proof fn lemma_transitive(a: &Self, b: &Self, c: &Self) {
        if a.count == b.count && b.count == c.count {
            lemma_lex_transitive(a.action@, b.action@, c.action@);
        }
    }
}

pub proof fn lemma_row_order_total()
    ensures
        total_ordering(row_order()),
{
    let r = row_order();
    assert forall|x: (Seq<char>, nat)| #[trigger] r(x, x) by {
        lemma_lex_total(x.0, x.0);
    }
    assert forall|x: (Seq<char>, nat), y: (Seq<char>, nat)|
        #[trigger] r(x, y) && #[trigger] r(y, x) implies x == y by {
        lemma_lex_antisymmetric(x.0, y.0);
    }
    assert forall|x: (Seq<char>, nat), y: (Seq<char>, nat), z: (Seq<char>, nat)|
        #[trigger] r(x, y) && #[trigger] r(y, z) implies r(x, z) by {
        if x.1 == y.1 && y.1 == z.1 {
            lemma_lex_transitive(x.0, y.0, z.0);
        }
    }
    assert forall|x: (Seq<char>, nat), y: (Seq<char>, nat)| #[trigger] r(x, y) || #[trigger] r(y, x) by {
        lemma_lex_total(x.0, y.0);
    }
}

pub proof fn lemma_map_values_multiset<A, B>(s1: Seq<A>, s2: Seq<A>, f: spec_fn(A) -> B)
    requires
        s1.to_multiset() == s2.to_multiset(),
    ensures
        s1.map_values(f).to_multiset() == s2.map_values(f).to_multiset(),
    decreases s1.len(),
{
    if s1.len() == 0 {
        vstd::seq_lib::to_multiset_len(s1);
        vstd::seq_lib::to_multiset_len(s2);
        assert(s2.len() == 0);
        assert(s1.map_values(f) =~= s2.map_values(f));
    } else {
        let x = s1.last();
        let rest = s1.drop_last();
        assert(s1 =~= rest.push(x));
        assert(s1.to_multiset().count(x) > 0);
        assert(s2.contains(x));
        let k = choose|k: int| 0 <= k < s2.len() && s2[k] == x;
        let s2r = s2.remove(k);
        assert(rest.to_multiset() =~= s2r.to_multiset());
        lemma_map_values_multiset(rest, s2r, f);
        assert(s1.map_values(f) =~= rest.map_values(f).push(f(x)));
        assert(s2.map_values(f).remove(k) =~= s2r.map_values(f));
        assert(s2.map_values(f)[k] == f(x));
        assert(s2.map_values(f).to_multiset() =~= s2r.map_values(f).to_multiset().insert(f(x)));
    }
}

fn find_row(rows: &Vec<ActionCount>, action: &Vec<char>) -> (r: Option<usize>)
    ensures
        r matches Some(k) ==> k < rows.len() && rows@[k as int].action@ == action@,
        r is None ==> forall|k: int| 0 <= k < rows.len() ==> rows@[k].action@ != action@,
{
    let mut k: usize = 0;
    while k < rows.len()
        invariant
            k <= rows.len(),
            forall|j: int| 0 <= j < k ==> rows@[j].action@ != action@,
        decreases rows.len() - k,
    {
        if chars_eq(&rows[k].action, action) {
            return Some(k);
        }
        k += 1;
    }
    None
}

proof fn lemma_count_in_bound(events: Seq<Event>, action: Seq<char>)
    ensures
        count_in(events, action) <= events.len(),
    decreases events.len(),
{
    if events.len() > 0 {
        lemma_count_in_bound(events.drop_last(), action);
    }
}

/// The count table of `events`, in the order of first dispatch.
fn count_actions(events: &Vec<Event>) -> (rows: Vec<ActionCount>)
    ensures
        rows@.map_values(|r: ActionCount| r.view()) == count_table(events@),
{
    let mut rows: Vec<ActionCount> = Vec::new();
    let mut i: usize = 0;
    while i < events.len()
        invariant
            i <= events.len(),
            rows@.len() == dedup(event_actions(events@.take(i as int))).len(),
            forall|k: int|
                0 <= k < rows@.len() ==> (#[trigger] rows@[k]).action@ == dedup(
                    event_actions(events@.take(i as int)),
                )[k] && rows@[k].count as nat == count_in(
                    events@.take(i as int),
                    rows@[k].action@,
                ),
        decreases events.len() - i,
    {
        let ghost prefix = events@.take(i as int);
        let ghost next = events@.take(i + 1);
        assert(next.drop_last() =~= prefix);
        assert(event_actions(next).drop_last() =~= event_actions(prefix));
        assert(event_actions(next).last() == events@[i as int].action@);
        let action = chars_of(events[i].action.as_str());
        proof {
            lemma_count_in_bound(prefix, action@);
        }
        match find_row(&rows, &action) {
            Some(k) => {
                let ghost old_rows = rows@;
                let row = ActionCount { action: slice_chars(&action, 0, action.len()), count: rows[k].count + 1 };
                assert(action@.subrange(0, action@.len() as int) =~= action@);
                rows.set(k, row);
                proof {
                    assert(dedup(event_actions(prefix)).contains(action@)) by {
                        assert(dedup(event_actions(prefix))[k as int] == action@);
                    }
                    assert(dedup(event_actions(next)) == dedup(event_actions(prefix)));
                    assert forall|j: int| 0 <= j < rows@.len() implies (#[trigger] rows@[j]).action@
                        == dedup(event_actions(next))[j] && rows@[j].count as nat == count_in(
                        next,
                        rows@[j].action@,
                    ) by {
                        if j != k {
                            assert(rows@[j] == old_rows[j]);
                            assert(old_rows[j].action@ != action@) by {
                                if old_rows[j].action@ == action@ {
                                    lemma_dedup_unique(event_actions(prefix), j, k as int);
                                }
                            }
                        }
                    }
                }
            },
            None => {
                let row = ActionCount { action, count: 1 };
                proof {
                    assert(!dedup(event_actions(prefix)).contains(row.action@)) by {
                        if dedup(event_actions(prefix)).contains(row.action@) {
                            let j = choose|j: int|
                                0 <= j < dedup(event_actions(prefix)).len() && dedup(
                                    event_actions(prefix),
                                )[j] == row.action@;
                            assert(rows@[j].action@ == row.action@);
                        }
                    }
                    lemma_count_in_absent(prefix, row.action@);
                }
                let ghost old_rows = rows@;
                rows.push(row);
                proof {
                    assert forall|j: int| 0 <= j < rows@.len() implies (#[trigger] rows@[j]).action@
                        == dedup(event_actions(next))[j] && rows@[j].count as nat == count_in(
                        next,
                        rows@[j].action@,
                    ) by {
                        if j < old_rows.len() {
                            assert(rows@[j] == old_rows[j]);
                            assert(old_rows[j].action@ != row.action@);
                        }
                    }
                }
            },
        }
        i += 1;
    }
    proof {
        assert(events@.take(events.len() as int) =~= events@);
        assert(rows@.map_values(|r: ActionCount| r.view()) =~= count_table(events@));
    }
    rows
}

/// An action that never occurs has count zero.
proof fn lemma_count_in_absent(events: Seq<Event>, action: Seq<char>)
    requires
        !dedup(event_actions(events)).contains(action),
    ensures
        count_in(events, action) == 0,
    decreases events.len(),
{
    if events.len() > 0 {
        let rest = events.drop_last();
        assert(event_actions(events).drop_last() =~= event_actions(rest));
        let kept = dedup(event_actions(rest));
        let all = dedup(event_actions(events));
        assert(event_actions(events).last() == events.last().action@);
        if kept.contains(action) {
            let j = choose|j: int| 0 <= j < kept.len() && kept[j] == action;
            assert(all[j] == kept[j]);
        }
        if events.last().action@ == action {
            if kept.contains(events.last().action@) {
            } else {
                assert(all.last() == events.last().action@);
            }
        }
        lemma_count_in_absent(rest, action);
    }
}

fn push_str(out: &mut Vec<char>, s: &str)
    ensures
        final(out)@ == old(out)@ + s@,
{
    let chars = chars_of(s);
    push_all(out, &chars);
}

/// The Markdown summary of a history (ordered by time): the number of
/// dispatches, a table of dispatch counts per action (most dispatched
/// first, then by name) and the latest 200 dispatches, newest first.
pub fn summary(events: &Vec<Event>) -> (r: String)
    ensures
        r@ == summary_text(events@),
{
    let mut rows = count_actions(events);
    let ghost unsorted = rows@;
    insertion_sort(&mut rows);
    proof {
        let view = |r: ActionCount| r.view();
        lemma_map_values_multiset(rows@, unsorted, view);
        lemma_row_order_total();
        let sorted_rows = rows@.map_values(view);
        assert(sorted_by(sorted_rows, row_order())) by {
            assert forall|i: int, j: int| 0 <= i < j < sorted_rows.len() implies #[trigger] row_order()(
                sorted_rows[i],
                sorted_rows[j],
            ) by {
                assert(rows@[i].spec_le(&rows@[j]));
            }
        }
        count_table(events@).lemma_sort_by_ensures(row_order());
        vstd::seq_lib::lemma_sorted_unique(sorted_rows, count_rows(events@), row_order());
    }
    let mut out: Vec<char> = Vec::new();
    push_str(&mut out, "# Command history\n\n");
    let n = decimal_text(events.len());
    push_all(&mut out, &n);
    push_str(&mut out, SUMMARY_INTRO);
    let ghost header = out@;
    let mut i: usize = 0;
    while i < rows.len()
        invariant
            i <= rows.len(),
            out@ == header + rows_text(rows@.map_values(|r: ActionCount| r.view()).take(i as int)),
        decreases rows.len() - i,
    {
        let ghost before = out@;
        push_str(&mut out, "| ");
        let c = decimal_text(rows[i].count);
        push_all(&mut out, &c);
        push_str(&mut out, " | `");
        push_all(&mut out, &rows[i].action);
        push_str(&mut out, "` |\n");
        proof {
            let all = rows@.map_values(|r: ActionCount| r.view());
            assert(all.take(i + 1).drop_last() =~= all.take(i as int));
            assert(all.take(i + 1).last() == rows@[i as int].view());
        }
        i += 1;
    }
    proof {
        let all = rows@.map_values(|r: ActionCount| r.view());
        assert(all.take(rows.len() as int) =~= all);
    }
    push_str(&mut out, "\n## Latest 200 dispatches\n\n");
    let ghost middle = out@;
    let total = events.len();
    let shown = if total < 200 {
        total
    } else {
        200
    };
    let mut k: usize = 0;
    while k < shown
        invariant
            k <= shown,
            shown <= total == events.len(),
            shown == (if total < 200 {
                total
            } else {
                200
            }),
            out@ == middle + event_lines(latest(events@).take(k as int)),
        decreases shown - k,
    {
        let e = &events[total - 1 - k];
        push_str(&mut out, "- ");
        push_str(&mut out, e.timestamp.as_str());
        push_str(&mut out, " `");
        push_str(&mut out, e.action.as_str());
        push_str(&mut out, "`\n");
        proof {
            let l = latest(events@);
            assert(l.take(k + 1).drop_last() =~= l.take(k as int));
            assert(l.take(k + 1).last() == events@[total - 1 - k]);
        }
        k += 1;
    }
    proof {
        assert(latest(events@).take(shown as int) =~= latest(events@));
    }
    string_from_chars(&out)
}

/// A pattern that ends in `*` excludes every action in its namespace.
pub proof fn lemma_wildcard_covers_namespace(namespace: Seq<char>, name: Seq<char>)
    ensures
        spec_excluded(namespace.push('*'), namespace + name),
{
    assert(namespace.push('*').drop_last() =~= namespace);
    assert((namespace + name).subrange(0, namespace.len() as int) =~= namespace);
}

/// A disabled history records nothing, and an enabled one with no
/// exclusions records everything.
pub proof fn lemma_records_when_enabled(config: Config, action: Seq<char>)
    ensures
        !config.enabled ==> !config.spec_records(action),
        config.enabled && config.excluded_actions@.len() == 0 ==> config.spec_records(action),
{
}

/// The table counts every dispatch once: its counts add up to the number of
/// events.
pub proof fn lemma_counts_add_up(events: Seq<Event>)
    ensures
        total(count_table(events)) == events.len(),
    decreases events.len(),
{
    if events.len() > 0 {
        let rest = events.drop_last();
        let a = events.last().action@;
        lemma_counts_add_up(rest);
        assert(event_actions(events).drop_last() =~= event_actions(rest));
        assert(event_actions(events).last() == a);
        let kept = dedup(event_actions(rest));
        lemma_total_counts_step(events, kept);
        if kept.contains(a) {
        } else {
            lemma_count_in_absent(rest, a);
            assert(dedup(event_actions(events)) =~= kept.push(a));
            let f = |x: Seq<char>| (x, count_in(events, x));
            assert(kept.push(a).map_values(f) =~= kept.map_values(f).push((a, count_in(events, a))));
            lemma_total_push(kept.map_values(f), (a, count_in(events, a)));
        }
    }
}

/// The sum of the counts of a table.
pub open spec fn total(rows: Seq<(Seq<char>, nat)>) -> nat
    decreases rows.len(),
{
    if rows.len() == 0 {
        0
    } else {
        total(rows.drop_last()) + rows.last().1
    }
}

proof fn lemma_total_push(rows: Seq<(Seq<char>, nat)>, row: (Seq<char>, nat))
    ensures
        total(rows.push(row)) == total(rows) + row.1,
{
    assert(rows.push(row).drop_last() =~= rows);
}

/// Over the distinct actions of all but the last event, the counts with
/// the last event add one for the last event's action.
proof fn lemma_total_counts_step(events: Seq<Event>, kept: Seq<Seq<char>>)
    requires
        events.len() > 0,
        kept == dedup(event_actions(events.drop_last())),
    ensures
        total(kept.map_values(|x: Seq<char>| (x, count_in(events, x)))) == total(
            kept.map_values(|x: Seq<char>| (x, count_in(events.drop_last(), x))),
        ) + if kept.contains(events.last().action@) {
            1nat
        } else {
            0nat
        },
{
    lemma_total_counts_prefix(events, kept, kept.len() as int);
    assert(kept.take(kept.len() as int) =~= kept);
}

proof fn lemma_total_counts_prefix(events: Seq<Event>, kept: Seq<Seq<char>>, n: int)
    requires
        events.len() > 0,
        kept == dedup(event_actions(events.drop_last())),
        0 <= n <= kept.len(),
    ensures
        total(kept.take(n).map_values(|x: Seq<char>| (x, count_in(events, x)))) == total(
            kept.take(n).map_values(|x: Seq<char>| (x, count_in(events.drop_last(), x))),
        ) + if kept.take(n).contains(events.last().action@) {
            1nat
        } else {
            0nat
        },
    decreases n,
{
    let a = events.last().action@;
    let f = |x: Seq<char>| (x, count_in(events, x));
    let g = |x: Seq<char>| (x, count_in(events.drop_last(), x));
    if n == 0 {
        assert(kept.take(0).map_values(f) =~= Seq::<(Seq<char>, nat)>::empty());
        assert(kept.take(0).map_values(g) =~= Seq::<(Seq<char>, nat)>::empty());
    } else {
        lemma_total_counts_prefix(events, kept, n - 1);
        let x = kept[n - 1];
        assert(kept.take(n) =~= kept.take(n - 1).push(x));
        assert(kept.take(n).map_values(f) =~= kept.take(n - 1).map_values(f).push(f(x)));
        assert(kept.take(n).map_values(g) =~= kept.take(n - 1).map_values(g).push(g(x)));
        lemma_total_push(kept.take(n - 1).map_values(f), f(x));
        lemma_total_push(kept.take(n - 1).map_values(g), g(x));
        if x == a {
            assert(kept.take(n).contains(a));
            assert(!kept.take(n - 1).contains(a)) by {
                if kept.take(n - 1).contains(a) {
                    let j = choose|j: int| 0 <= j < n - 1 && #[trigger] kept.take(n - 1)[j] == a;
                    assert(kept[j] == kept[n - 1]);
                    lemma_dedup_unique(event_actions(events.drop_last()), j, n - 1);
                }
            }
        } else {
            assert(kept.take(n).contains(a) == kept.take(n - 1).contains(a)) by {
                if kept.take(n).contains(a) {
                    let j = choose|j: int| 0 <= j < n && #[trigger] kept.take(n)[j] == a;
                    assert(j != n - 1);
                    assert(kept.take(n - 1)[j] == a);
                }
                if kept.take(n - 1).contains(a) {
                    let j = choose|j: int| 0 <= j < n - 1 && #[trigger] kept.take(n - 1)[j] == a;
                    assert(kept.take(n)[j] == a);
                }
            }
        }
    }
}


/// A pattern `p*` excludes exactly the actions that begin with `p`: every
/// action that begins with `p` and no other.
pub proof fn lemma_wildcard_is_prefix(p: Seq<char>, action: Seq<char>)
    ensures
        spec_excluded(p.push('*'), p + action),
        spec_excluded(p.push('*'), action) ==> p.len() <= action.len() && action.take(p.len() as int)
            == p,
{
    assert(p.push('*').drop_last() =~= p);
    assert((p + action).subrange(0, p.len() as int) =~= p);
    assert(action.take(p.len() as int) =~= action.subrange(0, p.len() as int));
}

/// A pattern without a trailing `*` excludes only the action of its own name.
pub proof fn lemma_plain_pattern_is_name(pattern: Seq<char>, action: Seq<char>)
    requires
        pattern.len() == 0 || pattern.last() != '*',
    ensures
        spec_excluded(pattern, action) == (pattern == action),
{
}

/// The decimal text of `n` is its base-ten numeral: digits only, whose value
/// read back is `n`, with no leading zero.
pub proof fn lemma_decimal_reads_back(n: nat)
    ensures
        all_digits(decimal(n)),
        digits_value(decimal(n)) == n,
        decimal(n).len() >= 1,
        n > 0 ==> decimal(n)[0] != '0',
        n == 0 ==> decimal(n) == seq!['0'],
    decreases n,
{
    let d = n % 10;
    assert(is_digit(digit_char(d)) && digit_char(d) as int - '0' as int == d);
    if n < 10 {
        let s = seq![digit_char(n)];
        assert(s.drop_last() =~= Seq::<char>::empty());
        assert(digits_value(s.drop_last()) == 0);
    } else {
        lemma_decimal_reads_back(n / 10);
        let s = decimal(n / 10).push(digit_char(d));
        assert(s.drop_last() =~= decimal(n / 10));
        assert(s[0] == decimal(n / 10)[0]);
        assert forall|i: int| 0 <= i < s.len() implies is_digit(#[trigger] s[i]) by {
            if i < s.len() - 1 {
                assert(s[i] == decimal(n / 10)[i]);
            }
        }
    }
}

} // verus!
