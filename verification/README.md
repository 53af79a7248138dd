# myhack

Personal editor actions and their helpers, written in Verus with their
behaviour stated in `requires` / `ensures` contracts and proved.

- `src/selection_tools.rs`: removing repeated lines, finding the fenced code
  block around a row.
- `src/calculation.rs`: the calculator for selected arithmetic: its parser,
  rounding to the expression's precision and grouping by thousands. It
  evaluates in any type that implements `Number`.
- `src/calculation_laws.rs`: that blanks, or parentheses, around an
  expression leave what it calculates unchanged, and that the texts of a
  value for an expression without commas are its grouped texts without
  their commas.
- `src/comma_law.rs`: that removing the thousands separators of an
  expression removes them from what it calculates.
- `src/personal_actions.rs`, `src/line_sort.rs`: the editor actions on a model
  of an editor (its text, selections, file and project): calculating,
  deduplicating and sorting selected lines, inserting a `file://` link from the
  clipboard, copying a code block, choosing the directory to open in Tilix.
- `src/command_history.rs`: which dispatched actions the command history
  records, what its recorder thread does with each message, the order of
  events and the Markdown summary.
- `src/file_finder.rs`: the file finder's settings and its bounded walk through
  ignored directories that worktrees have not loaded.
- `src/workspace_color.rs`: the stable FNV-1a hue of a workspace.
- `src/text.rs`, `src/order.rs`: text helpers and a stable insertion sort.
- `src/split_join.rs`, `src/unique_lines_law.rs`: how splitting at a line
  ending and joining with it undo each other, and that removing repeated
  lines twice is removing them once.

`app/` holds what Verus does not see: files, the clock, threads, starting
Tilix, JSON, and the `f64` number type of the calculator.
