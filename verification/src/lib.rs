pub mod calculation;
pub mod calculation_laws;
pub mod comma_law;
pub mod command_history;
pub mod file_finder;
pub mod line_sort;
pub mod order;
pub mod personal_actions;
pub mod selection_tools;
pub mod split_join;
pub mod unique_lines_law;
pub mod text;
pub mod workspace_color;

pub use calculation::{calculate, exponent, group, precise_text, round_decimal, Number};
pub use command_history::{
    excluded, sort_events, summary, Config, Event, RecorderAction, RecorderInput, RecorderState,
    WriteFailures,
};
pub use file_finder::{
    include_ignored_setting, walk_roots, EntryKind, FileFinderContent, FileFinderSettings, IgnoredWalk,
    IncludeIgnoredContent, ModalWidthContent, SnapshotEntry, UnloadedIgnoredFiles,
};
pub use personal_actions::{ClipboardEntry, Editor, PersonalError, Project, Selection, Worktree};
pub use selection_tools::{code_block, unique_lines};
pub use workspace_color::workspace_hue_step;
