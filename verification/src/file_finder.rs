//! The file finder's settings and its walk through ignored directories that
//! worktrees have not loaded.
use vstd::prelude::*;

use crate::text::{chars_of, push_all, string_from_chars};

verus! {

/// The most files one walk collects, so that a huge ignored tree cannot
/// exhaust memory.
pub const MAX_WALKED_FILES: usize = 200_000;

/// `file_finder.include_ignored` as written in the settings file.
#[derive(Clone, Copy, Debug, PartialEq, Eq)]
pub enum IncludeIgnoredContent {
    All,
    Indexed,
    Smart,
    Zall,
}

/// `file_finder.modal_max_width` as written in the settings file.
#[derive(Clone, Copy, Debug, PartialEq, Eq)]
pub enum ModalWidthContent {
    Small,
    Medium,
    Large,
    XLarge,
    Full,
}

/// The `file_finder` section of the settings, with every key resolved from
/// the defaults.
pub struct FileFinderContent {
    pub file_icons: Option<bool>,
    pub modal_max_width: Option<ModalWidthContent>,
    pub skip_focus_for_active_in_search: Option<bool>,
    pub include_ignored: Option<IncludeIgnoredContent>,
    pub include_channels: Option<bool>,
    pub exclusions: Option<Vec<String>>,
}

/// The file finder settings.
pub struct FileFinderSettings {
    pub file_icons: bool,
    pub modal_max_width: ModalWidthContent,
    pub skip_focus_for_active_in_search: bool,
    pub include_ignored: Option<bool>,
    /// Whether including ignored files also walks directories the worktree
    /// has not loaded.
    pub walk_unloaded_ignored: bool,
    pub include_channels: bool,
    /// Globs of paths that the finder leaves out.
    pub exclusions: Vec<String>,
}

/// `include_ignored`: always for `all` and `zall`, never for `indexed`,
/// decided per search for `smart`.
pub open spec fn spec_include_ignored(content: IncludeIgnoredContent) -> Option<bool> {
    match content {
        IncludeIgnoredContent::All | IncludeIgnoredContent::Zall => Some(true),
        IncludeIgnoredContent::Indexed => Some(false),
        IncludeIgnoredContent::Smart => None,
    }
}

/// The settings' value of `include_ignored`, and whether unloaded ignored
/// directories are walked: only for `zall`.
pub fn include_ignored_setting(content: IncludeIgnoredContent) -> (r: (Option<bool>, bool))
    ensures
        r.0 == spec_include_ignored(content),
        r.1 == (content == IncludeIgnoredContent::Zall),
{
    match content {
        IncludeIgnoredContent::All => (Some(true), false),
        IncludeIgnoredContent::Zall => (Some(true), true),
        IncludeIgnoredContent::Indexed => (Some(false), false),
        IncludeIgnoredContent::Smart => (None, false),
    }
}

impl FileFinderSettings {
    /// The settings from the resolved `file_finder` section. Exclusions
    /// default to none; `exclusions_parse` tells whether the path matcher
    /// accepts every exclusion glob, and when it does not, the settings hold
    /// no exclusions at all.
    pub fn from_settings(content: &FileFinderContent, exclusions_parse: bool) -> (r: FileFinderSettings)
        requires
            content.file_icons is Some,
            content.modal_max_width is Some,
            content.skip_focus_for_active_in_search is Some,
            content.include_ignored is Some,
            content.include_channels is Some,
        ensures
            r.file_icons == content.file_icons->0,
            r.modal_max_width == content.modal_max_width->0,
            r.skip_focus_for_active_in_search == content.skip_focus_for_active_in_search->0,
            r.include_ignored == spec_include_ignored(content.include_ignored->0),
            r.walk_unloaded_ignored == (content.include_ignored->0 == IncludeIgnoredContent::Zall),
            r.include_channels == content.include_channels->0,
            r.exclusions@.len() == match &content.exclusions {
                Some(globs) => if exclusions_parse {
                    globs@.len()
                } else {
                    0
                },
                None => 0,
            },
            forall|i: int|
                0 <= i < r.exclusions@.len() ==> #[trigger] r.exclusions@[i]@
                    == content.exclusions->0@[i]@,
    {
        let (include_ignored, walk_unloaded_ignored) = include_ignored_setting(
            content.include_ignored.unwrap(),
        );
        let mut exclusions: Vec<String> = Vec::new();
        match &content.exclusions {
            Some(globs) => if exclusions_parse {
                let mut i: usize = 0;
                while i < globs.len()
                    invariant
                        i <= globs.len(),
                        exclusions@.len() == i,
                        forall|j: int|
                            0 <= j < i ==> #[trigger] exclusions@[j]@ == globs@[j]@,
                    decreases globs.len() - i,
                {
                    exclusions.push(globs[i].clone());
                    i += 1;
                }
            },
            None => {},
        }
        FileFinderSettings {
            file_icons: content.file_icons.unwrap(),
            modal_max_width: content.modal_max_width.unwrap(),
            skip_focus_for_active_in_search: content.skip_focus_for_active_in_search.unwrap(),
            include_ignored,
            walk_unloaded_ignored,
            include_channels: content.include_channels.unwrap(),
            exclusions,
        }
    }
}

/// What the walk learned of a directory entry.
#[derive(Clone, Copy, Debug, PartialEq, Eq)]
pub enum EntryKind {
    /// A directory, possibly reached through a symbolic link.
    Directory { symlink: bool },
    File,
}

/// The path of the entry `name` in the directory `dir`, relative to the
/// worktree root.
pub open spec fn child_path(dir: Seq<char>, name: Seq<char>) -> Seq<char> {
    if dir.len() == 0 {
        name
    } else {
        dir + seq!['/'] + name
    }
}

/// The walk through unloaded ignored directories of the worktrees: the
/// directories left to read, the files found so far, and how many more
/// files the walk may collect.
pub struct IgnoredWalk {
    pub pending_dirs: Vec<String>,
    pub files: Vec<String>,
    pub remaining: usize,
}

impl IgnoredWalk {
    /// `self` is `old` after taking in the entry at `path`: unchanged for an
    /// excluded entry, an entry of unknown kind or a symbolic link to a
    /// directory; with `path` pushed on the directories to read for another
    /// directory; with `path` collected and the budget one lower for a file.
    pub open spec fn visited(
        &self,
        old: &IgnoredWalk,
        path: Seq<char>,
        excluded: bool,
        kind: Option<EntryKind>,
    ) -> bool {
        if excluded || kind is None || kind == Some(EntryKind::Directory { symlink: true }) {
            &&& self.pending_dirs@ == old.pending_dirs@
            &&& self.files@ == old.files@
            &&& self.remaining == old.remaining
        } else if kind == Some(EntryKind::Directory { symlink: false }) {
            &&& self.pending_dirs@.len() == old.pending_dirs@.len() + 1
            &&& self.pending_dirs@.drop_last() == old.pending_dirs@
            &&& self.pending_dirs@.last()@ == path
            &&& self.files@ == old.files@
            &&& self.remaining == old.remaining
        } else {
            &&& self.files@.len() == old.files@.len() + 1
            &&& self.files@.drop_last() == old.files@
            &&& self.files@.last()@ == path
            &&& self.pending_dirs@ == old.pending_dirs@
            &&& self.remaining == old.remaining - 1
        }
    }

    /// A walk with the whole budget left, from the given unloaded
    /// directories.
    pub fn new(unloaded_dirs: Vec<String>) -> (r: IgnoredWalk)
        ensures
            r.pending_dirs@ == unloaded_dirs@,
            r.files@.len() == 0,
            r.remaining == MAX_WALKED_FILES,
    {
        IgnoredWalk { pending_dirs: unloaded_dirs, files: Vec::new(), remaining: MAX_WALKED_FILES }
    }

    /// The walk has collected as many files as it may.
    pub fn is_done(&self) -> (r: bool)
        ensures
            r == (self.remaining == 0),
    {
        self.remaining == 0
    }

    /// Starts the walk of another worktree from its unloaded directories,
    /// with the files and budget of the walk so far.
    pub fn next_worktree(&mut self, unloaded_dirs: Vec<String>) -> (found: Vec<String>)
        ensures
            final(self).pending_dirs@ == unloaded_dirs@,
            final(self).files@.len() == 0,
            final(self).remaining == old(self).remaining,
            found@ == old(self).files@,
    {
        self.pending_dirs = unloaded_dirs;
        let mut found: Vec<String> = Vec::new();
        std::mem::swap(&mut found, &mut self.files);
        found
    }

    /// The next directory to read, last pushed first.
    pub fn next_dir(&mut self) -> (r: Option<String>)
        ensures
            old(self).pending_dirs@.len() == 0 ==> r is None && final(self).pending_dirs@
                == old(self).pending_dirs@,
            old(self).pending_dirs@.len() > 0 ==> r == Some(old(self).pending_dirs@.last())
                && final(self).pending_dirs@ == old(self).pending_dirs@.drop_last(),
            final(self).files@ == old(self).files@,
            final(self).remaining == old(self).remaining,
    {
        self.pending_dirs.pop()
    }

    /// Takes in the entry `name` of the directory `dir`. An excluded entry,
    /// or one whose kind is unknown, is skipped; a directory is walked
    /// later unless it is reached through a symbolic link, which could form
    /// a cycle; a file is collected and spends one unit of the budget.
    /// Gives whether the budget is spent, which ends the walk.
    pub fn visit(&mut self, dir: &str, name: &str, excluded: bool, kind: Option<EntryKind>) -> (done: bool)
        requires
            old(self).remaining > 0,
        ensures
            done == (final(self).remaining == 0),
            final(self).visited(old(self), child_path(dir@, name@), excluded, kind),
    {
        if excluded {
            return false;
        }
        match kind {
            Some(EntryKind::Directory { symlink }) => {
                if !symlink {
                    let path = join_path(dir, name);
                    self.pending_dirs.push(path);
                    assert(self.pending_dirs@.drop_last() =~= old(self).pending_dirs@);
                }
                assert(self.visited(old(self), child_path(dir@, name@), excluded, kind));
                false
            },
            Some(EntryKind::File) => {
                let path = join_path(dir, name);
                self.files.push(path);
                self.remaining -= 1;
                assert(self.files@.drop_last() =~= old(self).files@);
                assert(self.visited(old(self), child_path(dir@, name@), excluded, kind));
                self.remaining == 0
            },
            None => false,
        }
    }
}

/// Taking in an entry never changes the sum of the files collected and the
/// budget left, so a walk collects at most its budget of files.
pub proof fn lemma_visit_keeps_budget(
    new: IgnoredWalk,
    old: IgnoredWalk,
    path: Seq<char>,
    excluded: bool,
    kind: Option<EntryKind>,
)
    requires
        new.visited(&old, path, excluded, kind),
    ensures
        new.files@.len() + new.remaining == old.files@.len() + old.remaining,
{
}

/// An entry of a worktree's snapshot, as the walk sees it.
pub struct SnapshotEntry {
    pub path: String,
    /// A directory that the worktree has not loaded.
    pub unloaded_dir: bool,
    /// The finder's exclusions cover the entry or one of its ancestors.
    pub excluded: bool,
}

/// The paths of the unloaded directories among `entries` that no exclusion
/// covers, in their order.
pub open spec fn unloaded_paths(entries: Seq<SnapshotEntry>) -> Seq<Seq<char>>
    decreases entries.len(),
{
    if entries.len() == 0 {
        seq![]
    } else {
        let rest = unloaded_paths(entries.drop_last());
        let e = entries.last();
        if e.unloaded_dir && !e.excluded {
            rest.push(e.path@)
        } else {
            rest
        }
    }
}

/// The directories a walk of a worktree starts from: the unloaded
/// directories that no exclusion covers. A single-file or remote worktree
/// is not walked, nor one with no such directory (`None`).
pub fn walk_roots(is_single_file: bool, is_local: bool, entries: &Vec<SnapshotEntry>) -> (r: Option<
    Vec<String>,
>)
    ensures
        is_single_file || !is_local ==> r is None,
        !is_single_file && is_local ==> match r {
            None => unloaded_paths(entries@).len() == 0,
            Some(dirs) => dirs@.len() > 0 && dirs@.len() == unloaded_paths(entries@).len()
                && forall|i: int| 0 <= i < dirs@.len() ==> #[trigger] dirs@[i]@ == unloaded_paths(entries@)[i],
        },
{
    if is_single_file || !is_local {
        return None;
    }
    let mut dirs: Vec<String> = Vec::new();
    let mut i: usize = 0;
    while i < entries.len()
        invariant
            i <= entries@.len(),
            dirs@.len() == unloaded_paths(entries@.take(i as int)).len(),
            forall|k: int| 0 <= k < dirs@.len() ==> #[trigger] dirs@[k]@ == unloaded_paths(entries@.take(i as int))[k],
        decreases entries@.len() - i,
    {
        assert(entries@.take(i + 1).drop_last() =~= entries@.take(i as int));
        if entries[i].unloaded_dir && !entries[i].excluded {
            dirs.push(entries[i].path.clone());
        }
        i += 1;
    }
    assert(entries@.take(entries@.len() as int) =~= entries@);
    if dirs.len() == 0 {
        None
    } else {
        Some(dirs)
    }
}

/// The files a walk found in one worktree, offered to the finder as match
/// candidates.
pub struct UnloadedIgnoredFiles {
    pub worktree_id: usize,
    pub files: Vec<String>,
}

impl UnloadedIgnoredFiles {
    /// The candidates from index `start` on; none when `start` is past the
    /// end.
    pub fn candidates(&self, start: usize) -> (r: Vec<String>)
        ensures
            start <= self.files@.len() ==> r@.len() == self.files@.len() - start,
            start > self.files@.len() ==> r@.len() == 0,
            forall|i: int| 0 <= i < r@.len() ==> #[trigger] r@[i]@ == self.files@[start + i]@,
    {
        let mut r: Vec<String> = Vec::new();
        if start > self.files.len() {
            return r;
        }
        let mut k: usize = start;
        while k < self.files.len()
            invariant
                start <= k <= self.files@.len(),
                r@.len() == k - start,
                forall|i: int| 0 <= i < r@.len() ==> #[trigger] r@[i]@ == self.files@[start + i]@,
            decreases self.files@.len() - k,
        {
            r.push(self.files[k].clone());
            k += 1;
        }
        r
    }
}

/// The relative path of `name` in `dir`.
pub fn join_path(dir: &str, name: &str) -> (r: String)
    ensures
        r@ == child_path(dir@, name@),
{
    let mut out = chars_of(dir);
    if out.len() > 0 {
        out.push('/');
    }
    let tail = chars_of(name);
    push_all(&mut out, &tail);
    string_from_chars(&out)
}

} // verus!
