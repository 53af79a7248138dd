use myhack::{
    include_ignored_setting, walk_roots, EntryKind, FileFinderContent, FileFinderSettings, IgnoredWalk,
    IncludeIgnoredContent, ModalWidthContent, SnapshotEntry, UnloadedIgnoredFiles,
};

#[test]
fn include_ignored_values() {
    assert_eq!(include_ignored_setting(IncludeIgnoredContent::All), (Some(true), false));
    assert_eq!(include_ignored_setting(IncludeIgnoredContent::Zall), (Some(true), true));
    assert_eq!(include_ignored_setting(IncludeIgnoredContent::Indexed), (Some(false), false));
    assert_eq!(include_ignored_setting(IncludeIgnoredContent::Smart), (None, false));
}

#[test]
fn settings_from_content() {
    let content = FileFinderContent {
        file_icons: Some(true),
        modal_max_width: Some(ModalWidthContent::Small),
        skip_focus_for_active_in_search: Some(false),
        include_ignored: Some(IncludeIgnoredContent::Zall),
        include_channels: Some(true),
        exclusions: Some(vec!["**/target".to_string()]),
    };
    let settings = FileFinderSettings::from_settings(&content, true);
    assert!(settings.file_icons);
    assert_eq!(settings.modal_max_width, ModalWidthContent::Small);
    assert!(!settings.skip_focus_for_active_in_search);
    assert_eq!(settings.include_ignored, Some(true));
    assert!(settings.walk_unloaded_ignored);
    assert!(settings.include_channels);
    assert_eq!(settings.exclusions, vec!["**/target".to_string()]);
    let unparsable = FileFinderSettings::from_settings(&content, false);
    assert!(unparsable.exclusions.is_empty());
    assert!(unparsable.walk_unloaded_ignored);
}

#[test]
fn walk_collects_files_and_queues_directories() {
    let mut walk = IgnoredWalk::new(vec!["target".to_string()]);
    assert_eq!(walk.next_dir(), Some("target".to_string()));
    assert!(!walk.visit("target", "debug", false, Some(EntryKind::Directory { symlink: false })));
    assert!(!walk.visit("target", "link", false, Some(EntryKind::Directory { symlink: true })));
    assert!(!walk.visit("target", "skip.o", true, Some(EntryKind::File)));
    assert!(!walk.visit("target", "gone", false, None));
    assert!(!walk.visit("target", "a.o", false, Some(EntryKind::File)));
    assert_eq!(walk.pending_dirs, vec!["target/debug".to_string()]);
    assert_eq!(walk.files, vec!["target/a.o".to_string()]);
    assert_eq!(walk.remaining, 199_999);
    assert_eq!(walk.next_dir(), Some("target/debug".to_string()));
    assert_eq!(walk.next_dir(), None);
    let found = walk.next_worktree(vec![String::new()]);
    assert_eq!(found, vec!["target/a.o".to_string()]);
    assert!(!walk.visit("", "top", false, Some(EntryKind::File)));
    assert_eq!(walk.files, vec!["top".to_string()]);
}

#[test]
fn walk_stops_when_the_budget_is_spent() {
    let mut walk = IgnoredWalk::new(Vec::new());
    walk.remaining = 2;
    assert!(!walk.visit("d", "1", false, Some(EntryKind::File)));
    assert!(walk.visit("d", "2", false, Some(EntryKind::File)));
    assert!(walk.is_done());
}

fn entry(path: &str, unloaded_dir: bool, excluded: bool) -> SnapshotEntry {
    SnapshotEntry { path: path.to_string(), unloaded_dir, excluded }
}

#[test]
fn walk_roots_are_the_unloaded_directories_not_excluded() {
    let entries = vec![
        entry("src", false, false),
        entry("target", true, false),
        entry("node_modules", true, true),
        entry(".cache", true, false),
    ];
    assert_eq!(
        walk_roots(false, true, &entries),
        Some(vec!["target".to_string(), ".cache".to_string()])
    );
    assert_eq!(walk_roots(true, true, &entries), None);
    assert_eq!(walk_roots(false, false, &entries), None);
    assert_eq!(walk_roots(false, true, &vec![entry("src", false, false)]), None);
}

#[test]
fn candidates_start_at_the_given_index() {
    let found = UnloadedIgnoredFiles {
        worktree_id: 3,
        files: vec!["a".to_string(), "b".to_string(), "c".to_string()],
    };
    assert_eq!(found.candidates(1), vec!["b".to_string(), "c".to_string()]);
    assert_eq!(found.candidates(3), Vec::<String>::new());
    assert_eq!(found.candidates(7), Vec::<String>::new());
}
