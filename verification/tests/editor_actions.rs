use myhack::{ClipboardEntry, Editor, Number, PersonalError, Project, Selection, Worktree};

struct Double(f64);

impl Number for Double {
    fn parse_decimal(text: &str) -> Option<Self> {
        text.parse().ok().map(Double)
    }
    fn add(&self, other: &Self) -> Self {
        Double(self.0 + other.0)
    }
    fn sub(&self, other: &Self) -> Self {
        Double(self.0 - other.0)
    }
    fn mul(&self, other: &Self) -> Self {
        Double(self.0 * other.0)
    }
    fn div(&self, other: &Self) -> Self {
        Double(self.0 / other.0)
    }
    fn neg(&self) -> Self {
        Double(-self.0)
    }
    fn pow(&self, exponent: &Self) -> Self {
        Double(self.0.powf(exponent.0))
    }
    fn is_zero(&self) -> bool {
        self.0 == 0.0
    }
    fn is_finite(&self) -> bool {
        self.0.is_finite()
    }
    fn is_negative(&self) -> bool {
        self.0 < 0.0
    }
    fn needs_scientific(&self) -> bool {
        self.0.abs() >= 1e21 || self.0.abs() < 1e-6
    }
    fn to_decimal(&self) -> String {
        self.0.to_string()
    }
    fn to_scientific(&self) -> String {
        format!("{:e}", self.0)
    }
}

fn sel(start: usize, end: usize) -> Selection {
    Selection { start, end, reversed: false }
}

fn editor(text: &str, selections: Vec<Selection>) -> Editor {
    Editor {
        text: text.chars().collect(),
        selections,
        newest: 0,
        read_only: false,
        singleton: true,
        local_file: None,
        project: None,
    }
}

fn text_of(editor: &Editor) -> String {
    editor.text.iter().collect()
}

#[test]
fn calculate_selection_replaces_each_selection() {
    let mut e = editor("1+2 and 7/2", vec![sel(0, 3), sel(8, 11)]);
    assert_eq!(e.calculate_selection::<Double>(), Ok(()));
    assert_eq!(text_of(&e), "3.00 and 3.50");
    assert_eq!(e.selections, vec![sel(4, 4), sel(13, 13)]);
}

#[test]
fn precise_calculation_uses_the_exact_text() {
    let mut e = editor("x=1+2/3", vec![sel(2, 7)]);
    assert_eq!(e.precise_calculation::<Double>(), Ok(()));
    assert_eq!(text_of(&e), "x=1.6666666666666665");
}

#[test]
fn invalid_selection_leaves_the_buffer_untouched() {
    let mut e = editor("1+2 oops", vec![sel(0, 3), sel(4, 8)]);
    assert_eq!(e.calculate_selection::<Double>(), Err(PersonalError::InvalidSelection));
    assert_eq!(text_of(&e), "1+2 oops");
    assert_eq!(e.selections, vec![sel(0, 3), sel(4, 8)]);
    let mut empty = editor("1+2", vec![sel(1, 1)]);
    assert_eq!(empty.uniq_selection(), Err(PersonalError::InvalidSelection));
    assert_eq!(text_of(&empty), "1+2");
}

#[test]
fn unchanged_selection_keeps_its_range() {
    let mut e = editor("a\nb\na|c\nd", vec![sel(0, 5), sel(6, 9)]);
    assert_eq!(e.uniq_selection(), Ok(()));
    assert_eq!(text_of(&e), "a\nb|c\nd");
    assert_eq!(e.selections, vec![sel(3, 3), sel(4, 7)]);
    let mut same = editor("a\nb", vec![sel(0, 3)]);
    assert_eq!(same.uniq_selection(), Ok(()));
    assert_eq!(text_of(&same), "a\nb");
    assert_eq!(same.selections, vec![sel(0, 3)]);
}

#[test]
fn read_only_editor_is_not_changed() {
    let mut e = editor("1+2", vec![sel(0, 3)]);
    e.read_only = true;
    assert_eq!(e.calculate_selection::<Double>(), Ok(()));
    assert_eq!(e.insert_clipboard_file_uri(&vec![ClipboardEntry::Text("x".to_string())]), Ok(()));
    assert_eq!(text_of(&e), "1+2");
}

#[test]
fn inserts_clipboard_text_as_file_uri() {
    let mut e = editor("see  and ", vec![sel(4, 4), sel(9, 9)]);
    let clipboard = vec![ClipboardEntry::Other, ClipboardEntry::Text("/tmp/a b".to_string())];
    assert_eq!(e.insert_clipboard_file_uri(&clipboard), Ok(()));
    assert_eq!(text_of(&e), "see file:///tmp/a b and file:///tmp/a b");
    assert_eq!(e.selections, vec![sel(19, 19), sel(39, 39)]);
    let mut none = editor("x", vec![sel(0, 1)]);
    assert_eq!(
        none.insert_clipboard_file_uri(&vec![ClipboardEntry::Other]),
        Err(PersonalError::NoClipboardText)
    );
    assert_eq!(text_of(&none), "x");
}

#[test]
fn copies_the_code_block_around_the_cursor() {
    let text = "intro\n```sh\necho hi\n```\noutro";
    let e = editor(text, vec![sel(14, 14)]);
    assert_eq!(e.copy_current_code_block(), Ok("echo hi".to_string()));
    let outside = editor(text, vec![sel(1, 1)]);
    assert_eq!(outside.copy_current_code_block(), Err(PersonalError::NotInCodeBlock));
    let mut multi = editor(text, vec![sel(14, 14)]);
    multi.singleton = false;
    assert_eq!(multi.copy_current_code_block(), Err(PersonalError::NotSingleFile));
}

#[test]
fn tilix_directory_prefers_the_local_file() {
    let mut e = editor("", vec![sel(0, 0)]);
    e.local_file = Some("/home/u/src/main.rs".to_string());
    e.project = Some(Project {
        is_local: true,
        visible_worktrees: vec![Worktree { abs_path: "/home/u".to_string(), is_single_file: false }],
    });
    assert_eq!(e.tilix_directory(), Some("/home/u/src".to_string()));
    e.local_file = None;
    assert_eq!(e.tilix_directory(), Some("/home/u".to_string()));
    assert_eq!(e.open_directory_in_tilix(), Ok("/home/u".to_string()));
}

#[test]
fn tilix_directory_for_single_file_and_remote_projects() {
    let single = Project {
        is_local: true,
        visible_worktrees: vec![Worktree { abs_path: "/etc/hosts".to_string(), is_single_file: true }],
    };
    assert_eq!(Editor::tilix_directory_for_project(&single), Some("/etc".to_string()));
    let remote = Project {
        is_local: false,
        visible_worktrees: vec![Worktree { abs_path: "/srv".to_string(), is_single_file: false }],
    };
    assert_eq!(Editor::tilix_directory_for_project(&remote), None);
    let mut e = editor("", vec![sel(0, 0)]);
    e.local_file = Some("/srv/file.txt".to_string());
    e.project = Some(remote);
    assert_eq!(e.tilix_directory(), None);
    assert_eq!(e.open_directory_in_tilix(), Err(PersonalError::NoLocalDirectory));
    let mut alone = editor("", vec![sel(0, 0)]);
    alone.local_file = Some("/srv/file.txt".to_string());
    assert_eq!(alone.tilix_directory(), Some("/srv".to_string()));
}

#[test]
fn error_messages() {
    assert_eq!(PersonalError::InvalidSelection.message(), "Select valid text in every selection.");
    assert_eq!(PersonalError::NoClipboardText.message(), "The clipboard does not contain text.");
    assert_eq!(
        PersonalError::NotSingleFile.message(),
        "Code blocks can only be copied from a single-file editor."
    );
    assert_eq!(
        PersonalError::NotInCodeBlock.message(),
        "The cursor is not inside a closed code block."
    );
    assert_eq!(PersonalError::NoLocalDirectory.message(), "No local directory is open.");
}

#[test]
fn sorts_touching_rows_together_in_descending_order() {
    let mut e = editor("a\nb\nc\nx\ny", vec![sel(0, 3), sel(4, 4), sel(8, 9)]);
    e.newest = 1;
    e.sort_lines_descending();
    assert_eq!(text_of(&e), "c\nb\na\nx\ny");
    assert_eq!(e.selections, vec![sel(0, 5), sel(8, 9)]);
    assert_eq!(e.newest, 0);
}

#[test]
fn sort_skips_the_row_a_selection_ends_at_the_start_of() {
    let mut e = editor("a\nb\nd\nc", vec![Selection { start: 0, end: 4, reversed: true }]);
    e.sort_lines_descending();
    assert_eq!(text_of(&e), "b\na\nd\nc");
    assert_eq!(e.selections, vec![Selection { start: 0, end: 3, reversed: true }]);
    let mut locked = editor("a\nb", vec![sel(0, 3)]);
    locked.read_only = true;
    locked.sort_lines_descending();
    assert_eq!(text_of(&locked), "a\nb");
    assert_eq!(locked.selections, vec![sel(0, 3)]);
}
