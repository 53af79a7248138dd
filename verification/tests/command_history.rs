use myhack::{
    excluded, sort_events, summary, Config, Event, RecorderAction, RecorderInput, RecorderState,
    WriteFailures,
};

fn event(timestamp: &str, action: &str) -> Event {
    Event { timestamp: timestamp.to_string(), action: action.to_string() }
}

#[test]
fn exclusion_patterns() {
    assert!(excluded("vim::*", "vim::Yank"));
    assert!(excluded("*", "anything"));
    assert!(!excluded("vim::*", "editor::Undo"));
    assert!(excluded("editor::HandleInput", "editor::HandleInput"));
    assert!(!excluded("editor::HandleInput", "editor::HandleInputX"));
}

#[test]
fn config_records_unless_excluded() {
    let config = Config {
        enabled: true,
        excluded_actions: vec!["vim::*".to_string(), "editor::HandleInput".to_string()],
    };
    assert!(config.records("editor::Undo"));
    assert!(!config.records("vim::Yank"));
    assert!(!config.records("editor::HandleInput"));
    assert!(config.records("editor::HandleInputX"));
    let disabled = Config { enabled: false, excluded_actions: Vec::new() };
    assert!(!disabled.records("editor::Undo"));
    let default = Config::default();
    assert!(default.enabled);
    assert!(default.excluded_actions.is_empty());
}

#[test]
fn write_failure_is_reported_once() {
    let mut failures = WriteFailures::new();
    assert!(failures.failed());
    assert!(!failures.failed());
    assert!(!failures.failed());
}

#[test]
fn events_sort_by_timestamp_stably() {
    let mut events = vec![
        event("2026-09-13T00:00:02.000Z", "b"),
        event("2026-09-13T00:00:01.000Z", "a"),
        event("2026-09-13T00:00:02.000Z", "c"),
    ];
    sort_events(&mut events);
    let actions: Vec<&str> = events.iter().map(|e| e.action.as_str()).collect();
    assert_eq!(actions, ["a", "b", "c"]);
}

#[test]
fn summary_counts_and_latest() {
    let events = vec![
        event("2026-09-13T00:00:00.000Z", "myhack0::InsertDate"),
        event("2026-09-13T00:00:01.000Z", "editor::Undo"),
        event("2026-09-13T00:00:02.000Z", "myhack0::InsertDate"),
    ];
    let text = summary(&events);
    assert!(text.contains("| 2 | `myhack0::InsertDate` |"));
    assert_eq!(
        text,
        "# Command history\n\n3 dispatches. Arguments and document contents are not recorded.\n\n\
         | Count | Action |\n|---:|---|\n\
         | 2 | `myhack0::InsertDate` |\n\
         | 1 | `editor::Undo` |\n\
         \n## Latest 200 dispatches\n\n\
         - 2026-09-13T00:00:02.000Z `myhack0::InsertDate`\n\
         - 2026-09-13T00:00:01.000Z `editor::Undo`\n\
         - 2026-09-13T00:00:00.000Z `myhack0::InsertDate`\n"
    );
}

#[test]
fn summary_orders_ties_by_name_and_keeps_latest_200() {
    let mut events = Vec::new();
    for i in 0..250 {
        events.push(event(&format!("t{i:03}"), if i % 2 == 0 { "b::B" } else { "a::A" }));
    }
    let text = summary(&events);
    let table = text.find("| 125 | `a::A` |").unwrap();
    assert!(table < text.find("| 125 | `b::B` |").unwrap());
    assert_eq!(text.matches("\n- ").count(), 200);
    assert!(text.contains("- t249 `a::A`"));
    assert!(!text.contains("- t049 "));
}

#[test]
fn recorder_notifies_the_first_write_failure_only() {
    let mut state = RecorderState::new(true);
    assert_eq!(state.step(RecorderInput::Dispatch), RecorderAction::Write);
    assert_eq!(state.step(RecorderInput::WriteFailed), RecorderAction::Notify);
    assert_eq!(state.step(RecorderInput::Dispatch), RecorderAction::Write);
    assert_eq!(state.step(RecorderInput::WriteFailed), RecorderAction::Log);
    assert_eq!(state.step(RecorderInput::WriteFailed), RecorderAction::Log);
    assert_eq!(
        state.step(RecorderInput::Report { export: true }),
        RecorderAction::Report { export: true }
    );
    assert_eq!(state.step(RecorderInput::Flush), RecorderAction::Sync);
}

#[test]
fn disabled_recorder_writes_nothing() {
    let mut state = RecorderState::new(false);
    assert_eq!(state.step(RecorderInput::Dispatch), RecorderAction::Skip);
    assert_eq!(state.step(RecorderInput::Flush), RecorderAction::Done);
    assert_eq!(
        state.step(RecorderInput::Report { export: false }),
        RecorderAction::Report { export: false }
    );
}
