use codex_ble_bridge::model::{
    state_for_hook, state_for_tool, state_from_app_server, title_from_cwd, HookEvent, JsonField,
    TaskMetadata, TaskState, TaskStore, TaskView,
};

fn hook(session: Option<&str>, name: &str) -> HookEvent {
    HookEvent {
        session_id: session.map(str::to_string),
        hook_event_name: JsonField::Text(name.to_string()),
        event: JsonField::Absent,
        tool_name: None,
        cwd: None,
        tool_input: None,
    }
}

fn meta(id: &str, title: &str, cwd: Option<&str>, status: &str, updated_at: Option<u64>) -> TaskMetadata {
    TaskMetadata {
        id: id.to_string(),
        title: title.to_string(),
        cwd: cwd.map(str::to_string),
        status: status.to_string(),
        updated_at,
    }
}

fn summary(list: &[TaskView]) -> Vec<(String, TaskState)> {
    list.iter().map(|t| (t.id.clone(), t.state)).collect()
}

#[test]
fn hook_events_drive_visible_states() {
    let mut store = TaskStore::default();
    store.apply_hook(&HookEvent {
        session_id: Some("task-1".into()),
        hook_event_name: JsonField::Text("PreToolUse".into()),
        event: JsonField::Absent,
        tool_name: Some("apply_patch".into()),
        cwd: Some("/tmp/demo".into()),
        tool_input: None,
    });
    assert_eq!(store.snapshot()[0].state, TaskState::Editing);

    store.apply_hook(&hook(Some("task-1"), "PermissionRequest"));
    assert_eq!(store.snapshot()[0].state, TaskState::Waiting);
    assert!(store.snapshot()[0].attention);
}

#[test]
fn new_hook_task_is_titled_after_its_directory() {
    let mut store = TaskStore::default();
    let mut event = hook(Some("s"), "SessionStart");
    event.cwd = Some("/Users/me/project/".into());
    store.apply_hook_at(&event, 100);
    let list = store.snapshot_at(100);
    assert_eq!(list.len(), 1);
    assert_eq!(list[0].title, "project");
    assert_eq!(list[0].cwd.as_deref(), Some("/Users/me/project/"));
    assert_eq!(list[0].state, TaskState::Thinking);
    assert_eq!((list[0].started_at, list[0].updated_at), (100, 100));

    let mut other = hook(Some("t"), "SessionStart");
    other.cwd = Some("/".into());
    store.apply_hook_at(&other, 100);
    store.apply_hook_at(&hook(Some("u"), "SessionStart"), 100);
    let titles: Vec<_> = store.snapshot_at(100).into_iter().map(|t| (t.id, t.title)).collect();
    assert!(titles.contains(&("t".to_string(), "Codex task".to_string())));
    assert!(titles.contains(&("u".to_string(), "Codex task".to_string())));
}

#[test]
fn later_hooks_keep_title_start_and_directory() {
    let mut store = TaskStore::default();
    let mut first = hook(Some("s"), "SessionStart");
    first.cwd = Some("/tmp/demo".into());
    store.apply_hook_at(&first, 10);
    store.apply_hook_at(&hook(Some("s"), "PostToolUseFailure"), 15);
    let list = store.snapshot_at(15);
    assert_eq!(list[0].state, TaskState::Error);
    assert!(list[0].attention);
    assert_eq!(list[0].title, "demo");
    assert_eq!(list[0].cwd.as_deref(), Some("/tmp/demo"));
    assert_eq!((list[0].started_at, list[0].updated_at), (10, 15));
}

#[test]
fn hook_without_session_is_ignored() {
    let mut store = TaskStore::default();
    store.apply_hook_at(&hook(None, "PermissionRequest"), 1);
    assert!(store.snapshot_at(1).is_empty());
}

#[test]
fn event_field_is_used_when_hook_event_name_is_missing() {
    let mut store = TaskStore::default();
    let mut event = hook(Some("s"), "ignored");
    event.hook_event_name = JsonField::Absent;
    event.event = JsonField::Text("Stop".into());
    store.apply_hook_at(&event, 5);
    assert_eq!(store.snapshot_at(5)[0].state, TaskState::Done);

    let mut other = hook(Some("s"), "ignored");
    other.hook_event_name = JsonField::Other;
    other.event = JsonField::Text("Stop".into());
    store.apply_hook_at(&other, 6);
    assert_eq!(store.snapshot_at(6)[0].state, TaskState::Thinking);
}

#[test]
fn hook_names_map_to_states() {
    assert_eq!(state_for_hook("PermissionRequest", "", ""), (TaskState::Waiting, true));
    assert_eq!(state_for_hook("Stop", "", ""), (TaskState::Done, false));
    assert_eq!(state_for_hook("SessionEnd", "", ""), (TaskState::Done, false));
    assert_eq!(state_for_hook("PostToolUseFailure", "", ""), (TaskState::Error, true));
    assert_eq!(state_for_hook("PostToolUse", "", ""), (TaskState::Thinking, false));
    assert_eq!(state_for_hook("UserPromptSubmit", "", ""), (TaskState::Thinking, false));
    assert_eq!(state_for_hook("", "", ""), (TaskState::Thinking, false));
    assert_eq!(state_for_hook("PreToolUse", "Bash", "{\"command\":\"ls\"}"), (TaskState::Running, false));
}

#[test]
fn tools_map_to_states() {
    assert_eq!(state_for_tool("apply_patch", ""), TaskState::Editing);
    assert_eq!(state_for_tool("WriteFile", ""), TaskState::Editing);
    assert_eq!(state_for_tool("Edit", "{\"command\":\"cargo test\"}"), TaskState::Editing);
    assert_eq!(state_for_tool("Bash", "{\"command\":\"cargo test --all\"}"), TaskState::Testing);
    assert_eq!(state_for_tool("Bash", "{\"command\":\"PYTEST -q\"}"), TaskState::Testing);
    assert_eq!(state_for_tool("Bash", "{\"command\":\"pio run -t upload\"}"), TaskState::Testing);
    assert_eq!(state_for_tool("Bash", "{\"command\":\"ls -la\"}"), TaskState::Running);
    assert_eq!(state_for_tool("", ""), TaskState::Running);
}

#[test]
fn app_server_statuses_map_to_states() {
    assert_eq!(state_from_app_server("active"), TaskState::Thinking);
    assert_eq!(state_from_app_server("running"), TaskState::Thinking);
    assert_eq!(state_from_app_server("error"), TaskState::Error);
    assert_eq!(state_from_app_server("failed"), TaskState::Error);
    assert_eq!(state_from_app_server("idle"), TaskState::Done);
    assert_eq!(state_from_app_server("Active"), TaskState::Done);
}

#[test]
fn titles_from_directories() {
    assert_eq!(title_from_cwd(&Some("/tmp/demo".into())), "demo");
    assert_eq!(title_from_cwd(&Some("tmp/demo/.".into())), "demo");
    assert_eq!(title_from_cwd(&Some("/tmp/..".into())), "Codex task");
    assert_eq!(title_from_cwd(&Some("".into())), "Codex task");
    assert_eq!(title_from_cwd(&None), "Codex task");
}

#[test]
fn metadata_creates_updates_and_skips() {
    let mut store = TaskStore::default();
    store.apply_hook_at(&hook(Some("known"), "PermissionRequest"), 1_000);
    store.merge_metadata_at(
        &[
            meta("known", "New title", Some("/w"), "idle", Some(1)),
            meta("fresh", "Fresh", None, "active", Some(990)),
            meta("lazy", "Lazy", None, "notLoaded", Some(990)),
            meta("undated", "Undated", None, "failed", None),
        ],
        1_000,
    );
    let list = store.snapshot_at(1_000);
    let known = list.iter().find(|t| t.id == "known").unwrap();
    assert_eq!(known.title, "New title");
    assert_eq!(known.cwd.as_deref(), Some("/w"));
    assert_eq!(known.state, TaskState::Waiting);
    assert!(known.attention);
    assert_eq!(known.updated_at, 1_000);
    let fresh = list.iter().find(|t| t.id == "fresh").unwrap();
    assert_eq!((fresh.state, fresh.attention, fresh.started_at), (TaskState::Thinking, false, 990));
    let undated = list.iter().find(|t| t.id == "undated").unwrap();
    assert_eq!((undated.state, undated.updated_at), (TaskState::Error, 1_000));
    assert!(list.iter().all(|t| t.id != "lazy"));
}

#[test]
fn blank_metadata_titles_are_ignored() {
    let mut store = TaskStore::default();
    store.merge_metadata_at(&[meta("a", "Kept", None, "active", Some(50))], 60);
    store.merge_metadata_at(&[meta("a", " \t\n", None, "active", Some(50))], 60);
    assert_eq!(store.snapshot_at(60)[0].title, "Kept");
}

#[test]
fn merge_drops_stale_tasks() {
    let mut store = TaskStore::default();
    store.merge_metadata_at(
        &[
            meta("done-old", "a", None, "idle", Some(100_000)),
            meta("done-new", "b", None, "idle", Some(100_050)),
            meta("busy-old", "c", None, "active", Some(100_060 - 86_400)),
            meta("busy-new", "d", None, "active", Some(100_060 - 86_399)),
        ],
        100_060,
    );
    store.merge_metadata_at(&[], 100_060);
    let mut ids: Vec<_> = store.snapshot_at(100_050).into_iter().map(|t| t.id).collect();
    ids.sort();
    assert_eq!(ids, vec!["busy-new".to_string(), "done-new".to_string()]);
}

#[test]
fn snapshot_orders_active_first_and_hides_old_done() {
    let mut store = TaskStore::default();
    store.apply_hook_at(&hook(Some("done-recent"), "Stop"), 95);
    store.apply_hook_at(&hook(Some("done-old"), "Stop"), 70);
    store.apply_hook_at(&hook(Some("busy-old"), "SessionStart"), 10);
    store.apply_hook_at(&hook(Some("busy-new"), "PreToolUse"), 90);
    let list = store.snapshot_at(100);
    assert_eq!(
        summary(&list),
        vec![
            ("busy-new".to_string(), TaskState::Running),
            ("busy-old".to_string(), TaskState::Thinking),
            ("done-recent".to_string(), TaskState::Done),
        ]
    );
}

#[test]
fn elapsed_saturates_at_zero() {
    let t = TaskView {
        id: "a".into(),
        title: "t".into(),
        cwd: None,
        state: TaskState::Running,
        attention: false,
        updated_at: 0,
        started_at: 50,
    };
    assert_eq!(t.elapsed(80), 30);
    assert_eq!(t.elapsed(10), 0);
}

#[test]
fn state_codes_follow_the_wire_format() {
    let codes: Vec<u8> = [
        TaskState::Thinking,
        TaskState::Editing,
        TaskState::Running,
        TaskState::Testing,
        TaskState::Waiting,
        TaskState::Done,
        TaskState::Error,
    ]
    .iter()
    .map(|s| s.code())
    .collect();
    assert_eq!(codes, vec![1, 2, 3, 4, 5, 6, 7]);
}
