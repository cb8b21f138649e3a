use codex_ble_bridge::app_server::{parse_thread_list, reply_action, ReplyAction, ThreadItem, ThreadListReply};
use codex_ble_bridge::model::JsonField;

fn item(id: Option<&str>) -> ThreadItem {
    ThreadItem {
        id: id.map(str::to_string),
        name: JsonField::Absent,
        title: JsonField::Absent,
        preview: JsonField::Absent,
        cwd: None,
        status: JsonField::Absent,
        status_type: None,
        updated_at: None,
    }
}

#[test]
fn parses_real_thread_list_shape() {
    let mut thread = item(Some("abc"));
    thread.name = JsonField::Text("Build bridge".into());
    thread.cwd = Some("/tmp/demo".into());
    thread.status = JsonField::Other;
    thread.status_type = Some("notLoaded".into());
    thread.updated_at = Some(42);
    let response = ThreadListReply { data: Some(vec![thread]) };
    let tasks = parse_thread_list(&response);
    assert_eq!(tasks.len(), 1);
    assert_eq!(tasks[0].title, "Build bridge");
    assert_eq!(tasks[0].status, "notLoaded");
    assert_eq!(tasks[0].id, "abc");
    assert_eq!(tasks[0].cwd.as_deref(), Some("/tmp/demo"));
    assert_eq!(tasks[0].updated_at, Some(42));
}

#[test]
fn reply_without_data_has_no_tasks() {
    assert!(parse_thread_list(&ThreadListReply { data: None }).is_empty());
    assert!(parse_thread_list(&ThreadListReply { data: Some(vec![]) }).is_empty());
}

#[test]
fn threads_without_id_are_skipped() {
    let reply = ThreadListReply { data: Some(vec![item(None), item(Some("b")), item(None)]) };
    let tasks = parse_thread_list(&reply);
    assert_eq!(tasks.len(), 1);
    assert_eq!(tasks[0].id, "b");
    assert_eq!(tasks[0].title, "Codex task");
    assert_eq!(tasks[0].status, "notLoaded");
}

#[test]
fn thread_titles_take_the_first_present_field_and_line() {
    let mut a = item(Some("a"));
    a.title = JsonField::Text("Second choice".into());
    a.preview = JsonField::Text("Third".into());
    let mut b = item(Some("b"));
    b.preview = JsonField::Text("Fix the build\r\nand more".into());
    let mut c = item(Some("c"));
    c.name = JsonField::Other;
    c.title = JsonField::Text("Not used".into());
    let mut d = item(Some("d"));
    d.name = JsonField::Text("\nhidden".into());
    let mut e = item(Some("e"));
    e.name = JsonField::Text("".into());
    let tasks = parse_thread_list(&ThreadListReply { data: Some(vec![a, b, c, d, e]) });
    let titles: Vec<_> = tasks.iter().map(|t| t.title.as_str()).collect();
    assert_eq!(titles, vec!["Second choice", "Fix the build", "Codex task", "", "Codex task"]);
}

#[test]
fn thread_status_comes_from_string_or_type() {
    let mut a = item(Some("a"));
    a.status = JsonField::Text("active".into());
    let mut b = item(Some("b"));
    b.status = JsonField::Other;
    let mut c = item(Some("c"));
    c.status = JsonField::Other;
    c.status_type = Some("running".into());
    let tasks = parse_thread_list(&ThreadListReply { data: Some(vec![a, b, c]) });
    let statuses: Vec<_> = tasks.iter().map(|t| t.status.as_str()).collect();
    assert_eq!(statuses, vec!["active", "notLoaded", "running"]);
}

#[test]
fn replies_are_matched_by_request_id() {
    assert_eq!(reply_action(Some(7), false, 7), ReplyAction::Accept);
    assert_eq!(reply_action(Some(7), true, 7), ReplyAction::Failed);
    assert_eq!(reply_action(Some(6), true, 7), ReplyAction::Skip);
    assert_eq!(reply_action(None, false, 7), ReplyAction::Skip);
}
