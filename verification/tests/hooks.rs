use codex_ble_bridge::hooks::{
    install_hooks, install_hooks_file, parse_hooks_file, render_hooks_file, uninstall_hooks,
    uninstall_hooks_file, EntryList, HooksError, HooksFile, MemberValue,
};
use serde_json::Value;

const EVENTS: [&str; 10] = [
    "SessionStart",
    "SessionEnd",
    "UserPromptSubmit",
    "PreToolUse",
    "PostToolUse",
    "PostToolUseFailure",
    "PermissionRequest",
    "Stop",
    "SubagentStart",
    "SubagentStop",
];

const BINARY: &str = "/Applications/Codex BLE/codex-ble-bridge";

fn json(text: &str) -> Value {
    serde_json::from_str(text).unwrap()
}

fn installed(existing: Option<&str>) -> Value {
    let bytes = install_hooks_file(existing.map(str::as_bytes), BINARY).unwrap();
    serde_json::from_slice(&bytes).unwrap()
}

fn bridge_entry() -> Value {
    json(r#"{"hooks":[{"type":"command","command":"'/Applications/Codex BLE/codex-ble-bridge' hook","timeout":3}]}"#)
}

#[test]
fn install_into_a_new_file() {
    let root = installed(None);
    assert_eq!(root["description"], json(r#""Global Codex hooks""#));
    let hooks = root["hooks"].as_object().unwrap();
    assert_eq!(hooks.len(), EVENTS.len());
    for event in EVENTS {
        assert_eq!(hooks[event], Value::Array(vec![bridge_entry()]), "{event}");
    }
    assert_eq!(root.as_object().unwrap().len(), 2);
}

#[test]
fn install_keeps_user_entries_and_other_members() {
    let user = r#"{"hooks":[{"type":"command","command":"notify-send done"}]}"#;
    let old = r#"{"hooks":[{"type":"command","command":"'/old/codex-ble-bridge' hook","timeout":3}]}"#;
    let existing = format!(
        r#"{{"model":"o3","hooks":{{"Stop":[{old},{user}],"Custom":[{old}],"PreToolUse":"odd"}}}}"#
    );
    let root = installed(Some(&existing));
    assert_eq!(root["model"], json(r#""o3""#));
    assert_eq!(root["hooks"]["Stop"], Value::Array(vec![json(user), bridge_entry()]));
    assert_eq!(root["hooks"]["Custom"], Value::Array(vec![json(old)]));
    assert_eq!(root["hooks"]["PreToolUse"], Value::Array(vec![bridge_entry()]));
    assert_eq!(root["hooks"]["SessionStart"], Value::Array(vec![bridge_entry()]));
}

#[test]
fn install_replaces_hooks_that_are_not_an_object() {
    let root = installed(Some(r#"{"hooks":[1,2]}"#));
    let hooks = root["hooks"].as_object().unwrap();
    assert_eq!(hooks.len(), EVENTS.len());
    assert_eq!(hooks["Stop"], Value::Array(vec![bridge_entry()]));
}

#[test]
fn installing_twice_writes_the_same_file() {
    let existing = r#"{"hooks":{"Stop":[{"hooks":[{"type":"command","command":"say hi"}]}]},"x":1}"#;
    let once = install_hooks_file(Some(existing.as_bytes()), BINARY).unwrap();
    let twice = install_hooks_file(Some(&once), BINARY).unwrap();
    assert_eq!(once, twice);
}

#[test]
fn install_refuses_a_file_that_is_not_an_object() {
    let result = install_hooks_file(Some(b"[1, 2]"), BINARY);
    assert!(matches!(result, Err(HooksError::RootNotObject)));
    let file = parse_hooks_file(b"\"text\"").unwrap();
    assert!(matches!(install_hooks(Some(file), BINARY), Err(HooksError::RootNotObject)));
}

#[test]
fn install_reports_a_file_that_is_not_json() {
    match install_hooks_file(Some(b"{\"hooks\": "), BINARY) {
        Err(HooksError::Unparsable(message)) => assert!(!message.is_empty()),
        other => panic!("unexpected {other:?}"),
    }
}

#[test]
fn install_escapes_the_command_for_json() {
    let bytes = install_hooks_file(None, "/tmp/a\"b\\c/codex-ble-bridge").unwrap();
    let root: Value = serde_json::from_slice(&bytes).unwrap();
    let command = &root["hooks"]["Stop"][0]["hooks"][0]["command"];
    assert_eq!(command.as_str().unwrap(), "'/tmp/a\"b\\c/codex-ble-bridge' hook");
    let again = install_hooks_file(Some(&bytes), "/tmp/a\"b\\c/codex-ble-bridge").unwrap();
    assert_eq!(bytes, again);
}

#[test]
fn uninstall_removes_bridge_entries_and_empty_lists() {
    let user = r#"{"hooks":[{"type":"command","command":"notify-send done"}]}"#;
    let existing = format!(r#"{{"model":"o3","hooks":{{"Custom":"keep","Other":[]}}}}"#);
    let with_bridge = install_hooks_file(Some(existing.as_bytes()), BINARY).unwrap();
    let mut root: Value = serde_json::from_slice(&with_bridge).unwrap();
    root["hooks"]["Stop"].as_array_mut().unwrap().insert(0, json(user));
    let bytes = uninstall_hooks_file(&serde_json::to_vec(&root).unwrap()).unwrap();
    let root: Value = serde_json::from_slice(&bytes).unwrap();
    assert_eq!(root["model"], json(r#""o3""#));
    assert_eq!(
        root["hooks"],
        json(&format!(r#"{{"Custom":"keep","Stop":[{user}]}}"#))
    );
}

#[test]
fn uninstall_leaves_other_files_alone() {
    let bytes = uninstall_hooks_file(b"{\"hooks\":7,\"a\":[1]}").unwrap();
    let root: Value = serde_json::from_slice(&bytes).unwrap();
    assert_eq!(root, json(r#"{"hooks":7,"a":[1]}"#));
    let bytes = uninstall_hooks_file(b"[3]").unwrap();
    assert_eq!(serde_json::from_slice::<Value>(&bytes).unwrap(), json("[3]"));
    assert!(matches!(uninstall_hooks_file(b"nope"), Err(HooksError::Unparsable(_))));
}

#[test]
fn parsing_takes_the_file_apart_two_levels_deep() {
    let file = parse_hooks_file(br#"{"a":{"b":[1,{"c":2}],"d":"e"},"f":true}"#).unwrap();
    let HooksFile::Object(members) = &file else { panic!("not an object") };
    assert_eq!(members.len(), 2);
    assert_eq!(members[0].0, "a");
    let MemberValue::Object(lists) = &members[0].1 else { panic!("not an object") };
    assert_eq!(lists[0].0, "b");
    assert!(matches!(&lists[0].1, EntryList::Array(entries) if entries == &vec!["1".to_string(), "{\"c\":2}".to_string()]));
    assert!(matches!(&lists[1].1, EntryList::Other(text) if text == "\"e\""));
    assert!(matches!(&members[1].1, MemberValue::Other(text) if text == "true"));
    let bytes = render_hooks_file(&file);
    assert_eq!(
        String::from_utf8(bytes).unwrap(),
        "{\n  \"a\": {\n    \"b\": [\n      1,\n      {\n        \"c\": 2\n      }\n    ],\n    \"d\": \"e\"\n  },\n  \"f\": true\n}"
    );
}

#[test]
fn uninstalling_a_parsed_file_keeps_lists_that_are_not_arrays() {
    let file = parse_hooks_file(br#"{"hooks":{"A":5,"B":[{"x":"codex-ble-bridge"}]}}"#).unwrap();
    let HooksFile::Object(members) = uninstall_hooks(file) else { panic!("not an object") };
    let MemberValue::Object(lists) = &members[0].1 else { panic!("not an object") };
    assert_eq!(lists.len(), 1);
    assert_eq!(lists[0].0, "A");
}
