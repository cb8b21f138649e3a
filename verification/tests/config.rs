use codex_ble_bridge::config::{forget_devices, shell_quote, ForgetError, SavedDevice, Settings};
use codex_ble_bridge::hooks::{hook_command, is_our_entry, MARKER};

fn settings_with(ids: &[&str]) -> Settings {
    let mut settings = Settings::default();
    for (i, id) in ids.iter().enumerate() {
        settings.devices.push(SavedDevice { id: id.to_string(), name: format!("n{i}"), last_seen: i as u64 });
    }
    settings
}

#[test]
fn marker_is_detected_in_generated_command() {
    let command = format!("{} hook", shell_quote("/tmp/codex-ble-bridge"));
    assert!(command.contains(MARKER));
    assert!(command.ends_with(" hook"));
}

#[test]
fn hook_command_quotes_the_binary() {
    assert_eq!(hook_command("/Applications/My App/codex-ble-bridge"), "'/Applications/My App/codex-ble-bridge' hook");
}

#[test]
fn shell_quote_escapes_single_quotes() {
    assert_eq!(shell_quote("/tmp/a b"), "'/tmp/a b'");
    assert_eq!(shell_quote("it's"), "'it'\\''s'");
    assert_eq!(shell_quote(""), "''");
}

#[test]
fn bridge_entries_are_recognised_by_marker() {
    assert!(is_our_entry(r#"{"hooks":[{"command":"'/x/codex-ble-bridge' hook","timeout":3,"type":"command"}]}"#));
    assert!(!is_our_entry(r#"{"hooks":[{"command":"notify-send done","type":"command"}]}"#));
}

#[test]
fn forget_all_clears_devices() {
    let mut settings = settings_with(&["a", "b"]);
    assert_eq!(forget_devices(&mut settings, None, true), Ok(()));
    assert!(settings.devices.is_empty());
}

#[test]
fn forget_one_keeps_the_others() {
    let mut settings = settings_with(&["a", "b", "a", "c"]);
    assert_eq!(forget_devices(&mut settings, Some("a"), false), Ok(()));
    let left: Vec<_> = settings.devices.iter().map(|d| d.id.as_str()).collect();
    assert_eq!(left, vec!["b", "c"]);
}

#[test]
fn forget_without_target_is_refused() {
    let mut settings = settings_with(&["a"]);
    assert_eq!(forget_devices(&mut settings, None, false), Err(ForgetError::NoDeviceGiven));
    assert_eq!(settings.devices.len(), 1);
}

#[test]
fn default_settings_pair_nothing() {
    let settings = Settings::default();
    assert!(!settings.auto_pair);
    assert!(settings.devices.is_empty());
}

/// How a POSIX shell reads a word of plain characters, backslash escapes and
/// single-quoted runs.
fn read_shell_word(word: &str) -> String {
    let mut out = String::new();
    let mut chars = word.chars().peekable();
    let mut quoted = false;
    while let Some(c) = chars.next() {
        if quoted {
            if c == '\'' {
                quoted = false;
            } else {
                out.push(c);
            }
        } else if c == '\'' {
            quoted = true;
        } else if c == '\\' && chars.peek().is_some() {
            out.push(chars.next().unwrap());
        } else {
            out.push(c);
        }
    }
    out
}

#[test]
fn shell_reads_quoted_paths_back() {
    for path in ["/tmp/a b", "it's", "''", "a\\b", "", "$HOME/`x`", "é'ü"] {
        assert_eq!(read_shell_word(&shell_quote(path)), path);
    }
}

#[test]
fn own_commands_are_recognised() {
    assert!(is_our_entry(&hook_command("/Users/me/bin/codex-ble-bridge")));
    assert!(is_our_entry(&hook_command("/it's/codex-ble-bridge-1")));
    assert!(!is_our_entry(&hook_command("/usr/local/bin/other")));
}
