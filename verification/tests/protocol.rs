use codex_ble_bridge::ble::same_snapshot;
use codex_ble_bridge::model::{TaskState, TaskView};
use codex_ble_bridge::protocol::{
    encode_hello, encode_snapshot, encode_snapshot_at, fnv1a32, MAX_TITLE_BYTES,
    MAX_VISIBLE_TASKS, PROTOCOL_VERSION,
};

fn task(id: &str, title: &str, state: TaskState, started_at: u64) -> TaskView {
    TaskView {
        id: id.to_string(),
        title: title.to_string(),
        cwd: None,
        state,
        attention: false,
        updated_at: started_at,
        started_at,
    }
}

#[test]
fn packet_stays_inside_default_ble_mtu_payload() {
    let tasks: Vec<_> = (0..8)
        .map(|i| TaskView {
            id: format!("task-{i}"),
            title: "这是一个很长的 Codex 会话标题 abcdefghijklmnopqrstuvwxyz".into(),
            cwd: None,
            state: TaskState::Running,
            attention: false,
            updated_at: 1,
            started_at: 1,
        })
        .collect();
    let packet = encode_snapshot(1, &tasks);
    assert!(packet.len() <= 182);
    assert_eq!(packet[4], 4);
    assert_eq!(packet[5], 8);
}

#[test]
fn fnv1a32_matches_reference_values() {
    assert_eq!(fnv1a32(b""), 0x811c9dc5);
    assert_eq!(fnv1a32(b"a"), 0xe40c292c);
    assert_eq!(fnv1a32(b"foobar"), 0xbf9cf968);
}

#[test]
fn hello_packet_is_fixed() {
    assert_eq!(encode_hello(), [b'C', b'X', PROTOCOL_VERSION, 0]);
}

#[test]
fn one_task_packet_has_exact_bytes() {
    let mut t = task("a", "  Hi  ", TaskState::Running, 40);
    t.attention = true;
    let packet = encode_snapshot_at(7, &[t], 100);
    assert_eq!(
        packet,
        vec![
            0x43, 0x58, 0x01, 0x07, 0x01, 0x01, // header
            0x2c, 0x29, 0x0c, 0xe4, // fnv1a32("a"), little endian
            0x03, 0x01, // running, attention
            0x3c, 0x00, // 60 seconds
            0x02, b'H', b'i', // trimmed title
        ]
    );
}

#[test]
fn empty_snapshot_is_only_a_header() {
    assert_eq!(encode_snapshot_at(0, &[], 5), vec![0x43, 0x58, 0x01, 0x00, 0x00, 0x00]);
}

#[test]
fn elapsed_field_is_capped_and_never_negative() {
    let late = encode_snapshot_at(0, &[task("x", "t", TaskState::Thinking, 0)], 1_000_000);
    assert_eq!(&late[12..14], &[0xff, 0xff]);
    let early = encode_snapshot_at(0, &[task("x", "t", TaskState::Thinking, 500)], 100);
    assert_eq!(&early[12..14], &[0x00, 0x00]);
}

#[test]
fn titles_are_cut_on_character_boundaries() {
    // 11 three-byte characters: 33 bytes, cut to 10 characters.
    let packet = encode_snapshot_at(0, &[task("x", &"这".repeat(11), TaskState::Done, 0)], 0);
    assert_eq!(packet[14], 30);
    assert_eq!(&packet[15..], "这".repeat(10).as_bytes());
    // 20 two-byte characters: cut to exactly 32 bytes.
    let packet = encode_snapshot_at(0, &[task("x", &"é".repeat(20), TaskState::Done, 0)], 0);
    assert_eq!(packet[14] as usize, MAX_TITLE_BYTES);
    assert_eq!(&packet[15..], "é".repeat(16).as_bytes());
    // Short ASCII titles are kept whole.
    let packet = encode_snapshot_at(0, &[task("x", "abc", TaskState::Done, 0)], 0);
    assert_eq!(&packet[14..], &[3, b'a', b'b', b'c']);
}

#[test]
fn only_the_first_four_tasks_are_encoded() {
    let tasks: Vec<_> = (0..300).map(|i| task(&format!("t{i}"), "", TaskState::Error, 0)).collect();
    let packet = encode_snapshot_at(9, &tasks, 0);
    assert_eq!(packet[4] as usize, MAX_VISIBLE_TASKS);
    assert_eq!(packet[5], 255);
    assert_eq!(packet.len(), 6 + 4 * 9);
    assert_eq!(packet[10], 7);
}

#[test]
fn sequence_number_does_not_change_the_snapshot() {
    let tasks = vec![task("a", "title", TaskState::Testing, 3), task("b", "other", TaskState::Done, 1)];
    let first = encode_snapshot_at(1, &tasks, 10);
    let second = encode_snapshot_at(200, &tasks, 10);
    assert_ne!(first, second);
    assert!(same_snapshot(&first, &second));
}
