use codex_ble_bridge::ble::{advertises_beacon, may_connect, same_snapshot, should_push, upsert_device, PushLog};
use codex_ble_bridge::config::{SavedDevice, Settings};

fn device(id: &str, name: &str, last_seen: u64) -> SavedDevice {
    SavedDevice { id: id.to_string(), name: name.to_string(), last_seen }
}

fn ids(settings: &Settings) -> Vec<(String, String)> {
    settings.devices.iter().map(|d| (d.id.clone(), d.name.clone())).collect()
}

#[test]
fn sequence_byte_does_not_make_snapshot_dirty() {
    assert!(same_snapshot(b"CX\x01\x01\x00\x00", b"CX\x01\x99\x00\x00"));
    assert!(!same_snapshot(b"CX\x01\x01\x00\x00", b"CX\x01\x02\x01\x00"));
}

#[test]
fn snapshots_of_different_length_differ() {
    assert!(!same_snapshot(b"CX\x01\x01", b"CX\x01\x01\x00"));
    assert!(same_snapshot(b"", b""));
}

#[test]
fn pushes_new_changed_or_stale_snapshots() {
    let payload: &[u8] = b"CX\x01\x05\x00\x00";
    assert!(should_push(None, payload, 0));
    assert!(!should_push(Some(b"CX\x01\x04\x00\x00"), payload, 14_999));
    assert!(should_push(Some(b"CX\x01\x04\x00\x00"), payload, 15_000));
    assert!(should_push(Some(b"CX\x01\x04\x01\x00"), payload, 0));
}

#[test]
fn connects_to_known_devices_or_when_pairing_is_open() {
    let mut settings = Settings::default();
    assert!(may_connect(&settings, "any"));
    settings.devices.push(device("known", "Codex Beacon A", 1));
    assert!(may_connect(&settings, "known"));
    assert!(!may_connect(&settings, "stranger"));
    settings.auto_pair = true;
    assert!(may_connect(&settings, "stranger"));
}

#[test]
fn recognises_beacon_adverts() {
    assert!(advertises_beacon(true, None));
    assert!(advertises_beacon(false, Some("Codex Beacon 12AB")));
    assert!(advertises_beacon(false, Some("Codex Monitor")));
    assert!(!advertises_beacon(false, Some("Codex Beaco")));
    assert!(!advertises_beacon(false, Some("My Codex Beacon")));
    assert!(!advertises_beacon(false, None));
}

#[test]
fn upsert_replaces_a_saved_device() {
    let mut settings = Settings::default();
    settings.devices.push(device("a", "old", 1));
    settings.devices.push(device("b", "bee", 2));
    upsert_device(&mut settings, device("a", "new", 3));
    assert_eq!(ids(&settings), vec![("a".into(), "new".into()), ("b".into(), "bee".into())]);
    assert_eq!(settings.devices[0].last_seen, 3);
}

#[test]
fn upsert_adds_a_new_device_and_drops_duplicates() {
    let mut settings = Settings::default();
    settings.devices.push(device("a", "first", 1));
    settings.devices.push(device("a", "second", 2));
    settings.devices.push(device("b", "bee", 3));
    upsert_device(&mut settings, device("c", "sea", 4));
    assert_eq!(
        ids(&settings),
        vec![("a".into(), "first".into()), ("b".into(), "bee".into()), ("c".into(), "sea".into())]
    );
    upsert_device(&mut settings, device("a", "third", 5));
    assert_eq!(ids(&settings)[0], ("a".into(), "third".into()));
    assert_eq!(settings.devices.len(), 3);
}

#[test]
fn push_log_waits_before_resending_the_same_snapshot() {
    let mut log = PushLog::new();
    let first = [1u8, 2, 3, 7, 5];
    let same_again = [1u8, 2, 3, 8, 5];
    let changed = [1u8, 2, 4, 9, 5];
    assert!(log.is_due("A", &first, 100));
    log.record_write("A", &first, 100);
    assert!(!log.is_due("A", &same_again, 100));
    assert!(!log.is_due("A", &same_again, 15_099));
    assert!(log.is_due("A", &same_again, 15_100));
    assert!(log.is_due("A", &changed, 101));
    assert!(!log.is_due("A", &first, 50));
    assert!(log.is_due("B", &first, 100));
}

#[test]
fn push_log_forgets_a_lost_display() {
    let mut log = PushLog::new();
    let packet = [9u8, 9, 9, 1];
    log.record_write("A", &packet, 10);
    log.record_write("B", &packet, 10);
    log.forget("A");
    assert!(log.is_due("A", &packet, 11));
    assert!(!log.is_due("B", &packet, 11));
    log.record_write("B", &packet, 20_000);
    assert!(!log.is_due("B", &packet, 20_001));
}
