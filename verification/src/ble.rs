//! The decisions of the Bluetooth side of the bridge: which displays to
//! connect to, when a snapshot must be written again, and how the list of
//! paired displays is updated.
use vstd::prelude::*;
use vstd::utf8::encode_utf8;

use crate::config::{device_records, DeviceRecord, SavedDevice, Settings};
use crate::protocol::snapshot_packet;
use crate::model::TaskRecord;
use crate::named::{
    assign, find_key, lemma_assign, lemma_assign_unique, lemma_key_pos, lemma_key_pos_is,
    lemma_unassign, lookup, unassign, unique_names,
};
use crate::text::{append_bytes, text_eq};

verus! {

/// How long, in milliseconds, an unchanged snapshot may go unwritten.
pub const RESEND_AFTER_MS: u64 = 15_000;

/// Two packets carry the same snapshot: they agree on every byte but the
/// sequence number (byte 3).
pub open spec fn same_snapshot_spec(left: Seq<u8>, right: Seq<u8>) -> bool {
    &&& left.len() == right.len()
    &&& forall|i: int| 0 <= i < left.len() && i != 3 ==> #[trigger] left[i] == right[i]
}

/// Tells whether two packets carry the same snapshot.
pub fn same_snapshot(left: &[u8], right: &[u8]) -> (r: bool)
    ensures
        r == same_snapshot_spec(left@, right@),
{
    if left.len() != right.len() {
        return false;
    }
    let mut i: usize = 0;
    while i < left.len()
        invariant
            left@.len() == right@.len(),
            i <= left@.len(),
            forall|j: int| 0 <= j < i && j != 3 ==> #[trigger] left@[j] == right@[j],
        decreases left.len() - i,
    {
        if i != 3 && left[i] != right[i] {
            return false;
        }
        i = i + 1;
    }
    true
}

/// Two packets for the same tasks at the same time carry the same snapshot,
/// whatever their sequence numbers.
pub proof fn lemma_sequence_number_is_not_content(
    first: u8,
    second: u8,
    tasks: Seq<TaskRecord>,
    now: u64,
)
    ensures
        same_snapshot_spec(snapshot_packet(first, tasks, now), snapshot_packet(second, tasks, now)),
{
    let a = snapshot_packet(first, tasks, now);
    let b = snapshot_packet(second, tasks, now);
    assert forall|i: int| 0 <= i < a.len() && i != 3 implies #[trigger] a[i] == b[i] by {
        if i >= 6 {
            assert(a[i] == a.subrange(6, a.len() as int)[i - 6]);
        }
    }
}

/// Packets of equal length are the same snapshot exactly when they agree at
/// every byte but the sequence number: a packet that differs at any other
/// byte is written at once, however recently the last one was.
pub proof fn lemma_snapshot_differs_at_content(left: Seq<u8>, right: Seq<u8>, i: int, since_ms: u64)
    requires
        left.len() == right.len(),
        0 <= i < left.len(),
        i != 3,
        left[i] != right[i],
    ensures
        !same_snapshot_spec(left, right),
        push_due(Some(left), right, since_ms),
{
}

/// Packets that differ only in their sequence number carry the same snapshot.
pub proof fn lemma_sequence_only_is_same_snapshot(left: Seq<u8>, right: Seq<u8>)
    requires
        left.len() == right.len(),
        forall|i: int| 0 <= i < left.len() && i != 3 ==> left[i] == right[i],
    ensures
        same_snapshot_spec(left, right),
{
}

/// A snapshot must be written to a display: nothing was written to it yet,
/// or the last packet written carries another snapshot, or it was written at
/// least `RESEND_AFTER_MS` milliseconds ago.
pub open spec fn push_due(previous: Option<Seq<u8>>, payload: Seq<u8>, since_ms: u64) -> bool {
    match previous {
        None => true,
        Some(p) => !same_snapshot_spec(p, payload) || since_ms >= RESEND_AFTER_MS,
    }
}

/// Tells whether `payload` must be written to a display whose last packet
/// was `previous`, written `since_ms` milliseconds ago.
pub fn should_push(previous: Option<&[u8]>, payload: &[u8], since_ms: u64) -> (r: bool)
    ensures
        r == push_due(
            match previous {
                Some(p) => Some(p@),
                None => None,
            },
            payload@,
            since_ms,
        ),
{
    match previous {
        None => true,
        Some(p) => !same_snapshot(p, payload) || since_ms >= RESEND_AFTER_MS,
    }
}

/// Milliseconds from `then` to `now`, or 0 when `now` is earlier.
pub open spec fn elapsed_ms(then: u64, now: u64) -> u64 {
    if now >= then {
        (now - then) as u64
    } else {
        0
    }
}

/// A snapshot must be written to the display `id` at `now`, given what was
/// last written to each display and when.
pub open spec fn due_in(log: Map<Seq<char>, (Seq<u8>, u64)>, id: Seq<char>, payload: Seq<u8>, now: u64) -> bool {
    if log.dom().contains(id) {
        push_due(Some(log[id].0), payload, elapsed_ms(log[id].1, now))
    } else {
        push_due(None, payload, 0)
    }
}

/// What was last written to each connected display: the packet, and the time
/// in milliseconds at which it was written.
pub struct PushLog {
    sent: Vec<(String, (Vec<u8>, u64))>,
}

/// The model of the log's entries.
pub open spec fn sent_view(s: Seq<(String, (Vec<u8>, u64))>) -> Seq<(Seq<char>, (Seq<u8>, u64))> {
    s.map_values(|p: (String, (Vec<u8>, u64))| (p.0@, (p.1.0@, p.1.1)))
}

/// The map that a list of entries stands for: each name with its first entry.
pub open spec fn sent_map(s: Seq<(Seq<char>, (Seq<u8>, u64))>) -> Map<Seq<char>, (Seq<u8>, u64)> {
    Map::new(|k: Seq<char>| lookup(s, k) is Some, |k: Seq<char>| lookup(s, k)->0)
}

impl View for PushLog {
    type V = Map<Seq<char>, (Seq<u8>, u64)>;

    closed spec fn view(&self) -> Map<Seq<char>, (Seq<u8>, u64)> {
        sent_map(sent_view(self.sent@))
    }
}

impl PushLog {
    #[verifier::type_invariant]
    spec fn names_unique(self) -> bool {
        unique_names(sent_view(self.sent@))
    }

    /// A log in which nothing was written yet.
    pub fn new() -> (log: PushLog)
        ensures
            log@ == Map::<Seq<char>, (Seq<u8>, u64)>::empty(),
    {
        let log = PushLog { sent: Vec::new() };
        proof {
            assert(sent_view(log.sent@) =~= Seq::<(Seq<char>, (Seq<u8>, u64))>::empty());
            assert(log@ =~= Map::<Seq<char>, (Seq<u8>, u64)>::empty());
        }
        log
    }

    /// Tells whether `payload` must be written to the display `id` at `now_ms`.
    pub fn is_due(&self, id: &str, payload: &[u8], now_ms: u64) -> (due: bool)
        ensures
            due == due_in(self@, id@, payload@, now_ms),
    {
        let ghost model = sent_view(self.sent@);
        match find_key(&self.sent, id) {
            Some(p) => {
                proof {
                    lemma_key_pos_is(model, id@, p as int);
                }
                let (bytes, at) = &self.sent[p].1;
                let since = if now_ms >= *at { now_ms - *at } else { 0 };
                should_push(Some(bytes.as_slice()), payload, since)
            },
            None => {
                proof {
                    lemma_key_pos(model, id@);
                }
                should_push(None, payload, 0)
            },
        }
    }

    /// Notes that `payload` was written to the display `id` at `now_ms`.
    pub fn record_write(&mut self, id: &str, payload: &[u8], now_ms: u64)
        ensures
            final(self)@ == old(self)@.insert(id@, (payload@, now_ms)),
    {
        proof {
            use_type_invariant(&*self);
        }
        let ghost model = sent_view(self.sent@);
        let ghost value = (payload@, now_ms);
        let mut sent: Vec<(String, (Vec<u8>, u64))> = Vec::new();
        std::mem::swap(&mut sent, &mut self.sent);
        let mut copy: Vec<u8> = Vec::new();
        append_bytes(&mut copy, payload);
        proof {
            assert(copy@ =~= payload@);
        }
        let entry = (id.to_owned(), (copy, now_ms));
        match find_key(&sent, id) {
            Some(p) => {
                proof {
                    lemma_key_pos_is(model, id@, p as int);
                }
                sent.set(p, entry);
            },
            None => {
                proof {
                    lemma_key_pos(model, id@);
                }
                sent.push(entry);
            },
        }
        proof {
            assert(sent_view(sent@) =~= assign(model, id@, value));
            lemma_assign_unique(model, id@, value);
            assert forall|k: Seq<char>| true implies lookup(assign(model, id@, value), k) == (if k
                == id@ {
                Some(value)
            } else {
                lookup(model, k)
            }) by {
                lemma_assign(model, id@, value, k);
            }
        }
        self.sent = sent;
        proof {
            assert(self@ =~= old(self)@.insert(id@, value));
        }
    }

    /// Forgets the display `id`, whose link was lost.
    pub fn forget(&mut self, id: &str)
        ensures
            final(self)@ == old(self)@.remove(id@),
    {
        proof {
            use_type_invariant(&*self);
        }
        let ghost model = sent_view(self.sent@);
        let mut sent: Vec<(String, (Vec<u8>, u64))> = Vec::new();
        std::mem::swap(&mut sent, &mut self.sent);
        match find_key(&sent, id) {
            Some(p) => {
                proof {
                    lemma_key_pos_is(model, id@, p as int);
                }
                sent.remove(p);
            },
            None => {
                proof {
                    lemma_key_pos(model, id@);
                }
            },
        }
        proof {
            assert(sent_view(sent@) =~= unassign(model, id@));
            lemma_unassign(model, id@, id@);
            assert forall|k: Seq<char>| true implies lookup(unassign(model, id@), k) == (if k
                == id@ {
                None
            } else {
                lookup(model, k)
            }) by {
                lemma_unassign(model, id@, k);
            }
        }
        self.sent = sent;
        proof {
            assert(self@ =~= old(self)@.remove(id@));
        }
    }
}

/// A display that was just sent a snapshot is not sent the same snapshot
/// again until `RESEND_AFTER_MS` milliseconds have passed; a changed snapshot
/// is due at once.
pub proof fn lemma_unchanged_snapshot_waits(
    log: Map<Seq<char>, (Seq<u8>, u64)>,
    id: Seq<char>,
    sent: Seq<u8>,
    at: u64,
    payload: Seq<u8>,
    now: u64,
)
    requires
        at <= now,
    ensures
        due_in(log.insert(id, (sent, at)), id, payload, now) <==> (!same_snapshot_spec(sent, payload)
            || now - at >= RESEND_AFTER_MS),
        due_in(log.insert(id, (sent, at)), id, sent, now) <==> now - at >= RESEND_AFTER_MS,
{
}

/// Some device of `ds` has the id `id`.
pub open spec fn has_device(ds: Seq<DeviceRecord>, id: Seq<char>) -> bool {
    exists|i: int| #![trigger ds[i]] 0 <= i < ds.len() && ds[i].id == id
}

/// The bridge may connect to the display `id`: it is saved, or the settings
/// pair automatically, or no display is saved yet.
pub open spec fn connect_allowed(settings_devices: Seq<DeviceRecord>, auto_pair: bool, id: Seq<char>) -> bool {
    has_device(settings_devices, id) || auto_pair || settings_devices.len() == 0
}

/// Tells whether the bridge may connect to the display `id`.
pub fn may_connect(settings: &Settings, id: &str) -> (r: bool)
    ensures
        r == connect_allowed(device_records(settings.devices@), settings.auto_pair, id@),
{
    let ghost ds = device_records(settings.devices@);
    let mut i: usize = 0;
    while i < settings.devices.len()
        invariant
            ds == device_records(settings.devices@),
            i <= ds.len(),
            forall|j: int| 0 <= j < i ==> #[trigger] ds[j].id != id@,
        decreases settings.devices.len() - i,
    {
        if text_eq(settings.devices[i].id.as_str(), id) {
            assert(ds[i as int].id == id@);
            return true;
        }
        i = i + 1;
    }
    assert(!has_device(ds, id@));
    settings.auto_pair || settings.devices.len() == 0
}

/// `prefix` is where `bytes` starts.
pub open spec fn starts_with_bytes(bytes: Seq<u8>, prefix: Seq<u8>) -> bool {
    prefix.len() <= bytes.len() && bytes.take(prefix.len() as int) == prefix
}

/// A display advertises itself: it lists the bridge's service, or its name
/// starts with `Codex Beacon` or `Codex Monitor`.
pub open spec fn is_beacon_advert(lists_service: bool, local_name: Option<Seq<char>>) -> bool {
    lists_service || match local_name {
        Some(n) => starts_with_bytes(encode_utf8(n), encode_utf8("Codex Beacon"@))
            || starts_with_bytes(encode_utf8(n), encode_utf8("Codex Monitor"@)),
        None => false,
    }
}

/// Tells whether `bytes` starts with `prefix`.
fn bytes_start_with(bytes: &[u8], prefix: &[u8]) -> (r: bool)
    ensures
        r == starts_with_bytes(bytes@, prefix@),
{
    if prefix.len() > bytes.len() {
        return false;
    }
    let mut i: usize = 0;
    while i < prefix.len()
        invariant
            prefix@.len() <= bytes@.len(),
            i <= prefix@.len(),
            forall|j: int| 0 <= j < i ==> #[trigger] bytes@[j] == prefix@[j],
        decreases prefix.len() - i,
    {
        if bytes[i] != prefix[i] {
            assert(bytes@.take(prefix@.len() as int)[i as int] != prefix@[i as int]);
            return false;
        }
        i = i + 1;
    }
    assert(bytes@.take(prefix@.len() as int) =~= prefix@);
    true
}

/// Tells whether a scanned display advertises itself as one of the bridge's.
pub fn advertises_beacon(lists_service: bool, local_name: Option<&str>) -> (r: bool)
    ensures
        r == is_beacon_advert(
            lists_service,
            match local_name {
                Some(n) => Some(n@),
                None => None,
            },
        ),
{
    if lists_service {
        return true;
    }
    match local_name {
        Some(n) => bytes_start_with(n.as_bytes(), "Codex Beacon".as_bytes()) || bytes_start_with(
            n.as_bytes(),
            "Codex Monitor".as_bytes(),
        ),
        None => false,
    }
}

/// The first position of a device with the id `id`.
pub open spec fn first_device_index(ds: Seq<DeviceRecord>, id: Seq<char>) -> int {
    choose|i: int|
        0 <= i < ds.len() && ds[i].id == id && forall|j: int| 0 <= j < i ==> #[trigger] ds[j].id != id
}

/// `ds` with `d` in place of the first device of the same id, or with `d`
/// added at the end when there is none.
pub open spec fn device_replaced(ds: Seq<DeviceRecord>, d: DeviceRecord) -> Seq<DeviceRecord> {
    if has_device(ds, d.id) {
        ds.update(first_device_index(ds, d.id), d)
    } else {
        ds.push(d)
    }
}

/// `ds` with every device dropped whose id occurs earlier.
pub open spec fn first_of_each_id(ds: Seq<DeviceRecord>) -> Seq<DeviceRecord>
    decreases ds.len(),
{
    if ds.len() == 0 {
        Seq::empty()
    } else if has_device(ds.drop_last(), ds.last().id) {
        first_of_each_id(ds.drop_last())
    } else {
        first_of_each_id(ds.drop_last()).push(ds.last())
    }
}

/// The saved devices after `d` is saved.
pub open spec fn device_upserted(ds: Seq<DeviceRecord>, d: DeviceRecord) -> Seq<DeviceRecord> {
    first_of_each_id(device_replaced(ds, d))
}

/// No two devices share an id.
pub open spec fn unique_device_ids(ds: Seq<DeviceRecord>) -> bool {
    forall|i: int, j: int|
        #![trigger ds[i], ds[j]]
        0 <= i < ds.len() && 0 <= j < ds.len() && ds[i].id == ds[j].id ==> i == j
}

/// Tells whether a device with the id `id` is in `devices`.
fn holds_device(devices: &Vec<SavedDevice>, id: &String) -> (r: bool)
    ensures
        r == has_device(device_records(devices@), id@),
{
    let ghost ds = device_records(devices@);
    let mut i: usize = 0;
    while i < devices.len()
        invariant
            ds == device_records(devices@),
            i <= ds.len(),
            forall|j: int| 0 <= j < i ==> #[trigger] ds[j].id != id@,
        decreases devices.len() - i,
    {
        if devices[i].id == *id {
            assert(ds[i as int].id == id@);
            return true;
        }
        i = i + 1;
    }
    false
}

/// The first position of a device with the id `id`.
fn first_position(devices: &Vec<SavedDevice>, id: &String) -> (r: Option<usize>)
    ensures
        match r {
            Some(i) => has_device(device_records(devices@), id@) && i == first_device_index(
                device_records(devices@),
                id@,
            ) && i < devices@.len(),
            None => !has_device(device_records(devices@), id@),
        },
{
    let ghost ds = device_records(devices@);
    let mut i: usize = 0;
    while i < devices.len()
        invariant
            ds == device_records(devices@),
            i <= ds.len(),
            forall|j: int| 0 <= j < i ==> #[trigger] ds[j].id != id@,
        decreases devices.len() - i,
    {
        if devices[i].id == *id {
            assert(ds[i as int].id == id@);
            assert(first_device_index(ds, id@) == i) by {
                let f = first_device_index(ds, id@);
                assert(0 <= f < ds.len() && ds[f].id == id@);
                if f < i {
                    assert(ds[f].id != id@);
                }
                if f > i {
                    assert(ds[i as int].id == id@);
                }
            }
            return Some(i);
        }
        i = i + 1;
    }
    None
}

/// Saves `device`: it replaces the saved device with its id, or is added;
/// devices whose id occurs earlier in the list are then dropped.
pub fn upsert_device(settings: &mut Settings, device: SavedDevice)
    ensures
        final(settings).auto_pair == old(settings).auto_pair,
        device_records(final(settings).devices@) == device_upserted(
            device_records(old(settings).devices@),
            device@,
        ),
{
    let ghost ds = device_records(settings.devices@);
    let ghost d = device@;
    match first_position(&settings.devices, &device.id) {
        Some(i) => {
            settings.devices.set(i, device);
            assert(device_records(settings.devices@) =~= ds.update(i as int, d));
        },
        None => {
            settings.devices.push(device);
            assert(device_records(settings.devices@) =~= ds.push(d));
        },
    }
    let ghost replaced = device_records(settings.devices@);
    let mut out: Vec<SavedDevice> = Vec::new();
    let mut k: usize = 0;
    while k < settings.devices.len()
        invariant
            replaced == device_records(settings.devices@),
            k <= replaced.len(),
            device_records(out@) == first_of_each_id(replaced.take(k as int)),
            forall|id: Seq<char>|
                #[trigger] has_device(device_records(out@), id) == has_device(
                    replaced.take(k as int),
                    id,
                ),
        decreases settings.devices.len() - k,
    {
        let ghost before = device_records(out@);
        let ghost prefix = replaced.take(k as int);
        let ghost next = replaced.take(k + 1);
        assert(next.drop_last() =~= prefix);
        assert(next.last() == replaced[k as int]);
        let seen = holds_device(&out, &settings.devices[k].id);
        if !seen {
            out.push(settings.devices[k].clone());
            assert(device_records(out@) =~= before.push(replaced[k as int]));
        }
        proof {
            assert forall|id: Seq<char>|
                #[trigger] has_device(device_records(out@), id) == has_device(next, id) by {
                let now_out = device_records(out@);
                if has_device(next, id) {
                    let j = choose|j: int| #![trigger next[j]] 0 <= j < next.len() && next[j].id == id;
                    if j < k {
                        assert(prefix[j].id == id);
                        assert(has_device(before, id));
                        let m = choose|m: int| #![trigger before[m]] 0 <= m < before.len() && before[m].id == id;
                        assert(now_out[m] == before[m]);
                    } else if !seen {
                        assert(now_out[now_out.len() - 1].id == id);
                    } else {
                        assert(has_device(before, id));
                        let m = choose|m: int| #![trigger before[m]] 0 <= m < before.len() && before[m].id == id;
                        assert(now_out[m] == before[m]);
                    }
                }
                if has_device(now_out, id) {
                    let m = choose|m: int| #![trigger now_out[m]] 0 <= m < now_out.len() && now_out[m].id == id;
                    if m < before.len() {
                        assert(now_out[m] == before[m]);
                        assert(has_device(before, id));
                        let j = choose|j: int| #![trigger prefix[j]] 0 <= j < prefix.len() && prefix[j].id == id;
                        assert(next[j].id == id);
                    } else {
                        assert(next[k as int].id == id);
                    }
                }
            }
        }
        k = k + 1;
    }
    assert(replaced.take(k as int) =~= replaced);
    settings.devices = out;
}

/// `i` is the first position of its id in `ds`.
pub open spec fn first_of_its_id(ds: Seq<DeviceRecord>, i: int) -> bool {
    0 <= i < ds.len() && forall|j: int| 0 <= j < i ==> #[trigger] ds[j].id != ds[i].id
}

proof fn lemma_first_of_each_id_ids(ds: Seq<DeviceRecord>)
    ensures
        forall|id: Seq<char>|
            #[trigger] has_device(first_of_each_id(ds), id) == has_device(ds, id),
    decreases ds.len(),
{
    if ds.len() > 0 {
        let prev = ds.drop_last();
        let last = ds.last();
        lemma_first_of_each_id_ids(prev);
        let r = first_of_each_id(prev);
        let out = first_of_each_id(ds);
        assert forall|id: Seq<char>| #[trigger] has_device(out, id) == has_device(ds, id) by {
            if has_device(ds, id) {
                let j = choose|j: int| #![trigger ds[j]] 0 <= j < ds.len() && ds[j].id == id;
                if j < prev.len() {
                    assert(prev[j].id == id);
                    assert(has_device(r, id));
                    let m = choose|m: int| #![trigger r[m]] 0 <= m < r.len() && r[m].id == id;
                    if !has_device(prev, last.id) {
                        assert(out[m].id == id);
                    }
                } else if !has_device(prev, last.id) {
                    assert(out[out.len() - 1].id == id);
                } else {
                    assert(has_device(r, last.id));
                }
            }
            if has_device(out, id) {
                let m = choose|m: int| #![trigger out[m]] 0 <= m < out.len() && out[m].id == id;
                if m < r.len() {
                    assert(r[m].id == id);
                    assert(has_device(r, id));
                    let j = choose|j: int| #![trigger prev[j]] 0 <= j < prev.len() && prev[j].id == id;
                    assert(ds[j].id == id);
                } else {
                    assert(ds[ds.len() - 1].id == id);
                }
            }
        }
    }
}

proof fn lemma_first_of_each_id_unique(ds: Seq<DeviceRecord>)
    ensures
        unique_device_ids(first_of_each_id(ds)),
    decreases ds.len(),
{
    if ds.len() > 0 {
        let prev = ds.drop_last();
        let last = ds.last();
        lemma_first_of_each_id_unique(prev);
        lemma_first_of_each_id_ids(prev);
        let r = first_of_each_id(prev);
        let out = first_of_each_id(ds);
        if !has_device(prev, last.id) {
            assert(!has_device(r, last.id));
            assert forall|a: int, b: int|
                0 <= a < out.len() && 0 <= b < out.len() && #[trigger] out[a].id == #[trigger] out[b].id implies a
                == b by {
                if a < r.len() && b == r.len() {
                    assert(r[a].id == last.id);
                }
                if b < r.len() && a == r.len() {
                    assert(r[b].id == last.id);
                }
                if a < r.len() && b < r.len() {
                    assert(r[a] == out[a] && r[b] == out[b]);
                }
            }
        }
    }
}

proof fn lemma_first_of_each_id_keeps_first(ds: Seq<DeviceRecord>)
    ensures
        forall|i: int| first_of_its_id(ds, i) ==> first_of_each_id(ds).contains(#[trigger] ds[i]),
    decreases ds.len(),
{
    if ds.len() > 0 {
        let prev = ds.drop_last();
        let last = ds.last();
        lemma_first_of_each_id_keeps_first(prev);
        let r = first_of_each_id(prev);
        let out = first_of_each_id(ds);
        assert forall|i: int| first_of_its_id(ds, i) implies out.contains(#[trigger] ds[i]) by {
            if i < prev.len() {
                assert forall|j: int| 0 <= j < i implies #[trigger] prev[j].id != prev[i].id by {
                    assert(ds[j].id != ds[i].id);
                }
                assert(first_of_its_id(prev, i));
                assert(r.contains(prev[i]));
                let m = choose|m: int| 0 <= m < r.len() && r[m] == prev[i];
                if !has_device(prev, last.id) {
                    assert(out[m] == ds[i]);
                }
            } else if has_device(prev, last.id) {
                let j = choose|j: int| #![trigger prev[j]] 0 <= j < prev.len() && prev[j].id == last.id;
                assert(ds[j].id != ds[i].id);
            } else {
                assert(out[out.len() - 1] == ds[i]);
            }
        }
    }
}

proof fn lemma_first_device_index(ds: Seq<DeviceRecord>, id: Seq<char>)
    requires
        has_device(ds, id),
    ensures
        0 <= first_device_index(ds, id) < ds.len(),
        ds[first_device_index(ds, id)].id == id,
        forall|j: int| 0 <= j < first_device_index(ds, id) ==> #[trigger] ds[j].id != id,
    decreases ds.len(),
{
    let prev = ds.drop_last();
    if has_device(prev, id) {
        lemma_first_device_index(prev, id);
        let f = first_device_index(prev, id);
        assert(ds[f].id == id);
        assert(forall|j: int| 0 <= j < f ==> #[trigger] ds[j].id != id) by {
            assert(forall|j: int| 0 <= j < f ==> ds[j] == prev[j]);
        }
    } else {
        let n = ds.len() - 1;
        let j0 = choose|j: int| #![trigger ds[j]] 0 <= j < ds.len() && ds[j].id == id;
        if j0 < n {
            assert(prev[j0].id == id);
        }
        assert(forall|j: int| 0 <= j < n ==> #[trigger] ds[j].id != id) by {
            assert forall|j: int| 0 <= j < n implies #[trigger] ds[j].id != id by {
                if ds[j].id == id {
                    assert(prev[j].id == id);
                }
            }
        }
    }
}

/// Saving a device leaves every saved id once, the device itself saved, and
/// the saved ids those saved before plus the device's.
pub proof fn lemma_upsert_device_result(ds: Seq<DeviceRecord>, d: DeviceRecord)
    ensures
        unique_device_ids(device_upserted(ds, d)),
        device_upserted(ds, d).contains(d),
        forall|id: Seq<char>|
            #[trigger] has_device(device_upserted(ds, d), id) == (has_device(ds, id) || id == d.id),
{
    let replaced = device_replaced(ds, d);
    lemma_first_of_each_id_ids(replaced);
    lemma_first_of_each_id_unique(replaced);
    lemma_first_of_each_id_keeps_first(replaced);
    if has_device(ds, d.id) {
        lemma_first_device_index(ds, d.id);
        let f = first_device_index(ds, d.id);
        assert(replaced[f] == d);
        assert forall|j: int| 0 <= j < f implies #[trigger] replaced[j].id != replaced[f].id by {
            assert(ds[j].id != d.id);
        }
        assert(first_of_its_id(replaced, f));
        assert forall|id: Seq<char>| #[trigger] has_device(replaced, id) == (has_device(ds, id) || id
            == d.id) by {
            if has_device(ds, id) {
                let j = choose|j: int| #![trigger ds[j]] 0 <= j < ds.len() && ds[j].id == id;
                if j == f {
                    assert(replaced[f].id == id);
                } else {
                    assert(replaced[j].id == id);
                }
            }
            if has_device(replaced, id) {
                let j = choose|j: int| #![trigger replaced[j]] 0 <= j < replaced.len() && replaced[j].id == id;
                if j != f {
                    assert(ds[j].id == id);
                }
            }
            if id == d.id {
                assert(replaced[f].id == id);
            }
        }
    } else {
        let n = ds.len() as int;
        assert(replaced[n] == d);
        assert forall|j: int| 0 <= j < n implies #[trigger] replaced[j].id != replaced[n].id by {
            assert(replaced[j] == ds[j]);
        }
        assert(first_of_its_id(replaced, n));
        assert forall|id: Seq<char>| #[trigger] has_device(replaced, id) == (has_device(ds, id) || id
            == d.id) by {
            if has_device(ds, id) {
                let j = choose|j: int| #![trigger ds[j]] 0 <= j < ds.len() && ds[j].id == id;
                assert(replaced[j].id == id);
            }
            if has_device(replaced, id) {
                let j = choose|j: int| #![trigger replaced[j]] 0 <= j < replaced.len() && replaced[j].id == id;
                if j < n {
                    assert(ds[j].id == id);
                }
            }
            if id == d.id {
                assert(replaced[n].id == id);
            }
        }
    }
}

} // verus!
