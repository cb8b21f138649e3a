//! The snapshot packet that the bridge writes to the display over Bluetooth LE.
//!
//! A packet is a 6-byte header (`C`, `X`, the protocol version, a sequence
//! number, the number of task records that follow and the number of tasks in
//! all, capped at 255) followed by one record per shown task, at most
//! `MAX_VISIBLE_TASKS` of them: the FNV-1a hash of the task id (4 bytes, little
//! endian), the state code, the attention flag, the elapsed seconds capped at
//! 65535 (2 bytes, little endian), the title length and the title, cut to at
//! most `MAX_TITLE_BYTES` bytes on a character boundary.
use vstd::prelude::*;
use vstd::string::StringSliceAdditionalSpecFns;
use vstd::utf8::{
    decode_utf8, encode_scalar, encode_utf8, is_char_boundary, length_of_first_scalar,
    pop_first_scalar, valid_utf8,
};

use crate::model::{seconds_since, task_records, unix_now, TaskRecord, TaskView};
use crate::text::{append_bytes, lemma_encode_utf8_concat, trim_chars, trim_text};

verus! {

broadcast use vstd::utf8::encode_utf8_decode_utf8, vstd::utf8::encode_utf8_valid_utf8,
    vstd::utf8::is_char_boundary_start_end_of_seq;

/// The version of the packet layout.
pub const PROTOCOL_VERSION: u8 = 1;

/// The most task records that a packet carries.
pub const MAX_VISIBLE_TASKS: usize = 4;

/// The most title bytes that a task record carries.
pub const MAX_TITLE_BYTES: usize = 32;

/// FNV-1a offset basis for 32-bit hashes.
pub const FNV_OFFSET: u32 = 0x811c9dc5;

/// FNV-1a prime for 32-bit hashes.
pub const FNV_PRIME: u32 = 0x01000193;

/// The 32-bit FNV-1a hash of `bytes`, folded from the first byte to the last.
pub open spec fn spec_fnv1a32(bytes: Seq<u8>) -> u32
    decreases bytes.len(),
{
    if bytes.len() == 0 {
        FNV_OFFSET
    } else {
        let h = spec_fnv1a32(bytes.drop_last()) ^ (bytes.last() as u32);
        ((h as nat * FNV_PRIME as nat) % 0x1_0000_0000) as u32
    }
}

/// Hashes `bytes` with 32-bit FNV-1a.
pub fn fnv1a32(bytes: &[u8]) -> (hash: u32)
    ensures
        hash == spec_fnv1a32(bytes@),
{
    let mut hash: u32 = FNV_OFFSET;
    let mut i: usize = 0;
    while i < bytes.len()
        invariant
            i <= bytes.len(),
            hash == spec_fnv1a32(bytes@.take(i as int)),
        decreases bytes.len() - i,
    {
        assert(bytes@.take(i + 1).drop_last() =~= bytes@.take(i as int));
        hash = hash ^ (bytes[i] as u32);
        hash = hash.wrapping_mul(FNV_PRIME);
        i = i + 1;
    }
    assert(bytes@.take(i as int) =~= bytes@);
    hash
}

/// The 4 little-endian bytes of `x`.
pub open spec fn le_bytes_u32(x: u32) -> Seq<u8> {
    seq![
        (x % 0x100) as u8,
        ((x / 0x100) % 0x100) as u8,
        ((x / 0x1_0000) % 0x100) as u8,
        ((x / 0x100_0000) % 0x100) as u8,
    ]
}

/// The 2 little-endian bytes of `x`.
pub open spec fn le_bytes_u16(x: u16) -> Seq<u8> {
    seq![(x % 0x100) as u8, ((x / 0x100) % 0x100) as u8]
}

/// The largest character boundary of `bytes` that is at most `end`.
pub open spec fn boundary_at_most(bytes: Seq<u8>, end: int) -> int
    decreases end,
{
    if end <= 0 {
        0
    } else if is_char_boundary(bytes, end) {
        end
    } else {
        boundary_at_most(bytes, end - 1)
    }
}

/// The longest prefix of the UTF-8 text `bytes` that ends on a character
/// boundary and has at most `max` bytes.
pub open spec fn utf8_prefix_bytes(bytes: Seq<u8>, max: int) -> Seq<u8> {
    if bytes.len() <= max {
        bytes
    } else {
        bytes.take(boundary_at_most(bytes, max))
    }
}

/// The title bytes that a task record carries: the trimmed title, cut to
/// `MAX_TITLE_BYTES`.
pub open spec fn title_bytes(title: Seq<char>) -> Seq<u8> {
    utf8_prefix_bytes(encode_utf8(trim_chars(title)), MAX_TITLE_BYTES as int)
}

/// The elapsed seconds that a task record carries, capped at 65535.
pub open spec fn elapsed_field(t: TaskRecord, now: u64) -> u16 {
    let secs = seconds_since(now, t.started_at);
    if secs > 0xffff {
        0xffff
    } else {
        secs as u16
    }
}

/// The bytes of one task record at time `now`.
pub open spec fn task_bytes(t: TaskRecord, now: u64) -> Seq<u8> {
    let title = title_bytes(t.title);
    le_bytes_u32(spec_fnv1a32(encode_utf8(t.id))) + seq![
        t.state.wire_code(),
        if t.attention {
            1u8
        } else {
            0u8
        },
    ] + le_bytes_u16(elapsed_field(t, now)) + seq![title.len() as u8] + title
}

/// The records of `tasks`, one after the other.
pub open spec fn tasks_bytes(tasks: Seq<TaskRecord>, now: u64) -> Seq<u8>
    decreases tasks.len(),
{
    if tasks.len() == 0 {
        Seq::empty()
    } else {
        tasks_bytes(tasks.drop_last(), now) + task_bytes(tasks.last(), now)
    }
}

/// How many task records a packet for `n` tasks carries.
pub open spec fn visible_count(n: nat) -> nat {
    if n < MAX_VISIBLE_TASKS {
        n
    } else {
        MAX_VISIBLE_TASKS as nat
    }
}

/// The number of tasks that a packet for `n` tasks reports, capped at 255.
pub open spec fn total_count(n: nat) -> nat {
    if n < 255 {
        n
    } else {
        255
    }
}

/// The packet that describes `tasks`, in display order, at time `now`.
pub open spec fn snapshot_packet(sequence: u8, tasks: Seq<TaskRecord>, now: u64) -> Seq<u8> {
    let visible = visible_count(tasks.len());
    seq![0x43u8, 0x58u8, PROTOCOL_VERSION, sequence, visible as u8, total_count(tasks.len()) as u8]
        + tasks_bytes(tasks.take(visible as int), now)
}

/// Cuts `value` to at most `max_bytes` bytes, on a character boundary.
fn utf8_prefix(value: &str, max_bytes: usize) -> (r: &str)
    ensures
        r.spec_bytes() == utf8_prefix_bytes(value.spec_bytes(), max_bytes as int),
{
    if value.as_bytes().len() <= max_bytes {
        return value;
    }
    let ghost bytes = value.spec_bytes();
    let mut end = max_bytes;
    while !value.is_char_boundary(end)
        invariant
            bytes == value.spec_bytes(),
            valid_utf8(bytes),
            end <= max_bytes < bytes.len(),
            boundary_at_most(bytes, end as int) == boundary_at_most(bytes, max_bytes as int),
        decreases end,
    {
        assert(end > 0);
        end = end - 1;
    }
    let (head, _) = value.split_at(end);
    assert(bytes.subrange(0, end as int) =~= bytes.take(end as int));
    head
}

/// Writes the 4 little-endian bytes of `x`.
fn push_u32_le(out: &mut Vec<u8>, x: u32)
    ensures
        final(out)@ == old(out)@ + le_bytes_u32(x),
{
    out.push((x % 0x100) as u8);
    out.push(((x / 0x100) % 0x100) as u8);
    out.push(((x / 0x1_0000) % 0x100) as u8);
    out.push(((x / 0x100_0000) % 0x100) as u8);
    assert(out@ =~= old(out)@ + le_bytes_u32(x));
}

/// Writes the 2 little-endian bytes of `x`.
fn push_u16_le(out: &mut Vec<u8>, x: u16)
    ensures
        final(out)@ == old(out)@ + le_bytes_u16(x),
{
    out.push((x % 0x100) as u8);
    out.push(((x / 0x100) % 0x100) as u8);
    assert(out@ =~= old(out)@ + le_bytes_u16(x));
}

/// Writes the record of one task at time `now`.
fn push_task(out: &mut Vec<u8>, task: &TaskView, now: u64)
    ensures
        final(out)@ == old(out)@ + task_bytes(task@, now),
{
    push_u32_le(out, fnv1a32(task.id.as_str().as_bytes()));
    out.push(task.state.code());
    out.push(if task.attention {
        1
    } else {
        0
    });
    let secs = task.elapsed(now);
    let elapsed: u16 = if secs > 0xffff {
        0xffff
    } else {
        secs as u16
    };
    push_u16_le(out, elapsed);
    let title = utf8_prefix(trim_text(task.title.as_str()), MAX_TITLE_BYTES);
    let title_len = title.as_bytes().len();
    proof {
        lemma_title_bytes_short(task@.title);
    }
    out.push(title_len as u8);
    append_bytes(out, title.as_bytes());
    let ghost t = task@;
    assert(out@ =~= old(out)@ + task_bytes(t, now));
}

/// The packet that describes `tasks`, in display order, at time `now`.
pub fn encode_snapshot_at(sequence: u8, tasks: &[TaskView], now: u64) -> (packet: Vec<u8>)
    ensures
        packet@ == snapshot_packet(sequence, task_records(tasks@), now),
{
    let visible = if tasks.len() < MAX_VISIBLE_TASKS {
        tasks.len()
    } else {
        MAX_VISIBLE_TASKS
    };
    let total: u8 = if tasks.len() < 255 {
        tasks.len() as u8
    } else {
        255
    };
    let mut out: Vec<u8> = Vec::with_capacity(180);
    out.push(0x43);
    out.push(0x58);
    out.push(PROTOCOL_VERSION);
    out.push(sequence);
    out.push(visible as u8);
    out.push(total);
    let ghost header = out@;
    let ghost recs = task_records(tasks@);
    let mut i: usize = 0;
    while i < visible
        invariant
            visible <= tasks@.len(),
            recs == task_records(tasks@),
            i <= visible,
            out@ == header + tasks_bytes(recs.take(i as int), now),
        decreases visible - i,
    {
        push_task(&mut out, &tasks[i], now);
        assert(recs.take(i + 1).drop_last() =~= recs.take(i as int));
        i = i + 1;
    }
    out
}

/// The packet that describes `tasks`, in display order, at the current time.
pub fn encode_snapshot(sequence: u8, tasks: &[TaskView]) -> (packet: Vec<u8>)
    ensures
        exists|now: u64| packet@ == #[trigger] snapshot_packet(sequence, task_records(tasks@), now),
{
    let now = unix_now();
    encode_snapshot_at(sequence, tasks, now)
}

/// The packet that opens a connection: `C`, `X`, the protocol version, 0.
pub fn encode_hello() -> (hello: [u8; 4])
    ensures
        hello@ == seq![0x43u8, 0x58u8, PROTOCOL_VERSION, 0u8],
{
    [0x43, 0x58, PROTOCOL_VERSION, 0]
}

proof fn lemma_boundary_at_most(bytes: Seq<u8>, end: int)
    requires
        valid_utf8(bytes),
        0 <= end <= bytes.len(),
    ensures
        0 <= boundary_at_most(bytes, end) <= end,
        is_char_boundary(bytes, boundary_at_most(bytes, end)),
    decreases end,
{
    if end > 0 && !is_char_boundary(bytes, end) {
        lemma_boundary_at_most(bytes, end - 1);
    }
}

/// A title field holds at most `MAX_TITLE_BYTES` bytes.
pub proof fn lemma_title_bytes_short(title: Seq<char>)
    ensures
        title_bytes(title).len() <= MAX_TITLE_BYTES,
{
    let bytes = encode_utf8(trim_chars(title));
    if bytes.len() > MAX_TITLE_BYTES {
        lemma_boundary_at_most(bytes, MAX_TITLE_BYTES as int);
    }
}

proof fn lemma_task_bytes_len(t: TaskRecord, now: u64)
    ensures
        task_bytes(t, now).len() <= 9 + MAX_TITLE_BYTES,
{
    lemma_title_bytes_short(t.title);
}

proof fn lemma_tasks_bytes_len(tasks: Seq<TaskRecord>, now: u64)
    ensures
        tasks_bytes(tasks, now).len() <= (9 + MAX_TITLE_BYTES) * tasks.len(),
    decreases tasks.len(),
{
    if tasks.len() > 0 {
        lemma_tasks_bytes_len(tasks.drop_last(), now);
        lemma_task_bytes_len(tasks.last(), now);
    }
}

/// A snapshot packet never exceeds 170 bytes, so it fits in the 182-byte
/// payload of a default Bluetooth LE MTU whatever the tasks are.
pub proof fn lemma_packet_fits_mtu(sequence: u8, tasks: Seq<TaskRecord>, now: u64)
    ensures
        snapshot_packet(sequence, tasks, now).len() <= 6 + MAX_VISIBLE_TASKS * (9
            + MAX_TITLE_BYTES),
        snapshot_packet(sequence, tasks, now).len() <= 182,
{
    let visible = visible_count(tasks.len());
    let body = tasks_bytes(tasks.take(visible as int), now);
    lemma_tasks_bytes_len(tasks.take(visible as int), now);
    let n = body.len() as int;
    let v = visible as int;
    assert(n <= 41 * v);
    assert(v <= 4);
    assert(n <= 164) by (nonlinear_arith)
        requires
            n <= 41 * v,
            v <= 4,
    ;
}

/// The title field of a record is well-formed UTF-8 and spells the beginning
/// of the task's trimmed title.
pub proof fn lemma_title_is_prefix_of_title(title: Seq<char>)
    ensures
        valid_utf8(title_bytes(title)),
        decode_utf8(title_bytes(title)).len() <= trim_chars(title).len(),
        trim_chars(title).take(decode_utf8(title_bytes(title)).len() as int) == decode_utf8(
            title_bytes(title),
        ),
{
    let chars = trim_chars(title);
    let bytes = encode_utf8(chars);
    if bytes.len() <= MAX_TITLE_BYTES {
        assert(chars.take(chars.len() as int) =~= chars);
    } else {
        let end = boundary_at_most(bytes, MAX_TITLE_BYTES as int);
        lemma_boundary_at_most(bytes, MAX_TITLE_BYTES as int);
        vstd::utf8::valid_utf8_split(bytes, end);
        vstd::utf8::decode_utf8_split(bytes, end);
        assert(bytes.take(end) =~= bytes.subrange(0, end));
        let head = decode_utf8(bytes.subrange(0, end));
        assert(chars =~= head + decode_utf8(bytes.subrange(end, bytes.len() as int)));
        assert(chars.take(head.len() as int) =~= head);
    }
}

proof fn lemma_boundary_at_most_is_largest(bytes: Seq<u8>, end: int, j: int)
    requires
        valid_utf8(bytes),
        0 <= j <= end <= bytes.len(),
        is_char_boundary(bytes, j),
    ensures
        j <= boundary_at_most(bytes, end),
    decreases end,
{
    if end > j && !is_char_boundary(bytes, end) {
        lemma_boundary_at_most_is_largest(bytes, end - 1, j);
    }
}

/// The end of the encoding of every prefix of a text is a character boundary
/// of the text's encoding.
proof fn lemma_prefix_end_is_boundary(chars: Seq<char>, k: int)
    requires
        0 <= k <= chars.len(),
    ensures
        is_char_boundary(encode_utf8(chars), encode_utf8(chars.take(k)).len() as int),
    decreases chars.len(),
{
    let bytes = encode_utf8(chars);
    if k > 0 {
        let rest = chars.drop_first();
        vstd::utf8::encode_utf8_first_scalar(chars);
        assert(pop_first_scalar(bytes) =~= encode_utf8(rest));
        lemma_prefix_end_is_boundary(rest, k - 1);
        assert(chars.take(k).drop_first() =~= rest.take(k - 1));
        assert(chars.take(k)[0] == chars[0]);
        let first = encode_scalar(chars[0] as u32);
        assert(encode_utf8(chars.take(k)) == first + encode_utf8(rest.take(k - 1)));
        assert(encode_utf8(rest.take(k - 1)).len() <= encode_utf8(rest).len()) by {
            lemma_encode_utf8_concat(rest.take(k - 1), rest.skip(k - 1));
            assert(rest =~= rest.take(k - 1) + rest.skip(k - 1));
        }
        assert(length_of_first_scalar(bytes) == first.len());
    }
}

/// The title field is the longest beginning of the trimmed title that fits:
/// with one more character it would exceed `MAX_TITLE_BYTES` bytes.
pub proof fn lemma_title_is_longest_fitting_prefix(title: Seq<char>)
    ensures
        ({
            let chars = trim_chars(title);
            let n = decode_utf8(title_bytes(title)).len() as int;
            n < chars.len() ==> encode_utf8(chars.take(n + 1)).len() > MAX_TITLE_BYTES
        }),
{
    let chars = trim_chars(title);
    let bytes = encode_utf8(chars);
    let t = title_bytes(title);
    lemma_title_is_prefix_of_title(title);
    let n = decode_utf8(t).len() as int;
    if n < chars.len() {
        if bytes.len() <= MAX_TITLE_BYTES {
            assert(t == bytes);
            assert(n == chars.len());
        } else {
            let e = boundary_at_most(bytes, MAX_TITLE_BYTES as int);
            lemma_boundary_at_most(bytes, MAX_TITLE_BYTES as int);
            assert(t == bytes.take(e));
            assert(chars.take(n) == decode_utf8(t));
            vstd::utf8::decode_utf8_encode_utf8(t);
            assert(encode_utf8(chars.take(n)) == t);
            assert(t.len() == e);
            let longer = chars.take(n + 1);
            assert(longer =~= chars.take(n) + seq![chars[n]]);
            lemma_encode_utf8_concat(chars.take(n), seq![chars[n]]);
            let one = seq![chars[n]];
            assert(one[0] == chars[n]);
            assert(one.drop_first() =~= Seq::<char>::empty());
            assert(encode_utf8(one) == encode_scalar(one[0] as u32) + encode_utf8(one.drop_first()));
            assert(encode_scalar(chars[n] as u32).len() >= 1);
            assert(encode_utf8(one).len() >= 1);
            let j = encode_utf8(longer).len() as int;
            assert(j > e);
            lemma_prefix_end_is_boundary(chars, n + 1);
            assert(j <= bytes.len()) by {
                lemma_encode_utf8_concat(longer, chars.skip(n + 1));
                assert(chars =~= longer + chars.skip(n + 1));
            }
            if j <= MAX_TITLE_BYTES {
                lemma_boundary_at_most_is_largest(bytes, MAX_TITLE_BYTES as int, j);
            }
        }
    }
}

/// A packet for one task is the header followed by that task's record.
#[verifier::rlimit(30)]
proof fn lemma_one_task_packet(sequence: u8, t: TaskRecord, now: u64)
    ensures
        snapshot_packet(sequence, seq![t], now) == seq![0x43u8, 0x58u8, PROTOCOL_VERSION, sequence, 1u8, 1u8]
            + task_bytes(t, now),
{
    let one = seq![t];
    assert(one.len() == 1);
    assert(visible_count(1) == 1);
    assert(total_count(1) == 1);
    assert(one.take(1) =~= one);
    assert(one.drop_last() =~= Seq::<TaskRecord>::empty());
    assert(one.last() == t);
    assert(tasks_bytes(Seq::<TaskRecord>::empty(), now) =~= Seq::<u8>::empty());
    assert(tasks_bytes(one, now) == tasks_bytes(one.drop_last(), now) + task_bytes(t, now));
    assert(tasks_bytes(one, now) =~= task_bytes(t, now));
}

/// A record does not depend on the task's update time.
proof fn lemma_record_ignores_update_time(t: TaskRecord, now: u64, updated_at: u64)
    ensures
        task_bytes(t, now) == task_bytes(TaskRecord { updated_at, ..t }, now),
{
    let t2 = TaskRecord { updated_at, ..t };
    assert(elapsed_field(t2, now) == elapsed_field(t, now));
    assert(t2.id == t.id && t2.title == t.title && t2.state == t.state && t2.attention
        == t.attention);
}

/// Bytes 6 and 7 of a record are the elapsed field, little endian.
proof fn lemma_record_elapsed_bytes(t: TaskRecord, now: u64)
    ensures
        task_bytes(t, now).len() >= 8,
        task_bytes(t, now)[6] + 256 * task_bytes(t, now)[7] == elapsed_field(t, now),
{
    let e = elapsed_field(t, now);
    let b = task_bytes(t, now);
    let head = le_bytes_u32(spec_fnv1a32(encode_utf8(t.id))) + seq![
        t.state.wire_code(),
        if t.attention {
            1u8
        } else {
            0u8
        },
    ];
    assert(head.len() == 6);
    assert(b[6] == le_bytes_u16(e)[0]);
    assert(b[7] == le_bytes_u16(e)[1]);
    assert((e % 0x100) + 256 * ((e / 0x100) % 0x100) == e) by (nonlinear_arith)
        requires
            e < 0x10000,
    ;
}

/// The record of a task carries, in bytes 6 and 7 (little endian), the whole
/// seconds since the task started, capped at 65535 and 0 before the start; in
/// a packet for one task these are bytes 12 and 13. The update time does not
/// change the packet.
pub proof fn lemma_elapsed_is_time_since_start(sequence: u8, t: TaskRecord, now: u64, updated_at: u64)
    ensures
        ({
            let packet = snapshot_packet(sequence, seq![t], now);
            let secs: int = if now >= t.started_at {
                now - t.started_at
            } else {
                0
            };
            &&& packet.len() >= 14
            &&& packet[12] + 256 * packet[13] == (if secs > 65535 {
                65535
            } else {
                secs
            })
            &&& packet == snapshot_packet(
                sequence,
                seq![TaskRecord { updated_at, ..t }],
                now,
            )
        }),
{
    lemma_one_task_packet(sequence, t, now);
    lemma_one_task_packet(sequence, TaskRecord { updated_at, ..t }, now);
    lemma_record_ignores_update_time(t, now, updated_at);
    lemma_record_elapsed_bytes(t, now);
    let packet = snapshot_packet(sequence, seq![t], now);
    let b = task_bytes(t, now);
    assert(packet[12] == b[6]);
    assert(packet[13] == b[7]);
}

} // verus!
