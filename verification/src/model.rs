//! The tasks that the bridge shows: their states, the events that drive them
//! and the store that keeps them.
use vstd::prelude::*;

use crate::text::{
    ascii_lowercase, bytes_contain, file_name_spec, lower_contains, path_file_name, text_eq,
    trim_chars, trim_text,
};

verus! {

// ---------------------------------------------------------------------------
// Task states
// ---------------------------------------------------------------------------

/// What a task is doing, as the display shows it.
#[derive(Clone, Copy, Debug, PartialEq, Eq, Structural)]
pub enum TaskState {
    Thinking,
    Editing,
    Running,
    Testing,
    Waiting,
    Done,
    Error,
}

impl TaskState {
    /// The number that stands for the state on the wire.
    pub open spec fn wire_code(self) -> u8 {
        match self {
            TaskState::Thinking => 1,
            TaskState::Editing => 2,
            TaskState::Running => 3,
            TaskState::Testing => 4,
            TaskState::Waiting => 5,
            TaskState::Done => 6,
            TaskState::Error => 7,
        }
    }

    /// The number that stands for the state on the wire.
    pub fn code(self) -> (c: u8)
        ensures
            c == self.wire_code(),
    {
        match self {
            TaskState::Thinking => 1,
            TaskState::Editing => 2,
            TaskState::Running => 3,
            TaskState::Testing => 4,
            TaskState::Waiting => 5,
            TaskState::Done => 6,
            TaskState::Error => 7,
        }
    }
}

// ---------------------------------------------------------------------------
// Tasks
// ---------------------------------------------------------------------------

/// The mathematical content of a `TaskView`.
pub struct TaskRecord {
    pub id: Seq<char>,
    pub title: Seq<char>,
    pub cwd: Option<Seq<char>>,
    pub state: TaskState,
    pub attention: bool,
    pub updated_at: u64,
    pub started_at: u64,
}

/// One task as the display shows it.
#[derive(Debug)]
pub struct TaskView {
    pub id: String,
    pub title: String,
    pub cwd: Option<String>,
    pub state: TaskState,
    pub attention: bool,
    pub updated_at: u64,
    pub started_at: u64,
}

impl View for TaskView {
    type V = TaskRecord;

    open spec fn view(&self) -> TaskRecord {
        TaskRecord {
            id: self.id@,
            title: self.title@,
            cwd: self.cwd.deep_view(),
            state: self.state,
            attention: self.attention,
            updated_at: self.updated_at,
            started_at: self.started_at,
        }
    }
}

/// The records of a sequence of tasks, in the same order.
pub open spec fn task_records(tasks: Seq<TaskView>) -> Seq<TaskRecord> {
    tasks.map_values(|t: TaskView| t@)
}

/// Copies an optional string.
pub fn clone_text_opt(value: &Option<String>) -> (r: Option<String>)
    ensures
        r.deep_view() == value.deep_view(),
{
    match value {
        Some(s) => Some(s.clone()),
        None => None,
    }
}

impl Clone for TaskView {
    fn clone(&self) -> (r: Self)
        ensures
            r@ == self@,
    {
        TaskView {
            id: self.id.clone(),
            title: self.title.clone(),
            cwd: clone_text_opt(&self.cwd),
            state: self.state,
            attention: self.attention,
            updated_at: self.updated_at,
            started_at: self.started_at,
        }
    }
}

/// `now - then` in whole seconds, or 0 when `then` lies after `now`.
pub open spec fn seconds_since(now: u64, then: u64) -> u64 {
    if now >= then {
        (now - then) as u64
    } else {
        0
    }
}

impl TaskView {
    /// How long, in whole seconds, the task has been running at time `now`
    /// (0 if `now` lies before its start).
    pub fn elapsed(&self, now: u64) -> (secs: u64)
        ensures
            secs == seconds_since(now, self.started_at),
    {
        now.saturating_sub(self.started_at)
    }
}

// ---------------------------------------------------------------------------
// Events and metadata
// ---------------------------------------------------------------------------

/// A field of a JSON object: missing, a string, or a value of another kind.
#[derive(Debug)]
pub enum JsonField {
    Absent,
    Text(String),
    Other,
}

/// The mathematical content of a `JsonField`.
pub enum FieldRecord {
    Absent,
    Text(Seq<char>),
    Other,
}

impl View for JsonField {
    type V = FieldRecord;

    open spec fn view(&self) -> FieldRecord {
        match self {
            JsonField::Absent => FieldRecord::Absent,
            JsonField::Text(s) => FieldRecord::Text(s@),
            JsonField::Other => FieldRecord::Other,
        }
    }
}

/// What a Codex hook reports: the fields of its JSON event that the store
/// reads. String fields hold `None` when they are missing or not strings;
/// `tool_input` holds the compact JSON text of the `tool_input` value.
#[derive(Debug)]
pub struct HookEvent {
    pub session_id: Option<String>,
    pub hook_event_name: JsonField,
    pub event: JsonField,
    pub tool_name: Option<String>,
    pub cwd: Option<String>,
    pub tool_input: Option<String>,
}

/// The mathematical content of a `HookEvent`.
pub struct HookEventRecord {
    pub session_id: Option<Seq<char>>,
    pub hook_event_name: FieldRecord,
    pub event: FieldRecord,
    pub tool_name: Option<Seq<char>>,
    pub cwd: Option<Seq<char>>,
    pub tool_input: Option<Seq<char>>,
}

impl View for HookEvent {
    type V = HookEventRecord;

    open spec fn view(&self) -> HookEventRecord {
        HookEventRecord {
            session_id: self.session_id.deep_view(),
            hook_event_name: self.hook_event_name@,
            event: self.event@,
            tool_name: self.tool_name.deep_view(),
            cwd: self.cwd.deep_view(),
            tool_input: self.tool_input.deep_view(),
        }
    }
}

/// What the Codex app server reports about one thread.
#[derive(Debug)]
pub struct TaskMetadata {
    pub id: String,
    pub title: String,
    pub cwd: Option<String>,
    pub status: String,
    pub updated_at: Option<u64>,
}

/// The mathematical content of a `TaskMetadata`.
pub struct MetadataRecord {
    pub id: Seq<char>,
    pub title: Seq<char>,
    pub cwd: Option<Seq<char>>,
    pub status: Seq<char>,
    pub updated_at: Option<u64>,
}

impl View for TaskMetadata {
    type V = MetadataRecord;

    open spec fn view(&self) -> MetadataRecord {
        MetadataRecord {
            id: self.id@,
            title: self.title@,
            cwd: self.cwd.deep_view(),
            status: self.status@,
            updated_at: self.updated_at,
        }
    }
}

impl Clone for TaskMetadata {
    fn clone(&self) -> (r: Self)
        ensures
            r@ == self@,
    {
        TaskMetadata {
            id: self.id.clone(),
            title: self.title.clone(),
            cwd: clone_text_opt(&self.cwd),
            status: self.status.clone(),
            updated_at: self.updated_at,
        }
    }
}

/// The records of a sequence of metadata items, in the same order.
pub open spec fn metadata_records(items: Seq<TaskMetadata>) -> Seq<MetadataRecord> {
    items.map_values(|m: TaskMetadata| m@)
}

// ---------------------------------------------------------------------------
// Rules that turn events into states
// ---------------------------------------------------------------------------

/// The state shown while a tool runs: editing for patch/write/edit tools,
/// testing when the tool input names a test runner, running otherwise. Both
/// texts are compared after ASCII lowercasing.
pub open spec fn tool_state(tool_name: Seq<char>, tool_input: Seq<char>) -> TaskState {
    if lower_contains(tool_name, "patch"@) || lower_contains(tool_name, "write"@)
        || lower_contains(tool_name, "edit"@) {
        TaskState::Editing
    } else if lower_contains(tool_input, " test"@) || lower_contains(tool_input, "cargo test"@)
        || lower_contains(tool_input, "pio run"@) || lower_contains(tool_input, "npm test"@)
        || lower_contains(tool_input, "pytest"@) {
        TaskState::Testing
    } else {
        TaskState::Running
    }
}

/// The state and the attention flag that a hook event of the given name sets.
pub open spec fn hook_state(name: Seq<char>, tool_name: Seq<char>, tool_input: Seq<char>) -> (
    TaskState,
    bool,
) {
    if name == "PermissionRequest"@ {
        (TaskState::Waiting, true)
    } else if name == "Stop"@ || name == "SessionEnd"@ {
        (TaskState::Done, false)
    } else if name == "PreToolUse"@ {
        (tool_state(tool_name, tool_input), false)
    } else if name == "PostToolUseFailure"@ {
        (TaskState::Error, true)
    } else {
        (TaskState::Thinking, false)
    }
}

/// The state that an app-server thread status stands for.
pub open spec fn app_server_state(status: Seq<char>) -> TaskState {
    if status == "active"@ || status == "running"@ {
        TaskState::Thinking
    } else if status == "error"@ || status == "failed"@ {
        TaskState::Error
    } else {
        TaskState::Done
    }
}

/// The text of a field that holds a string.
pub open spec fn field_text(f: FieldRecord) -> Seq<char> {
    match f {
        FieldRecord::Text(s) => s,
        _ => Seq::empty(),
    }
}

/// The name of a hook event: `hook_event_name`, or `event` when the former is
/// missing; empty when the chosen field is not a string.
pub open spec fn hook_event_name_spec(e: HookEventRecord) -> Seq<char> {
    match e.hook_event_name {
        FieldRecord::Absent => field_text(e.event),
        other => field_text(other),
    }
}

/// The text of an optional string, empty when missing.
pub open spec fn text_or_empty(t: Option<Seq<char>>) -> Seq<char> {
    match t {
        Some(s) => s,
        None => Seq::empty(),
    }
}

/// The title of a task first seen through a hook: the last component of its
/// working directory, or `Codex task`.
pub open spec fn fallback_title(cwd: Option<Seq<char>>) -> Seq<char> {
    match cwd {
        Some(p) => match file_name_spec(p) {
            Some(name) => name,
            None => "Codex task"@,
        },
        None => "Codex task"@,
    }
}

/// Tells whether a tool's name or input marks it as editing or testing.
pub fn state_for_tool(tool_name: &str, tool_input: &str) -> (s: TaskState)
    ensures
        s == tool_state(tool_name@, tool_input@),
{
    let lower = ascii_lowercase(tool_name.as_bytes());
    let input = ascii_lowercase(tool_input.as_bytes());
    if bytes_contain(lower.as_slice(), "patch".as_bytes()) || bytes_contain(
        lower.as_slice(),
        "write".as_bytes(),
    ) || bytes_contain(lower.as_slice(), "edit".as_bytes()) {
        TaskState::Editing
    } else if bytes_contain(input.as_slice(), " test".as_bytes()) || bytes_contain(
        input.as_slice(),
        "cargo test".as_bytes(),
    ) || bytes_contain(input.as_slice(), "pio run".as_bytes()) || bytes_contain(
        input.as_slice(),
        "npm test".as_bytes(),
    ) || bytes_contain(input.as_slice(), "pytest".as_bytes()) {
        TaskState::Testing
    } else {
        TaskState::Running
    }
}

/// The state and attention flag that a hook event sets.
pub fn state_for_hook(name: &str, tool_name: &str, tool_input: &str) -> (r: (TaskState, bool))
    ensures
        r == hook_state(name@, tool_name@, tool_input@),
{
    if text_eq(name, "PermissionRequest") {
        (TaskState::Waiting, true)
    } else if text_eq(name, "Stop") || text_eq(name, "SessionEnd") {
        (TaskState::Done, false)
    } else if text_eq(name, "PreToolUse") {
        (state_for_tool(tool_name, tool_input), false)
    } else if text_eq(name, "PostToolUseFailure") {
        (TaskState::Error, true)
    } else {
        (TaskState::Thinking, false)
    }
}

/// The state that an app-server thread status stands for.
pub fn state_from_app_server(status: &str) -> (s: TaskState)
    ensures
        s == app_server_state(status@),
{
    if text_eq(status, "active") || text_eq(status, "running") {
        TaskState::Thinking
    } else if text_eq(status, "error") || text_eq(status, "failed") {
        TaskState::Error
    } else {
        TaskState::Done
    }
}

/// The title given to a task first seen through a hook.
pub fn title_from_cwd(cwd: &Option<String>) -> (t: String)
    ensures
        t@ == fallback_title(cwd.deep_view()),
{
    match cwd {
        Some(path) => match path_file_name(path.as_str()) {
            Some(name) => name.to_owned(),
            None => "Codex task".to_owned(),
        },
        None => "Codex task".to_owned(),
    }
}


// ---------------------------------------------------------------------------
// The store
// ---------------------------------------------------------------------------

/// No two records share an id.
pub open spec fn unique_ids(rs: Seq<TaskRecord>) -> bool {
    forall|i: int, j: int|
        #![trigger rs[i], rs[j]]
        0 <= i < rs.len() && 0 <= j < rs.len() && rs[i].id == rs[j].id ==> i == j
}

/// Some record of `rs` has the id `k`.
pub open spec fn has_id(rs: Seq<TaskRecord>, k: Seq<char>) -> bool {
    exists|j: int| #![trigger rs[j]] 0 <= j < rs.len() && rs[j].id == k
}

/// The records of `rs`, keyed by their ids.
pub open spec fn record_map(rs: Seq<TaskRecord>) -> Map<Seq<char>, TaskRecord> {
    Map::new(
        |k: Seq<char>| has_id(rs, k),
        |k: Seq<char>| rs[choose|j: int| #![trigger rs[j]] 0 <= j < rs.len() && rs[j].id == k],
    )
}

/// A task's record is kept at time `now`: finished tasks for a minute after
/// their last update, others for a day.
pub open spec fn kept_at(t: TaskRecord, now: u64) -> bool {
    seconds_since(now, t.updated_at) < if t.state == TaskState::Done {
        60u64
    } else {
        86_400u64
    }
}

/// The records of `m` that are kept at time `now`.
pub open spec fn pruned(m: Map<Seq<char>, TaskRecord>, now: u64) -> Map<Seq<char>, TaskRecord> {
    Map::new(|k: Seq<char>| m.dom().contains(k) && kept_at(m[k], now), |k: Seq<char>| m[k])
}

/// A task is shown at time `now`: unfinished tasks always, finished ones for
/// 20 seconds after their last update.
pub open spec fn shown_at(t: TaskRecord, now: u64) -> bool {
    t.state != TaskState::Done || seconds_since(now, t.updated_at) < 20
}

/// The records of `m` that are shown at time `now`.
pub open spec fn shown_part(m: Map<Seq<char>, TaskRecord>, now: u64) -> Map<
    Seq<char>,
    TaskRecord,
> {
    Map::new(|k: Seq<char>| m.dom().contains(k) && shown_at(m[k], now), |k: Seq<char>| m[k])
}

/// `a` must stand before `b` on the display: unfinished before finished, and
/// among equals the more recently updated first.
pub open spec fn shown_before(a: TaskRecord, b: TaskRecord) -> bool {
    (a.state != TaskState::Done && b.state == TaskState::Done) || ((a.state == TaskState::Done)
        == (b.state == TaskState::Done) && a.updated_at > b.updated_at)
}

/// No record of `list` must stand before an earlier one.
pub open spec fn in_display_order(list: Seq<TaskRecord>) -> bool {
    forall|i: int, j: int|
        #![trigger list[i], list[j]]
        0 <= i < j < list.len() ==> !shown_before(list[j], list[i])
}

/// `list` is what the display shows of the store `m` at time `now`: each shown
/// task once, in display order.
pub open spec fn is_display_list(
    m: Map<Seq<char>, TaskRecord>,
    list: Seq<TaskRecord>,
    now: u64,
) -> bool {
    &&& unique_ids(list)
    &&& record_map(list) == shown_part(m, now)
    &&& in_display_order(list)
}

/// What a hook event does to the store at time `now`. Without a session id
/// nothing; otherwise the session's task takes the event's state, attention
/// flag, update time and (when given) working directory; a task not seen
/// before is created, titled after its working directory and started now.
pub open spec fn hook_applied(
    m: Map<Seq<char>, TaskRecord>,
    e: HookEventRecord,
    now: u64,
) -> Map<Seq<char>, TaskRecord> {
    match e.session_id {
        None => m,
        Some(id) => {
            let (state, attention) = hook_state(
                hook_event_name_spec(e),
                text_or_empty(e.tool_name),
                text_or_empty(e.tool_input),
            );
            let task = if m.dom().contains(id) {
                let old = m[id];
                TaskRecord {
                    id: old.id,
                    title: old.title,
                    cwd: if e.cwd is Some {
                        e.cwd
                    } else {
                        old.cwd
                    },
                    state,
                    attention,
                    updated_at: now,
                    started_at: old.started_at,
                }
            } else {
                TaskRecord {
                    id,
                    title: fallback_title(e.cwd),
                    cwd: e.cwd,
                    state,
                    attention,
                    updated_at: now,
                    started_at: now,
                }
            };
            m.insert(id, task)
        },
    }
}

/// What one metadata item does to the store at time `now`. A known task takes
/// the item's title (unless it is blank) and working directory (when given);
/// an unknown one is created unless its status is `notLoaded`.
pub open spec fn metadata_merged(
    m: Map<Seq<char>, TaskRecord>,
    item: MetadataRecord,
    now: u64,
) -> Map<Seq<char>, TaskRecord> {
    if m.dom().contains(item.id) {
        let old = m[item.id];
        m.insert(
            item.id,
            TaskRecord {
                id: old.id,
                title: if trim_chars(item.title).len() > 0 {
                    item.title
                } else {
                    old.title
                },
                cwd: if item.cwd is Some {
                    item.cwd
                } else {
                    old.cwd
                },
                state: old.state,
                attention: old.attention,
                updated_at: old.updated_at,
                started_at: old.started_at,
            },
        )
    } else if item.status != "notLoaded"@ {
        let when = match item.updated_at {
            Some(t) => t,
            None => now,
        };
        m.insert(
            item.id,
            TaskRecord {
                id: item.id,
                title: item.title,
                cwd: item.cwd,
                state: app_server_state(item.status),
                attention: false,
                updated_at: when,
                started_at: when,
            },
        )
    } else {
        m
    }
}

/// The items merged into the store one after the other, in order.
pub open spec fn all_metadata_merged(
    m: Map<Seq<char>, TaskRecord>,
    items: Seq<MetadataRecord>,
    now: u64,
) -> Map<Seq<char>, TaskRecord>
    decreases items.len(),
{
    if items.len() == 0 {
        m
    } else {
        metadata_merged(all_metadata_merged(m, items.drop_last(), now), items.last(), now)
    }
}

proof fn lemma_record_map_at(rs: Seq<TaskRecord>, i: int)
    requires
        unique_ids(rs),
        0 <= i < rs.len(),
    ensures
        record_map(rs).dom().contains(rs[i].id),
        record_map(rs)[rs[i].id] == rs[i],
{
    let k = rs[i].id;
    assert(has_id(rs, k));
    let j = choose|j: int| #![trigger rs[j]] 0 <= j < rs.len() && rs[j].id == k;
    assert(rs[j].id == rs[i].id);
}

proof fn lemma_record_map_keys(rs: Seq<TaskRecord>, k: Seq<char>)
    requires
        record_map(rs).dom().contains(k),
    ensures
        record_map(rs)[k].id == k,
{
}

proof fn lemma_record_map_update(rs: Seq<TaskRecord>, i: int, r: TaskRecord)
    requires
        unique_ids(rs),
        0 <= i < rs.len(),
        rs[i].id == r.id,
    ensures
        unique_ids(rs.update(i, r)),
        record_map(rs.update(i, r)) == record_map(rs).insert(r.id, r),
{
    let rs2 = rs.update(i, r);
    assert forall|a: int, b: int|
        0 <= a < rs2.len() && 0 <= b < rs2.len() && #[trigger] rs2[a].id == #[trigger] rs2[b].id implies a
        == b by {
        assert(rs[a].id == rs2[a].id);
        assert(rs[b].id == rs2[b].id);
    }
    lemma_record_map_at(rs, i);
    lemma_record_map_at(rs2, i);
    assert forall|k: Seq<char>| #[trigger] has_id(rs2, k) == has_id(rs, k) by {
        if has_id(rs2, k) {
            let j = choose|j: int| #![trigger rs2[j]] 0 <= j < rs2.len() && rs2[j].id == k;
            assert(rs[j].id == k);
        }
        if has_id(rs, k) {
            let j = choose|j: int| #![trigger rs[j]] 0 <= j < rs.len() && rs[j].id == k;
            assert(rs2[j].id == k);
        }
    }
    assert forall|k: Seq<char>| #[trigger] record_map(rs).dom().contains(k) && k != r.id implies record_map(rs2)[k]
        == record_map(rs)[k] by {
        let j = choose|j: int| #![trigger rs[j]] 0 <= j < rs.len() && rs[j].id == k;
        lemma_record_map_at(rs, j);
        assert(rs2[j] == rs[j]);
        lemma_record_map_at(rs2, j);
    }
    assert(record_map(rs2) =~= record_map(rs).insert(r.id, r));
}

proof fn lemma_record_map_push(rs: Seq<TaskRecord>, r: TaskRecord)
    requires
        unique_ids(rs),
        !record_map(rs).dom().contains(r.id),
    ensures
        unique_ids(rs.push(r)),
        record_map(rs.push(r)) == record_map(rs).insert(r.id, r),
{
    let rs2 = rs.push(r);
    assert forall|a: int, b: int|
        0 <= a < rs2.len() && 0 <= b < rs2.len() && #[trigger] rs2[a].id == #[trigger] rs2[b].id implies a
        == b by {
        if a < rs.len() && b == rs.len() {
            assert(has_id(rs, rs[a].id));
        }
        if b < rs.len() && a == rs.len() {
            assert(has_id(rs, rs[b].id));
        }
    }
    lemma_record_map_at(rs2, rs.len() as int);
    assert forall|k: Seq<char>| #[trigger] has_id(rs2, k) == (has_id(rs, k) || k == r.id) by {
        if has_id(rs2, k) {
            let j = choose|j: int| #![trigger rs2[j]] 0 <= j < rs2.len() && rs2[j].id == k;
            if j < rs.len() {
                assert(rs[j].id == k);
            }
        }
        if has_id(rs, k) {
            let j = choose|j: int| #![trigger rs[j]] 0 <= j < rs.len() && rs[j].id == k;
            assert(rs2[j].id == k);
        }
    }
    assert forall|k: Seq<char>| #[trigger] record_map(rs).dom().contains(k) implies record_map(rs2)[k]
        == record_map(rs)[k] by {
        let j = choose|j: int| #![trigger rs[j]] 0 <= j < rs.len() && rs[j].id == k;
        lemma_record_map_at(rs, j);
        assert(rs2[j] == rs[j]);
        lemma_record_map_at(rs2, j);
    }
    assert(record_map(rs2) =~= record_map(rs).insert(r.id, r));
}

/// `ks` lists, without repeating any, exactly those records of `rs` that
/// satisfy `keep`: read as a map by id it is the part of `rs`'s map that
/// satisfies `keep`.
proof fn lemma_record_map_selection(
    rs: Seq<TaskRecord>,
    ks: Seq<TaskRecord>,
    src: Seq<int>,
    keep: spec_fn(TaskRecord) -> bool,
)
    requires
        unique_ids(rs),
        ks.len() == src.len(),
        forall|m: int|
            0 <= m < src.len() ==> 0 <= #[trigger] src[m] < rs.len() && ks[m] == rs[src[m]] && keep(
                rs[src[m]],
            ),
        forall|a: int, b: int|
            0 <= a < src.len() && 0 <= b < src.len() && a != b ==> #[trigger] src[a]
                != #[trigger] src[b],
        forall|j: int|
            0 <= j < rs.len() && #[trigger] keep(rs[j]) ==> exists|m: int|
                0 <= m < src.len() && src[m] == j,
    ensures
        unique_ids(ks),
        record_map(ks) == Map::new(
            |k: Seq<char>| record_map(rs).dom().contains(k) && keep(record_map(rs)[k]),
            |k: Seq<char>| record_map(rs)[k],
        ),
{
    let target = Map::new(
        |k: Seq<char>| record_map(rs).dom().contains(k) && keep(record_map(rs)[k]),
        |k: Seq<char>| record_map(rs)[k],
    );
    assert forall|a: int, b: int|
        0 <= a < ks.len() && 0 <= b < ks.len() && #[trigger] ks[a].id == #[trigger] ks[b].id implies a
        == b by {
        assert(rs[src[a]].id == rs[src[b]].id);
        assert(src[a] == src[b]);
    }
    assert forall|k: Seq<char>| #[trigger] has_id(ks, k) == target.dom().contains(k) by {
        if has_id(ks, k) {
            let m = choose|m: int| #![trigger ks[m]] 0 <= m < ks.len() && ks[m].id == k;
            lemma_record_map_at(rs, src[m]);
        }
        if target.dom().contains(k) {
            let j = choose|j: int| #![trigger rs[j]] 0 <= j < rs.len() && rs[j].id == k;
            lemma_record_map_at(rs, j);
            assert(keep(rs[j]));
            let m = choose|m: int| 0 <= m < src.len() && src[m] == j;
            assert(ks[m].id == k);
        }
    }
    assert forall|k: Seq<char>| #[trigger] record_map(ks).dom().contains(k) implies record_map(ks)[k]
        == target[k] by {
        let m = choose|m: int| #![trigger ks[m]] 0 <= m < ks.len() && ks[m].id == k;
        lemma_record_map_at(ks, m);
        lemma_record_map_at(rs, src[m]);
    }
    assert(record_map(ks) =~= target);
}

/// The tasks that the bridge knows of, keyed by their ids.
#[derive(Debug)]
pub struct TaskStore {
    tasks: Vec<TaskView>,
}

impl View for TaskStore {
    type V = Map<Seq<char>, TaskRecord>;

    closed spec fn view(&self) -> Map<Seq<char>, TaskRecord> {
        record_map(task_records(self.tasks@))
    }
}

impl Default for TaskStore {
    fn default() -> (s: Self)
        ensures
            s@ == Map::<Seq<char>, TaskRecord>::empty(),
    {
        let s = TaskStore { tasks: Vec::new() };
        assert(s@ =~= Map::<Seq<char>, TaskRecord>::empty());
        s
    }
}

impl TaskStore {
    #[verifier::type_invariant]
    spec fn ids_unique(self) -> bool {
        unique_ids(task_records(self.tasks@))
    }

    /// Every task is stored under its own id.
    pub proof fn lemma_keys_are_ids(&self, k: Seq<char>)
        requires
            self@.dom().contains(k),
        ensures
            self@[k].id == k,
    {
        lemma_record_map_keys(task_records(self.tasks@), k);
    }

    /// The position of the task with the given id.
    fn position(&self, id: &String) -> (r: Option<usize>)
        ensures
            match r {
                Some(i) => i < self.tasks@.len() && self.tasks@[i as int]@.id == id@
                    && self@.dom().contains(id@) && self@[id@] == self.tasks@[i as int]@,
                None => !self@.dom().contains(id@),
            },
    {
        proof {
            use_type_invariant(self);
        }
        let ghost rs = task_records(self.tasks@);
        let mut i: usize = 0;
        while i < self.tasks.len()
            invariant
                rs == task_records(self.tasks@),
                unique_ids(rs),
                i <= self.tasks@.len(),
                forall|j: int| 0 <= j < i ==> #[trigger] rs[j].id != id@,
            decreases self.tasks.len() - i,
        {
            if self.tasks[i].id == *id {
                proof {
                    lemma_record_map_at(rs, i as int);
                }
                return Some(i);
            }
            i = i + 1;
        }
        proof {
            if has_id(rs, id@) {
                let j = choose|j: int| #![trigger rs[j]] 0 <= j < rs.len() && rs[j].id == id@;
                assert(rs[j].id != id@);
            }
        }
        None
    }

    /// Stores `task` under its id, replacing the task stored there before.
    fn put(&mut self, task: TaskView)
        ensures
            final(self)@ == old(self)@.insert(task@.id, task@),
    {
        proof {
            use_type_invariant(&*self);
        }
        let found = self.position(&task.id);
        let ghost rs = task_records(self.tasks@);
        let ghost r = task@;
        let mut tasks: Vec<TaskView> = Vec::new();
        std::mem::swap(&mut tasks, &mut self.tasks);
        match found {
            Some(i) => {
                proof {
                    lemma_record_map_update(rs, i as int, r);
                }
                tasks.set(i, task);
                assert(task_records(tasks@) =~= rs.update(i as int, r));
            },
            None => {
                proof {
                    lemma_record_map_push(rs, r);
                }
                tasks.push(task);
                assert(task_records(tasks@) =~= rs.push(r));
            },
        }
        self.tasks = tasks;
    }

    /// Applies a hook event, stamped with time `now`.
    pub fn apply_hook_at(&mut self, event: &HookEvent, now: u64)
        ensures
            final(self)@ == hook_applied(old(self)@, event@, now),
    {
        let id = match &event.session_id {
            Some(id) => id,
            None => return ,
        };
        let name: &str = match &event.hook_event_name {
            JsonField::Absent => match &event.event {
                JsonField::Text(s) => s.as_str(),
                _ => "",
            },
            JsonField::Text(s) => s.as_str(),
            JsonField::Other => "",
        };
        let tool_name: &str = match &event.tool_name {
            Some(t) => t.as_str(),
            None => "",
        };
        let tool_input: &str = match &event.tool_input {
            Some(t) => t.as_str(),
            None => "",
        };
        proof {
            reveal_strlit("");
        }
        assert(name@ == hook_event_name_spec(event@));
        assert(tool_name@ == text_or_empty(event@.tool_name));
        assert(tool_input@ == text_or_empty(event@.tool_input));
        let (state, attention) = state_for_hook(name, tool_name, tool_input);
        let task = match self.position(id) {
            Some(i) => {
                let mut t = self.tasks[i].clone();
                t.state = state;
                t.attention = attention;
                t.updated_at = now;
                if event.cwd.is_some() {
                    t.cwd = clone_text_opt(&event.cwd);
                }
                t
            },
            None => TaskView {
                id: id.clone(),
                title: title_from_cwd(&event.cwd),
                cwd: clone_text_opt(&event.cwd),
                state,
                attention,
                updated_at: now,
                started_at: now,
            },
        };
        self.put(task);
    }

    /// Applies a hook event, stamped with the current time.
    pub fn apply_hook(&mut self, event: &HookEvent)
        ensures
            exists|now: u64| final(self)@ == #[trigger] hook_applied(old(self)@, event@, now),
    {
        let now = unix_now();
        self.apply_hook_at(event, now);
    }

    /// Merges one metadata item, read at time `now`.
    fn merge_item(&mut self, item: &TaskMetadata, now: u64)
        ensures
            final(self)@ == metadata_merged(old(self)@, item@, now),
    {
        match self.position(&item.id) {
            Some(i) => {
                let mut t = self.tasks[i].clone();
                if !trim_text(item.title.as_str()).is_empty() {
                    t.title = item.title.clone();
                }
                if item.cwd.is_some() {
                    t.cwd = clone_text_opt(&item.cwd);
                }
                self.put(t);
            },
            None => {
                if !text_eq(item.status.as_str(), "notLoaded") {
                    let when = match item.updated_at {
                        Some(t) => t,
                        None => now,
                    };
                    self.put(
                        TaskView {
                            id: item.id.clone(),
                            title: item.title.clone(),
                            cwd: clone_text_opt(&item.cwd),
                            state: state_from_app_server(item.status.as_str()),
                            attention: false,
                            updated_at: when,
                            started_at: when,
                        },
                    );
                }
            },
        }
    }

    /// Drops the tasks that are no longer kept at time `now`.
    fn prune(&mut self, now: u64)
        ensures
            final(self)@ == pruned(old(self)@, now),
    {
        proof {
            use_type_invariant(&*self);
        }
        let ghost rs = task_records(self.tasks@);
        let mut kept: Vec<TaskView> = Vec::new();
        let ghost mut src: Seq<int> = Seq::empty();
        let mut i: usize = 0;
        while i < self.tasks.len()
            invariant
                rs == task_records(self.tasks@),
                unique_ids(rs),
                i <= rs.len(),
                kept@.len() == src.len(),
                forall|m: int|
                    0 <= m < src.len() ==> 0 <= #[trigger] src[m] < i && kept@[m]@ == rs[src[m]]
                        && kept_at(rs[src[m]], now),
                forall|a: int, b: int|
                    0 <= a < src.len() && 0 <= b < src.len() && a != b ==> #[trigger] src[a]
                        != #[trigger] src[b],
                forall|j: int|
                    0 <= j < i && #[trigger] kept_at(rs[j], now) ==> exists|m: int|
                        0 <= m < src.len() && src[m] == j,
            decreases self.tasks.len() - i,
        {
            let t = &self.tasks[i];
            let ttl: u64 = if t.state == TaskState::Done {
                60
            } else {
                86_400
            };
            if now.saturating_sub(t.updated_at) < ttl {
                kept.push(t.clone());
                proof {
                    let old_src = src;
                    src = src.push(i as int);
                    assert forall|j: int|
                        0 <= j < i + 1 && #[trigger] kept_at(rs[j], now) implies exists|m: int|
                        0 <= m < src.len() && src[m] == j by {
                        if j == i {
                            assert(src[old_src.len() as int] == j);
                        } else {
                            let m = choose|m: int| 0 <= m < old_src.len() && old_src[m] == j;
                            assert(src[m] == j);
                        }
                    }
                }
            }
            i = i + 1;
        }
        proof {
            let keep = |t: TaskRecord| kept_at(t, now);
            lemma_record_map_selection(rs, task_records(kept@), src, keep);
            assert(record_map(task_records(kept@)) =~= pruned(record_map(rs), now));
        }
        self.tasks = kept;
    }

    /// Merges the threads that the app server reports, read at time `now`, and
    /// then drops the tasks that are no longer kept.
    pub fn merge_metadata_at(&mut self, items: &[TaskMetadata], now: u64)
        ensures
            final(self)@ == pruned(all_metadata_merged(old(self)@, metadata_records(items@), now), now),
    {
        let ghost start = self@;
        let ghost recs = metadata_records(items@);
        let mut i: usize = 0;
        while i < items.len()
            invariant
                recs == metadata_records(items@),
                i <= items@.len(),
                self@ == all_metadata_merged(start, recs.take(i as int), now),
            decreases items.len() - i,
        {
            self.merge_item(&items[i], now);
            assert(recs.take(i + 1).drop_last() =~= recs.take(i as int));
            i = i + 1;
        }
        assert(recs.take(i as int) =~= recs);
        self.prune(now);
    }

    /// Merges the threads that the app server reports, read at the current
    /// time, and then drops the tasks that are no longer kept.
    pub fn merge_metadata(&mut self, items: &[TaskMetadata])
        ensures
            exists|now: u64|
                final(self)@ == #[trigger] pruned(
                    all_metadata_merged(old(self)@, metadata_records(items@), now),
                    now,
                ),
    {
        let now = unix_now();
        self.merge_metadata_at(items, now);
    }

    /// The tasks shown at time `now`, in display order.
    pub fn snapshot_at(&self, now: u64) -> (list: Vec<TaskView>)
        ensures
            is_display_list(self@, task_records(list@), now),
    {
        proof {
            use_type_invariant(self);
        }
        let ghost rs = task_records(self.tasks@);
        let mut list: Vec<TaskView> = Vec::new();
        let ghost mut src: Seq<int> = Seq::empty();
        let mut i: usize = 0;
        while i < self.tasks.len()
            invariant
                rs == task_records(self.tasks@),
                unique_ids(rs),
                i <= rs.len(),
                list@.len() == src.len(),
                forall|m: int|
                    0 <= m < src.len() ==> 0 <= #[trigger] src[m] < i && list@[m]@ == rs[src[m]]
                        && shown_at(rs[src[m]], now),
                forall|a: int, b: int|
                    0 <= a < src.len() && 0 <= b < src.len() && a != b ==> #[trigger] src[a]
                        != #[trigger] src[b],
                forall|j: int|
                    0 <= j < i && #[trigger] shown_at(rs[j], now) ==> exists|m: int|
                        0 <= m < src.len() && src[m] == j,
                in_display_order(task_records(list@)),
            decreases self.tasks.len() - i,
        {
            let t = &self.tasks[i];
            if t.state != TaskState::Done || now.saturating_sub(t.updated_at) < 20 {
                let mut p: usize = 0;
                while p < list.len() && !precedes(t, &list[p])
                    invariant
                        p <= list@.len(),
                        forall|q: int| 0 <= q < p ==> !shown_before(t@, #[trigger] list@[q]@),
                    decreases list.len() - p,
                {
                    p = p + 1;
                }
                let ghost old_list = task_records(list@);
                let ghost old_src = src;
                list.insert(p, t.clone());
                proof {
                    src = src.insert(p as int, i as int);
                    let new_list = task_records(list@);
                    assert(new_list =~= old_list.insert(p as int, rs[i as int]));
                    assert forall|a: int, b: int|
                        0 <= a < b < new_list.len() implies !shown_before(
                        #[trigger] new_list[b],
                        #[trigger] new_list[a],
                    ) by {
                        if b < p {
                            assert(new_list[a] == old_list[a]);
                            assert(new_list[b] == old_list[b]);
                        } else if b == p {
                            assert(new_list[a] == old_list[a]);
                        } else if a < p {
                            assert(new_list[a] == old_list[a]);
                            assert(new_list[b] == old_list[b - 1]);
                        } else if a == p {
                            assert(new_list[b] == old_list[b - 1]);
                            assert(!shown_before(old_list[b - 1], old_list[p as int]));
                        } else {
                            assert(new_list[a] == old_list[a - 1]);
                            assert(new_list[b] == old_list[b - 1]);
                        }
                    }
                    assert forall|j: int|
                        0 <= j < i + 1 && #[trigger] shown_at(rs[j], now) implies exists|m: int|
                        0 <= m < src.len() && src[m] == j by {
                        if j == i {
                            assert(src[p as int] == j);
                        } else {
                            let m = choose|m: int| 0 <= m < old_src.len() && old_src[m] == j;
                            if m < p {
                                assert(src[m] == j);
                            } else {
                                assert(src[m + 1] == j);
                            }
                        }
                    }
                }
            }
            i = i + 1;
        }
        proof {
            let keep = |t: TaskRecord| shown_at(t, now);
            lemma_record_map_selection(rs, task_records(list@), src, keep);
            assert(record_map(task_records(list@)) =~= shown_part(record_map(rs), now));
        }
        list
    }

    /// The tasks shown at the current time, in display order.
    pub fn snapshot(&self) -> (list: Vec<TaskView>)
        ensures
            exists|now: u64| #[trigger] is_display_list(self@, task_records(list@), now),
    {
        let now = unix_now();
        self.snapshot_at(now)
    }
}

/// Tells whether `a` must stand before `b` on the display.
fn precedes(a: &TaskView, b: &TaskView) -> (r: bool)
    ensures
        r == shown_before(a@, b@),
{
    let a_done = a.state == TaskState::Done;
    let b_done = b.state == TaskState::Done;
    (!a_done && b_done) || (a_done == b_done && a.updated_at > b.updated_at)
}

/// A hook event that names a session leaves that session's task in the state
/// and with the attention flag that the event calls for, stamped with the
/// event's time and hence shown at that time; a task seen before keeps its
/// title and start time, and no other task changes.
pub proof fn lemma_hook_event_shows_task(store: TaskStore, e: HookEventRecord, now: u64)
    requires
        e.session_id is Some,
    ensures
        ({
            let id = e.session_id.unwrap();
            let after = hook_applied(store@, e, now);
            let (state, attention) = hook_state(
                hook_event_name_spec(e),
                text_or_empty(e.tool_name),
                text_or_empty(e.tool_input),
            );
            &&& after.dom().contains(id)
            &&& after[id].id == id
            &&& after[id].state == state
            &&& after[id].attention == attention
            &&& after[id].updated_at == now
            &&& shown_part(after, now).dom().contains(id)
            &&& store@.dom().contains(id) ==> after[id].started_at == store@[id].started_at
                && after[id].title == store@[id].title
            &&& forall|k: Seq<char>|
                k != id ==> (#[trigger] after.dom().contains(k) == store@.dom().contains(k) && (
                after.dom().contains(k) ==> after[k] == store@[k]))
        }),
{
    let id = e.session_id.unwrap();
    if store@.dom().contains(id) {
        store.lemma_keys_are_ids(id);
    }
}

/// Metadata from the app server never changes the state, attention flag,
/// update time or start time of a task that the store already holds: those
/// come from hooks.
pub proof fn lemma_metadata_keeps_hook_fields(
    m: Map<Seq<char>, TaskRecord>,
    items: Seq<MetadataRecord>,
    now: u64,
)
    ensures
        forall|k: Seq<char>|
            #[trigger] m.dom().contains(k) ==> {
                let after = all_metadata_merged(m, items, now);
                &&& after.dom().contains(k)
                &&& after[k].state == m[k].state
                &&& after[k].attention == m[k].attention
                &&& after[k].updated_at == m[k].updated_at
                &&& after[k].started_at == m[k].started_at
            },
    decreases items.len(),
{
    if items.len() > 0 {
        lemma_metadata_keeps_hook_fields(m, items.drop_last(), now);
    }
}

/// After a merge at time `now`, every task left in the store is fresh: a
/// finished one was updated less than a minute before, another one less than a
/// day before.
pub proof fn lemma_merge_leaves_fresh_tasks(
    m: Map<Seq<char>, TaskRecord>,
    items: Seq<MetadataRecord>,
    now: u64,
)
    ensures
        forall|k: Seq<char>|
            #[trigger] pruned(all_metadata_merged(m, items, now), now).dom().contains(k) ==> {
                let t = pruned(all_metadata_merged(m, items, now), now)[k];
                if t.state == TaskState::Done {
                    seconds_since(now, t.updated_at) < 60
                } else {
                    seconds_since(now, t.updated_at) < 86_400
                }
            },
{
}

/// The state and attention flag that each hook event sets: a permission
/// request waits and needs attention; only `Stop` and `SessionEnd` finish the
/// task; `PreToolUse` shows what the tool does; a failed tool is an error that
/// needs attention; every other event (`SessionStart`, `UserPromptSubmit`,
/// `SubagentStart`, `SubagentStop`, `PostToolUse`, ...) means the task is
/// thinking, with no attention.
pub proof fn lemma_hook_event_states(name: Seq<char>, tool_name: Seq<char>, tool_input: Seq<char>)
    ensures
        name == "PermissionRequest"@ ==> hook_state(name, tool_name, tool_input) == (
            TaskState::Waiting,
            true,
        ),
        name == "Stop"@ || name == "SessionEnd"@ ==> hook_state(name, tool_name, tool_input) == (
            TaskState::Done,
            false,
        ),
        name == "PreToolUse"@ ==> hook_state(name, tool_name, tool_input) == (
            tool_state(tool_name, tool_input),
            false,
        ),
        name == "PostToolUseFailure"@ ==> hook_state(name, tool_name, tool_input) == (
            TaskState::Error,
            true,
        ),
        name != "PermissionRequest"@ && name != "Stop"@ && name != "SessionEnd"@ && name
            != "PreToolUse"@ && name != "PostToolUseFailure"@ ==> hook_state(
            name,
            tool_name,
            tool_input,
        ) == (TaskState::Thinking, false),
        hook_state(name, tool_name, tool_input).0 == TaskState::Done <==> (name == "Stop"@ || name
            == "SessionEnd"@),
        hook_state(name, tool_name, tool_input).1 <==> (name == "PermissionRequest"@ || name
            == "PostToolUseFailure"@),
{
    reveal_strlit("PermissionRequest");
    reveal_strlit("Stop");
    reveal_strlit("SessionEnd");
    reveal_strlit("PreToolUse");
    reveal_strlit("PostToolUseFailure");
    assert("PermissionRequest"@.len() == 17);
    assert("Stop"@.len() == 4);
    assert("SessionEnd"@.len() == 10);
    assert("PreToolUse"@.len() == 10);
    assert("PostToolUseFailure"@.len() == 18);
    assert("SessionEnd"@[0] == 'S');
    assert("PreToolUse"@[0] == 'P');
    if name == "Stop"@ {
        assert(name != "PermissionRequest"@);
    }
    if name == "SessionEnd"@ {
        assert(name != "PermissionRequest"@);
    }
    if name == "PostToolUseFailure"@ {
        assert(name != "PermissionRequest"@);
        assert(name != "Stop"@);
        assert(name != "SessionEnd"@);
        assert(name != "PreToolUse"@);
    }
    if name == "PreToolUse"@ {
        assert(name != "PermissionRequest"@);
        assert(name != "Stop"@);
        assert(name != "SessionEnd"@);
    }
    if tool_state(tool_name, tool_input) == TaskState::Done {
        assert(false);
    }
}

/// A hook event with a session id leaves that session's task in the store,
/// updated now, with the state and attention flag of the event.
pub proof fn lemma_hook_event_sets_task_state(m: Map<Seq<char>, TaskRecord>, e: HookEventRecord, now: u64)
    requires
        e.session_id is Some,
    ensures
        ({
            let id = e.session_id->0;
            let w = hook_applied(m, e, now);
            let (state, attention) = hook_state(
                hook_event_name_spec(e),
                text_or_empty(e.tool_name),
                text_or_empty(e.tool_input),
            );
            &&& w.dom().contains(id)
            &&& w[id].state == state
            &&& w[id].attention == attention
            &&& w[id].updated_at == now
            &&& m.dom().contains(id) ==> w[id].started_at == m[id].started_at
        }),
{
}

/// Merging metadata keeps every task of the store, with its state and update
/// time.
proof fn lemma_merged_keeps_tasks(m: Map<Seq<char>, TaskRecord>, items: Seq<MetadataRecord>, now: u64)
    ensures
        forall|k: Seq<char>|
            #[trigger] m.dom().contains(k) ==> all_metadata_merged(m, items, now).dom().contains(k)
                && all_metadata_merged(m, items, now)[k].state == m[k].state && all_metadata_merged(
                m,
                items,
                now,
            )[k].updated_at == m[k].updated_at,
    decreases items.len(),
{
    if items.len() > 0 {
        lemma_merged_keeps_tasks(m, items.drop_last(), now);
    }
}

/// A merge at time `now` keeps every task that is not finished and was
/// updated less than a day (86400 s) before, and every finished task updated
/// less than a minute before, with its state and update time.
pub proof fn lemma_merge_keeps_live_tasks(
    m: Map<Seq<char>, TaskRecord>,
    items: Seq<MetadataRecord>,
    now: u64,
    k: Seq<char>,
)
    requires
        m.dom().contains(k),
        m[k].state != TaskState::Done ==> now - m[k].updated_at < 86_400,
        m[k].state == TaskState::Done ==> now - m[k].updated_at < 60,
    ensures
        pruned(all_metadata_merged(m, items, now), now).dom().contains(k),
        pruned(all_metadata_merged(m, items, now), now)[k].state == m[k].state,
        pruned(all_metadata_merged(m, items, now), now)[k].updated_at == m[k].updated_at,
{
    lemma_merged_keeps_tasks(m, items, now);
    assert(m.dom().contains(k));
}

/// In a display list, unfinished tasks stand before finished ones, and of two
/// tasks that are both finished or both unfinished the one updated later
/// stands first, whenever they started.
pub proof fn lemma_display_order(m: Map<Seq<char>, TaskRecord>, list: Seq<TaskRecord>, now: u64)
    requires
        is_display_list(m, list, now),
    ensures
        forall|i: int, j: int|
            #![trigger list[i], list[j]]
            0 <= i < j < list.len() && (list[i].state == TaskState::Done) == (list[j].state
                == TaskState::Done) ==> list[i].updated_at >= list[j].updated_at,
        forall|i: int, j: int|
            #![trigger list[i], list[j]]
            0 <= i < j < list.len() && list[i].state == TaskState::Done ==> list[j].state
                == TaskState::Done,
{
}

/// Reads the wall clock: whole seconds since the Unix epoch (0 if the clock
/// stands before it). Calls `SystemTime::now` and `duration_since`; nothing is
/// claimed of the result, which the clock decides.
#[verifier::external_body]
pub fn unix_now() -> u64 {
    std::time::SystemTime::now().duration_since(std::time::UNIX_EPOCH).unwrap_or_default().as_secs()
}

} // verus!
