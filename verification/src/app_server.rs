//! The replies of the Codex app server to `thread/list`, read into task
//! metadata.
use vstd::prelude::*;

use crate::model::{
    clone_text_opt, metadata_records, FieldRecord, JsonField, MetadataRecord, TaskMetadata,
};
use crate::text::{first_line, first_line_spec};

verus! {

/// The fields of one thread of a `thread/list` reply that the bridge reads.
/// `id` and `cwd` hold `None` when missing or not strings; `status_type` is the
/// `type` string of a `status` object.
#[derive(Debug)]
pub struct ThreadItem {
    pub id: Option<String>,
    pub name: JsonField,
    pub title: JsonField,
    pub preview: JsonField,
    pub cwd: Option<String>,
    pub status: JsonField,
    pub status_type: Option<String>,
    pub updated_at: Option<u64>,
}

/// The mathematical content of a `ThreadItem`.
pub struct ThreadItemRecord {
    pub id: Option<Seq<char>>,
    pub name: FieldRecord,
    pub title: FieldRecord,
    pub preview: FieldRecord,
    pub cwd: Option<Seq<char>>,
    pub status: FieldRecord,
    pub status_type: Option<Seq<char>>,
    pub updated_at: Option<u64>,
}

impl View for ThreadItem {
    type V = ThreadItemRecord;

    open spec fn view(&self) -> ThreadItemRecord {
        ThreadItemRecord {
            id: self.id.deep_view(),
            name: self.name@,
            title: self.title@,
            preview: self.preview@,
            cwd: self.cwd.deep_view(),
            status: self.status@,
            status_type: self.status_type.deep_view(),
            updated_at: self.updated_at,
        }
    }
}

/// A `thread/list` reply: the items of its `result.data` array, or `None`
/// when the reply has no such array.
#[derive(Debug)]
pub struct ThreadListReply {
    pub data: Option<Vec<ThreadItem>>,
}

/// The records of the reply's items, or `None`.
pub open spec fn reply_items(reply: &ThreadListReply) -> Option<Seq<ThreadItemRecord>> {
    match reply.data {
        Some(items) => Some(items@.map_values(|i: ThreadItem| i@)),
        None => None,
    }
}

/// The title of a thread: the first of `name`, `title` and `preview` that is
/// present, if it is a string, cut to its first line; `Codex task` otherwise.
pub open spec fn thread_title(item: ThreadItemRecord) -> Seq<char> {
    let chosen = if !(item.name is Absent) {
        item.name
    } else if !(item.title is Absent) {
        item.title
    } else {
        item.preview
    };
    let text = match chosen {
        FieldRecord::Text(s) => s,
        _ => "Codex task"@,
    };
    match first_line_spec(text) {
        Some(line) => line,
        None => "Codex task"@,
    }
}

/// The status of a thread: the `status` string, or the `type` of a `status`
/// object, or `notLoaded`.
pub open spec fn thread_status(item: ThreadItemRecord) -> Seq<char> {
    match item.status {
        FieldRecord::Text(s) => s,
        FieldRecord::Other => match item.status_type {
            Some(t) => t,
            None => "notLoaded"@,
        },
        FieldRecord::Absent => "notLoaded"@,
    }
}

/// The metadata of a thread; threads without an id have none.
pub open spec fn thread_metadata(item: ThreadItemRecord) -> Option<MetadataRecord> {
    match item.id {
        Some(id) => Some(
            MetadataRecord {
                id,
                title: thread_title(item),
                cwd: item.cwd,
                status: thread_status(item),
                updated_at: item.updated_at,
            },
        ),
        None => None,
    }
}

/// The metadata of the threads that have one, in order.
pub open spec fn threads_metadata(items: Seq<ThreadItemRecord>) -> Seq<MetadataRecord>
    decreases items.len(),
{
    if items.len() == 0 {
        Seq::empty()
    } else {
        threads_metadata(items.drop_last()) + match thread_metadata(items.last()) {
            Some(m) => seq![m],
            None => Seq::empty(),
        }
    }
}

/// The metadata that a reply reports.
pub open spec fn reply_metadata(items: Option<Seq<ThreadItemRecord>>) -> Seq<MetadataRecord> {
    match items {
        Some(items) => threads_metadata(items),
        None => Seq::empty(),
    }
}

/// Reads the title of a thread.
fn read_title(item: &ThreadItem) -> (t: String)
    ensures
        t@ == thread_title(item@),
{
    let chosen = match &item.name {
        JsonField::Absent => match &item.title {
            JsonField::Absent => &item.preview,
            other => other,
        },
        other => other,
    };
    let text: &str = match chosen {
        JsonField::Text(s) => s.as_str(),
        _ => "Codex task",
    };
    match first_line(text) {
        Some(line) => line.to_owned(),
        None => "Codex task".to_owned(),
    }
}

/// Reads the status of a thread.
fn read_status(item: &ThreadItem) -> (s: String)
    ensures
        s@ == thread_status(item@),
{
    match &item.status {
        JsonField::Text(s) => s.clone(),
        JsonField::Other => match &item.status_type {
            Some(t) => t.clone(),
            None => "notLoaded".to_owned(),
        },
        JsonField::Absent => "notLoaded".to_owned(),
    }
}

/// Reads the threads of a `thread/list` reply into task metadata.
pub fn parse_thread_list(response: &ThreadListReply) -> (tasks: Vec<TaskMetadata>)
    ensures
        metadata_records(tasks@) == reply_metadata(reply_items(response)),
{
    let mut out: Vec<TaskMetadata> = Vec::new();
    match &response.data {
        None => {
            assert(metadata_records(out@) =~= Seq::<MetadataRecord>::empty());
            out
        },
        Some(items) => {
            let ghost recs = items@.map_values(|i: ThreadItem| i@);
            let mut i: usize = 0;
            while i < items.len()
                invariant
                    recs == items@.map_values(|i: ThreadItem| i@),
                    i <= items@.len(),
                    metadata_records(out@) == threads_metadata(recs.take(i as int)),
                decreases items.len() - i,
            {
                let item = &items[i];
                let ghost before = metadata_records(out@);
                assert(recs.take(i + 1).drop_last() =~= recs.take(i as int));
                assert(recs.take(i + 1).last() == item@);
                match &item.id {
                    Some(id) => {
                        out.push(
                            TaskMetadata {
                                id: id.clone(),
                                title: read_title(item),
                                cwd: clone_text_opt(&item.cwd),
                                status: read_status(item),
                                updated_at: item.updated_at,
                            },
                        );
                        assert(metadata_records(out@) =~= before + seq![
                            thread_metadata(item@).unwrap(),
                        ]);
                    },
                    None => {
                        assert(before + Seq::<MetadataRecord>::empty() =~= before);
                    },
                }
                i = i + 1;
            }
            assert(recs.take(i as int) =~= recs);
            out
        },
    }
}

/// What the bridge does with a reply line while it waits for the reply to one
/// of its requests.
#[derive(Debug, Clone, Copy, PartialEq, Eq, Structural)]
pub enum ReplyAction {
    /// The line answers another request, or none: read the next one.
    Skip,
    /// The reply to the request reports an error.
    Failed,
    /// The reply to the request.
    Accept,
}

/// Decides what to do with a reply line whose `id` is `reply_id` (when it is
/// an unsigned integer) and which has an `error` member when `has_error`,
/// while waiting for the reply to request `expected`.
pub fn reply_action(reply_id: Option<u64>, has_error: bool, expected: u64) -> (action: ReplyAction)
    ensures
        action == (if reply_id != Some(expected) {
            ReplyAction::Skip
        } else if has_error {
            ReplyAction::Failed
        } else {
            ReplyAction::Accept
        }),
{
    match reply_id {
        Some(id) if id == expected => {
            if has_error {
                ReplyAction::Failed
            } else {
                ReplyAction::Accept
            }
        },
        _ => ReplyAction::Skip,
    }
}

} // verus!
