//! The Codex hook configuration (`~/.codex/hooks.json`): the command that
//! Codex runs for every hook event, the test that tells the bridge's own
//! entries from the user's, and the merge that installs or removes the
//! bridge's entries while keeping everything else in the file.
use serde_json::Value;
use vstd::prelude::*;
use vstd::string::StringExecFns;
use vstd::utf8::encode_utf8;

use crate::config::{shell_quote, shell_quoted};
use crate::named::{
    assign, find_key, key_pos, lemma_assign, lemma_assign_same, lemma_key_pos, lemma_key_pos_is,
    lookup,
};
use crate::text::{
    bytes_contain, contains_bytes, escape_single_quotes_spec, lemma_encode_utf8_concat,
    lemma_escape_concat, lemma_escape_without_quotes, occurs_at,
};

verus! {

/// The text that marks a hook entry as the bridge's own: it occurs in the
/// bridge's executable name, and so in every command that it installs.
pub const MARKER: &'static str = "codex-ble-bridge";

/// The command that Codex runs for a hook event: the quoted bridge binary
/// followed by ` hook`.
pub fn hook_command(binary: &str) -> (command: String)
    ensures
        command@ == shell_quoted(binary@) + " hook"@,
{
    let mut command = shell_quote(binary);
    command.append(" hook");
    command
}

/// A hook entry, given as its compact JSON text, is one of the bridge's own:
/// the text contains `MARKER`.
pub open spec fn is_bridge_entry(entry_json: Seq<char>) -> bool {
    contains_bytes(encode_utf8(entry_json), encode_utf8(MARKER@))
}

/// Tells whether a hook entry, given as its compact JSON text, is one of the
/// bridge's own.
pub fn is_our_entry(entry_json: &str) -> (ours: bool)
    ensures
        ours == is_bridge_entry(entry_json@),
{
    bytes_contain(entry_json.as_bytes(), MARKER.as_bytes())
}

/// A text with `MARKER` inside is one of the bridge's entries.
pub proof fn lemma_marker_inside(before: Seq<char>, after: Seq<char>)
    ensures
        is_bridge_entry(before + MARKER@ + after),
{
    let m = MARKER@;
    lemma_encode_utf8_concat(before + m, after);
    lemma_encode_utf8_concat(before, m);
    let bytes = encode_utf8(before + m + after);
    let start = encode_utf8(before).len() as int;
    assert(bytes =~= encode_utf8(before) + encode_utf8(m) + encode_utf8(after));
    assert(bytes.subrange(start, start + encode_utf8(m).len()) =~= encode_utf8(m));
    assert(occurs_at(bytes, encode_utf8(m), start));
}

/// Where `MARKER` stands in the command for a binary whose path holds it at
/// `at`: the command is `parts.0`, `MARKER`, then `parts.1`.
proof fn command_around_marker(binary: Seq<char>, at: int) -> (parts: (Seq<char>, Seq<char>))
    requires
        0 <= at && at + MARKER@.len() <= binary.len(),
        binary.subrange(at, at + MARKER@.len()) == MARKER@,
    ensures
        shell_quoted(binary) + " hook"@ == parts.0 + MARKER@ + parts.1,
{
    reveal_strlit("codex-ble-bridge");
    let m = MARKER@;
    let a = binary.take(at);
    let c = binary.skip(at + m.len());
    assert(binary =~= a + m + c);
    lemma_escape_concat(a + m, c);
    lemma_escape_concat(a, m);
    lemma_escape_without_quotes(m);
    let head = seq!['\''] + escape_single_quotes_spec(a);
    let tail = escape_single_quotes_spec(c) + seq!['\''] + " hook"@;
    assert(shell_quoted(binary) + " hook"@ =~= head + m + tail);
    (head, tail)
}

/// The command installed for a bridge binary whose path contains `MARKER` is
/// recognised as one of the bridge's own entries.
pub proof fn lemma_own_command_is_recognised(binary: Seq<char>, at: int)
    requires
        0 <= at && at + MARKER@.len() <= binary.len(),
        binary.subrange(at, at + MARKER@.len()) == MARKER@,
    ensures
        is_bridge_entry(shell_quoted(binary) + " hook"@),
{
    let parts = command_around_marker(binary, at);
    lemma_marker_inside(parts.0, parts.1);
}

// ---------------------------------------------------------------------------
// The hooks file
// ---------------------------------------------------------------------------

/// A list of hook entries as the file holds it under an event's name: an
/// array, whose entries are kept as compact JSON texts, or another value.
pub enum EntryList {
    Array(Vec<String>),
    Other(String),
}

/// A top-level member's value: an object, whose members are entry lists, or
/// another value, kept as compact JSON text.
pub enum MemberValue {
    Object(Vec<(String, EntryList)>),
    Other(String),
}

/// A parsed hooks file: an object, whose members are kept in order, or
/// another value, kept as compact JSON text.
pub enum HooksFile {
    Object(Vec<(String, MemberValue)>),
    Other(String),
}

/// The mathematical content of an `EntryList`.
pub enum EntryListModel {
    Array(Seq<Seq<char>>),
    Other(Seq<char>),
}

/// The mathematical content of a `MemberValue`.
pub enum MemberModel {
    Object(Seq<(Seq<char>, EntryListModel)>),
    Other(Seq<char>),
}

/// The mathematical content of a `HooksFile`.
pub enum HooksFileModel {
    Object(Seq<(Seq<char>, MemberModel)>),
    Other(Seq<char>),
}

/// The texts of a list of strings.
pub open spec fn texts_view(s: Seq<String>) -> Seq<Seq<char>> {
    s.map_values(|t: String| t@)
}

/// The model of a list of named entry lists.
pub open spec fn events_view(s: Seq<(String, EntryList)>) -> Seq<(Seq<char>, EntryListModel)> {
    s.map_values(|p: (String, EntryList)| (p.0@, p.1@))
}

/// The model of a list of named top-level members.
pub open spec fn members_view(s: Seq<(String, MemberValue)>) -> Seq<(Seq<char>, MemberModel)> {
    s.map_values(|p: (String, MemberValue)| (p.0@, p.1@))
}

impl View for EntryList {
    type V = EntryListModel;

    open spec fn view(&self) -> EntryListModel {
        match self {
            EntryList::Array(entries) => EntryListModel::Array(texts_view(entries@)),
            EntryList::Other(text) => EntryListModel::Other(text@),
        }
    }
}

impl View for MemberValue {
    type V = MemberModel;

    open spec fn view(&self) -> MemberModel {
        match self {
            MemberValue::Object(events) => MemberModel::Object(events_view(events@)),
            MemberValue::Other(text) => MemberModel::Other(text@),
        }
    }
}

impl View for HooksFile {
    type V = HooksFileModel;

    open spec fn view(&self) -> HooksFileModel {
        match self {
            HooksFile::Object(members) => HooksFileModel::Object(members_view(members@)),
            HooksFile::Other(text) => HooksFileModel::Other(text@),
        }
    }
}

/// What `serde_json::from_slice` makes of a file's bytes, taken apart into a
/// `HooksFileModel`, or the text of its error.
pub uninterp spec fn parsed_hooks(bytes: Seq<u8>) -> Result<HooksFileModel, Seq<char>>;

/// The bytes that `serde_json::to_vec_pretty` writes for a hooks file.
pub uninterp spec fn rendered_hooks(file: HooksFileModel) -> Seq<u8>;

/// Parses a hooks file with `serde_json::from_slice` into a `serde_json::Value`
/// and takes it apart two levels deep; values that are kept whole are kept as
/// their compact text (`Value::to_string`). The contract names the outcome: the
/// same bytes give the same file, or the same error text.
#[verifier::external_body]
pub fn parse_hooks_file(bytes: &[u8]) -> (r: Result<HooksFile, String>)
    ensures
        match r {
            Ok(file) => parsed_hooks(bytes@) == Ok::<HooksFileModel, Seq<char>>(file@),
            Err(msg) => parsed_hooks(bytes@) == Err::<HooksFileModel, Seq<char>>(msg@),
        },
{
    Ok(match serde_json::from_slice::<Value>(bytes).map_err(|e| e.to_string())? {
        Value::Object(top) => HooksFile::Object(top.into_iter().map(|(k, m)| (k, match m {
            Value::Object(o) => MemberValue::Object(o.into_iter().map(|(e, l)| (e, match l {
                Value::Array(a) => EntryList::Array(a.iter().map(Value::to_string).collect()),
                l => EntryList::Other(l.to_string()),
            })).collect()),
            m => MemberValue::Other(m.to_string()),
        })).collect()),
        v => HooksFile::Other(v.to_string()),
    })
}

/// Puts a hooks file back together as a `serde_json::Value`, reading each kept
/// text with `serde_json::from_str`, and writes it with
/// `serde_json::to_vec_pretty`. The contract names the bytes written.
#[verifier::external_body]
pub fn render_hooks_file(file: &HooksFile) -> (bytes: Vec<u8>)
    ensures
        bytes@ == rendered_hooks(file@),
{
    let v = |t: &String| serde_json::from_str(t).unwrap_or(Value::Null);
    let root = match file {
        HooksFile::Other(t) => v(t),
        HooksFile::Object(top) => Value::Object(top.iter().map(|(k, m)| (k.clone(), match m {
            MemberValue::Other(t) => v(t),
            MemberValue::Object(o) => Value::Object(o.iter().map(|(e, l)| (e.clone(), match l {
                EntryList::Other(t) => v(t),
                EntryList::Array(a) => Value::Array(a.iter().map(v).collect()),
            })).collect()),
        })).collect()),
    };
    serde_json::to_vec_pretty(&root).unwrap_or_default()
}

/// `c` as `serde_json` writes it inside a JSON string.
pub open spec fn json_escape_char(c: char) -> Seq<char> {
    if c == '"' {
        seq!['\\', '"']
    } else if c == '\\' {
        seq!['\\', '\\']
    } else if c == '\u{8}' {
        seq!['\\', 'b']
    } else if c == '\t' {
        seq!['\\', 't']
    } else if c == '\n' {
        seq!['\\', 'n']
    } else if c == '\u{c}' {
        seq!['\\', 'f']
    } else if c == '\r' {
        seq!['\\', 'r']
    } else if (c as u32) < 0x20 {
        seq!['\\', 'u', '0', '0', hex_digit((c as u32) / 16), hex_digit((c as u32) % 16)]
    } else {
        seq![c]
    }
}

/// The lowercase hexadecimal digit for `n < 16`.
pub open spec fn hex_digit(n: u32) -> char {
    if n < 10 {
        (n + 48) as char
    } else {
        (n + 87) as char
    }
}

/// The characters of `s` escaped for a JSON string.
pub open spec fn json_escape(s: Seq<char>) -> Seq<char>
    decreases s.len(),
{
    if s.len() == 0 {
        Seq::empty()
    } else {
        json_escape_char(s[0]) + json_escape(s.drop_first())
    }
}

/// `s` as a JSON string literal.
pub open spec fn json_quoted(s: Seq<char>) -> Seq<char> {
    seq!['"'] + json_escape(s) + seq!['"']
}

/// Writes `s` as a JSON string literal with `serde_json::to_string`, which
/// escapes `"`, `\\` and the control characters below U+0020 (the short forms
/// `\b \t \n \f \r`, else `\u00` and two lowercase hex digits) and writes
/// every other character as it is. Writing a `str` into memory does not fail.
#[verifier::external_body]
fn json_string(s: &str) -> (r: String)
    ensures
        r@ == json_quoted(s@),
{
    serde_json::to_string(s).unwrap_or_default()
}

// ---------------------------------------------------------------------------
// The bridge's entries
// ---------------------------------------------------------------------------

/// The entry that the bridge installs for an event, as compact JSON text: one
/// synchronous command hook with a timeout of 3 seconds.
pub open spec fn bridge_entry_text(command: Seq<char>) -> Seq<char> {
    "{\"hooks\":[{\"command\":"@ + json_quoted(command) + ",\"timeout\":3,\"type\":\"command\"}]}"@
}

/// Writes the bridge's entry for `command` as compact JSON text.
fn bridge_entry(command: &str) -> (entry: String)
    ensures
        entry@ == bridge_entry_text(command@),
{
    let mut entry = "{\"hooks\":[{\"command\":".to_owned();
    let quoted = json_string(command);
    entry.append(quoted.as_str());
    entry.append(",\"timeout\":3,\"type\":\"command\"}]}");
    entry
}

/// `entries` without the bridge's own, in their order.
pub open spec fn without_bridge(entries: Seq<Seq<char>>) -> Seq<Seq<char>>
    decreases entries.len(),
{
    if entries.len() == 0 {
        entries
    } else {
        let kept = without_bridge(entries.drop_last());
        if is_bridge_entry(entries.last()) {
            kept
        } else {
            kept.push(entries.last())
        }
    }
}

/// Copies the entries that are not the bridge's own.
fn remove_bridge(entries: &Vec<String>) -> (kept: Vec<String>)
    ensures
        texts_view(kept@) == without_bridge(texts_view(entries@)),
{
    let mut kept: Vec<String> = Vec::new();
    let mut i: usize = 0;
    while i < entries.len()
        invariant
            i <= entries.len(),
            texts_view(kept@) == without_bridge(texts_view(entries@).take(i as int)),
        decreases entries.len() - i,
    {
        let ghost prefix = texts_view(entries@).take(i + 1);
        proof {
            assert(prefix.drop_last() =~= texts_view(entries@).take(i as int));
            assert(prefix.last() == entries@[i as int]@);
        }
        if !is_our_entry(entries[i].as_str()) {
            kept.push(entries[i].clone());
            proof {
                assert(texts_view(kept@) =~= without_bridge(prefix.drop_last()).push(prefix.last()));
            }
        }
        i = i + 1;
    }
    proof {
        assert(texts_view(entries@).take(i as int) =~= texts_view(entries@));
    }
    kept
}

// ---------------------------------------------------------------------------
// Installing
// ---------------------------------------------------------------------------

/// The hook events that the bridge listens to, in the order it installs them.
pub open spec fn hook_events() -> Seq<Seq<char>> {
    seq![
        "SessionStart"@,
        "SessionEnd"@,
        "UserPromptSubmit"@,
        "PreToolUse"@,
        "PostToolUse"@,
        "PostToolUseFailure"@,
        "PermissionRequest"@,
        "Stop"@,
        "SubagentStart"@,
        "SubagentStop"@,
    ]
}

/// The name of the `i`th hook event.
fn event_name(i: usize) -> (name: &'static str)
    requires
        i < 10,
    ensures
        name@ == hook_events()[i as int],
{
    match i {
        0 => "SessionStart",
        1 => "SessionEnd",
        2 => "UserPromptSubmit",
        3 => "PreToolUse",
        4 => "PostToolUse",
        5 => "PostToolUseFailure",
        6 => "PermissionRequest",
        7 => "Stop",
        8 => "SubagentStart",
        _ => "SubagentStop",
    }
}

/// The entries of an event's list, or none when the list is missing or is not
/// an array.
pub open spec fn entries_of(list: Option<EntryListModel>) -> Seq<Seq<char>> {
    match list {
        Some(EntryListModel::Array(entries)) => entries,
        _ => Seq::empty(),
    }
}

/// An event's list after installing: the user's entries, then `entry`.
pub open spec fn installed_list(list: Option<EntryListModel>, entry: Seq<char>) -> Seq<Seq<char>> {
    without_bridge(entries_of(list)).push(entry)
}

/// The event lists after installing `entry` for the first `n` hook events.
pub open spec fn events_installed(
    events: Seq<(Seq<char>, EntryListModel)>,
    entry: Seq<char>,
    n: nat,
) -> Seq<(Seq<char>, EntryListModel)>
    decreases n,
{
    if n == 0 {
        events
    } else {
        let before = events_installed(events, entry, (n - 1) as nat);
        let name = hook_events()[n - 1];
        assign(before, name, EntryListModel::Array(installed_list(lookup(before, name), entry)))
    }
}

/// Installs `entry` as the last entry of every hook event's list.
fn install_events(events: &mut Vec<(String, EntryList)>, entry: &String)
    ensures
        events_view(final(events)@) == events_installed(events_view(old(events)@), entry@, 10),
{
    let ghost start = events_view(events@);
    let mut i: usize = 0;
    while i < 10
        invariant
            i <= 10,
            events_view(events@) == events_installed(start, entry@, i as nat),
        decreases 10 - i,
    {
        let name = event_name(i);
        let ghost before = events_view(events@);
        let ghost want = EntryListModel::Array(installed_list(lookup(before, name@), entry@));
        match find_key(events, name) {
            Some(p) => {
                proof {
                    lemma_key_pos_is(before, name@, p as int);
                }
                let (key, old_list) = events.remove(p);
                let mut kept = match old_list {
                    EntryList::Array(entries) => remove_bridge(&entries),
                    EntryList::Other(_) => Vec::new(),
                };
                kept.push(entry.clone());
                proof {
                    assert(texts_view(kept@) =~= installed_list(lookup(before, name@), entry@));
                }
                events.insert(p, (key, EntryList::Array(kept)));
                proof {
                    assert(events_view(events@) =~= assign(before, name@, want));
                }
            },
            None => {
                proof {
                    lemma_key_pos(before, name@);
                }
                let mut kept: Vec<String> = Vec::new();
                kept.push(entry.clone());
                proof {
                    assert(texts_view(kept@) =~= installed_list(lookup(before, name@), entry@));
                }
                events.push((name.to_owned(), EntryList::Array(kept)));
                proof {
                    assert(events_view(events@) =~= assign(before, name@, want));
                }
            },
        }
        i = i + 1;
    }
}

/// The file written when there is none yet: only a description.
pub open spec fn default_hooks_file() -> HooksFileModel {
    HooksFileModel::Object(seq![("description"@, MemberModel::Other("\"Global Codex hooks\""@))])
}

/// The event lists under a `hooks` member: those of an object, or none when
/// the member is missing or is not an object.
pub open spec fn events_of(member: Option<MemberModel>) -> Seq<(Seq<char>, EntryListModel)> {
    match member {
        Some(MemberModel::Object(events)) => events,
        _ => Seq::empty(),
    }
}

/// The top-level members after installing the bridge's entry for `command`
/// under `hooks`.
pub open spec fn members_installed(
    members: Seq<(Seq<char>, MemberModel)>,
    command: Seq<char>,
) -> Seq<(Seq<char>, MemberModel)> {
    let events = events_installed(
        events_of(lookup(members, "hooks"@)),
        bridge_entry_text(command),
        10,
    );
    assign(members, "hooks"@, MemberModel::Object(events))
}

/// A hooks file, or the default one where there is none, after installing the
/// bridge's hooks for `command`; `None` when the file is not an object.
pub open spec fn hooks_installed(file: Option<HooksFileModel>, command: Seq<char>) -> Option<
    HooksFileModel,
> {
    let root = match file {
        Some(f) => f,
        None => default_hooks_file(),
    };
    match root {
        HooksFileModel::Object(members) => Some(
            HooksFileModel::Object(members_installed(members, command)),
        ),
        HooksFileModel::Other(_) => None,
    }
}

/// The model of a hooks file that may be missing.
pub open spec fn file_view(file: Option<HooksFile>) -> Option<HooksFileModel> {
    match file {
        Some(f) => Some(f@),
        None => None,
    }
}

/// Why the hooks file could not be changed.
#[derive(Debug)]
pub enum HooksError {
    /// The file is not valid JSON; the parser's message.
    Unparsable(String),
    /// The file's top-level value is not an object.
    RootNotObject,
}

/// The mathematical content of a `HooksError`.
pub enum HooksErrorModel {
    Unparsable(Seq<char>),
    RootNotObject,
}

impl View for HooksError {
    type V = HooksErrorModel;

    open spec fn view(&self) -> HooksErrorModel {
        match self {
            HooksError::Unparsable(msg) => HooksErrorModel::Unparsable(msg@),
            HooksError::RootNotObject => HooksErrorModel::RootNotObject,
        }
    }
}

/// Installs the bridge's hooks for `binary` into a hooks file, or into the
/// default file when there is none: every hook event's list keeps the user's
/// entries and ends with the bridge's entry; a `hooks` member or an event list
/// of the wrong kind is replaced. Fails when the file is not an object.
pub fn install_hooks(file: Option<HooksFile>, binary: &str) -> (r: Result<HooksFile, HooksError>)
    ensures
        r is Err <==> hooks_installed(file_view(file), shell_quoted(binary@) + " hook"@) is None,
        r matches Ok(w) ==> hooks_installed(file_view(file), shell_quoted(binary@) + " hook"@)
            == Some(w@),
        r matches Err(e) ==> e is RootNotObject,
{
    let mut members = match file {
        Some(HooksFile::Object(members)) => members,
        Some(HooksFile::Other(_)) => {
            return Err(HooksError::RootNotObject);
        },
        None => {
            let mut members: Vec<(String, MemberValue)> = Vec::new();
            members.push(
                ("description".to_owned(), MemberValue::Other("\"Global Codex hooks\"".to_owned())),
            );
            proof {
                assert(members_view(members@) =~= seq![
                    ("description"@, MemberModel::Other("\"Global Codex hooks\""@)),
                ]);
            }
            members
        },
    };
    let ghost start = members_view(members@);
    let command = hook_command(binary);
    let entry = bridge_entry(command.as_str());
    match find_key(&members, "hooks") {
        Some(p) => {
            proof {
                lemma_key_pos_is(start, "hooks"@, p as int);
            }
            let (key, old_member) = members.remove(p);
            let mut events = match old_member {
                MemberValue::Object(events) => events,
                MemberValue::Other(_) => Vec::new(),
            };
            proof {
                assert(events_view(events@) =~= events_of(lookup(start, "hooks"@)));
            }
            install_events(&mut events, &entry);
            members.insert(p, (key, MemberValue::Object(events)));
            proof {
                assert(members_view(members@) =~= members_installed(start, command@));
            }
        },
        None => {
            proof {
                lemma_key_pos(start, "hooks"@);
            }
            let mut events: Vec<(String, EntryList)> = Vec::new();
            proof {
                assert(events_view(events@) =~= events_of(lookup(start, "hooks"@)));
            }
            install_events(&mut events, &entry);
            members.push(("hooks".to_owned(), MemberValue::Object(events)));
            proof {
                assert(members_view(members@) =~= members_installed(start, command@));
            }
        },
    }
    Ok(HooksFile::Object(members))
}

// ---------------------------------------------------------------------------
// Removing
// ---------------------------------------------------------------------------

/// The event lists without the bridge's entries; an array left empty is
/// dropped, and a value that is not an array is kept.
pub open spec fn events_cleaned(events: Seq<(Seq<char>, EntryListModel)>) -> Seq<
    (Seq<char>, EntryListModel),
>
    decreases events.len(),
{
    if events.len() == 0 {
        events
    } else {
        let kept = events_cleaned(events.drop_last());
        let (name, list) = events.last();
        match list {
            EntryListModel::Array(entries) => {
                let rest = without_bridge(entries);
                if rest.len() == 0 {
                    kept
                } else {
                    kept.push((name, EntryListModel::Array(rest)))
                }
            },
            EntryListModel::Other(_) => kept.push((name, list)),
        }
    }
}

/// A hooks file without the bridge's entries: when the file is an object whose
/// `hooks` member is an object, that member's lists are cleaned; any other
/// file is left as it is.
pub open spec fn hooks_uninstalled(file: HooksFileModel) -> HooksFileModel {
    match file {
        HooksFileModel::Object(members) => match lookup(members, "hooks"@) {
            Some(MemberModel::Object(events)) => HooksFileModel::Object(
                assign(members, "hooks"@, MemberModel::Object(events_cleaned(events))),
            ),
            _ => file,
        },
        HooksFileModel::Other(_) => file,
    }
}

/// Copies the event lists without the bridge's entries.
fn clean_events(events: &Vec<(String, EntryList)>) -> (cleaned: Vec<(String, EntryList)>)
    ensures
        events_view(cleaned@) == events_cleaned(events_view(events@)),
{
    let mut cleaned: Vec<(String, EntryList)> = Vec::new();
    let mut i: usize = 0;
    while i < events.len()
        invariant
            i <= events.len(),
            events_view(cleaned@) == events_cleaned(events_view(events@).take(i as int)),
        decreases events.len() - i,
    {
        let ghost prefix = events_view(events@).take(i + 1);
        proof {
            assert(prefix.drop_last() =~= events_view(events@).take(i as int));
            assert(prefix.last() == (events@[i as int].0@, events@[i as int].1@));
        }
        let (name, list) = &events[i];
        match list {
            EntryList::Array(entries) => {
                let rest = remove_bridge(entries);
                if rest.len() > 0 {
                    cleaned.push((name.clone(), EntryList::Array(rest)));
                    proof {
                        assert(events_view(cleaned@) =~= events_cleaned(prefix));
                    }
                }
            },
            EntryList::Other(text) => {
                cleaned.push((name.clone(), EntryList::Other(text.clone())));
                proof {
                    assert(events_view(cleaned@) =~= events_cleaned(prefix));
                }
            },
        }
        i = i + 1;
    }
    proof {
        assert(events_view(events@).take(i as int) =~= events_view(events@));
    }
    cleaned
}

/// Removes the bridge's entries from a hooks file, and drops the event lists
/// that this leaves empty.
pub fn uninstall_hooks(file: HooksFile) -> (w: HooksFile)
    ensures
        w@ == hooks_uninstalled(file@),
{
    match file {
        HooksFile::Object(mut members) => {
            let ghost start = members_view(members@);
            match find_key(&members, "hooks") {
                Some(p) => {
                    proof {
                        lemma_key_pos_is(start, "hooks"@, p as int);
                    }
                    let cleaned = match &members[p].1 {
                        MemberValue::Object(events) => Some(clean_events(events)),
                        MemberValue::Other(_) => None,
                    };
                    match cleaned {
                        Some(events) => {
                            let (key, _) = members.remove(p);
                            members.insert(p, (key, MemberValue::Object(events)));
                            proof {
                                assert(members_view(members@) =~= assign(
                                    start,
                                    "hooks"@,
                                    MemberModel::Object(events_view(events@)),
                                ));
                            }
                        },
                        None => {},
                    }
                    HooksFile::Object(members)
                },
                None => {
                    proof {
                        lemma_key_pos(start, "hooks"@);
                    }
                    HooksFile::Object(members)
                },
            }
        },
        HooksFile::Other(text) => HooksFile::Other(text),
    }
}

// ---------------------------------------------------------------------------
// The file's bytes
// ---------------------------------------------------------------------------

/// The bytes written when installing into a file with the bytes `existing`,
/// or into a new file, or why nothing is written.
pub open spec fn hooks_file_installed(existing: Option<Seq<u8>>, command: Seq<char>) -> Result<
    Seq<u8>,
    HooksErrorModel,
> {
    let parsed = match existing {
        Some(bytes) => match parsed_hooks(bytes) {
            Ok(f) => Ok(Some(f)),
            Err(msg) => Err(msg),
        },
        None => Ok(None),
    };
    match parsed {
        Err(msg) => Err(HooksErrorModel::Unparsable(msg)),
        Ok(file) => match hooks_installed(file, command) {
            Some(w) => Ok(rendered_hooks(w)),
            None => Err(HooksErrorModel::RootNotObject),
        },
    }
}

/// The bytes written when removing the bridge's hooks from a file with the
/// bytes `existing`, or why nothing is written.
pub open spec fn hooks_file_uninstalled(existing: Seq<u8>) -> Result<Seq<u8>, HooksErrorModel> {
    match parsed_hooks(existing) {
        Ok(f) => Ok(rendered_hooks(hooks_uninstalled(f))),
        Err(msg) => Err(HooksErrorModel::Unparsable(msg)),
    }
}

/// The model of an optional byte string.
pub open spec fn bytes_view(bytes: Option<&[u8]>) -> Option<Seq<u8>> {
    match bytes {
        Some(b) => Some(b@),
        None => None,
    }
}

/// The contents to write to the hooks file after installing the bridge's hooks
/// for `binary` into the file's current contents `existing` (`None` when there
/// is no file yet).
pub fn install_hooks_file(existing: Option<&[u8]>, binary: &str) -> (r: Result<Vec<u8>, HooksError>)
    ensures
        match hooks_file_installed(bytes_view(existing), shell_quoted(binary@) + " hook"@) {
            Ok(bytes) => r matches Ok(b) && b@ == bytes,
            Err(e) => r matches Err(x) && x@ == e,
        },
{
    let file = match existing {
        Some(bytes) => match parse_hooks_file(bytes) {
            Ok(f) => Some(f),
            Err(msg) => {
                return Err(HooksError::Unparsable(msg));
            },
        },
        None => None,
    };
    match install_hooks(file, binary) {
        Ok(w) => Ok(render_hooks_file(&w)),
        Err(e) => Err(e),
    }
}

/// The contents to write to the hooks file after removing the bridge's hooks
/// from its current contents `existing`.
pub fn uninstall_hooks_file(existing: &[u8]) -> (r: Result<Vec<u8>, HooksError>)
    ensures
        match hooks_file_uninstalled(existing@) {
            Ok(bytes) => r matches Ok(b) && b@ == bytes,
            Err(e) => r matches Err(x) && x@ == e,
        },
{
    match parse_hooks_file(existing) {
        Ok(f) => Ok(render_hooks_file(&uninstall_hooks(f))),
        Err(msg) => Err(HooksError::Unparsable(msg)),
    }
}

// ---------------------------------------------------------------------------
// What installing and removing promise
// ---------------------------------------------------------------------------

/// Escaping two texts one after the other escapes each of them.
proof fn lemma_json_escape_concat(a: Seq<char>, b: Seq<char>)
    ensures
        json_escape(a + b) == json_escape(a) + json_escape(b),
    decreases a.len(),
{
    if a.len() > 0 {
        lemma_json_escape_concat(a.drop_first(), b);
        assert((a + b).drop_first() =~= a.drop_first() + b);
        assert((a + b)[0] == a[0]);
        assert(json_escape_char(a[0]) + (json_escape(a.drop_first()) + json_escape(b))
            =~= json_escape_char(a[0]) + json_escape(a.drop_first()) + json_escape(b));
    } else {
        assert(a + b =~= b);
        assert(json_escape(a) + json_escape(b) =~= json_escape(b));
    }
}

/// A text of printable characters other than `"` and `\\` is left alone by
/// JSON escaping.
proof fn lemma_json_escape_plain(s: Seq<char>)
    requires
        forall|i: int|
            0 <= i < s.len() ==> s[i] != '"' && s[i] != '\\' && (s[i] as u32) >= 0x20,
    ensures
        json_escape(s) == s,
    decreases s.len(),
{
    if s.len() > 0 {
        lemma_json_escape_plain(s.drop_first());
        assert(s =~= seq![s[0]] + s.drop_first());
    }
}

/// The entry installed for a bridge binary whose path contains `MARKER` at
/// `at` is recognised as one of the bridge's own.
pub proof fn lemma_bridge_entry_is_recognised(binary: Seq<char>, at: int)
    requires
        0 <= at && at + MARKER@.len() <= binary.len(),
        binary.subrange(at, at + MARKER@.len()) == MARKER@,
    ensures
        is_bridge_entry(bridge_entry_text(shell_quoted(binary) + " hook"@)),
{
    reveal_strlit("codex-ble-bridge");
    let m = MARKER@;
    let parts = command_around_marker(binary, at);
    lemma_json_escape_concat(parts.0 + m, parts.1);
    lemma_json_escape_concat(parts.0, m);
    lemma_json_escape_plain(m);
    let command = shell_quoted(binary) + " hook"@;
    let before = "{\"hooks\":[{\"command\":"@ + seq!['"'] + json_escape(parts.0);
    let after = json_escape(parts.1) + seq!['"'] + ",\"timeout\":3,\"type\":\"command\"}]}"@;
    assert(bridge_entry_text(command) =~= before + m + after);
    lemma_marker_inside(before, after);
}

/// No two hook events share a name.
pub proof fn lemma_hook_events_distinct()
    ensures
        forall|i: int, j: int|
            0 <= i < j < hook_events().len() ==> hook_events()[i] != hook_events()[j],
{
    reveal_strlit("SessionStart");
    reveal_strlit("SessionEnd");
    reveal_strlit("UserPromptSubmit");
    reveal_strlit("PreToolUse");
    reveal_strlit("PostToolUse");
    reveal_strlit("PostToolUseFailure");
    reveal_strlit("PermissionRequest");
    reveal_strlit("Stop");
    reveal_strlit("SubagentStart");
    reveal_strlit("SubagentStop");
    let e = hook_events();
    assert forall|i: int, j: int| 0 <= i < j < e.len() implies e[i] != e[j] by {
        if e[i] == e[j] {
            assert(e[i].len() == e[j].len());
            assert(e[i][0] == e[j][0]);
            assert(e[i][1] == e[j][1]);
            assert(e[i][2] == e[j][2]);
            assert(e[i][4] == e[j][4]);
            assert(e[i][7] == e[j][7]);
        }
    }
}

/// The first `n` hook events have their installed lists, and every other list
/// is as it was.
proof fn lemma_events_installed(events: Seq<(Seq<char>, EntryListModel)>, entry: Seq<char>, n: nat)
    requires
        n <= 10,
    ensures
        forall|i: int|
            0 <= i < n ==> lookup(events_installed(events, entry, n), #[trigger] hook_events()[i])
                == Some(
                EntryListModel::Array(installed_list(lookup(events, hook_events()[i]), entry)),
            ),
        forall|k: Seq<char>|
            (forall|i: int| 0 <= i < n ==> k != #[trigger] hook_events()[i]) ==> lookup(
                events_installed(events, entry, n),
                k,
            ) == lookup(events, k),
    decreases n,
{
    if n > 0 {
        let m = (n - 1) as nat;
        lemma_events_installed(events, entry, m);
        lemma_hook_events_distinct();
        let before = events_installed(events, entry, m);
        let name = hook_events()[n - 1];
        let value = EntryListModel::Array(installed_list(lookup(before, name), entry));
        assert forall|i: int| 0 <= i < n implies lookup(
            events_installed(events, entry, n),
            #[trigger] hook_events()[i],
        ) == Some(EntryListModel::Array(installed_list(lookup(events, hook_events()[i]), entry))) by {
            lemma_assign(before, name, value, hook_events()[i]);
            if i < n - 1 {
                assert(hook_events()[i] != name);
            } else {
                assert forall|j: int| 0 <= j < m implies name != #[trigger] hook_events()[j] by {
                    assert(hook_events()[j] != hook_events()[n - 1]);
                }
            }
        }
        assert forall|k: Seq<char>|
            (forall|i: int| 0 <= i < n ==> k != #[trigger] hook_events()[i]) implies lookup(
                events_installed(events, entry, n),
                k,
            ) == lookup(events, k) by {
            lemma_assign(before, name, value, k);
            assert(k != hook_events()[n - 1]);
        }
    }
}

/// Removing the bridge's entries leaves none.
proof fn lemma_without_bridge_clean(entries: Seq<Seq<char>>)
    ensures
        forall|j: int|
            0 <= j < without_bridge(entries).len() ==> !is_bridge_entry(
                #[trigger] without_bridge(entries)[j],
            ),
    decreases entries.len(),
{
    if entries.len() > 0 {
        lemma_without_bridge_clean(entries.drop_last());
        let kept = without_bridge(entries.drop_last());
        let last = entries.last();
        if !is_bridge_entry(last) {
            assert forall|j: int| 0 <= j < kept.len() + 1 implies !is_bridge_entry(
                #[trigger] kept.push(last)[j],
            ) by {
                if j < kept.len() {
                    assert(kept.push(last)[j] == kept[j]);
                }
            }
        }
    }
}

/// Removing the bridge's entries twice removes nothing more.
proof fn lemma_without_bridge_twice(entries: Seq<Seq<char>>)
    ensures
        without_bridge(without_bridge(entries)) == without_bridge(entries),
    decreases entries.len(),
{
    if entries.len() > 0 {
        lemma_without_bridge_twice(entries.drop_last());
        let kept = without_bridge(entries.drop_last());
        if !is_bridge_entry(entries.last()) {
            assert(kept.push(entries.last()).drop_last() =~= kept);
        }
    }
}

/// Installing into event lists that already end with the bridge's entry
/// changes nothing.
proof fn lemma_events_installed_again(events: Seq<(Seq<char>, EntryListModel)>, entry: Seq<char>, n: nat)
    requires
        n <= 10,
        is_bridge_entry(entry),
    ensures
        events_installed(events_installed(events, entry, 10), entry, n) == events_installed(
            events,
            entry,
            10,
        ),
    decreases n,
{
    if n > 0 {
        let done = events_installed(events, entry, 10);
        let m = (n - 1) as nat;
        lemma_events_installed_again(events, entry, m);
        lemma_events_installed(events, entry, 10);
        let name = hook_events()[n - 1];
        let first = without_bridge(entries_of(lookup(events, name)));
        assert(lookup(done, hook_events()[n - 1]) == Some(
            EntryListModel::Array(first.push(entry)),
        ));
        lemma_without_bridge_twice(entries_of(lookup(events, name)));
        assert(first.push(entry).drop_last() =~= first);
        assert(installed_list(lookup(done, name), entry) == first.push(entry));
        lemma_assign_same(done, name, EntryListModel::Array(first.push(entry)));
    }
}

/// The members of a hooks file that is an object, or of the default file where
/// there is none; no members for a file that is not an object.
pub open spec fn root_members(file: Option<HooksFileModel>) -> Seq<(Seq<char>, MemberModel)> {
    match file {
        Some(HooksFileModel::Object(members)) => members,
        Some(HooksFileModel::Other(_)) => Seq::empty(),
        None => match default_hooks_file() {
            HooksFileModel::Object(members) => members,
            HooksFileModel::Other(_) => Seq::empty(),
        },
    }
}

/// The top-level members of a file, or none when it is not an object.
pub open spec fn file_members(file: HooksFileModel) -> Seq<(Seq<char>, MemberModel)> {
    match file {
        HooksFileModel::Object(members) => members,
        HooksFileModel::Other(_) => Seq::empty(),
    }
}

/// The event lists under a file's `hooks` member.
pub open spec fn file_events(file: HooksFileModel) -> Seq<(Seq<char>, EntryListModel)> {
    match file {
        HooksFileModel::Object(members) => events_of(lookup(members, "hooks"@)),
        HooksFileModel::Other(_) => Seq::empty(),
    }
}

/// After installing, the `hooks` member is an object, and the list of each of
/// the hook events holds the user's entries in their order, followed by the
/// bridge's entry.
pub proof fn lemma_install_keeps_user_entries(file: Option<HooksFileModel>, binary: Seq<char>, i: int)
    requires
        hooks_installed(file, shell_quoted(binary) + " hook"@) is Some,
        0 <= i < hook_events().len(),
    ensures
        ({
            let command = shell_quoted(binary) + " hook"@;
            let w = hooks_installed(file, command)->0;
            &&& w is Object
            &&& lookup(file_members(w), "hooks"@) matches Some(MemberModel::Object(_))
            &&& lookup(file_events(w), hook_events()[i]) == Some(
                EntryListModel::Array(
                    without_bridge(
                        entries_of(
                            lookup(
                                events_of(lookup(root_members(file), "hooks"@)),
                                hook_events()[i],
                            ),
                        ),
                    ).push(bridge_entry_text(command)),
                ),
            )
        }),
{
    let command = shell_quoted(binary) + " hook"@;
    let members = root_members(file);
    let events = events_of(lookup(members, "hooks"@));
    let entry = bridge_entry_text(command);
    let installed = events_installed(events, entry, 10);
    lemma_assign(members, "hooks"@, MemberModel::Object(installed), "hooks"@);
    lemma_events_installed(events, entry, 10);
    assert(lookup(installed, hook_events()[i]) == Some(
        EntryListModel::Array(installed_list(lookup(events, hook_events()[i]), entry)),
    ));
}

/// After installing for a binary whose path contains `MARKER`, every hook
/// event's list ends with the bridge's entry, and no entry before it is one of
/// the bridge's.
pub proof fn lemma_install_ends_with_one_bridge_entry(
    file: Option<HooksFileModel>,
    binary: Seq<char>,
    at: int,
    i: int,
)
    requires
        hooks_installed(file, shell_quoted(binary) + " hook"@) is Some,
        0 <= at && at + MARKER@.len() <= binary.len(),
        binary.subrange(at, at + MARKER@.len()) == MARKER@,
        0 <= i < hook_events().len(),
    ensures
        ({
            let command = shell_quoted(binary) + " hook"@;
            let w = hooks_installed(file, command)->0;
            lookup(file_events(w), hook_events()[i]) matches Some(EntryListModel::Array(entries))
                && entries.len() > 0 && entries.last() == bridge_entry_text(command)
                && is_bridge_entry(entries.last()) && forall|j: int|
                0 <= j < entries.len() - 1 ==> !is_bridge_entry(#[trigger] entries[j])
        }),
{
    let command = shell_quoted(binary) + " hook"@;
    lemma_install_keeps_user_entries(file, binary, i);
    lemma_bridge_entry_is_recognised(binary, at);
    let user = without_bridge(
        entries_of(lookup(events_of(lookup(root_members(file), "hooks"@)), hook_events()[i])),
    );
    lemma_without_bridge_clean(
        entries_of(lookup(events_of(lookup(root_members(file), "hooks"@)), hook_events()[i])),
    );
    let entries = user.push(bridge_entry_text(command));
    assert forall|j: int| 0 <= j < entries.len() - 1 implies !is_bridge_entry(
        #[trigger] entries[j],
    ) by {
        assert(entries[j] == user[j]);
    }
}

/// Installing leaves every top-level member other than `hooks` as it was, and
/// every list under `hooks` whose name is not a hook event.
pub proof fn lemma_install_keeps_the_rest(
    file: Option<HooksFileModel>,
    binary: Seq<char>,
    k: Seq<char>,
)
    requires
        hooks_installed(file, shell_quoted(binary) + " hook"@) is Some,
    ensures
        ({
            let w = hooks_installed(file, shell_quoted(binary) + " hook"@)->0;
            &&& k != "hooks"@ ==> lookup(file_members(w), k) == lookup(root_members(file), k)
            &&& (forall|i: int| 0 <= i < hook_events().len() ==> k != #[trigger] hook_events()[i])
                ==> lookup(file_events(w), k) == lookup(
                events_of(lookup(root_members(file), "hooks"@)),
                k,
            )
        }),
{
    let command = shell_quoted(binary) + " hook"@;
    let members = root_members(file);
    let events = events_of(lookup(members, "hooks"@));
    let installed = events_installed(events, bridge_entry_text(command), 10);
    lemma_assign(members, "hooks"@, MemberModel::Object(installed), k);
    lemma_assign(members, "hooks"@, MemberModel::Object(installed), "hooks"@);
    lemma_events_installed(events, bridge_entry_text(command), 10);
}

/// Installing twice for a binary whose path contains `MARKER` gives the same
/// file as installing once.
pub proof fn lemma_install_twice(file: Option<HooksFileModel>, binary: Seq<char>, at: int)
    requires
        hooks_installed(file, shell_quoted(binary) + " hook"@) is Some,
        0 <= at && at + MARKER@.len() <= binary.len(),
        binary.subrange(at, at + MARKER@.len()) == MARKER@,
    ensures
        hooks_installed(
            hooks_installed(file, shell_quoted(binary) + " hook"@),
            shell_quoted(binary) + " hook"@,
        ) == hooks_installed(file, shell_quoted(binary) + " hook"@),
{
    let command = shell_quoted(binary) + " hook"@;
    let entry = bridge_entry_text(command);
    lemma_bridge_entry_is_recognised(binary, at);
    let members = root_members(file);
    let events = events_of(lookup(members, "hooks"@));
    let installed = events_installed(events, entry, 10);
    let once = assign(members, "hooks"@, MemberModel::Object(installed));
    lemma_assign(members, "hooks"@, MemberModel::Object(installed), "hooks"@);
    lemma_events_installed_again(events, entry, 10);
    lemma_assign_same(once, "hooks"@, MemberModel::Object(installed));
}

/// A list that is not an array, or a non-empty array without the bridge's
/// entries.
pub open spec fn free_of_bridge(list: EntryListModel) -> bool {
    match list {
        EntryListModel::Array(entries) => entries.len() > 0 && forall|j: int|
            0 <= j < entries.len() ==> !is_bridge_entry(#[trigger] entries[j]),
        EntryListModel::Other(_) => true,
    }
}

/// Every list left under `hooks` by cleaning is either not an array or a
/// non-empty array without the bridge's entries.
proof fn lemma_events_cleaned(events: Seq<(Seq<char>, EntryListModel)>)
    ensures
        forall|i: int|
            0 <= i < events_cleaned(events).len() ==> free_of_bridge(
                (#[trigger] events_cleaned(events)[i]).1,
            ),
    decreases events.len(),
{
    if events.len() > 0 {
        lemma_events_cleaned(events.drop_last());
        let kept = events_cleaned(events.drop_last());
        let now = events_cleaned(events);
        if let EntryListModel::Array(entries) = events.last().1 {
            lemma_without_bridge_clean(entries);
        }
        assert forall|i: int| 0 <= i < now.len() implies free_of_bridge(#[trigger] now[i].1) by {
            if i < kept.len() {
                assert(now[i] == kept[i]);
            }
        }
    }
}

/// After removing, no list under `hooks` holds one of the bridge's entries,
/// and no array under it is empty.
pub proof fn lemma_uninstall_leaves_no_bridge_entry(file: HooksFileModel, k: Seq<char>)
    ensures
        lookup(file_events(hooks_uninstalled(file)), k) matches Some(list) ==> free_of_bridge(list),
{
    if let HooksFileModel::Object(members) = file {
        if let Some(MemberModel::Object(events)) = lookup(members, "hooks"@) {
            let cleaned = events_cleaned(events);
            lemma_assign(members, "hooks"@, MemberModel::Object(cleaned), "hooks"@);
            lemma_events_cleaned(events);
            lemma_key_pos(cleaned, k);
            if key_pos(cleaned, k) >= 0 {
                assert(cleaned[key_pos(cleaned, k)] == cleaned[key_pos(cleaned, k)]);
            }
        }
    }
}

} // verus!
