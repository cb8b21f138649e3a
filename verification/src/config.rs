//! Saved settings: the paired displays and the pairing policy, and the quoting
//! of paths for the shell commands that Codex runs.
use vstd::prelude::*;
use vstd::string::StringExecFns;

use crate::text::{escape_single_quotes, escape_single_quotes_spec, text_eq};

verus! {

/// A display that the bridge has paired with.
#[derive(Debug)]
pub struct SavedDevice {
    pub id: String,
    pub name: String,
    pub last_seen: u64,
}

/// The mathematical content of a `SavedDevice`.
pub struct DeviceRecord {
    pub id: Seq<char>,
    pub name: Seq<char>,
    pub last_seen: u64,
}

impl View for SavedDevice {
    type V = DeviceRecord;

    open spec fn view(&self) -> DeviceRecord {
        DeviceRecord { id: self.id@, name: self.name@, last_seen: self.last_seen }
    }
}

impl Clone for SavedDevice {
    fn clone(&self) -> (r: Self)
        ensures
            r@ == self@,
    {
        SavedDevice { id: self.id.clone(), name: self.name.clone(), last_seen: self.last_seen }
    }
}

/// The records of a sequence of devices, in the same order.
pub open spec fn device_records(devices: Seq<SavedDevice>) -> Seq<DeviceRecord> {
    devices.map_values(|d: SavedDevice| d@)
}

/// The bridge's saved settings.
#[derive(Debug)]
pub struct Settings {
    /// Connect to every display that advertises the service, not only to saved ones.
    pub auto_pair: bool,
    pub devices: Vec<SavedDevice>,
}

impl Default for Settings {
    fn default() -> (s: Self)
        ensures
            !s.auto_pair,
            s.devices@.len() == 0,
    {
        Settings { auto_pair: false, devices: Vec::new() }
    }
}

/// `path` quoted for a POSIX shell: wrapped in `'`, with each `'` inside
/// written as `'\''`.
pub open spec fn shell_quoted(path: Seq<char>) -> Seq<char> {
    seq!['\''] + escape_single_quotes_spec(path) + seq!['\'']
}

/// How a POSIX shell reads a word made of plain characters, backslash
/// escapes and single-quoted runs, starting inside a quoted run when
/// `quoted` is set: the characters that the word stands for.
pub open spec fn shell_word(s: Seq<char>, quoted: bool) -> Seq<char>
    decreases s.len(),
{
    if s.len() == 0 {
        Seq::empty()
    } else if quoted {
        if s[0] == '\'' {
            shell_word(s.drop_first(), false)
        } else {
            seq![s[0]] + shell_word(s.drop_first(), true)
        }
    } else if s[0] == '\'' {
        shell_word(s.drop_first(), true)
    } else if s[0] == '\\' && s.len() >= 2 {
        seq![s[1]] + shell_word(s.subrange(2, s.len() as int), false)
    } else {
        seq![s[0]] + shell_word(s.drop_first(), false)
    }
}

proof fn lemma_escaped_run(path: Seq<char>, rest: Seq<char>)
    ensures
        shell_word(escape_single_quotes_spec(path) + rest, true) == path + shell_word(rest, true),
    decreases path.len(),
{
    if path.len() == 0 {
        assert(escape_single_quotes_spec(path) + rest =~= rest);
        assert(path + shell_word(rest, true) =~= shell_word(rest, true));
    } else {
        let tail = path.drop_first();
        lemma_escaped_run(tail, rest);
        let after = escape_single_quotes_spec(tail) + rest;
        let whole = escape_single_quotes_spec(path) + rest;
        if path[0] == '\'' {
            let q = seq!['\'', '\\', '\'', '\''];
            assert(whole =~= q + after);
            let w1 = whole.drop_first();
            assert(w1 =~= seq!['\\', '\'', '\''] + after);
            let w2 = w1.subrange(2, w1.len() as int);
            assert(w2 =~= seq!['\''] + after);
            assert(w2.drop_first() =~= after);
            assert(whole[0] == '\'');
            assert(shell_word(whole, true) == shell_word(w1, false));
            assert(w1[0] == '\\' && w1[1] == '\'');
            assert(shell_word(w1, false) == seq!['\''] + shell_word(w2, false));
            assert(w2[0] == '\'');
            assert(shell_word(w2, false) == shell_word(after, true));
            assert(path =~= seq!['\''] + tail);
            assert(path + shell_word(rest, true) =~= seq!['\''] + (tail + shell_word(rest, true)));
        } else {
            assert(whole =~= seq![path[0]] + after);
            assert(whole.drop_first() =~= after);
            assert(whole[0] == path[0]);
            assert(shell_word(whole, true) == seq![path[0]] + shell_word(after, true));
            assert(path =~= seq![path[0]] + tail);
            assert(path + shell_word(rest, true) =~= seq![path[0]] + (tail + shell_word(rest, true)));
        }
    }
}

/// The shell reads a quoted path back as the path itself, whatever
/// characters it holds.
pub proof fn lemma_shell_reads_quoted_path(path: Seq<char>)
    ensures
        shell_word(shell_quoted(path), false) == path,
{
    let q = shell_quoted(path);
    let closing = seq!['\''];
    lemma_escaped_run(path, closing);
    assert(q.drop_first() =~= escape_single_quotes_spec(path) + closing);
    assert(q[0] == '\'');
    assert(shell_word(q, false) == shell_word(q.drop_first(), true));
    assert(closing.drop_first() =~= Seq::<char>::empty());
    assert(shell_word(closing, true) == shell_word(Seq::<char>::empty(), false));
    assert(path + Seq::<char>::empty() =~= path);
}

/// Quotes `path` for a POSIX shell.
pub fn shell_quote(path: &str) -> (quoted: String)
    ensures
        quoted@ == shell_quoted(path@),
{
    proof {
        reveal_strlit("'");
    }
    let escaped = escape_single_quotes(path);
    let mut out = "'".to_owned();
    out.append(escaped.as_str());
    out.append("'");
    out
}

/// Why devices could not be forgotten.
#[derive(Debug, Clone, Copy, PartialEq, Eq, Structural)]
pub enum ForgetError {
    /// Neither a device id nor "all" was given.
    NoDeviceGiven,
}

/// `ds` without the devices whose id is `id`, in the same order.
pub open spec fn without_device(ds: Seq<DeviceRecord>, id: Seq<char>) -> Seq<DeviceRecord>
    decreases ds.len(),
{
    if ds.len() == 0 {
        Seq::empty()
    } else if ds.last().id == id {
        without_device(ds.drop_last(), id)
    } else {
        without_device(ds.drop_last(), id).push(ds.last())
    }
}

/// Forgets saved displays: all of them when `all` is set, otherwise the one
/// with the id `id`. Fails, changing nothing, when neither is given.
pub fn forget_devices(settings: &mut Settings, id: Option<&str>, all: bool) -> (r: Result<
    (),
    ForgetError,
>)
    ensures
        final(settings).auto_pair == old(settings).auto_pair,
        r is Err <==> (!all && id is None),
        r is Err ==> r == Err::<(), ForgetError>(ForgetError::NoDeviceGiven) && device_records(
            final(settings).devices@,
        ) == device_records(old(settings).devices@),
        all ==> final(settings).devices@.len() == 0,
        !all && id is Some ==> device_records(final(settings).devices@) == without_device(
            device_records(old(settings).devices@),
            id.unwrap()@,
        ),
{
    if all {
        settings.devices.clear();
        return Ok(());
    }
    let id = match id {
        Some(id) => id,
        None => return Err(ForgetError::NoDeviceGiven),
    };
    let ghost ds = device_records(settings.devices@);
    let mut kept: Vec<SavedDevice> = Vec::new();
    let mut i: usize = 0;
    while i < settings.devices.len()
        invariant
            ds == device_records(settings.devices@),
            i <= ds.len(),
            device_records(kept@) == without_device(ds.take(i as int), id@),
        decreases settings.devices.len() - i,
    {
        assert(ds.take(i + 1).drop_last() =~= ds.take(i as int));
        if !text_eq(settings.devices[i].id.as_str(), id) {
            let ghost before = device_records(kept@);
            kept.push(settings.devices[i].clone());
            assert(device_records(kept@) =~= before.push(ds[i as int]));
        }
        i = i + 1;
    }
    assert(ds.take(i as int) =~= ds);
    settings.devices = kept;
    Ok(())
}

/// Forgetting a display leaves no display of its id saved and keeps every
/// other saved display.
pub proof fn lemma_forget_removes_only_that_device(ds: Seq<DeviceRecord>, id: Seq<char>)
    ensures
        forall|i: int|
            0 <= i < without_device(ds, id).len() ==> #[trigger] without_device(ds, id)[i].id != id,
        forall|d: DeviceRecord| d.id != id ==> (#[trigger] without_device(ds, id).contains(d)
            == ds.contains(d)),
    decreases ds.len(),
{
    if ds.len() > 0 {
        let prev = ds.drop_last();
        lemma_forget_removes_only_that_device(prev, id);
        let r = without_device(prev, id);
        let out = without_device(ds, id);
        assert forall|d: DeviceRecord| d.id != id implies (#[trigger] out.contains(d) == ds.contains(d)) by {
            if ds.contains(d) {
                let j = choose|j: int| 0 <= j < ds.len() && ds[j] == d;
                if j < prev.len() {
                    assert(prev[j] == d);
                    assert(r.contains(d));
                    let m = choose|m: int| 0 <= m < r.len() && r[m] == d;
                    if ds.last().id != id {
                        assert(out[m] == d);
                    }
                } else {
                    assert(out[out.len() - 1] == d);
                }
            }
            if out.contains(d) {
                let m = choose|m: int| 0 <= m < out.len() && out[m] == d;
                if m < r.len() {
                    assert(r[m] == d);
                    assert(r.contains(d));
                    let j = choose|j: int| 0 <= j < prev.len() && prev[j] == d;
                    assert(ds[j] == d);
                } else {
                    assert(ds[ds.len() - 1] == d);
                }
            }
        }
        if ds.last().id != id {
            assert forall|i: int| 0 <= i < out.len() implies #[trigger] out[i].id != id by {
                if i < r.len() {
                    assert(out[i] == r[i]);
                }
            }
        }
    }
}

} // verus!
