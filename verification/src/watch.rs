//! Which file-system changes under the calendar directory are worth a
//! rescan: changes to events and collection metadata, not the temporary
//! files an atomic write stages first.

use vstd::prelude::*;

verus! {

/// The last component of a path, as `Path::file_name` reads it, when it is
/// valid text.
pub uninterp spec fn path_file_name(path: Seq<char>) -> Option<Seq<char>>;

/// Whether a path's file name has an extension, as `Path::extension` reads
/// it: there is a file name, and it holds a `.` after its first character.
pub open spec fn path_has_extension(path: Seq<char>) -> bool {
    match path_file_name(path) {
        Some(n) => exists|i: int| 0 < i < n.len() && n[i] == '.',
        None => false,
    }
}

/// The file name of a path, through `std::path::Path::file_name` and
/// `OsStr::to_str`. Claimed of it: the result is a function of the path.
#[verifier::external_body]
fn file_name_of(path: &str) -> (r: Option<String>)
    ensures
        match r {
            Some(s) => path_file_name(path@) == Some(s@),
            None => path_file_name(path@) is None,
        },
{
    match std::path::Path::new(path).file_name() {
        Some(s) => match s.to_str() {
            Some(t) => Some(t.to_owned()),
            None => None,
        },
        None => None,
    }
}

/// Whether a path has an extension, through `std::path::Path::extension`.
/// Claimed of it, as its documentation gives: there is one exactly when the
/// path has a file name that holds a `.` after its first character (a name
/// that only begins with `.` has none). A file name of a `&str` path is
/// always valid text, so `path_file_name` names it.
#[verifier::external_body]
fn has_extension(path: &str) -> (r: bool)
    ensures
        r == path_has_extension(path@),
{
    std::path::Path::new(path).extension().is_some()
}

pub open spec fn starts_with_dot(s: Seq<char>) -> bool {
    s.len() > 0 && s[0] == '.'
}

pub open spec fn ends_with(s: Seq<char>, suffix: Seq<char>) -> bool {
    s.len() >= suffix.len() && s.skip(s.len() - suffix.len()) == suffix
}

/// Whether a file with this name (and extension or not) holds calendar
/// data: an `.ics` event, a `displayname` or `color` file, or an
/// extensionless collection directory; never a hidden `.tmp` staging file.
pub open spec fn calendar_name(name: Option<Seq<char>>, has_ext: bool) -> bool {
    match name {
        None => false,
        Some(n) => if starts_with_dot(n) && ends_with(n, ".tmp"@) {
            false
        } else {
            ends_with(n, ".ics"@) || n == "displayname"@ || n == "color"@ || !has_ext
        },
    }
}

fn ends_with_exec(s: &[char], suffix: &str) -> (r: bool)
    ensures
        r == ends_with(s@, suffix@),
{
    let suf = crate::text::chars_of(suffix);
    if s.len() < suf.len() {
        return false;
    }
    let off = s.len() - suf.len();
    let tail = crate::text::sub_chars(s, off, s.len());
    assert(tail@ =~= s@.skip(off as int));
    let mut i: usize = 0;
    while i < suf.len()
        invariant
            i <= suf@.len(),
            suf@ == suffix@,
            off == s@.len() - suf@.len(),
            tail@ == s@.skip(off as int),
            tail@.len() == suf@.len(),
            forall|j: int| 0 <= j < i ==> tail@[j] == suf@[j],
        decreases suf.len() - i,
    {
        if tail[i] != suf[i] {
            assert(tail@[i as int] != suf@[i as int]);
            assert(tail@ != suf@);
            return false;
        }
        i = i + 1;
    }
    assert(tail@ =~= suf@);
    true
}

/// Whether a file named `name` (when its name is valid text) holds calendar
/// data, given whether it has an extension.
pub fn is_calendar_name(name: Option<&str>, has_ext: bool) -> (r: bool)
    ensures
        r == calendar_name(
            match name {
                Some(n) => Some(n@),
                None => None,
            },
            has_ext,
        ),
{
    match name {
        None => false,
        Some(n) => {
            let v = crate::text::chars_of(n);
            if v.len() > 0 && v[0] == '.' && ends_with_exec(v.as_slice(), ".tmp") {
                false
            } else {
                ends_with_exec(v.as_slice(), ".ics") || crate::text::seq_is(v.as_slice(), "displayname")
                    || crate::text::seq_is(v.as_slice(), "color") || !has_ext
            }
        },
    }
}

/// Whether a changed path holds calendar data.
pub fn is_calendar_path(path: &str) -> (r: bool)
    ensures
        r == calendar_name(path_file_name(path@), path_has_extension(path@)),
{
    let ext = has_extension(path);
    match file_name_of(path) {
        Some(n) => is_calendar_name(Some(n.as_str()), ext),
        None => is_calendar_name(None, ext),
    }
}

/// What happened to the paths of a change.
#[derive(Clone, Copy, Debug, PartialEq, Eq, Structural)]
pub enum FsChange {
    Create,
    Modify,
    Remove,
    /// Access and other events that change nothing.
    Other,
}

/// One file-system change under the watched directory.
#[derive(Clone, Debug)]
pub struct FsEvent {
    pub kind: FsChange,
    pub paths: Vec<String>,
}

/// Whether a change is worth a rescan: a creation, modification or removal
/// that touches calendar data. A watcher error is not.
pub open spec fn interesting(event: Result<FsEvent, String>) -> bool {
    match event {
        Err(_) => false,
        Ok(e) => e.kind != FsChange::Other && exists|i: int|
            0 <= i < e.paths@.len() && calendar_name(
                path_file_name(#[trigger] e.paths@[i]@),
                path_has_extension(e.paths@[i]@),
            ),
    }
}

/// Filters out noise: our own staging files, and anything that is not
/// calendar data.
pub fn is_interesting(event: &Result<FsEvent, String>) -> (r: bool)
    ensures
        r == interesting(*event),
{
    match event {
        Err(_) => false,
        Ok(e) => {
            if e.kind == FsChange::Other {
                return false;
            }
            let mut i: usize = 0;
            while i < e.paths.len()
                invariant
                    i <= e.paths@.len(),
                    e.kind != FsChange::Other,
                    *event == Ok::<FsEvent, String>(*e),
                    forall|j: int|
                        0 <= j < i ==> !calendar_name(
                            path_file_name(#[trigger] e.paths@[j]@),
                            path_has_extension(e.paths@[j]@),
                        ),
                decreases e.paths.len() - i,
            {
                if is_calendar_path(e.paths[i].as_str()) {
                    assert(calendar_name(
                        path_file_name(e.paths@[i as int]@),
                        path_has_extension(e.paths@[i as int]@),
                    ));
                    assert(e.kind != FsChange::Other);
                    assert(exists|k: int|
                        0 <= k < e.paths@.len() && calendar_name(
                            path_file_name(#[trigger] e.paths@[k]@),
                            path_has_extension(e.paths@[k]@),
                        ));
                    return true;
                }
                i = i + 1;
            }
            false
        },
    }
}

/// How long the directory must be quiet before a burst of changes is acted
/// on, in milliseconds.
pub const QUIET_PERIOD_MS: u64 = 400;

/// How long a continuous stream of changes may delay a rescan, in
/// milliseconds.
pub const MAX_DELAY_MS: u64 = 3000;

/// Where the change debouncer stands.
#[derive(Clone, Copy, Debug, PartialEq, Eq, Structural)]
pub enum Debounce {
    /// Waiting for a change worth a rescan.
    Idle,
    /// Absorbing a burst that started at this time, in milliseconds.
    Settling(u64),
}

/// What the watcher reports to the debouncer.
#[derive(Clone, Copy, Debug, PartialEq, Eq, Structural)]
pub enum WatchInput {
    /// A change arrived at this time; whether it is worth a rescan.
    Change(bool, u64),
    /// The quiet period passed with no change.
    Quiet,
    /// The watcher is gone.
    Closed,
}

/// What the debouncer asks of the loop around it.
#[derive(Clone, Copy, Debug, PartialEq, Eq, Structural)]
pub enum WatchAction {
    /// Wait for the next change, however long it takes.
    WaitForChange,
    /// Wait for the next change, at most the quiet period.
    WaitQuiet,
    /// Ask for one rescan, then wait for the next change. A rescan already
    /// pending absorbs this one.
    Rescan,
    /// Stop watching.
    Stop,
}

/// The debouncer's next state and action on an input: a change worth a
/// rescan starts a burst; within a burst every change is absorbed until the
/// directory is quiet or the burst has lasted the longest delay allowed.
pub open spec fn debounce_spec(state: Debounce, input: WatchInput) -> (Debounce, WatchAction) {
    match input {
        WatchInput::Closed => (Debounce::Idle, WatchAction::Stop),
        WatchInput::Quiet => match state {
            Debounce::Idle => (Debounce::Idle, WatchAction::WaitForChange),
            Debounce::Settling(_) => (Debounce::Idle, WatchAction::Rescan),
        },
        WatchInput::Change(worth, at) => match state {
            Debounce::Idle => if worth {
                (Debounce::Settling(at), WatchAction::WaitQuiet)
            } else {
                (Debounce::Idle, WatchAction::WaitForChange)
            },
            Debounce::Settling(started) => if at >= started && at - started >= MAX_DELAY_MS {
                (Debounce::Idle, WatchAction::Rescan)
            } else {
                (Debounce::Settling(started), WatchAction::WaitQuiet)
            },
        },
    }
}

/// The debouncer's next state and action on an input.
pub fn debounce_step(state: Debounce, input: WatchInput) -> (r: (Debounce, WatchAction))
    ensures
        r == debounce_spec(state, input),
{
    match input {
        WatchInput::Closed => (Debounce::Idle, WatchAction::Stop),
        WatchInput::Quiet => match state {
            Debounce::Idle => (Debounce::Idle, WatchAction::WaitForChange),
            Debounce::Settling(_) => (Debounce::Idle, WatchAction::Rescan),
        },
        WatchInput::Change(worth, at) => match state {
            Debounce::Idle => if worth {
                (Debounce::Settling(at), WatchAction::WaitQuiet)
            } else {
                (Debounce::Idle, WatchAction::WaitForChange)
            },
            Debounce::Settling(started) => if at >= started && at - started >= MAX_DELAY_MS {
                (Debounce::Idle, WatchAction::Rescan)
            } else {
                (Debounce::Settling(started), WatchAction::WaitQuiet)
            },
        },
    }
}

/// The state after a run of inputs, and how many rescans it asked for.
pub open spec fn debounce_run(state: Debounce, inputs: Seq<WatchInput>) -> (Debounce, nat)
    decreases inputs.len(),
{
    if inputs.len() == 0 {
        (state, 0)
    } else {
        let (next, action) = debounce_spec(state, inputs[0]);
        let (end, n) = debounce_run(next, inputs.drop_first());
        (end, if action == WatchAction::Rescan {
            n + 1
        } else {
            n
        })
    }
}

/// Whether an input is a change arriving from `started` and before `limit`.
pub open spec fn change_within(input: WatchInput, started: u64, limit: int) -> bool {
    match input {
        WatchInput::Change(_, at) => started <= at && at < limit,
        _ => false,
    }
}

/// Whether every input is a change arriving from `started` and before `limit`.
pub open spec fn changes_before(inputs: Seq<WatchInput>, started: u64, limit: int) -> bool {
    forall|i: int| 0 <= i < inputs.len() ==> change_within(#[trigger] inputs[i], started, limit)
}

/// A burst of changes asks for one rescan: a change worth one, then any
/// changes that come while the directory is not yet quiet and the burst is
/// younger than the longest delay, then a quiet period, ask for exactly one
/// rescan and leave the debouncer idle.
pub proof fn lemma_one_rescan_per_burst(started: u64, rest: Seq<WatchInput>)
    requires
        changes_before(rest, started, started + MAX_DELAY_MS),
    ensures
        debounce_run(
            Debounce::Idle,
            seq![WatchInput::Change(true, started)] + rest + seq![WatchInput::Quiet],
        ) == (Debounce::Idle, 1nat),
{
    let all = seq![WatchInput::Change(true, started)] + rest + seq![WatchInput::Quiet];
    assert(all[0] == WatchInput::Change(true, started));
    assert(all.drop_first() =~= rest + seq![WatchInput::Quiet]);
    lemma_run_then_quiet(started, rest);
}

proof fn lemma_run_then_quiet(started: u64, rest: Seq<WatchInput>)
    requires
        changes_before(rest, started, started + MAX_DELAY_MS),
    ensures
        debounce_run(Debounce::Settling(started), rest + seq![WatchInput::Quiet]) == (Debounce::Idle, 1nat),
    decreases rest.len(),
{
    let all = rest + seq![WatchInput::Quiet];
    if rest.len() == 0 {
        assert(all =~= seq![WatchInput::Quiet]);
        assert(all.drop_first() =~= Seq::<WatchInput>::empty());
        assert(debounce_run(Debounce::Idle, all.drop_first()) == (Debounce::Idle, 0nat));
        assert(debounce_spec(Debounce::Settling(started), all[0]) == (Debounce::Idle, WatchAction::Rescan));
    } else {
        let tail = rest.drop_first();
        assert forall|i: int| 0 <= i < tail.len() implies change_within(#[trigger] tail[i], started, started + MAX_DELAY_MS) by {
            assert(tail[i] == rest[i + 1]);
        }
        lemma_run_then_quiet(started, tail);
        assert(all[0] == rest[0]);
        assert(all.drop_first() =~= tail + seq![WatchInput::Quiet]);
        assert(change_within(rest[0], started, started + MAX_DELAY_MS));
        assert(debounce_spec(Debounce::Settling(started), all[0]) == (
            Debounce::Settling(started),
            WatchAction::WaitQuiet,
        ));
    }
}

/// A stream of changes cannot put a rescan off for ever: a change arriving
/// once the burst has lasted the longest delay asks for the rescan.
pub proof fn lemma_longest_delay(started: u64, worth: bool, at: u64)
    requires
        at >= started + MAX_DELAY_MS,
    ensures
        debounce_spec(Debounce::Settling(started), WatchInput::Change(worth, at)) == (
            Debounce::Idle,
            WatchAction::Rescan,
        ),
{
}

} // verus!
