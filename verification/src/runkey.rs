//! "Start with Windows": the settings panel's Run-key toggle. The value
//! named `Deckhand` under the user's Run key is the single source of
//! truth. Reading, writing and deleting it are the application's;
//! comparing what is there with this install's own exe, and what a click
//! changes, are decided here.

use vstd::prelude::*;

use crate::text::{chars_of, string_of, string_of_range, eq_ignore_ascii_case, eq_ignore_ascii_case_spec};
use crate::window_match::{trim, trim_spec};

verus! {

pub const RUN_KEY_SUBKEY: &'static str = "Software\\Microsoft\\Windows\\CurrentVersion\\Run";

pub const RUN_VALUE_NAME: &'static str = "Deckhand";

#[derive(Debug, Clone, PartialEq, Eq)]
pub enum StartWithWindowsState {
    Off,
    OnThisExe,
    /// The value names some other exe: a second install or a moved copy.
    OnOtherExe { path: String },
}

pub enum StartWithWindowsStateV {
    Off,
    OnThisExe,
    OnOtherExe(Seq<char>),
}

impl View for StartWithWindowsState {
    type V = StartWithWindowsStateV;

    open spec fn view(&self) -> StartWithWindowsStateV {
        match self {
            StartWithWindowsState::Off => StartWithWindowsStateV::Off,
            StartWithWindowsState::OnThisExe => StartWithWindowsStateV::OnThisExe,
            StartWithWindowsState::OnOtherExe { path } => StartWithWindowsStateV::OnOtherExe(path@),
        }
    }
}

/// The exact string written into the Run value: the exe path,
/// double-quoted, so a path with spaces still runs as one argument.
pub fn run_value_for_exe(exe_path: &str) -> (v: String)
    ensures
        v@ == seq!['"'] + exe_path@ + seq!['"'],
{
    let cs = chars_of(exe_path);
    let mut out: Vec<char> = Vec::new();
    out.push('"');
    let mut i: usize = 0;
    while i < cs.len()
        invariant
            cs@ == exe_path@,
            i <= cs@.len(),
            out@ == seq!['"'] + cs@.take(i as int),
        decreases cs@.len() - i,
    {
        out.push(cs[i]);
        i = i + 1;
        proof {
            assert(out@ =~= seq!['"'] + cs@.take(i as int));
        }
    }
    out.push('"');
    proof {
        assert(cs@.take(cs@.len() as int) =~= cs@);
        assert(out@ =~= seq!['"'] + exe_path@ + seq!['"']);
    }
    string_of(out.as_slice())
}

/// A stored value with surrounding whitespace trimmed and one pair of
/// enclosing double quotes removed.
pub open spec fn unquoted_value(v: Seq<char>) -> Seq<char> {
    let t = trim_spec(v);
    if t.len() >= 2 && t[0] == '"' && t[t.len() - 1] == '"' {
        t.subrange(1, t.len() - 1)
    } else {
        t
    }
}

fn strip_quotes(value: &str) -> (r: String)
    ensures
        r@ == unquoted_value(value@),
{
    let trimmed = trim(value);
    let cs = chars_of(trimmed.as_str());
    if cs.len() >= 2 && cs[0] == '"' && cs[cs.len() - 1] == '"' {
        string_of_range(&cs, 1, cs.len() - 1)
    } else {
        trimmed
    }
}

/// The Run value compared with this install's exe: absent is `Off`; the
/// same path, ignoring ASCII case and one pair of quotes, `OnThisExe`;
/// anything else names another copy.
pub open spec fn compare_spec(current: Option<Seq<char>>, this_exe: Seq<char>) -> StartWithWindowsStateV {
    match current {
        None => StartWithWindowsStateV::Off,
        Some(raw) => if eq_ignore_ascii_case_spec(unquoted_value(raw), this_exe) {
            StartWithWindowsStateV::OnThisExe
        } else {
            StartWithWindowsStateV::OnOtherExe(unquoted_value(raw))
        },
    }
}

pub fn compare_run_value(current: Option<&str>, this_exe_path: &str) -> (s: StartWithWindowsState)
    ensures
        s@ == compare_spec(crate::state::opt_str(current), this_exe_path@),
{
    match current {
        None => StartWithWindowsState::Off,
        Some(raw) => {
            let existing = strip_quotes(raw);
            if eq_ignore_ascii_case(existing.as_str(), this_exe_path) {
                StartWithWindowsState::OnThisExe
            } else {
                StartWithWindowsState::OnOtherExe { path: existing }
            }
        },
    }
}

/// What the panel's toggle writes.
#[derive(Debug, Clone, PartialEq, Eq)]
pub enum RunValueChange {
    /// Turn it off: delete the value.
    Delete,
    /// Point it at this exe.
    Write(String),
}

/// The toggle: on for this exe is turned off; off, or on for another
/// copy, is pointed at this exe (a person asking to start with Windows
/// almost never means whichever copy is already there).
pub fn toggle_change(current: &StartWithWindowsState, this_exe_path: &str) -> (c: RunValueChange)
    ensures
        current@ is OnThisExe ==> c == RunValueChange::Delete,
        !(current@ is OnThisExe) ==> (c matches RunValueChange::Write(v) && v@ == seq!['"'] + this_exe_path@ + seq!['"']),
{
    match current {
        StartWithWindowsState::OnThisExe => RunValueChange::Delete,
        _ => RunValueChange::Write(run_value_for_exe(this_exe_path)),
    }
}

/// What this install writes compares as on for this exe, for every exe
/// path: the quotes it adds are what the comparison strips, and they
/// also keep any whitespace at the path's ends from being trimmed.
pub proof fn law_the_written_value_reads_back_as_this_exe(this_exe: Seq<char>)
    ensures
        compare_spec(Some(seq!['"'] + this_exe + seq!['"']), this_exe) == StartWithWindowsStateV::OnThisExe,
{
    let v = seq!['"'] + this_exe + seq!['"'];
    crate::window_match::lemma_trim_plain(v);
    assert(v.subrange(1, v.len() - 1) =~= this_exe);
}

} // verus!
