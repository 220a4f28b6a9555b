//! Supersession: the VS Code extension can keep an earlier session's
//! process alive after a newer one started in the same window and
//! folder, so the scan lists both. `superseded` decides which bound
//! sessions a newer one in the same window and folder makes safe to
//! hide, and nothing else: it unbinds nothing, recolours nothing, and
//! remembers nothing between calls.

use vstd::prelude::*;

use crate::host::Host;
use crate::state::SessionState;
use crate::text::{same_text, owned};
use crate::window_match::{normalize_path, normalize_spec};

verus! {

/// The facts `superseded` needs about one bound session.
#[derive(Debug, Clone, Copy)]
pub struct Candidate<'a> {
    pub id: &'a str,
    /// `None` until a scan has reported a pid for this session.
    pub pid: Option<u32>,
    /// The session's process's host classification.
    pub host: Option<Host>,
    /// The session's process's own immediate parent pid.
    pub parent_pid: Option<u32>,
    pub cwd: Option<&'a str>,
    pub state: SessionState,
    /// The scan's own `startedAt` (ms epoch), when reported.
    pub started_at_ms: Option<i64>,
    /// When the daemon first heard of this session at all.
    pub first_seen_ms: i64,
}

pub struct CandidateV {
    pub id: Seq<char>,
    pub pid: Option<u32>,
    pub host: Option<Host>,
    pub parent_pid: Option<u32>,
    pub cwd: Option<Seq<char>>,
    pub state: SessionState,
    pub started_at_ms: Option<i64>,
    pub first_seen_ms: i64,
}

impl<'a> View for Candidate<'a> {
    type V = CandidateV;

    open spec fn view(&self) -> CandidateV {
        CandidateV {
            id: self.id@,
            pid: self.pid,
            host: self.host,
            parent_pid: self.parent_pid,
            cwd: match self.cwd {
                Some(c) => Some(c@),
                None => None,
            },
            state: self.state,
            started_at_ms: self.started_at_ms,
            first_seen_ms: self.first_seen_ms,
        }
    }
}

/// Both share one VS Code window and folder: known pids, both hosted by
/// VS Code, the same immediate parent, and the same folder once
/// normalised.
pub open spec fn same_window_and_folder(a: CandidateV, b: CandidateV) -> bool {
    &&& a.pid is Some
    &&& b.pid is Some
    &&& a.host == Some(Host::VsCode)
    &&& b.host == Some(Host::VsCode)
    &&& a.parent_pid is Some
    &&& b.parent_pid is Some
    &&& a.parent_pid == b.parent_pid
    &&& a.cwd is Some
    &&& b.cwd is Some
    &&& normalize_spec(a.cwd->0) == normalize_spec(b.cwd->0)
}

/// The clock that orders a window-and-folder group: `startedAt` when
/// every member reports one, first-seen otherwise.
#[derive(Debug, Clone, Copy, PartialEq, Eq, Structural)]
pub enum Clock {
    StartedAt,
    FirstSeen,
}

/// The clock of `o`'s own group within `cs`.
pub open spec fn clock_of(cs: Seq<CandidateV>, o: CandidateV) -> Clock {
    if forall|k: int| 0 <= k < cs.len() && same_window_and_folder(o, #[trigger] cs[k]) ==> cs[k].started_at_ms is Some {
        Clock::StartedAt
    } else {
        Clock::FirstSeen
    }
}

pub open spec fn started_spec(c: CandidateV, clock: Clock) -> i64 {
    match clock {
        Clock::StartedAt => match c.started_at_ms {
            Some(t) => t,
            None => c.first_seen_ms,
        },
        Clock::FirstSeen => c.first_seen_ms,
    }
}

/// A state it is safe to hide a session in: never one doing something
/// or waiting on a human.
pub open spec fn hideable(st: SessionState) -> bool {
    st == SessionState::Idle || st == SessionState::Complete || st == SessionState::Unknown
}

/// `o` is superseded by `n`: a different session in the same window and
/// folder, `o` hideable, `n` not ended, and `n` strictly newer on the
/// group's clock.
pub open spec fn superseded_by(o: CandidateV, n: CandidateV, clock: Clock) -> bool {
    &&& o.id != n.id
    &&& same_window_and_folder(o, n)
    &&& hideable(o.state)
    &&& n.state != SessionState::Ended
    &&& started_spec(n, clock) > started_spec(o, clock)
}

/// Some other, newer candidate in `o`'s own group makes `o` safe to hide.
pub open spec fn hidden(cs: Seq<CandidateV>, o: CandidateV) -> bool {
    exists|k: int| 0 <= k < cs.len() && superseded_by(o, #[trigger] cs[k], clock_of(cs, o))
}

/// `v` holds a string with text `s`.
pub open spec fn has_text(v: Seq<String>, s: Seq<char>) -> bool {
    exists|i: int| 0 <= i < v.len() && #[trigger] v[i]@ == s
}

/// Some candidate among the first `n`, with id `s`, is hidden.
pub open spec fn hidden_id(cands: Seq<Candidate>, s: Seq<char>, n: int) -> bool {
    exists|m: int| 0 <= m < n && (#[trigger] cands[m]).id@ == s && hidden(cands_view(cands), cands[m]@)
}

/// The ids of the hidden candidates among the first `n`, in candidate
/// order, each once.
pub open spec fn hidden_list(v: Seq<CandidateV>, n: int) -> Seq<Seq<char>>
    decreases n,
{
    if n <= 0 {
        Seq::empty()
    } else {
        let r = hidden_list(v, n - 1);
        if hidden(v, v[n - 1]) && !r.contains(v[n - 1].id) {
            r.push(v[n - 1].id)
        } else {
            r
        }
    }
}

pub open spec fn cands_view(cs: Seq<Candidate>) -> Seq<CandidateV> {
    cs.map_values(|c: Candidate| c@)
}

fn opt_eq(a: Option<u32>, b: Option<u32>) -> (r: bool)
    ensures
        r == (a == b),
{
    match (a, b) {
        (Some(x), Some(y)) => x == y,
        (None, None) => true,
        _ => false,
    }
}

fn is_vscode_host(h: Option<Host>) -> (r: bool)
    ensures
        r == (h == Some(Host::VsCode)),
{
    match h {
        Some(Host::VsCode) => true,
        _ => false,
    }
}

fn same_window_and_folder_exec(a: &Candidate, b: &Candidate) -> (r: bool)
    ensures
        r == same_window_and_folder(a@, b@),
{
    if a.pid.is_none() || b.pid.is_none() {
        return false;
    }
    if !is_vscode_host(a.host) || !is_vscode_host(b.host) {
        return false;
    }
    if a.parent_pid.is_none() || b.parent_pid.is_none() || !opt_eq(a.parent_pid, b.parent_pid) {
        return false;
    }
    match (a.cwd, b.cwd) {
        (Some(x), Some(y)) => {
            let nx = normalize_path(x);
            let ny = normalize_path(y);
            same_text(nx.as_str(), ny.as_str())
        },
        _ => false,
    }
}

fn started(c: &Candidate, clock: Clock) -> (t: i64)
    ensures
        t == started_spec(c@, clock),
{
    match clock {
        Clock::StartedAt => match c.started_at_ms {
            Some(t) => t,
            None => c.first_seen_ms,
        },
        Clock::FirstSeen => c.first_seen_ms,
    }
}

fn is_superseded_by(o: &Candidate, n: &Candidate, clock: Clock) -> (r: bool)
    ensures
        r == superseded_by(o@, n@, clock),
{
    if same_text(o.id, n.id) {
        return false;
    }
    if !same_window_and_folder_exec(o, n) {
        return false;
    }
    match o.state {
        SessionState::Idle | SessionState::Complete | SessionState::Unknown => {},
        _ => return false,
    }
    if n.state == SessionState::Ended {
        return false;
    }
    started(n, clock) > started(o, clock)
}

/// The clock of `o`'s group among `cs`.
fn clock_for(cs: &[Candidate], o: &Candidate) -> (c: Clock)
    ensures
        c == clock_of(cands_view(cs@), o@),
{
    let ghost v = cands_view(cs@);
    let mut k: usize = 0;
    while k < cs.len()
        invariant
            v == cands_view(cs@),
            k <= cs@.len(),
            forall|j: int| 0 <= j < k && same_window_and_folder(o@, #[trigger] v[j]) ==> v[j].started_at_ms is Some,
        decreases cs@.len() - k,
    {
        if same_window_and_folder_exec(o, &cs[k]) && cs[k].started_at_ms.is_none() {
            assert(!(same_window_and_folder(o@, v[k as int]) ==> v[k as int].started_at_ms is Some));
            return Clock::FirstSeen;
        }
        k = k + 1;
    }
    Clock::StartedAt
}

/// Whether some candidate supersedes `o` on `o`'s group clock.
fn is_hidden(cs: &[Candidate], o: &Candidate) -> (r: bool)
    ensures
        r == hidden(cands_view(cs@), o@),
{
    let ghost v = cands_view(cs@);
    let clock = clock_for(cs, o);
    let mut k: usize = 0;
    while k < cs.len()
        invariant
            v == cands_view(cs@),
            clock == clock_of(v, o@),
            k <= cs@.len(),
            forall|j: int| 0 <= j < k ==> !superseded_by(o@, #[trigger] v[j], clock),
        decreases cs@.len() - k,
    {
        if is_superseded_by(o, &cs[k], clock) {
            assert(superseded_by(o@, v[k as int], clock_of(v, o@)));
            return true;
        }
        k = k + 1;
    }
    false
}

/// Every id among `candidates` that some other, newer candidate in its
/// own window-and-folder group makes safe to hide right now, each once.
pub fn superseded(candidates: &[Candidate]) -> (out: Vec<String>)
    ensures
        crate::text::texts(out@) == hidden_list(cands_view(candidates@), candidates@.len() as int),
        forall|i: int, j: int| 0 <= i < j < out@.len() ==> out@[i]@ != out@[j]@,
        forall|s: Seq<char>| #[trigger] has_text(out@, s) <==> hidden_id(candidates@, s, candidates@.len() as int),
{
    let ghost v = cands_view(candidates@);
    let mut out: Vec<String> = Vec::new();
    let mut k: usize = 0;
    while k < candidates.len()
        invariant
            v == cands_view(candidates@),
            k <= candidates@.len(),
            forall|i: int, j: int| 0 <= i < j < out@.len() ==> out@[i]@ != out@[j]@,
            forall|s: Seq<char>| #[trigger] has_text(out@, s) <==> hidden_id(candidates@, s, k as int),
            crate::text::texts(out@) == hidden_list(v, k as int),
        decreases candidates@.len() - k,
    {
        let o = &candidates[k];
        proof {
            assert(v[k as int] == o@);
            let l = hidden_list(v, k as int);
            assert forall|x: Seq<char>| l.contains(x) implies #[trigger] has_text(out@, x) by {
                let i = choose|i: int| 0 <= i < l.len() && l[i] == x;
                assert(crate::text::texts(out@)[i] == out@[i]@);
            }
            assert forall|x: Seq<char>| #[trigger] has_text(out@, x) implies l.contains(x) by {
                let i = choose|i: int| 0 <= i < out@.len() && #[trigger] out@[i]@ == x;
                assert(l[i] == crate::text::texts(out@)[i]);
            }
        }
        if is_hidden(candidates, o) {
            let id = owned(o.id);
            if !contains_text(&out, &id) {
                let ghost before = out@;
                assert(forall|s: Seq<char>| #[trigger] has_text(before, s) <==> hidden_id(candidates@, s, k as int));
                out.push(id);
                proof {
                    assert(crate::text::texts(out@) =~= crate::text::texts(before).push(id@));
                    assert forall|s: Seq<char>| #[trigger] has_text(out@, s) <==> hidden_id(candidates@, s, k + 1) by {
                        if has_text(out@, s) {
                            let i = choose|i: int| 0 <= i < out@.len() && #[trigger] out@[i]@ == s;
                            if i < before.len() {
                                assert(before[i]@ == s);
                                assert(has_text(before, s));
                            } else {
                                assert(candidates@[k as int].id@ == s);
                            }
                        }
                        if hidden_id(candidates@, s, k + 1) {
                            let m = choose|m: int| 0 <= m < k + 1 && (#[trigger] candidates@[m]).id@ == s && hidden(cands_view(candidates@), candidates@[m]@);
                            if m < k {
                                assert(hidden_id(candidates@, s, k as int));
                                assert(has_text(before, s));
                                let i = choose|i: int| 0 <= i < before.len() && #[trigger] before[i]@ == s;
                                assert(out@[i]@ == s);
                            } else {
                                assert(out@[before.len() as int]@ == s);
                            }
                        }
                    }
                }
            } else {
                proof {
                    assert forall|s: Seq<char>| #[trigger] has_text(out@, s) <==> hidden_id(candidates@, s, k + 1) by {
                        if hidden_id(candidates@, s, k + 1) {
                            let m = choose|m: int| 0 <= m < k + 1 && (#[trigger] candidates@[m]).id@ == s && hidden(cands_view(candidates@), candidates@[m]@);
                            if m == k {
                                let i = choose|i: int| 0 <= i < out@.len() && #[trigger] out@[i]@ == id@;
                                assert(out@[i]@ == s);
                            }
                        }
                    }
                }
            }
        } else {
            proof {
                assert forall|s: Seq<char>| #[trigger] hidden_id(candidates@, s, k + 1) implies hidden_id(candidates@, s, k as int) by {
                    let m = choose|m: int| 0 <= m < k + 1 && (#[trigger] candidates@[m]).id@ == s && hidden(cands_view(candidates@), candidates@[m]@);
                    assert(m != k);
                }
            }
        }
        k = k + 1;
    }
    out
}

/// Whether `v` holds a string with the same text as `s`.
pub fn contains_text(v: &Vec<String>, s: &String) -> (r: bool)
    ensures
        r == has_text(v@, s@),
{
    let mut i: usize = 0;
    while i < v.len()
        invariant
            i <= v@.len(),
            forall|j: int| 0 <= j < i ==> (#[trigger] v@[j])@ != s@,
        decreases v@.len() - i,
    {
        if same_text(v[i].as_str(), s.as_str()) {
            return true;
        }
        i = i + 1;
    }
    false
}


proof fn lemma_group_clock(cs: Seq<CandidateV>, o: CandidateV, p: CandidateV)
    requires
        same_window_and_folder(o, p),
    ensures
        clock_of(cs, o) == clock_of(cs, p),
{
    assert forall|k: int| 0 <= k < cs.len() implies same_window_and_folder(o, #[trigger] cs[k])
        == same_window_and_folder(p, cs[k]) by {}
}

/// The index of a member of `o`'s group among the first `n` of `cs`
/// that no other member of that group beats on `clock`.
proof fn newest_in(cs: Seq<CandidateV>, o: CandidateV, clock: Clock, n: int) -> (j: int)
    requires
        0 <= n <= cs.len(),
        exists|k: int| 0 <= k < n && same_window_and_folder(o, #[trigger] cs[k]),
    ensures
        0 <= j < n,
        same_window_and_folder(o, cs[j]),
        forall|k: int| 0 <= k < n && same_window_and_folder(o, #[trigger] cs[k])
            ==> started_spec(cs[k], clock) <= started_spec(cs[j], clock),
    decreases n,
{
    let last = n - 1;
    if exists|k: int| 0 <= k < last && same_window_and_folder(o, #[trigger] cs[k]) {
        let j0 = newest_in(cs, o, clock, last);
        if same_window_and_folder(o, cs[last]) && started_spec(cs[last], clock) > started_spec(cs[j0], clock) {
            last
        } else {
            j0
        }
    } else {
        last
    }
}

/// A window-and-folder group is never hidden in its entirety: whatever
/// the candidates, every candidate that belongs to a group at all has a
/// member of its own group, itself possibly, that stays shown.
pub proof fn law_a_group_is_never_hidden_entirely(cs: Seq<CandidateV>, i: int)
    requires
        0 <= i < cs.len(),
        same_window_and_folder(cs[i], cs[i]),
    ensures
        exists|j: int| 0 <= j < cs.len() && same_window_and_folder(cs[i], #[trigger] cs[j]) && !hidden(cs, cs[j]),
{
    let o = cs[i];
    let clock = clock_of(cs, o);
    let j = newest_in(cs, o, clock, cs.len() as int);
    lemma_group_clock(cs, o, cs[j]);
    assert(!hidden(cs, cs[j])) by {
        if hidden(cs, cs[j]) {
            let k = choose|k: int| 0 <= k < cs.len() && superseded_by(cs[j], #[trigger] cs[k], clock_of(cs, cs[j]));
            assert(same_window_and_folder(o, cs[k]));
        }
    }
}

/// A session doing something or waiting on a human (`Thinking`,
/// `NeedsInput`, `Error`), or one already `Ended`, is never hidden; nor
/// is one that shares no VS Code window and folder with anything.
pub proof fn law_only_quiet_grouped_sessions_are_hidden(cs: Seq<CandidateV>, o: CandidateV)
    requires
        hidden(cs, o),
    ensures
        hideable(o.state),
        o.state != SessionState::Thinking,
        o.state != SessionState::NeedsInput,
        o.state != SessionState::Error,
        o.state != SessionState::Ended,
        same_window_and_folder(o, o),
{
}

/// One clock per group gives one answer whatever order the candidates
/// come in: two lists holding the same candidates hide the same ones.
pub proof fn law_order_does_not_matter(cs: Seq<CandidateV>, ds: Seq<CandidateV>, o: CandidateV)
    requires
        forall|x: CandidateV| cs.contains(x) <==> ds.contains(x),
    ensures
        hidden(cs, o) == hidden(ds, o),
{
    assert(clock_of(cs, o) == clock_of(ds, o)) by {
        if clock_of(cs, o) == Clock::StartedAt && clock_of(ds, o) == Clock::FirstSeen {
            let k = choose|k: int| !(0 <= k < ds.len() && same_window_and_folder(o, #[trigger] ds[k]) ==> ds[k].started_at_ms is Some);
            assert(ds.contains(ds[k]));
            let k2 = choose|k2: int| 0 <= k2 < cs.len() && cs[k2] == ds[k];
            assert(same_window_and_folder(o, cs[k2]));
        }
        if clock_of(ds, o) == Clock::StartedAt && clock_of(cs, o) == Clock::FirstSeen {
            let k = choose|k: int| !(0 <= k < cs.len() && same_window_and_folder(o, #[trigger] cs[k]) ==> cs[k].started_at_ms is Some);
            assert(cs.contains(cs[k]));
            let k2 = choose|k2: int| 0 <= k2 < ds.len() && ds[k2] == cs[k];
            assert(same_window_and_folder(o, ds[k2]));
        }
    }
    let clock = clock_of(cs, o);
    if hidden(cs, o) {
        let k = choose|k: int| 0 <= k < cs.len() && superseded_by(o, #[trigger] cs[k], clock);
        assert(cs.contains(cs[k]));
        let k2 = choose|k2: int| 0 <= k2 < ds.len() && ds[k2] == cs[k];
        assert(superseded_by(o, ds[k2], clock));
    }
    if hidden(ds, o) {
        let k = choose|k: int| 0 <= k < ds.len() && superseded_by(o, #[trigger] ds[k], clock);
        assert(ds.contains(ds[k]));
        let k2 = choose|k2: int| 0 <= k2 < cs.len() && cs[k2] == ds[k];
        assert(superseded_by(o, cs[k2], clock));
    }
}

} // verus!
