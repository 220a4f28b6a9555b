//! The session registry: every session the daemon knows about, the
//! ordered list of sessions the surface shows, and the snapshot the
//! surface renders. Bindings are by session id.
//!
//! The list auto-binds: any session heard from, by a hook event or by
//! enumeration, appends to it the first time it is seen, in the order it
//! was seen. A row leaves the list when its `SessionEnd` arrives, when
//! its process handle reports the process gone, or, only for a session
//! with no handle, when a successful enumeration omits it for
//! `ENUM_GRACE_MS` with no recent hook. What colour a listed row shows
//! is the state machine's business, not list membership.
//!
//! Process handles themselves are operating-system resources and live
//! with the caller; the registry records, per session, that a handle is
//! held and whether it last reported the process gone, and it queues a
//! probe whenever a session's pid is learned or replaced so the caller
//! can open a handle and classify the host.

use vstd::prelude::*;

use crate::host::Host;
use crate::json::{Json, JsonV, jget, ostr, get_str};
use crate::state::{
    law_a_session_ticks_once_per_moment, Session, SessionV, SessionState, hook_step, new_spec, scan_step, tick_step, tick_fits, end_spec,
    select_step, dir_name, dir_name_spec, opt_str, lemma_steps_keep_id, lemma_quiet_steps_never_end,
};
use crate::supersede::{Candidate, CandidateV, superseded, hidden, hidden_list, has_text, hidden_id, cands_view, contains_text};
use crate::text::{same_text, owned, clone_opt, opt_text, texts};
use crate::persist::{SavedBinding, saved_of, saved_view, restore_one, restore_all, present_saved, opt_saved_view};

verus! {

/// A session that vanished from a successful enumeration less than this
/// long ago is kept rather than pruned.
pub const ENUM_GRACE_MS: i64 = 60_000;

// ---- Keyed tables ---------------------------------------------------

/// The map a list of keyed entries stands for.
pub open spec fn keyed<V>(ps: Seq<(Seq<char>, V)>) -> Map<Seq<char>, V> {
    Map::new(
        |k: Seq<char>| exists|i: int| 0 <= i < ps.len() && (#[trigger] ps[i]).0 == k,
        |k: Seq<char>| ps[choose|i: int| 0 <= i < ps.len() && (#[trigger] ps[i]).0 == k].1,
    )
}

/// No key occurs twice.
pub open spec fn keys_unique<V>(ps: Seq<(Seq<char>, V)>) -> bool {
    forall|i: int, j: int| 0 <= i < j < ps.len() ==> (#[trigger] ps[i]).0 != (#[trigger] ps[j]).0
}

proof fn lemma_keyed_index<V>(ps: Seq<(Seq<char>, V)>, i: int)
    requires
        keys_unique(ps),
        0 <= i < ps.len(),
    ensures
        keyed(ps).contains_key(ps[i].0),
        keyed(ps)[ps[i].0] == ps[i].1,
{
    let k = ps[i].0;
    assert(exists|j: int| 0 <= j < ps.len() && (#[trigger] ps[j]).0 == k);
    let j = choose|j: int| 0 <= j < ps.len() && (#[trigger] ps[j]).0 == k;
    if j != i {
        if j < i {
            assert(ps[j].0 != ps[i].0);
        } else {
            assert(ps[i].0 != ps[j].0);
        }
    }
}

proof fn lemma_keyed_update<V>(ps: Seq<(Seq<char>, V)>, i: int, p: (Seq<char>, V))
    requires
        keys_unique(ps),
        0 <= i < ps.len(),
        p.0 == ps[i].0,
    ensures
        keys_unique(ps.update(i, p)),
        keyed(ps.update(i, p)) == keyed(ps).insert(p.0, p.1),
{
    let qs = ps.update(i, p);
    assert forall|a: int, b: int| 0 <= a < b < qs.len() implies (#[trigger] qs[a]).0 != (#[trigger] qs[b]).0 by {
        assert(qs[a].0 == ps[a].0);
        assert(qs[b].0 == ps[b].0);
        assert(ps[a].0 != ps[b].0);
    }
    let m1 = keyed(qs);
    let m2 = keyed(ps).insert(p.0, p.1);
    assert forall|k: Seq<char>| m1.contains_key(k) <==> m2.contains_key(k) by {
        if m1.contains_key(k) {
            let j = choose|j: int| 0 <= j < qs.len() && (#[trigger] qs[j]).0 == k;
            assert(ps[j].0 == k);
        }
        if m2.contains_key(k) && k != p.0 {
            let j = choose|j: int| 0 <= j < ps.len() && (#[trigger] ps[j]).0 == k;
            assert(qs[j].0 == k);
        }
        if k == p.0 {
            assert(qs[i].0 == k);
        }
    }
    assert forall|k: Seq<char>| m1.contains_key(k) implies m1[k] == m2[k] by {
        let j = choose|j: int| 0 <= j < qs.len() && (#[trigger] qs[j]).0 == k;
        lemma_keyed_index(qs, j);
        if k == p.0 {
            lemma_keyed_index(qs, i);
        } else {
            assert(j != i);
            lemma_keyed_index(ps, j);
        }
    }
    assert(m1 =~= m2);
}

proof fn lemma_keyed_push<V>(ps: Seq<(Seq<char>, V)>, p: (Seq<char>, V))
    requires
        keys_unique(ps),
        !keyed(ps).contains_key(p.0),
    ensures
        keys_unique(ps.push(p)),
        keyed(ps.push(p)) == keyed(ps).insert(p.0, p.1),
{
    let qs = ps.push(p);
    assert forall|a: int, b: int| 0 <= a < b < qs.len() implies (#[trigger] qs[a]).0 != (#[trigger] qs[b]).0 by {
        if b == ps.len() {
            assert(qs[a] == ps[a]);
            if ps[a].0 == p.0 {
                assert(keyed(ps).contains_key(p.0));
            }
        } else {
            assert(qs[a] == ps[a] && qs[b] == ps[b]);
        }
    }
    let m1 = keyed(qs);
    let m2 = keyed(ps).insert(p.0, p.1);
    assert forall|k: Seq<char>| m1.contains_key(k) <==> m2.contains_key(k) by {
        if m1.contains_key(k) {
            let j = choose|j: int| 0 <= j < qs.len() && (#[trigger] qs[j]).0 == k;
            if j < ps.len() {
                assert(ps[j].0 == k);
            }
        }
        if m2.contains_key(k) && k != p.0 {
            let j = choose|j: int| 0 <= j < ps.len() && (#[trigger] ps[j]).0 == k;
            assert(qs[j].0 == k);
        }
        if k == p.0 {
            assert(qs[ps.len() as int].0 == k);
        }
    }
    assert forall|k: Seq<char>| m1.contains_key(k) implies m1[k] == m2[k] by {
        let j = choose|j: int| 0 <= j < qs.len() && (#[trigger] qs[j]).0 == k;
        lemma_keyed_index(qs, j);
        if k == p.0 {
            lemma_keyed_index(qs, ps.len() as int);
        } else {
            assert(j < ps.len());
            assert(qs[j] == ps[j]);
            lemma_keyed_index(ps, j);
        }
    }
    assert(m1 =~= m2);
}

proof fn lemma_keyed_remove<V>(ps: Seq<(Seq<char>, V)>, i: int)
    requires
        keys_unique(ps),
        0 <= i < ps.len(),
    ensures
        keys_unique(ps.remove(i)),
        keyed(ps.remove(i)) == keyed(ps).remove(ps[i].0),
{
    let qs = ps.remove(i);
    assert forall|a: int, b: int| 0 <= a < b < qs.len() implies (#[trigger] qs[a]).0 != (#[trigger] qs[b]).0 by {
        let a0 = if a < i { a } else { a + 1 };
        let b0 = if b < i { b } else { b + 1 };
        assert(qs[a] == ps[a0] && qs[b] == ps[b0]);
        assert(ps[a0].0 != ps[b0].0);
    }
    let m1 = keyed(qs);
    let m2 = keyed(ps).remove(ps[i].0);
    assert forall|k: Seq<char>| m1.contains_key(k) <==> m2.contains_key(k) by {
        if m1.contains_key(k) {
            let j = choose|j: int| 0 <= j < qs.len() && (#[trigger] qs[j]).0 == k;
            let j0 = if j < i { j } else { j + 1 };
            assert(qs[j] == ps[j0]);
            assert(ps[j0].0 != ps[i].0);
        }
        if m2.contains_key(k) {
            let j = choose|j: int| 0 <= j < ps.len() && (#[trigger] ps[j]).0 == k;
            assert(j != i);
            let j1 = if j < i { j } else { j - 1 };
            assert(qs[j1] == ps[j]);
        }
    }
    assert forall|k: Seq<char>| m1.contains_key(k) implies m1[k] == m2[k] by {
        let j = choose|j: int| 0 <= j < qs.len() && (#[trigger] qs[j]).0 == k;
        let j0 = if j < i { j } else { j + 1 };
        assert(qs[j] == ps[j0]);
        lemma_keyed_index(qs, j);
        lemma_keyed_index(ps, j0);
    }
    assert(m1 =~= m2);
}

// ---- The registry ---------------------------------------------------

/// What the registry records about a held process handle: whose it is
/// and whether it last reported the process gone.
#[derive(Debug)]
struct WatchState {
    id: String,
    exited: bool,
}

#[derive(Debug)]
pub struct Registry {
    pub sessions: Vec<Session>,
    /// The ordered, unbounded list of bound session ids. An index into
    /// it is presentation only: a row's click carries the session id.
    pub bindings: Vec<String>,
    pub selected: Option<usize>,
    /// The header's grey toggle.
    pub hide_unknown: bool,
    watches: Vec<WatchState>,
    /// Pids learned or replaced since the caller last took them, each
    /// waiting for a process handle and a host classification.
    probes: Vec<(String, u32)>,
}

pub struct RegistryV {
    pub sessions: Map<Seq<char>, SessionV>,
    pub bindings: Seq<Seq<char>>,
    pub selected: Option<usize>,
    pub hide_unknown: bool,
    /// Session id to "the held handle reported the process gone".
    pub watches: Map<Seq<char>, bool>,
    pub probes: Seq<(Seq<char>, u32)>,
}

pub open spec fn session_pairs(ss: Seq<Session>) -> Seq<(Seq<char>, SessionV)> {
    ss.map_values(|s: Session| (s.id@, s@))
}

closed spec fn watch_pairs(ws: Seq<WatchState>) -> Seq<(Seq<char>, bool)> {
    ws.map_values(|w: WatchState| (w.id@, w.exited))
}

pub open spec fn probe_pairs(ps: Seq<(String, u32)>) -> Seq<(Seq<char>, u32)> {
    ps.map_values(|p: (String, u32)| (p.0@, p.1))
}

impl View for Registry {
    type V = RegistryV;

    closed spec fn view(&self) -> RegistryV {
        RegistryV {
            sessions: keyed(session_pairs(self.sessions@)),
            bindings: crate::text::texts(self.bindings@),
            selected: self.selected,
            hide_unknown: self.hide_unknown,
            watches: keyed(watch_pairs(self.watches@)),
            probes: probe_pairs(self.probes@),
        }
    }
}

/// No id is bound twice.
pub open spec fn bindings_unique(b: Seq<Seq<char>>) -> bool {
    forall|i: int, j: int| 0 <= i < j < b.len() ==> b[i] != b[j]
}

/// The registry's own invariant, over its view: every session is filed
/// under its own id; bindings are unique, name known sessions, and none
/// of them is ended; the selection, when there is one, is a row.
pub open spec fn registry_wf(r: RegistryV) -> bool {
    &&& forall|k: Seq<char>| #[trigger] r.sessions.contains_key(k) ==> r.sessions[k].id == k
    &&& bindings_unique(r.bindings)
    &&& forall|i: int| 0 <= i < r.bindings.len() ==> r.sessions.contains_key(#[trigger] r.bindings[i])
    &&& forall|i: int| 0 <= i < r.bindings.len() ==> r.sessions[#[trigger] r.bindings[i]].state
        != SessionState::Ended
    &&& r.selected matches Some(s) ==> s < r.bindings.len()
}

/// The invariant, except that the session `x` may be bound while ended:
/// the moment between a session ending and its row leaving the list.
pub open spec fn registry_wf_but(r: RegistryV, x: Seq<char>) -> bool {
    &&& forall|k: Seq<char>| #[trigger] r.sessions.contains_key(k) ==> r.sessions[k].id == k
    &&& bindings_unique(r.bindings)
    &&& forall|i: int| 0 <= i < r.bindings.len() ==> r.sessions.contains_key(#[trigger] r.bindings[i])
    &&& forall|i: int| 0 <= i < r.bindings.len() && r.bindings[i] != x ==> r.sessions[#[trigger] r.bindings[i]].state
        != SessionState::Ended
    &&& r.selected matches Some(s) ==> s < r.bindings.len()
}

impl Registry {
    pub closed spec fn wf(&self) -> bool {
        &&& keys_unique(session_pairs(self.sessions@))
        &&& keys_unique(watch_pairs(self.watches@))
        &&& registry_wf(self@)
    }

    pub closed spec fn wf_but(&self, x: Seq<char>) -> bool {
        &&& keys_unique(session_pairs(self.sessions@))
        &&& keys_unique(watch_pairs(self.watches@))
        &&& registry_wf_but(self@, x)
    }
}

// ---- List operations, stated over views -----------------------------

/// The position of `id` in a list that holds it.
pub open spec fn pos_in(b: Seq<Seq<char>>, id: Seq<char>) -> int {
    choose|i: int| 0 <= i < b.len() && b[i] == id
}

/// A selection after the row at `pos` left the list: it follows its own
/// session up one row, or clears when that row was the selected one.
pub open spec fn after_removal(sel: Option<usize>, pos: int) -> Option<usize> {
    match sel {
        Some(s) => if s == pos {
            None
        } else if s > pos {
            Some((s - 1) as usize)
        } else {
            Some(s)
        },
        None => None,
    }
}

/// Append `id` to the list unless it is there already.
pub open spec fn bind_step(r: RegistryV, id: Seq<char>) -> (RegistryV, bool) {
    if r.bindings.contains(id) {
        (r, false)
    } else {
        (RegistryV { bindings: r.bindings.push(id), ..r }, true)
    }
}

/// Drop `id` from the list, keeping its session record.
pub open spec fn unbind_step(r: RegistryV, id: Seq<char>) -> (RegistryV, bool) {
    if r.bindings.contains(id) {
        let p = pos_in(r.bindings, id);
        (RegistryV { bindings: r.bindings.remove(p), selected: after_removal(r.selected, p), ..r }, true)
    } else {
        (r, false)
    }
}


/// The registry's sessions table after the session at `i` became `s`.
proof fn lemma_sessions_update(ss: Seq<Session>, i: int, s: Session)
    requires
        keys_unique(session_pairs(ss)),
        0 <= i < ss.len(),
        s.id@ == ss[i].id@,
    ensures
        keys_unique(session_pairs(ss.update(i, s))),
        keyed(session_pairs(ss.update(i, s))) == keyed(session_pairs(ss)).insert(s.id@, s@),
{
    assert(session_pairs(ss.update(i, s)) =~= session_pairs(ss).update(i, (s.id@, s@)));
    lemma_keyed_update(session_pairs(ss), i, (s.id@, s@));
}

proof fn lemma_sessions_push(ss: Seq<Session>, s: Session)
    requires
        keys_unique(session_pairs(ss)),
        !keyed(session_pairs(ss)).contains_key(s.id@),
    ensures
        keys_unique(session_pairs(ss.push(s))),
        keyed(session_pairs(ss.push(s))) == keyed(session_pairs(ss)).insert(s.id@, s@),
{
    assert(session_pairs(ss.push(s)) =~= session_pairs(ss).push((s.id@, s@)));
    lemma_keyed_push(session_pairs(ss), (s.id@, s@));
}

proof fn lemma_session_at(ss: Seq<Session>, i: int)
    requires
        keys_unique(session_pairs(ss)),
        0 <= i < ss.len(),
    ensures
        keyed(session_pairs(ss)).contains_key(ss[i].id@),
        keyed(session_pairs(ss))[ss[i].id@] == ss[i]@,
{
    lemma_keyed_index(session_pairs(ss), i);
}

impl Default for Registry {
    fn default() -> (r: Self)
        ensures
            r.wf(),
            r@.sessions == Map::<Seq<char>, SessionV>::empty(),
            r@.bindings == Seq::<Seq<char>>::empty(),
            r@.selected == None::<usize>,
            !r@.hide_unknown,
            r@.watches == Map::<Seq<char>, bool>::empty(),
            r@.probes == Seq::<(Seq<char>, u32)>::empty(),
    {
        let r = Registry {
            sessions: Vec::new(),
            bindings: Vec::new(),
            selected: None,
            hide_unknown: false,
            watches: Vec::new(),
            probes: Vec::new(),
        };
        proof {
            assert(r@.sessions =~= Map::<Seq<char>, SessionV>::empty());
            assert(r@.watches =~= Map::<Seq<char>, bool>::empty());
            assert(r@.bindings =~= Seq::<Seq<char>>::empty());
            assert(r@.probes =~= Seq::<(Seq<char>, u32)>::empty());
        }
        r
    }
}

impl Registry {
    /// Where the session with this id is kept, when there is one.
    fn find_session(&self, id: &str) -> (r: Option<usize>)
        requires
            keys_unique(session_pairs(self.sessions@)),
        ensures
            match r {
                Some(i) => i < self.sessions@.len() && self.sessions@[i as int].id@ == id@
                    && self@.sessions.contains_key(id@) && self@.sessions[id@] == self.sessions@[i as int]@,
                None => !self@.sessions.contains_key(id@),
            },
    {
        let mut i: usize = 0;
        while i < self.sessions.len()
            invariant
                keys_unique(session_pairs(self.sessions@)),
                i <= self.sessions@.len(),
                forall|j: int| 0 <= j < i ==> (#[trigger] self.sessions@[j]).id@ != id@,
            decreases self.sessions@.len() - i,
        {
            if same_text(self.sessions[i].id.as_str(), id) {
                proof {
                    lemma_session_at(self.sessions@, i as int);
                }
                return Some(i);
            }
            i = i + 1;
        }
        proof {
            if self@.sessions.contains_key(id@) {
                let j = choose|j: int| 0 <= j < session_pairs(self.sessions@).len()
                    && (#[trigger] session_pairs(self.sessions@)[j]).0 == id@;
                assert(self.sessions@[j].id@ == id@);
            }
        }
        None
    }

    /// The session with this id, when the registry knows one.
    pub fn session(&self, id: &str) -> (r: Option<&Session>)
        requires
            self.wf(),
        ensures
            match r {
                Some(s) => self@.sessions.contains_key(id@) && self@.sessions[id@] == s@,
                None => !self@.sessions.contains_key(id@),
            },
    {
        match self.find_session(id) {
            Some(i) => Some(&self.sessions[i]),
            None => None,
        }
    }

    /// The row `id` is bound to, when it is bound.
    fn find_binding(&self, id: &str) -> (r: Option<usize>)
        requires
            bindings_unique(self@.bindings),
        ensures
            match r {
                Some(i) => i < self@.bindings.len() && self@.bindings[i as int] == id@ && self@.bindings.contains(id@)
                    && pos_in(self@.bindings, id@) == i,
                None => !self@.bindings.contains(id@),
            },
    {
        let ghost b = self@.bindings;
        let mut i: usize = 0;
        while i < self.bindings.len()
            invariant
                bindings_unique(b),
                b == self@.bindings,
                b == crate::text::texts(self.bindings@),
                i <= self.bindings@.len(),
                forall|j: int| 0 <= j < i ==> b[j] != id@,
            decreases self.bindings@.len() - i,
        {
            if same_text(self.bindings[i].as_str(), id) {
                proof {
                    assert(b[i as int] == id@);
                    let p = pos_in(b, id@);
                    assert(0 <= p < b.len() && b[p] == id@);
                    if p != i as int {
                        if p < i {
                            assert(b[p] != b[i as int]);
                        } else {
                            assert(b[i as int] != b[p]);
                        }
                    }
                }
                return Some(i);
            }
            i = i + 1;
        }
        None
    }

    pub fn is_bound(&self, id: &str) -> (r: bool)
        requires
            self.wf(),
        ensures
            r == self@.bindings.contains(id@),
    {
        self.find_binding(id).is_some()
    }

    /// Append `id` to the list if it is not already there. True when the
    /// list changed.
    pub(crate) fn auto_bind(&mut self, id: &str) -> (changed: bool)
        requires
            old(self).wf(),
            old(self)@.sessions.contains_key(id@),
            old(self)@.sessions[id@].state != SessionState::Ended,
        ensures
            final(self).wf(),
            final(self)@ == bind_step(old(self)@, id@).0,
            changed == bind_step(old(self)@, id@).1,
    {
        if self.is_bound(id) {
            return false;
        }
        let ghost b = self@.bindings;
        self.bindings.push(owned(id));
        proof {
            assert(self@.bindings =~= b.push(id@));
            assert forall|i: int| 0 <= i < self@.bindings.len() implies self@.sessions.contains_key(
                #[trigger] self@.bindings[i],
            ) && self@.sessions[self@.bindings[i]].state != SessionState::Ended by {
                if i < b.len() {
                    assert(self@.bindings[i] == b[i]);
                }
            }
            assert forall|i: int, j: int| 0 <= i < j < self@.bindings.len() implies self@.bindings[i]
                != self@.bindings[j] by {
                if j == b.len() {
                    assert(self@.bindings[i] == b[i]);
                    assert(b.contains(b[i]));
                }
            }
        }
        true
    }

    /// Drop `id` from the list without touching its session record. The
    /// selection follows its own session, or clears when that session's
    /// row is the one leaving. True when the list changed.
    fn unbind_id(&mut self, id: &str) -> (changed: bool)
        requires
            old(self).wf_but(id@),
        ensures
            final(self).wf(),
            final(self)@ == unbind_step(old(self)@, id@).0,
            changed == unbind_step(old(self)@, id@).1,
    {
        let pos = match self.find_binding(id) {
            Some(p) => p,
            None => return false,
        };
        let ghost b = self@.bindings;
        self.bindings.remove(pos);
        self.selected = match self.selected {
            Some(sel) => if sel == pos {
                None
            } else if sel > pos {
                Some(sel - 1)
            } else {
                Some(sel)
            },
            None => None,
        };
        proof {
            assert(self@.bindings =~= b.remove(pos as int));
            assert forall|i: int| 0 <= i < self@.bindings.len() implies #[trigger] self@.bindings[i] == (
            if i < pos {
                b[i]
            } else {
                b[i + 1]
            }) by {}
            assert forall|i: int, j: int| 0 <= i < j < self@.bindings.len() implies self@.bindings[i]
                != self@.bindings[j] by {
                let i0 = if i < pos { i } else { i + 1 };
                let j0 = if j < pos { j } else { j + 1 };
                assert(b[i0] != b[j0]);
            }
            assert forall|i: int| 0 <= i < self@.bindings.len() implies self@.sessions.contains_key(
                #[trigger] self@.bindings[i],
            ) && self@.sessions[self@.bindings[i]].state != SessionState::Ended by {
                let i0 = if i < pos { i } else { i + 1 };
                assert(self@.bindings[i] == b[i0]);
                assert(b[i0] != b[pos as int]);
            }
        }
        true
    }
}

proof fn lemma_watches_update(ws: Seq<WatchState>, i: int, w: WatchState)
    requires
        keys_unique(watch_pairs(ws)),
        0 <= i < ws.len(),
        w.id@ == ws[i].id@,
    ensures
        keys_unique(watch_pairs(ws.update(i, w))),
        keyed(watch_pairs(ws.update(i, w))) == keyed(watch_pairs(ws)).insert(w.id@, w.exited),
{
    assert(watch_pairs(ws.update(i, w)) =~= watch_pairs(ws).update(i, (w.id@, w.exited)));
    lemma_keyed_update(watch_pairs(ws), i, (w.id@, w.exited));
}

proof fn lemma_watches_push(ws: Seq<WatchState>, w: WatchState)
    requires
        keys_unique(watch_pairs(ws)),
        !keyed(watch_pairs(ws)).contains_key(w.id@),
    ensures
        keys_unique(watch_pairs(ws.push(w))),
        keyed(watch_pairs(ws.push(w))) == keyed(watch_pairs(ws)).insert(w.id@, w.exited),
{
    assert(watch_pairs(ws.push(w)) =~= watch_pairs(ws).push((w.id@, w.exited)));
    lemma_keyed_push(watch_pairs(ws), (w.id@, w.exited));
}

proof fn lemma_watches_remove(ws: Seq<WatchState>, i: int)
    requires
        keys_unique(watch_pairs(ws)),
        0 <= i < ws.len(),
    ensures
        keys_unique(watch_pairs(ws.remove(i))),
        keyed(watch_pairs(ws.remove(i))) == keyed(watch_pairs(ws)).remove(ws[i].id@),
{
    assert(watch_pairs(ws.remove(i)) =~= watch_pairs(ws).remove(i));
    lemma_keyed_remove(watch_pairs(ws), i);
}

/// A held handle that has not reported its process gone.
pub open spec fn alive(r: RegistryV, id: Seq<char>) -> bool {
    r.watches.contains_key(id) && !r.watches[id]
}

/// A held handle that has reported its process gone.
pub open spec fn exited(r: RegistryV, id: Seq<char>) -> bool {
    r.watches.contains_key(id) && r.watches[id]
}

/// The session id a hook payload names, when it names one as a string.
pub open spec fn payload_session_id(p: JsonV) -> Option<Seq<char>> {
    ostr(jget(p, "session_id"@))
}

/// The session filed under `id`, or a fresh one when there is none.
pub open spec fn known_or_new(r: RegistryV, id: Seq<char>, now: i64) -> SessionV {
    if r.sessions.contains_key(id) {
        r.sessions[id]
    } else {
        new_spec(id, now)
    }
}

/// A hook payload applied to the registry. A payload naming no session
/// changes nothing. Otherwise the named session (fresh when unknown)
/// takes the event; an ended session then leaves the list and loses its
/// handle, any other joins the list if it is not on it yet. Repaint is
/// owed when the session changed or the list did.
pub open spec fn hook_apply(r: RegistryV, p: JsonV, now: i64) -> (RegistryV, bool) {
    match payload_session_id(p) {
        None => (r, false),
        Some(id) => {
            let (s, ch) = hook_step(known_or_new(r, id, now), p, now);
            let r1 = RegistryV { sessions: r.sessions.insert(id, s), ..r };
            if s.state == SessionState::Ended {
                let (r2, lc) = unbind_step(RegistryV { watches: r1.watches.remove(id), ..r1 }, id);
                (r2, ch || lc)
            } else {
                let (r2, lc) = bind_step(r1, id);
                (r2, ch || lc)
            }
        },
    }
}

impl Registry {
    fn find_watch(&self, id: &str) -> (r: Option<usize>)
        requires
            keys_unique(watch_pairs(self.watches@)),
        ensures
            match r {
                Some(i) => i < self.watches@.len() && self.watches@[i as int].id@ == id@
                    && self@.watches.contains_key(id@) && self@.watches[id@] == self.watches@[i as int].exited,
                None => !self@.watches.contains_key(id@),
            },
    {
        let mut i: usize = 0;
        while i < self.watches.len()
            invariant
                keys_unique(watch_pairs(self.watches@)),
                i <= self.watches@.len(),
                forall|j: int| 0 <= j < i ==> (#[trigger] self.watches@[j]).id@ != id@,
            decreases self.watches@.len() - i,
        {
            if same_text(self.watches[i].id.as_str(), id) {
                proof {
                    assert(watch_pairs(self.watches@)[i as int] == (self.watches@[i as int].id@, self.watches@[i as int].exited));
                    lemma_keyed_index(watch_pairs(self.watches@), i as int);
                }
                return Some(i);
            }
            i = i + 1;
        }
        proof {
            if self@.watches.contains_key(id@) {
                let j = choose|j: int| 0 <= j < watch_pairs(self.watches@).len()
                    && (#[trigger] watch_pairs(self.watches@)[j]).0 == id@;
                assert(self.watches@[j].id@ == id@);
            }
        }
        None
    }

    /// Record that a process handle is held for `id`, and whether it
    /// reports the process gone, replacing whatever was recorded.
    pub fn set_watch(&mut self, id: &str, exited: bool)
        requires
            old(self).wf(),
        ensures
            final(self).wf(),
            final(self)@ == (RegistryV { watches: old(self)@.watches.insert(id@, exited), ..old(self)@ }),
    {
        match self.find_watch(id) {
            Some(i) => {
                let ghost ws = self.watches@;
                self.watches.set(i, WatchState { id: owned(id), exited });
                proof {
                    lemma_watches_update(ws, i as int, WatchState { id: self.watches@[i as int].id, exited });
                }
            },
            None => {
                let ghost ws = self.watches@;
                let w = WatchState { id: owned(id), exited };
                proof {
                    lemma_watches_push(ws, w);
                }
                self.watches.push(w);
            },
        }
    }

    /// Drop a session's handle record, if it has one.
    fn drop_watch(&mut self, id: &str)
        requires
            keys_unique(watch_pairs(old(self).watches@)),
        ensures
            keys_unique(watch_pairs(final(self).watches@)),
            final(self).sessions == old(self).sessions,
            final(self).bindings == old(self).bindings,
            final(self).selected == old(self).selected,
            final(self).hide_unknown == old(self).hide_unknown,
            final(self).probes == old(self).probes,
            final(self)@ == (RegistryV { watches: old(self)@.watches.remove(id@), ..old(self)@ }),
    {
        match self.find_watch(id) {
            Some(i) => {
                let ghost ws = self.watches@;
                self.watches.remove(i);
                proof {
                    lemma_watches_remove(ws, i as int);
                }
            },
            None => {
                proof {
                    assert(self@.watches.remove(id@) =~= self@.watches);
                }
            },
        }
    }

    /// A held handle for `id` that has not reported its process gone.
    /// False with no handle at all: neither is proof of life.
    fn is_alive(&self, id: &str) -> (r: bool)
        requires
            keys_unique(watch_pairs(self.watches@)),
        ensures
            r == alive(self@, id@),
    {
        match self.find_watch(id) {
            Some(i) => !self.watches[i].exited,
            None => false,
        }
    }

    /// Apply a hook payload (see `hook_apply`). True when the surface
    /// should be repainted. A payload without a session id cannot be
    /// attributed and is dropped.
    pub fn apply_hook(&mut self, payload: &Json, now_ms: i64) -> (changed: bool)
        requires
            old(self).wf(),
        ensures
            final(self).wf(),
            final(self)@ == hook_apply(old(self)@, payload@, now_ms).0,
            changed == hook_apply(old(self)@, payload@, now_ms).1,
    {
        let id: String = match get_str(payload, "session_id") {
            Some(s) => s.clone(),
            None => return false,
        };
        let ghost r0 = self@;
        let ghost s0 = known_or_new(r0, id@, now_ms);
        proof {
            lemma_steps_keep_id(s0, payload@, None, now_ms, false);
        }
        let (changed, ended) = match self.find_session(id.as_str()) {
            Some(i) => {
                let ghost ss = self.sessions@;
                let ch = self.sessions[i].apply_hook(payload, now_ms);
                proof {
                    lemma_sessions_update(ss, i as int, self.sessions@[i as int]);
                }
                (ch, self.sessions[i].state == SessionState::Ended)
            },
            None => {
                let mut s = Session::new(id.clone(), now_ms);
                let ch = s.apply_hook(payload, now_ms);
                let e = s.state == SessionState::Ended;
                proof {
                    lemma_sessions_push(self.sessions@, s);
                }
                self.sessions.push(s);
                (ch, e)
            },
        };
        proof {
            assert(self@.sessions == r0.sessions.insert(id@, hook_step(s0, payload@, now_ms).0));
            assert(registry_wf_but(self@, id@));
        }
        if ended {
            self.drop_watch(id.as_str());
            let lc = self.unbind_id(id.as_str());
            changed || lc
        } else {
            let lc = self.auto_bind(id.as_str());
            changed || lc
        }
    }
}

// ---- Enumeration rows -----------------------------------------------

/// A scan row's `cwd` applied to a known session: the cwd is corrected,
/// and a blank or cwd-derived label follows it.
pub open spec fn cwd_step(e: SessionV, c: Seq<char>) -> (SessionV, bool) {
    let moved = e.cwd != Some(c);
    let e1 = SessionV { cwd: Some(c), ..e };
    if e1.label.len() == 0 || e1.label_is_derived {
        let d = dir_name_spec(c);
        (SessionV { label: d, label_is_derived: true, ..e1 }, moved || e1.label != d)
    } else {
        (e1, moved)
    }
}

/// A scan row's `name` applied to a known session: a non-empty name
/// replaces a blank or cwd-derived label, and marks it as a real name
/// (a change even when the text already matched). A real name, once
/// seen, is never replaced again.
pub open spec fn name_step(e: SessionV, n: Seq<char>) -> (SessionV, bool) {
    if n.len() > 0 && (e.label.len() == 0 || e.label_is_derived) {
        (SessionV { label: n, label_is_derived: false, ..e }, true)
    } else {
        (e, false)
    }
}

/// A scan row applied to a known, not ended session: sighting, scan
/// colour, pid (replaced when a different one is reported, kept when
/// none is), cwd, then name. Gives the session, whether anything
/// changed, and whether the pid was learned or replaced.
pub open spec fn row_step(
    e: SessionV,
    name: Option<Seq<char>>,
    cwd: Option<Seq<char>>,
    pid: Option<u32>,
    status: Option<Seq<char>>,
    now: i64,
) -> (SessionV, bool, bool) {
    let (e2, c1) = scan_step(SessionV { last_seen_ms: now, scan_status: status, ..e }, status, now);
    let (e3, c2) = match pid {
        Some(p) => if e2.pid != Some(p) {
            (SessionV { pid: Some(p), ..e2 }, true)
        } else {
            (e2, false)
        },
        None => (e2, false),
    };
    let (e4, c3) = match cwd {
        Some(c) => cwd_step(e3, c),
        None => (e3, false),
    };
    let (e5, c4) = match name {
        Some(n) => name_step(e4, n),
        None => (e4, false),
    };
    (e5, c1 || c2 || c3 || c4, c2)
}

/// A session first met in a scan row: unknown, with the row's pid and
/// cwd, a label from the name when it has one and from the cwd
/// otherwise, then sighted and coloured by the row's status.
pub open spec fn new_row(
    id: Seq<char>,
    name: Option<Seq<char>>,
    cwd: Option<Seq<char>>,
    pid: Option<u32>,
    status: Option<Seq<char>>,
    now: i64,
) -> SessionV {
    let s0 = SessionV { pid: pid, ..new_spec(id, now) };
    let s1 = match cwd {
        Some(c) => SessionV { cwd: Some(c), label: dir_name_spec(c), label_is_derived: true, ..s0 },
        None => s0,
    };
    let s2 = match name {
        Some(n) => if n.len() > 0 {
            SessionV { label: n, label_is_derived: false, ..s1 }
        } else {
            s1
        },
        None => s1,
    };
    scan_step(SessionV { last_seen_ms: now, scan_status: status, ..s2 }, status, now).0
}

/// A scan row applied to the registry. A session the hooks saw end is
/// left alone entirely (not rebound, not given a pid). Otherwise the
/// row updates or creates the session; a pid learned or replaced drops
/// the old handle record and queues a probe; the session joins the list.
pub open spec fn enumerate_apply(
    r: RegistryV,
    id: Seq<char>,
    name: Option<Seq<char>>,
    cwd: Option<Seq<char>>,
    pid: Option<u32>,
    status: Option<Seq<char>>,
    now: i64,
) -> (RegistryV, bool) {
    if r.sessions.contains_key(id) && r.sessions[id].state == SessionState::Ended {
        (r, false)
    } else {
        let (s, ch, pc) = if r.sessions.contains_key(id) {
            row_step(r.sessions[id], name, cwd, pid, status, now)
        } else {
            (new_row(id, name, cwd, pid, status, now), true, pid is Some)
        };
        let r1 = RegistryV { sessions: r.sessions.insert(id, s), ..r };
        let r2 = if pc {
            RegistryV { watches: r1.watches.remove(id), probes: r1.probes.push((id, pid->0)), ..r1 }
        } else {
            r1
        };
        let (r3, lc) = bind_step(r2, id);
        (r3, ch || lc)
    }
}

/// A scan's `startedAt` for a session: recorded when reported, for a
/// known session that has not ended; a change only when it moved.
pub open spec fn started_apply(r: RegistryV, id: Seq<char>, started: Option<i64>) -> (RegistryV, bool) {
    match started {
        None => (r, false),
        Some(ms) => if !r.sessions.contains_key(id) || r.sessions[id].state == SessionState::Ended
            || r.sessions[id].started_at_ms == Some(ms) {
            (r, false)
        } else {
            (
                RegistryV {
                    sessions: r.sessions.insert(id, SessionV { started_at_ms: Some(ms), ..r.sessions[id] }),
                    ..r
                },
                true,
            )
        },
    }
}

fn is_blank(s: &str) -> (r: bool)
    ensures
        r == (s@.len() == 0),
{
    let cs = crate::text::chars_of(s);
    cs.len() == 0
}

/// A scan row applied to a known, not ended session (see `row_step`).
fn refresh_from_row(
    e: &mut Session,
    name: Option<&str>,
    cwd: Option<&str>,
    pid: Option<u32>,
    status: Option<&str>,
    now_ms: i64,
) -> (r: (bool, bool))
    ensures
        (final(e)@, r.0, r.1) == row_step(old(e)@, opt_str(name), opt_str(cwd), pid, opt_str(status), now_ms),
{
    e.note_seen(status, now_ms);
    let mut changed = e.apply_scan_state(status, now_ms);
    let mut pid_changed = false;
    if let Some(new_pid) = pid {
        let same = match e.pid {
            Some(old_pid) => old_pid == new_pid,
            None => false,
        };
        if !same {
            e.pid = Some(new_pid);
            changed = true;
            pid_changed = true;
        }
    }
    if let Some(c) = cwd {
        let same = match &e.cwd {
            Some(old_cwd) => same_text(old_cwd.as_str(), c),
            None => false,
        };
        if !same {
            e.cwd = Some(owned(c));
            changed = true;
        }
        if is_blank(e.label.as_str()) || e.label_is_derived {
            let derived = dir_name(c);
            if !same_text(e.label.as_str(), derived.as_str()) {
                changed = true;
            }
            e.label = derived;
            e.label_is_derived = true;
        }
    }
    if let Some(n) = name {
        if !is_blank(n) && (is_blank(e.label.as_str()) || e.label_is_derived) {
            e.label = owned(n);
            e.label_is_derived = false;
            changed = true;
        }
    }
    (changed, pid_changed)
}

impl Registry {
    /// A scan row applied to the known, not ended session at `i`.
    fn refresh_session(
        &mut self,
        i: usize,
        id: &str,
        name: Option<&str>,
        cwd: Option<&str>,
        pid: Option<u32>,
        status: Option<&str>,
        now_ms: i64,
    ) -> (r: (bool, bool))
        requires
            old(self).wf(),
            i < old(self).sessions@.len(),
            old(self).sessions@[i as int].id@ == id@,
            old(self)@.sessions.contains_key(id@),
            old(self)@.sessions[id@] == old(self).sessions@[i as int]@,
            old(self)@.sessions[id@].state != SessionState::Ended,
        ensures
            final(self).wf(),
            r.0 == row_step(old(self)@.sessions[id@], opt_str(name), opt_str(cwd), pid, opt_str(status), now_ms).1,
            r.1 == row_step(old(self)@.sessions[id@], opt_str(name), opt_str(cwd), pid, opt_str(status), now_ms).2,
            final(self)@ == (RegistryV {
                sessions: old(self)@.sessions.insert(
                    id@,
                    row_step(old(self)@.sessions[id@], opt_str(name), opt_str(cwd), pid, opt_str(status), now_ms).0,
                ),
                ..old(self)@
            }),
    {
        let ghost ss = self.sessions@;
        let ghost r0 = self@;
        proof {
            let e = ss[i as int]@;
            let e1 = SessionV { last_seen_ms: now_ms, scan_status: opt_str(status), ..e };
            lemma_steps_keep_id(e1, JsonV::Null, opt_str(status), now_ms, false);
            lemma_quiet_steps_never_end(e1, opt_str(status), now_ms, false);
        }
        let r = refresh_from_row(&mut self.sessions[i], name, cwd, pid, status, now_ms);
        proof {
            lemma_sessions_update(ss, i as int, self.sessions@[i as int]);
            assert forall|k: Seq<char>| #[trigger] self@.sessions.contains_key(k) implies self@.sessions[k].id == k by {
                if k != id@ {
                    assert(r0.sessions.contains_key(k));
                }
            }
            assert forall|j: int| 0 <= j < self@.bindings.len() implies self@.sessions[#[trigger] self@.bindings[j]].state
                != SessionState::Ended by {
                assert(r0.sessions[r0.bindings[j]].state != SessionState::Ended);
            }
        }
        r
    }

    /// A session first met in a scan row, filed under its id.
    fn add_session_from_row(
        &mut self,
        id: &str,
        name: Option<&str>,
        cwd: Option<&str>,
        pid: Option<u32>,
        status: Option<&str>,
        now_ms: i64,
    )
        requires
            old(self).wf(),
            !old(self)@.sessions.contains_key(id@),
        ensures
            final(self).wf(),
            final(self)@ == (RegistryV {
                sessions: old(self)@.sessions.insert(
                    id@,
                    new_row(id@, opt_str(name), opt_str(cwd), pid, opt_str(status), now_ms),
                ),
                ..old(self)@
            }),
    {
        let ghost r0 = self@;
        let mut s = Session::new(owned(id), now_ms);
        s.pid = pid;
        if let Some(c) = cwd {
            s.cwd = Some(owned(c));
            s.label = dir_name(c);
            s.label_is_derived = true;
        }
        if let Some(n) = name {
            if !is_blank(n) {
                s.label = owned(n);
                s.label_is_derived = false;
            }
        }
        s.note_seen(status, now_ms);
        proof {
            lemma_steps_keep_id(s@, JsonV::Null, opt_str(status), now_ms, false);
        }
        s.apply_scan_state(status, now_ms);
        proof {
            lemma_sessions_push(self.sessions@, s);
        }
        self.sessions.push(s);
        proof {
            assert forall|k: Seq<char>| #[trigger] self@.sessions.contains_key(k) implies self@.sessions[k].id == k by {
                if k != id@ {
                    assert(r0.sessions.contains_key(k));
                }
            }
            assert forall|j: int| 0 <= j < self@.bindings.len() implies self@.sessions[#[trigger] self@.bindings[j]].state
                != SessionState::Ended by {
                assert(r0.sessions.contains_key(r0.bindings[j]));
                assert(r0.sessions[r0.bindings[j]].state != SessionState::Ended);
            }
        }
    }
}

impl Registry {
    /// Register a session found by enumeration (see `enumerate_apply`).
    /// True when the surface should be repainted.
    pub fn register_enumerated(
        &mut self,
        id: &str,
        name: Option<&str>,
        cwd: Option<&str>,
        pid: Option<u32>,
        status: Option<&str>,
        now_ms: i64,
    ) -> (changed: bool)
        requires
            old(self).wf(),
        ensures
            final(self).wf(),
            final(self)@ == enumerate_apply(old(self)@, id@, opt_str(name), opt_str(cwd), pid, opt_str(status), now_ms).0,
            changed == enumerate_apply(old(self)@, id@, opt_str(name), opt_str(cwd), pid, opt_str(status), now_ms).1,
    {
        let (changed, pid_changed) = match self.find_session(id) {
            Some(i) => {
                if self.sessions[i].state == SessionState::Ended {
                    return false;
                }
                self.refresh_session(i, id, name, cwd, pid, status, now_ms)
            },
            None => {
                self.add_session_from_row(id, name, cwd, pid, status, now_ms);
                (true, pid.is_some())
            },
        };
        if pid_changed {
            self.drop_watch(id);
            if let Some(p) = pid {
                let ghost pr = self.probes@;
                self.probes.push((owned(id), p));
                proof {
                    assert(probe_pairs(self.probes@) =~= probe_pairs(pr).push((id@, p)));
                }
            }
        }
        let lc = self.auto_bind(id);
        changed || lc
    }

    /// The pids learned or replaced since the last call, each with its
    /// session id, in the order they were learned; the queue is left
    /// empty.
    pub fn take_probes(&mut self) -> (r: Vec<(String, u32)>)
        requires
            old(self).wf(),
        ensures
            final(self).wf(),
            probe_pairs(r@) == old(self)@.probes,
            final(self)@ == (RegistryV { probes: Seq::empty(), ..old(self)@ }),
    {
        let mut out: Vec<(String, u32)> = Vec::new();
        std::mem::swap(&mut out, &mut self.probes);
        proof {
            assert(probe_pairs(self.probes@) =~= Seq::<(Seq<char>, u32)>::empty());
        }
        out
    }

    /// What a probe found: whether a process handle could be opened for
    /// the session's pid, and the host that pid runs under with its
    /// immediate parent.
    pub fn attach_probe(&mut self, id: &str, watch_opened: bool, host: Host, parent_pid: Option<u32>)
        requires
            old(self).wf(),
        ensures
            final(self).wf(),
            final(self)@ == (RegistryV {
                sessions: if old(self)@.sessions.contains_key(id@) {
                    old(self)@.sessions.insert(
                        id@,
                        SessionV { host: Some(host), parent_pid: parent_pid, ..old(self)@.sessions[id@] },
                    )
                } else {
                    old(self)@.sessions
                },
                watches: if watch_opened {
                    old(self)@.watches.insert(id@, false)
                } else {
                    old(self)@.watches
                },
                ..old(self)@
            }),
    {
        if watch_opened {
            self.set_watch(id, false);
        }
        if let Some(i) = self.find_session(id) {
            let ghost ss = self.sessions@;
            let mut s = self.sessions[i].clone();
            s.host = Some(host);
            s.parent_pid = parent_pid;
            self.sessions.set(i, s);
            proof {
                lemma_sessions_update(ss, i as int, self.sessions@[i as int]);
            }
        }
    }

    /// Record a scan's `startedAt` for a session (see `started_apply`).
    pub fn note_started_at(&mut self, id: &str, started_at_ms: Option<i64>) -> (changed: bool)
        requires
            old(self).wf(),
        ensures
            final(self).wf(),
            final(self)@ == started_apply(old(self)@, id@, started_at_ms).0,
            changed == started_apply(old(self)@, id@, started_at_ms).1,
    {
        let ms = match started_at_ms {
            Some(ms) => ms,
            None => return false,
        };
        let i = match self.find_session(id) {
            Some(i) => i,
            None => return false,
        };
        let unchanged = match self.sessions[i].started_at_ms {
            Some(old_ms) => old_ms == ms,
            None => false,
        };
        if self.sessions[i].state == SessionState::Ended || unchanged {
            return false;
        }
        let ghost ss = self.sessions@;
        let mut s = self.sessions[i].clone();
        s.started_at_ms = Some(ms);
        self.sessions.set(i, s);
        proof {
            lemma_sessions_update(ss, i as int, self.sessions@[i as int]);
        }
        true
    }

    /// A placeholder for a session the registry has never seen, with a
    /// saved label and whether that label was only derived from the cwd.
    pub(crate) fn ensure_session_with(&mut self, id: &str, label: &str, derived: bool, now_ms: i64)
        requires
            old(self).wf(),
            !old(self)@.sessions.contains_key(id@),
        ensures
            final(self).wf(),
            final(self)@ == (RegistryV {
                sessions: old(self)@.sessions.insert(
                    id@,
                    SessionV { label: label@, label_is_derived: derived, ..new_spec(id@, now_ms) },
                ),
                ..old(self)@
            }),
    {
        let mut s = Session::new(owned(id), now_ms);
        s.label = owned(label);
        s.label_is_derived = derived;
        proof {
            lemma_sessions_push(self.sessions@, s);
        }
        self.sessions.push(s);
    }

    /// A placeholder for a session known only by id and label, unknown,
    /// unless one with that id already exists.
    pub fn ensure_session(&mut self, id: &str, label: &str, now_ms: i64)
        requires
            old(self).wf(),
        ensures
            final(self).wf(),
            final(self)@ == (RegistryV {
                sessions: if old(self)@.sessions.contains_key(id@) {
                    old(self)@.sessions
                } else {
                    old(self)@.sessions.insert(id@, SessionV { label: label@, ..new_spec(id@, now_ms) })
                },
                ..old(self)@
            }),
    {
        if self.find_session(id).is_some() {
            return;
        }
        let mut s = Session::new(owned(id), now_ms);
        s.label = owned(label);
        proof {
            lemma_sessions_push(self.sessions@, s);
        }
        self.sessions.push(s);
    }
}

// ---- Selection and activation ---------------------------------------

/// Selecting the row at `index`: out of range changes nothing; otherwise
/// the row becomes the selection and its session acknowledges an unread
/// complete or an error. A change when either moved.
pub open spec fn select_apply(r: RegistryV, index: usize, now: i64) -> (RegistryV, bool) {
    if index >= r.bindings.len() {
        (r, false)
    } else {
        let id = r.bindings[index as int];
        let (s, c) = select_step(r.sessions[id], now);
        (
            RegistryV { selected: Some(index), sessions: r.sessions.insert(id, s), ..r },
            r.selected != Some(index) || c,
        )
    }
}

/// Everything a reveal needs, owned, so nothing borrowed from the
/// registry crosses into the (slow) reveal work.
#[derive(Debug, Clone, PartialEq, Eq)]
pub struct RevealRequest {
    pub session_id: String,
    pub label: String,
    pub cwd: Option<String>,
    pub dir: Option<String>,
    pub pid: Option<u32>,
}

pub struct RevealRequestV {
    pub session_id: Seq<char>,
    pub label: Seq<char>,
    pub cwd: Option<Seq<char>>,
    pub dir: Option<Seq<char>>,
    pub pid: Option<u32>,
}

impl View for RevealRequest {
    type V = RevealRequestV;

    open spec fn view(&self) -> RevealRequestV {
        RevealRequestV {
            session_id: self.session_id@,
            label: self.label@,
            cwd: opt_text(self.cwd),
            dir: opt_text(self.dir),
            pid: self.pid,
        }
    }
}

/// The reveal request for a session: its id, label, cwd, the cwd's last
/// component, and its pid.
pub open spec fn request_for(s: SessionV) -> RevealRequestV {
    RevealRequestV {
        session_id: s.id,
        label: s.label,
        cwd: s.cwd,
        dir: match s.cwd {
            Some(c) => Some(dir_name_spec(c)),
            None => None,
        },
        pid: s.pid,
    }
}

/// What a row click resolves to: `Miss` when its session is no longer
/// bound (nothing is selected, nothing substituted), otherwise the owned
/// request for the reveal worker.
#[derive(Debug, Clone, PartialEq, Eq)]
pub enum Activation {
    Miss,
    Go(RevealRequest),
}

impl Registry {
    /// Select the row at `index` (see `select_apply`).
    pub fn select(&mut self, index: usize, now_ms: i64) -> (changed: bool)
        requires
            old(self).wf(),
        ensures
            final(self).wf(),
            final(self)@ == select_apply(old(self)@, index, now_ms).0,
            changed == select_apply(old(self)@, index, now_ms).1,
    {
        if index >= self.bindings.len() {
            return false;
        }
        let ghost r0 = self@;
        let mut changed = match self.selected {
            Some(sel) => sel != index,
            None => true,
        };
        self.selected = Some(index);
        let id = self.bindings[index].clone();
        proof {
            assert(r0.bindings[index as int] == id@);
        }
        if let Some(i) = self.find_session(id.as_str()) {
            let ghost ss = self.sessions@;
            proof {
                lemma_steps_keep_id(ss[i as int]@, JsonV::Null, None, now_ms, false);
                lemma_quiet_steps_never_end(ss[i as int]@, None, now_ms, false);
            }
            let c = self.sessions[i].on_selected(now_ms);
            changed = changed || c;
            proof {
                lemma_sessions_update(ss, i as int, self.sessions@[i as int]);
                assert forall|k: Seq<char>| #[trigger] self@.sessions.contains_key(k) implies self@.sessions[k].id
                    == k by {
                    if k != id@ {
                        assert(r0.sessions.contains_key(k));
                    }
                }
                assert forall|j: int| 0 <= j < self@.bindings.len() implies self@.sessions[#[trigger] self@.bindings[j]].state
                    != SessionState::Ended by {
                    assert(r0.sessions[r0.bindings[j]].state != SessionState::Ended);
                }
            }
        }
        changed
    }

    /// Resolve a row click's session id: `Miss` when it is no longer
    /// bound, otherwise select it by its current index and hand back the
    /// owned reveal request.
    pub fn begin_activation(&mut self, id: &str, now_ms: i64) -> (a: Activation)
        requires
            old(self).wf(),
        ensures
            final(self).wf(),
            match a {
                Activation::Miss => !old(self)@.bindings.contains(id@) && final(self)@ == old(self)@,
                Activation::Go(req) => old(self)@.bindings.contains(id@)
                    && final(self)@ == select_apply(old(self)@, pos_in(old(self)@.bindings, id@) as usize, now_ms).0
                    && req@ == request_for(final(self)@.sessions[id@]),
            },
    {
        let pos = match self.find_binding(id) {
            Some(p) => p,
            None => return Activation::Miss,
        };
        self.select(pos, now_ms);
        match self.session(id) {
            Some(s) => {
                let dir = match &s.cwd {
                    Some(c) => Some(dir_name(c.as_str())),
                    None => None,
                };
                Activation::Go(
                    RevealRequest {
                        session_id: s.id.clone(),
                        label: s.label.clone(),
                        cwd: clone_opt(&s.cwd),
                        dir,
                        pid: s.pid,
                    },
                )
            },
            None => {
                proof {
                    assert(self@.sessions.contains_key(self@.bindings[pos as int]));
                }
                Activation::Miss
            },
        }
    }
}

// ---- Pruning and the tick -------------------------------------------

/// The ids of `b` that `gone` does not claim, in order.
pub open spec fn kept(b: Seq<Seq<char>>, gone: spec_fn(Seq<char>) -> bool) -> Seq<Seq<char>>
    decreases b.len(),
{
    if b.len() == 0 {
        Seq::empty()
    } else {
        let rest = kept(b.drop_last(), gone);
        if gone(b.last()) {
            rest
        } else {
            rest.push(b.last())
        }
    }
}

/// The selection after every row `gone` claims left `b`: it follows its
/// own session, or clears when that session's row left.
pub open spec fn sel_after(b: Seq<Seq<char>>, sel: Option<usize>, gone: spec_fn(Seq<char>) -> bool) -> Option<usize> {
    match sel {
        Some(s) => if s < b.len() && !gone(b[s as int]) {
            Some(kept(b.take(s as int), gone).len() as usize)
        } else {
            None
        },
        None => None,
    }
}

pub(crate) proof fn lemma_kept(b: Seq<Seq<char>>, gone: spec_fn(Seq<char>) -> bool)
    ensures
        forall|x: Seq<char>| kept(b, gone).contains(x) ==> b.contains(x) && !gone(x),
        forall|x: Seq<char>| b.contains(x) && !gone(x) ==> kept(b, gone).contains(x),
        kept(b, gone).len() <= b.len(),
        bindings_unique(b) ==> bindings_unique(kept(b, gone)),
    decreases b.len(),
{
    if b.len() > 0 {
        let c = b.drop_last();
        lemma_kept(c, gone);
        let rest = kept(c, gone);
        assert forall|x: Seq<char>| kept(b, gone).contains(x) implies b.contains(x) && !gone(x) by {
            if rest.contains(x) {
                assert(c.contains(x));
                let i = choose|i: int| 0 <= i < c.len() && c[i] == x;
                assert(b[i] == x);
            } else {
                assert(!gone(b.last()));
                let j = choose|j: int| 0 <= j < rest.push(b.last()).len() && rest.push(b.last())[j] == x;
                if j < rest.len() {
                    assert(rest[j] == x);
                }
                assert(x == b.last());
                assert(b[b.len() - 1] == x);
            }
        }
        assert forall|x: Seq<char>| b.contains(x) && !gone(x) implies kept(b, gone).contains(x) by {
            let i = choose|i: int| 0 <= i < b.len() && b[i] == x;
            if i < b.len() - 1 {
                assert(c[i] == x);
                assert(c.contains(x));
                assert(rest.contains(x));
                let j = choose|j: int| 0 <= j < rest.len() && rest[j] == x;
                if !gone(b.last()) {
                    assert(rest.push(b.last())[j] == x);
                }
            } else {
                assert(rest.push(b.last())[rest.len() as int] == x);
            }
        }
        if bindings_unique(b) {
            assert(bindings_unique(c));
            if !gone(b.last()) {
                assert forall|i: int, j: int| 0 <= i < j < rest.push(b.last()).len() implies rest.push(b.last())[i]
                    != rest.push(b.last())[j] by {
                    if j == rest.len() {
                        assert(rest.contains(rest[i]));
                        assert(c.contains(rest[i]));
                        let k = choose|k: int| 0 <= k < c.len() && c[k] == rest[i];
                        assert(b[k] != b[b.len() - 1]);
                    }
                }
            }
        }
    }
}

/// Saturating `a - b`.
pub open spec fn sat_sub(a: i64, b: i64) -> int {
    if a - b > i64::MAX {
        i64::MAX as int
    } else if a - b < i64::MIN {
        i64::MIN as int
    } else {
        a - b
    }
}

fn saturating_sub(a: i64, b: i64) -> (r: i64)
    ensures
        r == sat_sub(a, b),
{
    match a.checked_sub(b) {
        Some(d) => d,
        None => if b < 0 {
            i64::MAX
        } else {
            i64::MIN
        },
    }
}

/// A hook event arrived for `id` inside the grace window.
pub open spec fn recent_hook(r: RegistryV, id: Seq<char>, now: i64) -> bool {
    r.sessions.contains_key(id) && sat_sub(now, r.sessions[id].last_event_at_ms) < ENUM_GRACE_MS
}

/// A bound row a successful enumeration may drop: absent from it, not
/// heard from inside the grace window, and with no live handle.
pub open spec fn prunable(r: RegistryV, present: Seq<Seq<char>>, now: i64) -> spec_fn(Seq<char>) -> bool {
    |id: Seq<char>| !present.contains(id) && !recent_hook(r, id, now) && !alive(r, id)
}

/// Drop every prunable row; sessions themselves are kept. A change when
/// any row went.
pub open spec fn prune_apply(r: RegistryV, present: Seq<Seq<char>>, now: i64) -> (RegistryV, bool) {
    let gone = prunable(r, present, now);
    (
        RegistryV {
            bindings: kept(r.bindings, gone),
            selected: sel_after(r.bindings, r.selected, gone),
            ..r
        },
        exists|i: int| 0 <= i < r.bindings.len() && gone(#[trigger] r.bindings[i]),
    )
}

/// Every bound session's deadline subtraction fits.
pub open spec fn ticks_fit(r: RegistryV, now: i64) -> bool {
    forall|i: int| 0 <= i < r.bindings.len() ==> tick_fits(r.sessions[#[trigger] r.bindings[i]], now)
}

/// One bound session at the tick: a handle that reported its process
/// gone ends it; any other ticks against the deadline, alive when a
/// handle is held.
pub open spec fn tick_session(r: RegistryV, id: Seq<char>, now: i64) -> (SessionV, bool) {
    let s = r.sessions[id];
    if exited(r, id) {
        if s.state == SessionState::Ended {
            (s, false)
        } else {
            (end_spec(s, now), true)
        }
    } else {
        tick_step(s, now, r.watches.contains_key(id))
    }
}

/// The tick over the whole registry: every bound session takes its tick;
/// rows whose process is gone leave the list and their handles are
/// dropped; unbound sessions are not visited.
pub open spec fn tick_apply(r: RegistryV, now: i64) -> RegistryV {
    let gone = |k: Seq<char>| exited(r, k);
    RegistryV {
        sessions: Map::new(
            |k: Seq<char>| r.sessions.contains_key(k),
            |k: Seq<char>| if r.bindings.contains(k) {
                tick_session(r, k, now).0
            } else {
                r.sessions[k]
            },
        ),
        watches: Map::new(
            |k: Seq<char>| r.watches.contains_key(k) && !(r.bindings.contains(k) && r.watches[k]),
            |k: Seq<char>| r.watches[k],
        ),
        bindings: kept(r.bindings, gone),
        selected: sel_after(r.bindings, r.selected, gone),
        ..r
    }
}

/// The tick changed something: a row's process was gone, or a session's
/// colour moved.
pub open spec fn tick_changed(r: RegistryV, now: i64) -> bool {
    exists|i: int|
        0 <= i < r.bindings.len() && (exited(r, #[trigger] r.bindings[i]) || tick_session(r, r.bindings[i], now).1)
}

impl Registry {
    /// Keep only the rows `keep` marks, in order; the selection follows
    /// its own session or clears.
    fn retain_rows(&mut self, keep: &Vec<bool>, Ghost(gone): Ghost<spec_fn(Seq<char>) -> bool>)
        requires
            keys_unique(session_pairs(old(self).sessions@)),
            keys_unique(watch_pairs(old(self).watches@)),
            forall|k: Seq<char>| #[trigger] old(self)@.sessions.contains_key(k) ==> old(self)@.sessions[k].id == k,
            bindings_unique(old(self)@.bindings),
            forall|i: int| 0 <= i < old(self)@.bindings.len() ==> old(self)@.sessions.contains_key(#[trigger] old(self)@.bindings[i]),
            forall|i: int| 0 <= i < old(self)@.bindings.len() && !gone(old(self)@.bindings[i])
                ==> old(self)@.sessions[#[trigger] old(self)@.bindings[i]].state != SessionState::Ended,
            old(self)@.selected matches Some(s) ==> s < old(self)@.bindings.len(),
            keep@.len() == old(self)@.bindings.len(),
            forall|i: int| 0 <= i < keep@.len() ==> keep@[i] == !gone(#[trigger] old(self)@.bindings[i]),
        ensures
            final(self).wf(),
            final(self)@ == (RegistryV {
                bindings: kept(old(self)@.bindings, gone),
                selected: sel_after(old(self)@.bindings, old(self)@.selected, gone),
                ..old(self)@
            }),
    {
        let ghost b = self@.bindings;
        let mut out: Vec<String> = Vec::new();
        let mut sel: Option<usize> = None;
        let mut k: usize = 0;
        while k < self.bindings.len()
            invariant
                b == self@.bindings,
                b == crate::text::texts(self.bindings@),
                keep@.len() == b.len(),
                forall|i: int| 0 <= i < keep@.len() ==> keep@[i] == !gone(#[trigger] b[i]),
                k <= b.len(),
                crate::text::texts(out@) == kept(b.take(k as int), gone),
                sel == (match self.selected {
                    Some(s) => if s < k {
                        sel_after(b, self.selected, gone)
                    } else {
                        None
                    },
                    None => None,
                }),
                sel matches Some(x) ==> x < out@.len(),
            decreases b.len() - k,
        {
            proof {
                assert(b.take(k + 1).drop_last() =~= b.take(k as int));
                assert(b.take(k + 1).last() == b[k as int]);
            }
            if keep[k] {
                if self.selected == Some(k) {
                    sel = Some(out.len());
                    proof {
                        assert(b.take(k as int) =~= b.take(self.selected->0 as int));
                    }
                }
                let ghost o = out@;
                out.push(self.bindings[k].clone());
                proof {
                    assert(crate::text::texts(out@) =~= crate::text::texts(o).push(b[k as int]));
                }
            }
            k = k + 1;
        }
        proof {
            assert(b.take(b.len() as int) =~= b);
            lemma_kept(b, gone);
        }
        self.bindings = out;
        self.selected = sel;
        proof {
            let nb = self@.bindings;
            assert forall|i: int| 0 <= i < nb.len() implies self@.sessions.contains_key(#[trigger] nb[i])
                && self@.sessions[nb[i]].state != SessionState::Ended by {
                assert(nb.contains(nb[i]));
                assert(b.contains(nb[i]));
                let j = choose|j: int| 0 <= j < b.len() && b[j] == nb[i];
                assert(!gone(b[j]));
            }
        }
    }

    /// Drop bound sessions absent from a successful enumeration, unless
    /// heard from inside the grace window or still alive by a held
    /// handle (see `prune_apply`). Only for a run that succeeded: an
    /// empty `present` taken at face value prunes everything.
    pub fn prune_missing(&mut self, present: &[String], now_ms: i64) -> (changed: bool)
        requires
            old(self).wf(),
        ensures
            final(self).wf(),
            final(self)@ == prune_apply(old(self)@, crate::text::texts(present@), now_ms).0,
            changed == prune_apply(old(self)@, crate::text::texts(present@), now_ms).1,
    {
        let ghost r0 = self@;
        let ghost gone = prunable(r0, crate::text::texts(present@), now_ms);
        let ghost b = r0.bindings;
        let mut keep: Vec<bool> = Vec::new();
        let mut changed = false;
        let mut k: usize = 0;
        while k < self.bindings.len()
            invariant
                self.wf(),
                self@ == r0,
                b == r0.bindings,
                k <= b.len(),
                keep@.len() == k,
                forall|i: int| 0 <= i < k ==> keep@[i] == !prunable(r0, crate::text::texts(present@), now_ms)(#[trigger] b[i]),
                changed == exists|i: int| 0 <= i < k && prunable(r0, crate::text::texts(present@), now_ms)(#[trigger] b[i]),
            decreases b.len() - k,
        {
            let id = self.bindings[k].clone();
            proof {
                assert(b[k as int] == id@);
            }
            let listed = contains_listed(present, id.as_str());
            let recent = match self.session(id.as_str()) {
                Some(s) => saturating_sub(now_ms, s.last_event_at_ms) < ENUM_GRACE_MS,
                None => false,
            };
            let live = self.is_alive(id.as_str());
            let g = !listed && !recent && !live;
            proof {
                assert(listed == crate::text::texts(present@).contains(id@));
                assert(recent == recent_hook(r0, id@, now_ms));
                assert(live == alive(r0, id@));
                assert(prunable(r0, crate::text::texts(present@), now_ms)(id@) == (!crate::text::texts(present@).contains(id@) && !recent_hook(r0, id@, now_ms)
                    && !alive(r0, id@)));
            }
            keep.push(!g);
            if g {
                changed = true;
            }
            k = k + 1;
        }
        self.retain_rows(&keep, Ghost(gone));
        changed
    }

    /// Runs every couple of seconds (see `tick_apply`): a held handle
    /// reporting its process gone ends the session and unbinds its row,
    /// exactly like `SessionEnd`; every other bound session ticks against
    /// `T_unknown`, alive when a handle is held.
    pub fn tick(&mut self, now_ms: i64) -> (changed: bool)
        requires
            old(self).wf(),
            ticks_fit(old(self)@, now_ms),
        ensures
            final(self).wf(),
            final(self)@ == tick_apply(old(self)@, now_ms),
            changed == tick_changed(old(self)@, now_ms),
    {
        let ghost r0 = self@;
        let ghost b = r0.bindings;
        let ghost gone = |k: Seq<char>| exited(r0, k);
        let mut keep: Vec<bool> = Vec::new();
        let mut changed = false;
        let mut k: usize = 0;
        while k < self.bindings.len()
            invariant
                keys_unique(session_pairs(self.sessions@)),
                keys_unique(watch_pairs(self.watches@)),
                b == self@.bindings,
                b == r0.bindings,
                registry_wf(r0),
                ticks_fit(r0, now_ms),
                self@.selected == r0.selected,
                self@.hide_unknown == r0.hide_unknown,
                self@.probes == r0.probes,
                k <= b.len(),
                keep@.len() == k,
                forall|i: int| 0 <= i < k ==> keep@[i] == !exited(r0, #[trigger] b[i]),
                changed == exists|i: int| 0 <= i < k && (exited(r0, #[trigger] b[i]) || tick_session(r0, b[i], now_ms).1),
                forall|x: Seq<char>| #[trigger] self@.sessions.contains_key(x) == r0.sessions.contains_key(x),
                forall|x: Seq<char>| #[trigger] self@.sessions.contains_key(x) ==> self@.sessions[x] == (
                if b.take(k as int).contains(x) {
                    tick_session(r0, x, now_ms).0
                } else {
                    r0.sessions[x]
                }),
                forall|x: Seq<char>| #[trigger] self@.watches.contains_key(x) == (r0.watches.contains_key(x)
                    && !(b.take(k as int).contains(x) && r0.watches[x])),
                forall|x: Seq<char>| #[trigger] self@.watches.contains_key(x) ==> self@.watches[x] == r0.watches[x],
            decreases b.len() - k,
        {
            let id = self.bindings[k].clone();
            let ghost sk = self@;
            proof {
                assert(b[k as int] == id@);
                assert(b.take(k + 1) =~= b.take(k as int).push(id@));
                assert(!b.take(k as int).contains(id@)) by {
                    if b.take(k as int).contains(id@) {
                        let j = choose|j: int| 0 <= j < k && b.take(k as int)[j] == id@;
                        assert(b[j] == b[k as int]);
                    }
                }
                assert(r0.sessions.contains_key(id@));
                assert(self@.sessions.contains_key(id@));
                assert(self@.sessions[id@] == r0.sessions[id@]);
                assert(self@.watches.contains_key(id@) == r0.watches.contains_key(id@));
                lemma_steps_keep_id(r0.sessions[id@], JsonV::Null, None, now_ms, r0.watches.contains_key(id@));
            }
            let gone_now = match self.find_watch(id.as_str()) {
                Some(w) => self.watches[w].exited,
                None => false,
            };
            proof {
                assert(self@.watches.contains_key(id@) ==> self@.watches[id@] == r0.watches[id@]);
                assert(gone_now == exited(r0, id@));
            }
            let c = if gone_now {
                self.drop_watch(id.as_str());
                match self.find_session(id.as_str()) {
                    Some(i) => {
                        let ghost ss = self.sessions@;
                        let c = self.sessions[i].process_exited(now_ms);
                        proof {
                            lemma_sessions_update(ss, i as int, self.sessions@[i as int]);
                        }
                        c
                    },
                    None => false,
                }
            } else {
                let alive = self.find_watch(id.as_str()).is_some();
                match self.find_session(id.as_str()) {
                    Some(i) => {
                        let ghost ss = self.sessions@;
                        let c = self.sessions[i].tick(now_ms, alive);
                        proof {
                            lemma_sessions_update(ss, i as int, self.sessions@[i as int]);
                        }
                        c
                    },
                    None => false,
                }
            };
            proof {
                assert(self@.sessions == sk.sessions.insert(id@, tick_session(r0, id@, now_ms).0));
            }
            keep.push(!gone_now);
            changed = changed || gone_now || c;
            proof {
                let nk = k + 1;
                assert forall|x: Seq<char>| #[trigger] self@.sessions.contains_key(x) implies self@.sessions[x] == (
                if b.take(nk).contains(x) {
                    tick_session(r0, x, now_ms).0
                } else {
                    r0.sessions[x]
                }) by {
                    if x != id@ {
                        assert(sk.sessions.contains_key(x));
                        assert(b.take(nk).contains(x) == b.take(k as int).contains(x));
                    } else {
                        assert(b.take(nk)[k as int] == id@);
                        assert(b.take(nk).contains(x));
                    }
                }
                assert forall|x: Seq<char>| #[trigger] self@.watches.contains_key(x) == (r0.watches.contains_key(x)
                    && !(b.take(nk).contains(x) && r0.watches[x])) by {
                    if x != id@ {
                        assert(sk.watches.contains_key(x) == self@.watches.contains_key(x));
                        assert(b.take(nk).contains(x) == b.take(k as int).contains(x));
                    } else {
                        assert(b.take(nk)[k as int] == id@);
                        assert(b.take(nk).contains(x));
                    }
                }
                assert forall|x: Seq<char>| #[trigger] self@.watches.contains_key(x) implies self@.watches[x] == r0.watches[x] by {
                    assert(sk.watches.contains_key(x));
                }
                if exists|i: int| 0 <= i < nk && (exited(r0, #[trigger] b[i]) || tick_session(r0, b[i], now_ms).1) {
                    let i = choose|i: int| 0 <= i < nk && (exited(r0, #[trigger] b[i]) || tick_session(r0, b[i], now_ms).1);
                    if i < k {
                        assert(exists|i2: int| 0 <= i2 < k && (exited(r0, #[trigger] b[i2]) || tick_session(r0, b[i2], now_ms).1));
                    }
                }
            }
            k = k + 1;
        }
        proof {
            assert(b.take(b.len() as int) =~= b);
            let t = tick_apply(r0, now_ms);
            assert(self@.sessions =~= t.sessions);
            assert(self@.watches =~= t.watches);
            assert forall|k2: Seq<char>| #[trigger] self@.sessions.contains_key(k2) implies self@.sessions[k2].id == k2 by {
                lemma_steps_keep_id(r0.sessions[k2], JsonV::Null, None, now_ms, r0.watches.contains_key(k2));
            }
            assert forall|i: int| 0 <= i < b.len() && !gone(b[i]) implies self@.sessions[#[trigger] b[i]].state
                != SessionState::Ended by {
                assert(b.contains(b[i]));
                lemma_quiet_steps_never_end(r0.sessions[b[i]], None, now_ms, r0.watches.contains_key(b[i]));
            }
        }
        self.retain_rows(&keep, Ghost(gone));
        changed
    }
}

/// Whether `id` is among the listed ids.
fn contains_listed(present: &[String], id: &str) -> (r: bool)
    ensures
        r == crate::text::texts(present@).contains(id@),
{
    let mut i: usize = 0;
    while i < present.len()
        invariant
            i <= present@.len(),
            forall|j: int| 0 <= j < i ==> (#[trigger] present@[j])@ != id@,
        decreases present@.len() - i,
    {
        if same_text(present[i].as_str(), id) {
            proof {
                assert(crate::text::texts(present@)[i as int] == id@);
            }
            return true;
        }
        i = i + 1;
    }
    proof {
        if crate::text::texts(present@).contains(id@) {
            let j = choose|j: int| 0 <= j < present@.len() && crate::text::texts(present@)[j] == id@;
            assert(present@[j]@ == id@);
        }
    }
    false
}

// ---- Supersession and the snapshot ----------------------------------

/// The facts supersession reads about one session.
pub open spec fn cand_of(s: SessionV) -> CandidateV {
    CandidateV {
        id: s.id,
        pid: s.pid,
        host: s.host,
        parent_pid: s.parent_pid,
        cwd: s.cwd,
        state: s.state,
        started_at_ms: s.started_at_ms,
        first_seen_ms: s.first_seen_ms,
    }
}

/// One candidate per bound session, in list order.
pub open spec fn cands_of(r: RegistryV) -> Seq<CandidateV> {
    Seq::new(r.bindings.len(), |i: int| cand_of(r.sessions[r.bindings[i]]))
}

/// The bound session `id` is one a newer session in its own VS Code
/// window and folder makes safe to hide.
pub open spec fn hidden_row(r: RegistryV, id: Seq<char>) -> bool {
    exists|m: int| 0 <= m < r.bindings.len() && r.bindings[m] == id && hidden(cands_of(r), #[trigger] cands_of(r)[m])
}

/// One row of the snapshot.
pub struct TileSnapshot {
    /// The row's position among the rows shown.
    pub index: usize,
    pub selected: bool,
    pub session: Option<Session>,
}

pub struct TileV {
    pub index: usize,
    pub selected: bool,
    pub session: Option<SessionV>,
}

impl View for TileSnapshot {
    type V = TileV;

    open spec fn view(&self) -> TileV {
        TileV {
            index: self.index,
            selected: self.selected,
            session: match self.session {
                Some(s) => Some(s@),
                None => None,
            },
        }
    }
}

/// What the surface renders.
pub struct Snapshot {
    pub tiles: Vec<TileSnapshot>,
    pub now_ms: i64,
    /// Mirrors the grey toggle; tiles are never filtered on its account.
    pub hide_unknown: bool,
}

pub open spec fn tiles_view(ts: Seq<TileSnapshot>) -> Seq<TileV> {
    ts.map_values(|t: TileSnapshot| t@)
}

/// The tiles for the first `n` rows: a hidden (superseded) row is left
/// out, without being unbound; each shown row carries its position among
/// the shown ones, whether its own binding is the selection, and its
/// session.
pub open spec fn tiles_upto(r: RegistryV, n: int) -> Seq<TileV>
    decreases n,
{
    if n <= 0 {
        Seq::empty()
    } else {
        let prev = tiles_upto(r, n - 1);
        let id = r.bindings[n - 1];
        if hidden_row(r, id) {
            prev
        } else {
            prev.push(
                TileV {
                    index: prev.len() as usize,
                    selected: r.selected == Some((n - 1) as usize),
                    session: if r.sessions.contains_key(id) {
                        Some(r.sessions[id])
                    } else {
                        None
                    },
                },
            )
        }
    }
}

/// How many of these rows the window shows: all of them, less the
/// unknown ones while the grey toggle is on.
pub open spec fn visible_count(ts: Seq<TileV>, hide_unknown: bool) -> nat
    decreases ts.len(),
{
    if ts.len() == 0 {
        0
    } else {
        let rest = visible_count(ts.drop_last(), hide_unknown);
        let t = ts.last();
        if hide_unknown && (t.session matches Some(s) && s.state == SessionState::Unknown) {
            rest
        } else {
            rest + 1
        }
    }
}

/// A tile's session is known and sitting in `Unknown`.
pub open spec fn grey_tile(t: TileV) -> bool {
    t.session matches Some(s) && s.state == SessionState::Unknown
}

/// The row count the window is sized by: every shown tile while the grey
/// toggle is off; while it is on, exactly the shown tiles whose session
/// is not unknown, so the grey rows it hides are never counted, and the
/// counted and the hidden grey rows together make up the shown tiles.
pub proof fn law_visible_rows_skip_exactly_the_hidden_grey_rows(r: RegistryV)
    ensures
        !r.hide_unknown ==> visible_count(tiles_upto(r, r.bindings.len() as int), r.hide_unknown)
            == tiles_upto(r, r.bindings.len() as int).len(),
        r.hide_unknown ==> visible_count(tiles_upto(r, r.bindings.len() as int), r.hide_unknown)
            == tiles_upto(r, r.bindings.len() as int).filter(|t: TileV| !grey_tile(t)).len(),
        r.hide_unknown ==> visible_count(tiles_upto(r, r.bindings.len() as int), r.hide_unknown)
            + tiles_upto(r, r.bindings.len() as int).filter(|t: TileV| grey_tile(t)).len()
            == tiles_upto(r, r.bindings.len() as int).len(),
{
    lemma_visible_count_filters(tiles_upto(r, r.bindings.len() as int));
}

proof fn lemma_visible_count_filters(ts: Seq<TileV>)
    ensures
        visible_count(ts, false) == ts.len(),
        visible_count(ts, true) == ts.filter(|t: TileV| !grey_tile(t)).len(),
        visible_count(ts, true) + ts.filter(|t: TileV| grey_tile(t)).len() == ts.len(),
    decreases ts.len(),
{
    reveal(Seq::filter);
    if ts.len() > 0 {
        lemma_visible_count_filters(ts.drop_last());
    }
}

proof fn lemma_tiles_len(r: RegistryV, n: int)
    ensures
        tiles_upto(r, n).len() <= if n < 0 { 0 } else { n },
    decreases n,
{
    if n > 0 {
        lemma_tiles_len(r, n - 1);
    }
}

proof fn lemma_visible_count_le(ts: Seq<TileV>, h: bool)
    ensures
        visible_count(ts, h) <= ts.len(),
    decreases ts.len(),
{
    if ts.len() > 0 {
        lemma_visible_count_le(ts.drop_last(), h);
    }
}

impl Registry {
    /// The facts supersession needs about every bound session, in list
    /// order.
    fn supersession_candidates(&self) -> (out: Vec<Candidate<'_>>)
        requires
            self.wf(),
        ensures
            cands_view(out@) == cands_of(self@),
    {
        let ghost r = self@;
        let mut out: Vec<Candidate<'_>> = Vec::new();
        let mut k: usize = 0;
        while k < self.bindings.len()
            invariant
                self.wf(),
                r == self@,
                k <= r.bindings.len(),
                out@.len() == k,
                forall|j: int| 0 <= j < k ==> (#[trigger] out@[j])@ == cand_of(r.sessions[r.bindings[j]]),
            decreases r.bindings.len() - k,
        {
            proof {
                assert(r.bindings[k as int] == self.bindings@[k as int]@);
            }
            match self.session(self.bindings[k].as_str()) {
                Some(s) => {
                    let cwd = match &s.cwd {
                        Some(c) => Some(c.as_str()),
                        None => None,
                    };
                    out.push(
                        Candidate {
                            id: s.id.as_str(),
                            pid: s.pid,
                            host: s.host,
                            parent_pid: s.parent_pid,
                            cwd,
                            state: s.state,
                            started_at_ms: s.started_at_ms,
                            first_seen_ms: s.first_seen_ms,
                        },
                    );
                },
                None => {
                    proof {
                        assert(r.sessions.contains_key(r.bindings[k as int]));
                    }
                    return out;
                },
            }
            k = k + 1;
        }
        proof {
            assert(cands_view(out@) =~= cands_of(r));
        }
        out
    }

    /// Every bound session a newer one in the same VS Code window and
    /// folder makes safe to hide right now, each once. Recomputed on every
    /// call; nothing here unbinds anything.
    pub fn superseded_ids(&self) -> (out: Vec<String>)
        requires
            self.wf(),
        ensures
            texts(out@) == hidden_list(cands_of(self@), cands_of(self@).len() as int),
            forall|i: int, j: int| 0 <= i < j < out@.len() ==> out@[i]@ != out@[j]@,
            forall|s: Seq<char>| #[trigger] has_text(out@, s) <==> hidden_row(self@, s),
    {
        let cands = self.supersession_candidates();
        let out = superseded(cands.as_slice());
        proof {
            let r = self@;
            let cs = cands_of(r);
            assert(cands@.len() == cs.len());
            assert forall|s: Seq<char>| #[trigger] has_text(out@, s) <==> hidden_row(r, s) by {
                if hidden_id(cands@, s, cands@.len() as int) {
                    let m = choose|m: int| 0 <= m < cands@.len() && (#[trigger] cands@[m]).id@ == s && hidden(cands_view(cands@), cands@[m]@);
                    assert(cands_view(cands@)[m] == cands@[m]@);
                    assert(cs[m].id == r.bindings[m]);
                    assert(hidden(cs, cs[m]));
                }
                if hidden_row(r, s) {
                    let m = choose|m: int| 0 <= m < r.bindings.len() && r.bindings[m] == s && hidden(cs, #[trigger] cs[m]);
                    assert(cands_view(cands@)[m] == cands@[m]@);
                    assert(cands@[m].id@ == s);
                }
            }
        }
        out
    }

    /// What the surface renders (see `tiles_upto`).
    pub fn snapshot(&self, now_ms: i64) -> (snap: Snapshot)
        requires
            self.wf(),
        ensures
            tiles_view(snap.tiles@) == tiles_upto(self@, self@.bindings.len() as int),
            snap.now_ms == now_ms,
            snap.hide_unknown == self@.hide_unknown,
    {
        let ghost r = self@;
        let hidden = self.superseded_ids();
        let mut tiles: Vec<TileSnapshot> = Vec::new();
        let mut k: usize = 0;
        while k < self.bindings.len()
            invariant
                self.wf(),
                r == self@,
                k <= r.bindings.len(),
                forall|s: Seq<char>| #[trigger] has_text(hidden@, s) <==> hidden_row(r, s),
                tiles_view(tiles@) == tiles_upto(r, k as int),
            decreases r.bindings.len() - k,
        {
            let id = self.bindings[k].as_str();
            proof {
                assert(r.bindings[k as int] == id@);
            }
            let is_hidden = contains_text(&hidden, &self.bindings[k]);
            if !is_hidden {
                let session = match self.session(id) {
                    Some(s) => Some(s.clone()),
                    None => None,
                };
                let selected = match self.selected {
                    Some(sel) => sel == k,
                    None => false,
                };
                let ghost before = tiles@;
                tiles.push(TileSnapshot { index: tiles.len(), selected, session });
                proof {
                    assert(tiles_view(tiles@) =~= tiles_view(before).push(tiles@[before.len() as int]@));
                }
            }
            k = k + 1;
        }
        Snapshot { tiles, now_ms, hide_unknown: self.hide_unknown }
    }

    /// How many rows the window shows right now: the snapshot's tiles,
    /// less the unknown ones while the grey toggle is on.
    pub fn visible_rows(&self) -> (n: usize)
        requires
            self.wf(),
        ensures
            n == visible_count(tiles_upto(self@, self@.bindings.len() as int), self@.hide_unknown),
    {
        let snap = self.snapshot(0);
        let mut n: usize = 0;
        let mut i: usize = 0;
        proof {
            lemma_tiles_len(self@, self@.bindings.len() as int);
        }
        while i < snap.tiles.len()
            invariant
                i <= snap.tiles@.len(),
                n == visible_count(tiles_view(snap.tiles@).take(i as int), self@.hide_unknown),
                n <= i,
            decreases snap.tiles@.len() - i,
        {
            proof {
                assert(tiles_view(snap.tiles@).take(i + 1).drop_last() =~= tiles_view(snap.tiles@).take(i as int));
            }
            let counted = match &snap.tiles[i].session {
                Some(s) => !(self.hide_unknown && s.state == SessionState::Unknown),
                None => true,
            };
            if counted {
                n = n + 1;
            }
            i = i + 1;
        }
        proof {
            assert(tiles_view(snap.tiles@).take(snap.tiles@.len() as int) =~= tiles_view(snap.tiles@));
        }
        n
    }
}

// ---- Laws of the registry -------------------------------------------

proof fn lemma_unbind(r: RegistryV, id: Seq<char>)
    requires
        bindings_unique(r.bindings),
    ensures
        !unbind_step(r, id).0.bindings.contains(id),
        forall|x: Seq<char>| x != id ==> (unbind_step(r, id).0.bindings.contains(x) <==> r.bindings.contains(x)),
{
    if r.bindings.contains(id) {
        let p = pos_in(r.bindings, id);
        let nb = r.bindings.remove(p);
        if nb.contains(id) {
            let j = choose|j: int| 0 <= j < nb.len() && nb[j] == id;
            let j0 = if j < p { j } else { j + 1 };
            assert(r.bindings[j0] == r.bindings[p]);
        }
        assert forall|x: Seq<char>| x != id implies (nb.contains(x) <==> r.bindings.contains(x)) by {
            if nb.contains(x) {
                let j = choose|j: int| 0 <= j < nb.len() && nb[j] == x;
                let j0 = if j < p { j } else { j + 1 };
                assert(r.bindings[j0] == x);
            }
            if r.bindings.contains(x) {
                let j = choose|j: int| 0 <= j < r.bindings.len() && r.bindings[j] == x;
                assert(j != p);
                let j1 = if j < p { j } else { j - 1 };
                assert(nb[j1] == x);
            }
        }
    }
}

/// After a hook event the session it names has a record, and that
/// session is on the list exactly when it has not ended: an ended
/// session leaves the list but keeps its record.
pub proof fn law_a_hook_lists_exactly_the_sessions_that_have_not_ended(r: RegistryV, p: JsonV, now: i64)
    requires
        registry_wf(r),
        payload_session_id(p) is Some,
    ensures
        hook_apply(r, p, now).0.sessions.contains_key(payload_session_id(p)->0),
        hook_apply(r, p, now).0.bindings.contains(payload_session_id(p)->0) <==> hook_apply(r, p, now).0.sessions[
        payload_session_id(p)->0].state != SessionState::Ended,
{
    let id = payload_session_id(p)->0;
    let (s, ch) = hook_step(known_or_new(r, id, now), p, now);
    let r1 = RegistryV { sessions: r.sessions.insert(id, s), ..r };
    if s.state == SessionState::Ended {
        lemma_unbind(RegistryV { watches: r1.watches.remove(id), ..r1 }, id);
    } else {
        assert(bind_step(r1, id).0.bindings.contains(id)) by {
            if !r1.bindings.contains(id) {
                assert(r1.bindings.push(id)[r1.bindings.len() as int] == id);
            }
        }
    }
}

/// A payload that names no session changes nothing and asks for no
/// repaint.
pub proof fn law_an_unattributed_event_changes_nothing(r: RegistryV, p: JsonV, now: i64)
    requires
        payload_session_id(p) is None,
    ensures
        hook_apply(r, p, now) == (r, false),
{
}

/// A straggler event after a session ended (anything but
/// `SessionStart`) leaves it ended and off the list, and is no change.
pub proof fn law_a_straggler_after_the_end_stays_off_the_list(r: RegistryV, p: JsonV, now: i64)
    requires
        registry_wf(r),
        payload_session_id(p) matches Some(id) && r.sessions.contains_key(id) && r.sessions[id].state
            == SessionState::Ended,
        crate::state::event_of(p) != crate::state::HookEvent::SessionStart,
    ensures
        !hook_apply(r, p, now).1,
        hook_apply(r, p, now).0.sessions == r.sessions,
        hook_apply(r, p, now).0.bindings == r.bindings,
        hook_apply(r, p, now).0.selected == r.selected,
{
    let id = payload_session_id(p)->0;
    assert(r.sessions.insert(id, r.sessions[id]) =~= r.sessions);
    assert(!r.bindings.contains(id)) by {
        if r.bindings.contains(id) {
            let j = choose|j: int| 0 <= j < r.bindings.len() && r.bindings[j] == id;
            assert(r.sessions[r.bindings[j]].state != SessionState::Ended);
        }
    }
}

/// When a row leaves the list, the selection stays on the same session,
/// or clears when that session's row was the one leaving.
pub proof fn law_selection_follows_its_session_when_a_row_leaves(r: RegistryV, id: Seq<char>)
    requires
        registry_wf(r),
        r.selected is Some,
    ensures
        r.bindings[r.selected->0 as int] == id ==> unbind_step(r, id).0.selected is None,
        r.bindings[r.selected->0 as int] != id ==> (unbind_step(r, id).0.selected matches Some(t) && t
            < unbind_step(r, id).0.bindings.len() && unbind_step(r, id).0.bindings[t as int] == r.bindings[r.selected->0 as int]),
{
    let sel = r.selected->0 as int;
    if r.bindings.contains(id) {
        let p = pos_in(r.bindings, id);
        if r.bindings[sel] == id {
            if sel != p {
                if sel < p {
                    assert(r.bindings[sel] != r.bindings[p]);
                } else {
                    assert(r.bindings[p] != r.bindings[sel]);
                }
            }
        }
    } else {
        if r.bindings[sel] == id {
            assert(r.bindings.contains(id));
        }
    }
}

proof fn lemma_kept_prefix(b: Seq<Seq<char>>, gone: spec_fn(Seq<char>) -> bool, m: int, n: int)
    requires
        0 <= m <= n <= b.len(),
    ensures
        kept(b.take(m), gone).len() <= kept(b.take(n), gone).len(),
        forall|i: int| 0 <= i < kept(b.take(m), gone).len() ==> #[trigger] kept(b.take(n), gone)[i] == kept(b.take(m), gone)[i],
    decreases n - m,
{
    if m < n {
        lemma_kept_prefix(b, gone, m, n - 1);
        assert(b.take(n).drop_last() =~= b.take(n - 1));
    }
}

/// An immediate second tick over the registry finds nothing left to
/// change: the rows whose process was gone have left, and every bound
/// session has already taken its tick for this moment.
pub proof fn law_a_second_tick_at_once_changes_nothing(r: RegistryV, now: i64)
    requires
        registry_wf(r),
    ensures
        !tick_changed(tick_apply(r, now), now),
{
    let r1 = tick_apply(r, now);
    let gone = |k: Seq<char>| exited(r, k);
    lemma_kept(r.bindings, gone);
    assert forall|i: int| 0 <= i < r1.bindings.len() implies !(exited(r1, #[trigger] r1.bindings[i])
        || tick_session(r1, r1.bindings[i], now).1) by {
        let k = r1.bindings[i];
        assert(r1.bindings.contains(k));
        assert(r.bindings.contains(k) && !exited(r, k));
        assert(r1.watches.contains_key(k) == r.watches.contains_key(k));
        law_a_session_ticks_once_per_moment(r.sessions[k], now, r.watches.contains_key(k));
    }
}

/// When rows leave the list together (a prune, or the tick's exited
/// processes), the selection stays on the same session, or clears when
/// that session's row left.
pub proof fn law_selection_follows_its_session_through_removals(
    b: Seq<Seq<char>>,
    sel: usize,
    gone: spec_fn(Seq<char>) -> bool,
)
    requires
        sel < b.len(),
    ensures
        gone(b[sel as int]) ==> sel_after(b, Some(sel), gone) is None,
        !gone(b[sel as int]) ==> (sel_after(b, Some(sel), gone) matches Some(t) && t < kept(b, gone).len() && kept(
            b,
            gone,
        )[t as int] == b[sel as int]),
{
    if !gone(b[sel as int]) {
        let s = sel as int;
        lemma_kept(b.take(s), gone);
        assert(b.take(s + 1).drop_last() =~= b.take(s));
        assert(b.take(s + 1).last() == b[s]);
        lemma_kept_prefix(b, gone, s + 1, b.len() as int);
        assert(b.take(b.len() as int) =~= b);
        let t = kept(b.take(s), gone).len();
        assert(kept(b.take(s + 1), gone).len() == t + 1);
        assert(kept(b.take(s + 1), gone)[t as int] == b[s]);
        assert(kept(b.take(b.len() as int), gone)[t as int] == kept(b.take(s + 1), gone)[t as int]);
        assert(kept(b.take(b.len() as int), gone) == kept(b, gone));
    }
}

/// A click resolves by identity: the row selected is the clicked
/// session's own current row, and the request names that session.
pub proof fn law_activation_selects_the_clicked_session(r: RegistryV, id: Seq<char>, now: i64)
    requires
        registry_wf(r),
        r.bindings.contains(id),
    ensures
        select_apply(r, pos_in(r.bindings, id) as usize, now).0.selected == Some(pos_in(r.bindings, id) as usize),
        select_apply(r, pos_in(r.bindings, id) as usize, now).0.bindings[pos_in(r.bindings, id)] == id,
        request_for(select_apply(r, pos_in(r.bindings, id) as usize, now).0.sessions[id]).session_id == id,
{
    let p = pos_in(r.bindings, id);
    assert(r.sessions.contains_key(r.bindings[p]));
    lemma_steps_keep_id(r.sessions[id], JsonV::Null, None, now, false);
}

/// A prune never drops a row the enumeration listed, one heard from by a
/// hook inside the grace window, or one a held handle says is alive;
/// and it never drops a session record.
pub proof fn law_prune_keeps_the_listed_the_recent_and_the_alive(
    r: RegistryV,
    present: Seq<Seq<char>>,
    now: i64,
    id: Seq<char>,
)
    requires
        registry_wf(r),
        r.bindings.contains(id),
        present.contains(id) || recent_hook(r, id, now) || alive(r, id),
    ensures
        prune_apply(r, present, now).0.bindings.contains(id),
        prune_apply(r, present, now).0.sessions == r.sessions,
{
    lemma_kept(r.bindings, prunable(r, present, now));
}

/// The tick unbinds exactly the rows whose process a held handle reports
/// gone, and ends exactly those sessions.
pub proof fn law_the_tick_unbinds_exactly_the_exited(r: RegistryV, now: i64, id: Seq<char>)
    requires
        registry_wf(r),
    ensures
        tick_apply(r, now).bindings.contains(id) <==> (r.bindings.contains(id) && !exited(r, id)),
        r.bindings.contains(id) && exited(r, id) ==> tick_apply(r, now).sessions[id].state == SessionState::Ended,
{
    lemma_kept(r.bindings, |k: Seq<char>| exited(r, k));
    if r.bindings.contains(id) {
        let j = choose|j: int| 0 <= j < r.bindings.len() && r.bindings[j] == id;
        assert(r.sessions.contains_key(r.bindings[j]));
    }
}

/// Enumeration never touches a session the hooks saw end: not rebound,
/// not given a pid, not recoloured, no change reported.
pub proof fn law_enumeration_leaves_an_ended_session_alone(
    r: RegistryV,
    id: Seq<char>,
    name: Option<Seq<char>>,
    cwd: Option<Seq<char>>,
    pid: Option<u32>,
    status: Option<Seq<char>>,
    now: i64,
)
    requires
        r.sessions.contains_key(id),
        r.sessions[id].state == SessionState::Ended,
    ensures
        enumerate_apply(r, id, name, cwd, pid, status, now) == (r, false),
{
}

/// A real name, once seen, outlives every later scan row: a cwd-only row
/// or another name never replaces it.
pub proof fn law_a_real_name_outlives_later_rows(
    e: SessionV,
    name: Option<Seq<char>>,
    cwd: Option<Seq<char>>,
    pid: Option<u32>,
    status: Option<Seq<char>>,
    now: i64,
)
    requires
        !e.label_is_derived,
        e.label.len() > 0,
    ensures
        row_step(e, name, cwd, pid, status, now).0.label == e.label,
        !row_step(e, name, cwd, pid, status, now).0.label_is_derived,
{
}

/// A scan row's cwd is the session's own and always wins; a pid it
/// reports replaces the stored one, and a row without one keeps it; with
/// no scan status the colour does not move.
pub proof fn law_a_scan_row_sets_cwd_and_pid(
    e: SessionV,
    name: Option<Seq<char>>,
    cwd: Option<Seq<char>>,
    pid: Option<u32>,
    status: Option<Seq<char>>,
    now: i64,
)
    ensures
        cwd matches Some(c) ==> row_step(e, name, cwd, pid, status, now).0.cwd == Some(c),
        cwd is None ==> row_step(e, name, cwd, pid, status, now).0.cwd == e.cwd,
        pid matches Some(p) ==> row_step(e, name, cwd, pid, status, now).0.pid == Some(p),
        pid is None ==> row_step(e, name, cwd, pid, status, now).0.pid == e.pid,
        status is None ==> row_step(e, name, cwd, pid, status, now).0.state == e.state,
{
}

proof fn lemma_row_twice(e: SessionV, name: Option<Seq<char>>, cwd: Option<Seq<char>>, pid: Option<u32>, now: i64)
    requires
        e.scan_disagreements == 0,
        e.last_seen_ms == now,
        e.scan_status is None,
        pid matches Some(p) ==> e.pid == Some(p),
        cwd matches Some(c) ==> e.cwd == Some(c) && (e.label_is_derived ==> e.label == dir_name_spec(c)) && (
        e.label.len() == 0 ==> e.label_is_derived && e.label == dir_name_spec(c)),
        name matches Some(n) ==> (n.len() > 0 ==> e.label.len() > 0 && !e.label_is_derived),
    ensures
        row_step(e, name, cwd, pid, None, now) == (e, false, false),
{
    let (e2, c1) = scan_step(SessionV { last_seen_ms: now, scan_status: None, ..e }, None, now);
    assert(SessionV { last_seen_ms: now, scan_status: None, ..e } == e);
    assert(e2 == e);
}

proof fn lemma_row_not_ended(r: RegistryV, id: Seq<char>, name: Option<Seq<char>>, cwd: Option<Seq<char>>, pid: Option<u32>, now: i64)
    requires
        !(r.sessions.contains_key(id) && r.sessions[id].state == SessionState::Ended),
    ensures
        enumerate_apply(r, id, name, cwd, pid, None, now).0.sessions[id].state != SessionState::Ended,
{
}

/// `Registry::register_enumerated` called a second time with the same
/// row and no scan status returns false and leaves the registry (its
/// sessions, bindings, selection, watches and probes) exactly as the
/// first call left it: a repeated identical scan never keeps the board
/// repainting.
pub proof fn law_the_same_scan_row_twice_changes_nothing(
    r: RegistryV,
    id: Seq<char>,
    name: Option<Seq<char>>,
    cwd: Option<Seq<char>>,
    pid: Option<u32>,
    now: i64,
)
    ensures
        enumerate_apply(enumerate_apply(r, id, name, cwd, pid, None, now).0, id, name, cwd, pid, None, now) == (
        enumerate_apply(r, id, name, cwd, pid, None, now).0, false),
{
    let r1 = enumerate_apply(r, id, name, cwd, pid, None, now).0;
    if r.sessions.contains_key(id) && r.sessions[id].state == SessionState::Ended {
    } else {
        let e1 = r1.sessions[id];
        law_enumeration_binds_what_it_sees(r, id, name, cwd, pid, None, now);
        lemma_row_twice(e1, name, cwd, pid, now);
        lemma_row_not_ended(r, id, name, cwd, pid, now);
        assert(r1.sessions.insert(id, e1) =~= r1.sessions);
    }
}

/// A session the enumeration names joins the list, whichever channel saw
/// it first, unless the hooks saw it end.
pub proof fn law_enumeration_binds_what_it_sees(
    r: RegistryV,
    id: Seq<char>,
    name: Option<Seq<char>>,
    cwd: Option<Seq<char>>,
    pid: Option<u32>,
    status: Option<Seq<char>>,
    now: i64,
)
    requires
        !(r.sessions.contains_key(id) && r.sessions[id].state == SessionState::Ended),
    ensures
        enumerate_apply(r, id, name, cwd, pid, status, now).0.bindings.contains(id),
        enumerate_apply(r, id, name, cwd, pid, status, now).0.sessions.contains_key(id),
{
    let (s, ch, pc) = if r.sessions.contains_key(id) {
        row_step(r.sessions[id], name, cwd, pid, status, now)
    } else {
        (new_row(id, name, cwd, pid, status, now), true, pid is Some)
    };
    let r1 = RegistryV { sessions: r.sessions.insert(id, s), ..r };
    let r2 = if pc {
        RegistryV { watches: r1.watches.remove(id), probes: r1.probes.push((id, pid->0)), ..r1 }
    } else {
        r1
    };
    if !r2.bindings.contains(id) {
        assert(r2.bindings.push(id)[r2.bindings.len() as int] == id);
    }
}

/// The tiles are numbered by their position among the rows shown.
pub proof fn law_tiles_are_numbered_in_order(r: RegistryV, n: int)
    requires
        n <= usize::MAX,
    ensures
        forall|j: int| 0 <= j < tiles_upto(r, n).len() ==> (#[trigger] tiles_upto(r, n)[j]).index == j,
    decreases n,
{
    if n > 0 {
        law_tiles_are_numbered_in_order(r, n - 1);
        lemma_tiles_len(r, n - 1);
        let prev = tiles_upto(r, n - 1);
        assert forall|j: int| 0 <= j < tiles_upto(r, n).len() implies (#[trigger] tiles_upto(r, n)[j]).index == j by {
            if j < prev.len() {
                assert(tiles_upto(r, n)[j] == prev[j]);
            }
        }
    }
}

/// The grey toggle never removes a tile from the snapshot: the surface
/// decides what to draw.
pub proof fn law_the_grey_toggle_never_removes_a_tile(r: RegistryV, n: int)
    ensures
        tiles_upto(r, n) == tiles_upto(RegistryV { hide_unknown: !r.hide_unknown, ..r }, n),
    decreases n,
{
    let r2 = RegistryV { hide_unknown: !r.hide_unknown, ..r };
    assert(cands_of(r) =~= cands_of(r2));
    if n > 0 {
        law_the_grey_toggle_never_removes_a_tile(r, n - 1);
        assert(hidden_row(r, r.bindings[n - 1]) == hidden_row(r2, r2.bindings[n - 1]));
    }
}

// ---- The saved list ------------------------------------------------

impl Registry {
    /// The bound list as saved rows, in order.
    pub fn saved_bindings(&self) -> (out: Vec<SavedBinding>)
        requires
            self.wf(),
        ensures
            saved_view(out@) == self@.bindings.map_values(|id: Seq<char>| saved_of(self@, id)),
    {
        let ghost r = self@;
        let mut out: Vec<SavedBinding> = Vec::new();
        let mut k: usize = 0;
        while k < self.bindings.len()
            invariant
                self.wf(),
                r == self@,
                k <= r.bindings.len(),
                out@.len() == k,
                forall|j: int| 0 <= j < k ==> (#[trigger] out@[j])@ == saved_of(r, r.bindings[j]),
            decreases r.bindings.len() - k,
        {
            let id = self.bindings[k].clone();
            proof {
                assert(r.bindings[k as int] == id@);
            }
            let (label, derived) = match self.session(id.as_str()) {
                Some(s) => (s.label.clone(), s.label_is_derived),
                None => (String::new(), true),
            };
            out.push(SavedBinding { id, label, derived });
            k = k + 1;
        }
        proof {
            assert(saved_view(out@) =~= r.bindings.map_values(|id: Seq<char>| saved_of(r, id)));
        }
        out
    }

    /// Restore the saved list (see `restore_one`): the rows are the right
    /// rows under the right names, grey until an event or a scan says
    /// more. A legacy empty slot is skipped.
    pub fn restore_bindings(&mut self, saved: &[Option<SavedBinding>], now_ms: i64)
        requires
            old(self).wf(),
        ensures
            final(self).wf(),
            final(self)@ == restore_all(old(self)@, present_saved(opt_saved_view(saved@)), now_ms),
    {
        let ghost r0 = self@;
        let ghost sv = opt_saved_view(saved@);
        let mut i: usize = 0;
        while i < saved.len()
            invariant
                self.wf(),
                sv == opt_saved_view(saved@),
                i <= saved@.len(),
                self@ == restore_all(r0, present_saved(sv.take(i as int)), now_ms),
            decreases saved@.len() - i,
        {
            proof {
                assert(sv.take(i + 1).drop_last() =~= sv.take(i as int));
            }
            if let Some(b) = &saved[i] {
                let ghost before = self@;
                self.restore_one_binding(b, now_ms);
                proof {
                    assert(present_saved(sv.take(i + 1)) == present_saved(sv.take(i as int)).push(b@));
                    assert(present_saved(sv.take(i + 1)).drop_last() =~= present_saved(sv.take(i as int)));
                }
            } else {
                proof {
                    assert(present_saved(sv.take(i + 1)) == present_saved(sv.take(i as int)));
                }
            }
            i = i + 1;
        }
        proof {
            assert(sv.take(sv.len() as int) =~= sv);
        }
    }

    fn restore_one_binding(&mut self, b: &SavedBinding, now_ms: i64)
        requires
            old(self).wf(),
        ensures
            final(self).wf(),
            final(self)@ == restore_one(old(self)@, b@, now_ms),
    {
        let id = b.id.as_str();
        if self.session(id).is_none() {
            self.ensure_session_with(id, b.label.as_str(), b.derived, now_ms);
        }
        let ended = match self.session(id) {
            Some(s) => s.state == SessionState::Ended,
            None => true,
        };
        if !self.is_bound(id) && !ended {
            self.auto_bind(id);
        }
    }
}

} // verus!
