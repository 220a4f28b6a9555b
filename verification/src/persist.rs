//! What the daemon keeps on disk, as values: the contact file the shim
//! reads, the settings, the window position, and the bound list. Where
//! the files live, reading and writing them atomically, and turning the
//! values into JSON are the application's.

use vstd::prelude::*;

use crate::decimal::{decimal_u64, digits_of};
use crate::registry::RegistryV;
use crate::state::{SessionV, SessionState, new_spec};
use crate::text::owned;

verus! {

/// The contact file's bytes: `{"port":<port>,"token":"<token>"}`. The
/// shim parses this by hand, so the exact shape is a contract, not an
/// encoding choice.
pub open spec fn contact_spec(port: u16, token: Seq<char>) -> Seq<char> {
    "{\"port\":"@ + digits_of(port as nat) + ",\"token\":\""@ + token + "\"}"@
}

pub fn contact_body(port: u16, token: &str) -> (body: String)
    ensures
        body@ == contact_spec(port, token@),
{
    proof {
        reveal_strlit("{\"port\":");
        reveal_strlit(",\"token\":\"");
        reveal_strlit("\"}");
    }
    let mut body = owned("{\"port\":");
    let p = decimal_u64(port as u64);
    body = body.concat(p.as_str());
    body = body.concat(",\"token\":\"");
    body = body.concat(token);
    body = body.concat("\"}");
    body
}

/// The header's grey toggle and the panel's always-on-top switch.
#[derive(Debug, Clone, Copy, PartialEq, Eq, Structural)]
pub struct Settings {
    pub hide_unknown: bool,
    pub always_on_top: bool,
}

impl Default for Settings {
    /// No file, a corrupt one, or one predating a field: nothing hidden,
    /// always on top.
    fn default() -> (s: Self)
        ensures
            s == (Settings { hide_unknown: false, always_on_top: true }),
    {
        Settings { hide_unknown: false, always_on_top: true }
    }
}

/// The window's saved position.
#[derive(Debug, Clone, Copy, PartialEq, Eq, Structural)]
pub struct WindowPos {
    pub x: i32,
    pub y: i32,
}

/// One saved row: its id, its label, and whether that label was only
/// derived from the cwd (so a real name may still replace it).
#[derive(Debug)]
pub struct SavedBinding {
    pub id: String,
    pub label: String,
    pub derived: bool,
}

pub struct SavedBindingV {
    pub id: Seq<char>,
    pub label: Seq<char>,
    pub derived: bool,
}

impl View for SavedBinding {
    type V = SavedBindingV;

    open spec fn view(&self) -> SavedBindingV {
        SavedBindingV { id: self.id@, label: self.label@, derived: self.derived }
    }
}

pub open spec fn saved_view(v: Seq<SavedBinding>) -> Seq<SavedBindingV> {
    v.map_values(|b: SavedBinding| b@)
}

/// The saved row for a bound id.
pub open spec fn saved_of(r: RegistryV, id: Seq<char>) -> SavedBindingV {
    SavedBindingV {
        id: id,
        label: if r.sessions.contains_key(id) {
            r.sessions[id].label
        } else {
            Seq::empty()
        },
        derived: if r.sessions.contains_key(id) {
            r.sessions[id].label_is_derived
        } else {
            true
        },
    }
}

/// One saved row per saved entry, in order; a legacy empty slot skipped.
pub open spec fn present_saved(saved: Seq<Option<SavedBindingV>>) -> Seq<SavedBindingV>
    decreases saved.len(),
{
    if saved.len() == 0 {
        Seq::empty()
    } else {
        let r = present_saved(saved.drop_last());
        match saved.last() {
            Some(b) => r.push(b),
            None => r,
        }
    }
}

/// One saved row restored: a placeholder session for an id the registry
/// has never seen (unknown, the saved label and its derived flag), and
/// the row bound unless it is already, or its session has ended.
pub open spec fn restore_one(r: RegistryV, b: SavedBindingV, now: i64) -> RegistryV {
    let r1 = if r.sessions.contains_key(b.id) {
        r
    } else {
        RegistryV {
            sessions: r.sessions.insert(
                b.id,
                SessionV { label: b.label, label_is_derived: b.derived, ..new_spec(b.id, now) },
            ),
            ..r
        }
    };
    if r1.bindings.contains(b.id) || r1.sessions[b.id].state == SessionState::Ended {
        r1
    } else {
        RegistryV { bindings: r1.bindings.push(b.id), ..r1 }
    }
}

pub open spec fn restore_all(r: RegistryV, saved: Seq<SavedBindingV>, now: i64) -> RegistryV
    decreases saved.len(),
{
    if saved.len() == 0 {
        r
    } else {
        restore_one(restore_all(r, saved.drop_last(), now), saved.last(), now)
    }
}

pub open spec fn opt_saved_view(v: Seq<Option<SavedBinding>>) -> Seq<Option<SavedBindingV>> {
    v.map_values(|o: Option<SavedBinding>| match o {
        Some(b) => Some(b@),
        None => None,
    })
}


/// The rows a registry saves, in order.
pub open spec fn saved_list(r: RegistryV) -> Seq<SavedBindingV> {
    r.bindings.map_values(|id: Seq<char>| saved_of(r, id))
}

proof fn lemma_restore_prefix(r: RegistryV, e: RegistryV, now: i64, k: int)
    requires
        crate::registry::registry_wf(r),
        e.sessions == Map::<Seq<char>, SessionV>::empty(),
        e.bindings == Seq::<Seq<char>>::empty(),
        0 <= k <= r.bindings.len(),
    ensures
        restore_all(e, saved_list(r).take(k), now).bindings == r.bindings.take(k),
        forall|id: Seq<char>| #[trigger] restore_all(e, saved_list(r).take(k), now).sessions.contains_key(id)
            <==> r.bindings.take(k).contains(id),
        forall|i: int| 0 <= i < k ==> restore_all(e, saved_list(r).take(k), now).sessions[#[trigger] r.bindings[i]]
            == (SessionV {
            label: r.sessions[r.bindings[i]].label,
            label_is_derived: r.sessions[r.bindings[i]].label_is_derived,
            ..new_spec(r.bindings[i], now)
        }),
    decreases k,
{
    let sv = saved_list(r);
    if k == 0 {
        assert(sv.take(0) =~= Seq::<SavedBindingV>::empty());
        assert(r.bindings.take(0) =~= Seq::<Seq<char>>::empty());
    } else {
        lemma_restore_prefix(r, e, now, k - 1);
        assert(sv.take(k).drop_last() =~= sv.take(k - 1));
        let prev = restore_all(e, sv.take(k - 1), now);
        let id = r.bindings[k - 1];
        let b = sv.take(k).last();
        assert(b == saved_of(r, id));
        assert(r.sessions.contains_key(id));
        assert(!r.bindings.take(k - 1).contains(id)) by {
            if r.bindings.take(k - 1).contains(id) {
                let j = choose|j: int| 0 <= j < k - 1 && #[trigger] r.bindings.take(k - 1)[j] == id;
                assert(r.bindings[j] == r.bindings[k - 1]);
            }
        }
        assert(!prev.sessions.contains_key(id));
        assert(!prev.bindings.contains(id));
        assert(r.bindings.take(k) =~= r.bindings.take(k - 1).push(id));
        let next = restore_all(e, sv.take(k), now);
        assert forall|x: Seq<char>| #[trigger] next.sessions.contains_key(x) <==> r.bindings.take(k).contains(x) by {
            if x == id {
                assert(r.bindings.take(k)[k - 1] == id);
            } else {
                if r.bindings.take(k).contains(x) {
                    let j = choose|j: int| 0 <= j < k && #[trigger] r.bindings.take(k)[j] == x;
                    assert(j < k - 1);
                    assert(r.bindings.take(k - 1)[j] == x);
                }
                if r.bindings.take(k - 1).contains(x) {
                    let j = choose|j: int| 0 <= j < k - 1 && #[trigger] r.bindings.take(k - 1)[j] == x;
                    assert(r.bindings.take(k)[j] == x);
                }
            }
        }
        assert forall|i: int| 0 <= i < k implies next.sessions[#[trigger] r.bindings[i]] == (SessionV {
            label: r.sessions[r.bindings[i]].label,
            label_is_derived: r.sessions[r.bindings[i]].label_is_derived,
            ..new_spec(r.bindings[i], now)
        }) by {
            if i < k - 1 {
                assert(r.bindings[i] != id);
            }
        }
    }
}

/// A restart never loses a row: restoring what a registry saves into a
/// fresh registry binds the same ids in the same order, each under its
/// saved label, still replaceable by a real name exactly when it was,
/// and unknown until an event or a scan says more.
pub proof fn law_a_restart_restores_every_row(r: RegistryV, e: RegistryV, now: i64)
    requires
        crate::registry::registry_wf(r),
        e.sessions == Map::<Seq<char>, SessionV>::empty(),
        e.bindings == Seq::<Seq<char>>::empty(),
    ensures
        restore_all(e, saved_list(r), now).bindings == r.bindings,
        forall|i: int| 0 <= i < r.bindings.len() ==> {
            let s = #[trigger] restore_all(e, saved_list(r), now).sessions[r.bindings[i]];
            &&& s.label == r.sessions[r.bindings[i]].label
            &&& s.label_is_derived == r.sessions[r.bindings[i]].label_is_derived
            &&& s.state == SessionState::Unknown
        },
{
    let n = r.bindings.len() as int;
    lemma_restore_prefix(r, e, now, n);
    assert(saved_list(r).take(n) =~= saved_list(r));
    assert(r.bindings.take(n) =~= r.bindings);
}
} // verus!
