//! Cold start and the periodic rescan: the rows of the agent CLI's
//! `agents --json` listing, and their registration. Running the command is the
//! application's; reading its output and registering the rows is here.
//!
//! Registration also prunes: a bound session this run does not report is
//! dropped from the list (unless heard from inside the grace window, or
//! alive by a held handle). That is only sound for a run that succeeded,
//! which is why reading the output says `None` for output that is not a
//! list of rows rather than an empty list.

use vstd::prelude::*;

use crate::json::{Json, JsonV, JsonNumber, jget, ostr, ou64, oi64, parse_json, parsed_json, lemma_object_view, lemma_array_view};
use crate::registry::{Registry, RegistryV, enumerate_apply, started_apply, prune_apply, prunable, kept, bind_step, row_step, new_row};
use crate::state::{SessionState, SessionV, lemma_quiet_steps_never_end, scan_step};
use crate::state::opt_str;
use crate::text::{opt_text, texts};

verus! {

/// One row of the scan.
pub struct Row {
    pub id: String,
    pub name: Option<String>,
    pub cwd: Option<String>,
    pub pid: Option<u32>,
    /// The scan's own status ("busy", "shell", "idle", "waiting" so far);
    /// `None` when absent or not a string.
    pub status: Option<String>,
    /// `startedAt`, ms epoch; `None` when absent or not an integer.
    pub started_at_ms: Option<i64>,
}

pub struct RowV {
    pub id: Seq<char>,
    pub name: Option<Seq<char>>,
    pub cwd: Option<Seq<char>>,
    pub pid: Option<u32>,
    pub status: Option<Seq<char>>,
    pub started_at_ms: Option<i64>,
}

impl View for Row {
    type V = RowV;

    open spec fn view(&self) -> RowV {
        RowV {
            id: self.id@,
            name: opt_text(self.name),
            cwd: opt_text(self.cwd),
            pid: self.pid,
            status: opt_text(self.status),
            started_at_ms: self.started_at_ms,
        }
    }
}

pub open spec fn rows_view(rows: Seq<Row>) -> Seq<RowV> {
    rows.map_values(|r: Row| r@)
}

/// A row of the scan, read from one JSON element: it needs a string
/// `sessionId`; every other field is taken when it has the right type
/// (a `pid` as an unsigned integer, cut to 32 bits).
pub open spec fn row_of(v: JsonV) -> Option<RowV> {
    match ostr(jget(v, "sessionId"@)) {
        None => None,
        Some(id) => Some(
            RowV {
                id: id,
                name: ostr(jget(v, "name"@)),
                cwd: ostr(jget(v, "cwd"@)),
                pid: match ou64(jget(v, "pid"@)) {
                    Some(p) => Some(p as u32),
                    None => None,
                },
                status: ostr(jget(v, "status"@)),
                started_at_ms: oi64(jget(v, "startedAt"@)),
            },
        ),
    }
}

/// The rows of a list of elements, an element without a string
/// `sessionId` skipped.
pub open spec fn rows_of(elems: Seq<JsonV>) -> Seq<RowV>
    decreases elems.len(),
{
    if elems.len() == 0 {
        Seq::empty()
    } else {
        let r = rows_of(elems.drop_last());
        match row_of(elems.last()) {
            Some(row) => r.push(row),
            None => r,
        }
    }
}

/// The first field of an object holding an array.
pub open spec fn first_array(fields: Seq<(Seq<char>, JsonV)>, i: int) -> Option<Seq<JsonV>>
    decreases fields.len() - i,
{
    if i < 0 || i >= fields.len() {
        None
    } else {
        match fields[i].1 {
            JsonV::Array(a) => Some(a),
            _ => first_array(fields, i + 1),
        }
    }
}

/// The scan's rows from its JSON: a bare array, or the first array an
/// object wraps under any key; anything else is no answer at all.
pub open spec fn rows_from_json_spec(v: JsonV) -> Option<Seq<RowV>> {
    match v {
        JsonV::Array(a) => Some(rows_of(a)),
        JsonV::Object(f) => match first_array(f, 0) {
            Some(a) => Some(rows_of(a)),
            None => None,
        },
        _ => None,
    }
}

fn row_from(v: &Json) -> (r: Option<Row>)
    ensures
        match r {
            Some(row) => row_of(v@) == Some(row@),
            None => row_of(v@) is None,
        },
{
    let id = match v.get("sessionId") {
        Some(x) => match x.as_str() {
            Some(s) => s.clone(),
            None => return None,
        },
        None => return None,
    };
    let name = match v.get("name") {
        Some(x) => match x.as_str() {
            Some(s) => Some(s.clone()),
            None => None,
        },
        None => None,
    };
    let cwd = match v.get("cwd") {
        Some(x) => match x.as_str() {
            Some(s) => Some(s.clone()),
            None => None,
        },
        None => None,
    };
    let pid = match v.get("pid") {
        Some(x) => match x.as_u64() {
            Some(p) => {
                #[verifier::truncate]
                let q: u32 = p as u32;
                Some(q)
            },
            None => None,
        },
        None => None,
    };
    let status = match v.get("status") {
        Some(x) => match x.as_str() {
            Some(s) => Some(s.clone()),
            None => None,
        },
        None => None,
    };
    let started_at_ms = match v.get("startedAt") {
        Some(x) => x.as_i64(),
        None => None,
    };
    Some(Row { id, name, cwd, pid, status, started_at_ms })
}

fn rows_from_elems(elems: &Vec<Json>) -> (out: Vec<Row>)
    ensures
        rows_view(out@) == rows_of(elems@.map_values(|e: Json| e@)),
{
    let ghost ev = elems@.map_values(|e: Json| e@);
    let mut out: Vec<Row> = Vec::new();
    let mut i: usize = 0;
    while i < elems.len()
        invariant
            ev == elems@.map_values(|e: Json| e@),
            i <= elems@.len(),
            rows_view(out@) == rows_of(ev.take(i as int)),
        decreases elems@.len() - i,
    {
        proof {
            assert(ev.take(i + 1).drop_last() =~= ev.take(i as int));
            assert(ev.take(i + 1).last() == elems@[i as int]@);
        }
        let ghost before = out@;
        if let Some(row) = row_from(&elems[i]) {
            out.push(row);
            proof {
                assert(rows_view(out@) =~= rows_view(before).push(out@[before.len() as int]@));
            }
        }
        i = i + 1;
    }
    proof {
        assert(ev.take(ev.len() as int) =~= ev);
    }
    out
}

/// The scan's rows from its parsed output (see `rows_from_json_spec`).
pub fn rows_from_json(v: &Json) -> (r: Option<Vec<Row>>)
    ensures
        match r {
            Some(rows) => rows_from_json_spec(v@) == Some(rows_view(rows@)),
            None => rows_from_json_spec(v@) is None,
        },
{
    match v {
        Json::Array(a) => {
            proof {
                lemma_array_view(*v);
                assert(v@->Array_0 =~= a@.map_values(|e: Json| e@));
            }
            Some(rows_from_elems(a))
        },
        Json::Object(fields) => {
            let ghost fv = v@->Object_0;
            proof {
                lemma_object_view(*v);
            }
            let mut i: usize = 0;
            while i < fields.len()
                invariant
                    fv == v@->Object_0,
                    v@ == (JsonV::Object(fv)),
                    fv.len() == fields@.len(),
                    forall|k: int| 0 <= k < fields@.len() ==> #[trigger] fv[k] == (fields@[k].0@, fields@[k].1@),
                    i <= fields@.len(),
                    first_array(fv, 0) == first_array(fv, i as int),
                decreases fields@.len() - i,
            {
                assert(fv[i as int] == (fields@[i as int].0@, fields@[i as int].1@));
                match &fields[i].1 {
                    Json::Array(a) => {
                        proof {
                            lemma_array_view(fields@[i as int].1);
                            assert(fields@[i as int].1@->Array_0 =~= a@.map_values(|e: Json| e@));
                        }
                        return Some(rows_from_elems(a));
                    },
                    _ => {
                        proof {
                            assert(!(fv[i as int].1 is Array)) by {
                                reveal_with_fuel(<Json as View>::view, 1);
                            }
                        }
                    },
                }
                i = i + 1;
            }
            None
        },
        _ => None,
    }
}

/// The scan's rows from its raw output: `None` for output that is not
/// JSON, or whose JSON holds no list of rows.
pub fn parse(stdout: &[u8]) -> (r: Option<Vec<Row>>)
    ensures
        match parsed_json(stdout@) {
            None => r is None,
            Some(v) => match r {
                Some(rows) => rows_from_json_spec(v) == Some(rows_view(rows@)),
                None => rows_from_json_spec(v) is None,
            },
        },
{
    match parse_json(stdout) {
        Some(v) => rows_from_json(&v),
        None => None,
    }
}

/// Every row registered in order, each followed by its `startedAt`.
pub open spec fn register_rows(r: RegistryV, rows: Seq<RowV>, now: i64) -> (RegistryV, bool)
    decreases rows.len(),
{
    if rows.len() == 0 {
        (r, false)
    } else {
        let (r1, c1) = register_rows(r, rows.drop_last(), now);
        let row = rows.last();
        let (r2, c2) = enumerate_apply(r1, row.id, row.name, row.cwd, row.pid, row.status, now);
        let (r3, c3) = started_apply(r2, row.id, row.started_at_ms);
        (r3, c1 || c2 || c3)
    }
}

pub open spec fn row_ids(rows: Seq<RowV>) -> Seq<Seq<char>> {
    rows.map_values(|row: RowV| row.id)
}

/// A successful run registered: every row, then a prune of the bound
/// sessions the run did not report.
pub open spec fn register_spec(r: RegistryV, rows: Seq<RowV>, now: i64) -> (RegistryV, bool) {
    let (r1, c1) = register_rows(r, rows, now);
    let (r2, c2) = prune_apply(r1, row_ids(rows), now);
    (r2, c1 || c2)
}

/// Register every row from a successful enumeration, then prune any
/// bound session this run does not report. Only for a run that
/// succeeded: an empty list taken at face value prunes everything.
pub fn register(reg: &mut Registry, rows: &[Row], now_ms: i64) -> (changed: bool)
    requires
        old(reg).wf(),
    ensures
        final(reg).wf(),
        final(reg)@ == register_spec(old(reg)@, rows_view(rows@), now_ms).0,
        changed == register_spec(old(reg)@, rows_view(rows@), now_ms).1,
{
    let ghost r0 = reg@;
    let ghost rv = rows_view(rows@);
    let mut changed = false;
    let mut present: Vec<String> = Vec::new();
    let mut i: usize = 0;
    while i < rows.len()
        invariant
            reg.wf(),
            rv == rows_view(rows@),
            i <= rows@.len(),
            (reg@, changed) == register_rows(r0, rv.take(i as int), now_ms),
            texts(present@) == row_ids(rv.take(i as int)),
        decreases rows@.len() - i,
    {
        let row = &rows[i];
        proof {
            assert(rv.take(i + 1).drop_last() =~= rv.take(i as int));
            assert(rv.take(i + 1).last() == row@);
        }
        let ghost pv = present@;
        present.push(row.id.clone());
        proof {
            assert(texts(present@) =~= texts(pv).push(row.id@));
            assert(row_ids(rv.take(i + 1)) =~= row_ids(rv.take(i as int)).push(row.id@));
        }
        let name = match &row.name {
            Some(n) => Some(n.as_str()),
            None => None,
        };
        let cwd = match &row.cwd {
            Some(c) => Some(c.as_str()),
            None => None,
        };
        let status = match &row.status {
            Some(s) => Some(s.as_str()),
            None => None,
        };
        let c2 = reg.register_enumerated(row.id.as_str(), name, cwd, row.pid, status, now_ms);
        let c3 = reg.note_started_at(row.id.as_str(), row.started_at_ms);
        changed = changed || c2 || c3;
        i = i + 1;
    }
    proof {
        assert(rv.take(rv.len() as int) =~= rv);
    }
    let c4 = reg.prune_missing(present.as_slice(), now_ms);
    changed || c4
}


/// Every row registered so far names a session that is listed or that
/// the hooks saw end.
pub open spec fn rows_accounted(r: RegistryV, rows: Seq<RowV>) -> bool {
    forall|k: int|
        0 <= k < rows.len() ==> r.sessions.contains_key(#[trigger] rows[k].id) && (r.sessions[rows[k].id].state
            == SessionState::Ended || r.bindings.contains(rows[k].id))
}

proof fn lemma_enumerate_keeps(
    r: RegistryV,
    id: Seq<char>,
    name: Option<Seq<char>>,
    cwd: Option<Seq<char>>,
    pid: Option<u32>,
    status: Option<Seq<char>>,
    now: i64,
    x: Seq<char>,
)
    requires
        r.sessions.contains_key(x),
        r.sessions[x].state == SessionState::Ended || r.bindings.contains(x),
    ensures
        enumerate_apply(r, id, name, cwd, pid, status, now).0.sessions.contains_key(x),
        enumerate_apply(r, id, name, cwd, pid, status, now).0.sessions[x].state == SessionState::Ended
            || enumerate_apply(r, id, name, cwd, pid, status, now).0.bindings.contains(x),
        enumerate_apply(r, id, name, cwd, pid, status, now).0.sessions.contains_key(id),
        enumerate_apply(r, id, name, cwd, pid, status, now).0.sessions[id].state == SessionState::Ended
            || enumerate_apply(r, id, name, cwd, pid, status, now).0.bindings.contains(id),
{
    if !(r.sessions.contains_key(id) && r.sessions[id].state == SessionState::Ended) {
        let (sv, ch, pc) = if r.sessions.contains_key(id) {
            row_step(r.sessions[id], name, cwd, pid, status, now)
        } else {
            (new_row(id, name, cwd, pid, status, now), true, pid is Some)
        };
        let r1 = RegistryV { sessions: r.sessions.insert(id, sv), ..r };
        let r2 = if pc {
            RegistryV { watches: r1.watches.remove(id), probes: r1.probes.push((id, pid->0)), ..r1 }
        } else {
            r1
        };
        if !r2.bindings.contains(id) {
            assert(r2.bindings.push(id)[r2.bindings.len() as int] == id);
        }
        if r.bindings.contains(x) && !r2.bindings.contains(id) {
            let j = choose|j: int| 0 <= j < r.bindings.len() && r.bindings[j] == x;
            assert(r2.bindings.push(id)[j] == x);
        }
    }
}

proof fn lemma_rows_accounted(r: RegistryV, rows: Seq<RowV>, now: i64, n: int)
    requires
        0 <= n <= rows.len(),
    ensures
        rows_accounted(register_rows(r, rows.take(n), now).0, rows.take(n)),
    decreases n,
{
    if n > 0 {
        lemma_rows_accounted(r, rows, now, n - 1);
        let prev = rows.take(n - 1);
        assert(rows.take(n).drop_last() =~= prev);
        let r1 = register_rows(r, prev, now).0;
        let row = rows[n - 1];
        assert(rows.take(n).last() == row);
        let r2 = enumerate_apply(r1, row.id, row.name, row.cwd, row.pid, row.status, now).0;
        let r3 = started_apply(r2, row.id, row.started_at_ms).0;
        assert forall|k: int| 0 <= k < n implies r3.sessions.contains_key(#[trigger] rows.take(n)[k].id) && (
        r3.sessions[rows.take(n)[k].id].state == SessionState::Ended || r3.bindings.contains(rows.take(n)[k].id)) by {
            let x = rows.take(n)[k].id;
            if k < n - 1 {
                assert(prev[k] == rows.take(n)[k]);
                lemma_enumerate_keeps(r1, row.id, row.name, row.cwd, row.pid, row.status, now, x);
            } else {
                assert(x == row.id);
                if r1.sessions.contains_key(x) && (r1.sessions[x].state == SessionState::Ended || r1.bindings.contains(x)) {
                    lemma_enumerate_keeps(r1, row.id, row.name, row.cwd, row.pid, row.status, now, x);
                } else if r1.sessions.contains_key(x) {
                    let e = r1.sessions[x];
                    let e1 = SessionV { last_seen_ms: now, scan_status: row.status, ..e };
                    lemma_quiet_steps_never_end(e1, row.status, now, false);
                    let sv = row_step(e, row.name, row.cwd, row.pid, row.status, now).0;
                    assert(sv.state == scan_step(e1, row.status, now).0.state);
                    lemma_bound_after(r1, row.id, row.name, row.cwd, row.pid, row.status, now);
                } else {
                    lemma_bound_after(r1, row.id, row.name, row.cwd, row.pid, row.status, now);
                }
            }
        }
    }
}

proof fn lemma_bound_after(
    r: RegistryV,
    id: Seq<char>,
    name: Option<Seq<char>>,
    cwd: Option<Seq<char>>,
    pid: Option<u32>,
    status: Option<Seq<char>>,
    now: i64,
)
    requires
        !(r.sessions.contains_key(id) && r.sessions[id].state == SessionState::Ended),
    ensures
        enumerate_apply(r, id, name, cwd, pid, status, now).0.sessions.contains_key(id),
        enumerate_apply(r, id, name, cwd, pid, status, now).0.bindings.contains(id),
{
    crate::registry::law_enumeration_binds_what_it_sees(r, id, name, cwd, pid, status, now);
}

/// A successful run lists every session it reports, unless the hooks saw
/// that session end: registering never leaves a reported, live session
/// off the list, and the prune that follows never drops one.
pub proof fn law_register_lists_every_reported_session(r: RegistryV, rows: Seq<RowV>, now: i64, k: int)
    requires
        0 <= k < rows.len(),
        register_spec(r, rows, now).0.sessions[rows[k].id].state != SessionState::Ended,
    ensures
        register_spec(r, rows, now).0.bindings.contains(rows[k].id),
{
    lemma_rows_accounted(r, rows, now, rows.len() as int);
    assert(rows.take(rows.len() as int) =~= rows);
    let r1 = register_rows(r, rows, now).0;
    let id = rows[k].id;
    assert(r1.sessions.contains_key(id));
    assert(row_ids(rows)[k] == id);
    assert(row_ids(rows).contains(id));
    if r1.sessions[id].state != SessionState::Ended {
        crate::registry::lemma_kept(r1.bindings, prunable(r1, row_ids(rows), now));
    }
}
} // verus!
