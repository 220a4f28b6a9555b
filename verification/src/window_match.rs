//! Reveal's pure decisions: which window, among those enumerated, best
//! fits a session (`pick`), which open VS Code workspace folder fits its
//! cwd (`match_workspace`), and the own-process filter. Raising a window
//! is the application's business; nothing here touches a window manager.

use vstd::prelude::*;
use vstd::string::StringSliceAdditionalSpecFns;

use std::collections::HashMap;

use crate::host::{is_terminal_spec, is_vscode_exe, is_vscode_spec, Host};
use crate::json::{jget, oarr, ou64, parse_json, parsed_json, Json, JsonV};
use crate::text::{
    chars_of, contains, contains_spec, eq_ignore_ascii_case, lowercase_spec, owned, string_of, texts, to_lowercase,
};

verus! {

broadcast use vstd::std_specs::hash::group_hash_axioms;

// ---- Path normalisation ------------------------------------------------

/// std's `char::is_whitespace` (the Unicode White_Space property).
pub open spec fn is_ws(c: char) -> bool {
    ('\u{9}' <= c && c <= '\u{d}') || c == ' ' || c == '\u{85}' || c == '\u{a0}' || c == '\u{1680}' || (
    '\u{2000}' <= c && c <= '\u{200a}') || c == '\u{2028}' || c == '\u{2029}' || c == '\u{202f}' || c
        == '\u{205f}' || c == '\u{3000}'
}

pub fn is_ws_char(c: char) -> (r: bool)
    ensures
        r == is_ws(c),
{
    ('\u{9}' <= c && c <= '\u{d}') || c == ' ' || c == '\u{85}' || c == '\u{a0}' || c == '\u{1680}' || (
    '\u{2000}' <= c && c <= '\u{200a}') || c == '\u{2028}' || c == '\u{2029}' || c == '\u{202f}' || c
        == '\u{205f}' || c == '\u{3000}'
}

/// First index at or after `i` that is not whitespace (or the length).
pub open spec fn lead_end(p: Seq<char>, i: int) -> int
    decreases p.len() - i,
{
    if i < 0 || i >= p.len() {
        if i < 0 {
            0
        } else {
            p.len() as int
        }
    } else if is_ws(p[i]) {
        lead_end(p, i + 1)
    } else {
        i
    }
}

/// End of `p[..n]` with trailing whitespace trimmed, never below `lo`.
pub open spec fn trail_end(p: Seq<char>, lo: int, n: int) -> int
    decreases n - lo,
{
    if n <= lo {
        lo
    } else if is_ws(p[n - 1]) {
        trail_end(p, lo, n - 1)
    } else {
        n
    }
}

/// std's `str::trim`.
pub open spec fn trim_spec(p: Seq<char>) -> Seq<char> {
    let a = lead_end(p, 0);
    p.subrange(a, trail_end(p, a, p.len() as int))
}

/// Every backslash turned into a forward slash.
pub open spec fn slashes(p: Seq<char>) -> Seq<char> {
    p.map_values(|c: char| if c == '\\' { '/' } else { c })
}

/// End of `p[..n]` with trailing `/` trimmed.
pub open spec fn slash_end(p: Seq<char>, n: int) -> int
    decreases n,
{
    if n <= 0 {
        0
    } else if p[n - 1] == '/' {
        slash_end(p, n - 1)
    } else {
        n
    }
}

/// A path in a form fit for comparison: trimmed, backslashes turned to
/// forward slashes, lowercased, and trailing separators removed, so
/// `C:\Foo\` and `c:/foo` agree.
pub open spec fn normalize_spec(p: Seq<char>) -> Seq<char> {
    let l = lowercase_spec(slashes(trim_spec(p)));
    l.subrange(0, slash_end(l, l.len() as int))
}

proof fn lemma_lead_end(p: Seq<char>, i: int)
    requires
        0 <= i <= p.len(),
    ensures
        i <= lead_end(p, i) <= p.len(),
    decreases p.len() - i,
{
    if i < p.len() && is_ws(p[i]) {
        lemma_lead_end(p, i + 1);
    }
}

proof fn lemma_trail_end(p: Seq<char>, lo: int, n: int)
    requires
        0 <= lo <= n <= p.len(),
    ensures
        lo <= trail_end(p, lo, n) <= n,
    decreases n - lo,
{
    if n > lo && is_ws(p[n - 1]) {
        lemma_trail_end(p, lo, n - 1);
    }
}

proof fn lemma_slash_end(p: Seq<char>, n: int)
    requires
        0 <= n <= p.len(),
    ensures
        0 <= slash_end(p, n) <= n,
    decreases n,
{
    if n > 0 && p[n - 1] == '/' {
        lemma_slash_end(p, n - 1);
    }
}

/// A text that neither starts nor ends with whitespace is its own trim.
pub proof fn lemma_trim_plain(p: Seq<char>)
    requires
        p.len() > 0,
        !is_ws(p[0]),
        !is_ws(p[p.len() - 1]),
    ensures
        trim_spec(p) == p,
{
    assert(lead_end(p, 0) == 0);
    assert(trail_end(p, 0, p.len() as int) == p.len());
    assert(p.subrange(0, p.len() as int) =~= p);
}

/// `str::trim`: leading and trailing whitespace removed.
pub fn trim(p: &str) -> (r: String)
    ensures
        r@ == trim_spec(p@),
{
    let cs = chars_of(p);
    let mut a: usize = 0;
    while a < cs.len() && is_ws_char(cs[a])
        invariant
            a <= cs@.len(),
            lead_end(cs@, 0) == lead_end(cs@, a as int),
        decreases cs@.len() - a,
    {
        a = a + 1;
    }
    let mut b: usize = cs.len();
    proof {
        lemma_trail_end(cs@, a as int, cs@.len() as int);
    }
    while b > a && is_ws_char(cs[b - 1])
        invariant
            a <= b <= cs@.len(),
            a == lead_end(cs@, 0),
            trail_end(cs@, a as int, cs@.len() as int) == trail_end(cs@, a as int, b as int),
        decreases b - a,
    {
        b = b - 1;
    }
    crate::text::string_of_range(&cs, a, b)
}

/// Normalise a path for comparison (see `normalize_spec`).
pub fn normalize_path(p: &str) -> (r: String)
    ensures
        r@ == normalize_spec(p@),
{
    let cs = chars_of(p);
    let mut a: usize = 0;
    while a < cs.len() && is_ws_char(cs[a])
        invariant
            a <= cs@.len(),
            lead_end(cs@, 0) == lead_end(cs@, a as int),
        decreases cs@.len() - a,
    {
        a = a + 1;
    }
    let mut b: usize = cs.len();
    proof {
        lemma_trail_end(cs@, a as int, cs@.len() as int);
    }
    while b > a && is_ws_char(cs[b - 1])
        invariant
            a <= b <= cs@.len(),
            a == lead_end(cs@, 0),
            trail_end(cs@, a as int, cs@.len() as int) == trail_end(cs@, a as int, b as int),
        decreases b - a,
    {
        b = b - 1;
    }
    // The trimmed text with backslashes turned to slashes.
    let mut out: Vec<char> = Vec::new();
    let mut i: usize = a;
    let ghost t = cs@.subrange(a as int, b as int);
    while i < b
        invariant
            a <= i <= b <= cs@.len(),
            t == cs@.subrange(a as int, b as int),
            out@ == slashes(t).take(i - a),
        decreases b - i,
    {
        let c = cs[i];
        out.push(if c == '\\' {
            '/'
        } else {
            c
        });
        i = i + 1;
        assert(out@ =~= slashes(t).take(i - a));
    }
    assert(slashes(t).take(b - a) =~= slashes(t));
    let replaced = string_of(out.as_slice());
    let lowered = to_lowercase(replaced.as_str());
    let ls = chars_of(lowered.as_str());
    let mut e: usize = ls.len();
    proof {
        lemma_slash_end(ls@, ls@.len() as int);
    }
    while e > 0 && ls[e - 1] == '/'
        invariant
            e <= ls@.len(),
            slash_end(ls@, ls@.len() as int) == slash_end(ls@, e as int),
        decreases e,
    {
        e = e - 1;
    }
    crate::text::string_of_range(&ls, 0, e)
}


// ---- A unique best ------------------------------------------------------

/// The largest key, never below `floor`.
pub open spec fn max_from(ks: Seq<int>, floor: int) -> int
    decreases ks.len(),
{
    if ks.len() == 0 {
        floor
    } else {
        let m = max_from(ks.drop_last(), floor);
        if ks.last() > m {
            ks.last()
        } else {
            m
        }
    }
}

/// How many keys equal `k`.
pub open spec fn count_of(ks: Seq<int>, k: int) -> nat
    decreases ks.len(),
{
    if ks.len() == 0 {
        0
    } else {
        count_of(ks.drop_last(), k) + if ks.last() == k {
            1nat
        } else {
            0nat
        }
    }
}

/// The position of the first key equal to `k` (the length when none).
pub open spec fn first_of(ks: Seq<int>, k: int) -> int
    decreases ks.len(),
{
    if ks.len() == 0 {
        0
    } else {
        let f = first_of(ks.drop_last(), k);
        if f < ks.len() - 1 {
            f
        } else if ks.last() == k {
            ks.len() - 1
        } else {
            ks.len() as int
        }
    }
}

proof fn lemma_count_above(ks: Seq<int>, floor: int, k: int)
    requires
        k > max_from(ks, floor),
    ensures
        count_of(ks, k) == 0,
    decreases ks.len(),
{
    if ks.len() > 0 {
        lemma_count_above(ks.drop_last(), floor, k);
    }
}

proof fn lemma_first_of(ks: Seq<int>, k: int)
    ensures
        0 <= first_of(ks, k) <= ks.len(),
        count_of(ks, k) > 0 ==> first_of(ks, k) < ks.len() && ks[first_of(ks, k)] == k,
        count_of(ks, k) == 0 ==> first_of(ks, k) == ks.len(),
    decreases ks.len(),
{
    if ks.len() > 0 {
        lemma_first_of(ks.drop_last(), k);
    }
}

proof fn lemma_max_from(ks: Seq<int>, floor: int)
    ensures
        max_from(ks, floor) >= floor,
        forall|i: int| 0 <= i < ks.len() ==> #[trigger] ks[i] <= max_from(ks, floor),
        max_from(ks, floor) > floor ==> count_of(ks, max_from(ks, floor)) > 0,
    decreases ks.len(),
{
    if ks.len() > 0 {
        lemma_max_from(ks.drop_last(), floor);
        assert forall|i: int| 0 <= i < ks.len() implies #[trigger] ks[i] <= max_from(ks, floor) by {
            if i < ks.len() - 1 {
                assert(ks[i] == ks.drop_last()[i]);
            }
        }
        let m0 = max_from(ks.drop_last(), floor);
        if !(ks.last() > m0) && m0 > floor {
            assert(count_of(ks.drop_last(), m0) > 0);
        }
    }
}

/// The running best over a prefix: its key, how many share it, and the
/// first that has it.
pub open spec fn tally(ks: Seq<int>, floor: int, best: int, count: nat, first: int) -> bool {
    &&& best == max_from(ks, floor)
    &&& count == count_of(ks, best)
    &&& best > floor ==> first == first_of(ks, best)
}

proof fn lemma_tally_step(ks: Seq<int>, floor: int, k: int, best: int, count: nat, first: int)
    requires
        tally(ks, floor, best, count, first),
    ensures
        k > best ==> tally(ks.push(k), floor, k, 1, ks.len() as int),
        k == best ==> tally(ks.push(k), floor, best, count + 1, first),
        k < best ==> tally(ks.push(k), floor, best, count, first),
{
    let ks2 = ks.push(k);
    assert(ks2.drop_last() =~= ks);
    if k > best {
        lemma_count_above(ks, floor, k);
        lemma_first_of(ks, k);
    }
    lemma_first_of(ks, best);
    lemma_max_from(ks, floor);
}

// ---- Which window ---------------------------------------------------------

/// One top-level window Reveal may raise.
#[derive(Debug)]
pub struct Candidate {
    pub hwnd: isize,
    pub title: String,
    pub pid: u32,
}

pub struct CandidateV {
    pub hwnd: isize,
    pub title: Seq<char>,
    pub pid: u32,
}

impl View for Candidate {
    type V = CandidateV;

    open spec fn view(&self) -> CandidateV {
        CandidateV { hwnd: self.hwnd, title: self.title@, pid: self.pid }
    }
}

impl Clone for Candidate {
    fn clone(&self) -> (r: Self)
        ensures
            r@ == self@,
    {
        Candidate { hwnd: self.hwnd, title: self.title.clone(), pid: self.pid }
    }
}

pub open spec fn windows_view(ws: Seq<Candidate>) -> Seq<CandidateV> {
    ws.map_values(|c: Candidate| c@)
}

/// The windows not owned by `own_pid`, in order.
pub open spec fn others(ws: Seq<CandidateV>, own_pid: u32) -> Seq<CandidateV>
    decreases ws.len(),
{
    if ws.len() == 0 {
        Seq::empty()
    } else {
        let r = others(ws.drop_last(), own_pid);
        if ws.last().pid != own_pid {
            r.push(ws.last())
        } else {
            r
        }
    }
}

/// Every window this very process owns removed before scoring, so the
/// board itself can never win (or tie) a Reveal; filtering by pid, not
/// by title, still finds a project that happens to be named Deckhand.
pub fn exclude_own_process(windows: Vec<Candidate>, own_pid: u32) -> (out: Vec<Candidate>)
    ensures
        windows_view(out@) == others(windows_view(windows@), own_pid),
{
    let ghost wv = windows_view(windows@);
    let mut out: Vec<Candidate> = Vec::new();
    let mut i: usize = 0;
    while i < windows.len()
        invariant
            wv == windows_view(windows@),
            i <= windows@.len(),
            windows_view(out@) == others(wv.take(i as int), own_pid),
        decreases windows@.len() - i,
    {
        proof {
            assert(wv.take(i + 1).drop_last() =~= wv.take(i as int));
            assert(wv.take(i + 1).last() == windows@[i as int]@);
        }
        if windows[i].pid != own_pid {
            let ghost o = out@;
            out.push(windows[i].clone());
            proof {
                assert(windows_view(out@) =~= windows_view(o).push(windows@[i as int]@));
            }
        }
        i = i + 1;
    }
    proof {
        assert(wv.take(wv.len() as int) =~= wv);
    }
    out
}

/// A window's score against a session: 4 for the session's own pid
/// (exact, not a guess), 2 for a title holding the label, 2 for one
/// holding the cwd's directory name; titles compared lowercased, and an
/// empty label or directory never counts.
pub open spec fn score_spec(c: CandidateV, label: Seq<char>, dir: Option<Seq<char>>, pid: Option<u32>) -> int {
    let t = lowercase_spec(c.title);
    let l = lowercase_spec(label);
    (if pid == Some(c.pid) {
        4int
    } else {
        0int
    }) + (if l.len() > 0 && contains_spec(t, l) {
        2int
    } else {
        0int
    }) + (match dir {
        Some(d) => if lowercase_spec(d).len() > 0 && contains_spec(t, lowercase_spec(d)) {
            2int
        } else {
            0int
        },
        None => 0int,
    })
}

pub open spec fn scores(ws: Seq<CandidateV>, label: Seq<char>, dir: Option<Seq<char>>, pid: Option<u32>) -> Seq<int> {
    Seq::new(ws.len(), |i: int| score_spec(ws[i], label, dir, pid))
}

/// The pick: nothing when no window scores; the window with the unique
/// top score; nothing, and ambiguous, when two or more share the top.
pub open spec fn pick_spec(ws: Seq<CandidateV>, label: Seq<char>, dir: Option<Seq<char>>, pid: Option<u32>) -> (
    Option<int>,
    bool,
) {
    let ks = scores(ws, label, dir, pid);
    let m = max_from(ks, 0);
    if m == 0 {
        (None, false)
    } else if count_of(ks, m) == 1 {
        (Some(first_of(ks, m)), false)
    } else {
        (None, true)
    }
}

fn lowered_chars(s: &str) -> (r: Vec<char>)
    ensures
        r@ == lowercase_spec(s@),
{
    let l = to_lowercase(s);
    chars_of(l.as_str())
}

fn score_of(c: &Candidate, label_lc: &Vec<char>, dir_lc: &Option<Vec<char>>, pid: Option<u32>, Ghost(label): Ghost<Seq<char>>, Ghost(dir): Ghost<Option<Seq<char>>>) -> (s: i32)
    requires
        label_lc@ == lowercase_spec(label),
        match dir {
            Some(d) => dir_lc matches Some(v) && v@ == lowercase_spec(d),
            None => dir_lc is None,
        },
    ensures
        s == score_spec(c@, label, dir, pid),
{
    let title_lc = lowered_chars(c.title.as_str());
    let mut score: i32 = 0;
    if let Some(p) = pid {
        if c.pid == p {
            score = score + 4;
        }
    }
    if label_lc.len() > 0 && contains(&title_lc, label_lc) {
        score = score + 2;
    }
    if let Some(d) = dir_lc {
        if d.len() > 0 && contains(&title_lc, d) {
            score = score + 2;
        }
    }
    score
}

/// The best window's index and whether a miss was a tie at the top (see
/// `pick_spec`).
pub fn pick_scored(windows: &[Candidate], label: &str, dir: Option<&str>, pid: Option<u32>) -> (r: (Option<(i32, usize)>, bool))
    ensures
        r.1 == pick_spec(windows_view(windows@), label@, crate::state::opt_str(dir), pid).1,
        match pick_spec(windows_view(windows@), label@, crate::state::opt_str(dir), pid).0 {
            Some(i) => r.0 matches Some((s, j)) && j == i && j < windows@.len() && s == score_spec(
                windows@[i]@,
                label@,
                crate::state::opt_str(dir),
                pid,
            ),
            None => r.0 is None,
        },
{
    let ghost wv = windows_view(windows@);
    let ghost d = crate::state::opt_str(dir);
    let ghost ks = scores(wv, label@, d, pid);
    let label_lc = lowered_chars(label);
    let dir_lc = match dir {
        Some(x) => Some(lowered_chars(x)),
        None => None,
    };
    let mut best: i32 = 0;
    let mut count: usize = 0;
    let mut first: usize = 0;
    let mut i: usize = 0;
    while i < windows.len()
        invariant
            wv == windows_view(windows@),
            ks == scores(wv, label@, d, pid),
            label_lc@ == lowercase_spec(label@),
            match d {
                Some(x) => dir_lc matches Some(v) && v@ == lowercase_spec(x),
                None => dir_lc is None,
            },
            i <= windows@.len(),
            0 <= best <= 8,
            count <= i,
            tally(ks.take(i as int), 0, best as int, count as nat, first as int),
        decreases windows@.len() - i,
    {
        let s = score_of(&windows[i], &label_lc, &dir_lc, pid, Ghost(label@), Ghost(d));
        proof {
            assert(ks.take(i + 1) =~= ks.take(i as int).push(s as int));
            assert(wv[i as int] == windows@[i as int]@);
            lemma_tally_step(ks.take(i as int), 0, s as int, best as int, count as nat, first as int);
        }
        if s > best {
            best = s;
            count = 1;
            first = i;
        } else if s == best {
            count = count + 1;
        }
        i = i + 1;
    }
    proof {
        assert(ks.take(ks.len() as int) =~= ks);
        lemma_first_of(ks, best as int);
    }
    if best == 0 {
        (None, false)
    } else if count == 1 {
        (Some((best, first)), false)
    } else {
        (None, true)
    }
}

/// The best window and its score, or `None` on no match or a tie at the
/// top (see `pick_spec`).
pub fn pick<'a>(windows: &'a [Candidate], label: &str, dir: Option<&str>, pid: Option<u32>) -> (r: Option<(i32, &'a Candidate)>)
    ensures
        match pick_spec(windows_view(windows@), label@, crate::state::opt_str(dir), pid).0 {
            Some(i) => r matches Some((s, c)) && *c == windows@[i] && s == score_spec(
                windows@[i]@,
                label@,
                crate::state::opt_str(dir),
                pid,
            ),
            None => r is None,
        },
{
    match pick_scored(windows, label, dir, pid).0 {
        Some((s, j)) => Some((s, &windows[j])),
        None => None,
    }
}

/// The pick is a window that scores, and strictly beats every other; a
/// window that scores nothing is never picked.
pub proof fn law_the_pick_strictly_beats_every_other(ws: Seq<CandidateV>, label: Seq<char>, dir: Option<Seq<char>>, pid: Option<u32>, j: int)
    requires
        pick_spec(ws, label, dir, pid).0 matches Some(i) && 0 <= j < ws.len() && j != i,
    ensures
        score_spec(ws[pick_spec(ws, label, dir, pid).0->0], label, dir, pid) > 0,
        score_spec(ws[pick_spec(ws, label, dir, pid).0->0], label, dir, pid) > score_spec(ws[j], label, dir, pid),
{
    let ks = scores(ws, label, dir, pid);
    let m = max_from(ks, 0);
    lemma_max_from(ks, 0);
    lemma_first_of(ks, m);
    let i = first_of(ks, m);
    assert(ks[j] <= m);
    if ks[j] == m {
        lemma_two_count(ks, m, i, j);
    }
}

proof fn lemma_two_count(ks: Seq<int>, k: int, i: int, j: int)
    requires
        0 <= i < ks.len(),
        0 <= j < ks.len(),
        i != j,
        ks[i] == k,
        ks[j] == k,
    ensures
        count_of(ks, k) >= 2,
    decreases ks.len(),
{
    let n = ks.len() - 1;
    if i == n || j == n {
        let o = if i == n { j } else { i };
        lemma_one_count(ks.drop_last(), k, o);
    } else {
        lemma_two_count(ks.drop_last(), k, i, j);
    }
}

proof fn lemma_one_count(ks: Seq<int>, k: int, i: int)
    requires
        0 <= i < ks.len(),
        ks[i] == k,
    ensures
        count_of(ks, k) >= 1,
    decreases ks.len(),
{
    if i < ks.len() - 1 {
        lemma_one_count(ks.drop_last(), k, i);
    }
}

// ---- Which VS Code workspace folder --------------------------------------

/// One IDE lock file's fields Reveal reads: the window's pid and its
/// open workspace folders. Nothing else from the file (its token in
/// particular) is ever kept.
#[derive(Debug)]
pub struct IdeLock {
    pub pid: u32,
    pub workspace_folders: Vec<String>,
}

pub struct IdeLockV {
    pub pid: u32,
    pub folders: Seq<Seq<char>>,
}

impl View for IdeLock {
    type V = IdeLockV;

    open spec fn view(&self) -> IdeLockV {
        IdeLockV { pid: self.pid, folders: crate::text::texts(self.workspace_folders@) }
    }
}

pub open spec fn locks_view(ls: Seq<IdeLock>) -> Seq<IdeLockV> {
    ls.map_values(|l: IdeLock| l@)
}

/// Every (pid, folder) pair across the locks, in order.
pub open spec fn flat_folders(locks: Seq<IdeLockV>) -> Seq<(u32, Seq<char>)>
    decreases locks.len(),
{
    if locks.len() == 0 {
        Seq::empty()
    } else {
        let l = locks.last();
        flat_folders(locks.drop_last()) + Seq::new(l.folders.len(), |j: int| (l.pid, l.folders[j]))
    }
}

/// `a` is `p` itself or a directory containing it, segment-bounded so
/// `/dev/a` never matches inside `/dev/ab`.
pub open spec fn is_ancestor_spec(a: Seq<char>, p: Seq<char>) -> bool {
    a == p || (p.len() > a.len() && p.take(a.len() as int) == a && p[a.len() as int] == '/')
}

/// A folder's length once normalised when it contains the (normalised)
/// cwd, and -1 when it does not.
pub open spec fn folder_key(f: Seq<char>, c: Seq<char>) -> int {
    let n = normalize_spec(f);
    if n.len() > 0 && is_ancestor_spec(n, c) {
        n.len() as int
    } else {
        -1
    }
}

pub open spec fn folder_keys(ps: Seq<(u32, Seq<char>)>, c: Seq<char>) -> Seq<int> {
    Seq::new(ps.len(), |i: int| folder_key(ps[i].1, c))
}

/// The workspace folder that best fits a session's cwd, across every
/// lock: an exact match or its longest ancestor. Two folders tied at
/// the top, from one lock or two, are ambiguous and give nothing, as
/// does an empty cwd or no fitting folder.
pub open spec fn match_spec(locks: Seq<IdeLockV>, cwd: Seq<char>) -> Option<(u32, Seq<char>)> {
    let c = normalize_spec(cwd);
    if c.len() == 0 {
        None
    } else {
        let ps = flat_folders(locks);
        let ks = folder_keys(ps, c);
        let m = max_from(ks, -1);
        if m >= 0 && count_of(ks, m) == 1 {
            Some(ps[first_of(ks, m)])
        } else {
            None
        }
    }
}

/// The matched folder is one the locks list, contains the cwd (is it or
/// an ancestor of it, segment by segment), and is strictly longer than
/// every other listed folder that also contains it: a tie never matches.
pub proof fn law_the_workspace_match_is_the_unique_longest_ancestor(locks: Seq<IdeLockV>, cwd: Seq<char>, j: int)
    requires
        match_spec(locks, cwd) is Some,
        0 <= j < flat_folders(locks).len(),
        j != first_of(folder_keys(flat_folders(locks), normalize_spec(cwd)), max_from(
            folder_keys(flat_folders(locks), normalize_spec(cwd)),
            -1,
        )),
    ensures
        ({
            let ps = flat_folders(locks);
            let c = normalize_spec(cwd);
            let f = match_spec(locks, cwd)->0;
            let n = normalize_spec(f.1);
            &&& c.len() > 0
            &&& n.len() > 0
            &&& is_ancestor_spec(n, c)
            &&& ps.contains(f)
            &&& (normalize_spec(ps[j].1).len() > 0 && is_ancestor_spec(normalize_spec(ps[j].1), c)) ==> normalize_spec(
                ps[j].1,
            ).len() < n.len()
        }),
{
    let ps = flat_folders(locks);
    let c = normalize_spec(cwd);
    let ks = folder_keys(ps, c);
    let m = max_from(ks, -1);
    lemma_max_from(ks, -1);
    lemma_first_of(ks, m);
    let i = first_of(ks, m);
    assert(ps[i] == match_spec(locks, cwd)->0);
    assert(ks[i] == folder_key(ps[i].1, c));
    assert(ks[j] == folder_key(ps[j].1, c));
    if ks[j] == m {
        lemma_two_count(ks, m, i, j);
    }
}

fn is_ancestor_of(ancestor: &Vec<char>, path: &Vec<char>) -> (r: bool)
    ensures
        r == is_ancestor_spec(ancestor@, path@),
{
    if crate::text::same_chars(ancestor, path) {
        return true;
    }
    if path.len() <= ancestor.len() {
        return false;
    }
    let mut i: usize = 0;
    while i < ancestor.len()
        invariant
            ancestor@.len() < path@.len(),
            i <= ancestor@.len(),
            forall|k: int| 0 <= k < i ==> path@[k] == ancestor@[k],
        decreases ancestor@.len() - i,
    {
        if path[i] != ancestor[i] {
            proof {
                assert(path@.take(ancestor@.len() as int)[i as int] != ancestor@[i as int]);
            }
            return false;
        }
        i = i + 1;
    }
    proof {
        assert(path@.take(ancestor@.len() as int) =~= ancestor@);
    }
    path[ancestor.len()] == '/'
}

/// The workspace folder that best fits a session's cwd (see
/// `match_spec`), with the pid of the window whose lock names it.
pub fn match_workspace<'a>(locks: &'a [IdeLock], cwd: &str) -> (r: Option<(u32, &'a str)>)
    ensures
        match match_spec(locks_view(locks@), cwd@) {
            Some((p, f)) => r matches Some((q, g)) && q == p && g@ == f,
            None => r is None,
        },
{
    let ghost lv = locks_view(locks@);
    let cwd_n = normalize_path(cwd);
    let c = chars_of(cwd_n.as_str());
    if c.len() == 0 {
        return None;
    }
    let ghost mut done: Seq<(u32, Seq<char>)> = Seq::empty();
    let ghost mut gcount: nat = 0;
    let ghost mut first: int = 0;
    let mut best: i128 = -1;
    let mut count: u8 = 0;
    let mut winner: Option<(usize, usize)> = None;
    let mut i: usize = 0;
    while i < locks.len()
        invariant
            lv == locks_view(locks@),
            c@ == normalize_spec(cwd@),
            i <= locks@.len(),
            done == flat_folders(lv.take(i as int)),
            -1 <= best,
            count == (if gcount >= 2 { 2 } else { gcount }),
            tally(folder_keys(done, c@), -1, best as int, gcount, first),
            best >= 0 ==> (winner matches Some((li, fi)) && li < locks@.len() && fi
                < locks@[li as int].workspace_folders@.len() && 0 <= first < done.len() && done[first] == (
            locks@[li as int].pid, locks@[li as int].workspace_folders@[fi as int]@)),
        decreases locks@.len() - i,
    {
        let lock = &locks[i];
        let ghost base = done;
        let ghost lvi = lv[i as int];
        proof {
            assert(lvi == lock@);
        }
        let mut j: usize = 0;
        while j < lock.workspace_folders.len()
            invariant
                lv == locks_view(locks@),
                lock == &locks@[i as int],
                lvi == lock@,
                i < locks@.len(),
                c@ == normalize_spec(cwd@),
                base == flat_folders(lv.take(i as int)),
                j <= lock.workspace_folders@.len(),
                done == base + Seq::new(j as nat, |k: int| (lvi.pid, lvi.folders[k])),
                -1 <= best,
                count == (if gcount >= 2 { 2 } else { gcount }),
                tally(folder_keys(done, c@), -1, best as int, gcount, first),
                best >= 0 ==> (winner matches Some((li, fi)) && li < locks@.len() && fi
                    < locks@[li as int].workspace_folders@.len() && 0 <= first < done.len() && done[first] == (
                locks@[li as int].pid, locks@[li as int].workspace_folders@[fi as int]@)),
            decreases lock.workspace_folders@.len() - j,
        {
            let folder = &lock.workspace_folders[j];
            let folder_n = normalize_path(folder.as_str());
            let fc = chars_of(folder_n.as_str());
            let qualifies = fc.len() > 0 && is_ancestor_of(&fc, &c);
            let key: i128 = if qualifies {
                fc.len() as i128
            } else {
                -1
            };
            let ghost nd = done.push((lvi.pid, lvi.folders[j as int]));
            proof {
                assert(lvi.folders[j as int] == folder@);
                assert(key == folder_key(folder@, c@));
                assert(folder_keys(nd, c@) =~= folder_keys(done, c@).push(key as int));
                lemma_tally_step(folder_keys(done, c@), -1, key as int, best as int, gcount, first);
                assert(nd =~= base + Seq::new((j + 1) as nat, |k: int| (lvi.pid, lvi.folders[k])));
            }
            if key > best {
                best = key;
                count = 1;
                winner = Some((i, j));
                proof {
                    gcount = 1;
                    first = done.len() as int;
                }
            } else if key == best {
                if count < 2 {
                    count = count + 1;
                }
                proof {
                    gcount = gcount + 1;
                }
            }
            proof {
                done = nd;
            }
            j = j + 1;
        }
        proof {
            assert(lv.take(i + 1).drop_last() =~= lv.take(i as int));
            assert(lv.take(i + 1).last() == lvi);
            assert(Seq::new(j as nat, |k: int| (lvi.pid, lvi.folders[k])) =~= Seq::new(
                lvi.folders.len(),
                |k: int| (lvi.pid, lvi.folders[k]),
            ));
        }
        i = i + 1;
    }
    proof {
        assert(lv.take(lv.len() as int) =~= lv);
        lemma_first_of(folder_keys(done, c@), best as int);
        lemma_max_from(folder_keys(done, c@), -1);
    }
    if best >= 0 && count == 1 {
        match winner {
            Some((li, fi)) => Some((locks[li].pid, locks[li].workspace_folders[fi].as_str())),
            None => None,
        }
    } else {
        None
    }
}

// ---- Reading a lock file ----------------------------------------------------

/// The string elements of a JSON array, in order; any other element is
/// skipped.
pub open spec fn strings_of(a: Seq<JsonV>) -> Seq<Seq<char>>
    decreases a.len(),
{
    if a.len() == 0 {
        Seq::empty()
    } else {
        let r = strings_of(a.drop_last());
        match a.last() {
            JsonV::Str(t) => r.push(t),
            _ => r,
        }
    }
}

/// A lock file as Reveal reads it: a `pid` that is an unsigned integer
/// (cut to 32 bits) is required; `workspaceFolders` gives its string
/// elements, and nothing when it is missing or not an array.
pub open spec fn ide_lock_spec(v: JsonV) -> Option<IdeLockV> {
    match ou64(jget(v, "pid"@)) {
        None => None,
        Some(p) => Some(
            IdeLockV {
                pid: p as u32,
                folders: match oarr(jget(v, "workspaceFolders"@)) {
                    Some(a) => strings_of(a),
                    None => Seq::empty(),
                },
            },
        ),
    }
}

/// The lock a parsed lock file describes (see `ide_lock_spec`).
pub fn ide_lock_from_json(v: &Json) -> (r: Option<IdeLock>)
    ensures
        match r {
            Some(l) => ide_lock_spec(v@) == Some(l@),
            None => ide_lock_spec(v@) is None,
        },
{
    let pid: u32 = match v.get("pid") {
        Some(x) => match x.as_u64() {
            Some(p) => {
                #[verifier::truncate]
                let q: u32 = p as u32;
                q
            },
            None => return None,
        },
        None => return None,
    };
    let mut folders: Vec<String> = Vec::new();
    if let Some(x) = v.get("workspaceFolders") {
        if let Some(a) = x.as_array() {
            let ghost av = a@.map_values(|e: Json| e@);
            let mut i: usize = 0;
            while i < a.len()
                invariant
                    av == a@.map_values(|e: Json| e@),
                    i <= a@.len(),
                    texts(folders@) == strings_of(av.take(i as int)),
                decreases a@.len() - i,
            {
                proof {
                    assert(av.take(i + 1).drop_last() =~= av.take(i as int));
                    assert(av.take(i + 1).last() == a@[i as int]@);
                }
                if let Some(t) = a[i].as_str() {
                    let ghost before = folders@;
                    folders.push(t.clone());
                    proof {
                        assert(texts(folders@) =~= texts(before).push(t@));
                    }
                }
                i = i + 1;
            }
            proof {
                assert(av.take(av.len() as int) =~= av);
            }
        }
    }
    proof {
        let want = match oarr(jget(v@, "workspaceFolders"@)) {
            Some(a) => strings_of(a),
            None => Seq::empty(),
        };
        assert(texts(folders@) =~= want);
    }
    Some(IdeLock { pid, workspace_folders: folders })
}

/// The lock a lock file's text describes: nothing when the text is not
/// JSON, else as `ide_lock_spec` reads the parsed value.
pub fn parse_ide_lock(text: &str) -> (r: Option<IdeLock>)
    ensures
        match parsed_json(text.spec_bytes()) {
            None => r is None,
            Some(v) => match r {
                Some(l) => ide_lock_spec(v) == Some(l@),
                None => ide_lock_spec(v) is None,
            },
        },
{
    match parse_json(text.as_bytes()) {
        Some(v) => ide_lock_from_json(&v),
        None => None,
    }
}

// ---- Hosts whose windows a pid cannot tell apart ----------------------------

/// Whether a process's exe names the given host's own window owner.
pub open spec fn exe_fits(exe: Seq<char>, host: Host) -> bool {
    match host {
        Host::VsCode => is_vscode_spec(exe),
        Host::WindowsTerminal => is_terminal_spec(exe),
        Host::Console => false,
    }
}

fn exe_fits_exec(exe: &str, host: Host) -> (r: bool)
    ensures
        r == exe_fits(exe@, host),
{
    match host {
        Host::VsCode => is_vscode_exe(exe),
        Host::WindowsTerminal => eq_ignore_ascii_case(exe, "windowsterminal.exe"),
        Host::Console => false,
    }
}

/// The windows whose owning process, looked up in `procs`, is the
/// host's own window owner, in order.
pub open spec fn host_owned(ws: Seq<CandidateV>, procs: Map<u32, (u32, String)>, host: Host) -> Seq<CandidateV>
    decreases ws.len(),
{
    if ws.len() == 0 {
        Seq::empty()
    } else {
        let r = host_owned(ws.drop_last(), procs, host);
        let c = ws.last();
        if procs.contains_key(c.pid) && exe_fits(procs[c.pid].1@, host) {
            r.push(c)
        } else {
            r
        }
    }
}

/// The windows owned by a VS Code or a Windows Terminal process (see
/// `host_owned`); a plain console owns none this way.
pub fn host_windows(windows: &[Candidate], procs: &HashMap<u32, (u32, String)>, host: Host) -> (out: Vec<Candidate>)
    ensures
        windows_view(out@) == host_owned(windows_view(windows@), procs@, host),
{
    let ghost wv = windows_view(windows@);
    let mut out: Vec<Candidate> = Vec::new();
    let mut i: usize = 0;
    while i < windows.len()
        invariant
            wv == windows_view(windows@),
            i <= windows@.len(),
            windows_view(out@) == host_owned(wv.take(i as int), procs@, host),
        decreases windows@.len() - i,
    {
        proof {
            assert(wv.take(i + 1).drop_last() =~= wv.take(i as int));
            assert(wv.take(i + 1).last() == windows@[i as int]@);
        }
        let fits = match procs.get(&windows[i].pid) {
            Some(entry) => exe_fits_exec(entry.1.as_str(), host),
            None => false,
        };
        if fits {
            let ghost o = out@;
            out.push(windows[i].clone());
            proof {
                assert(windows_view(out@) =~= windows_view(o).push(windows@[i as int]@));
            }
        }
        i = i + 1;
    }
    proof {
        assert(wv.take(wv.len() as int) =~= wv);
    }
    out
}

/// What Reveal does on a host whose windows a pid cannot tell apart.
#[derive(Debug, Clone, Copy, PartialEq, Eq, Structural)]
pub enum HostReveal {
    /// Raise this one window (an index into the host's windows).
    Raise(usize),
    /// No single window to raise, but the editor's own command line has
    /// already focused the folder's window.
    ByCli,
    /// No window fits.
    NoMatch,
    /// More than one window fits and none is more plausible.
    Several,
}

/// Windows Terminal: one window is raised; none or several is a miss.
pub open spec fn terminal_choice_spec(n: nat) -> HostReveal {
    if n == 0 {
        HostReveal::NoMatch
    } else if n == 1 {
        HostReveal::Raise(0)
    } else {
        HostReveal::Several
    }
}

pub fn terminal_choice(terminals: &[Candidate]) -> (r: HostReveal)
    ensures
        r == terminal_choice_spec(terminals@.len()),
{
    if terminals.len() == 0 {
        HostReveal::NoMatch
    } else if terminals.len() == 1 {
        HostReveal::Raise(0)
    } else {
        HostReveal::Several
    }
}

/// A window's title names the folder, case-insensitively.
pub open spec fn has_title(c: CandidateV, name: Seq<char>) -> bool {
    contains_spec(lowercase_spec(c.title), lowercase_spec(name))
}

/// The indices of the windows whose titles name the folder, in order.
pub open spec fn title_hits_spec(ws: Seq<CandidateV>, name: Seq<char>) -> Seq<usize>
    decreases ws.len(),
{
    if ws.len() == 0 {
        Seq::empty()
    } else {
        let r = title_hits_spec(ws.drop_last(), name);
        if has_title(ws.last(), name) {
            r.push((ws.len() - 1) as usize)
        } else {
            r
        }
    }
}

pub fn title_hits(windows: &[Candidate], name: &str) -> (out: Vec<usize>)
    ensures
        out@ == title_hits_spec(windows_view(windows@), name@),
{
    let ghost wv = windows_view(windows@);
    let name_lc = lowered_chars(name);
    let mut out: Vec<usize> = Vec::new();
    let mut i: usize = 0;
    while i < windows.len()
        invariant
            wv == windows_view(windows@),
            name_lc@ == lowercase_spec(name@),
            i <= windows@.len(),
            out@ == title_hits_spec(wv.take(i as int), name@),
        decreases windows@.len() - i,
    {
        proof {
            assert(wv.take(i + 1).drop_last() =~= wv.take(i as int));
            assert(wv.take(i + 1).last() == windows@[i as int]@);
        }
        let title_lc = lowered_chars(windows[i].title.as_str());
        if contains(&title_lc, &name_lc) {
            out.push(i);
        }
        i = i + 1;
    }
    proof {
        assert(wv.take(wv.len() as int) =~= wv);
    }
    out
}

/// VS Code, once a lock file has named the session's folder: the one
/// window whose title names it is raised; otherwise the editor's own
/// command line having focused the folder counts as the raise;
/// otherwise no title is a miss and several are ambiguous.
pub open spec fn vscode_choice_spec(hits: Seq<usize>, cli_ran: bool) -> HostReveal {
    if hits.len() == 1 {
        HostReveal::Raise(hits[0])
    } else if cli_ran {
        HostReveal::ByCli
    } else if hits.len() == 0 {
        HostReveal::NoMatch
    } else {
        HostReveal::Several
    }
}

pub fn vscode_choice(windows: &[Candidate], folder_name: &str, cli_ran: bool) -> (r: HostReveal)
    ensures
        r == vscode_choice_spec(title_hits_spec(windows_view(windows@), folder_name@), cli_ran),
{
    let hits = title_hits(windows, folder_name);
    if hits.len() == 1 {
        HostReveal::Raise(hits[0])
    } else if cli_ran {
        HostReveal::ByCli
    } else if hits.len() == 0 {
        HostReveal::NoMatch
    } else {
        HostReveal::Several
    }
}

// ---- What the detail panel is told ------------------------------------------

pub open spec fn no_match_spec(label: Seq<char>) -> Seq<char> {
    "No window matched \""@ + label
        + "\". Reveal is a title and pid heuristic; the session may have no window on this machine."@
}

/// The miss sentence every scored match returns.
pub fn no_match_sentence(label: &str) -> (s: String)
    ensures
        s@ == no_match_spec(label@),
{
    let s = owned("No window matched \"");
    let s = s.concat(label);
    s.concat("\". Reveal is a title and pid heuristic; the session may have no window on this machine.")
}

/// After a raise was attempted on a window with this title.
pub fn raise_sentence(title: &str, raised: bool) -> (s: String)
    ensures
        raised ==> s@ == "Raised \""@ + title@ + "\"."@,
        !raised ==> s@ == "Found \""@ + title@ + "\" but Windows refused the raise."@,
{
    if raised {
        owned("Raised \"").concat(title).concat("\".")
    } else {
        owned("Found \"").concat(title).concat("\" but Windows refused the raise.")
    }
}

/// Windows Terminal with more than one window open.
pub fn several_terminals_sentence(label: &str) -> (s: String)
    ensures
        s@ == "Found \""@ + label@ + "\" in Windows Terminal, but more than one Terminal window is open."@,
{
    owned("Found \"").concat(label).concat("\" in Windows Terminal, but more than one Terminal window is open.")
}

/// VS Code's own command line focused the folder's window.
pub fn raised_by_cli_sentence(folder_name: &str) -> (s: String)
    ensures
        s@ == "Raised \""@ + folder_name@ + "\" in VS Code."@,
{
    owned("Raised \"").concat(folder_name).concat("\" in VS Code.")
}

/// More than one VS Code window names the folder.
pub fn several_vscode_sentence(folder_name: &str) -> (s: String)
    ensures
        s@ == "Found \""@ + folder_name@ + "\" in VS Code, but more than one matching window is open."@,
{
    owned("Found \"").concat(folder_name).concat("\" in VS Code, but more than one matching window is open.")
}

} // verus!
