//! Host classification: which kind of process a session's window hangs
//! off (a VS Code window, a Windows Terminal tab, or a plain console),
//! read from a process table (pid -> (parent pid, exe name)) handed in
//! by the caller.

use std::collections::HashMap;

use vstd::prelude::*;

use crate::text::{eq_ignore_ascii_case, eq_ignore_ascii_case_spec};

verus! {

broadcast use vstd::std_specs::hash::group_hash_axioms;

/// A pid's parent chain is walked at most this many hops.
pub const MAX_HOPS: usize = 8;

#[derive(Debug, Clone, Copy, PartialEq, Eq, Structural)]
pub enum Host {
    VsCode,
    WindowsTerminal,
    Console,
}

/// The stable and Insiders builds of VS Code, case-insensitively.
pub open spec fn is_vscode_spec(exe: Seq<char>) -> bool {
    eq_ignore_ascii_case_spec(exe, "Code.exe"@) || eq_ignore_ascii_case_spec(exe, "Code - Insiders.exe"@)
}

pub open spec fn is_terminal_spec(exe: Seq<char>) -> bool {
    eq_ignore_ascii_case_spec(exe, "windowsterminal.exe"@)
}

/// The parent-chain walk from `cur` with `hops` hops left, having
/// already visited `seen`: the first special ancestor's host, else
/// `Console` (a missing pid, a cycle, or running out of hops).
pub open spec fn walk(procs: Map<u32, (u32, String)>, cur: u32, seen: Set<u32>, hops: nat) -> Host
    decreases hops,
{
    if hops == 0 || seen.contains(cur) || !procs.contains_key(cur) {
        Host::Console
    } else if is_vscode_spec(procs[cur].1@) {
        Host::VsCode
    } else if is_terminal_spec(procs[cur].1@) {
        Host::WindowsTerminal
    } else {
        walk(procs, procs[cur].0, seen.insert(cur), (hops - 1) as nat)
    }
}

/// The same walk, naming the first VS Code ancestor's own pid.
pub open spec fn walk_vscode(procs: Map<u32, (u32, String)>, cur: u32, seen: Set<u32>, hops: nat) -> Option<u32>
    decreases hops,
{
    if hops == 0 || seen.contains(cur) || !procs.contains_key(cur) {
        None
    } else if is_vscode_spec(procs[cur].1@) {
        Some(cur)
    } else {
        walk_vscode(procs, procs[cur].0, seen.insert(cur), (hops - 1) as nat)
    }
}

/// The process `k` steps up `cur`'s parent chain: `cur` itself at zero,
/// then its parent's `k - 1`-th ancestor.
pub open spec fn ancestor(procs: Map<u32, (u32, String)>, cur: u32, k: nat) -> u32
    decreases k,
{
    if k == 0 {
        cur
    } else {
        ancestor(procs, procs[cur].0, (k - 1) as nat)
    }
}

/// `a` is `cur`'s ancestor `k` steps up, and every process on the way
/// there, `a` included, is in the table.
pub open spec fn on_chain(procs: Map<u32, (u32, String)>, cur: u32, a: u32, k: nat) -> bool {
    &&& ancestor(procs, cur, k) == a
    &&& forall|j: nat| j <= k ==> procs.contains_key(#[trigger] ancestor(procs, cur, j))
}

proof fn lemma_walk_stays_on_chain(procs: Map<u32, (u32, String)>, cur: u32, seen: Set<u32>, hops: nat)
    ensures
        walk_vscode(procs, cur, seen, hops) is Some ==> exists|k: nat|
            k < hops && #[trigger] on_chain(procs, cur, walk_vscode(procs, cur, seen, hops)->0, k),
    decreases hops,
{
    if hops == 0 || seen.contains(cur) || !procs.contains_key(cur) {
        assert(walk_vscode(procs, cur, seen, hops) is None);
    } else if is_vscode_spec(procs[cur].1@) {
        let z: nat = 0;
        assert(walk_vscode(procs, cur, seen, hops) == Some(cur));
        assert(on_chain(procs, cur, cur, z)) by {
            assert forall|j: nat| j <= z implies procs.contains_key(#[trigger] ancestor(procs, cur, j)) by {
                assert(j == 0);
            }
        }
        assert(on_chain(procs, cur, walk_vscode(procs, cur, seen, hops)->0, z));
    } else {
        let up = procs[cur].0;
        lemma_walk_stays_on_chain(procs, up, seen.insert(cur), (hops - 1) as nat);
        assert(walk_vscode(procs, cur, seen, hops) == walk_vscode(procs, up, seen.insert(cur), (hops - 1) as nat));
        if let Some(a) = walk_vscode(procs, cur, seen, hops) {
            let k = choose|k: nat| k < hops - 1 && #[trigger] on_chain(procs, up, a, k);
            let k1: nat = k + 1;
            assert(ancestor(procs, cur, k1) == ancestor(procs, up, k));
            assert forall|j: nat| j <= k1 implies procs.contains_key(#[trigger] ancestor(procs, cur, j)) by {
                if j > 0 {
                    assert(ancestor(procs, cur, j) == ancestor(procs, up, (j - 1) as nat));
                }
            }
            assert(on_chain(procs, cur, a, k1));
            assert(k1 < hops);
            assert(on_chain(procs, cur, walk_vscode(procs, cur, seen, hops)->0, k1));
        }
    }
}

proof fn lemma_walks_agree(procs: Map<u32, (u32, String)>, cur: u32, seen: Set<u32>, hops: nat)
    ensures
        walk_vscode(procs, cur, seen, hops) matches Some(a) ==> procs.contains_key(a) && is_vscode_spec(
            procs[a].1@,
        ),
        walk(procs, cur, seen, hops) == Host::VsCode ==> walk_vscode(procs, cur, seen, hops) is Some,
    decreases hops,
{
    if !(hops == 0 || seen.contains(cur) || !procs.contains_key(cur)) && !is_vscode_spec(procs[cur].1@) {
        lemma_walks_agree(procs, procs[cur].0, seen.insert(cur), (hops - 1) as nat);
    }
}

/// The VS Code ancestor named is a process in the table whose exe is VS
/// Code's, found fewer than `MAX_HOPS` steps up `pid`'s own parent chain
/// with every process on the way in the table; and whenever the host
/// walk finds VS Code, this walk names its process: the two take the
/// same steps up the same chain.
pub proof fn law_the_vscode_ancestor_is_the_one_classify_finds(procs: Map<u32, (u32, String)>, pid: u32)
    ensures
        walk_vscode(procs, pid, Set::empty(), MAX_HOPS as nat) matches Some(a) ==> procs.contains_key(a)
            && is_vscode_spec(procs[a].1@)
            && exists|k: nat| k < MAX_HOPS && #[trigger] on_chain(procs, pid, a, k),
        walk(procs, pid, Set::empty(), MAX_HOPS as nat) == Host::VsCode ==> walk_vscode(
            procs,
            pid,
            Set::empty(),
            MAX_HOPS as nat,
        ) is Some,
{
    lemma_walks_agree(procs, pid, Set::empty(), MAX_HOPS as nat);
    lemma_walk_stays_on_chain(procs, pid, Set::empty(), MAX_HOPS as nat);
}

/// True for the stable and Insiders builds; case-insensitive.
pub fn is_vscode_exe(exe: &str) -> (r: bool)
    ensures
        r == is_vscode_spec(exe@),
{
    eq_ignore_ascii_case(exe, "Code.exe") || eq_ignore_ascii_case(exe, "Code - Insiders.exe")
}

/// Walk `pid`'s parent chain in `procs`, stopping at the first ancestor
/// whose exe names a host Reveal treats specially. Cycle-safe and
/// bounded by `MAX_HOPS`; anything unrecognised is `Console`.
pub fn classify(pid: u32, procs: &HashMap<u32, (u32, String)>) -> (h: Host)
    ensures
        h == walk(procs@, pid, Set::empty(), MAX_HOPS as nat),
{
    let mut seen: Vec<u32> = Vec::new();
    let ghost mut seen_s: Set<u32> = Set::empty();
    let mut current = pid;
    let mut k: usize = 0;
    while k < MAX_HOPS
        invariant
            k <= MAX_HOPS,
            walk(procs@, pid, Set::empty(), MAX_HOPS as nat) == walk(
                procs@,
                current,
                seen_s,
                (MAX_HOPS - k) as nat,
            ),
            forall|x: u32| seen@.contains(x) <==> seen_s.contains(x),
        decreases MAX_HOPS - k,
    {
        if contains_u32(&seen, current) {
            return Host::Console;
        }
        let (parent, exe) = match procs.get(&current) {
            Some(entry) => (entry.0, &entry.1),
            None => return Host::Console,
        };
        if is_vscode_exe(exe.as_str()) {
            return Host::VsCode;
        }
        if eq_ignore_ascii_case(exe.as_str(), "windowsterminal.exe") {
            return Host::WindowsTerminal;
        }
        let ghost old_seen = seen@;
        seen.push(current);
        proof {
            seen_s = seen_s.insert(current);
            assert forall|x: u32| seen@.contains(x) <==> seen_s.contains(x) by {
                if seen@.contains(x) {
                    let i = choose|i: int| 0 <= i < seen@.len() && seen@[i] == x;
                    if i < old_seen.len() {
                        assert(old_seen[i] == x);
                    }
                }
                if old_seen.contains(x) {
                    let i = choose|i: int| 0 <= i < old_seen.len() && old_seen[i] == x;
                    assert(seen@[i] == x);
                }
                if x == current {
                    assert(seen@[old_seen.len() as int] == x);
                }
            }
        }
        current = parent;
        k = k + 1;
    }
    Host::Console
}

/// The same walk as `classify`, naming the winning VS Code ancestor's
/// own pid instead of the host.
pub fn vscode_ancestor_pid(pid: u32, procs: &HashMap<u32, (u32, String)>) -> (r: Option<u32>)
    ensures
        r == walk_vscode(procs@, pid, Set::empty(), MAX_HOPS as nat),
{
    let mut seen: Vec<u32> = Vec::new();
    let ghost mut seen_s: Set<u32> = Set::empty();
    let mut current = pid;
    let mut k: usize = 0;
    while k < MAX_HOPS
        invariant
            k <= MAX_HOPS,
            walk_vscode(procs@, pid, Set::empty(), MAX_HOPS as nat) == walk_vscode(
                procs@,
                current,
                seen_s,
                (MAX_HOPS - k) as nat,
            ),
            forall|x: u32| seen@.contains(x) <==> seen_s.contains(x),
        decreases MAX_HOPS - k,
    {
        if contains_u32(&seen, current) {
            return None;
        }
        let (parent, exe) = match procs.get(&current) {
            Some(entry) => (entry.0, &entry.1),
            None => return None,
        };
        if is_vscode_exe(exe.as_str()) {
            return Some(current);
        }
        let ghost old_seen = seen@;
        seen.push(current);
        proof {
            seen_s = seen_s.insert(current);
            assert forall|x: u32| seen@.contains(x) <==> seen_s.contains(x) by {
                if seen@.contains(x) {
                    let i = choose|i: int| 0 <= i < seen@.len() && seen@[i] == x;
                    if i < old_seen.len() {
                        assert(old_seen[i] == x);
                    }
                }
                if old_seen.contains(x) {
                    let i = choose|i: int| 0 <= i < old_seen.len() && old_seen[i] == x;
                    assert(seen@[i] == x);
                }
                if x == current {
                    assert(seen@[old_seen.len() as int] == x);
                }
            }
        }
        current = parent;
        k = k + 1;
    }
    None
}

/// True when `pid`'s immediate parent (one hop, not a walk) is a VS Code
/// process.
pub fn parent_is_vscode_exe(pid: u32, procs: &HashMap<u32, (u32, String)>) -> (r: bool)
    ensures
        r == (procs@.contains_key(pid) && procs@.contains_key(procs@[pid].0) && is_vscode_spec(
            procs@[procs@[pid].0].1@,
        )),
{
    match procs.get(&pid) {
        Some(entry) => match procs.get(&entry.0) {
            Some(parent) => is_vscode_exe(parent.1.as_str()),
            None => false,
        },
        None => false,
    }
}

/// Both facts the registry needs about a pid: its host classification
/// and its own immediate parent pid, from one process table.
pub fn resolve(pid: u32, procs: &HashMap<u32, (u32, String)>) -> (r: (Host, Option<u32>))
    ensures
        r.0 == walk(procs@, pid, Set::empty(), MAX_HOPS as nat),
        r.1 == (if procs@.contains_key(pid) {
            Some(procs@[pid].0)
        } else {
            None
        }),
{
    let host = classify(pid, procs);
    let parent = match procs.get(&pid) {
        Some(entry) => Some(entry.0),
        None => None,
    };
    (host, parent)
}

fn contains_u32(v: &Vec<u32>, x: u32) -> (r: bool)
    ensures
        r == v@.contains(x),
{
    let mut i: usize = 0;
    while i < v.len()
        invariant
            i <= v@.len(),
            forall|k: int| 0 <= k < i ==> v@[k] != x,
        decreases v@.len() - i,
    {
        if v[i] == x {
            assert(v@.contains(x));
            return true;
        }
        i = i + 1;
    }
    assert(!v@.contains(x));
    false
}

} // verus!
