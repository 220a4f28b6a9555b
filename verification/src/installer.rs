//! The settings panel's Repair action: rerunning the hook installer
//! against the running exe's own checkout. Which ancestor directory is
//! that checkout is decided here; looking at the file system and
//! running the script are the application's.

use vstd::prelude::*;

verus! {

/// How far up from the running exe to look for the checkout: far enough
/// for `target/debug/deckhand.exe`, never so far that an unrelated
/// ancestor (a whole home folder) could match.
pub const MAX_ANCESTORS: usize = 8;

/// The checkout among the exe's ancestor directories, given for each
/// (the exe's own directory first, then each parent in turn) whether it
/// holds `scripts/install-hooks.ps1`: the first that does, within
/// `MAX_ANCESTORS` levels; none when no ancestor that close does, the
/// ordinary shape of an installed build, which disables Repair.
pub fn repo_root_index(has_installer: &[bool]) -> (r: Option<usize>)
    ensures
        match r {
            Some(i) => {
                &&& i < MAX_ANCESTORS
                &&& i < has_installer@.len()
                &&& has_installer@[i as int]
                &&& forall|j: int| 0 <= j < i ==> !has_installer@[j]
            },
            None => forall|j: int| 0 <= j < has_installer@.len() && j < MAX_ANCESTORS ==> !has_installer@[j],
        },
{
    let mut i: usize = 0;
    while i < has_installer.len() && i < MAX_ANCESTORS
        invariant
            i <= MAX_ANCESTORS,
            i <= has_installer@.len(),
            forall|j: int| 0 <= j < i ==> !has_installer@[j],
        decreases MAX_ANCESTORS - i,
    {
        if has_installer[i] {
            return Some(i);
        }
        i = i + 1;
    }
    None
}

#[derive(Debug, Clone, Copy, PartialEq, Eq, Structural)]
pub enum RepairOutcome {
    /// The installer ran to completion, whatever its exit code.
    Ran,
    /// Still running past the timeout; killed rather than left running.
    TimedOut,
    /// PowerShell itself never started.
    FailedToStart,
}

} // verus!
