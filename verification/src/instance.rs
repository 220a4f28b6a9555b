//! Single instance: only one Deckhand may run at a time. Claiming the
//! named mutex and raising the running copy's window are the
//! application's; this is what a claim can come back as.

use vstd::prelude::*;

verus! {

#[derive(Debug, Clone, Copy, PartialEq, Eq, Structural)]
pub enum Claim {
    /// This launch is the first (or the mutex could not be made at all,
    /// which must never stop the app from starting).
    First,
    /// Another Deckhand already holds the claim.
    AlreadyRunning,
}

} // verus!
