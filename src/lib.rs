//! Moderation relay: abuse reports move through a forward-only lifecycle
//! (`Unset` → `PendingDecision` → `Resolved`), claimed for a moderator prompt
//! exactly once and decided exactly once.
use vstd::prelude::*;

pub mod command;
pub mod decimal;
pub mod decision;
pub mod prompt;
pub mod report;
pub mod resolution;
pub mod store;
pub mod token;

verus! {

} // verus!
