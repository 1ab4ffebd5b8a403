//! The tri-state resolution of a report and its two transitions.
use vstd::prelude::*;

verus! {

/// What a moderator decided about a report.
#[derive(Clone, Copy, Debug, PartialEq, Eq, Structural)]
pub enum Outcome {
    Banned,
    Dismissed,
}

/// Where a report stands in its lifecycle.
#[derive(Clone, Copy, Debug, PartialEq, Eq, Structural)]
pub enum Resolution {
    /// Newly created, not yet shown to a moderator.
    Unset,
    /// A prompt was sent; a decision is awaited.
    PendingDecision,
    /// Decided; terminal.
    Resolved(Outcome),
}

/// Why a decision could not be applied to a report.
#[derive(Clone, Copy, Debug, PartialEq, Eq, Structural)]
pub enum ConflictError {
    /// Another decision won earlier; it carries the stored outcome.
    AlreadyResolved(Outcome),
    /// The report has not been claimed for a prompt yet.
    NotYetPending,
    /// No report has the given id.
    UnknownReport,
}

/// Position of a resolution along `Unset → PendingDecision → Resolved`.
pub open spec fn stage(r: Resolution) -> int {
    match r {
        Resolution::Unset => 0,
        Resolution::PendingDecision => 1,
        Resolution::Resolved(_) => 2,
    }
}

/// `b` can be observed after `a`: it lies at or beyond `a`, and a resolved
/// report keeps its outcome.
pub open spec fn advances(a: Resolution, b: Resolution) -> bool {
    match a {
        Resolution::Resolved(_) => b == a,
        _ => stage(a) <= stage(b),
    }
}

/// The resolution after a sweep claims a report.
pub open spec fn claim_spec(r: Resolution) -> Resolution {
    match r {
        Resolution::Unset => Resolution::PendingDecision,
        _ => r,
    }
}

/// The result of applying decision `o` to a report in state `r`.
pub open spec fn resolve_spec(r: Resolution, o: Outcome) -> Result<Resolution, ConflictError> {
    match r {
        Resolution::Unset => Err(ConflictError::NotYetPending),
        Resolution::PendingDecision => Ok(Resolution::Resolved(o)),
        Resolution::Resolved(w) => Err(ConflictError::AlreadyResolved(w)),
    }
}

/// The code under which a resolution is persisted.
pub open spec fn code_spec(r: Resolution) -> u8 {
    match r {
        Resolution::Unset => 0,
        Resolution::PendingDecision => 1,
        Resolution::Resolved(Outcome::Banned) => 2,
        Resolution::Resolved(Outcome::Dismissed) => 3,
    }
}

impl Resolution {
    /// The resolution after a sweep claims the report: `Unset` becomes
    /// `PendingDecision`, anything else stays.
    pub fn claimed(self) -> (r: Resolution)
        ensures
            r == claim_spec(self),
    {
        match self {
            Resolution::Unset => Resolution::PendingDecision,
            _ => self,
        }
    }

    /// Applies decision `o`: only a pending report becomes resolved.
    pub fn resolved_with(self, o: Outcome) -> (r: Result<Resolution, ConflictError>)
        ensures
            r == resolve_spec(self, o),
    {
        match self {
            Resolution::Unset => Err(ConflictError::NotYetPending),
            Resolution::PendingDecision => Ok(Resolution::Resolved(o)),
            Resolution::Resolved(w) => Err(ConflictError::AlreadyResolved(w)),
        }
    }

    /// The code under which the resolution is persisted: 0 unset, 1 pending,
    /// 2 banned, 3 dismissed.
    pub fn code(self) -> (c: u8)
        ensures
            c == code_spec(self),
    {
        match self {
            Resolution::Unset => 0,
            Resolution::PendingDecision => 1,
            Resolution::Resolved(Outcome::Banned) => 2,
            Resolution::Resolved(Outcome::Dismissed) => 3,
        }
    }

    /// Reads back a persisted code; `None` for a code that names no resolution.
    pub fn from_code(c: u8) -> (r: Option<Resolution>)
        ensures
            c <= 3 <==> r is Some,
            r matches Some(res) ==> code_spec(res) == c,
    {
        match c {
            0 => Some(Resolution::Unset),
            1 => Some(Resolution::PendingDecision),
            2 => Some(Resolution::Resolved(Outcome::Banned)),
            3 => Some(Resolution::Resolved(Outcome::Dismissed)),
            _ => None,
        }
    }
}

/// Each transition only moves a report forward: claiming and resolving yield
/// a resolution that advances from the one they started at.
pub proof fn lemma_transitions_advance(r: Resolution, o: Outcome)
    ensures
        advances(r, claim_spec(r)),
        resolve_spec(r, o) matches Ok(n) ==> advances(r, n),
{
}

/// Resolutions never regress: observing `a`, then `b`, then `c`, each advancing
/// from the one before, `c` advances from `a`; in particular a pending report
/// is never seen unset again, and a resolved one never changes.
pub proof fn lemma_no_regression(a: Resolution, b: Resolution, c: Resolution)
    requires
        advances(a, b),
        advances(b, c),
    ensures
        advances(a, c),
        a == Resolution::PendingDecision ==> c != Resolution::Unset,
        a is Resolved ==> c == a,
{
}

/// A persisted code reads back as the resolution it was written from.
pub proof fn lemma_code_round_trip(r: Resolution)
    ensures
        code_spec(r) <= 3,
        forall|s: Resolution| code_spec(s) == code_spec(r) ==> s == r,
{
}

} // verus!
