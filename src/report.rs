//! Reports: what a submitter sends, what the store holds, and how a
//! submission is validated.
use vstd::prelude::*;

use crate::resolution::{Outcome, Resolution};

verus! {

/// A report as a submitter sends it: the message and the reported user.
pub struct InputReport {
    pub message: String,
    pub user_id: i64,
}

/// A report ready for the store: a submission and the account that sent it.
pub struct NewReport {
    pub message: String,
    pub user_id: i64,
    pub account_id: i32,
}

/// A stored report. `reported_at` is in seconds since the Unix epoch.
pub struct Report {
    pub id: i32,
    pub message: String,
    pub user_id: i64,
    pub account_id: i32,
    pub reported_at: i64,
    pub resolution: Resolution,
}

/// The mathematical value of a stored report.
pub struct ReportView {
    pub id: int,
    pub message: Seq<char>,
    pub user_id: int,
    pub account_id: int,
    pub reported_at: int,
    pub resolution: Resolution,
}

impl View for Report {
    type V = ReportView;

    open spec fn view(&self) -> ReportView {
        ReportView {
            id: self.id as int,
            message: self.message@,
            user_id: self.user_id as int,
            account_id: self.account_id as int,
            reported_at: self.reported_at as int,
            resolution: self.resolution,
        }
    }
}

/// Why a submission was rejected.
#[derive(Clone, Copy, Debug, PartialEq, Eq, Structural)]
pub enum ValidationError {
    EmptyMessage,
    NonPositiveSubject,
}

/// The first rule that a submission breaks, if any: the message must not be
/// empty, and the reported user's id must be positive.
pub open spec fn validation_spec(message: Seq<char>, user_id: int) -> Option<ValidationError> {
    if message.len() == 0 {
        Some(ValidationError::EmptyMessage)
    } else if user_id <= 0 {
        Some(ValidationError::NonPositiveSubject)
    } else {
        None
    }
}

/// The values of a sequence of reports.
pub open spec fn views(v: Seq<Report>) -> Seq<ReportView> {
    v.map_values(|r: Report| r@)
}

/// A report is banned when a moderator resolved it with a ban.
pub open spec fn is_banned_spec(r: ReportView) -> bool {
    r.resolution == Resolution::Resolved(Outcome::Banned)
}

impl NewReport {
    /// A submission made by `account_id`.
    pub fn from_input(input: InputReport, account_id: i32) -> (r: NewReport)
        ensures
            r.message@ == input.message@,
            r.user_id == input.user_id,
            r.account_id == account_id,
    {
        NewReport { message: input.message, user_id: input.user_id, account_id }
    }

    /// Checks the submission; the error names the first rule broken.
    pub fn validate(&self) -> (r: Result<(), ValidationError>)
        ensures
            match r {
                Ok(()) => validation_spec(self.message@, self.user_id as int) is None,
                Err(e) => validation_spec(self.message@, self.user_id as int) == Some(e),
            },
    {
        if self.message.as_str().is_empty() {
            Err(ValidationError::EmptyMessage)
        } else if self.user_id <= 0 {
            Err(ValidationError::NonPositiveSubject)
        } else {
            Ok(())
        }
    }
}

impl Report {
    /// An independent copy of the report.
    pub fn snapshot(&self) -> (r: Report)
        ensures
            r@ == self@,
    {
        Report {
            id: self.id,
            message: self.message.clone(),
            user_id: self.user_id,
            account_id: self.account_id,
            reported_at: self.reported_at,
            resolution: self.resolution,
        }
    }

    /// Whether a moderator resolved the report with a ban.
    pub fn is_banned(&self) -> (b: bool)
        ensures
            b == is_banned_spec(self@),
    {
        match self.resolution {
            Resolution::Resolved(Outcome::Banned) => true,
            _ => false,
        }
    }
}

} // verus!
