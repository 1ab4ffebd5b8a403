//! Moderator prompts: the summary of a report with a button for each
//! decision, and the text a prompt shows once the report is decided.
use vstd::prelude::*;

use crate::decimal::{int_text, push_int};
use crate::report::{Report, ReportView};
use crate::resolution::Outcome;
use crate::token::{token_text, DecisionToken};

verus! {

/// A prompt for one report: its text and the tokens of its ban and dismiss
/// buttons.
pub struct Prompt {
    pub report_id: i32,
    pub text: String,
    pub ban_token: String,
    pub dismiss_token: String,
}

pub struct PromptView {
    pub report_id: int,
    pub text: Seq<char>,
    pub ban_token: Seq<char>,
    pub dismiss_token: Seq<char>,
}

impl View for Prompt {
    type V = PromptView;

    open spec fn view(&self) -> PromptView {
        PromptView {
            report_id: self.report_id as int,
            text: self.text@,
            ban_token: self.ban_token@,
            dismiss_token: self.dismiss_token@,
        }
    }
}

/// The summary of a report: its id, the reporting account, the reported
/// user, then the message.
pub open spec fn summary_text(r: ReportView) -> Seq<char> {
    "📋 "@ + int_text(r.id) + " - ✍️ "@ + int_text(r.account_id) + " - 🧑 "@ + int_text(
        r.user_id,
    ) + "\n\n"@ + r.message
}

/// The prompt for report `r`.
pub open spec fn prompt_spec(r: ReportView) -> PromptView {
    PromptView {
        report_id: r.id,
        text: summary_text(r),
        ban_token: token_text(DecisionToken { report_id: r.id as i32, outcome: Outcome::Banned }),
        dismiss_token: token_text(
            DecisionToken { report_id: r.id as i32, outcome: Outcome::Dismissed },
        ),
    }
}

/// The line that a decided prompt gains.
pub open spec fn outcome_note(o: Outcome) -> Seq<char> {
    match o {
        Outcome::Banned => "\n\nUser banned ✅️"@,
        Outcome::Dismissed => "\n\nReport cancelled 🚫️"@,
    }
}

/// Renders the prompt for a report.
pub fn render_prompt(r: &Report) -> (p: Prompt)
    ensures
        p@ == prompt_spec(r@),
{
    let mut text = String::new();
    text.append("📋 ");
    push_int(&mut text, r.id as i64);
    text.append(" - ✍️ ");
    push_int(&mut text, r.account_id as i64);
    text.append(" - 🧑 ");
    push_int(&mut text, r.user_id);
    text.append("\n\n");
    text.append(r.message.as_str());
    assert(text@ =~= summary_text(r@));
    let ban = DecisionToken { report_id: r.id, outcome: Outcome::Banned };
    let dismiss = DecisionToken { report_id: r.id, outcome: Outcome::Dismissed };
    Prompt { report_id: r.id, text, ban_token: ban.encode(), dismiss_token: dismiss.encode() }
}

/// The text of a prompt once its report is decided with `o`: the prompt's
/// text followed by the outcome.
pub fn settled_text(text: &str, o: Outcome) -> (r: String)
    ensures
        r@ == text@ + outcome_note(o),
{
    let mut out = String::from_str(text);
    match o {
        Outcome::Banned => out.append("\n\nUser banned ✅️"),
        Outcome::Dismissed => out.append("\n\nReport cancelled 🚫️"),
    }
    out
}

} // verus!
