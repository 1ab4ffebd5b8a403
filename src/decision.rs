//! The relay's three flows over the store: ingestion of a submission, the
//! notifier's sweep, and the handling of a moderator's decision.
use vstd::prelude::*;

use crate::prompt::{prompt_spec, render_prompt, Prompt};
use crate::report::{views, NewReport, Report, ReportView};
use crate::resolution::{ConflictError, Outcome};
use crate::report::validation_spec;
use crate::store::{
    claimed_all, claimed_batch, fresh_report, resolve_outcome, resolved_store, store_advances,
    CreateError, ReportStore, MAX_REPORT_ID,
};
use crate::token::{decode_spec, DecisionToken};

verus! {

/// What to do about a moderator's button press.
#[derive(Clone, Copy, Debug, PartialEq, Eq)]
pub enum DecisionEffect {
    /// The token was malformed: leave the prompt as it is, do not retry.
    Ignored,
    /// The report is resolved with `outcome`, by this press or an earlier
    /// one: show that outcome on the prompt and remove its buttons.
    /// `ban_subject` is the user to ban, when this press made the ban.
    Settled { report_id: i32, outcome: Outcome, ban_subject: Option<i64> },
    /// The report is unknown or not yet pending, which no prompt should
    /// allow: leave the prompt as it is.
    Fault(ConflictError),
}

/// The value of a store operation's result.
pub open spec fn result_view(r: Result<Report, ConflictError>) -> Result<ReportView, ConflictError> {
    match r {
        Ok(rep) => Ok(rep@),
        Err(e) => Err(e),
    }
}

/// The effect of the decision `t`, given what the store returned for it.
pub open spec fn effect_spec(t: DecisionToken, res: Result<ReportView, ConflictError>) -> DecisionEffect {
    match res {
        Ok(r) => DecisionEffect::Settled {
            report_id: t.report_id,
            outcome: t.outcome,
            ban_subject: match t.outcome {
                Outcome::Banned => Some(r.user_id as i64),
                Outcome::Dismissed => None,
            },
        },
        Err(ConflictError::AlreadyResolved(o)) => DecisionEffect::Settled {
            report_id: t.report_id,
            outcome: o,
            ban_subject: None,
        },
        Err(e) => DecisionEffect::Fault(e),
    }
}

/// The effect of the decision `t` whose store update returned `result`.
pub fn decision_effect(t: DecisionToken, result: &Result<Report, ConflictError>) -> (e:
    DecisionEffect)
    ensures
        e == effect_spec(t, result_view(*result)),
{
    match result {
        Ok(rep) => DecisionEffect::Settled {
            report_id: t.report_id,
            outcome: t.outcome,
            ban_subject: match t.outcome {
                Outcome::Banned => Some(rep.user_id),
                Outcome::Dismissed => None,
            },
        },
        Err(ConflictError::AlreadyResolved(o)) => DecisionEffect::Settled {
            report_id: t.report_id,
            outcome: *o,
            ban_subject: None,
        },
        Err(e) => DecisionEffect::Fault(*e),
    }
}

/// Handles a button press carrying `token`: decodes it, applies the decision
/// to the store, and says what to do with the prompt.
pub fn handle_decision(store: &mut ReportStore, token: &str) -> (e: DecisionEffect)
    requires
        old(store).wf(),
    ensures
        final(store).wf(),
        store_advances(old(store)@, final(store)@),
        match decode_spec(token@) {
            None => e == DecisionEffect::Ignored && final(store)@ == old(store)@,
            Some(t) => {
                &&& final(store)@ == resolved_store(old(store)@, t.report_id as int, t.outcome)
                &&& e == effect_spec(
                    t,
                    resolve_outcome(old(store)@, t.report_id as int, t.outcome),
                )
            },
        },
{
    match DecisionToken::decode(token) {
        Err(_) => {
            assert(store_advances(old(store)@, store@));
            DecisionEffect::Ignored
        },
        Ok(t) => {
            let result = store.resolve(t.report_id, t.outcome);
            decision_effect(t, &result)
        },
    }
}

/// Two presses on prompts of the same pending report, in whatever order the
/// store takes them, settle both prompts on the outcome of the first; only the
/// first can ask for a ban.
pub proof fn lemma_prompts_converge(s: Seq<ReportView>, first: DecisionToken, second: DecisionToken)
    requires
        first.report_id == second.report_id,
        1 <= first.report_id <= s.len(),
        s[first.report_id - 1].resolution == crate::resolution::Resolution::PendingDecision,
    ensures
        ({
            let id = first.report_id as int;
            let e1 = effect_spec(first, resolve_outcome(s, id, first.outcome));
            let e2 = effect_spec(
                second,
                resolve_outcome(resolved_store(s, id, first.outcome), id, second.outcome),
            );
            &&& e1 matches DecisionEffect::Settled { outcome, .. } && outcome == first.outcome
            &&& e2 == DecisionEffect::Settled {
                report_id: first.report_id,
                outcome: first.outcome,
                ban_subject: None,
            }
        }),
{
    crate::store::lemma_conflicting_decisions(s, first.report_id as int, first.outcome, second.outcome);
}

/// One tick of the notifier: claims every unset report and renders a prompt
/// for each, oldest first.
pub fn sweep_tick(store: &mut ReportStore) -> (prompts: Vec<Prompt>)
    requires
        old(store).wf(),
    ensures
        final(store).wf(),
        final(store)@ == claimed_all(old(store)@),
        store_advances(old(store)@, final(store)@),
        prompts@.len() == claimed_batch(old(store)@).len(),
        forall|i: int|
            0 <= i < prompts@.len() ==> #[trigger] prompts@[i]@ == prompt_spec(
                claimed_batch(old(store)@)[i],
            ),
        forall|j: int, k: int|
            0 <= j < k < prompts@.len() ==> #[trigger] claimed_batch(old(store)@)[j].id
                < #[trigger] claimed_batch(old(store)@)[k].id && claimed_batch(old(store)@)[j].reported_at
                <= claimed_batch(old(store)@)[k].reported_at,
{
    proof {
        crate::store::lemma_batch_oldest_first(old(store)@);
    }
    let batch = store.claim_unset_batch();
    let mut prompts: Vec<Prompt> = Vec::new();
    let mut i: usize = 0;
    while i < batch.len()
        invariant
            0 <= i <= batch@.len(),
            views(batch@) == claimed_batch(old(store)@),
            prompts@.len() == i,
            forall|j: int|
                0 <= j < i ==> #[trigger] prompts@[j]@ == prompt_spec(claimed_batch(old(store)@)[j]),
        decreases batch@.len() - i,
    {
        let p = render_prompt(&batch[i]);
        assert(views(batch@)[i as int] == batch@[i as int]@);
        prompts.push(p);
        i = i + 1;
    }
    prompts
}

/// Takes in a submission at time `now`: creates the report and, when that
/// succeeds, runs a sweep tick whose prompts are returned. A rejected
/// submission leaves the store as it was and sends no prompt.
pub fn submit_report(store: &mut ReportStore, draft: NewReport, now: i64) -> (r: (
    Result<Report, CreateError>,
    Vec<Prompt>,
))
    requires
        old(store).wf(),
    ensures
        final(store).wf(),
        store_advances(old(store)@, final(store)@),
        match r.0 {
            Ok(rep) => {
                &&& validation_spec(draft.message@, draft.user_id as int) is None
                &&& old(store)@.len() < MAX_REPORT_ID
                &&& rep@ == fresh_report(
                    old(store)@,
                    draft.message@,
                    draft.user_id as int,
                    draft.account_id as int,
                    now as int,
                )
                &&& final(store)@ == claimed_all(old(store)@.push(rep@))
                &&& r.1@.len() == claimed_batch(old(store)@.push(rep@)).len()
                &&& forall|i: int|
                    0 <= i < r.1@.len() ==> #[trigger] r.1@[i]@ == prompt_spec(
                        claimed_batch(old(store)@.push(rep@))[i],
                    )
            },
            Err(CreateError::Validation(e)) => {
                &&& validation_spec(draft.message@, draft.user_id as int) == Some(e)
                &&& final(store)@ == old(store)@
                &&& r.1@.len() == 0
            },
            Err(CreateError::IdsExhausted) => {
                &&& validation_spec(draft.message@, draft.user_id as int) is None
                &&& old(store)@.len() >= MAX_REPORT_ID
                &&& final(store)@ == old(store)@
                &&& r.1@.len() == 0
            },
        },
{
    match store.create(draft, now) {
        Ok(rep) => {
            let ghost mid = store@;
            let prompts = sweep_tick(store);
            proof {
                crate::store::lemma_store_no_regression(old(store)@, mid, store@);
            }
            (Ok(rep), prompts)
        },
        Err(e) => (Err(e), Vec::new()),
    }
}

} // verus!
