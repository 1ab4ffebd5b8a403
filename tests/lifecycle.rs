use tartar::decision::{handle_decision, submit_report, sweep_tick, DecisionEffect};
use tartar::prompt::settled_text;
use tartar::report::{InputReport, NewReport, ValidationError};
use tartar::resolution::{ConflictError, Outcome, Resolution};
use tartar::store::{CreateError, ReportStore};

fn draft(message: &str, user_id: i64, account_id: i32) -> NewReport {
    NewReport { message: message.to_string(), user_id, account_id }
}

#[test]
fn scenario_ban_flow() {
    let mut store = ReportStore::new();
    let rep = store.create(draft("spam", 42, 7), 1_700_000_000).ok().unwrap();
    assert_eq!(rep.id, 1);
    assert_eq!(rep.message, "spam");
    assert_eq!(rep.user_id, 42);
    assert_eq!(rep.account_id, 7);
    assert_eq!(rep.reported_at, 1_700_000_000);
    assert_eq!(rep.resolution, Resolution::Unset);

    let prompts = sweep_tick(&mut store);
    assert_eq!(prompts.len(), 1);
    assert_eq!(prompts[0].report_id, 1);
    assert_eq!(store.get(1).unwrap().resolution, Resolution::PendingDecision);

    let effect = handle_decision(&mut store, &prompts[0].ban_token);
    assert_eq!(effect, DecisionEffect::Settled { report_id: 1, outcome: Outcome::Banned, ban_subject: Some(42) });
    assert_eq!(store.get(1).unwrap().resolution, Resolution::Resolved(Outcome::Banned));
    let shown = settled_text(&prompts[0].text, Outcome::Banned);
    assert!(shown.ends_with("User banned ✅️"));

    let found = store.get_by_subject(42).unwrap();
    assert_eq!(found.id, 1);
    assert_eq!(found.message, "spam");
}

#[test]
fn scenario_dismiss_flow() {
    let mut store = ReportStore::new();
    store.create(draft("spam", 42, 7), 10).ok().unwrap();
    let prompts = sweep_tick(&mut store);
    assert_eq!(prompts.len(), 1);
    let effect = handle_decision(&mut store, &prompts[0].dismiss_token);
    assert_eq!(effect, DecisionEffect::Settled { report_id: 1, outcome: Outcome::Dismissed, ban_subject: None });
    assert_eq!(store.get(1).unwrap().resolution, Resolution::Resolved(Outcome::Dismissed));
    assert!(store.get_by_subject(42).is_none());
}

#[test]
fn scenario_double_click_ban() {
    let mut store = ReportStore::new();
    store.create(draft("spam", 42, 7), 10).ok().unwrap();
    let prompts = sweep_tick(&mut store);
    let first = handle_decision(&mut store, &prompts[0].ban_token);
    assert_eq!(first, DecisionEffect::Settled { report_id: 1, outcome: Outcome::Banned, ban_subject: Some(42) });
    let second = store.resolve(1, Outcome::Banned);
    assert_eq!(second.err(), Some(ConflictError::AlreadyResolved(Outcome::Banned)));
    let again = handle_decision(&mut store, &prompts[0].ban_token);
    assert_eq!(again, DecisionEffect::Settled { report_id: 1, outcome: Outcome::Banned, ban_subject: None });
    assert_eq!(store.len(), 1);
    assert_eq!(store.get(1).unwrap().resolution, Resolution::Resolved(Outcome::Banned));
}

#[test]
fn scenario_empty_message_rejected() {
    let mut store = ReportStore::new();
    let r = store.create(draft("", 42, 7), 10);
    assert_eq!(r.err(), Some(CreateError::Validation(ValidationError::EmptyMessage)));
    assert_eq!(store.len(), 0);
    assert!(sweep_tick(&mut store).is_empty());
}

#[test]
fn non_positive_subject_rejected() {
    let mut store = ReportStore::new();
    let r = store.create(draft("spam", 0, 7), 10);
    assert_eq!(r.err(), Some(CreateError::Validation(ValidationError::NonPositiveSubject)));
    let r = store.create(draft("spam", -3, 7), 10);
    assert_eq!(r.err(), Some(CreateError::Validation(ValidationError::NonPositiveSubject)));
    assert_eq!(store.len(), 0);
}

#[test]
fn ids_follow_creation_order() {
    let mut store = ReportStore::new();
    for k in 1..=5 {
        let rep = store.create(draft("m", k, 1), k).ok().unwrap();
        assert_eq!(rep.id as i64, k);
    }
    assert_eq!(store.len(), 5);
    assert!(store.get(0).is_none());
    assert!(store.get(6).is_none());
    assert_eq!(store.get(3).unwrap().user_id, 3);
}

#[test]
fn second_claim_takes_nothing() {
    let mut store = ReportStore::new();
    store.create(draft("a", 1, 1), 1).ok().unwrap();
    store.create(draft("b", 2, 1), 2).ok().unwrap();
    let first = store.claim_unset_batch();
    assert_eq!(first.len(), 2);
    assert_eq!(first[0].id, 1);
    assert_eq!(first[1].id, 2);
    assert!(first.iter().all(|r| r.resolution == Resolution::PendingDecision));
    let second = store.claim_unset_batch();
    assert!(second.is_empty());
    store.create(draft("c", 3, 1), 3).ok().unwrap();
    let third = store.claim_unset_batch();
    assert_eq!(third.len(), 1);
    assert_eq!(third[0].id, 3);
}

#[test]
fn claim_skips_decided_reports() {
    let mut store = ReportStore::new();
    store.create(draft("a", 1, 1), 1).ok().unwrap();
    store.claim_unset_batch();
    store.resolve(1, Outcome::Dismissed).ok().unwrap();
    store.create(draft("b", 2, 1), 2).ok().unwrap();
    let batch = store.claim_unset_batch();
    assert_eq!(batch.len(), 1);
    assert_eq!(batch[0].id, 2);
    assert_eq!(store.get(1).unwrap().resolution, Resolution::Resolved(Outcome::Dismissed));
}

#[test]
fn duplicate_decision_changes_nothing() {
    let mut store = ReportStore::new();
    store.create(draft("a", 5, 1), 1).ok().unwrap();
    store.claim_unset_batch();
    let won = store.resolve(1, Outcome::Dismissed).ok().unwrap();
    assert_eq!(won.resolution, Resolution::Resolved(Outcome::Dismissed));
    let dup = store.resolve(1, Outcome::Dismissed);
    assert_eq!(dup.err(), Some(ConflictError::AlreadyResolved(Outcome::Dismissed)));
    assert_eq!(store.get(1).unwrap().resolution, Resolution::Resolved(Outcome::Dismissed));
}

#[test]
fn conflicting_decisions_first_wins() {
    let mut store = ReportStore::new();
    store.create(draft("a", 5, 1), 1).ok().unwrap();
    store.claim_unset_batch();
    store.resolve(1, Outcome::Banned).ok().unwrap();
    let lost = store.resolve(1, Outcome::Dismissed);
    assert_eq!(lost.err(), Some(ConflictError::AlreadyResolved(Outcome::Banned)));
    assert_eq!(store.get(1).unwrap().resolution, Resolution::Resolved(Outcome::Banned));
}

#[test]
fn resolution_never_regresses() {
    let mut store = ReportStore::new();
    store.create(draft("a", 5, 1), 1).ok().unwrap();
    assert_eq!(store.resolve(1, Outcome::Banned).err(), Some(ConflictError::NotYetPending));
    assert_eq!(store.get(1).unwrap().resolution, Resolution::Unset);
    store.claim_unset_batch();
    store.claim_unset_batch();
    assert_eq!(store.get(1).unwrap().resolution, Resolution::PendingDecision);
    store.resolve(1, Outcome::Banned).ok().unwrap();
    store.claim_unset_batch();
    store.resolve(1, Outcome::Dismissed).err().unwrap();
    assert_eq!(store.get(1).unwrap().resolution, Resolution::Resolved(Outcome::Banned));
}

#[test]
fn unknown_report_is_a_fault() {
    let mut store = ReportStore::new();
    assert_eq!(store.resolve(3, Outcome::Banned).err(), Some(ConflictError::UnknownReport));
    assert_eq!(
        handle_decision(&mut store, "y3"),
        DecisionEffect::Fault(ConflictError::UnknownReport)
    );
}

#[test]
fn decision_before_claim_is_a_fault() {
    let mut store = ReportStore::new();
    store.create(draft("a", 5, 1), 1).ok().unwrap();
    assert_eq!(
        handle_decision(&mut store, "n1"),
        DecisionEffect::Fault(ConflictError::NotYetPending)
    );
    assert_eq!(store.get(1).unwrap().resolution, Resolution::Unset);
}

#[test]
fn malformed_token_is_ignored() {
    let mut store = ReportStore::new();
    store.create(draft("a", 5, 1), 1).ok().unwrap();
    store.claim_unset_batch();
    for bad in ["", "y", "x1", "Y1", "y1a", "y 1", "1"] {
        assert_eq!(handle_decision(&mut store, bad), DecisionEffect::Ignored);
    }
    assert_eq!(store.get(1).unwrap().resolution, Resolution::PendingDecision);
}

#[test]
fn lookup_returns_latest_banned() {
    let mut store = ReportStore::new();
    store.create(draft("first", 42, 1), 1).ok().unwrap();
    store.create(draft("other", 43, 1), 2).ok().unwrap();
    store.create(draft("second", 42, 1), 3).ok().unwrap();
    store.create(draft("third", 42, 1), 4).ok().unwrap();
    store.claim_unset_batch();
    store.resolve(1, Outcome::Banned).ok().unwrap();
    store.resolve(2, Outcome::Banned).ok().unwrap();
    store.resolve(3, Outcome::Banned).ok().unwrap();
    store.resolve(4, Outcome::Dismissed).ok().unwrap();
    let found = store.get_by_subject(42).unwrap();
    assert_eq!(found.id, 3);
    assert_eq!(found.message, "second");
    assert!(store.get_by_subject(44).is_none());
}

#[test]
fn submission_is_stored_and_prompted() {
    let mut store = ReportStore::new();
    let input = InputReport { message: "spam".to_string(), user_id: 42 };
    let (created, prompts) = submit_report(&mut store, NewReport::from_input(input, 7), 99);
    let rep = created.ok().unwrap();
    assert_eq!(rep.id, 1);
    assert_eq!(rep.message, "spam");
    assert_eq!(rep.user_id, 42);
    assert_eq!(rep.account_id, 7);
    assert_eq!(rep.reported_at, 99);
    assert_eq!(rep.resolution, Resolution::Unset);
    assert_eq!(prompts.len(), 1);
    assert_eq!(prompts[0].text, "📋 1 - ✍️ 7 - 🧑 42\n\nspam");
    assert_eq!(store.get(1).unwrap().resolution, Resolution::PendingDecision);

    let second = submit_report(&mut store, draft("more", 43, 8), 100).0.ok().unwrap();
    assert_eq!(second.id, 2);
    assert_eq!(store.len(), 2);
}

#[test]
fn rejected_submission_changes_nothing() {
    let mut store = ReportStore::new();
    store.create(draft("waiting", 5, 1), 1).ok().unwrap();
    let (created, prompts) = submit_report(&mut store, draft("", 42, 7), 2);
    assert_eq!(created.err(), Some(CreateError::Validation(ValidationError::EmptyMessage)));
    assert!(prompts.is_empty());
    let (created, prompts) = submit_report(&mut store, draft("spam", 0, 7), 3);
    assert_eq!(created.err(), Some(CreateError::Validation(ValidationError::NonPositiveSubject)));
    assert!(prompts.is_empty());
    let (created, prompts) = submit_report(&mut store, draft("spam", -5, 7), 4);
    assert_eq!(created.err(), Some(CreateError::Validation(ValidationError::NonPositiveSubject)));
    assert!(prompts.is_empty());
    assert_eq!(store.len(), 1);
    assert_eq!(store.get(1).unwrap().resolution, Resolution::Unset);
}

#[test]
fn report_times_never_go_back() {
    let mut store = ReportStore::new();
    let first = store.create(draft("a", 42, 1), 10).ok().unwrap();
    let second = store.create(draft("b", 42, 1), 5).ok().unwrap();
    let third = store.create(draft("c", 42, 1), 12).ok().unwrap();
    assert_eq!(first.reported_at, 10);
    assert_eq!(second.reported_at, 10);
    assert_eq!(third.reported_at, 12);
    let batch = store.claim_unset_batch();
    let order: Vec<(i64, i32)> = batch.iter().map(|r| (r.reported_at, r.id)).collect();
    assert_eq!(order, vec![(10, 1), (10, 2), (12, 3)]);
    store.resolve(1, Outcome::Banned).ok().unwrap();
    store.resolve(2, Outcome::Banned).ok().unwrap();
    let found = store.get_by_subject(42).unwrap();
    assert_eq!(found.id, 2);
    assert_eq!(found.reported_at, 10);
}

#[test]
fn restore_in_id_order() {
    let mut source = ReportStore::new();
    source.create(draft("a", 1, 1), 1).ok().unwrap();
    source.create(draft("b", 2, 1), 2).ok().unwrap();
    source.claim_unset_batch();
    source.resolve(2, Outcome::Banned).ok().unwrap();

    let mut store = ReportStore::new();
    assert!(!store.restore(source.get(2).unwrap()));
    assert_eq!(store.len(), 0);
    assert!(store.restore(source.get(1).unwrap()));
    assert!(!store.restore(source.get(1).unwrap()));
    assert!(store.restore(source.get(2).unwrap()));
    assert_eq!(store.len(), 2);
    assert_eq!(store.get_by_subject(2).unwrap().id, 2);
    let next = store.create(draft("c", 3, 1), 3).ok().unwrap();
    assert_eq!(next.id, 3);

    let mut other = ReportStore::new();
    let mut late = source.get(1).unwrap();
    late.reported_at = 50;
    assert!(other.restore(late));
    assert!(!other.restore(source.get(2).unwrap()));
    assert_eq!(other.len(), 1);
}

#[test]
fn prompts_converge_on_first_decision() {
    let mut store = ReportStore::new();
    store.create(draft("spam", 42, 7), 10).ok().unwrap();
    let prompts = sweep_tick(&mut store);
    let first = handle_decision(&mut store, &prompts[0].dismiss_token);
    let second = handle_decision(&mut store, &prompts[0].ban_token);
    let settled = DecisionEffect::Settled { report_id: 1, outcome: Outcome::Dismissed, ban_subject: None };
    assert_eq!(first, settled);
    assert_eq!(second, settled);
    assert_eq!(store.get(1).unwrap().resolution, Resolution::Resolved(Outcome::Dismissed));
    assert!(store.get_by_subject(42).is_none());
}
