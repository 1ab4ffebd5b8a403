//! The report store: the single shared state of the relay. Every change to
//! a report is one of its conditional transitions, so two callers can never
//! both claim, or both decide, the same report.
use vstd::prelude::*;

use crate::report::{
    is_banned_spec, validation_spec, views, NewReport, Report, ReportView, ValidationError,
};
use crate::resolution::{
    advances, claim_spec, lemma_no_regression, resolve_spec, ConflictError, Outcome, Resolution,
};

verus! {

/// The largest report id.
pub const MAX_REPORT_ID: i32 = 0x7fff_ffff;

/// Why a report could not be created.
#[derive(Clone, Copy, Debug, PartialEq, Eq, Structural)]
pub enum CreateError {
    Validation(ValidationError),
    /// Every report id has been handed out.
    IdsExhausted,
}

/// Reports are numbered from 1 in the order of their creation, and their
/// times of report never decrease with their ids.
pub open spec fn well_formed(s: Seq<ReportView>) -> bool {
    &&& s.len() <= MAX_REPORT_ID
    &&& forall|i: int| 0 <= i < s.len() ==> #[trigger] s[i].id == i + 1
    &&& forall|i: int, j: int|
        0 <= i <= j < s.len() ==> #[trigger] s[i].reported_at <= #[trigger] s[j].reported_at
}

/// The time of report that `create` records at `now`: `now`, or the latest
/// report's time if `now` lies before it.
pub open spec fn report_time(s: Seq<ReportView>, now: int) -> int {
    if s.len() > 0 && s.last().reported_at > now {
        s.last().reported_at
    } else {
        now
    }
}

/// `r` is a report about `user_id` that was resolved with a ban.
pub open spec fn banned_about(r: ReportView, user_id: int) -> bool {
    r.user_id == user_id && is_banned_spec(r)
}

/// The report `r` with its resolution replaced.
pub open spec fn with_resolution(r: ReportView, res: Resolution) -> ReportView {
    ReportView { resolution: res, ..r }
}

/// `b` is a later state of the store `a`: no report was removed, none changed
/// but in its resolution, and each resolution moved only forward.
pub open spec fn store_advances(a: Seq<ReportView>, b: Seq<ReportView>) -> bool {
    &&& a.len() <= b.len()
    &&& forall|i: int|
        0 <= i < a.len() ==> #[trigger] b[i] == with_resolution(a[i], b[i].resolution) && advances(
            a[i].resolution,
            b[i].resolution,
        )
}

/// The report that `create` adds to the store `s`.
pub open spec fn fresh_report(
    s: Seq<ReportView>,
    message: Seq<char>,
    user_id: int,
    account_id: int,
    now: int,
) -> ReportView {
    ReportView {
        id: s.len() + 1int,
        message,
        user_id,
        account_id,
        reported_at: report_time(s, now),
        resolution: Resolution::Unset,
    }
}

/// The store after a sweep's claim: every unset report is pending.
pub open spec fn claimed_all(s: Seq<ReportView>) -> Seq<ReportView> {
    s.map_values(|r: ReportView| with_resolution(r, claim_spec(r.resolution)))
}

/// What a sweep's claim returns: the reports that were unset, oldest first,
/// as they stand after the claim.
pub open spec fn claimed_batch(s: Seq<ReportView>) -> Seq<ReportView>
    decreases s.len(),
{
    if s.len() == 0 {
        Seq::empty()
    } else {
        let rest = claimed_batch(s.drop_last());
        if s.last().resolution == Resolution::Unset {
            rest.push(with_resolution(s.last(), Resolution::PendingDecision))
        } else {
            rest
        }
    }
}

/// All that `n` sweeps in a row claim, one after the other.
pub open spec fn claim_rounds(s: Seq<ReportView>, n: nat) -> Seq<ReportView>
    decreases n,
{
    if n == 0 {
        Seq::empty()
    } else {
        claimed_batch(s) + claim_rounds(claimed_all(s), (n - 1) as nat)
    }
}

/// What deciding `o` on report `id` returns.
pub open spec fn resolve_outcome(s: Seq<ReportView>, id: int, o: Outcome) -> Result<
    ReportView,
    ConflictError,
> {
    if 1 <= id <= s.len() {
        match resolve_spec(s[id - 1].resolution, o) {
            Ok(n) => Ok(with_resolution(s[id - 1], n)),
            Err(e) => Err(e),
        }
    } else {
        Err(ConflictError::UnknownReport)
    }
}

/// The store after deciding `o` on report `id`.
pub open spec fn resolved_store(s: Seq<ReportView>, id: int, o: Outcome) -> Seq<ReportView> {
    match resolve_outcome(s, id, o) {
        Ok(r) => s.update(id - 1, r),
        Err(_) => s,
    }
}

/// The store never regresses: a later state of a later state is a later
/// state, so across any run of operations a pending report is never seen
/// unset again, and a resolved report never changes.
pub proof fn lemma_store_no_regression(a: Seq<ReportView>, b: Seq<ReportView>, c: Seq<ReportView>)
    requires
        store_advances(a, b),
        store_advances(b, c),
    ensures
        store_advances(a, c),
        forall|i: int|
            0 <= i < a.len() && a[i].resolution == Resolution::PendingDecision ==> #[trigger] c[i].resolution
                != Resolution::Unset,
        forall|i: int|
            0 <= i < a.len() && a[i].resolution is Resolved ==> #[trigger] c[i].resolution
                == a[i].resolution,
{
    assert forall|i: int| 0 <= i < a.len() implies #[trigger] c[i] == with_resolution(
        a[i],
        c[i].resolution,
    ) && advances(a[i].resolution, c[i].resolution) by {
        assert(b[i] == with_resolution(a[i], b[i].resolution));
        lemma_no_regression(a[i].resolution, b[i].resolution, c[i].resolution);
    }
    assert forall|i: int| 0 <= i < a.len() && a[i].resolution == Resolution::PendingDecision implies #[trigger] c[i].resolution
        != Resolution::Unset by {
        lemma_no_regression(a[i].resolution, b[i].resolution, c[i].resolution);
    }
    assert forall|i: int| 0 <= i < a.len() && a[i].resolution is Resolved implies #[trigger] c[i].resolution
        == a[i].resolution by {
        lemma_no_regression(a[i].resolution, b[i].resolution, c[i].resolution);
    }
}

/// Report `id` is among the reports of `b`.
pub open spec fn claims(b: Seq<ReportView>, id: int) -> bool {
    exists|j: int| 0 <= j < b.len() && #[trigger] b[j].id == id
}

proof fn lemma_resolutions_keep_well_formed(a: Seq<ReportView>, b: Seq<ReportView>)
    requires
        well_formed(a),
        a.len() == b.len(),
        forall|i: int| 0 <= i < a.len() ==> #[trigger] b[i] == with_resolution(a[i], b[i].resolution),
    ensures
        well_formed(b),
{
    assert forall|i: int| 0 <= i < b.len() implies #[trigger] b[i].id == i + 1 by {
        assert(b[i] == with_resolution(a[i], b[i].resolution));
    }
    assert forall|i: int, j: int| 0 <= i <= j < b.len() implies #[trigger] b[i].reported_at
        <= #[trigger] b[j].reported_at by {
        assert(b[i] == with_resolution(a[i], b[i].resolution));
        assert(b[j] == with_resolution(a[j], b[j].resolution));
        assert(a[i].reported_at <= a[j].reported_at);
    }
}

proof fn lemma_batch_step(s: Seq<ReportView>)
    requires
        s.len() > 0,
    ensures
        claimed_batch(s).len() >= claimed_batch(s.drop_last()).len(),
        forall|j: int|
            0 <= j < claimed_batch(s.drop_last()).len() ==> #[trigger] claimed_batch(s)[j]
                == claimed_batch(s.drop_last())[j],
        s.last().resolution == Resolution::Unset ==> claimed_batch(s) == claimed_batch(
            s.drop_last(),
        ).push(with_resolution(s.last(), Resolution::PendingDecision)),
        s.last().resolution != Resolution::Unset ==> claimed_batch(s) == claimed_batch(
            s.drop_last(),
        ),
{
}

proof fn lemma_prefix_well_formed(s: Seq<ReportView>)
    requires
        well_formed(s),
        s.len() > 0,
    ensures
        well_formed(s.drop_last()),
        s.last().id == s.len(),
{
    let t = s.drop_last();
    assert forall|i: int| 0 <= i < t.len() implies #[trigger] t[i].id == i + 1 by {
        assert(t[i] == s[i]);
    }
    assert forall|i: int, j: int| 0 <= i <= j < t.len() implies #[trigger] t[i].reported_at
        <= #[trigger] t[j].reported_at by {
        assert(t[i] == s[i]);
        assert(t[j] == s[j]);
    }
}

proof fn lemma_batch_members(s: Seq<ReportView>)
    requires
        well_formed(s),
    ensures
        forall|j: int|
            0 <= j < claimed_batch(s).len() ==> {
                let r = #[trigger] claimed_batch(s)[j];
                &&& 1 <= r.id <= s.len()
                &&& s[r.id - 1].resolution == Resolution::Unset
                &&& r == with_resolution(s[r.id - 1], Resolution::PendingDecision)
            },
    decreases s.len(),
{
    if s.len() > 0 {
        let t = s.drop_last();
        lemma_prefix_well_formed(s);
        lemma_batch_members(t);
        lemma_batch_step(s);
        let bt = claimed_batch(t);
        let b = claimed_batch(s);
        assert forall|j: int| 0 <= j < b.len() implies {
            let r = #[trigger] b[j];
            &&& 1 <= r.id <= s.len()
            &&& s[r.id - 1].resolution == Resolution::Unset
            &&& r == with_resolution(s[r.id - 1], Resolution::PendingDecision)
        } by {
            if j < bt.len() {
                assert(b[j] == bt[j]);
                assert(s[bt[j].id - 1] == t[bt[j].id - 1]);
            }
        }
    }
}

proof fn lemma_batch_ordered(s: Seq<ReportView>)
    requires
        well_formed(s),
    ensures
        forall|j: int, k: int|
            0 <= j < k < claimed_batch(s).len() ==> #[trigger] claimed_batch(s)[j].id
                < #[trigger] claimed_batch(s)[k].id,
    decreases s.len(),
{
    if s.len() > 0 {
        let t = s.drop_last();
        lemma_prefix_well_formed(s);
        lemma_batch_ordered(t);
        lemma_batch_members(t);
        lemma_batch_step(s);
        let bt = claimed_batch(t);
        let b = claimed_batch(s);
        assert forall|j: int, k: int| 0 <= j < k < b.len() implies #[trigger] b[j].id
            < #[trigger] b[k].id by {
            assert(b[j] == bt[j]);
            if k < bt.len() {
                assert(b[k] == bt[k]);
            }
        }
    }
}

/// A claim returns its reports oldest first: by increasing id, and so by
/// time of report.
pub proof fn lemma_batch_oldest_first(s: Seq<ReportView>)
    requires
        well_formed(s),
    ensures
        forall|j: int, k: int|
            0 <= j < k < claimed_batch(s).len() ==> #[trigger] claimed_batch(s)[j].id
                < #[trigger] claimed_batch(s)[k].id && claimed_batch(s)[j].reported_at
                <= claimed_batch(s)[k].reported_at,
{
    lemma_batch_ordered(s);
    lemma_batch_members(s);
    let b = claimed_batch(s);
    assert forall|j: int, k: int| 0 <= j < k < b.len() implies #[trigger] b[j].id
        < #[trigger] b[k].id && b[j].reported_at <= b[k].reported_at by {
        let x = b[j].id - 1;
        let y = b[k].id - 1;
        assert(s[x].reported_at <= s[y].reported_at);
    }
}

proof fn lemma_batch_complete(s: Seq<ReportView>)
    requires
        well_formed(s),
    ensures
        forall|i: int|
            0 <= i < s.len() && #[trigger] s[i].resolution == Resolution::Unset ==> claims(
                claimed_batch(s),
                i + 1,
            ),
    decreases s.len(),
{
    if s.len() > 0 {
        let t = s.drop_last();
        lemma_prefix_well_formed(s);
        lemma_batch_complete(t);
        lemma_batch_step(s);
        let bt = claimed_batch(t);
        let b = claimed_batch(s);
        assert forall|i: int| 0 <= i < s.len() && #[trigger] s[i].resolution
            == Resolution::Unset implies claims(b, i + 1) by {
            if i < t.len() {
                assert(t[i] == s[i]);
                assert(claims(bt, i + 1));
                let j = choose|j: int| 0 <= j < bt.len() && #[trigger] bt[j].id == i + 1;
                assert(b[j] == bt[j]);
            } else {
                assert(b[b.len() - 1].id == i + 1);
            }
        }
    }
}

proof fn lemma_batch_without_unset(s: Seq<ReportView>)
    requires
        forall|i: int| 0 <= i < s.len() ==> #[trigger] s[i].resolution != Resolution::Unset,
    ensures
        claimed_batch(s) == Seq::<ReportView>::empty(),
    decreases s.len(),
{
    if s.len() > 0 {
        let t = s.drop_last();
        assert forall|i: int| 0 <= i < t.len() implies #[trigger] t[i].resolution
            != Resolution::Unset by {
            assert(t[i] == s[i]);
        }
        lemma_batch_without_unset(t);
    }
}

proof fn lemma_rounds_after_claim(s: Seq<ReportView>, n: nat)
    ensures
        claim_rounds(claimed_all(s), n) == Seq::<ReportView>::empty(),
    decreases n,
{
    if n > 0 {
        let c = claimed_all(s);
        lemma_batch_without_unset(c);
        assert(claimed_all(c) =~= c);
        lemma_rounds_after_claim(s, (n - 1) as nat);
        assert(claim_rounds(c, n) =~= Seq::<ReportView>::empty());
    }
}

/// Sweeps claim each unset report exactly once: however many claims run one
/// after another, together they return what the first one returns, which
/// holds each report that was unset exactly once, pending, and no other.
pub proof fn lemma_claim_exactly_once(s: Seq<ReportView>, n: nat)
    requires
        well_formed(s),
        n >= 1,
    ensures
        claim_rounds(s, n) == claimed_batch(s),
        forall|i: int|
            0 <= i < s.len() ==> (#[trigger] s[i].resolution == Resolution::Unset <==> claims(
                claimed_batch(s),
                s[i].id,
            )),
        forall|j: int, k: int|
            0 <= j < k < claimed_batch(s).len() ==> #[trigger] claimed_batch(s)[j].id
                != #[trigger] claimed_batch(s)[k].id,
        forall|j: int|
            0 <= j < claimed_batch(s).len() ==> {
                let r = #[trigger] claimed_batch(s)[j];
                &&& 1 <= r.id <= s.len()
                &&& r == with_resolution(s[r.id - 1], Resolution::PendingDecision)
            },
{
    lemma_rounds_after_claim(s, (n - 1) as nat);
    assert(claim_rounds(s, n) =~= claimed_batch(s));
    lemma_batch_members(s);
    lemma_batch_ordered(s);
    lemma_batch_complete(s);
    let b = claimed_batch(s);
    assert forall|i: int| 0 <= i < s.len() implies (#[trigger] s[i].resolution
        == Resolution::Unset <==> claims(b, s[i].id)) by {
        if claims(b, s[i].id) {
            let j = choose|j: int| 0 <= j < b.len() && #[trigger] b[j].id == s[i].id;
            assert(b[j].id == i + 1);
        }
    }
}

/// Two decisions on one pending report, one after the other (as the store
/// serialises concurrent ones): the first is stored and changes that report
/// alone; the second changes nothing and learns the outcome that won.
pub proof fn lemma_conflicting_decisions(
    s: Seq<ReportView>,
    id: int,
    first: Outcome,
    second: Outcome,
)
    requires
        1 <= id <= s.len(),
        s[id - 1].resolution == Resolution::PendingDecision,
    ensures
        resolve_outcome(s, id, first) == Ok::<ReportView, ConflictError>(
            with_resolution(s[id - 1], Resolution::Resolved(first)),
        ),
        resolved_store(s, id, first)[id - 1].resolution == Resolution::Resolved(first),
        forall|i: int|
            0 <= i < s.len() && i != id - 1 ==> #[trigger] resolved_store(s, id, first)[i] == s[i],
        resolve_outcome(resolved_store(s, id, first), id, second) == Err::<
            ReportView,
            ConflictError,
        >(ConflictError::AlreadyResolved(first)),
        resolved_store(resolved_store(s, id, first), id, second) == resolved_store(s, id, first),
{
}

/// Deciding the same outcome twice on a pending report (a duplicate
/// delivery) makes one transition; the second call reports the stored
/// outcome and leaves the store as it is.
pub proof fn lemma_resolve_idempotent(s: Seq<ReportView>, id: int, o: Outcome)
    requires
        1 <= id <= s.len(),
        s[id - 1].resolution == Resolution::PendingDecision,
    ensures
        resolved_store(s, id, o)[id - 1].resolution == Resolution::Resolved(o),
        resolve_outcome(resolved_store(s, id, o), id, o) == Err::<ReportView, ConflictError>(
            ConflictError::AlreadyResolved(o),
        ),
        resolved_store(resolved_store(s, id, o), id, o) == resolved_store(s, id, o),
{
    lemma_conflicting_decisions(s, id, o, o);
}

/// The reports, held in the order of their ids.
pub struct ReportStore {
    reports: Vec<Report>,
}

impl View for ReportStore {
    type V = Seq<ReportView>;

    closed spec fn view(&self) -> Seq<ReportView> {
        views(self.reports@)
    }
}

impl ReportStore {
    pub open spec fn wf(&self) -> bool {
        well_formed(self@)
    }

    /// An empty store.
    pub fn new() -> (s: ReportStore)
        ensures
            s.wf(),
            s@ == Seq::<ReportView>::empty(),
    {
        let s = ReportStore { reports: Vec::new() };
        assert(s@ =~= Seq::<ReportView>::empty());
        s
    }

    /// The number of reports.
    pub fn len(&self) -> (n: usize)
        ensures
            n == self@.len(),
    {
        self.reports.len()
    }

    /// The report with id `id`, if there is one.
    pub fn get(&self, id: i32) -> (r: Option<Report>)
        requires
            self.wf(),
        ensures
            match r {
                Some(rep) => 1 <= id <= self@.len() && rep@ == self@[id - 1],
                None => !(1 <= id <= self@.len()),
            },
    {
        if id < 1 || id as usize > self.reports.len() {
            None
        } else {
            Some(self.reports[(id - 1) as usize].snapshot())
        }
    }

    /// Takes back a report that was kept elsewhere: it is added only when its
    /// id is the next one and its time is not before the latest report's, so
    /// reports come back in the order of their ids and times.
    pub fn restore(&mut self, report: Report) -> (ok: bool)
        requires
            old(self).wf(),
        ensures
            final(self).wf(),
            store_advances(old(self)@, final(self)@),
            ok <==> report@.id == old(self)@.len() + 1 && (old(self)@.len() == 0
                || old(self)@.last().reported_at <= report@.reported_at),
            ok ==> final(self)@ == old(self)@.push(report@),
            !ok ==> final(self)@ == old(self)@,
    {
        let n = self.reports.len();
        if n >= MAX_REPORT_ID as usize || report.id < 1 || report.id as usize != n + 1 {
            return false;
        }
        if n > 0 && self.reports[n - 1].reported_at > report.reported_at {
            return false;
        }
        let ghost v = report@;
        self.reports.push(report);
        assert(self@ =~= old(self)@.push(v));
        proof {
            assert forall|i: int, j: int| 0 <= i <= j < self@.len() implies #[trigger] self@[i].reported_at
                <= #[trigger] self@[j].reported_at by {
                if j == n && i < n {
                    assert(old(self)@[i].reported_at <= old(self)@[n - 1].reported_at);
                }
            }
        }
        true
    }

    /// Adds a report from a valid submission, unset, with the next id and
    /// `now` as its time of report.
    pub fn create(&mut self, draft: NewReport, now: i64) -> (r: Result<Report, CreateError>)
        requires
            old(self).wf(),
        ensures
            final(self).wf(),
            store_advances(old(self)@, final(self)@),
            match r {
                Ok(rep) => {
                    &&& validation_spec(draft.message@, draft.user_id as int) is None
                    &&& old(self)@.len() < MAX_REPORT_ID
                    &&& rep@ == fresh_report(
                        old(self)@,
                        draft.message@,
                        draft.user_id as int,
                        draft.account_id as int,
                        now as int,
                    )
                    &&& final(self)@ == old(self)@.push(rep@)
                },
                Err(CreateError::Validation(e)) => {
                    &&& validation_spec(draft.message@, draft.user_id as int) == Some(e)
                    &&& final(self)@ == old(self)@
                },
                Err(CreateError::IdsExhausted) => {
                    &&& validation_spec(draft.message@, draft.user_id as int) is None
                    &&& old(self)@.len() >= MAX_REPORT_ID
                    &&& final(self)@ == old(self)@
                },
            },
    {
        if let Err(e) = draft.validate() {
            return Err(CreateError::Validation(e));
        }
        let n = self.reports.len();
        if n >= MAX_REPORT_ID as usize {
            return Err(CreateError::IdsExhausted);
        }
        let reported_at = if n > 0 && self.reports[n - 1].reported_at > now {
            self.reports[n - 1].reported_at
        } else {
            now
        };
        let rep = Report {
            id: (n + 1) as i32,
            message: draft.message,
            user_id: draft.user_id,
            account_id: draft.account_id,
            reported_at,
            resolution: Resolution::Unset,
        };
        let out = rep.snapshot();
        self.reports.push(rep);
        assert(self@ =~= old(self)@.push(out@));
        proof {
            if n > 0 {
                assert(old(self)@.last() == old(self)@[n - 1]);
            }
            assert forall|i: int, j: int| 0 <= i <= j < self@.len() implies #[trigger] self@[i].reported_at
                <= #[trigger] self@[j].reported_at by {
                if j == n && i < n {
                    assert(old(self)@[i].reported_at <= old(self)@[n - 1].reported_at);
                }
            }
        }
        Ok(out)
    }

    /// Claims every unset report for a moderator prompt in one step: they all
    /// become pending, and they are returned oldest first.
    pub fn claim_unset_batch(&mut self) -> (r: Vec<Report>)
        requires
            old(self).wf(),
        ensures
            final(self).wf(),
            final(self)@ == claimed_all(old(self)@),
            views(r@) == claimed_batch(old(self)@),
            store_advances(old(self)@, final(self)@),
            forall|j: int, k: int|
                #![trigger r@[j], r@[k]]
                0 <= j < k < r@.len() ==> r@[j].id < r@[k].id && r@[j].reported_at
                    <= r@[k].reported_at,
    {
        let ghost s0 = self@;
        proof { lemma_batch_oldest_first(s0); }
        let mut out: Vec<Report> = Vec::new();
        let n = self.reports.len();
        let mut i: usize = 0;
        while i < n
            invariant
                n == self.reports.len(),
                s0.len() == n,
                0 <= i <= n,
                forall|j: int|
                    0 <= j < i ==> #[trigger] self@[j] == with_resolution(
                        s0[j],
                        claim_spec(s0[j].resolution),
                    ),
                forall|j: int| i <= j < n ==> #[trigger] self@[j] == s0[j],
                views(out@) == claimed_batch(s0.subrange(0, i as int)),
            decreases n - i,
        {
            let ghost before = self@;
            let ghost out0 = out@;
            assert(s0.subrange(0, i + 1).drop_last() =~= s0.subrange(0, i as int));
            assert(s0.subrange(0, i + 1).last() == s0[i as int]);
            assert(before[i as int] == s0[i as int]);
            if let Resolution::Unset = self.reports[i].resolution {
                let mut rep = self.reports[i].snapshot();
                rep.resolution = Resolution::PendingDecision;
                out.push(rep.snapshot());
                assert(rep@ == with_resolution(s0[i as int], Resolution::PendingDecision));
                self.reports.set(i, rep);
                assert(self@ =~= before.update(
                    i as int,
                    with_resolution(s0[i as int], Resolution::PendingDecision),
                ));
                assert(views(out@) =~= views(out0).push(self@[i as int]));
            } else {
                assert(self@ =~= before);
            }
            i = i + 1;
        }
        assert(self@ =~= claimed_all(s0));
        assert(s0.subrange(0, n as int) =~= s0);
        proof {
            assert forall|j: int| 0 <= j < n implies #[trigger] self@[j] == with_resolution(
                s0[j],
                self@[j].resolution,
            ) by {}
            lemma_resolutions_keep_well_formed(s0, self@);
        }
        let ghost b = claimed_batch(s0);
        assert(views(out@) == b);
        assert forall|j: int, k: int|
            #![trigger out@[j], out@[k]]
            0 <= j < k < out@.len() implies out@[j].id < out@[k].id && out@[j].reported_at
                <= out@[k].reported_at by {
            assert(views(out@)[j] == out@[j]@);
            assert(views(out@)[k] == out@[k]@);
            assert(b[j].id < b[k].id && b[j].reported_at <= b[k].reported_at);
        }
        out
    }

    /// Decides `outcome` on report `id`: only a pending report becomes
    /// resolved; otherwise the store is left as it is and the error says why.
    pub fn resolve(&mut self, id: i32, outcome: Outcome) -> (r: Result<Report, ConflictError>)
        requires
            old(self).wf(),
        ensures
            final(self).wf(),
            final(self)@ == resolved_store(old(self)@, id as int, outcome),
            store_advances(old(self)@, final(self)@),
            match r {
                Ok(rep) => resolve_outcome(old(self)@, id as int, outcome) == Ok::<
                    ReportView,
                    ConflictError,
                >(rep@),
                Err(e) => resolve_outcome(old(self)@, id as int, outcome) == Err::<
                    ReportView,
                    ConflictError,
                >(e),
            },
    {
        if id < 1 || id as usize > self.reports.len() {
            return Err(ConflictError::UnknownReport);
        }
        let idx = (id - 1) as usize;
        match self.reports[idx].resolution.resolved_with(outcome) {
            Ok(next) => {
                let mut rep = self.reports[idx].snapshot();
                rep.resolution = next;
                let out = rep.snapshot();
                self.reports.set(idx, rep);
                assert(self@ =~= resolved_store(old(self)@, id as int, outcome));
                proof {
                    assert forall|j: int| 0 <= j < self@.len() implies #[trigger] self@[j]
                        == with_resolution(old(self)@[j], self@[j].resolution) by {}
                    lemma_resolutions_keep_well_formed(old(self)@, self@);
                }
                Ok(out)
            },
            Err(e) => Err(e),
        }
    }

    /// The most recent report about `user_id` that was resolved with a ban:
    /// the one with the largest id, and so the latest time of report.
    pub fn get_by_subject(&self, user_id: i64) -> (r: Option<Report>)
        requires
            self.wf(),
        ensures
            match r {
                Some(rep) => {
                    &&& 1 <= rep@.id <= self@.len()
                    &&& rep@ == self@[rep@.id - 1]
                    &&& banned_about(rep@, user_id as int)
                    &&& forall|i: int|
                        0 <= i < self@.len() && banned_about(#[trigger] self@[i], user_id as int)
                            ==> self@[i].id <= rep@.id && self@[i].reported_at <= rep@.reported_at
                },
                None => forall|i: int|
                    0 <= i < self@.len() ==> !banned_about(#[trigger] self@[i], user_id as int),
            },
    {
        let n = self.reports.len();
        let mut i: usize = n;
        while i > 0
            invariant
                n == self@.len(),
                i <= n,
                forall|j: int| i <= j < n ==> !banned_about(#[trigger] self@[j], user_id as int),
                well_formed(self@),
            decreases i,
        {
            i = i - 1;
            if self.reports[i].user_id == user_id && self.reports[i].is_banned() {
                let rep = self.reports[i].snapshot();
                assert(self@[i as int] == self.reports@[i as int]@);
                assert(self@[i as int].id == i + 1);
                assert forall|j: int| 0 <= j < n && banned_about(#[trigger] self@[j], user_id as int)
                    implies self@[j].id <= rep@.id && self@[j].reported_at <= rep@.reported_at by {
                    assert(j <= i);
                    assert(self@[j].id == j + 1);
                    assert(self@[j].reported_at <= self@[i as int].reported_at);
                }
                return Some(rep);
            }
            assert(!banned_about(self@[i as int], user_id as int));
        }
        None
    }
}

} // verus!
