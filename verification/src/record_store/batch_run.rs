//! Creating a batch: from step to step, by what each step came to.
//!
//! The locks of the partitions are taken one by one, in order. Then all
//! partitions are read, their rows are composed, all locks are renewed, the rows
//! are written together, and the locks are released. The caller performs each
//! step and reports what it came to.
use crate::entity::{row_views, RowView, UsageRecordRow};
use crate::model::{
    answers_all, outcome_view, Candidate, ErrorView, UsageCollectorPluginError, UsageRecord,
    UsageRecordView,
};
use crate::record_store::batch::{
    composes, composes_all, is_new_plan, kept_positions, law_every_record_is_answered,
    law_expired_partition_is_not_written, lemma_kept_positions, plan_is_sound,
    with_expired_partition, with_failed_partition, with_failed_write, BatchPlan, BatchView,
};
use crate::record_store::dedup::partition_error;
use vstd::prelude::*;

verus! {

/// A failure, with its message.
#[derive(Debug)]
pub struct Failure {
    pub error: UsageCollectorPluginError,
    pub shown: String,
}

/// What a failure is for each record of a partition.
pub open spec fn failure_error(f: Failure) -> ErrorView {
    partition_error(f.error@, f.shown@)
}

/// What to do next.
#[derive(Debug, Clone, Copy, PartialEq, Eq, Structural)]
pub enum BatchStep {
    /// Take the lock of the partition.
    Lock(usize),
    /// Read the partitions whose locks were taken.
    Read,
    /// Release the locks of the partitions that failed.
    ReleaseDropped,
    /// Renew the locks that are held.
    Renew,
    /// Write the rows.
    Insert,
    /// Release the locks that are held.
    Release,
    /// Answer.
    Done,
}

/// What a [`BatchRun`] holds.
#[verifier::ext_equal]
pub struct BatchRunView {
    pub plan: BatchView,
    pub step: BatchStep,
    /// The partitions whose locks were taken.
    pub locked: Seq<usize>,
    /// Those of them that were composed.
    pub held: Seq<usize>,
    /// Those of them that failed.
    pub dropped: Seq<usize>,
    /// Those that were held whose locks were lost before the write.
    pub expired: Seq<usize>,
}

/// The creation of a batch, between two steps.
pub struct BatchRun {
    plan: BatchPlan,
    step: BatchStep,
    locked: Vec<usize>,
    held: Vec<usize>,
    dropped: Vec<usize>,
    expired: Vec<usize>,
}

impl View for BatchRun {
    type V = BatchRunView;

    closed spec fn view(&self) -> BatchRunView {
        BatchRunView {
            plan: self.plan@,
            step: self.step,
            locked: self.locked@,
            held: self.held@,
            dropped: self.dropped@,
            expired: self.expired@,
        }
    }
}

/// The positions ascend and are below the bound.
pub open spec fn ascends(ps: Seq<usize>, bound: int) -> bool {
    &&& forall|a: int| 0 <= a < ps.len() ==> (#[trigger] ps[a]) < bound
    &&& forall|a: int, b: int| 0 <= a < b < ps.len() ==> (#[trigger] ps[a]) < (#[trigger] ps[b])
}

/// Every row is of a partition that is held and was not lost.
pub open spec fn rows_are_held(v: BatchRunView) -> bool {
    forall|j: int|
        0 <= j < v.plan.row_partition.len() ==> v.held.contains(
            #[trigger] v.plan.row_partition[j],
        ) && !v.expired.contains(v.plan.row_partition[j])
}

/// Every partition has failed or been composed.
pub open spec fn all_settled(plan: BatchView) -> bool {
    forall|p: int| 0 <= p < plan.partitions.len() ==> #[trigger] plan.settled[p]
}

/// What holds between the steps.
pub open spec fn run_is_sound(v: BatchRunView) -> bool {
    &&& plan_is_sound(v.plan)
    &&& ascends(v.locked, v.plan.partitions.len() as int)
    &&& forall|p: usize| v.held.contains(p) ==> v.locked.contains(p)
    &&& match v.step {
        BatchStep::Lock(next) => {
            &&& next < v.plan.partitions.len()
            &&& ascends(v.locked, next as int)
            &&& v.plan.rows.len() == 0
            &&& v.held.len() == 0 && v.dropped.len() == 0 && v.expired.len() == 0
            &&& forall|p: int|
                0 <= p < v.plan.partitions.len() ==> ((#[trigger] v.plan.settled[p]) <==> p < next
                    && !v.locked.contains(p as usize))
        },
        BatchStep::Read => {
            &&& v.plan.rows.len() == 0
            &&& v.held.len() == 0 && v.dropped.len() == 0 && v.expired.len() == 0
            &&& forall|p: int|
                0 <= p < v.plan.partitions.len() ==> ((#[trigger] v.plan.settled[p])
                    <==> !v.locked.contains(p as usize))
        },
        _ => {
            &&& all_settled(v.plan)
            &&& rows_are_held(v)
            &&& forall|p: usize| v.locked.contains(p) ==> v.held.contains(p) || v.dropped.contains(p)
            &&& (v.step is ReleaseDropped || v.step is Renew) ==> v.expired.len() == 0
        },
    }
}

/// The step after the lock of a partition was tried.
pub open spec fn step_after_lock(v: BatchRunView, p: usize) -> BatchStep {
    if p + 1 < v.plan.partitions.len() {
        BatchStep::Lock((p + 1) as usize)
    } else {
        BatchStep::Read
    }
}

/// The results of reading the partitions.
pub type ReadResults = Vec<Result<Vec<UsageRecordRow>, Failure>>;

/// Those of the partitions whose result is a success, or whose is a failure.
pub open spec fn parted(
    ps: Seq<usize>,
    results: Seq<Result<Vec<UsageRecordRow>, Failure>>,
    ok: bool,
) -> Seq<usize>
    decreases ps.len(),
{
    if ps.len() == 0 {
        Seq::empty()
    } else {
        let front = parted(ps.drop_last(), results, ok);
        if results[ps.len() - 1] is Ok == ok {
            front.push(ps.last())
        } else {
            front
        }
    }
}

/// What the result of reading a partition makes of a plan.
pub open spec fn reads<V: Fn(Candidate) -> Result<(), String>>(
    validate: V,
    version_base: u64,
    p: usize,
    result: Result<Vec<UsageRecordRow>, Failure>,
    before: BatchView,
    after: BatchView,
) -> bool {
    match result {
        Ok(rows) => exists|trace: Seq<BatchView>| #[trigger]
            composes_all(validate, version_base, p, row_views(rows@), before, trace, after),
        Err(f) => after == with_failed_partition(before, p, failure_error(f)),
    }
}

/// What the results of reading make of a plan, partition by partition.
pub open spec fn reads_all<V: Fn(Candidate) -> Result<(), String>>(
    validate: V,
    version_base: u64,
    ps: Seq<usize>,
    results: Seq<Result<Vec<UsageRecordRow>, Failure>>,
    plans: Seq<BatchView>,
) -> bool {
    &&& plans.len() == ps.len() + 1
    &&& forall|k: int|
        #![trigger plans[k]]
        0 <= k < ps.len() ==> reads(
            validate,
            version_base,
            ps[k],
            results[k],
            plans[k],
            plans[k + 1],
        )
}

/// The plan after the renewals of the first partitions.
pub open spec fn renewed_plan(
    plan: BatchView,
    ps: Seq<usize>,
    results: Seq<Result<(), Failure>>,
) -> BatchView
    decreases ps.len(),
{
    if ps.len() == 0 {
        plan
    } else {
        let front = renewed_plan(plan, ps.drop_last(), results);
        match results[ps.len() - 1] {
            Ok(_) => front,
            Err(f) => with_expired_partition(front, ps.last(), failure_error(f)),
        }
    }
}

/// Those of the partitions whose renewal failed.
pub open spec fn lost(ps: Seq<usize>, results: Seq<Result<(), Failure>>) -> Seq<usize>
    decreases ps.len(),
{
    if ps.len() == 0 {
        Seq::empty()
    } else {
        let front = lost(ps.drop_last(), results);
        match results[ps.len() - 1] {
            Ok(_) => front,
            Err(_) => front.push(ps.last()),
        }
    }
}

/// The run after the lock of the next partition was tried.
pub open spec fn after_lock(v: BatchRunView, result: Result<(), Failure>) -> BatchRunView {
    let p = v.step->Lock_0;
    BatchRunView {
        step: step_after_lock(v, p),
        locked: if result is Ok {
            v.locked.push(p)
        } else {
            v.locked
        },
        plan: match result {
            Ok(_) => v.plan,
            Err(f) => with_failed_partition(v.plan, p, failure_error(f)),
        },
        ..v
    }
}

/// The run after the partitions were read; `plans` holds the plans between the
/// reads.
pub open spec fn is_after_reads<V: Fn(Candidate) -> Result<(), String>>(
    validate: V,
    version_base: u64,
    v: BatchRunView,
    results: Seq<Result<Vec<UsageRecordRow>, Failure>>,
    plans: Seq<BatchView>,
    after: BatchRunView,
) -> bool {
    &&& after.step is ReleaseDropped
    &&& after.locked == v.locked
    &&& after.held == parted(v.locked, results, true)
    &&& after.dropped == parted(v.locked, results, false)
    &&& after.expired.len() == 0
    &&& plans[0] == v.plan
    &&& plans.last() == after.plan
    &&& reads_all(validate, version_base, v.locked, results, plans)
}

/// The run after the locks were renewed.
pub open spec fn after_renewals(
    v: BatchRunView,
    results: Seq<Result<(), Failure>>,
) -> BatchRunView {
    BatchRunView {
        step: BatchStep::Insert,
        plan: renewed_plan(v.plan, v.held, results),
        expired: lost(v.held, results),
        ..v
    }
}

/// The run after the write.
pub open spec fn after_write(v: BatchRunView, result: Result<(), Failure>) -> BatchRunView {
    BatchRunView {
        step: BatchStep::Release,
        plan: match result {
            Ok(_) => v.plan,
            Err(f) => with_failed_write(v.plan, failure_error(f)),
        },
        ..v
    }
}

impl BatchRun {
    /// Starts with the lock of the first partition.
    pub fn start(records: Vec<UsageRecord>) -> (r: Result<BatchRun, UsageCollectorPluginError>)
        ensures
            r is Ok <==> records@.len() > 0,
            r matches Ok(run) ==> run_is_sound(run@) && run@.step == BatchStep::Lock(0)
                && is_new_plan(run@.plan, records@.map_values(|r: UsageRecord| r@))
                && run@.locked.len() == 0,
            r matches Err(e) ==> e@ == ErrorView::Internal(
                "create_usage_records called with an empty batch (host-contract breach)"@,
            ),
    {
        match BatchPlan::new(records) {
            Ok(plan) => {
                proof {
                    crate::record_store::partition::lemma_every_record_has_a_partition(
                        crate::record_store::batch::record_types(plan@.records),
                        plan@.partitions,
                        0,
                    );
                }
                Ok(
                    BatchRun {
                        plan,
                        step: BatchStep::Lock(0),
                        locked: Vec::new(),
                        held: Vec::new(),
                        dropped: Vec::new(),
                        expired: Vec::new(),
                    },
                )
            },
            Err(e) => Err(e),
        }
    }

    /// What to do next.
    pub fn step(&self) -> (s: BatchStep)
        ensures
            s == self@.step,
    {
        self.step
    }

    /// The plan.
    pub fn plan(&self) -> (p: &BatchPlan)
        ensures
            p@ == self@.plan,
    {
        &self.plan
    }

    /// The partitions whose locks were taken.
    pub fn locked(&self) -> (r: &Vec<usize>)
        ensures
            r@ == self@.locked,
    {
        &self.locked
    }

    /// The partitions whose locks are held.
    pub fn held(&self) -> (r: &Vec<usize>)
        ensures
            r@ == self@.held,
    {
        &self.held
    }

    /// The partitions that failed under their locks.
    pub fn dropped(&self) -> (r: &Vec<usize>)
        ensures
            r@ == self@.dropped,
    {
        &self.dropped
    }

    /// Reports what taking the lock came to.
    pub fn lock_tried(&mut self, result: Result<(), Failure>)
        requires
            run_is_sound(old(self)@),
            old(self)@.step is Lock,
        ensures
            run_is_sound(final(self)@),
            final(self)@ == after_lock(old(self)@, result),
    {
        let ghost before = self@;
        let p = match self.step {
            BatchStep::Lock(p) => p,
            _ => 0,
        };
        assert(!before.plan.settled[p as int]);
        let count = self.plan.partition_count();
        let ghost ok = result is Ok;
        match result {
            Ok(_) => {
                self.locked.push(p);
            },
            Err(f) => {
                self.plan.fail_partition(p, &f.error, f.shown.as_str());
            },
        }
        if p + 1 < count {
            self.step = BatchStep::Lock(p + 1);
        } else {
            self.step = BatchStep::Read;
        }
        proof {
            let after = self@;
            assert forall|x: int| 0 <= x < after.plan.partitions.len() implies ((
            #[trigger] after.plan.settled[x]) <==> x <= p && !after.locked.contains(x as usize)) by {
                if ok {
                    lemma_pushed(before.locked, p, x as usize);
                }
                assert((x as usize) as int == x);
                if x == p && !ok {
                    assert(!before.locked.contains(p)) by {
                        if before.locked.contains(p) {
                            let a = choose|a: int|
                                0 <= a < before.locked.len() && before.locked[a] == p;
                            assert(before.locked[a] < p);
                        }
                    }
                }
            }
        }
    }

    /// Reports what reading the partitions came to, in the order of the locks.
    /// The rows of those that were read are composed, from `version_base` on.
    pub fn partitions_read<V: Fn(Candidate) -> Result<(), String>>(
        &mut self,
        results: &ReadResults,
        version_base: u64,
        validate: &V,
    )
        requires
            run_is_sound(old(self)@),
            old(self)@.step is Read,
            results@.len() == old(self)@.locked.len(),
            answers_all(*validate),
        ensures
            run_is_sound(final(self)@),
            exists|plans: Seq<BatchView>| #[trigger]
                is_after_reads(
                    *validate,
                    version_base,
                    old(self)@,
                    results@,
                    plans,
                    final(self)@,
                ),
    {
        let ghost before = self@;
        let ghost ps = before.locked;
        let ghost mut plans: Seq<BatchView> = seq![before.plan];
        let count = self.plan.partition_count();
        let mut k: usize = 0;
        assert(ps.take(0) =~= Seq::<usize>::empty());
        assert(ps.skip(0) =~= ps);
        while k < self.locked.len()
            invariant
                k <= ps.len(),
                count == before.plan.partitions.len(),
                answers_all(*validate),
                ps == before.locked,
                ps == self@.locked,
                results@.len() == ps.len(),
                ascends(ps, before.plan.partitions.len() as int),
                self@.expired == before.expired,
                self@.held == parted(ps.take(k as int), results@, true),
                self@.dropped == parted(ps.take(k as int), results@, false),
                plan_is_sound(self@.plan),
                self@.plan.partitions == before.plan.partitions,
                plans.len() == k + 1,
                plans[0] == before.plan,
                plans[k as int] == self@.plan,
                forall|x: int|
                    #![trigger plans[x]]
                    0 <= x < k ==> reads(
                        *validate,
                        version_base,
                        ps[x],
                        results@[x],
                        plans[x],
                        plans[x + 1],
                    ),
                forall|p: int|
                    0 <= p < before.plan.partitions.len() ==> ((#[trigger] self@.plan.settled[p])
                        <==> !ps.skip(k as int).contains(p as usize)),
                forall|j: int|
                    0 <= j < self@.plan.row_partition.len() ==> self@.held.contains(
                        #[trigger] self@.plan.row_partition[j],
                    ),
                forall|x: int|
                    0 <= x < k ==> self@.held.contains(#[trigger] ps[x]) || self@.dropped.contains(
                        ps[x],
                    ),
                forall|p: usize| self@.held.contains(p) ==> ps.contains(p),
            decreases ps.len() - k,
        {
            let ghost now = self@;
            let p = self.locked[k];
            proof {
                assert(ps.skip(k as int)[0] == p);
                assert(ps.skip(k as int).contains(p));
                assert(!now.plan.settled[p as int]);
                let longer = ps.take(k + 1);
                assert(longer.drop_last() =~= ps.take(k as int));
                assert(longer.last() == p);
            }
            match &results[k] {
                Ok(rows) => {
                    self.plan.compose_partition(p, rows, version_base, validate);
                    self.held.push(p);
                    proof {
                        let trace = choose|trace: Seq<BatchView>| #[trigger]
                            composes_all(
                                *validate,
                                version_base,
                                p,
                                row_views(rows@),
                                now.plan,
                                trace,
                                self@.plan,
                            );
                        lemma_composed_frame(
                            *validate,
                            version_base,
                            p,
                            row_views(rows@),
                            now.plan,
                            trace,
                            self@.plan,
                        );
                    }
                },
                Err(f) => {
                    self.plan.fail_partition(p, &f.error, f.shown.as_str());
                    self.dropped.push(p);
                },
            }
            proof {
                let after = self@;
                let longer = plans.push(after.plan);
                assert(reads(*validate, version_base, p, results@[k as int], now.plan, after.plan));
                assert forall|x: int| #![trigger longer[x]] 0 <= x < k + 1 implies reads(
                    *validate,
                    version_base,
                    ps[x],
                    results@[x],
                    longer[x],
                    longer[x + 1],
                ) by {
                    assert(longer[x] == plans[x]);
                    if x < k {
                        assert(longer[x + 1] == plans[x + 1]);
                    }
                }
                plans = longer;
                assert forall|q: int| 0 <= q < before.plan.partitions.len() implies ((
                #[trigger] after.plan.settled[q]) <==> !ps.skip(k + 1).contains(q as usize)) by {
                    lemma_skipped(ps, before.plan.partitions.len() as int, k as int, q as usize);
                    assert((q as usize) as int == q);
                }
                assert forall|q: usize| after.held.contains(q) implies ps.contains(q) by {
                    lemma_pushed(now.held, p, q);
                    assert(ps[k as int] == p);
                }
                assert forall|j: int| 0 <= j < after.plan.row_partition.len() implies after.held.contains(
                    #[trigger] after.plan.row_partition[j],
                ) by {
                    lemma_pushed(now.held, p, after.plan.row_partition[j]);
                }
                assert forall|x: int| 0 <= x < k + 1 implies after.held.contains(#[trigger] ps[x])
                    || after.dropped.contains(ps[x]) by {
                    lemma_pushed(now.held, p, ps[x]);
                    lemma_pushed(now.dropped, p, ps[x]);
                }
            }
            k = k + 1;
        }
        self.step = BatchStep::ReleaseDropped;
        proof {
            let after = self@;
            assert(ps.take(k as int) =~= ps);
            assert(ps.skip(k as int) =~= Seq::<usize>::empty());
            assert forall|p: int| 0 <= p < after.plan.partitions.len() implies #[trigger] after.plan.settled[p] by {
                assert(!ps.skip(k as int).contains(p as usize));
            }
            assert forall|p: usize| after.locked.contains(p) implies after.held.contains(p)
                || after.dropped.contains(p) by {
                let x = choose|x: int| 0 <= x < ps.len() && ps[x] == p;
                assert(after.held.contains(ps[x]) || after.dropped.contains(ps[x]));
            }
            assert(is_after_reads(*validate, version_base, before, results@, plans, after));
        }
    }

    /// Reports that the locks of the partitions that failed were released, or
    /// could not be.
    pub fn dropped_released(&mut self)
        requires
            run_is_sound(old(self)@),
            old(self)@.step is ReleaseDropped,
        ensures
            run_is_sound(final(self)@),
            final(self)@ == (BatchRunView { step: BatchStep::Renew, ..old(self)@ }),
    {
        self.step = BatchStep::Renew;
    }

    /// Reports what renewing the locks came to, in the order of the locks. The
    /// rows of a partition whose lock was lost are not written.
    pub fn locks_renewed(&mut self, results: &Vec<Result<(), Failure>>)
        requires
            run_is_sound(old(self)@),
            old(self)@.step is Renew,
            results@.len() == old(self)@.held.len(),
        ensures
            run_is_sound(final(self)@),
            final(self)@ == after_renewals(old(self)@, results@),
    {
        let ghost before = self@;
        let ghost ps = before.held;
        let mut k: usize = 0;
        assert(ps.take(0) =~= Seq::<usize>::empty());
        assert(self.expired@ =~= Seq::<usize>::empty());
        while k < self.held.len()
            invariant
                k <= ps.len(),
                run_is_sound(before),
                before.step is Renew,
                ps == before.held,
                results@.len() == ps.len(),
                run_is_sound(self@),
                self@ == (BatchRunView {
                    plan: renewed_plan(before.plan, ps.take(k as int), results@),
                    expired: lost(ps.take(k as int), results@),
                    step: BatchStep::Insert,
                    ..before
                }) || k == 0 && self@ == before,
                self@.plan == renewed_plan(before.plan, ps.take(k as int), results@),
                self@.expired == lost(ps.take(k as int), results@),
            decreases ps.len() - k,
        {
            let ghost now = self@;
            let p = self.held[k];
            proof {
                assert(ps.contains(ps[k as int]));
                assert(before.locked.contains(p));
                let a = choose|a: int| 0 <= a < before.locked.len() && before.locked[a] == p;
                assert(before.locked[a] < before.plan.partitions.len());
                let longer = ps.take(k + 1);
                assert(longer.drop_last() =~= ps.take(k as int));
                assert(longer.last() == p);
                assert(now.plan.settled[p as int]);
            }
            self.step = BatchStep::Insert;
            match &results[k] {
                Ok(_) => {},
                Err(f) => {
                    self.plan.expire_partition(p, &f.error, f.shown.as_str());
                    self.expired.push(p);
                    proof {
                        law_expired_partition_is_not_written(now.plan, p, failure_error(*f));
                        lemma_expired_frame(now, self@, p, failure_error(*f));
                    }
                },
            }
            k = k + 1;
        }
        self.step = BatchStep::Insert;
        assert(ps.take(k as int) =~= ps);
    }

    /// Reports what the write came to. Without rows there is nothing to write.
    pub fn rows_inserted(&mut self, result: Result<(), Failure>)
        requires
            run_is_sound(old(self)@),
            old(self)@.step is Insert,
        ensures
            run_is_sound(final(self)@),
            final(self)@ == after_write(old(self)@, result),
    {
        match result {
            Ok(_) => {},
            Err(f) => {
                self.plan.insert_failed(&f.error, f.shown.as_str());
            },
        }
        self.step = BatchStep::Release;
    }

    /// Reports that the locks were released, or could not be.
    pub fn held_released(&mut self)
        requires
            run_is_sound(old(self)@),
            old(self)@.step is Release,
        ensures
            run_is_sound(final(self)@),
            final(self)@ == (BatchRunView { step: BatchStep::Done, ..old(self)@ }),
    {
        self.step = BatchStep::Done;
    }

    /// The answers, one for each record, in the order of the batch.
    pub fn finish(self) -> (r: Vec<Result<UsageRecord, UsageCollectorPluginError>>)
        requires
            run_is_sound(self@),
            self@.step is Done,
        ensures
            r@.len() == self@.plan.records.len(),
            forall|i: int|
                0 <= i < r@.len() ==> self@.plan.outcomes[i] == Some(
                    outcome_view(#[trigger] r@[i]),
                ),
    {
        let ghost plan = self@.plan;
        let r = self.plan.finish();
        proof {
            assert forall|i: int| 0 <= i < r@.len() implies plan.outcomes[i] == Some(
                outcome_view(#[trigger] r@[i]),
            ) by {
                law_every_record_is_answered(plan, i as usize);
            }
        }
        r
    }
}

proof fn lemma_pushed(s: Seq<usize>, p: usize, x: usize)
    ensures
        s.push(p).contains(x) == (s.contains(x) || x == p),
{
    let t = s.push(p);
    if s.contains(x) {
        let a = choose|a: int| 0 <= a < s.len() && s[a] == x;
        assert(t[a] == x);
    }
    if x == p {
        assert(t[s.len() as int] == x);
    }
    if t.contains(x) {
        let a = choose|a: int| 0 <= a < t.len() && t[a] == x;
        if a < s.len() {
            assert(s[a] == x);
        }
    }
}

proof fn lemma_skipped(ps: Seq<usize>, bound: int, k: int, q: usize)
    requires
        ascends(ps, bound),
        0 <= k < ps.len(),
    ensures
        ps.skip(k).contains(q) == (ps.skip(k + 1).contains(q) || q == ps[k]),
        !ps.skip(k + 1).contains(ps[k]),
{
    let all = ps.skip(k);
    let rest = ps.skip(k + 1);
    assert(all[0] == ps[k]);
    if all.contains(q) {
        let a = choose|a: int| 0 <= a < all.len() && all[a] == q;
        if a > 0 {
            assert(rest[a - 1] == q);
        }
    }
    if rest.contains(q) {
        let a = choose|a: int| 0 <= a < rest.len() && rest[a] == q;
        assert(all[a + 1] == q);
    }
    if rest.contains(ps[k]) {
        let a = choose|a: int| 0 <= a < rest.len() && rest[a] == ps[k];
        assert(ps[k] < ps[k + 1 + a]);
    }
}

/// Composing one record keeps all but outcomes, rows, offset and what was found
/// stored; new rows are of the partition.
proof fn lemma_composes_frame<V: Fn(Candidate) -> Result<(), String>>(
    validate: V,
    version_base: u64,
    p: usize,
    existing: Seq<RowView>,
    before: BatchView,
    idx: usize,
    after: BatchView,
)
    requires
        composes(validate, version_base, p, existing, before, idx, after),
    ensures
        after.partitions == before.partitions,
        after.row_partition == before.row_partition || after.row_partition
            == before.row_partition.push(p),
{
}

/// Composing a partition settles it and no other; new rows are of it.
proof fn lemma_composed_frame<V: Fn(Candidate) -> Result<(), String>>(
    validate: V,
    version_base: u64,
    p: usize,
    existing: Seq<RowView>,
    before: BatchView,
    trace: Seq<BatchView>,
    after: BatchView,
)
    requires
        composes_all(validate, version_base, p, existing, before, trace, after),
    ensures
        after.partitions == before.partitions,
        after.settled == before.settled.update(p as int, true),
        forall|j: int|
            0 <= j < after.row_partition.len() ==> #[trigger] after.row_partition[j] == p || j
                < before.row_partition.len() && after.row_partition[j] == before.row_partition[j],
{
    let n = before.partitions[p as int].idxs.len();
    lemma_trace_frame(validate, version_base, p, existing, before, trace, after, n as int);
}

proof fn lemma_trace_frame<V: Fn(Candidate) -> Result<(), String>>(
    validate: V,
    version_base: u64,
    p: usize,
    existing: Seq<RowView>,
    before: BatchView,
    trace: Seq<BatchView>,
    after: BatchView,
    k: int,
)
    requires
        composes_all(validate, version_base, p, existing, before, trace, after),
        0 <= k < trace.len(),
    ensures
        trace[k].partitions == before.partitions,
        forall|j: int|
            0 <= j < trace[k].row_partition.len() ==> #[trigger] trace[k].row_partition[j] == p || j
                < before.row_partition.len() && trace[k].row_partition[j]
                == before.row_partition[j],
    decreases k,
{
    if k > 0 {
        lemma_trace_frame(validate, version_base, p, existing, before, trace, after, k - 1);
        let prev = trace[k - 1];
        lemma_composes_frame(
            validate,
            version_base,
            p,
            existing,
            prev,
            before.partitions[p as int].idxs[k - 1],
            trace[k],
        );
        assert forall|j: int| 0 <= j < trace[k].row_partition.len() implies (
        #[trigger] trace[k].row_partition[j]) == p || j < before.row_partition.len()
            && trace[k].row_partition[j] == before.row_partition[j] by {
            if j < prev.row_partition.len() {
                assert(trace[k].row_partition[j] == prev.row_partition[j]);
            }
        }
    }
}

/// Losing a lock keeps a run sound.
proof fn lemma_expired_frame(before: BatchRunView, after: BatchRunView, p: usize, e: ErrorView)
    requires
        run_is_sound(before),
        before.step is Renew || before.step is Insert,
        before.held.contains(p),
        p < before.plan.partitions.len(),
        before.plan.settled[p as int],
        plan_is_sound(after.plan),
        after == (BatchRunView {
            plan: with_expired_partition(before.plan, p, e),
            expired: before.expired.push(p),
            step: BatchStep::Insert,
            ..before
        }),
    ensures
        run_is_sound(after),
{
    lemma_kept_positions(before.plan.row_partition, p);
    let kept = kept_positions(before.plan.row_partition, p);
    assert forall|j: int| 0 <= j < after.plan.row_partition.len() implies after.held.contains(
        #[trigger] after.plan.row_partition[j],
    ) && !after.expired.contains(after.plan.row_partition[j]) by {
        let q = before.plan.row_partition[kept[j]];
        assert(after.plan.row_partition[j] == q);
        lemma_pushed(before.expired, p, q);
    }
}

/// What is written is of partitions whose locks were taken and renewed: every
/// lock that was lost before the write left the write.
pub proof fn law_write_is_under_renewed_locks(v: BatchRunView, j: int)
    requires
        run_is_sound(v),
        v.step is Insert,
        0 <= j < v.plan.rows.len(),
    ensures
        v.locked.contains(v.plan.row_partition[j]),
        v.held.contains(v.plan.row_partition[j]),
        !v.expired.contains(v.plan.row_partition[j]),
{
    assert(v.held.contains(v.plan.row_partition[j]));
}

/// Every lock that was taken is among those that are released: the locks of the
/// partitions that failed, and those that are held.
pub proof fn law_every_lock_is_released(v: BatchRunView, p: usize)
    requires
        run_is_sound(v),
        v.step is Done,
        v.locked.contains(p),
    ensures
        v.dropped.contains(p) || v.held.contains(p),
{
}

/// Locks are taken in the order of the partitions.
pub proof fn law_locks_are_taken_in_order(v: BatchRunView, a: int, b: int)
    requires
        run_is_sound(v),
        0 <= a < b < v.locked.len(),
    ensures
        v.locked[a] < v.locked[b] < v.plan.partitions.len(),
{
}

/// A failure reaches the records of its partition as it is where any record may
/// have it, and else as an internal error with the message of the failure.
pub proof fn law_failure_reaches_its_records(f: Failure)
    ensures
        f.error@ is Transient || f.error@ is UsageTypeNotFound || f.error@ is Internal
            ==> failure_error(f) == f.error@,
        f.error@ is IdempotencyConflict || f.error@ is UsageRecordNotFound || f.error@
            is UsageRecordAlreadyInactive ==> failure_error(f) == ErrorView::Internal(f.shown@),
{
}

proof fn lemma_parted_at(
    ps: Seq<usize>,
    results: Seq<Result<Vec<UsageRecordRow>, Failure>>,
    ok: bool,
    p: usize,
)
    ensures
        parted(ps, results, ok).contains(p) <==> exists|k: int|
            0 <= k < ps.len() && (#[trigger] ps[k]) == p && (results[k] is Ok) == ok,
    decreases ps.len(),
{
    if ps.len() > 0 {
        let front = ps.drop_last();
        let last = ps.len() - 1;
        lemma_parted_at(front, results, ok, p);
        let some = parted(front, results, ok);
        lemma_pushed(some, ps[last], p);
        if parted(ps, results, ok).contains(p) {
            if some.contains(p) {
                let k = choose|k: int|
                    0 <= k < front.len() && (#[trigger] front[k]) == p && (results[k] is Ok) == ok;
                assert(ps[k] == p);
            } else {
                assert(ps[last] == p);
            }
        }
        if exists|k: int| 0 <= k < ps.len() && (#[trigger] ps[k]) == p && (results[k] is Ok) == ok {
            let k = choose|k: int|
                0 <= k < ps.len() && (#[trigger] ps[k]) == p && (results[k] is Ok) == ok;
            if k < last {
                assert(front[k] == p);
            }
        }
    }
}

proof fn lemma_lost_at(ps: Seq<usize>, results: Seq<Result<(), Failure>>, p: usize)
    ensures
        lost(ps, results).contains(p) <==> exists|k: int|
            0 <= k < ps.len() && (#[trigger] ps[k]) == p && results[k] is Err,
    decreases ps.len(),
{
    if ps.len() > 0 {
        let front = ps.drop_last();
        let last = ps.len() - 1;
        lemma_lost_at(front, results, p);
        let some = lost(front, results);
        lemma_pushed(some, ps[last], p);
        if lost(ps, results).contains(p) {
            if some.contains(p) {
                let k = choose|k: int|
                    0 <= k < front.len() && (#[trigger] front[k]) == p && results[k] is Err;
                assert(ps[k] == p);
            } else {
                assert(ps[last] == p);
            }
        }
        if exists|k: int| 0 <= k < ps.len() && (#[trigger] ps[k]) == p && results[k] is Err {
            let k = choose|k: int| 0 <= k < ps.len() && (#[trigger] ps[k]) == p && results[k] is Err;
            if k < last {
                assert(front[k] == p);
            }
        }
    }
}

/// The steps of a batch: the locks one after the other, each of them kept that was
/// taken, then the reads; and the write only after the renewals, the release only
/// after the write.
pub proof fn law_batch_goes_step_by_step(
    v: BatchRunView,
    p: usize,
    result: Result<(), Failure>,
    renewals: Seq<Result<(), Failure>>,
)
    requires
        v.step == BatchStep::Lock(p),
        p < v.plan.partitions.len() <= usize::MAX,
    ensures
        p + 1 < v.plan.partitions.len() ==> after_lock(v, result).step == BatchStep::Lock(
            (p + 1) as usize,
        ),
        p + 1 == v.plan.partitions.len() ==> after_lock(v, result).step == BatchStep::Read,
        result is Ok ==> after_lock(v, result).locked == v.locked.push(p) && after_lock(
            v,
            result,
        ).plan == v.plan,
        result is Err ==> after_lock(v, result).locked == v.locked,
        result matches Err(f) ==> forall|i: usize|
            i < v.plan.outcomes.len() ==> #[trigger] after_lock(v, result).plan.outcomes[i as int]
                == (if v.plan.partitions[p as int].idxs.contains(i) {
                Some(Err::<UsageRecordView, ErrorView>(failure_error(f)))
            } else {
                v.plan.outcomes[i as int]
            }),
        after_renewals(v, renewals).step == BatchStep::Insert,
        after_renewals(v, renewals).held == v.held,
        after_write(v, result).step == BatchStep::Release,
        after_write(v, result).held == v.held,
{
    assert forall|i: usize| i < v.plan.outcomes.len() implies #[trigger] ((i as int) as usize)
        == i by {}
}

/// A partition that was locked is held after the reads where it was read, and
/// dropped where it could not be; and it is lost where its renewal failed.
pub proof fn law_locks_follow_their_results<V: Fn(Candidate) -> Result<(), String>>(
    validate: V,
    version_base: u64,
    v: BatchRunView,
    reads: Seq<Result<Vec<UsageRecordRow>, Failure>>,
    plans: Seq<BatchView>,
    after: BatchRunView,
    renewals: Seq<Result<(), Failure>>,
    k: int,
)
    requires
        ascends(v.locked, v.plan.partitions.len() as int),
        is_after_reads(validate, version_base, v, reads, plans, after),
        0 <= k < v.locked.len(),
    ensures
        after.locked == v.locked,
        after.held.contains(v.locked[k]) <==> reads[k] is Ok,
        after.dropped.contains(v.locked[k]) <==> reads[k] is Err,
        forall|p: usize|
            after_renewals(after, renewals).expired.contains(p) <==> exists|h: int|
                0 <= h < after.held.len() && (#[trigger] after.held[h]) == p && renewals[h] is Err,
{
    let p = v.locked[k];
    lemma_parted_at(v.locked, reads, true, p);
    lemma_parted_at(v.locked, reads, false, p);
    assert forall|h: int| 0 <= h < v.locked.len() && (#[trigger] v.locked[h]) == p implies h
        == k by {
        if h < k {
            assert(v.locked[h] < v.locked[k]);
        } else if k < h {
            assert(v.locked[k] < v.locked[h]);
        }
    }
    assert forall|p: usize|
        after_renewals(after, renewals).expired.contains(p) <==> exists|h: int|
            0 <= h < after.held.len() && (#[trigger] after.held[h]) == p && renewals[h] is Err by {
        lemma_lost_at(after.held, renewals, p);
    }
}

} // verus!
