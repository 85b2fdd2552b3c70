//! What the records of one partition of a batch come to does not depend on the
//! other partitions, and for each success stands a row that was read or written:
//! a key that is found stored decides, and a new key is written once.
use crate::entity::{row_views, RowView, UsageRecordRow, UsageRecordStatusCode};
use crate::mapper::{
    law_record_is_what_its_row_holds, law_valid_row_is_read, model_of_row, row_candidates,
    row_of_record, row_outcome, same_canonical_fields, saturating_sum,
};
use crate::model::{
    rejects, Candidate, CandidateView, ErrorView, UsageRecordStatus, UsageRecordView,
};
use crate::record_store::batch::{
    composes, composes_all, holds_slot, is_backed, is_new_plan, is_row_of, kept_positions,
    lemma_failed_at_all, lemma_kept_positions, position_of_key, record_types,
    with_expired_partition, with_failed_partition, with_failed_write, with_hit, with_joined,
    with_row, BatchView, OutcomeView,
};
use crate::record_store::batch_run::{
    after_lock, after_renewals, after_write, ascends, failure_error, is_after_reads, parted, reads,
    reads_all, renewed_plan, run_is_sound, BatchRunView, BatchStep, Failure,
};
use crate::record_store::dedup::{
    hit_outcome, law_absorbed_record_is_what_was_sent, law_conflicting_record_is_refused,
    law_record_sent_again_is_absorbed, record_key, stored_key, DedupKeyView,
};
use crate::record_store::partition::{is_partition, is_partitioning, lemma_partitions_are_disjoint};
use crate::values::in_instant_range;
use vstd::prelude::*;

verus! {

/// What the steps of a run came to: the locks in the order of the partitions,
/// the reads in the order of the locks that were taken, the renewals in the order
/// of the partitions that were read, and the write.
pub struct RunResults {
    pub locks: Seq<Result<(), Failure>>,
    pub reads: Seq<Result<Vec<UsageRecordRow>, Failure>>,
    pub renewals: Seq<Result<(), Failure>>,
    pub write: Result<(), Failure>,
}

/// The partitions among the first `n` whose locks were taken.
pub open spec fn tried_locks(locks: Seq<Result<(), Failure>>, n: nat) -> Seq<usize>
    decreases n,
{
    if n == 0 {
        Seq::empty()
    } else {
        let front = tried_locks(locks, (n - 1) as nat);
        if locks[n - 1] is Ok {
            front.push((n - 1) as usize)
        } else {
            front
        }
    }
}

/// The plan after the locks of the first `n` partitions were tried.
pub open spec fn tried_plan(
    start: BatchView,
    locks: Seq<Result<(), Failure>>,
    n: nat,
) -> BatchView
    decreases n,
{
    if n == 0 {
        start
    } else {
        let front = tried_plan(start, locks, (n - 1) as nat);
        match locks[n - 1] {
            Ok(_) => front,
            Err(f) => with_failed_partition(front, (n - 1) as usize, failure_error(f)),
        }
    }
}

/// The partitions whose locks were taken.
pub open spec fn locked_of(start: BatchView, r: RunResults) -> Seq<usize> {
    tried_locks(r.locks, start.partitions.len())
}

/// The partitions whose locks were taken and that were read.
pub open spec fn held_of(start: BatchView, r: RunResults) -> Seq<usize> {
    parted(locked_of(start, r), r.reads, true)
}

/// The rows that are handed to the write.
pub open spec fn rows_to_write(start: BatchView, r: RunResults, plans: Seq<BatchView>) -> Seq<
    RowView,
> {
    renewed_plan(plans.last(), held_of(start, r), r.renewals).rows
}

/// A run from a new plan to the plan that is answered from: locks, reads,
/// renewals and the write, by what each came to. `plans` holds the plans between
/// the reads.
pub open spec fn is_batch_run<V: Fn(Candidate) -> Result<(), String>>(
    validate: V,
    version_base: u64,
    start: BatchView,
    r: RunResults,
    plans: Seq<BatchView>,
    end: BatchView,
) -> bool {
    let locked = locked_of(start, r);
    let renewed = renewed_plan(plans.last(), held_of(start, r), r.renewals);
    &&& is_new_plan(start, start.records)
    &&& start.row_partition.len() == 0 && start.row_slots.len() == 0
    &&& is_partitioning(record_types(start.records), start.partitions)
    &&& start.records.len() <= usize::MAX
    &&& plans[0] == tried_plan(start, r.locks, start.partitions.len())
    &&& reads_all(validate, version_base, locked, r.reads, plans)
    &&& end == (match r.write {
        Ok(_) => renewed,
        Err(f) => with_failed_write(renewed, failure_error(f)),
    })
}

/// The run after the locks of the first `n` partitions were tried.
pub open spec fn after_locks(
    v: BatchRunView,
    locks: Seq<Result<(), Failure>>,
    n: nat,
) -> BatchRunView
    decreases n,
{
    if n == 0 {
        v
    } else {
        after_lock(after_locks(v, locks, (n - 1) as nat), locks[n - 1])
    }
}

proof fn lemma_after_locks(v: BatchRunView, locks: Seq<Result<(), Failure>>, n: nat)
    requires
        v.step == BatchStep::Lock(0),
        v.locked.len() == 0,
        n <= v.plan.partitions.len() <= usize::MAX,
    ensures
        after_locks(v, locks, n).plan == tried_plan(v.plan, locks, n),
        after_locks(v, locks, n).plan.partitions == v.plan.partitions,
        after_locks(v, locks, n).locked == tried_locks(locks, n),
        n < v.plan.partitions.len() ==> after_locks(v, locks, n).step == BatchStep::Lock(n as usize),
    decreases n,
{
    if n > 0 {
        lemma_after_locks(v, locks, (n - 1) as nat);
    } else {
        assert(v.locked =~= Seq::<usize>::empty());
    }
}

/// The steps of a batch make a run: from a new plan, after every lock was tried,
/// the partitions read, the locks renewed and the rows written.
pub proof fn law_steps_make_a_run<V: Fn(Candidate) -> Result<(), String>>(
    validate: V,
    version_base: u64,
    start: BatchRunView,
    r: RunResults,
    plans: Seq<BatchView>,
    read: BatchRunView,
)
    requires
        run_is_sound(start),
        start.step == BatchStep::Lock(0),
        start.locked.len() == 0,
        is_new_plan(start.plan, start.plan.records),
        is_after_reads(
            validate,
            version_base,
            after_locks(start, r.locks, start.plan.partitions.len()),
            r.reads,
            plans,
            read,
        ),
    ensures
        is_batch_run(
            validate,
            version_base,
            start.plan,
            r,
            plans,
            after_write(after_renewals(read, r.renewals), r.write).plan,
        ),
{
    lemma_partitions_are_few(start.plan);
    lemma_after_locks(start, r.locks, start.plan.partitions.len());
}

/// The result of a partition among the results of some.
pub open spec fn result_of<T>(ps: Seq<usize>, results: Seq<T>, p: usize) -> Option<T>
    decreases ps.len(),
{
    if ps.len() == 0 {
        None
    } else if ps.last() == p {
        Some(results[ps.len() - 1])
    } else {
        result_of(ps.drop_last(), results, p)
    }
}

/// A step came to the same in two runs.
pub open spec fn same_step(a: Result<(), Failure>, b: Result<(), Failure>) -> bool {
    match (a, b) {
        (Ok(_), Ok(_)) => true,
        (Err(f), Err(g)) => failure_error(f) == failure_error(g),
        _ => false,
    }
}

/// A read came to the same in two runs.
pub open spec fn same_read(
    a: Result<Vec<UsageRecordRow>, Failure>,
    b: Result<Vec<UsageRecordRow>, Failure>,
) -> bool {
    match (a, b) {
        (Ok(x), Ok(y)) => row_views(x@) == row_views(y@),
        (Err(f), Err(g)) => failure_error(f) == failure_error(g),
        _ => false,
    }
}

/// The records of a partition, in order.
pub open spec fn records_of(v: BatchView, p: usize) -> Seq<UsageRecordView> {
    v.partitions[p as int].idxs.map_values(|i: usize| v.records[i as int])
}

/// What a row is read as, and what it is for each record that has its key, is
/// decided: validation leaves nothing open. A row with two rejected metadata keys
/// is not, for either of them may be the one that is reported.
pub open spec fn is_decided<V: Fn(Candidate) -> Result<(), String>>(
    validate: V,
    row: RowView,
) -> bool {
    &&& forall|a: OutcomeView, b: OutcomeView| #[trigger]
        row_outcome(validate, row, a) && #[trigger] row_outcome(validate, row, b) ==> a == b
    &&& forall|record: UsageRecordView, a: OutcomeView, b: OutcomeView| #[trigger]
        hit_outcome(validate, row, record, a) && #[trigger] hit_outcome(validate, row, record, b)
            ==> a == b
}

/// The rows of the records, and the stored rows, are decided.
pub open spec fn all_decided<V: Fn(Candidate) -> Result<(), String>>(
    validate: V,
    records: Seq<UsageRecordView>,
    stored: Seq<RowView>,
) -> bool {
    &&& forall|i: int| 0 <= i < stored.len() ==> is_decided(validate, #[trigger] stored[i])
    &&& forall|i: int|
        0 <= i < records.len() ==> is_decided(validate, row_of_record(#[trigger] records[i], 0, 0))
}

// ---- one partition in one run ----

/// The rows are of the partitions of the records that depend on them.
spec fn placed(v: BatchView) -> bool {
    &&& v.row_partition.len() == v.rows.len()
    &&& v.row_slots.len() == v.rows.len()
    &&& v.outcomes.len() == v.records.len()
    &&& v.records.len() <= usize::MAX
    &&& is_partitioning(record_types(v.records), v.partitions)
    &&& forall|j: int|
        0 <= j < v.rows.len() ==> (#[trigger] v.row_partition[j]) < v.partitions.len()
            && v.rows[j].gts_id == v.partitions[v.row_partition[j] as int].gts_id
    &&& forall|j: int, i: usize| #[trigger]
        holds_slot(v, j, i) ==> v.partitions[v.row_partition[j] as int].idxs.contains(i)
}

/// Nothing is known of the partition's records, and no row is theirs.
spec fn is_fresh(v: BatchView, p: usize) -> bool {
    &&& forall|i: usize|
        #[trigger] v.partitions[p as int].idxs.contains(i) ==> v.outcomes[i as int] is None
            && !is_backed(v, i)
    &&& forall|j: int|
        0 <= j < v.rows.len() ==> (#[trigger] v.rows[j]).gts_id != v.partitions[p as int].gts_id
}

/// The success of the record depends on the row at a place.
spec fn backs_at(v: BatchView, j: int, i: usize, row: RowView) -> bool {
    holds_slot(v, j, i) && v.rows[j] == row
}

/// The success of the record depends on the row.
spec fn backs(v: BatchView, i: usize, row: RowView) -> bool {
    exists|j: int| #[trigger] backs_at(v, j, i, row)
}

/// The rows that the record depends on stay.
spec fn stays_backed(v: BatchView, w: BatchView, i: usize) -> bool {
    forall|row: RowView| #[trigger] backs(v, i, row) ==> backs(w, i, row)
}

/// The partition's records are as they were.
spec fn keeps(v: BatchView, w: BatchView, p: usize) -> bool {
    &&& w.records == v.records
    &&& w.partitions == v.partitions
    &&& forall|i: usize|
        #[trigger] v.partitions[p as int].idxs.contains(i) ==> w.outcomes[i as int]
            == v.outcomes[i as int] && is_backed(w, i) == is_backed(v, i) && stays_backed(v, w, i)
}

proof fn lemma_same_rows_stay_backed(v: BatchView, w: BatchView, i: usize)
    requires
        w.rows == v.rows,
        w.row_slots == v.row_slots,
    ensures
        stays_backed(v, w, i),
{
    assert forall|row: RowView| #[trigger] backs(v, i, row) implies backs(w, i, row) by {
        let j = choose|j: int| #[trigger] backs_at(v, j, i, row);
        assert(backs_at(w, j, i, row));
    }
}

/// The partition's records have failed, and none depends on a row.
spec fn has_failed(v: BatchView, p: usize, e: ErrorView) -> bool {
    forall|i: usize|
        #[trigger] v.partitions[p as int].idxs.contains(i) ==> v.outcomes[i as int] == Some(
            Err::<UsageRecordView, ErrorView>(e),
        ) && !is_backed(v, i)
}

proof fn lemma_in_range(v: BatchView, p: usize, i: usize)
    requires
        is_partitioning(record_types(v.records), v.partitions),
        p < v.partitions.len(),
        v.partitions[p as int].idxs.contains(i),
    ensures
        i < v.records.len(),
        v.records[i as int].gts_id == v.partitions[p as int].gts_id,
{
    let types = record_types(v.records);
    assert(is_partition(types, v.partitions[p as int]));
    let a = choose|a: int|
        0 <= a < v.partitions[p as int].idxs.len() && v.partitions[p as int].idxs[a] == i;
    assert(types[i as int] == v.records[i as int].gts_id);
}

/// The failure of a partition leaves the others as they were.
proof fn lemma_failure_elsewhere(v: BatchView, q: usize, e: ErrorView, p: usize)
    requires
        placed(v),
        q < v.partitions.len(),
        p < v.partitions.len(),
    ensures
        placed(with_failed_partition(v, q, e)),
        p != q ==> keeps(v, with_failed_partition(v, q, e), p),
        p != q && is_fresh(v, p) ==> is_fresh(with_failed_partition(v, q, e), p),
        p == q && is_fresh(v, p) ==> has_failed(with_failed_partition(v, q, e), p, e),
{
    let w = with_failed_partition(v, q, e);
    let types = record_types(v.records);
    assert forall|j: int, i: usize| #[trigger] holds_slot(w, j, i) implies w.partitions[w.row_partition[j] as int].idxs.contains(
    i) by {
        assert(holds_slot(v, j, i));
    }
    assert forall|i: usize| #[trigger] v.partitions[p as int].idxs.contains(i) implies is_backed(
        w,
        i,
    ) == is_backed(v, i) && stays_backed(v, w, i) && w.outcomes[i as int] == (if p == q {
        Some(Err::<UsageRecordView, ErrorView>(e))
    } else {
        v.outcomes[i as int]
    }) by {
        lemma_in_range(v, p, i);
        lemma_same_rows_stay_backed(v, w, i);
        assert((i as int) as usize == i);
        if p != q && v.partitions[q as int].idxs.contains(i) {
            lemma_partitions_are_disjoint(types, v.partitions, p as int, q as int, i);
        }
        assert forall|j: int| #[trigger] holds_slot(w, j, i) == holds_slot(v, j, i) by {}
        if is_backed(v, i) {
            let j = choose|j: int| #[trigger] holds_slot(v, j, i);
            assert(holds_slot(w, j, i));
        }
        if is_backed(w, i) {
            let j = choose|j: int| #[trigger] holds_slot(w, j, i);
            assert(holds_slot(v, j, i));
        }
    }
}

/// The record that a composition is for may come to depend on a row; no other
/// does.
proof fn lemma_composing_backs_one<V: Fn(Candidate) -> Result<(), String>>(
    validate: V,
    version_base: u64,
    q: usize,
    existing: Seq<RowView>,
    before: BatchView,
    idx: usize,
    after: BatchView,
    i: usize,
)
    requires
        placed(before),
        composes(validate, version_base, q, existing, before, idx, after),
        i != idx,
    ensures
        is_backed(after, i) == is_backed(before, i),
        stays_backed(before, after, i),
{
    lemma_found(before.rows, record_key(before.records[idx as int]));
    assert forall|row: RowView| #[trigger] backs(before, i, row) implies backs(after, i, row) by {
        let j = choose|j: int| #[trigger] backs_at(before, j, i, row);
        let a = choose|a: int|
            0 <= a < before.row_slots[j].len() && before.row_slots[j][a] == i;
        assert(after.row_slots[j][a] == i);
        assert(backs_at(after, j, i, row));
    }
    if is_backed(before, i) {
        let j = choose|j: int| #[trigger] holds_slot(before, j, i);
        let a = choose|a: int|
            0 <= a < before.row_slots[j].len() && before.row_slots[j][a] == i;
        assert(after.row_slots[j][a] == i);
        assert(holds_slot(after, j, i));
    }
    if is_backed(after, i) {
        let j = choose|j: int| #[trigger] holds_slot(after, j, i);
        let a = choose|a: int| 0 <= a < after.row_slots[j].len() && after.row_slots[j][a] == i;
        if j < before.row_slots.len() {
            assert(before.row_slots[j][a] == i);
            assert(holds_slot(before, j, i));
        }
    }
}

proof fn lemma_found(rows: Seq<RowView>, key: DedupKeyView)
    ensures
        position_of_key(rows, key) matches Some(j) ==> 0 <= j < rows.len() && stored_key(rows[j])
            == key,
    decreases rows.len(),
{
    if rows.len() > 0 {
        lemma_found(rows.drop_last(), key);
    }
}

/// Composing a record keeps rows in place, and leaves the records of other
/// partitions as they were.
proof fn lemma_composing_elsewhere<V: Fn(Candidate) -> Result<(), String>>(
    validate: V,
    version_base: u64,
    q: usize,
    existing: Seq<RowView>,
    before: BatchView,
    idx: usize,
    after: BatchView,
    p: usize,
)
    requires
        placed(before),
        q < before.partitions.len(),
        p < before.partitions.len(),
        before.partitions[q as int].idxs.contains(idx),
        composes(validate, version_base, q, existing, before, idx, after),
    ensures
        placed(after),
        after.records == before.records,
        after.partitions == before.partitions,
        p != q ==> keeps(before, after, p),
        p != q && is_fresh(before, p) ==> is_fresh(after, p),
{
    let types = record_types(before.records);
    let record = before.records[idx as int];
    let key = record_key(record);
    lemma_found(before.rows, key);
    lemma_in_range(before, q, idx);
    let part = before.partitions[q as int];
    assert(after.records == before.records && after.partitions == before.partitions);
    assert forall|j: int, i: usize| #[trigger] holds_slot(after, j, i) implies after.partitions[after.row_partition[j] as int].idxs.contains(
    i) by {
        let a = choose|a: int| 0 <= a < after.row_slots[j].len() && after.row_slots[j][a] == i;
        if j < before.row_slots.len() && i != idx {
            assert(before.row_slots[j][a] == i);
            assert(holds_slot(before, j, i));
        } else if j < before.row_slots.len() {
            if before.row_slots[j].contains(i) {
                assert(holds_slot(before, j, i));
            } else {
                assert(position_of_key(before.rows, key) == Some(j));
                assert(stored_key(before.rows[j]).1 == part.gts_id);
                let r = before.row_partition[j];
                assert(before.partitions[r as int].gts_id == part.gts_id);
                lemma_same_type_same_partition(before, r, q);
            }
        }
    }
    if p != q {
        assert forall|i: usize| #[trigger] before.partitions[p as int].idxs.contains(i) implies after.outcomes[i as int]
            == before.outcomes[i as int] && is_backed(after, i) == is_backed(before, i)
            && stays_backed(before, after, i) by {
            lemma_in_range(before, p, i);
            if i == idx {
                lemma_partitions_are_disjoint(types, before.partitions, p as int, q as int, i);
            }
            lemma_composing_backs_one(
                validate,
                version_base,
                q,
                existing,
                before,
                idx,
                after,
                i,
            );
        }
        if is_fresh(before, p) {
            assert forall|j: int| 0 <= j < after.rows.len() implies (#[trigger] after.rows[j]).gts_id
                != after.partitions[p as int].gts_id by {
                if j < before.rows.len() {
                    assert(after.rows[j] == before.rows[j]);
                } else if before.partitions[p as int].gts_id == part.gts_id {
                    lemma_same_type_same_partition(before, p, q);
                }
            }
        }
    }
}

proof fn lemma_same_type_same_partition(v: BatchView, p: usize, q: usize)
    requires
        is_partitioning(record_types(v.records), v.partitions),
        p < v.partitions.len(),
        q < v.partitions.len(),
        v.partitions[p as int].gts_id == v.partitions[q as int].gts_id,
    ensures
        p == q,
{
    let types = record_types(v.records);
    assert(is_partition(types, v.partitions[p as int]));
    assert(is_partition(types, v.partitions[q as int]));
    let i = v.partitions[p as int].idxs[0];
    assert(v.partitions[p as int].idxs.contains(i));
    assert(v.partitions[q as int].idxs.contains((i as int) as usize));
    lemma_partitions_are_disjoint(types, v.partitions, p as int, q as int, i);
}

/// Composing a partition leaves the records of the others as they were.
proof fn lemma_composition_elsewhere<V: Fn(Candidate) -> Result<(), String>>(
    validate: V,
    version_base: u64,
    q: usize,
    existing: Seq<RowView>,
    before: BatchView,
    trace: Seq<BatchView>,
    k: int,
    p: usize,
)
    requires
        placed(before),
        q < before.partitions.len(),
        p < before.partitions.len(),
        0 <= k < trace.len(),
        trace.len() == before.partitions[q as int].idxs.len() + 1,
        trace[0] == before,
        forall|x: int|
            #![trigger trace[x]]
            0 <= x < before.partitions[q as int].idxs.len() ==> composes(
                validate,
                version_base,
                q,
                existing,
                trace[x],
                before.partitions[q as int].idxs[x],
                trace[x + 1],
            ),
    ensures
        placed(trace[k]),
        trace[k].records == before.records,
        trace[k].partitions == before.partitions,
        p != q ==> keeps(before, trace[k], p),
        p != q && is_fresh(before, p) ==> is_fresh(trace[k], p),
    decreases k,
{
    if k > 0 {
        lemma_composition_elsewhere(
            validate,
            version_base,
            q,
            existing,
            before,
            trace,
            k - 1,
            p,
        );
        let idx = before.partitions[q as int].idxs[k - 1];
        assert(before.partitions[q as int].idxs.contains(idx));
        let prev = trace[k - 1];
        assert(composes(validate, version_base, q, existing, prev, idx, trace[k - 1 + 1]));
        lemma_composing_elsewhere(validate, version_base, q, existing, prev, idx, trace[k], p);
    }
}

/// That a plan is settled at a partition says nothing of records and rows.
proof fn lemma_settled_alone(v: BatchView, w: BatchView, p: usize)
    requires
        placed(v),
        p < v.partitions.len(),
        w == (BatchView { settled: w.settled, ..v }),
    ensures
        placed(w),
        keeps(v, w, p),
        is_fresh(v, p) ==> is_fresh(w, p),
{
    assert forall|j: int, i: usize| #[trigger] holds_slot(w, j, i) == holds_slot(v, j, i) by {}
    assert forall|i: usize| #[trigger] is_backed(w, i) == is_backed(v, i) && stays_backed(v, w, i) by {
        lemma_same_rows_stay_backed(v, w, i);
        if is_backed(v, i) {
            let j = choose|j: int| #[trigger] holds_slot(v, j, i);
            assert(holds_slot(w, j, i));
        }
        if is_backed(w, i) {
            let j = choose|j: int| #[trigger] holds_slot(w, j, i);
            assert(holds_slot(v, j, i));
        }
    }
}

/// What a read makes of a plan leaves the records of other partitions as they
/// were.
proof fn lemma_read_elsewhere<V: Fn(Candidate) -> Result<(), String>>(
    validate: V,
    version_base: u64,
    q: usize,
    result: Result<Vec<UsageRecordRow>, Failure>,
    before: BatchView,
    after: BatchView,
    p: usize,
)
    requires
        placed(before),
        q < before.partitions.len(),
        p < before.partitions.len(),
        reads(validate, version_base, q, result, before, after),
    ensures
        placed(after),
        after.records == before.records,
        after.partitions == before.partitions,
        p != q ==> keeps(before, after, p),
        p != q && is_fresh(before, p) ==> is_fresh(after, p),
{
    match result {
        Ok(rows) => {
            let existing = row_views(rows@);
            let trace = choose|trace: Seq<BatchView>| #[trigger]
                composes_all(validate, version_base, q, existing, before, trace, after);
            let n = before.partitions[q as int].idxs.len() as int;
            lemma_composition_elsewhere(
                validate,
                version_base,
                q,
                existing,
                before,
                trace,
                n,
                p,
            );
            lemma_settled_alone(trace[n], after, p);
        },
        Err(f) => {
            lemma_failure_elsewhere(before, q, failure_error(f), p);
        },
    }
}

/// Losing the lock of a partition fails its records, and leaves those of the
/// others as they were.
proof fn lemma_expiry_elsewhere(v: BatchView, q: usize, e: ErrorView, p: usize)
    requires
        placed(v),
        q < v.partitions.len(),
        p < v.partitions.len(),
    ensures
        placed(with_expired_partition(v, q, e)),
        p != q ==> keeps(v, with_expired_partition(v, q, e), p),
        p == q ==> has_failed(with_expired_partition(v, q, e), p, e),
{
    let w = with_expired_partition(v, q, e);
    let types = record_types(v.records);
    let kept = kept_positions(v.row_partition, q);
    lemma_kept_positions(v.row_partition, q);
    assert(forall|j: int| 0 <= j < kept.len() ==> #[trigger] w.rows[j] == v.rows[kept[j]]);
    assert forall|j: int| 0 <= j < w.rows.len() implies (#[trigger] w.row_partition[j])
        < w.partitions.len() && w.rows[j].gts_id == w.partitions[w.row_partition[j] as int].gts_id by {
        assert(w.row_partition[j] == v.row_partition[kept[j]]);
        assert(w.rows[j] == v.rows[kept[j]]);
    }
    assert forall|j: int, i: usize| #[trigger] holds_slot(w, j, i) implies holds_slot(
        v,
        kept[j],
        i,
    ) && v.row_partition[kept[j]] != q
        && w.partitions[w.row_partition[j] as int].idxs.contains(i) by {
        assert(w.row_slots[j] == v.row_slots[kept[j]]);
        assert(holds_slot(v, kept[j], i));
        assert(w.row_partition[j] == v.row_partition[kept[j]]);
    }
    assert forall|i: usize| #[trigger] v.partitions[p as int].idxs.contains(i) implies w.outcomes[i as int]
        == (if p == q {
        Some(Err::<UsageRecordView, ErrorView>(e))
    } else {
        v.outcomes[i as int]
    }) && is_backed(w, i) == (p != q && is_backed(v, i)) && (p != q ==> stays_backed(v, w, i)) by {
        lemma_in_range(v, p, i);
        assert((i as int) as usize == i);
        if p != q && v.partitions[q as int].idxs.contains(i) {
            lemma_partitions_are_disjoint(types, v.partitions, p as int, q as int, i);
        }
        if is_backed(w, i) {
            let j = choose|j: int| #[trigger] holds_slot(w, j, i);
            assert(holds_slot(v, kept[j], i));
            let r = v.row_partition[kept[j]];
            lemma_partitions_are_disjoint(types, v.partitions, p as int, r as int, i);
        }
        if p != q {
            assert forall|row: RowView| #[trigger] backs(v, i, row) implies backs(w, i, row) by {
                let j = choose|j: int| #[trigger] backs_at(v, j, i, row);
                let r = v.row_partition[j];
                lemma_partitions_are_disjoint(types, v.partitions, p as int, r as int, i);
                assert(kept.contains(j));
                let x = choose|x: int| 0 <= x < kept.len() && kept[x] == j;
                assert(w.row_slots[x] == v.row_slots[j]);
                assert(w.rows[x] == v.rows[j]);
                assert(backs_at(w, x, i, row));
            }
        }
        if p != q && is_backed(v, i) {
            let j = choose|j: int| #[trigger] holds_slot(v, j, i);
            let r = v.row_partition[j];
            lemma_partitions_are_disjoint(types, v.partitions, p as int, r as int, i);
            assert(kept.contains(j));
            let x = choose|x: int| 0 <= x < kept.len() && kept[x] == j;
            assert(w.row_slots[x] == v.row_slots[j]);
            assert(holds_slot(w, x, i));
        }
    }
}

proof fn lemma_keeps_transits(u: BatchView, v: BatchView, w: BatchView, p: usize)
    requires
        keeps(u, v, p),
        keeps(v, w, p),
    ensures
        keeps(u, w, p),
        forall|e: ErrorView| #[trigger] has_failed(u, p, e) ==> has_failed(w, p, e),
{
    assert forall|i: usize| #[trigger] u.partitions[p as int].idxs.contains(i) implies w.outcomes[i as int]
        == u.outcomes[i as int] && is_backed(w, i) == is_backed(u, i) && stays_backed(u, w, i) by {
        assert(v.partitions[p as int].idxs.contains(i));
    }
    assert forall|e: ErrorView| #[trigger] has_failed(u, p, e) implies has_failed(w, p, e) by {
        assert forall|i: usize| #[trigger] w.partitions[p as int].idxs.contains(i) implies w.outcomes[i as int]
            == Some(Err::<UsageRecordView, ErrorView>(e)) && !is_backed(w, i) by {
            assert(u.partitions[p as int].idxs.contains(i));
        }
    }
}

proof fn lemma_keeps_itself(v: BatchView, p: usize)
    ensures
        keeps(v, v, p),
{
}

/// The locks that were taken: each once, in order.
proof fn lemma_tried_locks(locks: Seq<Result<(), Failure>>, n: nat)
    requires
        n <= usize::MAX,
    ensures
        ascends(tried_locks(locks, n), n as int),
        forall|p: usize|
            #![trigger locks[p as int]]
            p < n && locks[p as int] is Ok ==> tried_locks(locks, n).contains(p),
        forall|k: int|
            0 <= k < tried_locks(locks, n).len() ==> locks[(#[trigger] tried_locks(
                locks,
                n,
            )[k]) as int] is Ok,
    decreases n,
{
    if n > 0 {
        let front = tried_locks(locks, (n - 1) as nat);
        lemma_tried_locks(locks, (n - 1) as nat);
        let all = tried_locks(locks, n);
        assert forall|p: usize|
            #![trigger locks[p as int]]
            p < n && locks[p as int] is Ok implies all.contains(p) by {
            if p < n - 1 {
                assert(front.contains(p));
                let k = choose|k: int| 0 <= k < front.len() && front[k] == p;
                assert(all[k] == p);
            } else {
                assert(all[all.len() - 1] == p);
            }
        }
    }
}

/// After the locks were tried, the partition has failed where its lock was not
/// taken, and nothing is known of it where it was.
proof fn lemma_tried_plan(start: BatchView, locks: Seq<Result<(), Failure>>, n: nat, p: usize)
    requires
        placed(start),
        is_fresh(start, p),
        p < start.partitions.len(),
        n <= start.partitions.len(),
        n <= usize::MAX,
    ensures
        placed(tried_plan(start, locks, n)),
        tried_plan(start, locks, n).records == start.records,
        tried_plan(start, locks, n).partitions == start.partitions,
        p < n && locks[p as int] is Err ==> has_failed(
            tried_plan(start, locks, n),
            p,
            failure_error(locks[p as int]->Err_0),
        ),
        p < n && locks[p as int] is Err || is_fresh(tried_plan(start, locks, n), p),
    decreases n,
{
    if n > 0 {
        lemma_tried_plan(start, locks, (n - 1) as nat, p);
        let front = tried_plan(start, locks, (n - 1) as nat);
        let q = (n - 1) as usize;
        if let Err(f) = locks[n - 1] {
            lemma_failure_elsewhere(front, q, failure_error(f), p);
            if p != q {
                lemma_keeps_itself(front, p);
                lemma_keeps_transits(
                    front,
                    front,
                    with_failed_partition(front, q, failure_error(f)),
                    p,
                );
            }
        }
    }
}

/// Whether a plan holds what composing the partition's records made of them.
spec fn is_composed<V: Fn(Candidate) -> Result<(), String>>(
    validate: V,
    version_base: u64,
    p: usize,
    existing: Seq<RowView>,
    start: BatchView,
    v0: BatchView,
    trace: Seq<BatchView>,
    v1: BatchView,
) -> bool {
    &&& placed(v0)
    &&& is_fresh(v0, p)
    &&& v0.records == start.records
    &&& v0.partitions == start.partitions
    &&& composes_all(validate, version_base, p, existing, v0, trace, v1)
}

/// What the reads of the first `k` partitions make of the partition.
spec fn read_verdict<V: Fn(Candidate) -> Result<(), String>>(
    validate: V,
    version_base: u64,
    p: usize,
    start: BatchView,
    result: Option<Result<Vec<UsageRecordRow>, Failure>>,
    v: BatchView,
) -> bool {
    match result {
        None => is_fresh(v, p),
        Some(Err(f)) => has_failed(v, p, failure_error(f)),
        Some(Ok(rows)) => exists|v0: BatchView, trace: Seq<BatchView>, v1: BatchView| #[trigger]
            is_composed(
                validate,
                version_base,
                p,
                row_views(rows@),
                start,
                v0,
                trace,
                v1,
            ) && keeps(v1, v, p),
    }
}

proof fn lemma_result_of_prefix<T>(ps: Seq<usize>, results: Seq<T>, p: usize, k: int)
    requires
        0 <= k < ps.len(),
    ensures
        result_of(ps.take(k + 1), results, p) == (if ps[k] == p {
            Some(results[k])
        } else {
            result_of(ps.take(k), results, p)
        }),
{
    let longer = ps.take(k + 1);
    assert(longer.drop_last() =~= ps.take(k));
    assert(longer.last() == ps[k]);
}

proof fn lemma_result_of_absent<T>(ps: Seq<usize>, results: Seq<T>, p: usize)
    ensures
        result_of(ps, results, p) is Some <==> ps.contains(p),
    decreases ps.len(),
{
    if ps.len() > 0 {
        let front = ps.drop_last();
        lemma_result_of_absent(front, results, p);
        if ps.last() == p {
            assert(ps[ps.len() - 1] == p);
        } else {
            if front.contains(p) {
                let a = choose|a: int| 0 <= a < front.len() && front[a] == p;
                assert(ps[a] == p);
            }
            if ps.contains(p) {
                let a = choose|a: int| 0 <= a < ps.len() && ps[a] == p;
                assert(front[a] == p);
            }
        }
    }
}

/// The reads, up to one, of partitions whose locks were taken.
proof fn lemma_reads<V: Fn(Candidate) -> Result<(), String>>(
    validate: V,
    version_base: u64,
    start: BatchView,
    ps: Seq<usize>,
    results: Seq<Result<Vec<UsageRecordRow>, Failure>>,
    plans: Seq<BatchView>,
    k: int,
    p: usize,
)
    requires
        placed(plans[0]),
        plans[0].records == start.records,
        plans[0].partitions == start.partitions,
        p < start.partitions.len(),
        ascends(ps, start.partitions.len() as int),
        reads_all(validate, version_base, ps, results, plans),
        0 <= k <= ps.len(),
        ps.contains(p) ==> is_fresh(plans[0], p),
    ensures
        placed(plans[k]),
        plans[k].records == start.records,
        plans[k].partitions == start.partitions,
        ps.contains(p) ==> read_verdict(
            validate,
            version_base,
            p,
            start,
            result_of(ps.take(k), results, p),
            plans[k],
        ),
        !ps.contains(p) ==> keeps(plans[0], plans[k], p),
    decreases k,
{
    if k == 0 {
        assert(ps.take(0) =~= Seq::<usize>::empty());
        lemma_keeps_itself(plans[0], p);
    } else {
        lemma_reads(validate, version_base, start, ps, results, plans, k - 1, p);
        let before = plans[k - 1];
        let after = plans[k - 1 + 1];
        let q = ps[k - 1];
        assert(q < start.partitions.len());
        assert(reads(validate, version_base, q, results[k - 1], before, after));
        lemma_read_elsewhere(validate, version_base, q, results[k - 1], before, after, p);
        lemma_result_of_prefix(ps, results, p, k - 1);
        if !ps.contains(p) {
            assert(ps.contains(q));
            lemma_keeps_transits(plans[0], before, after, p);
        } else if q != p {
            match result_of(ps.take(k - 1), results, p) {
                None => {},
                Some(Err(f)) => {
                    lemma_keeps_itself(before, p);
                    lemma_keeps_transits(before, before, after, p);
                },
                Some(Ok(rows)) => {
                    let (v0, trace, v1) = choose|
                        v0: BatchView,
                        trace: Seq<BatchView>,
                        v1: BatchView,
                    | #[trigger]
                        is_composed(
                            validate,
                            version_base,
                            p,
                            row_views(rows@),
                            start,
                            v0,
                            trace,
                            v1,
                        ) && keeps(v1, before, p);
                    lemma_keeps_transits(v1, before, after, p);
                },
            }
        } else {
            let front = ps.take(k - 1);
            lemma_result_of_absent(front, results, p);
            if front.contains(p) {
                let a = choose|a: int| 0 <= a < front.len() && front[a] == p;
                assert(ps[a] < ps[k - 1]);
            }
            assert(is_fresh(before, p));
            match results[k - 1] {
                Ok(rows) => {
                    let trace = choose|trace: Seq<BatchView>| #[trigger]
                        composes_all(
                            validate,
                            version_base,
                            p,
                            row_views(rows@),
                            before,
                            trace,
                            after,
                        );
                    assert(is_composed(
                        validate,
                        version_base,
                        p,
                        row_views(rows@),
                        start,
                        before,
                        trace,
                        after,
                    ));
                    lemma_keeps_itself(after, p);
                },
                Err(f) => {
                    lemma_failure_elsewhere(before, p, failure_error(f), p);
                },
            }
        }
    }
}

/// The renewals of partitions that were read.
proof fn lemma_renewals(
    v: BatchView,
    ps: Seq<usize>,
    results: Seq<Result<(), Failure>>,
    p: usize,
)
    requires
        placed(v),
        p < v.partitions.len(),
        ascends(ps, v.partitions.len() as int),
    ensures
        placed(renewed_plan(v, ps, results)),
        renewed_plan(v, ps, results).records == v.records,
        renewed_plan(v, ps, results).partitions == v.partitions,
        match result_of(ps, results, p) {
            Some(Err(f)) => has_failed(renewed_plan(v, ps, results), p, failure_error(f)),
            _ => keeps(v, renewed_plan(v, ps, results), p),
        },
    decreases ps.len(),
{
    if ps.len() == 0 {
        lemma_keeps_itself(v, p);
    } else {
        let front = ps.drop_last();
        assert(ascends(front, v.partitions.len() as int));
        lemma_renewals(v, front, results, p);
        let u = renewed_plan(v, front, results);
        let q = ps.last();
        assert(ps[ps.len() - 1] == q);
        if q == p {
            lemma_result_of_absent(front, results, p);
            if front.contains(p) {
                let a = choose|a: int| 0 <= a < front.len() && front[a] == p;
                assert(ps[a] < ps[ps.len() - 1]);
            }
        }
        if let Err(f) = results[ps.len() - 1] {
            lemma_expiry_elsewhere(u, q, failure_error(f), p);
            if q != p {
                let w = with_expired_partition(u, q, failure_error(f));
                lemma_keeps_itself(u, p);
                lemma_keeps_transits(u, u, w, p);
                if !(result_of(front, results, p) matches Some(Err(_))) {
                    lemma_keeps_transits(v, u, w, p);
                }
            }
        }
    }
}

// ---- one partition in two runs ----

/// The rows differ at most in their versions and times of insertion.
spec fn alike(a: RowView, b: RowView) -> bool {
    a == (RowView { version: a.version, ingested_at: a.ingested_at, ..b })
}

proof fn lemma_alike_outcomes<V: Fn(Candidate) -> Result<(), String>>(
    validate: V,
    a: RowView,
    b: RowView,
)
    requires
        alike(a, b),
    ensures
        forall|o: OutcomeView| #[trigger]
            row_outcome(validate, a, o) == row_outcome(validate, b, o),
        forall|record: UsageRecordView, o: OutcomeView| #[trigger]
            hit_outcome(validate, a, record, o) == hit_outcome(validate, b, record, o),
{
    assert(row_candidates(a) == row_candidates(b));
    assert(model_of_row(a) == model_of_row(b));
    assert forall|o: OutcomeView| #[trigger] row_outcome(validate, a, o) == row_outcome(
        validate,
        b,
        o,
    ) by {}
    assert forall|record: UsageRecordView, o: OutcomeView| #[trigger]
        hit_outcome(validate, a, record, o) == hit_outcome(validate, b, record, o) by {
        assert(row_outcome(validate, a, o) == row_outcome(validate, b, o));
        assert(same_canonical_fields(a, record) == same_canonical_fields(b, record));
    }
}

proof fn lemma_alike_decided<V: Fn(Candidate) -> Result<(), String>>(
    validate: V,
    a: RowView,
    b: RowView,
)
    requires
        alike(a, b),
        is_decided(validate, b),
    ensures
        is_decided(validate, a),
{
    lemma_alike_outcomes(validate, a, b);
    assert forall|x: OutcomeView, y: OutcomeView| #[trigger]
        row_outcome(validate, a, x) && #[trigger] row_outcome(validate, a, y) implies x == y by {
        assert(row_outcome(validate, b, x) && row_outcome(validate, b, y));
    }
    assert forall|record: UsageRecordView, x: OutcomeView, y: OutcomeView| #[trigger]
        hit_outcome(validate, a, record, x) && #[trigger] hit_outcome(
        validate,
        a,
        record,
        y,
    ) implies x == y by {
        assert(hit_outcome(validate, b, record, x) && hit_outcome(validate, b, record, y));
    }
}

/// The row that was composed under the key.
spec fn lookup(v: BatchView, key: DedupKeyView) -> Option<RowView> {
    match position_of_key(v.rows, key) {
        Some(j) => Some(v.rows[j]),
        None => None,
    }
}

proof fn lemma_lookup_after_row(v: BatchView, w: BatchView, row: RowView, key: DedupKeyView)
    requires
        w.rows == v.rows.push(row),
    ensures
        lookup(w, key) == (if stored_key(row) == key {
            Some(row)
        } else {
            lookup(v, key)
        }),
{
    assert(w.rows.drop_last() =~= v.rows);
    lemma_found(v.rows, key);
}

/// Two plans agree on a record of the partition.
spec fn agree_at(a: BatchView, pa: usize, b: BatchView, pb: usize, y: int) -> bool {
    let i = a.partitions[pa as int].idxs[y];
    let j = b.partitions[pb as int].idxs[y];
    a.outcomes[i as int] == b.outcomes[j as int] && is_backed(a, i) == is_backed(b, j)
}

/// Two plans agree on the rows of the partition, and each is decided.
spec fn rows_agree<V: Fn(Candidate) -> Result<(), String>>(
    validate: V,
    a: BatchView,
    b: BatchView,
    key: DedupKeyView,
) -> bool {
    match (lookup(a, key), lookup(b, key)) {
        (Some(r), Some(s)) => alike(r, s) && is_decided(validate, r),
        (None, None) => true,
        _ => false,
    }
}

/// Two plans in which the first `x` records of the partition are composed.
spec fn agrees<V: Fn(Candidate) -> Result<(), String>>(
    validate: V,
    a: BatchView,
    pa: usize,
    b: BatchView,
    pb: usize,
    x: int,
) -> bool {
    &&& placed(a) && placed(b)
    &&& pa < a.partitions.len() && pb < b.partitions.len()
    &&& records_of(a, pa) == records_of(b, pb)
    &&& a.partitions[pa as int].gts_id == b.partitions[pb as int].gts_id
    &&& forall|y: int| 0 <= y < x ==> #[trigger] agree_at(a, pa, b, pb, y)
    &&& forall|y: int|
        x <= y < a.partitions[pa as int].idxs.len() ==> !is_backed(
            a,
            #[trigger] a.partitions[pa as int].idxs[y],
        )
    &&& forall|y: int|
        x <= y < b.partitions[pb as int].idxs.len() ==> !is_backed(
            b,
            #[trigger] b.partitions[pb as int].idxs[y],
        )
    &&& forall|key: DedupKeyView|
        key.1 == a.partitions[pa as int].gts_id ==> #[trigger] rows_agree(validate, a, b, key)
}

/// Whether the record that was composed depends on a row.
proof fn lemma_composing_backs<V: Fn(Candidate) -> Result<(), String>>(
    validate: V,
    version_base: u64,
    p: usize,
    existing: Seq<RowView>,
    before: BatchView,
    idx: usize,
    after: BatchView,
)
    requires
        placed(before),
        !is_backed(before, idx),
        idx < before.records.len(),
        composes(validate, version_base, p, existing, before, idx, after),
    ensures
        is_backed(after, idx) == (position_of_key(
            existing,
            record_key(before.records[idx as int]),
        ) is None && (position_of_key(before.rows, record_key(before.records[idx as int])) is None
            || after.outcomes[idx as int] matches Some(Ok(_)))),
{
    let key = record_key(before.records[idx as int]);
    lemma_found(before.rows, key);
    if is_backed(after, idx) {
        let j = choose|j: int| #[trigger] holds_slot(after, j, idx);
        if j < before.row_slots.len() && after.row_slots[j] == before.row_slots[j] {
            assert(holds_slot(before, j, idx));
        }
    }
    if position_of_key(existing, key) is None {
        match position_of_key(before.rows, key) {
            Some(j) => {
                if after.outcomes[idx as int] matches Some(Ok(_)) {
                    assert(after.row_slots[j] == before.row_slots[j].push(idx));
                    assert(after.row_slots[j][before.row_slots[j].len() as int] == idx);
                    assert(holds_slot(after, j, idx));
                }
            },
            None => {
                let j = before.row_slots.len() as int;
                assert(after.row_slots[j] == seq![idx]);
                assert(after.row_slots[j][0] == idx);
                assert(holds_slot(after, j, idx));
            },
        }
    }
}

/// Composing the next record of the partition keeps two plans in agreement.
proof fn lemma_composing_agrees<V: Fn(Candidate) -> Result<(), String>>(
    validate: V,
    base_a: u64,
    base_b: u64,
    existing: Seq<RowView>,
    a: BatchView,
    pa: usize,
    a2: BatchView,
    b: BatchView,
    pb: usize,
    b2: BatchView,
    x: int,
)
    requires
        agrees(validate, a, pa, b, pb, x),
        0 <= x < a.partitions[pa as int].idxs.len(),
        all_decided(validate, records_of(a, pa), existing),
        composes(validate, base_a, pa, existing, a, a.partitions[pa as int].idxs[x], a2),
        composes(validate, base_b, pb, existing, b, b.partitions[pb as int].idxs[x], b2),
    ensures
        agrees(validate, a2, pa, b2, pb, x + 1),
{
    let part_a = a.partitions[pa as int];
    let part_b = b.partitions[pb as int];
    assert(records_of(a, pa).len() == part_a.idxs.len());
    assert(records_of(b, pb).len() == part_b.idxs.len());
    let ia = part_a.idxs[x];
    let ib = part_b.idxs[x];
    assert(part_a.idxs.contains(ia) && part_b.idxs.contains(ib));
    lemma_in_range(a, pa, ia);
    lemma_in_range(b, pb, ib);
    let record = a.records[ia as int];
    assert(records_of(a, pa)[x] == record && records_of(b, pb)[x] == b.records[ib as int]);
    let key = record_key(record);
    assert(rows_agree(validate, a, b, key));
    lemma_found(a.rows, key);
    lemma_found(b.rows, key);
    lemma_found(existing, key);
    lemma_composing_elsewhere(validate, base_a, pa, existing, a, ia, a2, pa);
    lemma_composing_elsewhere(validate, base_b, pb, existing, b, ib, b2, pb);
    let oa = a2.outcomes[ia as int]->0;
    let ob = b2.outcomes[ib as int]->0;
    let fresh_row = row_of_record(record, 0, 0);
    assert(is_decided(validate, row_of_record(records_of(a, pa)[x], 0, 0)));
    match position_of_key(existing, key) {
        Some(k) => {
            assert(is_decided(validate, existing[k]));
            assert(hit_outcome(validate, existing[k], record, oa));
            assert(hit_outcome(validate, existing[k], record, ob));
        },
        None => match position_of_key(a.rows, key) {
            Some(ja) => {
                let jb = position_of_key(b.rows, key)->0;
                lemma_alike_outcomes(validate, a.rows[ja], b.rows[jb]);
                assert(hit_outcome(validate, a.rows[ja], record, oa));
                assert(hit_outcome(validate, b.rows[jb], record, ob));
                assert(hit_outcome(validate, a.rows[ja], record, ob));
            },
            None => {
                let ra = a2.rows.last();
                let rb = b2.rows.last();
                assert(alike(ra, fresh_row) && alike(rb, fresh_row) && alike(ra, rb));
                lemma_alike_decided(validate, ra, fresh_row);
                lemma_alike_outcomes(validate, ra, rb);
                assert(row_outcome(validate, ra, oa));
                assert(row_outcome(validate, rb, ob));
                assert(row_outcome(validate, ra, ob));
            },
        },
    }
    assert(oa == ob);
    lemma_composing_backs(validate, base_a, pa, existing, a, ia, a2);
    lemma_composing_backs(validate, base_b, pb, existing, b, ib, b2);
    let types_a = record_types(a.records);
    let types_b = record_types(b.records);
    assert(is_partition(types_a, part_a) && is_partition(types_b, part_b));
    assert forall|y: int| 0 <= y < part_a.idxs.len() && y != x implies is_backed(
        a2,
        #[trigger] part_a.idxs[y],
    ) == is_backed(a, part_a.idxs[y]) && a2.outcomes[part_a.idxs[y] as int]
        == a.outcomes[part_a.idxs[y] as int] by {
        let i = part_a.idxs[y];
        assert(i != ia);
        lemma_composing_backs_one(validate, base_a, pa, existing, a, ia, a2, i);
    }
    assert forall|y: int| 0 <= y < part_b.idxs.len() && y != x implies is_backed(
        b2,
        #[trigger] part_b.idxs[y],
    ) == is_backed(b, part_b.idxs[y]) && b2.outcomes[part_b.idxs[y] as int]
        == b.outcomes[part_b.idxs[y] as int] by {
        let i = part_b.idxs[y];
        assert(i != ib);
        lemma_composing_backs_one(validate, base_b, pb, existing, b, ib, b2, i);
    }
    assert forall|y: int| 0 <= y < x + 1 implies #[trigger] agree_at(a2, pa, b2, pb, y) by {
        if y < x {
            assert(agree_at(a, pa, b, pb, y));
            assert(part_a.idxs[y] == a2.partitions[pa as int].idxs[y]);
            assert(part_b.idxs[y] == b2.partitions[pb as int].idxs[y]);
        }
    }
    assert forall|k: DedupKeyView| k.1 == part_a.gts_id implies #[trigger] rows_agree(
        validate,
        a2,
        b2,
        k,
    ) by {
        assert(rows_agree(validate, a, b, k));
        if position_of_key(existing, key) is None && position_of_key(a.rows, key) is None {
            lemma_lookup_after_row(a, a2, a2.rows.last(), k);
            lemma_lookup_after_row(b, b2, b2.rows.last(), k);
        }
    }
    assert(records_of(a2, pa) =~= records_of(a, pa));
    assert(records_of(b2, pb) =~= records_of(b, pb));
}

proof fn lemma_no_row_of_type(v: BatchView, p: usize, key: DedupKeyView)
    requires
        is_fresh(v, p),
        key.1 == v.partitions[p as int].gts_id,
    ensures
        lookup(v, key) is None,
{
    lemma_found(v.rows, key);
}

/// Composing the partition brings two plans in which nothing was known of it to
/// agreement.
proof fn lemma_composition_agrees<V: Fn(Candidate) -> Result<(), String>>(
    validate: V,
    base_a: u64,
    base_b: u64,
    existing: Seq<RowView>,
    a: BatchView,
    pa: usize,
    trace_a: Seq<BatchView>,
    end_a: BatchView,
    b: BatchView,
    pb: usize,
    trace_b: Seq<BatchView>,
    end_b: BatchView,
    x: int,
)
    requires
        placed(a) && placed(b),
        pa < a.partitions.len() && pb < b.partitions.len(),
        records_of(a, pa) == records_of(b, pb),
        a.partitions[pa as int].gts_id == b.partitions[pb as int].gts_id,
        is_fresh(a, pa) && is_fresh(b, pb),
        all_decided(validate, records_of(a, pa), existing),
        composes_all(validate, base_a, pa, existing, a, trace_a, end_a),
        composes_all(validate, base_b, pb, existing, b, trace_b, end_b),
        0 <= x <= a.partitions[pa as int].idxs.len(),
    ensures
        agrees(validate, trace_a[x], pa, trace_b[x], pb, x),
        trace_a[x].partitions == a.partitions,
        trace_b[x].partitions == b.partitions,
        records_of(trace_a[x], pa) == records_of(a, pa),
    decreases x,
{
    let part_a = a.partitions[pa as int];
    let part_b = b.partitions[pb as int];
    assert(records_of(a, pa).len() == part_a.idxs.len());
    assert(records_of(b, pb).len() == part_b.idxs.len());
    if x == 0 {
        assert forall|y: int| 0 <= y < part_a.idxs.len() implies !is_backed(
            a,
            #[trigger] part_a.idxs[y],
        ) by {
            assert(part_a.idxs.contains(part_a.idxs[y]));
        }
        assert forall|y: int| 0 <= y < part_b.idxs.len() implies !is_backed(
            b,
            #[trigger] part_b.idxs[y],
        ) by {
            assert(part_b.idxs.contains(part_b.idxs[y]));
        }
        assert forall|key: DedupKeyView| key.1 == part_a.gts_id implies #[trigger] rows_agree(
            validate,
            a,
            b,
            key,
        ) by {
            lemma_no_row_of_type(a, pa, key);
            lemma_no_row_of_type(b, pb, key);
        }
    } else {
        lemma_composition_agrees(
            validate,
            base_a,
            base_b,
            existing,
            a,
            pa,
            trace_a,
            end_a,
            b,
            pb,
            trace_b,
            end_b,
            x - 1,
        );
        let va = trace_a[x - 1];
        let vb = trace_b[x - 1];
        assert(composes(validate, base_a, pa, existing, va, part_a.idxs[x - 1], trace_a[x - 1 + 1]));
        assert(composes(validate, base_b, pb, existing, vb, part_b.idxs[x - 1], trace_b[x - 1 + 1]));
        lemma_composing_agrees(
            validate,
            base_a,
            base_b,
            existing,
            va,
            pa,
            trace_a[x],
            vb,
            pb,
            trace_b[x],
            x - 1,
        );
        let ia = part_a.idxs[x - 1];
        let ib = part_b.idxs[x - 1];
        assert(part_a.idxs.contains(ia) && part_b.idxs.contains(ib));
        lemma_composing_elsewhere(validate, base_a, pa, existing, va, ia, trace_a[x], pa);
        lemma_composing_elsewhere(validate, base_b, pb, existing, vb, ib, trace_b[x], pb);
        assert(records_of(trace_a[x], pa) =~= records_of(va, pa));
    }
}

// ---- whole runs ----

proof fn lemma_parted(
    ps: Seq<usize>,
    results: Seq<Result<Vec<UsageRecordRow>, Failure>>,
    bound: int,
    p: usize,
)
    requires
        ascends(ps, bound),
    ensures
        ascends(parted(ps, results, true), bound),
        forall|k: int|
            0 <= k < parted(ps, results, true).len() ==> ps.contains(
                #[trigger] parted(ps, results, true)[k],
            ),
        parted(ps, results, true).contains(p) <==> (result_of(ps, results, p) matches Some(Ok(_))),
    decreases ps.len(),
{
    let all = parted(ps, results, true);
    if ps.len() > 0 {
        let front = ps.drop_last();
        assert(ascends(front, bound));
        lemma_parted(front, results, bound, p);
        lemma_result_of_absent(front, results, p);
        let some = parted(front, results, true);
        let last = ps.last();
        assert(ps[ps.len() - 1] == last);
        assert forall|k: int| 0 <= k < all.len() implies ps.contains(#[trigger] all[k]) by {
            if k < some.len() {
                assert(all[k] == some[k]);
                let a = choose|a: int| 0 <= a < front.len() && front[a] == some[k];
                assert(ps[a] == some[k]);
            }
        }
        assert forall|a: int, b: int| 0 <= a < b < all.len() implies (#[trigger] all[a]) < (
        #[trigger] all[b]) by {
            if b == some.len() {
                assert(front.contains(some[a]));
                let x = choose|x: int| 0 <= x < front.len() && front[x] == some[a];
                assert(ps[x] < ps[ps.len() - 1]);
            }
        }
        assert forall|a: int| 0 <= a < all.len() implies (#[trigger] all[a]) < bound by {
            if a < some.len() {
                assert(all[a] == some[a]);
            }
        }
        if some.contains(p) {
            let a = choose|a: int| 0 <= a < some.len() && some[a] == p;
            assert(all[a] == p);
            assert(front.contains(some[a]));
            let x = choose|x: int| 0 <= x < front.len() && front[x] == p;
            assert(ps[x] < ps[ps.len() - 1]);
        }
        if last == p && results[ps.len() - 1] is Ok {
            assert(all[some.len() as int] == p);
        }
        if all.contains(p) && last != p {
            let a = choose|a: int| 0 <= a < all.len() && all[a] == p;
            assert(some[a] == p);
        }
        if all.contains(p) && last == p && results[ps.len() - 1] is Err {
            assert(some.contains(p));
        }
    }
}

/// What a run makes of the outcomes of a partition, given the plan that holds
/// what composing it made of its records.
spec fn answered(v1: BatchView, end: BatchView, p: usize, write: Result<(), Failure>) -> bool {
    forall|i: usize| #[trigger]
        v1.partitions[p as int].idxs.contains(i) ==> end.outcomes[i as int] == (match write {
            Err(f) if is_backed(v1, i) => Some(
                Err::<UsageRecordView, ErrorView>(failure_error(f)),
            ),
            _ => v1.outcomes[i as int],
        })
}

/// The rows that the partition's records depend on are handed to the write.
spec fn lands(v1: BatchView, written: Seq<RowView>, p: usize) -> bool {
    forall|i: usize, row: RowView|
        v1.partitions[p as int].idxs.contains(i) && #[trigger] backs(v1, i, row)
            ==> written.contains(row)
}

/// Every record of the partition is answered with the error.
spec fn refused(start: BatchView, end: BatchView, p: usize, e: ErrorView) -> bool {
    forall|i: usize| #[trigger]
        start.partitions[p as int].idxs.contains(i) ==> end.outcomes[i as int] == Some(
            Err::<UsageRecordView, ErrorView>(e),
        )
}

/// What the write makes of the outcomes.
proof fn lemma_write(v: BatchView, p: usize, i: usize, write: Result<(), Failure>, end: BatchView)
    requires
        placed(v),
        p < v.partitions.len(),
        v.partitions[p as int].idxs.contains(i),
        end == (match write {
            Ok(_) => v,
            Err(f) => with_failed_write(v, failure_error(f)),
        }),
    ensures
        end.outcomes[i as int] == (match write {
            Err(f) if is_backed(v, i) => Some(Err::<UsageRecordView, ErrorView>(failure_error(f))),
            _ => v.outcomes[i as int],
        }),
{
    lemma_in_range(v, p, i);
    if let Err(f) = write {
        lemma_failed_at_all(v.outcomes, v.row_slots, failure_error(f));
        assert((i as int) as usize == i);
        if is_backed(v, i) {
            let j = choose|j: int| #[trigger] holds_slot(v, j, i);
            assert(v.row_slots[j].contains(i));
        } else {
            assert forall|j: int| 0 <= j < v.row_slots.len() implies !(
            #[trigger] v.row_slots[j]).contains(i) by {
                assert(!holds_slot(v, j, i));
            }
        }
    }
}

/// What a run comes to for a partition.
spec fn verdict<V: Fn(Candidate) -> Result<(), String>>(
    validate: V,
    version_base: u64,
    start: BatchView,
    r: RunResults,
    written: Seq<RowView>,
    end: BatchView,
    p: usize,
) -> bool {
    match r.locks[p as int] {
        Err(f) => refused(start, end, p, failure_error(f)),
        Ok(_) => match result_of(locked_of(start, r), r.reads, p) {
            None => false,
            Some(Err(f)) => refused(start, end, p, failure_error(f)),
            Some(Ok(rows)) => match result_of(held_of(start, r), r.renewals, p) {
                None => false,
                Some(Err(f)) => refused(start, end, p, failure_error(f)),
                Some(Ok(_)) => exists|v0: BatchView, trace: Seq<BatchView>, v1: BatchView| #[trigger]
                    is_composed(
                        validate,
                        version_base,
                        p,
                        row_views(rows@),
                        start,
                        v0,
                        trace,
                        v1,
                    ) && answered(v1, end, p, r.write) && lands(v1, written, p),
            },
        },
    }
}

/// A partition that has failed before the write is refused.
proof fn lemma_refused(
    start: BatchView,
    v: BatchView,
    p: usize,
    e: ErrorView,
    write: Result<(), Failure>,
    end: BatchView,
)
    requires
        placed(v),
        p < v.partitions.len(),
        v.partitions == start.partitions,
        has_failed(v, p, e),
        end == (match write {
            Ok(_) => v,
            Err(f) => with_failed_write(v, failure_error(f)),
        }),
    ensures
        refused(start, end, p, e),
{
    assert forall|i: usize| #[trigger] start.partitions[p as int].idxs.contains(i) implies end.outcomes[i as int]
        == Some(Err::<UsageRecordView, ErrorView>(e)) by {
        assert(v.partitions[p as int].idxs.contains(i));
        lemma_write(v, p, i, write, end);
    }
}

proof fn lemma_verdict<V: Fn(Candidate) -> Result<(), String>>(
    validate: V,
    version_base: u64,
    start: BatchView,
    r: RunResults,
    plans: Seq<BatchView>,
    end: BatchView,
    p: usize,
)
    requires
        is_batch_run(validate, version_base, start, r, plans, end),
        p < start.partitions.len(),
    ensures
        verdict(validate, version_base, start, r, rows_to_write(start, r, plans), end, p),
{
    let n = start.partitions.len();
    lemma_partitions_are_few(start);
    assert(placed(start)) by {
        assert forall|j: int, i: usize| #[trigger] holds_slot(start, j, i) implies start.partitions[start.row_partition[j] as int].idxs.contains(
        i) by {}
    }
    assert(is_fresh(start, p)) by {
        assert forall|i: usize| #[trigger] start.partitions[p as int].idxs.contains(i) implies start.outcomes[i as int] is None
            && !is_backed(start, i) by {
            lemma_in_range(start, p, i);
        }
    }
    lemma_tried_plan(start, r.locks, n, p);
    lemma_tried_locks(r.locks, n);
    let locked = locked_of(start, r);
    let held = held_of(start, r);
    if locked.contains(p) {
        let k = choose|k: int| 0 <= k < locked.len() && locked[k] == p;
        assert(r.locks[locked[k] as int] is Ok);
    }
    let last = locked.len() as int;
    lemma_reads(validate, version_base, start, locked, r.reads, plans, last, p);
    assert(locked.take(last) =~= locked);
    assert(plans.last() == plans[last]);
    lemma_parted(locked, r.reads, n as int, p);
    lemma_result_of_absent(locked, r.reads, p);
    lemma_result_of_absent(held, r.renewals, p);
    let v = plans[last];
    lemma_renewals(v, held, r.renewals, p);
    let w = renewed_plan(v, held, r.renewals);
    lemma_keeps_itself(v, p);
    match r.locks[p as int] {
        Err(f) => {
            lemma_keeps_transits(plans[0], v, w, p);
            lemma_refused(start, w, p, failure_error(f), r.write, end);
        },
        Ok(_) => {
            assert(locked.contains(p));
            match result_of(locked, r.reads, p)->0 {
                Err(f) => {
                    lemma_keeps_transits(v, v, w, p);
                    lemma_refused(start, w, p, failure_error(f), r.write, end);
                },
                Ok(rows) => match result_of(held, r.renewals, p)->0 {
                    Err(f) => {
                        lemma_refused(start, w, p, failure_error(f), r.write, end);
                    },
                    Ok(_) => {
                        let (v0, trace, v1) = choose|
                            v0: BatchView,
                            trace: Seq<BatchView>,
                            v1: BatchView,
                        | #[trigger]
                            is_composed(
                                validate,
                                version_base,
                                p,
                                row_views(rows@),
                                start,
                                v0,
                                trace,
                                v1,
                            ) && keeps(v1, v, p);
                        lemma_keeps_transits(v1, v, w, p);
                        assert forall|i: usize| #[trigger]
                            v1.partitions[p as int].idxs.contains(i) implies end.outcomes[i as int]
                            == (match r.write {
                            Err(f) if is_backed(v1, i) => Some(
                                Err::<UsageRecordView, ErrorView>(failure_error(f)),
                            ),
                            _ => v1.outcomes[i as int],
                        }) by {
                            assert(w.partitions[p as int].idxs.contains(i));
                            lemma_write(w, p, i, r.write, end);
                        }
                        assert(answered(v1, end, p, r.write));
                        assert forall|i: usize, row: RowView|
                            v1.partitions[p as int].idxs.contains(i) && #[trigger] backs(
                                v1,
                                i,
                                row,
                            ) implies w.rows.contains(row) by {
                            assert(stays_backed(v1, w, i));
                            let j = choose|j: int| #[trigger] backs_at(w, j, i, row);
                            assert(w.rows[j] == row);
                        }
                    },
                },
            }
        },
    }
}

/// There are no more partitions than records.
proof fn lemma_partitions_are_few(v: BatchView)
    requires
        is_partitioning(record_types(v.records), v.partitions),
        v.records.len() <= usize::MAX,
    ensures
        v.partitions.len() <= usize::MAX,
{
    let firsts = Seq::new(v.partitions.len(), |p: int| v.partitions[p].idxs[0] as int);
    let types = record_types(v.records);
    assert forall|a: int, b: int| 0 <= a < b < firsts.len() implies firsts[a] != firsts[b] by {
        assert(is_partition(types, v.partitions[a]) && is_partition(types, v.partitions[b]));
        let i = v.partitions[a].idxs[0];
        if firsts[a] == firsts[b] {
            assert(v.partitions[a].idxs.contains(i));
            assert(v.partitions[b].idxs[0] == i);
            assert(v.partitions[b].idxs.contains(i));
            lemma_partitions_are_disjoint(types, v.partitions, a, b, i);
        }
    }
    assert(firsts.no_duplicates());
    let all = vstd::set_lib::set_int_range(0, v.records.len() as int);
    vstd::set_lib::lemma_int_range(0, v.records.len() as int);
    assert(firsts.to_set().subset_of(all)) by {
        assert forall|x: int| firsts.to_set().contains(x) implies all.contains(x) by {
            let p = choose|p: int| 0 <= p < firsts.len() && firsts[p] == x;
            assert(is_partition(types, v.partitions[p]));
        }
    }
    firsts.unique_seq_to_set();
    vstd::set_lib::lemma_len_subset(firsts.to_set(), all);
}

/// Why a partition fails in a run, if it does: its lock was not taken, it could
/// not be read, or its lock was lost before the write.
pub open spec fn failure_of(start: BatchView, r: RunResults, p: usize) -> Option<ErrorView> {
    match r.locks[p as int] {
        Err(f) => Some(failure_error(f)),
        Ok(_) => match result_of(locked_of(start, r), r.reads, p) {
            Some(Err(f)) => Some(failure_error(f)),
            _ => match result_of(held_of(start, r), r.renewals, p) {
                Some(Err(f)) => Some(failure_error(f)),
                _ => None,
            },
        },
    }
}

/// Every record of a partition that fails is answered with its failure, stored
/// before or not.
pub proof fn law_failed_partition_is_refused<V: Fn(Candidate) -> Result<(), String>>(
    validate: V,
    version_base: u64,
    start: BatchView,
    r: RunResults,
    plans: Seq<BatchView>,
    end: BatchView,
    p: usize,
    i: usize,
)
    requires
        is_batch_run(validate, version_base, start, r, plans, end),
        p < start.partitions.len(),
        failure_of(start, r, p) is Some,
        start.partitions[p as int].idxs.contains(i),
    ensures
        end.outcomes[i as int] == Some(
            Err::<UsageRecordView, ErrorView>(failure_of(start, r, p)->0),
        ),
{
    lemma_verdict(validate, version_base, start, r, plans, end, p);
}

/// The success of a record is a row under its key: one that was found stored, or
/// one that its success depends on.
spec fn is_explained(
    v: BatchView,
    i: usize,
    existing: Seq<RowView>,
    m: UsageRecordView,
    row: RowView,
) -> bool {
    &&& m == model_of_row(row)
    &&& row.status == UsageRecordStatusCode::Active
    &&& stored_key(row) == record_key(v.records[i as int])
    &&& existing.contains(row) || backs(v, i, row)
}

/// Where the record has succeeded, its success is explained.
spec fn success_explained(v: BatchView, i: usize, existing: Seq<RowView>) -> bool {
    v.outcomes[i as int] matches Some(Ok(m)) ==> exists|row: RowView| #[trigger]
        is_explained(v, i, existing, m, row)
}

/// The success of a record that was just composed is explained.
proof fn lemma_composed_success<V: Fn(Candidate) -> Result<(), String>>(
    validate: V,
    version_base: u64,
    p: usize,
    existing: Seq<RowView>,
    before: BatchView,
    idx: usize,
    after: BatchView,
)
    requires
        placed(before),
        p < before.partitions.len(),
        before.partitions[p as int].idxs.contains(idx),
        composes(validate, version_base, p, existing, before, idx, after),
    ensures
        success_explained(after, idx, existing),
{
    let record = before.records[idx as int];
    let key = record_key(record);
    lemma_in_range(before, p, idx);
    lemma_found(existing, key);
    lemma_found(before.rows, key);
    if let Some(Ok(m)) = after.outcomes[idx as int] {
        match position_of_key(existing, key) {
            Some(k) => {
                assert(existing.contains(existing[k]));
                assert(is_explained(after, idx, existing, m, existing[k]));
            },
            None => match position_of_key(before.rows, key) {
                Some(j) => {
                    let row = before.rows[j];
                    let at = before.row_slots[j].len() as int;
                    assert(after.row_slots[j][at] == idx);
                    assert(backs_at(after, j, idx, row));
                    assert(is_explained(after, idx, existing, m, row));
                },
                None => {
                    let j = before.rows.len() as int;
                    let row = after.rows[j];
                    assert(after.row_slots[j][0] == idx);
                    assert(backs_at(after, j, idx, row));
                    assert(is_explained(after, idx, existing, m, row));
                },
            },
        }
    }
}

/// The successes of the records that were composed so far are explained.
proof fn lemma_composed_successes<V: Fn(Candidate) -> Result<(), String>>(
    validate: V,
    version_base: u64,
    p: usize,
    existing: Seq<RowView>,
    v0: BatchView,
    trace: Seq<BatchView>,
    v1: BatchView,
    x: int,
)
    requires
        placed(v0),
        p < v0.partitions.len(),
        composes_all(validate, version_base, p, existing, v0, trace, v1),
        0 <= x <= v0.partitions[p as int].idxs.len(),
    ensures
        placed(trace[x]),
        trace[x].records == v0.records,
        trace[x].partitions == v0.partitions,
        forall|y: int|
            0 <= y < x ==> success_explained(
                trace[x],
                #[trigger] v0.partitions[p as int].idxs[y],
                existing,
            ),
    decreases x,
{
    if x > 0 {
        lemma_composed_successes(validate, version_base, p, existing, v0, trace, v1, x - 1);
        let idxs = v0.partitions[p as int].idxs;
        let idx = idxs[x - 1];
        let before = trace[x - 1];
        let after = trace[x - 1 + 1];
        assert(idxs.contains(idx));
        assert(composes(validate, version_base, p, existing, before, idx, after));
        lemma_composing_elsewhere(validate, version_base, p, existing, before, idx, after, p);
        lemma_composed_success(validate, version_base, p, existing, before, idx, after);
        assert(is_partition(record_types(v0.records), v0.partitions[p as int]));
        assert forall|y: int| 0 <= y < x implies success_explained(
            after,
            #[trigger] idxs[y],
            existing,
        ) by {
            let i = idxs[y];
            if y < x - 1 {
                assert(i != idx);
                assert(success_explained(before, i, existing));
                lemma_composing_backs_one(
                    validate,
                    version_base,
                    p,
                    existing,
                    before,
                    idx,
                    after,
                    i,
                );
                if let Some(Ok(m)) = before.outcomes[i as int] {
                    let row = choose|row: RowView| #[trigger]
                        is_explained(before, i, existing, m, row);
                    assert(is_explained(after, i, existing, m, row));
                }
            }
        }
    }
}

/// Every success of a batch is an active row under the record's key: one that
/// reading its partition found stored, or one that was written.
pub proof fn law_success_is_stored_or_written<V: Fn(Candidate) -> Result<(), String>>(
    validate: V,
    version_base: u64,
    start: BatchView,
    r: RunResults,
    plans: Seq<BatchView>,
    end: BatchView,
    p: usize,
    i: usize,
    m: UsageRecordView,
)
    requires
        is_batch_run(validate, version_base, start, r, plans, end),
        p < start.partitions.len(),
        start.partitions[p as int].idxs.contains(i),
        end.outcomes[i as int] == Some(Ok::<UsageRecordView, ErrorView>(m)),
    ensures
        record_key(m) == record_key(start.records[i as int]),
        m.status == UsageRecordStatus::Active,
        exists|row: RowView| #[trigger]
            model_of_row(row) == m && (stored_rows(start, r, p).contains(row) || r.write is Ok
                && rows_to_write(start, r, plans).contains(row)),
{
    lemma_verdict(validate, version_base, start, r, plans, end, p);
    let written = rows_to_write(start, r, plans);
    let existing = stored_rows(start, r, p);
    let (v0, trace, v1) = choose|v0: BatchView, trace: Seq<BatchView>, v1: BatchView| #[trigger]
        is_composed(validate, version_base, p, existing, start, v0, trace, v1) && answered(
            v1,
            end,
            p,
            r.write,
        ) && lands(v1, written, p);
    let idxs = start.partitions[p as int].idxs;
    let n = idxs.len() as int;
    lemma_composed_successes(validate, version_base, p, existing, v0, trace, v1, n);
    let y = choose|y: int| 0 <= y < idxs.len() && idxs[y] == i;
    assert(success_explained(trace[n], v0.partitions[p as int].idxs[y], existing));
    lemma_settled_alone(trace[n], v1, p);
    assert(v1.partitions[p as int].idxs.contains(i));
    assert(trace[n].partitions[p as int].idxs.contains(i));
    let row = choose|row: RowView| #[trigger] is_explained(trace[n], i, existing, m, row);
    assert(model_of_row(row) == m);
    assert(record_key(m) == stored_key(row));
    if !existing.contains(row) {
        assert(stays_backed(trace[n], v1, i));
        assert(backs(v1, i, row));
        let j = choose|j: int| #[trigger] backs_at(v1, j, i, row);
        assert(holds_slot(v1, j, i));
        assert(is_backed(v1, i));
    }
}

/// A partition of one run and a partition of another take the same course: their
/// locks, reads and renewals, as far as they come to them, and the writes of the
/// runs came to the same.
pub open spec fn same_course(
    start_a: BatchView,
    a: RunResults,
    pa: usize,
    start_b: BatchView,
    b: RunResults,
    pb: usize,
) -> bool {
    let read_a = result_of(locked_of(start_a, a), a.reads, pa);
    let read_b = result_of(locked_of(start_b, b), b.reads, pb);
    let renewal_a = result_of(held_of(start_a, a), a.renewals, pa);
    let renewal_b = result_of(held_of(start_b, b), b.renewals, pb);
    &&& same_step(a.locks[pa as int], b.locks[pb as int])
    &&& read_a is Some && read_b is Some ==> same_read(read_a->0, read_b->0)
    &&& renewal_a is Some && renewal_b is Some ==> same_step(renewal_a->0, renewal_b->0)
    &&& same_step(a.write, b.write)
}

/// What reading the partition found stored.
pub open spec fn stored_rows(start: BatchView, r: RunResults, p: usize) -> Seq<RowView> {
    match result_of(locked_of(start, r), r.reads, p) {
        Some(Ok(rows)) => row_views(rows@),
        _ => Seq::empty(),
    }
}

/// What the records of a partition come to depends on that partition and on the
/// write alone: two runs in which a partition has the same records and takes the
/// same course answer those records alike, whatever else the batches hold and
/// whatever their other partitions come to.
pub proof fn law_partitions_are_answered_apart<V: Fn(Candidate) -> Result<(), String>>(
    validate: V,
    base_a: u64,
    start_a: BatchView,
    a: RunResults,
    plans_a: Seq<BatchView>,
    end_a: BatchView,
    pa: usize,
    base_b: u64,
    start_b: BatchView,
    b: RunResults,
    plans_b: Seq<BatchView>,
    end_b: BatchView,
    pb: usize,
    y: int,
)
    requires
        is_batch_run(validate, base_a, start_a, a, plans_a, end_a),
        is_batch_run(validate, base_b, start_b, b, plans_b, end_b),
        pa < start_a.partitions.len(),
        pb < start_b.partitions.len(),
        records_of(start_a, pa) == records_of(start_b, pb),
        same_course(start_a, a, pa, start_b, b, pb),
        all_decided(validate, records_of(start_a, pa), stored_rows(start_a, a, pa)),
        0 <= y < records_of(start_a, pa).len(),
    ensures
        end_a.outcomes[start_a.partitions[pa as int].idxs[y] as int]
            == end_b.outcomes[start_b.partitions[pb as int].idxs[y] as int],
{
    let part_a = start_a.partitions[pa as int];
    let part_b = start_b.partitions[pb as int];
    assert(records_of(start_a, pa).len() == part_a.idxs.len());
    assert(records_of(start_b, pb).len() == part_b.idxs.len());
    let ia = part_a.idxs[y];
    let ib = part_b.idxs[y];
    assert(part_a.idxs.contains(ia) && part_b.idxs.contains(ib));
    lemma_in_range(start_a, pa, ia);
    lemma_in_range(start_b, pb, ib);
    assert(records_of(start_a, pa)[y] == start_a.records[ia as int]);
    assert(records_of(start_b, pb)[y] == start_b.records[ib as int]);
    assert(part_a.gts_id == part_b.gts_id);
    lemma_verdict(validate, base_a, start_a, a, plans_a, end_a, pa);
    lemma_verdict(validate, base_b, start_b, b, plans_b, end_b, pb);
    if a.locks[pa as int] is Ok && result_of(locked_of(start_a, a), a.reads, pa)->0 is Ok
        && result_of(held_of(start_a, a), a.renewals, pa)->0 is Ok {
        let existing = stored_rows(start_a, a, pa);
        let (u0, trace_a, u1) = choose|u0: BatchView, trace: Seq<BatchView>, u1: BatchView| #[trigger]
            is_composed(validate, base_a, pa, existing, start_a, u0, trace, u1) && answered(
                u1,
                end_a,
                pa,
                a.write,
            ) && lands(u1, rows_to_write(start_a, a, plans_a), pa);
        let (v0, trace_b, v1) = choose|v0: BatchView, trace: Seq<BatchView>, v1: BatchView| #[trigger]
            is_composed(validate, base_b, pb, existing, start_b, v0, trace, v1) && answered(
                v1,
                end_b,
                pb,
                b.write,
            ) && lands(v1, rows_to_write(start_b, b, plans_b), pb);
        assert(records_of(u0, pa) =~= records_of(start_a, pa));
        assert(records_of(v0, pb) =~= records_of(start_b, pb));
        let n = part_a.idxs.len() as int;
        lemma_composition_agrees(
            validate,
            base_a,
            base_b,
            existing,
            u0,
            pa,
            trace_a,
            u1,
            v0,
            pb,
            trace_b,
            v1,
            n,
        );
        assert(agree_at(trace_a[n], pa, trace_b[n], pb, y));
        lemma_settled_alone(trace_a[n], u1, pa);
        lemma_settled_alone(trace_b[n], v1, pb);
        assert(u1.partitions[pa as int].idxs.contains(ia));
        assert(v1.partitions[pb as int].idxs.contains(ib));
        assert(trace_a[n].partitions[pa as int].idxs.contains(ia));
        assert(trace_b[n].partitions[pb as int].idxs.contains(ib));
    }
}

// ---- leaving a usage type out ----

/// The records of a usage type.
pub open spec fn of_type(records: Seq<UsageRecordView>, gts_id: Seq<char>) -> Seq<UsageRecordView>
    decreases records.len(),
{
    if records.len() == 0 {
        Seq::empty()
    } else {
        let front = of_type(records.drop_last(), gts_id);
        if records.last().gts_id == gts_id {
            front.push(records.last())
        } else {
            front
        }
    }
}

/// The records of the other usage types.
pub open spec fn without_type(records: Seq<UsageRecordView>, gts_id: Seq<char>) -> Seq<
    UsageRecordView,
>
    decreases records.len(),
{
    if records.len() == 0 {
        Seq::empty()
    } else {
        let front = without_type(records.drop_last(), gts_id);
        if records.last().gts_id == gts_id {
            front
        } else {
            front.push(records.last())
        }
    }
}

proof fn lemma_type_left_out(records: Seq<UsageRecordView>, left_out: Seq<char>, gts_id: Seq<char>)
    requires
        left_out != gts_id,
    ensures
        of_type(without_type(records, left_out), gts_id) == of_type(records, gts_id),
    decreases records.len(),
{
    if records.len() > 0 {
        lemma_type_left_out(records.drop_last(), left_out, gts_id);
        let front = without_type(records.drop_last(), left_out);
        assert(front.push(records.last()).drop_last() =~= front);
    }
}

/// Positions that enumerate the records of a type name those records, in order.
proof fn lemma_enumerated(records: Seq<UsageRecordView>, gts_id: Seq<char>, idxs: Seq<usize>)
    requires
        records.len() <= usize::MAX,
        forall|a: int, b: int| 0 <= a < b < idxs.len() ==> (#[trigger] idxs[a]) < (#[trigger] idxs[b]),
        forall|a: int|
            0 <= a < idxs.len() ==> (#[trigger] idxs[a]) < records.len()
                && records[idxs[a] as int].gts_id == gts_id,
        forall|i: int|
            0 <= i < records.len() && (#[trigger] records[i]).gts_id == gts_id ==> idxs.contains(
                i as usize,
            ),
    ensures
        idxs.map_values(|i: usize| records[i as int]) == of_type(records, gts_id),
    decreases records.len(),
{
    let named = idxs.map_values(|i: usize| records[i as int]);
    if records.len() == 0 {
        if idxs.len() > 0 {
            assert(idxs[0] < records.len());
        }
        assert(named =~= Seq::<UsageRecordView>::empty());
    } else {
        let front = records.drop_last();
        let n = (records.len() - 1) as usize;
        if records.last().gts_id == gts_id {
            assert(records[n as int].gts_id == gts_id);
            assert(idxs.contains(n));
            let a = choose|a: int| 0 <= a < idxs.len() && idxs[a] == n;
            if a < idxs.len() - 1 {
                assert(idxs[a] < idxs[idxs.len() - 1]);
            }
            let fewer = idxs.drop_last();
            assert forall|x: int| 0 <= x < fewer.len() implies (#[trigger] fewer[x]) < front.len()
                && front[fewer[x] as int].gts_id == gts_id by {
                assert(idxs[x] < idxs[idxs.len() - 1]);
            }
            assert forall|i: int| 0 <= i < front.len() && (#[trigger] front[i]).gts_id
                == gts_id implies fewer.contains(i as usize) by {
                assert(records[i] == front[i]);
                let x = choose|x: int| 0 <= x < idxs.len() && idxs[x] == i as usize;
                assert(fewer[x] == i as usize);
            }
            lemma_enumerated(front, gts_id, fewer);
            assert(named =~= fewer.map_values(|i: usize| front[i as int]).push(records.last()));
        } else {
            assert forall|x: int| 0 <= x < idxs.len() implies (#[trigger] idxs[x]) < front.len()
                && front[idxs[x] as int].gts_id == gts_id by {}
            assert forall|i: int| 0 <= i < front.len() && (#[trigger] front[i]).gts_id
                == gts_id implies idxs.contains(i as usize) by {
                assert(records[i] == front[i]);
            }
            lemma_enumerated(front, gts_id, idxs);
            assert(named =~= idxs.map_values(|i: usize| front[i as int]));
        }
    }
}

proof fn lemma_records_of_type(v: BatchView, p: usize)
    requires
        is_partitioning(record_types(v.records), v.partitions),
        v.records.len() <= usize::MAX,
        p < v.partitions.len(),
    ensures
        records_of(v, p) == of_type(v.records, v.partitions[p as int].gts_id),
{
    let types = record_types(v.records);
    let part = v.partitions[p as int];
    assert(is_partition(types, part));
    assert forall|a: int| 0 <= a < part.idxs.len() implies (#[trigger] part.idxs[a])
        < v.records.len() && v.records[part.idxs[a] as int].gts_id == part.gts_id by {
        assert(types[part.idxs[a] as int] == v.records[part.idxs[a] as int].gts_id);
    }
    assert forall|i: int| 0 <= i < v.records.len() && (#[trigger] v.records[i]).gts_id
        == part.gts_id implies part.idxs.contains(i as usize) by {
        assert(types[i] == v.records[i].gts_id);
    }
    lemma_enumerated(v.records, part.gts_id, part.idxs);
}

/// Whatever the records of one usage type come to, the records of another have
/// the outcomes that they have in the batch without the first type's records,
/// where they take the same course there.
pub proof fn law_failed_partition_leaves_the_others_alone<
    V: Fn(Candidate) -> Result<(), String>,
>(
    validate: V,
    gts_id: Seq<char>,
    base_a: u64,
    start_a: BatchView,
    a: RunResults,
    plans_a: Seq<BatchView>,
    end_a: BatchView,
    pa: usize,
    base_b: u64,
    start_b: BatchView,
    b: RunResults,
    plans_b: Seq<BatchView>,
    end_b: BatchView,
    pb: usize,
    y: int,
)
    requires
        is_batch_run(validate, base_a, start_a, a, plans_a, end_a),
        is_batch_run(validate, base_b, start_b, b, plans_b, end_b),
        start_b.records == without_type(start_a.records, gts_id),
        pa < start_a.partitions.len(),
        pb < start_b.partitions.len(),
        start_a.partitions[pa as int].gts_id != gts_id,
        start_b.partitions[pb as int].gts_id == start_a.partitions[pa as int].gts_id,
        same_course(start_a, a, pa, start_b, b, pb),
        all_decided(validate, records_of(start_a, pa), stored_rows(start_a, a, pa)),
        0 <= y < start_a.partitions[pa as int].idxs.len(),
    ensures
        records_of(start_a, pa) == records_of(start_b, pb),
        end_a.outcomes[start_a.partitions[pa as int].idxs[y] as int]
            == end_b.outcomes[start_b.partitions[pb as int].idxs[y] as int],
{
    lemma_records_of_type(start_a, pa);
    lemma_records_of_type(start_b, pb);
    lemma_type_left_out(start_a.records, gts_id, start_a.partitions[pa as int].gts_id);
    assert(records_of(start_a, pa).len() == start_a.partitions[pa as int].idxs.len());
    law_partitions_are_answered_apart(
        validate,
        base_a,
        start_a,
        a,
        plans_a,
        end_a,
        pa,
        base_b,
        start_b,
        b,
        plans_b,
        end_b,
        pb,
        y,
    );
}

// ---- what each record of a batch comes to ----

/// No record before it in the partition has its key.
spec fn is_first(v: BatchView, idxs: Seq<usize>, y: int) -> bool {
    forall|z: int|
        0 <= z < y ==> record_key(v.records[(#[trigger] idxs[z]) as int]) != record_key(
            v.records[idxs[y] as int],
        )
}

/// The success of some record of the partition depends on the row.
spec fn rests_on(v: BatchView, idxs: Seq<usize>, row: RowView) -> bool {
    exists|z: int| 0 <= z < idxs.len() && backs(v, #[trigger] idxs[z], row)
}

/// A record whose key was not found stored has come to what the row that was
/// composed under its key makes of it: its own row where it is the first with its
/// key, and else a hit on the row of the first.
spec fn explains<V: Fn(Candidate) -> Result<(), String>>(
    validate: V,
    v: BatchView,
    idxs: Seq<usize>,
    y: int,
    row: RowView,
    o: OutcomeView,
) -> bool {
    let record = v.records[idxs[y] as int];
    &&& stored_key(row) == record_key(record)
    &&& rests_on(v, idxs, row)
    &&& v.outcomes[idxs[y] as int] == Some(o)
    &&& is_first(v, idxs, y) ==> is_row_of(record, row.version, row) && row_outcome(
        validate,
        row,
        o,
    ) && is_backed(v, idxs[y])
    &&& !is_first(v, idxs, y) ==> hit_outcome(validate, row, record, o) && is_backed(v, idxs[y])
        == (o is Ok)
}

/// What composing a record of the partition has made of it.
spec fn composed_at<V: Fn(Candidate) -> Result<(), String>>(
    validate: V,
    v: BatchView,
    existing: Seq<RowView>,
    idxs: Seq<usize>,
    y: int,
) -> bool {
    let record = v.records[idxs[y] as int];
    match position_of_key(existing, record_key(record)) {
        Some(k) => exists|o: OutcomeView| #[trigger]
            hit_outcome(validate, existing[k], record, o) && v.outcomes[idxs[y] as int] == Some(o)
                && !is_backed(v, idxs[y]),
        None => exists|row: RowView, o: OutcomeView| #[trigger]
            explains(validate, v, idxs, y, row, o),
    }
}

/// The row has the key of one of the first records of the partition.
spec fn has_source(v: BatchView, idxs: Seq<usize>, x: int, row: RowView) -> bool {
    exists|z: int|
        0 <= z < x && stored_key(row) == record_key(v.records[(#[trigger] idxs[z]) as int])
}

proof fn lemma_last_of_key(rows: Seq<RowView>, key: DedupKeyView)
    ensures
        position_of_key(rows, key) matches Some(j) ==> 0 <= j < rows.len() && stored_key(rows[j])
            == key && forall|l: int| j < l < rows.len() ==> stored_key(#[trigger] rows[l]) != key,
        position_of_key(rows, key) is None ==> forall|l: int|
            0 <= l < rows.len() ==> stored_key(#[trigger] rows[l]) != key,
    decreases rows.len(),
{
    if rows.len() > 0 && stored_key(rows.last()) != key {
        let front = rows.drop_last();
        lemma_last_of_key(front, key);
        assert forall|l: int|
            (position_of_key(rows, key) is Some ==> position_of_key(rows, key)->0 < l) && 0 <= l
                < rows.len() implies stored_key(#[trigger] rows[l]) != key by {
            if l < front.len() {
                assert(front[l] == rows[l]);
            }
        }
    }
}

/// Composing one more record leaves what the records before it have come to.
proof fn lemma_composed_before_stays<V: Fn(Candidate) -> Result<(), String>>(
    validate: V,
    version_base: u64,
    p: usize,
    existing: Seq<RowView>,
    before: BatchView,
    idxs: Seq<usize>,
    x: int,
    after: BatchView,
    y: int,
)
    requires
        placed(before),
        p < before.partitions.len(),
        idxs == before.partitions[p as int].idxs,
        0 <= y < x < idxs.len(),
        composes(validate, version_base, p, existing, before, idxs[x], after),
        composed_at(validate, before, existing, idxs, y),
        forall|z: int| x <= z < idxs.len() ==> !is_backed(before, #[trigger] idxs[z]),
    ensures
        composed_at(validate, after, existing, idxs, y),
{
    let idx = idxs[x];
    let i = idxs[y];
    assert(is_partition(record_types(before.records), before.partitions[p as int]));
    assert(idxs.contains(idxs[x]) && idxs.contains(idxs[y]));
    lemma_in_range(before, p, idx);
    lemma_in_range(before, p, i);
    assert(i != idx);
    lemma_composing_backs_one(validate, version_base, p, existing, before, idx, after, i);
    assert(after.outcomes[i as int] == before.outcomes[i as int]);
    assert(after.records == before.records);
    let record = before.records[i as int];
    match position_of_key(existing, record_key(record)) {
        Some(k) => {
            let o = choose|o: OutcomeView| #[trigger]
                hit_outcome(validate, existing[k], record, o) && before.outcomes[i as int] == Some(
                    o,
                ) && !is_backed(before, i);
            assert(hit_outcome(validate, existing[k], record, o));
        },
        None => {
            let (row, o) = choose|row: RowView, o: OutcomeView| #[trigger]
                explains(validate, before, idxs, y, row, o);
            let z = choose|z: int| 0 <= z < idxs.len() && backs(before, #[trigger] idxs[z], row);
            if z >= x {
                let j = choose|j: int| #[trigger] backs_at(before, j, idxs[z], row);
                assert(holds_slot(before, j, idxs[z]));
                assert(is_backed(before, idxs[z]));
            }
            assert(idxs[z] != idx);
            lemma_composing_backs_one(
                validate,
                version_base,
                p,
                existing,
                before,
                idx,
                after,
                idxs[z],
            );
            assert(backs(after, idxs[z], row));
            assert(is_first(after, idxs, y) == is_first(before, idxs, y));
            assert(explains(validate, after, idxs, y, row, o));
        },
    }
}

/// What the record that was just composed has come to.
proof fn lemma_composed_now<V: Fn(Candidate) -> Result<(), String>>(
    validate: V,
    version_base: u64,
    p: usize,
    existing: Seq<RowView>,
    before: BatchView,
    idxs: Seq<usize>,
    x: int,
    after: BatchView,
)
    requires
        placed(before),
        p < before.partitions.len(),
        idxs == before.partitions[p as int].idxs,
        0 <= x < idxs.len(),
        composes(validate, version_base, p, existing, before, idxs[x], after),
        forall|y: int| 0 <= y < x ==> #[trigger] composed_at(validate, before, existing, idxs, y),
        !is_backed(before, idxs[x]),
        forall|j: int|
            0 <= j < before.rows.len() && (#[trigger] before.rows[j]).gts_id
                == before.partitions[p as int].gts_id ==> has_source(
                before,
                idxs,
                x,
                before.rows[j],
            ) && has_slot(before, j, idxs),
    ensures
        composed_at(validate, after, existing, idxs, x),
{
    let idx = idxs[x];
    let record = before.records[idx as int];
    let key = record_key(record);
    assert(idxs.contains(idxs[x]));
    lemma_in_range(before, p, idx);
    lemma_last_of_key(existing, key);
    lemma_last_of_key(before.rows, key);
    match position_of_key(existing, key) {
        Some(k) => {
            let o = choose|o: OutcomeView| #[trigger]
                hit_outcome(validate, existing[k], record, o) && after == with_hit(before, idx, o);
            assert(!is_backed(after, idx)) by {
                if is_backed(after, idx) {
                    let j = choose|j: int| #[trigger] holds_slot(after, j, idx);
                    assert(holds_slot(before, j, idx));
                }
            }
            assert(hit_outcome(validate, existing[k], record, o));
        },
        None => match position_of_key(before.rows, key) {
            Some(j) => {
                let row = before.rows[j];
                let o = choose|o: OutcomeView| #[trigger]
                    hit_outcome(validate, row, record, o) && after == with_joined(
                        before,
                        idx,
                        j,
                        o,
                    );
                assert(has_source(before, idxs, x, row));
                let z = choose|z: int|
                    0 <= z < x && stored_key(row) == record_key(
                        before.records[(#[trigger] idxs[z]) as int],
                    );
                assert(!is_first(after, idxs, x)) by {
                    assert(record_key(after.records[idxs[z] as int]) == record_key(
                        after.records[idxs[x] as int],
                    ));
                }
                if o is Ok {
                    let at = before.row_slots[j].len() as int;
                    assert(after.row_slots[j][at] == idx);
                    assert(holds_slot(after, j, idx));
                    assert(backs_at(after, j, idx, row));
                    assert(backs(after, idxs[x], row));
                    assert(is_backed(after, idx));
                    assert(rests_on(after, idxs, row));
                } else {
                    assert(after.row_slots == before.row_slots);
                    assert(!is_backed(after, idx)) by {
                        if is_backed(after, idx) {
                            let l = choose|l: int| #[trigger] holds_slot(after, l, idx);
                            assert(holds_slot(before, l, idx));
                        }
                    }
                    lemma_row_rests(before, idxs, j);
                    let u = choose|u: int|
                        0 <= u < idxs.len() && backs(before, #[trigger] idxs[u], row);
                    let c = choose|c: int| #[trigger] backs_at(before, c, idxs[u], row);
                    assert(holds_slot(after, c, idxs[u]));
                    assert(backs_at(after, c, idxs[u], row));
                    assert(backs(after, idxs[u], row));
                    assert(rests_on(after, idxs, row));
                }
                assert(explains(validate, after, idxs, x, row, o));
            },
            None => {
                let (row, o) = choose|row: RowView, o: OutcomeView|
                    is_row_of(
                        record,
                        saturating_sum(version_base as int, before.next_offset as int),
                        row,
                    ) && #[trigger] row_outcome(validate, row, o) && after == with_row(
                        before,
                        idx,
                        p,
                        row,
                        o,
                    );
                let j = before.rows.len() as int;
                assert(after.row_slots[j][0] == idx);
                assert(holds_slot(after, j, idx));
                assert(backs_at(after, j, idx, row));
                assert(backs(after, idxs[x], row));
                assert(rests_on(after, idxs, row));
                assert(is_backed(after, idx));
                assert(is_first(after, idxs, x)) by {
                    assert forall|z: int| 0 <= z < x implies record_key(
                        after.records[(#[trigger] idxs[z]) as int],
                    ) != record_key(after.records[idxs[x] as int]) by {
                        if record_key(before.records[idxs[z] as int]) == key {
                            assert(composed_at(validate, before, existing, idxs, z));
                            let (r0, o0) = choose|row: RowView, o: OutcomeView| #[trigger]
                                explains(validate, before, idxs, z, row, o);
                            let w = choose|w: int|
                                0 <= w < idxs.len() && backs(before, #[trigger] idxs[w], r0);
                            let b = choose|b: int| #[trigger] backs_at(before, b, idxs[w], r0);
                            assert(stored_key(before.rows[b]) == key);
                        }
                    }
                }
                assert(explains(validate, after, idxs, x, row, o));
            },
        },
    }
}

/// A row that some record of the partition holds is one that a record rests on.
proof fn lemma_row_rests(v: BatchView, idxs: Seq<usize>, j: int)
    requires
        has_slot(v, j, idxs),
    ensures
        rests_on(v, idxs, v.rows[j]),
{
    let u = choose|u: int| 0 <= u < idxs.len() && holds_slot(v, j, #[trigger] idxs[u]);
    assert(backs_at(v, j, idxs[u], v.rows[j]));
    assert(backs(v, idxs[u], v.rows[j]));
}

/// Some record of the partition holds the row.
spec fn has_slot(v: BatchView, j: int, idxs: Seq<usize>) -> bool {
    exists|u: int| 0 <= u < idxs.len() && holds_slot(v, j, #[trigger] idxs[u])
}

/// What composing has made of the first records of the partition, and what it has
/// left.
proof fn lemma_composed_so_far<V: Fn(Candidate) -> Result<(), String>>(
    validate: V,
    version_base: u64,
    p: usize,
    existing: Seq<RowView>,
    v0: BatchView,
    trace: Seq<BatchView>,
    v1: BatchView,
    x: int,
)
    requires
        placed(v0),
        p < v0.partitions.len(),
        is_fresh(v0, p),
        composes_all(validate, version_base, p, existing, v0, trace, v1),
        0 <= x <= v0.partitions[p as int].idxs.len(),
    ensures
        placed(trace[x]),
        trace[x].records == v0.records,
        trace[x].partitions == v0.partitions,
        forall|y: int|
            0 <= y < x ==> #[trigger] composed_at(
                validate,
                trace[x],
                existing,
                v0.partitions[p as int].idxs,
                y,
            ),
        forall|z: int|
            x <= z < v0.partitions[p as int].idxs.len() ==> !is_backed(
                trace[x],
                #[trigger] v0.partitions[p as int].idxs[z],
            ),
        forall|j: int|
            0 <= j < trace[x].rows.len() && (#[trigger] trace[x].rows[j]).gts_id
                == v0.partitions[p as int].gts_id ==> has_source(
                trace[x],
                v0.partitions[p as int].idxs,
                x,
                trace[x].rows[j],
            ) && has_slot(trace[x], j, v0.partitions[p as int].idxs),
    decreases x,
{
    let idxs = v0.partitions[p as int].idxs;
    if x == 0 {
        assert forall|z: int| 0 <= z < idxs.len() implies !is_backed(v0, #[trigger] idxs[z]) by {
            assert(idxs.contains(idxs[z]));
        }
    } else {
        lemma_composed_so_far(validate, version_base, p, existing, v0, trace, v1, x - 1);
        let before = trace[x - 1];
        let after = trace[x - 1 + 1];
        let idx = idxs[x - 1];
        assert(idxs.contains(idx));
        assert(composes(validate, version_base, p, existing, before, idx, after));
        lemma_composing_elsewhere(validate, version_base, p, existing, before, idx, after, p);
        lemma_composed_now(validate, version_base, p, existing, before, idxs, x - 1, after);
        assert(is_partition(record_types(v0.records), v0.partitions[p as int]));
        assert forall|y: int| 0 <= y < x implies #[trigger] composed_at(
            validate,
            after,
            existing,
            idxs,
            y,
        ) by {
            if y < x - 1 {
                lemma_composed_before_stays(
                    validate,
                    version_base,
                    p,
                    existing,
                    before,
                    idxs,
                    x - 1,
                    after,
                    y,
                );
            }
        }
        assert forall|z: int| x <= z < idxs.len() implies !is_backed(after, #[trigger] idxs[z]) by {
            assert(idxs[z] != idx);
            lemma_composing_backs_one(
                validate,
                version_base,
                p,
                existing,
                before,
                idx,
                after,
                idxs[z],
            );
        }
        lemma_last_of_key(before.rows, record_key(before.records[idx as int]));
        assert forall|j: int|
            0 <= j < after.rows.len() && (#[trigger] after.rows[j]).gts_id
                == v0.partitions[p as int].gts_id implies has_source(after, idxs, x, after.rows[j])
            && has_slot(after, j, idxs) by {
            if j < before.rows.len() {
                assert(after.rows[j] == before.rows[j]);
                assert(has_source(before, idxs, x - 1, before.rows[j]));
                let z = choose|z: int|
                    0 <= z < x - 1 && stored_key(before.rows[j]) == record_key(
                        before.records[(#[trigger] idxs[z]) as int],
                    );
                assert(stored_key(after.rows[j]) == record_key(after.records[idxs[z] as int]));
                let u = choose|u: int|
                    0 <= u < idxs.len() && holds_slot(before, j, #[trigger] idxs[u]);
                let a = choose|a: int|
                    0 <= a < before.row_slots[j].len() && before.row_slots[j][a] == idxs[u];
                assert(after.row_slots[j][a] == idxs[u]);
                assert(holds_slot(after, j, idxs[u]));
            } else {
                lemma_in_range(before, p, idx);
                assert(after.row_slots[j][0] == idx);
                assert(holds_slot(after, j, idxs[x - 1]));
                assert(stored_key(after.rows[j]) == record_key(
                    after.records[idxs[x - 1] as int],
                ));
            }
        }
    }
}

/// The record and the row have the same key: tenant, usage type, instant, to the
/// microsecond, and id.
pub open spec fn has_key_of(row: RowView, record: UsageRecordView) -> bool {
    &&& row.tenant_id == record.tenant_id
    &&& row.gts_id == record.gts_id
    &&& row.created_at == record.created_at / 1000
    &&& row.id == record.id
}

/// The row stores the record: each field of it, as an active row.
pub open spec fn stores(row: RowView, record: UsageRecordView) -> bool {
    &&& has_key_of(row, record)
    &&& row.value == record.value
    &&& row.resource_id == record.resource_ref.id
    &&& row.resource_type == record.resource_ref.kind
    &&& record.subject_ref is None ==> row.subject_id is None && row.subject_type is None
    &&& record.subject_ref matches Some(s) ==> row.subject_id == Some(s.id) && row.subject_type
        == s.kind
    &&& row.idempotency_key == record.idempotency_key
    &&& row.corrects_id == record.corrects_id
    &&& row.metadata == record.metadata
    &&& row.status == UsageRecordStatusCode::Active
}

/// Every record of the batch was created at an instant.
pub open spec fn at_instants(records: Seq<UsageRecordView>) -> bool {
    forall|i: int| 0 <= i < records.len() ==> in_instant_range((#[trigger] records[i]).created_at)
}

/// What composing made of a record of a partition that did not fail, and what the
/// write made of that.
proof fn lemma_answer<V: Fn(Candidate) -> Result<(), String>>(
    validate: V,
    version_base: u64,
    start: BatchView,
    r: RunResults,
    plans: Seq<BatchView>,
    end: BatchView,
    p: usize,
    y: int,
) -> (v1: BatchView)
    requires
        is_batch_run(validate, version_base, start, r, plans, end),
        p < start.partitions.len(),
        failure_of(start, r, p) is None,
        0 <= y < start.partitions[p as int].idxs.len(),
    ensures
        v1.records == start.records,
        v1.partitions == start.partitions,
        composed_at(validate, v1, stored_rows(start, r, p), start.partitions[p as int].idxs, y),
        answered(v1, end, p, r.write),
        lands(v1, rows_to_write(start, r, plans), p),
{
    lemma_verdict(validate, version_base, start, r, plans, end, p);
    let existing = stored_rows(start, r, p);
    let (v0, trace, v1) = choose|v0: BatchView, trace: Seq<BatchView>, v1: BatchView| #[trigger]
        is_composed(validate, version_base, p, existing, start, v0, trace, v1) && answered(
            v1,
            end,
            p,
            r.write,
        ) && lands(v1, rows_to_write(start, r, plans), p);
    let idxs = start.partitions[p as int].idxs;
    let n = idxs.len() as int;
    lemma_composed_so_far(validate, version_base, p, existing, v0, trace, v1, n);
    let v = trace[n];
    assert(composed_at(validate, v, existing, idxs, y));
    lemma_settled_alone(v, v1, p);
    let i = idxs[y];
    assert(v.partitions[p as int].idxs.contains(i));
    let record = v.records[i as int];
    match position_of_key(existing, record_key(record)) {
        Some(k) => {
            let o = choose|o: OutcomeView| #[trigger]
                hit_outcome(validate, existing[k], record, o) && v.outcomes[i as int] == Some(o)
                    && !is_backed(v, i);
            assert(hit_outcome(validate, existing[k], record, o));
        },
        None => {
            let (row, o) = choose|row: RowView, o: OutcomeView| #[trigger]
                explains(validate, v, idxs, y, row, o);
            let z = choose|z: int| 0 <= z < idxs.len() && backs(v, #[trigger] idxs[z], row);
            assert(v.partitions[p as int].idxs.contains(idxs[z]));
            assert(stays_backed(v, v1, idxs[z]));
            assert(backs(v1, idxs[z], row));
            assert(rests_on(v1, idxs, row));
            assert(is_first(v1, idxs, y) == is_first(v, idxs, y));
            assert(explains(validate, v1, idxs, y, row, o));
        },
    }
    v1
}

/// A record whose key is found stored is held against the last row that was read
/// under it, and whatever that comes to is its answer: no write changes it, and
/// none of the other records of the batch does.
pub proof fn law_stored_key_decides_in_a_batch<V: Fn(Candidate) -> Result<(), String>>(
    validate: V,
    version_base: u64,
    start: BatchView,
    r: RunResults,
    plans: Seq<BatchView>,
    end: BatchView,
    p: usize,
    i: usize,
    k: int,
)
    requires
        is_batch_run(validate, version_base, start, r, plans, end),
        at_instants(start.records),
        p < start.partitions.len(),
        failure_of(start, r, p) is None,
        start.partitions[p as int].idxs.contains(i),
        0 <= k < stored_rows(start, r, p).len(),
        has_key_of(stored_rows(start, r, p)[k], start.records[i as int]),
        forall|l: int|
            k < l < stored_rows(start, r, p).len() ==> !has_key_of(
                #[trigger] stored_rows(start, r, p)[l],
                start.records[i as int],
            ),
    ensures
        exists|o: OutcomeView| #[trigger]
            hit_outcome(validate, stored_rows(start, r, p)[k], start.records[i as int], o)
                && end.outcomes[i as int] == Some(o),
{
    let idxs = start.partitions[p as int].idxs;
    let y = choose|y: int| 0 <= y < idxs.len() && idxs[y] == i;
    lemma_in_range(start, p, i);
    let record = start.records[i as int];
    let existing = stored_rows(start, r, p);
    let v1 = lemma_answer(validate, version_base, start, r, plans, end, p, y);
    lemma_last_of_key(existing, record_key(record));
    assert(stored_key(existing[k]) == record_key(record));
    let at = position_of_key(existing, record_key(record))->0;
    if k < at {
        assert(has_key_of(existing[at], record));
    }
    assert(v1.partitions[p as int].idxs.contains(i));
    let o = choose|o: OutcomeView| #[trigger]
        hit_outcome(validate, existing[at], record, o) && v1.outcomes[i as int] == Some(o)
            && !is_backed(v1, i);
    assert(hit_outcome(validate, existing[k], record, o) && end.outcomes[i as int] == Some(o));
}

/// Some record before it in the batch has its key.
pub open spec fn is_repeated(records: Seq<UsageRecordView>, i: usize) -> bool {
    exists|h: int|
        0 <= h < i && {
            &&& (#[trigger] records[h]).tenant_id == records[i as int].tenant_id
            &&& records[h].gts_id == records[i as int].gts_id
            &&& records[h].created_at / 1000 == records[i as int].created_at / 1000
            &&& records[h].id == records[i as int].id
        }
}

proof fn lemma_first_of_key(v: BatchView, p: usize, y: int)
    requires
        is_partitioning(record_types(v.records), v.partitions),
        at_instants(v.records),
        v.records.len() <= usize::MAX,
        p < v.partitions.len(),
        0 <= y < v.partitions[p as int].idxs.len(),
    ensures
        is_first(v, v.partitions[p as int].idxs, y) == !is_repeated(
            v.records,
            v.partitions[p as int].idxs[y],
        ),
{
    let idxs = v.partitions[p as int].idxs;
    let types = record_types(v.records);
    let i = idxs[y];
    assert(is_partition(types, v.partitions[p as int]));
    assert(idxs.contains(i));
    lemma_in_range(v, p, i);
    if is_repeated(v.records, i) {
        let h = choose|h: int|
            0 <= h < i && {
                &&& (#[trigger] v.records[h]).tenant_id == v.records[i as int].tenant_id
                &&& v.records[h].gts_id == v.records[i as int].gts_id
                &&& v.records[h].created_at / 1000 == v.records[i as int].created_at / 1000
                &&& v.records[h].id == v.records[i as int].id
            };
        assert(types[h] == v.partitions[p as int].gts_id);
        assert(idxs.contains(h as usize));
        let z = choose|z: int| 0 <= z < idxs.len() && idxs[z] == h as usize;
        if z >= y {
            assert(idxs[y] <= idxs[z]);
        }
        assert(record_key(v.records[idxs[z] as int]) == record_key(v.records[idxs[y] as int]));
    }
    if !is_first(v, idxs, y) {
        let z = choose|z: int|
            0 <= z < y && record_key(v.records[(#[trigger] idxs[z]) as int]) == record_key(
                v.records[idxs[y] as int],
            );
        let h = idxs[z];
        assert(idxs.contains(h));
        lemma_in_range(v, p, h);
        assert(h < i);
        assert(in_instant_range(v.records[h as int].created_at));
        assert(in_instant_range(v.records[i as int].created_at));
        assert(v.records[h as int].created_at / 1000 == v.records[i as int].created_at / 1000);
    }
}

/// A row under the record's key is handed to the write, and the record is
/// answered by it.
pub open spec fn is_answered_by<V: Fn(Candidate) -> Result<(), String>>(
    validate: V,
    start: BatchView,
    r: RunResults,
    written: Seq<RowView>,
    end: BatchView,
    i: usize,
    row: RowView,
    o: OutcomeView,
) -> bool {
    let record = start.records[i as int];
    &&& written.contains(row)
    &&& has_key_of(row, record)
    &&& !is_repeated(start.records, i) ==> stores(row, record) && row_outcome(validate, row, o)
        && end.outcomes[i as int] == Some(
        match r.write {
            Ok(_) => o,
            Err(f) => Err(failure_error(f)),
        },
    )
    &&& is_repeated(start.records, i) ==> hit_outcome(validate, row, record, o)
        && end.outcomes[i as int] == Some(
        match r.write {
            Err(f) if o is Ok => Err(failure_error(f)),
            _ => o,
        },
    )
}

/// A record whose key is not found stored has a row under its key handed to the
/// write. The first with its key is stored whole and answered with what is stored;
/// a later one is held against that row. Neither succeeds where the write fails.
pub proof fn law_new_key_is_written<V: Fn(Candidate) -> Result<(), String>>(
    validate: V,
    version_base: u64,
    start: BatchView,
    r: RunResults,
    plans: Seq<BatchView>,
    end: BatchView,
    p: usize,
    i: usize,
)
    requires
        is_batch_run(validate, version_base, start, r, plans, end),
        at_instants(start.records),
        p < start.partitions.len(),
        failure_of(start, r, p) is None,
        start.partitions[p as int].idxs.contains(i),
        forall|l: int|
            0 <= l < stored_rows(start, r, p).len() ==> !has_key_of(
                #[trigger] stored_rows(start, r, p)[l],
                start.records[i as int],
            ),
    ensures
        exists|row: RowView, o: OutcomeView| #[trigger]
            is_answered_by(
                validate,
                start,
                r,
                rows_to_write(start, r, plans),
                end,
                i,
                row,
                o,
            ),
{
    let idxs = start.partitions[p as int].idxs;
    let y = choose|y: int| 0 <= y < idxs.len() && idxs[y] == i;
    lemma_in_range(start, p, i);
    let record = start.records[i as int];
    let existing = stored_rows(start, r, p);
    let written = rows_to_write(start, r, plans);
    let v1 = lemma_answer(validate, version_base, start, r, plans, end, p, y);
    lemma_last_of_key(existing, record_key(record));
    if let Some(at) = position_of_key(existing, record_key(record)) {
        assert(in_instant_range(record.created_at));
        assert(has_key_of(existing[at], record));
    }
    let (row, o) = choose|row: RowView, o: OutcomeView| #[trigger]
        explains(validate, v1, idxs, y, row, o);
    let z = choose|z: int| 0 <= z < idxs.len() && backs(v1, #[trigger] idxs[z], row);
    assert(v1.partitions[p as int].idxs.contains(idxs[z]));
    assert(written.contains(row));
    assert(v1.partitions[p as int].idxs.contains(i));
    lemma_first_of_key(v1, p, y);
    assert(in_instant_range(record.created_at));
    assert(has_key_of(row, record));
    assert(is_answered_by(validate, start, r, written, end, i, row, o));
}

// ---- where the rows that are written come from ----

/// The row stores a record of the partition.
spec fn is_stored_from(start: BatchView, row: RowView, q: usize, i: usize) -> bool {
    &&& start.partitions[q as int].idxs.contains(i)
    &&& is_row_of(start.records[i as int], row.version, row)
}

/// The row stores a record of the partition, which was locked and read, and no row
/// that was read has its key.
spec fn is_new_row(start: BatchView, r: RunResults, row: RowView, q: usize) -> bool {
    &&& q < start.partitions.len()
    &&& r.locks[q as int] is Ok
    &&& result_of(locked_of(start, r), r.reads, q) matches Some(Ok(_))
    &&& exists|i: usize| #[trigger] is_stored_from(start, row, q, i)
    &&& forall|l: int|
        0 <= l < stored_rows(start, r, q).len() ==> stored_key(
            #[trigger] stored_rows(start, r, q)[l],
        ) != stored_key(row)
}

/// The rows are new, no two of them have the same key, and their versions ascend.
spec fn rows_are_new(start: BatchView, r: RunResults, v: BatchView) -> bool {
    &&& v.row_partition.len() == v.rows.len()
    &&& forall|j: int|
        0 <= j < v.rows.len() ==> is_new_row(start, r, #[trigger] v.rows[j], v.row_partition[j])
    &&& forall|a: int, b: int|
        0 <= a < b < v.rows.len() ==> stored_key(#[trigger] v.rows[a]) != stored_key(
            #[trigger] v.rows[b],
        )
}

/// The rows are numbered from the base on.
spec fn rows_are_numbered(version_base: u64, v: BatchView) -> bool {
    &&& v.next_offset == v.rows.len()
    &&& forall|j: int|
        0 <= j < v.rows.len() ==> (#[trigger] v.rows[j]).version == saturating_sum(
            version_base as int,
            j,
        )
}

/// There are no more rows than records.
proof fn lemma_rows_are_few(start: BatchView, r: RunResults, v: BatchView)
    requires
        rows_are_new(start, r, v),
        is_partitioning(record_types(start.records), start.partitions),
        start.records.len() <= usize::MAX,
    ensures
        v.rows.len() <= start.records.len(),
{
    let sources = Seq::new(
        v.rows.len(),
        |j: int|
            (choose|i: usize| #[trigger]
                is_stored_from(start, v.rows[j], v.row_partition[j], i)) as int,
    );
    assert forall|j: int| 0 <= j < sources.len() implies is_stored_from(
        start,
        v.rows[j],
        v.row_partition[j],
        #[trigger] sources[j] as usize,
    ) && 0 <= sources[j] < start.records.len() by {
        assert(is_new_row(start, r, v.rows[j], v.row_partition[j]));
        let i = choose|i: usize| #[trigger]
            is_stored_from(start, v.rows[j], v.row_partition[j], i);
        assert(sources[j] == i as int);
        assert(sources[j] as usize == i);
        lemma_in_range(start, v.row_partition[j], i);
    }
    assert forall|a: int, b: int| 0 <= a < b < sources.len() implies sources[a] != sources[b] by {
        assert(is_stored_from(start, v.rows[a], v.row_partition[a], sources[a] as usize));
        assert(is_stored_from(start, v.rows[b], v.row_partition[b], sources[b] as usize));
        assert(stored_key(v.rows[a]) != stored_key(v.rows[b]));
    }
    assert(sources.no_duplicates());
    let all = vstd::set_lib::set_int_range(0, start.records.len() as int);
    vstd::set_lib::lemma_int_range(0, start.records.len() as int);
    assert(sources.to_set().subset_of(all)) by {
        assert forall|x: int| sources.to_set().contains(x) implies all.contains(x) by {
            let j = choose|j: int| 0 <= j < sources.len() && sources[j] == x;
            assert(0 <= sources[j] < start.records.len());
        }
    }
    sources.unique_seq_to_set();
    vstd::set_lib::lemma_len_subset(sources.to_set(), all);
}

/// Composing a record keeps the rows new and numbered.
proof fn lemma_composing_keeps_rows_new<V: Fn(Candidate) -> Result<(), String>>(
    validate: V,
    version_base: u64,
    start: BatchView,
    r: RunResults,
    q: usize,
    before: BatchView,
    idx: usize,
    after: BatchView,
)
    requires
        is_partitioning(record_types(start.records), start.partitions),
        start.records.len() <= usize::MAX,
        before.records == start.records,
        q < start.partitions.len(),
        r.locks[q as int] is Ok,
        result_of(locked_of(start, r), r.reads, q) matches Some(Ok(_)),
        start.partitions[q as int].idxs.contains(idx),
        rows_are_new(start, r, before),
        rows_are_numbered(version_base, before),
        composes(validate, version_base, q, stored_rows(start, r, q), before, idx, after),
    ensures
        rows_are_new(start, r, after),
        rows_are_numbered(version_base, after),
{
    let existing = stored_rows(start, r, q);
    let key = record_key(before.records[idx as int]);
    lemma_last_of_key(existing, key);
    lemma_last_of_key(before.rows, key);
    if position_of_key(existing, key) is None && position_of_key(before.rows, key) is None {
        let n = before.rows.len() as int;
        let row = after.rows[n];
        assert(is_stored_from(start, row, q, idx));
        assert(is_new_row(start, r, row, q));
        assert forall|j: int| 0 <= j < after.rows.len() implies is_new_row(
            start,
            r,
            #[trigger] after.rows[j],
            after.row_partition[j],
        ) by {
            if j < n {
                assert(is_new_row(start, r, before.rows[j], before.row_partition[j]));
            }
        }
        assert forall|a: int, b: int| 0 <= a < b < after.rows.len() implies stored_key(
            #[trigger] after.rows[a],
        ) != stored_key(#[trigger] after.rows[b]) by {
            assert(after.rows[a] == before.rows[a]);
            if b < n {
                assert(after.rows[b] == before.rows[b]);
            }
        }
        lemma_rows_are_few(start, r, after);
    } else {
        assert(after.rows == before.rows);
        assert(after.row_partition == before.row_partition);
    }
}

proof fn lemma_result_at<T>(ps: Seq<usize>, results: Seq<T>, bound: int, k: int)
    requires
        ascends(ps, bound),
        0 <= k < ps.len(),
    ensures
        result_of(ps, results, ps[k]) == Some(results[k]),
    decreases ps.len(),
{
    let last = ps.len() - 1;
    if k < last {
        let front = ps.drop_last();
        assert(ps[k] < ps[last]);
        assert(ascends(front, bound));
        lemma_result_at(front, results, bound, k);
    }
}

/// Composing the first records of a partition keeps the rows new and numbered.
proof fn lemma_composition_keeps_rows_new<V: Fn(Candidate) -> Result<(), String>>(
    validate: V,
    version_base: u64,
    start: BatchView,
    r: RunResults,
    q: usize,
    before: BatchView,
    trace: Seq<BatchView>,
    after: BatchView,
    x: int,
)
    requires
        is_partitioning(record_types(start.records), start.partitions),
        start.records.len() <= usize::MAX,
        before.records == start.records,
        before.partitions == start.partitions,
        q < start.partitions.len(),
        r.locks[q as int] is Ok,
        result_of(locked_of(start, r), r.reads, q) matches Some(Ok(_)),
        rows_are_new(start, r, before),
        rows_are_numbered(version_base, before),
        composes_all(validate, version_base, q, stored_rows(start, r, q), before, trace, after),
        0 <= x <= start.partitions[q as int].idxs.len(),
    ensures
        trace[x].records == start.records,
        rows_are_new(start, r, trace[x]),
        rows_are_numbered(version_base, trace[x]),
    decreases x,
{
    if x > 0 {
        lemma_composition_keeps_rows_new(
            validate,
            version_base,
            start,
            r,
            q,
            before,
            trace,
            after,
            x - 1,
        );
        let idxs = start.partitions[q as int].idxs;
        let now = trace[x - 1];
        let next = trace[x - 1 + 1];
        assert(idxs.contains(idxs[x - 1]));
        assert(composes(
            validate,
            version_base,
            q,
            stored_rows(start, r, q),
            now,
            idxs[x - 1],
            next,
        ));
        lemma_composing_keeps_rows_new(
            validate,
            version_base,
            start,
            r,
            q,
            now,
            idxs[x - 1],
            next,
        );
    }
}

/// The reads, up to one, leave new and numbered rows.
proof fn lemma_reads_keep_rows_new<V: Fn(Candidate) -> Result<(), String>>(
    validate: V,
    version_base: u64,
    start: BatchView,
    r: RunResults,
    plans: Seq<BatchView>,
    k: int,
)
    requires
        is_partitioning(record_types(start.records), start.partitions),
        start.records.len() <= usize::MAX,
        plans[0].records == start.records,
        plans[0].partitions == start.partitions,
        plans[0].rows.len() == 0,
        plans[0].row_partition.len() == 0,
        plans[0].next_offset == 0,
        ascends(locked_of(start, r), start.partitions.len() as int),
        forall|a: int|
            0 <= a < locked_of(start, r).len() ==> r.locks[(#[trigger] locked_of(
                start,
                r,
            )[a]) as int] is Ok,
        reads_all(validate, version_base, locked_of(start, r), r.reads, plans),
        0 <= k <= locked_of(start, r).len(),
    ensures
        plans[k].records == start.records,
        plans[k].partitions == start.partitions,
        rows_are_new(start, r, plans[k]),
        rows_are_numbered(version_base, plans[k]),
    decreases k,
{
    if k > 0 {
        lemma_reads_keep_rows_new(validate, version_base, start, r, plans, k - 1);
        let ps = locked_of(start, r);
        let before = plans[k - 1];
        let after = plans[k - 1 + 1];
        let q = ps[k - 1];
        assert(reads(validate, version_base, q, r.reads[k - 1], before, after));
        lemma_result_at(ps, r.reads, start.partitions.len() as int, k - 1);
        match r.reads[k - 1] {
            Ok(rows) => {
                let trace = choose|trace: Seq<BatchView>| #[trigger]
                    composes_all(
                        validate,
                        version_base,
                        q,
                        row_views(rows@),
                        before,
                        trace,
                        after,
                    );
                let n = start.partitions[q as int].idxs.len() as int;
                lemma_composition_keeps_rows_new(
                    validate,
                    version_base,
                    start,
                    r,
                    q,
                    before,
                    trace,
                    after,
                    n,
                );
                lemma_trace_keeps_partitions(
                    validate,
                    version_base,
                    q,
                    row_views(rows@),
                    before,
                    trace,
                    after,
                    n,
                );
                assert(after.rows == trace[n].rows);
                assert(after.row_partition == trace[n].row_partition);
            },
            Err(_) => {
                assert(after.rows == before.rows);
                assert(after.row_partition == before.row_partition);
            },
        }
    }
}

proof fn lemma_trace_keeps_partitions<V: Fn(Candidate) -> Result<(), String>>(
    validate: V,
    version_base: u64,
    q: usize,
    existing: Seq<RowView>,
    before: BatchView,
    trace: Seq<BatchView>,
    after: BatchView,
    x: int,
)
    requires
        composes_all(validate, version_base, q, existing, before, trace, after),
        0 <= x <= before.partitions[q as int].idxs.len(),
    ensures
        trace[x].partitions == before.partitions,
    decreases x,
{
    if x > 0 {
        lemma_trace_keeps_partitions(
            validate,
            version_base,
            q,
            existing,
            before,
            trace,
            after,
            x - 1,
        );
        assert(composes(
            validate,
            version_base,
            q,
            existing,
            trace[x - 1],
            before.partitions[q as int].idxs[x - 1],
            trace[x - 1 + 1],
        ));
    }
}

/// The versions ascend, short of the largest number, and none is below the base.
spec fn versions_ascend(version_base: u64, v: BatchView) -> bool {
    &&& forall|j: int| 0 <= j < v.rows.len() ==> (#[trigger] v.rows[j]).version >= version_base
    &&& forall|a: int, b: int|
        0 <= a < b < v.rows.len() ==> (#[trigger] v.rows[a]).version < (
        #[trigger] v.rows[b]).version || v.rows[b].version == u64::MAX
}

/// The renewals leave some of the rows, in order, and none of a partition whose
/// lock was lost.
proof fn lemma_renewals_keep_rows_new(
    version_base: u64,
    start: BatchView,
    r: RunResults,
    v: BatchView,
    ps: Seq<usize>,
    results: Seq<Result<(), Failure>>,
)
    requires
        rows_are_new(start, r, v),
        versions_ascend(version_base, v),
    ensures
        rows_are_new(start, r, renewed_plan(v, ps, results)),
        versions_ascend(version_base, renewed_plan(v, ps, results)),
        forall|j: int|
            0 <= j < renewed_plan(v, ps, results).rows.len() ==> !(result_of(
                ps,
                results,
                #[trigger] renewed_plan(v, ps, results).row_partition[j],
            ) matches Some(Err(_))),
    decreases ps.len(),
{
    if ps.len() > 0 {
        let front = ps.drop_last();
        lemma_renewals_keep_rows_new(version_base, start, r, v, front, results);
        let u = renewed_plan(v, front, results);
        let w = renewed_plan(v, ps, results);
        if results[ps.len() - 1] is Err {
            let kept = kept_positions(u.row_partition, ps.last());
            lemma_kept_positions(u.row_partition, ps.last());
            assert forall|x: int| 0 <= x < w.rows.len() implies 0 <= kept[x] < u.rows.len()
                && #[trigger] w.rows[x] == u.rows[kept[x]] && w.row_partition[x]
                == u.row_partition[kept[x]] && w.row_partition[x] != ps.last() by {
                assert(0 <= kept[x] < u.row_partition.len());
            }
            assert forall|j: int| 0 <= j < w.rows.len() implies is_new_row(
                start,
                r,
                #[trigger] w.rows[j],
                w.row_partition[j],
            ) by {
                assert(is_new_row(start, r, u.rows[kept[j]], u.row_partition[kept[j]]));
            }
            assert forall|a: int, b: int| 0 <= a < b < w.rows.len() implies stored_key(
                #[trigger] w.rows[a],
            ) != stored_key(#[trigger] w.rows[b]) && (w.rows[a].version < w.rows[b].version
                || w.rows[b].version == u64::MAX) by {
                assert(kept[a] < kept[b]);
                assert(w.rows[a] == u.rows[kept[a]] && w.rows[b] == u.rows[kept[b]]);
            }
            assert forall|j: int| 0 <= j < w.rows.len() implies !(result_of(
                ps,
                results,
                #[trigger] w.row_partition[j],
            ) matches Some(Err(_))) by {
                assert(w.rows[j] == u.rows[kept[j]]);
                assert(w.row_partition[j] == u.row_partition[kept[j]]);
            }
        }
    }
}

/// A row that is handed to the write stores the record of the batch, in a
/// partition that did not fail, and none of the rows that were read there has its
/// key.
pub open spec fn is_written_for(
    start: BatchView,
    r: RunResults,
    row: RowView,
    p: usize,
    i: usize,
) -> bool {
    &&& p < start.partitions.len()
    &&& failure_of(start, r, p) is None
    &&& start.partitions[p as int].idxs.contains(i)
    &&& stores(row, start.records[i as int])
    &&& forall|l: int|
        0 <= l < stored_rows(start, r, p).len() ==> !has_key_of(
            #[trigger] stored_rows(start, r, p)[l],
            start.records[i as int],
        )
}

/// What a batch writes: rows that store its records, of partitions that did not
/// fail, under keys that were not found stored, each key once; with versions that
/// start at the base and ascend, short of the largest number.
pub proof fn law_batch_writes_new_records_alone<V: Fn(Candidate) -> Result<(), String>>(
    validate: V,
    version_base: u64,
    start: BatchView,
    r: RunResults,
    plans: Seq<BatchView>,
    end: BatchView,
    a: int,
    b: int,
)
    requires
        is_batch_run(validate, version_base, start, r, plans, end),
        at_instants(start.records),
        0 <= a < rows_to_write(start, r, plans).len(),
        0 <= b < rows_to_write(start, r, plans).len(),
    ensures
        exists|p: usize, i: usize| #[trigger]
            is_written_for(start, r, rows_to_write(start, r, plans)[a], p, i),
        rows_to_write(start, r, plans)[a].version >= version_base,
        a < b ==> {
            let x = rows_to_write(start, r, plans)[a];
            let y = rows_to_write(start, r, plans)[b];
            &&& x.tenant_id != y.tenant_id || x.gts_id != y.gts_id || x.created_at != y.created_at
                || x.id != y.id
            &&& x.version < y.version || y.version == u64::MAX
        },
{
    let n = start.partitions.len();
    lemma_partitions_are_few(start);
    lemma_tried_locks(r.locks, n);
    lemma_tried_plan_rows(start, r.locks, n);
    let locked = locked_of(start, r);
    let last = locked.len() as int;
    lemma_reads_keep_rows_new(validate, version_base, start, r, plans, last);
    let v = plans[last];
    let held = held_of(start, r);
    lemma_renewals_keep_rows_new(version_base, start, r, v, held, r.renewals);
    let w = renewed_plan(v, held, r.renewals);
    assert(plans.last() == v);
    let p = w.row_partition[a];
    let row = w.rows[a];
    assert(is_new_row(start, r, row, p));
    let i = choose|i: usize| #[trigger] is_stored_from(start, row, p, i);
    lemma_in_range(start, p, i);
    let record = start.records[i as int];
    assert(in_instant_range(record.created_at));
    assert(stores(row, record));
    assert forall|l: int| 0 <= l < stored_rows(start, r, p).len() implies !has_key_of(
        #[trigger] stored_rows(start, r, p)[l],
        record,
    ) by {
        assert(stored_key(stored_rows(start, r, p)[l]) != stored_key(row));
    }
    assert(is_written_for(start, r, row, p, i));
}

proof fn lemma_tried_plan_rows(start: BatchView, locks: Seq<Result<(), Failure>>, n: nat)
    ensures
        tried_plan(start, locks, n).rows == start.rows,
        tried_plan(start, locks, n).row_partition == start.row_partition,
        tried_plan(start, locks, n).next_offset == start.next_offset,
        tried_plan(start, locks, n).records == start.records,
        tried_plan(start, locks, n).partitions == start.partitions,
    decreases n,
{
    if n > 0 {
        lemma_tried_plan_rows(start, locks, (n - 1) as nat);
    }
}

/// A record that is stored is absorbed when a batch brings it again: it is answered
/// with what is stored, whatever the write comes to, and its key is not written a
/// second time.
pub proof fn law_stored_record_is_absorbed_in_a_batch<V: Fn(Candidate) -> Result<(), String>>(
    validate: V,
    version_base: u64,
    start: BatchView,
    r: RunResults,
    plans: Seq<BatchView>,
    end: BatchView,
    p: usize,
    i: usize,
    k: int,
    j: int,
)
    requires
        is_batch_run(validate, version_base, start, r, plans, end),
        at_instants(start.records),
        p < start.partitions.len(),
        failure_of(start, r, p) is None,
        start.partitions[p as int].idxs.contains(i),
        0 <= k < stored_rows(start, r, p).len(),
        stores(stored_rows(start, r, p)[k], start.records[i as int]),
        forall|l: int|
            k < l < stored_rows(start, r, p).len() ==> !has_key_of(
                #[trigger] stored_rows(start, r, p)[l],
                start.records[i as int],
            ),
        forall|c: CandidateView, why: Seq<char>| !#[trigger] rejects(validate, c, why),
        in_instant_range(stored_rows(start, r, p)[k].created_at * 1000),
    ensures
        end.outcomes[i as int] matches Some(Ok(m)) && {
            let record = start.records[i as int];
            &&& m.id == record.id
            &&& m.tenant_id == record.tenant_id
            &&& m.gts_id == record.gts_id
            &&& m.value == record.value
            &&& m.resource_ref.id == record.resource_ref.id
            &&& m.resource_ref.kind == record.resource_ref.kind
            &&& m.subject_ref == record.subject_ref
            &&& m.idempotency_key == record.idempotency_key
            &&& m.corrects_id == record.corrects_id
            &&& m.metadata == record.metadata
            &&& m.created_at == record.created_at / 1000 * 1000
            &&& m.status == UsageRecordStatus::Active
        },
        0 <= j < rows_to_write(start, r, plans).len() ==> !has_key_of(
            rows_to_write(start, r, plans)[j],
            start.records[i as int],
        ),
{
    let record = start.records[i as int];
    let row = stored_rows(start, r, p)[k];
    law_stored_key_decides_in_a_batch(
        validate,
        version_base,
        start,
        r,
        plans,
        end,
        p,
        i,
        k,
    );
    let o = choose|o: OutcomeView| #[trigger]
        hit_outcome(validate, row, record, o) && end.outcomes[i as int] == Some(o);
    law_record_sent_again_is_absorbed(validate, row, record, o);
    let m = o->Ok_0;
    law_absorbed_record_is_what_was_sent(validate, row, record, m);
    law_record_is_what_its_row_holds(validate, row, m);
    let written = rows_to_write(start, r, plans);
    if 0 <= j < written.len() && has_key_of(written[j], record) {
        law_batch_writes_new_records_alone(
            validate,
            version_base,
            start,
            r,
            plans,
            end,
            j,
            j,
        );
        let (q, h) = choose|q: usize, h: usize| #[trigger]
            is_written_for(start, r, written[j], q, h);
        lemma_in_range(start, p, i);
        lemma_in_range(start, q, h);
        lemma_same_type_same_partition(start, p, q);
        assert(has_key_of(row, start.records[h as int]));
    }
}

/// A record whose key is stored under a row that was deactivated is refused, and
/// the row is named; it is not brought back to life by a batch.
pub proof fn law_deactivated_record_is_refused_in_a_batch<V: Fn(Candidate) -> Result<(), String>>(
    validate: V,
    version_base: u64,
    start: BatchView,
    r: RunResults,
    plans: Seq<BatchView>,
    end: BatchView,
    p: usize,
    i: usize,
    k: int,
)
    requires
        is_batch_run(validate, version_base, start, r, plans, end),
        at_instants(start.records),
        p < start.partitions.len(),
        failure_of(start, r, p) is None,
        start.partitions[p as int].idxs.contains(i),
        0 <= k < stored_rows(start, r, p).len(),
        has_key_of(stored_rows(start, r, p)[k], start.records[i as int]),
        stored_rows(start, r, p)[k].status == UsageRecordStatusCode::Inactive,
        forall|l: int|
            k < l < stored_rows(start, r, p).len() ==> !has_key_of(
                #[trigger] stored_rows(start, r, p)[l],
                start.records[i as int],
            ),
    ensures
        end.outcomes[i as int] == Some(
            Err::<UsageRecordView, ErrorView>(
                ErrorView::IdempotencyConflict {
                    idempotency_key: start.records[i as int].idempotency_key,
                    existing_id: start.records[i as int].id,
                },
            ),
        ),
{
    let record = start.records[i as int];
    let row = stored_rows(start, r, p)[k];
    law_stored_key_decides_in_a_batch(
        validate,
        version_base,
        start,
        r,
        plans,
        end,
        p,
        i,
        k,
    );
    let o = choose|o: OutcomeView| #[trigger]
        hit_outcome(validate, row, record, o) && end.outcomes[i as int] == Some(o);
    law_conflicting_record_is_refused(validate, row, record, o);
}

/// A record that is new to the store and the first with its key in the batch is
/// answered with itself, to the microsecond, once the write has succeeded and
/// validation rejects nothing; where the write fails, it is answered with the
/// failure.
pub proof fn law_new_record_is_answered_with_itself<V: Fn(Candidate) -> Result<(), String>>(
    validate: V,
    version_base: u64,
    start: BatchView,
    r: RunResults,
    plans: Seq<BatchView>,
    end: BatchView,
    p: usize,
    i: usize,
)
    requires
        is_batch_run(validate, version_base, start, r, plans, end),
        at_instants(start.records),
        p < start.partitions.len(),
        failure_of(start, r, p) is None,
        start.partitions[p as int].idxs.contains(i),
        forall|l: int|
            0 <= l < stored_rows(start, r, p).len() ==> !has_key_of(
                #[trigger] stored_rows(start, r, p)[l],
                start.records[i as int],
            ),
        !is_repeated(start.records, i),
        forall|c: CandidateView, why: Seq<char>| !#[trigger] rejects(validate, c, why),
        in_instant_range(start.records[i as int].created_at / 1000 * 1000),
    ensures
        r.write is Ok ==> (end.outcomes[i as int] matches Some(Ok(m)) && {
            let record = start.records[i as int];
            &&& m.id == record.id
            &&& m.tenant_id == record.tenant_id
            &&& m.gts_id == record.gts_id
            &&& m.value == record.value
            &&& m.resource_ref.id == record.resource_ref.id
            &&& m.resource_ref.kind == record.resource_ref.kind
            &&& m.idempotency_key == record.idempotency_key
            &&& m.corrects_id == record.corrects_id
            &&& m.metadata == record.metadata
            &&& m.created_at == record.created_at / 1000 * 1000
            &&& m.status == UsageRecordStatus::Active
        }),
        r.write matches Err(f) ==> end.outcomes[i as int] == Some(
            Err::<UsageRecordView, ErrorView>(failure_error(f)),
        ),
{
    law_new_key_is_written(validate, version_base, start, r, plans, end, p, i);
    let (row, o) = choose|row: RowView, o: OutcomeView| #[trigger]
        is_answered_by(validate, start, r, rows_to_write(start, r, plans), end, i, row, o);
    law_valid_row_is_read(validate, row, o);
    law_record_is_what_its_row_holds(validate, row, o->Ok_0);
}

} // verus!
