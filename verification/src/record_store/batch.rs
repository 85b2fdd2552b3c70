//! Creating a batch of records.
//!
//! A [`BatchPlan`] collects what each partition came to, composes the rows that
//! are written together, and holds an outcome for every record.
use crate::entity::{row_views, RowView, UsageRecordRow};
use crate::mapper::{
    is_micros_of_an_instant, model_of_row, record_row_to_model, record_to_row, row_of_record,
    row_outcome, saturating_sum,
};
use crate::model::{
    answers_all, outcome_view, Candidate, ErrorView, UsageCollectorPluginError, UsageRecord,
    UsageRecordView,
};
use crate::record_store::dedup::{
    err_for_partition, hit_outcome, key_view, partition_error, record_dedup_key, record_key,
    resolve_dedup_hit, row_dedup_key, same_key, stored_key, DedupKey, DedupKeyView,
};
use crate::record_store::partition::{
    gts_ids, is_partition, is_partitioning, lemma_every_record_has_a_partition,
    lemma_partitions_are_disjoint, partition_batch, partition_views, total, Partition,
    PartitionView,
};
use vstd::prelude::*;
use vstd::string::*;

verus! {

/// The outcome of one record.
pub type OutcomeView = Result<UsageRecordView, ErrorView>;

/// What a [`BatchPlan`] holds.
#[verifier::ext_equal]
pub struct BatchView {
    /// The records, as they came.
    pub records: Seq<UsageRecordView>,
    /// The partitions, in lock order.
    pub partitions: Seq<PartitionView>,
    /// Whether the partition has failed or been composed.
    pub settled: Seq<bool>,
    /// The outcome of each record, as far as it is known.
    pub outcomes: Seq<Option<OutcomeView>>,
    /// The rows to write.
    pub rows: Seq<RowView>,
    /// The partition of each row.
    pub row_partition: Seq<usize>,
    /// The records whose success depends on each row.
    pub row_slots: Seq<Seq<usize>>,
    /// How many rows were composed.
    pub next_offset: u64,
    /// The records that were found stored.
    pub absorbed: Set<usize>,
}

/// The view of an outcome slot.
pub open spec fn slot_view(
    o: Option<Result<UsageRecord, UsageCollectorPluginError>>,
) -> Option<OutcomeView> {
    match o {
        Some(r) => Some(outcome_view(r)),
        None => None,
    }
}

/// The views of outcome slots.
pub open spec fn slot_views(
    outcomes: Seq<Option<Result<UsageRecord, UsageCollectorPluginError>>>,
) -> Seq<Option<OutcomeView>> {
    outcomes.map_values(
        |o: Option<Result<UsageRecord, UsageCollectorPluginError>>| slot_view(o),
    )
}

/// The outcome is a success.
pub open spec fn succeeded(o: Option<OutcomeView>) -> bool {
    o matches Some(Ok(_))
}

/// The views of lists of positions.
pub open spec fn position_views(slots: Seq<Vec<usize>>) -> Seq<Seq<usize>> {
    slots.map_values(|s: Vec<usize>| s@)
}

/// The usage types of the records.
pub open spec fn record_types(records: Seq<UsageRecordView>) -> Seq<Seq<char>> {
    records.map_values(|r: UsageRecordView| r.gts_id)
}

/// The success of the record depends on the row.
pub open spec fn holds_slot(v: BatchView, j: int, i: usize) -> bool {
    0 <= j < v.row_slots.len() && v.row_slots[j].contains(i)
}

/// The success of the record depends on some row.
pub open spec fn is_backed(v: BatchView, i: usize) -> bool {
    exists|j: int| #[trigger] holds_slot(v, j, i)
}

/// What holds of rows and outcomes at any time:
/// - the records that depend on a row have its key, and where one has succeeded
///   its outcome is that row;
/// - no two rows have the same key;
/// - a success was found stored or depends on a row, never both.
pub open spec fn rows_are_sound(v: BatchView) -> bool {
    &&& is_partitioning(record_types(v.records), v.partitions)
    &&& v.settled.len() == v.partitions.len()
    &&& v.outcomes.len() == v.records.len()
    &&& v.records.len() <= usize::MAX
    &&& v.row_partition.len() == v.rows.len()
    &&& v.row_slots.len() == v.rows.len()
    &&& forall|j: int|
        0 <= j < v.rows.len() ==> (#[trigger] v.row_partition[j]) < v.partitions.len()
    &&& forall|j: int| 0 <= j < v.rows.len() ==> (#[trigger] v.row_slots[j]).len() > 0
    &&& forall|j: int, i: usize| #[trigger]
        holds_slot(v, j, i) ==> {
            &&& i < v.records.len()
            &&& v.outcomes[i as int] is Some
            &&& record_key(v.records[i as int]) == stored_key(v.rows[j])
            &&& v.partitions[v.row_partition[j] as int].idxs.contains(i)
            &&& v.outcomes[i as int] matches Some(Ok(m)) ==> m == model_of_row(v.rows[j])
            &&& !v.absorbed.contains(i)
        }
    &&& forall|a: int, b: int|
        0 <= a < b < v.rows.len() ==> stored_key(#[trigger] v.rows[a]) != stored_key(
            #[trigger] v.rows[b],
        )
    &&& forall|i: usize| #[trigger]
        v.absorbed.contains(i) ==> i < v.records.len() && v.outcomes[i as int] is Some
    &&& forall|i: usize|
        i < v.records.len() && succeeded(#[trigger] v.outcomes[i as int]) ==> v.absorbed.contains(
            i,
        ) || is_backed(v, i)
}

/// The outcomes of the partition's records are known if and only if it is
/// settled.
pub open spec fn partition_is_settled(v: BatchView, p: int) -> bool {
    forall|a: int|
        0 <= a < v.partitions[p].idxs.len() ==> ((
        v.outcomes[(#[trigger] v.partitions[p].idxs[a]) as int] is Some) <==> v.settled[p])
}

/// How many records are in partitions that are not settled.
pub open spec fn pending(parts: Seq<PartitionView>, settled: Seq<bool>) -> nat
    decreases parts.len(),
{
    if parts.len() == 0 {
        0
    } else {
        pending(parts.drop_last(), settled) + (if settled[parts.len() - 1] {
            0nat
        } else {
            parts.last().idxs.len()
        })
    }
}

/// What holds of a plan between its operations.
pub open spec fn plan_is_sound(v: BatchView) -> bool {
    &&& rows_are_sound(v)
    &&& forall|p: int| 0 <= p < v.partitions.len() ==> #[trigger] partition_is_settled(v, p)
    &&& forall|j: int|
        0 <= j < v.rows.len() ==> v.settled[(#[trigger] v.row_partition[j]) as int]
    &&& v.next_offset + pending(v.partitions, v.settled) <= v.records.len()
}

proof fn lemma_pending_of_settled(parts: Seq<PartitionView>, settled: Seq<bool>, p: int)
    requires
        0 <= p < parts.len(),
        parts.len() <= settled.len(),
        !settled[p],
    ensures
        pending(parts, settled.update(p, true)) + parts[p].idxs.len() == pending(parts, settled),
    decreases parts.len(),
{
    let after = settled.update(p, true);
    if p == parts.len() - 1 {
        lemma_pending_ignores(parts.drop_last(), settled, after);
    } else {
        lemma_pending_of_settled(parts.drop_last(), settled, p);
        assert(after[parts.len() - 1] == settled[parts.len() - 1]);
    }
}

proof fn lemma_pending_ignores(parts: Seq<PartitionView>, a: Seq<bool>, b: Seq<bool>)
    requires
        forall|p: int| 0 <= p < parts.len() ==> a[p] == b[p],
    ensures
        pending(parts, a) == pending(parts, b),
    decreases parts.len(),
{
    if parts.len() > 0 {
        lemma_pending_ignores(parts.drop_last(), a, b);
        assert(a[parts.len() - 1] == b[parts.len() - 1]);
    }
}

proof fn lemma_pending_at_start(parts: Seq<PartitionView>, settled: Seq<bool>)
    requires
        forall|p: int| 0 <= p < parts.len() ==> !settled[p],
    ensures
        pending(parts, settled) == total(parts),
    decreases parts.len(),
{
    if parts.len() > 0 {
        lemma_pending_at_start(parts.drop_last(), settled);
        assert(!settled[parts.len() - 1]);
    }
}

/// The last row with the key.
pub open spec fn position_of_key(rows: Seq<RowView>, key: DedupKeyView) -> Option<int>
    decreases rows.len(),
{
    if rows.len() == 0 {
        None
    } else if stored_key(rows.last()) == key {
        Some(rows.len() - 1)
    } else {
        position_of_key(rows.drop_last(), key)
    }
}

proof fn lemma_position_of_key(rows: Seq<RowView>, key: DedupKeyView)
    ensures
        position_of_key(rows, key) matches Some(j) ==> 0 <= j < rows.len() && stored_key(rows[j])
            == key,
        position_of_key(rows, key) is None ==> forall|j: int|
            0 <= j < rows.len() ==> stored_key(#[trigger] rows[j]) != key,
    decreases rows.len(),
{
    if rows.len() > 0 && stored_key(rows.last()) != key {
        let front = rows.drop_last();
        lemma_position_of_key(front, key);
        if position_of_key(rows, key) is None {
            assert forall|j: int| 0 <= j < rows.len() implies stored_key(#[trigger] rows[j])
                != key by {
                if j < front.len() {
                    assert(front[j] == rows[j]);
                }
            }
        }
    }
}

/// Finds the last row with the key.
fn find_key(rows: &Vec<UsageRecordRow>, key: &DedupKey) -> (r: Option<usize>)
    ensures
        match position_of_key(row_views(rows@), key_view(*key)) {
            Some(j) => r matches Some(k) && k == j,
            None => r is None,
        },
        r matches Some(k) ==> k < rows@.len(),
{
    let ghost views = row_views(rows@);
    let mut i: usize = rows.len();
    assert(views.take(i as int) =~= views);
    while i > 0
        invariant
            i <= rows@.len(),
            views == row_views(rows@),
            position_of_key(views, key_view(*key)) == position_of_key(
                views.take(i as int),
                key_view(*key),
            ),
        decreases i,
    {
        let last = i - 1;
        proof {
            let head = views.take(i as int);
            assert(head.last() == rows@[last as int]@);
            assert(head.drop_last() =~= views.take(last as int));
        }
        if same_key(&row_dedup_key(&rows[last]), key) {
            return Some(last);
        }
        i = last;
    }
    None
}

/// The record was found stored; its outcome is that of the hit.
pub open spec fn with_hit(v: BatchView, idx: usize, o: OutcomeView) -> BatchView {
    BatchView {
        outcomes: v.outcomes.update(idx as int, Some(o)),
        absorbed: if o is Ok {
            v.absorbed.insert(idx)
        } else {
            v.absorbed
        },
        ..v
    }
}

/// The record has the key of a row composed before; where it agrees with the row
/// its success depends on it too.
pub open spec fn with_joined(v: BatchView, idx: usize, j: int, o: OutcomeView) -> BatchView {
    BatchView {
        outcomes: v.outcomes.update(idx as int, Some(o)),
        row_slots: if o is Ok {
            v.row_slots.update(j, v.row_slots[j].push(idx))
        } else {
            v.row_slots
        },
        ..v
    }
}

/// A row was composed for the record.
pub open spec fn with_row(
    v: BatchView,
    idx: usize,
    p: usize,
    row: RowView,
    o: OutcomeView,
) -> BatchView {
    BatchView {
        outcomes: v.outcomes.update(idx as int, Some(o)),
        rows: v.rows.push(row),
        row_partition: v.row_partition.push(p),
        row_slots: v.row_slots.push(seq![idx]),
        next_offset: (v.next_offset + 1) as u64,
        ..v
    }
}

/// The row stores the record with the version, written at some instant.
pub open spec fn is_row_of(record: UsageRecordView, version: u64, row: RowView) -> bool {
    &&& row == row_of_record(record, version, row.ingested_at)
    &&& is_micros_of_an_instant(row.ingested_at)
}

/// What composing one record makes of a plan: the record is held against the row
/// stored under its key, else against the row composed under its key, else a row
/// is composed for it.
pub open spec fn composes<V: Fn(Candidate) -> Result<(), String>>(
    validate: V,
    version_base: u64,
    p: usize,
    existing: Seq<RowView>,
    before: BatchView,
    idx: usize,
    after: BatchView,
) -> bool {
    let record = before.records[idx as int];
    let key = record_key(record);
    match position_of_key(existing, key) {
        Some(k) => exists|o: OutcomeView| #[trigger]
            hit_outcome(validate, existing[k], record, o) && after == with_hit(before, idx, o),
        None => match position_of_key(before.rows, key) {
            Some(j) => exists|o: OutcomeView| #[trigger]
                hit_outcome(validate, before.rows[j], record, o) && after == with_joined(
                    before,
                    idx,
                    j,
                    o,
                ),
            None => exists|row: RowView, o: OutcomeView|
                is_row_of(
                    record,
                    saturating_sum(version_base as int, before.next_offset as int),
                    row,
                ) && #[trigger] row_outcome(validate, row, o) && after == with_row(
                    before,
                    idx,
                    p,
                    row,
                    o,
                ),
        },
    }
}

/// A record with the key of a row is in the row's partition.
proof fn lemma_same_key_same_partition(v: BatchView, j: int, idx: usize)
    requires
        rows_are_sound(v),
        0 <= j < v.rows.len(),
        idx < v.records.len(),
        record_key(v.records[idx as int]) == stored_key(v.rows[j]),
    ensures
        v.partitions[v.row_partition[j] as int].idxs.contains(idx),
{
    let types = record_types(v.records);
    let first = v.row_slots[j][0];
    assert(v.row_slots[j].contains(first));
    assert(holds_slot(v, j, first));
    let part = v.partitions[v.row_partition[j] as int];
    assert(is_partition(types, part));
    let x = choose|x: int| 0 <= x < part.idxs.len() && part.idxs[x] == first;
    assert(types[first as int] == part.gts_id);
    assert(types[idx as int] == v.records[idx as int].gts_id);
    assert(types[first as int] == v.records[first as int].gts_id);
    assert(part.idxs.contains((idx as int) as usize));
}

/// Composing a record whose outcome is open keeps rows and outcomes sound.
proof fn lemma_composing_is_sound<V: Fn(Candidate) -> Result<(), String>>(
    validate: V,
    version_base: u64,
    p: usize,
    existing: Seq<RowView>,
    before: BatchView,
    idx: usize,
    after: BatchView,
)
    requires
        rows_are_sound(before),
        p < before.partitions.len(),
        before.partitions[p as int].idxs.contains(idx),
        idx < before.records.len(),
        before.outcomes[idx as int] is None,
        composes(validate, version_base, p, existing, before, idx, after),
    ensures
        rows_are_sound(after),
        after.records == before.records,
        after.partitions == before.partitions,
        after.settled == before.settled,
        forall|i: int|
            0 <= i < before.outcomes.len() && i != idx ==> #[trigger] after.outcomes[i]
                == before.outcomes[i],
        after.outcomes[idx as int] is Some,
        before.next_offset < u64::MAX ==> before.next_offset <= after.next_offset
            <= before.next_offset + 1,
        after.row_partition.len() >= before.row_partition.len(),
        forall|j: int|
            0 <= j < after.row_partition.len() ==> #[trigger] after.row_partition[j] == p || j
                < before.row_partition.len() && after.row_partition[j] == before.row_partition[j],
{
    let record = before.records[idx as int];
    let key = record_key(record);
    assert(!before.absorbed.contains(idx));
    assert(!is_backed(before, idx));
    lemma_position_of_key(existing, key);
    lemma_position_of_key(before.rows, key);
    match position_of_key(existing, key) {
        Some(k) => {
            let o = choose|o: OutcomeView| #[trigger]
                hit_outcome(validate, existing[k], record, o) && after == with_hit(before, idx, o);
            assert forall|j: int, i: usize| #[trigger] holds_slot(after, j, i) implies holds_slot(
                before,
                j,
                i,
            ) && i != idx by {
                assert(holds_slot(before, j, i));
            }
            assert forall|i: usize|
                i < after.records.len() && succeeded(#[trigger] after.outcomes[i as int]) implies after.absorbed.contains(i) || is_backed(after, i) by {
                if i != idx {
                    assert(before.outcomes[i as int] == after.outcomes[i as int]);
                    if is_backed(before, i) {
                        let j = choose|j: int| #[trigger] holds_slot(before, j, i);
                        assert(holds_slot(after, j, i));
                    }
                }
            }
        },
        None => match position_of_key(before.rows, key) {
            Some(j0) => {
                let o = choose|o: OutcomeView| #[trigger]
                    hit_outcome(validate, before.rows[j0], record, o) && after == with_joined(
                        before,
                        idx,
                        j0,
                        o,
                    );
                lemma_same_key_same_partition(before, j0, idx);
                if o is Ok {
                    assert(row_outcome(validate, before.rows[j0], o));
                    let slots = before.row_slots[j0];
                    assert(after.row_slots[j0] == slots.push(idx));
                    assert(slots.push(idx)[slots.len() as int] == idx);
                    assert(holds_slot(after, j0, idx));
                }
                assert forall|j: int, i: usize| #[trigger] holds_slot(after, j, i) implies (
                holds_slot(before, j, i) && i != idx) || (j == j0 && i == idx && o is Ok) by {
                    if o is Ok && j == j0 {
                        let slots = before.row_slots[j0];
                        let x = choose|x: int|
                            0 <= x < slots.push(idx).len() && slots.push(idx)[x] == i;
                        if x < slots.len() {
                            assert(slots[x] == i);
                            assert(holds_slot(before, j, i));
                        }
                    } else {
                        assert(holds_slot(before, j, i));
                    }
                }
                assert forall|i: usize|
                    i < after.records.len() && succeeded(#[trigger] after.outcomes[i as int]) implies after.absorbed.contains(i) || is_backed(after, i) by {
                    if i != idx {
                        assert(before.outcomes[i as int] == after.outcomes[i as int]);
                        if is_backed(before, i) {
                            let j = choose|j: int| #[trigger] holds_slot(before, j, i);
                            if o is Ok && j == j0 {
                                let slots = before.row_slots[j0];
                                let x = choose|x: int| 0 <= x < slots.len() && slots[x] == i;
                                assert(slots.push(idx)[x] == i);
                            }
                            assert(holds_slot(after, j, i));
                        }
                    }
                }
                assert forall|j: int| 0 <= j < after.rows.len() implies (
                #[trigger] after.row_slots[j]).len() > 0 by {
                    assert(before.row_slots[j].len() > 0);
                }
            },
            None => {
                let (row, o) = choose|row: RowView, o: OutcomeView|
                    is_row_of(
                        record,
                        saturating_sum(version_base as int, before.next_offset as int),
                        row,
                    ) && #[trigger] row_outcome(validate, row, o) && after == with_row(
                        before,
                        idx,
                        p,
                        row,
                        o,
                    );
                let n = before.rows.len() as int;
                assert(stored_key(row) == key);
                assert(after.row_slots[n] == seq![idx]);
                assert(seq![idx][0] == idx);
                assert(holds_slot(after, n, idx));
                assert forall|j: int, i: usize| #[trigger] holds_slot(after, j, i) implies (j < n
                    && holds_slot(before, j, i) && i != idx) || (j == n && i == idx) by {
                    if j < n {
                        assert(after.row_slots[j] == before.row_slots[j]);
                        assert(holds_slot(before, j, i));
                    }
                }
                assert forall|j: int, i: usize| #[trigger] holds_slot(after, j, i) implies {
                    &&& i < after.records.len()
                    &&& after.outcomes[i as int] is Some
                    &&& record_key(after.records[i as int]) == stored_key(after.rows[j])
                    &&& after.partitions[after.row_partition[j] as int].idxs.contains(i)
                    &&& after.outcomes[i as int] matches Some(Ok(m)) ==> m == model_of_row(
                        after.rows[j],
                    )
                    &&& !after.absorbed.contains(i)
                } by {
                    if j < n {
                        assert(holds_slot(before, j, i));
                        assert(after.rows[j] == before.rows[j]);
                        assert(after.row_partition[j] == before.row_partition[j]);
                    }
                }
                assert forall|i: usize|
                    i < after.records.len() && succeeded(#[trigger] after.outcomes[i as int]) implies after.absorbed.contains(i) || is_backed(after, i) by {
                    if i != idx {
                        assert(before.outcomes[i as int] == after.outcomes[i as int]);
                        if is_backed(before, i) {
                            let j = choose|j: int| #[trigger] holds_slot(before, j, i);
                            assert(after.row_slots[j] == before.row_slots[j]);
                            assert(holds_slot(after, j, i));
                        }
                    }
                }
                assert forall|j: int| 0 <= j < after.rows.len() implies (
                #[trigger] after.row_slots[j]).len() > 0 by {
                    if j < n {
                        assert(after.row_slots[j] == before.row_slots[j]);
                    }
                }
                assert forall|j: int| 0 <= j < after.rows.len() implies (
                #[trigger] after.row_partition[j]) < after.partitions.len() by {
                    if j < n {
                        assert(after.row_partition[j] == before.row_partition[j]);
                    }
                }
                assert forall|a: int, b: int| 0 <= a < b < after.rows.len() implies stored_key(
                    #[trigger] after.rows[a],
                ) != stored_key(#[trigger] after.rows[b]) by {
                    assert(after.rows[a] == before.rows[a]);
                    if b < n {
                        assert(after.rows[b] == before.rows[b]);
                    }
                }
            },
        },
    }
}

/// Outcomes with the failure in the slots of some records.
pub open spec fn failed_at(
    outcomes: Seq<Option<OutcomeView>>,
    idxs: Seq<usize>,
    e: ErrorView,
) -> Seq<Option<OutcomeView>> {
    Seq::new(
        outcomes.len(),
        |i: int|
            if idxs.contains(i as usize) {
                Some(Err(e))
            } else {
                outcomes[i]
            },
    )
}

/// Outcomes with the failure in every slot that depends on a row.
pub open spec fn failed_at_all(
    outcomes: Seq<Option<OutcomeView>>,
    row_slots: Seq<Seq<usize>>,
    e: ErrorView,
) -> Seq<Option<OutcomeView>>
    decreases row_slots.len(),
{
    if row_slots.len() == 0 {
        outcomes
    } else {
        failed_at(failed_at_all(outcomes, row_slots.drop_last(), e), row_slots.last(), e)
    }
}

/// Puts the failure of a partition in the slots of some records.
fn fail_slots(
    outcomes: &mut Vec<Option<Result<UsageRecord, UsageCollectorPluginError>>>,
    idxs: &Vec<usize>,
    err: &UsageCollectorPluginError,
    shown: &str,
)
    requires
        forall|a: int| 0 <= a < idxs@.len() ==> (#[trigger] idxs@[a]) < old(outcomes)@.len(),
        old(outcomes)@.len() <= usize::MAX,
    ensures
        slot_views(final(outcomes)@) == failed_at(
            slot_views(old(outcomes)@),
            idxs@,
            partition_error(err@, shown@),
        ),
{
    let ghost start = slot_views(outcomes@);
    let ghost e = partition_error(err@, shown@);
    let mut a: usize = 0;
    assert(slot_views(outcomes@) =~= failed_at(start, idxs@.take(0), e));
    while a < idxs.len()
        invariant
            a <= idxs@.len(),
            start.len() <= usize::MAX,
            e == partition_error(err@, shown@),
            outcomes@.len() == start.len(),
            forall|x: int| 0 <= x < idxs@.len() ==> (#[trigger] idxs@[x]) < start.len(),
            slot_views(outcomes@) == failed_at(start, idxs@.take(a as int), e),
        decreases idxs@.len() - a,
    {
        let ghost before = slot_views(outcomes@);
        let idx = idxs[a];
        outcomes.set(idx, Some(Err(err_for_partition(err, shown))));
        proof {
            let after = slot_views(outcomes@);
            assert(after =~= before.update(idx as int, Some(Err(e))));
            let shorter = idxs@.take(a as int);
            let longer = idxs@.take(a + 1);
            assert(longer =~= shorter.push(idx));
            assert forall|i: int| 0 <= i < start.len() implies longer.contains(
                #[trigger] (i as usize),
            ) == (shorter.contains(i as usize) || i == idx) by {
                if shorter.contains(i as usize) {
                    let x = choose|x: int| 0 <= x < shorter.len() && shorter[x] == i as usize;
                    assert(longer[x] == i as usize);
                }
                if i == idx {
                    assert(longer[a as int] == i as usize);
                }
                if longer.contains(i as usize) {
                    let x = choose|x: int| 0 <= x < longer.len() && longer[x] == i as usize;
                    if x < shorter.len() {
                        assert(shorter[x] == i as usize);
                    }
                }
            }
            assert forall|i: int| 0 <= i < start.len() implies after[i] == #[trigger] failed_at(
                start,
                longer,
                e,
            )[i] by {
                assert(before[i] == failed_at(start, shorter, e)[i]);
                assert(longer.contains(i as usize) == (shorter.contains(i as usize) || i == idx));
            }
            assert(after =~= failed_at(start, longer, e));
        }
        a = a + 1;
    }
    assert(idxs@.take(a as int) =~= idxs@);
}

/// Reports a failed write in every slot that depended on it. Records that were
/// found stored keep their outcomes.
pub fn apply_insert_failure(
    err: &UsageCollectorPluginError,
    shown: &str,
    row_slots: &Vec<Vec<usize>>,
    outcomes: &mut Vec<Option<Result<UsageRecord, UsageCollectorPluginError>>>,
)
    requires
        forall|j: int, a: int|
            0 <= j < row_slots@.len() && 0 <= a < row_slots@[j]@.len() ==> (
            #[trigger] row_slots@[j]@[a]) < old(outcomes)@.len(),
    ensures
        slot_views(final(outcomes)@) == failed_at_all(
            slot_views(old(outcomes)@),
            position_views(row_slots@),
            partition_error(err@, shown@),
        ),
{
    let n = outcomes.len();
    let ghost start = slot_views(outcomes@);
    let ghost e = partition_error(err@, shown@);
    let ghost slots = position_views(row_slots@);
    let mut j: usize = 0;
    assert(slots.take(0) =~= Seq::<Seq<usize>>::empty());
    while j < row_slots.len()
        invariant
            j <= row_slots@.len(),
            n == start.len(),
            e == partition_error(err@, shown@),
            slots == position_views(row_slots@),
            outcomes@.len() == start.len(),
            forall|k: int, a: int|
                0 <= k < row_slots@.len() && 0 <= a < row_slots@[k]@.len() ==> (
                #[trigger] row_slots@[k]@[a]) < start.len(),
            slot_views(outcomes@) == failed_at_all(start, slots.take(j as int), e),
        decreases row_slots@.len() - j,
    {
        proof {
            let longer = slots.take(j + 1);
            assert(longer.drop_last() =~= slots.take(j as int));
            assert(longer.last() == row_slots@[j as int]@);
        }
        fail_slots(outcomes, &row_slots[j], err, shown);
        proof {
            assert(slot_views(outcomes@).len() == outcomes@.len());
            assert(failed_at_all(start, slots.take(j as int), e).len() == start.len());
        }
        j = j + 1;
    }
    assert(slots.take(j as int) =~= slots);
}

/// The outcomes that a failed write leaves, slot by slot.
pub proof fn lemma_failed_at_all(
    outcomes: Seq<Option<OutcomeView>>,
    row_slots: Seq<Seq<usize>>,
    e: ErrorView,
)
    requires
        outcomes.len() <= usize::MAX,
    ensures
        failed_at_all(outcomes, row_slots, e).len() == outcomes.len(),
        forall|i: int|
            0 <= i < outcomes.len() ==> #[trigger] failed_at_all(outcomes, row_slots, e)[i] == (
            if exists|j: int|
                0 <= j < row_slots.len() && (#[trigger] row_slots[j]).contains(i as usize) {
                Some(Err::<UsageRecordView, ErrorView>(e))
            } else {
                outcomes[i]
            }),
    decreases row_slots.len(),
{
    if row_slots.len() > 0 {
        let front = row_slots.drop_last();
        lemma_failed_at_all(outcomes, front, e);
        let part = failed_at_all(outcomes, front, e);
        assert forall|i: int| 0 <= i < outcomes.len() implies #[trigger] failed_at_all(
            outcomes,
            row_slots,
            e,
        )[i] == (if exists|j: int|
            0 <= j < row_slots.len() && (#[trigger] row_slots[j]).contains(i as usize) {
            Some(Err::<UsageRecordView, ErrorView>(e))
        } else {
            outcomes[i]
        }) by {
            assert(part[i] == part[i]);
            if row_slots.last().contains(i as usize) {
                assert(row_slots[row_slots.len() - 1].contains(i as usize));
            } else if exists|j: int|
                0 <= j < row_slots.len() && (#[trigger] row_slots[j]).contains(i as usize) {
                let j = choose|j: int|
                    0 <= j < row_slots.len() && (#[trigger] row_slots[j]).contains(i as usize);
                assert(front[j] == row_slots[j]);
            } else if exists|j: int|
                0 <= j < front.len() && (#[trigger] front[j]).contains(i as usize) {
                let j = choose|j: int|
                    0 <= j < front.len() && (#[trigger] front[j]).contains(i as usize);
                assert(row_slots[j] == front[j]);
            }
        }
    }
}

/// The positions of the rows that are not of the partition.
pub open spec fn kept_positions(row_partition: Seq<usize>, p: usize) -> Seq<int>
    decreases row_partition.len(),
{
    if row_partition.len() == 0 {
        Seq::empty()
    } else {
        let front = kept_positions(row_partition.drop_last(), p);
        if row_partition.last() == p {
            front
        } else {
            front.push(row_partition.len() - 1)
        }
    }
}

/// The items at the positions.
pub open spec fn items_at<T>(items: Seq<T>, positions: Seq<int>) -> Seq<T> {
    positions.map_values(|j: int| items[j])
}

/// The kept positions are those of other partitions, in order.
pub proof fn lemma_kept_positions(row_partition: Seq<usize>, p: usize)
    ensures
        forall|x: int|
            0 <= x < kept_positions(row_partition, p).len() ==> 0 <= #[trigger] kept_positions(
                row_partition,
                p,
            )[x] < row_partition.len() && row_partition[kept_positions(row_partition, p)[x]] != p,
        forall|x: int, y: int|
            0 <= x < y < kept_positions(row_partition, p).len() ==> #[trigger] kept_positions(
                row_partition,
                p,
            )[x] < #[trigger] kept_positions(row_partition, p)[y],
        forall|j: int|
            0 <= j < row_partition.len() && #[trigger] row_partition[j] != p ==> kept_positions(
                row_partition,
                p,
            ).contains(j),
    decreases row_partition.len(),
{
    if row_partition.len() > 0 {
        let front = row_partition.drop_last();
        lemma_kept_positions(front, p);
        let kept = kept_positions(front, p);
        let all = kept_positions(row_partition, p);
        assert forall|x: int| 0 <= x < all.len() implies 0 <= #[trigger] all[x]
            < row_partition.len() && row_partition[all[x]] != p by {
            if x < kept.len() {
                assert(all[x] == kept[x]);
                assert(front[kept[x]] == row_partition[kept[x]]);
            }
        }
        assert forall|x: int, y: int| 0 <= x < y < all.len() implies #[trigger] all[x]
            < #[trigger] all[y] by {
            assert(all[x] == kept[x]);
            if y < kept.len() {
                assert(all[y] == kept[y]);
            }
        }
        assert forall|j: int|
            0 <= j < row_partition.len() && #[trigger] row_partition[j] != p implies all.contains(
            j,
        ) by {
            if j < front.len() {
                assert(front[j] == row_partition[j]);
                let x = choose|x: int| 0 <= x < kept.len() && kept[x] == j;
                assert(all[x] == j);
            } else {
                assert(all[kept.len() as int] == j);
            }
        }
    }
}

proof fn lemma_kept_grows(row_partition: Seq<usize>, p: usize, n: int)
    requires
        0 <= n < row_partition.len(),
    ensures
        kept_positions(row_partition.take(n + 1), p) == (if row_partition[n] == p {
            kept_positions(row_partition.take(n), p)
        } else {
            kept_positions(row_partition.take(n), p).push(n)
        }),
{
    let longer = row_partition.take(n + 1);
    assert(longer.drop_last() =~= row_partition.take(n));
    assert(longer.last() == row_partition[n]);
}

/// The rows that are not of the partition.
fn keep_rows(rows: Vec<UsageRecordRow>, row_partition: &Vec<usize>, p: usize) -> (r: Vec<
    UsageRecordRow,
>)
    requires
        rows@.len() == row_partition@.len(),
    ensures
        row_views(r@) == items_at(row_views(rows@), kept_positions(row_partition@, p)),
{
    let ghost all = row_views(rows@);
    let mut kept: Vec<UsageRecordRow> = Vec::new();
    let n = row_partition.len();
    let mut i: usize = 0;
    assert(row_partition@.take(0) =~= Seq::<usize>::empty());
    assert(row_views(kept@) =~= items_at(all, kept_positions(row_partition@.take(0), p)));
    for row in iter: rows.into_iter()
        invariant
            iter.seq() == rows@,
            n == row_partition@.len(),
            i == iter.index(),
            all == row_views(rows@),
            rows@.len() == row_partition@.len(),
            row_views(kept@) == items_at(all, kept_positions(row_partition@.take(i as int), p)),
    {
        proof {
            lemma_kept_grows(row_partition@, p, i as int);
        }
        let ghost before = kept@;
        let ghost positions = kept_positions(row_partition@.take(i as int), p);
        if row_partition[i] != p {
            let ghost v = row@;
            kept.push(row);
            proof {
                assert(v == all[i as int]);
                assert(row_views(kept@) =~= row_views(before).push(v));
                assert(items_at(all, positions.push(i as int)) =~= items_at(all, positions).push(v));
            }
        }
        i = i + 1;
    }
    assert(row_partition@.take(i as int) =~= row_partition@);
    kept
}

/// The slots of the rows that are not of the partition.
fn keep_slots(slots: Vec<Vec<usize>>, row_partition: &Vec<usize>, p: usize) -> (r: Vec<Vec<usize>>)
    requires
        slots@.len() == row_partition@.len(),
    ensures
        position_views(r@) == items_at(position_views(slots@), kept_positions(row_partition@, p)),
{
    let ghost all = position_views(slots@);
    let mut kept: Vec<Vec<usize>> = Vec::new();
    let n = row_partition.len();
    let mut i: usize = 0;
    assert(row_partition@.take(0) =~= Seq::<usize>::empty());
    assert(position_views(kept@) =~= items_at(all, kept_positions(row_partition@.take(0), p)));
    for slot in iter: slots.into_iter()
        invariant
            iter.seq() == slots@,
            n == row_partition@.len(),
            i == iter.index(),
            all == position_views(slots@),
            slots@.len() == row_partition@.len(),
            position_views(kept@) == items_at(
                all,
                kept_positions(row_partition@.take(i as int), p),
            ),
    {
        proof {
            lemma_kept_grows(row_partition@, p, i as int);
        }
        let ghost before = kept@;
        let ghost positions = kept_positions(row_partition@.take(i as int), p);
        if row_partition[i] != p {
            let ghost v = slot@;
            kept.push(slot);
            proof {
                assert(v == all[i as int]);
                assert(position_views(kept@) =~= position_views(before).push(v));
                assert(items_at(all, positions.push(i as int)) =~= items_at(all, positions).push(v));
            }
        }
        i = i + 1;
    }
    assert(row_partition@.take(i as int) =~= row_partition@);
    kept
}

/// The partitions of the rows that are not of the partition.
fn keep_partitions(row_partition: &Vec<usize>, p: usize) -> (r: Vec<usize>)
    ensures
        r@ == items_at(row_partition@, kept_positions(row_partition@, p)),
{
    let mut kept: Vec<usize> = Vec::new();
    let mut i: usize = 0;
    assert(row_partition@.take(0) =~= Seq::<usize>::empty());
    assert(kept@ =~= items_at(row_partition@, kept_positions(row_partition@.take(0), p)));
    while i < row_partition.len()
        invariant
            i <= row_partition@.len(),
            kept@ == items_at(row_partition@, kept_positions(row_partition@.take(i as int), p)),
        decreases row_partition@.len() - i,
    {
        proof {
            lemma_kept_grows(row_partition@, p, i as int);
        }
        let ghost positions = kept_positions(row_partition@.take(i as int), p);
        if row_partition[i] != p {
            kept.push(row_partition[i]);
            assert(kept@ =~= items_at(row_partition@, positions.push(i as int)));
        }
        i = i + 1;
    }
    assert(row_partition@.take(i as int) =~= row_partition@);
    kept
}

/// A plan for a new batch: nothing is known, nothing is composed.
pub open spec fn is_new_plan(v: BatchView, records: Seq<UsageRecordView>) -> bool {
    &&& v.records == records
    &&& v.settled == Seq::new(v.partitions.len(), |p: int| false)
    &&& v.outcomes == Seq::new(records.len(), |i: int| None::<OutcomeView>)
    &&& v.rows.len() == 0
    &&& v.next_offset == 0
    &&& v.absorbed == Set::<usize>::empty()
}

/// The plan with a partition that failed before it was composed.
pub open spec fn with_failed_partition(v: BatchView, p: usize, e: ErrorView) -> BatchView {
    BatchView {
        outcomes: failed_at(v.outcomes, v.partitions[p as int].idxs, e),
        settled: v.settled.update(p as int, true),
        ..v
    }
}

/// The plan with a partition whose lock was lost: its records fail, and its rows
/// are not written.
pub open spec fn with_expired_partition(v: BatchView, p: usize, e: ErrorView) -> BatchView {
    let kept = kept_positions(v.row_partition, p);
    BatchView {
        outcomes: failed_at(v.outcomes, v.partitions[p as int].idxs, e),
        rows: items_at(v.rows, kept),
        row_partition: items_at(v.row_partition, kept),
        row_slots: items_at(v.row_slots, kept),
        absorbed: v.absorbed.filter(|i: usize| !v.partitions[p as int].idxs.contains(i)),
        ..v
    }
}

/// The plan after its write failed.
pub open spec fn with_failed_write(v: BatchView, e: ErrorView) -> BatchView {
    BatchView { outcomes: failed_at_all(v.outcomes, v.row_slots, e), ..v }
}

/// Composing the records of a partition, one after the other, makes `after` of
/// `before`; `trace` holds the plans in between.
pub open spec fn composes_all<V: Fn(Candidate) -> Result<(), String>>(
    validate: V,
    version_base: u64,
    p: usize,
    existing: Seq<RowView>,
    before: BatchView,
    trace: Seq<BatchView>,
    after: BatchView,
) -> bool {
    let idxs = before.partitions[p as int].idxs;
    &&& trace.len() == idxs.len() + 1
    &&& trace[0] == before
    &&& forall|k: int|
        #![trigger trace[k]]
        0 <= k < idxs.len() ==> composes(
            validate,
            version_base,
            p,
            existing,
            trace[k],
            idxs[k],
            trace[k + 1],
        )
    &&& after == (BatchView {
        settled: before.settled.update(p as int, true),
        ..trace[idxs.len() as int]
    })
}

/// The answer for a record: its outcome, or the break of an invariant where there
/// is none.
pub open spec fn answer(o: Option<OutcomeView>) -> OutcomeView {
    match o {
        Some(r) => r,
        None => Err(
            ErrorView::Internal(
                "batch index unresolved after partition processing (invariant break)"@,
            ),
        ),
    }
}

/// Records outside the partition keep their outcomes when it fails.
proof fn lemma_failed_at(v: BatchView, p: int, e: ErrorView)
    requires
        rows_are_sound(v),
        0 <= p < v.partitions.len(),
    ensures
        forall|i: usize|
            i < v.records.len() ==> #[trigger] failed_at(
                v.outcomes,
                v.partitions[p].idxs,
                e,
            )[i as int] == (if v.partitions[p].idxs.contains(i) {
                Some(Err::<UsageRecordView, ErrorView>(e))
            } else {
                v.outcomes[i as int]
            }),
{
    assert forall|i: usize| i < v.records.len() implies #[trigger] failed_at(
        v.outcomes,
        v.partitions[p].idxs,
        e,
    )[i as int] == (if v.partitions[p].idxs.contains(i) {
        Some(Err::<UsageRecordView, ErrorView>(e))
    } else {
        v.outcomes[i as int]
    }) by {
        assert((i as int) as usize == i);
    }
}

/// The outcomes of other partitions are known as before when one fails.
proof fn lemma_other_partitions_stay(v: BatchView, after: BatchView, p: int, q: int, e: ErrorView)
    requires
        rows_are_sound(v),
        0 <= p < v.partitions.len(),
        0 <= q < v.partitions.len(),
        p != q,
        partition_is_settled(v, q),
        after.partitions == v.partitions,
        after.settled[q] == v.settled[q],
        after.outcomes == failed_at(v.outcomes, v.partitions[p].idxs, e),
    ensures
        partition_is_settled(after, q),
{
    lemma_failed_at(v, p, e);
    let types = record_types(v.records);
    assert(is_partition(types, v.partitions[q]));
    assert forall|a: int| 0 <= a < after.partitions[q].idxs.len() implies ((after.outcomes[(
    #[trigger] after.partitions[q].idxs[a]) as int] is Some) <==> after.settled[q]) by {
        let i = v.partitions[q].idxs[a];
        assert(v.partitions[q].idxs.contains(i));
        if v.partitions[p].idxs.contains(i) {
            lemma_partitions_are_disjoint(types, v.partitions, p, q, i);
        }
        assert(after.outcomes[i as int] == v.outcomes[i as int]);
    }
}

proof fn lemma_failed_partition_is_sound(v: BatchView, p: usize, e: ErrorView)
    requires
        plan_is_sound(v),
        p < v.partitions.len(),
        !v.settled[p as int],
    ensures
        plan_is_sound(with_failed_partition(v, p, e)),
{
    let after = with_failed_partition(v, p, e);
    let part = v.partitions[p as int];
    let types = record_types(v.records);
    lemma_failed_at(v, p as int, e);
    lemma_pending_of_settled(v.partitions, v.settled, p as int);
    assert(is_partition(types, part));
    assert(partition_is_settled(v, p as int));
    assert forall|i: usize| part.idxs.contains(i) implies v.outcomes[i as int] is None && i
        < v.records.len() by {
        let a = choose|a: int| 0 <= a < part.idxs.len() && part.idxs[a] == i;
        assert(part.idxs[a] == i);
    }
    assert forall|j: int, i: usize| #[trigger] holds_slot(after, j, i) implies holds_slot(v, j, i)
        && !part.idxs.contains(i) by {
        assert(holds_slot(v, j, i));
    }
    assert forall|i: usize|
        i < after.records.len() && succeeded(
            #[trigger] after.outcomes[i as int],
        ) implies after.absorbed.contains(i) || is_backed(after, i) by {
        assert(v.outcomes[i as int] == after.outcomes[i as int]);
        if is_backed(v, i) {
            let j = choose|j: int| #[trigger] holds_slot(v, j, i);
            assert(holds_slot(after, j, i));
        }
    }
    assert(rows_are_sound(after));
    assert forall|q: int| 0 <= q < after.partitions.len() implies #[trigger] partition_is_settled(
        after,
        q,
    ) by {
        if q != p {
            assert(partition_is_settled(v, q));
            lemma_other_partitions_stay(v, after, p as int, q, e);
        } else {
            assert forall|a: int| 0 <= a < part.idxs.len() implies after.outcomes[(
            #[trigger] part.idxs[a]) as int] is Some by {
                assert(part.idxs.contains(part.idxs[a]));
            }
        }
    }
    assert forall|j: int| 0 <= j < after.rows.len() implies after.settled[(
    #[trigger] after.row_partition[j]) as int] by {
        assert(v.settled[v.row_partition[j] as int]);
    }
}

proof fn lemma_composed_partition_is_sound(start: BatchView, composed: BatchView, p: usize)
    requires
        plan_is_sound(start),
        p < start.partitions.len(),
        !start.settled[p as int],
        rows_are_sound(composed),
        composed.records == start.records,
        composed.partitions == start.partitions,
        composed.settled == start.settled,
        composed.next_offset + pending(start.partitions, start.settled.update(p as int, true))
            <= start.records.len(),
        forall|a: int|
            0 <= a < start.partitions[p as int].idxs.len() ==> composed.outcomes[(
            #[trigger] start.partitions[p as int].idxs[a]) as int] is Some,
        forall|i: usize|
            i < start.records.len() && !start.partitions[p as int].idxs.contains(i)
                ==> #[trigger] composed.outcomes[i as int] == start.outcomes[i as int],
        forall|j: int|
            0 <= j < composed.row_partition.len() ==> #[trigger] composed.row_partition[j] == p
                || start.settled[composed.row_partition[j] as int],
    ensures
        plan_is_sound(BatchView { settled: start.settled.update(p as int, true), ..composed }),
{
    let after = BatchView { settled: start.settled.update(p as int, true), ..composed };
    let types = record_types(start.records);
    assert forall|j: int, i: usize| #[trigger] holds_slot(after, j, i) implies holds_slot(
        composed,
        j,
        i,
    ) by {}
    assert forall|i: usize|
        i < after.records.len() && succeeded(
            #[trigger] after.outcomes[i as int],
        ) implies after.absorbed.contains(i) || is_backed(after, i) by {
        assert(succeeded(composed.outcomes[i as int]));
        if is_backed(composed, i) {
            let j = choose|j: int| #[trigger] holds_slot(composed, j, i);
            assert(holds_slot(after, j, i));
        }
    }
    assert(rows_are_sound(after));
    assert forall|q: int| 0 <= q < after.partitions.len() implies #[trigger] partition_is_settled(
        after,
        q,
    ) by {
        if q != p {
            assert(partition_is_settled(start, q));
            assert(is_partition(types, start.partitions[q]));
            assert forall|a: int| 0 <= a < after.partitions[q].idxs.len() implies ((
            after.outcomes[(#[trigger] after.partitions[q].idxs[a]) as int] is Some)
                <==> after.settled[q]) by {
                let i = start.partitions[q].idxs[a];
                assert(start.partitions[q].idxs.contains(i));
                if start.partitions[p as int].idxs.contains(i) {
                    lemma_partitions_are_disjoint(types, start.partitions, p as int, q, i);
                }
                assert(composed.outcomes[i as int] == start.outcomes[i as int]);
            }
        }
    }
}

proof fn lemma_expired_partition_is_sound(v: BatchView, p: usize, e: ErrorView)
    requires
        plan_is_sound(v),
        p < v.partitions.len(),
        v.settled[p as int],
    ensures
        plan_is_sound(with_expired_partition(v, p, e)),
{
    let after = with_expired_partition(v, p, e);
    let part = v.partitions[p as int];
    let types = record_types(v.records);
    let kept = kept_positions(v.row_partition, p);
    lemma_kept_positions(v.row_partition, p);
    lemma_failed_at(v, p as int, e);
    assert(is_partition(types, part));
    assert forall|i: usize| part.idxs.contains(i) implies i < v.records.len() by {
        let a = choose|a: int| 0 <= a < part.idxs.len() && part.idxs[a] == i;
        assert(part.idxs[a] == i);
    }
    assert forall|x: int| 0 <= x < kept.len() implies after.rows[x] == v.rows[#[trigger] kept[x]]
        && after.row_partition[x] == v.row_partition[kept[x]] && after.row_slots[x]
        == v.row_slots[kept[x]] by {}
    assert forall|x: int, i: usize| #[trigger] holds_slot(after, x, i) implies holds_slot(
        v,
        kept[x],
        i,
    ) && !part.idxs.contains(i) by {
        assert(after.row_slots[x] == v.row_slots[kept[x]]);
        assert(holds_slot(v, kept[x], i));
        let q = v.row_partition[kept[x]];
        if part.idxs.contains(i) {
            lemma_partitions_are_disjoint(types, v.partitions, p as int, q as int, i);
        }
    }
    assert forall|x: int, i: usize| #[trigger] holds_slot(after, x, i) implies {
        &&& i < after.records.len()
        &&& after.outcomes[i as int] is Some
        &&& record_key(after.records[i as int]) == stored_key(after.rows[x])
        &&& after.partitions[after.row_partition[x] as int].idxs.contains(i)
        &&& after.outcomes[i as int] matches Some(Ok(m)) ==> m == model_of_row(after.rows[x])
        &&& !after.absorbed.contains(i)
    } by {
        assert(holds_slot(v, kept[x], i));
        assert(after.outcomes[i as int] == v.outcomes[i as int]);
    }
    assert forall|i: usize|
        i < after.records.len() && succeeded(
            #[trigger] after.outcomes[i as int],
        ) implies after.absorbed.contains(i) || is_backed(after, i) by {
        assert(!part.idxs.contains(i));
        assert(v.outcomes[i as int] == after.outcomes[i as int]);
        if is_backed(v, i) {
            let j = choose|j: int| #[trigger] holds_slot(v, j, i);
            assert(v.row_partition[j] != p);
            let x = choose|x: int| 0 <= x < kept.len() && kept[x] == j;
            assert(after.row_slots[x] == v.row_slots[kept[x]]);
            assert(holds_slot(after, x, i));
        }
    }
    assert forall|a: int, b: int| 0 <= a < b < after.rows.len() implies stored_key(
        #[trigger] after.rows[a],
    ) != stored_key(#[trigger] after.rows[b]) by {
        assert(kept[a] < kept[b]);
        assert(after.rows[a] == v.rows[kept[a]] && after.rows[b] == v.rows[kept[b]]);
    }
    assert forall|x: int| 0 <= x < after.rows.len() implies (#[trigger] after.row_slots[x]).len()
        > 0 by {
        assert(after.row_slots[x] == v.row_slots[kept[x]]);
    }
    assert forall|x: int| 0 <= x < after.rows.len() implies (#[trigger] after.row_partition[x])
        < after.partitions.len() by {
        assert(after.row_partition[x] == v.row_partition[kept[x]]);
    }
    assert(rows_are_sound(after));
    assert forall|q: int| 0 <= q < after.partitions.len() implies #[trigger] partition_is_settled(
        after,
        q,
    ) by {
        if q != p {
            assert(partition_is_settled(v, q));
            lemma_other_partitions_stay(v, after, p as int, q, e);
        } else {
            assert forall|a: int| 0 <= a < part.idxs.len() implies after.outcomes[(
            #[trigger] part.idxs[a]) as int] is Some by {
                assert(part.idxs.contains(part.idxs[a]));
            }
        }
    }
    assert forall|x: int| 0 <= x < after.rows.len() implies after.settled[(
    #[trigger] after.row_partition[x]) as int] by {
        assert(after.row_partition[x] == v.row_partition[kept[x]]);
    }
}

proof fn lemma_failed_write_is_sound(v: BatchView, e: ErrorView)
    requires
        plan_is_sound(v),
    ensures
        plan_is_sound(with_failed_write(v, e)),
{
    let after = with_failed_write(v, e);
    lemma_failed_at_all(v.outcomes, v.row_slots, e);
    assert forall|i: usize| i < v.records.len() implies #[trigger] after.outcomes[i as int] == (
    if is_backed(v, i) {
        Some(Err::<UsageRecordView, ErrorView>(e))
    } else {
        v.outcomes[i as int]
    }) by {
        assert((i as int) as usize == i);
        if is_backed(v, i) {
            let j = choose|j: int| #[trigger] holds_slot(v, j, i);
            assert(v.row_slots[j].contains(i));
        } else {
            assert forall|j: int| 0 <= j < v.row_slots.len() implies !(
            #[trigger] v.row_slots[j]).contains(i) by {
                assert(!holds_slot(v, j, i));
            }
        }
    }
    assert forall|j: int, i: usize| #[trigger] holds_slot(after, j, i) implies holds_slot(v, j, i) by {}
    assert forall|i: usize|
        i < after.records.len() && succeeded(
            #[trigger] after.outcomes[i as int],
        ) implies after.absorbed.contains(i) || is_backed(after, i) by {
        assert(after.outcomes[i as int] == v.outcomes[i as int]);
    }
    assert(rows_are_sound(after));
    assert forall|q: int| 0 <= q < after.partitions.len() implies #[trigger] partition_is_settled(
        after,
        q,
    ) by {
        assert(partition_is_settled(v, q));
        assert(is_partition(record_types(v.records), v.partitions[q]));
        assert forall|a: int| 0 <= a < after.partitions[q].idxs.len() implies ((after.outcomes[(
        #[trigger] after.partitions[q].idxs[a]) as int] is Some) <==> after.settled[q]) by {
            let i = v.partitions[q].idxs[a];
            assert((v.outcomes[i as int] is Some) <==> v.settled[q]);
            if is_backed(v, i) {
                let j = choose|j: int| #[trigger] holds_slot(v, j, i);
                assert(holds_slot(v, j, i));
            }
        }
    }
}

/// The creation of a batch.
pub struct BatchPlan {
    records: Vec<UsageRecord>,
    partitions: Vec<Partition>,
    settled: Vec<bool>,
    outcomes: Vec<Option<Result<UsageRecord, UsageCollectorPluginError>>>,
    rows: Vec<UsageRecordRow>,
    row_partition: Vec<usize>,
    row_slots: Vec<Vec<usize>>,
    next_offset: u64,
    absorbed: Ghost<Set<usize>>,
}

impl View for BatchPlan {
    type V = BatchView;

    closed spec fn view(&self) -> BatchView {
        BatchView {
            records: self.records@.map_values(|r: UsageRecord| r@),
            partitions: partition_views(self.partitions@),
            settled: self.settled@,
            outcomes: slot_views(self.outcomes@),
            rows: row_views(self.rows@),
            row_partition: self.row_partition@,
            row_slots: position_views(self.row_slots@),
            next_offset: self.next_offset,
            absorbed: self.absorbed@,
        }
    }
}

impl BatchPlan {
    /// Starts the creation of a batch. An empty batch is an error.
    pub fn new(records: Vec<UsageRecord>) -> (r: Result<BatchPlan, UsageCollectorPluginError>)
        ensures
            r is Ok <==> records@.len() > 0,
            r matches Ok(plan) ==> plan_is_sound(plan@) && is_new_plan(
                plan@,
                records@.map_values(|r: UsageRecord| r@),
            ),
            r matches Err(e) ==> e@ == ErrorView::Internal(
                "create_usage_records called with an empty batch (host-contract breach)"@,
            ),
    {
        if records.len() == 0 {
            return Err(
                UsageCollectorPluginError::internal(
                    "create_usage_records called with an empty batch (host-contract breach)".to_owned(),
                ),
            );
        }
        let n = records.len();
        let partitions = partition_batch(&records);
        let mut outcomes: Vec<Option<Result<UsageRecord, UsageCollectorPluginError>>> = Vec::new();
        let mut i: usize = 0;
        while i < n
            invariant
                i <= n,
                outcomes@.len() == i,
                forall|j: int| 0 <= j < i ==> (#[trigger] outcomes@[j]) is None,
            decreases n - i,
        {
            outcomes.push(None);
            i = i + 1;
        }
        let mut settled: Vec<bool> = Vec::new();
        let mut p: usize = 0;
        while p < partitions.len()
            invariant
                p <= partitions@.len(),
                settled@.len() == p,
                forall|q: int| 0 <= q < p ==> !#[trigger] settled@[q],
            decreases partitions@.len() - p,
        {
            settled.push(false);
            p = p + 1;
        }
        let plan = BatchPlan {
            records,
            partitions,
            settled,
            outcomes,
            rows: Vec::new(),
            row_partition: Vec::new(),
            row_slots: Vec::new(),
            next_offset: 0,
            absorbed: Ghost(Set::empty()),
        };
        proof {
            let v = plan@;
            assert(record_types(v.records) =~= gts_ids(records@));
            assert(v.settled =~= Seq::new(v.partitions.len(), |p: int| false));
            assert(v.outcomes =~= Seq::new(v.records.len(), |i: int| None::<OutcomeView>));
            lemma_pending_at_start(v.partitions, v.settled);
            assert forall|q: int| 0 <= q < v.partitions.len() implies #[trigger] partition_is_settled(
                v,
                q,
            ) by {
                assert(is_partition(record_types(v.records), v.partitions[q]));
            }
            assert(rows_are_sound(v));
        }
        Ok(plan)
    }

    /// How many partitions there are.
    pub fn partition_count(&self) -> (n: usize)
        ensures
            n == self@.partitions.len(),
    {
        self.partitions.len()
    }

    /// A partition, in lock order.
    pub fn partition(&self, p: usize) -> (r: &Partition)
        requires
            p < self@.partitions.len(),
        ensures
            r@ == self@.partitions[p as int],
    {
        &self.partitions[p]
    }

    /// The records of the batch.
    pub fn records(&self) -> (r: &Vec<UsageRecord>)
        ensures
            r@.map_values(|r: UsageRecord| r@) == self@.records,
    {
        &self.records
    }

    /// The rows to write.
    pub fn rows(&self) -> (r: &Vec<UsageRecordRow>)
        ensures
            row_views(r@) == self@.rows,
    {
        &self.rows
    }

    /// The outcome of a record, as far as it is known.
    pub fn outcome(&self, i: usize) -> (r: &Option<Result<UsageRecord, UsageCollectorPluginError>>)
        requires
            i < self@.outcomes.len(),
        ensures
            slot_view(*r) == self@.outcomes[i as int],
    {
        &self.outcomes[i]
    }

    /// The record that each row was composed for.
    pub fn composed_for(&self) -> (r: Vec<usize>)
        requires
            rows_are_sound(self@),
        ensures
            r@.len() == self@.rows.len(),
            forall|j: int| 0 <= j < r@.len() ==> #[trigger] r@[j] == self@.row_slots[j][0],
    {
        let mut out: Vec<usize> = Vec::new();
        let mut j: usize = 0;
        while j < self.row_slots.len()
            invariant
                j <= self.row_slots@.len(),
                rows_are_sound(self@),
                out@.len() == j,
                forall|k: int| 0 <= k < j ==> #[trigger] out@[k] == self@.row_slots[k][0],
            decreases self.row_slots@.len() - j,
        {
            assert(self@.row_slots[j as int] == self.row_slots@[j as int]@);
            out.push(self.row_slots[j][0]);
            j = j + 1;
        }
        out
    }

    /// Reports that a partition failed before it was composed.
    pub fn fail_partition(&mut self, p: usize, err: &UsageCollectorPluginError, shown: &str)
        requires
            plan_is_sound(old(self)@),
            p < old(self)@.partitions.len(),
            !old(self)@.settled[p as int],
        ensures
            plan_is_sound(final(self)@),
            final(self)@ == with_failed_partition(
                old(self)@,
                p,
                partition_error(err@, shown@),
            ),
    {
        let ghost before = self@;
        proof {
            let part = before.partitions[p as int];
            assert(part == self.partitions@[p as int]@);
            assert(is_partition(record_types(before.records), part));
        }
        fail_slots(&mut self.outcomes, &self.partitions[p].idxs, err, shown);
        self.settled.set(p, true);
        proof {
            let after = self@;
            let e = partition_error(err@, shown@);
            assert(after =~= with_failed_partition(before, p, e));
            lemma_failed_partition_is_sound(before, p, e);
        }
    }

    /// Composes the records of a partition. `existing` are the rows found under
    /// their keys.
    pub fn compose_partition<V: Fn(Candidate) -> Result<(), String>>(
        &mut self,
        p: usize,
        existing: &Vec<UsageRecordRow>,
        version_base: u64,
        validate: &V,
    )
        requires
            plan_is_sound(old(self)@),
            p < old(self)@.partitions.len(),
            !old(self)@.settled[p as int],
            answers_all(*validate),
        ensures
            plan_is_sound(final(self)@),
            exists|trace: Seq<BatchView>| #[trigger]
                composes_all(
                    *validate,
                    version_base,
                    p,
                    row_views(existing@),
                    old(self)@,
                    trace,
                    final(self)@,
                ),
    {
        let ghost start = self@;
        let ghost idxs = start.partitions[p as int].idxs;
        let ghost mut trace: Seq<BatchView> = seq![start];
        let n = self.partitions[p].idxs.len();
        let mut k: usize = 0;
        proof {
            lemma_pending_of_settled(start.partitions, start.settled, p as int);
            assert(idxs == self.partitions@[p as int]@.idxs);
            assert(partition_is_settled(start, p as int));
        }
        while k < n
            invariant
                k <= n,
                n == idxs.len(),
                answers_all(*validate),
                plan_is_sound(start),
                p < start.partitions.len(),
                !start.settled[p as int],
                idxs == start.partitions[p as int].idxs,
                trace.len() == k + 1,
                trace[0] == start,
                trace[k as int] == self@,
                forall|x: int|
                    #![trigger trace[x]]
                    0 <= x < k ==> composes(
                        *validate,
                        version_base,
                        p,
                        row_views(existing@),
                        trace[x],
                        idxs[x],
                        trace[x + 1],
                    ),
                rows_are_sound(self@),
                self@.records == start.records,
                self@.partitions == start.partitions,
                self@.settled == start.settled,
                start.next_offset + pending(
                    start.partitions,
                    start.settled.update(p as int, true),
                ) + n <= start.records.len(),
                self@.next_offset <= start.next_offset + k,
                forall|a: int|
                    0 <= a < n ==> ((self@.outcomes[(#[trigger] idxs[a]) as int] is Some) <==> a
                        < k),
                forall|i: usize|
                    i < start.records.len() && !idxs.contains(i)
                        ==> #[trigger] self@.outcomes[i as int] == start.outcomes[i as int],
                forall|j: int|
                    0 <= j < self@.row_partition.len() ==> #[trigger] self@.row_partition[j] == p
                        || start.settled[self@.row_partition[j] as int],
            decreases n - k,
        {
            let ghost before = self@;
            proof {
                assert(self.partitions@[p as int]@ == before.partitions[p as int]);
                assert(is_partition(record_types(before.records), before.partitions[p as int]));
                assert(idxs.contains(idxs[k as int]));
            }
            let idx = self.partitions[p].idxs[k];
            self.compose_record(p, idx, existing, version_base, validate);
            proof {
                lemma_composing_is_sound(
                    *validate,
                    version_base,
                    p,
                    row_views(existing@),
                    before,
                    idx,
                    self@,
                );
                let longer = trace.push(self@);
                assert forall|x: int| #![trigger longer[x]] 0 <= x < k + 1 implies composes(
                    *validate,
                    version_base,
                    p,
                    row_views(existing@),
                    longer[x],
                    idxs[x],
                    longer[x + 1],
                ) by {
                    assert(longer[x] == trace[x]);
                    if x < k {
                        assert(longer[x + 1] == trace[x + 1]);
                    }
                }
                trace = longer;
                assert forall|a: int| 0 <= a < n implies ((self@.outcomes[(
                #[trigger] idxs[a]) as int] is Some) <==> a < k + 1) by {
                    if a != k {
                        assert(idxs[a] != idxs[k as int]);
                    }
                }
                assert forall|i: usize|
                    i < start.records.len() && !idxs.contains(
                        i,
                    ) implies #[trigger] self@.outcomes[i as int] == start.outcomes[i as int] by {
                    assert(i != idx);
                    assert(before.outcomes[i as int] == start.outcomes[i as int]);
                }
            }
            k = k + 1;
        }
        let ghost composed = self@;
        self.settled.set(p, true);
        proof {
            let after = self@;
            assert(after =~= (BatchView {
                settled: start.settled.update(p as int, true),
                ..composed
            }));
            assert(composes_all(
                *validate,
                version_base,
                p,
                row_views(existing@),
                start,
                trace,
                after,
            ));
            lemma_composed_partition_is_sound(start, composed, p);
        }
    }

    /// Composes one record.
    fn compose_record<V: Fn(Candidate) -> Result<(), String>>(
        &mut self,
        p: usize,
        idx: usize,
        existing: &Vec<UsageRecordRow>,
        version_base: u64,
        validate: &V,
    )
        requires
            rows_are_sound(old(self)@),
            idx < old(self)@.records.len(),
            old(self)@.next_offset < u64::MAX,
            answers_all(*validate),
        ensures
            composes(
                *validate,
                version_base,
                p,
                row_views(existing@),
                old(self)@,
                idx,
                final(self)@,
            ),
    {
        let ghost before = self@;
        let record = &self.records[idx];
        assert(before.records[idx as int] == record@);
        let key = record_dedup_key(record);
        match find_key(existing, &key) {
            Some(k) => {
                let outcome = resolve_dedup_hit(&existing[k], record, validate);
                let ghost o = outcome_view(outcome);
                let ok = outcome.is_ok();
                self.outcomes.set(idx, Some(outcome));
                if ok {
                    self.absorbed = Ghost(self.absorbed@.insert(idx));
                }
                proof {
                    assert(row_views(existing@)[k as int] == existing@[k as int]@);
                    assert(self@ =~= with_hit(before, idx, o));
                }
            },
            None => match find_key(&self.rows, &key) {
                Some(j) => {
                    let outcome = resolve_dedup_hit(&self.rows[j], record, validate);
                    let ghost o = outcome_view(outcome);
                    let ok = outcome.is_ok();
                    self.outcomes.set(idx, Some(outcome));
                    if ok {
                        self.row_slots[j].push(idx);
                    }
                    proof {
                        assert(before.rows[j as int] == self.rows@[j as int]@);
                        assert(self@ =~= with_joined(before, idx, j as int, o));
                    }
                },
                None => {
                    let version = version_base.saturating_add(self.next_offset);
                    self.next_offset = self.next_offset + 1;
                    let row = record_to_row(&self.records[idx], version);
                    let ghost v = row@;
                    let outcome = record_row_to_model(row.clone(), validate);
                    let ghost o = outcome_view(outcome);
                    self.rows.push(row);
                    self.row_partition.push(p);
                    let mut slots: Vec<usize> = Vec::new();
                    slots.push(idx);
                    self.row_slots.push(slots);
                    self.outcomes.set(idx, Some(outcome));
                    proof {
                        assert(slots@ =~= seq![idx]);
                        assert(row_outcome(*validate, v, o));
                        assert(self@ =~= with_row(before, idx, p, v, o));
                    }
                },
            },
        }
    }

    /// Reports that the lock of a composed partition was lost before the write.
    pub fn expire_partition(&mut self, p: usize, err: &UsageCollectorPluginError, shown: &str)
        requires
            plan_is_sound(old(self)@),
            p < old(self)@.partitions.len(),
            old(self)@.settled[p as int],
        ensures
            plan_is_sound(final(self)@),
            final(self)@ == with_expired_partition(
                old(self)@,
                p,
                partition_error(err@, shown@),
            ),
    {
        let ghost before = self@;
        proof {
            let part = before.partitions[p as int];
            assert(part == self.partitions@[p as int]@);
            assert(is_partition(record_types(before.records), part));
        }
        fail_slots(&mut self.outcomes, &self.partitions[p].idxs, err, shown);
        let mut rows: Vec<UsageRecordRow> = Vec::new();
        std::mem::swap(&mut rows, &mut self.rows);
        self.rows = keep_rows(rows, &self.row_partition, p);
        let mut slots: Vec<Vec<usize>> = Vec::new();
        std::mem::swap(&mut slots, &mut self.row_slots);
        self.row_slots = keep_slots(slots, &self.row_partition, p);
        self.row_partition = keep_partitions(&self.row_partition, p);
        self.absorbed = Ghost(
            self.absorbed@.filter(|i: usize| !before.partitions[p as int].idxs.contains(i)),
        );
        proof {
            let e = partition_error(err@, shown@);
            assert(self@ =~= with_expired_partition(before, p, e));
            lemma_expired_partition_is_sound(before, p, e);
        }
    }

    /// Reports that the write failed.
    pub fn insert_failed(&mut self, err: &UsageCollectorPluginError, shown: &str)
        requires
            plan_is_sound(old(self)@),
        ensures
            plan_is_sound(final(self)@),
            final(self)@ == with_failed_write(old(self)@, partition_error(err@, shown@)),
    {
        let ghost before = self@;
        proof {
            assert forall|j: int, a: int|
                0 <= j < self.row_slots@.len() && 0 <= a < self.row_slots@[j]@.len() implies (
            #[trigger] self.row_slots@[j]@[a]) < self.outcomes@.len() by {
                let i = self.row_slots@[j]@[a];
                assert(before.row_slots[j] == self.row_slots@[j]@);
                assert(before.row_slots[j].contains(i));
                assert(holds_slot(before, j, i));
            }
        }
        apply_insert_failure(err, shown, &self.row_slots, &mut self.outcomes);
        proof {
            let e = partition_error(err@, shown@);
            assert(self@ =~= with_failed_write(before, e));
            lemma_failed_write_is_sound(before, e);
        }
    }

    /// The answers, one for each record, in the order of the batch.
    pub fn finish(self) -> (r: Vec<Result<UsageRecord, UsageCollectorPluginError>>)
        ensures
            r@.len() == self@.outcomes.len(),
            forall|i: int|
                0 <= i < r@.len() ==> outcome_view(#[trigger] r@[i]) == answer(self@.outcomes[i]),
    {
        let ghost outcomes = self@.outcomes;
        let mut out: Vec<Result<UsageRecord, UsageCollectorPluginError>> = Vec::new();
        for o in iter: self.outcomes.into_iter()
            invariant
                iter.seq() == self.outcomes@,
                outcomes == slot_views(self.outcomes@),
                out@.len() == iter.index(),
                forall|i: int|
                    0 <= i < out@.len() ==> outcome_view(#[trigger] out@[i]) == answer(outcomes[i]),
        {
            assert(outcomes[iter.index() as int] == slot_view(o));
            match o {
                Some(r) => {
                    out.push(r);
                },
                None => {
                    out.push(
                        Err(
                            UsageCollectorPluginError::internal(
                                "batch index unresolved after partition processing (invariant break)".to_owned(),
                            ),
                        ),
                    );
                },
            }
        }
        out
    }
}

/// Once every partition has failed or been composed, every record has an
/// outcome: no answer is the break of an invariant.
pub proof fn law_every_record_is_answered(v: BatchView, i: usize)
    requires
        plan_is_sound(v),
        forall|p: int| 0 <= p < v.partitions.len() ==> #[trigger] v.settled[p],
        i < v.records.len(),
    ensures
        v.outcomes[i as int] is Some,
{
    let types = record_types(v.records);
    let p = lemma_every_record_has_a_partition(types, v.partitions, i);
    assert(v.settled[p]);
    assert(partition_is_settled(v, p));
    let a = choose|a: int| 0 <= a < v.partitions[p].idxs.len() && v.partitions[p].idxs[a] == i;
    assert(v.outcomes[v.partitions[p].idxs[a] as int] is Some);
}

/// After a failed write only records that were found stored are successes, and
/// they keep their outcomes.
pub proof fn law_failed_write_reports_no_success(v: BatchView, e: ErrorView, i: usize)
    requires
        plan_is_sound(v),
        i < v.records.len(),
    ensures
        succeeded(with_failed_write(v, e).outcomes[i as int]) ==> v.absorbed.contains(i),
        v.absorbed.contains(i) ==> with_failed_write(v, e).outcomes[i as int]
            == v.outcomes[i as int],
{
    lemma_failed_at_all(v.outcomes, v.row_slots, e);
    assert((i as int) as usize == i);
    if is_backed(v, i) {
        let j = choose|j: int| #[trigger] holds_slot(v, j, i);
        assert(holds_slot(v, j, i));
        assert(v.row_slots[j].contains(i));
    } else {
        assert forall|j: int| 0 <= j < v.row_slots.len() implies !(
        #[trigger] v.row_slots[j]).contains(i) by {
            assert(!holds_slot(v, j, i));
        }
        assert(with_failed_write(v, e).outcomes[i as int] == v.outcomes[i as int]);
    }
}

/// A partition whose lock was lost is not written, and each of its records
/// fails; the other records keep their outcomes.
pub proof fn law_expired_partition_is_not_written(v: BatchView, p: usize, e: ErrorView)
    requires
        plan_is_sound(v),
        p < v.partitions.len(),
        v.settled[p as int],
    ensures
        forall|x: int|
            0 <= x < with_expired_partition(v, p, e).rows.len()
                ==> #[trigger] with_expired_partition(v, p, e).row_partition[x] != p,
        forall|i: usize|
            i < v.records.len() ==> #[trigger] with_expired_partition(v, p, e).outcomes[i as int]
                == (if v.partitions[p as int].idxs.contains(i) {
                Some(Err::<UsageRecordView, ErrorView>(e))
            } else {
                v.outcomes[i as int]
            }),
{
    lemma_kept_positions(v.row_partition, p);
    lemma_failed_at(v, p as int, e);
    let after = with_expired_partition(v, p, e);
    let kept = kept_positions(v.row_partition, p);
    assert forall|x: int| 0 <= x < after.rows.len() implies #[trigger] after.row_partition[x]
        != p by {
        assert(after.row_partition[x] == v.row_partition[kept[x]]);
    }
}

/// No two rows of a write have the same key.
pub proof fn law_rows_have_distinct_keys(v: BatchView, a: int, b: int)
    requires
        plan_is_sound(v),
        0 <= a < b < v.rows.len(),
    ensures
        stored_key(v.rows[a]) != stored_key(v.rows[b]),
{
}

/// A row is composed only for a key that was not found stored and that no row of
/// the batch has, and it is the row of its record.
pub proof fn law_composed_row_has_a_new_key<V: Fn(Candidate) -> Result<(), String>>(
    validate: V,
    version_base: u64,
    p: usize,
    existing: Seq<RowView>,
    before: BatchView,
    idx: usize,
    after: BatchView,
)
    requires
        composes(validate, version_base, p, existing, before, idx, after),
        after.rows.len() > before.rows.len(),
    ensures
        forall|k: int|
            0 <= k < existing.len() ==> stored_key(#[trigger] existing[k]) != record_key(
                before.records[idx as int],
            ),
        forall|j: int|
            0 <= j < before.rows.len() ==> stored_key(#[trigger] before.rows[j]) != record_key(
                before.records[idx as int],
            ),
        is_row_of(
            before.records[idx as int],
            saturating_sum(version_base as int, before.next_offset as int),
            after.rows.last(),
        ),
{
    let key = record_key(before.records[idx as int]);
    lemma_position_of_key(existing, key);
    lemma_position_of_key(before.rows, key);
}

/// Rows composed one after the other have ascending versions, short of the
/// largest number.
pub proof fn law_versions_ascend(version_base: u64, a: u64, b: u64)
    requires
        a < b,
        version_base + b <= u64::MAX,
    ensures
        saturating_sum(version_base as int, a as int) < saturating_sum(
            version_base as int,
            b as int,
        ),
{
}

/// A failed write is the outcome of every record that depends on a row of it, and
/// of no other.
pub proof fn law_failed_write_reaches_its_records(
    outcomes: Seq<Option<OutcomeView>>,
    row_slots: Seq<Seq<usize>>,
    e: ErrorView,
    i: usize,
)
    requires
        i < outcomes.len() <= usize::MAX,
    ensures
        failed_at_all(outcomes, row_slots, e).len() == outcomes.len(),
        (exists|j: int| 0 <= j < row_slots.len() && (#[trigger] row_slots[j]).contains(i))
            ==> failed_at_all(outcomes, row_slots, e)[i as int] == Some(
            Err::<UsageRecordView, ErrorView>(e),
        ),
        (forall|j: int| 0 <= j < row_slots.len() ==> !(#[trigger] row_slots[j]).contains(i))
            ==> failed_at_all(outcomes, row_slots, e)[i as int] == outcomes[i as int],
{
    lemma_failed_at_all(outcomes, row_slots, e);
    assert((i as int) as usize == i);
}

/// What is answered is what was found out, and the break of an invariant only
/// where nothing was.
pub proof fn law_known_outcome_is_the_answer(o: OutcomeView)
    ensures
        answer(Some(o)) == o,
        answer(None) == Err::<UsageRecordView, ErrorView>(
            ErrorView::Internal(
                "batch index unresolved after partition processing (invariant break)"@,
            ),
        ),
{
}

/// Each answer is seen as it is, in its place.
pub proof fn law_outcomes_are_seen_one_by_one(
    outcomes: Seq<Option<Result<UsageRecord, UsageCollectorPluginError>>>,
    i: int,
)
    requires
        0 <= i < outcomes.len(),
    ensures
        slot_views(outcomes).len() == outcomes.len(),
        outcomes[i] is None <==> slot_views(outcomes)[i] is None,
        outcomes[i] matches Some(Ok(m)) ==> slot_views(outcomes)[i] == Some(
            Ok::<UsageRecordView, ErrorView>(m@),
        ),
        outcomes[i] matches Some(Err(e)) ==> slot_views(outcomes)[i] == Some(
            Err::<UsageRecordView, ErrorView>(e@),
        ),
{
}

/// A new plan holds every record of the batch, and nothing is known or composed
/// yet.
pub proof fn law_new_plan_holds_every_record(v: BatchView, records: Seq<UsageRecordView>, i: int)
    requires
        is_new_plan(v, records),
        0 <= i < records.len(),
    ensures
        v.records.len() == records.len(),
        v.records[i] == records[i],
        v.outcomes.len() == records.len(),
        v.outcomes[i] is None,
        v.rows.len() == 0,
        v.next_offset == 0,
        v.absorbed.is_empty(),
        forall|p: int| 0 <= p < v.partitions.len() ==> !#[trigger] v.settled[p],
{
}

} // verus!
