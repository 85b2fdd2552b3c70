//! Partitions of a batch: the records of one usage type, under one lock.
use crate::entity::{row_views, RowView, UsageRecordRow};
use crate::mapper::gts_id_str;
use crate::model::{ErrorView, UsageCollectorPluginError, UsageRecord, UsageTypeGtsId};
use crate::text::{comes_before, lemma_text_before_is_strict_total_order, same_text, text_before};
use vstd::prelude::*;
use vstd::string::*;

verus! {

/// The records of a batch that have one usage type.
#[derive(Debug)]
pub struct Partition {
    /// The usage type.
    pub gts_id: String,
    /// The positions of the records in the batch.
    pub idxs: Vec<usize>,
}

/// The view of a [`Partition`].
#[verifier::ext_equal]
pub struct PartitionView {
    pub gts_id: Seq<char>,
    pub idxs: Seq<usize>,
}

impl View for Partition {
    type V = PartitionView;

    open spec fn view(&self) -> PartitionView {
        PartitionView { gts_id: self.gts_id@, idxs: self.idxs@ }
    }
}

/// The views of a sequence of partitions.
pub open spec fn partition_views(parts: Seq<Partition>) -> Seq<PartitionView> {
    parts.map_values(|p: Partition| p@)
}

/// The usage types of a sequence of records.
pub open spec fn gts_ids(records: Seq<UsageRecord>) -> Seq<Seq<char>> {
    records.map_values(|r: UsageRecord| r@.gts_id)
}

/// The partition holds the positions of the usage type's records, in ascending
/// order and each once, and there is at least one.
pub open spec fn is_partition(types: Seq<Seq<char>>, part: PartitionView) -> bool {
    &&& part.idxs.len() > 0
    &&& forall|a: int, b: int|
        0 <= a < b < part.idxs.len() ==> (#[trigger] part.idxs[a]) < (#[trigger] part.idxs[b])
    &&& forall|a: int|
        0 <= a < part.idxs.len() ==> (#[trigger] part.idxs[a]) < types.len()
            && types[part.idxs[a] as int] == part.gts_id
    &&& forall|i: int|
        0 <= i < types.len() && types[i] == part.gts_id ==> part.idxs.contains(#[trigger] (i as usize))
}

/// The partitions are in the order of their usage types, each type once.
pub open spec fn is_sorted(parts: Seq<PartitionView>) -> bool {
    forall|a: int, b: int|
        0 <= a < b < parts.len() ==> text_before(
            (#[trigger] parts[a]).gts_id,
            (#[trigger] parts[b]).gts_id,
        )
}

/// Some partition has the usage type.
pub open spec fn has_type(parts: Seq<PartitionView>, gts_id: Seq<char>) -> bool {
    exists|p: int| 0 <= p < parts.len() && (#[trigger] parts[p]).gts_id == gts_id
}

/// The partitions are those of records with the given usage types.
pub open spec fn is_partitioning(types: Seq<Seq<char>>, parts: Seq<PartitionView>) -> bool {
    &&& is_sorted(parts)
    &&& forall|p: int| 0 <= p < parts.len() ==> is_partition(types, #[trigger] parts[p])
    &&& forall|i: int| 0 <= i < types.len() ==> has_type(parts, #[trigger] types[i])
}

/// How many records the partitions hold.
pub open spec fn total(parts: Seq<PartitionView>) -> nat
    decreases parts.len(),
{
    if parts.len() == 0 {
        0
    } else {
        total(parts.drop_last()) + parts.last().idxs.len()
    }
}

proof fn lemma_total_update(parts: Seq<PartitionView>, p: int, part: PartitionView)
    requires
        0 <= p < parts.len(),
        part.idxs.len() == parts[p].idxs.len() + 1,
    ensures
        total(parts.update(p, part)) == total(parts) + 1,
    decreases parts.len(),
{
    let after = parts.update(p, part);
    if p == parts.len() - 1 {
        assert(after.drop_last() =~= parts.drop_last());
    } else {
        lemma_total_update(parts.drop_last(), p, part);
        assert(after.drop_last() =~= parts.drop_last().update(p, part));
    }
}

proof fn lemma_total_insert(parts: Seq<PartitionView>, p: int, part: PartitionView)
    requires
        0 <= p <= parts.len(),
    ensures
        total(parts.insert(p, part)) == total(parts) + part.idxs.len(),
    decreases parts.len(),
{
    let after = parts.insert(p, part);
    if p == parts.len() {
        assert(after.drop_last() =~= parts);
    } else {
        lemma_total_insert(parts.drop_last(), p, part);
        assert(after.drop_last() =~= parts.drop_last().insert(p, part));
        assert(after.last() == parts.last());
    }
}

/// Partitions stay partitions when a record of another type follows.
proof fn lemma_partition_of_longer(
    types: Seq<Seq<char>>,
    next: Seq<char>,
    part: PartitionView,
)
    requires
        is_partition(types, part),
        part.gts_id != next,
    ensures
        is_partition(types.push(next), part),
{
    let longer = types.push(next);
    assert forall|a: int| 0 <= a < part.idxs.len() implies (#[trigger] part.idxs[a]) < longer.len()
        && longer[part.idxs[a] as int] == part.gts_id by {
        assert(longer[part.idxs[a] as int] == types[part.idxs[a] as int]);
    }
    assert forall|i: int|
        0 <= i < longer.len() && longer[i] == part.gts_id implies part.idxs.contains(
        #[trigger] (i as usize),
    ) by {
        assert(i < types.len());
        assert(types[i] == longer[i]);
    }
}

/// Adds the record behind the others to the partition of its type.
proof fn lemma_partition_grows(types: Seq<Seq<char>>, part: PartitionView, i: usize)
    requires
        is_partition(types, part),
        i == types.len(),
    ensures
        is_partition(
            types.push(part.gts_id),
            PartitionView { gts_id: part.gts_id, idxs: part.idxs.push(i) },
        ),
{
    let longer = types.push(part.gts_id);
    let grown = PartitionView { gts_id: part.gts_id, idxs: part.idxs.push(i) };
    assert forall|a: int| 0 <= a < grown.idxs.len() implies (#[trigger] grown.idxs[a])
        < longer.len() && longer[grown.idxs[a] as int] == grown.gts_id by {
        if a < part.idxs.len() {
            assert(grown.idxs[a] == part.idxs[a]);
        }
    }
    assert forall|a: int, b: int| 0 <= a < b < grown.idxs.len() implies (#[trigger] grown.idxs[a])
        < (#[trigger] grown.idxs[b]) by {
        assert(grown.idxs[a] == part.idxs[a]);
        if b < part.idxs.len() {
            assert(grown.idxs[b] == part.idxs[b]);
        }
    }
    assert forall|k: int|
        0 <= k < longer.len() && longer[k] == grown.gts_id implies grown.idxs.contains(
        #[trigger] (k as usize),
    ) by {
        if k < types.len() {
            assert(types[k] == longer[k]);
            assert(part.idxs.contains(k as usize));
            let a = choose|a: int| 0 <= a < part.idxs.len() && part.idxs[a] == k as usize;
            assert(grown.idxs[a] == k as usize);
        } else {
            assert(grown.idxs[part.idxs.len() as int] == i);
        }
    }
}

/// A record of a new type is a partition of its own.
proof fn lemma_partition_of_one(types: Seq<Seq<char>>, next: Seq<char>, i: usize)
    requires
        i == types.len(),
        forall|k: int| 0 <= k < types.len() ==> #[trigger] types[k] != next,
    ensures
        is_partition(types.push(next), PartitionView { gts_id: next, idxs: seq![i] }),
{
    let longer = types.push(next);
    let part = PartitionView { gts_id: next, idxs: seq![i] };
    assert forall|k: int|
        0 <= k < longer.len() && longer[k] == part.gts_id implies part.idxs.contains(
        #[trigger] (k as usize),
    ) by {
        if k < types.len() {
            assert(types[k] == longer[k]);
        }
        assert(part.idxs[0] == i);
    }
}

/// The position of the first partition that does not come before the type.
fn place_of(parts: &Vec<Partition>, gts_id: &str) -> (pos: usize)
    ensures
        pos <= parts@.len(),
        forall|p: int| 0 <= p < pos ==> text_before((#[trigger] parts@[p])@.gts_id, gts_id@),
        pos < parts@.len() ==> !text_before(parts@[pos as int]@.gts_id, gts_id@),
{
    let mut pos: usize = 0;
    while pos < parts.len() && comes_before(parts[pos].gts_id.as_str(), gts_id)
        invariant
            pos <= parts@.len(),
            forall|p: int| 0 <= p < pos ==> text_before((#[trigger] parts@[p])@.gts_id, gts_id@),
        decreases parts@.len() - pos,
    {
        pos = pos + 1;
    }
    pos
}

/// Splits a batch by usage type. The partitions come in the order of their
/// types, so that all callers take their locks in one order.
pub fn partition_batch(records: &Vec<UsageRecord>) -> (parts: Vec<Partition>)
    ensures
        is_partitioning(gts_ids(records@), partition_views(parts@)),
        total(partition_views(parts@)) == records@.len(),
{
    let ghost types = gts_ids(records@);
    let mut parts: Vec<Partition> = Vec::new();
    let mut i: usize = 0;
    while i < records.len()
        invariant
            i <= records@.len(),
            types == gts_ids(records@),
            is_partitioning(types.take(i as int), partition_views(parts@)),
            total(partition_views(parts@)) == i,
        decreases records@.len() - i,
    {
        let gts_id = gts_id_str(&records[i].gts_id);
        let ghost head = types.take(i as int);
        let ghost before = partition_views(parts@);
        assert(types[i as int] == gts_id@);
        assert(types.take(i + 1) =~= head.push(gts_id@));
        let pos = place_of(&parts, gts_id);
        if pos < parts.len() && same_text(parts[pos].gts_id.as_str(), gts_id) {
            let ghost old_part = parts@[pos as int]@;
            assert(before[pos as int] == old_part);
            parts[pos].idxs.push(i);
            proof {
                let after = partition_views(parts@);
                let grown = PartitionView { gts_id: old_part.gts_id, idxs: old_part.idxs.push(i) };
                assert(after =~= before.update(pos as int, grown));
                lemma_partition_grows(head, old_part, i);
                lemma_total_update(before, pos as int, grown);
                assert forall|p: int| 0 <= p < after.len() implies is_partition(
                    head.push(gts_id@),
                    #[trigger] after[p],
                ) by {
                    if p != pos {
                        lemma_types_differ(before, p, pos as int);
                        assert(is_partition(head, before[p]));
                        lemma_partition_of_longer(head, gts_id@, before[p]);
                    }
                }
                assert(is_sorted(after)) by {
                    assert forall|a: int, b: int| 0 <= a < b < after.len() implies text_before(
                        (#[trigger] after[a]).gts_id,
                        (#[trigger] after[b]).gts_id,
                    ) by {
                        assert(after[a].gts_id == before[a].gts_id);
                        assert(after[b].gts_id == before[b].gts_id);
                    }
                }
                assert forall|k: int| 0 <= k < head.push(gts_id@).len() implies has_type(
                    after,
                    #[trigger] head.push(gts_id@)[k],
                ) by {
                    if k < head.len() {
                        assert(has_type(before, head[k]));
                        let p = choose|p: int|
                            0 <= p < before.len() && (#[trigger] before[p]).gts_id == head[k];
                        assert(after[p].gts_id == head[k]);
                    } else {
                        assert(after[pos as int].gts_id == gts_id@);
                    }
                }
            }
        } else {
            let part = Partition { gts_id: gts_id.to_owned(), idxs: vec![i] };
            let ghost one = PartitionView { gts_id: gts_id@, idxs: seq![i] };
            assert(part@ =~= one);
            parts.insert(pos, part);
            proof {
                let after = partition_views(parts@);
                assert(after =~= before.insert(pos as int, one));
                lemma_total_insert(before, pos as int, one);
                assert forall|p: int| 0 <= p < before.len() implies if p < pos {
                    text_before((#[trigger] before[p]).gts_id, gts_id@)
                } else {
                    text_before(gts_id@, before[p].gts_id)
                } by {
                    if p >= pos {
                        lemma_text_before_is_strict_total_order(
                            before[pos as int].gts_id,
                            gts_id@,
                            gts_id@,
                        );
                        if p > pos {
                            lemma_text_before_is_strict_total_order(
                                gts_id@,
                                before[pos as int].gts_id,
                                before[p].gts_id,
                            );
                        }
                    }
                }
                assert forall|p: int| 0 <= p < before.len() implies (#[trigger] before[p]).gts_id
                    != gts_id@ by {
                    lemma_text_before_is_strict_total_order(gts_id@, gts_id@, gts_id@);
                }
                assert forall|k: int| 0 <= k < head.len() implies #[trigger] head[k] != gts_id@ by {
                    assert(has_type(before, head[k]));
                }
                lemma_partition_of_one(head, gts_id@, i);
                assert forall|p: int| 0 <= p < after.len() implies is_partition(
                    head.push(gts_id@),
                    #[trigger] after[p],
                ) by {
                    if p != pos {
                        let q = if p < pos { p } else { p - 1 };
                        assert(after[p] == before[q]);
                        assert(is_partition(head, before[q]));
                        lemma_partition_of_longer(head, gts_id@, before[q]);
                    }
                }
                assert forall|a: int, b: int| 0 <= a < b < after.len() implies text_before(
                    (#[trigger] after[a]).gts_id,
                    (#[trigger] after[b]).gts_id,
                ) by {
                    let qa = if a < pos { a } else { a - 1 };
                    let qb = if b < pos { b } else { b - 1 };
                    if a != pos {
                        assert(after[a] == before[qa]);
                    }
                    if b != pos {
                        assert(after[b] == before[qb]);
                    }
                }
                assert forall|k: int| 0 <= k < head.push(gts_id@).len() implies has_type(
                    after,
                    #[trigger] head.push(gts_id@)[k],
                ) by {
                    if k < head.len() {
                        assert(has_type(before, head[k]));
                        let q = choose|p: int|
                            0 <= p < before.len() && (#[trigger] before[p]).gts_id == head[k];
                        let p = if q < pos { q } else { q + 1 };
                        assert(after[p] == before[q]);
                    } else {
                        assert(after[pos as int].gts_id == gts_id@);
                    }
                }
            }
        }
        i = i + 1;
    }
    assert(types.take(i as int) =~= types);
    parts
}

proof fn lemma_types_differ(parts: Seq<PartitionView>, a: int, b: int)
    requires
        is_sorted(parts),
        0 <= a < parts.len(),
        0 <= b < parts.len(),
        a != b,
    ensures
        parts[a].gts_id != parts[b].gts_id,
{
    lemma_text_before_is_strict_total_order(parts[a].gts_id, parts[b].gts_id, parts[a].gts_id);
    if a < b {
        assert(text_before(parts[a].gts_id, parts[b].gts_id));
    } else {
        assert(text_before(parts[b].gts_id, parts[a].gts_id));
    }
}

/// No record is in two partitions.
pub proof fn lemma_partitions_are_disjoint(
    types: Seq<Seq<char>>,
    parts: Seq<PartitionView>,
    a: int,
    b: int,
    i: usize,
)
    requires
        is_partitioning(types, parts),
        0 <= a < parts.len(),
        0 <= b < parts.len(),
        parts[a].idxs.contains(i),
        parts[b].idxs.contains(i),
    ensures
        a == b,
{
    assert(is_partition(types, parts[a]) && is_partition(types, parts[b]));
    let x = choose|x: int| 0 <= x < parts[a].idxs.len() && parts[a].idxs[x] == i;
    let y = choose|y: int| 0 <= y < parts[b].idxs.len() && parts[b].idxs[y] == i;
    assert(types[i as int] == parts[a].gts_id && types[i as int] == parts[b].gts_id);
    if a != b {
        lemma_types_differ(parts, a, b);
    }
}

/// Every record is in some partition.
pub proof fn lemma_every_record_has_a_partition(
    types: Seq<Seq<char>>,
    parts: Seq<PartitionView>,
    i: usize,
) -> (p: int)
    requires
        is_partitioning(types, parts),
        i < types.len(),
    ensures
        0 <= p < parts.len(),
        parts[p].idxs.contains(i),
{
    assert(has_type(parts, types[i as int]));
    let p = choose|p: int|
        0 <= p < parts.len() && (#[trigger] parts[p]).gts_id == types[i as int];
    assert(is_partition(types, parts[p]));
    assert(parts[p].idxs.contains((i as int) as usize));
    p
}

/// Two batches take the locks that both need in the same order.
pub proof fn law_lock_order_is_global(
    ours: Seq<PartitionView>,
    theirs: Seq<PartitionView>,
    a: int,
    b: int,
    c: int,
    d: int,
)
    requires
        is_sorted(ours),
        is_sorted(theirs),
        0 <= a < b < ours.len(),
        0 <= c < theirs.len(),
        0 <= d < theirs.len(),
        ours[a].gts_id == theirs[c].gts_id,
        ours[b].gts_id == theirs[d].gts_id,
    ensures
        c < d,
{
    let first = ours[a].gts_id;
    let second = ours[b].gts_id;
    assert(text_before(first, second));
    lemma_text_before_is_strict_total_order(first, second, first);
    if d < c {
        assert(text_before(theirs[d].gts_id, theirs[c].gts_id));
    }
}

/// What to do next for a partition whose lock is held.
#[derive(Debug)]
pub enum PartitionStep {
    /// Ask whether the usage type is in the catalog.
    CheckCatalog,
    /// Look the keys of the records up.
    LookUp,
    /// Renew the lock; the rows are those found.
    Renew(Vec<UsageRecordRow>),
    /// Go on with the rows found, or with the failure of the partition.
    Done(Result<Vec<UsageRecordRow>, UsageCollectorPluginError>),
}

/// The view of a [`PartitionStep`].
pub enum PartitionStepView {
    CheckCatalog,
    LookUp,
    Renew(Seq<RowView>),
    Done(Result<Seq<RowView>, ErrorView>),
}

impl View for PartitionStep {
    type V = PartitionStepView;

    open spec fn view(&self) -> PartitionStepView {
        match *self {
            PartitionStep::CheckCatalog => PartitionStepView::CheckCatalog,
            PartitionStep::LookUp => PartitionStepView::LookUp,
            PartitionStep::Renew(rows) => PartitionStepView::Renew(row_views(rows@)),
            PartitionStep::Done(Ok(rows)) => PartitionStepView::Done(Ok(row_views(rows@))),
            PartitionStep::Done(Err(e)) => PartitionStepView::Done(Err(e@)),
        }
    }
}

/// What a step for a partition came to.
#[derive(Debug)]
pub enum PartitionEvent {
    /// It was done.
    Succeeded,
    /// Whether the usage type is in the catalog.
    Found(bool),
    /// The rows under the keys.
    Stored(Vec<UsageRecordRow>),
    /// It could not be done.
    Failed(UsageCollectorPluginError),
}

/// The view of a [`PartitionEvent`].
pub enum PartitionEventView {
    Succeeded,
    Found(bool),
    Stored(Seq<RowView>),
    Failed(ErrorView),
}

impl View for PartitionEvent {
    type V = PartitionEventView;

    open spec fn view(&self) -> PartitionEventView {
        match *self {
            PartitionEvent::Succeeded => PartitionEventView::Succeeded,
            PartitionEvent::Found(b) => PartitionEventView::Found(b),
            PartitionEvent::Stored(rows) => PartitionEventView::Stored(row_views(rows@)),
            PartitionEvent::Failed(e) => PartitionEventView::Failed(e@),
        }
    }
}

/// Whether the step can come to that.
pub open spec fn partition_fits(step: PartitionStepView, event: PartitionEventView) -> bool {
    match step {
        PartitionStepView::CheckCatalog => event is Found || event is Failed,
        PartitionStepView::LookUp => event is Stored || event is Failed,
        _ => event is Succeeded || event is Failed,
    }
}

/// The first step for a partition of the positions.
pub open spec fn partition_start_view(idxs: Seq<usize>) -> PartitionStepView {
    if idxs.len() == 0 {
        PartitionStepView::Done(
            Err(ErrorView::Internal("empty gts_id partition (invariant break)"@)),
        )
    } else {
        PartitionStepView::CheckCatalog
    }
}

/// The first step for a partition.
pub fn partition_start(idxs: &Vec<usize>) -> (step: PartitionStep)
    ensures
        step@ == partition_start_view(idxs@),
{
    if idxs.len() == 0 {
        PartitionStep::Done(
            Err(
                UsageCollectorPluginError::internal(
                    "empty gts_id partition (invariant break)".to_owned(),
                ),
            ),
        )
    } else {
        PartitionStep::CheckCatalog
    }
}

/// The step after one that came to `event`.
pub open spec fn partition_next_view(
    gts_id: Seq<char>,
    step: PartitionStepView,
    event: PartitionEventView,
) -> PartitionStepView {
    match (step, event) {
        (PartitionStepView::Done(_), _) => step,
        (_, PartitionEventView::Failed(e)) => PartitionStepView::Done(Err(e)),
        (PartitionStepView::CheckCatalog, PartitionEventView::Found(found)) => if found {
            PartitionStepView::LookUp
        } else {
            PartitionStepView::Done(Err(ErrorView::UsageTypeNotFound { gts_id }))
        },
        (PartitionStepView::LookUp, PartitionEventView::Stored(rows)) => PartitionStepView::Renew(
            rows,
        ),
        (PartitionStepView::Renew(rows), _) => PartitionStepView::Done(Ok(rows)),
        _ => step,
    }
}

/// The step after one that came to `event`: the catalog, the keys, the lock.
pub fn partition_next(gts_id: &UsageTypeGtsId, step: PartitionStep, event: PartitionEvent) -> (next:
    PartitionStep)
    requires
        partition_fits(step@, event@),
    ensures
        next@ == partition_next_view(gts_id@, step@, event@),
{
    match (step, event) {
        (PartitionStep::Done(result), _) => PartitionStep::Done(result),
        (_, PartitionEvent::Failed(e)) => PartitionStep::Done(Err(e)),
        (PartitionStep::CheckCatalog, PartitionEvent::Found(found)) => if found {
            PartitionStep::LookUp
        } else {
            PartitionStep::Done(
                Err(UsageCollectorPluginError::UsageTypeNotFound { gts_id: gts_id.clone() }),
            )
        },
        (PartitionStep::LookUp, PartitionEvent::Stored(rows)) => PartitionStep::Renew(rows),
        (PartitionStep::Renew(rows), _) => PartitionStep::Done(Ok(rows)),
        (other, _) => other,
    }
}

/// The steps and what they came to are a run for a partition, from its first
/// step on.
pub open spec fn is_partition_run(
    gts_id: Seq<char>,
    idxs: Seq<usize>,
    steps: Seq<PartitionStepView>,
    events: Seq<PartitionEventView>,
) -> bool {
    &&& steps.len() == events.len() + 1
    &&& steps[0] == partition_start_view(idxs)
    &&& forall|i: int|
        #![trigger steps[i]]
        #![trigger events[i]]
        0 <= i < events.len() ==> partition_fits(steps[i], events[i]) && steps[i + 1]
            == partition_next_view(gts_id, steps[i], events[i])
}

/// A partition goes on with exactly the rows that its lookup returned, each of
/// them and in their order, and only after its usage type was found in the
/// catalog and its lock was renewed behind the lookup.
pub proof fn law_partition_hands_on_every_stored_row(
    gts_id: Seq<char>,
    idxs: Seq<usize>,
    steps: Seq<PartitionStepView>,
    events: Seq<PartitionEventView>,
    n: int,
    rows: Seq<RowView>,
)
    requires
        is_partition_run(gts_id, idxs, steps, events),
        0 <= n < steps.len(),
        steps[n] == PartitionStepView::Done(Ok::<Seq<RowView>, ErrorView>(rows)),
    ensures
        n >= 3,
        events[0] == PartitionEventView::Found(true),
        events[1] == PartitionEventView::Stored(rows),
        events[2] is Succeeded,
    decreases n,
{
    assert(n > 0);
    assert(partition_fits(steps[n - 1], events[n - 1]));
    if steps[n - 1] is Done {
        law_partition_hands_on_every_stored_row(gts_id, idxs, steps, events, n - 1, rows);
    } else {
        assert(steps[n - 1] is Renew);
        assert(n - 1 > 0);
        assert(partition_fits(steps[n - 2], events[n - 2]));
        assert(steps[n - 2] is LookUp);
        assert(n - 2 > 0);
        assert(partition_fits(steps[n - 3], events[n - 3]));
        assert(steps[n - 3] is CheckCatalog);
        if n - 3 > 0 {
            assert(partition_fits(steps[n - 4], events[n - 4]));
        }
    }
}

/// A partition whose usage type is found, whose keys are looked up and whose lock
/// is renewed always goes on, and with the rows that were looked up.
pub proof fn law_partition_goes_on_where_nothing_fails(
    gts_id: Seq<char>,
    idxs: Seq<usize>,
    steps: Seq<PartitionStepView>,
    events: Seq<PartitionEventView>,
    rows: Seq<RowView>,
)
    requires
        is_partition_run(gts_id, idxs, steps, events),
        idxs.len() > 0,
        events.len() >= 3,
        events[0] == PartitionEventView::Found(true),
        events[1] == PartitionEventView::Stored(rows),
        events[2] is Succeeded,
    ensures
        steps[0] is CheckCatalog,
        steps[1] is LookUp,
        steps[2] == PartitionStepView::Renew(rows),
        steps[3] == PartitionStepView::Done(Ok::<Seq<RowView>, ErrorView>(rows)),
{
    assert(partition_fits(steps[0], events[0]));
    assert(partition_fits(steps[1], events[1]));
    assert(partition_fits(steps[2], events[2]));
}

/// A partition fails with what its first failing step failed with; with an
/// unknown usage type where the catalog has none of that name; or because it is
/// empty. It fails at once, and stays failed.
pub proof fn law_partition_fails_with_its_first_failure(
    gts_id: Seq<char>,
    idxs: Seq<usize>,
    steps: Seq<PartitionStepView>,
    events: Seq<PartitionEventView>,
    n: int,
    e: ErrorView,
)
    requires
        is_partition_run(gts_id, idxs, steps, events),
        0 <= n < steps.len(),
    ensures
        steps[n] == PartitionStepView::Done(Err::<Seq<RowView>, ErrorView>(e)) ==> {
            ||| idxs.len() == 0 && e == ErrorView::Internal(
                "empty gts_id partition (invariant break)"@,
            )
            ||| idxs.len() > 0 && n > 0 && events[0] == PartitionEventView::Found(false) && e
                == (ErrorView::UsageTypeNotFound { gts_id })
            ||| idxs.len() > 0 && exists|j: int|
                0 <= j < n && #[trigger] events[j] == PartitionEventView::Failed(e) && forall|
                    i: int,
                |
                    0 <= i < j ==> !((#[trigger] events[i]) is Failed)
        },
        n < events.len() && events[n] == PartitionEventView::Failed(e) && !(steps[n] is Done)
            ==> steps[n + 1] == PartitionStepView::Done(Err::<Seq<RowView>, ErrorView>(e)),
        n < events.len() && steps[n] is CheckCatalog && events[n] == PartitionEventView::Found(
            false,
        ) ==> steps[n + 1] == PartitionStepView::Done(
            Err::<Seq<RowView>, ErrorView>(ErrorView::UsageTypeNotFound { gts_id }),
        ),
        n < events.len() && steps[n] is Done ==> steps[n + 1] == steps[n],
    decreases n,
{
    if n < events.len() {
        assert(partition_fits(steps[n], events[n]));
    }
    if n > 0 && steps[n] == PartitionStepView::Done(Err::<Seq<RowView>, ErrorView>(e)) {
        assert(partition_fits(steps[n - 1], events[n - 1]));
        if steps[n - 1] is Done {
            law_partition_fails_with_its_first_failure(gts_id, idxs, steps, events, n - 1, e);
        } else {
            lemma_no_failure_before(gts_id, idxs, steps, events, n - 1);
            if steps[n - 1] is CheckCatalog && n - 1 > 0 {
                assert(partition_fits(steps[n - 2], events[n - 2]));
            }
        }
    }
}

proof fn lemma_no_failure_before(
    gts_id: Seq<char>,
    idxs: Seq<usize>,
    steps: Seq<PartitionStepView>,
    events: Seq<PartitionEventView>,
    n: int,
)
    requires
        is_partition_run(gts_id, idxs, steps, events),
        0 <= n < steps.len(),
        !(steps[n] is Done),
    ensures
        idxs.len() > 0,
        forall|i: int| 0 <= i < n ==> !((#[trigger] events[i]) is Failed),
    decreases n,
{
    if n > 0 {
        assert(partition_fits(steps[n - 1], events[n - 1]));
        lemma_no_failure_before(gts_id, idxs, steps, events, n - 1);
    }
}

/// Every record of a batch is in exactly one partition, together with all records
/// of its usage type and with no other, in the order of the batch; and the
/// partitions stand in the order of their usage types.
pub proof fn law_batch_is_split_by_usage_type(
    types: Seq<Seq<char>>,
    parts: Seq<PartitionView>,
    i: int,
)
    requires
        is_partitioning(types, parts),
        0 <= i < types.len() <= usize::MAX,
    ensures
        exists|p: int|
            0 <= p < parts.len() && (#[trigger] parts[p]).gts_id == types[i] && (forall|k: int|
                0 <= k < types.len() ==> (#[trigger] types[k] == types[i] <==> exists|a: int|
                    0 <= a < parts[p].idxs.len() && #[trigger] parts[p].idxs[a] == k)) && (forall|
                a: int,
                b: int,
            |
                0 <= a < b < parts[p].idxs.len() ==> (#[trigger] parts[p].idxs[a]) < (
                #[trigger] parts[p].idxs[b])) && (forall|q: int|
                0 <= q < parts.len() && q != p ==> (#[trigger] parts[q]).gts_id != types[i]),
        forall|p: int, q: int|
            0 <= p < q < parts.len() ==> (#[trigger] parts[p]).gts_id != (
            #[trigger] parts[q]).gts_id && !text_before(parts[q].gts_id, parts[p].gts_id),
        forall|p: int| 0 <= p < parts.len() ==> (#[trigger] parts[p]).idxs.len() > 0,
{
    assert(has_type(parts, types[i]));
    let p = choose|p: int| 0 <= p < parts.len() && (#[trigger] parts[p]).gts_id == types[i];
    assert(is_partition(types, parts[p]));
    assert forall|k: int| 0 <= k < types.len() implies (#[trigger] types[k] == types[i]
        <==> exists|a: int| 0 <= a < parts[p].idxs.len() && #[trigger] parts[p].idxs[a] == k) by {
        if types[k] == types[i] {
            assert(parts[p].idxs.contains(k as usize));
            let a = choose|a: int| 0 <= a < parts[p].idxs.len() && parts[p].idxs[a] == k as usize;
            assert(parts[p].idxs[a] == k);
        }
        if exists|a: int| 0 <= a < parts[p].idxs.len() && #[trigger] parts[p].idxs[a] == k {
            let a = choose|a: int| 0 <= a < parts[p].idxs.len() && #[trigger] parts[p].idxs[a] == k;
            assert(types[parts[p].idxs[a] as int] == parts[p].gts_id);
        }
    }
    assert forall|p: int, q: int| 0 <= p < q < parts.len() implies (#[trigger] parts[p]).gts_id != (
    #[trigger] parts[q]).gts_id && !text_before(parts[q].gts_id, parts[p].gts_id) by {
        lemma_types_differ(parts, p, q);
        lemma_text_before_is_strict_total_order(parts[p].gts_id, parts[q].gts_id, parts[p].gts_id);
    }
    assert forall|q: int| 0 <= q < parts.len() && q != p implies (#[trigger] parts[q]).gts_id
        != types[i] by {
        lemma_types_differ(parts, p, q);
    }
    assert forall|p: int| 0 <= p < parts.len() implies (#[trigger] parts[p]).idxs.len() > 0 by {
        assert(is_partition(types, parts[p]));
    }
}

/// Each partition, and the usage type of each record, is seen in its place.
pub proof fn law_partitions_are_seen_one_by_one(
    parts: Seq<Partition>,
    records: Seq<UsageRecord>,
    i: int,
)
    ensures
        partition_views(parts).len() == parts.len(),
        0 <= i < parts.len() ==> partition_views(parts)[i].gts_id == parts[i].gts_id@
            && partition_views(parts)[i].idxs == parts[i].idxs@,
        gts_ids(records).len() == records.len(),
        0 <= i < records.len() ==> gts_ids(records)[i] == records[i]@.gts_id,
{
}

} // verus!
