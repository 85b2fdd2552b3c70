//! Creating one record: from step to step, by what each step came to.
//!
//! The caller performs a step, reports what it came to, and is told the next
//! one.
use crate::entity::{RowView, UsageRecordRow, UsageRecordStatusCode};
use crate::mapper::{
    current_merge_version, is_micros_of_an_instant, merge_version, model_of_row,
    record_row_to_model, record_to_row, row_of_record, row_outcome, same_canonical_fields,
};
use crate::model::{
    answers_all, outcome_view, rejects, Candidate, CandidateView, ErrorView,
    UsageCollectorPluginError, UsageRecord, UsageRecordStatus, UsageRecordView,
};
use crate::record_store::dedup::{hit_outcome, resolve_dedup_hit};
use crate::values::in_instant_range;
use vstd::arithmetic::power::pow;
use vstd::prelude::*;
use vstd::string::*;

verus! {

/// What to do next.
#[derive(Debug)]
pub enum CreateStep {
    /// Take the lock of the usage type.
    Lock,
    /// Ask whether the usage type is in the catalog.
    CheckCatalog,
    /// Look the record's key up.
    LookUp,
    /// Renew the lock.
    Renew,
    /// Write the row.
    Insert(UsageRecordRow),
    /// Release the lock.
    Release(Result<UsageRecord, UsageCollectorPluginError>),
    /// Answer.
    Done(Result<UsageRecord, UsageCollectorPluginError>),
}

/// The view of a [`CreateStep`].
pub enum CreateStepView {
    Lock,
    CheckCatalog,
    LookUp,
    Renew,
    Insert(RowView),
    Release(Result<UsageRecordView, ErrorView>),
    Done(Result<UsageRecordView, ErrorView>),
}

impl View for CreateStep {
    type V = CreateStepView;

    open spec fn view(&self) -> CreateStepView {
        match *self {
            CreateStep::Lock => CreateStepView::Lock,
            CreateStep::CheckCatalog => CreateStepView::CheckCatalog,
            CreateStep::LookUp => CreateStepView::LookUp,
            CreateStep::Renew => CreateStepView::Renew,
            CreateStep::Insert(row) => CreateStepView::Insert(row@),
            CreateStep::Release(r) => CreateStepView::Release(outcome_view(r)),
            CreateStep::Done(r) => CreateStepView::Done(outcome_view(r)),
        }
    }
}

/// What a step came to.
#[derive(Debug)]
pub enum CreateEvent {
    /// It was done.
    Succeeded,
    /// Whether the usage type is in the catalog.
    Found(bool),
    /// The row under the record's key, if there is one.
    Stored(Option<UsageRecordRow>),
    /// It could not be done.
    Failed(UsageCollectorPluginError),
}

/// The view of a [`CreateEvent`].
pub enum CreateEventView {
    Succeeded,
    Found(bool),
    Stored(Option<RowView>),
    Failed(ErrorView),
}

impl View for CreateEvent {
    type V = CreateEventView;

    open spec fn view(&self) -> CreateEventView {
        match *self {
            CreateEvent::Succeeded => CreateEventView::Succeeded,
            CreateEvent::Found(b) => CreateEventView::Found(b),
            CreateEvent::Stored(row) => CreateEventView::Stored(
                match row {
                    Some(r) => Some(r@),
                    None => None,
                },
            ),
            CreateEvent::Failed(e) => CreateEventView::Failed(e@),
        }
    }
}

/// Whether the step can come to that.
pub open spec fn fits(step: CreateStepView, event: CreateEventView) -> bool {
    match step {
        CreateStepView::CheckCatalog => event is Found || event is Failed,
        CreateStepView::LookUp => event is Stored || event is Failed,
        _ => event is Succeeded || event is Failed,
    }
}

/// The row is that of the record, written at some instant and with the merge
/// version of some instant.
pub open spec fn is_new_row(record: UsageRecordView, row: RowView) -> bool {
    &&& row == row_of_record(record, row.version, row.ingested_at)
    &&& is_micros_of_an_instant(row.ingested_at)
    &&& exists|now: int| in_instant_range(now) && row.version == #[trigger] merge_version(now)
}

/// The steps that may follow.
pub open spec fn create_moves<V: Fn(Candidate) -> Result<(), String>>(
    validate: V,
    record: UsageRecordView,
    step: CreateStepView,
    event: CreateEventView,
    next: CreateStepView,
) -> bool {
    match (step, event) {
        (CreateStepView::Done(_), _) => next == step,
        (CreateStepView::Lock, CreateEventView::Failed(e)) => next == CreateStepView::Done(Err(e)),
        (CreateStepView::Lock, _) => next == CreateStepView::CheckCatalog,
        (CreateStepView::Release(result), CreateEventView::Failed(e)) => next
            == CreateStepView::Done(
            if result is Ok {
                Err(e)
            } else {
                result
            },
        ),
        (CreateStepView::Release(result), _) => next == CreateStepView::Done(result),
        (_, CreateEventView::Failed(e)) => next == CreateStepView::Release(Err(e)),
        (CreateStepView::CheckCatalog, CreateEventView::Found(found)) => next == (if found {
            CreateStepView::LookUp
        } else {
            CreateStepView::Release(Err(ErrorView::UsageTypeNotFound { gts_id: record.gts_id }))
        }),
        (CreateStepView::LookUp, CreateEventView::Stored(Some(row))) => next matches
            CreateStepView::Release(outcome) && hit_outcome(validate, row, record, outcome),
        (CreateStepView::LookUp, CreateEventView::Stored(None)) => next == CreateStepView::Renew,
        (CreateStepView::Renew, _) => next matches CreateStepView::Insert(row) && is_new_row(
            record,
            row,
        ),
        (CreateStepView::Insert(row), _) => next matches CreateStepView::Release(outcome)
            && row_outcome(validate, row, outcome),
        _ => true,
    }
}

/// The step after one that came to `event`.
pub fn create_next<V: Fn(Candidate) -> Result<(), String>>(
    record: &UsageRecord,
    step: CreateStep,
    event: CreateEvent,
    validate: &V,
) -> (next: CreateStep)
    requires
        answers_all(*validate),
        fits(step@, event@),
    ensures
        create_moves(*validate, record@, step@, event@, next@),
{
    match (step, event) {
        (CreateStep::Done(result), _) => CreateStep::Done(result),
        (CreateStep::Lock, CreateEvent::Failed(e)) => CreateStep::Done(Err(e)),
        (CreateStep::Lock, _) => CreateStep::CheckCatalog,
        (CreateStep::Release(result), CreateEvent::Failed(e)) => match result {
            Ok(_) => CreateStep::Done(Err(e)),
            Err(first) => CreateStep::Done(Err(first)),
        },
        (CreateStep::Release(result), _) => CreateStep::Done(result),
        (_, CreateEvent::Failed(e)) => CreateStep::Release(Err(e)),
        (CreateStep::CheckCatalog, CreateEvent::Found(found)) => if found {
            CreateStep::LookUp
        } else {
            CreateStep::Release(
                Err(
                    UsageCollectorPluginError::UsageTypeNotFound {
                        gts_id: record.gts_id.clone(),
                    },
                ),
            )
        },
        (CreateStep::LookUp, CreateEvent::Stored(Some(row))) => CreateStep::Release(
            resolve_dedup_hit(&row, record, validate),
        ),
        (CreateStep::LookUp, CreateEvent::Stored(None)) => CreateStep::Renew,
        (CreateStep::Renew, _) => {
            let version = current_merge_version();
            CreateStep::Insert(record_to_row(record, version))
        },
        (CreateStep::Insert(row), _) => CreateStep::Release(record_row_to_model(row, validate)),
        (other, _) => other,
    }
}

/// The steps and what they came to are a run from the start.
pub open spec fn is_create_run<V: Fn(Candidate) -> Result<(), String>>(
    validate: V,
    record: UsageRecordView,
    steps: Seq<CreateStepView>,
    events: Seq<CreateEventView>,
) -> bool {
    &&& steps.len() == events.len() + 1
    &&& steps[0] == CreateStepView::Lock
    &&& forall|i: int|
        #![trigger steps[i]]
        #![trigger events[i]]
        0 <= i < events.len() ==> fits(steps[i], events[i]) && create_moves(
            validate,
            record,
            steps[i],
            events[i],
            steps[i + 1],
        )
}

/// A row is written only after the lock was taken, the usage type was found, no
/// row was found under the record's key, and the lock was renewed; and it is the
/// row of the record.
pub proof fn law_create_writes_only_a_new_key_under_its_lock<
    V: Fn(Candidate) -> Result<(), String>,
>(
    validate: V,
    record: UsageRecordView,
    steps: Seq<CreateStepView>,
    events: Seq<CreateEventView>,
    n: int,
)
    requires
        is_create_run(validate, record, steps, events),
        0 <= n < steps.len(),
        steps[n] is Insert,
    ensures
        n == 4,
        events[0] is Succeeded,
        events[1] == CreateEventView::Found(true),
        events[2] == CreateEventView::Stored(None),
        events[3] is Succeeded,
        is_new_row(record, steps[n]->Insert_0),
{
    assert(fits(steps[n - 1], events[n - 1]));
    assert(steps[n - 1] is Renew);
    assert(fits(steps[n - 2], events[n - 2]));
    assert(steps[n - 2] is LookUp);
    assert(fits(steps[n - 3], events[n - 3]));
    assert(steps[n - 3] is CheckCatalog);
    assert(fits(steps[n - 4], events[n - 4]));
    assert(steps[n - 4] is Lock);
    lemma_lock_is_first(validate, record, steps, events, n - 4);
}

proof fn lemma_lock_is_first<V: Fn(Candidate) -> Result<(), String>>(
    validate: V,
    record: UsageRecordView,
    steps: Seq<CreateStepView>,
    events: Seq<CreateEventView>,
    n: int,
)
    requires
        is_create_run(validate, record, steps, events),
        0 <= n < steps.len(),
        steps[n] is Lock,
    ensures
        n == 0,
{
    if n > 0 {
        assert(fits(steps[n - 1], events[n - 1]));
    }
}

/// A create that took its lock answers only after it set out to release it.
pub proof fn law_create_releases_its_lock<V: Fn(Candidate) -> Result<(), String>>(
    validate: V,
    record: UsageRecordView,
    steps: Seq<CreateStepView>,
    events: Seq<CreateEventView>,
    n: int,
)
    requires
        is_create_run(validate, record, steps, events),
        0 <= n < steps.len(),
        steps[n] is Done,
        events[0] is Succeeded,
    ensures
        exists|j: int| 0 <= j < n && (#[trigger] steps[j]) is Release,
    decreases n,
{
    assert(n > 0);
    assert(fits(steps[n - 1], events[n - 1]));
    if steps[n - 1] is Done {
        law_create_releases_its_lock(validate, record, steps, events, n - 1);
    } else if steps[n - 1] is Lock {
        lemma_lock_is_first(validate, record, steps, events, n - 1);
    } else {
        assert(steps[n - 1] is Release);
    }
}

/// The row was found under the record's key, active and equal in every canonical
/// field.
pub open spec fn absorbed_at(
    record: UsageRecordView,
    steps: Seq<CreateStepView>,
    events: Seq<CreateEventView>,
    j: int,
    m: UsageRecordView,
) -> bool {
    &&& 0 <= j < events.len()
    &&& steps[j] is LookUp
    &&& events[j] matches CreateEventView::Stored(Some(row)) && row.status
        == UsageRecordStatusCode::Active && same_canonical_fields(row, record) && m == model_of_row(
        row,
    )
}

/// The row was written.
pub open spec fn written_at(
    record: UsageRecordView,
    steps: Seq<CreateStepView>,
    events: Seq<CreateEventView>,
    j: int,
    m: UsageRecordView,
) -> bool {
    &&& 0 <= j < events.len()
    &&& events[j] is Succeeded
    &&& steps[j] matches CreateStepView::Insert(row) && is_new_row(record, row) && m
        == model_of_row(row)
}

/// The record was found stored or was written.
pub open spec fn stored_at(
    record: UsageRecordView,
    steps: Seq<CreateStepView>,
    events: Seq<CreateEventView>,
    j: int,
    m: UsageRecordView,
) -> bool {
    absorbed_at(record, steps, events, j, m) || written_at(record, steps, events, j, m)
}

/// A record that a create answers is stored: it was written, or it was found
/// active and equal in every canonical field.
pub proof fn law_created_record_is_stored<V: Fn(Candidate) -> Result<(), String>>(
    validate: V,
    record: UsageRecordView,
    steps: Seq<CreateStepView>,
    events: Seq<CreateEventView>,
    n: int,
    m: UsageRecordView,
)
    requires
        is_create_run(validate, record, steps, events),
        0 <= n < steps.len(),
        steps[n] == CreateStepView::Done(Ok(m)) || steps[n] == CreateStepView::Release(Ok(m)),
    ensures
        exists|j: int| 0 <= j < n && #[trigger] stored_at(record, steps, events, j, m),
    decreases n,
{
    assert(n > 0);
    assert(fits(steps[n - 1], events[n - 1]));
    match steps[n - 1] {
        CreateStepView::Done(_) => {
            law_created_record_is_stored(validate, record, steps, events, n - 1, m);
        },
        CreateStepView::Release(_) => {
            law_created_record_is_stored(validate, record, steps, events, n - 1, m);
        },
        CreateStepView::LookUp => {
            assert(stored_at(record, steps, events, n - 1, m));
        },
        CreateStepView::Insert(_) => {
            assert(fits(steps[n - 2], events[n - 2]));
            assert(stored_at(record, steps, events, n - 1, m));
        },
        _ => {
            assert(false);
        },
    }
}

/// What follows each step of a create, by what the step came to: it goes on while
/// nothing fails; what fails while the lock is held is the answer, after the lock
/// is released; and a lock that cannot be released fails a success, but hides no
/// earlier failure.
pub proof fn law_create_goes_step_by_step<V: Fn(Candidate) -> Result<(), String>>(
    validate: V,
    record: UsageRecordView,
    step: CreateStepView,
    event: CreateEventView,
    next: CreateStepView,
)
    requires
        fits(step, event),
        create_moves(validate, record, step, event, next),
    ensures
        step is Lock && event is Succeeded ==> next is CheckCatalog,
        step is CheckCatalog && event == CreateEventView::Found(true) ==> next is LookUp,
        step is LookUp && event == CreateEventView::Stored(None) ==> next is Renew,
        step is Renew && event is Succeeded ==> next is Insert,
        step is Insert && event is Succeeded ==> next is Release,
        step is LookUp && event is Stored && event != CreateEventView::Stored(None) ==> next
            is Release,
        step is CheckCatalog && event == CreateEventView::Found(false) ==> next
            == CreateStepView::Release(
            Err::<UsageRecordView, ErrorView>(
                ErrorView::UsageTypeNotFound { gts_id: record.gts_id },
            ),
        ),
        step is Lock ==> (event matches CreateEventView::Failed(e) ==> next == CreateStepView::Done(
            Err::<UsageRecordView, ErrorView>(e),
        )),
        step is CheckCatalog || step is LookUp || step is Renew || step is Insert ==> (event matches
            CreateEventView::Failed(e) ==> next == CreateStepView::Release(
            Err::<UsageRecordView, ErrorView>(e),
        )),
        step matches CreateStepView::Release(answer) ==> event is Succeeded ==> next
            == CreateStepView::Done(answer),
        step matches CreateStepView::Release(Ok(_)) ==> (event matches CreateEventView::Failed(e)
            ==> next == CreateStepView::Done(Err::<UsageRecordView, ErrorView>(e))),
        step matches CreateStepView::Release(Err(first)) ==> next == CreateStepView::Done(
            Err::<UsageRecordView, ErrorView>(first),
        ),
        step is Done ==> next == step,
{
}

/// The row that a create writes holds all of the record, is active, and has the
/// time of some instant for its version: microseconds since the epoch.
pub proof fn law_created_row_holds_the_record<V: Fn(Candidate) -> Result<(), String>>(
    validate: V,
    record: UsageRecordView,
    event: CreateEventView,
    row: RowView,
)
    requires
        fits(CreateStepView::Renew, event),
        create_moves(
            validate,
            record,
            CreateStepView::Renew,
            event,
            CreateStepView::Insert(row),
        ),
        in_instant_range(record.created_at),
    ensures
        event is Succeeded,
        row.id == record.id,
        row.tenant_id == record.tenant_id,
        row.gts_id == record.gts_id,
        row.value == record.value,
        row.created_at == record.created_at / 1000,
        row.resource_id == record.resource_ref.id,
        row.resource_type == record.resource_ref.kind,
        record.subject_ref is None ==> row.subject_id is None && row.subject_type is None,
        record.subject_ref matches Some(s) ==> row.subject_id == Some(s.id) && row.subject_type
            == s.kind,
        row.idempotency_key == record.idempotency_key,
        row.corrects_id == record.corrects_id,
        row.metadata == record.metadata,
        row.status == UsageRecordStatusCode::Active,
        exists|now: int| #[trigger]
            in_instant_range(now) && row.version == (now / 1000) % 0x1_0000_0000_0000_0000,
        exists|now: int| #[trigger] in_instant_range(now) && row.ingested_at == now / 1000,
{
    let now = choose|now: int| in_instant_range(now) && row.version == #[trigger] merge_version(now);
    assert(in_instant_range(now) && row.version == (now / 1000) % 0x1_0000_0000_0000_0000);
}

/// What a create answers a success with is what was sent: active, and the same in
/// identifier, value as a number, resource, subject, corrected record and
/// metadata, whether it was found stored or was written.
pub proof fn law_created_record_is_what_was_sent<V: Fn(Candidate) -> Result<(), String>>(
    validate: V,
    record: UsageRecordView,
    steps: Seq<CreateStepView>,
    events: Seq<CreateEventView>,
    n: int,
    m: UsageRecordView,
)
    requires
        is_create_run(validate, record, steps, events),
        0 <= n < steps.len(),
        steps[n] == CreateStepView::Done(Ok::<UsageRecordView, ErrorView>(m)),
    ensures
        m.status == UsageRecordStatus::Active,
        m.id == record.id,
        m.value.mantissa() * pow(10, record.value.scale) == record.value.mantissa() * pow(
            10,
            m.value.scale,
        ),
        m.resource_ref.id == record.resource_ref.id,
        m.resource_ref.kind == record.resource_ref.kind,
        m.subject_ref == record.subject_ref,
        m.corrects_id == record.corrects_id,
        m.metadata == record.metadata,
        exists|j: int|
            0 <= j < n && match #[trigger] steps[j] {
                CreateStepView::LookUp => events[j] matches CreateEventView::Stored(Some(row))
                    && row.status == UsageRecordStatusCode::Active && row.id == m.id
                    && row.tenant_id == m.tenant_id && row.gts_id == m.gts_id && row.created_at
                    * 1000 == m.created_at && row.idempotency_key == m.idempotency_key,
                CreateStepView::Insert(row) => events[j] is Succeeded && row.status
                    == UsageRecordStatusCode::Active && m.tenant_id == record.tenant_id && m.gts_id
                    == record.gts_id && m.idempotency_key == record.idempotency_key,
                _ => false,
            },
{
    law_created_record_is_stored(validate, record, steps, events, n, m);
    let j = choose|j: int| 0 <= j < n && #[trigger] stored_at(record, steps, events, j, m);
    assert(fits(steps[j], events[j]));
    assert(stored_at(record, steps, events, j, m));
}

/// A record that was created once is absorbed when it is sent again: where the
/// lookup of the second create finds the row that the first wrote, the second
/// answers with a success and writes nothing.
pub proof fn law_create_is_idempotent<V: Fn(Candidate) -> Result<(), String>>(
    validate: V,
    record: UsageRecordView,
    steps: Seq<CreateStepView>,
    events: Seq<CreateEventView>,
    j: int,
    row: RowView,
    again: Seq<CreateStepView>,
    later: Seq<CreateEventView>,
    k: int,
)
    requires
        is_create_run(validate, record, steps, events),
        0 <= j < steps.len(),
        steps[j] == CreateStepView::Insert(row),
        is_create_run(validate, record, again, later),
        0 <= k < later.len(),
        again[k] is LookUp,
        later[k] == CreateEventView::Stored(Some(row)),
        forall|c: CandidateView, why: Seq<char>| !#[trigger] rejects(validate, c, why),
        in_instant_range(record.created_at),
    ensures
        again[k + 1] matches CreateStepView::Release(Ok(m)) && m.id == record.id && m.tenant_id
            == record.tenant_id && m.gts_id == record.gts_id && m.value == record.value
            && m.created_at == record.created_at / 1000 * 1000 && m.resource_ref
            == record.resource_ref && m.subject_ref == record.subject_ref && m.idempotency_key
            == record.idempotency_key && m.corrects_id == record.corrects_id && m.metadata
            == record.metadata && m.status == UsageRecordStatus::Active,
        forall|x: int| 0 <= x < again.len() ==> !((#[trigger] again[x]) is Insert),
{
    law_create_writes_only_a_new_key_under_its_lock(validate, record, steps, events, j);
    assert(fits(again[k], later[k]));
    lemma_lookup_is_third(validate, record, again, later, k);
    assert forall|x: int| 0 <= x < again.len() implies !((#[trigger] again[x]) is Insert) by {
        if again[x] is Insert {
            law_create_writes_only_a_new_key_under_its_lock(validate, record, again, later, x);
        }
    }
}

proof fn lemma_lookup_is_third<V: Fn(Candidate) -> Result<(), String>>(
    validate: V,
    record: UsageRecordView,
    steps: Seq<CreateStepView>,
    events: Seq<CreateEventView>,
    n: int,
)
    requires
        is_create_run(validate, record, steps, events),
        0 <= n < steps.len(),
        steps[n] is LookUp,
    ensures
        n == 2,
{
    assert(fits(steps[n - 1], events[n - 1]));
    assert(steps[n - 1] is CheckCatalog);
    assert(fits(steps[n - 2], events[n - 2]));
    assert(steps[n - 2] is Lock);
    lemma_lock_is_first(validate, record, steps, events, n - 2);
}

/// A create whose key is bound to a deactivated row, or to one for another
/// resource, another subject, another number, another correction or other
/// metadata, is refused with a conflict and writes nothing.
pub proof fn law_create_refuses_another_record_under_the_key<
    V: Fn(Candidate) -> Result<(), String>,
>(
    validate: V,
    record: UsageRecordView,
    steps: Seq<CreateStepView>,
    events: Seq<CreateEventView>,
    k: int,
    row: RowView,
)
    requires
        is_create_run(validate, record, steps, events),
        0 <= k < events.len(),
        steps[k] is LookUp,
        events[k] == CreateEventView::Stored(Some(row)),
        forall|c: CandidateView, why: Seq<char>| !#[trigger] rejects(validate, c, why),
        row.status == UsageRecordStatusCode::Inactive || row.id != record.id
            || row.value.mantissa() * pow(10, record.value.scale) != record.value.mantissa() * pow(
            10,
            row.value.scale,
        ) || row.resource_id != record.resource_ref.id || row.resource_type
            != record.resource_ref.kind || (record.subject_ref is None && row.subject_id is Some)
            || (record.subject_ref is Some && (row.subject_id != Some(record.subject_ref->0.id)
            || row.subject_type != record.subject_ref->0.kind)) || row.corrects_id
            != record.corrects_id || row.metadata != record.metadata,
    ensures
        steps[k + 1] == CreateStepView::Release(
            Err::<UsageRecordView, ErrorView>(
                ErrorView::IdempotencyConflict {
                    idempotency_key: record.idempotency_key,
                    existing_id: row.id,
                },
            ),
        ),
        forall|x: int| 0 <= x < steps.len() ==> !((#[trigger] steps[x]) is Insert),
{
    assert(fits(steps[k], events[k]));
    lemma_lookup_is_third(validate, record, steps, events, k);
    assert forall|x: int| 0 <= x < steps.len() implies !((#[trigger] steps[x]) is Insert) by {
        if steps[x] is Insert {
            law_create_writes_only_a_new_key_under_its_lock(validate, record, steps, events, x);
        }
    }
}

} // verus!
