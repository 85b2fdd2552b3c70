//! Rows into models and back, plus the small helpers that the stores share.
//!
//! A stored row that does not pass validation is an invariant break of the
//! storage and surfaces as [`UsageCollectorPluginError::Internal`], never as a
//! caller's error.
use crate::entity::{
    RowView, UsageRecordRow, UsageRecordStatusCode, UsageTypeKindCode, UsageTypeRow,
};
use crate::maps::{lists, StringMap};
use crate::model::{
    accepts, answers_all, judge, outcome_view, rejects, Candidate, CandidateView, ErrorView,
    IdempotencyKey, MetadataKey, MetadataKeySet, MetadataMap, ResourceRef, ResourceRefView,
    SubjectRef, SubjectRefView, UsageCollectorPluginError, UsageKind, UsageRecord,
    UsageRecordStatus, UsageRecordView, UsageType, UsageTypeGtsId,
};
use crate::text::{integer_text, optional_text, same_optional_text, same_text, spell_signed, texts};
use crate::values::{
    in_instant_range, nanos_to_micros, rfc3339_spelling, uuid_text, OffsetDateTime,
    YEAR_ZERO_UNIX_NANOS,
};
use vstd::arithmetic::power::pow;
use vstd::prelude::*;
use vstd::string::*;

verus! {

/// The raw text of a usage-type identifier.
pub fn gts_id_str(gts_id: &UsageTypeGtsId) -> (s: &str)
    ensures
        s@ == gts_id@,
{
    gts_id.as_str()
}

/// The error for a stored identifier that validation rejects.
pub open spec fn invalid_gts_id(raw: Seq<char>, why: Seq<char>) -> ErrorView {
    ErrorView::Internal("stored gts_id `"@ + raw + "` invalid: "@ + why)
}

/// Reconstructs a validated identifier from a stored text.
pub fn gts_id_from_str<V: Fn(Candidate) -> Result<(), String>>(raw: &str, validate: &V) -> (r:
    Result<UsageTypeGtsId, UsageCollectorPluginError>)
    requires
        answers_all(*validate),
    ensures
        r matches Ok(g) ==> g@ == raw@ && accepts(*validate, CandidateView::GtsId(raw@)),
        r matches Err(e) ==> exists|why: Seq<char>| #[trigger]
            rejects(*validate, CandidateView::GtsId(raw@), why) && e@ == invalid_gts_id(raw@, why),
{
    match judge(validate, Candidate::GtsId(raw.to_owned())) {
        Ok(_) => Ok(UsageTypeGtsId { value: raw.to_owned() }),
        Err(e) => Err(
            UsageCollectorPluginError::internal(
                "stored gts_id `".to_owned().concat(raw).concat("` invalid: ").concat(e.as_str()),
            ),
        ),
    }
}

/// The status that a code stands for.
pub open spec fn status_of(code: UsageRecordStatusCode) -> UsageRecordStatus {
    match code {
        UsageRecordStatusCode::Active => UsageRecordStatus::Active,
        UsageRecordStatusCode::Inactive => UsageRecordStatus::Inactive,
    }
}

/// The stored code of a status.
pub open spec fn code_of_status(status: UsageRecordStatus) -> UsageRecordStatusCode {
    match status {
        UsageRecordStatus::Active => UsageRecordStatusCode::Active,
        UsageRecordStatus::Inactive => UsageRecordStatusCode::Inactive,
    }
}

/// Converts a stored code into a status.
pub fn parse_status(code: UsageRecordStatusCode) -> (s: UsageRecordStatus)
    ensures
        s == status_of(code),
{
    match code {
        UsageRecordStatusCode::Active => UsageRecordStatus::Active,
        UsageRecordStatusCode::Inactive => UsageRecordStatus::Inactive,
    }
}

/// The stored form of a status.
pub fn status_to_code(status: UsageRecordStatus) -> (c: UsageRecordStatusCode)
    ensures
        c == code_of_status(status),
{
    match status {
        UsageRecordStatus::Active => UsageRecordStatusCode::Active,
        UsageRecordStatus::Inactive => UsageRecordStatusCode::Inactive,
    }
}

/// The name of a status, as the column's `Enum8` spells it.
pub open spec fn status_text(status: UsageRecordStatus) -> Seq<char> {
    match status {
        UsageRecordStatus::Active => "active"@,
        UsageRecordStatus::Inactive => "inactive"@,
    }
}

/// The name of a status, as the column's `Enum8` spells it.
pub fn status_to_str(status: UsageRecordStatus) -> (s: &'static str)
    ensures
        s@ == status_text(status),
{
    match status {
        UsageRecordStatus::Active => "active",
        UsageRecordStatus::Inactive => "inactive",
    }
}

/// The kind that a code stands for.
pub open spec fn kind_of(code: UsageTypeKindCode) -> UsageKind {
    match code {
        UsageTypeKindCode::Counter => UsageKind::Counter,
        UsageTypeKindCode::Gauge => UsageKind::Gauge,
    }
}

/// The stored code of a kind.
pub open spec fn code_of_kind(kind: UsageKind) -> UsageTypeKindCode {
    match kind {
        UsageKind::Counter => UsageTypeKindCode::Counter,
        UsageKind::Gauge => UsageTypeKindCode::Gauge,
    }
}

/// Converts a stored code into a kind.
pub fn parse_kind(code: UsageTypeKindCode) -> (k: UsageKind)
    ensures
        k == kind_of(code),
{
    match code {
        UsageTypeKindCode::Counter => UsageKind::Counter,
        UsageTypeKindCode::Gauge => UsageKind::Gauge,
    }
}

/// The stored form of a kind.
pub fn kind_to_code(kind: UsageKind) -> (c: UsageTypeKindCode)
    ensures
        c == code_of_kind(kind),
{
    match kind {
        UsageKind::Counter => UsageTypeKindCode::Counter,
        UsageKind::Gauge => UsageTypeKindCode::Gauge,
    }
}

/// Statuses and kinds are read back from their stored codes, and codes from
/// what they stand for.
pub proof fn law_codes_round_trip(
    status: UsageRecordStatus,
    status_code: UsageRecordStatusCode,
    kind: UsageKind,
    kind_code: UsageTypeKindCode,
)
    ensures
        status_of(code_of_status(status)) == status,
        code_of_status(status_of(status_code)) == status_code,
        kind_of(code_of_kind(kind)) == kind,
        code_of_kind(kind_of(kind_code)) == kind_code,
{
}

/// Validation accepts every key of the map.
pub open spec fn keys_accepted<V: Fn(Candidate) -> Result<(), String>>(
    validate: V,
    map: Map<Seq<char>, Seq<char>>,
) -> bool {
    forall|k: Seq<char>| #[trigger]
        map.contains_key(k) ==> accepts(validate, CandidateView::MetadataKey(k))
}

/// Validation rejects some key of the map, and `e` says why.
pub open spec fn some_key_rejected<V: Fn(Candidate) -> Result<(), String>>(
    validate: V,
    map: Map<Seq<char>, Seq<char>>,
    e: ErrorView,
) -> bool {
    exists|k: Seq<char>, why: Seq<char>|
        map.contains_key(k) && #[trigger] rejects(validate, CandidateView::MetadataKey(k), why) && e
            == ErrorView::Internal("stored metadata key invalid: "@ + why)
}

/// Converts stored metadata into validated metadata.
pub fn metadata_hashmap_to_btree<V: Fn(Candidate) -> Result<(), String>>(
    map: StringMap,
    validate: &V,
) -> (r: Result<MetadataMap, UsageCollectorPluginError>)
    requires
        answers_all(*validate),
    ensures
        r matches Ok(m) ==> m@ == map@ && keys_accepted(*validate, map@),
        r matches Err(e) ==> some_key_rejected(*validate, map@, e@),
{
    let mut out = MetadataMap::new();
    let n = map.len();
    let mut i: usize = 0;
    while i < n
        invariant
            i <= n,
            n == map.pairs().len(),
            lists(map.pairs(), map@),
            answers_all(*validate),
            forall|k: Seq<char>| #[trigger]
                out@.contains_key(k) ==> map@.contains_key(k) && out@[k] == map@[k],
            forall|j: int|
                #![trigger map.pairs()[j]]
                0 <= j < i ==> out@.contains_key(map.pairs()[j].0) && accepts(
                    *validate,
                    CandidateView::MetadataKey(map.pairs()[j].0),
                ),
        decreases n - i,
    {
        let (key, value) = map.entry(i);
        match judge(validate, Candidate::MetadataKey(key.clone())) {
            Ok(_) => {
                let ghost before = out@;
                out.insert(MetadataKey { value: key.clone() }, value.clone());
                proof {
                    assert forall|k: Seq<char>| #[trigger] out@.contains_key(
                        k,
                    ) implies map@.contains_key(k) && out@[k] == map@[k] by {
                        if k != key@ {
                            assert(before.contains_key(k));
                        }
                    }
                    assert forall|j: int| #![trigger map.pairs()[j]] 0 <= j < i implies out@.contains_key(
                        map.pairs()[j].0,
                    ) by {
                        assert(before.contains_key(map.pairs()[j].0));
                    }
                }
            },
            Err(e) => {
                return Err(
                    UsageCollectorPluginError::internal(
                        "stored metadata key invalid: ".to_owned().concat(e.as_str()),
                    ),
                );
            },
        }
        i = i + 1;
    }
    proof {
        assert forall|k: Seq<char>| #[trigger] map@.contains_key(k) implies out@.contains_key(k)
            && out@[k] == map@[k] && accepts(*validate, CandidateView::MetadataKey(k)) by {
            let j = choose|j: int| 0 <= j < map.pairs().len() && (#[trigger] map.pairs()[j]).0 == k;
            assert(out@.contains_key(map.pairs()[j].0));
        }
        assert forall|k: Seq<char>| out@.dom().contains(k) == map@.dom().contains(k) by {
            assert(out@.contains_key(k) ==> map@.contains_key(k));
            assert(map@.contains_key(k) ==> out@.contains_key(k));
        }
        assert(out@.dom() =~= map@.dom());
        assert(out@ =~= map@);
    }
    Ok(out)
}

/// Converts validated metadata into its stored form.
pub fn metadata_btree_to_hashmap(map: &MetadataMap) -> (m: StringMap)
    ensures
        m@ == map@,
{
    map.as_string_map().clone()
}

/// The error for a stored timestamp outside the range of instants.
pub open spec fn timestamp_out_of_range(micros: int) -> ErrorView {
    ErrorView::Internal(
        "stored timestamp "@ + integer_text(micros) + " µs out of range: "@
            + "timestamp was not in range"@,
    )
}

/// Converts microseconds since the epoch into an instant.
pub fn micros_to_datetime(micros: i64) -> (r: Result<OffsetDateTime, UsageCollectorPluginError>)
    ensures
        r is Ok <==> in_instant_range(micros * 1000),
        r matches Ok(t) ==> t@ == micros * 1000,
        r matches Err(e) ==> e@ == timestamp_out_of_range(micros as int),
{
    match OffsetDateTime::from_unix_timestamp_nanos(micros as i128 * 1000) {
        Ok(t) => Ok(t),
        Err(e) => Err(
            UsageCollectorPluginError::internal(
                "stored timestamp ".to_owned().concat(spell_signed(micros).as_str()).concat(
                    " µs out of range: ",
                ).concat(e.as_str()),
            ),
        ),
    }
}

/// An instant as microseconds since the epoch: the last whole microsecond at
/// or before it.
pub fn datetime_to_micros(dt: OffsetDateTime) -> (m: i64)
    ensures
        m == dt@ / 1000,
        in_instant_range(dt@),
{
    let nanos = dt.unix_timestamp_nanos();
    nanos_to_micros(nanos) as i64
}

/// A stored timestamp is read back from the instant it stands for, and an
/// instant from its stored timestamp to the microsecond.
pub proof fn law_micros_round_trip(micros: int, nanos: int)
    ensures
        (micros * 1000) / 1000 == micros,
        (nanos / 1000) * 1000 <= nanos < (nanos / 1000) * 1000 + 1000,
        in_instant_range(nanos) ==> in_instant_range((nanos / 1000) * 1000),
{
}

/// The subject that a row names.
pub open spec fn row_subject(row: RowView) -> Option<SubjectRefView> {
    match row.subject_id {
        Some(id) => Some(SubjectRefView { id, kind: row.subject_type }),
        None => None,
    }
}

/// The record that a row holds.
pub open spec fn model_of_row(row: RowView) -> UsageRecordView {
    UsageRecordView {
        id: row.id,
        gts_id: row.gts_id,
        tenant_id: row.tenant_id,
        resource_ref: ResourceRefView { id: row.resource_id, kind: row.resource_type },
        subject_ref: row_subject(row),
        metadata: row.metadata,
        value: row.value,
        idempotency_key: row.idempotency_key,
        corrects_id: row.corrects_id,
        status: status_of(row.status),
        created_at: row.created_at * 1000,
    }
}

/// The texts of a row that go through validation one by one, in the order in
/// which they are judged; the metadata keys follow them.
pub open spec fn row_candidates(row: RowView) -> Seq<CandidateView> {
    seq![
        CandidateView::GtsId(row.gts_id),
        CandidateView::ResourceRef {
            resource_id: row.resource_id,
            resource_type: row.resource_type,
        },
    ] + (match row.subject_id {
        Some(id) => seq![
            CandidateView::SubjectRef { subject_id: id, subject_type: row.subject_type },
        ],
        None => Seq::empty(),
    }) + seq![CandidateView::IdempotencyKey(row.idempotency_key)]
}

/// The error for a rejected text of a row.
pub open spec fn invalid_component(c: CandidateView, why: Seq<char>) -> ErrorView {
    match c {
        CandidateView::GtsId(raw) => invalid_gts_id(raw, why),
        CandidateView::ResourceRef { .. } => ErrorView::Internal(
            "stored resource_ref invalid: "@ + why,
        ),
        CandidateView::SubjectRef { .. } => ErrorView::Internal(
            "stored subject_ref invalid: "@ + why,
        ),
        CandidateView::IdempotencyKey(_) => ErrorView::Internal(
            "stored idempotency_key invalid: "@ + why,
        ),
        CandidateView::MetadataKey(_) => ErrorView::Internal("stored metadata key invalid: "@ + why),
    }
}

/// Validation accepts the first `n` candidates.
pub open spec fn first_accepted<V: Fn(Candidate) -> Result<(), String>>(
    validate: V,
    candidates: Seq<CandidateView>,
    n: int,
) -> bool {
    forall|i: int| 0 <= i < n ==> accepts(validate, #[trigger] candidates[i])
}

/// Validation rejects the candidate at `i` after accepting those before it, and
/// `e` says why.
pub open spec fn rejected_at<V: Fn(Candidate) -> Result<(), String>>(
    validate: V,
    candidates: Seq<CandidateView>,
    i: int,
    e: ErrorView,
) -> bool {
    &&& 0 <= i < candidates.len()
    &&& first_accepted(validate, candidates, i)
    &&& exists|why: Seq<char>| #[trigger]
        rejects(validate, candidates[i], why) && e == invalid_component(candidates[i], why)
}

/// The outcomes of turning a row into a record: the record, where every text is
/// accepted and the timestamp is an instant; else the first failure.
pub open spec fn row_outcome<V: Fn(Candidate) -> Result<(), String>>(
    validate: V,
    row: RowView,
    outcome: Result<UsageRecordView, ErrorView>,
) -> bool {
    let candidates = row_candidates(row);
    match outcome {
        Ok(m) => {
            &&& m == model_of_row(row)
            &&& first_accepted(validate, candidates, candidates.len() as int)
            &&& keys_accepted(validate, row.metadata)
            &&& in_instant_range(row.created_at * 1000)
        },
        Err(e) => {
            ||| exists|i: int| #[trigger] rejected_at(validate, candidates, i, e)
            ||| first_accepted(validate, candidates, candidates.len() as int) && some_key_rejected(
                validate,
                row.metadata,
                e,
            )
            ||| first_accepted(validate, candidates, candidates.len() as int) && keys_accepted(
                validate,
                row.metadata,
            ) && !in_instant_range(row.created_at * 1000) && e == timestamp_out_of_range(
                row.created_at as int,
            )
        },
    }
}

/// Maps a stored row into a validated record.
pub fn record_row_to_model<V: Fn(Candidate) -> Result<(), String>>(
    row: UsageRecordRow,
    validate: &V,
) -> (r: Result<UsageRecord, UsageCollectorPluginError>)
    requires
        answers_all(*validate),
    ensures
        row_outcome(*validate, row@, outcome_view(r)),
{
    let ghost view = row@;
    let ghost candidates = row_candidates(view);
    let gts_id = match gts_id_from_str(row.gts_id.as_str(), validate) {
        Ok(g) => g,
        Err(e) => {
            proof {
                assert(candidates[0] == CandidateView::GtsId(view.gts_id));
                assert(rejected_at(*validate, candidates, 0, e@));
            }
            return Err(e);
        },
    };
    assert(candidates[0] == CandidateView::GtsId(view.gts_id));

    let resource_ref = match judge(
        validate,
        Candidate::ResourceRef {
            resource_id: row.resource_id.clone(),
            resource_type: row.resource_type.clone(),
        },
    ) {
        Ok(_) => ResourceRef { id: row.resource_id, kind: row.resource_type },
        Err(e) => {
            let failure = UsageCollectorPluginError::internal(
                "stored resource_ref invalid: ".to_owned().concat(e.as_str()),
            );
            proof {
                assert(rejected_at(*validate, candidates, 1, failure@));
            }
            return Err(failure);
        },
    };
    assert(first_accepted(*validate, candidates, 2));

    let subject_ref = match row.subject_id {
        Some(subject_id) => {
            let subject_type = match &row.subject_type {
                Some(t) => Some(t.clone()),
                None => None,
            };
            match judge(
                validate,
                Candidate::SubjectRef { subject_id: subject_id.clone(), subject_type },
            ) {
                Ok(_) => Some(SubjectRef { id: subject_id, kind: row.subject_type }),
                Err(e) => {
                    let failure = UsageCollectorPluginError::internal(
                        "stored subject_ref invalid: ".to_owned().concat(e.as_str()),
                    );
                    proof {
                        assert(rejected_at(*validate, candidates, 2, failure@));
                    }
                    return Err(failure);
                },
            }
        },
        None => None,
    };
    assert(first_accepted(*validate, candidates, candidates.len() - 1));

    let idempotency_key = match judge(
        validate,
        Candidate::IdempotencyKey(row.idempotency_key.clone()),
    ) {
        Ok(_) => IdempotencyKey { value: row.idempotency_key },
        Err(e) => {
            let failure = UsageCollectorPluginError::internal(
                "stored idempotency_key invalid: ".to_owned().concat(e.as_str()),
            );
            proof {
                assert(rejected_at(*validate, candidates, candidates.len() - 1, failure@));
            }
            return Err(failure);
        },
    };
    assert(first_accepted(*validate, candidates, candidates.len() as int));

    let metadata = match metadata_hashmap_to_btree(row.metadata, validate) {
        Ok(m) => m,
        Err(e) => {
            return Err(e);
        },
    };
    let status = parse_status(row.status);
    let created_at = match micros_to_datetime(row.created_at) {
        Ok(t) => t,
        Err(e) => {
            return Err(e);
        },
    };
    Ok(
        UsageRecord {
            id: row.id,
            gts_id,
            tenant_id: row.tenant_id,
            resource_ref,
            subject_ref,
            metadata,
            value: row.value,
            idempotency_key,
            corrects_id: row.corrects_id,
            status,
            created_at,
        },
    )
}

/// The outcomes of turning a catalog row into a usage type.
pub open spec fn type_row_outcome<V: Fn(Candidate) -> Result<(), String>>(
    validate: V,
    row: UsageTypeRow,
    outcome: Result<UsageType, UsageCollectorPluginError>,
) -> bool {
    let fields = texts(row.metadata_fields@);
    match outcome {
        Ok(m) => {
            &&& m.gts_id@ == row.gts_id@
            &&& m.kind == kind_of(row.kind)
            &&& m.metadata_fields@ == fields.to_set()
            &&& accepts(validate, CandidateView::GtsId(row.gts_id@))
            &&& fields_accepted(validate, fields, fields.len() as int)
        },
        Err(e) => {
            ||| exists|why: Seq<char>| #[trigger]
                rejects(validate, CandidateView::GtsId(row.gts_id@), why) && e@ == invalid_gts_id(
                    row.gts_id@,
                    why,
                )
            ||| accepts(validate, CandidateView::GtsId(row.gts_id@)) && exists|
                i: int,
                why: Seq<char>,
            |
                0 <= i < fields.len() && fields_accepted(validate, fields, i) && #[trigger] rejects(
                    validate,
                    CandidateView::MetadataKey(fields[i]),
                    why,
                ) && e@ == ErrorView::Internal("stored metadata_fields entry invalid: "@ + why)
        },
    }
}

/// Validation accepts the first `n` metadata fields.
pub open spec fn fields_accepted<V: Fn(Candidate) -> Result<(), String>>(
    validate: V,
    fields: Seq<Seq<char>>,
    n: int,
) -> bool {
    forall|i: int|
        0 <= i < n ==> accepts(validate, CandidateView::MetadataKey(#[trigger] fields[i]))
}

/// Maps a catalog row into a validated usage type.
pub fn type_row_to_model<V: Fn(Candidate) -> Result<(), String>>(
    row: UsageTypeRow,
    validate: &V,
) -> (r: Result<UsageType, UsageCollectorPluginError>)
    requires
        answers_all(*validate),
    ensures
        type_row_outcome(*validate, row, r),
{
    let gts_id = match gts_id_from_str(row.gts_id.as_str(), validate) {
        Ok(g) => g,
        Err(e) => {
            return Err(e);
        },
    };
    let kind = parse_kind(row.kind);
    let ghost fields = texts(row.metadata_fields@);
    let mut metadata_fields = MetadataKeySet::new();
    let mut i: usize = 0;
    assert(fields.take(0).to_set() =~= Set::<Seq<char>>::empty());
    while i < row.metadata_fields.len()
        invariant
            i <= row.metadata_fields@.len(),
            fields == texts(row.metadata_fields@),
            metadata_fields@ == fields.take(i as int).to_set(),
            answers_all(*validate),
            accepts(*validate, CandidateView::GtsId(row.gts_id@)),
            fields_accepted(*validate, fields, i as int),
        decreases row.metadata_fields@.len() - i,
    {
        let field = row.metadata_fields[i].clone();
        assert(fields[i as int] == field@);
        match judge(validate, Candidate::MetadataKey(field.clone())) {
            Ok(_) => {
                metadata_fields.insert(MetadataKey { value: field });
                proof {
                    let head = fields.take(i as int);
                    let longer = fields.take(i + 1);
                    assert(longer =~= head.push(fields[i as int]));
                    assert forall|t: Seq<char>| longer.contains(t) == (head.contains(t) || t
                        == fields[i as int]) by {
                        if head.contains(t) {
                            let j = choose|j: int| 0 <= j < head.len() && head[j] == t;
                            assert(longer[j] == t);
                        }
                        if t == fields[i as int] {
                            assert(longer[i as int] == t);
                        }
                    }
                    assert(longer.to_set() =~= head.to_set().insert(fields[i as int]));
                }
            },
            Err(e) => {
                return Err(
                    UsageCollectorPluginError::internal(
                        "stored metadata_fields entry invalid: ".to_owned().concat(e.as_str()),
                    ),
                );
            },
        }
        i = i + 1;
    }
    assert(fields.take(i as int) =~= fields);
    Ok(UsageType { gts_id, kind, metadata_fields })
}

/// The row that stores a record. A new row is active whatever the record says.
pub open spec fn row_of_record(record: UsageRecordView, version: u64, ingested_at: i64) -> RowView {
    RowView {
        id: record.id,
        tenant_id: record.tenant_id,
        gts_id: record.gts_id,
        value: record.value,
        created_at: (record.created_at / 1000) as i64,
        resource_id: record.resource_ref.id,
        resource_type: record.resource_ref.kind,
        subject_id: match record.subject_ref {
            Some(s) => Some(s.id),
            None => None,
        },
        subject_type: match record.subject_ref {
            Some(s) => s.kind,
            None => None,
        },
        idempotency_key: record.idempotency_key,
        corrects_id: record.corrects_id,
        status: UsageRecordStatusCode::Active,
        metadata: record.metadata,
        ingested_at,
        version,
    }
}

/// Builds the row that stores a record, given the time of insertion.
pub fn record_to_row_at(record: &UsageRecord, version: u64, now: OffsetDateTime) -> (row:
    UsageRecordRow)
    ensures
        row@ == row_of_record(record@, version, (now@ / 1000) as i64),
        in_instant_range(record@.created_at),
{
    let (subject_id, subject_type) = match &record.subject_ref {
        Some(s) => (
            Some(s.subject_id().to_owned()),
            match s.subject_type() {
                Some(t) => Some(t.to_owned()),
                None => None,
            },
        ),
        None => (None, None),
    };
    UsageRecordRow {
        id: record.id,
        tenant_id: record.tenant_id,
        gts_id: gts_id_str(&record.gts_id).to_owned(),
        value: record.value,
        created_at: datetime_to_micros(record.created_at),
        resource_id: record.resource_ref.resource_id().to_owned(),
        resource_type: record.resource_ref.resource_type().to_owned(),
        subject_id,
        subject_type,
        idempotency_key: record.idempotency_key.as_str().to_owned(),
        corrects_id: record.corrects_id,
        status: status_to_code(UsageRecordStatus::Active),
        metadata: metadata_btree_to_hashmap(&record.metadata),
        ingested_at: datetime_to_micros(now),
        version,
    }
}

/// Whether it is the time of some instant, in microseconds since the epoch.
pub open spec fn is_micros_of_an_instant(micros: i64) -> bool {
    exists|now: int| #[trigger] in_instant_range(now) && micros == now / 1000
}

/// Builds the row that stores a record, inserted now.
pub fn record_to_row(record: &UsageRecord, version: u64) -> (row: UsageRecordRow)
    ensures
        row@ == row_of_record(record@, version, row@.ingested_at),
        is_micros_of_an_instant(row@.ingested_at),
        in_instant_range(record@.created_at),
{
    let now = OffsetDateTime::now_utc();
    let row = record_to_row_at(record, version, now);
    assert(in_instant_range(now@));
    row
}

/// A record is read back from the row that stores it, active and with its
/// event time cut to the microsecond.
pub proof fn law_record_is_read_back_from_its_row(
    record: UsageRecordView,
    version: u64,
    ingested_at: i64,
)
    requires
        in_instant_range(record.created_at),
    ensures
        model_of_row(row_of_record(record, version, ingested_at)) == (UsageRecordView {
            status: UsageRecordStatus::Active,
            created_at: record.created_at / 1000 * 1000,
            ..record
        }),
        in_instant_range(row_of_record(record, version, ingested_at).created_at * 1000),
{
    let back = model_of_row(row_of_record(record, version, ingested_at));
    assert(back.subject_ref == record.subject_ref);
}

/// The row that turns a stored row inactive: a copy with another status and
/// version.
pub open spec fn inactive_marker(source: RowView, version: u64) -> RowView {
    RowView { status: UsageRecordStatusCode::Inactive, version, ..source }
}

/// The sum, or the largest number where the sum does not fit.
pub open spec fn saturating_sum(a: int, b: int) -> u64 {
    if a + b > u64::MAX {
        u64::MAX
    } else {
        (a + b) as u64
    }
}

/// Builds the row that turns `source` inactive, with the version
/// `base_version + offset`.
pub fn make_inactive_marker(source: &UsageRecordRow, base_version: u64, offset: u64) -> (marker:
    UsageRecordRow)
    ensures
        marker@ == inactive_marker(source@, saturating_sum(base_version as int, offset as int)),
{
    let mut marker = source.clone();
    marker.status = UsageRecordStatusCode::Inactive;
    marker.version = base_version.saturating_add(offset);
    marker
}

/// The cursor key of a row under an order field. A column without a value, and
/// an unknown field, have none.
pub open spec fn row_key(row: RowView, field: Seq<char>) -> Option<Seq<char>> {
    if field == "id"@ {
        Some(uuid_text(row.id.bits))
    } else if field == "corrects_id"@ {
        match row.corrects_id {
            Some(id) => Some(uuid_text(id.bits)),
            None => None,
        }
    } else if field == "created_at"@ {
        if in_instant_range(row.created_at * 1000) {
            rfc3339_spelling(row.created_at * 1000)
        } else {
            None
        }
    } else if field == "tenant_id"@ {
        Some(uuid_text(row.tenant_id.bits))
    } else if field == "resource_id"@ {
        Some(row.resource_id)
    } else if field == "resource_type"@ {
        Some(row.resource_type)
    } else if field == "subject_id"@ {
        row.subject_id
    } else if field == "subject_type"@ {
        row.subject_type
    } else if field == "status"@ {
        Some(status_text(status_of(row.status)))
    } else {
        None
    }
}

/// Whether the event time of a row has a cursor key: in the years 0 to 9999.
pub open spec fn has_time_key(row: RowView) -> bool {
    in_instant_range(row.created_at * 1000) && row.created_at * 1000 >= YEAR_ZERO_UNIX_NANOS
}

/// Extracts the cursor key of a row under an order field.
pub fn record_row_key(row: &UsageRecordRow, field: &str) -> (r: Option<String>)
    ensures
        optional_text(r) == row_key(row@, field@),
        field@ == "created_at"@ ==> (r is Some <==> has_time_key(row@)),
{
    proof {
        reveal_strlit("id");
        reveal_strlit("corrects_id");
        reveal_strlit("created_at");
        assert("created_at"@.len() != "id"@.len());
        assert("created_at"@.len() != "corrects_id"@.len());
    }
    if same_text(field, "id") {
        Some(row.id.to_string())
    } else if same_text(field, "corrects_id") {
        match &row.corrects_id {
            Some(id) => Some(id.to_string()),
            None => None,
        }
    } else if same_text(field, "created_at") {
        match OffsetDateTime::from_unix_timestamp_nanos(row.created_at as i128 * 1000) {
            Ok(t) => t.format_rfc3339(),
            Err(_) => None,
        }
    } else if same_text(field, "tenant_id") {
        Some(row.tenant_id.to_string())
    } else if same_text(field, "resource_id") {
        Some(row.resource_id.clone())
    } else if same_text(field, "resource_type") {
        Some(row.resource_type.clone())
    } else if same_text(field, "subject_id") {
        match &row.subject_id {
            Some(s) => Some(s.clone()),
            None => None,
        }
    } else if same_text(field, "subject_type") {
        match &row.subject_type {
            Some(s) => Some(s.clone()),
            None => None,
        }
    } else if same_text(field, "status") {
        Some(status_to_str(parse_status(row.status)).to_owned())
    } else {
        None
    }
}

/// Whether a stored row and an incoming record agree on every canonical field:
/// the identifier, the value as a number, the attribution, the corrected row
/// and the metadata.
pub open spec fn same_canonical_fields(row: RowView, incoming: UsageRecordView) -> bool {
    &&& row.id == incoming.id
    &&& row.value.same_number(incoming.value)
    &&& row.resource_id == incoming.resource_ref.id
    &&& row.resource_type == incoming.resource_ref.kind
    &&& row.subject_id == (match incoming.subject_ref {
        Some(s) => Some(s.id),
        None => None,
    })
    &&& row.subject_type == (match incoming.subject_ref {
        Some(s) => s.kind,
        None => None,
    })
    &&& row.corrects_id == incoming.corrects_id
    &&& row.metadata == incoming.metadata
}

fn same_optional_id(
    a: &Option<crate::values::Uuid>,
    b: &Option<crate::values::Uuid>,
) -> (r: bool)
    ensures
        r == (*a == *b),
{
    match (a, b) {
        (Some(x), Some(y)) => *x == *y,
        (None, None) => true,
        _ => false,
    }
}

/// Compares the canonical fields of a stored row with those of an incoming
/// record. Stored metadata that validation rejects is an error.
pub fn canonical_equal<V: Fn(Candidate) -> Result<(), String>>(
    row: &UsageRecordRow,
    incoming: &UsageRecord,
    validate: &V,
) -> (r: Result<bool, UsageCollectorPluginError>)
    requires
        answers_all(*validate),
    ensures
        r matches Ok(b) ==> b == same_canonical_fields(row@, incoming@) && keys_accepted(
            *validate,
            row@.metadata,
        ),
        r matches Err(e) ==> some_key_rejected(*validate, row@.metadata, e@),
{
    let stored_metadata = match metadata_hashmap_to_btree(row.metadata.clone(), validate) {
        Ok(m) => m,
        Err(e) => {
            return Err(e);
        },
    };
    let (subject_id, subject_type) = match &incoming.subject_ref {
        Some(s) => (
            Some(s.subject_id().to_owned()),
            match s.subject_type() {
                Some(t) => Some(t.to_owned()),
                None => None,
            },
        ),
        None => (None, None),
    };
    Ok(
        row.id == incoming.id && row.value == incoming.value && same_text(
            row.resource_id.as_str(),
            incoming.resource_ref.resource_id(),
        ) && same_text(row.resource_type.as_str(), incoming.resource_ref.resource_type())
            && same_optional_text(&row.subject_id, &subject_id) && same_optional_text(
            &row.subject_type,
            &subject_type,
        ) && same_optional_id(&row.corrects_id, &incoming.corrects_id) && stored_metadata
            == incoming.metadata,
    )
}

/// The row that stores a record agrees with it on every canonical field, so
/// the same record sent again is absorbed.
pub proof fn law_stored_record_is_canonically_equal(
    record: UsageRecordView,
    version: u64,
    ingested_at: i64,
)
    ensures
        same_canonical_fields(row_of_record(record, version, ingested_at), record),
{
}

/// The merge version of an instant: microseconds since the epoch, modulo 2^64.
pub open spec fn merge_version(now: int) -> u64 {
    ((now / 1000) % 0x1_0000_0000_0000_0000) as u64
}

/// The merge version of an instant.
pub fn merge_version_at(now: OffsetDateTime) -> (v: u64)
    ensures
        v == merge_version(now@),
{
    let micros = datetime_to_micros(now);
    if micros >= 0 {
        micros as u64
    } else {
        (micros as i128 + 0x1_0000_0000_0000_0000) as u64
    }
}

/// Mints a merge version: that of the current instant. Where copies of a row
/// are merged, the highest version wins.
pub fn current_merge_version() -> (v: u64)
    ensures
        exists|now: int| in_instant_range(now) && v == #[trigger] merge_version(now),
{
    let now = OffsetDateTime::now_utc();
    merge_version_at(now)
}

/// The version for a row that supersedes one of version `existing_version`.
pub open spec fn superseding_version(now: u64, existing_version: u64, offset: u64) -> u64 {
    let floor = saturating_sum(saturating_sum(existing_version as int, offset as int) as int, 1);
    if now > floor {
        now
    } else {
        floor
    }
}

/// The higher of the version `now` and `existing_version + offset + 1`.
pub fn version_higher_than_at(now: u64, existing_version: u64, offset: u64) -> (v: u64)
    ensures
        v == superseding_version(now, existing_version, offset),
{
    let floor: u64 = existing_version.saturating_add(offset).saturating_add(1);
    if now > floor {
        now
    } else {
        floor
    }
}

/// A version higher than `existing_version` by at least `offset + 1`, and no
/// lower than that of the current instant.
pub fn version_higher_than(existing_version: u64, offset: u64) -> (v: u64)
    ensures
        exists|now: int|
            in_instant_range(now) && v == superseding_version(
                #[trigger] merge_version(now),
                existing_version,
                offset,
            ),
        existing_version + offset < u64::MAX ==> v >= existing_version + offset + 1,
{
    let now = current_merge_version();
    version_higher_than_at(now, existing_version, offset)
}

/// Short of the largest number, a superseding version is strictly higher than
/// the version it supersedes, with the offset as headroom.
pub proof fn law_superseding_version_is_higher(now: u64, existing_version: u64, offset: u64)
    requires
        existing_version + offset < u64::MAX,
    ensures
        superseding_version(now, existing_version, offset) > existing_version + offset,
        superseding_version(now, existing_version, offset) >= now,
{
}

// ---- what is read of rows, and what is written into them ----

/// The record that is read from a row is what the row holds: every column goes
/// to its own field, a deactivated row is an inactive record, and the event time
/// is that of the row's microseconds.
pub proof fn law_record_is_what_its_row_holds<V: Fn(Candidate) -> Result<(), String>>(
    validate: V,
    row: RowView,
    m: UsageRecordView,
)
    requires
        row_outcome(validate, row, Ok::<UsageRecordView, ErrorView>(m)),
    ensures
        m.id == row.id,
        m.tenant_id == row.tenant_id,
        m.gts_id == row.gts_id,
        m.value == row.value,
        m.created_at == row.created_at * 1000,
        m.resource_ref.id == row.resource_id,
        m.resource_ref.kind == row.resource_type,
        m.subject_ref is Some <==> row.subject_id is Some,
        m.subject_ref matches Some(s) ==> row.subject_id == Some(s.id) && s.kind
            == row.subject_type,
        m.idempotency_key == row.idempotency_key,
        m.corrects_id == row.corrects_id,
        m.metadata == row.metadata,
        m.status == UsageRecordStatus::Inactive <==> row.status == UsageRecordStatusCode::Inactive,
        m.status == UsageRecordStatus::Active <==> row.status == UsageRecordStatusCode::Active,
{
}

/// Two rows that are read as the same record hold the same: nothing of a row is
/// lost but the times of its writing, and the type of a subject that is not
/// named.
pub proof fn law_rows_of_one_record_agree<V: Fn(Candidate) -> Result<(), String>>(
    validate: V,
    a: RowView,
    b: RowView,
    m: UsageRecordView,
)
    requires
        row_outcome(validate, a, Ok::<UsageRecordView, ErrorView>(m)),
        row_outcome(validate, b, Ok::<UsageRecordView, ErrorView>(m)),
    ensures
        a.id == b.id,
        a.tenant_id == b.tenant_id,
        a.gts_id == b.gts_id,
        a.value == b.value,
        a.created_at == b.created_at,
        a.resource_id == b.resource_id,
        a.resource_type == b.resource_type,
        a.subject_id == b.subject_id,
        a.subject_id is Some ==> a.subject_type == b.subject_type,
        a.idempotency_key == b.idempotency_key,
        a.corrects_id == b.corrects_id,
        a.status == b.status,
        a.metadata == b.metadata,
{
    law_record_is_what_its_row_holds(validate, a, m);
    law_record_is_what_its_row_holds(validate, b, m);
}

/// No record is read from a row unless validation accepts its identifier, its
/// attribution, its deduplication key and each of its metadata keys, and its
/// timestamp is an instant.
pub proof fn law_record_that_is_read_is_valid<V: Fn(Candidate) -> Result<(), String>>(
    validate: V,
    row: RowView,
    m: UsageRecordView,
)
    requires
        row_outcome(validate, row, Ok::<UsageRecordView, ErrorView>(m)),
    ensures
        accepts(validate, CandidateView::GtsId(row.gts_id)),
        accepts(
            validate,
            CandidateView::ResourceRef {
                resource_id: row.resource_id,
                resource_type: row.resource_type,
            },
        ),
        row.subject_id matches Some(id) ==> accepts(
            validate,
            CandidateView::SubjectRef { subject_id: id, subject_type: row.subject_type },
        ),
        accepts(validate, CandidateView::IdempotencyKey(row.idempotency_key)),
        forall|k: Seq<char>| #[trigger]
            row.metadata.contains_key(k) ==> accepts(validate, CandidateView::MetadataKey(k)),
        in_instant_range(row.created_at * 1000),
{
    let candidates = row_candidates(row);
    assert(accepts(validate, candidates[0]));
    assert(accepts(validate, candidates[1]));
    assert(accepts(validate, candidates[2]));
    assert(accepts(validate, candidates[candidates.len() - 1]));
}

/// A row is read as a record wherever validation rejects nothing of it and its
/// timestamp is an instant.
pub proof fn law_valid_row_is_read<V: Fn(Candidate) -> Result<(), String>>(
    validate: V,
    row: RowView,
    outcome: Result<UsageRecordView, ErrorView>,
)
    requires
        row_outcome(validate, row, outcome),
        forall|c: CandidateView, why: Seq<char>| !#[trigger] rejects(validate, c, why),
        in_instant_range(row.created_at * 1000),
    ensures
        outcome is Ok,
{
}

/// Why a row is no record is told by the text that was rejected, or by the
/// timestamp; the fault is never the caller's.
pub proof fn law_unreadable_row_is_told_why<V: Fn(Candidate) -> Result<(), String>>(
    validate: V,
    row: RowView,
    e: ErrorView,
)
    requires
        row_outcome(validate, row, Err::<UsageRecordView, ErrorView>(e)),
    ensures
        e is Internal,
        in_instant_range(row.created_at * 1000) ==> exists|c: CandidateView, why: Seq<char>|
            #[trigger] rejects(validate, c, why) && match c {
                CandidateView::GtsId(t) => t == row.gts_id && e == ErrorView::Internal(
                    "stored gts_id `"@ + row.gts_id + "` invalid: "@ + why,
                ),
                CandidateView::ResourceRef {
                    resource_id,
                    resource_type,
                } => resource_id == row.resource_id && resource_type == row.resource_type && e
                    == ErrorView::Internal("stored resource_ref invalid: "@ + why),
                CandidateView::SubjectRef {
                    subject_id,
                    subject_type,
                } => row.subject_id == Some(subject_id) && subject_type == row.subject_type && e
                    == ErrorView::Internal("stored subject_ref invalid: "@ + why),
                CandidateView::IdempotencyKey(t) => t == row.idempotency_key && e
                    == ErrorView::Internal("stored idempotency_key invalid: "@ + why),
                CandidateView::MetadataKey(t) => row.metadata.contains_key(t) && e
                    == ErrorView::Internal("stored metadata key invalid: "@ + why),
            },
{
    let candidates = row_candidates(row);
    if exists|i: int| #[trigger] rejected_at(validate, candidates, i, e) {
        let i = choose|i: int| #[trigger] rejected_at(validate, candidates, i, e);
        let why = choose|why: Seq<char>| #[trigger]
            rejects(validate, candidates[i], why) && e == invalid_component(candidates[i], why);
        assert(rejects(validate, candidates[i], why));
    }
}

/// The row that stores a record holds all of it, each field in its own column,
/// the event time cut to the microsecond, and is active.
pub proof fn law_row_holds_all_of_its_record(
    record: UsageRecordView,
    version: u64,
    ingested_at: i64,
)
    requires
        in_instant_range(record.created_at),
    ensures
        ({
            let row = row_of_record(record, version, ingested_at);
            &&& row.id == record.id
            &&& row.tenant_id == record.tenant_id
            &&& row.gts_id == record.gts_id
            &&& row.value == record.value
            &&& row.created_at == record.created_at / 1000
            &&& row.resource_id == record.resource_ref.id
            &&& row.resource_type == record.resource_ref.kind
            &&& record.subject_ref is None ==> row.subject_id is None && row.subject_type is None
            &&& record.subject_ref matches Some(s) ==> row.subject_id == Some(s.id)
                && row.subject_type == s.kind
            &&& row.idempotency_key == record.idempotency_key
            &&& row.corrects_id == record.corrects_id
            &&& row.status == UsageRecordStatusCode::Active
            &&& row.metadata == record.metadata
            &&& row.ingested_at == ingested_at
            &&& row.version == version
        }),
{
}

/// The row that turns another inactive is that row in all but its status and its
/// version, so that it stands under the same key.
pub proof fn law_marker_differs_in_status_and_version_alone(source: RowView, version: u64)
    ensures
        ({
            let marker = inactive_marker(source, version);
            &&& marker.status == UsageRecordStatusCode::Inactive
            &&& marker.version == version
            &&& marker.id == source.id
            &&& marker.tenant_id == source.tenant_id
            &&& marker.gts_id == source.gts_id
            &&& marker.value == source.value
            &&& marker.created_at == source.created_at
            &&& marker.resource_id == source.resource_id
            &&& marker.resource_type == source.resource_type
            &&& marker.subject_id == source.subject_id
            &&& marker.subject_type == source.subject_type
            &&& marker.idempotency_key == source.idempotency_key
            &&& marker.corrects_id == source.corrects_id
            &&& marker.metadata == source.metadata
            &&& marker.ingested_at == source.ingested_at
        }),
{
}

/// A record that was deactivated is read back as it was, but inactive.
pub proof fn law_deactivated_record_is_read_as_inactive<V: Fn(Candidate) -> Result<(), String>>(
    validate: V,
    source: RowView,
    version: u64,
    before: UsageRecordView,
    after: UsageRecordView,
)
    requires
        row_outcome(validate, source, Ok::<UsageRecordView, ErrorView>(before)),
        row_outcome(
            validate,
            inactive_marker(source, version),
            Ok::<UsageRecordView, ErrorView>(after),
        ),
    ensures
        after.status == UsageRecordStatus::Inactive,
        after == (UsageRecordView { status: UsageRecordStatus::Inactive, ..before }),
{
}

/// A usage type is its catalog row: the identifier, the kind that the row names,
/// and the metadata fields that the row lists and no others, all of them valid.
pub proof fn law_usage_type_is_what_its_row_holds<V: Fn(Candidate) -> Result<(), String>>(
    validate: V,
    row: UsageTypeRow,
    m: UsageType,
)
    requires
        type_row_outcome(validate, row, Ok::<UsageType, UsageCollectorPluginError>(m)),
    ensures
        m.gts_id@ == row.gts_id@,
        m.kind == UsageKind::Counter <==> row.kind == UsageTypeKindCode::Counter,
        m.kind == UsageKind::Gauge <==> row.kind == UsageTypeKindCode::Gauge,
        forall|i: int|
            0 <= i < row.metadata_fields@.len() ==> m.metadata_fields@.contains(
                (#[trigger] row.metadata_fields@[i])@,
            ),
        forall|k: Seq<char>| #[trigger]
            m.metadata_fields@.contains(k) ==> exists|i: int|
                0 <= i < row.metadata_fields@.len() && (#[trigger] row.metadata_fields@[i])@ == k,
        accepts(validate, CandidateView::GtsId(row.gts_id@)),
        forall|i: int|
            0 <= i < row.metadata_fields@.len() ==> accepts(
                validate,
                CandidateView::MetadataKey((#[trigger] row.metadata_fields@[i])@),
            ),
{
    let fields = texts(row.metadata_fields@);
    assert forall|i: int| 0 <= i < row.metadata_fields@.len() implies m.metadata_fields@.contains(
        (#[trigger] row.metadata_fields@[i])@,
    ) && accepts(validate, CandidateView::MetadataKey(row.metadata_fields@[i]@)) by {
        assert(fields[i] == row.metadata_fields@[i]@);
        assert(fields.contains(fields[i]));
    }
    assert forall|k: Seq<char>| #[trigger] m.metadata_fields@.contains(k) implies exists|i: int|
        0 <= i < row.metadata_fields@.len() && (#[trigger] row.metadata_fields@[i])@ == k by {
        assert(fields.contains(k));
        let i = choose|i: int| 0 <= i < fields.len() && fields[i] == k;
        assert(row.metadata_fields@[i]@ == k);
    }
}

/// A catalog row is read as a usage type wherever validation rejects nothing, and
/// else the text that was rejected is told.
pub proof fn law_catalog_row_is_read_or_told_why<V: Fn(Candidate) -> Result<(), String>>(
    validate: V,
    row: UsageTypeRow,
    outcome: Result<UsageType, UsageCollectorPluginError>,
)
    requires
        type_row_outcome(validate, row, outcome),
    ensures
        (forall|c: CandidateView, why: Seq<char>| !#[trigger] rejects(validate, c, why))
            ==> outcome is Ok,
        outcome matches Err(e) ==> exists|c: CandidateView, why: Seq<char>| #[trigger]
            rejects(validate, c, why) && match c {
                CandidateView::GtsId(t) => t == row.gts_id@ && e@ == ErrorView::Internal(
                    "stored gts_id `"@ + row.gts_id@ + "` invalid: "@ + why,
                ),
                CandidateView::MetadataKey(t) => texts(row.metadata_fields@).contains(t) && e@
                    == ErrorView::Internal("stored metadata_fields entry invalid: "@ + why),
                _ => false,
            },
{
    let fields = texts(row.metadata_fields@);
    if let Err(e) = outcome {
        if exists|why: Seq<char>| #[trigger]
            rejects(validate, CandidateView::GtsId(row.gts_id@), why) && e@ == invalid_gts_id(
                row.gts_id@,
                why,
            ) {
        } else {
            let (i, why) = choose|i: int, why: Seq<char>|
                0 <= i < fields.len() && fields_accepted(validate, fields, i) && #[trigger] rejects(
                    validate,
                    CandidateView::MetadataKey(fields[i]),
                    why,
                ) && e@ == ErrorView::Internal("stored metadata_fields entry invalid: "@ + why);
            assert(fields.contains(fields[i]));
            assert(rejects(validate, CandidateView::MetadataKey(fields[i]), why));
        }
    }
}

/// Stored codes stand for what they are called, and statuses are spelled as the
/// column spells them.
pub proof fn law_codes_stand_for_their_names()
    ensures
        status_of(UsageRecordStatusCode::Active) == UsageRecordStatus::Active,
        status_of(UsageRecordStatusCode::Inactive) == UsageRecordStatus::Inactive,
        code_of_status(UsageRecordStatus::Active) == UsageRecordStatusCode::Active,
        code_of_status(UsageRecordStatus::Inactive) == UsageRecordStatusCode::Inactive,
        kind_of(UsageTypeKindCode::Counter) == UsageKind::Counter,
        kind_of(UsageTypeKindCode::Gauge) == UsageKind::Gauge,
        code_of_kind(UsageKind::Counter) == UsageTypeKindCode::Counter,
        code_of_kind(UsageKind::Gauge) == UsageTypeKindCode::Gauge,
        status_text(UsageRecordStatus::Active) == "active"@,
        status_text(UsageRecordStatus::Inactive) == "inactive"@,
        UsageRecordStatusCode::Active.spec_discriminant() == 1,
        UsageRecordStatusCode::Inactive.spec_discriminant() == 2,
        UsageTypeKindCode::Counter.spec_discriminant() == 1,
        UsageTypeKindCode::Gauge.spec_discriminant() == 2,
{
}

/// The cursor key of a row under a field is the row's value in the column of that
/// name; a column without a value has none, and neither has any other name.
pub proof fn law_cursor_key_is_the_value_of_its_column(row: RowView, field: Seq<char>)
    ensures
        field == "id"@ ==> row_key(row, field) == Some(uuid_text(row.id.bits)),
        field == "tenant_id"@ ==> row_key(row, field) == Some(uuid_text(row.tenant_id.bits)),
        field == "corrects_id"@ ==> (row_key(row, field) is Some <==> row.corrects_id is Some),
        field == "corrects_id"@ ==> (row.corrects_id matches Some(id) ==> row_key(row, field)
            == Some(uuid_text(id.bits))),
        field == "created_at"@ && in_instant_range(row.created_at * 1000) ==> row_key(row, field)
            == rfc3339_spelling(row.created_at * 1000),
        field == "created_at"@ && !in_instant_range(row.created_at * 1000) ==> row_key(row, field)
            is None,
        field == "resource_id"@ ==> row_key(row, field) == Some(row.resource_id),
        field == "resource_type"@ ==> row_key(row, field) == Some(row.resource_type),
        field == "subject_id"@ ==> row_key(row, field) == row.subject_id,
        field == "subject_type"@ ==> row_key(row, field) == row.subject_type,
        field == "status"@ && row.status == UsageRecordStatusCode::Active ==> row_key(row, field)
            == Some("active"@),
        field == "status"@ && row.status == UsageRecordStatusCode::Inactive ==> row_key(row, field)
            == Some("inactive"@),
        row_key(row, field) is Some ==> field == "id"@ || field == "tenant_id"@ || field
            == "corrects_id"@ || field == "created_at"@ || field == "resource_id"@ || field
            == "resource_type"@ || field == "subject_id"@ || field == "subject_type"@ || field
            == "status"@,
{
    reveal_strlit("id");
    reveal_strlit("tenant_id");
    reveal_strlit("corrects_id");
    reveal_strlit("created_at");
    reveal_strlit("resource_id");
    reveal_strlit("resource_type");
    reveal_strlit("subject_id");
    reveal_strlit("subject_type");
    reveal_strlit("status");
    assert("resource_id"@[0] != "corrects_id"@[0]);
    assert("subject_id"@[0] != "created_at"@[0]);
    assert("created_at"@.len() == 10 && "subject_id"@.len() == 10);
    assert("corrects_id"@.len() == 11 && "resource_id"@.len() == 11);
    assert("tenant_id"@.len() == 9 && "resource_type"@.len() == 13 && "subject_type"@.len() == 12);
    assert("status"@.len() == 6 && "id"@.len() == 2);
}

/// A record and a row agree on every canonical field exactly when each of the
/// fields that a caller answers for is the same: the identifier, the value as a
/// number, the resource, the subject, the record that is corrected and the
/// metadata. The deduplication key, the event time and the status are none.
pub proof fn law_canonical_fields_are_these(row: RowView, incoming: UsageRecordView)
    ensures
        same_canonical_fields(row, incoming) <==> {
            &&& row.id == incoming.id
            &&& row.value.mantissa() * pow(10, incoming.value.scale) == incoming.value.mantissa()
                * pow(10, row.value.scale)
            &&& row.resource_id == incoming.resource_ref.id
            &&& row.resource_type == incoming.resource_ref.kind
            &&& incoming.subject_ref is None ==> row.subject_id is None && row.subject_type is None
            &&& incoming.subject_ref matches Some(s) ==> row.subject_id == Some(s.id)
                && row.subject_type == s.kind
            &&& row.corrects_id == incoming.corrects_id
            &&& row.metadata == incoming.metadata
        },
{
}

/// The version of a row that supersedes another is the later of two: that of the
/// current instant, and the one behind the other's with the offset added, which
/// stops at the largest number.
pub proof fn law_superseding_version_is_the_higher_of_two(
    now: u64,
    existing_version: u64,
    offset: u64,
)
    ensures
        ({
            let v = superseding_version(now, existing_version, offset);
            &&& v >= now
            &&& existing_version + offset + 1 <= u64::MAX ==> v >= existing_version + offset + 1
            &&& existing_version + offset + 1 > u64::MAX ==> v == u64::MAX
            &&& v == now || v == existing_version + offset + 1 || v == u64::MAX
                && existing_version + offset + 1 > u64::MAX
        }),
{
}

/// Merge versions are microseconds since the epoch, so a later instant never has
/// a lower one.
pub proof fn law_merge_versions_follow_the_clock(earlier: int, later: int)
    requires
        0 <= earlier <= later,
        in_instant_range(later),
    ensures
        merge_version(later) * 1000 <= later < merge_version(later) * 1000 + 1000,
        merge_version(earlier) <= merge_version(later),
{
}

/// A sum that fits is the sum, and one that does not is the largest number.
pub proof fn law_sums_stop_at_the_largest_number(a: int, b: int)
    requires
        0 <= a + b,
    ensures
        a + b <= u64::MAX ==> saturating_sum(a, b) == a + b,
        a + b > u64::MAX ==> saturating_sum(a, b) == 0xffff_ffff_ffff_ffffu64,
{
}

/// A row has a cursor key for its event time exactly in the years from zero to
/// the last that has four digits.
pub proof fn law_time_key_needs_a_year_of_four_digits(row: RowView)
    ensures
        has_time_key(row) <==> in_instant_range(row.created_at * 1000) && row.created_at * 1000
            >= -62_167_219_200_000_000_000,
{
}

/// Before the epoch the microseconds are negative, and the version is their
/// complement.
pub proof fn law_versions_before_the_epoch_are_complements(now: int)
    requires
        now < 0,
        in_instant_range(now),
    ensures
        merge_version(now) == now / 1000 + 0x1_0000_0000_0000_0000,
{
}

} // verus!
