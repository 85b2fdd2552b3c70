//! Rows, records and what lies between them.
use clickhouse_usage_collector_plugin::entity::{
    UsageRecordRow, UsageRecordStatusCode, UsageTypeKindCode, UsageTypeRow,
};
use clickhouse_usage_collector_plugin::mapper::{
    canonical_equal, datetime_to_micros, gts_id_from_str, gts_id_str, kind_to_code,
    make_inactive_marker, metadata_btree_to_hashmap, metadata_hashmap_to_btree, micros_to_datetime,
    parse_kind, parse_status, record_row_key, record_row_to_model, record_to_row, status_to_code,
    status_to_str, type_row_to_model, version_higher_than,
};
use clickhouse_usage_collector_plugin::maps::StringMap;
use clickhouse_usage_collector_plugin::model::{
    Candidate, IdempotencyKey, MetadataKey, MetadataMap, ResourceRef, SubjectRef,
    UsageCollectorPluginError, UsageKind, UsageRecord, UsageRecordStatus, UsageTypeGtsId,
};
use clickhouse_usage_collector_plugin::values::{Decimal, OffsetDateTime, Uuid};

const VALID_GTS_ID: &str = "gts.cf.core.uc.usage_record.v1~cf.compute._.vcpu_hours.v1";

/// The gateway's rules, as far as the tests need them.
fn validate(candidate: Candidate) -> Result<(), String> {
    let valid = match &candidate {
        Candidate::GtsId(text) => text.starts_with("gts.") && text.contains('~'),
        Candidate::ResourceRef { resource_id, resource_type } => {
            !resource_id.is_empty() && !resource_type.is_empty()
        }
        Candidate::SubjectRef { subject_id, .. } => !subject_id.is_empty(),
        Candidate::IdempotencyKey(text) => !text.is_empty(),
        Candidate::MetadataKey(text) => !text.is_empty(),
    };
    if valid {
        Ok(())
    } else {
        Err("refused".to_owned())
    }
}

fn key(text: &str) -> MetadataKey {
    MetadataKey { value: text.to_owned() }
}

#[test]
fn parse_status_round_trips_through_code_form() {
    for status in [UsageRecordStatus::Active, UsageRecordStatus::Inactive] {
        let code = status_to_code(status);
        assert_eq!(parse_status(code), status);
    }
}

#[test]
fn status_to_str_emits_lowercase_wire_tokens() {
    assert_eq!(status_to_str(UsageRecordStatus::Active), "active");
    assert_eq!(status_to_str(UsageRecordStatus::Inactive), "inactive");
}

#[test]
fn parse_kind_round_trips_through_code_form() {
    for kind in [UsageKind::Counter, UsageKind::Gauge] {
        let code = kind_to_code(kind);
        assert_eq!(parse_kind(code), kind);
    }
}

#[test]
fn metadata_round_trips_hashmap_btree() {
    let mut btree = MetadataMap::new();
    btree.insert(key("region"), "eu-west".to_owned());
    btree.insert(key("tier"), "gold".to_owned());

    let hmap = metadata_btree_to_hashmap(&btree);
    let back = metadata_hashmap_to_btree(hmap, &validate).unwrap();
    assert_eq!(back, btree);
}

#[test]
fn empty_metadata_round_trips() {
    let btree = MetadataMap::new();
    let hmap = metadata_btree_to_hashmap(&btree);
    assert!(hmap.is_empty());
    assert!(metadata_hashmap_to_btree(hmap, &validate).unwrap().is_empty());
}

#[test]
fn metadata_hashmap_invalid_key_is_internal() {
    let mut hmap = StringMap::new();
    hmap.insert(String::new(), "value".to_owned());
    assert!(matches!(
        metadata_hashmap_to_btree(hmap, &validate),
        Err(UsageCollectorPluginError::Internal(_))
    ));
}

#[test]
fn gts_id_from_str_accepts_valid_and_rejects_invalid_as_internal() {
    assert!(gts_id_from_str(VALID_GTS_ID, &validate).is_ok());
    assert!(matches!(
        gts_id_from_str("not-a-valid-gts-id", &validate),
        Err(UsageCollectorPluginError::Internal(_))
    ));
}

#[test]
fn gts_id_str_returns_raw_string() {
    let gts_id = UsageTypeGtsId { value: VALID_GTS_ID.to_owned() };
    assert_eq!(gts_id_str(&gts_id), VALID_GTS_ID);
}

fn valid_metadata_hmap() -> StringMap {
    let mut m = StringMap::new();
    m.insert("region".to_owned(), "eu-west".to_owned());
    m
}

fn valid_record_row() -> UsageRecordRow {
    UsageRecordRow {
        id: Uuid::from_u128(1),
        tenant_id: Uuid::from_u128(2),
        gts_id: VALID_GTS_ID.to_owned(),
        value: Decimal::new(425, 1),
        created_at: 1_700_000_000 * 1_000_000_i64,
        resource_id: "res-1".to_owned(),
        resource_type: "compute.vm".to_owned(),
        subject_id: Some("subj-1".to_owned()),
        subject_type: Some("user".to_owned()),
        idempotency_key: "idem-1".to_owned(),
        corrects_id: None,
        status: UsageRecordStatusCode::Active,
        metadata: valid_metadata_hmap(),
        ingested_at: 1_700_000_100 * 1_000_000_i64,
        version: 1_700_000_000_000_000_u64,
    }
}

#[test]
fn record_row_to_model_maps_valid_row() {
    let row = valid_record_row();
    let model = record_row_to_model(row, &validate).expect("a fully valid row must map");

    assert_eq!(model.id, Uuid::from_u128(1));
    assert_eq!(model.tenant_id, Uuid::from_u128(2));
    assert_eq!(model.gts_id, UsageTypeGtsId { value: VALID_GTS_ID.to_owned() });
    assert_eq!(model.value, Decimal::new(425, 1));
    assert_eq!(model.resource_ref.resource_id(), "res-1");
    assert_eq!(model.resource_ref.resource_type(), "compute.vm");
    let subject = model.subject_ref.as_ref().expect("subject present");
    assert_eq!(subject.subject_id(), "subj-1");
    assert_eq!(subject.subject_type(), Some("user"));
    assert_eq!(model.idempotency_key.as_str(), "idem-1");
    assert_eq!(model.corrects_id, None);
    assert_eq!(model.status, UsageRecordStatus::Active);
    assert_eq!(model.metadata.get(&key("region")), Some(&"eu-west".to_owned()));
}

#[test]
fn record_row_absent_subject_maps_to_none() {
    let mut row = valid_record_row();
    row.subject_id = None;
    row.subject_type = None;
    let model = record_row_to_model(row, &validate).expect("a row without a subject maps");
    assert!(model.subject_ref.is_none());
}

#[test]
fn record_row_invalid_gts_id_is_internal() {
    let mut row = valid_record_row();
    row.gts_id = "not-a-valid-gts-id".to_owned();
    assert!(matches!(
        record_row_to_model(row, &validate),
        Err(UsageCollectorPluginError::Internal(_))
    ));
}

#[test]
fn record_row_invalid_resource_ref_is_internal() {
    let mut row = valid_record_row();
    row.resource_id = String::new();
    assert!(matches!(
        record_row_to_model(row, &validate),
        Err(UsageCollectorPluginError::Internal(_))
    ));
}

#[test]
fn record_row_invalid_subject_ref_is_internal() {
    let mut row = valid_record_row();
    row.subject_id = Some(String::new());
    assert!(matches!(
        record_row_to_model(row, &validate),
        Err(UsageCollectorPluginError::Internal(_))
    ));
}

#[test]
fn record_row_invalid_idempotency_key_is_internal() {
    let mut row = valid_record_row();
    row.idempotency_key = String::new();
    assert!(matches!(
        record_row_to_model(row, &validate),
        Err(UsageCollectorPluginError::Internal(_))
    ));
}

fn valid_type_row() -> UsageTypeRow {
    UsageTypeRow {
        gts_id: VALID_GTS_ID.to_owned(),
        kind: UsageTypeKindCode::Counter,
        metadata_fields: vec!["region".to_owned(), "tier".to_owned()],
        version: 1,
    }
}

#[test]
fn type_row_to_model_maps_valid_row() {
    let model =
        type_row_to_model(valid_type_row(), &validate).expect("a fully valid type row must map");
    assert_eq!(model.gts_id, UsageTypeGtsId { value: VALID_GTS_ID.to_owned() });
    assert_eq!(model.kind, UsageKind::Counter);
    assert_eq!(model.metadata_fields.len(), 2);
    assert!(model.metadata_fields.contains(&key("region")));
}

#[test]
fn type_row_invalid_gts_id_is_internal() {
    let mut row = valid_type_row();
    row.gts_id = "not-a-valid-gts-id".to_owned();
    assert!(matches!(
        type_row_to_model(row, &validate),
        Err(UsageCollectorPluginError::Internal(_))
    ));
}

#[test]
fn type_row_invalid_metadata_field_is_internal() {
    let mut row = valid_type_row();
    row.metadata_fields = vec![String::new()];
    assert!(matches!(
        type_row_to_model(row, &validate),
        Err(UsageCollectorPluginError::Internal(_))
    ));
}

#[test]
fn canonical_equal_returns_true_for_identical_fields() {
    let row = valid_record_row();
    let created_at =
        OffsetDateTime::from_unix_timestamp_nanos(i128::from(row.created_at) * 1_000).unwrap();

    let record = UsageRecord {
        id: row.id,
        tenant_id: row.tenant_id,
        gts_id: UsageTypeGtsId { value: row.gts_id.clone() },
        value: row.value,
        created_at,
        resource_ref: ResourceRef { id: row.resource_id.clone(), kind: row.resource_type.clone() },
        subject_ref: None,
        idempotency_key: IdempotencyKey { value: row.idempotency_key.clone() },
        corrects_id: None,
        status: UsageRecordStatus::Active,
        metadata: MetadataMap::new(),
    };

    // The row has a subject and metadata, the record does not.
    assert!(!canonical_equal(&row, &record, &validate).unwrap());

    // The record that the row stands for agrees with it.
    let same = record_row_to_model(valid_record_row(), &validate).unwrap();
    assert!(canonical_equal(&row, &same, &validate).unwrap());
}

#[test]
fn version_higher_than_is_always_strictly_greater() {
    let existing = 1_000_u64;
    let result = version_higher_than(existing, 0);
    assert!(result > existing);
}

#[test]
fn version_higher_than_with_offset_adds_headroom() {
    let existing = 1_000_u64;
    let result = version_higher_than(existing, 5);
    assert!(result > existing.saturating_add(5));
}

#[test]
fn record_to_row_maps_active_fields_and_optional_subject() {
    let created_at =
        OffsetDateTime::from_unix_timestamp_nanos(1_700_000_000 * 1_000_000_000).unwrap();
    let mut metadata = MetadataMap::new();
    metadata.insert(key("region"), "eu-west".to_owned());

    let record = UsageRecord {
        id: Uuid::from_u128(11),
        tenant_id: Uuid::from_u128(22),
        gts_id: UsageTypeGtsId { value: VALID_GTS_ID.to_owned() },
        value: Decimal::new(100, 0),
        created_at,
        resource_ref: ResourceRef { id: "res-9".to_owned(), kind: "compute.vm".to_owned() },
        subject_ref: Some(SubjectRef { id: "subj-9".to_owned(), kind: Some("user".to_owned()) }),
        idempotency_key: IdempotencyKey { value: "idem-9".to_owned() },
        corrects_id: Some(Uuid::from_u128(33)),
        // What is written is active all the same.
        status: UsageRecordStatus::Inactive,
        metadata,
    };

    let row = record_to_row(&record, 42);
    assert_eq!(row.id, record.id);
    assert_eq!(row.tenant_id, record.tenant_id);
    assert_eq!(row.gts_id, VALID_GTS_ID);
    assert_eq!(row.value, record.value);
    assert_eq!(row.resource_id, "res-9");
    assert_eq!(row.resource_type, "compute.vm");
    assert_eq!(row.subject_id.as_deref(), Some("subj-9"));
    assert_eq!(row.subject_type.as_deref(), Some("user"));
    assert_eq!(row.idempotency_key, "idem-9");
    assert_eq!(row.corrects_id, Some(Uuid::from_u128(33)));
    assert_eq!(row.status, UsageRecordStatusCode::Active);
    assert_eq!(row.version, 42);
    assert_eq!(row.metadata.get("region").map(String::as_str), Some("eu-west"));
}

#[test]
fn make_inactive_marker_flips_status_and_bumps_version() {
    let source = valid_record_row();
    let marker = make_inactive_marker(&source, 100, 3);
    assert_eq!(marker.status, UsageRecordStatusCode::Inactive);
    assert_eq!(marker.version, 103);
    assert_eq!(marker.id, source.id);
}

#[test]
fn record_row_key_extracts_known_fields() {
    let row = valid_record_row();
    assert_eq!(record_row_key(&row, "id"), Some(row.id.to_string()));
    assert_eq!(record_row_key(&row, "tenant_id"), Some(row.tenant_id.to_string()));
    assert_eq!(record_row_key(&row, "resource_id"), Some("res-1".to_owned()));
    assert_eq!(record_row_key(&row, "resource_type"), Some("compute.vm".to_owned()));
    assert_eq!(record_row_key(&row, "subject_id"), Some("subj-1".to_owned()));
    assert_eq!(record_row_key(&row, "subject_type"), Some("user".to_owned()));
    assert_eq!(record_row_key(&row, "status"), Some("active".to_owned()));
    assert!(record_row_key(&row, "created_at").is_some());
    assert_eq!(record_row_key(&row, "corrects_id"), None);
    assert_eq!(record_row_key(&row, "unknown"), None);

    let mut with_corrects = row;
    with_corrects.corrects_id = Some(Uuid::from_u128(99));
    assert_eq!(
        record_row_key(&with_corrects, "corrects_id"),
        Some(Uuid::from_u128(99).to_string())
    );
}

#[test]
fn times_before_the_year_zero_have_no_key() {
    let mut row = valid_record_row();
    row.created_at = -62_167_219_200_000_000;
    assert_eq!(record_row_key(&row, "created_at"), Some("0000-01-01T00:00:00Z".to_owned()));
    row.created_at -= 1;
    assert_eq!(record_row_key(&row, "created_at"), None);
    row.created_at = i64::MAX;
    assert_eq!(record_row_key(&row, "created_at"), None);
}

#[test]
fn micros_to_datetime_round_trips_a_stored_timestamp() {
    let micros = 1_700_000_000_123_456_i64;
    let dt = micros_to_datetime(micros).expect("an in-range timestamp must convert");
    assert_eq!(datetime_to_micros(dt), micros);
}

#[test]
fn micros_to_datetime_rejects_out_of_range_value() {
    let err =
        micros_to_datetime(i64::MAX).expect_err("i64::MAX microseconds is far past year 9999");
    assert!(
        matches!(&err, UsageCollectorPluginError::Internal(msg) if msg.contains("out of range")),
        "unexpected error: {err:?}"
    );
}
