//! Creating records, one by one and in batches.
use clickhouse_usage_collector_plugin::entity::{UsageRecordRow, UsageRecordStatusCode};
use clickhouse_usage_collector_plugin::mapper::{
    datetime_to_micros, make_inactive_marker, record_row_to_model, record_to_row, record_to_row_at,
};
use clickhouse_usage_collector_plugin::model::{
    Candidate, IdempotencyKey, MetadataKey, MetadataMap, ResourceRef, UsageCollectorPluginError,
    UsageRecord, UsageRecordStatus, UsageTypeGtsId,
};
use clickhouse_usage_collector_plugin::query::statement::prepared_select;
use clickhouse_usage_collector_plugin::record_store::batch::apply_insert_failure;
use clickhouse_usage_collector_plugin::record_store::batch_run::{BatchRun, BatchStep, Failure};
use clickhouse_usage_collector_plugin::record_store::create::{create_next, CreateEvent, CreateStep};
use clickhouse_usage_collector_plugin::record_store::dedup::{
    batch_dedup_lookup, dedup_point_lookup, err_for_partition, record_dedup_key, resolve_dedup_hit,
    row_dedup_key, same_key,
};
use clickhouse_usage_collector_plugin::record_store::partition::{
    partition_batch, partition_next, partition_start, Partition, PartitionEvent, PartitionStep,
};
use clickhouse_usage_collector_plugin::values::{Decimal, OffsetDateTime, Uuid};

fn validate(candidate: Candidate) -> Result<(), String> {
    match &candidate {
        Candidate::ResourceRef { resource_id, .. } if resource_id.is_empty() => {
            Err("empty".to_owned())
        }
        _ => Ok(()),
    }
}

fn record(id: u128, gts_id: &str) -> UsageRecord {
    let mut metadata = MetadataMap::new();
    metadata.insert(MetadataKey { value: "region".to_owned() }, "eu".to_owned());
    UsageRecord {
        id: Uuid::from_u128(id),
        tenant_id: Uuid::from_u128(7),
        gts_id: UsageTypeGtsId { value: gts_id.to_owned() },
        value: Decimal::new(15, 1),
        created_at: OffsetDateTime::from_unix_timestamp_nanos(1_000_000_999).unwrap(),
        resource_ref: ResourceRef { id: "r".to_owned(), kind: "vm".to_owned() },
        subject_ref: None,
        idempotency_key: IdempotencyKey { value: format!("key-{id}") },
        corrects_id: None,
        status: UsageRecordStatus::Active,
        metadata,
    }
}

fn internal(text: &str) -> UsageCollectorPluginError {
    UsageCollectorPluginError::Internal(text.to_owned())
}

fn failure(text: &str) -> Failure {
    Failure { error: internal(text), shown: text.to_owned() }
}

#[test]
fn a_record_is_read_back_from_its_row() {
    let now = OffsetDateTime::from_unix_timestamp_nanos(5_000).unwrap();
    let stored = record_to_row_at(&record(1, "a"), 3, now);
    assert_eq!(stored.ingested_at, 5);
    assert_eq!(stored.created_at, 1_000_000);
    let back = record_row_to_model(stored, &validate).unwrap();
    let source = record(1, "a");
    assert_eq!(back.id, source.id);
    assert_eq!(back.value, source.value);
    assert_eq!(back.metadata, source.metadata);
    // The event time is kept to the microsecond.
    assert_eq!(datetime_to_micros(back.created_at), datetime_to_micros(source.created_at));
    assert_eq!(back.created_at.unix_timestamp_nanos(), 1_000_000_000);
}

#[test]
fn a_row_keeps_the_key_of_its_record() {
    let row = record_to_row(&record(1, "a"), 3);
    assert!(same_key(&row_dedup_key(&row), &record_dedup_key(&record(1, "a"))));
    assert!(!same_key(&row_dedup_key(&row), &record_dedup_key(&record(2, "a"))));
    assert!(!same_key(&row_dedup_key(&row), &record_dedup_key(&record(1, "b"))));
}

#[test]
fn a_hit_is_absorbed_or_a_conflict() {
    let row = record_to_row(&record(1, "a"), 3);
    let absorbed = resolve_dedup_hit(&row, &record(1, "a"), &validate).unwrap();
    assert_eq!(absorbed.id, Uuid::from_u128(1));

    let mut other = record(1, "a");
    other.value = Decimal::new(16, 1);
    assert!(matches!(
        resolve_dedup_hit(&row, &other, &validate),
        Err(UsageCollectorPluginError::IdempotencyConflict { idempotency_key, existing_id })
            if idempotency_key == "key-1" && existing_id == Uuid::from_u128(1)
    ));

    let inactive = make_inactive_marker(&row, 9, 0);
    assert!(matches!(
        resolve_dedup_hit(&inactive, &record(1, "a"), &validate),
        Err(UsageCollectorPluginError::IdempotencyConflict { .. })
    ));
}

#[test]
fn a_stored_value_is_equal_as_a_number() {
    let mut row = record_to_row(&record(1, "a"), 3);
    row.value = Decimal::new(1_500_000_000, 9);
    assert!(resolve_dedup_hit(&row, &record(1, "a"), &validate).is_ok());
}

#[test]
fn a_key_is_looked_up_with_bound_values() {
    let client = clickhouse::Client::default();
    let query = prepared_select(&client, dedup_point_lookup(&record(1, "a"))).unwrap();
    let sql = query.sql_display().to_string();
    assert!(sql.ends_with(
        "FROM `usage_records` FINAL WHERE `tenant_id` = '00000000-0000-0000-0000-000000000007' \
         AND `gts_id` = 'a' AND `created_at` = (fromUnixTimestamp64Micro(1000000)) AND `id` = \
         '00000000-0000-0000-0000-000000000001'"
    ), "{sql}");
}

#[test]
fn keys_are_looked_up_together() {
    let client = clickhouse::Client::default();
    let records = vec![record(1, "a"), record(2, "b"), record(3, "a")];
    let query = batch_dedup_lookup(&client, &records, &vec![0, 2]).unwrap();
    let sql = query.sql_display().to_string();
    assert!(sql.ends_with(
        "FROM `usage_records` FINAL WHERE (tenant_id, gts_id, created_at, id) IN \
         (('00000000-0000-0000-0000-000000000007', 'a', fromUnixTimestamp64Micro(1000000), \
         '00000000-0000-0000-0000-000000000001'), ('00000000-0000-0000-0000-000000000007', 'a', \
         fromUnixTimestamp64Micro(1000000), '00000000-0000-0000-0000-000000000003'))"
    ), "{sql}");
    assert!(batch_dedup_lookup(&client, &records, &Vec::new()).is_none());
}

#[test]
fn failures_are_copied_for_each_record() {
    let transient = UsageCollectorPluginError::Transient {
        detail: "d".to_owned(),
        retry_after_seconds: Some(3),
    };
    assert!(matches!(
        err_for_partition(&transient, "shown"),
        UsageCollectorPluginError::Transient { detail, retry_after_seconds: Some(3) }
            if detail == "d"
    ));
    let unknown =
        UsageCollectorPluginError::UsageTypeNotFound { gts_id: record(1, "a").gts_id };
    assert!(matches!(
        err_for_partition(&unknown, "shown"),
        UsageCollectorPluginError::UsageTypeNotFound { gts_id } if gts_id.value == "a"
    ));
    assert!(matches!(
        err_for_partition(&internal("m"), "shown"),
        UsageCollectorPluginError::Internal(m) if m == "m"
    ));
    let other = UsageCollectorPluginError::UsageRecordNotFound { id: Uuid::from_u128(1) };
    assert!(matches!(
        err_for_partition(&other, "shown"),
        UsageCollectorPluginError::Internal(m) if m == "shown"
    ));
}

#[test]
fn a_failed_write_is_reported_where_it_was_waited_for() {
    let mut outcomes = vec![
        Some(Ok(record(1, "a"))),
        Some(Ok(record(2, "a"))),
        Some(Ok(record(3, "a"))),
    ];
    apply_insert_failure(&internal("down"), "shown", &vec![vec![0], vec![2]], &mut outcomes);
    assert!(matches!(&outcomes[0], Some(Err(UsageCollectorPluginError::Internal(m))) if m == "down"));
    assert!(matches!(&outcomes[1], Some(Ok(_))));
    assert!(matches!(&outcomes[2], Some(Err(_))));
}

fn created(events: Vec<CreateEvent>) -> (Vec<&'static str>, CreateStep) {
    let source = record(1, "a");
    let mut step = CreateStep::Lock;
    let mut names = Vec::new();
    for event in events {
        names.push(match &step {
            CreateStep::Lock => "lock",
            CreateStep::CheckCatalog => "catalog",
            CreateStep::LookUp => "look up",
            CreateStep::Renew => "renew",
            CreateStep::Insert(_) => "insert",
            CreateStep::Release(_) => "release",
            CreateStep::Done(_) => "done",
        });
        step = create_next(&source, step, event, &validate);
    }
    (names, step)
}

#[test]
fn a_new_record_is_written_under_its_lock() {
    let (names, last) = created(vec![
        CreateEvent::Succeeded,
        CreateEvent::Found(true),
        CreateEvent::Stored(None),
        CreateEvent::Succeeded,
        CreateEvent::Succeeded,
        CreateEvent::Succeeded,
    ]);
    assert_eq!(names, ["lock", "catalog", "look up", "renew", "insert", "release"]);
    assert!(matches!(last, CreateStep::Done(Ok(r)) if r.id == Uuid::from_u128(1)));
}

#[test]
fn an_unknown_usage_type_is_refused_and_the_lock_released() {
    let (names, last) = created(vec![
        CreateEvent::Succeeded,
        CreateEvent::Found(false),
        CreateEvent::Succeeded,
    ]);
    assert_eq!(names, ["lock", "catalog", "release"]);
    assert!(matches!(
        last,
        CreateStep::Done(Err(UsageCollectorPluginError::UsageTypeNotFound { gts_id }))
            if gts_id.value == "a"
    ));
}

#[test]
fn a_stored_record_is_answered_without_a_write() {
    let row = record_to_row(&record(1, "a"), 3);
    let (names, last) = created(vec![
        CreateEvent::Succeeded,
        CreateEvent::Found(true),
        CreateEvent::Stored(Some(row)),
        CreateEvent::Succeeded,
    ]);
    assert_eq!(names, ["lock", "catalog", "look up", "release"]);
    assert!(matches!(last, CreateStep::Done(Ok(_))));
}

#[test]
fn a_lock_that_is_not_had_is_not_released() {
    let (names, last) = created(vec![CreateEvent::Failed(internal("busy"))]);
    assert_eq!(names, ["lock"]);
    assert!(matches!(
        last,
        CreateStep::Done(Err(UsageCollectorPluginError::Internal(m))) if m == "busy"
    ));
}

#[test]
fn a_failed_release_fails_a_success_only() {
    let success = vec![
        CreateEvent::Succeeded,
        CreateEvent::Found(true),
        CreateEvent::Stored(None),
        CreateEvent::Succeeded,
        CreateEvent::Succeeded,
        CreateEvent::Failed(internal("release")),
    ];
    assert!(matches!(
        created(success).1,
        CreateStep::Done(Err(UsageCollectorPluginError::Internal(m))) if m == "release"
    ));
    let refused = vec![
        CreateEvent::Succeeded,
        CreateEvent::Found(true),
        CreateEvent::Stored(None),
        CreateEvent::Failed(internal("lost")),
        CreateEvent::Failed(internal("release")),
    ];
    assert!(matches!(
        created(refused).1,
        CreateStep::Done(Err(UsageCollectorPluginError::Internal(m))) if m == "lost"
    ));
}

#[test]
fn partitions_are_sorted_by_usage_type() {
    let records = vec![record(1, "b"), record(2, "a"), record(3, "b"), record(4, "c")];
    let parts = partition_batch(&records);
    let seen: Vec<(&str, Vec<usize>)> =
        parts.iter().map(|p| (p.gts_id.as_str(), p.idxs.clone())).collect();
    assert_eq!(seen, [("a", vec![1]), ("b", vec![0, 2]), ("c", vec![3])]);
}

#[test]
fn a_partition_is_read_in_three_steps() {
    let gts_id = record(1, "a").gts_id;
    let step = partition_start(&vec![0]);
    assert!(matches!(step, PartitionStep::CheckCatalog));
    let step = partition_next(&gts_id, step, PartitionEvent::Found(true));
    assert!(matches!(step, PartitionStep::LookUp));
    let row = record_to_row(&record(1, "a"), 3);
    let step = partition_next(&gts_id, step, PartitionEvent::Stored(vec![row]));
    assert!(matches!(step, PartitionStep::Renew(_)));
    let step = partition_next(&gts_id, step, PartitionEvent::Succeeded);
    assert!(matches!(step, PartitionStep::Done(Ok(rows)) if rows.len() == 1));
}

#[test]
fn a_partition_fails_as_a_whole() {
    let gts_id = record(1, "a").gts_id;
    assert!(matches!(
        partition_start(&Vec::new()),
        PartitionStep::Done(Err(UsageCollectorPluginError::Internal(m)))
            if m == "empty gts_id partition (invariant break)"
    ));
    assert!(matches!(
        partition_next(&gts_id, PartitionStep::CheckCatalog, PartitionEvent::Found(false)),
        PartitionStep::Done(Err(UsageCollectorPluginError::UsageTypeNotFound { .. }))
    ));
    assert!(matches!(
        partition_next(
            &gts_id,
            PartitionStep::Renew(Vec::new()),
            PartitionEvent::Failed(internal("lost"))
        ),
        PartitionStep::Done(Err(UsageCollectorPluginError::Internal(m))) if m == "lost"
    ));
}

type Answers = Vec<Result<UsageRecord, UsageCollectorPluginError>>;

/// Runs a batch to its end. `reads` and `renewals` are in the order of the locks
/// that were taken.
fn run(
    records: Vec<UsageRecord>,
    locks: Vec<Result<(), Failure>>,
    reads: Vec<Result<Vec<UsageRecordRow>, Failure>>,
    renewals: Vec<Result<(), Failure>>,
    write: Result<(), Failure>,
) -> (Vec<u64>, Answers) {
    let mut batch = BatchRun::start(records).unwrap();
    let mut next = 0;
    for lock in locks {
        assert_eq!(batch.step(), BatchStep::Lock(next));
        batch.lock_tried(lock);
        next += 1;
    }
    assert_eq!(batch.step(), BatchStep::Read);
    assert_eq!(batch.locked().len(), reads.len());
    batch.partitions_read(&reads, 100, &validate);
    assert_eq!(batch.step(), BatchStep::ReleaseDropped);
    batch.dropped_released();
    assert_eq!(batch.step(), BatchStep::Renew);
    assert_eq!(batch.held().len(), renewals.len());
    batch.locks_renewed(&renewals);
    assert_eq!(batch.step(), BatchStep::Insert);
    let versions = batch.plan().rows().iter().map(|r| r.version).collect();
    batch.rows_inserted(write);
    assert_eq!(batch.step(), BatchStep::Release);
    batch.held_released();
    assert_eq!(batch.step(), BatchStep::Done);
    (versions, batch.finish())
}

#[test]
fn an_empty_batch_is_refused() {
    assert!(matches!(
        BatchRun::start(Vec::new()),
        Err(UsageCollectorPluginError::Internal(m))
            if m == "create_usage_records called with an empty batch (host-contract breach)"
    ));
}

#[test]
fn a_batch_is_written_with_ascending_versions() {
    let records = vec![record(1, "b"), record(2, "a"), record(3, "b")];
    let (versions, answers) = run(
        records,
        vec![Ok(()), Ok(())],
        vec![Ok(Vec::new()), Ok(Vec::new())],
        vec![Ok(()), Ok(())],
        Ok(()),
    );
    assert_eq!(versions, [100, 101, 102]);
    let ids: Vec<u128> = answers.into_iter().map(|a| a.unwrap().id.bits).collect();
    assert_eq!(ids, [1, 2, 3]);
}

#[test]
fn a_key_is_written_once_in_a_batch() {
    let mut conflicting = record(1, "a");
    conflicting.value = Decimal::new(99, 0);
    let records = vec![record(1, "a"), record(1, "a"), conflicting];
    let (versions, answers) =
        run(records, vec![Ok(())], vec![Ok(Vec::new())], vec![Ok(())], Ok(()));
    assert_eq!(versions, [100]);
    assert!(answers[0].is_ok());
    assert!(answers[1].is_ok());
    assert!(matches!(
        &answers[2],
        Err(UsageCollectorPluginError::IdempotencyConflict { .. })
    ));
}

#[test]
fn a_stored_key_is_not_written_again() {
    let stored = record_to_row(&record(1, "a"), 3);
    let records = vec![record(1, "a"), record(2, "a")];
    let (versions, answers) =
        run(records, vec![Ok(())], vec![Ok(vec![stored])], vec![Ok(())], Err(failure("down")));
    // The absorbed record stands, although the write of the other failed.
    assert_eq!(versions, [100]);
    assert!(answers[0].is_ok());
    assert!(matches!(&answers[1], Err(UsageCollectorPluginError::Internal(m)) if m == "down"));
}

#[test]
fn a_success_is_a_row_that_was_read_or_written() {
    let stored = record_to_row(&record(1, "a"), 3);
    let records = vec![record(1, "a"), record(2, "a"), record(2, "a")];
    let keys: Vec<_> = records.iter().map(record_dedup_key).collect();
    let mut batch = BatchRun::start(records).unwrap();
    batch.lock_tried(Ok(()));
    batch.partitions_read(&vec![Ok(vec![stored.clone()])], 100, &validate);
    batch.dropped_released();
    batch.locks_renewed(&vec![Ok(())]);
    let mut backing = vec![stored];
    backing.extend(batch.plan().rows().iter().cloned());
    batch.rows_inserted(Ok(()));
    batch.held_released();
    assert_eq!(backing.len(), 2);
    for (answer, key) in batch.finish().into_iter().zip(keys) {
        let found = answer.unwrap();
        assert!(matches!(found.status, UsageRecordStatus::Active));
        assert!(same_key(&record_dedup_key(&found), &key));
        assert!(backing.iter().any(|row| {
            let read = record_row_to_model(row.clone(), &validate).unwrap();
            format!("{read:?}") == format!("{found:?}")
        }));
    }
}

#[test]
fn the_last_of_two_rows_under_a_key_counts() {
    let stale = make_inactive_marker(&record_to_row(&record(1, "a"), 3), 4, 0);
    assert_eq!(stale.status, UsageRecordStatusCode::Inactive);
    let fresh = record_to_row(&record(1, "a"), 5);
    let (versions, answers) = run(
        vec![record(1, "a")],
        vec![Ok(())],
        vec![Ok(vec![stale, fresh])],
        vec![Ok(())],
        Ok(()),
    );
    assert!(versions.is_empty());
    assert!(answers[0].is_ok());
}

#[test]
fn a_failed_lock_fails_its_partition_only() {
    let records = vec![record(1, "a"), record(2, "b")];
    let (versions, answers) = run(
        records,
        vec![Err(failure("busy")), Ok(())],
        vec![Ok(Vec::new())],
        vec![Ok(())],
        Ok(()),
    );
    assert_eq!(versions, [100]);
    assert!(matches!(&answers[0], Err(UsageCollectorPluginError::Internal(m)) if m == "busy"));
    assert!(answers[1].is_ok());
}

#[test]
fn a_failed_read_fails_its_partition_only() {
    let records = vec![record(1, "a"), record(2, "b")];
    let (versions, answers) = run(
        records,
        vec![Ok(()), Ok(())],
        vec![Ok(Vec::new()), Err(failure("gone"))],
        vec![Ok(())],
        Ok(()),
    );
    assert_eq!(versions, [100]);
    assert!(answers[0].is_ok());
    assert!(matches!(&answers[1], Err(UsageCollectorPluginError::Internal(m)) if m == "gone"));
}

#[test]
fn a_lost_lock_takes_its_rows_out_of_the_write() {
    let records = vec![record(1, "a"), record(2, "b"), record(3, "a")];
    let (versions, answers) = run(
        records,
        vec![Ok(()), Ok(())],
        vec![Ok(Vec::new()), Ok(Vec::new())],
        vec![Err(failure("lost")), Ok(())],
        Ok(()),
    );
    // The rows of `a` had the first two versions.
    assert_eq!(versions, [102]);
    assert!(matches!(&answers[0], Err(UsageCollectorPluginError::Internal(m)) if m == "lost"));
    assert!(answers[1].is_ok());
    assert!(answers[2].is_err());
}

/// The answers of some records, in a form that can be compared.
fn told(answers: &Answers, of: &[usize]) -> Vec<String> {
    of.iter().map(|i| format!("{:?}", answers[*i])).collect()
}

#[test]
fn a_failed_partition_leaves_the_others_as_they_are_without_it() {
    let stored = || record_to_row(&record(2, "b"), 3);
    let others = || {
        let mut conflicting = record(4, "b");
        conflicting.value = Decimal::new(99, 0);
        vec![record(2, "b"), record(4, "b"), conflicting]
    };
    let (_, alone) = run(
        others(),
        vec![Ok(())],
        vec![Ok(vec![stored()])],
        vec![Ok(())],
        Ok(()),
    );
    let mixed = || {
        let mut all = others();
        all.insert(1, record(1, "a"));
        all.insert(3, record(3, "a"));
        all
    };
    let courses = vec![
        (vec![Err(failure("busy")), Ok(())], vec![Ok(vec![stored()])], vec![Ok(())]),
        (
            vec![Ok(()), Ok(())],
            vec![Err(failure("gone")), Ok(vec![stored()])],
            vec![Ok(())],
        ),
        (
            vec![Ok(()), Ok(())],
            vec![Ok(Vec::new()), Ok(vec![stored()])],
            vec![Err(failure("lost")), Ok(())],
        ),
    ];
    for (locks, reads, renewals) in courses {
        let (_, answers) = run(mixed(), locks, reads, renewals, Ok(()));
        assert_eq!(told(&answers, &[0, 2, 4]), told(&alone, &[0, 1, 2]));
        assert!(answers[1].is_err() && answers[3].is_err());
    }
}

#[test]
fn a_plan_names_the_records_that_its_rows_are_for() {
    let stored = record_to_row(&record(2, "a"), 3);
    let records = vec![record(1, "a"), record(2, "a"), record(1, "a"), record(3, "a")];
    let mut batch = BatchRun::start(records).unwrap();
    assert!(batch.plan().outcome(0).is_none());
    batch.lock_tried(Ok(()));
    batch.partitions_read(&vec![Ok(vec![stored])], 100, &validate);
    assert_eq!(batch.plan().composed_for(), [0, 3]);
    assert!(matches!(batch.plan().outcome(1), Some(Ok(_))));
}

#[test]
fn a_record_that_cannot_be_read_back_is_answered_with_the_reason() {
    let mut unreadable = record(1, "a");
    unreadable.resource_ref.id = String::new();
    let (versions, answers) =
        run(vec![unreadable], vec![Ok(())], vec![Ok(Vec::new())], vec![Ok(())], Ok(()));
    assert_eq!(versions, [100]);
    assert!(matches!(&answers[0], Err(UsageCollectorPluginError::Internal(_))));
}

#[test]
fn two_batches_take_their_common_locks_in_the_same_order() {
    let one = partition_batch(&vec![record(1, "c"), record(2, "a"), record(3, "b")]);
    let other = partition_batch(&vec![record(4, "b"), record(5, "c")]);
    let types =
        |parts: &Vec<Partition>| -> Vec<String> { parts.iter().map(|p| p.gts_id.clone()).collect() };
    assert_eq!(types(&one), ["a", "b", "c"]);
    assert_eq!(types(&other), ["b", "c"]);
}

#[test]
fn every_lock_that_was_taken_is_released_once() {
    let records = vec![record(1, "a"), record(2, "b"), record(3, "c")];
    let mut batch = BatchRun::start(records).unwrap();
    batch.lock_tried(Ok(()));
    batch.lock_tried(Err(failure("busy")));
    batch.lock_tried(Ok(()));
    assert_eq!(batch.locked(), &vec![0, 2]);
    batch.partitions_read(&vec![Err(failure("gone")), Ok(Vec::new())], 100, &validate);
    assert_eq!(batch.dropped(), &vec![0]);
    batch.dropped_released();
    assert_eq!(batch.held(), &vec![2]);
    batch.locks_renewed(&vec![Err(failure("lost"))]);
    // A lock that was lost is still released.
    assert_eq!(batch.held(), &vec![2]);
    assert!(batch.plan().rows().is_empty());
    batch.rows_inserted(Ok(()));
    batch.held_released();
    assert_eq!(batch.finish().iter().filter(|a| a.is_err()).count(), 3);
}
