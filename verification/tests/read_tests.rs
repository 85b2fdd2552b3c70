//! Reading, listing, aggregating and deactivating.
use clickhouse_usage_collector_plugin::entity::{UsageRecordRow, UsageRecordStatusCode};
use clickhouse_usage_collector_plugin::maps::StringMap;
use clickhouse_usage_collector_plugin::model::{
    Candidate, MetadataKey, UsageCollectorPluginError, UsageTypeGtsId,
};
use clickhouse_usage_collector_plugin::query::aggregate::{AggregationDimension, AggregationOp};
use clickhouse_usage_collector_plugin::query::bind::{ODataValue, SqlBind};
use clickhouse_usage_collector_plugin::query::keyset::{
    cursor_key_to_bind, CursorV1, FieldKind, ODataOrderBy, OrderKey,
};
use clickhouse_usage_collector_plugin::query::statement::build_select_final;
use clickhouse_usage_collector_plugin::query::translate::{FilterNode, FilterOp};
use clickhouse_usage_collector_plugin::record_store::aggregation::{
    aggregate_query, aggregate_statement, AggregationSpec,
};
use clickhouse_usage_collector_plugin::record_store::buckets::{
    bucket_from_data_row, covers_bucket, sea_value_as_optional_bigdecimal, sea_value_as_string,
    ResultRow,
};
use clickhouse_usage_collector_plugin::record_store::deactivate::{
    deactivation_marker_at, deactivation_markers, deactivation_query, get_query, record_found,
};
use clickhouse_usage_collector_plugin::record_store::json_rows::{
    json_key, json_measure, parse_aggregate_response, trim_text, JsonMember,
};
use clickhouse_usage_collector_plugin::record_store::list::{
    list_query, list_statement, ListQuery, MetadataFilter,
};
use clickhouse_usage_collector_plugin::record_store::page::page_of_rows;
use clickhouse_usage_collector_plugin::sql::SortDir;
use clickhouse_usage_collector_plugin::values::{Decimal, Uuid};
use sea_query::Value;
use std::io::BufRead;

const RECORD_COLUMNS: &str = "`id`, `tenant_id`, `gts_id`, `value`, `created_at`, `resource_id`, \
     `resource_type`, `subject_id`, `subject_type`, `idempotency_key`, `corrects_id`, `status`, \
     `metadata`, `ingested_at`, `version`";

fn validate(candidate: Candidate) -> Result<(), String> {
    match &candidate {
        Candidate::GtsId(text) if text.is_empty() => Err("empty".to_owned()),
        _ => Ok(()),
    }
}

fn row(id: u128, version: u64) -> UsageRecordRow {
    UsageRecordRow {
        id: Uuid::from_u128(id),
        tenant_id: Uuid::from_u128(7),
        gts_id: "g".to_owned(),
        value: Decimal::new(425, 1),
        created_at: 1_000_000 + id as i64,
        resource_id: "r".to_owned(),
        resource_type: "vm".to_owned(),
        subject_id: None,
        subject_type: None,
        idempotency_key: "k".to_owned(),
        corrects_id: None,
        status: UsageRecordStatusCode::Active,
        metadata: StringMap::new(),
        ingested_at: 0,
        version,
    }
}

fn gts_id() -> UsageTypeGtsId {
    UsageTypeGtsId { value: "g".to_owned() }
}

fn kind(field: &str) -> Option<FieldKind> {
    match field {
        "id" => Some(FieldKind::Uuid),
        "created_at" => Some(FieldKind::DateTimeUtc),
        _ => Some(FieldKind::String),
    }
}

fn safe(field: &str) -> bool {
    field != "subject_id"
}

fn asked(limit: u64) -> ListQuery {
    ListQuery {
        filter: None,
        order: ODataOrderBy {
            keys: vec![
                OrderKey { field: "created_at".to_owned(), dir: SortDir::Asc },
                OrderKey { field: "id".to_owned(), dir: SortDir::Asc },
            ],
        },
        signed_tokens: "+created_at,+id".to_owned(),
        filter_hash: None,
        cursor: None,
        cursor_order_matches: true,
        limit,
    }
}

fn client() -> clickhouse::Client {
    clickhouse::Client::default()
}

/// The text of a query, its bound values in place.
fn shown(
    query: Result<clickhouse::query::Query, UsageCollectorPluginError>,
) -> Result<String, UsageCollectorPluginError> {
    query.map(|q| q.sql_display().to_string())
}

fn listed(q: &ListQuery) -> Result<String, UsageCollectorPluginError> {
    shown(list_query(&client(), &gts_id(), q, &Vec::new(), kind, safe))
}

fn refusal<T>(r: Result<T, UsageCollectorPluginError>) -> String {
    match r {
        Err(UsageCollectorPluginError::Internal(m)) => m,
        Err(other) => panic!("unexpected error: {other:?}"),
        Ok(_) => panic!("unexpected success"),
    }
}

fn status_filter() -> FilterNode {
    FilterNode::Binary {
        field: "status".to_owned(),
        op: FilterOp::Eq,
        value: ODataValue::String("active".to_owned()),
    }
}

#[test]
fn a_page_reads_one_row_more_than_it_holds() {
    assert_eq!(
        listed(&asked(2)).unwrap(),
        format!(
            "SELECT {RECORD_COLUMNS} FROM `usage_records` FINAL WHERE `gts_id` = 'g' ORDER BY \
             created_at ASC, id ASC LIMIT 3"
        )
    );
    assert!(listed(&asked(u64::MAX)).unwrap().ends_with(&format!("LIMIT {}", u64::MAX)));
}

#[test]
fn a_page_is_filtered_by_fields_and_metadata() {
    let mut q = asked(2);
    q.filter = Some(Ok(status_filter()));
    let metadata = vec![
        MetadataFilter {
            key: MetadataKey { value: "region".to_owned() },
            values: vec!["eu".to_owned(), "us".to_owned()],
        },
        MetadataFilter { key: MetadataKey { value: "tier".to_owned() }, values: Vec::new() },
    ];
    let sql = shown(list_query(&client(), &gts_id(), &q, &metadata, kind, safe)).unwrap();
    assert!(sql.contains(
        "WHERE `gts_id` = 'g' AND `status` = 'active' AND (arrayElement(metadata, 'region') IN \
         ('eu', 'us')) AND (FALSE) ORDER BY"
    ), "{sql}");
}

fn cursor() -> CursorV1 {
    CursorV1 {
        k: vec![
            "1970-01-01T00:00:01.000002Z".to_owned(),
            Uuid::from_u128(2).to_string(),
        ],
        o: SortDir::Asc,
        s: "+created_at,+id".to_owned(),
        f: None,
        d: "fwd".to_owned(),
    }
}

#[test]
fn a_cursor_continues_behind_its_row() {
    let mut q = asked(2);
    q.cursor = Some(cursor());
    let sql = listed(&q).unwrap();
    assert!(sql.contains(
        "WHERE `gts_id` = 'g' AND ((created_at, id) > (fromUnixTimestamp64Micro(1000002), \
         '00000000-0000-0000-0000-000000000002')) ORDER BY"
    ), "{sql}");
}

#[test]
fn a_page_is_refused_with_a_reason() {
    let mut q = asked(2);
    q.filter = Some(Err("bad".to_owned()));
    assert_eq!(refusal(listed(&q)), "invalid filter: bad");

    let mut q = asked(2);
    q.filter = Some(Ok(FilterNode::InList { field: "status".to_owned(), values: Vec::new() }));
    assert!(refusal(listed(&q)).contains("IN list must not be empty"));

    let mut q = asked(2);
    q.cursor = Some(CursorV1 { d: "bwd".to_owned(), ..cursor() });
    assert!(refusal(listed(&q)).contains("only forward paging is supported"));

    let mut q = asked(2);
    q.cursor = Some(cursor());
    q.filter_hash = Some("h".to_owned());
    assert_eq!(refusal(listed(&q)), "cursor filter hash mismatch");

    let mut q = asked(2);
    q.cursor = Some(cursor());
    q.cursor_order_matches = false;
    assert_eq!(refusal(listed(&q)), "cursor sort order mismatch");

    let mut q = asked(2);
    q.cursor = Some(CursorV1 { k: vec!["x".to_owned(), "y".to_owned()], ..cursor() });
    assert!(refusal(listed(&q)).starts_with("invalid datetime cursor key `x`: "));

    let mut q = asked(2);
    q.order.keys.clear();
    assert_eq!(refusal(listed(&q)), "order must not be empty");

    let mut q = asked(2);
    q.order.keys[1].field = "nope".to_owned();
    assert_eq!(refusal(listed(&q)), "order field not allowlisted: nope");
}

fn encode(c: CursorV1) -> Result<String, String> {
    Ok(c.k.join("|"))
}

#[test]
fn a_full_page_names_the_next_one() {
    let page = page_of_rows(vec![row(1, 1), row(2, 1), row(3, 1)], &asked(2), &encode, &validate)
        .unwrap();
    let ids: Vec<u128> = page.items.iter().map(|r| r.id.bits).collect();
    assert_eq!(ids, [1, 2]);
    let expected = cursor().k.join("|");
    assert_eq!(page.page_info.next_cursor, Some(expected));
    assert_eq!(page.page_info.prev_cursor, None);
    assert_eq!(page.page_info.limit, 2);
}

/// What the server reads for a page: the rows behind the cursor, one more than
/// the page holds.
fn served(table: &[UsageRecordRow], q: &ListQuery) -> Vec<UsageRecordRow> {
    let behind = |r: &&UsageRecordRow| match &q.cursor {
        None => true,
        Some(c) => {
            let micros = match cursor_key_to_bind(FieldKind::DateTimeUtc, &c.k[0]) {
                Ok(SqlBind::DateTime64Micros(n)) => n,
                other => panic!("unexpected key: {other:?}"),
            };
            let id = Uuid::parse_str(&c.k[1]).unwrap();
            (r.created_at, r.id.bits) > (micros, id.bits)
        }
    };
    table.iter().filter(behind).take(q.limit as usize + 1).cloned().collect()
}

#[test]
fn following_the_cursors_gives_every_record_once() {
    // Rows with the same time are told apart by their identifiers.
    let table: Vec<UsageRecordRow> = (1..=7_u128)
        .map(|id| {
            let mut r = row(id, 1);
            r.created_at = 1_000_000 + (id as i64) / 3;
            r
        })
        .collect();
    for limit in [1, 2, 3, 7, 8] {
        let mut q = asked(limit);
        let mut ids: Vec<u128> = Vec::new();
        loop {
            assert!(listed(&q).is_ok());
            let page = page_of_rows(served(&table, &q), &q, &encode, &validate).unwrap();
            ids.extend(page.items.iter().map(|r| r.id.bits));
            match page.page_info.next_cursor {
                None => break,
                Some(token) => {
                    let keys = token.split('|').map(str::to_owned).collect();
                    q.cursor = Some(CursorV1 { k: keys, ..cursor() });
                }
            }
        }
        assert_eq!(ids, [1, 2, 3, 4, 5, 6, 7], "limit {limit}");
    }
}

#[test]
fn a_last_page_names_no_other() {
    for rows in [vec![], vec![row(1, 1)], vec![row(1, 1), row(2, 1)]] {
        let n = rows.len();
        let page = page_of_rows(rows, &asked(2), &encode, &validate).unwrap();
        assert_eq!(page.items.len(), n);
        assert_eq!(page.page_info.next_cursor, None);
    }
}

#[test]
fn a_page_fails_with_a_reason() {
    let rows = || vec![row(1, 1), row(2, 1), row(3, 1)];
    assert_eq!(
        refusal(page_of_rows(rows(), &asked(0), &encode, &validate)),
        "non-empty page lost its tail"
    );
    let mut q = asked(2);
    q.order.keys[1].field = "corrects_id".to_owned();
    assert_eq!(
        refusal(page_of_rows(rows(), &q, &encode, &validate)),
        "order field `corrects_id` has no cursor key on the row"
    );
    let mut q = asked(2);
    q.order.keys.clear();
    assert_eq!(
        refusal(page_of_rows(rows(), &q, &encode, &validate)),
        "cursor order must not be empty"
    );
    assert_eq!(
        refusal(page_of_rows(rows(), &asked(2), &|_c: CursorV1| Err("no".to_owned()), &validate)),
        "cursor encode failed: no"
    );
    let mut unreadable = rows();
    unreadable[1].gts_id = String::new();
    assert!(page_of_rows(unreadable, &asked(5), &encode, &validate).is_err());
}

#[test]
fn a_record_is_found_or_not() {
    let id = Uuid::from_u128(1);
    let sql = shown(get_query(&client(), id)).unwrap();
    assert!(sql.ends_with(
        "FROM `usage_records` FINAL WHERE `id` = '00000000-0000-0000-0000-000000000001'"
    ));
    assert_eq!(record_found(Some(row(1, 1)), id, &validate).unwrap().id, id);
    assert!(matches!(
        record_found(None, id, &validate),
        Err(UsageCollectorPluginError::UsageRecordNotFound { id: missing }) if missing == id
    ));
}

#[test]
fn a_deactivation_reads_the_record_and_its_active_compensations() {
    let sql = shown(deactivation_query(&client(), Uuid::from_u128(1))).unwrap();
    assert!(sql.ends_with(
        "FROM `usage_records` FINAL WHERE `id` = '00000000-0000-0000-0000-000000000001' OR \
         (`corrects_id` = '00000000-0000-0000-0000-000000000001' AND (status = 'active'))"
    ), "{sql}");
}

#[test]
fn a_deactivation_supersedes_every_row() {
    let mut compensation = row(2, 50);
    compensation.corrects_id = Some(Uuid::from_u128(1));
    let rows = vec![compensation, row(1, u64::MAX - 5)];
    let markers = deactivation_markers(&rows, Uuid::from_u128(1)).unwrap();
    assert_eq!(markers.len(), 2);
    for (marker, source) in markers.iter().zip(&rows) {
        assert_eq!(marker.status, UsageRecordStatusCode::Inactive);
        assert!(marker.version > source.version);
        assert_eq!(marker.id, source.id);
        assert_eq!(marker.created_at, source.created_at);
        assert_eq!(marker.corrects_id, source.corrects_id);
    }
    assert_eq!(markers[1].version, u64::MAX - 3);
    assert_eq!(deactivation_marker_at(&rows[0], 3, 0).version, 54);
    assert_eq!(deactivation_marker_at(&rows[0], 3, 1_000).version, 1_000);
}

#[test]
fn a_deactivation_is_refused_with_a_reason() {
    let id = Uuid::from_u128(1);
    assert!(matches!(
        deactivation_markers(&vec![row(2, 1)], id),
        Err(UsageCollectorPluginError::UsageRecordNotFound { id: missing }) if missing == id
    ));
    let mut inactive = row(1, 1);
    inactive.status = UsageRecordStatusCode::Inactive;
    assert!(matches!(
        deactivation_markers(&vec![inactive], id),
        Err(UsageCollectorPluginError::UsageRecordAlreadyInactive { id: again }) if again == id
    ));
}

#[test]
fn an_aggregation_groups_by_its_dimensions() {
    let spec = AggregationSpec {
        op: AggregationOp::Sum,
        group_by: vec![
            AggregationDimension::SubjectId,
            AggregationDimension::Metadata(MetadataKey { value: "region".to_owned() }),
        ],
    };
    let filter = Some(Ok(status_filter()));
    assert_eq!(
        shown(aggregate_query(&client(), &gts_id(), &filter, &Vec::new(), &spec, 10)).unwrap(),
        "SELECT subject_id AS `d0`, arrayElement(metadata, 'region') AS `d1`, SUM(value) AS `agg` \
         FROM `usage_records` FINAL WHERE `gts_id` = 'g' AND (status = 'active') AND `status` = \
         'active' AND (subject_id IS NOT NULL) GROUP BY 1, 2 LIMIT 11"
    );
}

#[test]
fn an_aggregation_without_dimensions_has_one_group() {
    let spec = AggregationSpec { op: AggregationOp::Count, group_by: Vec::new() };
    assert_eq!(
        shown(aggregate_query(&client(), &gts_id(), &None, &Vec::new(), &spec, 10)).unwrap(),
        "SELECT COUNT(*) AS `agg` FROM `usage_records` FINAL WHERE `gts_id` = 'g' AND (status = \
         'active') AND (corrects_id IS NULL)"
    );
    let refused = Some(Err("bad".to_owned()));
    assert_eq!(
        refusal(aggregate_query(&client(), &gts_id(), &refused, &Vec::new(), &spec, 10)),
        "invalid filter: bad"
    );
}

#[test]
fn a_page_binds_its_values_in_the_order_of_its_clauses() {
    let mut q = asked(2);
    q.filter = Some(Ok(FilterNode::Composite {
        op: FilterOp::Or,
        children: vec![
            status_filter(),
            FilterNode::Not(Box::new(FilterNode::InList {
                field: "resource_id".to_owned(),
                values: vec![
                    ODataValue::String("?".to_owned()),
                    ODataValue::String("b".to_owned()),
                ],
            })),
        ],
    }));
    q.cursor = Some(cursor());
    let metadata = vec![
        MetadataFilter { key: MetadataKey { value: "tier".to_owned() }, values: Vec::new() },
        MetadataFilter {
            key: MetadataKey { value: "region".to_owned() },
            values: vec!["eu".to_owned(), "us".to_owned()],
        },
    ];
    let stmt = list_statement(&gts_id(), &q, &metadata, kind, safe).unwrap();
    let (_, values) = build_select_final(stmt);
    assert_eq!(
        values,
        [
            Value::from("g"),
            Value::from("active"),
            Value::from("?"),
            Value::from("b"),
            Value::from("region"),
            Value::from("eu"),
            Value::from("us"),
            Value::from(1_000_002_i64),
            Value::from("00000000-0000-0000-0000-000000000002"),
            Value::from(3_u64),
        ]
    );
}

#[test]
fn an_aggregation_binds_its_keys_before_its_conditions() {
    let spec = AggregationSpec {
        op: AggregationOp::Max,
        group_by: vec![
            AggregationDimension::Metadata(MetadataKey { value: "tier".to_owned() }),
            AggregationDimension::TenantId,
            AggregationDimension::Metadata(MetadataKey { value: "zone".to_owned() }),
        ],
    };
    let metadata = vec![MetadataFilter {
        key: MetadataKey { value: "region".to_owned() },
        values: vec!["eu".to_owned()],
    }];
    let filter = Some(Ok(status_filter()));
    let stmt = aggregate_statement(&gts_id(), &filter, &metadata, &spec, 10).unwrap();
    let (_, values) = build_select_final(stmt);
    assert_eq!(
        values,
        [
            Value::from("tier"),
            Value::from("zone"),
            Value::from("g"),
            Value::from("active"),
            Value::from("region"),
            Value::from("eu"),
            Value::from(11_u64),
        ]
    );
}

/// The rows of the highest version under each identifier.
fn merged(copies: &[UsageRecordRow]) -> Vec<UsageRecordRow> {
    let newest = |r: &UsageRecordRow| {
        copies.iter().all(|other| other.id != r.id || other.version <= r.version)
    };
    copies.iter().filter(|r| newest(r)).cloned().collect()
}

/// The rows that a deactivation reads.
fn cascade(table: &[UsageRecordRow], id: Uuid) -> Vec<UsageRecordRow> {
    let active = |r: &UsageRecordRow| r.status == UsageRecordStatusCode::Active;
    let read = |r: &&UsageRecordRow| r.id == id || (r.corrects_id == Some(id) && active(r));
    table.iter().filter(read).cloned().collect()
}

#[test]
fn a_record_is_deactivated_once() {
    let id = Uuid::from_u128(1);
    let mut compensation = row(2, 50);
    compensation.corrects_id = Some(id);
    let mut copies = vec![row(1, 3), row(1, 9), compensation, row(3, 4)];
    let markers = deactivation_markers(&cascade(&merged(&copies), id), id).unwrap();
    copies.extend(markers);
    let after = merged(&copies);
    let inactive: Vec<u128> = after
        .iter()
        .filter(|r| r.status == UsageRecordStatusCode::Inactive)
        .map(|r| r.id.bits)
        .collect();
    assert_eq!(inactive, [1, 2]);
    assert_eq!(after.len(), 3);
    assert!(matches!(
        deactivation_markers(&cascade(&after, id), id),
        Err(UsageCollectorPluginError::UsageRecordAlreadyInactive { id: again }) if again == id
    ));
}

fn result_row(columns: &[&str], values: Vec<Value>) -> ResultRow {
    ResultRow {
        column_names: columns.iter().map(|c| (*c).to_owned()).collect(),
        values,
    }
}

#[test]
fn a_bucket_is_read_by_column_name() {
    let row = result_row(
        &["agg", "d1", "d0"],
        vec![Value::from("12.5"), Value::from(3_i64), Value::from("x")],
    );
    let bucket = bucket_from_data_row(&row, 2).unwrap();
    assert_eq!(bucket.key, ["x", "3"]);
    assert_eq!(bucket.value, Some("12.5".parse::<bigdecimal::BigDecimal>().unwrap()));
}

#[test]
fn a_bucket_is_refused_with_a_reason() {
    let row = result_row(&["d0", "agg"], vec![Value::from("x"), Value::from("1")]);
    assert_eq!(
        refusal(bucket_from_data_row(&row, 2)),
        "aggregate response missing dimension column d1"
    );
    let row = result_row(&["d0"], vec![Value::from("x")]);
    assert_eq!(
        refusal(bucket_from_data_row(&row, 1)),
        "aggregate response missing agg column"
    );
    let row = result_row(&["agg"], vec![Value::from(true)]);
    assert_eq!(
        refusal(bucket_from_data_row(&row, 0)),
        "unexpected aggregate value type: Bool(Some(true))"
    );
    let row = result_row(&["agg"], vec![Value::from("x")]);
    assert!(refusal(bucket_from_data_row(&row, 0)).starts_with("aggregate value parse error: "));
}

#[test]
fn a_bucket_needs_the_values_of_its_own_columns_only() {
    let longer = result_row(&["agg", "d0", "note"], vec![Value::from("1"), Value::from("x")]);
    assert!(covers_bucket(&longer, 1));
    assert_eq!(bucket_from_data_row(&longer, 1).unwrap().key, ["x"]);
    let bare = result_row(&["agg"], Vec::new());
    assert!(covers_bucket(&bare, 1));
    assert_eq!(
        refusal(bucket_from_data_row(&bare, 1)),
        "aggregate response missing dimension column d0"
    );
    assert!(!covers_bucket(&bare, 0));
    let short = result_row(&["d0", "agg"], vec![Value::from("x")]);
    assert!(!covers_bucket(&short, 1));
}

#[test]
fn values_have_texts() {
    for (value, text) in [
        (Value::from("s"), "s"),
        (Value::String(None), ""),
        (Value::from(uuid::Uuid::from_u128(1)), "00000000-0000-0000-0000-000000000001"),
        (Value::Uuid(None), ""),
        (Value::from(i64::MIN), "-9223372036854775808"),
        (Value::from(u64::MAX), "18446744073709551615"),
        (Value::from(-3_i32), "-3"),
        (Value::from(3_u32), "3"),
        (Value::from(-4_i16), "-4"),
        (Value::from(4_u16), "4"),
        (Value::from(-5_i8), "-5"),
        (Value::from(5_u8), "5"),
        (Value::from(0.1_f64), "0.1"),
        (Value::from(1.0_f32), "1"),
        (Value::from(true), "true"),
        (Value::from(false), "false"),
        (Value::from(rust_decimal::Decimal::new(-150, 2)), "-1.50"),
        (Value::from('c'), ""),
    ] {
        assert_eq!(sea_value_as_string(&value), text, "{value:?}");
    }
}

#[test]
fn aggregates_are_read_as_decimals() {
    for value in [
        Value::Decimal(None),
        Value::Double(None),
        Value::Float(None),
        Value::BigInt(None),
        Value::BigUnsigned(None),
        Value::Int(None),
        Value::Unsigned(None),
        Value::String(None),
    ] {
        assert!(matches!(sea_value_as_optional_bigdecimal(&value), Ok(None)));
    }
    for (value, text) in [
        (Value::from(2.5_f64), "2.5"),
        (Value::from(7_u64), "7"),
        (Value::from(-7_i8), "-7"),
        (Value::from("1e3"), "1000"),
        (Value::from(rust_decimal::Decimal::new(425, 1)), "42.5"),
    ] {
        let read = sea_value_as_optional_bigdecimal(&value).unwrap();
        assert_eq!(read, Some(text.parse::<bigdecimal::BigDecimal>().unwrap()));
    }
    for value in [Value::SmallInt(None), Value::Bool(None), Value::Bytes(None)] {
        assert_eq!(
            refusal(sea_value_as_optional_bigdecimal(&value)),
            format!("unexpected aggregate value type: {value:?}")
        );
    }
}

fn parsed(body: &str, dims: &[&str]) -> Result<Vec<(Vec<String>, Option<String>)>, String> {
    let names: Vec<String> = dims.iter().map(|d| (*d).to_owned()).collect();
    match parse_aggregate_response(body.as_bytes(), &names) {
        Ok(buckets) => {
            Ok(buckets.into_iter().map(|b| (b.key, b.value.map(|v| v.to_string()))).collect())
        }
        Err(e) => Err(refusal::<()>(Err(e))),
    }
}

#[test]
fn json_rows_become_buckets() {
    let body = "{\"d0\":\"x\",\"agg\":\"1.5\"}\r\n\n   \n{\"d0\":3,\"agg\":2}\n{\"agg\":null}\n{}";
    assert_eq!(
        parsed(body, &["d0"]).unwrap(),
        vec![
            (vec!["x".to_owned()], Some("1.5".to_owned())),
            (vec![String::new()], Some("2".to_owned())),
            (vec![String::new()], None),
            (vec![String::new()], None),
        ]
    );
    assert_eq!(parsed("", &["d0"]).unwrap(), vec![]);
}

#[test]
fn json_rows_are_refused_with_a_reason() {
    let refused = parsed("{\"agg\":1}\nnonsense\n", &[]).unwrap_err();
    let outside = serde_json::from_str::<serde_json::Value>("nonsense").unwrap_err();
    assert_eq!(refused, format!("aggregate JSON parse error: {outside}"));
    assert_eq!(
        parsed("{\"agg\":[1]}", &[]).unwrap_err(),
        "unexpected aggregate value type: [1]"
    );
    assert_eq!(
        parsed("{\"agg\":true}", &[]).unwrap_err(),
        "unexpected aggregate value type: true"
    );
    assert!(parsed("{\"agg\":\"x\"}", &[]).unwrap_err().starts_with("aggregate value parse error: "));
}

#[test]
fn bytes_that_are_no_text_are_a_read_error() {
    let bytes: &[u8] = b"{\"agg\":1}\n\xff\n";
    let outside = std::io::BufReader::new(bytes).lines().nth(1).unwrap().unwrap_err();
    assert_eq!(
        refusal(parse_aggregate_response(bytes, &[])),
        format!("aggregate response read error: {outside}")
    );
}

#[test]
fn json_members_are_keys_and_aggregates() {
    assert_eq!(json_key(Some(JsonMember::Text("t".to_owned()))), "t");
    assert_eq!(json_key(Some(JsonMember::Number("1".to_owned()))), "");
    assert_eq!(json_key(None), "");
    assert!(matches!(json_measure(Some(JsonMember::Null)), Ok(None)));
    assert!(matches!(json_measure(Some(JsonMember::Number("2".to_owned()))), Ok(Some(_))));
    assert!(json_measure(Some(JsonMember::Other("{}".to_owned()))).is_err());
}

#[test]
fn white_space_is_trimmed_as_std_trims_it() {
    for text in ["", " ", "a", " a b ", "\t\r\na\u{85}", "\u{a0}\u{1680}x\u{2003}\u{3000}", "\u{200b}a"] {
        assert_eq!(trim_text(text), text.trim());
    }
    for n in 0..0x3100_u32 {
        if let Some(c) = char::from_u32(n) {
            let text = c.to_string();
            assert_eq!(trim_text(&text), text.trim(), "{n:x}");
        }
    }
}
