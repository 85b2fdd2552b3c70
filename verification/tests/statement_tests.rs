//! Statements, bound values and keysets.
use clickhouse_usage_collector_plugin::model::MetadataKey;
use clickhouse_usage_collector_plugin::query::aggregate::{
    agg_select_expr, dimension_select_expr, AggregationDimension, AggregationOp,
};
use clickhouse_usage_collector_plugin::query::bind::{
    bind_one, odata_value_to_bind, sql_bind_to_expr, ODataValue, SqlBind,
};
use clickhouse_usage_collector_plugin::query::keyset::{
    cursor_key_to_bind, encode_next_cursor, ensure_forward_cursor, keyset_condition,
    keyset_predicate, next_cursor, order_by_clauses, render_order_by, CursorV1, FieldKind,
    ODataOrderBy, OrderKey,
};
use clickhouse_usage_collector_plugin::query::schema::{record_column_iden, UsageRecords};
use clickhouse_usage_collector_plugin::query::statement::{
    and_conditions, bind_sea_value, bind_values, build_select_final, catalog_count_sql,
    catalog_exists_gts_id, catalog_get_by_gts_id, into_condition, lightweight_delete_usage_type,
    prepared_query, prepared_select, prepared_sql, qualify_final, record_get_by_id,
    records_ref_count_probe, select_records,
};
use clickhouse_usage_collector_plugin::query::translate::{
    record_column, translate_record_filter, FilterNode, FilterOp, SqlCtx,
};
use clickhouse_usage_collector_plugin::sql::{sql_value, Datum, SortDir};
use clickhouse_usage_collector_plugin::values::{Decimal, Uuid};
use sea_query::{Condition, Expr, Query, Value};
use sea_query_clickhouse::ClickhouseQueryBuilder;

const RECORD_COLUMNS: &str = "`id`, `tenant_id`, `gts_id`, `value`, `created_at`, `resource_id`, \
     `resource_type`, `subject_id`, `subject_type`, `idempotency_key`, `corrects_id`, `status`, \
     `metadata`, `ingested_at`, `version`";

/// The text of a query, its bound values in place.
fn shown(query: &clickhouse::query::Query) -> String {
    query.sql_display().to_string()
}

fn client() -> clickhouse::Client {
    clickhouse::Client::default()
}

fn refused(outcome: Result<clickhouse::query::Query, String>) -> String {
    match outcome {
        Err(e) => e,
        Ok(q) => panic!("unexpected query: {}", shown(&q)),
    }
}

fn rendered(expr: Expr) -> (String, usize) {
    let (sql, values) = Query::select().expr(expr).build(ClickhouseQueryBuilder);
    (sql, values.0.len())
}

fn rendered_condition(cond: Condition) -> (String, Vec<Value>) {
    let (sql, values) =
        Query::select().expr(Expr::cust("1")).cond_where(cond).build(ClickhouseQueryBuilder);
    (sql, values.0)
}

#[test]
fn final_stands_behind_the_tables() {
    for (sql, expected) in [
        ("SELECT 1 FROM t", "SELECT 1 FROM t FINAL"),
        ("SELECT 1 FROM t WHERE a = ?", "SELECT 1 FROM t FINAL WHERE a = ?"),
        ("SELECT 1 FROM t GROUP BY 1", "SELECT 1 FROM t FINAL GROUP BY 1"),
        ("SELECT 1 FROM t ORDER BY 1", "SELECT 1 FROM t FINAL ORDER BY 1"),
        ("SELECT 1 FROM t LIMIT 1", "SELECT 1 FROM t FINAL LIMIT 1"),
        ("SELECT ' FROM ' FROM t WHERE 1", "SELECT ' FROM ' FROM t FINAL WHERE 1"),
        ("SELECT 1", "SELECT 1 FINAL"),
    ] {
        assert_eq!(qualify_final(sql), expected);
    }
}

#[test]
fn statements_read_the_merged_rows() {
    let (sql, values) = build_select_final(select_records());
    assert_eq!(sql, format!("SELECT {RECORD_COLUMNS} FROM `usage_records` FINAL"));
    assert!(values.is_empty());
}

#[test]
fn final_is_placed_as_the_outside_builder_places_it() {
    for limit in [None, Some(3)] {
        let mut stmt = Query::select()
            .column("a")
            .from("t")
            .cond_where(Condition::all().add(Expr::cust_with_values("b = ?", ["x FROM y"])))
            .to_owned();
        if let Some(n) = limit {
            stmt.limit(n);
        }
        // A sample clause stands where `FINAL` does.
        let sampled = sea_query_clickhouse::ClickhouseSelect::new(stmt.clone()).sample(0.5);
        let outside = sampled.build().0.replace(" SAMPLE 0.5", " FINAL");
        assert_eq!(build_select_final(stmt).0, outside);
    }
}

#[test]
fn catalog_statements() {
    let (sql, values) = catalog_count_sql();
    assert_eq!(sql, "SELECT count() FROM `usage_type_catalog` FINAL");
    assert!(values.is_empty());
    let (sql, values) = catalog_get_by_gts_id("g");
    assert_eq!(
        sql,
        "SELECT `gts_id`, `kind`, `metadata_fields`, `version` FROM `usage_type_catalog` FINAL \
         WHERE `gts_id` = ?"
    );
    assert_eq!(values[0], Value::from("g"));
    let (sql, values) = catalog_exists_gts_id("g");
    assert_eq!(sql, "SELECT `gts_id` FROM `usage_type_catalog` FINAL WHERE `gts_id` = ?");
    assert_eq!(values.len(), 1);
    let (sql, values) = lightweight_delete_usage_type("g");
    assert_eq!(sql, "DELETE FROM usage_type_catalog WHERE gts_id = ?");
    assert_eq!(values.len(), 1);
    let (sql, values) = records_ref_count_probe("g", 5);
    assert_eq!(
        sql,
        "SELECT count() FROM (SELECT 1 FROM usage_records FINAL WHERE gts_id = ? LIMIT ?) AS \
         sub_ref"
    );
    assert_eq!(values[0], Value::from("g"));
    assert_eq!(values[1], Value::from(5_i64));
}

#[test]
fn a_record_is_read_by_its_identifier() {
    let (sql, values) = record_get_by_id("abc");
    assert_eq!(
        sql,
        format!("SELECT {RECORD_COLUMNS} FROM `usage_records` FINAL WHERE `id` = ?")
    );
    let query = prepared_sql(&client(), (sql.clone(), values)).unwrap();
    assert_eq!(shown(&query), sql.replace('?', "'abc'"));
}

#[test]
fn values_of_statements_are_bound() {
    let stamp = time::OffsetDateTime::from_unix_timestamp_nanos(1_999).unwrap();
    let plain = time::PrimitiveDateTime::new(stamp.date(), stamp.time());
    for (value, expected) in [
        (Value::from(true), "true"),
        (Value::from(-1_i8), "-1"),
        (Value::from(-2_i16), "-2"),
        (Value::from(-3_i32), "-3"),
        (Value::from(-4_i64), "-4"),
        (Value::from(1_u8), "1"),
        (Value::from(2_u16), "2"),
        (Value::from(3_u32), "3"),
        (Value::from(4_u64), "4"),
        (Value::from(1.5_f32), "1.5"),
        // One of 32 bits is bound as one of 64.
        (Value::from(0.1_f32), "0.10000000149011612"),
        (Value::from(0.1_f64), "0.1"),
        (Value::from("it's"), "'it\\'s'"),
        (Value::from('c'), "'c'"),
        (Value::from(vec![1_u8, 2]), "[1,2]"),
        (Value::from(stamp), "1"),
        (Value::from(plain), "1"),
        (Value::from(uuid::Uuid::from_u128(7)), "'00000000-0000-0000-0000-000000000007'"),
        (Value::from(rust_decimal::Decimal::new(425, 1)), "'42.5'"),
    ] {
        let query = bind_sea_value(client().query("SELECT ?"), &value).unwrap();
        assert_eq!(shown(&query), format!("SELECT {expected}"));
    }
}

#[test]
fn values_are_bound_in_order() {
    let values = vec![Value::from("a"), Value::from(2_i64)];
    let query = bind_values(client().query("? ? ?"), &values).unwrap();
    assert_eq!(shown(&query), "'a' 2 ?");
    let query = prepared_query(&client(), "SELECT ?, ?", &values).unwrap();
    assert_eq!(shown(&query), "SELECT 'a', 2");
}

#[test]
fn null_and_other_values_are_refused_by_their_debug_text() {
    for value in [Value::Bool(None), Value::String(None), Value::Uuid(None)] {
        assert_eq!(
            refused(bind_sea_value(client().query("?"), &value)),
            format!("unsupported sea_query::Value for ClickHouse bind: {value:?}")
        );
    }
    let date = Value::from(time::Date::MIN);
    assert!(matches!(sql_value(&date).datum, Datum::Other));
    assert!(bind_sea_value(client().query("?"), &date).is_err());
}

#[test]
fn the_first_value_that_cannot_be_bound_fails_the_query() {
    let stmt = Query::select()
        .column("a")
        .from("t")
        .cond_where(Condition::all().add(Expr::cust_with_values("a = ?", [Value::Bool(None)])))
        .to_owned();
    assert_eq!(
        refused(prepared_select(&client(), stmt)),
        "unsupported sea_query::Value for ClickHouse bind: Bool(None)"
    );
}

#[test]
fn conditions_are_joined() {
    let a = into_condition(Expr::cust("a"));
    let b = into_condition(Expr::cust("b"));
    let (sql, _) = rendered_condition(and_conditions(vec![a, b]));
    assert_eq!(sql, "SELECT 1 WHERE (a) AND (b)");
    let none = and_conditions(Vec::new());
    assert!(none.is_empty());
}

#[test]
fn bound_values_become_expressions() {
    for (bind, sql) in [
        (SqlBind::Uuid(Uuid::from_u128(1)), "SELECT ?"),
        (SqlBind::Str("x".to_owned()), "SELECT ?"),
        (SqlBind::Decimal(Decimal::new(1, 0)), "SELECT ?"),
        (SqlBind::Bool(true), "SELECT ?"),
        (SqlBind::I64(1), "SELECT ?"),
        (SqlBind::U64(1), "SELECT ?"),
        (SqlBind::DateTime64Micros(5), "SELECT fromUnixTimestamp64Micro(?)"),
    ] {
        assert_eq!(rendered(sql_bind_to_expr(bind)), (sql.to_owned(), 1));
    }
}

#[test]
fn bound_values_are_given_to_a_query() {
    for (bind, text, placeholder) in [
        (
            SqlBind::Uuid(Uuid::from_u128(1)),
            "'00000000-0000-0000-0000-000000000001'",
            "?",
        ),
        (SqlBind::Str("x".to_owned()), "'x'", "?"),
        (SqlBind::Decimal(Decimal::new(15, 1)), "'1.5'", "?"),
        (SqlBind::Bool(true), "true", "?"),
        (SqlBind::I64(-1), "-1", "?"),
        (SqlBind::U64(1), "1", "?"),
        (SqlBind::DateTime64Micros(5), "5", "fromUnixTimestamp64Micro(?)"),
    ] {
        assert_eq!(shown(&bind_one(client().query("?"), &bind)), text);
        assert_eq!(bind.placeholder(), placeholder);
    }
}

#[test]
fn literals_become_bound_values() {
    let number = |text: &str| ODataValue::Number(text.parse::<bigdecimal::BigDecimal>().unwrap());
    for (literal, expected) in [
        (ODataValue::Uuid(Uuid::from_u128(3)), "Uuid(Uuid { bits: 3 })"),
        (ODataValue::String("s".to_owned()), "Str(\"s\")"),
        (ODataValue::Bool(false), "Bool(false)"),
        (ODataValue::DateTime(9), "DateTime64Micros(9)"),
    ] {
        assert_eq!(format!("{:?}", odata_value_to_bind(&literal).unwrap()), expected);
    }
    assert!(matches!(
        odata_value_to_bind(&number("12.25")).unwrap(),
        SqlBind::Decimal(d) if d == Decimal::new(1225, 2)
    ));
    let refusal = odata_value_to_bind(&number("1e60")).unwrap_err();
    assert!(refusal.starts_with("numeric out of range: "), "{refusal}");
    assert_eq!(
        odata_value_to_bind(&ODataValue::Null).unwrap_err(),
        "null filter value unsupported"
    );
    for literal in [ODataValue::Date, ODataValue::Time] {
        assert_eq!(
            odata_value_to_bind(&literal).unwrap_err(),
            "date/time-only filter values unsupported"
        );
    }
}

#[test]
fn filters_keep_their_structure() {
    let leaf = |field: &str, op: FilterOp, value: ODataValue| FilterNode::Binary {
        field: field.to_owned(),
        op,
        value,
    };
    let node = FilterNode::Composite {
        op: FilterOp::And,
        children: vec![
            leaf("created_at", FilterOp::Ge, ODataValue::DateTime(7)),
            FilterNode::Not(Box::new(FilterNode::Composite {
                op: FilterOp::Or,
                children: vec![
                    leaf("resource_id", FilterOp::Eq, ODataValue::String("'; --".to_owned())),
                    leaf("tenant_id", FilterOp::Ne, ODataValue::Uuid(Uuid::from_u128(1))),
                ],
            })),
        ],
    };
    let (sql, values) = rendered_condition(translate_record_filter(&node).unwrap());
    assert_eq!(
        sql,
        "SELECT 1 WHERE `created_at` >= (fromUnixTimestamp64Micro(?)) AND (NOT \
         (`resource_id` = ? OR `tenant_id` <> ?))"
    );
    assert_eq!(values.len(), 3);
    assert!(!sql.contains("--"));
}

#[test]
fn only_allowlisted_names_stand_in_a_statement() {
    assert_eq!(record_column("status; DROP TABLE x"), None);
    assert_eq!(record_column("gts_id"), None);
    assert_eq!(record_column_iden("created_at"), Some(UsageRecords::CreatedAt));
    assert_eq!(UsageRecords::CreatedAt.iden(), "created_at");
}

#[test]
fn dimensions_and_aggregates_are_spelled() {
    let metadata = AggregationDimension::Metadata(MetadataKey { value: "region".to_owned() });
    for (dimension, sql, values) in [
        (AggregationDimension::TenantId, "SELECT toString(tenant_id)", 0),
        (AggregationDimension::ResourceId, "SELECT resource_id", 0),
        (AggregationDimension::ResourceType, "SELECT resource_type", 0),
        (AggregationDimension::SubjectId, "SELECT subject_id", 0),
        (AggregationDimension::SubjectType, "SELECT subject_type", 0),
        (metadata, "SELECT arrayElement(metadata, ?)", 1),
    ] {
        assert_eq!(rendered(dimension_select_expr(&dimension)), (sql.to_owned(), values));
    }
    for (op, sql) in [
        (AggregationOp::Sum, "SELECT SUM(value)"),
        (AggregationOp::Count, "SELECT COUNT(*)"),
        (AggregationOp::Min, "SELECT MIN(value)"),
        (AggregationOp::Max, "SELECT MAX(value)"),
        (AggregationOp::Avg, "SELECT ROUND(AVG(value), 6)"),
    ] {
        assert_eq!(rendered(agg_select_expr(op)), (sql.to_owned(), 0));
    }
}

fn order(keys: &[(&str, SortDir)]) -> ODataOrderBy {
    ODataOrderBy {
        keys: keys.iter().map(|(f, d)| OrderKey { field: (*f).to_owned(), dir: *d }).collect(),
    }
}

fn kind(field: &str) -> Option<FieldKind> {
    match field {
        "id" | "tenant_id" => Some(FieldKind::Uuid),
        "created_at" => Some(FieldKind::DateTimeUtc),
        "status" => Some(FieldKind::String),
        "value" => Some(FieldKind::Other("Decimal".to_owned())),
        _ => None,
    }
}

fn column(field: &str) -> Option<&'static str> {
    if field == "value" {
        Some("value")
    } else {
        record_column(field)
    }
}

fn safe(field: &str) -> bool {
    field != "subject_id"
}

#[test]
fn orders_are_rendered() {
    let both = order(&[("created_at", SortDir::Desc), ("id", SortDir::Asc)]);
    assert_eq!(
        render_order_by(&both, record_column).unwrap(),
        "created_at DESC, id ASC"
    );
    let clauses = order_by_clauses(&both, record_column).unwrap();
    assert_eq!(
        clauses,
        vec![("created_at".to_owned(), SortDir::Desc), ("id".to_owned(), SortDir::Asc)]
    );
    let unknown = order(&[("id", SortDir::Asc), ("nope", SortDir::Asc)]);
    for refusal in [
        render_order_by(&unknown, record_column).unwrap_err(),
        order_by_clauses(&unknown, record_column).unwrap_err(),
    ] {
        assert_eq!(refusal, "order field not allowlisted: nope");
    }
    for refusal in [
        render_order_by(&order(&[]), record_column).unwrap_err(),
        order_by_clauses(&order(&[]), record_column).unwrap_err(),
    ] {
        assert_eq!(refusal, "order must not be empty");
    }
}

#[test]
fn cursor_keys_are_read_by_kind() {
    assert!(matches!(
        cursor_key_to_bind(FieldKind::DateTimeUtc, "2023-11-14T22:13:20.123456Z").unwrap(),
        SqlBind::DateTime64Micros(1_700_000_000_123_456)
    ));
    assert!(matches!(
        cursor_key_to_bind(FieldKind::Uuid, "00000000-0000-0000-0000-000000000005").unwrap(),
        SqlBind::Uuid(u) if u == Uuid::from_u128(5)
    ));
    assert!(matches!(
        cursor_key_to_bind(FieldKind::String, "raw").unwrap(),
        SqlBind::Str(s) if s == "raw"
    ));
    let refusal = cursor_key_to_bind(FieldKind::DateTimeUtc, "soon").unwrap_err();
    assert!(refusal.starts_with("invalid datetime cursor key `soon`: "), "{refusal}");
    let refusal = cursor_key_to_bind(FieldKind::Uuid, "x").unwrap_err();
    assert!(refusal.starts_with("invalid uuid cursor key `x`: "), "{refusal}");
    assert_eq!(
        cursor_key_to_bind(FieldKind::Other("Bool".to_owned()), "x").unwrap_err(),
        "cursor key kind `Bool` is not supported as a keyset column"
    );
}

#[test]
fn keysets_compare_tuples() {
    let keys = vec![
        "2023-11-14T22:13:20Z".to_owned(),
        "00000000-0000-0000-0000-000000000005".to_owned(),
    ];
    let pairs = [("created_at", true), ("id", true)];
    let cond = keyset_condition(&pairs, &keys, record_column, kind, safe).unwrap();
    let (sql, values) = rendered_condition(cond);
    assert_eq!(
        sql,
        "SELECT 1 WHERE (created_at, id) > (fromUnixTimestamp64Micro(?), ?)"
    );
    assert_eq!(values.len(), 2);
    let mut ctx = SqlCtx::new();
    let pairs = [("created_at", false), ("id", false)];
    let text = keyset_predicate(&pairs, &keys, record_column, kind, safe, &mut ctx).unwrap();
    assert_eq!(text, "(created_at, id) < (fromUnixTimestamp64Micro(?), ?)");
    assert_eq!(ctx.binds.len(), 2);
}

#[test]
fn keysets_are_refused_with_a_reason() {
    let key = |text: &str| vec![text.to_owned()];
    for (pairs, keys, refusal) in [
        (vec![], vec![], "keyset order must not be empty"),
        (vec![("id", true)], vec![], ""),
        (vec![("id", true), ("status", false)], vec!["a".to_owned(), "b".to_owned()], ""),
        (
            vec![("subject_id", true)],
            key("x"),
            "keyset field is nullable and cannot be a keyset ordering key: subject_id",
        ),
        (vec![("nope", true)], key("x"), "keyset field not allowlisted: nope"),
        (
            vec![("resource_id", true)],
            key("x"),
            "keyset field has no known kind: resource_id",
        ),
        (
            vec![("value", true)],
            key("x"),
            "cursor key kind `Decimal` is not supported as a keyset column",
        ),
    ] {
        let mut ctx = SqlCtx::new();
        let got = keyset_condition(&pairs, &keys, column, kind, safe).unwrap_err();
        let text = keyset_predicate(&pairs, &keys, column, kind, safe, &mut ctx).unwrap_err();
        assert_eq!(got, text);
        assert!(ctx.binds.is_empty());
        if !refusal.is_empty() {
            assert_eq!(got, refusal);
        }
    }
}

#[test]
fn cursors_are_built_of_the_last_row() {
    let keys = vec!["k1".to_owned(), "k2".to_owned()];
    let by = order(&[("created_at", SortDir::Desc), ("id", SortDir::Desc)]);
    let hash = Some("h".to_owned());
    let cursor = next_cursor(&by, "-created_at,-id", &keys, &hash).unwrap();
    assert_eq!(cursor.k, keys);
    assert_eq!(cursor.o, SortDir::Desc);
    assert_eq!(cursor.s, "-created_at,-id");
    assert_eq!(cursor.f.as_deref(), Some("h"));
    assert_eq!(cursor.d, "fwd");
    assert!(ensure_forward_cursor(&cursor).is_ok());
    let token =
        encode_next_cursor(&by, "-created_at,-id", &keys, &hash, &|c: CursorV1| Ok(c.k.join("|")));
    assert_eq!(token.unwrap(), "k1|k2");
    let failed = encode_next_cursor(&by, "", &keys, &hash, &|_c: CursorV1| Err("no".to_owned()));
    assert_eq!(failed.unwrap_err(), "cursor encode failed: no");
    assert_eq!(
        next_cursor(&order(&[]), "", &keys, &hash).unwrap_err(),
        "cursor order must not be empty"
    );
    assert_eq!(
        next_cursor(&order(&[("id", SortDir::Asc)]), "", &keys, &hash).unwrap_err(),
        "row key count 2 does not match order arity 1"
    );
}

#[test]
fn only_forward_cursors_are_followed() {
    let back = CursorV1 {
        k: Vec::new(),
        o: SortDir::Asc,
        s: String::new(),
        f: None,
        d: "bwd".to_owned(),
    };
    assert_eq!(
        ensure_forward_cursor(&back).unwrap_err(),
        "unsupported cursor direction `bwd`: only forward paging is supported"
    );
}
