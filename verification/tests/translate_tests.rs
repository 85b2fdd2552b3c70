//! Filters as conditions.
use clickhouse_usage_collector_plugin::query::bind::ODataValue;
use clickhouse_usage_collector_plugin::query::schema::{UsageRecords, UsageTypeCatalog};
use clickhouse_usage_collector_plugin::query::translate::{
    record_column, translate_filter, translate_record_filter, translate_usage_type_filter,
    usage_type_column, FilterNode, FilterOp, RecordColumns, SqlCtx,
};
use clickhouse_usage_collector_plugin::values::Uuid;
use sea_query::{Expr, Query};
use sea_query_clickhouse::ClickhouseQueryBuilder;

fn record_node_status_op(op: FilterOp) -> FilterNode {
    FilterNode::Binary {
        field: "status".to_owned(),
        op,
        value: ODataValue::String("active".to_owned()),
    }
}

fn record_node_status_eq_active() -> FilterNode {
    record_node_status_op(FilterOp::Eq)
}

/// Renders a condition's `WHERE` clause and counts its values.
fn render_where(cond: sea_query::Condition) -> (String, usize) {
    let (sql, values) = Query::select()
        .expr(Expr::cust("1"))
        .from(UsageRecords::Table.iden())
        .cond_where(cond)
        .build(ClickhouseQueryBuilder);
    let where_part = sql.split(" WHERE ").nth(1).unwrap_or("").to_owned();
    (where_part, values.0.len())
}

#[test]
fn status_eq_active_yields_parameterised_fragment() {
    let cond = translate_record_filter(&record_node_status_eq_active()).unwrap();
    let (frag, n) = render_where(cond);
    assert!(frag.contains("`status` = ?"), "got: {frag}");
    assert_eq!(n, 1);
}

#[test]
fn in_list_yields_correct_placeholders() {
    let node = FilterNode::InList {
        field: "status".to_owned(),
        values: vec![
            ODataValue::String("active".to_owned()),
            ODataValue::String("inactive".to_owned()),
        ],
    };

    let cond = translate_record_filter(&node).unwrap();
    let (frag, n) = render_where(cond);
    assert!(frag.contains("`status` = ?"), "got: {frag}");
    assert_eq!(n, 2);
}

#[test]
fn unknown_field_is_rejected() {
    let node = FilterNode::Binary {
        field: "gts_id".to_owned(),
        op: FilterOp::Eq,
        value: ODataValue::String("some-gts-id".to_owned()),
    };
    let result = translate_filter(&node, &RecordColumns);
    assert!(result.is_err());
}

#[test]
fn usage_type_column_accepts_gts_id_and_kind() {
    assert_eq!(usage_type_column("gts_id"), Some("gts_id"));
    assert_eq!(usage_type_column("kind"), Some("kind"));
    assert_eq!(usage_type_column("unknown"), None);
    assert_eq!(record_column("status"), Some("status"));
}

#[test]
fn composite_and_yields_parenthesised_and() {
    let a = record_node_status_eq_active();
    let b = record_node_status_eq_active();
    let node = FilterNode::Composite { op: FilterOp::And, children: vec![a, b] };
    let cond = translate_record_filter(&node).unwrap();
    let (frag, n) = render_where(cond);
    assert!(frag.contains("AND"), "got: {frag}");
    assert_eq!(n, 2);
}

#[test]
fn every_comparison_operator_maps_to_its_sql_spelling() {
    for (op, sql) in [
        (FilterOp::Eq, "="),
        (FilterOp::Ne, "<>"),
        (FilterOp::Gt, ">"),
        (FilterOp::Ge, ">="),
        (FilterOp::Lt, "<"),
        (FilterOp::Le, "<="),
    ] {
        let cond = translate_record_filter(&record_node_status_op(op)).unwrap();
        let (frag, n) = render_where(cond);
        assert!(frag.contains(&format!("`status` {sql} ?")), "op = {op:?}, got: {frag}");
        assert_eq!(n, 1, "op = {op:?} binds its value");
    }
}

#[test]
fn non_comparison_operators_are_rejected_by_binary_translation() {
    for op in [
        FilterOp::In,
        FilterOp::Contains,
        FilterOp::StartsWith,
        FilterOp::EndsWith,
        FilterOp::And,
        FilterOp::Or,
    ] {
        let err = translate_record_filter(&record_node_status_op(op))
            .expect_err("non-comparison operator must not translate as a binary comparison");
        assert!(
            err.contains("unsupported operator"),
            "op = {op:?} must report an unsupported operator, got: {err}"
        );
    }
}

#[test]
fn usage_type_filter_translates_catalog_fields() {
    let node = FilterNode::Binary {
        field: "kind".to_owned(),
        op: FilterOp::Eq,
        value: ODataValue::String("counter".to_owned()),
    };

    let cond = translate_usage_type_filter(&node).unwrap();
    let (sql, values) = Query::select()
        .expr(Expr::cust("1"))
        .from(UsageTypeCatalog::Table.iden())
        .cond_where(cond)
        .build(ClickhouseQueryBuilder);
    assert!(sql.contains("`kind` = ?"), "got: {sql}");
    assert_eq!(values.0.len(), 1);
}

#[test]
fn usage_type_filter_rejects_record_only_field() {
    let node = FilterNode::Binary {
        field: "tenant_id".to_owned(),
        op: FilterOp::Eq,
        value: ODataValue::String("whatever".to_owned()),
    };

    let err = translate_usage_type_filter(&node).expect_err("tenant_id is not a catalog column");
    assert!(
        err.contains("field not allowlisted"),
        "expected an allowlist rejection, got: {err}"
    );
}

#[test]
fn empty_in_list_is_rejected() {
    let node = FilterNode::InList { field: "status".to_owned(), values: Vec::new() };

    let err = translate_record_filter(&node).expect_err("empty IN list must be rejected");
    assert!(err.contains("IN list must not be empty"), "unexpected error: {err}");
}

#[test]
fn composite_or_joins_children_with_or() {
    let node = FilterNode::Composite {
        op: FilterOp::Or,
        children: vec![record_node_status_eq_active(), record_node_status_op(FilterOp::Ne)],
    };
    let cond = translate_record_filter(&node).unwrap();
    let (frag, n) = render_where(cond);
    assert!(frag.contains("OR"), "got: {frag}");
    assert_eq!(n, 2);
}

#[test]
fn composite_with_comparison_operator_is_rejected() {
    let node = FilterNode::Composite {
        op: FilterOp::Eq,
        children: vec![record_node_status_eq_active()],
    };
    let err = translate_record_filter(&node)
        .expect_err("a comparison operator cannot join composite children");
    assert!(err.contains("invalid composite operator"), "unexpected error: {err}");
}

#[test]
fn not_wraps_inner_fragment() {
    let node = FilterNode::Not(Box::new(record_node_status_eq_active()));
    let cond = translate_record_filter(&node).unwrap();
    let (frag, n) = render_where(cond);
    assert!(frag.contains("NOT") || frag.to_uppercase().contains("NOT"), "got: {frag}");
    assert_eq!(n, 1, "the negated child still binds its value");
}

#[test]
fn default_ctx_starts_empty() {
    let ctx = SqlCtx::default();
    assert!(ctx.binds.is_empty());
}

#[test]
fn fields_are_named_like_their_columns() {
    for field in [
        "id",
        "tenant_id",
        "created_at",
        "resource_id",
        "resource_type",
        "subject_id",
        "subject_type",
        "corrects_id",
        "status",
    ] {
        assert_eq!(record_column(field), Some(field));
    }
    assert_eq!(record_column("value"), None);
    assert_eq!(usage_type_column("version"), None);
}

/// A filter with a literal of every variant that can be bound.
fn filter_of_all_variants(text: &str, number: i64, micros: i64, id: u128) -> FilterNode {
    let compare = |field: &str, op: FilterOp, value: ODataValue| FilterNode::Binary {
        field: field.to_owned(),
        op,
        value,
    };
    FilterNode::Composite {
        op: FilterOp::And,
        children: vec![
            compare("resource_id", FilterOp::Eq, ODataValue::String(text.to_owned())),
            compare("created_at", FilterOp::Ge, ODataValue::DateTime(micros)),
            FilterNode::Not(Box::new(compare(
                "id",
                FilterOp::Eq,
                ODataValue::Uuid(Uuid::from_u128(id)),
            ))),
            FilterNode::InList {
                field: "subject_id".to_owned(),
                values: vec![
                    ODataValue::Number(bigdecimal::BigDecimal::from(number)),
                    ODataValue::Bool(number > 0),
                ],
            },
        ],
    }
}

#[test]
fn filters_of_one_shape_render_to_one_text() {
    let plain = filter_of_all_variants("a", 1, 0, 1);
    let hostile = filter_of_all_variants("x' OR 1 = 1 -- ?", -7, i64::MIN, u128::MAX);
    let (first, n) = render_where(translate_record_filter(&plain).unwrap());
    let (second, m) = render_where(translate_record_filter(&hostile).unwrap());
    assert_eq!(first, second);
    assert_eq!((n, m), (5, 5));
    assert!(!second.contains("OR 1 = 1"), "{second}");
}
