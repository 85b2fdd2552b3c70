//! Clauses of the aggregation statement.
use clickhouse_usage_collector_plugin::query::aggregate::{
    aggregate_limit, aggregate_limit_clause, corrects_id_partition_clause, AggregationOp,
};

/// The most buckets that a caller may have.
const MAX_AGGREGATION_BUCKETS: usize = 10_000;

#[test]
fn count_has_corrects_id_is_null_clause() {
    assert_eq!(
        corrects_id_partition_clause(AggregationOp::Count),
        Some("corrects_id IS NULL")
    );
}

#[test]
fn min_max_avg_have_corrects_id_partition() {
    for op in [AggregationOp::Min, AggregationOp::Max, AggregationOp::Avg] {
        assert_eq!(
            corrects_id_partition_clause(op),
            Some("corrects_id IS NULL"),
            "op = {op:?}"
        );
    }
}

#[test]
fn sum_takes_compensations_in() {
    assert_eq!(corrects_id_partition_clause(AggregationOp::Sum), None);
}

#[test]
fn dim_count_zero_yields_empty_limit() {
    assert_eq!(aggregate_limit_clause(0, MAX_AGGREGATION_BUCKETS), "");
}

#[test]
fn dim_count_one_yields_max_plus_one_limit() {
    let clause = aggregate_limit_clause(1, MAX_AGGREGATION_BUCKETS);
    assert_eq!(clause, format!(" LIMIT {}", MAX_AGGREGATION_BUCKETS + 1));
}

#[test]
fn dim_count_three_yields_max_plus_one_limit() {
    let clause = aggregate_limit_clause(3, MAX_AGGREGATION_BUCKETS);
    assert!(clause.contains(&(MAX_AGGREGATION_BUCKETS + 1).to_string()));
}

#[test]
fn limits_agree_with_their_clauses() {
    assert_eq!(aggregate_limit(0, 7), None);
    assert_eq!(aggregate_limit(1, 7), Some(8));
    assert_eq!(aggregate_limit(5, 7), Some(8));
    assert_eq!(aggregate_limit_clause(5, 7), " LIMIT 8");
}
