//! Expressions for functions of ClickHouse.
use crate::query::aggregate::AggregationOp;
use crate::sql::{
    big_int_value, bound_values, expr_balanced, expr_cust, expr_cust_with_values, expr_tree,
    placeholders, placeholders_below, string_value, DatumView, ExprTree,
};
use vstd::prelude::*;
use vstd::string::*;

verus! {

/// `fromUnixTimestamp64Micro` of a bound count of microseconds.
pub open spec fn micros_expr(micros: i64) -> ExprTree {
    ExprTree::CustomWithExpr(
        "fromUnixTimestamp64Micro(?)"@,
        seq![ExprTree::Value(DatumView::BigInt(Some(micros)))],
    )
}

/// Binds microseconds since the epoch as a `DateTime64(6)`. A bare number can
/// overflow where it stands in a tuple or an `IN` list.
pub fn from_unix_timestamp64_micro(micros: i64) -> (e: sea_query::Expr)
    ensures
        expr_tree(e) == micros_expr(micros),
{
    let values = vec![big_int_value(micros)];
    assert(bound_values(values@) =~= seq![ExprTree::Value(DatumView::BigInt(Some(micros)))]);
    expr_cust_with_values("fromUnixTimestamp64Micro(?)".to_owned(), values)
}

/// The metadata value under a bound key.
pub open spec fn metadata_expr(key: Seq<char>) -> ExprTree {
    ExprTree::CustomWithExpr(
        "arrayElement(metadata, ?)"@,
        seq![ExprTree::Value(DatumView::Text(Some(key)))],
    )
}

/// The metadata value under a bound key. `arrayElement` stands in place of
/// brackets, in which a placeholder would not be seen.
pub fn metadata_get(key: &str) -> (e: sea_query::Expr)
    ensures
        expr_tree(e) == metadata_expr(key@),
{
    let values = vec![string_value(key.to_owned())];
    assert(bound_values(values@) =~= seq![ExprTree::Value(DatumView::Text(Some(key@)))]);
    expr_cust_with_values("arrayElement(metadata, ?)".to_owned(), values)
}

/// The tenant as a text, for grouping.
pub fn to_string_tenant_id() -> (e: sea_query::Expr)
    ensures
        expr_tree(e) == ExprTree::Custom("toString(tenant_id)"@),
{
    expr_cust("toString(tenant_id)".to_owned())
}

/// The aggregate function of an operation over the `value` column.
pub open spec fn agg_text(op: AggregationOp) -> Seq<char> {
    match op {
        AggregationOp::Sum => "SUM(value)"@,
        AggregationOp::Count => "COUNT(*)"@,
        AggregationOp::Min => "MIN(value)"@,
        AggregationOp::Max => "MAX(value)"@,
        AggregationOp::Avg => "ROUND(AVG(value), 6)"@,
    }
}

/// The selected expression of an aggregation.
pub fn agg_expr(op: AggregationOp) -> (e: sea_query::Expr)
    ensures
        expr_tree(e) == ExprTree::Custom(agg_text(op)),
{
    match op {
        AggregationOp::Sum => expr_cust("SUM(value)".to_owned()),
        AggregationOp::Count => expr_cust("COUNT(*)".to_owned()),
        AggregationOp::Min => expr_cust("MIN(value)".to_owned()),
        AggregationOp::Max => expr_cust("MAX(value)".to_owned()),
        AggregationOp::Avg => expr_cust("ROUND(AVG(value), 6)".to_owned()),
    }
}

/// The expressions with a bound value have one placeholder each.
pub proof fn lemma_bound_expressions_are_balanced(micros: i64, key: Seq<char>)
    ensures
        expr_balanced(micros_expr(micros)),
        expr_balanced(metadata_expr(key)),
{
    reveal_strlit("fromUnixTimestamp64Micro(?)");
    reveal_strlit("arrayElement(metadata, ?)");
    assert(placeholders("fromUnixTimestamp64Micro(?)"@) == 1) by {
        reveal_with_fuel(placeholders_below, 28);
    }
    assert(placeholders("arrayElement(metadata, ?)"@) == 1) by {
        reveal_with_fuel(placeholders_below, 26);
    }
    reveal_with_fuel(expr_balanced, 2);
}

} // verus!
