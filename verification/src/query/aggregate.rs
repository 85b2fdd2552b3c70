//! Expressions and limits of the aggregation statement.
use crate::model::MetadataKey;
use crate::query::expr::{agg_expr, agg_text, metadata_expr, metadata_get, to_string_tenant_id};
use crate::sql::{expr_cust, expr_tree, ExprTree};
use crate::text::{decimal_text, spell_unsigned};
use vstd::prelude::*;
use vstd::string::*;

verus! {

/// How the values of a group are put together.
#[derive(Debug, Clone, Copy, PartialEq, Eq, Structural)]
pub enum AggregationOp {
    Sum,
    Count,
    Min,
    Max,
    Avg,
}

/// What records are grouped by.
#[derive(Debug)]
pub enum AggregationDimension {
    TenantId,
    ResourceId,
    ResourceType,
    SubjectId,
    SubjectType,
    Metadata(MetadataKey),
}

/// The selected expression of an aggregation.
pub fn agg_select_expr(op: AggregationOp) -> (e: sea_query::Expr)
    ensures
        expr_tree(e) == ExprTree::Custom(agg_text(op)),
{
    agg_expr(op)
}

/// The condition that leaves compensations out. A sum has none: it takes their
/// signed values in.
pub fn corrects_id_partition_clause(op: AggregationOp) -> (r: Option<&'static str>)
    ensures
        op == AggregationOp::Sum ==> r is None,
        op != AggregationOp::Sum ==> (r matches Some(s) && s@ == "corrects_id IS NULL"@),
{
    match op {
        AggregationOp::Sum => None,
        AggregationOp::Count | AggregationOp::Min | AggregationOp::Max | AggregationOp::Avg => Some(
            "corrects_id IS NULL",
        ),
    }
}

/// The text that a dimension groups by, as an expression.
pub open spec fn dimension_expr(dim: AggregationDimension) -> ExprTree {
    match dim {
        AggregationDimension::TenantId => ExprTree::Custom("toString(tenant_id)"@),
        AggregationDimension::ResourceId => ExprTree::Custom("resource_id"@),
        AggregationDimension::ResourceType => ExprTree::Custom("resource_type"@),
        AggregationDimension::SubjectId => ExprTree::Custom("subject_id"@),
        AggregationDimension::SubjectType => ExprTree::Custom("subject_type"@),
        AggregationDimension::Metadata(key) => metadata_expr(key@),
    }
}

/// The text that a dimension groups by, as an expression.
pub fn dimension_select_expr(dim: &AggregationDimension) -> (e: sea_query::Expr)
    ensures
        expr_tree(e) == dimension_expr(*dim),
{
    match dim {
        AggregationDimension::TenantId => to_string_tenant_id(),
        AggregationDimension::ResourceId => expr_cust("resource_id".to_owned()),
        AggregationDimension::ResourceType => expr_cust("resource_type".to_owned()),
        AggregationDimension::SubjectId => expr_cust("subject_id".to_owned()),
        AggregationDimension::SubjectType => expr_cust("subject_type".to_owned()),
        AggregationDimension::Metadata(key) => metadata_get(key.as_str()),
    }
}

/// The limit on groups: one more than callers may have, so that too many are
/// noticed. An aggregation without dimensions has one group and no limit.
pub open spec fn group_limit(dim_count: usize, max_buckets: usize) -> Option<int> {
    if dim_count == 0 {
        None
    } else {
        Some(max_buckets + 1)
    }
}

/// The `LIMIT` clause that bounds the number of groups.
pub fn aggregate_limit_clause(dim_count: usize, max_buckets: usize) -> (s: String)
    requires
        max_buckets < usize::MAX,
    ensures
        s@ == (match group_limit(dim_count, max_buckets) {
            Some(n) => " LIMIT "@ + decimal_text(n as nat),
            None => Seq::empty(),
        }),
{
    if dim_count == 0 {
        let s = String::new();
        assert(s@ =~= Seq::<char>::empty());
        s
    } else {
        " LIMIT ".to_owned().concat(spell_unsigned(max_buckets as u64 + 1).as_str())
    }
}

/// The limit that bounds the number of groups.
pub fn aggregate_limit(dim_count: usize, max_buckets: usize) -> (r: Option<u64>)
    requires
        max_buckets < usize::MAX,
    ensures
        r is None <==> group_limit(dim_count, max_buckets) is None,
        r matches Some(n) ==> group_limit(dim_count, max_buckets) == Some(n as int),
{
    if dim_count == 0 {
        None
    } else {
        Some(max_buckets as u64 + 1)
    }
}

/// The number of groups is bounded by one more than callers may have, and only
/// where there are groups.
pub proof fn law_groups_are_bounded(dim_count: usize, max_buckets: usize)
    ensures
        dim_count == 0 ==> group_limit(dim_count, max_buckets) is None,
        dim_count > 0 ==> group_limit(dim_count, max_buckets) == Some(max_buckets + 1),
{
}

} // verus!
