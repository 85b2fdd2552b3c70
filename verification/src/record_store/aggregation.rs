//! Aggregations: the statement, and the buckets of its rows.
use crate::mapper::gts_id_str;
use crate::model::{ErrorView, UsageCollectorPluginError, UsageTypeGtsId};
use crate::query::aggregate::{
    agg_select_expr, aggregate_limit, corrects_id_partition_clause, dimension_expr,
    dimension_select_expr, AggregationDimension, AggregationOp,
};
use crate::query::expr::{agg_text, lemma_bound_expressions_are_balanced};
use crate::query::meaning::{
    condition_truth, law_translation_keeps_the_meaning, lemma_with_item_balanced,
    lemma_with_item_truth, truth_and, Truth,
};
use crate::query::placeholders::{
    filter_binds, is_bindable, lemma_bindable, lemma_bound_expressions_bind,
    lemma_conditioned_binds, lemma_empty_binds, lemma_just_binds, lemma_statement_data,
    lemma_text_comparison_binds, lemma_with_item_binds, limit_data, selected_exprs,
};
use crate::query::schema::UsageRecords;
use crate::query::selection::{lemma_conditioned_truth, lemma_expression_truth, where_truth};
use crate::query::statement::{
    apply_condition, conditioned, data_args, equals_text, final_select, lemma_filtered_balanced,
    lemma_just_balanced, text_comparison, text_equality,
};
use crate::query::translate::{filter_tree, FilterNode, RecordColumns};
use crate::record_store::list::{
    apply_filter, filter_is_added, is_select_query, lemma_filter_binds, lemma_filter_truth,
    lemma_metadata_binds, lemma_metadata_holds, lemma_metadata_truth, metadata_conditions,
    metadata_data, metadata_filter_expr, metadata_tree, metadata_truth, optional_filter_data,
    optional_filter_truth, select_query, with_filter, MetadataFilter,
};
use crate::sql::{
    all_of, condition_add, condition_all, condition_from_expr, condition_tree, empty_select,
    expr_balanced, expr_cust, expr_data, expr_is_plain, expr_tree, expr_trees, exprs_data, just,
    select_balanced, select_expr_as, select_from, select_group_by, select_limit, select_new,
    select_tree, with_item, Comparison, ConditionTree, DatumView, ExprTree, SelectTree,
};
use crate::text::{decimal_text, spell_unsigned, texts};
use vstd::prelude::*;
use vstd::string::*;

verus! {

/// What is aggregated, and by what it is grouped.
#[derive(Debug)]
pub struct AggregationSpec {
    pub op: AggregationOp,
    pub group_by: Vec<AggregationDimension>,
}

/// The condition that is one custom text.
pub open spec fn custom_condition(text: Seq<char>) -> ConditionTree {
    with_item(all_of(Seq::empty()), just(ExprTree::Custom(text)))
}

/// The active records of a usage type.
pub open spec fn active_records(gts_id: Seq<char>) -> SelectTree {
    conditioned(
        SelectTree { from: seq![UsageRecords::Table.spec_iden()], ..empty_select() },
        with_item(
            with_item(
                all_of(Seq::empty()),
                equals_text(UsageRecords::GtsId.spec_iden(), gts_id),
            ),
            just(ExprTree::Custom("status = 'active'"@)),
        ),
    )
}

/// The records that an aggregation reads: the active ones of the usage type;
/// compensations only for a sum.
pub open spec fn aggregate_base(gts_id: Seq<char>, op: AggregationOp) -> SelectTree {
    if op == AggregationOp::Sum {
        active_records(gts_id)
    } else {
        conditioned(active_records(gts_id), custom_condition("corrects_id IS NULL"@))
    }
}

/// The statement with a dimension's condition, where it has one: a record
/// without a subject belongs to no group of subjects.
pub open spec fn with_dimension(t: SelectTree, dim: AggregationDimension) -> SelectTree {
    match dim {
        AggregationDimension::SubjectId => conditioned(
            t,
            custom_condition("subject_id IS NOT NULL"@),
        ),
        AggregationDimension::SubjectType => conditioned(
            t,
            custom_condition("subject_type IS NOT NULL"@),
        ),
        _ => t,
    }
}

/// The statement with the conditions of its dimensions.
pub open spec fn with_dimensions(t: SelectTree, dims: Seq<AggregationDimension>) -> SelectTree
    decreases dims.len(),
{
    if dims.len() == 0 {
        t
    } else {
        with_dimension(with_dimensions(t, dims.drop_last()), dims.last())
    }
}

/// The alias of a dimension.
pub open spec fn dimension_alias(i: int) -> Seq<char> {
    "d"@ + decimal_text(i as nat)
}

/// The selected dimensions.
pub open spec fn dimension_selects(dims: Seq<AggregationDimension>) -> Seq<
    (ExprTree, Option<Seq<char>>),
> {
    Seq::new(dims.len(), |i: int| (dimension_expr(dims[i]), Some(dimension_alias(i))))
}

/// The grouping by the first `n` selected expressions.
pub open spec fn ordinals(n: nat) -> Seq<ExprTree> {
    Seq::new(n, |i: int| ExprTree::Custom(decimal_text((i + 1) as nat)))
}

/// The statement of an aggregation, or why there is none.
pub open spec fn aggregate_tree(
    gts_id: Seq<char>,
    filter: Option<Result<FilterNode, String>>,
    metadata_filter: Seq<MetadataFilter>,
    op: AggregationOp,
    dims: Seq<AggregationDimension>,
    max_buckets: usize,
) -> Result<SelectTree, ErrorView> {
    match with_filter(aggregate_base(gts_id, op), filter) {
        Err(why) => Err(why),
        Ok(t) => Ok(
            SelectTree {
                selects: dimension_selects(dims).push(
                    (ExprTree::Custom(agg_text(op)), Some("agg"@)),
                ),
                groups: ordinals(dims.len()),
                limit: if dims.len() == 0 {
                    None
                } else {
                    Some((max_buckets + 1) as u64)
                },
                ..with_dimensions(conditioned(t, metadata_tree(metadata_filter)), dims)
            },
        ),
    }
}

/// Adds the condition that is one custom text.
fn apply_custom(stmt: &mut sea_query::SelectStatement, text: &str)
    requires
        select_balanced(select_tree(*old(stmt))),
    ensures
        select_tree(*final(stmt)) == conditioned(
            select_tree(*old(stmt)),
            custom_condition(text@),
        ),
        select_balanced(select_tree(*final(stmt))),
{
    let cond = condition_add(condition_all(), condition_from_expr(expr_cust(text.to_owned())));
    proof {
        lemma_just_balanced(ExprTree::Custom(text@));
        lemma_with_item_balanced(all_of(Seq::empty()), just(ExprTree::Custom(text@)));
        lemma_filtered_balanced(select_tree(*stmt), custom_condition(text@));
    }
    apply_condition(stmt, cond);
}

/// Starts the statement of an aggregation.
fn select_aggregated(gts_id: &UsageTypeGtsId, op: AggregationOp) -> (stmt:
    sea_query::SelectStatement)
    ensures
        select_tree(stmt) == aggregate_base(gts_id@, op),
        select_balanced(select_tree(stmt)),
{
    let mut stmt = select_new();
    select_from(&mut stmt, UsageRecords::Table.iden());
    assert(select_tree(stmt).from =~= seq![UsageRecords::Table.spec_iden()]);
    let of_type = text_equality(UsageRecords::GtsId.iden(), gts_id_str(gts_id));
    let active = condition_from_expr(expr_cust("status = 'active'".to_owned()));
    proof {
        let none = all_of(Seq::empty());
        lemma_just_balanced(ExprTree::Custom("status = 'active'"@));
        lemma_with_item_balanced(none, condition_tree(of_type));
        lemma_with_item_balanced(with_item(none, condition_tree(of_type)), condition_tree(active));
        lemma_filtered_balanced(
            select_tree(stmt),
            with_item(with_item(none, condition_tree(of_type)), condition_tree(active)),
        );
    }
    let cond = condition_add(condition_add(condition_all(), of_type), active);
    apply_condition(&mut stmt, cond);
    match corrects_id_partition_clause(op) {
        Some(clause) => {
            apply_custom(&mut stmt, clause);
        },
        None => {},
    }
    stmt
}

/// Adds the conditions of dimensions.
fn apply_dimensions(stmt: &mut sea_query::SelectStatement, dims: &Vec<AggregationDimension>)
    requires
        select_balanced(select_tree(*old(stmt))),
    ensures
        select_tree(*final(stmt)) == with_dimensions(select_tree(*old(stmt)), dims@),
        select_balanced(select_tree(*final(stmt))),
{
    let ghost start = select_tree(*stmt);
    let mut i: usize = 0;
    assert(dims@.take(0) =~= Seq::<AggregationDimension>::empty());
    while i < dims.len()
        invariant
            i <= dims@.len(),
            select_tree(*stmt) == with_dimensions(start, dims@.take(i as int)),
            select_balanced(select_tree(*stmt)),
        decreases dims@.len() - i,
    {
        proof {
            let longer = dims@.take(i + 1);
            assert(longer.drop_last() =~= dims@.take(i as int));
            assert(longer.last() == dims@[i as int]);
        }
        match &dims[i] {
            AggregationDimension::SubjectId => {
                apply_custom(stmt, "subject_id IS NOT NULL");
            },
            AggregationDimension::SubjectType => {
                apply_custom(stmt, "subject_type IS NOT NULL");
            },
            AggregationDimension::TenantId
            | AggregationDimension::ResourceId
            | AggregationDimension::ResourceType
            | AggregationDimension::Metadata(_) => {},
        }
        i = i + 1;
    }
    assert(dims@.take(i as int) =~= dims@);
}

proof fn lemma_conditions_keep_the_rest(t: SelectTree, dims: Seq<AggregationDimension>)
    ensures
        with_dimensions(t, dims).selects == t.selects,
        with_dimensions(t, dims).groups == t.groups,
        with_dimensions(t, dims).limit == t.limit,
    decreases dims.len(),
{
    if dims.len() > 0 {
        lemma_conditions_keep_the_rest(t, dims.drop_last());
    }
}

/// Adds the selected expressions of an aggregation.
fn select_dimensions(
    stmt: &mut sea_query::SelectStatement,
    dims: &Vec<AggregationDimension>,
    op: AggregationOp,
)
    requires
        select_balanced(select_tree(*old(stmt))),
        select_tree(*old(stmt)).selects.len() == 0,
    ensures
        select_tree(*final(stmt)) == (SelectTree {
            selects: dimension_selects(dims@).push((ExprTree::Custom(agg_text(op)), Some("agg"@))),
            ..select_tree(*old(stmt))
        }),
        select_balanced(select_tree(*final(stmt))),
{
    let ghost start = select_tree(*stmt);
    let ghost all = dimension_selects(dims@);
    let mut i: usize = 0;
    assert(start.selects =~= all.take(0));
    while i < dims.len()
        invariant
            i <= dims@.len(),
            all == dimension_selects(dims@),
            select_tree(*stmt) == (SelectTree { selects: all.take(i as int), ..start }),
        decreases dims@.len() - i,
    {
        let alias = "d".to_owned().concat(spell_unsigned(i as u64).as_str());
        select_expr_as(stmt, dimension_select_expr(&dims[i]), alias);
        proof {
            assert(all[i as int] == (dimension_expr(dims@[i as int]), Some(dimension_alias(i as int))));
            assert(all.take(i + 1) =~= all.take(i as int).push(all[i as int]));
        }
        i = i + 1;
    }
    select_expr_as(stmt, agg_select_expr(op), "agg".to_owned());
    proof {
        assert(all.take(i as int) =~= all);
        let t = select_tree(*stmt);
        assert forall|j: int| 0 <= j < t.selects.len() implies expr_balanced(
            (#[trigger] t.selects[j]).0,
        ) by {
            if j < all.len() {
                assert(t.selects[j] == all[j]);
                match dims@[j] {
                    AggregationDimension::Metadata(key) => {
                        lemma_bound_expressions_are_balanced(0, key@);
                    },
                    _ => {},
                }
            }
        }
    }
}

/// The expressions that group by the first `n` selected expressions.
fn ordinal_exprs(n: usize) -> (r: Vec<sea_query::Expr>)
    ensures
        expr_trees(r@) == ordinals(n as nat),
{
    let mut out: Vec<sea_query::Expr> = Vec::new();
    let mut i: usize = 0;
    while i < n
        invariant
            i <= n,
            out@.len() == i,
            forall|j: int|
                0 <= j < i ==> expr_tree(#[trigger] out@[j]) == ExprTree::Custom(
                    decimal_text((j + 1) as nat),
                ),
        decreases n - i,
    {
        i = i + 1;
        out.push(expr_cust(spell_unsigned(i as u64)));
    }
    assert(expr_trees(out@) =~= ordinals(n as nat));
    out
}

/// Builds the statement of an aggregation: one row for each group, at most
/// `max_buckets + 1` of them.
pub fn aggregate_statement(
    gts_id: &UsageTypeGtsId,
    filter: &Option<Result<FilterNode, String>>,
    metadata_filter: &Vec<MetadataFilter>,
    aggregation: &AggregationSpec,
    max_buckets: usize,
) -> (r: Result<sea_query::SelectStatement, UsageCollectorPluginError>)
    requires
        max_buckets < usize::MAX,
    ensures
        match aggregate_tree(
            gts_id@,
            *filter,
            metadata_filter@,
            aggregation.op,
            aggregation.group_by@,
            max_buckets,
        ) {
            Ok(t) => r matches Ok(stmt) && select_tree(stmt) == t && select_balanced(t),
            Err(why) => r matches Err(e) && e@ == why,
        },
{
    let dim_count = aggregation.group_by.len();
    let mut stmt = select_aggregated(gts_id, aggregation.op);
    match apply_filter(&mut stmt, filter) {
        Ok(_) => {},
        Err(e) => {
            return Err(e);
        },
    }
    let metadata = metadata_conditions(metadata_filter);
    proof {
        lemma_filtered_balanced(select_tree(stmt), condition_tree(metadata));
    }
    apply_condition(&mut stmt, metadata);
    let ghost unsplit = select_tree(stmt);
    apply_dimensions(&mut stmt, &aggregation.group_by);
    proof {
        lemma_conditions_keep_the_rest(unsplit, aggregation.group_by@);
    }
    let ghost chosen = select_tree(stmt);
    select_dimensions(&mut stmt, &aggregation.group_by, aggregation.op);
    if dim_count > 0 {
        select_group_by(&mut stmt, ordinal_exprs(dim_count));
    }
    assert(select_tree(stmt).groups =~= ordinals(dim_count as nat));
    match aggregate_limit(dim_count, max_buckets) {
        Some(lim) => {
            select_limit(&mut stmt, lim);
        },
        None => {},
    }
    proof {
        assert(chosen.selects =~= Seq::empty());
        let t = select_tree(stmt);
        assert forall|j: int| 0 <= j < t.groups.len() implies expr_balanced(
            #[trigger] t.groups[j],
        ) by {}
    }
    Ok(stmt)
}

/// Prepares the query of an aggregation.
pub fn aggregate_query(
    client: &clickhouse::Client,
    gts_id: &UsageTypeGtsId,
    filter: &Option<Result<FilterNode, String>>,
    metadata_filter: &Vec<MetadataFilter>,
    aggregation: &AggregationSpec,
    max_buckets: usize,
) -> (r: Result<clickhouse::query::Query, UsageCollectorPluginError>)
    requires
        max_buckets < usize::MAX,
    ensures
        match aggregate_tree(
            gts_id@,
            *filter,
            metadata_filter@,
            aggregation.op,
            aggregation.group_by@,
            max_buckets,
        ) {
            Ok(t) => is_select_query(r, t),
            Err(why) => r matches Err(e) && e@ == why,
        },
{
    match aggregate_statement(gts_id, filter, metadata_filter, aggregation, max_buckets) {
        Ok(stmt) => select_query(client, stmt),
        Err(e) => Err(e),
    }
}

/// What the conditions of dimensions yield: every subject that is grouped by
/// must be there.
pub open spec fn dimensions_truth(
    dims: Seq<AggregationDimension>,
    leaf: spec_fn(ExprTree) -> Truth,
) -> Truth
    decreases dims.len(),
{
    if dims.len() == 0 {
        Truth::True
    } else {
        truth_and(
            dimensions_truth(dims.drop_last(), leaf),
            match dims.last() {
                AggregationDimension::SubjectId => leaf(
                    ExprTree::Custom("subject_id IS NOT NULL"@),
                ),
                AggregationDimension::SubjectType => leaf(
                    ExprTree::Custom("subject_type IS NOT NULL"@),
                ),
                _ => Truth::True,
            },
        )
    }
}

proof fn lemma_dimensions_truth(
    t: SelectTree,
    dims: Seq<AggregationDimension>,
    leaf: spec_fn(ExprTree) -> Truth,
)
    ensures
        where_truth(with_dimensions(t, dims), leaf) == truth_and(
            where_truth(t, leaf),
            dimensions_truth(dims, leaf),
        ),
    decreases dims.len(),
{
    if dims.len() > 0 {
        let front = with_dimensions(t, dims.drop_last());
        lemma_dimensions_truth(t, dims.drop_last(), leaf);
        lemma_custom_truth(front, "subject_id IS NOT NULL"@, leaf);
        lemma_custom_truth(front, "subject_type IS NOT NULL"@, leaf);
    }
}

proof fn lemma_custom_truth(t: SelectTree, text: Seq<char>, leaf: spec_fn(ExprTree) -> Truth)
    ensures
        where_truth(conditioned(t, custom_condition(text)), leaf) == truth_and(
            where_truth(t, leaf),
            leaf(ExprTree::Custom(text)),
        ),
{
    lemma_expression_truth(ExprTree::Custom(text), leaf);
    lemma_conditioned_truth(t, custom_condition(text), leaf);
}

/// The truth of the condition on compensations.
pub open spec fn partition_truth(op: AggregationOp, leaf: spec_fn(ExprTree) -> Truth) -> Truth {
    if op == AggregationOp::Sum {
        Truth::True
    } else {
        leaf(ExprTree::Custom("corrects_id IS NULL"@))
    }
}

/// An aggregation reads the active records of the usage type, compensations
/// only for a sum, on which the filter and every metadata filter hold, and that
/// have the subjects it groups by. (A filter that is a disjunction of nothing,
/// or the negation of a conjunction of nothing, is left out of the statement.)
pub proof fn law_aggregation_reads_what_was_asked_for(
    gts_id: Seq<char>,
    filter: Option<Result<FilterNode, String>>,
    metadata_filter: Seq<MetadataFilter>,
    op: AggregationOp,
    dims: Seq<AggregationDimension>,
    max_buckets: usize,
    leaf: spec_fn(ExprTree) -> Truth,
)
    requires
        aggregate_tree(gts_id, filter, metadata_filter, op, dims, max_buckets) is Ok,
        filter_is_added(filter),
    ensures
        where_truth(
            aggregate_tree(gts_id, filter, metadata_filter, op, dims, max_buckets)->Ok_0,
            leaf,
        ) == truth_and(
            truth_and(
                truth_and(
                    truth_and(
                        truth_and(
                            leaf(text_comparison(UsageRecords::GtsId.spec_iden(), gts_id)),
                            leaf(ExprTree::Custom("status = 'active'"@)),
                        ),
                        partition_truth(op, leaf),
                    ),
                    optional_filter_truth(filter, leaf),
                ),
                metadata_truth(metadata_filter, leaf),
            ),
            dimensions_truth(dims, leaf),
        ),
{
    let none = all_of(Seq::empty());
    let of_type = text_comparison(UsageRecords::GtsId.spec_iden(), gts_id);
    let active = ExprTree::Custom("status = 'active'"@);
    let first = with_item(none, just(of_type));
    let both = with_item(first, just(active));
    lemma_expression_truth(of_type, leaf);
    lemma_expression_truth(active, leaf);
    lemma_with_item_truth(first, just(active), leaf);
    let start = SelectTree { from: seq![UsageRecords::Table.spec_iden()], ..empty_select() };
    lemma_conditioned_truth(start, both, leaf);
    lemma_custom_truth(active_records(gts_id), "corrects_id IS NULL"@, leaf);
    let base = aggregate_base(gts_id, op);
    lemma_filter_truth(base, filter, leaf);
    let typed = with_filter(base, filter)->Ok_0;
    lemma_metadata_truth(metadata_filter, leaf);
    lemma_conditioned_truth(typed, metadata_tree(metadata_filter), leaf);
    lemma_dimensions_truth(conditioned(typed, metadata_tree(metadata_filter)), dims, leaf);
}

/// The values of selected dimensions: the keys of the metadata ones.
pub open spec fn dimensions_data(dims: Seq<AggregationDimension>) -> Seq<DatumView>
    decreases dims.len(),
{
    if dims.len() == 0 {
        Seq::empty()
    } else {
        dimensions_data(dims.drop_last()) + match dims.last() {
            AggregationDimension::Metadata(key) => seq![DatumView::Text(Some(key@))],
            _ => Seq::empty(),
        }
    }
}

proof fn lemma_dimension_binds(dim: AggregationDimension)
    ensures
        expr_is_plain(dimension_expr(dim)),
        expr_data(dimension_expr(dim)) == match dim {
            AggregationDimension::Metadata(key) => seq![DatumView::Text(Some(key@))],
            _ => Seq::empty(),
        },
{
    match dim {
        AggregationDimension::Metadata(key) => {
            lemma_bound_expressions_bind(0, key@);
        },
        _ => {
            assert(expr_data(dimension_expr(dim)) =~= Seq::empty());
        },
    }
}

proof fn lemma_dimensions_bind(dims: Seq<AggregationDimension>)
    ensures
        exprs_data(dims.map_values(|d: AggregationDimension| dimension_expr(d)))
            == dimensions_data(dims),
        is_bindable(dimensions_data(dims)),
    decreases dims.len(),
{
    let es = dims.map_values(|d: AggregationDimension| dimension_expr(d));
    if dims.len() == 0 {
        assert(exprs_data(es) =~= Seq::empty());
    } else {
        let front = dims.drop_last();
        lemma_dimensions_bind(front);
        lemma_dimension_binds(dims.last());
        assert(es.drop_last() =~= front.map_values(|d: AggregationDimension| dimension_expr(d)));
        assert(expr_data(es.last()) == expr_data(dimension_expr(dims.last())));
    }
}

proof fn lemma_custom_binds(t: SelectTree, text: Seq<char>, data: Seq<DatumView>)
    requires
        filter_binds(t, data),
    ensures
        filter_binds(conditioned(t, custom_condition(text)), data),
{
    let none = Seq::<DatumView>::empty();
    let e = ExprTree::Custom(text);
    assert(expr_data(e) =~= none);
    lemma_just_binds(e, none);
    lemma_empty_binds();
    lemma_with_item_binds(all_of(Seq::empty()), just(e), none, none);
    assert(none + none =~= none);
    lemma_conditioned_binds(t, custom_condition(text), data, none);
    assert(data + none =~= data);
}

proof fn lemma_with_dimensions_binds(
    t: SelectTree,
    dims: Seq<AggregationDimension>,
    data: Seq<DatumView>,
)
    requires
        filter_binds(t, data),
    ensures
        filter_binds(with_dimensions(t, dims), data),
        with_dimensions(t, dims).orders == t.orders,
    decreases dims.len(),
{
    if dims.len() > 0 {
        let front = with_dimensions(t, dims.drop_last());
        lemma_with_dimensions_binds(t, dims.drop_last(), data);
        lemma_custom_binds(front, "subject_id IS NOT NULL"@, data);
        lemma_custom_binds(front, "subject_type IS NOT NULL"@, data);
    }
}

proof fn lemma_base_binds(gts_id: Seq<char>, op: AggregationOp)
    ensures
        filter_binds(aggregate_base(gts_id, op), seq![DatumView::Text(Some(gts_id))]),
{
    let of_type = seq![DatumView::Text(Some(gts_id))];
    let none = Seq::<DatumView>::empty();
    let start = SelectTree { from: seq![UsageRecords::Table.spec_iden()], ..empty_select() };
    let active = ExprTree::Custom("status = 'active'"@);
    let typed = equals_text(UsageRecords::GtsId.spec_iden(), gts_id);
    let first = with_item(all_of(Seq::empty()), typed);
    assert(expr_data(active) =~= none);
    lemma_just_binds(active, none);
    lemma_text_comparison_binds(UsageRecords::GtsId.spec_iden(), gts_id);
    lemma_empty_binds();
    lemma_with_item_binds(all_of(Seq::empty()), typed, none, of_type);
    assert(none + of_type =~= of_type);
    lemma_with_item_binds(first, just(active), of_type, none);
    assert(of_type + none =~= of_type);
    assert(filter_binds(start, none));
    lemma_conditioned_binds(start, with_item(first, just(active)), none, of_type);
    lemma_custom_binds(active_records(gts_id), "corrects_id IS NULL"@, of_type);
}

/// The values of an aggregation's statement are the metadata keys that it groups
/// by, the usage type, the literals of the filter, the keys and values of the
/// metadata filters and, where there are groups, the number of rows, each at its
/// placeholder. All of them can be bound.
pub proof fn law_aggregation_binds_what_was_asked_for(
    gts_id: Seq<char>,
    filter: Option<Result<FilterNode, String>>,
    metadata_filter: Seq<MetadataFilter>,
    op: AggregationOp,
    dims: Seq<AggregationDimension>,
    max_buckets: usize,
)
    requires
        aggregate_tree(gts_id, filter, metadata_filter, op, dims, max_buckets) is Ok,
    ensures
        final_select(
            aggregate_tree(gts_id, filter, metadata_filter, op, dims, max_buckets)->Ok_0,
        ).1 == dimensions_data(dims) + (seq![DatumView::Text(Some(gts_id))] + optional_filter_data(
            filter,
        ) + metadata_data(metadata_filter)) + limit_data(
            if dims.len() == 0 {
                None
            } else {
                Some((max_buckets + 1) as u64)
            },
        ),
        data_args(
            final_select(
                aggregate_tree(gts_id, filter, metadata_filter, op, dims, max_buckets)->Ok_0,
            ).1,
        ) is Some,
{
    let t = aggregate_tree(gts_id, filter, metadata_filter, op, dims, max_buckets)->Ok_0;
    let base = aggregate_base(gts_id, op);
    let of_type = seq![DatumView::Text(Some(gts_id))];
    lemma_base_binds(gts_id, op);
    lemma_filter_binds(base, filter, of_type);
    let typed = with_filter(base, filter)->Ok_0;
    let of_typed = of_type + optional_filter_data(filter);
    lemma_metadata_binds(metadata_filter);
    lemma_conditioned_binds(
        typed,
        metadata_tree(metadata_filter),
        of_typed,
        metadata_data(metadata_filter),
    );
    let data = of_typed + metadata_data(metadata_filter);
    let unsplit = conditioned(typed, metadata_tree(metadata_filter));
    lemma_with_dimensions_binds(unsplit, dims, data);
    assert(t.orders =~= Seq::empty());
    assert forall|i: int| 0 <= i < t.selects.len() implies expr_is_plain(
        (#[trigger] t.selects[i]).0,
    ) by {
        if i < dims.len() {
            assert(t.selects[i].0 == dimension_expr(dims[i]));
            lemma_dimension_binds(dims[i]);
        }
    }
    assert(filter_binds(t, data));
    lemma_statement_data(t, data);
    let es = selected_exprs(t);
    lemma_dimensions_bind(dims);
    assert(es.drop_last() =~= dims.map_values(|d: AggregationDimension| dimension_expr(d)));
    assert(es.last() == ExprTree::Custom(agg_text(op)));
    assert(expr_data(es.last()) =~= Seq::empty());
    assert(exprs_data(es) =~= dimensions_data(dims));
    assert(is_bindable(final_select(t).1));
    lemma_bindable(final_select(t).1);
}

// ---- what an aggregation's statement says ----

/// An aggregation computes the function that was asked for over the `value`
/// column, counts rows where a count was asked for, and groups by the dimensions
/// that were asked for: each dimension is selected as its own column under its own
/// name, all of them are grouped by, and the aggregate stands behind them.
pub proof fn law_aggregation_computes_what_was_asked_for(
    gts_id: Seq<char>,
    filter: Option<Result<FilterNode, String>>,
    metadata_filter: Seq<MetadataFilter>,
    op: AggregationOp,
    dims: Seq<AggregationDimension>,
    max_buckets: usize,
    t: SelectTree,
)
    requires
        aggregate_tree(gts_id, filter, metadata_filter, op, dims, max_buckets) == Ok::<
            SelectTree,
            ErrorView,
        >(t),
        max_buckets < usize::MAX,
    ensures
        t.selects.len() == dims.len() + 1,
        op is Sum ==> t.selects[dims.len() as int] == (
            ExprTree::Custom("SUM(value)"@),
            Some("agg"@),
        ),
        op is Count ==> t.selects[dims.len() as int] == (
            ExprTree::Custom("COUNT(*)"@),
            Some("agg"@),
        ),
        op is Min ==> t.selects[dims.len() as int] == (
            ExprTree::Custom("MIN(value)"@),
            Some("agg"@),
        ),
        op is Max ==> t.selects[dims.len() as int] == (
            ExprTree::Custom("MAX(value)"@),
            Some("agg"@),
        ),
        op is Avg ==> t.selects[dims.len() as int] == (
            ExprTree::Custom("ROUND(AVG(value), 6)"@),
            Some("agg"@),
        ),
        forall|i: int|
            #![trigger t.selects[i]]
            0 <= i < dims.len() ==> t.selects[i].1 == Some("d"@ + decimal_text(i as nat))
                && match dims[i] {
                AggregationDimension::TenantId => t.selects[i].0 == ExprTree::Custom(
                    "toString(tenant_id)"@,
                ),
                AggregationDimension::ResourceId => t.selects[i].0 == ExprTree::Custom(
                    "resource_id"@,
                ),
                AggregationDimension::ResourceType => t.selects[i].0 == ExprTree::Custom(
                    "resource_type"@,
                ),
                AggregationDimension::SubjectId => t.selects[i].0 == ExprTree::Custom(
                    "subject_id"@,
                ),
                AggregationDimension::SubjectType => t.selects[i].0 == ExprTree::Custom(
                    "subject_type"@,
                ),
                AggregationDimension::Metadata(key) => t.selects[i].0 == ExprTree::CustomWithExpr(
                    "arrayElement(metadata, ?)"@,
                    seq![ExprTree::Value(DatumView::Text(Some(key@)))],
                ),
            },
        t.groups.len() == dims.len(),
        forall|i: int|
            0 <= i < dims.len() ==> #[trigger] t.groups[i] == ExprTree::Custom(
                decimal_text((i + 1) as nat),
            ),
        t.from == seq!["usage_records"@],
        t.orders.len() == 0,
        dims.len() == 0 ==> t.limit is None,
        dims.len() > 0 ==> (t.limit matches Some(n) && n == max_buckets + 1),
{
    let base = aggregate_base(gts_id, op);
    let typed = with_filter(base, filter)->Ok_0;
    let unsplit = conditioned(typed, metadata_tree(metadata_filter));
    lemma_with_dimensions_keeps(unsplit, dims);
    assert(t.from =~= seq!["usage_records"@]);
}

proof fn lemma_with_dimensions_keeps(t: SelectTree, dims: Seq<AggregationDimension>)
    ensures
        with_dimensions(t, dims).from == t.from,
        with_dimensions(t, dims).orders == t.orders,
    decreases dims.len(),
{
    if dims.len() > 0 {
        lemma_with_dimensions_keeps(t, dims.drop_last());
    }
}

proof fn lemma_dimensions_hold(
    dims: Seq<AggregationDimension>,
    leaf: spec_fn(ExprTree) -> Truth,
)
    ensures
        dimensions_truth(dims, leaf) is True <==> forall|i: int|
            #![trigger dims[i]]
            0 <= i < dims.len() ==> (dims[i] is SubjectId ==> leaf(
                ExprTree::Custom("subject_id IS NOT NULL"@),
            ) is True) && (dims[i] is SubjectType ==> leaf(
                ExprTree::Custom("subject_type IS NOT NULL"@),
            ) is True),
    decreases dims.len(),
{
    if dims.len() > 0 {
        let front = dims.drop_last();
        lemma_dimensions_hold(front, leaf);
        if dimensions_truth(dims, leaf) is True {
            assert forall|i: int| #![trigger dims[i]] 0 <= i < dims.len() implies (dims[i]
                is SubjectId ==> leaf(ExprTree::Custom("subject_id IS NOT NULL"@)) is True) && (
            dims[i] is SubjectType ==> leaf(ExprTree::Custom("subject_type IS NOT NULL"@))
                is True) by {
                if i < front.len() {
                    assert(front[i] == dims[i]);
                }
            }
        }
        if forall|i: int|
            #![trigger dims[i]]
            0 <= i < dims.len() ==> (dims[i] is SubjectId ==> leaf(
                ExprTree::Custom("subject_id IS NOT NULL"@),
            ) is True) && (dims[i] is SubjectType ==> leaf(
                ExprTree::Custom("subject_type IS NOT NULL"@),
            ) is True) {
            assert forall|i: int| #![trigger front[i]] 0 <= i < front.len() implies (front[i]
                is SubjectId ==> leaf(ExprTree::Custom("subject_id IS NOT NULL"@)) is True) && (
            front[i] is SubjectType ==> leaf(ExprTree::Custom("subject_type IS NOT NULL"@))
                is True) by {
                assert(front[i] == dims[i]);
            }
            let last = dims[dims.len() - 1];
            assert(last == dims.last());
        }
    }
}

/// An aggregation reads exactly the active records of the usage type on which the
/// filter and each of the metadata filters hold; records that correct others only
/// for a sum; and of those that are grouped by a subject only those that have one.
/// (A filter that is a disjunction of nothing, or the negation of a conjunction of
/// nothing, is left out of the statement.)
pub proof fn law_aggregation_asks_this_of_each_row(
    gts_id: Seq<char>,
    filter: Option<Result<FilterNode, String>>,
    metadata_filter: Seq<MetadataFilter>,
    op: AggregationOp,
    dims: Seq<AggregationDimension>,
    max_buckets: usize,
    t: SelectTree,
    leaf: spec_fn(ExprTree) -> Truth,
)
    requires
        aggregate_tree(gts_id, filter, metadata_filter, op, dims, max_buckets) == Ok::<
            SelectTree,
            ErrorView,
        >(t),
        filter_is_added(filter),
    ensures
        where_truth(t, leaf) is True <==> {
            &&& leaf(
                ExprTree::Binary(
                    Box::new(ExprTree::Column("gts_id"@)),
                    Comparison::Equal,
                    Box::new(ExprTree::Value(DatumView::Text(Some(gts_id)))),
                ),
            ) is True
            &&& leaf(ExprTree::Custom("status = 'active'"@)) is True
            &&& op is Count || op is Min || op is Max || op is Avg ==> leaf(
                ExprTree::Custom("corrects_id IS NULL"@),
            ) is True
            &&& filter matches Some(Ok(node)) ==> condition_truth(
                filter_tree(RecordColumns, node)->Ok_0,
                leaf,
            ) is True
            &&& forall|i: int|
                0 <= i < metadata_filter.len() ==> leaf(
                    metadata_filter_expr(
                        (#[trigger] metadata_filter[i]).key@,
                        texts(metadata_filter[i].values@),
                    ),
                ) is True
            &&& forall|i: int|
                #![trigger dims[i]]
                0 <= i < dims.len() ==> (dims[i] is SubjectId ==> leaf(
                    ExprTree::Custom("subject_id IS NOT NULL"@),
                ) is True) && (dims[i] is SubjectType ==> leaf(
                    ExprTree::Custom("subject_type IS NOT NULL"@),
                ) is True)
        },
{
    law_aggregation_reads_what_was_asked_for(
        gts_id,
        filter,
        metadata_filter,
        op,
        dims,
        max_buckets,
        leaf,
    );
    lemma_metadata_holds(metadata_filter, leaf);
    lemma_dimensions_hold(dims, leaf);
    if let Some(Ok(node)) = filter {
        law_translation_keeps_the_meaning(RecordColumns, node, leaf);
    }
}

/// An aggregation is refused exactly where its filter is, and with its reason.
pub proof fn law_aggregation_is_refused_with_its_filter(
    gts_id: Seq<char>,
    filter: Option<Result<FilterNode, String>>,
    metadata_filter: Seq<MetadataFilter>,
    op: AggregationOp,
    dims: Seq<AggregationDimension>,
    max_buckets: usize,
)
    ensures
        ({
            let r = aggregate_tree(gts_id, filter, metadata_filter, op, dims, max_buckets);
            &&& filter is None ==> r is Ok
            &&& filter matches Some(Err(why)) ==> r == Err::<SelectTree, ErrorView>(
                ErrorView::Internal("invalid filter: "@ + why@),
            )
            &&& filter matches Some(Ok(node)) ==> match filter_tree(RecordColumns, node) {
                Ok(_) => r is Ok,
                Err(why) => r == Err::<SelectTree, ErrorView>(ErrorView::Internal(why)),
            }
        }),
{
}

} // verus!
