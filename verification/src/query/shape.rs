//! The SQL text of a filtered statement does not depend on the filter's values.
use crate::query::bind::{bind_expr, bind_of, ODataValue};
use crate::query::statement::{conditioned, final_select};
use crate::query::translate::{
    comparison_of, comparison_tree, equalities, filter_tree, joined_trees, ColumnAllowlist,
    FilterNode, FilterOp,
};
use crate::sql::{
    all_of, any_of, compared, condition_shape, expr_shape, expr_shapes, filtered, item_shapes, just,
    negated, select_shape, with_item, Comparison, ConditionItem, ConditionTree, DatumView, ExprTree,
    SelectTree,
};
use vstd::prelude::*;

verus! {

/// Whether two literals are of one variant.
pub open spec fn same_variant(a: ODataValue, b: ODataValue) -> bool {
    match a {
        ODataValue::Uuid(_) => b is Uuid,
        ODataValue::String(_) => b is String,
        ODataValue::Bool(_) => b is Bool,
        ODataValue::Number(_) => b is Number,
        ODataValue::DateTime(_) => b is DateTime,
        ODataValue::Null => b is Null,
        ODataValue::Date => b is Date,
        ODataValue::Time => b is Time,
    }
}

/// Whether two filters have the same structure, fields, operators and variants
/// of literals: they differ only in what their literals hold.
pub open spec fn same_filter_shape(a: FilterNode, b: FilterNode) -> bool
    decreases a,
{
    match (a, b) {
        (
            FilterNode::Binary { field: f, op: o, value: v },
            FilterNode::Binary { field: g, op: p, value: w },
        ) => f@ == g@ && o == p && same_variant(v, w),
        (
            FilterNode::InList { field: f, values: v },
            FilterNode::InList { field: g, values: w },
        ) => {
            &&& f@ == g@
            &&& v@.len() == w@.len()
            &&& forall|i: int| 0 <= i < v@.len() ==> same_variant(#[trigger] v@[i], w@[i])
        },
        (
            FilterNode::Composite { op: o, children: v },
            FilterNode::Composite { op: p, children: w },
        ) => {
            &&& o == p
            &&& v@.len() == w@.len()
            &&& forall|i: int| 0 <= i < v@.len() ==> same_filter_shape(#[trigger] v@[i], w@[i])
        },
        (FilterNode::Not(x), FilterNode::Not(y)) => same_filter_shape(*x, *y),
        _ => false,
    }
}

/// Bound literals of one variant are of one shape.
proof fn lemma_bind_shape(a: ODataValue, b: ODataValue)
    requires
        same_variant(a, b),
        bind_of(a) is Ok,
        bind_of(b) is Ok,
    ensures
        expr_shape(bind_expr(bind_of(a)->Ok_0)) == expr_shape(bind_expr(bind_of(b)->Ok_0)),
{
    if a is DateTime {
        let x = a->DateTime_0;
        let y = b->DateTime_0;
        let of_x = seq![ExprTree::Value(DatumView::BigInt(Some(x)))];
        let of_y = seq![ExprTree::Value(DatumView::BigInt(Some(y)))];
        reveal_with_fuel(expr_shapes, 3);
        reveal_with_fuel(expr_shape, 3);
        assert(of_x.drop_last() =~= of_y.drop_last());
        assert(expr_shapes(of_x) =~= expr_shapes(of_y));
    }
}

proof fn lemma_just_shape(e: ExprTree)
    ensures
        condition_shape(just(e)) == just(expr_shape(e)),
{
    let items = seq![ConditionItem::Leaf(e)];
    reveal_with_fuel(item_shapes, 2);
    assert(items.drop_last() =~= Seq::empty());
    assert(item_shapes(items) =~= seq![ConditionItem::Leaf(expr_shape(e))]);
}

proof fn lemma_with_item_shape(c: ConditionTree, item: ConditionTree)
    ensures
        condition_shape(with_item(c, item)) == with_item(condition_shape(c), condition_shape(item)),
{
    let items = with_item(c, item).items;
    assert(items.drop_last() =~= c.items);
}

proof fn lemma_empty_shape()
    ensures
        condition_shape(all_of(Seq::empty())) == all_of(Seq::empty()),
        condition_shape(any_of(Seq::empty())) == any_of(Seq::empty()),
{
}

proof fn lemma_comparison_shape(column: Seq<char>, by: Comparison, a: ODataValue, b: ODataValue)
    requires
        same_variant(a, b),
        bind_of(a) is Ok,
        bind_of(b) is Ok,
    ensures
        condition_shape(comparison_tree(column, by, bind_of(a)->Ok_0)) == condition_shape(
            comparison_tree(column, by, bind_of(b)->Ok_0),
        ),
{
    lemma_bind_shape(a, b);
    let of_a = bind_expr(bind_of(a)->Ok_0);
    let of_b = bind_expr(bind_of(b)->Ok_0);
    let left = ExprTree::Column(column);
    assert(expr_shape(compared(left, by, of_a)) == compared(expr_shape(left), by, expr_shape(of_a)));
    assert(expr_shape(compared(left, by, of_b)) == compared(expr_shape(left), by, expr_shape(of_b)));
    lemma_just_shape(compared(left, by, of_a));
    lemma_just_shape(compared(left, by, of_b));
}

proof fn lemma_equalities_shape(column: Seq<char>, a: Seq<ODataValue>, b: Seq<ODataValue>)
    requires
        a.len() == b.len(),
        forall|i: int| 0 <= i < a.len() ==> same_variant(#[trigger] a[i], b[i]),
        equalities(column, a) is Ok,
        equalities(column, b) is Ok,
    ensures
        condition_shape(equalities(column, a)->Ok_0) == condition_shape(
            equalities(column, b)->Ok_0,
        ),
    decreases a.len(),
{
    if a.len() > 0 {
        lemma_equalities_shape(column, a.drop_last(), b.drop_last());
        assert(same_variant(a[a.len() - 1], b[a.len() - 1]));
        lemma_comparison_shape(column, Comparison::Equal, a.last(), b.last());
        lemma_with_item_shape(
            equalities(column, a.drop_last())->Ok_0,
            comparison_tree(column, Comparison::Equal, bind_of(a.last())->Ok_0),
        );
        lemma_with_item_shape(
            equalities(column, b.drop_last())->Ok_0,
            comparison_tree(column, Comparison::Equal, bind_of(b.last())->Ok_0),
        );
    }
}

/// Filters that differ only in what their literals hold translate to conditions
/// that differ only in what their bound values hold.
pub proof fn law_filters_of_one_shape_differ_in_bound_values<A: ColumnAllowlist>(
    allowlist: A,
    a: FilterNode,
    b: FilterNode,
)
    requires
        same_filter_shape(a, b),
        filter_tree(allowlist, a) is Ok,
        filter_tree(allowlist, b) is Ok,
    ensures
        condition_shape(filter_tree(allowlist, a)->Ok_0) == condition_shape(
            filter_tree(allowlist, b)->Ok_0,
        ),
    decreases a,
{
    let none = all_of(Seq::empty());
    match (a, b) {
        (
            FilterNode::Binary { field, op, value: v },
            FilterNode::Binary { field: _, op: _, value: w },
        ) => {
            let c = allowlist.column_text(field@)->0;
            let by = comparison_of(op)->0;
            lemma_comparison_shape(c, by, v, w);
            lemma_with_item_shape(none, comparison_tree(c, by, bind_of(v)->Ok_0));
            lemma_with_item_shape(none, comparison_tree(c, by, bind_of(w)->Ok_0));
        },
        (
            FilterNode::InList { field, values: v },
            FilterNode::InList { field: _, values: w },
        ) => {
            let c = allowlist.column_text(field@)->0;
            lemma_equalities_shape(c, v@, w@);
            lemma_with_item_shape(none, equalities(c, v@)->Ok_0);
            lemma_with_item_shape(none, equalities(c, w@)->Ok_0);
        },
        (
            FilterNode::Composite { op, children: v },
            FilterNode::Composite { op: _, children: w },
        ) => {
            let start = if op == FilterOp::And {
                none
            } else {
                any_of(Seq::empty())
            };
            lemma_joined_shape(allowlist, start, v@, w@);
        },
        (FilterNode::Not(x), FilterNode::Not(y)) => {
            law_filters_of_one_shape_differ_in_bound_values(allowlist, *x, *y);
            let of_x = filter_tree(allowlist, *x)->Ok_0;
            let of_y = filter_tree(allowlist, *y)->Ok_0;
            assert(condition_shape(negated(of_x)) == negated(condition_shape(of_x)));
            assert(condition_shape(negated(of_y)) == negated(condition_shape(of_y)));
        },
        _ => {},
    }
}

proof fn lemma_joined_shape<A: ColumnAllowlist>(
    allowlist: A,
    start: ConditionTree,
    a: Seq<FilterNode>,
    b: Seq<FilterNode>,
)
    requires
        a.len() == b.len(),
        forall|i: int| 0 <= i < a.len() ==> same_filter_shape(#[trigger] a[i], b[i]),
        joined_trees(allowlist, start, a) is Ok,
        joined_trees(allowlist, start, b) is Ok,
    ensures
        condition_shape(joined_trees(allowlist, start, a)->Ok_0) == condition_shape(
            joined_trees(allowlist, start, b)->Ok_0,
        ),
    decreases a,
{
    if a.len() > 0 {
        lemma_joined_shape(allowlist, start, a.drop_last(), b.drop_last());
        assert(same_filter_shape(a[a.len() - 1], b[a.len() - 1]));
        law_filters_of_one_shape_differ_in_bound_values(allowlist, a.last(), b.last());
        lemma_with_item_shape(
            joined_trees(allowlist, start, a.drop_last())->Ok_0,
            filter_tree(allowlist, a.last())->Ok_0,
        );
        lemma_with_item_shape(
            joined_trees(allowlist, start, b.drop_last())->Ok_0,
            filter_tree(allowlist, b.last())->Ok_0,
        );
    }
}

proof fn lemma_item_shapes_of_sum(a: Seq<ConditionItem>, b: Seq<ConditionItem>)
    ensures
        item_shapes(a + b) == item_shapes(a) + item_shapes(b),
    decreases b.len(),
{
    if b.len() == 0 {
        assert(a + b =~= a);
        assert(item_shapes(a) + item_shapes(b) =~= item_shapes(a));
    } else {
        lemma_item_shapes_of_sum(a, b.drop_last());
        assert((a + b).drop_last() =~= a + b.drop_last());
        assert((a + b).last() == b.last());
        assert(item_shapes(a + b) =~= item_shapes(a) + item_shapes(b));
    }
}

/// A statement's shape with a condition added is that of its parts.
proof fn lemma_filtered_shape(t: SelectTree, c: ConditionTree)
    ensures
        select_shape(filtered(t, c)) == filtered(select_shape(t), condition_shape(c)),
{
    match t.filter {
        None => {},
        Some(f) => {
            let none = all_of(Seq::empty());
            lemma_item_shapes_of_sum(f.items, c.items);
            lemma_with_item_shape(f, c);
            lemma_with_item_shape(none, f);
            lemma_with_item_shape(with_item(none, f), c);
            lemma_empty_shape();
        },
    }
}

proof fn lemma_item_shapes_len(items: Seq<ConditionItem>)
    ensures
        item_shapes(items).len() == items.len(),
    decreases items.len(),
{
    if items.len() > 0 {
        lemma_item_shapes_len(items.drop_last());
    }
}

/// A statement is rendered to the same SQL text with either of two filters that
/// differ only in what their literals hold: that appears in bound values alone.
pub proof fn law_filters_of_one_shape_render_to_one_text<A: ColumnAllowlist>(
    allowlist: A,
    t: SelectTree,
    a: FilterNode,
    b: FilterNode,
)
    requires
        same_filter_shape(a, b),
        filter_tree(allowlist, a) is Ok,
        filter_tree(allowlist, b) is Ok,
    ensures
        final_select(conditioned(t, filter_tree(allowlist, a)->Ok_0)).0 == final_select(
            conditioned(t, filter_tree(allowlist, b)->Ok_0),
        ).0,
{
    let of_a = filter_tree(allowlist, a)->Ok_0;
    let of_b = filter_tree(allowlist, b)->Ok_0;
    law_filters_of_one_shape_differ_in_bound_values(allowlist, a, b);
    lemma_item_shapes_len(of_a.items);
    lemma_item_shapes_len(of_b.items);
    assert(condition_shape(of_a).items == item_shapes(of_a.items));
    assert(condition_shape(of_b).items == item_shapes(of_b.items));
    lemma_filtered_shape(t, of_a);
    lemma_filtered_shape(t, of_b);
}

} // verus!
