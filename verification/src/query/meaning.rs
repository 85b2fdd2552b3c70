//! What filters and conditions mean, and that translation keeps it.
//!
//! A comparison with `NULL` is neither true nor false, so truth has three
//! values. What a single comparison yields on a row is left open; it is the
//! same on both sides.
use crate::query::bind::{bind_expr, bind_of, ODataValue, SqlBindView};
use crate::query::expr::lemma_bound_expressions_are_balanced;
use crate::query::placeholders::{
    condition_binds, law_literals_stand_at_their_placeholders, literal_data,
};
use crate::query::translate::{
    comparison_of, comparison_tree, equalities, filter_tree, joined_trees, ColumnAllowlist,
    FilterNode, FilterOp,
};
use crate::sql::{
    all_of, any_of, compared, condition_balanced, expr_balanced, just, negated, with_item,
    Comparison, ConditionItem, ConditionTree, ExprTree,
};
use vstd::prelude::*;

verus! {

/// A truth value of SQL.
pub enum Truth {
    True,
    False,
    Unknown,
}

/// Negation.
pub open spec fn truth_not(a: Truth) -> Truth {
    match a {
        Truth::True => Truth::False,
        Truth::False => Truth::True,
        Truth::Unknown => Truth::Unknown,
    }
}

/// Conjunction.
pub open spec fn truth_and(a: Truth, b: Truth) -> Truth {
    if a is False || b is False {
        Truth::False
    } else if a is True && b is True {
        Truth::True
    } else {
        Truth::Unknown
    }
}

/// Disjunction.
pub open spec fn truth_or(a: Truth, b: Truth) -> Truth {
    truth_not(truth_and(truth_not(a), truth_not(b)))
}

/// What an empty list of items yields.
pub open spec fn neutral(any: bool) -> Truth {
    if any {
        Truth::False
    } else {
        Truth::True
    }
}

/// Two truth values joined by `OR` or `AND`.
pub open spec fn truth_join(any: bool, a: Truth, b: Truth) -> Truth {
    if any {
        truth_or(a, b)
    } else {
        truth_and(a, b)
    }
}

/// What a condition yields where each expression yields `leaf` of it.
pub open spec fn condition_truth(c: ConditionTree, leaf: spec_fn(ExprTree) -> Truth) -> Truth
    decreases c, 0int,
{
    let joined = items_truth(c.items, c.any, leaf);
    if c.negate {
        truth_not(joined)
    } else {
        joined
    }
}

/// What a list of items yields, joined.
pub open spec fn items_truth(
    items: Seq<ConditionItem>,
    any: bool,
    leaf: spec_fn(ExprTree) -> Truth,
) -> Truth
    decreases items, 0int,
{
    if items.len() == 0 {
        neutral(any)
    } else {
        truth_join(
            any,
            items_truth(items.drop_last(), any, leaf),
            item_truth(items.last(), leaf),
        )
    }
}

/// What an item yields.
pub open spec fn item_truth(item: ConditionItem, leaf: spec_fn(ExprTree) -> Truth) -> Truth
    decreases item, 1int,
{
    match item {
        ConditionItem::Nested(c) => condition_truth(c, leaf),
        ConditionItem::Leaf(e) => leaf(e),
    }
}

/// What a comparison of a field with a literal yields where expressions yield
/// `leaf`.
pub open spec fn comparison_truth<A: ColumnAllowlist>(
    allowlist: A,
    field: Seq<char>,
    op: FilterOp,
    value: ODataValue,
    leaf: spec_fn(ExprTree) -> Truth,
) -> Truth {
    leaf(
        compared(
            ExprTree::Column(allowlist.column_text(field)->0),
            comparison_of(op)->0,
            bind_expr(bind_of(value)->Ok_0),
        ),
    )
}

/// What a filter yields where expressions yield `leaf`.
pub open spec fn filter_truth<A: ColumnAllowlist>(
    allowlist: A,
    node: FilterNode,
    leaf: spec_fn(ExprTree) -> Truth,
) -> Truth
    decreases node,
{
    match node {
        FilterNode::Binary { field, op, value } => comparison_truth(
            allowlist,
            field@,
            op,
            value,
            leaf,
        ),
        FilterNode::InList { field, values } => some_equal(allowlist, field@, values@, leaf),
        FilterNode::Composite { op, children } => filters_truth(
            allowlist,
            children@,
            op == FilterOp::Or,
            leaf,
        ),
        FilterNode::Not(inner) => truth_not(filter_truth(allowlist, *inner, leaf)),
    }
}

/// Whether a field equals one of the literals.
pub open spec fn some_equal<A: ColumnAllowlist>(
    allowlist: A,
    field: Seq<char>,
    values: Seq<ODataValue>,
    leaf: spec_fn(ExprTree) -> Truth,
) -> Truth
    decreases values.len(),
{
    if values.len() == 0 {
        Truth::False
    } else {
        truth_or(
            some_equal(allowlist, field, values.drop_last(), leaf),
            comparison_truth(allowlist, field, FilterOp::Eq, values.last(), leaf),
        )
    }
}

/// What filters yield, joined by `OR` where `any` and by `AND` where not.
pub open spec fn filters_truth<A: ColumnAllowlist>(
    allowlist: A,
    children: Seq<FilterNode>,
    any: bool,
    leaf: spec_fn(ExprTree) -> Truth,
) -> Truth
    decreases children,
{
    if children.len() == 0 {
        neutral(any)
    } else {
        truth_join(
            any,
            filters_truth(allowlist, children.drop_last(), any, leaf),
            filter_truth(allowlist, children.last(), leaf),
        )
    }
}

/// What the condition of an expression yields.
pub proof fn lemma_just_truth(e: ExprTree, leaf: spec_fn(ExprTree) -> Truth)
    ensures
        condition_truth(just(e), leaf) == leaf(e),
{
    let items = just(e).items;
    reveal_with_fuel(items_truth, 2);
    assert(items.drop_last() =~= Seq::<ConditionItem>::empty());
    assert(items.last() == ConditionItem::Leaf(e));
    assert(item_truth(items.last(), leaf) == leaf(e));
}

/// What a condition with one item more yields.
pub proof fn lemma_with_item_truth(
    c: ConditionTree,
    item: ConditionTree,
    leaf: spec_fn(ExprTree) -> Truth,
)
    requires
        !c.negate,
    ensures
        condition_truth(with_item(c, item), leaf) == truth_join(
            c.any,
            condition_truth(c, leaf),
            condition_truth(item, leaf),
        ),
{
    let items = with_item(c, item).items;
    assert(items.drop_last() =~= c.items);
    assert(items.last() == ConditionItem::Nested(item));
}

/// What a conjunction of one item yields.
pub proof fn lemma_single_truth(item: ConditionTree, leaf: spec_fn(ExprTree) -> Truth)
    ensures
        condition_truth(with_item(all_of(Seq::empty()), item), leaf) == condition_truth(item, leaf),
{
    lemma_with_item_truth(all_of(Seq::empty()), item, leaf);
}

proof fn lemma_equalities_truth<A: ColumnAllowlist>(
    allowlist: A,
    field: Seq<char>,
    column: Seq<char>,
    values: Seq<ODataValue>,
    leaf: spec_fn(ExprTree) -> Truth,
)
    requires
        allowlist.column_text(field) == Some(column),
        equalities(column, values) is Ok,
    ensures
        equalities(column, values) matches Ok(c) && !c.negate && c.any && condition_truth(c, leaf)
            == some_equal(allowlist, field, values, leaf),
    decreases values.len(),
{
    if values.len() > 0 {
        lemma_equalities_truth(allowlist, field, column, values.drop_last(), leaf);
        let front = equalities(column, values.drop_last())->Ok_0;
        let b = bind_of(values.last())->Ok_0;
        let last = comparison_tree(column, Comparison::Equal, b);
        lemma_with_item_truth(front, last, leaf);
        lemma_just_truth(compared(ExprTree::Column(column), Comparison::Equal, bind_expr(b)), leaf);
    }
}

/// The condition of a filter yields what the filter yields, on every row.
pub proof fn law_translation_keeps_the_meaning<A: ColumnAllowlist>(
    allowlist: A,
    node: FilterNode,
    leaf: spec_fn(ExprTree) -> Truth,
)
    requires
        filter_tree(allowlist, node) is Ok,
    ensures
        condition_truth(filter_tree(allowlist, node)->Ok_0, leaf) == filter_truth(
            allowlist,
            node,
            leaf,
        ),
    decreases node,
{
    match node {
        FilterNode::Binary { field, op, value } => {
            let c = allowlist.column_text(field@)->0;
            let b = bind_of(value)->Ok_0;
            let by = comparison_of(op)->0;
            lemma_single_truth(comparison_tree(c, by, b), leaf);
            lemma_just_truth(compared(ExprTree::Column(c), by, bind_expr(b)), leaf);
        },
        FilterNode::InList { field, values } => {
            let c = allowlist.column_text(field@)->0;
            lemma_equalities_truth(allowlist, field@, c, values@, leaf);
            lemma_single_truth(equalities(c, values@)->Ok_0, leaf);
        },
        FilterNode::Composite { op, children } => {
            let start = if op == FilterOp::And {
                all_of(Seq::empty())
            } else {
                any_of(Seq::empty())
            };
            lemma_joined_truth(allowlist, start, children@, leaf);
        },
        FilterNode::Not(inner) => {
            law_translation_keeps_the_meaning(allowlist, *inner, leaf);
            let c = filter_tree(allowlist, *inner)->Ok_0;
            assert(negated(c).items == c.items);
        },
    }
}

proof fn lemma_joined_truth<A: ColumnAllowlist>(
    allowlist: A,
    start: ConditionTree,
    children: Seq<FilterNode>,
    leaf: spec_fn(ExprTree) -> Truth,
)
    requires
        !start.negate,
        start.items.len() == 0,
        joined_trees(allowlist, start, children) is Ok,
    ensures
        joined_trees(allowlist, start, children) matches Ok(c) && !c.negate && c.any == start.any
            && condition_truth(c, leaf) == filters_truth(allowlist, children, start.any, leaf),
    decreases children,
{
    if children.len() > 0 {
        lemma_joined_truth(allowlist, start, children.drop_last(), leaf);
        law_translation_keeps_the_meaning(allowlist, children.last(), leaf);
        let front = joined_trees(allowlist, start, children.drop_last())->Ok_0;
        lemma_with_item_truth(front, filter_tree(allowlist, children.last())->Ok_0, leaf);
    }
}

/// An expression in which no text of a caller stands but as a bound value: a
/// column of the allowlist, a bound value, the conversion of a bound timestamp,
/// or a comparison of such expressions.
pub open spec fn expr_is_safe<A: ColumnAllowlist>(allowlist: A, e: ExprTree) -> bool
    decreases e,
{
    match e {
        ExprTree::Column(c) => exists|field: Seq<char>| #[trigger]
            allowlist.column_text(field) == Some(c),
        ExprTree::Value(_) => true,
        ExprTree::CustomWithExpr(template, parts) => {
            &&& template == "fromUnixTimestamp64Micro(?)"@
            &&& forall|i: int| 0 <= i < parts.len() ==> (#[trigger] parts[i]) is Value
        },
        ExprTree::Binary(left, _, right) => expr_is_safe(allowlist, *left) && expr_is_safe(
            allowlist,
            *right,
        ),
        _ => false,
    }
}

/// A condition all of whose expressions are safe.
pub open spec fn condition_is_safe<A: ColumnAllowlist>(allowlist: A, c: ConditionTree) -> bool
    decreases c,
{
    forall|i: int|
        0 <= i < c.items.len() ==> match #[trigger] c.items[i] {
            ConditionItem::Nested(inner) => condition_is_safe(allowlist, inner),
            ConditionItem::Leaf(e) => expr_is_safe(allowlist, e),
        }
}

/// The expression of a bound value is balanced.
pub proof fn lemma_bind_is_balanced(b: SqlBindView)
    ensures
        expr_balanced(bind_expr(b)),
{
    if let SqlBindView::DateTime64Micros(n) = b {
        lemma_bound_expressions_are_balanced(n, Seq::empty());
    }
}

proof fn lemma_bind_is_safe<A: ColumnAllowlist>(allowlist: A, b: SqlBindView)
    ensures
        expr_is_safe(allowlist, bind_expr(b)),
{
}

proof fn lemma_comparison_is_safe<A: ColumnAllowlist>(
    allowlist: A,
    field: Seq<char>,
    column: Seq<char>,
    by: Comparison,
    b: SqlBindView,
)
    requires
        allowlist.column_text(field) == Some(column),
    ensures
        condition_is_safe(allowlist, comparison_tree(column, by, b)),
        condition_balanced(comparison_tree(column, by, b)),
{
    lemma_bind_is_safe(allowlist, b);
    lemma_bind_is_balanced(b);
    let e = compared(ExprTree::Column(column), by, bind_expr(b));
    assert(expr_is_safe(allowlist, ExprTree::Column(column)));
    assert(expr_balanced(ExprTree::Column(column)));
    reveal_with_fuel(expr_is_safe, 2);
    reveal_with_fuel(expr_balanced, 2);
    assert(expr_is_safe(allowlist, e) && expr_balanced(e));
    assert(just(e).items[0] == ConditionItem::Leaf(e));
}

/// A condition stays balanced when a balanced one is added.
pub proof fn lemma_with_item_balanced(c: ConditionTree, item: ConditionTree)
    requires
        condition_balanced(c),
        condition_balanced(item),
    ensures
        condition_balanced(with_item(c, item)),
{
    let r = with_item(c, item);
    assert forall|i: int| 0 <= i < r.items.len() implies match #[trigger] r.items[i] {
        ConditionItem::Nested(inner) => condition_balanced(inner),
        ConditionItem::Leaf(e) => expr_balanced(e),
    } by {
        if i < c.items.len() {
            assert(r.items[i] == c.items[i]);
        }
    }
}

proof fn lemma_with_item_is_safe<A: ColumnAllowlist>(
    allowlist: A,
    c: ConditionTree,
    item: ConditionTree,
)
    requires
        condition_is_safe(allowlist, c),
        condition_is_safe(allowlist, item),
    ensures
        condition_is_safe(allowlist, with_item(c, item)),
{
    let r = with_item(c, item);
    assert forall|i: int| 0 <= i < r.items.len() implies match #[trigger] r.items[i] {
        ConditionItem::Nested(inner) => condition_is_safe(allowlist, inner),
        ConditionItem::Leaf(e) => expr_is_safe(allowlist, e),
    } by {
        if i < c.items.len() {
            assert(r.items[i] == c.items[i]);
        }
    }
}

proof fn lemma_equalities_are_safe<A: ColumnAllowlist>(
    allowlist: A,
    field: Seq<char>,
    column: Seq<char>,
    values: Seq<ODataValue>,
)
    requires
        allowlist.column_text(field) == Some(column),
        equalities(column, values) is Ok,
    ensures
        condition_is_safe(allowlist, equalities(column, values)->Ok_0),
        condition_balanced(equalities(column, values)->Ok_0),
    decreases values.len(),
{
    if values.len() > 0 {
        lemma_equalities_are_safe(allowlist, field, column, values.drop_last());
        let front = equalities(column, values.drop_last())->Ok_0;
        let b = bind_of(values.last())->Ok_0;
        lemma_comparison_is_safe(allowlist, field, column, Comparison::Equal, b);
        let last = comparison_tree(column, Comparison::Equal, b);
        lemma_with_item_is_safe(allowlist, front, last);
        lemma_with_item_balanced(front, last);
    }
}

/// In the condition of a filter every name is from the allowlist and every text
/// of the caller is a bound value; each placeholder has its value, the values
/// those of the filter's literals in their order.
pub proof fn law_translation_is_injection_safe<A: ColumnAllowlist>(allowlist: A, node: FilterNode)
    requires
        filter_tree(allowlist, node) is Ok,
    ensures
        condition_is_safe(allowlist, filter_tree(allowlist, node)->Ok_0),
        condition_balanced(filter_tree(allowlist, node)->Ok_0),
        condition_binds(filter_tree(allowlist, node)->Ok_0, literal_data(node)),
    decreases node,
{
    law_literals_stand_at_their_placeholders(allowlist, node);
    match node {
        FilterNode::Binary { field, op, value } => {
            let c = allowlist.column_text(field@)->0;
            let b = bind_of(value)->Ok_0;
            let by = comparison_of(op)->0;
            lemma_comparison_is_safe(allowlist, field@, c, by, b);
            lemma_with_item_is_safe(
                allowlist,
                all_of(Seq::empty()),
                comparison_tree(c, by, b),
            );
            lemma_with_item_balanced(all_of(Seq::empty()), comparison_tree(c, by, b));
        },
        FilterNode::InList { field, values } => {
            let c = allowlist.column_text(field@)->0;
            lemma_equalities_are_safe(allowlist, field@, c, values@);
            lemma_with_item_is_safe(
                allowlist,
                all_of(Seq::empty()),
                equalities(c, values@)->Ok_0,
            );
            lemma_with_item_balanced(all_of(Seq::empty()), equalities(c, values@)->Ok_0);
        },
        FilterNode::Composite { op, children } => {
            let start = if op == FilterOp::And {
                all_of(Seq::empty())
            } else {
                any_of(Seq::empty())
            };
            lemma_joined_is_safe(allowlist, start, children@);
        },
        FilterNode::Not(inner) => {
            law_translation_is_injection_safe(allowlist, *inner);
            let c = filter_tree(allowlist, *inner)->Ok_0;
            assert(negated(c).items == c.items);
        },
    }
}

proof fn lemma_joined_is_safe<A: ColumnAllowlist>(
    allowlist: A,
    start: ConditionTree,
    children: Seq<FilterNode>,
)
    requires
        start.items.len() == 0,
        joined_trees(allowlist, start, children) is Ok,
    ensures
        condition_is_safe(allowlist, joined_trees(allowlist, start, children)->Ok_0),
        condition_balanced(joined_trees(allowlist, start, children)->Ok_0),
    decreases children,
{
    if children.len() > 0 {
        lemma_joined_is_safe(allowlist, start, children.drop_last());
        law_translation_is_injection_safe(allowlist, children.last());
        let front = joined_trees(allowlist, start, children.drop_last())->Ok_0;
        let last = filter_tree(allowlist, children.last())->Ok_0;
        lemma_with_item_is_safe(allowlist, front, last);
        lemma_with_item_balanced(front, last);
    }
}

} // verus!
