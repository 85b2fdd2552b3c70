//! Filters as conditions: names from the allowlist, values bound.
use crate::query::bind::{
    bind_expr, bind_of, odata_value_to_bind, sql_bind_to_expr, ODataValue, SqlBind, SqlBindView,
};
use crate::query::schema::{
    law_fields_that_may_be_named, record_column_iden, record_column_of, usage_type_column_iden,
    usage_type_column_of,
};
use crate::sql::{
    all_of, any_of, compared, condition_add, condition_all, condition_any, condition_from_expr,
    condition_not, condition_tree, expr_col, expr_eq, expr_gt, expr_gte, expr_lt, expr_lte, expr_ne,
    expr_tree, just, negated, with_item, Comparison, ConditionItem, ConditionTree, ExprTree,
};
use vstd::prelude::*;
use vstd::string::*;

verus! {

/// An operator of a filter.
#[derive(Debug, Clone, Copy, PartialEq, Eq, Structural)]
pub enum FilterOp {
    Eq,
    Ne,
    Gt,
    Ge,
    Lt,
    Le,
    In,
    Contains,
    StartsWith,
    EndsWith,
    And,
    Or,
}

/// The name of an operator.
pub open spec fn op_name(op: FilterOp) -> Seq<char> {
    match op {
        FilterOp::Eq => "Eq"@,
        FilterOp::Ne => "Ne"@,
        FilterOp::Gt => "Gt"@,
        FilterOp::Ge => "Ge"@,
        FilterOp::Lt => "Lt"@,
        FilterOp::Le => "Le"@,
        FilterOp::In => "In"@,
        FilterOp::Contains => "Contains"@,
        FilterOp::StartsWith => "StartsWith"@,
        FilterOp::EndsWith => "EndsWith"@,
        FilterOp::And => "And"@,
        FilterOp::Or => "Or"@,
    }
}

impl FilterOp {
    /// The name of the operator.
    pub fn name(self) -> (s: &'static str)
        ensures
            s@ == op_name(self),
    {
        match self {
            FilterOp::Eq => "Eq",
            FilterOp::Ne => "Ne",
            FilterOp::Gt => "Gt",
            FilterOp::Ge => "Ge",
            FilterOp::Lt => "Lt",
            FilterOp::Le => "Le",
            FilterOp::In => "In",
            FilterOp::Contains => "Contains",
            FilterOp::StartsWith => "StartsWith",
            FilterOp::EndsWith => "EndsWith",
            FilterOp::And => "And",
            FilterOp::Or => "Or",
        }
    }
}

/// A filter.
#[derive(Debug)]
pub enum FilterNode {
    /// A field compared with a literal.
    Binary { field: String, op: FilterOp, value: ODataValue },
    /// A field that equals one of the literals.
    InList { field: String, values: Vec<ODataValue> },
    /// Filters joined by `And` or `Or`.
    Composite { op: FilterOp, children: Vec<FilterNode> },
    /// A filter that must not hold.
    Not(Box<FilterNode>),
}

/// The column of `usage_records` that a field names.
pub open spec fn record_column_text(field_name: Seq<char>) -> Option<Seq<char>> {
    match record_column_of(field_name) {
        Some(c) => Some(c.spec_iden()),
        None => None,
    }
}

/// The column of `usage_type_catalog` that a field names.
pub open spec fn usage_type_column_text(field_name: Seq<char>) -> Option<Seq<char>> {
    match usage_type_column_of(field_name) {
        Some(c) => Some(c.spec_iden()),
        None => None,
    }
}

/// The view of an optional column.
pub open spec fn column_view(c: Option<&'static str>) -> Option<Seq<char>> {
    match c {
        Some(s) => Some(s@),
        None => None,
    }
}

/// Maps a filter or order field to the name of its column of `usage_records`.
pub fn record_column(field_name: &str) -> (r: Option<&'static str>)
    ensures
        column_view(r) == record_column_text(field_name@),
{
    match record_column_iden(field_name) {
        Some(c) => Some(c.iden()),
        None => None,
    }
}

/// Maps a filter or order field to the name of its column of
/// `usage_type_catalog`.
pub fn usage_type_column(field_name: &str) -> (r: Option<&'static str>)
    ensures
        column_view(r) == usage_type_column_text(field_name@),
{
    match usage_type_column_iden(field_name) {
        Some(c) => Some(c.iden()),
        None => None,
    }
}

/// The fields of a table that a filter may name.
pub trait ColumnAllowlist: Sized {
    /// The column that a field names.
    spec fn column_text(self, field_name: Seq<char>) -> Option<Seq<char>>;

    /// The column that a field names.
    fn column(&self, field_name: &str) -> (r: Option<&'static str>)
        ensures
            column_view(r) == self.column_text(field_name@),
    ;
}

/// The fields of `usage_records`.
#[derive(Debug, Clone, Copy)]
pub struct RecordColumns;

impl ColumnAllowlist for RecordColumns {
    open spec fn column_text(self, field_name: Seq<char>) -> Option<Seq<char>> {
        record_column_text(field_name)
    }

    fn column(&self, field_name: &str) -> (r: Option<&'static str>) {
        record_column(field_name)
    }
}

/// The fields of `usage_type_catalog`.
#[derive(Debug, Clone, Copy)]
pub struct UsageTypeColumns;

impl ColumnAllowlist for UsageTypeColumns {
    open spec fn column_text(self, field_name: Seq<char>) -> Option<Seq<char>> {
        usage_type_column_text(field_name)
    }

    fn column(&self, field_name: &str) -> (r: Option<&'static str>) {
        usage_type_column(field_name)
    }
}

/// Bound values for a statement that is put together as text.
#[derive(Debug)]
pub struct SqlCtx {
    /// The values, in placeholder order.
    pub binds: Vec<SqlBind>,
}

impl SqlCtx {
    /// No values.
    pub fn new() -> (ctx: SqlCtx)
        ensures
            ctx.binds@ == Seq::<SqlBind>::empty(),
    {
        SqlCtx { binds: Vec::new() }
    }

    /// Adds a value at the end.
    pub fn push(&mut self, b: SqlBind)
        ensures
            final(self).binds@ == old(self).binds@.push(b),
    {
        self.binds.push(b);
    }
}

impl Default for SqlCtx {
    fn default() -> (ctx: SqlCtx)
        ensures
            ctx.binds@ == Seq::<SqlBind>::empty(),
    {
        SqlCtx::new()
    }
}

/// The comparison that an operator stands for.
pub open spec fn comparison_of(op: FilterOp) -> Option<Comparison> {
    match op {
        FilterOp::Eq => Some(Comparison::Equal),
        FilterOp::Ne => Some(Comparison::NotEqual),
        FilterOp::Gt => Some(Comparison::GreaterThan),
        FilterOp::Ge => Some(Comparison::GreaterThanOrEqual),
        FilterOp::Lt => Some(Comparison::SmallerThan),
        FilterOp::Le => Some(Comparison::SmallerThanOrEqual),
        _ => None,
    }
}

/// Compares two expressions by an operator. An operator that is no comparison is
/// an error.
fn comparison_expr(left: sea_query::Expr, op: FilterOp, right: sea_query::Expr) -> (r: Result<
    sea_query::Expr,
    String,
>)
    ensures
        match comparison_of(op) {
            Some(by) => r matches Ok(e) && expr_tree(e) == compared(
                expr_tree(left),
                by,
                expr_tree(right),
            ),
            None => r matches Err(e) && e@ == "unsupported operator: "@ + op_name(op),
        },
{
    match op {
        FilterOp::Eq => Ok(expr_eq(left, right)),
        FilterOp::Ne => Ok(expr_ne(left, right)),
        FilterOp::Gt => Ok(expr_gt(left, right)),
        FilterOp::Ge => Ok(expr_gte(left, right)),
        FilterOp::Lt => Ok(expr_lt(left, right)),
        FilterOp::Le => Ok(expr_lte(left, right)),
        other => Err("unsupported operator: ".to_owned().concat(other.name())),
    }
}

/// The comparison of a column with a literal, as a condition.
pub open spec fn comparison_tree(
    column: Seq<char>,
    by: Comparison,
    value: SqlBindView,
) -> ConditionTree {
    just(compared(ExprTree::Column(column), by, bind_expr(value)))
}

/// The condition, or the reason why there is none, of a comparison.
pub open spec fn binary_tree(
    column: Option<Seq<char>>,
    field: Seq<char>,
    op: FilterOp,
    value: ODataValue,
) -> Result<ConditionTree, Seq<char>> {
    match column {
        None => Err("field not allowlisted: "@ + field),
        Some(c) => match bind_of(value) {
            Err(why) => Err(why),
            Ok(b) => match comparison_of(op) {
                None => Err("unsupported operator: "@ + op_name(op)),
                Some(by) => Ok(
                    with_item(all_of(Seq::empty()), comparison_tree(c, by, b)),
                ),
            },
        },
    }
}

/// Equality with each of the literals, joined by `OR`; or the first reason why
/// one cannot be bound.
pub open spec fn equalities(column: Seq<char>, values: Seq<ODataValue>) -> Result<
    ConditionTree,
    Seq<char>,
>
    decreases values.len(),
{
    if values.len() == 0 {
        Ok(any_of(Seq::empty()))
    } else {
        match equalities(column, values.drop_last()) {
            Err(why) => Err(why),
            Ok(front) => match bind_of(values.last()) {
                Err(why) => Err(why),
                Ok(b) => Ok(with_item(front, comparison_tree(column, Comparison::Equal, b))),
            },
        }
    }
}

/// The condition, or the reason why there is none, of a list of literals.
pub open spec fn in_list_tree(
    column: Option<Seq<char>>,
    field: Seq<char>,
    values: Seq<ODataValue>,
) -> Result<ConditionTree, Seq<char>> {
    match column {
        None => Err("field not allowlisted: "@ + field),
        Some(c) => if values.len() == 0 {
            Err("IN list must not be empty"@)
        } else {
            match equalities(c, values) {
                Err(why) => Err(why),
                Ok(any) => Ok(with_item(all_of(Seq::empty()), any)),
            }
        },
    }
}

/// The condition that a filter stands for, or the first reason why there is
/// none.
pub open spec fn filter_tree<A: ColumnAllowlist>(allowlist: A, node: FilterNode) -> Result<
    ConditionTree,
    Seq<char>,
>
    decreases node,
{
    match node {
        FilterNode::Binary { field, op, value } => binary_tree(
            allowlist.column_text(field@),
            field@,
            op,
            value,
        ),
        FilterNode::InList { field, values } => in_list_tree(
            allowlist.column_text(field@),
            field@,
            values@,
        ),
        FilterNode::Composite { op, children } => match op {
            FilterOp::And => joined_trees(allowlist, all_of(Seq::empty()), children@),
            FilterOp::Or => joined_trees(allowlist, any_of(Seq::empty()), children@),
            _ => Err("invalid composite operator: "@ + op_name(op)),
        },
        FilterNode::Not(inner) => match filter_tree(allowlist, *inner) {
            Ok(c) => Ok(negated(c)),
            Err(why) => Err(why),
        },
    }
}

/// A condition with those of the filters as further items, or the first reason
/// why one has none.
pub open spec fn joined_trees<A: ColumnAllowlist>(
    allowlist: A,
    start: ConditionTree,
    children: Seq<FilterNode>,
) -> Result<ConditionTree, Seq<char>>
    decreases children,
{
    if children.len() == 0 {
        Ok(start)
    } else {
        match joined_trees(allowlist, start, children.drop_last()) {
            Err(why) => Err(why),
            Ok(front) => match filter_tree(allowlist, children.last()) {
                Err(why) => Err(why),
                Ok(c) => Ok(with_item(front, c)),
            },
        }
    }
}

/// The view of an outcome with a condition.
pub open spec fn condition_outcome(r: Result<sea_query::Condition, String>) -> Result<
    ConditionTree,
    Seq<char>,
> {
    match r {
        Ok(c) => Ok(condition_tree(c)),
        Err(e) => Err(e@),
    }
}

/// Equality of a column with each of the literals, joined by `OR`.
fn translate_equalities(column: &'static str, values: &Vec<ODataValue>) -> (r: Result<
    sea_query::Condition,
    String,
>)
    ensures
        condition_outcome(r) == equalities(column@, values@),
{
    let mut any = condition_any();
    let mut i: usize = 0;
    assert(values@.take(0) =~= Seq::<ODataValue>::empty());
    while i < values.len()
        invariant
            i <= values@.len(),
            equalities(column@, values@.take(i as int)) == Ok::<ConditionTree, Seq<char>>(
                condition_tree(any),
            ),
        decreases values@.len() - i,
    {
        proof {
            let longer = values@.take(i + 1);
            assert(longer.drop_last() =~= values@.take(i as int));
            assert(longer.last() == values@[i as int]);
        }
        match odata_value_to_bind(&values[i]) {
            Ok(b) => {
                let e = expr_eq(expr_col(column), sql_bind_to_expr(b));
                any = condition_add(any, condition_from_expr(e));
            },
            Err(why) => {
                proof {
                    lemma_equalities_stop(column@, values@, i + 1);
                }
                return Err(why);
            },
        }
        i = i + 1;
    }
    assert(values@.take(i as int) =~= values@);
    Ok(any)
}

/// A failure among the first literals is the failure of them all.
proof fn lemma_equalities_stop(column: Seq<char>, values: Seq<ODataValue>, n: int)
    requires
        0 <= n <= values.len(),
        equalities(column, values.take(n)) is Err,
    ensures
        equalities(column, values) == equalities(column, values.take(n)),
    decreases values.len(),
{
    if n == values.len() {
        assert(values.take(n) =~= values);
    } else {
        let front = values.drop_last();
        assert(front.take(n) =~= values.take(n));
        lemma_equalities_stop(column, front, n);
    }
}

/// A failure among the first filters is the failure of them all.
proof fn lemma_joined_trees_stop<A: ColumnAllowlist>(
    allowlist: A,
    start: ConditionTree,
    children: Seq<FilterNode>,
    n: int,
)
    requires
        0 <= n <= children.len(),
        joined_trees(allowlist, start, children.take(n)) is Err,
    ensures
        joined_trees(allowlist, start, children) == joined_trees(
            allowlist,
            start,
            children.take(n),
        ),
    decreases children.len(),
{
    if n == children.len() {
        assert(children.take(n) =~= children);
    } else {
        let front = children.drop_last();
        assert(front.take(n) =~= children.take(n));
        lemma_joined_trees_stop(allowlist, start, front, n);
    }
}

/// Translates a filter over the fields of an allowlist into a condition.
pub fn translate_filter<A: ColumnAllowlist>(node: &FilterNode, allowlist: &A) -> (r: Result<
    sea_query::Condition,
    String,
>)
    ensures
        condition_outcome(r) == filter_tree(*allowlist, *node),
    decreases *node,
{
    match node {
        FilterNode::Binary { field, op, value } => {
            let column = match allowlist.column(field.as_str()) {
                Some(c) => c,
                None => {
                    return Err("field not allowlisted: ".to_owned().concat(field.as_str()));
                },
            };
            let right = match odata_value_to_bind(value) {
                Ok(b) => sql_bind_to_expr(b),
                Err(why) => {
                    return Err(why);
                },
            };
            match comparison_expr(expr_col(column), *op, right) {
                Ok(e) => Ok(condition_add(condition_all(), condition_from_expr(e))),
                Err(why) => Err(why),
            }
        },
        FilterNode::InList { field, values } => {
            let column = match allowlist.column(field.as_str()) {
                Some(c) => c,
                None => {
                    return Err("field not allowlisted: ".to_owned().concat(field.as_str()));
                },
            };
            if values.len() == 0 {
                return Err("IN list must not be empty".to_owned());
            }
            match translate_equalities(column, values) {
                Ok(any) => Ok(condition_add(condition_all(), any)),
                Err(why) => Err(why),
            }
        },
        FilterNode::Composite { op, children } => {
            let mut cond = match op {
                FilterOp::And => condition_all(),
                FilterOp::Or => condition_any(),
                other => {
                    return Err("invalid composite operator: ".to_owned().concat(other.name()));
                },
            };
            let ghost start = condition_tree(cond);
            let mut i: usize = 0;
            assert(children@.take(0) =~= Seq::<FilterNode>::empty());
            while i < children.len()
                invariant
                    i <= children@.len(),
                    *node == (FilterNode::Composite { op: *op, children: *children }),
                    filter_tree(*allowlist, *node) == joined_trees(*allowlist, start, children@),
                    joined_trees(*allowlist, start, children@.take(i as int)) == Ok::<
                        ConditionTree,
                        Seq<char>,
                    >(condition_tree(cond)),
                decreases children@.len() - i,
            {
                proof {
                    let longer = children@.take(i + 1);
                    assert(longer.drop_last() =~= children@.take(i as int));
                    assert(longer.last() == children@[i as int]);
                    assert(decreases_to!(*node => children@[i as int]));
                }
                match translate_filter(&children[i], allowlist) {
                    Ok(c) => {
                        cond = condition_add(cond, c);
                    },
                    Err(why) => {
                        proof {
                            lemma_joined_trees_stop(*allowlist, start, children@, i + 1);
                        }
                        return Err(why);
                    },
                }
                i = i + 1;
            }
            assert(children@.take(i as int) =~= children@);
            Ok(cond)
        },
        FilterNode::Not(inner) => match translate_filter(inner, allowlist) {
            Ok(c) => Ok(condition_not(c)),
            Err(why) => Err(why),
        },
    }
}

/// Translates a filter over `usage_records` into a condition.
pub fn translate_record_filter(node: &FilterNode) -> (r: Result<sea_query::Condition, String>)
    ensures
        condition_outcome(r) == filter_tree(RecordColumns, *node),
{
    translate_filter(node, &RecordColumns)
}

/// Translates a filter over `usage_type_catalog` into a condition.
pub fn translate_usage_type_filter(node: &FilterNode) -> (r: Result<sea_query::Condition, String>)
    ensures
        condition_outcome(r) == filter_tree(UsageTypeColumns, *node),
{
    translate_filter(node, &UsageTypeColumns)
}

/// A comparison of a field becomes the same comparison of the column of that name
/// with the bound literal: none of the six operators turns into another.
pub proof fn law_comparison_is_kept(field: Seq<char>, op: FilterOp, value: ODataValue)
    requires
        binary_tree(record_column_text(field), field, op, value) is Ok,
    ensures
        ({
            let by = match op {
                FilterOp::Eq => Comparison::Equal,
                FilterOp::Ne => Comparison::NotEqual,
                FilterOp::Gt => Comparison::GreaterThan,
                FilterOp::Ge => Comparison::GreaterThanOrEqual,
                FilterOp::Lt => Comparison::SmallerThan,
                _ => Comparison::SmallerThanOrEqual,
            };
            &&& op is Eq || op is Ne || op is Gt || op is Ge || op is Lt || op is Le
            &&& bind_of(value) is Ok
            &&& binary_tree(record_column_text(field), field, op, value)->Ok_0 == (ConditionTree {
                negate: false,
                any: false,
                items: seq![
                    ConditionItem::Nested(
                        ConditionTree {
                            negate: false,
                            any: false,
                            items: seq![
                                ConditionItem::Leaf(
                                    ExprTree::Binary(
                                        Box::new(ExprTree::Column(field)),
                                        by,
                                        Box::new(bind_expr(bind_of(value)->Ok_0)),
                                    ),
                                ),
                            ],
                        },
                    ),
                ],
            })
        }),
{
    let c = binary_tree(record_column_text(field), field, op, value)->Ok_0;
    assert(c.items =~= seq![c.items[0]]);
}

proof fn lemma_equalities_structure(column: Seq<char>, values: Seq<ODataValue>)
    requires
        equalities(column, values) is Ok,
    ensures
        equalities(column, values)->Ok_0.any,
        !equalities(column, values)->Ok_0.negate,
        equalities(column, values)->Ok_0.items.len() == values.len(),
        forall|i: int|
            0 <= i < values.len() ==> bind_of(values[i]) is Ok
                && #[trigger] equalities(column, values)->Ok_0.items[i] == ConditionItem::Nested(
                ConditionTree {
                    negate: false,
                    any: false,
                    items: seq![
                        ConditionItem::Leaf(
                            ExprTree::Binary(
                                Box::new(ExprTree::Column(column)),
                                Comparison::Equal,
                                Box::new(bind_expr(bind_of(values[i])->Ok_0)),
                            ),
                        ),
                    ],
                },
            ),
    decreases values.len(),
{
    if values.len() > 0 {
        let front = values.drop_last();
        lemma_equalities_structure(column, front);
        let c = equalities(column, values)->Ok_0;
        let f = equalities(column, front)->Ok_0;
        assert forall|i: int| 0 <= i < values.len() implies bind_of(values[i]) is Ok
            && #[trigger] c.items[i] == ConditionItem::Nested(
            ConditionTree {
                negate: false,
                any: false,
                items: seq![
                    ConditionItem::Leaf(
                        ExprTree::Binary(
                            Box::new(ExprTree::Column(column)),
                            Comparison::Equal,
                            Box::new(bind_expr(bind_of(values[i])->Ok_0)),
                        ),
                    ),
                ],
            },
        ) by {
            if i < front.len() {
                assert(c.items[i] == f.items[i]);
                assert(values[i] == front[i]);
            }
        }
    }
}

/// A field in a list of literals becomes the disjunction of its equalities with
/// each of them, in their order.
pub proof fn law_list_becomes_equalities(field: Seq<char>, values: Seq<ODataValue>)
    requires
        in_list_tree(record_column_text(field), field, values) is Ok,
    ensures
        values.len() > 0,
        ({
            let c = in_list_tree(record_column_text(field), field, values)->Ok_0;
            &&& !c.negate && !c.any && c.items.len() == 1
            &&& c.items[0] matches ConditionItem::Nested(any) && any.any && !any.negate
                && any.items.len() == values.len() && forall|i: int|
                0 <= i < values.len() ==> bind_of(values[i]) is Ok && #[trigger] any.items[i]
                    == ConditionItem::Nested(
                    ConditionTree {
                        negate: false,
                        any: false,
                        items: seq![
                            ConditionItem::Leaf(
                                ExprTree::Binary(
                                    Box::new(ExprTree::Column(field)),
                                    Comparison::Equal,
                                    Box::new(bind_expr(bind_of(values[i])->Ok_0)),
                                ),
                            ),
                        ],
                    },
                )
        }),
{
    lemma_equalities_structure(field, values);
}

proof fn lemma_joined_structure<A: ColumnAllowlist>(
    allowlist: A,
    start: ConditionTree,
    children: Seq<FilterNode>,
)
    requires
        joined_trees(allowlist, start, children) is Ok,
        start.items.len() == 0,
    ensures
        joined_trees(allowlist, start, children)->Ok_0.any == start.any,
        joined_trees(allowlist, start, children)->Ok_0.negate == start.negate,
        joined_trees(allowlist, start, children)->Ok_0.items.len() == children.len(),
        forall|i: int|
            0 <= i < children.len() ==> filter_tree(allowlist, children[i]) is Ok
                && #[trigger] joined_trees(allowlist, start, children)->Ok_0.items[i]
                == ConditionItem::Nested(filter_tree(allowlist, children[i])->Ok_0),
    decreases children.len(),
{
    if children.len() > 0 {
        let front = children.drop_last();
        lemma_joined_structure(allowlist, start, front);
        let c = joined_trees(allowlist, start, children)->Ok_0;
        let f = joined_trees(allowlist, start, front)->Ok_0;
        assert forall|i: int| 0 <= i < children.len() implies filter_tree(allowlist, children[i])
            is Ok && #[trigger] c.items[i] == ConditionItem::Nested(
            filter_tree(allowlist, children[i])->Ok_0,
        ) by {
            if i < front.len() {
                assert(c.items[i] == f.items[i]);
                assert(children[i] == front[i]);
            }
        }
    }
}

/// The condition of a filter has the filter's own structure: a conjunction joins
/// the conditions of all its filters by `AND`, a disjunction by `OR`, each filter
/// once and in order, and a negation negates the condition of its filter.
pub proof fn law_filter_keeps_its_structure<A: ColumnAllowlist>(allowlist: A, node: FilterNode)
    requires
        filter_tree(allowlist, node) is Ok,
    ensures
        ({
            let c = filter_tree(allowlist, node)->Ok_0;
            match node {
                FilterNode::Binary { field, op, value } => Ok::<ConditionTree, Seq<char>>(c)
                    == binary_tree(allowlist.column_text(field@), field@, op, value),
                FilterNode::InList { field, values } => Ok::<ConditionTree, Seq<char>>(c)
                    == in_list_tree(allowlist.column_text(field@), field@, values@),
                FilterNode::Composite { op, children } => {
                    &&& op is And || op is Or
                    &&& c.any == (op is Or)
                    &&& !c.negate
                    &&& c.items.len() == children@.len()
                    &&& forall|i: int|
                        0 <= i < children@.len() ==> filter_tree(allowlist, children@[i]) is Ok
                            && #[trigger] c.items[i] == ConditionItem::Nested(
                            filter_tree(allowlist, children@[i])->Ok_0,
                        )
                },
                FilterNode::Not(inner) => {
                    &&& filter_tree(allowlist, *inner) is Ok
                    &&& c.items == filter_tree(allowlist, *inner)->Ok_0.items
                    &&& c.any == filter_tree(allowlist, *inner)->Ok_0.any
                    &&& c.negate == !filter_tree(allowlist, *inner)->Ok_0.negate
                },
            }
        }),
{
    match node {
        FilterNode::Composite { op, children } => {
            if op is And {
                lemma_joined_structure(allowlist, all_of(Seq::empty()), children@);
            } else {
                lemma_joined_structure(allowlist, any_of(Seq::empty()), children@);
            }
        },
        _ => {},
    }
}

/// A comparison is accepted exactly where its field may be named, its literal can
/// be bound and its operator is a comparison; a list exactly where it is not empty
/// and each of its literals can be bound. A refusal names the first of these that
/// fails.
pub proof fn law_filter_is_refused_with_its_reason(
    field: Seq<char>,
    op: FilterOp,
    value: ODataValue,
    values: Seq<ODataValue>,
)
    ensures
        ({
            let r = binary_tree(record_column_text(field), field, op, value);
            let known = field == "id"@ || field == "created_at"@ || field == "tenant_id"@ || field
                == "resource_id"@ || field == "resource_type"@ || field == "subject_id"@ || field
                == "subject_type"@ || field == "corrects_id"@ || field == "status"@;
            let compares = op is Eq || op is Ne || op is Gt || op is Ge || op is Lt || op is Le;
            &&& r is Ok <==> known && bind_of(value) is Ok && compares
            &&& !known ==> r == Err::<ConditionTree, Seq<char>>("field not allowlisted: "@ + field)
            &&& known ==> (bind_of(value) matches Err(why) ==> r == Err::<ConditionTree, Seq<char>>(
                why,
            ))
            &&& known && bind_of(value) is Ok && op is In ==> r == Err::<ConditionTree, Seq<char>>(
                "unsupported operator: "@ + "In"@,
            )
            &&& known && bind_of(value) is Ok && op is Contains ==> r == Err::<
                ConditionTree,
                Seq<char>,
            >("unsupported operator: "@ + "Contains"@)
            &&& known && bind_of(value) is Ok && op is StartsWith ==> r == Err::<
                ConditionTree,
                Seq<char>,
            >("unsupported operator: "@ + "StartsWith"@)
            &&& known && bind_of(value) is Ok && op is EndsWith ==> r == Err::<
                ConditionTree,
                Seq<char>,
            >("unsupported operator: "@ + "EndsWith"@)
        }),
        ({
            let r = in_list_tree(record_column_text(field), field, values);
            &&& record_column_text(field) is None ==> r == Err::<ConditionTree, Seq<char>>(
                "field not allowlisted: "@ + field,
            )
            &&& record_column_text(field) is Some && values.len() == 0 ==> r == Err::<
                ConditionTree,
                Seq<char>,
            >("IN list must not be empty"@)
            &&& r is Ok <==> record_column_text(field) is Some && values.len() > 0 && forall|
                i: int,
            |
                0 <= i < values.len() ==> bind_of(#[trigger] values[i]) is Ok
        }),
{
    law_fields_that_may_be_named(field);
    if values.len() > 0 {
        lemma_equalities_owed(field, values);
    }
}

proof fn lemma_equalities_owed(column: Seq<char>, values: Seq<ODataValue>)
    ensures
        equalities(column, values) is Ok <==> forall|i: int|
            0 <= i < values.len() ==> bind_of(#[trigger] values[i]) is Ok,
    decreases values.len(),
{
    if values.len() > 0 {
        let front = values.drop_last();
        lemma_equalities_owed(column, front);
        if forall|i: int| 0 <= i < values.len() ==> bind_of(#[trigger] values[i]) is Ok {
            assert forall|i: int| 0 <= i < front.len() implies bind_of(#[trigger] front[i]) is Ok by {
                assert(front[i] == values[i]);
            }
            assert(bind_of(values[values.len() - 1]) is Ok);
        }
        if equalities(column, values) is Ok {
            assert forall|i: int| 0 <= i < values.len() implies bind_of(#[trigger] values[i])
                is Ok by {
                if i < front.len() {
                    assert(front[i] == values[i]);
                }
            }
        }
    }
}

/// A filter is accepted exactly where all of its parts are; of a conjunction or a
/// disjunction the first part that is refused is told.
pub proof fn law_filter_is_accepted_with_all_its_parts<A: ColumnAllowlist>(
    allowlist: A,
    node: FilterNode,
)
    ensures
        match node {
            FilterNode::Composite { op, children } => {
                &&& !(op is And) && !(op is Or) ==> filter_tree(allowlist, node) is Err
                &&& op is And || op is Or ==> (filter_tree(allowlist, node) is Ok <==> forall|
                    i: int,
                |
                    0 <= i < children@.len() ==> filter_tree(allowlist, #[trigger] children@[i])
                        is Ok)
                &&& op is And || op is Or ==> forall|i: int|
                    0 <= i < children@.len() && filter_tree(allowlist, #[trigger] children@[i])
                        is Err && (forall|j: int|
                        0 <= j < i ==> filter_tree(allowlist, #[trigger] children@[j]) is Ok)
                        ==> filter_tree(allowlist, node) == filter_tree(allowlist, children@[i])
            },
            FilterNode::Not(inner) => (filter_tree(allowlist, node) is Ok <==> filter_tree(
                allowlist,
                *inner,
            ) is Ok) && (filter_tree(allowlist, *inner) is Err ==> filter_tree(allowlist, node)
                == filter_tree(allowlist, *inner)),
            _ => true,
        },
{
    if let FilterNode::Composite { op, children } = node {
        lemma_joined_owed(allowlist, all_of(Seq::empty()), children@);
        lemma_joined_owed(allowlist, any_of(Seq::empty()), children@);
    }
}

proof fn lemma_joined_owed<A: ColumnAllowlist>(
    allowlist: A,
    start: ConditionTree,
    children: Seq<FilterNode>,
)
    ensures
        joined_trees(allowlist, start, children) is Ok <==> forall|i: int|
            0 <= i < children.len() ==> filter_tree(allowlist, #[trigger] children[i]) is Ok,
        forall|i: int|
            0 <= i < children.len() && filter_tree(allowlist, #[trigger] children[i]) is Err && (
            forall|j: int|
                0 <= j < i ==> filter_tree(allowlist, #[trigger] children[j]) is Ok)
                ==> joined_trees(allowlist, start, children) == filter_tree(allowlist, children[i]),
    decreases children.len(),
{
    if children.len() > 0 {
        let front = children.drop_last();
        lemma_joined_owed(allowlist, start, front);
        if forall|i: int|
            0 <= i < children.len() ==> filter_tree(allowlist, #[trigger] children[i]) is Ok {
            assert forall|i: int| 0 <= i < front.len() implies filter_tree(
                allowlist,
                #[trigger] front[i],
            ) is Ok by {
                assert(front[i] == children[i]);
            }
            assert(filter_tree(allowlist, children[children.len() - 1]) is Ok);
        }
        if joined_trees(allowlist, start, children) is Ok {
            assert forall|i: int| 0 <= i < children.len() implies filter_tree(
                allowlist,
                #[trigger] children[i],
            ) is Ok by {
                if i < front.len() {
                    assert(front[i] == children[i]);
                }
            }
        }
        assert forall|i: int|
            0 <= i < children.len() && filter_tree(allowlist, #[trigger] children[i]) is Err && (
            forall|j: int|
                0 <= j < i ==> filter_tree(allowlist, #[trigger] children[j])
                    is Ok) implies joined_trees(allowlist, start, children) == filter_tree(
            allowlist,
            children[i],
        ) by {
            assert forall|j: int| 0 <= j < i implies filter_tree(allowlist, #[trigger] front[j])
                is Ok by {
                assert(front[j] == children[j]);
            }
            if i < front.len() {
                assert(front[i] == children[i]);
            }
        }
    }
}

} // verus!
