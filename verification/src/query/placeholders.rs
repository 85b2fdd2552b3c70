//! Which value stands at which placeholder of a statement.
use crate::client::QueryArg;
use crate::query::bind::{bind_expr, bind_of, ODataValue, SqlBindView};
use crate::query::expr::{metadata_expr, micros_expr};
use crate::query::keyset::{
    bind_exprs, keyset_comparison, keyset_expr, keyset_text, keyset_tree, slots, KeysetParts,
};
use crate::query::statement::{
    conditioned, data_args, datum_arg, equals_text, reading, statement_data, text_comparison,
};
use crate::query::translate::{
    comparison_of, comparison_tree, equalities, filter_tree, joined_trees, record_column_text,
    ColumnAllowlist, FilterNode, FilterOp,
};
use crate::sql::{
    all_of, and_filter, any_of, compared, condition_data, condition_is_plain, expr_data,
    expr_is_plain, exprs_data, filter_data, filtered, is_plain, items_data, just, negated, plain_at,
    plain_below, select_data, select_is_plain, with_item, Comparison, ConditionItem, ConditionTree,
    DatumView, ExprTree, SelectTree, SortDir,
};
use crate::text::joined;
use crate::values::{decimal_spelling, uuid_text};
use vstd::prelude::*;
use vstd::string::*;

verus! {

/// What is bound for a value.
pub open spec fn bind_datum(b: SqlBindView) -> DatumView {
    match b {
        SqlBindView::Uuid(u) => DatumView::Text(Some(uuid_text(u.bits))),
        SqlBindView::Str(s) => DatumView::Text(Some(s)),
        SqlBindView::Decimal(d) => DatumView::Text(Some(decimal_spelling(d))),
        SqlBindView::DateTime64Micros(n) => DatumView::BigInt(Some(n)),
        SqlBindView::Bool(x) => DatumView::Bool(Some(x)),
        SqlBindView::I64(n) => DatumView::BigInt(Some(n)),
        SqlBindView::U64(n) => DatumView::BigUnsigned(Some(n)),
    }
}

/// What is bound for values.
pub open spec fn bind_data(binds: Seq<SqlBindView>) -> Seq<DatumView> {
    binds.map_values(|b: SqlBindView| bind_datum(b))
}

/// The expression holds the values, each at its placeholder.
pub open spec fn expr_binds(e: ExprTree, data: Seq<DatumView>) -> bool {
    expr_is_plain(e) && expr_data(e) == data
}

/// The condition holds the values, each at its placeholder.
pub open spec fn condition_binds(c: ConditionTree, data: Seq<DatumView>) -> bool {
    condition_is_plain(c) && condition_data(c) == data
}

/// The `WHERE` condition of a statement holds the values, each at its
/// placeholder.
pub open spec fn filter_binds(t: SelectTree, data: Seq<DatumView>) -> bool {
    select_is_plain(t) && filter_data(t) == data
}

/// A query takes every datum.
pub open spec fn is_bindable(data: Seq<DatumView>) -> bool {
    forall|i: int| 0 <= i < data.len() ==> datum_arg(#[trigger] data[i]) is Some
}

/// Data that a query takes one by one can all be bound.
pub proof fn lemma_bindable(data: Seq<DatumView>)
    requires
        is_bindable(data),
    ensures
        data_args(data) is Some,
    decreases data.len(),
{
    if data.len() > 0 {
        let front = data.drop_last();
        assert forall|i: int| 0 <= i < front.len() implies datum_arg(#[trigger] front[i]) is Some by {
            assert(front[i] == data[i]);
        }
        lemma_bindable(front);
        assert(datum_arg(data[data.len() - 1]) is Some);
    }
}

/// What is bound for values can be bound.
pub proof fn lemma_binds_are_bindable(binds: Seq<SqlBindView>)
    ensures
        is_bindable(bind_data(binds)),
{
}

// ---- templates ----

proof fn lemma_plain_prefix(a: Seq<char>, b: Seq<char>, n: nat)
    requires
        n <= a.len(),
        n <= b.len(),
        forall|i: int| 0 <= i < n ==> a[i] == b[i],
    ensures
        plain_below(a, n) == plain_below(b, n),
    decreases n,
{
    if n > 0 {
        lemma_plain_prefix(a, b, (n - 1) as nat);
        assert(plain_at(a, n - 1) == plain_at(b, n - 1));
    }
}

/// Two plain texts make a plain one, unless two placeholders meet.
pub proof fn lemma_plain_sum(a: Seq<char>, b: Seq<char>)
    requires
        is_plain(a),
        is_plain(b),
        a.len() > 0 && b.len() > 0 ==> !(a.last() == '?' && b[0] == '?'),
    ensures
        is_plain(a + b),
    decreases b.len(),
{
    if b.len() == 0 {
        assert(a + b =~= a);
    } else {
        let front = b.drop_last();
        lemma_plain_prefix(b, front, front.len());
        assert(is_plain(front));
        lemma_plain_sum(a, front);
        let all = a + b;
        lemma_plain_prefix(all, a + front, (a + front).len());
        let n = all.len() - 1;
        assert(plain_at(b, b.len() - 1));
        assert(all[n] == b.last());
        if b.len() > 1 {
            assert(all[n - 1] == b[b.len() - 2]);
        } else if a.len() > 0 {
            assert(all[n - 1] == a.last());
        }
        assert(plain_at(all, n));
    }
}

/// Plain texts with a separator that neither starts nor ends with a placeholder
/// make a plain one.
proof fn lemma_plain_joined(parts: Seq<Seq<char>>, sep: Seq<char>)
    requires
        is_plain(sep),
        sep.len() > 0,
        sep[0] != '?',
        sep.last() != '?',
        forall|i: int| 0 <= i < parts.len() ==> is_plain(#[trigger] parts[i]),
    ensures
        is_plain(joined(parts, sep)),
    decreases parts.len(),
{
    if parts.len() == 1 {
        assert(is_plain(parts[0]));
    } else if parts.len() > 1 {
        let front = parts.drop_last();
        assert forall|i: int| 0 <= i < front.len() implies is_plain(#[trigger] front[i]) by {
            assert(front[i] == parts[i]);
        }
        lemma_plain_joined(front, sep);
        lemma_plain_sum(joined(front, sep), sep);
        assert((joined(front, sep) + sep).last() == sep.last());
        assert(is_plain(parts[parts.len() - 1]));
        lemma_plain_sum(joined(front, sep) + sep, parts.last());
    }
}

/// Placeholders with commas between them are plain.
pub proof fn lemma_plain_slots(n: nat)
    ensures
        is_plain(joined(slots(n), ", "@)),
{
    reveal_strlit(", ");
    reveal_strlit("?");
    reveal_with_fuel(plain_below, 3);
    assert(is_plain(", "@) && is_plain("?"@));
    assert forall|i: int| 0 <= i < slots(n).len() implies is_plain(#[trigger] slots(n)[i]) by {
        assert(slots(n)[i] == "?"@);
    }
    lemma_plain_joined(slots(n), ", "@);
}

// ---- expressions and conditions ----

/// The expressions with a bound value hold that value.
pub proof fn lemma_bound_expressions_bind(micros: i64, key: Seq<char>)
    ensures
        expr_binds(micros_expr(micros), seq![DatumView::BigInt(Some(micros))]),
        expr_binds(metadata_expr(key), seq![DatumView::Text(Some(key))]),
{
    reveal_strlit("fromUnixTimestamp64Micro(?)");
    reveal_strlit("arrayElement(metadata, ?)");
    assert(is_plain("fromUnixTimestamp64Micro(?)"@)) by {
        reveal_with_fuel(plain_below, 28);
    }
    assert(is_plain("arrayElement(metadata, ?)"@)) by {
        reveal_with_fuel(plain_below, 26);
    }
    reveal_with_fuel(expr_is_plain, 2);
    lemma_one_value(DatumView::BigInt(Some(micros)));
    lemma_one_value(DatumView::Text(Some(key)));
}

proof fn lemma_one_value(d: DatumView)
    ensures
        exprs_data(seq![ExprTree::Value(d)]) == seq![d],
{
    let es = seq![ExprTree::Value(d)];
    assert(es.drop_last() =~= Seq::empty());
    assert(exprs_data(es.drop_last()) =~= Seq::empty());
    assert(expr_data(es.last()) == seq![d]);
    assert(exprs_data(es) =~= seq![d]);
}

proof fn lemma_bind_binds(b: SqlBindView)
    ensures
        expr_binds(bind_expr(b), seq![bind_datum(b)]),
{
    if let SqlBindView::DateTime64Micros(n) = b {
        lemma_bound_expressions_bind(n, Seq::empty());
    }
}

/// The values of bound expressions are what is bound, in order.
proof fn lemma_binds_bind(binds: Seq<SqlBindView>)
    ensures
        exprs_data(bind_exprs(binds)) == bind_data(binds),
        forall|i: int| 0 <= i < binds.len() ==> expr_is_plain(#[trigger] bind_exprs(binds)[i]),
    decreases binds.len(),
{
    assert forall|i: int| 0 <= i < binds.len() implies expr_is_plain(
        #[trigger] bind_exprs(binds)[i],
    ) by {
        lemma_bind_binds(binds[i]);
    }
    if binds.len() > 0 {
        let front = binds.drop_last();
        lemma_binds_bind(front);
        lemma_bind_binds(binds.last());
        assert(bind_exprs(binds).drop_last() =~= bind_exprs(front));
        assert(bind_data(binds) =~= bind_data(front) + seq![bind_datum(binds.last())]);
    } else {
        assert(bind_data(binds) =~= Seq::empty());
    }
}

/// The values of bound texts are the texts, in order.
pub proof fn lemma_texts_bind(es: Seq<ExprTree>, ts: Seq<Seq<char>>)
    requires
        es == ts.map_values(|t: Seq<char>| ExprTree::Value(DatumView::Text(Some(t)))),
    ensures
        exprs_data(es) == text_data(ts),
    decreases ts.len(),
{
    if ts.len() > 0 {
        assert(es.drop_last() =~= ts.drop_last().map_values(
            |t: Seq<char>| ExprTree::Value(DatumView::Text(Some(t))),
        ));
        lemma_texts_bind(es.drop_last(), ts.drop_last());
        assert(expr_data(es.last()) == seq![DatumView::Text(Some(ts.last()))]);
        assert(text_data(ts) =~= text_data(ts.drop_last()) + seq![
            DatumView::Text(Some(ts.last())),
        ]);
    } else {
        assert(text_data(ts) =~= Seq::empty());
    }
}

/// Texts as data.
pub open spec fn text_data(ts: Seq<Seq<char>>) -> Seq<DatumView> {
    ts.map_values(|t: Seq<char>| DatumView::Text(Some(t)))
}

/// A condition that is one expression holds its values.
pub proof fn lemma_just_binds(e: ExprTree, data: Seq<DatumView>)
    requires
        expr_binds(e, data),
    ensures
        condition_binds(just(e), data),
{
    let items = seq![ConditionItem::Leaf(e)];
    assert(items.drop_last() =~= Seq::empty());
    assert(items_data(items.drop_last()) =~= Seq::empty());
    assert(items_data(items) =~= data);
}

/// A condition with one item more holds the item's values behind its own.
pub proof fn lemma_with_item_binds(
    c: ConditionTree,
    item: ConditionTree,
    of_c: Seq<DatumView>,
    of_item: Seq<DatumView>,
)
    requires
        condition_binds(c, of_c),
        condition_binds(item, of_item),
    ensures
        condition_binds(with_item(c, item), of_c + of_item),
{
    let r = with_item(c, item);
    assert(r.items.drop_last() =~= c.items);
    assert forall|i: int| 0 <= i < r.items.len() implies match #[trigger] r.items[i] {
        ConditionItem::Nested(inner) => condition_is_plain(inner),
        ConditionItem::Leaf(e) => expr_is_plain(e),
    } by {
        if i < c.items.len() {
            assert(r.items[i] == c.items[i]);
        }
    }
}

/// A condition without items holds no value.
pub proof fn lemma_empty_binds()
    ensures
        condition_binds(all_of(Seq::empty()), Seq::empty()),
        condition_binds(any_of(Seq::empty()), Seq::empty()),
{
    assert(items_data(Seq::empty()) =~= Seq::empty());
}

proof fn lemma_items_of_sum(a: Seq<ConditionItem>, b: Seq<ConditionItem>)
    ensures
        items_data(a + b) == items_data(a) + items_data(b),
    decreases b.len(),
{
    if b.len() == 0 {
        assert(a + b =~= a);
        assert(items_data(a) + items_data(b) =~= items_data(a));
    } else {
        lemma_items_of_sum(a, b.drop_last());
        assert((a + b).drop_last() =~= a + b.drop_last());
        assert((a + b).last() == b.last());
        assert(items_data(a + b) =~= items_data(a) + items_data(b));
    }
}

proof fn lemma_and_filter_binds(
    f: ConditionTree,
    c: ConditionTree,
    of_f: Seq<DatumView>,
    of_c: Seq<DatumView>,
)
    requires
        condition_binds(f, of_f),
        condition_binds(c, of_c),
    ensures
        condition_binds(and_filter(Some(f), c), of_f + of_c),
{
    if !f.any && !f.negate {
        if !c.any && !c.negate {
            lemma_items_of_sum(f.items, c.items);
            let r = and_filter(Some(f), c);
            assert forall|i: int| 0 <= i < r.items.len() implies match #[trigger] r.items[i] {
                ConditionItem::Nested(inner) => condition_is_plain(inner),
                ConditionItem::Leaf(e) => expr_is_plain(e),
            } by {
                if i < f.items.len() {
                    assert(r.items[i] == f.items[i]);
                } else {
                    assert(r.items[i] == c.items[i - f.items.len()]);
                }
            }
        } else {
            lemma_with_item_binds(f, c, of_f, of_c);
        }
    } else {
        let none = all_of(Seq::empty());
        lemma_empty_binds();
        lemma_with_item_binds(none, f, Seq::empty(), of_f);
        assert(Seq::<DatumView>::empty() + of_f =~= of_f);
        lemma_with_item_binds(with_item(none, f), c, of_f, of_c);
    }
}

/// A statement with one condition more holds the condition's values behind those
/// of the conditions before it.
pub proof fn lemma_filtered_binds(
    t: SelectTree,
    c: ConditionTree,
    of_t: Seq<DatumView>,
    of_c: Seq<DatumView>,
)
    requires
        filter_binds(t, of_t),
        condition_binds(c, of_c),
    ensures
        filter_binds(filtered(t, c), of_t + of_c),
{
    match t.filter {
        None => {
            assert(of_t + of_c =~= of_c);
        },
        Some(f) => {
            lemma_and_filter_binds(f, c, of_t, of_c);
        },
    }
}

/// A statement with one condition more, unless it has no item, holds the
/// condition's values behind those of the conditions before it.
pub proof fn lemma_conditioned_binds(
    t: SelectTree,
    c: ConditionTree,
    of_t: Seq<DatumView>,
    of_c: Seq<DatumView>,
)
    requires
        filter_binds(t, of_t),
        condition_binds(c, of_c),
    ensures
        filter_binds(conditioned(t, c), of_t + of_c),
{
    if c.items.len() > 0 {
        lemma_filtered_binds(t, c, of_t, of_c);
    } else {
        assert(of_c =~= Seq::empty());
        assert(of_t + of_c =~= of_t);
    }
}

/// The comparison of a column with a text holds the text.
pub proof fn lemma_text_comparison_binds(column: Seq<char>, text: Seq<char>)
    ensures
        expr_binds(text_comparison(column, text), seq![DatumView::Text(Some(text))]),
        condition_binds(
            just(text_comparison(column, text)),
            seq![DatumView::Text(Some(text))],
        ),
{
    let e = text_comparison(column, text);
    let data = seq![DatumView::Text(Some(text))];
    reveal_with_fuel(expr_data, 2);
    reveal_with_fuel(expr_is_plain, 2);
    assert(expr_data(e) =~= data);
    lemma_just_binds(e, data);
}

/// The expressions are columns and custom texts.
pub open spec fn are_bare(es: Seq<ExprTree>) -> bool {
    forall|i: int| 0 <= i < es.len() ==> (#[trigger] es[i]) is Column || es[i] is Custom
}

/// Columns and custom texts hold no values.
proof fn lemma_no_values(es: Seq<ExprTree>)
    requires
        are_bare(es),
    ensures
        exprs_data(es) == Seq::<DatumView>::empty(),
    decreases es.len(),
{
    if es.len() > 0 {
        let front = es.drop_last();
        assert forall|i: int| 0 <= i < front.len() implies (#[trigger] front[i]) is Column
            || front[i] is Custom by {
            assert(front[i] == es[i]);
        }
        lemma_no_values(front);
        assert(es[es.len() - 1] is Column || es[es.len() - 1] is Custom);
        assert(expr_data(es.last()) =~= Seq::empty());
        assert(exprs_data(es) =~= Seq::empty());
    } else {
        assert(exprs_data(es) =~= Seq::empty());
    }
}

/// Reading columns binds nothing.
pub proof fn lemma_reading_binds(columns: Seq<Seq<char>>, table: Seq<char>)
    ensures
        filter_binds(reading(columns, table), Seq::empty()),
{
}

/// The value of a limit.
pub open spec fn limit_data(limit: Option<u64>) -> Seq<DatumView> {
    match limit {
        Some(n) => seq![DatumView::BigUnsigned(Some(n))],
        None => Seq::empty(),
    }
}

/// The expressions that a statement selects.
pub open spec fn selected_exprs(t: SelectTree) -> Seq<ExprTree> {
    t.selects.map_values(|s: (ExprTree, Option<Seq<char>>)| s.0)
}

/// Where groups and order are bare, the values of a statement are those of what
/// it selects, then those of its condition, then its limit.
pub proof fn lemma_statement_data(t: SelectTree, data: Seq<DatumView>)
    requires
        filter_binds(t, data),
        are_bare(t.groups),
        are_bare(t.orders.map_values(|o: (ExprTree, SortDir)| o.0)),
    ensures
        statement_data(t) == exprs_data(selected_exprs(t)) + data + limit_data(t.limit),
        are_bare(selected_exprs(t)) ==> statement_data(t) == data + limit_data(t.limit),
{
    lemma_no_values(t.groups);
    lemma_no_values(t.orders.map_values(|o: (ExprTree, SortDir)| o.0));
    assert(select_data(t) =~= exprs_data(selected_exprs(t)) + data + limit_data(t.limit));
    if are_bare(selected_exprs(t)) {
        lemma_no_values(selected_exprs(t));
        assert(statement_data(t) =~= data + limit_data(t.limit));
    }
}

/// A statement that reads columns under a condition without groups, order or
/// limit has the values of the condition.
pub proof fn lemma_filtered_reading_data(
    columns: Seq<Seq<char>>,
    table: Seq<char>,
    t: SelectTree,
    data: Seq<DatumView>,
)
    requires
        t == (SelectTree { filter: t.filter, ..reading(columns, table) }),
        filter_binds(t, data),
    ensures
        statement_data(t) == data,
{
    lemma_statement_data(t, data);
    assert(data + limit_data(t.limit) =~= data);
}

/// What is read of a table where a column equals a text has the text for its
/// value.
pub proof fn lemma_reading_by_text_data(
    columns: Seq<Seq<char>>,
    table: Seq<char>,
    column: Seq<char>,
    text: Seq<char>,
)
    ensures
        statement_data(filtered(reading(columns, table), equals_text(column, text))) == seq![
            DatumView::Text(Some(text)),
        ],
{
    let base = reading(columns, table);
    let data = seq![DatumView::Text(Some(text))];
    lemma_reading_binds(columns, table);
    lemma_text_comparison_binds(column, text);
    lemma_filtered_binds(base, equals_text(column, text), Seq::empty(), data);
    assert(Seq::<DatumView>::empty() + data =~= data);
    lemma_filtered_reading_data(columns, table, filtered(base, equals_text(column, text)), data);
}

/// What a query is given for texts.
pub open spec fn text_args(ts: Seq<Seq<char>>) -> Seq<QueryArg> {
    ts.map_values(|t: Seq<char>| QueryArg::Text(t))
}

/// Texts are bound as they are.
pub proof fn lemma_text_args(ts: Seq<Seq<char>>)
    ensures
        data_args(text_data(ts)) == Some(text_args(ts)),
    decreases ts.len(),
{
    if ts.len() > 0 {
        lemma_text_args(ts.drop_last());
        assert(text_data(ts).drop_last() =~= text_data(ts.drop_last()));
        assert(text_args(ts) =~= text_args(ts.drop_last()).push(QueryArg::Text(ts.last())));
    } else {
        assert(text_args(ts) =~= Seq::empty());
    }
}

/// The names of the record columns are plain.
pub proof fn lemma_record_columns_are_plain(field: Seq<char>)
    ensures
        record_column_text(field) matches Some(c) ==> is_plain(c),
{
    reveal_strlit("id");
    reveal_strlit("created_at");
    reveal_strlit("tenant_id");
    reveal_strlit("resource_id");
    reveal_strlit("resource_type");
    reveal_strlit("subject_id");
    reveal_strlit("subject_type");
    reveal_strlit("corrects_id");
    reveal_strlit("status");
    reveal_with_fuel(plain_below, 14);
}

// ---- filters ----

/// The values of a filter's literals, in the order in which they stand.
pub open spec fn literal_data(node: FilterNode) -> Seq<DatumView>
    decreases node,
{
    match node {
        FilterNode::Binary { field, op, value } => seq![bind_datum(bind_of(value)->Ok_0)],
        FilterNode::InList { field, values } => values@.map_values(
            |v: ODataValue| bind_datum(bind_of(v)->Ok_0),
        ),
        FilterNode::Composite { op, children } => literals_data(children@),
        FilterNode::Not(inner) => literal_data(*inner),
    }
}

/// The values of the literals of filters, one filter after the other.
pub open spec fn literals_data(nodes: Seq<FilterNode>) -> Seq<DatumView>
    decreases nodes,
{
    if nodes.len() == 0 {
        Seq::empty()
    } else {
        literals_data(nodes.drop_last()) + literal_data(nodes.last())
    }
}

proof fn lemma_comparison_binds(column: Seq<char>, by: Comparison, b: SqlBindView)
    ensures
        condition_binds(comparison_tree(column, by, b), seq![bind_datum(b)]),
{
    lemma_bind_binds(b);
    let left = ExprTree::Column(column);
    let e = compared(left, by, bind_expr(b));
    assert(expr_data(left) =~= Seq::empty());
    assert(expr_is_plain(left));
    assert(expr_data(e) == expr_data(left) + expr_data(bind_expr(b)));
    assert(expr_data(e) =~= seq![bind_datum(b)]);
    assert(expr_is_plain(e));
    lemma_just_binds(e, seq![bind_datum(b)]);
}

proof fn lemma_equalities_bind(column: Seq<char>, values: Seq<ODataValue>)
    requires
        equalities(column, values) is Ok,
    ensures
        condition_binds(
            equalities(column, values)->Ok_0,
            values.map_values(|v: ODataValue| bind_datum(bind_of(v)->Ok_0)),
        ),
    decreases values.len(),
{
    let data = values.map_values(|v: ODataValue| bind_datum(bind_of(v)->Ok_0));
    if values.len() == 0 {
        lemma_empty_binds();
        assert(data =~= Seq::empty());
    } else {
        let front = values.drop_last();
        lemma_equalities_bind(column, front);
        let b = bind_of(values.last())->Ok_0;
        lemma_comparison_binds(column, Comparison::Equal, b);
        let of_front = front.map_values(|v: ODataValue| bind_datum(bind_of(v)->Ok_0));
        lemma_with_item_binds(
            equalities(column, front)->Ok_0,
            comparison_tree(column, Comparison::Equal, b),
            of_front,
            seq![bind_datum(b)],
        );
        assert(data =~= of_front + seq![bind_datum(b)]);
    }
}

proof fn lemma_alone_binds(c: ConditionTree, data: Seq<DatumView>)
    requires
        condition_binds(c, data),
    ensures
        condition_binds(with_item(all_of(Seq::empty()), c), data),
{
    lemma_empty_binds();
    lemma_with_item_binds(all_of(Seq::empty()), c, Seq::empty(), data);
    assert(Seq::<DatumView>::empty() + data =~= data);
}

/// The values of a filter stand at the placeholders of its condition in the order
/// of the filter's literals.
pub proof fn law_literals_stand_at_their_placeholders<A: ColumnAllowlist>(
    allowlist: A,
    node: FilterNode,
)
    requires
        filter_tree(allowlist, node) is Ok,
    ensures
        condition_binds(filter_tree(allowlist, node)->Ok_0, literal_data(node)),
        is_bindable(literal_data(node)),
    decreases node,
{
    match node {
        FilterNode::Binary { field, op, value } => {
            let c = allowlist.column_text(field@)->0;
            let by = comparison_of(op)->0;
            let b = bind_of(value)->Ok_0;
            lemma_comparison_binds(c, by, b);
            lemma_alone_binds(comparison_tree(c, by, b), seq![bind_datum(b)]);
        },
        FilterNode::InList { field, values } => {
            let c = allowlist.column_text(field@)->0;
            lemma_equalities_bind(c, values@);
            lemma_alone_binds(equalities(c, values@)->Ok_0, literal_data(node));
        },
        FilterNode::Composite { op, children } => {
            let start = if op == FilterOp::And {
                all_of(Seq::empty())
            } else {
                any_of(Seq::empty())
            };
            lemma_joined_binds(allowlist, start, children@);
        },
        FilterNode::Not(inner) => {
            law_literals_stand_at_their_placeholders(allowlist, *inner);
            let c = filter_tree(allowlist, *inner)->Ok_0;
            assert(negated(c).items == c.items);
        },
    }
}

proof fn lemma_joined_binds<A: ColumnAllowlist>(
    allowlist: A,
    start: ConditionTree,
    children: Seq<FilterNode>,
)
    requires
        start.items.len() == 0,
        joined_trees(allowlist, start, children) is Ok,
    ensures
        condition_binds(joined_trees(allowlist, start, children)->Ok_0, literals_data(children)),
        is_bindable(literals_data(children)),
    decreases children,
{
    if children.len() == 0 {
        assert(start.items =~= Seq::empty());
        lemma_empty_binds();
    } else {
        let front = children.drop_last();
        lemma_joined_binds(allowlist, start, front);
        law_literals_stand_at_their_placeholders(allowlist, children.last());
        lemma_with_item_binds(
            joined_trees(allowlist, start, front)->Ok_0,
            filter_tree(allowlist, children.last())->Ok_0,
            literals_data(front),
            literal_data(children.last()),
        );
    }
}

// ---- keysets ----

/// The keys of a keyset predicate over plain columns stand at its placeholders,
/// in the order of the columns.
pub proof fn law_keys_stand_at_their_placeholders(parts: KeysetParts)
    requires
        forall|i: int| 0 <= i < parts.columns.len() ==> is_plain(#[trigger] parts.columns[i]),
    ensures
        expr_binds(keyset_expr(parts), bind_data(parts.binds)),
        condition_binds(keyset_tree(parts), bind_data(parts.binds)),
        is_bindable(bind_data(parts.binds)),
{
    reveal_strlit("(");
    reveal_strlit(") ");
    reveal_strlit(" (");
    reveal_strlit(")");
    reveal_strlit(", ");
    reveal_strlit(">");
    reveal_strlit("<");
    reveal_with_fuel(plain_below, 3);
    let n = parts.binds.len();
    let columns = joined(parts.columns, ", "@);
    let marks = joined(slots(n), ", "@);
    let by = keyset_comparison(parts.ascending);
    assert(is_plain(", "@) && is_plain("("@) && is_plain(") "@) && is_plain(" ("@) && is_plain(")"@)
        && is_plain(by));
    lemma_plain_joined(parts.columns, ", "@);
    lemma_plain_slots(n);
    lemma_plain_sum("("@, columns);
    let a = "("@ + columns;
    lemma_plain_sum(a, ") "@);
    let b = a + ") "@;
    lemma_plain_sum(b, by);
    let c = b + by;
    lemma_plain_sum(c, " ("@);
    let d = c + " ("@;
    assert(d.last() == '(');
    lemma_plain_sum(d, marks);
    lemma_plain_sum(d + marks, ")"@);
    assert(keyset_text(parts, slots(n)) == d + marks + ")"@);
    lemma_binds_bind(parts.binds);
    let e = keyset_expr(parts);
    assert(expr_binds(e, bind_data(parts.binds)));
    lemma_just_binds(e, bind_data(parts.binds));
    lemma_alone_binds(just(e), bind_data(parts.binds));
}

/// Texts are given to a query as they are, one for one.
pub proof fn law_texts_are_given_as_they_are(ts: Seq<Seq<char>>, i: int)
    requires
        0 <= i < ts.len(),
    ensures
        text_args(ts).len() == ts.len(),
        text_args(ts)[i] == QueryArg::Text(ts[i]),
{
}

} // verus!
