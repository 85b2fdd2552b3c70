//! Listing records: the statement of a page, and the page of its rows.
use crate::client::{query_args, query_text};
use crate::mapper::{gts_id_str, saturating_sum};
use crate::model::{ErrorView, MetadataKey, UsageCollectorPluginError, UsageTypeGtsId};
use crate::query::keyset::{
    answers_names, columns_named, ensure_forward_cursor, keyset_condition, keyset_expr,
    keyset_outcome, keyset_tree, law_keyset_placeholders_are_bound,
    lemma_record_columns_have_no_placeholder, names_column, order_by_clauses, pair_views, slots,
    CursorV1, FieldKind, KeysetParts, KeysetRules, ODataOrderBy, OrderKeyView,
};
use crate::query::meaning::{
    condition_truth, filter_truth, law_translation_is_injection_safe,
    law_translation_keeps_the_meaning, lemma_just_truth, lemma_with_item_balanced,
    lemma_with_item_truth, truth_and, Truth,
};
use crate::query::placeholders::{
    bind_data, condition_binds, filter_binds, is_bindable, law_keys_stand_at_their_placeholders,
    law_literals_stand_at_their_placeholders, lemma_bindable, lemma_conditioned_binds,
    lemma_empty_binds, lemma_filtered_binds, lemma_just_binds, lemma_plain_slots, lemma_plain_sum,
    lemma_reading_binds, lemma_record_columns_are_plain, lemma_statement_data,
    lemma_text_comparison_binds, lemma_texts_bind, lemma_with_item_binds, literal_data, text_data,
};
use crate::query::schema::{law_fields_that_may_be_named, record_select_columns, UsageRecords};
use crate::query::selection::{
    is_added, lemma_conditioned_truth, lemma_expression_truth, lemma_filtered_truth, where_truth,
};
use crate::query::statement::{
    apply_condition, conditioned, data_args, datum_arg, equals_text, final_select, is_refusal_of,
    law_statements_read_whole_rows, lemma_filtered_balanced, lemma_just_balanced, prepared_select,
    reading_records, select_records, statement_data, text_comparison, text_equality, with_final,
};
use crate::query::translate::{
    filter_tree, record_column, record_column_text, translate_record_filter, FilterNode,
    RecordColumns,
};
use crate::sql::{
    all_of, bound_values, condition_add, condition_all, condition_balanced, condition_from_expr,
    condition_tree, expr_balanced, expr_cust, expr_cust_with_values, expr_is_plain, filtered,
    is_plain, just, lemma_placeholders_of_sum, placeholders, placeholders_below, plain_below,
    rendered_select, select_balanced, select_cond_where, select_limit, select_order_by,
    select_shape, select_tree, string_value, with_item, Comparison, ConditionTree, DatumView,
    ExprTree, SelectTree, SortDir,
};
use crate::text::{join_texts, joined, optional_text, same_optional_text, texts};
use vstd::prelude::*;
use vstd::string::*;

verus! {

/// The values that a record may have under a metadata key.
#[derive(Debug)]
pub struct MetadataFilter {
    pub key: MetadataKey,
    pub values: Vec<String>,
}

/// The bound texts as expressions.
pub open spec fn bound_texts(ts: Seq<Seq<char>>) -> Seq<ExprTree> {
    ts.map_values(|t: Seq<char>| ExprTree::Value(DatumView::Text(Some(t))))
}

/// The text of the condition that the value under a key is one of `n`.
pub open spec fn metadata_template(n: nat) -> Seq<char> {
    "arrayElement(metadata, ?) IN ("@ + joined(slots(n), ", "@) + ")"@
}

/// The expression of one metadata filter. Without values it never holds.
pub open spec fn metadata_filter_expr(key: Seq<char>, values: Seq<Seq<char>>) -> ExprTree {
    if values.len() == 0 {
        ExprTree::Custom("FALSE"@)
    } else {
        ExprTree::CustomWithExpr(
            metadata_template(values.len()),
            bound_texts(seq![key] + values),
        )
    }
}

/// The condition of one metadata filter.
pub open spec fn metadata_filter_tree(key: Seq<char>, values: Seq<Seq<char>>) -> ConditionTree {
    just(metadata_filter_expr(key, values))
}

/// The condition of metadata filters: all must be met.
pub open spec fn metadata_tree(filters: Seq<MetadataFilter>) -> ConditionTree
    decreases filters.len(),
{
    if filters.len() == 0 {
        all_of(Seq::empty())
    } else {
        with_item(
            metadata_tree(filters.drop_last()),
            metadata_filter_tree(filters.last().key@, texts(filters.last().values@)),
        )
    }
}

/// Every placeholder of a metadata filter has a value.
pub proof fn law_metadata_filter_is_bound(key: Seq<char>, values: Seq<Seq<char>>)
    ensures
        condition_balanced(metadata_filter_tree(key, values)),
{
    if values.len() == 0 {
        lemma_just_balanced(ExprTree::Custom("FALSE"@));
    } else {
        let n = values.len();
        reveal_strlit("arrayElement(metadata, ?) IN (");
        reveal_strlit(")");
        reveal_strlit(", ");
        reveal_strlit("?");
        assert(placeholders("arrayElement(metadata, ?) IN ("@) == 1) by {
            reveal_with_fuel(placeholders_below, 31);
        }
        assert(placeholders(")"@) == 0 && placeholders(", "@) == 0 && placeholders("?"@) == 1) by {
            reveal_with_fuel(placeholders_below, 3);
        }
        lemma_slots(n);
        let head = "arrayElement(metadata, ?) IN ("@;
        lemma_placeholders_of_sum(head, joined(slots(n), ", "@));
        lemma_placeholders_of_sum(head + joined(slots(n), ", "@), ")"@);
        let parts = bound_texts(seq![key] + values);
        assert(parts.len() == n + 1);
        let e = ExprTree::CustomWithExpr(metadata_template(n), parts);
        reveal_with_fuel(expr_balanced, 2);
        lemma_just_balanced(e);
    }
}

proof fn lemma_slots(n: nat)
    requires
        placeholders("?"@) == 1,
        placeholders(", "@) == 0,
    ensures
        placeholders(joined(slots(n), ", "@)) == n,
    decreases n,
{
    if n == 1 {
        assert(slots(n)[0] == "?"@);
    } else if n > 1 {
        lemma_slots((n - 1) as nat);
        assert(slots(n).drop_last() =~= slots((n - 1) as nat));
        assert(slots(n).last() == "?"@);
        lemma_placeholders_of_sum(joined(slots((n - 1) as nat), ", "@), ", "@);
        lemma_placeholders_of_sum(joined(slots((n - 1) as nat), ", "@) + ", "@, "?"@);
    }
}

/// The conditions of metadata filters.
pub fn metadata_conditions(metadata_filter: &Vec<MetadataFilter>) -> (c: sea_query::Condition)
    ensures
        condition_tree(c) == metadata_tree(metadata_filter@),
        condition_balanced(condition_tree(c)),
{
    let mut all = condition_all();
    let mut i: usize = 0;
    assert(metadata_filter@.take(0) =~= Seq::<MetadataFilter>::empty());
    while i < metadata_filter.len()
        invariant
            i <= metadata_filter@.len(),
            condition_tree(all) == metadata_tree(metadata_filter@.take(i as int)),
            condition_balanced(condition_tree(all)),
        decreases metadata_filter@.len() - i,
    {
        let mf = &metadata_filter[i];
        let item = metadata_condition(mf);
        proof {
            let longer = metadata_filter@.take(i + 1);
            assert(longer.drop_last() =~= metadata_filter@.take(i as int));
            assert(longer.last() == metadata_filter@[i as int]);
            law_metadata_filter_is_bound(mf.key@, texts(mf.values@));
            lemma_with_item_balanced(condition_tree(all), condition_tree(item));
        }
        all = condition_add(all, item);
        i = i + 1;
    }
    assert(metadata_filter@.take(i as int) =~= metadata_filter@);
    all
}

/// The condition of one metadata filter.
fn metadata_condition(mf: &MetadataFilter) -> (c: sea_query::Condition)
    ensures
        condition_tree(c) == metadata_filter_tree(mf.key@, texts(mf.values@)),
{
    if mf.values.len() == 0 {
        return condition_from_expr(expr_cust("FALSE".to_owned()));
    }
    let ghost all = seq![mf.key@] + texts(mf.values@);
    let mut vals: Vec<sea_query::Value> = Vec::new();
    vals.push(string_value(mf.key.as_str().to_owned()));
    let mut ph: Vec<String> = Vec::new();
    let mut i: usize = 0;
    while i < mf.values.len()
        invariant
            i <= mf.values@.len(),
            all == seq![mf.key@] + texts(mf.values@),
            vals@.len() == i + 1,
            ph@.len() == i,
            forall|j: int|
                0 <= j <= i ==> crate::sql::value_datum(#[trigger] vals@[j]) == DatumView::Text(
                    Some(all[j]),
                ),
            forall|j: int| 0 <= j < i ==> (#[trigger] ph@[j])@ == "?"@,
        decreases mf.values@.len() - i,
    {
        assert(all[i + 1] == mf.values@[i as int]@);
        vals.push(string_value(mf.values[i].clone()));
        ph.push("?".to_owned());
        i = i + 1;
    }
    let template = "arrayElement(metadata, ?) IN (".to_owned().concat(
        join_texts(&ph, ", ").as_str(),
    ).concat(")");
    proof {
        assert(texts(ph@) =~= slots(mf.values@.len()));
        assert(bound_values(vals@) =~= bound_texts(all));
    }
    condition_from_expr(expr_cust_with_values(template, vals))
}

/// What a page is asked for.
#[derive(Debug)]
pub struct ListQuery {
    /// The filter, or why there is none to be had of the caller's.
    pub filter: Option<Result<FilterNode, String>>,
    /// The order.
    pub order: ODataOrderBy,
    /// The order, as signed tokens.
    pub signed_tokens: String,
    /// The hash of the filter.
    pub filter_hash: Option<String>,
    /// Where the page before ended.
    pub cursor: Option<CursorV1>,
    /// Whether the tokens of the cursor are those of the order.
    pub cursor_order_matches: bool,
    /// The size of the page.
    pub limit: u64,
}

/// The statement with the filter added, or the reason why it cannot be.
pub open spec fn with_filter(t: SelectTree, filter: Option<Result<FilterNode, String>>) -> Result<
    SelectTree,
    ErrorView,
> {
    match filter {
        None => Ok(t),
        Some(Err(why)) => Err(ErrorView::Internal("invalid filter: "@ + why@)),
        Some(Ok(node)) => match filter_tree(RecordColumns, node) {
            Ok(c) => Ok(conditioned(t, c)),
            Err(why) => Err(ErrorView::Internal(why)),
        },
    }
}

/// Adds a filter to a statement.
pub fn apply_filter(
    stmt: &mut sea_query::SelectStatement,
    filter: &Option<Result<FilterNode, String>>,
) -> (r: Result<(), UsageCollectorPluginError>)
    requires
        select_balanced(select_tree(*old(stmt))),
    ensures
        match with_filter(select_tree(*old(stmt)), *filter) {
            Ok(t) => r is Ok && select_tree(*final(stmt)) == t && select_balanced(
                select_tree(*final(stmt)),
            ),
            Err(why) => r matches Err(e) && e@ == why,
        },
{
    match filter {
        None => Ok(()),
        Some(Err(why)) => Err(
            UsageCollectorPluginError::internal(
                "invalid filter: ".to_owned().concat(why.as_str()),
            ),
        ),
        Some(Ok(node)) => match translate_record_filter(node) {
            Ok(cond) => {
                proof {
                    law_translation_is_injection_safe(RecordColumns, *node);
                    lemma_filtered_balanced(select_tree(*stmt), condition_tree(cond));
                }
                apply_condition(stmt, cond);
                Ok(())
            },
            Err(why) => Err(UsageCollectorPluginError::internal(why)),
        },
    }
}

/// The field names of an order, with whether they ascend.
pub open spec fn order_pairs(order: Seq<OrderKeyView>) -> Seq<(Seq<char>, bool)> {
    order.map_values(|k: OrderKeyView| (k.field, k.dir == SortDir::Asc))
}

/// The outcomes of adding a cursor to a statement.
pub open spec fn cursor_outcome<K: Fn(&str) -> Option<FieldKind>, S: Fn(&str) -> bool>(
    kind: K,
    keyset_safe: S,
    q: ListQuery,
    t: SelectTree,
    outcome: Result<SelectTree, ErrorView>,
) -> bool {
    match q.cursor {
        None => outcome == Ok::<SelectTree, ErrorView>(t),
        Some(cursor) => if cursor@.d != "fwd"@ {
            outcome == Err::<SelectTree, ErrorView>(
                ErrorView::Internal(
                    "unsupported cursor direction `"@ + cursor@.d
                        + "`: only forward paging is supported"@,
                ),
            )
        } else if cursor@.f != optional_text(q.filter_hash) {
            outcome == Err::<SelectTree, ErrorView>(
                ErrorView::Internal("cursor filter hash mismatch"@),
            )
        } else if !q.cursor_order_matches {
            outcome == Err::<SelectTree, ErrorView>(
                ErrorView::Internal("cursor sort order mismatch"@),
            )
        } else {
            let rules = KeysetRules { col: record_column, kind, keyset_safe };
            match outcome {
                Ok(after) => exists|parts: KeysetParts|
                    keyset_outcome(
                        rules,
                        order_pairs(q.order@),
                        cursor@.k,
                        Ok::<KeysetParts, Seq<char>>(parts),
                    ) && after == conditioned(t, #[trigger] keyset_tree(parts)),
                Err(e) => e matches ErrorView::Internal(why) && keyset_outcome(
                    rules,
                    order_pairs(q.order@),
                    cursor@.k,
                    Err::<KeysetParts, Seq<char>>(why),
                ),
            }
        },
    }
}

/// Adds a cursor to a statement.
fn apply_cursor<K: Fn(&str) -> Option<FieldKind>, S: Fn(&str) -> bool>(
    stmt: &mut sea_query::SelectStatement,
    q: &ListQuery,
    kind: K,
    keyset_safe: S,
) -> (r: Result<(), UsageCollectorPluginError>)
    requires
        select_balanced(select_tree(*old(stmt))),
        answers_names(kind),
        answers_names(keyset_safe),
    ensures
        r is Ok ==> cursor_outcome(
            kind,
            keyset_safe,
            *q,
            select_tree(*old(stmt)),
            Ok::<SelectTree, ErrorView>(select_tree(*final(stmt))),
        ) && select_balanced(select_tree(*final(stmt))),
        r matches Err(e) ==> cursor_outcome(
            kind,
            keyset_safe,
            *q,
            select_tree(*old(stmt)),
            Err::<SelectTree, ErrorView>(e@),
        ),
{
    let cursor = match &q.cursor {
        Some(c) => c,
        None => {
            return Ok(());
        },
    };
    match ensure_forward_cursor(cursor) {
        Ok(_) => {},
        Err(e) => {
            return Err(UsageCollectorPluginError::internal(e));
        },
    }
    if !same_optional_text(&cursor.f, &q.filter_hash) {
        return Err(UsageCollectorPluginError::internal("cursor filter hash mismatch".to_owned()));
    }
    if !q.cursor_order_matches {
        return Err(UsageCollectorPluginError::internal("cursor sort order mismatch".to_owned()));
    }
    let mut pairs: Vec<(&str, bool)> = Vec::new();
    let mut i: usize = 0;
    while i < q.order.keys.len()
        invariant
            i <= q.order.keys@.len(),
            pairs@.len() == i,
            forall|j: int|
                0 <= j < i ==> (#[trigger] pairs@[j]).0@ == q.order.keys@[j].field@ && pairs@[j].1
                    == (q.order.keys@[j].dir == SortDir::Asc),
        decreases q.order.keys@.len() - i,
    {
        let key = &q.order.keys[i];
        let ascending = match key.dir {
            SortDir::Asc => true,
            SortDir::Desc => false,
        };
        pairs.push((key.field.as_str(), ascending));
        i = i + 1;
    }
    assert(pair_views(pairs@) =~= order_pairs(q.order@));
    match keyset_condition(
        pairs.as_slice(),
        cursor.k.as_slice(),
        record_column,
        kind,
        keyset_safe,
    ) {
        Ok(cond) => {
            proof {
                let rules = KeysetRules { col: record_column, kind, keyset_safe };
                let parts = choose|parts: KeysetParts|
                    keyset_outcome(
                        rules,
                        order_pairs(q.order@),
                        cursor@.k,
                        Ok::<KeysetParts, Seq<char>>(parts),
                    ) && condition_tree(cond) == #[trigger] keyset_tree(parts);
                assert forall|j: int| 0 <= j < parts.columns.len() implies placeholders(
                    #[trigger] parts.columns[j],
                ) == 0 by {
                    let field = order_pairs(q.order@)[j].0;
                    assert(names_column(record_column, field, Some(parts.columns[j])));
                    lemma_record_columns_have_no_placeholder(field);
                }
                law_keyset_placeholders_are_bound(parts);
                lemma_filtered_balanced(select_tree(*stmt), condition_tree(cond));
            }
            apply_condition(stmt, cond);
            Ok(())
        },
        Err(e) => Err(UsageCollectorPluginError::internal(e)),
    }
}

/// The `ORDER BY` clauses of an order, or the first field without a column.
pub open spec fn ordered(order: Seq<OrderKeyView>) -> Result<Seq<(ExprTree, SortDir)>, Seq<char>>
    decreases order.len(),
{
    if order.len() == 0 {
        Ok(Seq::empty())
    } else {
        match ordered(order.drop_last()) {
            Err(why) => Err(why),
            Ok(front) => match record_column_text(order.last().field) {
                None => Err("order field not allowlisted: "@ + order.last().field),
                Some(c) => Ok(front.push((ExprTree::Custom(c), order.last().dir))),
            },
        }
    }
}

/// The `ORDER BY` clauses of an order, which must not be empty.
pub open spec fn record_order(order: Seq<OrderKeyView>) -> Result<
    Seq<(ExprTree, SortDir)>,
    Seq<char>,
> {
    if order.len() == 0 {
        Err("order must not be empty"@)
    } else {
        ordered(order)
    }
}

proof fn lemma_ordered_prefix(order: Seq<OrderKeyView>, columns: Seq<Seq<char>>, n: int)
    requires
        0 <= n <= columns.len() <= order.len(),
        forall|i: int|
            0 <= i < columns.len() ==> record_column_text(order[i].field) == Some(
                #[trigger] columns[i],
            ),
    ensures
        ordered(order.take(n)) is Ok,
        ordered(order.take(n))->Ok_0 == Seq::new(
            n as nat,
            |i: int| (ExprTree::Custom(columns[i]), order[i].dir),
        ),
    decreases n,
{
    let head = order.take(n);
    if n > 0 {
        lemma_ordered_prefix(order, columns, n - 1);
        assert(head.drop_last() =~= order.take(n - 1));
        assert(head.last() == order[n - 1]);
        assert(record_column_text(order[n - 1].field) == Some(columns[n - 1]));
    }
    assert(ordered(head)->Ok_0 =~= Seq::new(
        n as nat,
        |i: int| (ExprTree::Custom(columns[i]), order[i].dir),
    ));
}

proof fn lemma_ordered_stops(order: Seq<OrderKeyView>, n: int)
    requires
        0 <= n <= order.len(),
        ordered(order.take(n)) is Err,
    ensures
        ordered(order) == ordered(order.take(n)),
    decreases order.len(),
{
    if n == order.len() {
        assert(order.take(n) =~= order);
    } else {
        let front = order.drop_last();
        assert(front.take(n) =~= order.take(n));
        lemma_ordered_stops(front, n);
    }
}

/// Adds the order to a statement.
fn apply_order(stmt: &mut sea_query::SelectStatement, order: &ODataOrderBy) -> (r: Result<
    (),
    UsageCollectorPluginError,
>)
    requires
        select_balanced(select_tree(*old(stmt))),
    ensures
        match record_order(order@) {
            Ok(orders) => r is Ok && select_tree(*final(stmt)) == (SelectTree {
                orders: select_tree(*old(stmt)).orders + orders,
                ..select_tree(*old(stmt))
            }) && select_balanced(select_tree(*final(stmt))),
            Err(why) => r matches Err(e) && e@ == ErrorView::Internal(why),
        },
{
    let ghost start = select_tree(*stmt);
    let clauses = match order_by_clauses(order, record_column) {
        Ok(c) => c,
        Err(e) => {
            proof {
                if order@.len() > 0 {
                    let columns = choose|columns: Seq<Seq<char>>| #[trigger]
                        columns_named(record_column, order@, columns) && columns.len()
                            < order@.len() && names_column(
                            record_column,
                            order@[columns.len() as int].field,
                            None,
                        ) && e@ == "order field not allowlisted: "@
                            + order@[columns.len() as int].field;
                    let n = columns.len() as int;
                    lemma_ordered_prefix(order@, columns, n);
                    let longer = order@.take(n + 1);
                    assert(longer.drop_last() =~= order@.take(n));
                    assert(longer.last() == order@[n]);
                    lemma_ordered_stops(order@, n + 1);
                }
            }
            return Err(UsageCollectorPluginError::internal(e));
        },
    };
    let ghost columns = clauses@.map_values(|c: (String, SortDir)| c.0@);
    let ghost orders = Seq::new(
        order@.len(),
        |i: int| (ExprTree::Custom(columns[i]), order@[i].dir),
    );
    proof {
        assert forall|i: int| 0 <= i < columns.len() implies record_column_text(order@[i].field)
            == Some(#[trigger] columns[i]) by {
            assert(columns[i] == clauses@[i].0@);
        }
        lemma_ordered_prefix(order@, columns, order@.len() as int);
        assert(order@.take(order@.len() as int) =~= order@);
        assert(start.orders + orders.take(0) =~= start.orders);
    }
    let mut i: usize = 0;
    while i < clauses.len()
        invariant
            i <= clauses@.len(),
            clauses@.len() == order@.len(),
            columns == clauses@.map_values(|c: (String, SortDir)| c.0@),
            orders == Seq::new(
                order@.len(),
                |i: int| (ExprTree::Custom(columns[i]), order@[i].dir),
            ),
            forall|j: int| 0 <= j < clauses@.len() ==> (#[trigger] clauses@[j]).1 == order@[j].dir,
            select_tree(*stmt) == (SelectTree {
                orders: start.orders + orders.take(i as int),
                ..start
            }),
        decreases clauses@.len() - i,
    {
        let e = expr_cust(clauses[i].0.clone());
        select_order_by(stmt, e, clauses[i].1);
        proof {
            assert(orders[i as int] == (ExprTree::Custom(columns[i as int]), clauses@[i as int].1));
            assert(columns[i as int] == clauses@[i as int].0@);
            assert(orders.take(i + 1) =~= orders.take(i as int).push(orders[i as int]));
            assert(start.orders + orders.take(i + 1) =~= (start.orders + orders.take(
                i as int,
            )).push(orders[i as int]));
        }
        i = i + 1;
    }
    proof {
        assert(orders.take(i as int) =~= orders);
        let t = select_tree(*stmt);
        assert forall|j: int| 0 <= j < t.orders.len() implies expr_balanced(
            (#[trigger] t.orders[j]).0,
        ) by {
            if j < start.orders.len() {
                assert(t.orders[j] == start.orders[j]);
            } else {
                assert(t.orders[j] == orders[j - start.orders.len()]);
            }
        }
    }
    Ok(())
}

/// The statement of a page before filters, cursor and order: the records of the
/// usage type, one more than the page holds.
pub open spec fn list_base(gts_id: Seq<char>, limit: u64) -> SelectTree {
    SelectTree {
        limit: Some(saturating_sum(limit as int, 1)),
        ..filtered(reading_records(), equals_text(UsageRecords::GtsId.spec_iden(), gts_id))
    }
}

/// The outcomes of building the statement of a page.
pub open spec fn list_outcome<K: Fn(&str) -> Option<FieldKind>, S: Fn(&str) -> bool>(
    kind: K,
    keyset_safe: S,
    gts_id: Seq<char>,
    q: ListQuery,
    metadata_filter: Seq<MetadataFilter>,
    outcome: Result<SelectTree, ErrorView>,
) -> bool {
    match with_filter(list_base(gts_id, q.limit), q.filter) {
        Err(e) => outcome == Err::<SelectTree, ErrorView>(e),
        Ok(t) => exists|c: Result<SelectTree, ErrorView>| #[trigger]
            cursor_outcome(
                kind,
                keyset_safe,
                q,
                conditioned(t, metadata_tree(metadata_filter)),
                c,
            ) && outcome == (match c {
                Err(e) => Err::<SelectTree, ErrorView>(e),
                Ok(paged) => match record_order(q.order@) {
                    Err(why) => Err(ErrorView::Internal(why)),
                    Ok(orders) => Ok(SelectTree { orders: paged.orders + orders, ..paged }),
                },
            }),
    }
}

/// Builds the statement of a page. The kinds of fields, and which may be keyset
/// keys, are asked of the functions.
pub fn list_statement<K: Fn(&str) -> Option<FieldKind>, S: Fn(&str) -> bool>(
    gts_id: &UsageTypeGtsId,
    q: &ListQuery,
    metadata_filter: &Vec<MetadataFilter>,
    kind: K,
    keyset_safe: S,
) -> (r: Result<sea_query::SelectStatement, UsageCollectorPluginError>)
    requires
        answers_names(kind),
        answers_names(keyset_safe),
    ensures
        r matches Ok(stmt) ==> list_outcome(
            kind,
            keyset_safe,
            gts_id@,
            *q,
            metadata_filter@,
            Ok::<SelectTree, ErrorView>(select_tree(stmt)),
        ) && select_balanced(select_tree(stmt)),
        r matches Err(e) ==> list_outcome(
            kind,
            keyset_safe,
            gts_id@,
            *q,
            metadata_filter@,
            Err::<SelectTree, ErrorView>(e@),
        ),
{
    let mut stmt = select_records();
    let cond = text_equality(UsageRecords::GtsId.iden(), gts_id_str(gts_id));
    proof {
        lemma_filtered_balanced(select_tree(stmt), condition_tree(cond));
    }
    select_cond_where(&mut stmt, cond);
    select_limit(&mut stmt, q.limit.saturating_add(1));
    assert(select_tree(stmt) == list_base(gts_id@, q.limit));
    match apply_filter(&mut stmt, &q.filter) {
        Ok(_) => {},
        Err(e) => {
            return Err(e);
        },
    }
    let metadata = metadata_conditions(metadata_filter);
    proof {
        lemma_filtered_balanced(select_tree(stmt), condition_tree(metadata));
    }
    apply_condition(&mut stmt, metadata);
    let ghost unpaged = select_tree(stmt);
    match apply_cursor(&mut stmt, q, kind, keyset_safe) {
        Ok(_) => {},
        Err(e) => {
            assert(cursor_outcome(
                kind,
                keyset_safe,
                *q,
                unpaged,
                Err::<SelectTree, ErrorView>(e@),
            ));
            return Err(e);
        },
    }
    assert(cursor_outcome(
        kind,
        keyset_safe,
        *q,
        unpaged,
        Ok::<SelectTree, ErrorView>(select_tree(stmt)),
    ));
    match apply_order(&mut stmt, &q.order) {
        Ok(_) => Ok(stmt),
        Err(e) => Err(e),
    }
}

/// Whether an outcome is what is sent for a statement.
pub open spec fn is_select_query(
    r: Result<clickhouse::query::Query, UsageCollectorPluginError>,
    t: SelectTree,
) -> bool {
    match data_args(final_select(t).1) {
        Some(args) => r matches Ok(q) && query_text(q) == final_select(t).0 && query_args(q)
            == args,
        None => r matches Err(e) && (e@ matches ErrorView::Internal(why) && is_refusal_of(
            why,
            final_select(t).1,
        )),
    }
}

/// What is sent for a statement.
pub fn select_query(client: &clickhouse::Client, stmt: sea_query::SelectStatement) -> (r: Result<
    clickhouse::query::Query,
    UsageCollectorPluginError,
>)
    requires
        select_balanced(select_tree(stmt)),
    ensures
        is_select_query(r, select_tree(stmt)),
{
    match prepared_select(client, stmt) {
        Ok(q) => Ok(q),
        Err(e) => Err(UsageCollectorPluginError::internal(e)),
    }
}

/// The outcomes of preparing the query of a page.
pub open spec fn list_query_outcome<K: Fn(&str) -> Option<FieldKind>, S: Fn(&str) -> bool>(
    kind: K,
    keyset_safe: S,
    gts_id: Seq<char>,
    q: ListQuery,
    metadata_filter: Seq<MetadataFilter>,
    r: Result<clickhouse::query::Query, UsageCollectorPluginError>,
) -> bool {
    exists|outcome: Result<SelectTree, ErrorView>| #[trigger]
        list_outcome(kind, keyset_safe, gts_id, q, metadata_filter, outcome) && match outcome {
            Ok(t) => is_select_query(r, t),
            Err(why) => r matches Err(e) && e@ == why,
        }
}

/// Prepares the query of a page.
pub fn list_query<K: Fn(&str) -> Option<FieldKind>, S: Fn(&str) -> bool>(
    client: &clickhouse::Client,
    gts_id: &UsageTypeGtsId,
    q: &ListQuery,
    metadata_filter: &Vec<MetadataFilter>,
    kind: K,
    keyset_safe: S,
) -> (r: Result<clickhouse::query::Query, UsageCollectorPluginError>)
    requires
        answers_names(kind),
        answers_names(keyset_safe),
    ensures
        list_query_outcome(kind, keyset_safe, gts_id@, *q, metadata_filter@, r),
{
    match list_statement(gts_id, q, metadata_filter, kind, keyset_safe) {
        Ok(stmt) => {
            assert(list_outcome(
                kind,
                keyset_safe,
                gts_id@,
                *q,
                metadata_filter@,
                Ok::<SelectTree, ErrorView>(select_tree(stmt)),
            ));
            select_query(client, stmt)
        },
        Err(e) => {
            assert(list_outcome(
                kind,
                keyset_safe,
                gts_id@,
                *q,
                metadata_filter@,
                Err::<SelectTree, ErrorView>(e@),
            ));
            Err(e)
        },
    }
}

/// What metadata filters yield where expressions yield `leaf`: all must hold.
pub open spec fn metadata_truth(
    filters: Seq<MetadataFilter>,
    leaf: spec_fn(ExprTree) -> Truth,
) -> Truth
    decreases filters.len(),
{
    if filters.len() == 0 {
        Truth::True
    } else {
        let last = filters.last();
        truth_and(
            metadata_truth(filters.drop_last(), leaf),
            leaf(metadata_filter_expr(last.key@, texts(last.values@))),
        )
    }
}

/// What metadata filters yield is what their condition yields.
pub proof fn lemma_metadata_truth(filters: Seq<MetadataFilter>, leaf: spec_fn(ExprTree) -> Truth)
    ensures
        condition_truth(metadata_tree(filters), leaf) == metadata_truth(filters, leaf),
        !metadata_tree(filters).any,
        !metadata_tree(filters).negate,
    decreases filters.len(),
{
    if filters.len() > 0 {
        let front = filters.drop_last();
        let last = filters.last();
        let e = metadata_filter_expr(last.key@, texts(last.values@));
        lemma_metadata_truth(front, leaf);
        lemma_with_item_truth(metadata_tree(front), just(e), leaf);
        lemma_just_truth(e, leaf);
    }
}

/// What a filter yields, true where there is none.
pub open spec fn optional_filter_truth(
    filter: Option<Result<FilterNode, String>>,
    leaf: spec_fn(ExprTree) -> Truth,
) -> Truth {
    match filter {
        Some(Ok(node)) => filter_truth(RecordColumns, node, leaf),
        _ => Truth::True,
    }
}

/// The filter's condition is added to a statement wherever that matters.
pub open spec fn filter_is_added(filter: Option<Result<FilterNode, String>>) -> bool {
    match filter {
        Some(Ok(node)) => filter_tree(RecordColumns, node) matches Ok(c) && is_added(c),
        _ => true,
    }
}

/// Adding a filter to a statement leaves the rows that it holds on.
pub proof fn lemma_filter_truth(
    t: SelectTree,
    filter: Option<Result<FilterNode, String>>,
    leaf: spec_fn(ExprTree) -> Truth,
)
    requires
        with_filter(t, filter) is Ok,
        filter_is_added(filter),
    ensures
        where_truth(with_filter(t, filter)->Ok_0, leaf) == truth_and(
            where_truth(t, leaf),
            optional_filter_truth(filter, leaf),
        ),
{
    match filter {
        Some(Ok(node)) => {
            law_translation_keeps_the_meaning(RecordColumns, node, leaf);
            lemma_conditioned_truth(t, filter_tree(RecordColumns, node)->Ok_0, leaf);
        },
        _ => {},
    }
}

/// What a cursor may yield: true where there is none, else what the comparison
/// with its keys does.
pub open spec fn is_cursor_truth<K: Fn(&str) -> Option<FieldKind>, S: Fn(&str) -> bool>(
    kind: K,
    keyset_safe: S,
    q: ListQuery,
    leaf: spec_fn(ExprTree) -> Truth,
    truth: Truth,
) -> bool {
    match q.cursor {
        None => truth is True,
        Some(cursor) => exists|parts: KeysetParts|
            keyset_outcome(
                (KeysetRules { col: record_column, kind, keyset_safe }),
                order_pairs(q.order@),
                cursor@.k,
                Ok::<KeysetParts, Seq<char>>(parts),
            ) && truth == leaf(#[trigger] keyset_expr(parts)),
    }
}

/// A page reads the records of the usage type on which the filter and every
/// metadata filter hold and that stand behind the cursor, one more than it
/// holds, and all columns of them. (A filter that is a disjunction of nothing,
/// or the negation of a conjunction of nothing, is left out of the statement.)
pub proof fn law_page_reads_what_was_asked_for<
    K: Fn(&str) -> Option<FieldKind>,
    S: Fn(&str) -> bool,
>(
    kind: K,
    keyset_safe: S,
    gts_id: Seq<char>,
    q: ListQuery,
    metadata_filter: Seq<MetadataFilter>,
    t: SelectTree,
    leaf: spec_fn(ExprTree) -> Truth,
)
    requires
        list_outcome(
            kind,
            keyset_safe,
            gts_id,
            q,
            metadata_filter,
            Ok::<SelectTree, ErrorView>(t),
        ),
        filter_is_added(q.filter),
    ensures
        exists|behind: Truth| #[trigger]
            is_cursor_truth(kind, keyset_safe, q, leaf, behind) && where_truth(t, leaf)
                == truth_and(
                truth_and(
                    truth_and(
                        leaf(text_comparison(UsageRecords::GtsId.spec_iden(), gts_id)),
                        optional_filter_truth(q.filter, leaf),
                    ),
                    metadata_truth(metadata_filter, leaf),
                ),
                behind,
            ),
        t.selects == reading_records().selects,
        t.from == reading_records().from,
        t.limit == Some(saturating_sum(q.limit as int, 1)),
        Ok::<Seq<(ExprTree, SortDir)>, Seq<char>>(t.orders) == record_order(q.order@),
{
    let base = list_base(gts_id, q.limit);
    let e = text_comparison(UsageRecords::GtsId.spec_iden(), gts_id);
    lemma_filtered_truth(reading_records(), just(e), leaf);
    lemma_just_truth(e, leaf);
    assert(where_truth(base, leaf) == leaf(e));
    lemma_filter_truth(base, q.filter, leaf);
    let typed = with_filter(base, q.filter)->Ok_0;
    let unpaged = conditioned(typed, metadata_tree(metadata_filter));
    lemma_metadata_truth(metadata_filter, leaf);
    lemma_conditioned_truth(typed, metadata_tree(metadata_filter), leaf);
    let c = choose|c: Result<SelectTree, ErrorView>| #[trigger]
        cursor_outcome(kind, keyset_safe, q, unpaged, c) && Ok::<SelectTree, ErrorView>(t) == (
        match c {
            Err(e) => Err::<SelectTree, ErrorView>(e),
            Ok(paged) => match record_order(q.order@) {
                Err(why) => Err(ErrorView::Internal(why)),
                Ok(orders) => Ok(SelectTree { orders: paged.orders + orders, ..paged }),
            },
        });
    let paged = c->Ok_0;
    assert(where_truth(t, leaf) == where_truth(paged, leaf));
    assert(paged.orders =~= Seq::empty());
    assert(t.orders =~= record_order(q.order@)->Ok_0);
    match q.cursor {
        None => {
            assert(is_cursor_truth(kind, keyset_safe, q, leaf, Truth::True));
        },
        Some(cursor) => {
            let parts = choose|parts: KeysetParts|
                keyset_outcome(
                    (KeysetRules { col: record_column, kind, keyset_safe }),
                    order_pairs(q.order@),
                    cursor@.k,
                    Ok::<KeysetParts, Seq<char>>(parts),
                ) && paged == conditioned(unpaged, #[trigger] keyset_tree(parts));
            lemma_expression_truth(keyset_expr(parts), leaf);
            lemma_conditioned_truth(unpaged, keyset_tree(parts), leaf);
            assert(is_cursor_truth(kind, keyset_safe, q, leaf, leaf(keyset_expr(parts))));
        },
    }
}

/// The values of a filter's literals.
pub open spec fn optional_filter_data(filter: Option<Result<FilterNode, String>>) -> Seq<
    DatumView,
> {
    match filter {
        Some(Ok(node)) => literal_data(node),
        _ => Seq::empty(),
    }
}

/// The values of one metadata filter: the key, then what is allowed under it.
pub open spec fn metadata_filter_data(key: Seq<char>, values: Seq<Seq<char>>) -> Seq<DatumView> {
    if values.len() == 0 {
        Seq::empty()
    } else {
        text_data(seq![key] + values)
    }
}

/// The values of metadata filters, one filter after the other.
pub open spec fn metadata_data(filters: Seq<MetadataFilter>) -> Seq<DatumView>
    decreases filters.len(),
{
    if filters.len() == 0 {
        Seq::empty()
    } else {
        let last = filters.last();
        metadata_data(filters.drop_last()) + metadata_filter_data(
            last.key@,
            texts(last.values@),
        )
    }
}

/// The key of a metadata filter, then its values, stand at the placeholders of
/// its condition.
pub proof fn law_metadata_values_stand_at_their_placeholders(
    key: Seq<char>,
    values: Seq<Seq<char>>,
)
    ensures
        condition_binds(metadata_filter_tree(key, values), metadata_filter_data(key, values)),
        is_bindable(metadata_filter_data(key, values)),
{
    let e = metadata_filter_expr(key, values);
    if values.len() > 0 {
        let n = values.len();
        let head = "arrayElement(metadata, ?) IN ("@;
        let marks = joined(slots(n), ", "@);
        reveal_strlit("arrayElement(metadata, ?) IN (");
        reveal_strlit(")");
        assert(is_plain(head)) by {
            reveal_with_fuel(plain_below, 31);
        }
        assert(is_plain(")"@)) by {
            reveal_with_fuel(plain_below, 2);
        }
        lemma_plain_slots(n);
        assert(head.last() == '(');
        lemma_plain_sum(head, marks);
        lemma_plain_sum(head + marks, ")"@);
        let all = seq![key] + values;
        lemma_texts_bind(bound_texts(all), all);
        reveal_with_fuel(expr_is_plain, 2);
    }
    lemma_just_binds(e, metadata_filter_data(key, values));
}

/// The values of metadata filters stand at the placeholders of their condition.
pub proof fn lemma_metadata_binds(filters: Seq<MetadataFilter>)
    ensures
        condition_binds(metadata_tree(filters), metadata_data(filters)),
        is_bindable(metadata_data(filters)),
    decreases filters.len(),
{
    if filters.len() == 0 {
        lemma_empty_binds();
    } else {
        let front = filters.drop_last();
        let last = filters.last();
        lemma_metadata_binds(front);
        law_metadata_values_stand_at_their_placeholders(last.key@, texts(last.values@));
        lemma_with_item_binds(
            metadata_tree(front),
            metadata_filter_tree(last.key@, texts(last.values@)),
            metadata_data(front),
            metadata_filter_data(last.key@, texts(last.values@)),
        );
    }
}

/// The values of a filter stand behind those of the statement that it is added to.
pub proof fn lemma_filter_binds(
    t: SelectTree,
    filter: Option<Result<FilterNode, String>>,
    data: Seq<DatumView>,
)
    requires
        with_filter(t, filter) is Ok,
        filter_binds(t, data),
    ensures
        filter_binds(with_filter(t, filter)->Ok_0, data + optional_filter_data(filter)),
        is_bindable(optional_filter_data(filter)),
{
    match filter {
        Some(Ok(node)) => {
            law_literals_stand_at_their_placeholders(RecordColumns, node);
            lemma_conditioned_binds(
                t,
                filter_tree(RecordColumns, node)->Ok_0,
                data,
                literal_data(node),
            );
        },
        _ => {
            assert(data + optional_filter_data(filter) =~= data);
        },
    }
}

/// What a cursor may bind: nothing where there is none, else its keys, each as
/// the kind of its field has it.
pub open spec fn is_cursor_data<K: Fn(&str) -> Option<FieldKind>, S: Fn(&str) -> bool>(
    kind: K,
    keyset_safe: S,
    q: ListQuery,
    data: Seq<DatumView>,
) -> bool {
    match q.cursor {
        None => data == Seq::<DatumView>::empty(),
        Some(cursor) => exists|parts: KeysetParts| #[trigger]
            keyset_outcome(
                (KeysetRules { col: record_column, kind, keyset_safe }),
                order_pairs(q.order@),
                cursor@.k,
                Ok::<KeysetParts, Seq<char>>(parts),
            ) && data == bind_data(parts.binds),
    }
}

proof fn lemma_ordered_is_bare(order: Seq<OrderKeyView>)
    requires
        ordered(order) is Ok,
    ensures
        forall|i: int|
            0 <= i < ordered(order)->Ok_0.len() ==> (#[trigger] ordered(order)->Ok_0[i]).0 is Custom,
    decreases order.len(),
{
    if order.len() > 0 {
        lemma_ordered_is_bare(order.drop_last());
    }
}

/// The values of a page's statement are the usage type, the literals of the
/// filter, the keys and values of the metadata filters, the keys of the cursor
/// and the number of rows, each at its placeholder. All of them can be bound.
pub proof fn law_page_binds_what_was_asked_for<
    K: Fn(&str) -> Option<FieldKind>,
    S: Fn(&str) -> bool,
>(
    kind: K,
    keyset_safe: S,
    gts_id: Seq<char>,
    q: ListQuery,
    metadata_filter: Seq<MetadataFilter>,
    t: SelectTree,
)
    requires
        list_outcome(
            kind,
            keyset_safe,
            gts_id,
            q,
            metadata_filter,
            Ok::<SelectTree, ErrorView>(t),
        ),
    ensures
        exists|keys: Seq<DatumView>| #[trigger]
            is_cursor_data(kind, keyset_safe, q, keys) && final_select(t).1 == seq![
                DatumView::Text(Some(gts_id)),
            ] + optional_filter_data(q.filter) + metadata_data(metadata_filter) + keys + seq![
                DatumView::BigUnsigned(Some(saturating_sum(q.limit as int, 1))),
            ],
        data_args(final_select(t).1) is Some,
{
    let of_type = seq![DatumView::Text(Some(gts_id))];
    let records = reading_records();
    let base = list_base(gts_id, q.limit);
    let none = Seq::<DatumView>::empty();
    let metadata = metadata_tree(metadata_filter);
    let column = UsageRecords::GtsId.spec_iden();
    lemma_reading_binds(record_select_columns(), UsageRecords::Table.spec_iden());
    lemma_text_comparison_binds(column, gts_id);
    lemma_filtered_binds(records, equals_text(column, gts_id), none, of_type);
    assert(none + of_type =~= of_type);
    assert(filter_binds(base, of_type));
    lemma_filter_binds(base, q.filter, of_type);
    let typed = with_filter(base, q.filter)->Ok_0;
    let of_typed = of_type + optional_filter_data(q.filter);
    lemma_metadata_binds(metadata_filter);
    lemma_conditioned_binds(typed, metadata, of_typed, metadata_data(metadata_filter));
    let unpaged = conditioned(typed, metadata);
    let of_unpaged = of_typed + metadata_data(metadata_filter);
    let c = choose|c: Result<SelectTree, ErrorView>| #[trigger]
        cursor_outcome(kind, keyset_safe, q, unpaged, c) && Ok::<SelectTree, ErrorView>(t) == (
        match c {
            Err(e) => Err::<SelectTree, ErrorView>(e),
            Ok(paged) => match record_order(q.order@) {
                Err(why) => Err(ErrorView::Internal(why)),
                Ok(orders) => Ok(SelectTree { orders: paged.orders + orders, ..paged }),
            },
        });
    let paged = c->Ok_0;
    let keys = match q.cursor {
        None => none,
        Some(cursor) => {
            let parts = choose|parts: KeysetParts|
                keyset_outcome(
                    (KeysetRules { col: record_column, kind, keyset_safe }),
                    order_pairs(q.order@),
                    cursor@.k,
                    Ok::<KeysetParts, Seq<char>>(parts),
                ) && paged == conditioned(unpaged, #[trigger] keyset_tree(parts));
            assert forall|j: int| 0 <= j < parts.columns.len() implies is_plain(
                #[trigger] parts.columns[j],
            ) by {
                let field = order_pairs(q.order@)[j].0;
                assert(names_column(record_column, field, Some(parts.columns[j])));
                lemma_record_columns_are_plain(field);
            }
            law_keys_stand_at_their_placeholders(parts);
            lemma_conditioned_binds(
                unpaged,
                keyset_tree(parts),
                of_unpaged,
                bind_data(parts.binds),
            );
            bind_data(parts.binds)
        },
    };
    assert(of_unpaged + none =~= of_unpaged);
    assert(is_cursor_data(kind, keyset_safe, q, keys));
    let data = of_unpaged + keys;
    assert(filter_binds(paged, data));
    lemma_ordered_is_bare(q.order@);
    assert(paged.orders =~= Seq::empty());
    assert(t.orders =~= record_order(q.order@)->Ok_0);
    assert(filter_binds(t, data));
    lemma_statement_data(t, data);
    assert(is_bindable(final_select(t).1));
    lemma_bindable(final_select(t).1);
}

// ---- what a page's statement says ----

proof fn lemma_ordered_at(order: Seq<OrderKeyView>)
    ensures
        ordered(order) matches Ok(clauses) ==> clauses.len() == order.len() && (forall|i: int|
            0 <= i < order.len() ==> record_column_text((#[trigger] order[i]).field) is Some) && (
        forall|i: int|
            0 <= i < order.len() ==> #[trigger] clauses[i] == (
                ExprTree::Custom(order[i].field),
                order[i].dir,
            )),
        ordered(order) matches Err(why) ==> exists|i: int|
            0 <= i < order.len() && record_column_text((#[trigger] order[i]).field) is None && why
                == "order field not allowlisted: "@ + order[i].field && forall|j: int|
                0 <= j < i ==> record_column_text((#[trigger] order[j]).field) is Some,
    decreases order.len(),
{
    if order.len() > 0 {
        let front = order.drop_last();
        lemma_ordered_at(front);
        law_fields_that_may_be_named(order.last().field);
        match ordered(order) {
            Ok(clauses) => {
                let fewer = ordered(front)->Ok_0;
                assert forall|i: int| 0 <= i < order.len() implies record_column_text(
                    (#[trigger] order[i]).field,
                ) is Some && clauses[i] == (ExprTree::Custom(order[i].field), order[i].dir) by {
                    if i < front.len() {
                        assert(clauses[i] == fewer[i]);
                        assert(order[i] == front[i]);
                    }
                }
            },
            Err(why) => {
                match ordered(front) {
                    Err(_) => {
                        let i = choose|i: int|
                            0 <= i < front.len() && record_column_text((#[trigger] front[i]).field)
                                is None && why == "order field not allowlisted: "@ + front[i].field
                                && forall|j: int|
                                0 <= j < i ==> record_column_text((#[trigger] front[j]).field)
                                    is Some;
                        assert(order[i] == front[i]);
                        assert forall|j: int| 0 <= j < i implies record_column_text(
                            (#[trigger] order[j]).field,
                        ) is Some by {
                            assert(order[j] == front[j]);
                        }
                    },
                    Ok(fewer) => {
                        let i = order.len() - 1;
                        assert(record_column_text(order[i].field) is None);
                        assert forall|j: int| 0 <= j < i implies record_column_text(
                            (#[trigger] order[j]).field,
                        ) is Some by {
                            assert(order[j] == front[j]);
                            assert(fewer[j] == (ExprTree::Custom(front[j].field), front[j].dir));
                        }
                    },
                }
            },
        }
    }
}

/// The rows of a page come in the order that was asked for: the statement orders
/// by the column of each key of the order, in their sequence and each in the
/// direction of its key, and by nothing else.
pub proof fn law_page_is_ordered_as_asked<
    K: Fn(&str) -> Option<FieldKind>,
    S: Fn(&str) -> bool,
>(
    kind: K,
    keyset_safe: S,
    gts_id: Seq<char>,
    q: ListQuery,
    metadata_filter: Seq<MetadataFilter>,
    t: SelectTree,
)
    requires
        list_outcome(
            kind,
            keyset_safe,
            gts_id,
            q,
            metadata_filter,
            Ok::<SelectTree, ErrorView>(t),
        ),
    ensures
        q.order@.len() > 0,
        t.orders.len() == q.order@.len(),
        forall|i: int|
            0 <= i < q.order@.len() ==> #[trigger] t.orders[i] == (
                ExprTree::Custom(q.order@[i].field),
                q.order@[i].dir,
            ),
        forall|i: int|
            #![trigger q.order@[i]]
            0 <= i < q.order@.len() ==> {
                let field = q.order@[i].field;
                field == "id"@ || field == "created_at"@ || field == "tenant_id"@ || field
                    == "resource_id"@ || field == "resource_type"@ || field == "subject_id"@
                    || field == "subject_type"@ || field == "corrects_id"@ || field == "status"@
            },
{
    law_page_reads_whole_records(
        kind,
        keyset_safe,
        gts_id,
        q,
        metadata_filter,
        t,
    );
    lemma_ordered_at(q.order@);
    assert forall|i: int| #![trigger q.order@[i]] 0 <= i < q.order@.len() implies {
        let field = q.order@[i].field;
        field == "id"@ || field == "created_at"@ || field == "tenant_id"@ || field
            == "resource_id"@ || field == "resource_type"@ || field == "subject_id"@ || field
            == "subject_type"@ || field == "corrects_id"@ || field == "status"@
    } by {
        assert(t.orders[i] == (ExprTree::Custom(q.order@[i].field), q.order@[i].dir));
        law_fields_that_may_be_named(q.order@[i].field);
    }
}

/// A page reads whole records of `usage_records`, all columns in their order, and
/// one more of them than it holds, short of the largest number.
pub proof fn law_page_reads_whole_records<
    K: Fn(&str) -> Option<FieldKind>,
    S: Fn(&str) -> bool,
>(
    kind: K,
    keyset_safe: S,
    gts_id: Seq<char>,
    q: ListQuery,
    metadata_filter: Seq<MetadataFilter>,
    t: SelectTree,
)
    requires
        list_outcome(
            kind,
            keyset_safe,
            gts_id,
            q,
            metadata_filter,
            Ok::<SelectTree, ErrorView>(t),
        ),
    ensures
        t.selects == seq![
            (ExprTree::Column("id"@), None::<Seq<char>>),
            (ExprTree::Column("tenant_id"@), None),
            (ExprTree::Column("gts_id"@), None),
            (ExprTree::Column("value"@), None),
            (ExprTree::Column("created_at"@), None),
            (ExprTree::Column("resource_id"@), None),
            (ExprTree::Column("resource_type"@), None),
            (ExprTree::Column("subject_id"@), None),
            (ExprTree::Column("subject_type"@), None),
            (ExprTree::Column("idempotency_key"@), None),
            (ExprTree::Column("corrects_id"@), None),
            (ExprTree::Column("status"@), None),
            (ExprTree::Column("metadata"@), None),
            (ExprTree::Column("ingested_at"@), None),
            (ExprTree::Column("version"@), None),
        ],
        t.from == seq!["usage_records"@],
        t.groups.len() == 0,
        q.limit < u64::MAX ==> t.limit == Some((q.limit + 1) as u64),
        q.limit == u64::MAX ==> t.limit == Some(u64::MAX),
        Ok::<Seq<(ExprTree, SortDir)>, Seq<char>>(t.orders) == record_order(q.order@),
{
    law_statements_read_whole_rows(Seq::empty(), Seq::empty());
    let base = list_base(gts_id, q.limit);
    let typed = with_filter(base, q.filter)->Ok_0;
    let unpaged = conditioned(typed, metadata_tree(metadata_filter));
    let c = choose|c: Result<SelectTree, ErrorView>| #[trigger]
        cursor_outcome(kind, keyset_safe, q, unpaged, c) && Ok::<SelectTree, ErrorView>(t) == (
        match c {
            Err(e) => Err::<SelectTree, ErrorView>(e),
            Ok(paged) => match record_order(q.order@) {
                Err(why) => Err(ErrorView::Internal(why)),
                Ok(orders) => Ok(SelectTree { orders: paged.orders + orders, ..paged }),
            },
        });
    let paged = c->Ok_0;
    assert(paged.orders =~= Seq::empty());
    assert(t.orders =~= record_order(q.order@)->Ok_0);
}

/// Metadata filters hold where each of them does.
pub proof fn lemma_metadata_holds(filters: Seq<MetadataFilter>, leaf: spec_fn(ExprTree) -> Truth)
    ensures
        metadata_truth(filters, leaf) is True <==> forall|i: int|
            0 <= i < filters.len() ==> leaf(
                metadata_filter_expr((#[trigger] filters[i]).key@, texts(filters[i].values@)),
            ) is True,
    decreases filters.len(),
{
    if filters.len() > 0 {
        let front = filters.drop_last();
        lemma_metadata_holds(front, leaf);
        if metadata_truth(filters, leaf) is True {
            assert forall|i: int| 0 <= i < filters.len() implies leaf(
                metadata_filter_expr((#[trigger] filters[i]).key@, texts(filters[i].values@)),
            ) is True by {
                if i < front.len() {
                    assert(front[i] == filters[i]);
                }
            }
        }
        if forall|i: int|
            0 <= i < filters.len() ==> leaf(
                metadata_filter_expr((#[trigger] filters[i]).key@, texts(filters[i].values@)),
            ) is True {
            assert forall|i: int| 0 <= i < front.len() implies leaf(
                metadata_filter_expr((#[trigger] front[i]).key@, texts(front[i].values@)),
            ) is True by {
                assert(front[i] == filters[i]);
            }
            assert(leaf(
                metadata_filter_expr(
                    filters[filters.len() - 1].key@,
                    texts(filters[filters.len() - 1].values@),
                ),
            ) is True);
        }
    }
}

/// A metadata filter asks whether the value under its key is one of its values,
/// key and values bound as texts; one without values never holds.
pub proof fn law_metadata_filter_asks_for_its_values(key: Seq<char>, values: Seq<Seq<char>>)
    ensures
        values.len() == 0 ==> metadata_filter_expr(key, values) == ExprTree::Custom("FALSE"@),
        values.len() > 0 ==> {
            &&& metadata_filter_expr(key, values) is CustomWithExpr
            &&& metadata_filter_expr(key, values)->CustomWithExpr_0
                == "arrayElement(metadata, ?) IN ("@ + joined(slots(values.len()), ", "@) + ")"@
            &&& metadata_filter_expr(key, values)->CustomWithExpr_1.len() == values.len() + 1
            &&& metadata_filter_expr(key, values)->CustomWithExpr_1[0] == ExprTree::Value(
                DatumView::Text(Some(key)),
            )
            &&& forall|i: int|
                0 <= i < values.len() ==> #[trigger] metadata_filter_expr(
                    key,
                    values,
                )->CustomWithExpr_1[i + 1] == ExprTree::Value(DatumView::Text(Some(values[i])))
        },
        slots(values.len()).len() == values.len(),
        forall|i: int| 0 <= i < values.len() ==> #[trigger] slots(values.len())[i] == "?"@,
{
}

/// A page reads exactly the rows of the usage type on which the filter holds, on
/// which each of the metadata filters holds, and which stand behind the cursor
/// where there is one: the usage type is compared with the column `gts_id`. (A
/// filter that is a disjunction of nothing, or the negation of a conjunction of
/// nothing, is left out of the statement.)
pub proof fn law_page_asks_this_of_each_row<
    K: Fn(&str) -> Option<FieldKind>,
    S: Fn(&str) -> bool,
>(
    kind: K,
    keyset_safe: S,
    gts_id: Seq<char>,
    q: ListQuery,
    metadata_filter: Seq<MetadataFilter>,
    t: SelectTree,
    leaf: spec_fn(ExprTree) -> Truth,
)
    requires
        list_outcome(
            kind,
            keyset_safe,
            gts_id,
            q,
            metadata_filter,
            Ok::<SelectTree, ErrorView>(t),
        ),
        filter_is_added(q.filter),
    ensures
        ({
            let of_type = leaf(
                ExprTree::Binary(
                    Box::new(ExprTree::Column("gts_id"@)),
                    Comparison::Equal,
                    Box::new(ExprTree::Value(DatumView::Text(Some(gts_id)))),
                ),
            ) is True;
            let filtered = q.filter matches Some(Ok(node)) ==> condition_truth(
                filter_tree(RecordColumns, node)->Ok_0,
                leaf,
            ) is True;
            let labelled = forall|i: int|
                0 <= i < metadata_filter.len() ==> leaf(
                    metadata_filter_expr(
                        (#[trigger] metadata_filter[i]).key@,
                        texts(metadata_filter[i].values@),
                    ),
                ) is True;
            &&& where_truth(t, leaf) is True ==> of_type && filtered && labelled
            &&& q.cursor is None ==> (where_truth(t, leaf) is True <==> of_type && filtered
                && labelled)
            &&& q.cursor matches Some(cursor) ==> exists|parts: KeysetParts| #[trigger]
                keyset_outcome(
                    (KeysetRules { col: record_column, kind, keyset_safe }),
                    order_pairs(q.order@),
                    cursor@.k,
                    Ok::<KeysetParts, Seq<char>>(parts),
                ) && (where_truth(t, leaf) is True <==> of_type && filtered && labelled && leaf(
                    keyset_expr(parts),
                ) is True)
        }),
        order_pairs(q.order@).len() == q.order@.len(),
        forall|i: int|
            0 <= i < q.order@.len() ==> #[trigger] order_pairs(q.order@)[i] == (
                q.order@[i].field,
                q.order@[i].dir == SortDir::Asc,
            ),
{
    law_page_reads_what_was_asked_for(
        kind,
        keyset_safe,
        gts_id,
        q,
        metadata_filter,
        t,
        leaf,
    );
    lemma_metadata_holds(metadata_filter, leaf);
    if let Some(Ok(node)) = q.filter {
        law_translation_keeps_the_meaning(RecordColumns, node, leaf);
    }
    let behind = choose|behind: Truth| #[trigger]
        is_cursor_truth(kind, keyset_safe, q, leaf, behind) && where_truth(t, leaf) == truth_and(
            truth_and(
                truth_and(
                    leaf(text_comparison(UsageRecords::GtsId.spec_iden(), gts_id)),
                    optional_filter_truth(q.filter, leaf),
                ),
                metadata_truth(metadata_filter, leaf),
            ),
            behind,
        );
    assert(is_cursor_truth(kind, keyset_safe, q, leaf, behind));
}

/// A list is refused where its filter, its cursor or its order is, with the reason
/// of the first of these; and without a cursor it is accepted wherever filter and
/// order are.
pub proof fn law_list_is_refused_with_its_reason<
    K: Fn(&str) -> Option<FieldKind>,
    S: Fn(&str) -> bool,
>(
    kind: K,
    keyset_safe: S,
    gts_id: Seq<char>,
    q: ListQuery,
    metadata_filter: Seq<MetadataFilter>,
    outcome: Result<SelectTree, ErrorView>,
)
    requires
        list_outcome(kind, keyset_safe, gts_id, q, metadata_filter, outcome),
    ensures
        q.filter matches Some(Err(why)) ==> outcome == Err::<SelectTree, ErrorView>(
            ErrorView::Internal("invalid filter: "@ + why@),
        ),
        q.filter matches Some(Ok(node)) ==> (filter_tree(RecordColumns, node) matches Err(why)
            ==> outcome == Err::<SelectTree, ErrorView>(ErrorView::Internal(why))),
        q.filter is None && q.cursor is Some ==> {
            let cursor = q.cursor->0@;
            &&& cursor.d != "fwd"@ ==> outcome == Err::<SelectTree, ErrorView>(
                ErrorView::Internal(
                    "unsupported cursor direction `"@ + cursor.d
                        + "`: only forward paging is supported"@,
                ),
            )
            &&& cursor.d == "fwd"@ && cursor.f != optional_text(q.filter_hash) ==> outcome == Err::<
                SelectTree,
                ErrorView,
            >(ErrorView::Internal("cursor filter hash mismatch"@))
            &&& cursor.d == "fwd"@ && cursor.f == optional_text(q.filter_hash)
                && !q.cursor_order_matches ==> outcome == Err::<SelectTree, ErrorView>(
                ErrorView::Internal("cursor sort order mismatch"@),
            )
        },
        outcome is Ok ==> (q.cursor matches Some(cursor) ==> cursor@.d == "fwd"@ && cursor@.f
            == optional_text(q.filter_hash) && q.cursor_order_matches),
        q.filter is None && q.cursor is None ==> {
            &&& q.order@.len() == 0 ==> outcome == Err::<SelectTree, ErrorView>(
                ErrorView::Internal("order must not be empty"@),
            )
            &&& outcome is Ok <==> q.order@.len() > 0 && forall|i: int|
                0 <= i < q.order@.len() ==> record_column_text((#[trigger] q.order@[i]).field)
                    is Some
            &&& q.order@.len() > 0 ==> (outcome matches Err(e) ==> exists|i: int|
                0 <= i < q.order@.len() && record_column_text((#[trigger] q.order@[i]).field)
                    is None && e == ErrorView::Internal(
                    "order field not allowlisted: "@ + q.order@[i].field,
                ))
        },
{
    lemma_ordered_at(q.order@);
    if outcome is Ok && q.filter is None && q.cursor is None {
        law_page_is_ordered_as_asked(
            kind,
            keyset_safe,
            gts_id,
            q,
            metadata_filter,
            outcome->Ok_0,
        );
        assert forall|i: int| 0 <= i < q.order@.len() implies record_column_text(
            (#[trigger] q.order@[i]).field,
        ) is Some by {
            law_fields_that_may_be_named(q.order@[i].field);
        }
    }
}

/// What is sent for a statement is its text, qualified with `FINAL`, with an
/// argument for each of its values, in their order; and nothing is sent only where
/// one of the values cannot be given.
pub proof fn law_query_sends_its_statement(
    r: Result<clickhouse::query::Query, UsageCollectorPluginError>,
    t: SelectTree,
)
    requires
        is_select_query(r, t),
    ensures
        r matches Ok(q) ==> query_text(q) == with_final(rendered_select(select_shape(t)).0)
            && query_args(q).len() == statement_data(t).len() && (forall|i: int|
            0 <= i < statement_data(t).len() ==> datum_arg(statement_data(t)[i]) == Some(
                #[trigger] query_args(q)[i],
            )),
        r is Err ==> exists|i: int|
            0 <= i < statement_data(t).len() && datum_arg(#[trigger] statement_data(t)[i]) is None,
        r matches Err(e) ==> e@ is Internal,
{
    lemma_data_args_at(statement_data(t));
}

proof fn lemma_data_args_at(data: Seq<DatumView>)
    ensures
        data_args(data) matches Some(args) ==> args.len() == data.len() && forall|i: int|
            0 <= i < data.len() ==> datum_arg(data[i]) == Some(#[trigger] args[i]),
        data_args(data) is None ==> exists|i: int|
            0 <= i < data.len() && datum_arg(#[trigger] data[i]) is None,
    decreases data.len(),
{
    if data.len() > 0 {
        let front = data.drop_last();
        let last = data.len() - 1;
        lemma_data_args_at(front);
        match data_args(data) {
            Some(args) => {
                let fewer = data_args(front)->0;
                assert forall|i: int| 0 <= i < data.len() implies datum_arg(data[i]) == Some(
                    #[trigger] args[i],
                ) by {
                    if i < last {
                        assert(args[i] == fewer[i]);
                        assert(front[i] == data[i]);
                    }
                }
            },
            None => {
                if data_args(front) is None {
                    let i = choose|i: int|
                        0 <= i < front.len() && datum_arg(#[trigger] front[i]) is None;
                    assert(datum_arg(data[i]) is None);
                } else {
                    assert(datum_arg(data[last]) is None);
                }
            },
        }
    }
}

/// The query of a page is what is sent for its statement; without a statement, the
/// reason is told.
pub proof fn law_page_sends_its_statement<K: Fn(&str) -> Option<FieldKind>, S: Fn(&str) -> bool>(
    kind: K,
    keyset_safe: S,
    gts_id: Seq<char>,
    q: ListQuery,
    metadata_filter: Seq<MetadataFilter>,
    r: Result<clickhouse::query::Query, UsageCollectorPluginError>,
)
    requires
        list_query_outcome(kind, keyset_safe, gts_id, q, metadata_filter, r),
    ensures
        r matches Ok(sent) ==> exists|t: SelectTree| #[trigger]
            list_outcome(
                kind,
                keyset_safe,
                gts_id,
                q,
                metadata_filter,
                Ok::<SelectTree, ErrorView>(t),
            ) && query_text(sent) == with_final(rendered_select(select_shape(t)).0) && query_args(
                sent,
            ).len() == statement_data(t).len() && (forall|i: int|
                0 <= i < statement_data(t).len() ==> datum_arg(statement_data(t)[i]) == Some(
                    #[trigger] query_args(sent)[i],
                )),
        r matches Err(e) ==> list_outcome(
            kind,
            keyset_safe,
            gts_id,
            q,
            metadata_filter,
            Err::<SelectTree, ErrorView>(e@),
        ),
{
    let outcome = choose|outcome: Result<SelectTree, ErrorView>| #[trigger]
        list_outcome(kind, keyset_safe, gts_id, q, metadata_filter, outcome) && match outcome {
            Ok(t) => is_select_query(r, t),
            Err(why) => r matches Err(e) && e@ == why,
        };
    if let Ok(t) = outcome {
        law_page_binds_what_was_asked_for(kind, keyset_safe, gts_id, q, metadata_filter, t);
        law_query_sends_its_statement(r, t);
    }
}

/// A page is refused for these reasons and no other: its filter, the direction or
/// the filter or the order of its cursor, the keys of its cursor, or its order.
pub proof fn law_list_is_refused_for_no_other_reason<
    K: Fn(&str) -> Option<FieldKind>,
    S: Fn(&str) -> bool,
>(
    kind: K,
    keyset_safe: S,
    gts_id: Seq<char>,
    q: ListQuery,
    metadata_filter: Seq<MetadataFilter>,
    e: ErrorView,
)
    requires
        list_outcome(
            kind,
            keyset_safe,
            gts_id,
            q,
            metadata_filter,
            Err::<SelectTree, ErrorView>(e),
        ),
    ensures
        ({
            ||| q.filter matches Some(Err(why)) && e == ErrorView::Internal(
                "invalid filter: "@ + why@,
            )
            ||| q.filter matches Some(Ok(node)) && (filter_tree(RecordColumns, node) matches Err(
                why,
            ) && e == ErrorView::Internal(why))
            ||| q.cursor matches Some(c) && c@.d != "fwd"@ && e == ErrorView::Internal(
                "unsupported cursor direction `"@ + c@.d + "`: only forward paging is supported"@,
            )
            ||| q.cursor matches Some(c) && c@.f != optional_text(q.filter_hash) && e
                == ErrorView::Internal("cursor filter hash mismatch"@)
            ||| q.cursor is Some && !q.cursor_order_matches && e == ErrorView::Internal(
                "cursor sort order mismatch"@,
            )
            ||| q.cursor matches Some(c) && exists|why: Seq<char>|
                e == ErrorView::Internal(why) && #[trigger] keyset_outcome(
                    (KeysetRules { col: record_column, kind, keyset_safe }),
                    order_pairs(q.order@),
                    c@.k,
                    Err::<KeysetParts, Seq<char>>(why),
                )
            ||| q.order@.len() == 0 && e == ErrorView::Internal("order must not be empty"@)
            ||| exists|i: int|
                0 <= i < q.order@.len() && record_column_text((#[trigger] q.order@[i]).field)
                    is None && e == ErrorView::Internal(
                    "order field not allowlisted: "@ + q.order@[i].field,
                )
        }),
{
    lemma_ordered_at(q.order@);
}

} // verus!
