//! Following the cursors from page to page.
use crate::entity::RowView;
use crate::mapper::row_key;
use crate::model::{Candidate, ErrorView, UsageCollectorPluginError, UsageRecordView};
use crate::query::bind::SqlBindView;
use crate::query::keyset::{
    encodes, has_kind, keyset_expr, keyset_outcome, law_cursor_of_a_row_holds_its_values,
    names_column, next_cursor_view, record_field_kind, row_bind, CursorV1, CursorView, FieldKind,
    FieldKindView, KeysetParts, KeysetRules, OrderKeyView,
};
use crate::query::meaning::{truth_and, Truth};
use crate::query::schema::UsageRecords;
use crate::query::selection::where_truth;
use crate::query::statement::text_comparison;
use crate::query::translate::{record_column, record_column_text};
use crate::record_store::list::{
    filter_is_added, is_cursor_truth, law_page_reads_what_was_asked_for, list_outcome,
    metadata_truth, optional_filter_truth, order_pairs, ListQuery, MetadataFilter,
};
use crate::record_store::page::{
    items_outcome, law_row_keys_follow_the_order, models_of_rows, page_outcome, record_views,
    row_keys, shown_rows, token_outcome, Page,
};
use crate::sql::{ExprTree, SelectTree, SortDir};
use crate::text::optional_text;
use vstd::prelude::*;
use vstd::string::*;

verus! {

// ---- orders ----

/// Of two values of a column at most one comes before the other.
pub open spec fn is_asymmetric(less: spec_fn(SqlBindView, SqlBindView) -> bool) -> bool {
    forall|a: SqlBindView, b: SqlBindView| #[trigger] less(a, b) ==> !less(b, a)
}

/// The first place at which the tuples differ decides.
pub open spec fn less_at(
    less: spec_fn(SqlBindView, SqlBindView) -> bool,
    a: Seq<SqlBindView>,
    b: Seq<SqlBindView>,
    i: int,
) -> bool {
    &&& 0 <= i < a.len()
    &&& less(a[i], b[i])
    &&& forall|j: int| 0 <= j < i ==> #[trigger] a[j] == b[j]
}

/// One tuple comes before the other.
pub open spec fn tuple_less(
    less: spec_fn(SqlBindView, SqlBindView) -> bool,
    a: Seq<SqlBindView>,
    b: Seq<SqlBindView>,
) -> bool {
    exists|i: int| #[trigger] less_at(less, a, b, i)
}

/// The values of a row under the fields of an order.
pub open spec fn row_tuple(row: RowView, order: Seq<OrderKeyView>) -> Seq<SqlBindView> {
    Seq::new(order.len(), |i: int| row_bind(row, order[i].field))
}

/// A tuple stands behind another, in a direction.
pub open spec fn stands_behind(
    less: spec_fn(SqlBindView, SqlBindView) -> bool,
    ascending: bool,
    tuple: Seq<SqlBindView>,
    other: Seq<SqlBindView>,
) -> bool {
    if ascending {
        tuple_less(less, other, tuple)
    } else {
        tuple_less(less, tuple, other)
    }
}

/// The direction of an order is that of its first key.
pub open spec fn ascends_first(order: Seq<OrderKeyView>) -> bool {
    order[0].dir == SortDir::Asc
}

/// Each row stands behind those before it: the rows are in the order, and no two
/// have the same values under it.
pub open spec fn is_ordered(
    less: spec_fn(SqlBindView, SqlBindView) -> bool,
    order: Seq<OrderKeyView>,
    rows: Seq<RowView>,
) -> bool {
    forall|i: int, j: int|
        0 <= i < j < rows.len() ==> stands_behind(
            less,
            ascends_first(order),
            row_tuple(#[trigger] rows[j], order),
            row_tuple(#[trigger] rows[i], order),
        )
}

// ---- what the server reads ----

/// The rows on which a predicate holds, in their order.
pub open spec fn selected(rows: Seq<RowView>, holds: spec_fn(RowView) -> bool) -> Seq<RowView>
    decreases rows.len(),
{
    if rows.len() == 0 {
        Seq::empty()
    } else {
        let front = selected(rows.drop_last(), holds);
        if holds(rows.last()) {
            front.push(rows.last())
        } else {
            front
        }
    }
}

/// The first rows, up to a count.
pub open spec fn first_rows(rows: Seq<RowView>, n: int) -> Seq<RowView> {
    if rows.len() > n {
        rows.take(n)
    } else {
        rows
    }
}

/// The rows on which the condition of a statement is true, where expressions
/// yield `leaf` of a row.
pub open spec fn meets(
    leaf: spec_fn(RowView) -> spec_fn(ExprTree) -> Truth,
    t: SelectTree,
) -> spec_fn(RowView) -> bool {
    |row: RowView| where_truth(t, leaf(row)) is True
}

/// What a statement reads of the rows of a table, which are given in the order
/// of the statement.
pub open spec fn answer_to(
    table: Seq<RowView>,
    leaf: spec_fn(RowView) -> spec_fn(ExprTree) -> Truth,
    t: SelectTree,
) -> Seq<RowView> {
    let read = selected(table, meets(leaf, t));
    match t.limit {
        Some(n) => first_rows(read, n as int),
        None => read,
    }
}

/// The keyset predicate is over the columns of the order.
pub open spec fn is_over(parts: KeysetParts, order: Seq<OrderKeyView>) -> bool {
    &&& parts.columns.len() == order.len()
    &&& parts.binds.len() == order.len()
    &&& forall|i: int|
        0 <= i < order.len() ==> record_column_text(order[i].field) == Some(
            #[trigger] parts.columns[i],
        )
}

/// A keyset predicate is true on the rows of the table whose values stand behind
/// its keys, and on no other.
pub open spec fn compares_tuples(
    less: spec_fn(SqlBindView, SqlBindView) -> bool,
    table: Seq<RowView>,
    leaf: spec_fn(RowView) -> spec_fn(ExprTree) -> Truth,
    order: Seq<OrderKeyView>,
) -> bool {
    forall|row: RowView, parts: KeysetParts|
        table.contains(row) && is_over(parts, order) ==> ((#[trigger] leaf(row)(
            keyset_expr(parts),
        )) is True <==> stands_behind(
            less,
            parts.ascending,
            row_tuple(row, order),
            parts.binds,
        ))
}

/// The rows that are asked for: those of the usage type on which the filter and
/// every metadata filter hold.
pub open spec fn asks_for(
    gts_id: Seq<char>,
    q: ListQuery,
    metadata_filter: Seq<MetadataFilter>,
    leaf: spec_fn(RowView) -> spec_fn(ExprTree) -> Truth,
) -> spec_fn(RowView) -> bool {
    |row: RowView|
        {
            &&& leaf(row)(text_comparison(UsageRecords::GtsId.spec_iden(), gts_id)) is True
            &&& optional_filter_truth(q.filter, leaf(row)) is True
            &&& metadata_truth(metadata_filter, leaf(row)) is True
        }
}

// ---- from page to page ----

/// One page: what was asked for, the statement, the rows that were read and the
/// page that was made of them.
pub struct PageTurn {
    pub query: ListQuery,
    pub statement: SelectTree,
    pub rows: Seq<RowView>,
    pub page: Page,
}

/// The same is asked for, but for the cursor.
pub open spec fn same_request(a: ListQuery, b: ListQuery) -> bool {
    &&& a.filter == b.filter
    &&& a.order@ == b.order@
    &&& a.signed_tokens@ == b.signed_tokens@
    &&& optional_text(a.filter_hash) == optional_text(b.filter_hash)
    &&& a.limit == b.limit
}

/// Different cursors are encoded differently.
pub open spec fn is_lossless<E: Fn(CursorV1) -> Result<String, String>>(encode: E) -> bool {
    forall|a: CursorView, b: CursorView, token: Seq<char>| #[trigger]
        encodes(encode, a, Ok::<Seq<char>, Seq<char>>(token)) && #[trigger] encodes(
            encode,
            b,
            Ok::<Seq<char>, Seq<char>>(token),
        ) ==> a == b
}

/// A page is made of the rows that its statement reads.
pub open spec fn is_turn<
    V: Fn(Candidate) -> Result<(), String>,
    E: Fn(CursorV1) -> Result<String, String>,
    K: Fn(&str) -> Option<FieldKind>,
    S: Fn(&str) -> bool,
>(
    validate: V,
    encode: E,
    kind: K,
    keyset_safe: S,
    gts_id: Seq<char>,
    q: ListQuery,
    metadata_filter: Seq<MetadataFilter>,
    table: Seq<RowView>,
    leaf: spec_fn(RowView) -> spec_fn(ExprTree) -> Truth,
    turn: PageTurn,
) -> bool {
    &&& same_request(turn.query, q)
    &&& list_outcome(
        kind,
        keyset_safe,
        gts_id,
        turn.query,
        metadata_filter,
        Ok::<SelectTree, ErrorView>(turn.statement),
    )
    &&& turn.rows == answer_to(table, leaf, turn.statement)
    &&& page_outcome(
        validate,
        encode,
        turn.query,
        turn.rows,
        Ok::<Page, UsageCollectorPluginError>(turn.page),
    )
}

/// A page is asked for by the cursor that the page before it names.
pub open spec fn follows<E: Fn(CursorV1) -> Result<String, String>>(
    encode: E,
    before: PageTurn,
    turn: PageTurn,
) -> bool {
    &&& before.page.page_info.next_cursor is Some
    &&& turn.query.cursor is Some
    &&& encodes(
        encode,
        turn.query.cursor->0@,
        Ok::<Seq<char>, Seq<char>>(before.page.page_info.next_cursor->0@),
    )
}

/// Pages from the first, which is asked for without a cursor, each asked for by
/// the cursor of the one before.
pub open spec fn is_paging<
    V: Fn(Candidate) -> Result<(), String>,
    E: Fn(CursorV1) -> Result<String, String>,
    K: Fn(&str) -> Option<FieldKind>,
    S: Fn(&str) -> bool,
>(
    validate: V,
    encode: E,
    kind: K,
    keyset_safe: S,
    gts_id: Seq<char>,
    q: ListQuery,
    metadata_filter: Seq<MetadataFilter>,
    table: Seq<RowView>,
    leaf: spec_fn(RowView) -> spec_fn(ExprTree) -> Truth,
    turns: Seq<PageTurn>,
) -> bool {
    &&& turns.len() > 0
    &&& turns[0].query.cursor is None
    &&& forall|k: int|
        0 <= k < turns.len() ==> is_turn(
            validate,
            encode,
            kind,
            keyset_safe,
            gts_id,
            q,
            metadata_filter,
            table,
            leaf,
            #[trigger] turns[k],
        )
    &&& forall|k: int|
        0 <= k < turns.len() - 1 ==> follows(encode, #[trigger] turns[k], turns[k + 1])
}

/// The records of the pages, one after the other.
pub open spec fn all_items(turns: Seq<PageTurn>) -> Seq<UsageRecordView>
    decreases turns.len(),
{
    if turns.len() == 0 {
        Seq::empty()
    } else {
        all_items(turns.drop_last()) + record_views(turns.last().page.items@)
    }
}

// ---- proofs ----

proof fn lemma_tuple_order_is_strict(
    less: spec_fn(SqlBindView, SqlBindView) -> bool,
    a: Seq<SqlBindView>,
    b: Seq<SqlBindView>,
)
    requires
        is_asymmetric(less),
        a.len() == b.len(),
        tuple_less(less, a, b),
    ensures
        !tuple_less(less, b, a),
        a != b,
{
    let i = choose|i: int| #[trigger] less_at(less, a, b, i);
    if a == b {
        assert(less(a[i], b[i]));
    }
    if tuple_less(less, b, a) {
        let j = choose|j: int| #[trigger] less_at(less, b, a, j);
        if i < j {
            assert(b[i] == a[i]);
        } else if j < i {
            assert(a[j] == b[j]);
            assert(less(b[j], a[j]));
        } else {
            assert(less(a[i], b[i]));
            assert(less(b[i], a[i]));
        }
    }
}

proof fn lemma_behind_is_strict(
    less: spec_fn(SqlBindView, SqlBindView) -> bool,
    ascending: bool,
    a: Seq<SqlBindView>,
    b: Seq<SqlBindView>,
)
    requires
        is_asymmetric(less),
        a.len() == b.len(),
    ensures
        stands_behind(less, ascending, a, b) ==> !stands_behind(less, ascending, b, a),
        !stands_behind(less, ascending, a, a),
{
    if tuple_less(less, a, b) {
        lemma_tuple_order_is_strict(less, a, b);
    }
    if tuple_less(less, b, a) {
        lemma_tuple_order_is_strict(less, b, a);
    }
    if tuple_less(less, a, a) {
        lemma_tuple_order_is_strict(less, a, a);
    }
}

/// What is selected is among the rows, and the predicate holds on it.
pub proof fn lemma_selected_from(rows: Seq<RowView>, holds: spec_fn(RowView) -> bool)
    ensures
        forall|i: int|
            0 <= i < selected(rows, holds).len() ==> rows.contains(#[trigger] selected(rows, holds)[i])
                && holds(selected(rows, holds)[i]),
    decreases rows.len(),
{
    if rows.len() > 0 {
        let front = rows.drop_last();
        lemma_selected_from(front, holds);
        let all = selected(rows, holds);
        let some = selected(front, holds);
        assert forall|i: int| 0 <= i < all.len() implies rows.contains(#[trigger] all[i]) && holds(
            all[i],
        ) by {
            if i < some.len() {
                assert(all[i] == some[i]);
                let j = choose|j: int| 0 <= j < front.len() && front[j] == some[i];
                assert(rows[j] == some[i]);
            } else {
                assert(rows[rows.len() - 1] == all[i]);
            }
        }
    }
}

proof fn lemma_selected_is_ordered(
    less: spec_fn(SqlBindView, SqlBindView) -> bool,
    order: Seq<OrderKeyView>,
    rows: Seq<RowView>,
    holds: spec_fn(RowView) -> bool,
)
    requires
        is_ordered(less, order, rows),
    ensures
        is_ordered(less, order, selected(rows, holds)),
    decreases rows.len(),
{
    if rows.len() > 0 {
        let front = rows.drop_last();
        assert(is_ordered(less, order, front));
        lemma_selected_is_ordered(less, order, front, holds);
        lemma_selected_from(front, holds);
        let all = selected(rows, holds);
        let some = selected(front, holds);
        assert forall|i: int, j: int| 0 <= i < j < all.len() implies stands_behind(
            less,
            ascends_first(order),
            row_tuple(#[trigger] all[j], order),
            row_tuple(#[trigger] all[i], order),
        ) by {
            assert(all[i] == some[i]);
            if j < some.len() {
                assert(all[j] == some[j]);
            } else {
                let k = choose|k: int| 0 <= k < front.len() && front[k] == some[i];
                assert(rows[k] == some[i]);
                assert(rows[rows.len() - 1] == all[j]);
            }
        }
    }
}

/// Selecting by two predicates is selecting by one and then by the other.
proof fn lemma_selected_twice(
    rows: Seq<RowView>,
    first: spec_fn(RowView) -> bool,
    second: spec_fn(RowView) -> bool,
    both: spec_fn(RowView) -> bool,
)
    requires
        forall|i: int|
            0 <= i < rows.len() ==> both(#[trigger] rows[i]) == (first(rows[i]) && second(rows[i])),
    ensures
        selected(rows, both) == selected(selected(rows, first), second),
    decreases rows.len(),
{
    if rows.len() > 0 {
        let front = rows.drop_last();
        assert forall|i: int| 0 <= i < front.len() implies both(#[trigger] front[i]) == (first(
            front[i],
        ) && second(front[i])) by {
            assert(rows[i] == front[i]);
        }
        lemma_selected_twice(front, first, second, both);
        let some = selected(front, first);
        assert(some.push(rows.last()).drop_last() =~= some);
        assert(both(rows[rows.len() - 1]) == (first(rows.last()) && second(rows.last())));
    }
}

proof fn lemma_selected_none(rows: Seq<RowView>, holds: spec_fn(RowView) -> bool)
    requires
        forall|i: int| 0 <= i < rows.len() ==> !holds(#[trigger] rows[i]),
    ensures
        selected(rows, holds) == Seq::<RowView>::empty(),
    decreases rows.len(),
{
    if rows.len() > 0 {
        let front = rows.drop_last();
        assert forall|i: int| 0 <= i < front.len() implies !holds(#[trigger] front[i]) by {
            assert(rows[i] == front[i]);
        }
        lemma_selected_none(front, holds);
        assert(!holds(rows[rows.len() - 1]));
    }
}

/// Where a predicate holds on the rows from a place on and on none before it,
/// those rows are selected.
proof fn lemma_selected_tail(rows: Seq<RowView>, holds: spec_fn(RowView) -> bool, n: int)
    requires
        0 <= n <= rows.len(),
        forall|i: int| 0 <= i < rows.len() ==> (holds(#[trigger] rows[i]) <==> i >= n),
    ensures
        selected(rows, holds) == rows.skip(n),
    decreases rows.len(),
{
    if n == rows.len() {
        lemma_selected_none(rows, holds);
        assert(rows.skip(n) =~= Seq::<RowView>::empty());
    } else {
        let front = rows.drop_last();
        assert forall|i: int| 0 <= i < front.len() implies (holds(#[trigger] front[i]) <==> i >= n) by {
            assert(rows[i] == front[i]);
        }
        lemma_selected_tail(front, holds, n);
        assert(holds(rows[rows.len() - 1]));
        assert(rows.skip(n) =~= front.skip(n).push(rows.last()));
    }
}

/// Selecting by predicates that agree on the rows is the same.
proof fn lemma_selected_alike(
    rows: Seq<RowView>,
    a: spec_fn(RowView) -> bool,
    b: spec_fn(RowView) -> bool,
)
    requires
        forall|i: int| 0 <= i < rows.len() ==> a(#[trigger] rows[i]) == b(rows[i]),
    ensures
        selected(rows, a) == selected(rows, b),
    decreases rows.len(),
{
    if rows.len() > 0 {
        let front = rows.drop_last();
        assert forall|i: int| 0 <= i < front.len() implies a(#[trigger] front[i]) == b(front[i]) by {
            assert(rows[i] == front[i]);
        }
        lemma_selected_alike(front, a, b);
        assert(a(rows[rows.len() - 1]) == b(rows[rows.len() - 1]));
    }
}

/// What all pages are asked: the rows of a table that were asked for.
spec fn wanted(
    gts_id: Seq<char>,
    q: ListQuery,
    metadata_filter: Seq<MetadataFilter>,
    table: Seq<RowView>,
    leaf: spec_fn(RowView) -> spec_fn(ExprTree) -> Truth,
) -> Seq<RowView> {
    selected(table, asks_for(gts_id, q, metadata_filter, leaf))
}

/// The first page reads the first rows that were asked for.
proof fn lemma_first_page<K: Fn(&str) -> Option<FieldKind>, S: Fn(&str) -> bool>(
    kind: K,
    keyset_safe: S,
    gts_id: Seq<char>,
    q: ListQuery,
    metadata_filter: Seq<MetadataFilter>,
    table: Seq<RowView>,
    leaf: spec_fn(RowView) -> spec_fn(ExprTree) -> Truth,
    t: SelectTree,
)
    requires
        list_outcome(kind, keyset_safe, gts_id, q, metadata_filter, Ok::<SelectTree, ErrorView>(t)),
        filter_is_added(q.filter),
        q.cursor is None,
        q.limit < u64::MAX,
    ensures
        answer_to(table, leaf, t) == first_rows(
            wanted(gts_id, q, metadata_filter, table, leaf),
            q.limit + 1,
        ),
{
    let asked = asks_for(gts_id, q, metadata_filter, leaf);
    assert forall|i: int| 0 <= i < table.len() implies meets(leaf, t)(#[trigger] table[i]) == asked(
        table[i],
    ) by {
        law_page_reads_what_was_asked_for(
            kind,
            keyset_safe,
            gts_id,
            q,
            metadata_filter,
            t,
            leaf(table[i]),
        );
    }
    lemma_selected_alike(table, meets(leaf, t), asked);
    law_page_reads_what_was_asked_for(
        kind,
        keyset_safe,
        gts_id,
        q,
        metadata_filter,
        t,
        |e: ExprTree| Truth::True,
    );
}

/// The rows that stand behind a row in an ordered sequence are those after it.
proof fn lemma_rows_behind(
    less: spec_fn(SqlBindView, SqlBindView) -> bool,
    order: Seq<OrderKeyView>,
    rows: Seq<RowView>,
    j: int,
    holds: spec_fn(RowView) -> bool,
)
    requires
        is_asymmetric(less),
        is_ordered(less, order, rows),
        0 <= j < rows.len(),
        forall|i: int|
            0 <= i < rows.len() ==> (holds(#[trigger] rows[i]) <==> stands_behind(
                less,
                ascends_first(order),
                row_tuple(rows[i], order),
                row_tuple(rows[j], order),
            )),
    ensures
        selected(rows, holds) == rows.skip(j + 1),
{
    assert forall|i: int| 0 <= i < rows.len() implies (holds(#[trigger] rows[i]) <==> i >= j + 1) by {
        lemma_behind_is_strict(
            less,
            ascends_first(order),
            row_tuple(rows[i], order),
            row_tuple(rows[j], order),
        );
        lemma_behind_is_strict(
            less,
            ascends_first(order),
            row_tuple(rows[j], order),
            row_tuple(rows[i], order),
        );
    }
    lemma_selected_tail(rows, holds, j + 1);
}

/// The statement of a page whose cursor holds the keys of a row is met by the
/// rows that were asked for and stand behind that row.
proof fn lemma_met_behind<K: Fn(&str) -> Option<FieldKind>, S: Fn(&str) -> bool>(
    kind: K,
    keyset_safe: S,
    gts_id: Seq<char>,
    q: ListQuery,
    metadata_filter: Seq<MetadataFilter>,
    less: spec_fn(SqlBindView, SqlBindView) -> bool,
    table: Seq<RowView>,
    leaf: spec_fn(RowView) -> spec_fn(ExprTree) -> Truth,
    t: SelectTree,
    last: RowView,
    row: RowView,
)
    requires
        list_outcome(kind, keyset_safe, gts_id, q, metadata_filter, Ok::<SelectTree, ErrorView>(t)),
        filter_is_added(q.filter),
        compares_tuples(less, table, leaf, q.order@),
        forall|field: Seq<char>, k: FieldKindView| #[trigger]
            has_kind(kind, field, Some(k)) ==> k == record_field_kind(field),
        q.cursor is Some,
        row_keys(last, q.order@) == Ok::<Seq<Seq<char>>, Seq<char>>(q.cursor->0@.k),
        table.contains(row),
    ensures
        meets(leaf, t)(row) <==> asks_for(gts_id, q, metadata_filter, leaf)(row) && stands_behind(
            less,
            ascends_first(q.order@),
            row_tuple(row, q.order@),
            row_tuple(last, q.order@),
        ),
{
    let f = leaf(row);
    let order = q.order@;
    law_page_reads_what_was_asked_for(kind, keyset_safe, gts_id, q, metadata_filter, t, f);
    let behind = choose|behind: Truth| #[trigger]
        is_cursor_truth(kind, keyset_safe, q, f, behind) && where_truth(t, f) == truth_and(
            truth_and(
                truth_and(
                    f(text_comparison(UsageRecords::GtsId.spec_iden(), gts_id)),
                    optional_filter_truth(q.filter, f),
                ),
                metadata_truth(metadata_filter, f),
            ),
            behind,
        );
    let rules = KeysetRules { col: record_column, kind, keyset_safe };
    let pairs = order_pairs(order);
    let keys = q.cursor->0@.k;
    let parts = choose|parts: KeysetParts|
        keyset_outcome(rules, pairs, keys, Ok::<KeysetParts, Seq<char>>(parts)) && behind == f(
            #[trigger] keyset_expr(parts),
        );
    law_row_keys_follow_the_order(last, order);
    assert forall|i: int| 0 <= i < keys.len() implies row_key(last, pairs[i].0)
        == Some(#[trigger] keys[i]) by {
        assert(pairs[i].0 == order[i].field);
    }
    law_cursor_of_a_row_holds_its_values(
        rules,
        pairs,
        keys,
        last,
        Ok::<KeysetParts, Seq<char>>(parts),
    );
    assert(is_over(parts, order)) by {
        assert forall|i: int| 0 <= i < order.len() implies record_column_text(order[i].field)
            == Some(#[trigger] parts.columns[i]) by {
            assert(names_column(record_column, pairs[i].0, Some(parts.columns[i])));
        }
    }
    assert(parts.binds =~= row_tuple(last, order)) by {
        assert forall|i: int| 0 <= i < parts.binds.len() implies #[trigger] parts.binds[i]
            == row_bind(last, order[i].field) by {
            assert(pairs[i].0 == order[i].field);
        }
    }
    assert(parts.ascending == ascends_first(order)) by {
        assert(pairs[0].1 == (order[0].dir == SortDir::Asc));
    }
    assert(leaf(row)(keyset_expr(parts)) is True <==> stands_behind(
        less,
        parts.ascending,
        row_tuple(row, order),
        parts.binds,
    ));
}

/// A page whose cursor holds the keys of a row that was asked for reads the
/// first rows behind it.
proof fn lemma_later_page<K: Fn(&str) -> Option<FieldKind>, S: Fn(&str) -> bool>(
    kind: K,
    keyset_safe: S,
    gts_id: Seq<char>,
    q: ListQuery,
    metadata_filter: Seq<MetadataFilter>,
    less: spec_fn(SqlBindView, SqlBindView) -> bool,
    table: Seq<RowView>,
    leaf: spec_fn(RowView) -> spec_fn(ExprTree) -> Truth,
    t: SelectTree,
    j: int,
)
    requires
        list_outcome(kind, keyset_safe, gts_id, q, metadata_filter, Ok::<SelectTree, ErrorView>(t)),
        filter_is_added(q.filter),
        is_asymmetric(less),
        is_ordered(less, q.order@, table),
        compares_tuples(less, table, leaf, q.order@),
        forall|field: Seq<char>, k: FieldKindView| #[trigger]
            has_kind(kind, field, Some(k)) ==> k == record_field_kind(field),
        q.limit < u64::MAX,
        0 <= j < wanted(gts_id, q, metadata_filter, table, leaf).len(),
        q.cursor is Some,
        row_keys(wanted(gts_id, q, metadata_filter, table, leaf)[j], q.order@) == Ok::<
            Seq<Seq<char>>,
            Seq<char>,
        >(q.cursor->0@.k),
    ensures
        answer_to(table, leaf, t) == first_rows(
            wanted(gts_id, q, metadata_filter, table, leaf).skip(j + 1),
            q.limit + 1,
        ),
{
    let order = q.order@;
    let asked = asks_for(gts_id, q, metadata_filter, leaf);
    let all = wanted(gts_id, q, metadata_filter, table, leaf);
    let last = all[j];
    let behind = |row: RowView|
        stands_behind(
            less,
            ascends_first(order),
            row_tuple(row, order),
            row_tuple(last, order),
        );
    assert forall|i: int| 0 <= i < table.len() implies meets(leaf, t)(#[trigger] table[i]) == (asked(
        table[i],
    ) && behind(table[i])) by {
        lemma_met_behind(
            kind,
            keyset_safe,
            gts_id,
            q,
            metadata_filter,
            less,
            table,
            leaf,
            t,
            last,
            table[i],
        );
    }
    lemma_selected_twice(table, asked, behind, meets(leaf, t));
    lemma_selected_is_ordered(less, order, table, asked);
    lemma_rows_behind(less, order, all, j, behind);
    law_page_reads_what_was_asked_for(
        kind,
        keyset_safe,
        gts_id,
        q,
        metadata_filter,
        t,
        |e: ExprTree| Truth::True,
    );
}

/// Following the cursors gives every record that was asked for once, and in
/// order: the records of the pages, up to one that names no next page, are those
/// of the rows that were asked for.
///
/// The table's rows are given in the order that is asked for, no two with the
/// same values under it, and stay as they are from page to page; the server
/// compares tuples by the same order of values.
pub proof fn law_pages_hold_every_record_once<
    V: Fn(Candidate) -> Result<(), String>,
    E: Fn(CursorV1) -> Result<String, String>,
    K: Fn(&str) -> Option<FieldKind>,
    S: Fn(&str) -> bool,
>(
    validate: V,
    encode: E,
    kind: K,
    keyset_safe: S,
    gts_id: Seq<char>,
    q: ListQuery,
    metadata_filter: Seq<MetadataFilter>,
    less: spec_fn(SqlBindView, SqlBindView) -> bool,
    table: Seq<RowView>,
    leaf: spec_fn(RowView) -> spec_fn(ExprTree) -> Truth,
    turns: Seq<PageTurn>,
)
    requires
        is_paging(
            validate,
            encode,
            kind,
            keyset_safe,
            gts_id,
            q,
            metadata_filter,
            table,
            leaf,
            turns,
        ),
        turns.last().page.page_info.next_cursor is None,
        is_lossless(encode),
        filter_is_added(q.filter),
        is_asymmetric(less),
        is_ordered(less, q.order@, table),
        compares_tuples(less, table, leaf, q.order@),
        forall|field: Seq<char>, k: FieldKindView| #[trigger]
            has_kind(kind, field, Some(k)) ==> k == record_field_kind(field),
        q.limit < u64::MAX,
    ensures
        all_items(turns) == models_of_rows(
            selected(table, asks_for(gts_id, q, metadata_filter, leaf)),
        ),
{
    let n = turns.len() as int;
    lemma_pages_so_far(
        validate,
        encode,
        kind,
        keyset_safe,
        gts_id,
        q,
        metadata_filter,
        less,
        table,
        leaf,
        turns,
        n - 1,
    );
    assert(turns.take(n) =~= turns);
    let all = wanted(gts_id, q, metadata_filter, table, leaf);
    let before = all_items(turns.take(n - 1)).len() as int;
    let rows = turns[n - 1].rows;
    assert(rows.len() <= q.limit);
    assert(rows =~= all.skip(before));
    assert(shown_rows(rows, q.limit) == rows);
    assert(turns.last() == turns[n - 1]);
    assert(turns.drop_last() =~= turns.take(n - 1));
    assert(record_views(turns.last().page.items@) == models_of_rows(rows));
    assert(all_items(turns) =~= models_of_rows(all));
}

/// The pages before one hold the first rows that were asked for, and the page
/// reads on from there.
proof fn lemma_pages_so_far<
    V: Fn(Candidate) -> Result<(), String>,
    E: Fn(CursorV1) -> Result<String, String>,
    K: Fn(&str) -> Option<FieldKind>,
    S: Fn(&str) -> bool,
>(
    validate: V,
    encode: E,
    kind: K,
    keyset_safe: S,
    gts_id: Seq<char>,
    q: ListQuery,
    metadata_filter: Seq<MetadataFilter>,
    less: spec_fn(SqlBindView, SqlBindView) -> bool,
    table: Seq<RowView>,
    leaf: spec_fn(RowView) -> spec_fn(ExprTree) -> Truth,
    turns: Seq<PageTurn>,
    k: int,
)
    requires
        is_paging(
            validate,
            encode,
            kind,
            keyset_safe,
            gts_id,
            q,
            metadata_filter,
            table,
            leaf,
            turns,
        ),
        is_lossless(encode),
        filter_is_added(q.filter),
        is_asymmetric(less),
        is_ordered(less, q.order@, table),
        compares_tuples(less, table, leaf, q.order@),
        forall|field: Seq<char>, k: FieldKindView| #[trigger]
            has_kind(kind, field, Some(k)) ==> k == record_field_kind(field),
        q.limit < u64::MAX,
        0 <= k < turns.len(),
    ensures
        ({
            let all = wanted(gts_id, q, metadata_filter, table, leaf);
            let before = all_items(turns.take(k));
            &&& before.len() <= all.len()
            &&& before == models_of_rows(all.take(before.len() as int))
            &&& turns[k].rows == first_rows(all.skip(before.len() as int), q.limit + 1)
        }),
    decreases k,
{
    let all = wanted(gts_id, q, metadata_filter, table, leaf);
    let turn = turns[k];
    assert(is_turn(
        validate,
        encode,
        kind,
        keyset_safe,
        gts_id,
        q,
        metadata_filter,
        table,
        leaf,
        turn,
    ));
    assert(asks_for(gts_id, turn.query, metadata_filter, leaf) == asks_for(
        gts_id,
        q,
        metadata_filter,
        leaf,
    ));
    if k == 0 {
        assert(turns.take(0) =~= Seq::<PageTurn>::empty());
        lemma_first_page(
            kind,
            keyset_safe,
            gts_id,
            turn.query,
            metadata_filter,
            table,
            leaf,
            turn.statement,
        );
        assert(all.skip(0) =~= all);
        assert(models_of_rows(all.take(0)) =~= Seq::<UsageRecordView>::empty());
    } else {
        lemma_pages_so_far(
            validate,
            encode,
            kind,
            keyset_safe,
            gts_id,
            q,
            metadata_filter,
            less,
            table,
            leaf,
            turns,
            k - 1,
        );
        let prev = turns[k - 1];
        assert(is_turn(
            validate,
            encode,
            kind,
            keyset_safe,
            gts_id,
            q,
            metadata_filter,
            table,
            leaf,
            prev,
        ));
        assert(follows(encode, prev, turns[k - 1 + 1]));
        let start = all_items(turns.take(k - 1)).len() as int;
        lemma_cursor_behind(encode, q, prev, turn, all, start);
        let j = start + q.limit - 1;
        lemma_later_page(
            kind,
            keyset_safe,
            gts_id,
            turn.query,
            metadata_filter,
            less,
            table,
            leaf,
            turn.statement,
            j,
        );
        assert(turns.take(k).drop_last() =~= turns.take(k - 1));
        assert(turns.take(k).last() == prev);
        lemma_items_so_far(validate, q, prev, all, start, all_items(turns.take(k - 1)));
    }
}

/// The cursor that a page names holds the keys of the last row it shows.
proof fn lemma_cursor_behind<E: Fn(CursorV1) -> Result<String, String>>(
    encode: E,
    q: ListQuery,
    prev: PageTurn,
    turn: PageTurn,
    all: Seq<RowView>,
    start: int,
)
    requires
        is_lossless(encode),
        same_request(prev.query, q),
        token_outcome(
            encode,
            prev.query,
            prev.rows,
            Ok::<Option<Seq<char>>, ErrorView>(
                optional_text(prev.page.page_info.next_cursor),
            ),
        ),
        follows(encode, prev, turn),
        0 <= start <= all.len(),
        prev.rows == first_rows(all.skip(start), q.limit + 1),
    ensures
        q.limit > 0,
        prev.rows.len() > q.limit,
        start + q.limit < all.len(),
        row_keys(all[start + q.limit - 1], q.order@) == Ok::<Seq<Seq<char>>, Seq<char>>(
            turn.query.cursor->0@.k,
        ),
{
    let token = prev.page.page_info.next_cursor->0@;
    assert(optional_text(prev.page.page_info.next_cursor) == Some(token));
    let rest = all.skip(start);
    assert(prev.rows[q.limit - 1] == all[start + q.limit - 1]);
    let keys = row_keys(all[start + q.limit - 1], q.order@)->Ok_0;
    let cursor = next_cursor_view(
        q.order@,
        q.signed_tokens@,
        keys,
        optional_text(q.filter_hash),
    )->Ok_0;
    assert(encodes(encode, cursor, Ok::<Seq<char>, Seq<char>>(token)));
}

/// A page that names a next one holds the next rows that were asked for.
proof fn lemma_items_so_far<V: Fn(Candidate) -> Result<(), String>>(
    validate: V,
    q: ListQuery,
    prev: PageTurn,
    all: Seq<RowView>,
    start: int,
    before: Seq<UsageRecordView>,
)
    requires
        prev.query.limit == q.limit,
        items_outcome(
            validate,
            shown_rows(prev.rows, prev.query.limit),
            Ok::<Seq<UsageRecordView>, ErrorView>(record_views(prev.page.items@)),
        ),
        0 <= start,
        start == before.len(),
        start + q.limit < all.len(),
        prev.rows.len() > q.limit,
        prev.rows == first_rows(all.skip(start), q.limit + 1),
        before == models_of_rows(all.take(start)),
    ensures
        before + record_views(prev.page.items@) == models_of_rows(all.take(start + q.limit)),
        (before + record_views(prev.page.items@)).len() == start + q.limit,
{
    let shown = shown_rows(prev.rows, q.limit);
    assert(shown =~= all.subrange(start, start + q.limit));
    assert(before + models_of_rows(shown) =~= models_of_rows(all.take(start + q.limit)));
}

} // verus!
