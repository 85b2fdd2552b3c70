//! Reading one record, and deactivating one with its active compensations.
//!
//! Nothing is updated in place. A row is deactivated by writing a copy of it
//! that is inactive and of a higher version: where copies of a row are merged,
//! the highest version wins.
use crate::client::query_args;
use crate::entity::{row_views, RowView, UsageRecordRow, UsageRecordStatusCode};
use crate::mapper::{
    current_merge_version, inactive_marker, make_inactive_marker, merge_version,
    record_row_to_model, row_outcome, superseding_version, version_higher_than_at,
};
use crate::model::{
    answers_all, outcome_view, Candidate, ErrorView, UsageCollectorPluginError, UsageRecord,
    UsageRecordStatus, UsageRecordView,
};
use crate::query::meaning::{
    lemma_with_item_balanced, lemma_with_item_truth, truth_and, truth_or, Truth,
};
use crate::query::placeholders::{
    lemma_empty_binds, lemma_filtered_binds, lemma_filtered_reading_data, lemma_just_binds,
    lemma_reading_binds, lemma_reading_by_text_data, lemma_text_args, lemma_text_comparison_binds,
    lemma_with_item_binds, text_args, text_data,
};
use crate::query::schema::{record_select_columns, UsageRecords};
use crate::query::selection::{lemma_expression_truth, lemma_filtered_truth, where_truth};
use crate::query::statement::{
    data_args, equals_text, lemma_filtered_balanced, lemma_just_balanced, lemma_value_args_of_data,
    prepared_sql, reading_records, record_get_by_id, select_records, statement_data,
    text_comparison, text_equality,
};
use crate::record_store::dedup::{conflict, hit_outcome, stored_key, DedupKeyView};
use crate::record_store::list::{is_select_query, select_query};
use crate::record_store::paging::{answer_to, lemma_selected_from, meets, selected};
use crate::sql::{
    all_of, any_of, condition_add, condition_all, condition_any, condition_from_expr,
    condition_tree, expr_cust, expr_data, filtered, just, sea_values, select_cond_where,
    select_tree, with_item, Comparison, ConditionTree, DatumView, ExprTree, SelectTree,
};
use crate::values::{in_instant_range, uuid_text, Uuid};
use crate::record_store::create::{fits, is_create_run, CreateEventView, CreateStepView};
use vstd::prelude::*;
use vstd::string::*;

verus! {

/// The statement that reads the record of an identifier.
pub open spec fn reading_record(id: Uuid) -> SelectTree {
    filtered(reading_records(), equals_text(UsageRecords::Id.spec_iden(), uuid_text(id.bits)))
}

/// Prepares the query for the record of an identifier.
pub fn get_query(client: &clickhouse::Client, id: Uuid) -> (r: Result<
    clickhouse::query::Query,
    UsageCollectorPluginError,
>)
    ensures
        is_select_query(r, reading_record(id)),
        r matches Ok(q) && query_args(q) == text_args(seq![uuid_text(id.bits)]),
{
    let built = record_get_by_id(id.to_string().as_str());
    proof {
        let ids = seq![uuid_text(id.bits)];
        lemma_reading_by_text_data(
            record_select_columns(),
            UsageRecords::Table.spec_iden(),
            UsageRecords::Id.spec_iden(),
            uuid_text(id.bits),
        );
        lemma_text_args(ids);
        assert(statement_data(reading_record(id)) =~= text_data(ids));
        lemma_value_args_of_data(sea_values(built.1@));
    }
    match prepared_sql(client, built) {
        Ok(q) => Ok(q),
        Err(e) => Err(UsageCollectorPluginError::internal(e)),
    }
}

/// The record of the row that was found, if one was.
pub fn record_found<V: Fn(Candidate) -> Result<(), String>>(
    row: Option<UsageRecordRow>,
    id: Uuid,
    validate: &V,
) -> (r: Result<UsageRecord, UsageCollectorPluginError>)
    requires
        answers_all(*validate),
    ensures
        match row {
            Some(found) => row_outcome(*validate, found@, outcome_view(r)),
            None => r matches Err(e) && e@ == (ErrorView::UsageRecordNotFound { id }),
        },
{
    match row {
        Some(found) => record_row_to_model(found, validate),
        None => Err(UsageCollectorPluginError::UsageRecordNotFound { id }),
    }
}

/// The condition on the rows that a deactivation reads: the record itself, and
/// the active records that correct it.
pub open spec fn deactivation_condition(id: Uuid) -> ConditionTree {
    let text = uuid_text(id.bits);
    with_item(
        with_item(any_of(Seq::empty()), equals_text(UsageRecords::Id.spec_iden(), text)),
        with_item(
            with_item(
                all_of(Seq::empty()),
                equals_text(UsageRecords::CorrectsId.spec_iden(), text),
            ),
            just(ExprTree::Custom("status = 'active'"@)),
        ),
    )
}

proof fn lemma_deactivation_binds(id: Uuid)
    ensures
        data_args(statement_data(filtered(reading_records(), deactivation_condition(id)))) == Some(
            text_args(seq![uuid_text(id.bits), uuid_text(id.bits)]),
        ),
{
    let text = uuid_text(id.bits);
    let one = seq![DatumView::Text(Some(text))];
    let none = Seq::<DatumView>::empty();
    let itself = equals_text(UsageRecords::Id.spec_iden(), text);
    let correcting = equals_text(UsageRecords::CorrectsId.spec_iden(), text);
    let active = ExprTree::Custom("status = 'active'"@);
    let first = with_item(any_of(Seq::empty()), itself);
    let second = with_item(all_of(Seq::empty()), correcting);
    assert(expr_data(active) =~= none);
    lemma_just_binds(active, none);
    lemma_text_comparison_binds(UsageRecords::Id.spec_iden(), text);
    lemma_text_comparison_binds(UsageRecords::CorrectsId.spec_iden(), text);
    lemma_empty_binds();
    lemma_with_item_binds(any_of(Seq::empty()), itself, none, one);
    lemma_with_item_binds(all_of(Seq::empty()), correcting, none, one);
    lemma_with_item_binds(second, just(active), none + one, none);
    lemma_with_item_binds(first, with_item(second, just(active)), none + one, none + one + none);
    lemma_reading_binds(record_select_columns(), UsageRecords::Table.spec_iden());
    let both = none + one + (none + one + none);
    lemma_filtered_binds(reading_records(), deactivation_condition(id), none, both);
    lemma_filtered_reading_data(
        record_select_columns(),
        UsageRecords::Table.spec_iden(),
        filtered(reading_records(), deactivation_condition(id)),
        none + both,
    );
    assert(none + both =~= text_data(seq![text, text]));
    lemma_text_args(seq![text, text]);
}

/// Prepares the query for the rows that a deactivation is about.
pub fn deactivation_query(client: &clickhouse::Client, id: Uuid) -> (r: Result<
    clickhouse::query::Query,
    UsageCollectorPluginError,
>)
    ensures
        is_select_query(r, filtered(reading_records(), deactivation_condition(id))),
        r matches Ok(q) && query_args(q) == text_args(
            seq![uuid_text(id.bits), uuid_text(id.bits)],
        ),
{
    let text = id.to_string();
    let mut stmt = select_records();
    let itself = text_equality(UsageRecords::Id.iden(), text.as_str());
    let correcting = text_equality(UsageRecords::CorrectsId.iden(), text.as_str());
    let active = condition_from_expr(expr_cust("status = 'active'".to_owned()));
    proof {
        let none = all_of(Seq::empty());
        let some = any_of(Seq::empty());
        let one = condition_tree(itself);
        let two = condition_tree(correcting);
        let both = with_item(with_item(none, two), condition_tree(active));
        lemma_just_balanced(ExprTree::Custom("status = 'active'"@));
        lemma_with_item_balanced(none, two);
        lemma_with_item_balanced(with_item(none, two), condition_tree(active));
        lemma_with_item_balanced(some, one);
        lemma_with_item_balanced(with_item(some, one), both);
        lemma_filtered_balanced(select_tree(stmt), deactivation_condition(id));
    }
    let cond = condition_add(
        condition_add(condition_any(), itself),
        condition_add(condition_add(condition_all(), correcting), active),
    );
    select_cond_where(&mut stmt, cond);
    proof {
        lemma_deactivation_binds(id);
    }
    select_query(client, stmt)
}

/// The first row of that identifier, from `start` on.
pub open spec fn target_from(rows: Seq<RowView>, id: Uuid, start: int) -> Option<RowView>
    decreases rows.len() - start,
{
    if start < 0 || start >= rows.len() {
        None
    } else if rows[start].id == id {
        Some(rows[start])
    } else {
        target_from(rows, id, start + 1)
    }
}

/// The row that supersedes the row at position `i`: inactive, and of a version
/// that is minted off the row's own and some instant.
pub open spec fn is_marker(row: RowView, i: int, marker: RowView) -> bool {
    exists|now: int|
        in_instant_range(now) && marker == inactive_marker(
            row,
            superseding_version(#[trigger] merge_version(now), row.version, i as u64),
        )
}

/// The rows supersede the rows that were read, one for one.
pub open spec fn are_markers(rows: Seq<RowView>, markers: Seq<RowView>) -> bool {
    &&& markers.len() == rows.len()
    &&& forall|i: int| 0 <= i < rows.len() ==> is_marker(rows[i], i, #[trigger] markers[i])
}

/// The outcomes of a deactivation, before anything is written: the rows to
/// write, or why there are none.
pub open spec fn deactivation_outcome(
    rows: Seq<RowView>,
    id: Uuid,
    outcome: Result<Seq<RowView>, ErrorView>,
) -> bool {
    match target_from(rows, id, 0) {
        None => outcome == Err::<Seq<RowView>, ErrorView>(ErrorView::UsageRecordNotFound { id }),
        Some(target) => if target.status == UsageRecordStatusCode::Inactive {
            outcome == Err::<Seq<RowView>, ErrorView>(ErrorView::UsageRecordAlreadyInactive { id })
        } else {
            outcome matches Ok(markers) && are_markers(rows, markers)
        },
    }
}

/// The row that supersedes the row at position `i`, at the merge version `now`.
pub fn deactivation_marker_at(row: &UsageRecordRow, i: u64, now: u64) -> (marker: UsageRecordRow)
    ensures
        marker@ == inactive_marker(row@, superseding_version(now, row@.version, i)),
{
    make_inactive_marker(row, version_higher_than_at(now, row.version, i), 0)
}

/// Whether the record may be deactivated, by the rows that were read.
pub fn deactivation_target(rows: &Vec<UsageRecordRow>, id: Uuid) -> (r: Result<
    (),
    UsageCollectorPluginError,
>)
    ensures
        match target_from(row_views(rows@), id, 0) {
            None => r matches Err(e) && e@ == (ErrorView::UsageRecordNotFound { id }),
            Some(target) => if target.status == UsageRecordStatusCode::Inactive {
                r matches Err(e) && e@ == (ErrorView::UsageRecordAlreadyInactive { id })
            } else {
                r is Ok
            },
        },
{
    let mut i: usize = 0;
    while i < rows.len()
        invariant
            i <= rows@.len(),
            target_from(row_views(rows@), id, 0) == target_from(row_views(rows@), id, i as int),
        decreases rows@.len() - i,
    {
        assert(row_views(rows@)[i as int] == rows@[i as int]@);
        if rows[i].id == id {
            return match rows[i].status {
                UsageRecordStatusCode::Inactive => Err(
                    UsageCollectorPluginError::UsageRecordAlreadyInactive { id },
                ),
                UsageRecordStatusCode::Active => Ok(()),
            };
        }
        i = i + 1;
    }
    Err(UsageCollectorPluginError::UsageRecordNotFound { id })
}

/// The rows that deactivate the rows that were read.
pub fn deactivation_markers(rows: &Vec<UsageRecordRow>, id: Uuid) -> (r: Result<
    Vec<UsageRecordRow>,
    UsageCollectorPluginError,
>)
    ensures
        r matches Ok(markers) ==> deactivation_outcome(
            row_views(rows@),
            id,
            Ok::<Seq<RowView>, ErrorView>(row_views(markers@)),
        ),
        r matches Err(e) ==> deactivation_outcome(
            row_views(rows@),
            id,
            Err::<Seq<RowView>, ErrorView>(e@),
        ),
{
    match deactivation_target(rows, id) {
        Ok(_) => {},
        Err(e) => {
            return Err(e);
        },
    }
    let ghost views = row_views(rows@);
    let mut markers: Vec<UsageRecordRow> = Vec::new();
    let mut i: usize = 0;
    while i < rows.len()
        invariant
            i <= rows@.len(),
            views == row_views(rows@),
            markers@.len() == i,
            forall|j: int| 0 <= j < i ==> is_marker(views[j], j, (#[trigger] markers@[j])@),
        decreases rows@.len() - i,
    {
        assert(views[i as int] == rows@[i as int]@);
        let now = current_merge_version();
        markers.push(deactivation_marker_at(&rows[i], i as u64, now));
        i = i + 1;
    }
    Ok(markers)
}

/// A deactivation supersedes every row that it read, the record's own and those
/// of its active compensations: each gets a row of the same key that differs in
/// status and version alone, is inactive, and wins over it. (A row of the
/// largest version cannot be superseded.)
pub proof fn law_deactivation_supersedes_every_row(
    rows: Seq<RowView>,
    id: Uuid,
    markers: Seq<RowView>,
    i: int,
)
    requires
        deactivation_outcome(rows, id, Ok::<Seq<RowView>, ErrorView>(markers)),
        0 <= i < rows.len() <= u64::MAX,
        rows[i].version + i < u64::MAX,
    ensures
        markers.len() == rows.len(),
        stored_key(markers[i]) == stored_key(rows[i]),
        markers[i].status == UsageRecordStatusCode::Inactive,
        markers[i].version > rows[i].version,
        markers[i] == inactive_marker(rows[i], markers[i].version),
{
    assert(is_marker(rows[i], i, markers[i]));
}

/// One of the copies of a row: no copy under its key has a higher version.
pub open spec fn is_newest(copies: Seq<RowView>, row: RowView) -> bool {
    &&& copies.contains(row)
    &&& forall|i: int|
        0 <= i < copies.len() && stored_key(#[trigger] copies[i]) == stored_key(row)
            ==> copies[i].version <= row.version
}

/// Some row has the key.
pub open spec fn has_key(rows: Seq<RowView>, key: DedupKeyView) -> bool {
    exists|i: int| 0 <= i < rows.len() && stored_key(#[trigger] rows[i]) == key
}

/// The rows of a table whose copies are merged: under each key that a copy has,
/// one row, a copy of the highest version.
pub open spec fn is_merged(copies: Seq<RowView>, rows: Seq<RowView>) -> bool {
    &&& forall|i: int| 0 <= i < rows.len() ==> is_newest(copies, #[trigger] rows[i])
    &&& forall|i: int| 0 <= i < copies.len() ==> has_key(rows, stored_key(#[trigger] copies[i]))
    &&& keys_differ(rows)
}

/// No two rows have the same key.
pub open spec fn keys_differ(rows: Seq<RowView>) -> bool {
    forall|i: int, j: int|
        0 <= i < j < rows.len() ==> stored_key(#[trigger] rows[i]) != stored_key(#[trigger] rows[j])
}

/// The comparisons of a deactivation are true of a row exactly where the row has
/// the identifier, corrects it, and is active.
pub open spec fn tells_of(row: RowView, id: Uuid, leaf: spec_fn(ExprTree) -> Truth) -> bool {
    let text = uuid_text(id.bits);
    &&& leaf(text_comparison(UsageRecords::Id.spec_iden(), text)) is True <==> row.id == id
    &&& leaf(text_comparison(UsageRecords::CorrectsId.spec_iden(), text)) is True
        <==> row.corrects_id == Some(id)
    &&& leaf(ExprTree::Custom("status = 'active'"@)) is True <==> row.status
        == UsageRecordStatusCode::Active
}

/// The comparisons of a deactivation are true of the rows that they name.
pub open spec fn tells_cascade(
    leaf: spec_fn(RowView) -> spec_fn(ExprTree) -> Truth,
    id: Uuid,
) -> bool {
    forall|row: RowView| tells_of(row, id, #[trigger] leaf(row))
}

/// The rows that a deactivation is about: the record's own, and those of its
/// active compensations.
pub open spec fn is_in_cascade(id: Uuid, row: RowView) -> bool {
    row.id == id || row.corrects_id == Some(id) && row.status == UsageRecordStatusCode::Active
}

/// What a deactivation reads of a table.
pub open spec fn cascade_of(
    table: Seq<RowView>,
    leaf: spec_fn(RowView) -> spec_fn(ExprTree) -> Truth,
    id: Uuid,
) -> Seq<RowView> {
    answer_to(table, leaf, filtered(reading_records(), deactivation_condition(id)))
}

proof fn lemma_met(
    leaf: spec_fn(RowView) -> spec_fn(ExprTree) -> Truth,
    id: Uuid,
    row: RowView,
)
    requires
        tells_cascade(leaf, id),
    ensures
        meets(leaf, filtered(reading_records(), deactivation_condition(id)))(row)
            == is_in_cascade(id, row),
{
    law_deactivation_reads_the_cascade(id, leaf(row));
    assert(tells_of(row, id, leaf(row)));
}

proof fn lemma_selected_holds(rows: Seq<RowView>, holds: spec_fn(RowView) -> bool, i: int)
    requires
        0 <= i < rows.len(),
        holds(rows[i]),
    ensures
        selected(rows, holds).contains(rows[i]),
    decreases rows.len(),
{
    let all = selected(rows, holds);
    if i == rows.len() - 1 {
        assert(all[all.len() - 1] == rows[i]);
    } else {
        let front = rows.drop_last();
        lemma_selected_holds(front, holds, i);
        let some = selected(front, holds);
        let j = choose|j: int| 0 <= j < some.len() && some[j] == front[i];
        assert(all[j] == rows[i]);
    }
}

proof fn lemma_selected_keys_differ(rows: Seq<RowView>, holds: spec_fn(RowView) -> bool)
    requires
        keys_differ(rows),
    ensures
        keys_differ(selected(rows, holds)),
    decreases rows.len(),
{
    if rows.len() > 0 {
        let front = rows.drop_last();
        lemma_selected_keys_differ(front, holds);
        lemma_selected_from(front, holds);
        let all = selected(rows, holds);
        let some = selected(front, holds);
        assert forall|i: int, j: int| 0 <= i < j < all.len() implies stored_key(#[trigger] all[i])
            != stored_key(#[trigger] all[j]) by {
            assert(all[i] == some[i]);
            if j == some.len() {
                assert(front.contains(some[i]));
                let k = choose|k: int| 0 <= k < front.len() && front[k] == some[i];
                assert(rows[k] == some[i] && rows[rows.len() - 1] == all[j]);
            } else {
                assert(all[j] == some[j]);
            }
        }
    }
}

/// A deactivation reads the rows of its cascade, each once.
pub proof fn law_cascade_is_read_whole(
    table: Seq<RowView>,
    leaf: spec_fn(RowView) -> spec_fn(ExprTree) -> Truth,
    id: Uuid,
)
    requires
        tells_cascade(leaf, id),
        keys_differ(table),
    ensures
        forall|row: RowView| #[trigger]
            cascade_of(table, leaf, id).contains(row) <==> table.contains(row) && is_in_cascade(
                id,
                row,
            ),
        keys_differ(cascade_of(table, leaf, id)),
{
    let t = filtered(reading_records(), deactivation_condition(id));
    let rows = cascade_of(table, leaf, id);
    let holds = meets(leaf, t);
    assert(rows == selected(table, holds));
    lemma_selected_from(table, holds);
    lemma_selected_keys_differ(table, holds);
    assert forall|row: RowView| #[trigger] rows.contains(row) <==> table.contains(row)
        && is_in_cascade(id, row) by {
        lemma_met(leaf, id, row);
        if rows.contains(row) {
            let i = choose|i: int| 0 <= i < rows.len() && rows[i] == row;
            assert(table.contains(rows[i]));
        }
        if table.contains(row) && is_in_cascade(id, row) {
            let i = choose|i: int| 0 <= i < table.len() && table[i] == row;
            lemma_selected_holds(table, holds, i);
        }
    }
}

/// Short of the largest version, the rows can be superseded.
pub open spec fn can_be_superseded(rows: Seq<RowView>) -> bool {
    &&& rows.len() <= u64::MAX
    &&& forall|i: int| 0 <= i < rows.len() ==> (#[trigger] rows[i]).version + i < u64::MAX
}

/// A deactivation takes effect: once its rows are written and the copies are
/// merged, the row under each key that it read is the one it wrote.
pub proof fn law_deactivation_takes_effect(
    copies: Seq<RowView>,
    table: Seq<RowView>,
    leaf: spec_fn(RowView) -> spec_fn(ExprTree) -> Truth,
    id: Uuid,
    markers: Seq<RowView>,
    later: Seq<RowView>,
    i: int,
    j: int,
)
    requires
        is_merged(copies, table),
        tells_cascade(leaf, id),
        deactivation_outcome(
            cascade_of(table, leaf, id),
            id,
            Ok::<Seq<RowView>, ErrorView>(markers),
        ),
        can_be_superseded(cascade_of(table, leaf, id)),
        is_merged(copies + markers, later),
        0 <= i < cascade_of(table, leaf, id).len(),
        0 <= j < later.len(),
        stored_key(later[j]) == stored_key(cascade_of(table, leaf, id)[i]),
    ensures
        later[j] == markers[i],
        later[j].status == UsageRecordStatusCode::Inactive,
{
    let rows = cascade_of(table, leaf, id);
    let all = copies + markers;
    law_cascade_is_read_whole(table, leaf, id);
    law_deactivation_supersedes_every_row(rows, id, markers, i);
    assert(rows.contains(rows[i]));
    let a = choose|a: int| 0 <= a < table.len() && table[a] == rows[i];
    assert(is_newest(copies, table[a]));
    assert(is_newest(all, later[j]));
    assert(all[copies.len() + i] == markers[i]);
    let x = choose|x: int| 0 <= x < all.len() && all[x] == later[j];
    if x < copies.len() {
        assert(copies[x] == later[j]);
    } else {
        let k = x - copies.len();
        assert(later[j] == markers[k]);
        law_deactivation_supersedes_every_row(rows, id, markers, k);
        if k < i {
            assert(stored_key(rows[k]) != stored_key(rows[i]));
        } else if i < k {
            assert(stored_key(rows[i]) != stored_key(rows[k]));
        }
    }
}

proof fn lemma_target_is_found(rows: Seq<RowView>, id: Uuid, start: int)
    requires
        0 <= start,
    ensures
        match target_from(rows, id, start) {
            Some(t) => rows.contains(t) && t.id == id,
            None => forall|i: int| start <= i < rows.len() ==> (#[trigger] rows[i]).id != id,
        },
    decreases rows.len() - start,
{
    if start < rows.len() && rows[start].id != id {
        lemma_target_is_found(rows, id, start + 1);
    }
}

/// A record is deactivated at most once: after a deactivation whose rows were
/// written, the next one is refused, whichever way the copies of the rows are
/// merged.
pub proof fn law_deactivation_is_not_repeated(
    copies: Seq<RowView>,
    table: Seq<RowView>,
    leaf: spec_fn(RowView) -> spec_fn(ExprTree) -> Truth,
    id: Uuid,
    markers: Seq<RowView>,
    later: Seq<RowView>,
    outcome: Result<Seq<RowView>, ErrorView>,
)
    requires
        is_merged(copies, table),
        tells_cascade(leaf, id),
        deactivation_outcome(
            cascade_of(table, leaf, id),
            id,
            Ok::<Seq<RowView>, ErrorView>(markers),
        ),
        can_be_superseded(cascade_of(table, leaf, id)),
        is_merged(copies + markers, later),
        deactivation_outcome(cascade_of(later, leaf, id), id, outcome),
    ensures
        outcome == Err::<Seq<RowView>, ErrorView>(ErrorView::UsageRecordAlreadyInactive { id }),
{
    let rows = cascade_of(table, leaf, id);
    let again = cascade_of(later, leaf, id);
    let all = copies + markers;
    law_cascade_is_read_whole(table, leaf, id);
    law_cascade_is_read_whole(later, leaf, id);
    lemma_target_is_found(rows, id, 0);
    lemma_target_is_found(again, id, 0);
    let first = target_from(rows, id, 0)->0;
    let i = choose|i: int| 0 <= i < rows.len() && rows[i] == first;
    law_deactivation_supersedes_every_row(rows, id, markers, i);
    assert(all[copies.len() + i] == markers[i]);
    assert(has_key(later, stored_key(all[copies.len() + i])));
    let j = choose|j: int| 0 <= j < later.len() && stored_key(#[trigger] later[j]) == stored_key(
        markers[i],
    );
    assert(later.contains(later[j]) && is_in_cascade(id, later[j]));
    assert(again.contains(later[j]));
    let target = target_from(again, id, 0)->0;
    assert(target_from(again, id, 0) is Some) by {
        let y = choose|y: int| 0 <= y < again.len() && again[y] == later[j];
        assert(again[y].id == id);
    }
    assert(again.contains(target));
    assert(later.contains(target));
    let y = choose|y: int| 0 <= y < later.len() && later[y] == target;
    assert(is_newest(all, later[y]));
    let x = choose|x: int| 0 <= x < all.len() && all[x] == target;
    let k = if x < copies.len() {
        assert(copies[x] == target);
        assert(has_key(table, stored_key(copies[x])));
        let a = choose|a: int| 0 <= a < table.len() && stored_key(#[trigger] table[a])
            == stored_key(copies[x]);
        assert(table.contains(table[a]) && is_in_cascade(id, table[a]));
        assert(rows.contains(table[a]));
        choose|k: int| 0 <= k < rows.len() && rows[k] == table[a]
    } else {
        law_deactivation_supersedes_every_row(rows, id, markers, x - copies.len());
        x - copies.len()
    };
    law_deactivation_takes_effect(copies, table, leaf, id, markers, later, k, y);
}

/// The key of a deactivated record stays taken: creating it again is a conflict,
/// never the old record.
pub proof fn law_deactivated_key_stays_taken<V: Fn(Candidate) -> Result<(), String>>(
    validate: V,
    source: RowView,
    version: u64,
    record: UsageRecordView,
    outcome: Result<UsageRecordView, ErrorView>,
)
    requires
        hit_outcome(validate, inactive_marker(source, version), record, outcome),
    ensures
        outcome == Err::<UsageRecordView, ErrorView>(conflict(source, record)),
{
}

/// A deactivation reads the record itself and the active records that correct
/// it.
pub proof fn law_deactivation_reads_the_cascade(id: Uuid, leaf: spec_fn(ExprTree) -> Truth)
    ensures
        where_truth(filtered(reading_records(), deactivation_condition(id)), leaf) == truth_or(
            leaf(text_comparison(UsageRecords::Id.spec_iden(), uuid_text(id.bits))),
            truth_and(
                leaf(text_comparison(UsageRecords::CorrectsId.spec_iden(), uuid_text(id.bits))),
                leaf(ExprTree::Custom("status = 'active'"@)),
            ),
        ),
{
    let none = all_of(Seq::empty());
    let some = any_of(Seq::empty());
    let itself = text_comparison(UsageRecords::Id.spec_iden(), uuid_text(id.bits));
    let correcting = text_comparison(UsageRecords::CorrectsId.spec_iden(), uuid_text(id.bits));
    let active = ExprTree::Custom("status = 'active'"@);
    let first = with_item(none, just(correcting));
    let both = with_item(first, just(active));
    lemma_expression_truth(itself, leaf);
    lemma_expression_truth(correcting, leaf);
    lemma_expression_truth(active, leaf);
    lemma_with_item_truth(first, just(active), leaf);
    lemma_with_item_truth(some, just(itself), leaf);
    lemma_with_item_truth(with_item(some, just(itself)), both, leaf);
    lemma_filtered_truth(reading_records(), deactivation_condition(id), leaf);
}

// ---- what a deactivation comes to ----

/// A deactivation is decided by the first row of the identifier among those that
/// were read: without one the record is unknown, an inactive one was deactivated
/// before, and an active one is deactivated together with every other row that was
/// read.
pub proof fn law_deactivation_is_decided_by_its_record(
    rows: Seq<RowView>,
    id: Uuid,
    outcome: Result<Seq<RowView>, ErrorView>,
    i: int,
)
    requires
        deactivation_outcome(rows, id, outcome),
    ensures
        (forall|j: int| 0 <= j < rows.len() ==> (#[trigger] rows[j]).id != id) ==> outcome == Err::<
            Seq<RowView>,
            ErrorView,
        >(ErrorView::UsageRecordNotFound { id }),
        0 <= i < rows.len() && rows[i].id == id && (forall|j: int|
            0 <= j < i ==> (#[trigger] rows[j]).id != id) ==> {
            &&& rows[i].status == UsageRecordStatusCode::Inactive ==> outcome == Err::<
                Seq<RowView>,
                ErrorView,
            >(ErrorView::UsageRecordAlreadyInactive { id })
            &&& rows[i].status == UsageRecordStatusCode::Active ==> outcome is Ok
        },
        outcome matches Ok(markers) ==> markers.len() == rows.len(),
        outcome is Ok ==> exists|j: int|
            0 <= j < rows.len() && (#[trigger] rows[j]).id == id && rows[j].status
                == UsageRecordStatusCode::Active,
{
    lemma_target_is_found(rows, id, 0);
    if 0 <= i < rows.len() && rows[i].id == id && (forall|j: int|
        0 <= j < i ==> (#[trigger] rows[j]).id != id) {
        lemma_first_is_target(rows, id, i, 0);
    }
    if let Some(target) = target_from(rows, id, 0) {
        let j = choose|j: int| 0 <= j < rows.len() && rows[j] == target;
        assert(rows[j].id == id);
    }
}

proof fn lemma_first_is_target(rows: Seq<RowView>, id: Uuid, i: int, start: int)
    requires
        0 <= start <= i < rows.len(),
        rows[i].id == id,
        forall|j: int| start <= j < i ==> (#[trigger] rows[j]).id != id,
    ensures
        target_from(rows, id, start) == Some(rows[i]),
    decreases i - start,
{
    if start < i {
        lemma_first_is_target(rows, id, i, start + 1);
    }
}

/// Each row that is written to deactivate another is inactive and is that row in
/// everything else but its version, which is behind the row's own by its place and
/// one, short of the largest number, and never behind the time of some instant.
pub proof fn law_deactivating_row_is_the_row_but_inactive(
    rows: Seq<RowView>,
    id: Uuid,
    markers: Seq<RowView>,
    i: int,
)
    requires
        deactivation_outcome(rows, id, Ok::<Seq<RowView>, ErrorView>(markers)),
        0 <= i < rows.len() <= u64::MAX,
    ensures
        markers.len() == rows.len(),
        markers[i].status == UsageRecordStatusCode::Inactive,
        markers[i].id == rows[i].id,
        markers[i].tenant_id == rows[i].tenant_id,
        markers[i].gts_id == rows[i].gts_id,
        markers[i].value == rows[i].value,
        markers[i].created_at == rows[i].created_at,
        markers[i].resource_id == rows[i].resource_id,
        markers[i].resource_type == rows[i].resource_type,
        markers[i].subject_id == rows[i].subject_id,
        markers[i].subject_type == rows[i].subject_type,
        markers[i].idempotency_key == rows[i].idempotency_key,
        markers[i].corrects_id == rows[i].corrects_id,
        markers[i].metadata == rows[i].metadata,
        markers[i].ingested_at == rows[i].ingested_at,
        rows[i].version + i + 1 <= u64::MAX ==> markers[i].version >= rows[i].version + i + 1,
        rows[i].version + i + 1 > u64::MAX ==> markers[i].version == u64::MAX,
        exists|now: int| #[trigger]
            in_instant_range(now) && markers[i].version >= (now / 1000) % 0x1_0000_0000_0000_0000
                && (markers[i].version == (now / 1000) % 0x1_0000_0000_0000_0000
                || markers[i].version == rows[i].version + i + 1 || markers[i].version == u64::MAX),
{
    assert(is_marker(rows[i], i, markers[i]));
    let now = choose|now: int|
        in_instant_range(now) && markers[i] == inactive_marker(
            rows[i],
            superseding_version(#[trigger] merge_version(now), rows[i].version, i as u64),
        );
    assert(in_instant_range(now));
    assert(merge_version(now) == (now / 1000) % 0x1_0000_0000_0000_0000);
}

/// After a deactivation every record whose row was written is read back as it was,
/// but inactive.
pub proof fn law_deactivated_records_are_read_as_inactive<
    V: Fn(Candidate) -> Result<(), String>,
>(
    validate: V,
    rows: Seq<RowView>,
    id: Uuid,
    markers: Seq<RowView>,
    i: int,
    before: UsageRecordView,
    after: UsageRecordView,
)
    requires
        deactivation_outcome(rows, id, Ok::<Seq<RowView>, ErrorView>(markers)),
        0 <= i < rows.len(),
        row_outcome(validate, rows[i], Ok::<UsageRecordView, ErrorView>(before)),
        row_outcome(validate, markers[i], Ok::<UsageRecordView, ErrorView>(after)),
    ensures
        after.status == UsageRecordStatus::Inactive,
        after == (UsageRecordView { status: UsageRecordStatus::Inactive, ..before }),
{
    assert(is_marker(rows[i], i, markers[i]));
}

/// A deactivation reads the whole rows of `usage_records` whose identifier is the
/// one that was given, active or not, and those that correct it and are active,
/// as many as there are.
pub proof fn law_deactivation_asks_this_of_each_row(id: Uuid, leaf: spec_fn(ExprTree) -> Truth)
    ensures
        ({
            let t = filtered(reading_records(), deactivation_condition(id));
            let text = ExprTree::Value(DatumView::Text(Some(uuid_text(id.bits))));
            &&& where_truth(t, leaf) is True <==> leaf(
                ExprTree::Binary(
                    Box::new(ExprTree::Column("id"@)),
                    Comparison::Equal,
                    Box::new(text),
                ),
            ) is True || (leaf(
                ExprTree::Binary(
                    Box::new(ExprTree::Column("corrects_id"@)),
                    Comparison::Equal,
                    Box::new(text),
                ),
            ) is True && leaf(ExprTree::Custom("status = 'active'"@)) is True)
            &&& t.selects == reading_records().selects
            &&& t.from == seq!["usage_records"@]
            &&& t.limit is None
            &&& t.groups.len() == 0
        }),
        ({
            let t = reading_record(id);
            &&& where_truth(t, leaf) == leaf(
                ExprTree::Binary(
                    Box::new(ExprTree::Column("id"@)),
                    Comparison::Equal,
                    Box::new(ExprTree::Value(DatumView::Text(Some(uuid_text(id.bits))))),
                ),
            )
            &&& t.selects == reading_records().selects
            &&& t.from == seq!["usage_records"@]
            &&& t.groups.len() == 0
        }),
{
    law_deactivation_reads_the_cascade(id, leaf);
    let e = text_comparison(UsageRecords::Id.spec_iden(), uuid_text(id.bits));
    lemma_expression_truth(e, leaf);
    lemma_filtered_truth(reading_records(), just(e), leaf);
}

/// A record that was deactivated is not created again: where a create finds the row
/// that deactivated it under the key, it is refused with a conflict that names the
/// deactivated record, whatever else it sends.
pub proof fn law_deactivated_record_is_not_created_again<V: Fn(Candidate) -> Result<(), String>>(
    validate: V,
    rows: Seq<RowView>,
    id: Uuid,
    markers: Seq<RowView>,
    i: int,
    record: UsageRecordView,
    steps: Seq<CreateStepView>,
    events: Seq<CreateEventView>,
    k: int,
)
    requires
        deactivation_outcome(rows, id, Ok::<Seq<RowView>, ErrorView>(markers)),
        0 <= i < rows.len(),
        is_create_run(validate, record, steps, events),
        0 <= k < events.len(),
        steps[k] is LookUp,
        events[k] == CreateEventView::Stored(Some(markers[i])),
    ensures
        steps[k + 1] == CreateStepView::Release(
            Err::<UsageRecordView, ErrorView>(
                ErrorView::IdempotencyConflict {
                    idempotency_key: record.idempotency_key,
                    existing_id: rows[i].id,
                },
            ),
        ),
{
    assert(is_marker(rows[i], i, markers[i]));
    assert(fits(steps[k], events[k]));
}

} // verus!
