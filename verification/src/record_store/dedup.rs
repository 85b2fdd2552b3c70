//! Deduplication: the key of a record, the lookups by it, and what a hit means.
use crate::entity::{RowView, UsageRecordRow, UsageRecordStatusCode};
use crate::mapper::{
    canonical_equal, datetime_to_micros, gts_id_str, keys_accepted,
    law_record_is_what_its_row_holds, model_of_row, record_row_to_model, row_of_record, row_outcome,
    same_canonical_fields, some_key_rejected,
};
use crate::model::{
    answers_all, outcome_view, rejects, Candidate, CandidateView, ErrorView,
    UsageCollectorPluginError, UsageRecord, UsageRecordStatus, UsageRecordView,
};
use crate::client::{client_query, query_args, query_text, QueryArg};
use crate::query::bind::{arg_of, bind_one, bind_views, SqlBind, SqlBindView};
use crate::query::expr::{
    from_unix_timestamp64_micro, lemma_bound_expressions_are_balanced, micros_expr,
};
use crate::query::meaning::{lemma_just_truth, truth_and, Truth};
use crate::query::placeholders::{
    bind_data, lemma_bindable, lemma_binds_are_bindable, lemma_bound_expressions_bind,
    lemma_filtered_binds, lemma_filtered_reading_data, lemma_just_binds, lemma_reading_binds,
    lemma_text_comparison_binds,
};
use crate::query::schema::{record_select_columns, UsageRecords};
use crate::query::selection::{lemma_filtered_truth, where_truth};
use crate::query::statement::{
    build_select_final, data_args, equals_text, final_select, lemma_filtered_balanced,
    lemma_just_balanced, reading_records, select_records, text_comparison, text_equality,
};
use crate::query::translate::SqlCtx;
use crate::sql::{
    compared, condition_from_expr, condition_tree, expr_balanced, expr_col, expr_cust, expr_data,
    expr_eq, expr_is_plain, filtered, just, lemma_placeholders_of_sum, placeholders,
    placeholders_below, select_balanced, select_cond_where, select_tree, Comparison, ConditionItem,
    ConditionTree, DatumView, ExprTree, SelectTree,
};
use crate::text::{join_texts, joined, texts};
use crate::values::{in_instant_range, uuid_text, Uuid};
use vstd::arithmetic::power::pow;
use vstd::prelude::*;
use vstd::string::*;

verus! {

/// What identifies a record for deduplication: the tenant, the usage type, the
/// event time in microseconds and the identifier.
pub type DedupKey = (Uuid, String, i64, Uuid);

/// The view of a [`DedupKey`].
pub type DedupKeyView = (Uuid, Seq<char>, i64, Uuid);

/// The view of a key.
pub open spec fn key_view(k: DedupKey) -> DedupKeyView {
    (k.0, k.1@, k.2, k.3)
}

/// The key of a record.
pub open spec fn record_key(r: UsageRecordView) -> DedupKeyView {
    (r.tenant_id, r.gts_id, (r.created_at / 1000) as i64, r.id)
}

/// The key of a row.
pub open spec fn stored_key(r: RowView) -> DedupKeyView {
    (r.tenant_id, r.gts_id, r.created_at, r.id)
}

/// The key of a record.
pub fn record_dedup_key(r: &UsageRecord) -> (k: DedupKey)
    ensures
        key_view(k) == record_key(r@),
{
    (r.tenant_id, gts_id_str(&r.gts_id).to_owned(), datetime_to_micros(r.created_at), r.id)
}

/// The key of a row.
pub fn row_dedup_key(r: &UsageRecordRow) -> (k: DedupKey)
    ensures
        key_view(k) == stored_key(r@),
{
    (r.tenant_id, r.gts_id.clone(), r.created_at, r.id)
}

/// Whether two keys are the same.
pub fn same_key(a: &DedupKey, b: &DedupKey) -> (r: bool)
    ensures
        r == (key_view(*a) == key_view(*b)),
{
    a.0 == b.0 && crate::text::same_text(a.1.as_str(), b.1.as_str()) && a.2 == b.2 && a.3 == b.3
}

/// A record is found again under the key of the row that stores it.
pub proof fn law_row_keeps_the_key_of_its_record(
    record: UsageRecordView,
    version: u64,
    ingested_at: i64,
)
    ensures
        stored_key(row_of_record(record, version, ingested_at)) == record_key(record),
{
}

/// The error for a record whose key is bound to another row.
pub open spec fn conflict(row: RowView, record: UsageRecordView) -> ErrorView {
    ErrorView::IdempotencyConflict {
        idempotency_key: record.idempotency_key,
        existing_id: row.id,
    }
}

/// The outcomes of a hit: the stored record, where the row is active and agrees
/// with the incoming record on every canonical field; else a conflict, or the
/// reason why the row cannot be read.
pub open spec fn hit_outcome<V: Fn(Candidate) -> Result<(), String>>(
    validate: V,
    row: RowView,
    record: UsageRecordView,
    outcome: Result<UsageRecordView, ErrorView>,
) -> bool {
    if row.status == UsageRecordStatusCode::Inactive {
        outcome == Err::<UsageRecordView, ErrorView>(conflict(row, record))
    } else {
        match outcome {
            Ok(m) => {
                &&& keys_accepted(validate, row.metadata)
                &&& same_canonical_fields(row, record)
                &&& row_outcome(validate, row, outcome)
            },
            Err(e) => {
                ||| some_key_rejected(validate, row.metadata, e)
                ||| keys_accepted(validate, row.metadata) && !same_canonical_fields(row, record)
                    && e == conflict(row, record)
                ||| keys_accepted(validate, row.metadata) && same_canonical_fields(row, record)
                    && row_outcome(validate, row, outcome)
            },
        }
    }
}

/// A record whose key is bound to an active row that agrees with it is never a
/// conflict: it is answered with the stored record, unless the row cannot be
/// read. So the same record sent again is absorbed.
pub proof fn law_agreeing_record_is_absorbed<V: Fn(Candidate) -> Result<(), String>>(
    validate: V,
    row: RowView,
    record: UsageRecordView,
    outcome: Result<UsageRecordView, ErrorView>,
)
    requires
        hit_outcome(validate, row, record, outcome),
        row.status == UsageRecordStatusCode::Active,
        same_canonical_fields(row, record),
    ensures
        outcome matches Ok(m) ==> m == model_of_row(row),
        outcome matches Err(e) ==> e is Internal && (some_key_rejected(validate, row.metadata, e)
            || row_outcome(validate, row, outcome)),
{
}

/// A record whose key is bound to a row that does not agree with it is never
/// answered with a success.
pub proof fn law_disagreeing_record_is_refused<V: Fn(Candidate) -> Result<(), String>>(
    validate: V,
    row: RowView,
    record: UsageRecordView,
    outcome: Result<UsageRecordView, ErrorView>,
)
    requires
        hit_outcome(validate, row, record, outcome),
        row.status == UsageRecordStatusCode::Inactive || !same_canonical_fields(row, record),
    ensures
        outcome is Err,
{
}

/// Resolves a hit. An inactive row is never given back: its key is taken by a
/// record that was deactivated.
pub fn resolve_dedup_hit<V: Fn(Candidate) -> Result<(), String>>(
    row: &UsageRecordRow,
    record: &UsageRecord,
    validate: &V,
) -> (r: Result<UsageRecord, UsageCollectorPluginError>)
    requires
        answers_all(*validate),
    ensures
        hit_outcome(*validate, row@, record@, outcome_view(r)),
{
    let absorbed = match row.status {
        UsageRecordStatusCode::Inactive => false,
        UsageRecordStatusCode::Active => match canonical_equal(row, record, validate) {
            Ok(same) => same,
            Err(e) => {
                return Err(e);
            },
        },
    };
    if !absorbed {
        return Err(
            UsageCollectorPluginError::IdempotencyConflict {
                idempotency_key: record.idempotency_key.as_str().to_owned(),
                existing_id: row.id,
            },
        );
    }
    record_row_to_model(row.clone(), validate)
}

/// What a partition's failure is for each record of the partition. `shown` is
/// the failure's message; it takes the place of a failure that only a single
/// record can have.
pub open spec fn partition_error(err: ErrorView, shown: Seq<char>) -> ErrorView {
    match err {
        ErrorView::Transient { .. } => err,
        ErrorView::UsageTypeNotFound { .. } => err,
        ErrorView::Internal(_) => err,
        _ => ErrorView::Internal(shown),
    }
}

/// A copy of a partition's failure for one record of the partition.
pub fn err_for_partition(err: &UsageCollectorPluginError, shown: &str) -> (r:
    UsageCollectorPluginError)
    ensures
        r@ == partition_error(err@, shown@),
{
    match err {
        UsageCollectorPluginError::Transient {
            detail,
            retry_after_seconds,
        } => UsageCollectorPluginError::Transient {
            detail: detail.clone(),
            retry_after_seconds: *retry_after_seconds,
        },
        UsageCollectorPluginError::UsageTypeNotFound {
            gts_id,
        } => UsageCollectorPluginError::UsageTypeNotFound { gts_id: gts_id.clone() },
        UsageCollectorPluginError::Internal(msg) => UsageCollectorPluginError::Internal(
            msg.clone(),
        ),
        _ => UsageCollectorPluginError::internal(shown.to_owned()),
    }
}

/// The comparison of the event time with a count of microseconds.
pub open spec fn created_at_comparison(micros: i64) -> ExprTree {
    compared(
        ExprTree::Column(UsageRecords::CreatedAt.spec_iden()),
        Comparison::Equal,
        micros_expr(micros),
    )
}

/// The condition that the event time is a count of microseconds.
pub open spec fn created_at_equals(micros: i64) -> ConditionTree {
    just(created_at_comparison(micros))
}

/// The statement that looks a key up.
pub open spec fn key_lookup(key: DedupKeyView) -> SelectTree {
    filtered(
        filtered(
            filtered(
                filtered(
                    reading_records(),
                    equals_text(UsageRecords::TenantId.spec_iden(), uuid_text(key.0.bits)),
                ),
                equals_text(UsageRecords::GtsId.spec_iden(), key.1),
            ),
            created_at_equals(key.2),
        ),
        equals_text(UsageRecords::Id.spec_iden(), uuid_text(key.3.bits)),
    )
}

/// A lookup reads the rows of exactly that key: all four parts must agree.
pub proof fn law_lookup_reads_the_key(key: DedupKeyView, leaf: spec_fn(ExprTree) -> Truth)
    ensures
        where_truth(key_lookup(key), leaf) == truth_and(
            truth_and(
                truth_and(
                    leaf(
                        text_comparison(
                            UsageRecords::TenantId.spec_iden(),
                            uuid_text(key.0.bits),
                        ),
                    ),
                    leaf(text_comparison(UsageRecords::GtsId.spec_iden(), key.1)),
                ),
                leaf(created_at_comparison(key.2)),
            ),
            leaf(text_comparison(UsageRecords::Id.spec_iden(), uuid_text(key.3.bits))),
        ),
{
    let a = text_comparison(UsageRecords::TenantId.spec_iden(), uuid_text(key.0.bits));
    let b = text_comparison(UsageRecords::GtsId.spec_iden(), key.1);
    let c = created_at_comparison(key.2);
    let d = text_comparison(UsageRecords::Id.spec_iden(), uuid_text(key.3.bits));
    lemma_just_truth(a, leaf);
    lemma_just_truth(b, leaf);
    lemma_just_truth(c, leaf);
    lemma_just_truth(d, leaf);
    let first = filtered(reading_records(), just(a));
    let second = filtered(first, just(b));
    let third = filtered(second, just(c));
    lemma_filtered_truth(reading_records(), just(a), leaf);
    lemma_filtered_truth(first, just(b), leaf);
    lemma_filtered_truth(second, just(c), leaf);
    lemma_filtered_truth(third, just(d), leaf);
}

/// The values of a lookup are the parts of the key, each at its placeholder.
pub proof fn law_lookup_binds_the_key(key: DedupKeyView)
    ensures
        final_select(key_lookup(key)).1 == bind_data(key_binds(key)),
        data_args(final_select(key_lookup(key)).1) is Some,
{
    let a = text_comparison(UsageRecords::TenantId.spec_iden(), uuid_text(key.0.bits));
    let b = text_comparison(UsageRecords::GtsId.spec_iden(), key.1);
    let c = created_at_comparison(key.2);
    let d = text_comparison(UsageRecords::Id.spec_iden(), uuid_text(key.3.bits));
    let tenant = seq![DatumView::Text(Some(uuid_text(key.0.bits)))];
    let gts = seq![DatumView::Text(Some(key.1))];
    let micros = seq![DatumView::BigInt(Some(key.2))];
    let id = seq![DatumView::Text(Some(uuid_text(key.3.bits)))];
    lemma_text_comparison_binds(UsageRecords::TenantId.spec_iden(), uuid_text(key.0.bits));
    lemma_text_comparison_binds(UsageRecords::GtsId.spec_iden(), key.1);
    lemma_text_comparison_binds(UsageRecords::Id.spec_iden(), uuid_text(key.3.bits));
    lemma_bound_expressions_bind(key.2, Seq::empty());
    let column = ExprTree::Column(UsageRecords::CreatedAt.spec_iden());
    assert(expr_data(column) =~= Seq::empty());
    assert(expr_is_plain(column));
    assert(expr_data(c) == expr_data(column) + expr_data(micros_expr(key.2)));
    assert(expr_data(c) =~= micros);
    lemma_just_binds(c, micros);
    let none = Seq::<DatumView>::empty();
    lemma_reading_binds(record_select_columns(), UsageRecords::Table.spec_iden());
    let first = filtered(reading_records(), just(a));
    let second = filtered(first, just(b));
    let third = filtered(second, just(c));
    lemma_filtered_binds(reading_records(), just(a), none, tenant);
    lemma_filtered_binds(first, just(b), none + tenant, gts);
    lemma_filtered_binds(second, just(c), none + tenant + gts, micros);
    lemma_filtered_binds(third, just(d), none + tenant + gts + micros, id);
    let data = none + tenant + gts + micros + id;
    lemma_filtered_reading_data(
        record_select_columns(),
        UsageRecords::Table.spec_iden(),
        key_lookup(key),
        data,
    );
    assert(data =~= bind_data(key_binds(key)));
    lemma_binds_are_bindable(key_binds(key));
    lemma_bindable(data);
}

/// The statement that looks the key of a record up.
pub fn dedup_point_lookup(record: &UsageRecord) -> (stmt: sea_query::SelectStatement)
    ensures
        select_tree(stmt) == key_lookup(record_key(record@)),
        select_balanced(select_tree(stmt)),
{
    let micros = datetime_to_micros(record.created_at);
    let mut stmt = select_records();
    let tenant = text_equality(UsageRecords::TenantId.iden(), record.tenant_id.to_string().as_str());
    proof {
        lemma_filtered_balanced(select_tree(stmt), condition_tree(tenant));
    }
    select_cond_where(&mut stmt, tenant);
    let gts = text_equality(UsageRecords::GtsId.iden(), gts_id_str(&record.gts_id));
    proof {
        lemma_filtered_balanced(select_tree(stmt), condition_tree(gts));
    }
    select_cond_where(&mut stmt, gts);
    let created = condition_from_expr(
        expr_eq(expr_col(UsageRecords::CreatedAt.iden()), from_unix_timestamp64_micro(micros)),
    );
    proof {
        lemma_bound_expressions_are_balanced(micros, Seq::empty());
        reveal_with_fuel(expr_balanced, 2);
        lemma_just_balanced(
            compared(
                ExprTree::Column(UsageRecords::CreatedAt.spec_iden()),
                Comparison::Equal,
                micros_expr(micros),
            ),
        );
        lemma_filtered_balanced(select_tree(stmt), condition_tree(created));
    }
    select_cond_where(&mut stmt, created);
    let id = text_equality(UsageRecords::Id.iden(), record.id.to_string().as_str());
    proof {
        lemma_filtered_balanced(select_tree(stmt), condition_tree(id));
    }
    select_cond_where(&mut stmt, id);
    stmt
}

/// The values of a key, in placeholder order.
pub open spec fn key_binds(key: DedupKeyView) -> Seq<SqlBindView> {
    seq![
        SqlBindView::Uuid(key.0),
        SqlBindView::Str(key.1),
        SqlBindView::DateTime64Micros(key.2),
        SqlBindView::Uuid(key.3),
    ]
}

/// The values of keys, one key after the other.
pub open spec fn keys_binds(keys: Seq<DedupKeyView>) -> Seq<SqlBindView>
    decreases keys.len(),
{
    if keys.len() == 0 {
        Seq::empty()
    } else {
        keys_binds(keys.drop_last()) + key_binds(keys.last())
    }
}

/// The placeholders of one key.
pub open spec fn key_slot() -> Seq<char> {
    "(?, ?, fromUnixTimestamp64Micro(?), ?)"@
}

/// The text of the condition that the key of a row is one of `n` keys.
pub open spec fn keys_condition_text(n: nat) -> Seq<char> {
    "(tenant_id, gts_id, created_at, id) IN ("@ + joined(Seq::new(n, |i: int| key_slot()), ", "@)
        + ")"@
}

/// The statement that looks `n` keys up.
pub open spec fn keys_lookup(n: nat) -> SelectTree {
    filtered(reading_records(), just(ExprTree::Custom(keys_condition_text(n))))
}

/// The keys of the records at the positions.
pub open spec fn keys_at(records: Seq<UsageRecord>, idxs: Seq<usize>) -> Seq<DedupKeyView> {
    idxs.map_values(|i: usize| record_key(records[i as int]@))
}

/// What a query is given for the binds.
pub open spec fn args_of_binds(binds: Seq<SqlBindView>) -> Seq<QueryArg> {
    binds.map_values(|b: SqlBindView| arg_of(b))
}

/// Adds the values of a record's key.
fn push_key(ctx: &mut SqlCtx, record: &UsageRecord)
    ensures
        bind_views(final(ctx).binds@) == bind_views(old(ctx).binds@) + key_binds(
            record_key(record@),
        ),
{
    let ghost before = bind_views(ctx.binds@);
    ctx.push(SqlBind::Uuid(record.tenant_id));
    ctx.push(SqlBind::Str(gts_id_str(&record.gts_id).to_owned()));
    ctx.push(SqlBind::DateTime64Micros(datetime_to_micros(record.created_at)));
    ctx.push(SqlBind::Uuid(record.id));
    assert(bind_views(ctx.binds@) =~= before + key_binds(record_key(record@)));
}

/// Binds values to a query, in order.
fn bind_ctx(q: clickhouse::query::Query, ctx: &SqlCtx) -> (r: clickhouse::query::Query)
    ensures
        query_text(r) == query_text(q),
        query_args(r) == query_args(q) + args_of_binds(bind_views(ctx.binds@)),
{
    let ghost text = query_text(q);
    let ghost before = query_args(q);
    let ghost all = args_of_binds(bind_views(ctx.binds@));
    let mut bound = q;
    let mut i: usize = 0;
    assert(before + all.take(0) =~= before);
    while i < ctx.binds.len()
        invariant
            i <= ctx.binds@.len(),
            all == args_of_binds(bind_views(ctx.binds@)),
            query_text(bound) == text,
            query_args(bound) == before + all.take(i as int),
        decreases ctx.binds@.len() - i,
    {
        bound = bind_one(bound, &ctx.binds[i]);
        proof {
            assert(all[i as int] == arg_of(ctx.binds@[i as int]@));
            assert(before + all.take(i + 1) =~= (before + all.take(i as int)).push(
                all[i as int],
            ));
        }
        i = i + 1;
    }
    assert(all.take(i as int) =~= all);
    bound
}

/// The query that looks the keys of some records up, or none where there are no
/// records.
pub fn batch_dedup_lookup(
    client: &clickhouse::Client,
    records: &Vec<UsageRecord>,
    idxs: &Vec<usize>,
) -> (r: Option<clickhouse::query::Query>)
    requires
        forall|j: int| 0 <= j < idxs@.len() ==> (#[trigger] idxs@[j]) < records@.len(),
    ensures
        r is None <==> idxs@.len() == 0,
        r matches Some(q) ==> {
            &&& query_text(q) == final_select(keys_lookup(idxs@.len())).0
            &&& query_args(q) == args_of_binds(keys_binds(keys_at(records@, idxs@)))
        },
{
    if idxs.len() == 0 {
        return None;
    }
    let ghost keys = keys_at(records@, idxs@);
    let mut ctx = SqlCtx::new();
    let mut tuples: Vec<String> = Vec::new();
    let mut i: usize = 0;
    proof {
        assert(keys.take(0) =~= Seq::<DedupKeyView>::empty());
        assert(bind_views(ctx.binds@) =~= Seq::<SqlBindView>::empty());
    }
    while i < idxs.len()
        invariant
            i <= idxs@.len(),
            keys == keys_at(records@, idxs@),
            forall|j: int| 0 <= j < idxs@.len() ==> (#[trigger] idxs@[j]) < records@.len(),
            bind_views(ctx.binds@) == keys_binds(keys.take(i as int)),
            tuples@.len() == i,
            forall|j: int| 0 <= j < i ==> (#[trigger] tuples@[j])@ == key_slot(),
        decreases idxs@.len() - i,
    {
        proof {
            let longer = keys.take(i + 1);
            assert(longer.drop_last() =~= keys.take(i as int));
            assert(longer.last() == record_key(records@[idxs@[i as int] as int]@));
        }
        push_key(&mut ctx, &records[idxs[i]]);
        tuples.push("(?, ?, fromUnixTimestamp64Micro(?), ?)".to_owned());
        i = i + 1;
    }
    proof {
        assert(keys.take(i as int) =~= keys);
        assert(texts(tuples@) =~= Seq::new(idxs@.len(), |i: int| key_slot()));
    }
    let in_clause = "(tenant_id, gts_id, created_at, id) IN (".to_owned().concat(
        join_texts(&tuples, ", ").as_str(),
    ).concat(")");
    let mut stmt = select_records();
    let cond = condition_from_expr(expr_cust(in_clause));
    proof {
        lemma_just_balanced(ExprTree::Custom(keys_condition_text(idxs@.len())));
        lemma_filtered_balanced(select_tree(stmt), condition_tree(cond));
    }
    select_cond_where(&mut stmt, cond);
    let (sql, _) = build_select_final(stmt);
    proof {
        let args = args_of_binds(bind_views(ctx.binds@));
        assert(Seq::<QueryArg>::empty() + args =~= args);
    }
    Some(bind_ctx(client_query(client, sql.as_str()), &ctx))
}

/// Every placeholder of the lookup of `keys` has a value.
pub proof fn law_keys_lookup_is_bound(keys: Seq<DedupKeyView>)
    ensures
        placeholders(keys_condition_text(keys.len())) == keys_binds(keys).len(),
{
    reveal_strlit("(?, ?, fromUnixTimestamp64Micro(?), ?)");
    reveal_strlit("(tenant_id, gts_id, created_at, id) IN (");
    reveal_strlit(")");
    reveal_strlit(", ");
    assert(placeholders(key_slot()) == 4) by {
        reveal_with_fuel(placeholders_below, 39);
    }
    assert(placeholders("(tenant_id, gts_id, created_at, id) IN ("@) == 0) by {
        reveal_with_fuel(placeholders_below, 41);
    }
    assert(placeholders(")"@) == 0 && placeholders(", "@) == 0) by {
        reveal_with_fuel(placeholders_below, 3);
    }
    let slots = Seq::new(keys.len(), |i: int| key_slot());
    lemma_slots_placeholders(keys.len());
    lemma_binds_count(keys);
    let head = "(tenant_id, gts_id, created_at, id) IN ("@;
    lemma_placeholders_of_sum(head, joined(slots, ", "@));
    lemma_placeholders_of_sum(head + joined(slots, ", "@), ")"@);
}

proof fn lemma_binds_count(keys: Seq<DedupKeyView>)
    ensures
        keys_binds(keys).len() == 4 * keys.len(),
    decreases keys.len(),
{
    if keys.len() > 0 {
        lemma_binds_count(keys.drop_last());
    }
}

proof fn lemma_slots_placeholders(n: nat)
    requires
        placeholders(key_slot()) == 4,
        placeholders(", "@) == 0,
    ensures
        placeholders(joined(Seq::new(n, |i: int| key_slot()), ", "@)) == 4 * n,
    decreases n,
{
    let slots = Seq::new(n, |i: int| key_slot());
    if n > 1 {
        let fewer = Seq::new((n - 1) as nat, |i: int| key_slot());
        lemma_slots_placeholders((n - 1) as nat);
        assert(slots.drop_last() =~= fewer);
        lemma_placeholders_of_sum(joined(fewer, ", "@), ", "@);
        lemma_placeholders_of_sum(joined(fewer, ", "@) + ", "@, key_slot());
    }
}

// ---- what a hit means ----

/// A record that is absorbed is the stored one: what it is answered with is
/// active and agrees with what was sent on the identifier, the value as a number,
/// the resource, the subject, the record that is corrected and the metadata.
pub proof fn law_absorbed_record_is_what_was_sent<V: Fn(Candidate) -> Result<(), String>>(
    validate: V,
    row: RowView,
    record: UsageRecordView,
    m: UsageRecordView,
)
    requires
        hit_outcome(validate, row, record, Ok::<UsageRecordView, ErrorView>(m)),
    ensures
        row.status == UsageRecordStatusCode::Active,
        m.status == UsageRecordStatus::Active,
        m.id == record.id,
        m.value.mantissa() * pow(10, record.value.scale) == record.value.mantissa() * pow(
            10,
            m.value.scale,
        ),
        m.resource_ref.id == record.resource_ref.id,
        m.resource_ref.kind == record.resource_ref.kind,
        m.subject_ref == record.subject_ref,
        m.corrects_id == record.corrects_id,
        m.metadata == record.metadata,
        m.tenant_id == row.tenant_id,
        m.gts_id == row.gts_id,
        m.idempotency_key == row.idempotency_key,
        m.created_at == row.created_at * 1000,
{
    law_record_is_what_its_row_holds(validate, row, m);
}

/// A record that agrees with the active row under its key, field by field, is
/// absorbed and never refused, as long as validation rejects nothing of the row
/// and its timestamp is an instant.
pub proof fn law_record_sent_again_is_absorbed<V: Fn(Candidate) -> Result<(), String>>(
    validate: V,
    row: RowView,
    record: UsageRecordView,
    outcome: Result<UsageRecordView, ErrorView>,
)
    requires
        hit_outcome(validate, row, record, outcome),
        forall|c: CandidateView, why: Seq<char>| !#[trigger] rejects(validate, c, why),
        in_instant_range(row.created_at * 1000),
        row.status == UsageRecordStatusCode::Active,
        row.id == record.id,
        row.value.mantissa() * pow(10, record.value.scale) == record.value.mantissa() * pow(
            10,
            row.value.scale,
        ),
        row.resource_id == record.resource_ref.id,
        row.resource_type == record.resource_ref.kind,
        record.subject_ref is None ==> row.subject_id is None && row.subject_type is None,
        record.subject_ref matches Some(s) ==> row.subject_id == Some(s.id) && row.subject_type
            == s.kind,
        row.corrects_id == record.corrects_id,
        row.metadata == record.metadata,
    ensures
        outcome is Ok,
{
}

/// A record is refused with a conflict that names its own deduplication key and
/// the row that the key is bound to, wherever the row was deactivated or differs
/// in one of the canonical fields and has no metadata key that is rejected.
pub proof fn law_conflicting_record_is_refused<V: Fn(Candidate) -> Result<(), String>>(
    validate: V,
    row: RowView,
    record: UsageRecordView,
    outcome: Result<UsageRecordView, ErrorView>,
)
    requires
        hit_outcome(validate, row, record, outcome),
        row.status == UsageRecordStatusCode::Inactive || (forall|k: Seq<char>, why: Seq<char>|
            row.metadata.contains_key(k) ==> !#[trigger] rejects(
                validate,
                CandidateView::MetadataKey(k),
                why,
            )) && {
            ||| row.id != record.id
            ||| row.value.mantissa() * pow(10, record.value.scale) != record.value.mantissa() * pow(
                10,
                row.value.scale,
            )
            ||| row.resource_id != record.resource_ref.id
            ||| row.resource_type != record.resource_ref.kind
            ||| record.subject_ref is None && (row.subject_id is Some || row.subject_type is Some)
            ||| record.subject_ref is Some && (row.subject_id != Some(record.subject_ref->0.id)
                || row.subject_type != record.subject_ref->0.kind)
            ||| row.corrects_id != record.corrects_id
            ||| row.metadata != record.metadata
        },
    ensures
        outcome == Err::<UsageRecordView, ErrorView>(
            ErrorView::IdempotencyConflict {
                idempotency_key: record.idempotency_key,
                existing_id: row.id,
            },
        ),
{
}

/// A record and a row have the same key exactly when tenant, usage type, event
/// time to the microsecond and identifier are the same; so have two records, and
/// so have two rows.
pub proof fn law_key_has_four_parts(
    record: UsageRecordView,
    other: UsageRecordView,
    row: RowView,
    another: RowView,
)
    requires
        in_instant_range(record.created_at),
        in_instant_range(other.created_at),
    ensures
        record_key(record) == stored_key(row) <==> {
            &&& record.tenant_id == row.tenant_id
            &&& record.gts_id == row.gts_id
            &&& record.created_at / 1000 == row.created_at
            &&& record.id == row.id
        },
        record_key(record) == record_key(other) <==> {
            &&& record.tenant_id == other.tenant_id
            &&& record.gts_id == other.gts_id
            &&& record.created_at / 1000 == other.created_at / 1000
            &&& record.id == other.id
        },
        stored_key(row) == stored_key(another) <==> {
            &&& row.tenant_id == another.tenant_id
            &&& row.gts_id == another.gts_id
            &&& row.created_at == another.created_at
            &&& row.id == another.id
        },
{
}

/// The failure of a partition reaches its records as it is where any record may
/// have it, and else as an internal error with its message: no record is told
/// that it is another one that was refused.
pub proof fn law_partition_failure_reaches_its_records(err: ErrorView, shown: Seq<char>)
    ensures
        err is Transient || err is UsageTypeNotFound || err is Internal ==> partition_error(
            err,
            shown,
        ) == err,
        err is IdempotencyConflict || err is UsageRecordNotFound || err
            is UsageRecordAlreadyInactive ==> partition_error(err, shown) == ErrorView::Internal(
            shown,
        ),
{
}

/// A lookup reads the rows whose tenant, usage type, event time and identifier
/// equal those of the key, each compared with the column of its own, and gives
/// back whole rows of `usage_records`, as many as there are.
pub proof fn law_lookup_compares_each_part_with_its_column(
    key: DedupKeyView,
    leaf: spec_fn(ExprTree) -> Truth,
)
    ensures
        where_truth(key_lookup(key), leaf) is True <==> {
            &&& leaf(
                ExprTree::Binary(
                    Box::new(ExprTree::Column("tenant_id"@)),
                    Comparison::Equal,
                    Box::new(ExprTree::Value(DatumView::Text(Some(uuid_text(key.0.bits))))),
                ),
            ) is True
            &&& leaf(
                ExprTree::Binary(
                    Box::new(ExprTree::Column("gts_id"@)),
                    Comparison::Equal,
                    Box::new(ExprTree::Value(DatumView::Text(Some(key.1)))),
                ),
            ) is True
            &&& leaf(
                ExprTree::Binary(
                    Box::new(ExprTree::Column("created_at"@)),
                    Comparison::Equal,
                    Box::new(
                        ExprTree::CustomWithExpr(
                            "fromUnixTimestamp64Micro(?)"@,
                            seq![ExprTree::Value(DatumView::BigInt(Some(key.2)))],
                        ),
                    ),
                ),
            ) is True
            &&& leaf(
                ExprTree::Binary(
                    Box::new(ExprTree::Column("id"@)),
                    Comparison::Equal,
                    Box::new(ExprTree::Value(DatumView::Text(Some(uuid_text(key.3.bits))))),
                ),
            ) is True
        },
        key_lookup(key).from == seq!["usage_records"@],
        key_lookup(key).limit is None,
        key_lookup(key).groups.len() == 0,
{
    law_lookup_reads_the_key(key, leaf);
}

/// Keys that are looked up together are compared as tuples of four columns with
/// one tuple for each key, and each tuple is given the key's tenant, usage type,
/// event time and identifier, in that order.
pub proof fn law_keys_are_looked_up_as_tuples(keys: Seq<DedupKeyView>, i: int)
    requires
        0 <= i < keys.len(),
    ensures
        keys_lookup(keys.len()).filter == Some(
            ConditionTree {
                negate: false,
                any: false,
                items: seq![
                    ConditionItem::Leaf(
                        ExprTree::Custom(
                            "(tenant_id, gts_id, created_at, id) IN ("@ + joined(
                                Seq::new(
                                    keys.len(),
                                    |k: int| "(?, ?, fromUnixTimestamp64Micro(?), ?)"@,
                                ),
                                ", "@,
                            ) + ")"@,
                        ),
                    ),
                ],
            },
        ),
        keys_lookup(keys.len()).from == seq!["usage_records"@],
        keys_lookup(keys.len()).limit is None,
        args_of_binds(keys_binds(keys)).len() == 4 * keys.len(),
        args_of_binds(keys_binds(keys))[4 * i] == QueryArg::Text(uuid_text(keys[i].0.bits)),
        args_of_binds(keys_binds(keys))[4 * i + 1] == QueryArg::Text(keys[i].1),
        args_of_binds(keys_binds(keys))[4 * i + 2] == QueryArg::I64(keys[i].2),
        args_of_binds(keys_binds(keys))[4 * i + 3] == QueryArg::Text(uuid_text(keys[i].3.bits)),
    decreases keys.len(),
{
    let front = keys.drop_last();
    lemma_keys_binds_len(front);
    assert(keys_binds(keys) == keys_binds(front) + key_binds(keys.last()));
    assert(Seq::new(keys.len(), |k: int| key_slot()) =~= Seq::new(
        keys.len(),
        |k: int| "(?, ?, fromUnixTimestamp64Micro(?), ?)"@,
    ));
    if i < front.len() {
        law_keys_are_looked_up_as_tuples(front, i);
        assert(keys_binds(keys)[4 * i] == keys_binds(front)[4 * i]);
        assert(keys_binds(keys)[4 * i + 1] == keys_binds(front)[4 * i + 1]);
        assert(keys_binds(keys)[4 * i + 2] == keys_binds(front)[4 * i + 2]);
        assert(keys_binds(keys)[4 * i + 3] == keys_binds(front)[4 * i + 3]);
        assert(args_of_binds(keys_binds(front))[4 * i] == arg_of(keys_binds(front)[4 * i]));
        assert(args_of_binds(keys_binds(front))[4 * i + 1] == arg_of(keys_binds(front)[4 * i + 1]));
        assert(args_of_binds(keys_binds(front))[4 * i + 2] == arg_of(keys_binds(front)[4 * i + 2]));
        assert(args_of_binds(keys_binds(front))[4 * i + 3] == arg_of(keys_binds(front)[4 * i + 3]));
    }
}

proof fn lemma_keys_binds_len(keys: Seq<DedupKeyView>)
    ensures
        keys_binds(keys).len() == 4 * keys.len(),
    decreases keys.len(),
{
    if keys.len() > 0 {
        lemma_keys_binds_len(keys.drop_last());
    }
}

/// A batch looks the key of every one of its records up, in their order: tenant,
/// usage type, event time to the microsecond and identifier.
pub proof fn law_every_key_of_a_batch_is_looked_up(
    records: Seq<UsageRecord>,
    idxs: Seq<usize>,
    j: int,
)
    requires
        0 <= j < idxs.len(),
        in_instant_range(records[idxs[j] as int]@.created_at),
    ensures
        keys_at(records, idxs).len() == idxs.len(),
        keys_at(records, idxs)[j].0 == records[idxs[j] as int]@.tenant_id,
        keys_at(records, idxs)[j].1 == records[idxs[j] as int]@.gts_id,
        keys_at(records, idxs)[j].2 == records[idxs[j] as int]@.created_at / 1000,
        keys_at(records, idxs)[j].3 == records[idxs[j] as int]@.id,
{
}

/// A key is compared part by part.
pub proof fn law_key_is_seen_part_by_part(k: DedupKey)
    ensures
        key_view(k).0 == k.0,
        key_view(k).1 == k.1@,
        key_view(k).2 == k.2,
        key_view(k).3 == k.3,
{
}

} // verus!
