//! The page of the rows that were read.
use crate::entity::{row_views, RowView, UsageRecordRow, UsageRecordStatusCode};
use crate::mapper::{
    law_record_is_what_its_row_holds, model_of_row, record_row_key, record_row_to_model, row_key,
    row_outcome,
};
use crate::model::{
    answers_all, rejects, Candidate, CandidateView, ErrorView, UsageCollectorPluginError,
    UsageRecord, UsageRecordStatus, UsageRecordView,
};
use crate::query::keyset::{
    encode_next_cursor, encodes, next_cursor_view, CursorV1, CursorView, ODataOrderBy, OrderKeyView,
};
use crate::record_store::list::ListQuery;
use crate::text::{optional_text, texts};
use crate::values::in_instant_range;
use vstd::prelude::*;
use vstd::string::*;

verus! {

/// A page of records.
#[derive(Debug)]
pub struct Page {
    pub items: Vec<UsageRecord>,
    pub page_info: PageInfo,
}

/// Where a page stands.
#[derive(Debug)]
pub struct PageInfo {
    pub next_cursor: Option<String>,
    pub prev_cursor: Option<String>,
    pub limit: u64,
}

/// The cursor keys of a row, or why there is none: the first field without one.
pub open spec fn row_keys(row: RowView, order: Seq<OrderKeyView>) -> Result<
    Seq<Seq<char>>,
    Seq<char>,
>
    decreases order.len(),
{
    if order.len() == 0 {
        Ok(Seq::empty())
    } else {
        match row_keys(row, order.drop_last()) {
            Err(why) => Err(why),
            Ok(front) => match row_key(row, order.last().field) {
                None => Err(
                    "order field `"@ + order.last().field + "` has no cursor key on the row"@,
                ),
                Some(key) => Ok(front.push(key)),
            },
        }
    }
}

proof fn lemma_row_keys_stop(row: RowView, order: Seq<OrderKeyView>, n: int)
    requires
        0 <= n <= order.len(),
        row_keys(row, order.take(n)) is Err,
    ensures
        row_keys(row, order) == row_keys(row, order.take(n)),
    decreases order.len(),
{
    if n == order.len() {
        assert(order.take(n) =~= order);
    } else {
        let front = order.drop_last();
        assert(front.take(n) =~= order.take(n));
        lemma_row_keys_stop(row, front, n);
    }
}

/// The keys of a row are one for each field of the order.
pub proof fn law_row_keys_follow_the_order(row: RowView, order: Seq<OrderKeyView>)
    requires
        row_keys(row, order) is Ok,
    ensures
        row_keys(row, order)->Ok_0.len() == order.len(),
        forall|i: int|
            0 <= i < order.len() ==> row_key(row, order[i].field) == Some(
                #[trigger] row_keys(row, order)->Ok_0[i],
            ),
    decreases order.len(),
{
    if order.len() > 0 {
        let front = order.drop_last();
        law_row_keys_follow_the_order(row, front);
        let keys = row_keys(row, order)->Ok_0;
        assert forall|i: int| 0 <= i < order.len() implies row_key(row, order[i].field) == Some(
            #[trigger] keys[i],
        ) by {
            if i < front.len() {
                assert(keys[i] == row_keys(row, front)->Ok_0[i]);
                assert(order[i] == front[i]);
            }
        }
    }
}

/// Reads the cursor keys of a row.
fn read_row_keys(row: &UsageRecordRow, order: &ODataOrderBy) -> (r: Result<
    Vec<String>,
    UsageCollectorPluginError,
>)
    ensures
        match row_keys(row@, order@) {
            Ok(keys) => r matches Ok(k) && texts(k@) == keys,
            Err(why) => r matches Err(e) && e@ == ErrorView::Internal(why),
        },
{
    let mut keys: Vec<String> = Vec::new();
    let mut i: usize = 0;
    assert(order@.take(0) =~= Seq::<OrderKeyView>::empty());
    assert(texts(keys@) =~= Seq::<Seq<char>>::empty());
    while i < order.keys.len()
        invariant
            i <= order.keys@.len(),
            row_keys(row@, order@.take(i as int)) == Ok::<Seq<Seq<char>>, Seq<char>>(texts(keys@)),
        decreases order.keys@.len() - i,
    {
        let field = order.keys[i].field.as_str();
        proof {
            let longer = order@.take(i + 1);
            assert(longer.drop_last() =~= order@.take(i as int));
            assert(longer.last() == order.keys@[i as int]@);
        }
        match record_row_key(row, field) {
            Some(key) => {
                let ghost before = keys@;
                keys.push(key);
                assert(texts(keys@) =~= texts(before).push(key@));
            },
            None => {
                proof {
                    lemma_row_keys_stop(row@, order@, i + 1);
                }
                return Err(
                    UsageCollectorPluginError::internal(
                        "order field `".to_owned().concat(field).concat(
                            "` has no cursor key on the row",
                        ),
                    ),
                );
            },
        }
        i = i + 1;
    }
    assert(order@.take(i as int) =~= order@);
    Ok(keys)
}

/// The rows that a page shows.
pub open spec fn shown_rows(rows: Seq<RowView>, limit: u64) -> Seq<RowView> {
    if rows.len() > limit {
        rows.take(limit as int)
    } else {
        rows
    }
}

/// The outcomes of naming the cursor behind a page: none where no row is left
/// out, else that of the last row shown.
pub open spec fn token_outcome<E: Fn(CursorV1) -> Result<String, String>>(
    encode: E,
    q: ListQuery,
    rows: Seq<RowView>,
    outcome: Result<Option<Seq<char>>, ErrorView>,
) -> bool {
    if rows.len() <= q.limit {
        outcome == Ok::<Option<Seq<char>>, ErrorView>(None)
    } else if q.limit == 0 {
        outcome == Err::<Option<Seq<char>>, ErrorView>(
            ErrorView::Internal("non-empty page lost its tail"@),
        )
    } else {
        match row_keys(rows[q.limit - 1], q.order@) {
            Err(why) => outcome == Err::<Option<Seq<char>>, ErrorView>(ErrorView::Internal(why)),
            Ok(keys) => match next_cursor_view(
                q.order@,
                q.signed_tokens@,
                keys,
                optional_text(q.filter_hash),
            ) {
                Err(why) => outcome == Err::<Option<Seq<char>>, ErrorView>(
                    ErrorView::Internal(why),
                ),
                Ok(cursor) => match outcome {
                    Ok(token) => token is Some && encodes(
                        encode,
                        cursor,
                        Ok::<Seq<char>, Seq<char>>(token->0),
                    ),
                    Err(e) => exists|why: Seq<char>| #[trigger]
                        encodes(encode, cursor, Err::<Seq<char>, Seq<char>>(why)) && e
                            == ErrorView::Internal("cursor encode failed: "@ + why),
                },
            },
        }
    }
}

/// Some outcome of turning the row into a record is a record.
pub open spec fn row_is_readable<V: Fn(Candidate) -> Result<(), String>>(
    validate: V,
    row: RowView,
) -> bool {
    row_outcome(validate, row, Ok::<UsageRecordView, ErrorView>(model_of_row(row)))
}

/// The records of a sequence of rows.
pub open spec fn models_of_rows(rows: Seq<RowView>) -> Seq<UsageRecordView> {
    rows.map_values(|r: RowView| model_of_row(r))
}

/// The first row that is no record fails with that error.
pub open spec fn unreadable_at<V: Fn(Candidate) -> Result<(), String>>(
    validate: V,
    rows: Seq<RowView>,
    i: int,
    e: ErrorView,
) -> bool {
    &&& 0 <= i < rows.len()
    &&& forall|j: int| 0 <= j < i ==> row_is_readable(validate, #[trigger] rows[j])
    &&& row_outcome(validate, rows[i], Err::<UsageRecordView, ErrorView>(e))
}

/// The outcomes of turning rows into records.
pub open spec fn items_outcome<V: Fn(Candidate) -> Result<(), String>>(
    validate: V,
    rows: Seq<RowView>,
    outcome: Result<Seq<UsageRecordView>, ErrorView>,
) -> bool {
    match outcome {
        Ok(items) => items == models_of_rows(rows) && forall|i: int|
            0 <= i < rows.len() ==> row_is_readable(validate, #[trigger] rows[i]),
        Err(e) => exists|i: int| #[trigger] unreadable_at(validate, rows, i, e),
    }
}

/// The views of records.
pub open spec fn record_views(records: Seq<UsageRecord>) -> Seq<UsageRecordView> {
    records.map_values(|r: UsageRecord| r@)
}

/// Turns rows into records.
fn read_rows<V: Fn(Candidate) -> Result<(), String>>(
    rows: Vec<UsageRecordRow>,
    validate: &V,
) -> (r: Result<Vec<UsageRecord>, UsageCollectorPluginError>)
    requires
        answers_all(*validate),
    ensures
        r matches Ok(items) ==> items_outcome(
            *validate,
            row_views(rows@),
            Ok::<Seq<UsageRecordView>, ErrorView>(record_views(items@)),
        ),
        r matches Err(e) ==> items_outcome(
            *validate,
            row_views(rows@),
            Err::<Seq<UsageRecordView>, ErrorView>(e@),
        ),
{
    let ghost views = row_views(rows@);
    let mut items: Vec<UsageRecord> = Vec::new();
    for row in iter: rows.into_iter()
        invariant
            answers_all(*validate),
            iter.seq() == rows@,
            views == row_views(rows@),
            items@.len() == iter.index(),
            forall|j: int|
                0 <= j < iter.index() ==> row_is_readable(*validate, #[trigger] views[j])
                    && items@[j]@ == model_of_row(views[j]),
    {
        assert(row@ == views[iter.index() as int]);
        match record_row_to_model(row, validate) {
            Ok(m) => {
                items.push(m);
            },
            Err(e) => {
                assert(unreadable_at(*validate, views, iter.index() as int, e@));
                return Err(e);
            },
        }
    }
    assert(record_views(items@) =~= models_of_rows(views));
    Ok(items)
}

/// The outcomes of making a page of the rows that were read: one row more than
/// the page holds tells that there is a next page.
pub open spec fn page_outcome<
    V: Fn(Candidate) -> Result<(), String>,
    E: Fn(CursorV1) -> Result<String, String>,
>(
    validate: V,
    encode: E,
    q: ListQuery,
    rows: Seq<RowView>,
    r: Result<Page, UsageCollectorPluginError>,
) -> bool {
    let shown = shown_rows(rows, q.limit);
    match r {
        Ok(page) => {
            &&& token_outcome(
                encode,
                q,
                rows,
                Ok::<Option<Seq<char>>, ErrorView>(optional_text(page.page_info.next_cursor)),
            )
            &&& items_outcome(
                validate,
                shown,
                Ok::<Seq<UsageRecordView>, ErrorView>(record_views(page.items@)),
            )
            &&& page.page_info.prev_cursor is None
            &&& page.page_info.limit == q.limit
        },
        Err(e) => {
            ||| token_outcome(encode, q, rows, Err::<Option<Seq<char>>, ErrorView>(e@))
            ||| items_outcome(validate, shown, Err::<Seq<UsageRecordView>, ErrorView>(e@))
                && exists|token: Option<Seq<char>>| #[trigger]
                token_outcome(encode, q, rows, Ok::<Option<Seq<char>>, ErrorView>(token))
        },
    }
}

/// Makes a page of the rows that were read.
pub fn page_of_rows<
    V: Fn(Candidate) -> Result<(), String>,
    E: Fn(CursorV1) -> Result<String, String>,
>(rows: Vec<UsageRecordRow>, q: &ListQuery, encode: &E, validate: &V) -> (r: Result<
    Page,
    UsageCollectorPluginError,
>)
    requires
        answers_all(*validate),
        forall|c: CursorV1| call_requires(*encode, (c,)),
    ensures
        page_outcome(*validate, *encode, *q, row_views(rows@), r),
{
    let ghost views = row_views(rows@);
    let mut rows = rows;
    let has_next = rows.len() as u64 > q.limit;
    let mut next_cursor: Option<String> = None;
    if has_next {
        let limit = q.limit as usize;
        rows.truncate(limit);
        assert(row_views(rows@) =~= views.take(q.limit as int));
        if limit == 0 {
            return Err(
                UsageCollectorPluginError::internal("non-empty page lost its tail".to_owned()),
            );
        }
        let last = &rows[limit - 1];
        assert(last@ == views[q.limit - 1]);
        let keys = match read_row_keys(last, &q.order) {
            Ok(k) => k,
            Err(e) => {
                return Err(e);
            },
        };
        match encode_next_cursor(
            &q.order,
            q.signed_tokens.as_str(),
            &keys,
            &q.filter_hash,
            encode,
        ) {
            Ok(token) => {
                next_cursor = Some(token);
            },
            Err(e) => {
                return Err(UsageCollectorPluginError::internal(e));
            },
        }
    }
    assert(row_views(rows@) =~= shown_rows(views, q.limit));
    assert(token_outcome(
        *encode,
        *q,
        views,
        Ok::<Option<Seq<char>>, ErrorView>(optional_text(next_cursor)),
    ));
    match read_rows(rows, validate) {
        Ok(items) => Ok(
            Page { items, page_info: PageInfo { next_cursor, prev_cursor: None, limit: q.limit } },
        ),
        Err(e) => Err(e),
    }
}

/// A page holds the first rows that were read, at most as many as its limit, in
/// their order, and names a next page exactly when a row is left out.
pub proof fn law_page_holds_the_first_rows<
    V: Fn(Candidate) -> Result<(), String>,
    E: Fn(CursorV1) -> Result<String, String>,
>(validate: V, encode: E, q: ListQuery, rows: Seq<RowView>, page: Page)
    requires
        page_outcome(
            validate,
            encode,
            q,
            rows,
            Ok::<Page, UsageCollectorPluginError>(page),
        ),
    ensures
        page.items@.len() <= q.limit,
        page.items@.len() <= rows.len(),
        page.items@.len() < q.limit ==> page.items@.len() == rows.len(),
        forall|i: int|
            0 <= i < page.items@.len() ==> (#[trigger] page.items@[i])@ == model_of_row(rows[i]),
        page.page_info.next_cursor is Some <==> rows.len() > page.items@.len(),
{
    let shown = shown_rows(rows, q.limit);
    assert(record_views(page.items@) == models_of_rows(shown));
    assert(page.items@.len() == shown.len());
    assert forall|i: int| 0 <= i < page.items@.len() implies (#[trigger] page.items@[i])@
        == model_of_row(rows[i]) by {
        assert(record_views(page.items@)[i] == models_of_rows(shown)[i]);
        assert(shown[i] == rows[i]);
    }
    assert(optional_text(page.page_info.next_cursor) is Some <==> rows.len() > q.limit);
}

/// The next page starts right behind the last record of this one: the keys of
/// its cursor are those of the last row shown, and the cursor passes the tests
/// of direction and filter that it is put to when it comes back.
pub proof fn law_next_page_starts_behind_the_last_row<
    E: Fn(CursorV1) -> Result<String, String>,
>(encode: E, q: ListQuery, rows: Seq<RowView>, token: Seq<char>)
    requires
        token_outcome(encode, q, rows, Ok::<Option<Seq<char>>, ErrorView>(Some(token))),
    ensures
        0 < q.limit < rows.len(),
        exists|cursor: CursorView| #[trigger]
            encodes(encode, cursor, Ok::<Seq<char>, Seq<char>>(token)) && cursor.d == "fwd"@
                && cursor.f == optional_text(q.filter_hash) && cursor.s == q.signed_tokens@
                && cursor.k.len() == q.order@.len() && forall|i: int|
                0 <= i < cursor.k.len() ==> row_key(rows[q.limit - 1], q.order@[i].field) == Some(
                    #[trigger] cursor.k[i],
                ),
{
    let row = rows[q.limit - 1];
    let keys = row_keys(row, q.order@)->Ok_0;
    law_row_keys_follow_the_order(row, q.order@);
    let cursor = next_cursor_view(
        q.order@,
        q.signed_tokens@,
        keys,
        optional_text(q.filter_hash),
    )->Ok_0;
    assert(encodes(encode, cursor, Ok::<Seq<char>, Seq<char>>(token)));
}

/// A page tells the limit it was made with, names no page before it, and where a
/// row is left out its cursor pages on in the direction of the order's first key.
pub proof fn law_page_tells_where_it_stands<
    V: Fn(Candidate) -> Result<(), String>,
    E: Fn(CursorV1) -> Result<String, String>,
>(validate: V, encode: E, q: ListQuery, rows: Seq<RowView>, page: Page)
    requires
        page_outcome(
            validate,
            encode,
            q,
            rows,
            Ok::<Page, UsageCollectorPluginError>(page),
        ),
    ensures
        page.page_info.limit == q.limit,
        page.page_info.prev_cursor is None,
        rows.len() <= q.limit ==> page.items@.len() == rows.len()
            && page.page_info.next_cursor is None,
        rows.len() > q.limit ==> page.items@.len() == q.limit && (page.page_info.next_cursor matches
            Some(token) && exists|cursor: CursorView| #[trigger]
            encodes(encode, cursor, Ok::<Seq<char>, Seq<char>>(token@)) && cursor.o
                == q.order@[0].dir && cursor.d == "fwd"@ && cursor.k.len() == q.order@.len()),
{
    law_page_holds_the_first_rows(validate, encode, q, rows, page);
    if rows.len() > q.limit {
        let token = page.page_info.next_cursor->0@;
        assert(optional_text(page.page_info.next_cursor) == Some(token));
        let keys = row_keys(rows[q.limit - 1], q.order@)->Ok_0;
        law_row_keys_follow_the_order(rows[q.limit - 1], q.order@);
        let cursor = next_cursor_view(
            q.order@,
            q.signed_tokens@,
            keys,
            optional_text(q.filter_hash),
        )->Ok_0;
        assert(encodes(encode, cursor, Ok::<Seq<char>, Seq<char>>(token)));
    }
}

/// The records of a page are what its rows hold, in the order of the rows: a
/// deactivated row is shown as an inactive record, and no row is changed or
/// skipped.
pub proof fn law_page_shows_what_its_rows_hold<
    V: Fn(Candidate) -> Result<(), String>,
    E: Fn(CursorV1) -> Result<String, String>,
>(validate: V, encode: E, q: ListQuery, rows: Seq<RowView>, page: Page, i: int)
    requires
        page_outcome(
            validate,
            encode,
            q,
            rows,
            Ok::<Page, UsageCollectorPluginError>(page),
        ),
        0 <= i < page.items@.len(),
    ensures
        ({
            let m = page.items@[i]@;
            &&& i < rows.len()
            &&& m.id == rows[i].id
            &&& m.tenant_id == rows[i].tenant_id
            &&& m.gts_id == rows[i].gts_id
            &&& m.value == rows[i].value
            &&& m.created_at == rows[i].created_at * 1000
            &&& m.resource_ref.id == rows[i].resource_id
            &&& m.resource_ref.kind == rows[i].resource_type
            &&& m.subject_ref is Some <==> rows[i].subject_id is Some
            &&& m.subject_ref matches Some(s) ==> rows[i].subject_id == Some(s.id) && s.kind
                == rows[i].subject_type
            &&& m.idempotency_key == rows[i].idempotency_key
            &&& m.corrects_id == rows[i].corrects_id
            &&& m.metadata == rows[i].metadata
            &&& m.status == UsageRecordStatus::Inactive <==> rows[i].status
                == UsageRecordStatusCode::Inactive
        }),
{
    law_page_holds_the_first_rows(validate, encode, q, rows, page);
    let shown = shown_rows(rows, q.limit);
    assert(shown[i] == rows[i]);
    assert(row_is_readable(validate, shown[i]));
    law_record_is_what_its_row_holds(validate, rows[i], page.items@[i]@);
}

/// A page is made wherever nothing stands against it: no text of a row is
/// rejected, the timestamps are instants, and where a row is left out the last row
/// shown has a key for each field of the order and the cursor can be encoded.
pub proof fn law_page_is_made_where_nothing_is_rejected<
    V: Fn(Candidate) -> Result<(), String>,
    E: Fn(CursorV1) -> Result<String, String>,
>(
    validate: V,
    encode: E,
    q: ListQuery,
    rows: Seq<RowView>,
    r: Result<Page, UsageCollectorPluginError>,
)
    requires
        page_outcome(validate, encode, q, rows, r),
        forall|c: CandidateView, why: Seq<char>| !#[trigger] rejects(validate, c, why),
        forall|i: int| 0 <= i < rows.len() ==> in_instant_range((#[trigger] rows[i]).created_at
            * 1000),
        rows.len() > q.limit ==> {
            &&& q.limit > 0
            &&& q.order@.len() > 0
            &&& forall|i: int|
                0 <= i < q.order@.len() ==> row_key(
                    rows[q.limit - 1],
                    (#[trigger] q.order@[i]).field,
                ) is Some
            &&& forall|c: CursorView, why: Seq<char>|
                !#[trigger] encodes(encode, c, Err::<Seq<char>, Seq<char>>(why))
        },
    ensures
        r is Ok,
{
    if let Err(e) = r {
        let shown = shown_rows(rows, q.limit);
        if items_outcome(validate, shown, Err::<Seq<UsageRecordView>, ErrorView>(e@)) {
            let i = choose|i: int| #[trigger] unreadable_at(validate, shown, i, e@);
            assert(shown[i] == rows[i]);
        } else {
            assert(token_outcome(encode, q, rows, Err::<Option<Seq<char>>, ErrorView>(e@)));
            if rows.len() > q.limit {
                lemma_row_keys_owed(rows[q.limit - 1], q.order@);
                law_row_keys_follow_the_order(rows[q.limit - 1], q.order@);
            }
        }
    }
}

proof fn lemma_row_keys_owed(row: RowView, order: Seq<OrderKeyView>)
    requires
        forall|i: int| 0 <= i < order.len() ==> row_key(row, (#[trigger] order[i]).field) is Some,
    ensures
        row_keys(row, order) is Ok,
    decreases order.len(),
{
    if order.len() > 0 {
        let front = order.drop_last();
        assert forall|i: int| 0 <= i < front.len() implies row_key(
            row,
            (#[trigger] front[i]).field,
        ) is Some by {
            assert(front[i] == order[i]);
        }
        lemma_row_keys_owed(row, front);
        assert(row_key(row, order[order.len() - 1].field) is Some);
    }
}

/// Each record is seen as it is, in its place.
pub proof fn law_records_are_seen_one_by_one(records: Seq<UsageRecord>, i: int)
    requires
        0 <= i < records.len(),
    ensures
        record_views(records).len() == records.len(),
        record_views(records)[i] == records[i]@,
{
}

proof fn lemma_row_keys_missing(row: RowView, order: Seq<OrderKeyView>)
    ensures
        row_keys(row, order) matches Err(why) ==> exists|i: int|
            0 <= i < order.len() && row_key(row, (#[trigger] order[i]).field) is None && why
                == "order field `"@ + order[i].field + "` has no cursor key on the row"@,
    decreases order.len(),
{
    if order.len() > 0 {
        let front = order.drop_last();
        let last = order.len() - 1;
        lemma_row_keys_missing(row, front);
        if let Err(why) = row_keys(row, front) {
            let i = choose|i: int|
                0 <= i < front.len() && row_key(row, (#[trigger] front[i]).field) is None && why
                    == "order field `"@ + front[i].field + "` has no cursor key on the row"@;
            assert(order[i] == front[i]);
        } else if row_keys(row, order) is Err {
            assert(row_key(row, order[last].field) is None);
        }
    }
}

/// Why there is no page: a row that it shows is no record, and the first such row
/// tells why; or its cursor has no row to start from, no key for a field of the
/// order, no order, or no text.
pub proof fn law_page_is_refused_with_its_reason<
    V: Fn(Candidate) -> Result<(), String>,
    E: Fn(CursorV1) -> Result<String, String>,
>(validate: V, encode: E, q: ListQuery, rows: Seq<RowView>, e: UsageCollectorPluginError)
    requires
        page_outcome(validate, encode, q, rows, Err::<Page, UsageCollectorPluginError>(e)),
    ensures
        (exists|i: int|
            0 <= i < q.limit && i < rows.len() && #[trigger] row_outcome(
                validate,
                rows[i],
                Err::<UsageRecordView, ErrorView>(e@),
            )) || rows.len() > q.limit && {
            ||| q.limit == 0 && e@ == ErrorView::Internal("non-empty page lost its tail"@)
            ||| q.limit > 0 && exists|i: int|
                0 <= i < q.order@.len() && row_key(
                    rows[q.limit - 1],
                    (#[trigger] q.order@[i]).field,
                ) is None && e@ == ErrorView::Internal(
                    "order field `"@ + q.order@[i].field + "` has no cursor key on the row"@,
                )
            ||| q.order@.len() == 0 && e@ == ErrorView::Internal("cursor order must not be empty"@)
            ||| exists|cursor: CursorView, why: Seq<char>| #[trigger]
                encodes(encode, cursor, Err::<Seq<char>, Seq<char>>(why)) && e@
                    == ErrorView::Internal("cursor encode failed: "@ + why)
        },
{
    let shown = shown_rows(rows, q.limit);
    if items_outcome(validate, shown, Err::<Seq<UsageRecordView>, ErrorView>(e@)) {
        let i = choose|i: int| #[trigger] unreadable_at(validate, shown, i, e@);
        assert(shown[i] == rows[i]);
        assert(row_outcome(validate, rows[i], Err::<UsageRecordView, ErrorView>(e@)));
    } else if q.limit > 0 && rows.len() > q.limit {
        let row = rows[q.limit - 1];
        lemma_row_keys_missing(row, q.order@);
        if row_keys(row, q.order@) is Ok {
            law_row_keys_follow_the_order(row, q.order@);
        }
    }
}

} // verus!
