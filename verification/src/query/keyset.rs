//! Orders, keyset predicates and cursors.
//!
//! Which column a field names, of what kind its values are and whether it may
//! be a keyset key are asked of the functions that a caller passes.
use crate::query::bind::{
    bind_expr, bind_outcome, bind_views, placeholder_text, sql_bind_to_expr, SqlBind, SqlBindView,
};
use crate::entity::RowView;
use crate::mapper::row_key;
use crate::query::meaning::{lemma_bind_is_balanced, lemma_with_item_balanced};
use crate::query::translate::{column_view, record_column_text, SqlCtx};
use crate::sql::{
    all_of, condition_add, condition_all, condition_balanced, condition_from_expr, condition_tree,
    expr_balanced, expr_cust_with_exprs, expr_tree, expr_trees, just, lemma_placeholders_of_sum,
    placeholders, placeholders_below, with_item, ConditionItem, ConditionTree, DatumView, ExprTree,
    SortDir,
};
use crate::text::{
    decimal_text, join_texts, joined, optional_text, same_text, spell_unsigned, texts,
};
use crate::values::{
    in_instant_range, nanos_to_micros, rfc3339_parse, rfc3339_parsed, rfc3339_spelling, uuid_parsed,
    uuid_text, Uuid,
};
use vstd::prelude::*;
use vstd::string::*;

verus! {

/// One key of an order.
#[derive(Debug)]
pub struct OrderKey {
    pub field: String,
    pub dir: SortDir,
}

/// The view of an [`OrderKey`].
pub struct OrderKeyView {
    pub field: Seq<char>,
    pub dir: SortDir,
}

impl View for OrderKey {
    type V = OrderKeyView;

    open spec fn view(&self) -> OrderKeyView {
        OrderKeyView { field: self.field@, dir: self.dir }
    }
}

/// An order.
#[derive(Debug)]
pub struct ODataOrderBy {
    pub keys: Vec<OrderKey>,
}

impl View for ODataOrderBy {
    type V = Seq<OrderKeyView>;

    open spec fn view(&self) -> Seq<OrderKeyView> {
        self.keys@.map_values(|k: OrderKey| k@)
    }
}

impl ODataOrderBy {
    /// Whether there is no key.
    pub fn is_empty(&self) -> (r: bool)
        ensures
            r == (self@.len() == 0),
    {
        self.keys.len() == 0
    }
}

/// Where a page ended.
#[derive(Debug)]
pub struct CursorV1 {
    /// The keys of the last row, one for each key of the order.
    pub k: Vec<String>,
    /// The direction of the first key.
    pub o: SortDir,
    /// The order, as signed tokens.
    pub s: String,
    /// The hash of the filter.
    pub f: Option<String>,
    /// The direction of paging.
    pub d: String,
}

/// The view of a [`CursorV1`].
#[verifier::ext_equal]
pub struct CursorView {
    pub k: Seq<Seq<char>>,
    pub o: SortDir,
    pub s: Seq<char>,
    pub f: Option<Seq<char>>,
    pub d: Seq<char>,
}

impl View for CursorV1 {
    type V = CursorView;

    open spec fn view(&self) -> CursorView {
        CursorView {
            k: texts(self.k@),
            o: self.o,
            s: self.s@,
            f: optional_text(self.f),
            d: self.d@,
        }
    }
}

/// The kind of a field's values. A kind that no keyset column has is held by
/// its name.
#[derive(Debug)]
pub enum FieldKind {
    DateTimeUtc,
    Uuid,
    String,
    Other(String),
}

/// The view of a [`FieldKind`].
pub enum FieldKindView {
    DateTimeUtc,
    Uuid,
    String,
    Other(Seq<char>),
}

impl View for FieldKind {
    type V = FieldKindView;

    open spec fn view(&self) -> FieldKindView {
        match *self {
            FieldKind::DateTimeUtc => FieldKindView::DateTimeUtc,
            FieldKind::Uuid => FieldKindView::Uuid,
            FieldKind::String => FieldKindView::String,
            FieldKind::Other(name) => FieldKindView::Other(name@),
        }
    }
}

/// Accepts a cursor that pages forward and no other.
pub fn ensure_forward_cursor(cursor: &CursorV1) -> (r: Result<(), String>)
    ensures
        r is Ok <==> cursor@.d == "fwd"@,
        r matches Err(e) ==> e@ == "unsupported cursor direction `"@ + cursor@.d
            + "`: only forward paging is supported"@,
{
    if same_text(cursor.d.as_str(), "fwd") {
        Ok(())
    } else {
        Err(
            "unsupported cursor direction `".to_owned().concat(cursor.d.as_str()).concat(
                "`: only forward paging is supported",
            ),
        )
    }
}

/// The function may be asked about any name.
pub open spec fn answers_names<R, F: Fn(&str) -> R>(f: F) -> bool {
    forall|s: &str| call_requires(f, (s,))
}

/// The function answers that the field names the column, or none.
pub open spec fn names_column<F: Fn(&str) -> Option<&'static str>>(
    col: F,
    field: Seq<char>,
    column: Option<Seq<char>>,
) -> bool {
    exists|s: &str, r: Option<&'static str>|
        s@ == field && column_view(r) == column && #[trigger] call_ensures(col, (s,), r)
}

/// The view of an optional kind.
pub open spec fn kind_view(k: Option<FieldKind>) -> Option<FieldKindView> {
    match k {
        Some(x) => Some(x@),
        None => None,
    }
}

/// The function answers that the field is of the kind, or of none.
pub open spec fn has_kind<F: Fn(&str) -> Option<FieldKind>>(
    kind: F,
    field: Seq<char>,
    k: Option<FieldKindView>,
) -> bool {
    exists|s: &str, r: Option<FieldKind>|
        s@ == field && kind_view(r) == k && #[trigger] call_ensures(kind, (s,), r)
}

/// The function answers whether the field may be a keyset key.
pub open spec fn is_keyset_safe<F: Fn(&str) -> bool>(
    keyset_safe: F,
    field: Seq<char>,
    safe: bool,
) -> bool {
    exists|s: &str| s@ == field && #[trigger] call_ensures(keyset_safe, (s,), safe)
}

fn ask_column<F: Fn(&str) -> Option<&'static str>>(col: &F, field: &str) -> (r: Option<
    &'static str,
>)
    requires
        answers_names(*col),
    ensures
        names_column(*col, field@, column_view(r)),
{
    let r = col(field);
    assert(call_ensures(*col, (field,), r));
    r
}

fn ask_kind<F: Fn(&str) -> Option<FieldKind>>(kind: &F, field: &str) -> (r: Option<FieldKind>)
    requires
        answers_names(*kind),
    ensures
        has_kind(*kind, field@, kind_view(r)),
{
    let r = kind(field);
    assert(call_ensures(*kind, (field,), r));
    r
}

fn ask_safe<F: Fn(&str) -> bool>(keyset_safe: &F, field: &str) -> (r: bool)
    requires
        answers_names(*keyset_safe),
    ensures
        is_keyset_safe(*keyset_safe, field@, r),
{
    let r = keyset_safe(field);
    assert(call_ensures(*keyset_safe, (field,), r));
    r
}

/// The columns are those that the first fields of the order name.
pub open spec fn columns_named<F: Fn(&str) -> Option<&'static str>>(
    col: F,
    order: Seq<OrderKeyView>,
    columns: Seq<Seq<char>>,
) -> bool {
    &&& columns.len() <= order.len()
    &&& forall|i: int|
        0 <= i < columns.len() ==> names_column(col, order[i].field, Some(#[trigger] columns[i]))
}

/// Why an order has no columns: it is empty, or its first field that is off the
/// allowlist.
pub open spec fn order_error<F: Fn(&str) -> Option<&'static str>>(
    col: F,
    order: Seq<OrderKeyView>,
    e: Seq<char>,
) -> bool {
    if order.len() == 0 {
        e == "order must not be empty"@
    } else {
        exists|columns: Seq<Seq<char>>| #[trigger]
            columns_named(col, order, columns) && columns.len() < order.len() && names_column(
                col,
                order[columns.len() as int].field,
                None,
            ) && e == "order field not allowlisted: "@ + order[columns.len() as int].field
    }
}

/// The keyword of a direction.
pub open spec fn direction_text(dir: SortDir) -> Seq<char> {
    match dir {
        SortDir::Asc => "ASC"@,
        SortDir::Desc => "DESC"@,
    }
}

/// The clauses of an order over its columns.
pub open spec fn order_parts(order: Seq<OrderKeyView>, columns: Seq<Seq<char>>) -> Seq<Seq<char>> {
    Seq::new(columns.len(), |i: int| columns[i] + " "@ + direction_text(order[i].dir))
}

/// The text of an `ORDER BY` list.
pub fn render_order_by<F: Fn(&str) -> Option<&'static str>>(
    order: &ODataOrderBy,
    col: F,
) -> (r: Result<String, String>)
    requires
        answers_names(col),
    ensures
        r matches Ok(text) ==> order@.len() > 0 && exists|columns: Seq<Seq<char>>| #[trigger]
            columns_named(col, order@, columns) && columns.len() == order@.len() && text@
                == joined(order_parts(order@, columns), ", "@),
        r matches Err(e) ==> order_error(col, order@, e@),
{
    if order.is_empty() {
        return Err("order must not be empty".to_owned());
    }
    let ghost mut columns: Seq<Seq<char>> = Seq::empty();
    let mut parts: Vec<String> = Vec::new();
    let mut i: usize = 0;
    assert(texts(parts@) =~= order_parts(order@, columns));
    while i < order.keys.len()
        invariant
            i <= order.keys@.len(),
            order@.len() > 0,
            columns.len() == i,
            answers_names(col),
            columns_named(col, order@, columns),
            texts(parts@) == order_parts(order@, columns),
        decreases order.keys@.len() - i,
    {
        let key = &order.keys[i];
        assert(order@[i as int] == key@);
        let column = match ask_column(&col, key.field.as_str()) {
            Some(c) => c,
            None => {
                assert(columns_named(col, order@, columns));
                return Err("order field not allowlisted: ".to_owned().concat(key.field.as_str()));
            },
        };
        let dir = match key.dir {
            SortDir::Asc => "ASC",
            SortDir::Desc => "DESC",
        };
        let ghost before = parts@;
        let part = column.to_owned().concat(" ").concat(dir);
        let ghost text = part@;
        parts.push(part);
        proof {
            let longer = columns.push(column@);
            assert(texts(parts@) =~= texts(before).push(text));
            assert(order_parts(order@, longer) =~= order_parts(order@, columns).push(text));
            assert forall|j: int| 0 <= j < longer.len() implies names_column(
                col,
                order@[j].field,
                Some(#[trigger] longer[j]),
            ) by {
                if j < columns.len() {
                    assert(longer[j] == columns[j]);
                }
            }
            columns = longer;
        }
        i = i + 1;
    }
    let text = join_texts(&parts, ", ");
    assert(columns_named(col, order@, columns));
    Ok(text)
}

/// The columns of an order, each with its direction.
pub fn order_by_clauses<F: Fn(&str) -> Option<&'static str>>(
    order: &ODataOrderBy,
    col: F,
) -> (r: Result<Vec<(String, SortDir)>, String>)
    requires
        answers_names(col),
    ensures
        r matches Ok(clauses) ==> order@.len() > 0 && clauses@.len() == order@.len() && (forall|
            i: int,
        |
            0 <= i < clauses@.len() ==> names_column(
                col,
                order@[i].field,
                Some((#[trigger] clauses@[i]).0@),
            ) && clauses@[i].1 == order@[i].dir),
        r matches Err(e) ==> order_error(col, order@, e@),
{
    if order.is_empty() {
        return Err("order must not be empty".to_owned());
    }
    let mut clauses: Vec<(String, SortDir)> = Vec::new();
    let mut i: usize = 0;
    while i < order.keys.len()
        invariant
            i <= order.keys@.len(),
            order@.len() > 0,
            clauses@.len() == i,
            answers_names(col),
            forall|j: int|
                0 <= j < i ==> names_column(
                    col,
                    order@[j].field,
                    Some((#[trigger] clauses@[j]).0@),
                ) && clauses@[j].1 == order@[j].dir,
        decreases order.keys@.len() - i,
    {
        let key = &order.keys[i];
        assert(order@[i as int] == key@);
        match ask_column(&col, key.field.as_str()) {
            Some(c) => {
                clauses.push((c.to_owned(), key.dir));
            },
            None => {
                proof {
                    let columns = clauses@.map_values(|c: (String, SortDir)| c.0@);
                    assert forall|j: int| 0 <= j < columns.len() implies names_column(
                        col,
                        order@[j].field,
                        Some(#[trigger] columns[j]),
                    ) by {
                        assert(columns[j] == clauses@[j].0@);
                    }
                    assert(columns_named(col, order@, columns));
                }
                return Err("order field not allowlisted: ".to_owned().concat(key.field.as_str()));
            },
        }
        i = i + 1;
    }
    Ok(clauses)
}

/// The value that a cursor key stands for, or why it stands for none.
pub open spec fn cursor_bind(kind: FieldKindView, raw: Seq<char>) -> Result<SqlBindView, Seq<char>> {
    match kind {
        FieldKindView::DateTimeUtc => match rfc3339_parsed(raw) {
            Ok(nanos) => Ok(SqlBindView::DateTime64Micros((nanos / 1000) as i64)),
            Err(why) => Err("invalid datetime cursor key `"@ + raw + "`: "@ + why),
        },
        FieldKindView::Uuid => match uuid_parsed(raw) {
            Ok(bits) => Ok(SqlBindView::Uuid(Uuid { bits })),
            Err(why) => Err("invalid uuid cursor key `"@ + raw + "`: "@ + why),
        },
        FieldKindView::String => Ok(SqlBindView::Str(raw)),
        FieldKindView::Other(name) => Err(
            "cursor key kind `"@ + name + "` is not supported as a keyset column"@,
        ),
    }
}

/// The bind of a parsed timestamp key, or why there is none.
pub fn instant_key_bind(parsed: Result<i128, String>, raw: &str) -> (r: Result<SqlBind, String>)
    ensures
        match parsed {
            Ok(nanos) => bind_outcome(r) == Ok::<SqlBindView, Seq<char>>(
                SqlBindView::DateTime64Micros((nanos as int / 1000) as i64),
            ),
            Err(why) => bind_outcome(r) == Err::<SqlBindView, Seq<char>>(
                "invalid datetime cursor key `"@ + raw@ + "`: "@ + why@,
            ),
        },
{
    match parsed {
        Ok(nanos) => Ok(SqlBind::DateTime64Micros(nanos_to_micros(nanos) as i64)),
        Err(why) => Err(
            "invalid datetime cursor key `".to_owned().concat(raw).concat("`: ").concat(
                why.as_str(),
            ),
        ),
    }
}

/// The bind of a parsed identifier key, or why there is none.
pub fn uuid_key_bind(parsed: Result<Uuid, String>, raw: &str) -> (r: Result<SqlBind, String>)
    ensures
        match parsed {
            Ok(u) => bind_outcome(r) == Ok::<SqlBindView, Seq<char>>(SqlBindView::Uuid(u)),
            Err(why) => bind_outcome(r) == Err::<SqlBindView, Seq<char>>(
                "invalid uuid cursor key `"@ + raw@ + "`: "@ + why@,
            ),
        },
{
    match parsed {
        Ok(u) => Ok(SqlBind::Uuid(u)),
        Err(why) => Err(
            "invalid uuid cursor key `".to_owned().concat(raw).concat("`: ").concat(why.as_str()),
        ),
    }
}

/// Where the key is the spelling of an identifier or of an instant, the outcome
/// is that identifier or the microseconds of that instant.
pub open spec fn key_read_back(
    kind: FieldKindView,
    raw: Seq<char>,
    outcome: Result<SqlBindView, Seq<char>>,
) -> bool {
    &&& kind is Uuid ==> forall|bits: u128| #[trigger]
        uuid_text(bits) == raw ==> outcome == Ok::<SqlBindView, Seq<char>>(
            SqlBindView::Uuid(Uuid { bits }),
        )
    &&& kind is DateTimeUtc ==> forall|nanos: int| #[trigger]
        rfc3339_spelling(nanos) == Some(raw) && in_instant_range(nanos) ==> outcome == Ok::<
            SqlBindView,
            Seq<char>,
        >(SqlBindView::DateTime64Micros((nanos / 1000) as i64))
}

/// Reads a cursor key by the kind of its field.
pub fn cursor_key_to_bind(kind: FieldKind, raw: &str) -> (r: Result<SqlBind, String>)
    ensures
        bind_outcome(r) == cursor_bind(kind@, raw@),
        key_read_back(kind@, raw@, bind_outcome(r)),
{
    match kind {
        FieldKind::DateTimeUtc => instant_key_bind(rfc3339_parse(raw), raw),
        FieldKind::Uuid => uuid_key_bind(Uuid::parse_str(raw), raw),
        FieldKind::String => Ok(SqlBind::Str(raw.to_owned())),
        FieldKind::Other(name) => Err(
            "cursor key kind `".to_owned().concat(name.as_str()).concat(
                "` is not supported as a keyset column",
            ),
        ),
    }
}

/// The parts of a keyset predicate.
#[verifier::ext_equal]
pub struct KeysetParts {
    pub columns: Seq<Seq<char>>,
    pub ascending: bool,
    pub binds: Seq<SqlBindView>,
}

/// The functions that a keyset predicate asks about a field's name.
pub struct KeysetRules<C, K, S> {
    /// The column that a field names.
    pub col: C,
    /// The kind of a field's values.
    pub kind: K,
    /// Whether a field may be a keyset key: it must not be nullable.
    pub keyset_safe: S,
}

/// The functions may be asked about any name.
pub open spec fn rules_answer<
    C: Fn(&str) -> Option<&'static str>,
    K: Fn(&str) -> Option<FieldKind>,
    S: Fn(&str) -> bool,
>(rules: KeysetRules<C, K, S>) -> bool {
    &&& answers_names(rules.col)
    &&& answers_names(rules.kind)
    &&& answers_names(rules.keyset_safe)
}

/// A field and its cursor key become the column and the bind.
pub open spec fn key_resolved<
    C: Fn(&str) -> Option<&'static str>,
    K: Fn(&str) -> Option<FieldKind>,
    S: Fn(&str) -> bool,
>(
    rules: KeysetRules<C, K, S>,
    field: Seq<char>,
    raw: Seq<char>,
    column: Seq<char>,
    bind: SqlBindView,
) -> bool {
    &&& is_keyset_safe(rules.keyset_safe, field, true)
    &&& names_column(rules.col, field, Some(column))
    &&& exists|k: FieldKindView| #[trigger]
        has_kind(rules.kind, field, Some(k)) && cursor_bind(k, raw) == Ok::<
            SqlBindView,
            Seq<char>,
        >(bind) && key_read_back(k, raw, Ok(bind))
}

/// Why a field and its cursor key become none.
pub open spec fn key_error<
    C: Fn(&str) -> Option<&'static str>,
    K: Fn(&str) -> Option<FieldKind>,
    S: Fn(&str) -> bool,
>(rules: KeysetRules<C, K, S>, field: Seq<char>, raw: Seq<char>, e: Seq<char>) -> bool {
    ||| is_keyset_safe(rules.keyset_safe, field, false) && e
        == "keyset field is nullable and cannot be a keyset ordering key: "@ + field
    ||| is_keyset_safe(rules.keyset_safe, field, true) && names_column(rules.col, field, None) && e
        == "keyset field not allowlisted: "@ + field
    ||| is_keyset_safe(rules.keyset_safe, field, true) && column_known(rules.col, field)
        && has_kind(rules.kind, field, None) && e == "keyset field has no known kind: "@ + field
    ||| is_keyset_safe(rules.keyset_safe, field, true) && column_known(rules.col, field) && exists|
        k: FieldKindView,
    | #[trigger]
        has_kind(rules.kind, field, Some(k)) && cursor_bind(k, raw) == Err::<
            SqlBindView,
            Seq<char>,
        >(e) && key_read_back(k, raw, Err(e))
}

/// The function answers some column.
pub open spec fn column_known<F: Fn(&str) -> Option<&'static str>>(
    col: F,
    field: Seq<char>,
) -> bool {
    exists|c: Seq<char>| names_column(col, field, Some(c))
}

/// The parts are those of the first fields of the order.
pub open spec fn parts_resolved<
    C: Fn(&str) -> Option<&'static str>,
    K: Fn(&str) -> Option<FieldKind>,
    S: Fn(&str) -> bool,
>(
    rules: KeysetRules<C, K, S>,
    order: Seq<(Seq<char>, bool)>,
    keys: Seq<Seq<char>>,
    parts: KeysetParts,
) -> bool {
    &&& parts.columns.len() == parts.binds.len()
    &&& parts.columns.len() <= order.len()
    &&& forall|i: int|
        #![trigger parts.columns[i]]
        #![trigger parts.binds[i]]
        0 <= i < parts.columns.len() ==> key_resolved(
            rules,
            order[i].0,
            keys[i],
            parts.columns[i],
            parts.binds[i],
        )
}

/// All keys of the order have the direction.
pub open spec fn all_directed(order: Seq<(Seq<char>, bool)>, ascending: bool) -> bool {
    forall|i: int| 0 <= i < order.len() ==> (#[trigger] order[i]).1 == ascending
}

/// The outcomes of a keyset predicate: its parts, or the first reason why there
/// are none.
pub open spec fn keyset_outcome<
    C: Fn(&str) -> Option<&'static str>,
    K: Fn(&str) -> Option<FieldKind>,
    S: Fn(&str) -> bool,
>(
    rules: KeysetRules<C, K, S>,
    order: Seq<(Seq<char>, bool)>,
    keys: Seq<Seq<char>>,
    outcome: Result<KeysetParts, Seq<char>>,
) -> bool {
    if order.len() == 0 {
        outcome == Err::<KeysetParts, Seq<char>>("keyset order must not be empty"@)
    } else if order.len() != keys.len() {
        outcome == Err::<KeysetParts, Seq<char>>(
            "cursor key count "@ + decimal_text(keys.len()) + " does not match order arity "@
                + decimal_text(order.len()),
        )
    } else if !all_directed(order, true) && !all_directed(order, false) {
        outcome == Err::<KeysetParts, Seq<char>>(
            "mixed-direction keyset orders are unsupported in v1"@,
        )
    } else {
        match outcome {
            Ok(parts) => {
                &&& parts.columns.len() == order.len()
                &&& parts.ascending == order[0].1
                &&& parts_resolved(rules, order, keys, parts)
            },
            Err(e) => exists|parts: KeysetParts| #[trigger]
                parts_resolved(rules, order, keys, parts) && parts.columns.len() < order.len()
                    && key_error(
                    rules,
                    order[parts.columns.len() as int].0,
                    keys[parts.columns.len() as int],
                    e,
                ),
        }
    }
}

/// The views of field names with directions.
pub open spec fn pair_views(pairs: Seq<(&str, bool)>) -> Seq<(Seq<char>, bool)> {
    pairs.map_values(|p: (&str, bool)| (p.0@, p.1))
}

/// The views of a sequence of columns.
pub open spec fn column_views(columns: Seq<&'static str>) -> Seq<Seq<char>> {
    columns.map_values(|c: &'static str| c@)
}

/// Whether every key of the order has the direction.
fn directed(order_pairs: &[(&str, bool)], ascending: bool) -> (r: bool)
    ensures
        r == all_directed(pair_views(order_pairs@), ascending),
{
    let mut i: usize = 0;
    while i < order_pairs.len()
        invariant
            i <= order_pairs@.len(),
            forall|j: int| 0 <= j < i ==> (#[trigger] pair_views(order_pairs@)[j]).1 == ascending,
        decreases order_pairs@.len() - i,
    {
        assert(pair_views(order_pairs@)[i as int].1 == order_pairs@[i as int].1);
        if order_pairs[i].1 != ascending {
            return false;
        }
        i = i + 1;
    }
    true
}

/// The columns, the comparison and the binds of a keyset predicate.
#[derive(Debug)]
pub struct KeysetTuple {
    pub columns: Vec<&'static str>,
    pub ascending: bool,
    pub binds: Vec<SqlBind>,
}

impl View for KeysetTuple {
    type V = KeysetParts;

    open spec fn view(&self) -> KeysetParts {
        KeysetParts {
            columns: column_views(self.columns@),
            ascending: self.ascending,
            binds: bind_views(self.binds@),
        }
    }
}

/// The view of an outcome with keyset parts.
pub open spec fn tuple_outcome(r: Result<KeysetTuple, String>) -> Result<KeysetParts, Seq<char>> {
    match r {
        Ok(t) => Ok(t@),
        Err(e) => Err(e@),
    }
}

/// Resolves one field of a keyset predicate and its cursor key.
fn keyset_key<
    C: Fn(&str) -> Option<&'static str>,
    K: Fn(&str) -> Option<FieldKind>,
    S: Fn(&str) -> bool,
>(rules: &KeysetRules<C, K, S>, field: &str, raw: &str) -> (r: Result<
    (&'static str, SqlBind),
    String,
>)
    requires
        rules_answer(*rules),
    ensures
        r matches Ok(x) ==> key_resolved(*rules, field@, raw@, x.0@, x.1@),
        r matches Err(e) ==> key_error(*rules, field@, raw@, e@),
{
    if !ask_safe(&rules.keyset_safe, field) {
        return Err(
            "keyset field is nullable and cannot be a keyset ordering key: ".to_owned().concat(
                field,
            ),
        );
    }
    let column = match ask_column(&rules.col, field) {
        Some(c) => c,
        None => {
            return Err("keyset field not allowlisted: ".to_owned().concat(field));
        },
    };
    let field_kind = match ask_kind(&rules.kind, field) {
        Some(k) => k,
        None => {
            return Err("keyset field has no known kind: ".to_owned().concat(field));
        },
    };
    match cursor_key_to_bind(field_kind, raw) {
        Ok(b) => Ok((column, b)),
        Err(e) => Err(e),
    }
}

/// The columns, the direction and the binds of a keyset predicate.
pub fn keyset_tuple_parts<
    C: Fn(&str) -> Option<&'static str>,
    K: Fn(&str) -> Option<FieldKind>,
    S: Fn(&str) -> bool,
>(
    order_pairs: &[(&str, bool)],
    cursor_keys: &[String],
    col: C,
    kind: K,
    keyset_safe: S,
) -> (r: Result<
    KeysetTuple,
    String,
>)
    requires
        rules_answer((KeysetRules { col, kind, keyset_safe })),
    ensures
        keyset_outcome(
            (KeysetRules { col, kind, keyset_safe }),
            pair_views(order_pairs@),
            texts(cursor_keys@),
            tuple_outcome(r),
        ),
{
    let rules = KeysetRules { col, kind, keyset_safe };
    if order_pairs.len() == 0 {
        return Err("keyset order must not be empty".to_owned());
    }
    if order_pairs.len() != cursor_keys.len() {
        return Err(
            "cursor key count ".to_owned().concat(
                spell_unsigned(cursor_keys.len() as u64).as_str(),
            ).concat(" does not match order arity ").concat(
                spell_unsigned(order_pairs.len() as u64).as_str(),
            ),
        );
    }
    let ghost order = pair_views(order_pairs@);
    let ghost keys = texts(cursor_keys@);
    let all_asc = directed(order_pairs, true);
    let all_desc = directed(order_pairs, false);
    if !all_asc && !all_desc {
        return Err("mixed-direction keyset orders are unsupported in v1".to_owned());
    }
    let mut parts = KeysetTuple { columns: Vec::new(), ascending: all_asc, binds: Vec::new() };
    let mut i: usize = 0;
    while i < order_pairs.len()
        invariant
            i <= order_pairs@.len(),
            rules == (KeysetRules { col, kind, keyset_safe }),
            order_pairs@.len() == cursor_keys@.len(),
            order == pair_views(order_pairs@),
            keys == texts(cursor_keys@),
            order.len() > 0,
            all_directed(order, true) || all_directed(order, false),
            parts.ascending == all_directed(order, true),
            parts.columns@.len() == i,
            rules_answer(rules),
            parts_resolved(rules, order, keys, parts@),
        decreases order_pairs@.len() - i,
    {
        assert(order[i as int].0 == order_pairs@[i as int].0@);
        assert(keys[i as int] == cursor_keys@[i as int]@);
        match keyset_key(&rules, order_pairs[i].0, cursor_keys[i].as_str()) {
            Ok((column, bind)) => {
                let ghost before = parts@;
                let ghost b = bind@;
                parts.columns.push(column);
                parts.binds.push(bind);
                proof {
                    let after = parts@;
                    assert(after.columns =~= before.columns.push(column@));
                    assert(after.binds =~= before.binds.push(b));
                    assert forall|j: int| 0 <= j < after.columns.len() implies key_resolved(
                        rules,
                        order[j].0,
                        keys[j],
                        #[trigger] after.columns[j],
                        after.binds[j],
                    ) by {
                        if j < before.columns.len() {
                            assert(after.columns[j] == before.columns[j]);
                            assert(after.binds[j] == before.binds[j]);
                        }
                    }
                }
            },
            Err(e) => {
                assert(parts_resolved(rules, order, keys, parts@));
                return Err(e);
            },
        }
        i = i + 1;
    }
    assert(parts.ascending == order[0].1);
    Ok(parts)
}

/// The comparison of a keyset predicate.
pub open spec fn keyset_comparison(ascending: bool) -> Seq<char> {
    if ascending {
        ">"@
    } else {
        "<"@
    }
}

/// `n` placeholders.
pub open spec fn slots(n: nat) -> Seq<Seq<char>> {
    Seq::new(n, |i: int| "?"@)
}

/// The text of a keyset predicate over its columns and placeholder texts.
pub open spec fn keyset_text(parts: KeysetParts, slot_texts: Seq<Seq<char>>) -> Seq<char> {
    "("@ + joined(parts.columns, ", "@) + ") "@ + keyset_comparison(parts.ascending) + " ("@
        + joined(slot_texts, ", "@) + ")"@
}

/// The expressions of bound values.
pub open spec fn bind_exprs(binds: Seq<SqlBindView>) -> Seq<ExprTree> {
    binds.map_values(|b: SqlBindView| bind_expr(b))
}

/// A keyset predicate: the tuple of the columns compared with the tuple of the
/// bound keys.
pub open spec fn keyset_expr(parts: KeysetParts) -> ExprTree {
    ExprTree::CustomWithExpr(
        keyset_text(parts, slots(parts.binds.len())),
        bind_exprs(parts.binds),
    )
}

/// The condition of a keyset predicate.
pub open spec fn keyset_tree(parts: KeysetParts) -> ConditionTree {
    with_item(all_of(Seq::empty()), just(keyset_expr(parts)))
}

/// Puts the text of a keyset predicate together.
fn keyset_template(
    columns: &Vec<&'static str>,
    ascending: bool,
    slot_texts: &Vec<String>,
    Ghost(parts): Ghost<KeysetParts>,
) -> (s: String)
    requires
        parts.columns == column_views(columns@),
        parts.ascending == ascending,
    ensures
        s@ == keyset_text(parts, texts(slot_texts@)),
{
    let mut names: Vec<String> = Vec::new();
    let mut i: usize = 0;
    while i < columns.len()
        invariant
            i <= columns@.len(),
            names@.len() == i,
            forall|j: int| 0 <= j < i ==> (#[trigger] names@[j])@ == columns@[j]@,
        decreases columns@.len() - i,
    {
        names.push(columns[i].to_owned());
        i = i + 1;
    }
    assert(texts(names@) =~= column_views(columns@));
    let comparison = if ascending {
        ">"
    } else {
        "<"
    };
    "(".to_owned().concat(join_texts(&names, ", ").as_str()).concat(") ").concat(comparison).concat(
        " (",
    ).concat(join_texts(slot_texts, ", ").as_str()).concat(")")
}

/// The keyset predicate of an order and the keys of a cursor: rows behind the
/// cursor's, by a comparison of tuples.
pub fn keyset_condition<
    C: Fn(&str) -> Option<&'static str>,
    K: Fn(&str) -> Option<FieldKind>,
    S: Fn(&str) -> bool,
>(
    order_pairs: &[(&str, bool)],
    cursor_keys: &[String],
    col: C,
    kind: K,
    keyset_safe: S,
) -> (r: Result<
    sea_query::Condition,
    String,
>)
    requires
        rules_answer((KeysetRules { col, kind, keyset_safe })),
    ensures
        r matches Ok(c) ==> exists|parts: KeysetParts|
            keyset_outcome(
                (KeysetRules { col, kind, keyset_safe }),
                pair_views(order_pairs@),
                texts(cursor_keys@),
                Ok::<KeysetParts, Seq<char>>(parts),
            ) && condition_tree(c) == #[trigger] keyset_tree(parts),
        r matches Err(e) ==> keyset_outcome(
            (KeysetRules { col, kind, keyset_safe }),
            pair_views(order_pairs@),
            texts(cursor_keys@),
            Err::<KeysetParts, Seq<char>>(e@),
        ),
{
    let tuple = match keyset_tuple_parts(order_pairs, cursor_keys, col, kind, keyset_safe) {
        Ok(t) => t,
        Err(e) => {
            return Err(e);
        },
    };
    let ghost parts = tuple@;
    let n = tuple.binds.len();
    let mut slot_texts: Vec<String> = Vec::new();
    let mut rhs: Vec<sea_query::Expr> = Vec::new();
    for b in iter: tuple.binds.into_iter()
        invariant
            iter.seq() == tuple.binds@,
            rhs@.len() == iter.index(),
            slot_texts@.len() == iter.index(),
            forall|j: int| 0 <= j < rhs@.len() ==> expr_tree(#[trigger] rhs@[j]) == bind_expr(tuple.binds@[j]@),
            forall|j: int| 0 <= j < slot_texts@.len() ==> (#[trigger] slot_texts@[j])@ == "?"@,
    {
        rhs.push(sql_bind_to_expr(b));
        slot_texts.push("?".to_owned());
    }
    let template = keyset_template(&tuple.columns, tuple.ascending, &slot_texts, Ghost(parts));
    proof {
        assert(texts(slot_texts@) =~= slots(parts.binds.len()));
        assert(expr_trees(rhs@) =~= bind_exprs(parts.binds));
    }
    let c = condition_add(
        condition_all(),
        condition_from_expr(expr_cust_with_exprs(template, rhs)),
    );
    assert(condition_tree(c) == keyset_tree(parts));
    Ok(c)
}

/// The placeholder texts of binds.
pub open spec fn placeholder_texts(binds: Seq<SqlBindView>) -> Seq<Seq<char>> {
    binds.map_values(|b: SqlBindView| placeholder_text(b))
}

/// The keyset predicate as a text, its values added to `ctx`.
pub fn keyset_predicate<
    C: Fn(&str) -> Option<&'static str>,
    K: Fn(&str) -> Option<FieldKind>,
    S: Fn(&str) -> bool,
>(
    order_pairs: &[(&str, bool)],
    cursor_keys: &[String],
    col: C,
    kind: K,
    keyset_safe: S,
    ctx: &mut SqlCtx,
) -> (r: Result<String, String>)
    requires
        rules_answer((KeysetRules { col, kind, keyset_safe })),
    ensures
        r matches Ok(text) ==> exists|parts: KeysetParts| #[trigger]
            keyset_outcome(
                (KeysetRules { col, kind, keyset_safe }),
                pair_views(order_pairs@),
                texts(cursor_keys@),
                Ok::<KeysetParts, Seq<char>>(parts),
            ) && text@ == keyset_text(parts, placeholder_texts(parts.binds)) && bind_views(
                final(ctx).binds@,
            ) == bind_views(old(ctx).binds@) + parts.binds,
        r matches Err(e) ==> keyset_outcome(
            (KeysetRules { col, kind, keyset_safe }),
            pair_views(order_pairs@),
            texts(cursor_keys@),
            Err::<KeysetParts, Seq<char>>(e@),
        ) && final(ctx).binds@ == old(ctx).binds@,
{
    let tuple = match keyset_tuple_parts(order_pairs, cursor_keys, col, kind, keyset_safe) {
        Ok(t) => t,
        Err(e) => {
            return Err(e);
        },
    };
    let ghost parts = tuple@;
    let ghost before = bind_views(ctx.binds@);
    let mut slot_texts: Vec<String> = Vec::new();
    assert(before + parts.binds.take(0) =~= before);
    for b in iter: tuple.binds.into_iter()
        invariant
            iter.seq() == tuple.binds@,
            parts.binds == bind_views(tuple.binds@),
            slot_texts@.len() == iter.index(),
            bind_views(ctx.binds@) == before + parts.binds.take(iter.index() as int),
            forall|j: int|
                0 <= j < slot_texts@.len() ==> (#[trigger] slot_texts@[j])@ == placeholder_text(
                    parts.binds[j],
                ),
    {
        let ghost i = iter.index() as int;
        let ghost shorter = bind_views(ctx.binds@);
        let ghost v = b@;
        assert(v == parts.binds[i]);
        slot_texts.push(b.placeholder().to_owned());
        ctx.push(b);
        proof {
            assert(bind_views(ctx.binds@) =~= shorter.push(v));
            assert(parts.binds.take(i + 1) =~= parts.binds.take(i).push(v));
            assert(before + parts.binds.take(i + 1) =~= (before + parts.binds.take(i)).push(v));
        }
    }
    proof {
        assert(parts.binds.take(parts.binds.len() as int) =~= parts.binds);
        assert(texts(slot_texts@) =~= placeholder_texts(parts.binds));
    }
    let text = keyset_template(&tuple.columns, tuple.ascending, &slot_texts, Ghost(parts));
    Ok(text)
}

/// The cursor behind a page, or why there is none.
pub open spec fn next_cursor_view(
    order: Seq<OrderKeyView>,
    signed_tokens: Seq<char>,
    last_row_keys: Seq<Seq<char>>,
    filter_hash: Option<Seq<char>>,
) -> Result<CursorView, Seq<char>> {
    if order.len() == 0 {
        Err("cursor order must not be empty"@)
    } else if order.len() != last_row_keys.len() {
        Err(
            "row key count "@ + decimal_text(last_row_keys.len()) + " does not match order arity "@
                + decimal_text(order.len()),
        )
    } else {
        Ok(
            CursorView {
                k: last_row_keys,
                o: order[0].dir,
                s: signed_tokens,
                f: filter_hash,
                d: "fwd"@,
            },
        )
    }
}

/// Copies strings.
fn clone_texts(from: &Vec<String>) -> (r: Vec<String>)
    ensures
        texts(r@) == texts(from@),
{
    let mut out: Vec<String> = Vec::new();
    let mut i: usize = 0;
    while i < from.len()
        invariant
            i <= from@.len(),
            out@.len() == i,
            forall|j: int| 0 <= j < i ==> (#[trigger] out@[j])@ == from@[j]@,
        decreases from@.len() - i,
    {
        out.push(from[i].clone());
        i = i + 1;
    }
    assert(texts(out@) =~= texts(from@));
    out
}

/// The forward cursor behind a page. `signed_tokens` are those of the order.
pub fn next_cursor(
    order: &ODataOrderBy,
    signed_tokens: &str,
    last_row_keys: &Vec<String>,
    filter_hash: &Option<String>,
) -> (r: Result<CursorV1, String>)
    ensures
        match next_cursor_view(
            order@,
            signed_tokens@,
            texts(last_row_keys@),
            optional_text(*filter_hash),
        ) {
            Ok(c) => r matches Ok(cursor) && cursor@ == c,
            Err(why) => r matches Err(e) && e@ == why,
        },
{
    if order.is_empty() {
        return Err("cursor order must not be empty".to_owned());
    }
    if order.keys.len() != last_row_keys.len() {
        return Err(
            "row key count ".to_owned().concat(
                spell_unsigned(last_row_keys.len() as u64).as_str(),
            ).concat(" does not match order arity ").concat(
                spell_unsigned(order.keys.len() as u64).as_str(),
            ),
        );
    }
    assert(order@[0] == order.keys@[0]@);
    Ok(
        CursorV1 {
            k: clone_texts(last_row_keys),
            o: order.keys[0].dir,
            s: signed_tokens.to_owned(),
            f: match filter_hash {
                Some(h) => Some(h.clone()),
                None => None,
            },
            d: "fwd".to_owned(),
        },
    )
}

/// The function encodes a cursor of that content as the outcome says.
pub open spec fn encodes<E: Fn(CursorV1) -> Result<String, String>>(
    encode: E,
    cursor: CursorView,
    outcome: Result<Seq<char>, Seq<char>>,
) -> bool {
    exists|c: CursorV1, r: Result<String, String>|
        c@ == cursor && text_outcome(r) == outcome && #[trigger] call_ensures(encode, (c,), r)
}

/// The view of an outcome with a text.
pub open spec fn text_outcome(r: Result<String, String>) -> Result<Seq<char>, Seq<char>> {
    match r {
        Ok(s) => Ok(s@),
        Err(e) => Err(e@),
    }
}

/// Builds the cursor behind a page and encodes it.
pub fn encode_next_cursor<E: Fn(CursorV1) -> Result<String, String>>(
    order: &ODataOrderBy,
    signed_tokens: &str,
    last_row_keys: &Vec<String>,
    filter_hash: &Option<String>,
    encode: &E,
) -> (r: Result<String, String>)
    requires
        forall|c: CursorV1| call_requires(*encode, (c,)),
    ensures
        match next_cursor_view(
            order@,
            signed_tokens@,
            texts(last_row_keys@),
            optional_text(*filter_hash),
        ) {
            Ok(c) => match r {
                Ok(token) => encodes(*encode, c, Ok::<Seq<char>, Seq<char>>(token@)),
                Err(e) => exists|why: Seq<char>| #[trigger]
                    encodes(*encode, c, Err::<Seq<char>, Seq<char>>(why)) && e@
                        == "cursor encode failed: "@ + why,
            },
            Err(why) => r matches Err(e) && e@ == why,
        },
{
    let cursor = match next_cursor(order, signed_tokens, last_row_keys, filter_hash) {
        Ok(c) => c,
        Err(e) => {
            return Err(e);
        },
    };
    let ghost c = cursor;
    let encoded = encode(cursor);
    assert(call_ensures(*encode, (c,), encoded));
    match encoded {
        Ok(token) => {
            assert(encodes(*encode, c@, Ok::<Seq<char>, Seq<char>>(token@)));
            Ok(token)
        },
        Err(e) => {
            assert(encodes(*encode, c@, Err::<Seq<char>, Seq<char>>(e@)));
            Err("cursor encode failed: ".to_owned().concat(e.as_str()))
        },
    }
}

/// Joining texts keeps their placeholders, `each` in every part, where the
/// separator has none.
proof fn lemma_placeholders_of_joined(parts: Seq<Seq<char>>, sep: Seq<char>, each: nat)
    requires
        placeholders(sep) == 0,
        forall|i: int| 0 <= i < parts.len() ==> placeholders(#[trigger] parts[i]) == each,
    ensures
        placeholders(joined(parts, sep)) == each * parts.len(),
    decreases parts.len(),
{
    if parts.len() == 0 {
        assert(each * parts.len() == 0) by (nonlinear_arith)
            requires
                parts.len() == 0,
        ;
    } else if parts.len() == 1 {
        assert(placeholders(parts[0]) == each);
        assert(each * parts.len() == each) by (nonlinear_arith)
            requires
                parts.len() == 1,
        ;
    } else {
        let front = parts.drop_last();
        assert forall|i: int| 0 <= i < front.len() implies placeholders(#[trigger] front[i])
            == each by {
            assert(front[i] == parts[i]);
        }
        lemma_placeholders_of_joined(front, sep, each);
        assert(placeholders(parts[parts.len() - 1]) == each);
        lemma_placeholders_of_sum(joined(front, sep), sep);
        lemma_placeholders_of_sum(joined(front, sep) + sep, parts.last());
        assert(each * parts.len() == each * front.len() + each) by (nonlinear_arith)
            requires
                parts.len() == front.len() + 1,
        ;
    }
}

/// A keyset predicate over columns without placeholders has one placeholder for
/// each bound key.
pub proof fn law_keyset_placeholders_are_bound(parts: KeysetParts)
    requires
        forall|i: int|
            0 <= i < parts.columns.len() ==> placeholders(#[trigger] parts.columns[i]) == 0,
    ensures
        condition_balanced(keyset_tree(parts)),
{
    reveal_strlit("(");
    reveal_strlit(") ");
    reveal_strlit(" (");
    reveal_strlit(")");
    reveal_strlit(", ");
    reveal_strlit(">");
    reveal_strlit("<");
    reveal_strlit("?");
    reveal_with_fuel(placeholders_below, 3);
    let n = parts.binds.len();
    let columns = joined(parts.columns, ", "@);
    let marks = joined(slots(n), ", "@);
    let by = keyset_comparison(parts.ascending);
    assert(placeholders(", "@) == 0);
    lemma_placeholders_of_joined(parts.columns, ", "@, 0);
    assert forall|i: int| 0 <= i < n implies placeholders(#[trigger] slots(n)[i]) == 1 by {
        assert(slots(n)[i] == "?"@);
    }
    lemma_placeholders_of_joined(slots(n), ", "@, 1);
    lemma_placeholders_of_sum("("@, columns);
    lemma_placeholders_of_sum("("@ + columns, ") "@);
    lemma_placeholders_of_sum("("@ + columns + ") "@, by);
    lemma_placeholders_of_sum("("@ + columns + ") "@ + by, " ("@);
    lemma_placeholders_of_sum("("@ + columns + ") "@ + by + " ("@, marks);
    lemma_placeholders_of_sum("("@ + columns + ") "@ + by + " ("@ + marks, ")"@);
    let template = keyset_text(parts, slots(n));
    assert(placeholders(template) == n);
    let exprs = bind_exprs(parts.binds);
    assert forall|i: int| 0 <= i < exprs.len() implies expr_balanced(#[trigger] exprs[i]) by {
        lemma_bind_is_balanced(parts.binds[i]);
    }
    let e = ExprTree::CustomWithExpr(template, exprs);
    assert(expr_balanced(e));
    assert(just(e).items[0] == ConditionItem::Leaf(e));
    lemma_with_item_balanced(all_of(Seq::empty()), just(e));
}

/// The names of the record columns have no placeholder.
pub proof fn lemma_record_columns_have_no_placeholder(field: Seq<char>)
    ensures
        record_column_text(field) matches Some(c) ==> placeholders(c) == 0,
{
    reveal_strlit("id");
    reveal_strlit("created_at");
    reveal_strlit("tenant_id");
    reveal_strlit("resource_id");
    reveal_strlit("resource_type");
    reveal_strlit("subject_id");
    reveal_strlit("subject_type");
    reveal_strlit("corrects_id");
    reveal_strlit("status");
    reveal_with_fuel(placeholders_below, 14);
}

/// The kind of the values of a record field.
pub open spec fn record_field_kind(field: Seq<char>) -> FieldKindView {
    if field == "id"@ || field == "tenant_id"@ || field == "corrects_id"@ {
        FieldKindView::Uuid
    } else if field == "created_at"@ {
        FieldKindView::DateTimeUtc
    } else {
        FieldKindView::String
    }
}

/// The value of a row under an order field.
pub open spec fn row_bind(row: RowView, field: Seq<char>) -> SqlBindView {
    if field == "id"@ {
        SqlBindView::Uuid(row.id)
    } else if field == "tenant_id"@ {
        SqlBindView::Uuid(row.tenant_id)
    } else if field == "corrects_id"@ {
        SqlBindView::Uuid(row.corrects_id->0)
    } else if field == "created_at"@ {
        SqlBindView::DateTime64Micros(row.created_at)
    } else {
        SqlBindView::Str(row_key(row, field)->0)
    }
}

/// The next page starts right behind the last row: the keyset predicate of a
/// cursor that holds the keys of a row compares with the values of that row, and
/// none of its keys fails to be read.
pub proof fn law_cursor_of_a_row_holds_its_values<
    C: Fn(&str) -> Option<&'static str>,
    K: Fn(&str) -> Option<FieldKind>,
    S: Fn(&str) -> bool,
>(
    rules: KeysetRules<C, K, S>,
    order: Seq<(Seq<char>, bool)>,
    keys: Seq<Seq<char>>,
    row: RowView,
    outcome: Result<KeysetParts, Seq<char>>,
)
    requires
        keyset_outcome(rules, order, keys, outcome),
        order.len() == keys.len(),
        forall|i: int|
            0 <= i < keys.len() ==> row_key(row, order[i].0) == Some(#[trigger] keys[i]),
        forall|field: Seq<char>, k: FieldKindView| #[trigger]
            has_kind(rules.kind, field, Some(k)) ==> k == record_field_kind(field),
    ensures
        outcome matches Ok(parts) ==> forall|i: int|
            0 <= i < parts.binds.len() ==> #[trigger] parts.binds[i] == row_bind(row, order[i].0),
        outcome is Err && order.len() > 0 && (all_directed(order, true) || all_directed(
            order,
            false,
        )) ==> exists|i: int|
            0 <= i < order.len() && #[trigger] field_is_refused(rules, order[i].0),
{
    match outcome {
        Ok(parts) => {
            assert forall|i: int| 0 <= i < parts.binds.len() implies #[trigger] parts.binds[i]
                == row_bind(row, order[i].0) by {
                let field = order[i].0;
                assert(key_resolved(rules, field, keys[i], parts.columns[i], parts.binds[i]));
                lemma_row_key_is_read(row, field, keys[i], Ok(parts.binds[i]));
            }
        },
        Err(e) => {
            if order.len() > 0 && (all_directed(order, true) || all_directed(order, false)) {
                let parts = choose|parts: KeysetParts| #[trigger]
                    parts_resolved(rules, order, keys, parts) && parts.columns.len() < order.len()
                        && key_error(
                        rules,
                        order[parts.columns.len() as int].0,
                        keys[parts.columns.len() as int],
                        e,
                    );
                let i = parts.columns.len() as int;
                let field = order[i].0;
                if !field_is_refused(rules, field) {
                    let k = choose|k: FieldKindView| #[trigger]
                        has_kind(rules.kind, field, Some(k)) && cursor_bind(k, keys[i]) == Err::<
                            SqlBindView,
                            Seq<char>,
                        >(e) && key_read_back(k, keys[i], Err(e));
                    lemma_row_key_is_read(row, field, keys[i], Err(e));
                }
            }
        },
    }
}

/// The functions refuse the field itself: it is nullable, off the allowlist, or
/// of no kind.
pub open spec fn field_is_refused<
    C: Fn(&str) -> Option<&'static str>,
    K: Fn(&str) -> Option<FieldKind>,
    S: Fn(&str) -> bool,
>(rules: KeysetRules<C, K, S>, field: Seq<char>) -> bool {
    ||| is_keyset_safe(rules.keyset_safe, field, false)
    ||| names_column(rules.col, field, None)
    ||| has_kind(rules.kind, field, None)
}

/// The key of a row is read as the row's value.
proof fn lemma_row_key_is_read(
    row: RowView,
    field: Seq<char>,
    raw: Seq<char>,
    outcome: Result<SqlBindView, Seq<char>>,
)
    requires
        row_key(row, field) == Some(raw),
        cursor_bind(record_field_kind(field), raw) == outcome,
        key_read_back(record_field_kind(field), raw, outcome),
    ensures
        outcome == Ok::<SqlBindView, Seq<char>>(row_bind(row, field)),
{
    reveal_strlit("id");
    reveal_strlit("created_at");
    reveal_strlit("tenant_id");
    reveal_strlit("corrects_id");
    assert("id"@.len() != "created_at"@.len());
    assert("id"@.len() != "tenant_id"@.len());
    assert("id"@.len() != "corrects_id"@.len());
    assert("created_at"@.len() != "tenant_id"@.len());
    assert("created_at"@.len() != "corrects_id"@.len());
    if field == "id"@ {
        assert(uuid_text(row.id.bits) == raw);
    } else if field == "tenant_id"@ {
        assert(uuid_text(row.tenant_id.bits) == raw);
    } else if field == "corrects_id"@ {
        assert(uuid_text(row.corrects_id->0.bits) == raw);
    } else if field == "created_at"@ {
        assert(rfc3339_spelling(row.created_at * 1000) == Some(raw));
    }
}

/// The expression that a cursor key is bound as, by the kind of its field: a text
/// as it is, an identifier by its spelling, an instant by its microseconds.
pub open spec fn is_key_expr(kind: FieldKindView, raw: Seq<char>, e: ExprTree) -> bool {
    match kind {
        FieldKindView::String => e == ExprTree::Value(DatumView::Text(Some(raw))),
        FieldKindView::Uuid => uuid_parsed(raw) matches Ok(bits) && e == ExprTree::Value(
            DatumView::Text(Some(uuid_text(bits))),
        ),
        FieldKindView::DateTimeUtc => rfc3339_parsed(raw) matches Ok(nanos) && e
            == ExprTree::CustomWithExpr(
            "fromUnixTimestamp64Micro(?)"@,
            seq![ExprTree::Value(DatumView::BigInt(Some((nanos / 1000) as i64)))],
        ),
        FieldKindView::Other(_) => false,
    }
}

/// A cursor key is bound by some kind that its field has.
pub open spec fn is_bound_by_kind<K: Fn(&str) -> Option<FieldKind>>(
    kind: K,
    field: Seq<char>,
    raw: Seq<char>,
    e: ExprTree,
) -> bool {
    exists|k: FieldKindView| #[trigger] has_kind(kind, field, Some(k)) && is_key_expr(k, raw, e)
}

/// A keyset predicate compares the tuple of the order's columns with the tuple of
/// the cursor's keys: with `>` where every key of the order ascends and with `<`
/// where every one descends, column by column in the order's sequence, each key
/// bound by the kind of its field.
pub proof fn law_keyset_compares_columns_with_keys<
    C: Fn(&str) -> Option<&'static str>,
    K: Fn(&str) -> Option<FieldKind>,
    S: Fn(&str) -> bool,
>(
    rules: KeysetRules<C, K, S>,
    order: Seq<(Seq<char>, bool)>,
    keys: Seq<Seq<char>>,
    parts: KeysetParts,
)
    requires
        keyset_outcome(rules, order, keys, Ok::<KeysetParts, Seq<char>>(parts)),
    ensures
        order.len() > 0,
        keys.len() == order.len(),
        parts.columns.len() == order.len(),
        parts.binds.len() == order.len(),
        forall|i: int| 0 <= i < order.len() ==> (#[trigger] order[i]).1 == order[0].1,
        forall|i: int|
            0 <= i < order.len() ==> names_column(
                rules.col,
                order[i].0,
                Some(#[trigger] parts.columns[i]),
            ) && is_keyset_safe(rules.keyset_safe, order[i].0, true),
        keyset_expr(parts) is CustomWithExpr,
        keyset_expr(parts)->CustomWithExpr_0 == "("@ + joined(parts.columns, ", "@) + ") "@ + (
        if order[0].1 {
            ">"@
        } else {
            "<"@
        }) + " ("@ + joined(slots(order.len()), ", "@) + ")"@,
        slots(order.len()).len() == order.len(),
        forall|i: int| 0 <= i < order.len() ==> #[trigger] slots(order.len())[i] == "?"@,
        keyset_expr(parts)->CustomWithExpr_1.len() == order.len(),
        forall|i: int|
            0 <= i < order.len() ==> is_bound_by_kind(
                rules.kind,
                order[i].0,
                keys[i],
                #[trigger] keyset_expr(parts)->CustomWithExpr_1[i],
            ),
        keyset_tree(parts) == (ConditionTree {
            negate: false,
            any: false,
            items: seq![
                ConditionItem::Nested(
                    ConditionTree {
                        negate: false,
                        any: false,
                        items: seq![ConditionItem::Leaf(keyset_expr(parts))],
                    },
                ),
            ],
        }),
{
    assert(order[0].1 == parts.ascending);
    assert forall|i: int| 0 <= i < order.len() implies names_column(
        rules.col,
        order[i].0,
        Some(#[trigger] parts.columns[i]),
    ) && is_keyset_safe(rules.keyset_safe, order[i].0, true) by {
        assert(key_resolved(rules, order[i].0, keys[i], parts.columns[i], parts.binds[i]));
    }
    let exprs = keyset_expr(parts)->CustomWithExpr_1;
    assert(exprs == bind_exprs(parts.binds));
    assert forall|i: int| 0 <= i < order.len() implies is_bound_by_kind(
        rules.kind,
        order[i].0,
        keys[i],
        #[trigger] exprs[i],
    ) by {
        assert(key_resolved(rules, order[i].0, keys[i], parts.columns[i], parts.binds[i]));
        let k = choose|k: FieldKindView| #[trigger]
            has_kind(rules.kind, order[i].0, Some(k)) && cursor_bind(k, keys[i]) == Ok::<
                SqlBindView,
                Seq<char>,
            >(parts.binds[i]) && key_read_back(k, keys[i], Ok(parts.binds[i]));
        assert(exprs[i] == bind_expr(parts.binds[i]));
        assert(is_key_expr(k, keys[i], exprs[i]));
    }
    assert(exprs.len() == order.len());
    assert(keyset_tree(parts).items =~= seq![ConditionItem::Nested(just(keyset_expr(parts)))]);
}

/// A cursor is followed wherever it has a key for each field of the order, the
/// order has one direction, and no field and no key is refused; and a refusal has
/// one of these reasons, which it names.
pub proof fn law_cursor_keys_are_refused_with_a_reason<
    C: Fn(&str) -> Option<&'static str>,
    K: Fn(&str) -> Option<FieldKind>,
    S: Fn(&str) -> bool,
>(
    rules: KeysetRules<C, K, S>,
    order: Seq<(Seq<char>, bool)>,
    keys: Seq<Seq<char>>,
    e: Seq<char>,
)
    requires
        keyset_outcome(rules, order, keys, Err::<KeysetParts, Seq<char>>(e)),
    ensures
        order.len() == 0 ==> e == "keyset order must not be empty"@,
        order.len() > 0 && order.len() != keys.len() ==> e == "cursor key count "@ + decimal_text(
            keys.len(),
        ) + " does not match order arity "@ + decimal_text(order.len()),
        order.len() > 0 && order.len() == keys.len() ==> {
            ||| e == "mixed-direction keyset orders are unsupported in v1"@ && exists|
                i: int,
                j: int,
            |
                0 <= i < order.len() && 0 <= j < order.len() && (#[trigger] order[i]).1 && !(
                #[trigger] order[j]).1
            ||| exists|i: int|
                0 <= i < order.len() && {
                    let field = (#[trigger] order[i]).0;
                    ||| is_keyset_safe(rules.keyset_safe, field, false) && e
                        == "keyset field is nullable and cannot be a keyset ordering key: "@ + field
                    ||| names_column(rules.col, field, None) && e
                        == "keyset field not allowlisted: "@ + field
                    ||| has_kind(rules.kind, field, None) && e
                        == "keyset field has no known kind: "@ + field
                    ||| has_kind(rules.kind, field, Some(FieldKindView::DateTimeUtc)) && (
                    rfc3339_parsed(keys[i]) matches Err(why) && e == "invalid datetime cursor key `"@
                        + keys[i] + "`: "@ + why)
                    ||| has_kind(rules.kind, field, Some(FieldKindView::Uuid)) && (uuid_parsed(
                        keys[i],
                    ) matches Err(why) && e == "invalid uuid cursor key `"@ + keys[i] + "`: "@
                        + why)
                    ||| exists|name: Seq<char>| #[trigger]
                        has_kind(rules.kind, field, Some(FieldKindView::Other(name))) && e
                            == "cursor key kind `"@ + name
                            + "` is not supported as a keyset column"@
                }
        },
{
    if order.len() > 0 && order.len() == keys.len() {
        if !all_directed(order, true) && !all_directed(order, false) {
            let j = choose|j: int| 0 <= j < order.len() && (#[trigger] order[j]).1 != true;
            let i = choose|i: int| 0 <= i < order.len() && (#[trigger] order[i]).1 != false;
            assert(order[i].1 && !order[j].1);
        } else {
            let parts = choose|parts: KeysetParts| #[trigger]
                parts_resolved(rules, order, keys, parts) && parts.columns.len() < order.len()
                    && key_error(
                    rules,
                    order[parts.columns.len() as int].0,
                    keys[parts.columns.len() as int],
                    e,
                );
            let i = parts.columns.len() as int;
            let field = order[i].0;
            assert(key_error(rules, field, keys[i], e));
            if !(is_keyset_safe(rules.keyset_safe, field, false) && e
                == "keyset field is nullable and cannot be a keyset ordering key: "@ + field)
                && !(names_column(rules.col, field, None) && e == "keyset field not allowlisted: "@
                + field) && !(has_kind(rules.kind, field, None) && e
                == "keyset field has no known kind: "@ + field) {
                let k = choose|k: FieldKindView| #[trigger]
                    has_kind(rules.kind, field, Some(k)) && cursor_bind(k, keys[i]) == Err::<
                        SqlBindView,
                        Seq<char>,
                    >(e) && key_read_back(k, keys[i], Err(e));
                match k {
                    FieldKindView::Other(name) => {
                        assert(has_kind(rules.kind, field, Some(FieldKindView::Other(name))));
                    },
                    _ => {},
                }
            }
        }
    }
}

/// The cursor behind a page holds the keys of its last row as they are, the
/// direction of the order's first key, the order's tokens, the filter's hash, and
/// pages forward; there is one wherever the keys are as many as the order's.
pub proof fn law_next_cursor_holds_the_last_keys(
    order: Seq<OrderKeyView>,
    signed_tokens: Seq<char>,
    last_row_keys: Seq<Seq<char>>,
    filter_hash: Option<Seq<char>>,
)
    ensures
        ({
            let r = next_cursor_view(order, signed_tokens, last_row_keys, filter_hash);
            &&& r is Ok <==> order.len() > 0 && order.len() == last_row_keys.len()
            &&& r matches Ok(c) ==> c.k == last_row_keys && c.o == order[0].dir && c.s
                == signed_tokens && c.f == filter_hash && c.d == "fwd"@
            &&& order.len() == 0 ==> r == Err::<CursorView, Seq<char>>(
                "cursor order must not be empty"@,
            )
            &&& order.len() > 0 && order.len() != last_row_keys.len() ==> r == Err::<
                CursorView,
                Seq<char>,
            >(
                "row key count "@ + decimal_text(last_row_keys.len())
                    + " does not match order arity "@ + decimal_text(order.len()),
            )
        }),
{
}

/// The text of an order names each column with the direction of its key, in the
/// order's sequence.
pub proof fn law_order_text_names_each_direction(
    order: Seq<OrderKeyView>,
    columns: Seq<Seq<char>>,
    i: int,
)
    requires
        0 <= i < columns.len() <= order.len(),
    ensures
        order_parts(order, columns).len() == columns.len(),
        order[i].dir == SortDir::Asc ==> order_parts(order, columns)[i] == columns[i] + " "@
            + "ASC"@,
        order[i].dir == SortDir::Desc ==> order_parts(order, columns)[i] == columns[i] + " "@
            + "DESC"@,
{
}

/// Why an order is refused: it is empty, or it has a field off the allowlist, and
/// the first such field is named.
pub proof fn law_order_is_refused_with_its_reason<F: Fn(&str) -> Option<&'static str>>(
    col: F,
    order: Seq<OrderKeyView>,
    e: Seq<char>,
)
    requires
        order_error(col, order, e),
    ensures
        order.len() == 0 ==> e == "order must not be empty"@,
        order.len() > 0 ==> exists|i: int|
            0 <= i < order.len() && e == "order field not allowlisted: "@ + (
            #[trigger] order[i]).field && names_column(col, order[i].field, None) && forall|j: int|
                0 <= j < i ==> column_known(col, (#[trigger] order[j]).field),
{
    if order.len() > 0 {
        let columns = choose|columns: Seq<Seq<char>>| #[trigger]
            columns_named(col, order, columns) && columns.len() < order.len() && names_column(
                col,
                order[columns.len() as int].field,
                None,
            ) && e == "order field not allowlisted: "@ + order[columns.len() as int].field;
        let i = columns.len() as int;
        assert forall|j: int| 0 <= j < i implies column_known(col, (#[trigger] order[j]).field) by {
            assert(names_column(col, order[j].field, Some(columns[j])));
        }
        assert(order[i].field == order[columns.len() as int].field);
    }
}

/// A column, a kind and a rule are what the functions answer when they are asked
/// about that very field.
pub proof fn law_functions_are_asked_about_the_field<
    C: Fn(&str) -> Option<&'static str>,
    K: Fn(&str) -> Option<FieldKind>,
    S: Fn(&str) -> bool,
>(rules: KeysetRules<C, K, S>, field: Seq<char>)
    ensures
        forall|column: Seq<char>| #[trigger]
            names_column(rules.col, field, Some(column)) ==> exists|s: &str, c: &'static str|
                s@ == field && c@ == column && #[trigger] call_ensures(rules.col, (s,), Some(c)),
        names_column(rules.col, field, None) ==> exists|s: &str|
            s@ == field && #[trigger] call_ensures(rules.col, (s,), None::<&'static str>),
        forall|k: FieldKindView| #[trigger]
            has_kind(rules.kind, field, Some(k)) ==> exists|s: &str, f: FieldKind|
                s@ == field && f@ == k && #[trigger] call_ensures(rules.kind, (s,), Some(f)),
        has_kind(rules.kind, field, None) ==> exists|s: &str|
            s@ == field && #[trigger] call_ensures(rules.kind, (s,), None::<FieldKind>),
        forall|safe: bool| #[trigger]
            is_keyset_safe(rules.keyset_safe, field, safe) ==> exists|s: &str|
                s@ == field && #[trigger] call_ensures(rules.keyset_safe, (s,), safe),
{
    assert forall|column: Seq<char>| #[trigger]
        names_column(rules.col, field, Some(column)) implies exists|s: &str, c: &'static str|
        s@ == field && c@ == column && #[trigger] call_ensures(rules.col, (s,), Some(c)) by {
        let (s, r) = choose|s: &str, r: Option<&'static str>|
            s@ == field && column_view(r) == Some(column) && #[trigger] call_ensures(
                rules.col,
                (s,),
                r,
            );
        assert(call_ensures(rules.col, (s,), Some(r->0)));
    }
    assert forall|k: FieldKindView| #[trigger] has_kind(rules.kind, field, Some(k)) implies exists|
        s: &str,
        f: FieldKind,
    |
        s@ == field && f@ == k && #[trigger] call_ensures(rules.kind, (s,), Some(f)) by {
        let (s, r) = choose|s: &str, r: Option<FieldKind>|
            s@ == field && kind_view(r) == Some(k) && #[trigger] call_ensures(
                rules.kind,
                (s,),
                r,
            );
        assert(call_ensures(rules.kind, (s,), Some(r->0)));
    }
}

/// Each bound value of a keyset predicate has a placeholder of its own.
pub proof fn law_each_bound_key_has_its_placeholder(binds: Seq<SqlBindView>, i: int)
    requires
        0 <= i < binds.len(),
    ensures
        placeholder_texts(binds).len() == binds.len(),
        binds[i] is DateTime64Micros ==> placeholder_texts(binds)[i]
            == "fromUnixTimestamp64Micro(?)"@,
        !(binds[i] is DateTime64Micros) ==> placeholder_texts(binds)[i] == "?"@,
{
}

} // verus!
