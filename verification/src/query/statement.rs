//! From statements to SQL texts and the values for their placeholders.
//!
//! Every read is qualified with `FINAL`, so that the copies of a row are merged
//! before it is returned.
use crate::client::{
    bind_bool, bind_bytes, bind_double, bind_float, bind_i64, bind_text, bind_u64, bound_with,
    client_query, query_args, query_text, QueryArg,
};
use crate::query::meaning::lemma_with_item_balanced;
use crate::query::placeholders::{lemma_reading_by_text_data, lemma_statement_data};
use crate::query::schema::{
    law_names_of_tables_and_columns, record_select_columns, type_select_columns,
    RECORD_SELECT_COLUMNS, TYPE_SELECT_COLUMNS, UsageRecords, UsageTypeCatalog,
};
use crate::sql::{
    all_of, and_filter, big_int_value, build_select, compared, condition_add, condition_all,
    condition_balanced, condition_from_expr, condition_is_empty, condition_tree, data_of,
    empty_select, expr_balanced, expr_col, expr_cust, expr_eq, expr_tree, expr_val, filtered, just,
    rendered_select, sea_value, sea_values, select_balanced, select_column, select_cond_where,
    select_data, select_expr, select_from, select_is_plain, select_new, select_shape, select_tree,
    selecting, sql_value, string_value, value_datum, with_item, Comparison, ConditionItem,
    ConditionTree, Datum, DatumView, ExprTree, SelectTree, SqlValueView,
};
use crate::values::{decimal_spelling, nanos_to_micros, uuid_text};
use vstd::prelude::*;
use vstd::string::*;

verus! {

/// Whether a position is inside a quoted literal, and whether the character
/// there is escaped by the one before it.
pub struct LiteralState {
    pub quoted: bool,
    pub escaped: bool,
}

/// The state after one character.
pub open spec fn literal_step(s: LiteralState, c: char) -> LiteralState {
    if s.escaped {
        LiteralState { quoted: s.quoted, escaped: false }
    } else if c == '\\' {
        LiteralState { quoted: s.quoted, escaped: true }
    } else if c == '\'' {
        LiteralState { quoted: !s.quoted, escaped: false }
    } else {
        s
    }
}

/// The state after the first `n` characters.
pub open spec fn literal_state(text: Seq<char>, n: int) -> LiteralState
    decreases n,
{
    if n <= 0 {
        LiteralState { quoted: false, escaped: false }
    } else {
        literal_step(literal_state(text, n - 1), text[n - 1])
    }
}

/// Whether the keyword stands at the position, outside quoted literals.
pub open spec fn keyword_at(text: Seq<char>, keyword: Seq<char>, at: int) -> bool {
    &&& 0 <= at <= text.len() - keyword.len()
    &&& text.subrange(at, at + keyword.len()) == keyword
    &&& !literal_state(text, at).quoted
}

/// Whether one of the keywords stands at the position.
pub open spec fn some_keyword_at(text: Seq<char>, keywords: Seq<Seq<char>>, at: int) -> bool {
    exists|k: int| 0 <= k < keywords.len() && keyword_at(text, #[trigger] keywords[k], at)
}

/// The first position from `start` on at which one of the keywords stands, or
/// the end of the text.
pub open spec fn first_keyword(text: Seq<char>, keywords: Seq<Seq<char>>, start: int) -> int
    decreases text.len() - start,
{
    if start >= text.len() {
        text.len() as int
    } else if some_keyword_at(text, keywords, start) {
        start
    } else {
        first_keyword(text, keywords, start + 1)
    }
}

/// The keywords that end a `FROM` clause.
pub open spec fn clause_keywords() -> Seq<Seq<char>> {
    seq![
        " LEFT JOIN "@,
        " RIGHT JOIN "@,
        " INNER JOIN "@,
        " CROSS JOIN "@,
        " FULL JOIN "@,
        " JOIN "@,
        " PREWHERE "@,
        " WHERE "@,
        " GROUP BY "@,
        " HAVING "@,
        " ORDER BY "@,
        " LIMIT "@,
        " UNION "@,
    ]
}

/// Where the `FROM` clause of a statement ends; without one, the end of the
/// text.
pub open spec fn from_clause_end(sql: Seq<char>) -> int {
    let from = first_keyword(sql, seq![" FROM "@], 0);
    if from >= sql.len() {
        sql.len() as int
    } else {
        let tables = from + " FROM "@.len();
        tables + first_keyword(sql.skip(tables), clause_keywords(), 0)
    }
}

/// The statement with `FINAL` at the end of its `FROM` clause.
pub open spec fn with_final(sql: Seq<char>) -> Seq<char> {
    let end = from_clause_end(sql);
    sql.take(end) + " FINAL"@ + sql.skip(end)
}

/// What the values of a statement hold, in placeholder order. Where a template
/// has placeholders that do not stand for an expression, it is named only.
pub open spec fn statement_data(t: SelectTree) -> Seq<DatumView> {
    if select_is_plain(t) {
        select_data(t)
    } else {
        rendered_select(t).1
    }
}

/// The SQL text of a statement, qualified with `FINAL`, and what its values hold.
/// The text depends on the statement's shape alone.
pub open spec fn final_select(t: SelectTree) -> (Seq<char>, Seq<DatumView>) {
    (with_final(rendered_select(select_shape(t)).0), statement_data(t))
}

/// The characters of a text.
fn chars_of(text: &str) -> (r: Vec<char>)
    ensures
        r@ == text@,
{
    let mut out: Vec<char> = Vec::new();
    for c in iter: text.chars()
        invariant
            out@ == text@.take(iter.index() as int),
            iter.seq() == text@,
    {
        proof {
            let i = iter.index() as int;
            assert(text@.take(i + 1) =~= text@.take(i).push(text@[i]));
        }
        out.push(c);
    }
    assert(text@.take(text@.len() as int) =~= text@);
    out
}

/// The views of a sequence of keywords.
pub open spec fn keyword_views(keywords: Seq<Vec<char>>) -> Seq<Seq<char>> {
    keywords.map_values(|k: Vec<char>| k@)
}

/// Whether the keyword stands in the text at the position, quoted or not.
fn stands_at(text: &Vec<char>, keyword: &Vec<char>, at: usize) -> (r: bool)
    requires
        at <= text@.len(),
    ensures
        r == (at + keyword@.len() <= text@.len() && text@.subrange(
            at as int,
            at + keyword@.len(),
        ) == keyword@),
{
    if text.len() - at < keyword.len() {
        return false;
    }
    let n = text.len();
    let mut i: usize = 0;
    while i < keyword.len()
        invariant
            i <= keyword@.len(),
            n == text@.len(),
            at + keyword@.len() <= n,
            forall|j: int| 0 <= j < i ==> text@[at + j] == keyword@[j],
        decreases keyword@.len() - i,
    {
        if text[at + i] != keyword[i] {
            proof {
                let part = text@.subrange(at as int, at + keyword@.len());
                assert(part[i as int] == text@[at + i]);
            }
            return false;
        }
        i = i + 1;
    }
    assert(text@.subrange(at as int, at + keyword@.len()) =~= keyword@);
    true
}

/// Whether one of the keywords stands in the text at the position.
fn some_stands_at(text: &Vec<char>, keywords: &Vec<Vec<char>>, at: usize, quoted: bool) -> (r: bool)
    requires
        at <= text@.len(),
        quoted == literal_state(text@, at as int).quoted,
    ensures
        r == some_keyword_at(text@, keyword_views(keywords@), at as int),
{
    let mut i: usize = 0;
    while i < keywords.len()
        invariant
            i <= keywords@.len(),
            at <= text@.len(),
            quoted == literal_state(text@, at as int).quoted,
            forall|k: int|
                0 <= k < i ==> !keyword_at(
                    text@,
                    #[trigger] keyword_views(keywords@)[k],
                    at as int,
                ),
        decreases keywords@.len() - i,
    {
        let found = stands_at(text, &keywords[i], at) && !quoted;
        assert(keyword_views(keywords@)[i as int] == keywords@[i as int]@);
        assert(found == keyword_at(text@, keywords@[i as int]@, at as int));
        if found {
            return true;
        }
        i = i + 1;
    }
    false
}

/// Finds the first of the keywords.
fn find_keyword(text: &Vec<char>, keywords: &Vec<Vec<char>>) -> (at: usize)
    ensures
        at == first_keyword(text@, keyword_views(keywords@), 0),
        at <= text@.len(),
{
    let ghost kws = keyword_views(keywords@);
    let mut quoted = false;
    let mut escaped = false;
    let mut at: usize = 0;
    while at < text.len()
        invariant
            at <= text@.len(),
            kws == keyword_views(keywords@),
            literal_state(text@, at as int) == (LiteralState { quoted, escaped }),
            first_keyword(text@, kws, 0) == first_keyword(text@, kws, at as int),
        decreases text@.len() - at,
    {
        if some_stands_at(text, keywords, at, quoted) {
            return at;
        }
        let c = text[at];
        if escaped {
            escaped = false;
        } else if c == '\\' {
            escaped = true;
        } else if c == '\'' {
            quoted = !quoted;
        }
        at = at + 1;
    }
    at
}

/// The keyword that starts a `FROM` clause.
fn from_keyword() -> (r: Vec<Vec<char>>)
    ensures
        keyword_views(r@) == seq![" FROM "@],
{
    let r = vec![chars_of(" FROM ")];
    assert(keyword_views(r@) =~= seq![" FROM "@]);
    r
}

/// The keywords that end a `FROM` clause.
fn end_keywords() -> (r: Vec<Vec<char>>)
    ensures
        keyword_views(r@) == clause_keywords(),
{
    let r = vec![
        chars_of(" LEFT JOIN "),
        chars_of(" RIGHT JOIN "),
        chars_of(" INNER JOIN "),
        chars_of(" CROSS JOIN "),
        chars_of(" FULL JOIN "),
        chars_of(" JOIN "),
        chars_of(" PREWHERE "),
        chars_of(" WHERE "),
        chars_of(" GROUP BY "),
        chars_of(" HAVING "),
        chars_of(" ORDER BY "),
        chars_of(" LIMIT "),
        chars_of(" UNION "),
    ];
    assert(keyword_views(r@) =~= clause_keywords());
    r
}

/// The text from a position on.
fn suffix_of(text: &Vec<char>, start: usize) -> (r: Vec<char>)
    requires
        start <= text@.len(),
    ensures
        r@ == text@.skip(start as int),
{
    let mut out: Vec<char> = Vec::new();
    let mut i: usize = start;
    while i < text.len()
        invariant
            start <= i <= text@.len(),
            out@ == text@.subrange(start as int, i as int),
        decreases text@.len() - i,
    {
        out.push(text[i]);
        proof {
            assert(text@.subrange(start as int, i + 1) =~= text@.subrange(
                start as int,
                i as int,
            ).push(text@[i as int]));
        }
        i = i + 1;
    }
    assert(text@.subrange(start as int, i as int) =~= text@.skip(start as int));
    out
}

/// Puts `FINAL` at the end of the `FROM` clause.
pub fn qualify_final(sql: &str) -> (r: String)
    ensures
        r@ == with_final(sql@),
{
    let text = chars_of(sql);
    let from = find_keyword(&text, &from_keyword());
    let end: usize = if from >= text.len() {
        text.len()
    } else {
        proof {
            reveal_strlit(" FROM ");
            lemma_first_keyword_stands(text@, seq![" FROM "@], 0);
        }
        let tables = from + 6;
        let rest = suffix_of(&text, tables);
        tables + find_keyword(&rest, &end_keywords())
    };
    sql.substring_char(0, end).to_owned().concat(" FINAL").concat(
        sql.substring_char(end, text.len()),
    )
}

/// Where a keyword was found, one stands.
proof fn lemma_first_keyword_stands(text: Seq<char>, keywords: Seq<Seq<char>>, start: int)
    requires
        0 <= start,
        first_keyword(text, keywords, start) < text.len(),
    ensures
        start <= first_keyword(text, keywords, start),
        some_keyword_at(text, keywords, first_keyword(text, keywords, start)),
    decreases text.len() - start,
{
    if start < text.len() && !some_keyword_at(text, keywords, start) {
        lemma_first_keyword_stands(text, keywords, start + 1);
    }
}

/// Whether a text and its values are those of a statement.
pub open spec fn is_built(r: (String, Vec<sea_query::Value>), t: SelectTree) -> bool {
    (r.0@, data_of(sea_values(r.1@))) == final_select(t)
}

/// Renders a statement, qualified with `FINAL`.
pub fn build_select_final(stmt: sea_query::SelectStatement) -> (r: (String, Vec<sea_query::Value>))
    requires
        select_balanced(select_tree(stmt)),
    ensures
        is_built(r, select_tree(stmt)),
{
    let (sql, values) = build_select(stmt);
    (qualify_final(sql.as_str()), values)
}

/// The values of a built statement are its data.
proof fn lemma_built_holds(r: (String, Vec<sea_query::Value>), t: SelectTree)
    requires
        is_built(r, t),
    ensures
        hold_data(r.1@, statement_data(t)),
{
    let values = r.1@;
    assert(data_of(sea_values(values)).len() == values.len());
    assert forall|i: int| 0 <= i < values.len() implies value_datum(#[trigger] values[i])
        == statement_data(t)[i] by {
        assert(data_of(sea_values(values))[i] == value_datum(values[i]));
    }
}

/// The comparison of a column with a text.
pub open spec fn text_comparison(column: Seq<char>, text: Seq<char>) -> ExprTree {
    compared(
        ExprTree::Column(column),
        Comparison::Equal,
        ExprTree::Value(DatumView::Text(Some(text))),
    )
}

/// The condition that a column equals a text.
pub open spec fn equals_text(column: Seq<char>, text: Seq<char>) -> ConditionTree {
    just(text_comparison(column, text))
}

/// The condition that a column equals a text.
pub fn text_equality(column: &'static str, text: &str) -> (c: sea_query::Condition)
    ensures
        condition_tree(c) == equals_text(column@, text@),
        condition_balanced(condition_tree(c)),
{
    let c = condition_from_expr(
        expr_eq(expr_col(column), expr_val(string_value(text.to_owned()))),
    );
    proof {
        reveal_with_fuel(expr_balanced, 2);
        lemma_just_balanced(text_comparison(column@, text@));
    }
    c
}

/// The condition of a balanced expression is balanced.
pub proof fn lemma_just_balanced(e: ExprTree)
    requires
        expr_balanced(e),
    ensures
        condition_balanced(just(e)),
{
    assert(just(e).items[0] == ConditionItem::Leaf(e));
}

/// A statement stays balanced when a balanced condition is added.
pub proof fn lemma_filtered_balanced(t: SelectTree, c: ConditionTree)
    requires
        select_balanced(t),
        condition_balanced(c),
    ensures
        select_balanced(filtered(t, c)),
{
    let r = and_filter(t.filter, c);
    match t.filter {
        None => {},
        Some(f) => {
            if !f.any && !f.negate {
                if !c.any && !c.negate {
                    assert forall|i: int| 0 <= i < r.items.len() implies match #[trigger] r.items[i] {
                        ConditionItem::Nested(inner) => condition_balanced(inner),
                        ConditionItem::Leaf(e) => expr_balanced(e),
                    } by {
                        if i < f.items.len() {
                            assert(r.items[i] == f.items[i]);
                        } else {
                            assert(r.items[i] == c.items[i - f.items.len()]);
                        }
                    }
                } else {
                    lemma_with_item_balanced(f, c);
                }
            } else {
                lemma_with_item_balanced(all_of(Seq::empty()), f);
                lemma_with_item_balanced(with_item(all_of(Seq::empty()), f), c);
            }
        },
    }
}

/// The statement that reads columns of a table.
pub open spec fn reading(columns: Seq<Seq<char>>, table: Seq<char>) -> SelectTree {
    SelectTree { from: seq![table], ..selecting(empty_select(), columns) }
}

/// The statement that reads whole rows of `usage_records`.
pub open spec fn reading_records() -> SelectTree {
    reading(record_select_columns(), UsageRecords::Table.spec_iden())
}

/// The statement that reads whole rows of `usage_type_catalog`.
pub open spec fn reading_types() -> SelectTree {
    reading(type_select_columns(), UsageTypeCatalog::Table.spec_iden())
}

/// Reading columns is balanced.
pub proof fn lemma_reading_balanced(columns: Seq<Seq<char>>, table: Seq<char>)
    ensures
        select_balanced(reading(columns, table)),
{
    let t = reading(columns, table);
    assert forall|i: int| 0 <= i < t.selects.len() implies expr_balanced(
        (#[trigger] t.selects[i]).0,
    ) by {
        assert(t.selects[i].0 == ExprTree::Column(columns[i]));
    }
}

/// Starts the statement that reads whole rows of `usage_records`.
pub fn select_records() -> (stmt: sea_query::SelectStatement)
    ensures
        select_tree(stmt) == reading_records(),
        select_balanced(select_tree(stmt)),
{
    let columns = RECORD_SELECT_COLUMNS;
    let ghost names = record_select_columns();
    let mut stmt = select_new();
    let mut i: usize = 0;
    while i < 15
        invariant
            i <= 15,
            columns == RECORD_SELECT_COLUMNS,
            names == record_select_columns(),
            select_tree(stmt) == selecting(empty_select(), names.take(i as int)),
        decreases 15 - i,
    {
        select_column(&mut stmt, columns[i].iden());
        proof {
            assert(names[i as int] == columns@[i as int].spec_iden());
            assert(names.take(i + 1) =~= names.take(i as int).push(names[i as int]));
            assert(select_tree(stmt).selects =~= selecting(
                empty_select(),
                names.take(i + 1),
            ).selects);
        }
        i = i + 1;
    }
    select_from(&mut stmt, UsageRecords::Table.iden());
    proof {
        assert(names.take(15) =~= names);
        assert(select_tree(stmt).from =~= seq![UsageRecords::Table.spec_iden()]);
        lemma_reading_balanced(names, UsageRecords::Table.spec_iden());
    }
    stmt
}

/// Starts the statement that reads whole rows of `usage_type_catalog`.
pub fn select_types() -> (stmt: sea_query::SelectStatement)
    ensures
        select_tree(stmt) == reading_types(),
        select_balanced(select_tree(stmt)),
{
    let columns = TYPE_SELECT_COLUMNS;
    let ghost names = type_select_columns();
    let mut stmt = select_new();
    let mut i: usize = 0;
    while i < 4
        invariant
            i <= 4,
            columns == TYPE_SELECT_COLUMNS,
            names == type_select_columns(),
            select_tree(stmt) == selecting(empty_select(), names.take(i as int)),
        decreases 4 - i,
    {
        select_column(&mut stmt, columns[i].iden());
        proof {
            assert(names[i as int] == columns@[i as int].spec_iden());
            assert(names.take(i + 1) =~= names.take(i as int).push(names[i as int]));
            assert(select_tree(stmt).selects =~= selecting(
                empty_select(),
                names.take(i + 1),
            ).selects);
        }
        i = i + 1;
    }
    select_from(&mut stmt, UsageTypeCatalog::Table.iden());
    proof {
        assert(names.take(4) =~= names);
        assert(select_tree(stmt).from =~= seq![UsageTypeCatalog::Table.spec_iden()]);
        lemma_reading_balanced(names, UsageTypeCatalog::Table.spec_iden());
    }
    stmt
}

/// The statement that counts the usage types.
pub open spec fn catalog_count() -> SelectTree {
    SelectTree {
        selects: seq![(ExprTree::Custom("count()"@), None)],
        from: seq![UsageTypeCatalog::Table.spec_iden()],
        ..empty_select()
    }
}

/// Counts the usage types.
pub fn catalog_count_sql() -> (r: (String, Vec<sea_query::Value>))
    ensures
        is_built(r, catalog_count()),
        r.1@.len() == 0,
{
    let mut stmt = select_new();
    select_expr(&mut stmt, expr_cust("count()".to_owned()));
    select_from(&mut stmt, UsageTypeCatalog::Table.iden());
    assert(select_tree(stmt) =~= catalog_count());
    proof {
        lemma_statement_data(catalog_count(), Seq::empty());
    }
    let r = build_select_final(stmt);
    proof {
        lemma_built_holds(r, catalog_count());
    }
    r
}

/// Reads a usage type by its identifier.
pub fn catalog_get_by_gts_id(gts_id: &str) -> (r: (String, Vec<sea_query::Value>))
    ensures
        is_built(
            r,
            filtered(reading_types(), equals_text(UsageTypeCatalog::GtsId.spec_iden(), gts_id@)),
        ),
        hold_data(r.1@, seq![DatumView::Text(Some(gts_id@))]),
{
    let mut stmt = select_types();
    let cond = text_equality(UsageTypeCatalog::GtsId.iden(), gts_id);
    proof {
        lemma_filtered_balanced(select_tree(stmt), condition_tree(cond));
    }
    select_cond_where(&mut stmt, cond);
    let r = build_select_final(stmt);
    proof {
        lemma_reading_by_text_data(
            type_select_columns(),
            UsageTypeCatalog::Table.spec_iden(),
            UsageTypeCatalog::GtsId.spec_iden(),
            gts_id@,
        );
        lemma_built_holds(
            r,
            filtered(reading_types(), equals_text(UsageTypeCatalog::GtsId.spec_iden(), gts_id@)),
        );
    }
    r
}

/// The statement that reads the identifiers of the catalog.
pub open spec fn reading_gts_ids() -> SelectTree {
    reading(seq![UsageTypeCatalog::GtsId.spec_iden()], UsageTypeCatalog::Table.spec_iden())
}

/// Asks whether a usage type is in the catalog.
pub fn catalog_exists_gts_id(gts_id: &str) -> (r: (String, Vec<sea_query::Value>))
    ensures
        is_built(
            r,
            filtered(reading_gts_ids(), equals_text(UsageTypeCatalog::GtsId.spec_iden(), gts_id@)),
        ),
        hold_data(r.1@, seq![DatumView::Text(Some(gts_id@))]),
{
    let mut stmt = select_new();
    select_column(&mut stmt, UsageTypeCatalog::GtsId.iden());
    select_from(&mut stmt, UsageTypeCatalog::Table.iden());
    assert(select_tree(stmt) =~= reading_gts_ids());
    let cond = text_equality(UsageTypeCatalog::GtsId.iden(), gts_id);
    proof {
        lemma_reading_balanced(
            seq![UsageTypeCatalog::GtsId.spec_iden()],
            UsageTypeCatalog::Table.spec_iden(),
        );
        lemma_filtered_balanced(select_tree(stmt), condition_tree(cond));
    }
    select_cond_where(&mut stmt, cond);
    let r = build_select_final(stmt);
    proof {
        lemma_reading_by_text_data(
            seq![UsageTypeCatalog::GtsId.spec_iden()],
            UsageTypeCatalog::Table.spec_iden(),
            UsageTypeCatalog::GtsId.spec_iden(),
            gts_id@,
        );
        lemma_built_holds(
            r,
            filtered(reading_gts_ids(), equals_text(UsageTypeCatalog::GtsId.spec_iden(), gts_id@)),
        );
    }
    r
}

/// Whether the values hold the data.
pub open spec fn hold_data(values: Seq<sea_query::Value>, data: Seq<DatumView>) -> bool {
    &&& values.len() == data.len()
    &&& forall|i: int| 0 <= i < data.len() ==> value_datum(#[trigger] values[i]) == data[i]
}

/// Deletes a usage type at once; a mutation would take effect later.
pub fn lightweight_delete_usage_type(gts_id: &str) -> (r: (String, Vec<sea_query::Value>))
    ensures
        r.0@ == "DELETE FROM usage_type_catalog WHERE gts_id = ?"@,
        hold_data(r.1@, seq![DatumView::Text(Some(gts_id@))]),
{
    (
        "DELETE FROM usage_type_catalog WHERE gts_id = ?".to_owned(),
        vec![string_value(gts_id.to_owned())],
    )
}

/// Counts the records of a usage type, up to a limit.
pub fn records_ref_count_probe(gts_id: &str, limit: i64) -> (r: (String, Vec<sea_query::Value>))
    ensures
        r.0@
            == "SELECT count() FROM (SELECT 1 FROM usage_records FINAL WHERE gts_id = ? LIMIT ?) AS sub_ref"@,
        hold_data(r.1@, seq![DatumView::Text(Some(gts_id@)), DatumView::BigInt(Some(limit))]),
{
    (
        "SELECT count() FROM (SELECT 1 FROM usage_records FINAL WHERE gts_id = ? LIMIT ?) AS sub_ref".to_owned(),
        vec![string_value(gts_id.to_owned()), big_int_value(limit)],
    )
}

/// Reads a record by its identifier.
pub fn record_get_by_id(id: &str) -> (r: (String, Vec<sea_query::Value>))
    ensures
        is_built(r, filtered(reading_records(), equals_text(UsageRecords::Id.spec_iden(), id@))),
        hold_data(r.1@, seq![DatumView::Text(Some(id@))]),
{
    let mut stmt = select_records();
    let cond = text_equality(UsageRecords::Id.iden(), id);
    proof {
        lemma_filtered_balanced(select_tree(stmt), condition_tree(cond));
    }
    select_cond_where(&mut stmt, cond);
    let r = build_select_final(stmt);
    proof {
        lemma_reading_by_text_data(
            record_select_columns(),
            UsageRecords::Table.spec_iden(),
            UsageRecords::Id.spec_iden(),
            id@,
        );
        lemma_built_holds(
            r,
            filtered(reading_records(), equals_text(UsageRecords::Id.spec_iden(), id@)),
        );
    }
    r
}

/// `char`'s `Display`: the character alone.
#[verifier::external_body]
fn char_text(c: char) -> (s: String)
    ensures
        s@ == seq![c],
{
    c.to_string()
}

/// What a query is given for a value that holds the datum, where it takes one.
pub open spec fn datum_arg(d: DatumView) -> Option<QueryArg> {
    match d {
        DatumView::Bool(Some(b)) => Some(QueryArg::Bool(b)),
        DatumView::TinyInt(Some(n)) => Some(QueryArg::I64(n as i64)),
        DatumView::SmallInt(Some(n)) => Some(QueryArg::I64(n as i64)),
        DatumView::Int(Some(n)) => Some(QueryArg::I64(n as i64)),
        DatumView::BigInt(Some(n)) => Some(QueryArg::I64(n)),
        DatumView::TinyUnsigned(Some(n)) => Some(QueryArg::U64(n as u64)),
        DatumView::SmallUnsigned(Some(n)) => Some(QueryArg::U64(n as u64)),
        DatumView::Unsigned(Some(n)) => Some(QueryArg::U64(n as u64)),
        DatumView::BigUnsigned(Some(n)) => Some(QueryArg::U64(n)),
        DatumView::Float(Some(t)) => Some(QueryArg::Float(t)),
        DatumView::Double(Some(t)) => Some(QueryArg::Double(t)),
        DatumView::Text(Some(t)) => Some(QueryArg::Text(t)),
        DatumView::Char(Some(c)) => Some(QueryArg::Text(seq![c])),
        DatumView::Bytes(Some(b)) => Some(QueryArg::Bytes(b)),
        DatumView::ChronoDateTimeUtcMicros(Some(n)) => Some(QueryArg::I64(n)),
        DatumView::ChronoDateTimeMicros(Some(n)) => Some(QueryArg::I64(n)),
        DatumView::TimeDateTimeWithTimeZoneNanos(Some(n)) => Some(
            QueryArg::I64((n as int / 1000) as i64),
        ),
        DatumView::TimeDateTimeNanos(Some(n)) => Some(QueryArg::I64((n as int / 1000) as i64)),
        DatumView::Uuid(Some(u)) => Some(QueryArg::Text(uuid_text(u.bits))),
        DatumView::Decimal(Some(d)) => Some(QueryArg::Text(decimal_spelling(d))),
        _ => None,
    }
}

/// What a query is given for a value, or why it cannot be.
pub open spec fn value_arg(v: SqlValueView) -> Result<QueryArg, Seq<char>> {
    match datum_arg(v.datum) {
        Some(arg) => Ok(arg),
        None => Err("unsupported sea_query::Value for ClickHouse bind: "@ + v.shown),
    }
}

/// Binds a value to a query. A `NULL`, and a value of another type, is an error.
pub fn bind_sea_value(q: clickhouse::query::Query, v: &sea_query::Value) -> (r: Result<
    clickhouse::query::Query,
    String,
>)
    ensures
        match value_arg(sea_value(*v)) {
            Ok(arg) => r matches Ok(x) && bound_with(x, q, arg),
            Err(why) => r matches Err(e) && e@ == why,
        },
{
    let value = sql_value(v);
    match &value.datum {
        Datum::Bool(Some(b)) => Ok(bind_bool(q, *b)),
        Datum::TinyInt(Some(n)) => Ok(bind_i64(q, *n as i64)),
        Datum::SmallInt(Some(n)) => Ok(bind_i64(q, *n as i64)),
        Datum::Int(Some(n)) => Ok(bind_i64(q, *n as i64)),
        Datum::BigInt(Some(n)) => Ok(bind_i64(q, *n)),
        Datum::TinyUnsigned(Some(n)) => Ok(bind_u64(q, *n as u64)),
        Datum::SmallUnsigned(Some(n)) => Ok(bind_u64(q, *n as u64)),
        Datum::Unsigned(Some(n)) => Ok(bind_u64(q, *n as u64)),
        Datum::BigUnsigned(Some(n)) => Ok(bind_u64(q, *n)),
        Datum::Float(Some(_)) => Ok(bind_float(q, v)),
        Datum::Double(Some(_)) => Ok(bind_double(q, v)),
        Datum::Text(Some(t)) => Ok(bind_text(q, t.as_str())),
        Datum::Char(Some(c)) => Ok(bind_text(q, char_text(*c).as_str())),
        Datum::Bytes(Some(b)) => Ok(bind_bytes(q, b.as_slice())),
        Datum::ChronoDateTimeUtcMicros(Some(n)) => Ok(bind_i64(q, *n)),
        Datum::ChronoDateTimeMicros(Some(n)) => Ok(bind_i64(q, *n)),
        Datum::TimeDateTimeWithTimeZoneNanos(Some(n)) => Ok(
            bind_i64(q, nanos_to_micros(*n) as i64),
        ),
        Datum::TimeDateTimeNanos(Some(n)) => Ok(bind_i64(q, nanos_to_micros(*n) as i64)),
        Datum::Uuid(Some(u)) => Ok(bind_text(q, u.to_string().as_str())),
        Datum::Decimal(Some(d)) => Ok(bind_text(q, d.to_string().as_str())),
        _ => Err(
            "unsupported sea_query::Value for ClickHouse bind: ".to_owned().concat(
                value.shown.as_str(),
            ),
        ),
    }
}

/// What a query is given for the values, or the first reason why one cannot be.
pub open spec fn value_args(values: Seq<SqlValueView>) -> Result<Seq<QueryArg>, Seq<char>>
    decreases values.len(),
{
    if values.len() == 0 {
        Ok(Seq::empty())
    } else {
        match value_args(values.drop_last()) {
            Err(why) => Err(why),
            Ok(front) => match value_arg(values.last()) {
                Err(why) => Err(why),
                Ok(a) => Ok(front.push(a)),
            },
        }
    }
}

/// What a query is given for values that hold the data, where it takes each.
pub open spec fn data_args(data: Seq<DatumView>) -> Option<Seq<QueryArg>>
    decreases data.len(),
{
    if data.len() == 0 {
        Some(Seq::empty())
    } else {
        match (data_args(data.drop_last()), datum_arg(data.last())) {
            (Some(front), Some(a)) => Some(front.push(a)),
            _ => None,
        }
    }
}

/// What values are bound as depends on what they hold alone.
pub proof fn lemma_value_args_of_data(values: Seq<SqlValueView>)
    ensures
        match data_args(data_of(values)) {
            Some(args) => value_args(values) == Ok::<Seq<QueryArg>, Seq<char>>(args),
            None => value_args(values) is Err,
        },
    decreases values.len(),
{
    if values.len() > 0 {
        lemma_value_args_of_data(values.drop_last());
        assert(data_of(values).drop_last() =~= data_of(values.drop_last()));
    }
}

proof fn lemma_value_args_stop(values: Seq<SqlValueView>, n: int)
    requires
        0 <= n <= values.len(),
        value_args(values.take(n)) is Err,
    ensures
        value_args(values) == value_args(values.take(n)),
    decreases values.len(),
{
    if n == values.len() {
        assert(values.take(n) =~= values);
    } else {
        let front = values.drop_last();
        assert(front.take(n) =~= values.take(n));
        lemma_value_args_stop(front, n);
    }
}

/// Binds values to a query, in order. The first that cannot be bound is the
/// error.
pub fn bind_values(q: clickhouse::query::Query, values: &Vec<sea_query::Value>) -> (r: Result<
    clickhouse::query::Query,
    String,
>)
    ensures
        match value_args(sea_values(values@)) {
            Ok(args) => r matches Ok(x) && query_text(x) == query_text(q) && query_args(x)
                == query_args(q) + args,
            Err(why) => r matches Err(e) && e@ == why,
        },
{
    let ghost views = sea_values(values@);
    let ghost text = query_text(q);
    let ghost before = query_args(q);
    let mut bound = q;
    let mut i: usize = 0;
    proof {
        assert(views.take(0) =~= Seq::<SqlValueView>::empty());
        assert(before + Seq::<QueryArg>::empty() =~= before);
    }
    while i < values.len()
        invariant
            i <= values@.len(),
            views == sea_values(values@),
            query_text(bound) == text,
            value_args(views.take(i as int)) is Ok,
            query_args(bound) == before + value_args(views.take(i as int))->Ok_0,
        decreases values@.len() - i,
    {
        let ghost args = value_args(views.take(i as int))->Ok_0;
        proof {
            let longer = views.take(i + 1);
            assert(longer.drop_last() =~= views.take(i as int));
            assert(longer.last() == sea_value(values@[i as int]));
        }
        match bind_sea_value(bound, &values[i]) {
            Ok(x) => {
                bound = x;
                proof {
                    let arg = value_arg(views[i as int])->Ok_0;
                    assert((before + args).push(arg) =~= before + args.push(arg));
                }
            },
            Err(e) => {
                proof {
                    lemma_value_args_stop(views, i + 1);
                }
                return Err(e);
            },
        }
        i = i + 1;
    }
    assert(views.take(i as int) =~= views);
    Ok(bound)
}

/// Whether an outcome is a query of the text with the values bound to it.
pub open spec fn is_prepared(
    r: Result<clickhouse::query::Query, String>,
    sql: Seq<char>,
    values: Seq<SqlValueView>,
) -> bool {
    match value_args(values) {
        Ok(args) => r matches Ok(q) && query_text(q) == sql && query_args(q) == args,
        Err(why) => r matches Err(e) && e@ == why,
    }
}

/// A query of the text with the values bound to it.
pub fn prepared_query(
    client: &clickhouse::Client,
    sql: &str,
    values: &Vec<sea_query::Value>,
) -> (r: Result<clickhouse::query::Query, String>)
    ensures
        is_prepared(r, sql@, sea_values(values@)),
{
    proof {
        if value_args(sea_values(values@)) is Ok {
            let args = value_args(sea_values(values@))->Ok_0;
            assert(Seq::<QueryArg>::empty() + args =~= args);
        }
    }
    bind_values(client_query(client, sql), values)
}

/// Whether it is why values that hold the data cannot be bound: the first that
/// cannot is named by its debug text.
pub open spec fn is_refusal_of(why: Seq<char>, data: Seq<DatumView>) -> bool {
    exists|values: Seq<SqlValueView>| #[trigger]
        data_of(values) == data && value_args(values) == Err::<Seq<QueryArg>, Seq<char>>(why)
}

/// Renders a statement, qualified with `FINAL`, and binds its values.
pub fn prepared_select(client: &clickhouse::Client, stmt: sea_query::SelectStatement) -> (r: Result<
    clickhouse::query::Query,
    String,
>)
    requires
        select_balanced(select_tree(stmt)),
    ensures
        match data_args(final_select(select_tree(stmt)).1) {
            Some(args) => r matches Ok(q) && query_text(q) == final_select(select_tree(stmt)).0
                && query_args(q) == args,
            None => r matches Err(e) && is_refusal_of(e@, final_select(select_tree(stmt)).1),
        },
{
    let (sql, values) = build_select_final(stmt);
    proof {
        lemma_value_args_of_data(sea_values(values@));
    }
    prepared_query(client, sql.as_str(), &values)
}

/// Binds the values of a rendered statement.
pub fn prepared_sql(client: &clickhouse::Client, built: (String, Vec<sea_query::Value>)) -> (r:
    Result<clickhouse::query::Query, String>)
    ensures
        is_prepared(r, built.0@, sea_values(built.1@)),
{
    let (sql, values) = built;
    prepared_query(client, sql.as_str(), &values)
}

/// The statement with a condition added, unless the condition has no item.
pub open spec fn conditioned(t: SelectTree, c: ConditionTree) -> SelectTree {
    if c.items.len() == 0 {
        t
    } else {
        filtered(t, c)
    }
}

/// Adds a condition to a statement, unless it has no item.
pub fn apply_condition(stmt: &mut sea_query::SelectStatement, cond: sea_query::Condition)
    requires
        !select_tree(*old(stmt)).other,
    ensures
        select_tree(*final(stmt)) == conditioned(select_tree(*old(stmt)), condition_tree(cond)),
{
    if !condition_is_empty(&cond) {
        select_cond_where(stmt, cond);
    }
}

/// The trees of a sequence of conditions.
pub open spec fn condition_trees(parts: Seq<sea_query::Condition>) -> Seq<ConditionTree> {
    parts.map_values(|c: sea_query::Condition| condition_tree(c))
}

/// The conditions that have an item, joined by `AND`.
pub open spec fn conjunction(parts: Seq<ConditionTree>) -> ConditionTree
    decreases parts.len(),
{
    if parts.len() == 0 {
        all_of(Seq::empty())
    } else if parts.last().items.len() == 0 {
        conjunction(parts.drop_last())
    } else {
        with_item(conjunction(parts.drop_last()), parts.last())
    }
}

/// Joins the conditions that have an item by `AND`.
pub fn and_conditions(parts: Vec<sea_query::Condition>) -> (c: sea_query::Condition)
    ensures
        condition_tree(c) == conjunction(condition_trees(parts@)),
{
    let ghost trees = condition_trees(parts@);
    let mut out = condition_all();
    assert(trees.take(0) =~= Seq::<ConditionTree>::empty());
    for p in iter: parts.into_iter()
        invariant
            trees == condition_trees(parts@),
            iter.seq() == parts@,
            condition_tree(out) == conjunction(trees.take(iter.index() as int)),
    {
        proof {
            let i = iter.index() as int;
            let longer = trees.take(i + 1);
            assert(longer.drop_last() =~= trees.take(i));
            assert(longer.last() == condition_tree(p));
        }
        if !condition_is_empty(&p) {
            out = condition_add(out, p);
        }
    }
    assert(trees.take(trees.len() as int) =~= trees);
    out
}

/// Turns an expression into a condition.
pub fn into_condition(e: sea_query::Expr) -> (c: sea_query::Condition)
    ensures
        condition_tree(c) == just(expr_tree(e)),
{
    condition_from_expr(e)
}

/// What is read of the tables: whole rows, column by column in the order of the
/// rows' fields, from the table that is meant; the rows of one identifier where
/// one is given.
pub proof fn law_statements_read_whole_rows(gts_id: Seq<char>, id: Seq<char>)
    ensures
        reading_records().selects == seq![
            (ExprTree::Column("id"@), None::<Seq<char>>),
            (ExprTree::Column("tenant_id"@), None),
            (ExprTree::Column("gts_id"@), None),
            (ExprTree::Column("value"@), None),
            (ExprTree::Column("created_at"@), None),
            (ExprTree::Column("resource_id"@), None),
            (ExprTree::Column("resource_type"@), None),
            (ExprTree::Column("subject_id"@), None),
            (ExprTree::Column("subject_type"@), None),
            (ExprTree::Column("idempotency_key"@), None),
            (ExprTree::Column("corrects_id"@), None),
            (ExprTree::Column("status"@), None),
            (ExprTree::Column("metadata"@), None),
            (ExprTree::Column("ingested_at"@), None),
            (ExprTree::Column("version"@), None),
        ],
        reading_records().from == seq!["usage_records"@],
        reading_types().selects == seq![
            (ExprTree::Column("gts_id"@), None::<Seq<char>>),
            (ExprTree::Column("kind"@), None),
            (ExprTree::Column("metadata_fields"@), None),
            (ExprTree::Column("version"@), None),
        ],
        reading_types().from == seq!["usage_type_catalog"@],
        reading_gts_ids().selects == seq![(ExprTree::Column("gts_id"@), None::<Seq<char>>)],
        reading_gts_ids().from == seq!["usage_type_catalog"@],
        catalog_count().selects == seq![(ExprTree::Custom("count()"@), None::<Seq<char>>)],
        catalog_count().from == seq!["usage_type_catalog"@],
        catalog_count().filter is None,
        reading_records().filter is None && reading_types().filter is None
            && reading_gts_ids().filter is None,
        reading_records().limit is None && reading_types().limit is None && reading_gts_ids().limit
            is None && catalog_count().limit is None,
        forall|t: SelectTree, column: Seq<char>, text: Seq<char>|
            t.filter is None ==> (#[trigger] filtered(t, equals_text(column, text))).filter == Some(
                ConditionTree {
                    negate: false,
                    any: false,
                    items: seq![
                        ConditionItem::Leaf(
                            ExprTree::Binary(
                                Box::new(ExprTree::Column(column)),
                                Comparison::Equal,
                                Box::new(ExprTree::Value(DatumView::Text(Some(text)))),
                            ),
                        ),
                    ],
                },
            ),
{
    law_names_of_tables_and_columns();
    assert(reading_records().selects =~= seq![
        (ExprTree::Column("id"@), None::<Seq<char>>),
        (ExprTree::Column("tenant_id"@), None),
        (ExprTree::Column("gts_id"@), None),
        (ExprTree::Column("value"@), None),
        (ExprTree::Column("created_at"@), None),
        (ExprTree::Column("resource_id"@), None),
        (ExprTree::Column("resource_type"@), None),
        (ExprTree::Column("subject_id"@), None),
        (ExprTree::Column("subject_type"@), None),
        (ExprTree::Column("idempotency_key"@), None),
        (ExprTree::Column("corrects_id"@), None),
        (ExprTree::Column("status"@), None),
        (ExprTree::Column("metadata"@), None),
        (ExprTree::Column("ingested_at"@), None),
        (ExprTree::Column("version"@), None),
    ]);
    assert(reading_types().selects =~= seq![
        (ExprTree::Column("gts_id"@), None::<Seq<char>>),
        (ExprTree::Column("kind"@), None),
        (ExprTree::Column("metadata_fields"@), None),
        (ExprTree::Column("version"@), None),
    ]);
    assert(reading_gts_ids().selects =~= seq![(ExprTree::Column("gts_id"@), None::<Seq<char>>)]);
}

/// `FINAL` is added and nothing else: the text before it and the text behind it
/// are the statement. It stands behind the tables of the first `FROM` outside
/// quotes: what comes next is a clause, or nothing, and no clause comes between.
pub proof fn law_final_is_added_and_nothing_else(sql: Seq<char>)
    ensures
        exists|end: int|
            0 <= end <= sql.len() && #[trigger] with_final(sql) == sql.take(end) + " FINAL"@
                + sql.skip(end) && (end < sql.len() ==> exists|from: int|
                0 <= from && from + 6 <= end && #[trigger] keyword_at(sql, " FROM "@, from) && (
                forall|at: int| 0 <= at < from ==> !#[trigger] keyword_at(sql, " FROM "@, at)) && (
                exists|k: int|
                    0 <= k < clause_keywords().len() && #[trigger] keyword_at(
                        sql.skip(from + 6),
                        clause_keywords()[k],
                        end - from - 6,
                    )) && (forall|k: int, at: int|
                    0 <= k < clause_keywords().len() && 0 <= at < end - from - 6
                        ==> !#[trigger] keyword_at(
                        sql.skip(from + 6),
                        clause_keywords()[k],
                        at,
                    ))),
{
    reveal_strlit(" FROM ");
    let end = from_clause_end(sql);
    let kws = seq![" FROM "@];
    let from = first_keyword(sql, kws, 0);
    lemma_first_keyword_is_first(sql, kws, 0);
    if from < sql.len() {
        lemma_first_keyword_stands(sql, kws, 0);
        let k0 = choose|k: int| 0 <= k < kws.len() && keyword_at(sql, #[trigger] kws[k], from);
        assert(kws[k0] == " FROM "@);
        assert(keyword_at(sql, " FROM "@, from));
        assert(from + 6 <= sql.len());
        let rest = sql.skip(from + 6);
        lemma_first_keyword_is_first(rest, clause_keywords(), 0);
        if end < sql.len() {
            lemma_first_keyword_stands(rest, clause_keywords(), 0);
            assert forall|at: int| 0 <= at < from implies !#[trigger] keyword_at(
                sql,
                " FROM "@,
                at,
            ) by {
                assert(!some_keyword_at(sql, kws, at));
                assert(kws[0] == " FROM "@);
            }
            assert forall|k: int, at: int|
                0 <= k < clause_keywords().len() && 0 <= at < end - from
                    - 6 implies !#[trigger] keyword_at(rest, clause_keywords()[k], at) by {
                assert(!some_keyword_at(rest, clause_keywords(), at));
            }
        }
    }
    assert(with_final(sql) == sql.take(end) + " FINAL"@ + sql.skip(end));
}

proof fn lemma_first_keyword_is_first(text: Seq<char>, keywords: Seq<Seq<char>>, start: int)
    requires
        0 <= start <= text.len(),
    ensures
        start <= first_keyword(text, keywords, start) <= text.len(),
        forall|at: int|
            start <= at < first_keyword(text, keywords, start) ==> !#[trigger] some_keyword_at(
                text,
                keywords,
                at,
            ),
    decreases text.len() - start,
{
    if start < text.len() && !some_keyword_at(text, keywords, start) {
        lemma_first_keyword_is_first(text, keywords, start + 1);
    }
}

/// A value is given to a query as what it holds: numbers as numbers, texts and
/// bytes as they are, identifiers and decimals by their spelling, timestamps as
/// whole microseconds; a `NULL` is not given.
pub proof fn law_value_is_given_as_what_it_holds(d: DatumView)
    ensures
        match d {
            DatumView::Bool(Some(b)) => datum_arg(d) == Some(QueryArg::Bool(b)),
            DatumView::TinyInt(Some(n)) => datum_arg(d) matches Some(QueryArg::I64(x)) && x == n,
            DatumView::SmallInt(Some(n)) => datum_arg(d) matches Some(QueryArg::I64(x)) && x == n,
            DatumView::Int(Some(n)) => datum_arg(d) matches Some(QueryArg::I64(x)) && x == n,
            DatumView::BigInt(Some(n)) => datum_arg(d) == Some(QueryArg::I64(n)),
            DatumView::TinyUnsigned(Some(n)) => datum_arg(d) matches Some(QueryArg::U64(x)) && x
                == n,
            DatumView::SmallUnsigned(Some(n)) => datum_arg(d) matches Some(QueryArg::U64(x)) && x
                == n,
            DatumView::Unsigned(Some(n)) => datum_arg(d) matches Some(QueryArg::U64(x)) && x == n,
            DatumView::BigUnsigned(Some(n)) => datum_arg(d) == Some(QueryArg::U64(n)),
            DatumView::Float(Some(t)) => datum_arg(d) == Some(QueryArg::Float(t)),
            DatumView::Double(Some(t)) => datum_arg(d) == Some(QueryArg::Double(t)),
            DatumView::Text(Some(t)) => datum_arg(d) == Some(QueryArg::Text(t)),
            DatumView::Char(Some(c)) => datum_arg(d) == Some(QueryArg::Text(seq![c])),
            DatumView::Bytes(Some(b)) => datum_arg(d) == Some(QueryArg::Bytes(b)),
            DatumView::ChronoDateTimeUtcMicros(Some(n)) => datum_arg(d) == Some(QueryArg::I64(n)),
            DatumView::ChronoDateTimeMicros(Some(n)) => datum_arg(d) == Some(QueryArg::I64(n)),
            DatumView::TimeDateTimeWithTimeZoneNanos(Some(n)) => datum_arg(d) == Some(
                QueryArg::I64((n as int / 1000) as i64),
            ),
            DatumView::TimeDateTimeNanos(Some(n)) => datum_arg(d) == Some(
                QueryArg::I64((n as int / 1000) as i64),
            ),
            DatumView::Uuid(Some(u)) => datum_arg(d) == Some(QueryArg::Text(uuid_text(u.bits))),
            DatumView::Decimal(Some(x)) => datum_arg(d) == Some(QueryArg::Text(decimal_spelling(x))),
            _ => datum_arg(d) is None,
        },
{
}

/// A query is given one argument for each value, in their order, each as the value
/// alone would be given; the first value that cannot be given is told.
pub proof fn law_values_are_given_in_order(values: Seq<SqlValueView>)
    ensures
        value_args(values) matches Ok(args) ==> args.len() == values.len() && forall|i: int|
            0 <= i < values.len() ==> datum_arg(values[i].datum) == Some(#[trigger] args[i]),
        value_args(values) matches Err(why) ==> exists|i: int|
            0 <= i < values.len() && datum_arg((#[trigger] values[i]).datum) is None && why
                == "unsupported sea_query::Value for ClickHouse bind: "@ + values[i].shown && forall|
                j: int,
            |
                0 <= j < i ==> datum_arg((#[trigger] values[j]).datum) is Some,
    decreases values.len(),
{
    if values.len() > 0 {
        let front = values.drop_last();
        law_values_are_given_in_order(front);
        match value_args(values) {
            Ok(args) => {
                let fewer = value_args(front)->Ok_0;
                assert forall|i: int| 0 <= i < values.len() implies datum_arg(values[i].datum)
                    == Some(#[trigger] args[i]) by {
                    if i < front.len() {
                        assert(args[i] == fewer[i]);
                        assert(front[i] == values[i]);
                    }
                }
            },
            Err(why) => {
                match value_args(front) {
                    Err(_) => {
                        let i = choose|i: int|
                            0 <= i < front.len() && datum_arg((#[trigger] front[i]).datum) is None
                                && why == "unsupported sea_query::Value for ClickHouse bind: "@
                                + front[i].shown && forall|j: int|
                                0 <= j < i ==> datum_arg((#[trigger] front[j]).datum) is Some;
                        assert(values[i] == front[i]);
                        assert forall|j: int| 0 <= j < i implies datum_arg(
                            (#[trigger] values[j]).datum,
                        ) is Some by {
                            assert(front[j] == values[j]);
                        }
                    },
                    Ok(fewer) => {
                        let i = values.len() - 1;
                        assert(datum_arg(values[i].datum) is None);
                        assert forall|j: int| 0 <= j < i implies datum_arg(
                            (#[trigger] values[j]).datum,
                        ) is Some by {
                            assert(front[j] == values[j]);
                            assert(datum_arg(front[j].datum) == Some(fewer[j]));
                        }
                    },
                }
            },
        }
    }
}

/// Conditions that are joined by `AND` are each in the conjunction, but for those
/// that have no item, and nothing else is; and a condition that is added to a
/// statement joins its `WHERE` clause, unless it has no item.
pub proof fn law_conditions_are_joined(parts: Seq<ConditionTree>, t: SelectTree, c: ConditionTree)
    ensures
        !conjunction(parts).any,
        !conjunction(parts).negate,
        forall|i: int|
            0 <= i < parts.len() && (#[trigger] parts[i]).items.len() > 0 ==> conjunction(
                parts,
            ).items.contains(ConditionItem::Nested(parts[i])),
        forall|j: int|
            0 <= j < conjunction(parts).items.len() ==> exists|i: int|
                0 <= i < parts.len() && (#[trigger] parts[i]).items.len() > 0
                    && #[trigger] conjunction(parts).items[j] == ConditionItem::Nested(parts[i]),
        c.items.len() == 0 ==> conditioned(t, c) == t,
        c.items.len() > 0 ==> conditioned(t, c) == filtered(t, c),
    decreases parts.len(),
{
    if parts.len() > 0 {
        let front = parts.drop_last();
        law_conditions_are_joined(front, t, c);
        let all = conjunction(parts).items;
        let some = conjunction(front).items;
        assert forall|i: int| 0 <= i < parts.len() && (#[trigger] parts[i]).items.len()
            > 0 implies all.contains(ConditionItem::Nested(parts[i])) by {
            if i < front.len() {
                assert(front[i] == parts[i]);
                assert(some.contains(ConditionItem::Nested(front[i])));
                let j = choose|j: int|
                    0 <= j < some.len() && some[j] == ConditionItem::Nested(front[i]);
                assert(all[j] == some[j]);
            } else {
                assert(all[all.len() - 1] == ConditionItem::Nested(parts[i]));
            }
        }
        assert forall|j: int| 0 <= j < all.len() implies exists|i: int|
            0 <= i < parts.len() && (#[trigger] parts[i]).items.len() > 0 && #[trigger] all[j]
                == ConditionItem::Nested(parts[i]) by {
            if j < some.len() {
                assert(all[j] == some[j]);
                let i = choose|i: int|
                    0 <= i < front.len() && (#[trigger] front[i]).items.len() > 0 && some[j]
                        == ConditionItem::Nested(front[i]);
                assert(parts[i] == front[i]);
            } else {
                assert(parts[parts.len() - 1].items.len() > 0);
            }
        }
    }
}

/// A clause that follows the tables of a statement starts at the position: a join,
/// a condition, a grouping, an order, a limit or a union.
pub open spec fn starts_clause(text: Seq<char>, at: int) -> bool {
    ||| keyword_at(text, " LEFT JOIN "@, at)
    ||| keyword_at(text, " RIGHT JOIN "@, at)
    ||| keyword_at(text, " INNER JOIN "@, at)
    ||| keyword_at(text, " CROSS JOIN "@, at)
    ||| keyword_at(text, " FULL JOIN "@, at)
    ||| keyword_at(text, " JOIN "@, at)
    ||| keyword_at(text, " PREWHERE "@, at)
    ||| keyword_at(text, " WHERE "@, at)
    ||| keyword_at(text, " GROUP BY "@, at)
    ||| keyword_at(text, " HAVING "@, at)
    ||| keyword_at(text, " ORDER BY "@, at)
    ||| keyword_at(text, " LIMIT "@, at)
    ||| keyword_at(text, " UNION "@, at)
}

proof fn lemma_clause_keywords(text: Seq<char>, at: int)
    ensures
        some_keyword_at(text, clause_keywords(), at) == starts_clause(text, at),
{
    let kws = clause_keywords();
    if starts_clause(text, at) {
        assert(keyword_at(text, kws[0], at) || keyword_at(text, kws[1], at) || keyword_at(
            text,
            kws[2],
            at,
        ) || keyword_at(text, kws[3], at) || keyword_at(text, kws[4], at) || keyword_at(
            text,
            kws[5],
            at,
        ) || keyword_at(text, kws[6], at) || keyword_at(text, kws[7], at) || keyword_at(
            text,
            kws[8],
            at,
        ) || keyword_at(text, kws[9], at) || keyword_at(text, kws[10], at) || keyword_at(
            text,
            kws[11],
            at,
        ) || keyword_at(text, kws[12], at));
    }
}

/// `FINAL` stands right before the first clause behind the first `FROM`; without a
/// `FROM`, or without a clause behind it, it stands at the end.
pub proof fn law_final_stands_before_the_first_clause(sql: Seq<char>, from: int, at: int)
    requires
        0 <= from,
        0 <= at,
        forall|i: int| 0 <= i < from && i < sql.len() ==> !#[trigger] keyword_at(sql, " FROM "@, i),
        forall|i: int|
            0 <= i < at && i < sql.len() ==> !#[trigger] starts_clause(sql.skip(from + 6), i),
        from >= sql.len() || keyword_at(sql, " FROM "@, from) && (from + 6 + at >= sql.len()
            || starts_clause(sql.skip(from + 6), at)),
    ensures
        from >= sql.len() || from + 6 + at >= sql.len() ==> with_final(sql) == sql + " FINAL"@,
        from < sql.len() && from + 6 + at < sql.len() ==> with_final(sql) == sql.take(from + 6 + at)
            + " FINAL"@ + sql.skip(from + 6 + at),
{
    reveal_strlit(" FROM ");
    let kws = seq![" FROM "@];
    assert forall|i: int| some_keyword_at(sql, kws, i) == #[trigger] keyword_at(
        sql,
        " FROM "@,
        i,
    ) by {
        if keyword_at(sql, " FROM "@, i) {
            assert(keyword_at(sql, kws[0], i));
        }
    }
    let found = first_keyword(sql, kws, 0);
    lemma_first_keyword_is_first(sql, kws, 0);
    if found < sql.len() {
        lemma_first_keyword_stands(sql, kws, 0);
        assert(keyword_at(sql, " FROM "@, found));
    }
    if from < found && from < sql.len() {
        assert(!some_keyword_at(sql, kws, from));
    }
    if from < sql.len() {
        assert(found == from);
        let rest = sql.skip(from + 6);
        let end = first_keyword(rest, clause_keywords(), 0);
        lemma_first_keyword_is_first(rest, clause_keywords(), 0);
        if end < rest.len() {
            lemma_first_keyword_stands(rest, clause_keywords(), 0);
            lemma_clause_keywords(rest, end);
            assert(starts_clause(rest, end));
        }
        if from + 6 + at < sql.len() {
            lemma_clause_keywords(rest, at);
            assert(end == at);
        } else {
            assert(end == rest.len());
        }
    }
    assert(sql.take(sql.len() as int) + " FINAL"@ + sql.skip(sql.len() as int) =~= sql
        + " FINAL"@);
}

/// A keyword stands where its letters do, unless a quote is open there: a quote
/// opens and the next one closes, and one behind a backslash does neither.
pub proof fn law_quotes_hide_keywords(text: Seq<char>, keyword: Seq<char>, at: int)
    requires
        0 <= at < text.len(),
    ensures
        keyword_at(text, keyword, at) <==> at + keyword.len() <= text.len() && text.subrange(
            at,
            at + keyword.len(),
        ) == keyword && !literal_state(text, at).quoted,
        !literal_state(text, 0).quoted && !literal_state(text, 0).escaped,
        literal_state(text, at + 1).quoted == (if text[at] == '\'' && !literal_state(
            text,
            at,
        ).escaped {
            !literal_state(text, at).quoted
        } else {
            literal_state(text, at).quoted
        }),
        literal_state(text, at + 1).escaped == (text[at] == '\\' && !literal_state(
            text,
            at,
        ).escaped),
{
}

/// What is built of a statement is its text, qualified with `FINAL`, and its
/// values; and a query that is prepared has that text and an argument for each of
/// the values, in their order.
pub proof fn law_query_is_what_was_built(
    built: (String, Vec<sea_query::Value>),
    t: SelectTree,
    r: Result<clickhouse::query::Query, String>,
    values: Seq<SqlValueView>,
)
    requires
        is_built(built, t),
        is_prepared(r, built.0@, values),
    ensures
        built.0@ == with_final(rendered_select(select_shape(t)).0),
        built.1@.len() == statement_data(t).len(),
        forall|i: int|
            0 <= i < built.1@.len() ==> value_datum(#[trigger] built.1@[i]) == statement_data(t)[i],
        r matches Ok(q) ==> query_text(q) == built.0@ && query_args(q).len() == values.len() && (
        forall|i: int|
            0 <= i < values.len() ==> datum_arg(values[i].datum) == Some(
                #[trigger] query_args(q)[i],
            )),
        r matches Err(why) ==> exists|i: int|
            0 <= i < values.len() && datum_arg((#[trigger] values[i]).datum) is None && why@
                == "unsupported sea_query::Value for ClickHouse bind: "@ + values[i].shown,
{
    law_values_are_given_in_order(values);
    let data = data_of(sea_values(built.1@));
    assert(data == statement_data(t));
    assert forall|i: int| 0 <= i < built.1@.len() implies value_datum(#[trigger] built.1@[i])
        == statement_data(t)[i] by {
        assert(data[i] == value_datum(built.1@[i]));
    }
}

} // verus!
