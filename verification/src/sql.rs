//! SQL statements as the crate `sea_query` builds them.
//!
//! Expressions, conditions and statements are values of `sea_query`. What such
//! a value holds is described by a tree; the trusted functions at the end of
//! this file say what each call of `sea_query` makes of the trees of its
//! arguments. The text that a statement is rendered to is named, not described.
use crate::values::{decimal_datum, decimal_view, Decimal, DecimalView, Uuid};
use vstd::prelude::*;
use vstd::string::*;

verus! {

/// What a value of a statement or of a result row holds. Floating-point numbers
/// are held as their shortest decimal texts, timestamps as counts since the
/// epoch in UTC.
#[derive(Debug)]
pub enum Datum {
    Bool(Option<bool>),
    TinyInt(Option<i8>),
    SmallInt(Option<i16>),
    Int(Option<i32>),
    BigInt(Option<i64>),
    TinyUnsigned(Option<u8>),
    SmallUnsigned(Option<u16>),
    Unsigned(Option<u32>),
    BigUnsigned(Option<u64>),
    Float(Option<String>),
    Double(Option<String>),
    Text(Option<String>),
    Char(Option<char>),
    Bytes(Option<Vec<u8>>),
    ChronoDateTimeMicros(Option<i64>),
    ChronoDateTimeUtcMicros(Option<i64>),
    TimeDateTimeNanos(Option<i128>),
    TimeDateTimeWithTimeZoneNanos(Option<i128>),
    Uuid(Option<Uuid>),
    Decimal(Option<Decimal>),
    Other,
}

/// The view of a [`Datum`].
pub enum DatumView {
    Bool(Option<bool>),
    TinyInt(Option<i8>),
    SmallInt(Option<i16>),
    Int(Option<i32>),
    BigInt(Option<i64>),
    TinyUnsigned(Option<u8>),
    SmallUnsigned(Option<u16>),
    Unsigned(Option<u32>),
    BigUnsigned(Option<u64>),
    Float(Option<Seq<char>>),
    Double(Option<Seq<char>>),
    Text(Option<Seq<char>>),
    Char(Option<char>),
    Bytes(Option<Seq<u8>>),
    ChronoDateTimeMicros(Option<i64>),
    ChronoDateTimeUtcMicros(Option<i64>),
    TimeDateTimeNanos(Option<i128>),
    TimeDateTimeWithTimeZoneNanos(Option<i128>),
    Uuid(Option<Uuid>),
    Decimal(Option<DecimalView>),
    Other,
}

impl View for Datum {
    type V = DatumView;

    open spec fn view(&self) -> DatumView {
        match *self {
            Datum::Bool(x) => DatumView::Bool(x),
            Datum::TinyInt(x) => DatumView::TinyInt(x),
            Datum::SmallInt(x) => DatumView::SmallInt(x),
            Datum::Int(x) => DatumView::Int(x),
            Datum::BigInt(x) => DatumView::BigInt(x),
            Datum::TinyUnsigned(x) => DatumView::TinyUnsigned(x),
            Datum::SmallUnsigned(x) => DatumView::SmallUnsigned(x),
            Datum::Unsigned(x) => DatumView::Unsigned(x),
            Datum::BigUnsigned(x) => DatumView::BigUnsigned(x),
            Datum::Float(x) => DatumView::Float(crate::text::optional_text(x)),
            Datum::Double(x) => DatumView::Double(crate::text::optional_text(x)),
            Datum::Text(x) => DatumView::Text(crate::text::optional_text(x)),
            Datum::Char(x) => DatumView::Char(x),
            Datum::Bytes(x) => DatumView::Bytes(
                match x {
                    Some(b) => Some(b@),
                    None => None,
                },
            ),
            Datum::ChronoDateTimeMicros(x) => DatumView::ChronoDateTimeMicros(x),
            Datum::ChronoDateTimeUtcMicros(x) => DatumView::ChronoDateTimeUtcMicros(x),
            Datum::TimeDateTimeNanos(x) => DatumView::TimeDateTimeNanos(x),
            Datum::TimeDateTimeWithTimeZoneNanos(x) => DatumView::TimeDateTimeWithTimeZoneNanos(x),
            Datum::Uuid(x) => DatumView::Uuid(x),
            Datum::Decimal(x) => DatumView::Decimal(decimal_view(x)),
            Datum::Other => DatumView::Other,
        }
    }
}

/// A value of a statement or of a result row, and its debug text.
#[derive(Debug)]
pub struct SqlValue {
    pub datum: Datum,
    pub shown: String,
}

/// The view of a [`SqlValue`].
pub struct SqlValueView {
    pub datum: DatumView,
    pub shown: Seq<char>,
}

impl View for SqlValue {
    type V = SqlValueView;

    open spec fn view(&self) -> SqlValueView {
        SqlValueView { datum: self.datum@, shown: self.shown@ }
    }
}

/// What a `sea_query` value holds, with its debug text.
pub open spec fn sea_value(v: sea_query::Value) -> SqlValueView {
    SqlValueView { datum: value_datum(v), shown: value_shown(v) }
}

/// What each of a sequence of `sea_query` values holds.
pub open spec fn sea_values(values: Seq<sea_query::Value>) -> Seq<SqlValueView> {
    values.map_values(|v: sea_query::Value| sea_value(v))
}

/// What each of a sequence of values holds, without its debug text.
pub open spec fn data_of(values: Seq<SqlValueView>) -> Seq<DatumView> {
    values.map_values(|v: SqlValueView| v.datum)
}

/// Whether it is an integer.
pub open spec fn is_integer_datum(d: DatumView) -> bool {
    ||| d is TinyInt
    ||| d is SmallInt
    ||| d is Int
    ||| d is BigInt
    ||| d is TinyUnsigned
    ||| d is SmallUnsigned
    ||| d is Unsigned
    ||| d is BigUnsigned
}

/// Whether it is a truth value, a floating-point number, a text or bytes.
pub open spec fn is_text_datum(d: DatumView) -> bool {
    ||| d is Bool
    ||| d is Float
    ||| d is Double
    ||| d is Text
    ||| d is Char
    ||| d is Bytes
}

/// Whether it is a timestamp.
pub open spec fn is_instant_datum(d: DatumView) -> bool {
    ||| d is ChronoDateTimeMicros
    ||| d is ChronoDateTimeUtcMicros
    ||| d is TimeDateTimeNanos
    ||| d is TimeDateTimeWithTimeZoneNanos
}

/// Takes a `sea_query` value apart.
pub fn sql_value(v: &sea_query::Value) -> (r: SqlValue)
    ensures
        r@ == sea_value(*v),
{
    let shown = value_debug(v);
    let datum = match integer_datum(v) {
        Some(d) => d,
        None => match text_datum(v) {
            Some(d) => d,
            None => match instant_datum(v) {
                Some(d) => d,
                None => match uuid_datum(v) {
                    Some(d) => d,
                    None => match decimal_datum(v) {
                        Some(d) => Datum::Decimal(d),
                        None => Datum::Other,
                    },
                },
            },
        },
    };
    SqlValue { datum, shown }
}

/// A comparison operator.
pub enum Comparison {
    Equal,
    NotEqual,
    GreaterThan,
    GreaterThanOrEqual,
    SmallerThan,
    SmallerThanOrEqual,
}

/// What an expression holds. `Other` stands for every form that this crate does
/// not build.
pub enum ExprTree {
    Column(Seq<char>),
    Value(DatumView),
    Custom(Seq<char>),
    CustomWithExpr(Seq<char>, Seq<ExprTree>),
    Binary(Box<ExprTree>, Comparison, Box<ExprTree>),
    Other,
}

/// What a condition holds: its items, joined by `OR` where `any` and by `AND`
/// where not, and negated where `negate`.
pub struct ConditionTree {
    pub negate: bool,
    pub any: bool,
    pub items: Seq<ConditionItem>,
}

/// An item of a condition.
pub enum ConditionItem {
    Nested(ConditionTree),
    Leaf(ExprTree),
}

/// Items that `AND` joins.
pub open spec fn all_of(items: Seq<ConditionItem>) -> ConditionTree {
    ConditionTree { negate: false, any: false, items }
}

/// Items that `OR` joins.
pub open spec fn any_of(items: Seq<ConditionItem>) -> ConditionTree {
    ConditionTree { negate: false, any: true, items }
}

/// The condition that a bare expression stands for.
pub open spec fn just(e: ExprTree) -> ConditionTree {
    all_of(seq![ConditionItem::Leaf(e)])
}

/// A condition with one item more.
pub open spec fn with_item(c: ConditionTree, item: ConditionTree) -> ConditionTree {
    ConditionTree { items: c.items.push(ConditionItem::Nested(item)), ..c }
}

/// The negation of a condition.
pub open spec fn negated(c: ConditionTree) -> ConditionTree {
    ConditionTree { negate: !c.negate, ..c }
}

/// The trees of a sequence of expressions.
pub open spec fn expr_trees(es: Seq<sea_query::Expr>) -> Seq<ExprTree> {
    es.map_values(|e: sea_query::Expr| expr_tree(e))
}

/// The direction of an order.
#[derive(Debug, Clone, Copy, PartialEq, Eq, Structural)]
pub enum SortDir {
    Asc,
    Desc,
}

/// What a select statement holds. `other` says that it holds a clause that this
/// crate does not build.
#[verifier::ext_equal]
pub struct SelectTree {
    /// Selected expressions with their aliases.
    pub selects: Seq<(ExprTree, Option<Seq<char>>)>,
    /// Tables.
    pub from: Seq<Seq<char>>,
    /// The `WHERE` condition.
    pub filter: Option<ConditionTree>,
    /// `GROUP BY` expressions.
    pub groups: Seq<ExprTree>,
    /// `ORDER BY` expressions.
    pub orders: Seq<(ExprTree, SortDir)>,
    /// The `LIMIT`.
    pub limit: Option<u64>,
    pub other: bool,
}

/// The statement without any clause.
pub open spec fn empty_select() -> SelectTree {
    SelectTree {
        selects: Seq::empty(),
        from: Seq::empty(),
        filter: None,
        groups: Seq::empty(),
        orders: Seq::empty(),
        limit: None,
        other: false,
    }
}

/// The `WHERE` condition after adding one: both must hold. Conjunctions are
/// merged into one list.
pub open spec fn and_filter(
    current: Option<ConditionTree>,
    addition: ConditionTree,
) -> ConditionTree {
    match current {
        None => addition,
        Some(c) => if !c.any && !c.negate {
            if !addition.any && !addition.negate {
                ConditionTree { items: c.items + addition.items, ..c }
            } else {
                with_item(c, addition)
            }
        } else {
            with_item(with_item(all_of(Seq::empty()), c), addition)
        },
    }
}

/// A statement with one condition more.
pub open spec fn filtered(t: SelectTree, addition: ConditionTree) -> SelectTree {
    SelectTree { filter: Some(and_filter(t.filter, addition)), ..t }
}

/// A statement that selects the columns too.
pub open spec fn selecting(t: SelectTree, columns: Seq<Seq<char>>) -> SelectTree {
    SelectTree {
        selects: t.selects + columns.map_values(
            |c: Seq<char>| (ExprTree::Column(c), None::<Seq<char>>),
        ),
        ..t
    }
}

/// An expression with its values blanked.
pub open spec fn expr_shape(e: ExprTree) -> ExprTree
    decreases e,
{
    match e {
        ExprTree::Value(_) => ExprTree::Value(DatumView::Other),
        ExprTree::CustomWithExpr(template, parts) => ExprTree::CustomWithExpr(
            template,
            expr_shapes(parts),
        ),
        ExprTree::Binary(left, by, right) => ExprTree::Binary(
            Box::new(expr_shape(*left)),
            by,
            Box::new(expr_shape(*right)),
        ),
        other => other,
    }
}

/// Expressions with their values blanked.
pub open spec fn expr_shapes(es: Seq<ExprTree>) -> Seq<ExprTree>
    decreases es,
{
    if es.len() == 0 {
        Seq::empty()
    } else {
        expr_shapes(es.drop_last()).push(expr_shape(es.last()))
    }
}

/// A condition with its values blanked.
pub open spec fn condition_shape(c: ConditionTree) -> ConditionTree
    decreases c,
{
    ConditionTree { negate: c.negate, any: c.any, items: item_shapes(c.items) }
}

/// Items of a condition with their values blanked.
pub open spec fn item_shapes(items: Seq<ConditionItem>) -> Seq<ConditionItem>
    decreases items,
{
    if items.len() == 0 {
        Seq::empty()
    } else {
        item_shapes(items.drop_last()).push(
            match items.last() {
                ConditionItem::Nested(inner) => ConditionItem::Nested(condition_shape(inner)),
                ConditionItem::Leaf(e) => ConditionItem::Leaf(expr_shape(e)),
            },
        )
    }
}

/// A statement with its values blanked. Its limit stays.
pub open spec fn select_shape(t: SelectTree) -> SelectTree {
    SelectTree {
        selects: t.selects.map_values(
            |s: (ExprTree, Option<Seq<char>>)| (expr_shape(s.0), s.1),
        ),
        filter: match t.filter {
            Some(c) => Some(condition_shape(c)),
            None => None,
        },
        groups: expr_shapes(t.groups),
        orders: t.orders.map_values(|o: (ExprTree, SortDir)| (expr_shape(o.0), o.1)),
        ..t
    }
}

/// How many of the first `n` characters are placeholders.
pub open spec fn placeholders_below(template: Seq<char>, n: nat) -> nat
    decreases n,
{
    if n == 0 {
        0
    } else {
        placeholders_below(template, (n - 1) as nat) + (if template[n - 1] == '?' {
            1nat
        } else {
            0nat
        })
    }
}

/// How many placeholders a template has.
pub open spec fn placeholders(template: Seq<char>) -> nat {
    placeholders_below(template, template.len())
}

proof fn lemma_placeholders_of_prefix(a: Seq<char>, b: Seq<char>, n: nat)
    requires
        n <= a.len(),
        n <= b.len(),
        forall|i: int| 0 <= i < n ==> a[i] == b[i],
    ensures
        placeholders_below(a, n) == placeholders_below(b, n),
    decreases n,
{
    if n > 0 {
        lemma_placeholders_of_prefix(a, b, (n - 1) as nat);
    }
}

/// The placeholders of a text are those of its parts.
pub proof fn lemma_placeholders_of_sum(a: Seq<char>, b: Seq<char>)
    ensures
        placeholders(a + b) == placeholders(a) + placeholders(b),
    decreases b.len(),
{
    if b.len() == 0 {
        assert(a + b =~= a);
    } else {
        let front = b.drop_last();
        lemma_placeholders_of_sum(a, front);
        lemma_placeholders_of_prefix(a + b, a + front, (a + front).len());
        lemma_placeholders_of_prefix(b, front, front.len());
        assert((a + b).last() == b.last());
    }
}

/// Every template of the expression has as many placeholders as expressions to
/// fill them, and no part is of a form that this crate does not build.
pub open spec fn expr_balanced(e: ExprTree) -> bool
    decreases e,
{
    match e {
        ExprTree::CustomWithExpr(template, parts) => {
            &&& placeholders(template) == parts.len()
            &&& forall|i: int| 0 <= i < parts.len() ==> expr_balanced(#[trigger] parts[i])
        },
        ExprTree::Binary(left, _, right) => expr_balanced(*left) && expr_balanced(*right),
        ExprTree::Other => false,
        _ => true,
    }
}

/// Whether the character at a place of a template is read by itself: it opens no
/// quotation and no comment, and no two placeholders are side by side.
pub open spec fn plain_at(template: Seq<char>, i: int) -> bool {
    let c = template[i];
    &&& c != '`' && c != '[' && c != '\'' && c != '"' && c != '-' && c != '/'
    &&& !(c == '?' && i > 0 && template[i - 1] == '?')
}

/// The first `n` characters of a template are read one by one.
pub open spec fn plain_below(template: Seq<char>, n: nat) -> bool
    decreases n,
{
    n == 0 || plain_below(template, (n - 1) as nat) && plain_at(template, n - 1)
}

/// Every placeholder of a template stands for an expression.
pub open spec fn is_plain(template: Seq<char>) -> bool {
    plain_below(template, template.len())
}

/// Every template of the expression is plain.
pub open spec fn expr_is_plain(e: ExprTree) -> bool
    decreases e,
{
    match e {
        ExprTree::CustomWithExpr(template, parts) => {
            &&& is_plain(template)
            &&& forall|i: int| 0 <= i < parts.len() ==> expr_is_plain(#[trigger] parts[i])
        },
        ExprTree::Binary(left, _, right) => expr_is_plain(*left) && expr_is_plain(*right),
        _ => true,
    }
}

/// Every template of the condition is plain.
pub open spec fn condition_is_plain(c: ConditionTree) -> bool
    decreases c,
{
    forall|i: int|
        0 <= i < c.items.len() ==> match #[trigger] c.items[i] {
            ConditionItem::Nested(inner) => condition_is_plain(inner),
            ConditionItem::Leaf(e) => expr_is_plain(e),
        }
}

/// Every template of the statement is plain.
pub open spec fn select_is_plain(t: SelectTree) -> bool {
    &&& forall|i: int| 0 <= i < t.selects.len() ==> expr_is_plain((#[trigger] t.selects[i]).0)
    &&& t.filter matches Some(c) ==> condition_is_plain(c)
    &&& forall|i: int| 0 <= i < t.groups.len() ==> expr_is_plain(#[trigger] t.groups[i])
    &&& forall|i: int| 0 <= i < t.orders.len() ==> expr_is_plain((#[trigger] t.orders[i]).0)
}

/// The values of an expression, from left to right.
pub open spec fn expr_data(e: ExprTree) -> Seq<DatumView>
    decreases e,
{
    match e {
        ExprTree::Value(d) => seq![d],
        ExprTree::CustomWithExpr(_, parts) => exprs_data(parts),
        ExprTree::Binary(left, _, right) => expr_data(*left) + expr_data(*right),
        _ => Seq::empty(),
    }
}

/// The values of expressions, one after the other.
pub open spec fn exprs_data(es: Seq<ExprTree>) -> Seq<DatumView>
    decreases es,
{
    if es.len() == 0 {
        Seq::empty()
    } else {
        exprs_data(es.drop_last()) + expr_data(es.last())
    }
}

/// The values of a condition, item by item.
pub open spec fn condition_data(c: ConditionTree) -> Seq<DatumView>
    decreases c,
{
    items_data(c.items)
}

/// The values of the items of a condition.
pub open spec fn items_data(items: Seq<ConditionItem>) -> Seq<DatumView>
    decreases items,
{
    if items.len() == 0 {
        Seq::empty()
    } else {
        items_data(items.drop_last()) + (match items.last() {
            ConditionItem::Nested(inner) => condition_data(inner),
            ConditionItem::Leaf(e) => expr_data(e),
        })
    }
}

/// The values of the `WHERE` condition of a statement.
pub open spec fn filter_data(t: SelectTree) -> Seq<DatumView> {
    match t.filter {
        Some(c) => condition_data(c),
        None => Seq::empty(),
    }
}

/// The values of a statement, clause by clause: what is selected, the condition,
/// the groups, the order, and the limit.
pub open spec fn select_data(t: SelectTree) -> Seq<DatumView> {
    exprs_data(t.selects.map_values(|s: (ExprTree, Option<Seq<char>>)| s.0)) + filter_data(t)
        + exprs_data(t.groups) + exprs_data(t.orders.map_values(|o: (ExprTree, SortDir)| o.0)) + (
    match t.limit {
        Some(n) => seq![DatumView::BigUnsigned(Some(n))],
        None => Seq::empty(),
    })
}

/// Every expression of the condition is balanced.
pub open spec fn condition_balanced(c: ConditionTree) -> bool
    decreases c,
{
    forall|i: int|
        0 <= i < c.items.len() ==> match #[trigger] c.items[i] {
            ConditionItem::Nested(inner) => condition_balanced(inner),
            ConditionItem::Leaf(e) => expr_balanced(e),
        }
}

/// Every expression of the statement is balanced.
pub open spec fn select_balanced(t: SelectTree) -> bool {
    &&& !t.other
    &&& forall|i: int| 0 <= i < t.selects.len() ==> expr_balanced((#[trigger] t.selects[i]).0)
    &&& t.filter matches Some(c) ==> condition_balanced(c)
    &&& forall|i: int| 0 <= i < t.groups.len() ==> expr_balanced(#[trigger] t.groups[i])
    &&& forall|i: int| 0 <= i < t.orders.len() ==> expr_balanced((#[trigger] t.orders[i]).0)
}

} // verus!

verus! {

// ---- trusted: the crate `sea_query` ----

/// A value of a statement.
#[verifier::external_type_specification]
#[verifier::external_body]
pub struct ExValue(sea_query::Value);

/// An expression.
#[verifier::external_type_specification]
#[verifier::external_body]
pub struct ExExpr(sea_query::Expr);

/// A condition.
#[verifier::external_type_specification]
#[verifier::external_body]
pub struct ExCondition(sea_query::Condition);

/// A select statement.
#[verifier::external_type_specification]
#[verifier::external_body]
pub struct ExSelectStatement(sea_query::SelectStatement);

/// What a `sea_query::Value` holds, its variant included.
pub uninterp spec fn value_datum(v: sea_query::Value) -> DatumView;

/// The debug text of a `sea_query::Value`.
pub uninterp spec fn value_shown(v: sea_query::Value) -> Seq<char>;

/// What a `sea_query::Expr` holds.
pub uninterp spec fn expr_tree(e: sea_query::Expr) -> ExprTree;

/// What a `sea_query::Condition` holds.
pub uninterp spec fn condition_tree(c: sea_query::Condition) -> ConditionTree;

/// What a `sea_query::SelectStatement` holds.
pub uninterp spec fn select_tree(s: sea_query::SelectStatement) -> SelectTree;

/// The SQL text that `sea_query` renders a statement to with
/// `sea_query_clickhouse::ClickhouseQueryBuilder`, and what its values hold, in
/// placeholder order.
pub uninterp spec fn rendered_select(t: SelectTree) -> (Seq<char>, Seq<DatumView>);

/// The integer variants of `sea_query::Value`, as they are.
#[verifier::external_body]
fn integer_datum(v: &sea_query::Value) -> (r: Option<Datum>)
    ensures
        r is Some <==> is_integer_datum(value_datum(*v)),
        r matches Some(d) ==> d@ == value_datum(*v),
{
    match v {
        sea_query::Value::TinyInt(n) => Some(Datum::TinyInt(*n)),
        sea_query::Value::SmallInt(n) => Some(Datum::SmallInt(*n)),
        sea_query::Value::Int(n) => Some(Datum::Int(*n)),
        sea_query::Value::BigInt(n) => Some(Datum::BigInt(*n)),
        sea_query::Value::TinyUnsigned(n) => Some(Datum::TinyUnsigned(*n)),
        sea_query::Value::SmallUnsigned(n) => Some(Datum::SmallUnsigned(*n)),
        sea_query::Value::Unsigned(n) => Some(Datum::Unsigned(*n)),
        sea_query::Value::BigUnsigned(n) => Some(Datum::BigUnsigned(*n)),
        _ => None,
    }
}

/// The variants of `sea_query::Value` for truth values, texts and bytes, as
/// they are, and those for floating-point numbers, as their `Display` texts.
#[verifier::external_body]
fn text_datum(v: &sea_query::Value) -> (r: Option<Datum>)
    ensures
        r is Some <==> is_text_datum(value_datum(*v)),
        r matches Some(d) ==> d@ == value_datum(*v),
{
    match v {
        sea_query::Value::Bool(b) => Some(Datum::Bool(*b)),
        sea_query::Value::Float(n) => Some(Datum::Float(n.map(|x| x.to_string()))),
        sea_query::Value::Double(n) => Some(Datum::Double(n.map(|x| x.to_string()))),
        sea_query::Value::String(s) => Some(Datum::Text(s.clone())),
        sea_query::Value::Char(c) => Some(Datum::Char(*c)),
        sea_query::Value::Bytes(b) => Some(Datum::Bytes(b.clone())),
        _ => None,
    }
}

/// The variants of `sea_query::Value` for timestamps with a date, in UTC: those
/// of `chrono` by `timestamp_micros`, those of `time` by
/// `unix_timestamp_nanos`.
#[verifier::external_body]
fn instant_datum(v: &sea_query::Value) -> (r: Option<Datum>)
    ensures
        r is Some <==> is_instant_datum(value_datum(*v)),
        r matches Some(d) ==> d@ == value_datum(*v),
{
    match v {
        sea_query::Value::ChronoDateTime(t) => Some(Datum::ChronoDateTimeMicros(t.map(|x| x.and_utc().timestamp_micros()))),
        sea_query::Value::ChronoDateTimeUtc(t) => Some(Datum::ChronoDateTimeUtcMicros(t.map(|x| x.timestamp_micros()))),
        sea_query::Value::TimeDateTime(t) => Some(Datum::TimeDateTimeNanos(t.map(|x| x.assume_utc().unix_timestamp_nanos()))),
        sea_query::Value::TimeDateTimeWithTimeZone(t) => Some(Datum::TimeDateTimeWithTimeZoneNanos(t.map(|x| x.unix_timestamp_nanos()))),
        _ => None,
    }
}

/// The identifier variant of `sea_query::Value`, by `uuid::Uuid::as_u128`.
#[verifier::external_body]
fn uuid_datum(v: &sea_query::Value) -> (r: Option<Datum>)
    ensures
        r is Some <==> value_datum(*v) is Uuid,
        r matches Some(d) ==> d@ == value_datum(*v),
{
    match v {
        sea_query::Value::Uuid(u) => Some(Datum::Uuid(u.map(|x| Uuid { bits: x.as_u128() }))),
        _ => None,
    }
}

/// `sea_query::Value`'s `Debug`: its text depends on the value alone.
#[verifier::external_body]
fn value_debug(v: &sea_query::Value) -> (s: String)
    ensures
        s@ == value_shown(*v),
{
    format!("{v:?}")
}

/// `From<String>` of `sea_query::Value`: the text.
#[verifier::external_body]
pub(crate) fn string_value(s: String) -> (v: sea_query::Value)
    ensures
        value_datum(v) == DatumView::Text(Some(s@)),
{
    sea_query::Value::from(s)
}

/// `From<i64>` of `sea_query::Value`: the number.
#[verifier::external_body]
pub(crate) fn big_int_value(n: i64) -> (v: sea_query::Value)
    ensures
        value_datum(v) == DatumView::BigInt(Some(n)),
{
    sea_query::Value::from(n)
}

/// `From<u64>` of `sea_query::Value`: the number.
#[verifier::external_body]
pub(crate) fn big_unsigned_value(n: u64) -> (v: sea_query::Value)
    ensures
        value_datum(v) == DatumView::BigUnsigned(Some(n)),
{
    sea_query::Value::from(n)
}

/// `From<bool>` of `sea_query::Value`: the truth value.
#[verifier::external_body]
pub(crate) fn bool_value(b: bool) -> (v: sea_query::Value)
    ensures
        value_datum(v) == DatumView::Bool(Some(b)),
{
    sea_query::Value::from(b)
}

/// `sea_query::Expr::val`: the value as a bound parameter.
#[verifier::external_body]
pub(crate) fn expr_val(v: sea_query::Value) -> (e: sea_query::Expr)
    ensures
        expr_tree(e) == ExprTree::Value(value_datum(v)),
{
    sea_query::Expr::val(v)
}

/// `sea_query::Expr::col`: the column, without a table before it.
#[verifier::external_body]
pub(crate) fn expr_col(name: &'static str) -> (e: sea_query::Expr)
    ensures
        expr_tree(e) == ExprTree::Column(name@),
{
    sea_query::Expr::col(name)
}

/// `sea_query::Expr::cust`: the text, verbatim.
#[verifier::external_body]
pub(crate) fn expr_cust(text: String) -> (e: sea_query::Expr)
    ensures
        expr_tree(e) == ExprTree::Custom(text@),
{
    sea_query::Expr::cust(text)
}

/// `sea_query::Expr::cust_with_exprs`: the template, with the expressions for
/// its placeholders.
#[verifier::external_body]
pub(crate) fn expr_cust_with_exprs(template: String, parts: Vec<sea_query::Expr>) -> (e:
    sea_query::Expr)
    ensures
        expr_tree(e) == ExprTree::CustomWithExpr(template@, expr_trees(parts@)),
{
    sea_query::Expr::cust_with_exprs(template, parts)
}

/// The values as expressions.
pub open spec fn bound_values(values: Seq<sea_query::Value>) -> Seq<ExprTree> {
    values.map_values(|v: sea_query::Value| ExprTree::Value(value_datum(v)))
}

/// `sea_query::Expr::cust_with_values`: the template, with the values for its
/// placeholders.
#[verifier::external_body]
pub(crate) fn expr_cust_with_values(template: String, values: Vec<sea_query::Value>) -> (e:
    sea_query::Expr)
    ensures
        expr_tree(e) == ExprTree::CustomWithExpr(template@, bound_values(values@)),
{
    sea_query::Expr::cust_with_values(template, values)
}

/// A comparison of two expressions.
pub open spec fn compared(left: ExprTree, by: Comparison, right: ExprTree) -> ExprTree {
    ExprTree::Binary(Box::new(left), by, Box::new(right))
}

/// `sea_query::ExprTrait::eq`: the comparison by `=`.
#[verifier::external_body]
pub(crate) fn expr_eq(left: sea_query::Expr, right: sea_query::Expr) -> (e: sea_query::Expr)
    ensures
        expr_tree(e) == compared(expr_tree(left), Comparison::Equal, expr_tree(right)),
{
    sea_query::ExprTrait::eq(left, right)
}

/// `sea_query::ExprTrait::ne`: the comparison by `<>`.
#[verifier::external_body]
pub(crate) fn expr_ne(left: sea_query::Expr, right: sea_query::Expr) -> (e: sea_query::Expr)
    ensures
        expr_tree(e) == compared(expr_tree(left), Comparison::NotEqual, expr_tree(right)),
{
    sea_query::ExprTrait::ne(left, right)
}

/// `sea_query::ExprTrait::gt`: the comparison by `>`.
#[verifier::external_body]
pub(crate) fn expr_gt(left: sea_query::Expr, right: sea_query::Expr) -> (e: sea_query::Expr)
    ensures
        expr_tree(e) == compared(expr_tree(left), Comparison::GreaterThan, expr_tree(right)),
{
    sea_query::ExprTrait::gt(left, right)
}

/// `sea_query::ExprTrait::gte`: the comparison by `>=`.
#[verifier::external_body]
pub(crate) fn expr_gte(left: sea_query::Expr, right: sea_query::Expr) -> (e: sea_query::Expr)
    ensures
        expr_tree(e) == compared(
            expr_tree(left),
            Comparison::GreaterThanOrEqual,
            expr_tree(right),
        ),
{
    sea_query::ExprTrait::gte(left, right)
}

/// `sea_query::ExprTrait::lt`: the comparison by `<`.
#[verifier::external_body]
pub(crate) fn expr_lt(left: sea_query::Expr, right: sea_query::Expr) -> (e: sea_query::Expr)
    ensures
        expr_tree(e) == compared(expr_tree(left), Comparison::SmallerThan, expr_tree(right)),
{
    sea_query::ExprTrait::lt(left, right)
}

/// `sea_query::ExprTrait::lte`: the comparison by `<=`.
#[verifier::external_body]
pub(crate) fn expr_lte(left: sea_query::Expr, right: sea_query::Expr) -> (e: sea_query::Expr)
    ensures
        expr_tree(e) == compared(
            expr_tree(left),
            Comparison::SmallerThanOrEqual,
            expr_tree(right),
        ),
{
    sea_query::ExprTrait::lte(left, right)
}

/// `sea_query::Condition::all`: no items, joined by `AND`.
#[verifier::external_body]
pub(crate) fn condition_all() -> (c: sea_query::Condition)
    ensures
        condition_tree(c) == all_of(Seq::empty()),
{
    sea_query::Condition::all()
}

/// `sea_query::Condition::any`: no items, joined by `OR`.
#[verifier::external_body]
pub(crate) fn condition_any() -> (c: sea_query::Condition)
    ensures
        condition_tree(c) == any_of(Seq::empty()),
{
    sea_query::Condition::any()
}

/// `sea_query::Condition::add`: one nested condition more at the end.
#[verifier::external_body]
pub(crate) fn condition_add(c: sea_query::Condition, item: sea_query::Condition) -> (r:
    sea_query::Condition)
    ensures
        condition_tree(r) == with_item(condition_tree(c), condition_tree(item)),
{
    c.add(item)
}

/// `From<Expr>` of `sea_query::Condition`: the conjunction of that expression
/// alone.
#[verifier::external_body]
pub(crate) fn condition_from_expr(e: sea_query::Expr) -> (c: sea_query::Condition)
    ensures
        condition_tree(c) == just(expr_tree(e)),
{
    sea_query::Condition::from(e)
}

/// `sea_query::Condition::not`: the negation is turned over.
#[verifier::external_body]
pub(crate) fn condition_not(c: sea_query::Condition) -> (r: sea_query::Condition)
    ensures
        condition_tree(r) == negated(condition_tree(c)),
{
    c.not()
}

/// `sea_query::Condition::is_empty`: whether there is no item.
#[verifier::external_body]
pub(crate) fn condition_is_empty(c: &sea_query::Condition) -> (r: bool)
    ensures
        r == (condition_tree(*c).items.len() == 0),
{
    c.is_empty()
}

/// `sea_query::Query::select`: the statement without any clause.
#[verifier::external_body]
pub(crate) fn select_new() -> (s: sea_query::SelectStatement)
    ensures
        select_tree(s) == empty_select(),
{
    sea_query::Query::select()
}

/// `sea_query::SelectStatement::column`: one selected column more.
#[verifier::external_body]
pub(crate) fn select_column(s: &mut sea_query::SelectStatement, name: &'static str)
    ensures
        select_tree(*final(s)) == (SelectTree {
            selects: select_tree(*old(s)).selects.push((ExprTree::Column(name@), None)),
            ..select_tree(*old(s))
        }),
{
    s.column(name);
}

/// `sea_query::SelectStatement::expr`: one selected expression more, without an
/// alias.
#[verifier::external_body]
pub(crate) fn select_expr(s: &mut sea_query::SelectStatement, e: sea_query::Expr)
    ensures
        select_tree(*final(s)) == (SelectTree {
            selects: select_tree(*old(s)).selects.push((expr_tree(e), None)),
            ..select_tree(*old(s))
        }),
{
    s.expr(e);
}

/// `sea_query::SelectStatement::expr_as`: one selected expression more, under
/// an alias.
#[verifier::external_body]
pub(crate) fn select_expr_as(
    s: &mut sea_query::SelectStatement,
    e: sea_query::Expr,
    alias: String,
)
    ensures
        select_tree(*final(s)) == (SelectTree {
            selects: select_tree(*old(s)).selects.push((expr_tree(e), Some(alias@))),
            ..select_tree(*old(s))
        }),
{
    s.expr_as(e, sea_query::Alias::new(alias));
}

/// `sea_query::SelectStatement::from`: one table more.
#[verifier::external_body]
pub(crate) fn select_from(s: &mut sea_query::SelectStatement, table: &'static str)
    ensures
        select_tree(*final(s)) == (SelectTree {
            from: select_tree(*old(s)).from.push(table@),
            ..select_tree(*old(s))
        }),
{
    s.from(table);
}

/// `sea_query::SelectStatement::cond_where`: the condition must hold too.
#[verifier::external_body]
pub(crate) fn select_cond_where(s: &mut sea_query::SelectStatement, c: sea_query::Condition)
    requires
        !select_tree(*old(s)).other,
    ensures
        select_tree(*final(s)) == filtered(select_tree(*old(s)), condition_tree(c)),
{
    s.cond_where(c);
}

/// `sea_query::SelectStatement::add_group_by`: the grouping expressions at the
/// end.
#[verifier::external_body]
pub(crate) fn select_group_by(s: &mut sea_query::SelectStatement, by: Vec<sea_query::Expr>)
    ensures
        select_tree(*final(s)) == (SelectTree {
            groups: select_tree(*old(s)).groups + expr_trees(by@),
            ..select_tree(*old(s))
        }),
{
    s.add_group_by(by);
}

/// `sea_query::SelectStatement::order_by_expr`: one order more at the end.
#[verifier::external_body]
pub(crate) fn select_order_by(s: &mut sea_query::SelectStatement, e: sea_query::Expr, dir: SortDir)
    ensures
        select_tree(*final(s)) == (SelectTree {
            orders: select_tree(*old(s)).orders.push((expr_tree(e), dir)),
            ..select_tree(*old(s))
        }),
{
    let order = match dir {
        SortDir::Asc => sea_query::Order::Asc,
        SortDir::Desc => sea_query::Order::Desc,
    };
    s.order_by_expr(e, order);
}

/// `sea_query::SelectStatement::limit`: the limit, replacing what was there.
#[verifier::external_body]
pub(crate) fn select_limit(s: &mut sea_query::SelectStatement, limit: u64)
    ensures
        select_tree(*final(s)) == (SelectTree {
            limit: Some(limit),
            ..select_tree(*old(s))
        }),
{
    s.limit(limit);
}

/// `sea_query::QueryStatementWriter::build` with
/// `sea_query_clickhouse::ClickhouseQueryBuilder`: the text, and what the values
/// hold, depend on what the statement holds alone. Each value stands in the text
/// as a placeholder, so the text is that of the statement with its values
/// blanked. Where each placeholder of a template stands for an expression, the
/// values are those of the clauses, from left to right. A template with more
/// placeholders than expressions would panic.
#[verifier::external_body]
pub(crate) fn build_select(s: sea_query::SelectStatement) -> (r: (String, Vec<sea_query::Value>))
    requires
        select_balanced(select_tree(s)),
    ensures
        (r.0@, data_of(sea_values(r.1@))) == rendered_select(select_tree(s)),
        r.0@ == rendered_select(select_shape(select_tree(s))).0,
        select_is_plain(select_tree(s)) ==> data_of(sea_values(r.1@)) == select_data(
            select_tree(s),
        ),
{
    let (sql, values) = s.build(sea_query_clickhouse::ClickhouseQueryBuilder);
    (sql, values.0)
}

} // verus!
