//! Values of filters and cursors as bound values of statements.
use crate::client::{bind_bool, bind_i64, bind_text, bind_u64, bound_with, QueryArg};
use crate::query::expr::{from_unix_timestamp64_micro, micros_expr};
use crate::sql::{
    big_int_value, big_unsigned_value, bool_value, expr_tree, expr_val, string_value, DatumView,
    ExprTree,
};
use crate::values::{
    big_decimal_display, big_decimal_parts, big_decimal_spelling, decimal_parsed, decimal_spelling,
    uuid_text, Decimal, DecimalView, Uuid,
};
use vstd::prelude::*;
use vstd::string::*;

verus! {

/// A literal of a filter. The moments of `Date` and `Time` are not kept, for no
/// filter accepts them.
#[derive(Debug)]
pub enum ODataValue {
    Uuid(Uuid),
    String(String),
    Bool(bool),
    Number(bigdecimal::BigDecimal),
    /// Microseconds since the epoch.
    DateTime(i64),
    Null,
    Date,
    Time,
}

/// A value for a placeholder, by the type of its column.
#[derive(Debug)]
pub enum SqlBind {
    Uuid(Uuid),
    Str(String),
    Decimal(Decimal),
    /// Microseconds since the epoch, for a `DateTime64(6)`.
    DateTime64Micros(i64),
    Bool(bool),
    I64(i64),
    U64(u64),
}

/// The view of a [`SqlBind`].
pub enum SqlBindView {
    Uuid(Uuid),
    Str(Seq<char>),
    Decimal(DecimalView),
    DateTime64Micros(i64),
    Bool(bool),
    I64(i64),
    U64(u64),
}

impl View for SqlBind {
    type V = SqlBindView;

    open spec fn view(&self) -> SqlBindView {
        match *self {
            SqlBind::Uuid(u) => SqlBindView::Uuid(u),
            SqlBind::Str(s) => SqlBindView::Str(s@),
            SqlBind::Decimal(d) => SqlBindView::Decimal(d@),
            SqlBind::DateTime64Micros(n) => SqlBindView::DateTime64Micros(n),
            SqlBind::Bool(b) => SqlBindView::Bool(b),
            SqlBind::I64(n) => SqlBindView::I64(n),
            SqlBind::U64(n) => SqlBindView::U64(n),
        }
    }
}

/// The views of a sequence of binds.
pub open spec fn bind_views(binds: Seq<SqlBind>) -> Seq<SqlBindView> {
    binds.map_values(|b: SqlBind| b@)
}

/// The placeholder text of a value.
pub open spec fn placeholder_text(b: SqlBindView) -> Seq<char> {
    match b {
        SqlBindView::DateTime64Micros(_) => "fromUnixTimestamp64Micro(?)"@,
        _ => "?"@,
    }
}

impl SqlBind {
    /// The text that stands for the value in a statement.
    pub fn placeholder(&self) -> (s: &'static str)
        ensures
            s@ == placeholder_text(self@),
    {
        match self {
            SqlBind::DateTime64Micros(_) => "fromUnixTimestamp64Micro(?)",
            _ => "?",
        }
    }
}

/// The expression of a bound value. Identifiers and decimals are bound as
/// texts.
pub open spec fn bind_expr(b: SqlBindView) -> ExprTree {
    match b {
        SqlBindView::Uuid(u) => ExprTree::Value(DatumView::Text(Some(uuid_text(u.bits)))),
        SqlBindView::Str(s) => ExprTree::Value(DatumView::Text(Some(s))),
        SqlBindView::Decimal(d) => ExprTree::Value(DatumView::Text(Some(decimal_spelling(d)))),
        SqlBindView::DateTime64Micros(n) => micros_expr(n),
        SqlBindView::Bool(x) => ExprTree::Value(DatumView::Bool(Some(x))),
        SqlBindView::I64(n) => ExprTree::Value(DatumView::BigInt(Some(n))),
        SqlBindView::U64(n) => ExprTree::Value(DatumView::BigUnsigned(Some(n))),
    }
}

/// Converts a bound value into an expression.
pub fn sql_bind_to_expr(bind: SqlBind) -> (e: sea_query::Expr)
    ensures
        expr_tree(e) == bind_expr(bind@),
{
    match bind {
        SqlBind::Uuid(u) => expr_val(string_value(u.to_string())),
        SqlBind::Str(s) => expr_val(string_value(s)),
        SqlBind::Decimal(d) => expr_val(string_value(d.to_string())),
        SqlBind::DateTime64Micros(n) => from_unix_timestamp64_micro(n),
        SqlBind::Bool(b) => expr_val(bool_value(b)),
        SqlBind::I64(n) => expr_val(big_int_value(n)),
        SqlBind::U64(n) => expr_val(big_unsigned_value(n)),
    }
}

/// The value that a literal is bound as, or why it cannot be.
pub open spec fn bind_of(v: ODataValue) -> Result<SqlBindView, Seq<char>> {
    match v {
        ODataValue::Uuid(u) => Ok(SqlBindView::Uuid(u)),
        ODataValue::String(s) => Ok(SqlBindView::Str(s@)),
        ODataValue::Bool(b) => Ok(SqlBindView::Bool(b)),
        ODataValue::Number(n) => match decimal_parsed(big_decimal_spelling(big_decimal_parts(n))) {
            Ok(d) => Ok(SqlBindView::Decimal(d)),
            Err(why) => Err("numeric out of range: "@ + why),
        },
        ODataValue::DateTime(micros) => Ok(SqlBindView::DateTime64Micros(micros)),
        ODataValue::Null => Err("null filter value unsupported"@),
        ODataValue::Date | ODataValue::Time => Err("date/time-only filter values unsupported"@),
    }
}

/// The view of an outcome with a bind.
pub open spec fn bind_outcome(r: Result<SqlBind, String>) -> Result<SqlBindView, Seq<char>> {
    match r {
        Ok(b) => Ok(b@),
        Err(e) => Err(e@),
    }
}

/// Converts a parsed decimal, or says why there is none.
pub fn decimal_bind(parsed: Result<Decimal, String>) -> (r: Result<SqlBind, String>)
    ensures
        match parsed {
            Ok(d) => bind_outcome(r) == Ok::<SqlBindView, Seq<char>>(SqlBindView::Decimal(d@)),
            Err(why) => bind_outcome(r) == Err::<SqlBindView, Seq<char>>(
                "numeric out of range: "@ + why@,
            ),
        },
{
    match parsed {
        Ok(d) => Ok(SqlBind::Decimal(d)),
        Err(why) => Err("numeric out of range: ".to_owned().concat(why.as_str())),
    }
}

/// Converts a literal into a bound value.
pub fn odata_value_to_bind(v: &ODataValue) -> (r: Result<SqlBind, String>)
    ensures
        bind_outcome(r) == bind_of(*v),
{
    match v {
        ODataValue::Uuid(u) => Ok(SqlBind::Uuid(*u)),
        ODataValue::String(s) => Ok(SqlBind::Str(s.clone())),
        ODataValue::Bool(b) => Ok(SqlBind::Bool(*b)),
        ODataValue::Number(n) => decimal_bind(Decimal::parse(big_decimal_display(n).as_str())),
        ODataValue::DateTime(micros) => Ok(SqlBind::DateTime64Micros(*micros)),
        ODataValue::Null => Err("null filter value unsupported".to_owned()),
        ODataValue::Date | ODataValue::Time => Err(
            "date/time-only filter values unsupported".to_owned(),
        ),
    }
}

/// What a query is given for a bound value.
pub open spec fn arg_of(b: SqlBindView) -> QueryArg {
    match b {
        SqlBindView::Uuid(u) => QueryArg::Text(uuid_text(u.bits)),
        SqlBindView::Str(s) => QueryArg::Text(s),
        SqlBindView::Decimal(d) => QueryArg::Text(decimal_spelling(d)),
        SqlBindView::DateTime64Micros(n) => QueryArg::I64(n),
        SqlBindView::Bool(x) => QueryArg::Bool(x),
        SqlBindView::I64(n) => QueryArg::I64(n),
        SqlBindView::U64(n) => QueryArg::U64(n),
    }
}

/// Binds a value to a query.
pub fn bind_one(q: clickhouse::query::Query, v: &SqlBind) -> (r: clickhouse::query::Query)
    ensures
        bound_with(r, q, arg_of(v@)),
{
    match v {
        SqlBind::Uuid(u) => bind_text(q, u.to_string().as_str()),
        SqlBind::Str(s) => bind_text(q, s.as_str()),
        SqlBind::Decimal(d) => bind_text(q, d.to_string().as_str()),
        SqlBind::DateTime64Micros(n) => bind_i64(q, *n),
        SqlBind::I64(n) => bind_i64(q, *n),
        SqlBind::Bool(b) => bind_bool(q, *b),
        SqlBind::U64(n) => bind_u64(q, *n),
    }
}

/// A literal is bound by its own type and value: an identifier and a text as
/// texts, a truth value as such, a moment as microseconds that the server turns
/// into a timestamp, a number as the text of the decimal it is read as. `null`
/// and the moments without a date or a time are refused.
pub proof fn law_literal_is_bound_as_what_it_is(v: ODataValue)
    ensures
        match v {
            ODataValue::Uuid(u) => bind_of(v) matches Ok(b) && bind_expr(b) == ExprTree::Value(
                DatumView::Text(Some(uuid_text(u.bits))),
            ),
            ODataValue::String(s) => bind_of(v) matches Ok(b) && bind_expr(b) == ExprTree::Value(
                DatumView::Text(Some(s@)),
            ),
            ODataValue::Bool(x) => bind_of(v) matches Ok(b) && bind_expr(b) == ExprTree::Value(
                DatumView::Bool(Some(x)),
            ),
            ODataValue::DateTime(n) => bind_of(v) matches Ok(b) && bind_expr(b)
                == ExprTree::CustomWithExpr(
                "fromUnixTimestamp64Micro(?)"@,
                seq![ExprTree::Value(DatumView::BigInt(Some(n)))],
            ),
            ODataValue::Number(n) => match decimal_parsed(
                big_decimal_spelling(big_decimal_parts(n)),
            ) {
                Ok(d) => bind_of(v) matches Ok(b) && bind_expr(b) == ExprTree::Value(
                    DatumView::Text(Some(decimal_spelling(d))),
                ),
                Err(why) => bind_of(v) == Err::<SqlBindView, Seq<char>>(
                    "numeric out of range: "@ + why,
                ),
            },
            ODataValue::Null => bind_of(v) == Err::<SqlBindView, Seq<char>>(
                "null filter value unsupported"@,
            ),
            ODataValue::Date | ODataValue::Time => bind_of(v) == Err::<SqlBindView, Seq<char>>(
                "date/time-only filter values unsupported"@,
            ),
        },
{
}

/// What stands for a bound value in a statement, and what the query is given for
/// it, are those of its type: identifiers and decimals are given as texts, and a
/// timestamp is given as microseconds that the server turns into one.
pub proof fn law_bound_value_is_given_by_its_type(b: SqlBindView)
    ensures
        match b {
            SqlBindView::Uuid(u) => arg_of(b) == QueryArg::Text(uuid_text(u.bits)) && bind_expr(b)
                == ExprTree::Value(DatumView::Text(Some(uuid_text(u.bits)))),
            SqlBindView::Str(s) => arg_of(b) == QueryArg::Text(s) && bind_expr(b)
                == ExprTree::Value(DatumView::Text(Some(s))),
            SqlBindView::Decimal(d) => arg_of(b) == QueryArg::Text(decimal_spelling(d))
                && bind_expr(b) == ExprTree::Value(DatumView::Text(Some(decimal_spelling(d)))),
            SqlBindView::DateTime64Micros(n) => arg_of(b) == QueryArg::I64(n) && bind_expr(b)
                == ExprTree::CustomWithExpr(
                "fromUnixTimestamp64Micro(?)"@,
                seq![ExprTree::Value(DatumView::BigInt(Some(n)))],
            ),
            SqlBindView::Bool(x) => arg_of(b) == QueryArg::Bool(x) && bind_expr(b)
                == ExprTree::Value(DatumView::Bool(Some(x))),
            SqlBindView::I64(n) => arg_of(b) == QueryArg::I64(n) && bind_expr(b)
                == ExprTree::Value(DatumView::BigInt(Some(n))),
            SqlBindView::U64(n) => arg_of(b) == QueryArg::U64(n) && bind_expr(b)
                == ExprTree::Value(DatumView::BigUnsigned(Some(n))),
        },
        b is DateTime64Micros ==> placeholder_text(b) == "fromUnixTimestamp64Micro(?)"@,
        !(b is DateTime64Micros) ==> placeholder_text(b) == "?"@,
{
}

} // verus!
