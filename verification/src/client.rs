//! Queries of the database client: a text, and the values bound to its
//! placeholders.
use crate::sql::value_datum;
use vstd::prelude::*;

verus! {

/// A value that is bound to a query. A floating-point number is held as its
/// shortest decimal text; one of 32 bits is bound as one of 64.
pub enum QueryArg {
    Bool(bool),
    I64(i64),
    U64(u64),
    Float(Seq<char>),
    Double(Seq<char>),
    Text(Seq<char>),
    Bytes(Seq<u8>),
}

/// A query has one bound value more.
pub open spec fn bound_with(
    r: clickhouse::query::Query,
    q: clickhouse::query::Query,
    arg: QueryArg,
) -> bool {
    &&& query_text(r) == query_text(q)
    &&& query_args(r) == query_args(q).push(arg)
}

// ---- trusted: the crate `clickhouse` ----

/// A database client.
#[verifier::external_type_specification]
#[verifier::external_body]
pub struct ExClient(clickhouse::Client);

/// A query.
#[verifier::external_type_specification]
#[verifier::external_body]
pub struct ExQuery(clickhouse::query::Query);

/// The text that a query was made of.
pub uninterp spec fn query_text(q: clickhouse::query::Query) -> Seq<char>;

/// The values that were bound to a query, in order.
pub uninterp spec fn query_args(q: clickhouse::query::Query) -> Seq<QueryArg>;

/// `clickhouse::Client::query`: a query of the text, with nothing bound to it.
#[verifier::external_body]
pub(crate) fn client_query(client: &clickhouse::Client, sql: &str) -> (q: clickhouse::query::Query)
    ensures
        query_text(q) == sql@,
        query_args(q) == Seq::<QueryArg>::empty(),
{
    client.query(sql)
}

/// `clickhouse::query::Query::bind` of a truth value.
#[verifier::external_body]
pub(crate) fn bind_bool(q: clickhouse::query::Query, b: bool) -> (r: clickhouse::query::Query)
    ensures
        bound_with(r, q, QueryArg::Bool(b)),
{
    q.bind(b)
}

/// `clickhouse::query::Query::bind` of a signed number.
#[verifier::external_body]
pub(crate) fn bind_i64(q: clickhouse::query::Query, n: i64) -> (r: clickhouse::query::Query)
    ensures
        bound_with(r, q, QueryArg::I64(n)),
{
    q.bind(n)
}

/// `clickhouse::query::Query::bind` of an unsigned number.
#[verifier::external_body]
pub(crate) fn bind_u64(q: clickhouse::query::Query, n: u64) -> (r: clickhouse::query::Query)
    ensures
        bound_with(r, q, QueryArg::U64(n)),
{
    q.bind(n)
}

/// `clickhouse::query::Query::bind` of a text.
#[verifier::external_body]
pub(crate) fn bind_text(q: clickhouse::query::Query, text: &str) -> (r: clickhouse::query::Query)
    ensures
        bound_with(r, q, QueryArg::Text(text@)),
{
    q.bind(text)
}

/// `clickhouse::query::Query::bind` of bytes.
#[verifier::external_body]
pub(crate) fn bind_bytes(q: clickhouse::query::Query, bytes: &[u8]) -> (r:
    clickhouse::query::Query)
    ensures
        bound_with(r, q, QueryArg::Bytes(bytes@)),
{
    q.bind(bytes)
}

/// `clickhouse::query::Query::bind` of the floating-point number of 64 bits that
/// a `sea_query` value holds.
#[verifier::external_body]
pub(crate) fn bind_double(q: clickhouse::query::Query, v: &sea_query::Value) -> (r:
    clickhouse::query::Query)
    requires
        value_datum(*v) is Double,
        value_datum(*v)->Double_0 is Some,
    ensures
        bound_with(r, q, QueryArg::Double(value_datum(*v)->Double_0->0)),
{
    match v {
        sea_query::Value::Double(Some(n)) => q.bind(*n),
        _ => q,
    }
}

/// `clickhouse::query::Query::bind` of the floating-point number of 32 bits that
/// a `sea_query` value holds, as one of 64 bits.
#[verifier::external_body]
pub(crate) fn bind_float(q: clickhouse::query::Query, v: &sea_query::Value) -> (r:
    clickhouse::query::Query)
    requires
        value_datum(*v) is Float,
        value_datum(*v)->Float_0 is Some,
    ensures
        bound_with(r, q, QueryArg::Float(value_datum(*v)->Float_0->0)),
{
    let wide = match v {
        sea_query::Value::Float(Some(n)) => sea_query::Value::Double(Some((*n).into())),
        _ => sea_query::Value::Double(None),
    };
    match wide {
        sea_query::Value::Double(Some(n)) => q.bind(n),
        _ => q,
    }
}

/// A bound value comes behind those that were bound before it, and the text stays.
pub proof fn law_bound_value_comes_last(
    r: clickhouse::query::Query,
    q: clickhouse::query::Query,
    arg: QueryArg,
)
    requires
        bound_with(r, q, arg),
    ensures
        query_text(r) == query_text(q),
        query_args(r).len() == query_args(q).len() + 1,
        query_args(r).last() == arg,
        forall|i: int|
            0 <= i < query_args(q).len() ==> #[trigger] query_args(r)[i] == query_args(q)[i],
{
}

} // verus!
