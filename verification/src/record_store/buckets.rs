//! The buckets of an aggregation, as its result rows hold them.
use crate::model::{ErrorView, UsageCollectorPluginError};
use crate::record_store::aggregation::{dimension_alias, dimension_selects};
use crate::query::aggregate::AggregationDimension;
use crate::sql::{sea_value, sea_values, sql_value, value_datum, Datum, DatumView, SqlValueView};
use crate::text::{
    decimal_text, digit_char, integer_text, same_text, spell_signed, spell_unsigned, texts,
};
use crate::values::{
    big_decimal_parse, big_decimal_parsed, big_decimal_parts, decimal_spelling, uuid_text,
};
use vstd::prelude::*;
use vstd::string::*;

verus! {

/// A row of a result: its column names, and a value for each of them.
#[derive(Debug)]
pub struct ResultRow {
    pub column_names: Vec<String>,
    pub values: Vec<sea_query::Value>,
}

/// What a [`ResultRow`] holds.
pub struct ResultRowView {
    pub column_names: Seq<Seq<char>>,
    pub values: Seq<SqlValueView>,
}

impl View for ResultRow {
    type V = ResultRowView;

    open spec fn view(&self) -> ResultRowView {
        ResultRowView {
            column_names: texts(self.column_names@),
            values: sea_values(self.values@),
        }
    }
}

/// A group and its aggregate.
#[derive(Debug)]
pub struct AggregationBucket {
    /// The group's text in each dimension.
    pub key: Vec<String>,
    /// The aggregate; none for an empty group.
    pub value: Option<bigdecimal::BigDecimal>,
}

/// What an [`AggregationBucket`] holds; a decimal as its digits and the count of
/// them that is fractional.
pub struct BucketView {
    pub key: Seq<Seq<char>>,
    pub value: Option<(int, int)>,
}

/// The digits and the fractional count of an optional decimal.
pub open spec fn measure_view(value: Option<bigdecimal::BigDecimal>) -> Option<(int, int)> {
    match value {
        Some(n) => Some(big_decimal_parts(n)),
        None => None,
    }
}

impl View for AggregationBucket {
    type V = BucketView;

    open spec fn view(&self) -> BucketView {
        BucketView { key: texts(self.key@), value: measure_view(self.value) }
    }
}

/// The text of a value. `NULL`, and a value of another type, has the empty text.
pub open spec fn value_text(d: DatumView) -> Seq<char> {
    match d {
        DatumView::Text(Some(s)) => s,
        DatumView::Uuid(Some(u)) => uuid_text(u.bits),
        DatumView::BigInt(Some(n)) => integer_text(n as int),
        DatumView::BigUnsigned(Some(n)) => integer_text(n as int),
        DatumView::Int(Some(n)) => integer_text(n as int),
        DatumView::Unsigned(Some(n)) => integer_text(n as int),
        DatumView::SmallInt(Some(n)) => integer_text(n as int),
        DatumView::SmallUnsigned(Some(n)) => integer_text(n as int),
        DatumView::TinyInt(Some(n)) => integer_text(n as int),
        DatumView::TinyUnsigned(Some(n)) => integer_text(n as int),
        DatumView::Double(Some(t)) => t,
        DatumView::Float(Some(t)) => t,
        DatumView::Bool(Some(b)) => if b {
            "true"@
        } else {
            "false"@
        },
        DatumView::Decimal(Some(d)) => decimal_spelling(d),
        _ => Seq::empty(),
    }
}

/// The text of a value.
pub fn sea_value_as_string(v: &sea_query::Value) -> (s: String)
    ensures
        s@ == value_text(value_datum(*v)),
{
    let value = sql_value(v);
    match &value.datum {
        Datum::Text(Some(s)) => s.clone(),
        Datum::Uuid(Some(u)) => u.to_string(),
        Datum::BigInt(Some(n)) => spell_signed(*n),
        Datum::BigUnsigned(Some(n)) => spell_unsigned(*n),
        Datum::Int(Some(n)) => spell_signed(*n as i64),
        Datum::Unsigned(Some(n)) => spell_unsigned(*n as u64),
        Datum::SmallInt(Some(n)) => spell_signed(*n as i64),
        Datum::SmallUnsigned(Some(n)) => spell_unsigned(*n as u64),
        Datum::TinyInt(Some(n)) => spell_signed(*n as i64),
        Datum::TinyUnsigned(Some(n)) => spell_unsigned(*n as u64),
        Datum::Double(Some(t)) => t.clone(),
        Datum::Float(Some(t)) => t.clone(),
        Datum::Bool(Some(b)) => if *b {
            "true".to_owned()
        } else {
            "false".to_owned()
        },
        Datum::Decimal(Some(d)) => d.to_string(),
        _ => {
            let s = String::new();
            assert(s@ =~= Seq::<char>::empty());
            s
        },
    }
}

/// Whether a value is the `NULL` of a numeric type or of texts.
pub open spec fn is_null_measure(d: DatumView) -> bool {
    ||| d == DatumView::Decimal(None)
    ||| d == DatumView::Double(None)
    ||| d == DatumView::Float(None)
    ||| d == DatumView::BigInt(None)
    ||| d == DatumView::BigUnsigned(None)
    ||| d == DatumView::Int(None)
    ||| d == DatumView::Unsigned(None)
    ||| d == DatumView::Text(None)
}

/// Whether a value is a number or a text.
pub open spec fn is_measure(d: DatumView) -> bool {
    match d {
        DatumView::Decimal(Some(_))
        | DatumView::Double(Some(_))
        | DatumView::Float(Some(_))
        | DatumView::BigInt(Some(_))
        | DatumView::BigUnsigned(Some(_))
        | DatumView::Int(Some(_))
        | DatumView::Unsigned(Some(_))
        | DatumView::SmallInt(Some(_))
        | DatumView::SmallUnsigned(Some(_))
        | DatumView::TinyInt(Some(_))
        | DatumView::TinyUnsigned(Some(_))
        | DatumView::Text(Some(_)) => true,
        _ => false,
    }
}

/// The text of an aggregate, none where it is `NULL`, or why it has none.
pub open spec fn measure_text(v: SqlValueView) -> Result<Option<Seq<char>>, Seq<char>> {
    if is_null_measure(v.datum) {
        Ok(None)
    } else if is_measure(v.datum) {
        Ok(Some(value_text(v.datum)))
    } else {
        Err("unexpected aggregate value type: "@ + v.shown)
    }
}

/// The text of an aggregate.
pub fn sea_value_measure(v: &sea_query::Value) -> (r: Result<
    Option<String>,
    UsageCollectorPluginError,
>)
    ensures
        match measure_text(sea_value(*v)) {
            Ok(None) => r == Ok::<Option<String>, UsageCollectorPluginError>(None),
            Ok(Some(t)) => r matches Ok(Some(s)) && s@ == t,
            Err(why) => r matches Err(e) && e@ == ErrorView::Internal(why),
        },
{
    let value = sql_value(v);
    match &value.datum {
        Datum::Decimal(None)
        | Datum::Double(None)
        | Datum::Float(None)
        | Datum::BigInt(None)
        | Datum::BigUnsigned(None)
        | Datum::Int(None)
        | Datum::Unsigned(None)
        | Datum::Text(None) => Ok(None),
        Datum::Decimal(Some(_))
        | Datum::Double(Some(_))
        | Datum::Float(Some(_))
        | Datum::BigInt(Some(_))
        | Datum::BigUnsigned(Some(_))
        | Datum::Int(Some(_))
        | Datum::Unsigned(Some(_))
        | Datum::SmallInt(Some(_))
        | Datum::SmallUnsigned(Some(_))
        | Datum::TinyInt(Some(_))
        | Datum::TinyUnsigned(Some(_))
        | Datum::Text(Some(_)) => Ok(Some(sea_value_as_string(v))),
        _ => Err(
            UsageCollectorPluginError::internal(
                "unexpected aggregate value type: ".to_owned().concat(value.shown.as_str()),
            ),
        ),
    }
}

/// The outcome that a parsed text stands for.
pub fn parsed_measure(parsed: Result<bigdecimal::BigDecimal, String>) -> (r: Result<
    Option<bigdecimal::BigDecimal>,
    UsageCollectorPluginError,
>)
    ensures
        match parsed {
            Ok(n) => r == Ok::<Option<bigdecimal::BigDecimal>, UsageCollectorPluginError>(Some(n)),
            Err(why) => r matches Err(e) && e@ == ErrorView::Internal(
                "aggregate value parse error: "@ + why@,
            ),
        },
{
    match parsed {
        Ok(n) => Ok(Some(n)),
        Err(e) => Err(
            UsageCollectorPluginError::internal(
                "aggregate value parse error: ".to_owned().concat(e.as_str()),
            ),
        ),
    }
}

/// What the text of an aggregate stands for, or why it stands for nothing.
pub open spec fn measure_of_text(text: Seq<char>) -> Result<Option<(int, int)>, Seq<char>> {
    match big_decimal_parsed(text) {
        Ok(parts) => Ok(Some(parts)),
        Err(why) => Err("aggregate value parse error: "@ + why),
    }
}

/// What an aggregate stands for, or why it stands for nothing.
pub open spec fn measure_of_value(v: SqlValueView) -> Result<Option<(int, int)>, Seq<char>> {
    match measure_text(v) {
        Ok(None) => Ok(None),
        Ok(Some(text)) => measure_of_text(text),
        Err(why) => Err(why),
    }
}

/// Reads an aggregate.
pub fn sea_value_as_optional_bigdecimal(v: &sea_query::Value) -> (r: Result<
    Option<bigdecimal::BigDecimal>,
    UsageCollectorPluginError,
>)
    ensures
        match measure_of_value(sea_value(*v)) {
            Ok(m) => r matches Ok(n) && measure_view(n) == m,
            Err(why) => r matches Err(e) && e@ == ErrorView::Internal(why),
        },
{
    match sea_value_measure(v) {
        Ok(None) => Ok(None),
        Ok(Some(s)) => parsed_measure(big_decimal_parse(s.as_str())),
        Err(e) => Err(e),
    }
}

/// The first position of a name from `start` on.
pub open spec fn position_from(names: Seq<Seq<char>>, name: Seq<char>, start: int) -> Option<int>
    decreases names.len() - start,
{
    if start < 0 || start >= names.len() {
        None
    } else if names[start] == name {
        Some(start)
    } else {
        position_from(names, name, start + 1)
    }
}

/// The first position of a name.
pub open spec fn position(names: Seq<Seq<char>>, name: Seq<char>) -> Option<int> {
    position_from(names, name, 0)
}

/// Finds the first position of a name.
fn find_name(names: &Vec<String>, name: &str) -> (r: Option<usize>)
    ensures
        match position(texts(names@), name@) {
            Some(p) => r matches Some(at) && at == p && at < names@.len(),
            None => r is None,
        },
{
    let mut i: usize = 0;
    while i < names.len()
        invariant
            i <= names@.len(),
            position(texts(names@), name@) == position_from(texts(names@), name@, i as int),
        decreases names@.len() - i,
    {
        assert(texts(names@)[i as int] == names@[i as int]@);
        if same_text(names[i].as_str(), name) {
            return Some(i);
        }
        i = i + 1;
    }
    None
}

/// The texts of the first `n` dimensions, or why one is missing.
pub open spec fn bucket_key(row: ResultRowView, n: nat) -> Result<Seq<Seq<char>>, Seq<char>>
    decreases n,
{
    if n == 0 {
        Ok(Seq::empty())
    } else {
        match bucket_key(row, (n - 1) as nat) {
            Err(why) => Err(why),
            Ok(front) => match position(row.column_names, dimension_alias(n - 1)) {
                Some(p) => Ok(front.push(value_text(row.values[p].datum))),
                None => Err(
                    "aggregate response missing dimension column "@ + dimension_alias(n - 1),
                ),
            },
        }
    }
}

/// The bucket of a row, or why there is none.
pub open spec fn bucket_of_row(row: ResultRowView, dim_count: nat) -> Result<
    BucketView,
    Seq<char>,
> {
    match bucket_key(row, dim_count) {
        Err(why) => Err(why),
        Ok(key) => match position(row.column_names, "agg"@) {
            None => Err("aggregate response missing agg column"@),
            Some(p) => match measure_of_value(row.values[p]) {
                Ok(value) => Ok(BucketView { key, value }),
                Err(why) => Err(why),
            },
        },
    }
}

/// The column that is looked up has a value, where the row has the column.
pub open spec fn has_value(row: ResultRowView, name: Seq<char>) -> bool {
    position(row.column_names, name) matches Some(p) ==> p < row.values.len()
}

/// Every column that is looked up for a bucket has a value: the dimensions in
/// turn, up to the first that is missing, and the aggregate behind them.
pub open spec fn is_covered(row: ResultRowView, dim_count: nat) -> bool {
    &&& forall|i: int|
        0 <= i < dim_count && #[trigger] bucket_key(row, i as nat) is Ok ==> has_value(
            row,
            dimension_alias(i),
        )
    &&& bucket_key(row, dim_count) is Ok ==> has_value(row, "agg"@)
}

proof fn lemma_bucket_key_stops(row: ResultRowView, m: nat, n: nat)
    requires
        m <= n,
        bucket_key(row, m) is Err,
    ensures
        bucket_key(row, n) == bucket_key(row, m),
    decreases n,
{
    if m < n {
        lemma_bucket_key_stops(row, m, (n - 1) as nat);
    }
}

/// Whether an outcome is what a bucket stands for.
pub open spec fn is_bucket(
    r: Result<AggregationBucket, UsageCollectorPluginError>,
    bucket: Result<BucketView, Seq<char>>,
) -> bool {
    match bucket {
        Ok(b) => r matches Ok(x) && x@ == b,
        Err(why) => r matches Err(e) && e@ == ErrorView::Internal(why),
    }
}

/// Reads the bucket of a row: dimensions are the columns `d0`, `d1` and so on,
/// the aggregate is the column `agg`.
pub fn bucket_from_data_row(row: &ResultRow, dim_count: usize) -> (r: Result<
    AggregationBucket,
    UsageCollectorPluginError,
>)
    requires
        is_covered(row@, dim_count as nat),
    ensures
        is_bucket(r, bucket_of_row(row@, dim_count as nat)),
{
    let mut key: Vec<String> = Vec::new();
    let mut i: usize = 0;
    assert(texts(key@) =~= Seq::<Seq<char>>::empty());
    while i < dim_count
        invariant
            i <= dim_count,
            is_covered(row@, dim_count as nat),
            bucket_key(row@, i as nat) == Ok::<Seq<Seq<char>>, Seq<char>>(texts(key@)),
        decreases dim_count - i,
    {
        let alias = "d".to_owned().concat(spell_unsigned(i as u64).as_str());
        match find_name(&row.column_names, alias.as_str()) {
            Some(idx) => {
                let ghost before = key@;
                let text = sea_value_as_string(&row.values[idx]);
                key.push(text);
                assert(row@.values[idx as int] == sea_value(row.values@[idx as int]));
                assert(texts(key@) =~= texts(before).push(text@));
            },
            None => {
                proof {
                    lemma_bucket_key_stops(row@, (i + 1) as nat, dim_count as nat);
                }
                return Err(
                    UsageCollectorPluginError::internal(
                        "aggregate response missing dimension column ".to_owned().concat(
                            alias.as_str(),
                        ),
                    ),
                );
            },
        }
        i = i + 1;
    }
    let at = match find_name(&row.column_names, "agg") {
        Some(at) => at,
        None => {
            return Err(
                UsageCollectorPluginError::internal(
                    "aggregate response missing agg column".to_owned(),
                ),
            );
        },
    };
    assert(row@.values[at as int] == sea_value(row.values@[at as int]));
    match sea_value_as_optional_bigdecimal(&row.values[at]) {
        Ok(value) => Ok(AggregationBucket { key, value }),
        Err(e) => Err(e),
    }
}

/// Whether every column that is looked up for a bucket has a value.
pub fn covers_bucket(row: &ResultRow, dim_count: usize) -> (r: bool)
    ensures
        r == is_covered(row@, dim_count as nat),
{
    let mut i: usize = 0;
    while i < dim_count
        invariant
            i <= dim_count,
            bucket_key(row@, i as nat) is Ok,
            forall|j: int| 0 <= j < i ==> #[trigger] has_value(row@, dimension_alias(j)),
        decreases dim_count - i,
    {
        let alias = "d".to_owned().concat(spell_unsigned(i as u64).as_str());
        assert(alias@ == dimension_alias(i as int));
        match find_name(&row.column_names, alias.as_str()) {
            Some(at) => if at >= row.values.len() {
                assert(bucket_key(row@, i as nat) is Ok);
                assert(!has_value(row@, dimension_alias(i as int)));
                return false;
            },
            None => {
                proof {
                    let n = (i + 1) as nat;
                    assert(bucket_key(row@, n) is Err);
                    lemma_bucket_key_stops(row@, n, dim_count as nat);
                    assert forall|j: int| 0 <= j < dim_count && #[trigger] bucket_key(
                        row@,
                        j as nat,
                    ) is Ok implies has_value(row@, dimension_alias(j)) by {
                        if j > i {
                            lemma_bucket_key_stops(row@, n, j as nat);
                        }
                    }
                }
                return true;
            },
        }
        assert(has_value(row@, dimension_alias(i as int)));
        i = i + 1;
    }
    match find_name(&row.column_names, "agg") {
        Some(at) => at < row.values.len(),
        None => true,
    }
}

proof fn lemma_decimal_text_is_injective(a: nat, b: nat)
    requires
        decimal_text(a) == decimal_text(b),
    ensures
        a == b,
    decreases a,
{
    let x = decimal_text(a);
    let y = decimal_text(b);
    lemma_decimal_text_is_not_empty(a / 10);
    lemma_decimal_text_is_not_empty(b / 10);
    assert(x.last() == digit_char((a % 10) as int));
    assert(y.last() == digit_char((b % 10) as int));
    if a < 10 {
        if b >= 10 {
            assert(x.len() == 1);
            assert(y.len() >= 2);
        }
    } else {
        if b < 10 {
            assert(y.len() == 1);
            assert(x.len() >= 2);
        } else {
            assert(x.drop_last() =~= decimal_text(a / 10));
            assert(y.drop_last() =~= decimal_text(b / 10));
            lemma_decimal_text_is_injective(a / 10, b / 10);
        }
    }
}

proof fn lemma_decimal_text_is_not_empty(n: nat)
    ensures
        decimal_text(n).len() > 0,
{
}

/// The column names of an aggregation's rows: the aliases of its selected
/// expressions.
pub open spec fn aggregate_columns(n: nat) -> Seq<Seq<char>> {
    Seq::new(n, |i: int| dimension_alias(i)).push("agg"@)
}

proof fn lemma_columns_are_distinct(n: nat, i: int, j: int)
    requires
        0 <= i < j <= n,
    ensures
        aggregate_columns(n)[i] != aggregate_columns(n)[j],
{
    reveal_strlit("d");
    reveal_strlit("agg");
    let x = aggregate_columns(n)[i];
    let y = aggregate_columns(n)[j];
    if j == n {
        assert(x[0] == 'd');
        assert(y[0] == 'a');
    } else if x == y {
        assert(x.skip(1) =~= decimal_text(i as nat));
        assert(y.skip(1) =~= decimal_text(j as nat));
        lemma_decimal_text_is_injective(i as nat, j as nat);
    }
}

proof fn lemma_column_is_found(n: nat, i: int, start: int)
    requires
        0 <= start <= i <= n,
    ensures
        position_from(aggregate_columns(n), aggregate_columns(n)[i], start) == Some(i),
    decreases i - start,
{
    if start < i {
        lemma_columns_are_distinct(n, start, i);
        lemma_column_is_found(n, i, start + 1);
    }
}

proof fn lemma_dimensions_are_found(row: ResultRowView, n: nat, m: nat)
    requires
        m <= n,
        row.column_names == aggregate_columns(n),
    ensures
        bucket_key(row, m) == Ok::<Seq<Seq<char>>, Seq<char>>(
            Seq::new(m, |i: int| value_text(row.values[i].datum)),
        ),
    decreases m,
{
    if m > 0 {
        lemma_dimensions_are_found(row, n, (m - 1) as nat);
        lemma_column_is_found(n, m - 1, 0);
        assert(aggregate_columns(n)[m - 1] == dimension_alias(m - 1));
        assert(bucket_key(row, m)->Ok_0 =~= Seq::new(
            m,
            |i: int| value_text(row.values[i].datum),
        ));
    } else {
        assert(bucket_key(row, m)->Ok_0 =~= Seq::new(
            m,
            |i: int| value_text(row.values[i].datum),
        ));
    }
}

/// What an aggregation selects is what its rows are read by: the dimensions are
/// found in their order and the aggregate behind them, so that no column is ever
/// missing.
pub proof fn law_bucket_is_read_as_selected(row: ResultRowView, dim_count: nat)
    requires
        row.column_names == aggregate_columns(dim_count),
    ensures
        match measure_of_value(row.values[dim_count as int]) {
            Ok(value) => bucket_of_row(row, dim_count) == Ok::<BucketView, Seq<char>>(
                BucketView {
                    key: Seq::new(dim_count, |i: int| value_text(row.values[i].datum)),
                    value,
                },
            ),
            Err(why) => bucket_of_row(row, dim_count) == Err::<BucketView, Seq<char>>(why),
        },
{
    lemma_dimensions_are_found(row, dim_count, dim_count);
    lemma_column_is_found(dim_count, dim_count as int, 0);
}

/// The aliases that an aggregation selects under are the names of its columns.
pub proof fn law_columns_are_the_selected_aliases(dims: Seq<AggregationDimension>)
    ensures
        forall|i: int|
            0 <= i < dims.len() ==> Some(#[trigger] aggregate_columns(dims.len())[i])
                == dimension_selects(dims)[i].1,
        aggregate_columns(dims.len()).last() == "agg"@,
{
}

// ---- what the values of a result row stand for ----

/// The text of a value is that of what it holds; `NULL` has the empty text.
pub proof fn law_value_is_spelled_as_what_it_holds(d: DatumView)
    ensures
        match d {
            DatumView::Text(Some(s)) => value_text(d) == s,
            DatumView::Uuid(Some(u)) => value_text(d) == uuid_text(u.bits),
            DatumView::BigInt(Some(n)) => value_text(d) == integer_text(n as int),
            DatumView::BigUnsigned(Some(n)) => value_text(d) == integer_text(n as int),
            DatumView::Int(Some(n)) => value_text(d) == integer_text(n as int),
            DatumView::Unsigned(Some(n)) => value_text(d) == integer_text(n as int),
            DatumView::SmallInt(Some(n)) => value_text(d) == integer_text(n as int),
            DatumView::SmallUnsigned(Some(n)) => value_text(d) == integer_text(n as int),
            DatumView::TinyInt(Some(n)) => value_text(d) == integer_text(n as int),
            DatumView::TinyUnsigned(Some(n)) => value_text(d) == integer_text(n as int),
            DatumView::Double(Some(t)) => value_text(d) == t,
            DatumView::Float(Some(t)) => value_text(d) == t,
            DatumView::Bool(Some(b)) => value_text(d) == if b {
                "true"@
            } else {
                "false"@
            },
            DatumView::Decimal(Some(x)) => value_text(d) == decimal_spelling(x),
            _ => value_text(d).len() == 0,
        },
{
}

/// An aggregate is the number that its value holds, whichever numeric type or
/// text it comes as; the `NULL` of a numeric type or a text is no aggregate; and a
/// value that is no number is refused by its debug text.
pub proof fn law_aggregate_is_the_number_of_its_value(v: SqlValueView)
    ensures
        match v.datum {
            DatumView::Decimal(None)
            | DatumView::Double(None)
            | DatumView::Float(None)
            | DatumView::BigInt(None)
            | DatumView::BigUnsigned(None)
            | DatumView::Int(None)
            | DatumView::Unsigned(None)
            | DatumView::Text(None) => measure_of_value(v) == Ok::<Option<(int, int)>, Seq<char>>(
                None,
            ),
            DatumView::Decimal(Some(_))
            | DatumView::Double(Some(_))
            | DatumView::Float(Some(_))
            | DatumView::BigInt(Some(_))
            | DatumView::BigUnsigned(Some(_))
            | DatumView::Int(Some(_))
            | DatumView::Unsigned(Some(_))
            | DatumView::SmallInt(Some(_))
            | DatumView::SmallUnsigned(Some(_))
            | DatumView::TinyInt(Some(_))
            | DatumView::TinyUnsigned(Some(_))
            | DatumView::Text(Some(_)) => match big_decimal_parsed(value_text(v.datum)) {
                Ok(parts) => measure_of_value(v) == Ok::<Option<(int, int)>, Seq<char>>(
                    Some(parts),
                ),
                Err(why) => measure_of_value(v) == Err::<Option<(int, int)>, Seq<char>>(
                    "aggregate value parse error: "@ + why,
                ),
            },
            _ => measure_of_value(v) == Err::<Option<(int, int)>, Seq<char>>(
                "unexpected aggregate value type: "@ + v.shown,
            ),
        },
{
}

proof fn lemma_position_is_first(names: Seq<Seq<char>>, name: Seq<char>, start: int)
    requires
        0 <= start,
    ensures
        position_from(names, name, start) matches Some(p) ==> start <= p < names.len() && names[p]
            == name && forall|i: int| start <= i < p ==> #[trigger] names[i] != name,
        position_from(names, name, start) is None ==> forall|i: int|
            start <= i < names.len() ==> #[trigger] names[i] != name,
    decreases names.len() - start,
{
    if start < names.len() && names[start] != name {
        lemma_position_is_first(names, name, start + 1);
    }
}

/// The value of a column is that at the first place of its name.
pub open spec fn stands_under(row: ResultRowView, name: Seq<char>, p: int) -> bool {
    &&& 0 <= p < row.column_names.len()
    &&& row.column_names[p] == name
    &&& forall|i: int| 0 <= i < p ==> #[trigger] row.column_names[i] != name
}

proof fn lemma_bucket_key_at(row: ResultRowView, n: nat)
    ensures
        bucket_key(row, n) matches Ok(key) ==> key.len() == n && forall|i: int|
            #![trigger key[i]]
            0 <= i < n ==> is_key_of(row, i, key[i]),
        bucket_key(row, n) matches Err(why) ==> exists|i: int|
            0 <= i < n && #[trigger] is_missing(row, "d"@ + decimal_text(i as nat)) && why
                == "aggregate response missing dimension column "@ + ("d"@ + decimal_text(
                i as nat,
            )),
    decreases n,
{
    if n > 0 {
        let m = (n - 1) as nat;
        lemma_bucket_key_at(row, m);
        lemma_position_is_first(row.column_names, dimension_alias(n - 1), 0);
        match bucket_key(row, n) {
            Ok(key) => {
                let front = bucket_key(row, m)->Ok_0;
                assert forall|i: int| #![trigger key[i]] 0 <= i < n implies is_key_of(
                    row,
                    i,
                    key[i],
                ) by {
                    if i < m {
                        assert(key[i] == front[i]);
                    } else {
                        let p = position(row.column_names, dimension_alias(n - 1))->0;
                        assert(stands_under(row, "d"@ + decimal_text(i as nat), p));
                    }
                }
            },
            Err(why) => {
                if bucket_key(row, m) is Ok {
                    assert(is_missing(row, "d"@ + decimal_text((n - 1) as nat)));
                }
            },
        }
    }
}

/// The row has no column of that name.
pub open spec fn is_missing(row: ResultRowView, name: Seq<char>) -> bool {
    forall|p: int| 0 <= p < row.column_names.len() ==> #[trigger] row.column_names[p] != name
}

/// The text is that of the value under the name of the dimension.
pub open spec fn is_key_of(row: ResultRowView, i: int, text: Seq<char>) -> bool {
    exists|p: int| #[trigger]
        stands_under(row, "d"@ + decimal_text(i as nat), p) && text == value_text(
            row.values[p].datum,
        )
}

/// The bucket of a row has the texts of its dimensions in their order, each read
/// under its own name wherever the column stands, and the number under `agg`.
pub proof fn law_bucket_is_read_by_column_name(row: ResultRowView, dim_count: nat, b: BucketView)
    requires
        bucket_of_row(row, dim_count) == Ok::<BucketView, Seq<char>>(b),
    ensures
        b.key.len() == dim_count,
        forall|i: int| 0 <= i < dim_count ==> is_key_of(row, i, #[trigger] b.key[i]),
        exists|p: int| #[trigger]
            stands_under(row, "agg"@, p) && measure_of_value(row.values[p]) == Ok::<
                Option<(int, int)>,
                Seq<char>,
            >(b.value),
{
    lemma_bucket_key_at(row, dim_count);
    lemma_position_is_first(row.column_names, "agg"@, 0);
    let p = position(row.column_names, "agg"@)->0;
    assert(stands_under(row, "agg"@, p));
}

/// A row has a bucket wherever no column is missing and its aggregate is a number
/// or `NULL`; what is missing is named.
pub proof fn law_row_without_a_bucket_is_told_why(
    row: ResultRowView,
    dim_count: nat,
    why: Seq<char>,
)
    requires
        bucket_of_row(row, dim_count) == Err::<BucketView, Seq<char>>(why),
    ensures
        (exists|i: int|
            0 <= i < dim_count && #[trigger] is_missing(row, "d"@ + decimal_text(i as nat)) && why
                == "aggregate response missing dimension column "@ + ("d"@ + decimal_text(
                i as nat,
            ))) || is_missing(row, "agg"@) && why == "aggregate response missing agg column"@ || (
        exists|p: int| #[trigger]
            stands_under(row, "agg"@, p) && measure_of_value(row.values[p]) == Err::<
                Option<(int, int)>,
                Seq<char>,
            >(why)),
{
    lemma_bucket_key_at(row, dim_count);
    lemma_position_is_first(row.column_names, "agg"@, 0);
    if bucket_key(row, dim_count) is Ok {
        if let Some(p) = position(row.column_names, "agg"@) {
            assert(stands_under(row, "agg"@, p));
        }
    }
}

/// The bucket that is handed on is the one that was read, key by key and with its
/// number; and what was wrong with a row is told as an internal error.
pub proof fn law_bucket_is_handed_on_as_it_is(
    r: Result<AggregationBucket, UsageCollectorPluginError>,
    bucket: Result<BucketView, Seq<char>>,
)
    requires
        is_bucket(r, bucket),
    ensures
        r is Ok <==> bucket is Ok,
        r matches Ok(b) ==> b@.key == bucket->Ok_0.key && b@.value == bucket->Ok_0.value,
        r matches Err(e) ==> e@ == ErrorView::Internal(bucket->Err_0),
{
}

/// Where a row has a value for each of its columns, every column that is looked up
/// has one; where one has not, the row is shorter than its columns.
pub proof fn law_full_row_covers_its_bucket(row: ResultRowView, dim_count: nat)
    ensures
        row.values.len() >= row.column_names.len() ==> is_covered(row, dim_count),
        forall|name: Seq<char>, p: int|
            #![trigger stands_under(row, name, p)]
            stands_under(row, name, p) ==> (has_value(row, name) <==> p < row.values.len()),
{
    assert forall|name: Seq<char>| #[trigger]
        has_value(row, name) || row.values.len() < row.column_names.len() by {
        lemma_position_is_first(row.column_names, name, 0);
    }
    assert forall|name: Seq<char>, p: int| #[trigger]
        stands_under(row, name, p) implies (has_value(row, name) <==> p < row.values.len()) by {
        lemma_position_is_first(row.column_names, name, 0);
    }
}

} // verus!
