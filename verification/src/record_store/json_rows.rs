//! The buckets of an aggregation, as a body of JSON objects holds them, one in
//! each line.
use crate::model::{ErrorView, UsageCollectorPluginError};
use crate::record_store::buckets::{
    measure_of_text, measure_view, parsed_measure, AggregationBucket, BucketView,
};
use crate::text::texts;
use crate::values::{big_decimal_parse, big_decimal_parsed};
use vstd::prelude::*;
use vstd::string::*;
use vstd::utf8::{decode_utf8, valid_utf8};

verus! {

/// Whether a character has the Unicode property `White_Space`.
pub open spec fn is_white_space(c: char) -> bool {
    let n = c as u32;
    ||| 0x9 <= n <= 0xd
    ||| n == 0x20
    ||| n == 0x85
    ||| n == 0xa0
    ||| n == 0x1680
    ||| 0x2000 <= n <= 0x200a
    ||| n == 0x2028
    ||| n == 0x2029
    ||| n == 0x202f
    ||| n == 0x205f
    ||| n == 0x3000
}

/// Whether a character has the Unicode property `White_Space`.
fn white_space(c: char) -> (r: bool)
    ensures
        r == is_white_space(c),
{
    let n = c as u32;
    (0x9 <= n && n <= 0xd) || n == 0x20 || n == 0x85 || n == 0xa0 || n == 0x1680 || (0x2000 <= n
        && n <= 0x200a) || n == 0x2028 || n == 0x2029 || n == 0x202f || n == 0x205f || n == 0x3000
}

/// A text without leading white space.
pub open spec fn trimmed_start(text: Seq<char>) -> Seq<char>
    decreases text.len(),
{
    if text.len() > 0 && is_white_space(text[0]) {
        trimmed_start(text.skip(1))
    } else {
        text
    }
}

/// A text without trailing white space.
pub open spec fn trimmed_end(text: Seq<char>) -> Seq<char>
    decreases text.len(),
{
    if text.len() > 0 && is_white_space(text.last()) {
        trimmed_end(text.drop_last())
    } else {
        text
    }
}

/// A text without white space around it.
pub open spec fn trimmed(text: Seq<char>) -> Seq<char> {
    trimmed_end(trimmed_start(text))
}

proof fn lemma_trimmed_start(text: Seq<char>, n: int)
    requires
        0 <= n <= text.len(),
        forall|i: int| 0 <= i < n ==> is_white_space(#[trigger] text[i]),
        n < text.len() ==> !is_white_space(text[n]),
    ensures
        trimmed_start(text) == text.skip(n),
    decreases text.len(),
{
    if n > 0 {
        let rest = text.skip(1);
        assert(is_white_space(text[0]));
        assert forall|i: int| 0 <= i < n - 1 implies is_white_space(#[trigger] rest[i]) by {
            assert(rest[i] == text[i + 1]);
        }
        lemma_trimmed_start(rest, n - 1);
        assert(rest.skip(n - 1) =~= text.skip(n));
    } else {
        assert(text.skip(0) =~= text);
    }
}

proof fn lemma_trimmed_end(text: Seq<char>, n: int)
    requires
        0 <= n <= text.len(),
        forall|i: int| n <= i < text.len() ==> is_white_space(#[trigger] text[i]),
        n > 0 ==> !is_white_space(text[n - 1]),
    ensures
        trimmed_end(text) == text.take(n),
    decreases text.len(),
{
    if n < text.len() {
        let rest = text.drop_last();
        assert(is_white_space(text.last()));
        assert forall|i: int| n <= i < rest.len() implies is_white_space(#[trigger] rest[i]) by {
            assert(rest[i] == text[i]);
        }
        lemma_trimmed_end(rest, n);
        assert(rest.take(n) =~= text.take(n));
    } else {
        assert(text.take(n) =~= text);
    }
}

/// A text without white space around it.
pub fn trim_text(text: &str) -> (r: &str)
    ensures
        r@ == trimmed(text@),
{
    let total = text.unicode_len();
    let mut first: usize = 0;
    let mut end: usize = 0;
    let mut at: usize = 0;
    for c in iter: text.chars()
        invariant
            iter.seq() == text@,
            at == iter.index(),
            first <= at,
            end <= at,
            end == 0 ==> first == at,
            end > 0 ==> first < end,
            forall|i: int| 0 <= i < first ==> is_white_space(#[trigger] text@[i]),
            end > 0 ==> !is_white_space(text@[first as int]) && !is_white_space(text@[end - 1]),
            forall|i: int| end <= i < at ==> is_white_space(#[trigger] text@[i]),
            total == text@.len(),
    {
        assert(c == text@[at as int]);
        if white_space(c) {
            if end == 0 {
                first = at + 1;
            }
        } else {
            end = at + 1;
        }
        at = at + 1;
    }
    if end == 0 {
        proof {
            lemma_trimmed_start(text@, text@.len() as int);
            assert(text@.skip(text@.len() as int) =~= Seq::<char>::empty());
            assert(text@.subrange(0, 0) =~= Seq::<char>::empty());
        }
        text.substring_char(0, 0)
    } else {
        proof {
            let rest = text@.skip(first as int);
            lemma_trimmed_start(text@, first as int);
            assert(rest[end - first - 1] == text@[end - 1]);
            assert forall|i: int| end - first <= i < rest.len() implies is_white_space(
                #[trigger] rest[i],
            ) by {
                assert(rest[i] == text@[first + i]);
            }
            lemma_trimmed_end(rest, end - first);
            assert(rest.take(end - first) =~= text@.subrange(first as int, end as int));
        }
        text.substring_char(first, end)
    }
}

/// A member of a JSON object; one that is neither `null` nor a text nor a number
/// as its JSON text.
#[derive(Debug)]
pub enum JsonMember {
    Null,
    Text(String),
    Number(String),
    Other(String),
}

/// The view of a [`JsonMember`].
pub enum JsonMemberView {
    Null,
    Text(Seq<char>),
    Number(Seq<char>),
    Other(Seq<char>),
}

impl View for JsonMember {
    type V = JsonMemberView;

    open spec fn view(&self) -> JsonMemberView {
        match *self {
            JsonMember::Null => JsonMemberView::Null,
            JsonMember::Text(s) => JsonMemberView::Text(s@),
            JsonMember::Number(s) => JsonMemberView::Number(s@),
            JsonMember::Other(s) => JsonMemberView::Other(s@),
        }
    }
}

/// The view of an optional member.
pub open spec fn member_view(m: Option<JsonMember>) -> Option<JsonMemberView> {
    match m {
        Some(x) => Some(x@),
        None => None,
    }
}

/// The members of a JSON object, by name.
pub type JsonMembers = Map<Seq<char>, JsonMemberView>;

/// The member of that name, where there is one.
pub open spec fn member_named(members: JsonMembers, name: Seq<char>) -> Option<JsonMemberView> {
    if members.contains_key(name) {
        Some(members[name])
    } else {
        None
    }
}

/// The text of a dimension: that of a text, else the empty one.
pub open spec fn key_text(member: Option<JsonMemberView>) -> Seq<char> {
    match member {
        Some(JsonMemberView::Text(s)) => s,
        _ => Seq::empty(),
    }
}

/// The text of a dimension.
pub fn json_key(member: Option<JsonMember>) -> (s: String)
    ensures
        s@ == key_text(member_view(member)),
{
    match member {
        Some(JsonMember::Text(s)) => s,
        _ => {
            let s = String::new();
            assert(s@ =~= Seq::<char>::empty());
            s
        },
    }
}

/// What the member of an aggregate stands for, or why it stands for nothing.
pub open spec fn member_measure(member: Option<JsonMemberView>) -> Result<
    Option<(int, int)>,
    Seq<char>,
> {
    match member {
        None | Some(JsonMemberView::Null) => Ok(None),
        Some(JsonMemberView::Text(s)) => measure_of_text(s),
        Some(JsonMemberView::Number(s)) => measure_of_text(s),
        Some(JsonMemberView::Other(s)) => Err("unexpected aggregate value type: "@ + s),
    }
}

/// Reads the member of an aggregate.
pub fn json_measure(member: Option<JsonMember>) -> (r: Result<
    Option<bigdecimal::BigDecimal>,
    UsageCollectorPluginError,
>)
    ensures
        match member_measure(member_view(member)) {
            Ok(m) => r matches Ok(n) && measure_view(n) == m,
            Err(why) => r matches Err(e) && e@ == ErrorView::Internal(why),
        },
{
    match member {
        None | Some(JsonMember::Null) => Ok(None),
        Some(JsonMember::Text(s)) => parsed_measure(big_decimal_parse(s.as_str())),
        Some(JsonMember::Number(s)) => parsed_measure(big_decimal_parse(s.as_str())),
        Some(JsonMember::Other(s)) => Err(
            UsageCollectorPluginError::internal(
                "unexpected aggregate value type: ".to_owned().concat(s.as_str()),
            ),
        ),
    }
}

/// The bucket of an object, or why there is none.
pub open spec fn members_bucket(members: JsonMembers, dim_names: Seq<Seq<char>>) -> Result<
    BucketView,
    Seq<char>,
> {
    match member_measure(member_named(members, "agg"@)) {
        Ok(value) => Ok(
            BucketView {
                key: dim_names.map_values(|d: Seq<char>| key_text(member_named(members, d))),
                value,
            },
        ),
        Err(why) => Err(why),
    }
}

/// The bucket of a line, none for a blank line, or why there is none.
pub open spec fn line_bucket(line: Seq<u8>, dim_names: Seq<Seq<char>>) -> Result<
    Option<BucketView>,
    Seq<char>,
> {
    if !valid_utf8(line) {
        Err("aggregate response read error: stream did not contain valid UTF-8"@)
    } else {
        let text = trimmed(decode_utf8(line));
        if text.len() == 0 {
            Ok(None)
        } else {
            match json_parsed(text) {
                Err(why) => Err("aggregate JSON parse error: "@ + why),
                Ok(members) => match members_bucket(members, dim_names) {
                    Ok(b) => Ok(Some(b)),
                    Err(why) => Err(why),
                },
            }
        }
    }
}

/// The lines of a body: what stands between line feeds.
pub open spec fn lines_of(bytes: Seq<u8>) -> Seq<Seq<u8>>
    decreases bytes.len(),
{
    if bytes.len() == 0 {
        seq![Seq::empty()]
    } else {
        let before = lines_of(bytes.drop_last());
        if bytes.last() == 10 {
            before.push(Seq::empty())
        } else {
            before.drop_last().push(before.last().push(bytes.last()))
        }
    }
}

/// The buckets of lines, or the first reason why one has none.
pub open spec fn line_buckets(lines: Seq<Seq<u8>>, dim_names: Seq<Seq<char>>) -> Result<
    Seq<BucketView>,
    Seq<char>,
>
    decreases lines.len(),
{
    if lines.len() == 0 {
        Ok(Seq::empty())
    } else {
        match line_buckets(lines.drop_last(), dim_names) {
            Err(why) => Err(why),
            Ok(front) => match line_bucket(lines.last(), dim_names) {
                Err(why) => Err(why),
                Ok(None) => Ok(front),
                Ok(Some(b)) => Ok(front.push(b)),
            },
        }
    }
}

/// The views of buckets.
pub open spec fn bucket_views(buckets: Seq<AggregationBucket>) -> Seq<BucketView> {
    buckets.map_values(|b: AggregationBucket| b@)
}

/// Reads the bucket of an object.
fn object_bucket(object: &serde_json::Value, dim_names: &[String]) -> (r: Result<
    AggregationBucket,
    UsageCollectorPluginError,
>)
    ensures
        match members_bucket(json_members(*object), texts(dim_names@)) {
            Ok(b) => r matches Ok(x) && x@ == b,
            Err(why) => r matches Err(e) && e@ == ErrorView::Internal(why),
        },
{
    let ghost members = json_members(*object);
    let mut key: Vec<String> = Vec::new();
    let mut i: usize = 0;
    while i < dim_names.len()
        invariant
            i <= dim_names@.len(),
            members == json_members(*object),
            key@.len() == i,
            forall|j: int|
                0 <= j < i ==> (#[trigger] key@[j])@ == key_text(
                    member_named(members, dim_names@[j]@),
                ),
        decreases dim_names@.len() - i,
    {
        key.push(json_key(json_member(object, dim_names[i].as_str())));
        i = i + 1;
    }
    assert(texts(key@) =~= texts(dim_names@).map_values(
        |d: Seq<char>| key_text(member_named(members, d)),
    ));
    match json_measure(json_member(object, "agg")) {
        Ok(value) => Ok(AggregationBucket { key, value }),
        Err(e) => Err(e),
    }
}

/// Reads the bucket of a line.
fn read_line(line: Vec<u8>, dim_names: &[String]) -> (r: Result<
    Option<AggregationBucket>,
    UsageCollectorPluginError,
>)
    ensures
        match line_bucket(line@, texts(dim_names@)) {
            Ok(Some(b)) => r matches Ok(Some(x)) && x@ == b,
            Ok(None) => r matches Ok(None),
            Err(why) => r matches Err(e) && e@ == ErrorView::Internal(why),
        },
{
    let text = match utf8_text(line) {
        Some(t) => t,
        None => {
            return Err(
                UsageCollectorPluginError::internal(
                    "aggregate response read error: stream did not contain valid UTF-8".to_owned(),
                ),
            );
        },
    };
    let content = trim_text(text.as_str());
    if content.unicode_len() == 0 {
        return Ok(None);
    }
    match json_parse(content) {
        Ok(object) => match object_bucket(&object, dim_names) {
            Ok(b) => Ok(Some(b)),
            Err(e) => Err(e),
        },
        Err(e) => Err(
            UsageCollectorPluginError::internal(
                "aggregate JSON parse error: ".to_owned().concat(e.as_str()),
            ),
        ),
    }
}

proof fn lemma_line_buckets_stop(lines: Seq<Seq<u8>>, dim_names: Seq<Seq<char>>, n: int)
    requires
        0 <= n <= lines.len(),
        line_buckets(lines.take(n), dim_names) is Err,
    ensures
        line_buckets(lines, dim_names) == line_buckets(lines.take(n), dim_names),
    decreases lines.len(),
{
    if n == lines.len() {
        assert(lines.take(n) =~= lines);
    } else {
        assert(lines.drop_last().take(n) =~= lines.take(n));
        lemma_line_buckets_stop(lines.drop_last(), dim_names, n);
    }
}

/// The lines behind a line feed do not change those before it.
proof fn lemma_lines_of_prefix(bytes: Seq<u8>, n: int)
    requires
        0 <= n <= bytes.len(),
    ensures
        lines_of(bytes.take(n)).len() > 0,
        lines_of(bytes.take(n)).len() <= lines_of(bytes).len(),
        lines_of(bytes).take(lines_of(bytes.take(n)).len() - 1) == lines_of(
            bytes.take(n),
        ).drop_last(),
    decreases bytes.len(),
{
    if n == bytes.len() {
        assert(bytes.take(n) =~= bytes);
        lemma_lines_are_some(bytes);
        assert(lines_of(bytes).take(lines_of(bytes).len() - 1) =~= lines_of(bytes).drop_last());
    } else {
        let front = bytes.drop_last();
        assert(front.take(n) =~= bytes.take(n));
        lemma_lines_of_prefix(front, n);
        lemma_lines_are_some(front);
        let k = lines_of(bytes.take(n)).len() - 1;
        assert(lines_of(bytes).take(k) =~= lines_of(front).take(k));
    }
}

proof fn lemma_lines_are_some(bytes: Seq<u8>)
    ensures
        lines_of(bytes).len() > 0,
    decreases bytes.len(),
{
    if bytes.len() > 0 {
        lemma_lines_are_some(bytes.drop_last());
    }
}

/// Reads the buckets of a body with a JSON object in each line. `dim_names` are
/// the names of the members for the dimensions; one that is missing or no text
/// has the empty text. The aggregate is the member `agg`, a text or a number.
pub fn parse_aggregate_response(bytes: &[u8], dim_names: &[String]) -> (r: Result<
    Vec<AggregationBucket>,
    UsageCollectorPluginError,
>)
    ensures
        match line_buckets(lines_of(bytes@), texts(dim_names@)) {
            Ok(buckets) => r matches Ok(b) && bucket_views(b@) == buckets,
            Err(why) => r matches Err(e) && e@ == ErrorView::Internal(why),
        },
{
    let ghost dims = texts(dim_names@);
    let ghost all = lines_of(bytes@);
    let mut buckets: Vec<AggregationBucket> = Vec::new();
    let mut line: Vec<u8> = Vec::new();
    let mut i: usize = 0;
    proof {
        assert(bytes@.take(0) =~= Seq::<u8>::empty());
        assert(line@ =~= Seq::<u8>::empty());
        assert(lines_of(bytes@.take(0)).drop_last() =~= Seq::<Seq<u8>>::empty());
        assert(bucket_views(buckets@) =~= Seq::<BucketView>::empty());
    }
    while i < bytes.len()
        invariant
            i <= bytes@.len(),
            dims == texts(dim_names@),
            all == lines_of(bytes@),
            lines_of(bytes@.take(i as int)).len() > 0,
            lines_of(bytes@.take(i as int)).last() == line@,
            line_buckets(lines_of(bytes@.take(i as int)).drop_last(), dims) == Ok::<
                Seq<BucketView>,
                Seq<char>,
            >(bucket_views(buckets@)),
        decreases bytes@.len() - i,
    {
        let ghost read = lines_of(bytes@.take(i as int));
        let ghost more = lines_of(bytes@.take(i + 1));
        let b = bytes[i];
        proof {
            assert(bytes@.take(i + 1).drop_last() =~= bytes@.take(i as int));
            assert(bytes@.take(i + 1).last() == b);
        }
        if b == 10 {
            proof {
                assert(more.drop_last() =~= read);
                lemma_lines_of_prefix(bytes@, i + 1);
            }
            match read_line(line, dim_names) {
                Ok(Some(bucket)) => {
                    let ghost before = buckets@;
                    buckets.push(bucket);
                    assert(bucket_views(buckets@) =~= bucket_views(before).push(bucket@));
                },
                Ok(None) => {},
                Err(e) => {
                    proof {
                        lemma_line_buckets_stop(all, dims, read.len() as int);
                    }
                    return Err(e);
                },
            }
            line = Vec::new();
            assert(line@ =~= Seq::<u8>::empty());
        } else {
            line.push(b);
            assert(more.drop_last() =~= read.drop_last());
        }
        i = i + 1;
    }
    assert(bytes@.take(i as int) =~= bytes@);
    match read_line(line, dim_names) {
        Ok(Some(bucket)) => {
            let ghost before = buckets@;
            buckets.push(bucket);
            assert(bucket_views(buckets@) =~= bucket_views(before).push(bucket@));
            Ok(buckets)
        },
        Ok(None) => Ok(buckets),
        Err(e) => Err(e),
    }
}

// ---- trusted: `String::from_utf8`, and the crate `serde_json` ----

/// `String::from_utf8`: the text that the bytes encode, none where they are not
/// UTF-8.
#[verifier::external_body]
fn utf8_text(bytes: Vec<u8>) -> (r: Option<String>)
    ensures
        r is Some <==> valid_utf8(bytes@),
        r matches Some(s) ==> s@ == decode_utf8(bytes@),
{
    String::from_utf8(bytes).ok()
}

/// A JSON value.
#[verifier::external_type_specification]
#[verifier::external_body]
pub struct ExJsonValue(serde_json::Value);

/// The members of a JSON value; one that is no object has none.
pub uninterp spec fn json_members(v: serde_json::Value) -> Map<Seq<char>, JsonMemberView>;

/// What `serde_json::from_str` makes of a text: the members of the value, or the
/// message of its error.
pub uninterp spec fn json_parsed(raw: Seq<char>) -> Result<
    Map<Seq<char>, JsonMemberView>,
    Seq<char>,
>;

/// `serde_json::from_str`: its outcome depends on the text alone.
#[verifier::external_body]
fn json_parse(raw: &str) -> (r: Result<serde_json::Value, String>)
    ensures
        match json_parsed(raw@) {
            Ok(members) => r matches Ok(v) && json_members(v) == members,
            Err(why) => r matches Err(e) && e@ == why,
        },
{
    match serde_json::from_str::<serde_json::Value>(raw) {
        Ok(v) => Ok(v),
        Err(e) => Err(e.to_string()),
    }
}

/// `serde_json::Value::get`: the member of that name, where there is one; a
/// number by its `Display`, a truth value, an array or an object by its own.
#[verifier::external_body]
fn json_member(v: &serde_json::Value, name: &str) -> (r: Option<JsonMember>)
    ensures
        member_view(r) == member_named(json_members(*v), name@),
{
    match v.get(name) {
        None => None,
        Some(serde_json::Value::Null) => Some(JsonMember::Null),
        Some(serde_json::Value::String(s)) => Some(JsonMember::Text(s.clone())),
        Some(serde_json::Value::Number(n)) => Some(JsonMember::Number(n.to_string())),
        Some(other) => Some(JsonMember::Other(other.to_string())),
    }
}

// ---- what a body stands for ----

/// A body is its lines with a line feed between neighbours, and no line holds a
/// line feed.
pub proof fn law_lines_make_up_the_body(bytes: Seq<u8>)
    ensures
        lines_of(bytes).len() > 0,
        forall|i: int, j: int|
            0 <= i < lines_of(bytes).len() && 0 <= j < lines_of(bytes)[i].len() ==> #[trigger]
            lines_of(bytes)[i][j] != 10,
        fed(lines_of(bytes)) == bytes,
    decreases bytes.len(),
{
    if bytes.len() == 0 {
        let lines = lines_of(bytes);
        assert(lines.drop_last() =~= Seq::empty());
        assert(fed(lines) =~= bytes);
    } else {
        let front = bytes.drop_last();
        law_lines_make_up_the_body(front);
        let before = lines_of(front);
        let lines = lines_of(bytes);
        assert(bytes =~= front.push(bytes.last()));
        if bytes.last() == 10 {
            assert(lines.drop_last() =~= before);
            assert(fed(lines) =~= bytes);
        } else {
            assert(lines.drop_last() =~= before.drop_last());
            if before.len() == 1 {
                assert(fed(lines) =~= bytes);
            } else {
                assert(fed(lines) =~= fed(before).push(bytes.last()));
            }
            assert forall|i: int, j: int| 0 <= i < lines.len() && 0 <= j
                < lines[i].len() implies #[trigger] lines[i][j] != 10 by {
                if i < before.len() - 1 {
                    assert(lines[i] == before[i]);
                    assert(before[i][j] != 10);
                } else if j < before[i].len() {
                    assert(before[i][j] != 10);
                }
            }
        }
    }
}

/// Lines with a line feed between neighbours.
pub open spec fn fed(lines: Seq<Seq<u8>>) -> Seq<u8>
    decreases lines.len(),
{
    if lines.len() == 0 {
        Seq::empty()
    } else if lines.len() == 1 {
        lines[0]
    } else {
        fed(lines.drop_last()) + seq![10u8] + lines.last()
    }
}

/// The buckets of lines are those of the first lines and then those of the others,
/// so each line that is not blank has its bucket, in the order of the lines; and
/// where the first lines have none, neither have all of them, and for that reason.
pub proof fn law_buckets_come_line_by_line(
    first: Seq<Seq<u8>>,
    others: Seq<Seq<u8>>,
    line: Seq<u8>,
    dim_names: Seq<Seq<char>>,
)
    ensures
        match (line_buckets(first, dim_names), line_buckets(others, dim_names)) {
            (Ok(a), Ok(b)) => line_buckets(first + others, dim_names) == Ok::<
                Seq<BucketView>,
                Seq<char>,
            >(a + b),
            (Err(why), _) => line_buckets(first + others, dim_names) == Err::<
                Seq<BucketView>,
                Seq<char>,
            >(why),
            (Ok(_), Err(why)) => line_buckets(first + others, dim_names) == Err::<
                Seq<BucketView>,
                Seq<char>,
            >(why),
        },
        match line_bucket(line, dim_names) {
            Ok(Some(b)) => line_buckets(seq![line], dim_names) == Ok::<Seq<BucketView>, Seq<char>>(
                seq![b],
            ),
            Ok(None) => line_buckets(seq![line], dim_names) == Ok::<Seq<BucketView>, Seq<char>>(
                Seq::empty(),
            ),
            Err(why) => line_buckets(seq![line], dim_names) == Err::<Seq<BucketView>, Seq<char>>(
                why,
            ),
        },
    decreases others.len(),
{
    let one = seq![line];
    assert(one.drop_last() =~= Seq::empty());
    assert(line_buckets(one.drop_last(), dim_names) == Ok::<Seq<BucketView>, Seq<char>>(
        Seq::empty(),
    ));
    if let Ok(Some(b)) = line_bucket(line, dim_names) {
        assert(Seq::<BucketView>::empty().push(b) =~= seq![b]);
    }
    if others.len() == 0 {
        assert(first + others =~= first);
        if let Ok(a) = line_buckets(first, dim_names) {
            assert(a + Seq::<BucketView>::empty() =~= a);
        }
    } else {
        law_buckets_come_line_by_line(first, others.drop_last(), line, dim_names);
        let all = first + others;
        assert(all.drop_last() =~= first + others.drop_last());
        assert(all.last() == others.last());
        if let (Ok(a), Ok(front)) = (
            line_buckets(first, dim_names),
            line_buckets(others.drop_last(), dim_names),
        ) {
            if let Ok(Some(b)) = line_bucket(others.last(), dim_names) {
                assert((a + front).push(b) =~= a + front.push(b));
            }
        }
    }
}

/// A line stands for the bucket of its JSON object: the texts of the members that
/// are named for the dimensions, in the order of the names, empty where a member is
/// missing or no text; and the number of the member `agg`, which may be a text or a
/// number, and is none where it is missing or `null`. A blank line stands for
/// nothing.
pub proof fn law_line_is_its_object(line: Seq<u8>, dim_names: Seq<Seq<char>>)
    ensures
        !valid_utf8(line) ==> line_bucket(line, dim_names) == Err::<Option<BucketView>, Seq<char>>(
            "aggregate response read error: stream did not contain valid UTF-8"@,
        ),
        valid_utf8(line) && trimmed(decode_utf8(line)).len() == 0 ==> line_bucket(line, dim_names)
            == Ok::<Option<BucketView>, Seq<char>>(None),
        valid_utf8(line) && trimmed(decode_utf8(line)).len() > 0 ==> match json_parsed(
            trimmed(decode_utf8(line)),
        ) {
            Err(why) => line_bucket(line, dim_names) == Err::<Option<BucketView>, Seq<char>>(
                "aggregate JSON parse error: "@ + why,
            ),
            Ok(members) => {
                &&& line_bucket(line, dim_names) matches Ok(Some(b)) ==> b.key.len()
                    == dim_names.len() && forall|i: int|
                    #![trigger b.key[i]]
                    0 <= i < dim_names.len() ==> {
                        let name = dim_names[i];
                        &&& members.contains_key(name) ==> (members[name] matches
                            JsonMemberView::Text(s) ==> b.key[i] == s)
                        &&& !members.contains_key(name) || !(members[name] is Text)
                            ==> b.key[i].len() == 0
                    }
                &&& line_bucket(line, dim_names) != Ok::<Option<BucketView>, Seq<char>>(None)
                &&& !members.contains_key("agg"@) || members["agg"@] is Null ==> (line_bucket(
                    line,
                    dim_names,
                ) matches Ok(Some(b)) && b.value is None)
                &&& members.contains_key("agg"@) ==> (members["agg"@] matches
                    JsonMemberView::Text(s) ==> match big_decimal_parsed(s) {
                    Ok(parts) => line_bucket(line, dim_names) matches Ok(Some(b)) && b.value
                        == Some(parts),
                    Err(why) => line_bucket(line, dim_names) == Err::<
                        Option<BucketView>,
                        Seq<char>,
                    >("aggregate value parse error: "@ + why),
                })
                &&& members.contains_key("agg"@) ==> (members["agg"@] matches
                    JsonMemberView::Number(s) ==> match big_decimal_parsed(s) {
                    Ok(parts) => line_bucket(line, dim_names) matches Ok(Some(b)) && b.value
                        == Some(parts),
                    Err(why) => line_bucket(line, dim_names) == Err::<
                        Option<BucketView>,
                        Seq<char>,
                    >("aggregate value parse error: "@ + why),
                })
                &&& members.contains_key("agg"@) ==> (members["agg"@] matches
                    JsonMemberView::Other(s) ==> line_bucket(line, dim_names) == Err::<
                    Option<BucketView>,
                    Seq<char>,
                >("unexpected aggregate value type: "@ + s))
            },
        },
{
}

/// Trimming cuts white space off both ends of a text and nothing else: what is
/// left starts and ends with another character, or is empty.
pub proof fn law_trimming_cuts_white_space_alone(text: Seq<char>)
    ensures
        exists|from: int, to: int|
            0 <= from <= to <= text.len() && #[trigger] text.subrange(from, to) == trimmed(text) && (
            forall|i: int|
                0 <= i < from || to <= i < text.len() ==> is_white_space(#[trigger] text[i])) && (
            from < to ==> !is_white_space(text[from]) && !is_white_space(text[to - 1])),
{
    lemma_start_is_cut(text);
    let from = choose|from: int|
        0 <= from <= text.len() && #[trigger] text.skip(from) == trimmed_start(text) && (forall|
            i: int,
        |
            0 <= i < from ==> is_white_space(#[trigger] text[i])) && (from < text.len()
            ==> !is_white_space(text[from]));
    let rest = text.skip(from);
    lemma_end_is_cut(rest);
    let n = choose|n: int|
        0 <= n <= rest.len() && #[trigger] rest.take(n) == trimmed_end(rest) && (forall|i: int|
            n <= i < rest.len() ==> is_white_space(#[trigger] rest[i])) && (n > 0
            ==> !is_white_space(rest[n - 1]));
    let to = from + n;
    assert(text.subrange(from, to) =~= rest.take(n));
    assert forall|i: int| 0 <= i < from || to <= i < text.len() implies is_white_space(
        #[trigger] text[i],
    ) by {
        if to <= i {
            assert(rest[i - from] == text[i]);
        }
    }
    if from < to {
        assert(rest[n - 1] == text[to - 1]);
    }
}

proof fn lemma_start_is_cut(text: Seq<char>)
    ensures
        exists|from: int|
            0 <= from <= text.len() && #[trigger] text.skip(from) == trimmed_start(text) && (forall|
                i: int,
            |
                0 <= i < from ==> is_white_space(#[trigger] text[i])) && (from < text.len()
                ==> !is_white_space(text[from])),
    decreases text.len(),
{
    if text.len() > 0 && is_white_space(text[0]) {
        let rest = text.skip(1);
        lemma_start_is_cut(rest);
        let m = choose|from: int|
            0 <= from <= rest.len() && #[trigger] rest.skip(from) == trimmed_start(rest) && (forall|
                i: int,
            |
                0 <= i < from ==> is_white_space(#[trigger] rest[i])) && (from < rest.len()
                ==> !is_white_space(rest[from]));
        assert(text.skip(m + 1) =~= rest.skip(m));
        assert forall|i: int| 0 <= i < m + 1 implies is_white_space(#[trigger] text[i]) by {
            if i > 0 {
                assert(rest[i - 1] == text[i]);
            }
        }
        assert(text.skip(m + 1) == trimmed_start(text));
    } else {
        assert(text.skip(0) =~= text);
        assert(text.skip(0) == trimmed_start(text));
    }
}

proof fn lemma_end_is_cut(text: Seq<char>)
    ensures
        exists|n: int|
            0 <= n <= text.len() && #[trigger] text.take(n) == trimmed_end(text) && (forall|i: int|
                n <= i < text.len() ==> is_white_space(#[trigger] text[i])) && (n > 0
                ==> !is_white_space(text[n - 1])),
    decreases text.len(),
{
    if text.len() > 0 && is_white_space(text.last()) {
        let rest = text.drop_last();
        lemma_end_is_cut(rest);
        let m = choose|n: int|
            0 <= n <= rest.len() && #[trigger] rest.take(n) == trimmed_end(rest) && (forall|i: int|
                n <= i < rest.len() ==> is_white_space(#[trigger] rest[i])) && (n > 0
                ==> !is_white_space(rest[n - 1]));
        assert(text.take(m) =~= rest.take(m));
        assert forall|i: int| m <= i < text.len() implies is_white_space(#[trigger] text[i]) by {
            if i < rest.len() {
                assert(rest[i] == text[i]);
            }
        }
        assert(text.take(m) == trimmed_end(text));
    } else {
        assert(text.take(text.len() as int) =~= text);
        assert(text.take(text.len() as int) == trimmed_end(text));
    }
}

/// White space is what Unicode says it is: the tabs, breaks and spaces, narrow and
/// wide.
pub proof fn law_white_space_is_that_of_unicode(c: char)
    ensures
        is_white_space(c) <==> (c == '\t' || c == '\n' || c == '\u{b}' || c == '\u{c}' || c == '\r'
            || c == ' ' || c == '\u{85}' || c == '\u{a0}' || c == '\u{1680}' || '\u{2000}' as u32
            <= c as u32 <= '\u{200a}' as u32 || c == '\u{2028}' || c == '\u{2029}' || c
            == '\u{202f}' || c == '\u{205f}' || c == '\u{3000}'),
{
}

/// Each bucket is seen as it is, in its place.
pub proof fn law_buckets_are_seen_one_by_one(buckets: Seq<AggregationBucket>, i: int)
    requires
        0 <= i < buckets.len(),
    ensures
        bucket_views(buckets).len() == buckets.len(),
        bucket_views(buckets)[i] == buckets[i]@,
{
}

} // verus!
