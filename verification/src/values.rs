//! Identifiers, decimals, instants and aggregate numbers.
//!
//! [`Uuid`], [`Decimal`] and [`OffsetDateTime`] hold the numbers that the
//! crates `uuid`, `rust_decimal` and `time` hold. Spelling, parsing, rescaling
//! and range checks are done by those crates, through the trusted functions at
//! the end of this file.
use crate::sql::{value_datum, DatumView};
use crate::text::decimal_text;
use vstd::arithmetic::power::{lemma_pow_positive, pow};
use vstd::prelude::*;

verus! {

/// A 128-bit identifier.
#[derive(Debug, Clone, Copy, PartialEq, Eq, Structural, Hash)]
pub struct Uuid {
    /// The identifier as one big-endian number.
    pub bits: u128,
}

/// The hexadecimal digit `d`, in lower case, for `0 <= d <= 15`.
pub open spec fn hex_char(d: int) -> char {
    if d < 10 {
        ('0' as int + d) as char
    } else {
        ('a' as int + (d - 10)) as char
    }
}

/// Whether position `i` of a hyphenated identifier is a hyphen.
pub open spec fn is_hyphen_position(i: int) -> bool {
    i == 8 || i == 13 || i == 18 || i == 23
}

/// How many hexadecimal digits precede position `i` of a hyphenated identifier.
pub open spec fn digits_before(i: int) -> int {
    if i <= 8 {
        i
    } else if i <= 13 {
        i - 1
    } else if i <= 18 {
        i - 2
    } else if i <= 23 {
        i - 3
    } else {
        i - 4
    }
}

/// The hyphenated lower-case spelling of an identifier: groups of 8, 4, 4, 4
/// and 12 hexadecimal digits, most significant first.
pub open spec fn uuid_text(bits: u128) -> Seq<char> {
    Seq::new(
        36,
        |i: int|
            if is_hyphen_position(i) {
                '-'
            } else {
                hex_char((bits as int / pow(16, (31 - digits_before(i)) as nat)) % 16)
            },
    )
}

impl Uuid {
    /// The identifier with the given number.
    pub fn from_u128(bits: u128) -> (u: Uuid)
        ensures
            u.bits == bits,
    {
        Uuid { bits }
    }

    /// The identifier whose upper and lower halves are given.
    pub fn from_u64_pair(high: u64, low: u64) -> (u: Uuid)
        ensures
            u.bits == high * 0x1_0000_0000_0000_0000 + low,
    {
        let h = high as u128;
        let l = low as u128;
        assert(h <= 0xffff_ffff_ffff_ffff && l <= 0xffff_ffff_ffff_ffff ==> (h << 64) | l == h
            * 0x1_0000_0000_0000_0000 + l) by (bit_vector);
        Uuid { bits: (h << 64) | l }
    }

    /// The upper and lower halves of the identifier.
    pub fn as_u64_pair(&self) -> (r: (u64, u64))
        ensures
            r.0 == self.bits / 0x1_0000_0000_0000_0000,
            r.1 == self.bits % 0x1_0000_0000_0000_0000,
    {
        let b = self.bits;
        let high = b >> 64;
        let low = b & 0xffff_ffff_ffff_ffff;
        assert(high == b / 0x1_0000_0000_0000_0000 && high <= 0xffff_ffff_ffff_ffff && low == b
            % 0x1_0000_0000_0000_0000 && low <= 0xffff_ffff_ffff_ffff) by (bit_vector)
            requires
                high == b >> 64,
                low == b & 0xffff_ffff_ffff_ffff,
        ;
        (high as u64, low as u64)
    }

    /// The hyphenated spelling.
    pub fn to_string(&self) -> (s: String)
        ensures
            s@ == uuid_text(self.bits),
    {
        uuid_display(self.bits)
    }

    /// Parses any of the usual spellings; the error is the parser's message.
    pub fn parse_str(raw: &str) -> (r: Result<Uuid, String>)
        ensures
            match uuid_parsed(raw@) {
                Ok(bits) => r matches Ok(u) && u.bits == bits,
                Err(why) => r matches Err(e) && e@ == why,
            },
            forall|bits: u128|
                #[trigger] uuid_text(bits) == raw@ ==> (r matches Ok(u) && u.bits == bits),
    {
        match uuid_parse(raw) {
            Ok(bits) => Ok(Uuid { bits }),
            Err(e) => Err(e),
        }
    }
}

/// Splitting an identifier into halves and joining them gives it back.
pub proof fn law_uuid_pair_round_trips(bits: u128)
    ensures
        (bits as int / 0x1_0000_0000_0000_0000) * 0x1_0000_0000_0000_0000 + bits as int
            % 0x1_0000_0000_0000_0000 == bits,
{
}

/// One more than the largest magnitude of a [`Decimal`].
pub const DECIMAL_MAGNITUDE_LIMIT: u128 = 0x1_0000_0000_0000_0000_0000_0000;

/// The largest scale of a [`Decimal`].
pub const DECIMAL_MAX_SCALE: u32 = 28;

/// A decimal number: a sign, a magnitude of at most 96 bits and a count of
/// fractional digits.
#[derive(Debug, Clone, Copy)]
pub struct Decimal {
    negative: bool,
    magnitude: u128,
    scale: u32,
}

/// What a [`Decimal`] holds.
pub struct DecimalView {
    pub negative: bool,
    pub magnitude: nat,
    pub scale: nat,
}

impl DecimalView {
    /// Whether the fields fit a decimal.
    pub open spec fn wf(self) -> bool {
        self.magnitude < DECIMAL_MAGNITUDE_LIMIT && self.scale <= DECIMAL_MAX_SCALE
    }

    /// The signed magnitude.
    pub open spec fn mantissa(self) -> int {
        if self.negative {
            -(self.magnitude as int)
        } else {
            self.magnitude as int
        }
    }

    /// Whether two decimals are the same number.
    pub open spec fn same_number(self, other: DecimalView) -> bool {
        self.mantissa() * pow(10, other.scale) == other.mantissa() * pow(10, self.scale)
    }
}

/// The view of an optional decimal.
pub open spec fn decimal_view(d: Option<Decimal>) -> Option<DecimalView> {
    match d {
        Some(x) => Some(x@),
        None => None,
    }
}

/// The spelling of a decimal: a sign, the whole part, and after a point as
/// many fractional digits as the scale says.
pub open spec fn decimal_spelling(d: DecimalView) -> Seq<char> {
    let sign = if d.negative {
        seq!['-']
    } else {
        Seq::empty()
    };
    let whole = decimal_text((d.magnitude as int / pow(10, d.scale)) as nat);
    let fraction = Seq::new(
        d.scale,
        |i: int|
            ('0' as int + (d.magnitude as int / pow(10, (d.scale - 1 - i) as nat)) % 10) as char,
    );
    if d.scale == 0 {
        sign + whole
    } else {
        sign + whole + seq!['.'] + fraction
    }
}

/// The magnitude after cutting the fractional digits from `scale` to `target`:
/// the surplus is rounded half away from zero.
pub open spec fn rounded_magnitude(magnitude: nat, scale: nat, target: nat) -> nat
    recommends
        target < scale,
{
    ((magnitude + 5 * pow(10, (scale - target - 1) as nat)) / pow(
        10,
        (scale - target) as nat,
    )) as nat
}

impl View for Decimal {
    type V = DecimalView;

    closed spec fn view(&self) -> DecimalView {
        DecimalView {
            negative: self.negative,
            magnitude: self.magnitude as nat,
            scale: self.scale as nat,
        }
    }
}

impl Decimal {
    #[verifier::type_invariant]
    spec fn fits(self) -> bool {
        self.magnitude < DECIMAL_MAGNITUDE_LIMIT && self.scale <= DECIMAL_MAX_SCALE
    }

    /// The decimal `num / 10^scale`.
    pub fn new(num: i64, scale: u32) -> (d: Decimal)
        requires
            scale <= DECIMAL_MAX_SCALE,
        ensures
            d@.mantissa() == num,
            d@.negative == (num < 0),
            d@.scale == scale,
    {
        let magnitude: u128 = if num >= 0 {
            num as u128
        } else if num == i64::MIN {
            0x8000_0000_0000_0000
        } else {
            (-num) as u128
        };
        Decimal { negative: num < 0, magnitude, scale }
    }

    /// The signed magnitude.
    pub fn mantissa(&self) -> (m: i128)
        ensures
            m == self@.mantissa(),
            self@.wf(),
    {
        proof {
            use_type_invariant(self);
        }
        if self.negative {
            -(self.magnitude as i128)
        } else {
            self.magnitude as i128
        }
    }

    /// The count of fractional digits.
    pub fn scale(&self) -> (s: u32)
        ensures
            s == self@.scale,
    {
        self.scale
    }

    /// The plain spelling.
    pub fn to_string(&self) -> (s: String)
        ensures
            s@ == decimal_spelling(self@),
    {
        proof {
            use_type_invariant(self);
        }
        decimal_display(*self)
    }

    /// Parses a spelling; the error is the parser's message.
    pub fn parse(raw: &str) -> (r: Result<Decimal, String>)
        ensures
            match decimal_parsed(raw@) {
                Ok(v) => r matches Ok(d) && d@ == v,
                Err(why) => r matches Err(e) && e@ == why,
            },
            decimal_spelling_read_back(raw@, r),
    {
        decimal_parse(raw)
    }

    /// The mantissa after rounding to fewer fractional digits.
    pub fn rounded_mantissa(&self, target: u32) -> (m: i128)
        requires
            target < self@.scale,
        ensures
            m == (if self@.negative {
                -(rounded_magnitude(self@.magnitude, self@.scale, target as nat) as int)
            } else {
                rounded_magnitude(self@.magnitude, self@.scale, target as nat) as int
            }),
    {
        decimal_rescaled_mantissa(*self, target)
    }

    /// Builds a decimal from the three 32-bit limbs of its magnitude. Zero has
    /// no sign.
    pub fn from_parts(lo: u32, mid: u32, hi: u32, negative: bool, scale: u32) -> (d: Decimal)
        requires
            scale <= DECIMAL_MAX_SCALE,
        ensures
            d@.magnitude == lo + mid * 0x1_0000_0000 + hi * 0x1_0000_0000_0000_0000,
            d@.negative == (negative && d@.magnitude != 0),
            d@.scale == scale,
    {
        decimal_from_parts(lo, mid, hi, negative, scale)
    }
}

impl vstd::std_specs::cmp::PartialEqSpecImpl for Decimal {
    open spec fn obeys_eq_spec() -> bool {
        true
    }

    open spec fn eq_spec(&self, other: &Decimal) -> bool {
        self@.same_number(other@)
    }
}

impl PartialEq for Decimal {
    fn eq(&self, other: &Decimal) -> (r: bool) {
        decimal_same_number(*self, *other)
    }
}

/// The earliest instant, in nanoseconds since the Unix epoch: the start of the
/// year -9999.
pub const MIN_UNIX_NANOS: i128 = -377_705_116_800_000_000_000;

/// The latest instant: the end of the year 9999.
pub const MAX_UNIX_NANOS: i128 = 253_402_300_799_999_999_999;

/// The start of the year 0.
pub const YEAR_ZERO_UNIX_NANOS: i128 = -62_167_219_200_000_000_000;

/// An instant, to the nanosecond.
#[derive(Debug, Clone, Copy, PartialEq, Eq, Structural)]
pub struct OffsetDateTime {
    nanos: i128,
}

/// Whether a count of nanoseconds since the Unix epoch is an instant.
pub open spec fn in_instant_range(nanos: int) -> bool {
    MIN_UNIX_NANOS <= nanos <= MAX_UNIX_NANOS
}

impl View for OffsetDateTime {
    type V = int;

    closed spec fn view(&self) -> int {
        self.nanos as int
    }
}

impl OffsetDateTime {
    #[verifier::type_invariant]
    spec fn in_range(self) -> bool {
        in_instant_range(self.nanos as int)
    }

    /// The instant that many nanoseconds after the Unix epoch; the error is the
    /// range check's message.
    pub fn from_unix_timestamp_nanos(nanos: i128) -> (r: Result<OffsetDateTime, String>)
        ensures
            r is Ok <==> in_instant_range(nanos as int),
            r matches Ok(t) ==> t@ == nanos,
            r matches Err(e) ==> e@ == "timestamp was not in range"@,
    {
        match checked_instant(nanos) {
            Ok(n) => Ok(OffsetDateTime { nanos: n }),
            Err(e) => Err(e),
        }
    }

    /// Nanoseconds since the Unix epoch.
    pub fn unix_timestamp_nanos(&self) -> (n: i128)
        ensures
            n == self@,
            in_instant_range(n as int),
    {
        proof {
            use_type_invariant(self);
        }
        self.nanos
    }

    /// The current instant.
    pub fn now_utc() -> (t: OffsetDateTime)
        ensures
            in_instant_range(t@),
    {
        OffsetDateTime { nanos: now_nanos() }
    }

    /// The RFC 3339 spelling in UTC; years before the year 0 have none.
    pub fn format_rfc3339(&self) -> (r: Option<String>)
        ensures
            crate::text::optional_text(r) == rfc3339_spelling(self@),
            r is Some <==> self@ >= YEAR_ZERO_UNIX_NANOS,
    {
        proof {
            use_type_invariant(self);
        }
        rfc3339_format(self.nanos)
    }
}

/// Floor division by one thousand.
pub fn nanos_to_micros(nanos: i128) -> (m: i128)
    ensures
        m == nanos as int / 1000,
{
    match nanos.checked_div_euclid(1000) {
        Some(m) => m,
        None => 0,
    }
}

// ---- trusted: the crate `uuid` ----

/// What `uuid::Uuid::from_str` makes of a text: the number, or the message of
/// its error.
pub uninterp spec fn uuid_parsed(raw: Seq<char>) -> Result<u128, Seq<char>>;

/// Where `raw` is the hyphenated spelling of an identifier, `r` is that
/// identifier.
pub open spec fn uuid_spelling_read_back(raw: Seq<char>, r: Result<u128, String>) -> bool {
    forall|bits: u128| #[trigger] uuid_text(bits) == raw ==> (r matches Ok(b) && b == bits)
}

/// `uuid::Uuid`'s `Display`: the hyphenated lower-case spelling.
#[verifier::external_body]
fn uuid_display(bits: u128) -> (s: String)
    ensures
        s@ == uuid_text(bits),
{
    uuid::Uuid::from_u128(bits).to_string()
}

/// `uuid::Uuid::from_str`: its outcome depends on the text alone, and the
/// hyphenated spelling of an identifier is read as that identifier.
#[verifier::external_body]
fn uuid_parse(raw: &str) -> (r: Result<u128, String>)
    ensures
        match uuid_parsed(raw@) {
            Ok(bits) => r matches Ok(b) && b == bits,
            Err(why) => r matches Err(e) && e@ == why,
        },
        uuid_spelling_read_back(raw@, r),
{
    match raw.parse::<uuid::Uuid>() {
        Ok(u) => Ok(u.as_u128()),
        Err(e) => Err(e.to_string()),
    }
}

// ---- trusted: the crate `rust_decimal` ----

/// What `rust_decimal::Decimal::from_str` makes of a text: the decimal, or the
/// message of its error.
pub uninterp spec fn decimal_parsed(raw: Seq<char>) -> Result<DecimalView, Seq<char>>;

/// The decimal variant of `sea_query::Value`, whose number is a
/// `rust_decimal::Decimal`, by sign, magnitude and scale.
#[verifier::external_body]
pub(crate) fn decimal_datum(v: &sea_query::Value) -> (r: Option<Option<Decimal>>)
    ensures
        r is Some <==> value_datum(*v) is Decimal,
        r matches Some(d) ==> value_datum(*v) == DatumView::Decimal(decimal_view(d)),
{
    match v {
        sea_query::Value::Decimal(d) => Some(d.map(|x| Decimal {
            negative: x.is_sign_negative(),
            magnitude: x.mantissa().unsigned_abs(),
            scale: x.scale(),
        })),
        _ => None,
    }
}

/// `rust_decimal::Decimal`'s `Display`: the plain spelling with the sign of
/// the number and exactly `scale` fractional digits.
#[verifier::external_body]
fn decimal_display(d: Decimal) -> (s: String)
    ensures
        s@ == decimal_spelling(d@),
{
    let mut outside = rust_decimal::Decimal::from_i128_with_scale(d.magnitude as i128, d.scale);
    outside.set_sign_negative(d.negative);
    outside.to_string()
}

/// Where `raw` is the spelling of a decimal, `r` is the same number.
pub open spec fn decimal_spelling_read_back(raw: Seq<char>, r: Result<Decimal, String>) -> bool {
    forall|v: DecimalView|
        v.wf() && #[trigger] decimal_spelling(v) == raw ==> (r matches Ok(d) && d@.same_number(v))
}

/// `rust_decimal::Decimal::from_str`: its outcome depends on the text alone,
/// and the spelling of a decimal is read as the same number.
#[verifier::external_body]
fn decimal_parse(raw: &str) -> (r: Result<Decimal, String>)
    ensures
        match decimal_parsed(raw@) {
            Ok(v) => r matches Ok(d) && d@ == v,
            Err(why) => r matches Err(e) && e@ == why,
        },
        decimal_spelling_read_back(raw@, r),
{
    match raw.parse::<rust_decimal::Decimal>() {
        Ok(d) => Ok(Decimal {
            negative: d.is_sign_negative(),
            magnitude: d.mantissa().unsigned_abs(),
            scale: d.scale(),
        }),
        Err(e) => Err(e.to_string()),
    }
}

/// `rust_decimal::Decimal`'s `==`: equality of the numbers, whatever their
/// scales, with both zeros equal.
#[verifier::external_body]
fn decimal_same_number(a: Decimal, b: Decimal) -> (r: bool)
    ensures
        r == a@.same_number(b@),
{
    let mut x = rust_decimal::Decimal::from_i128_with_scale(a.magnitude as i128, a.scale);
    x.set_sign_negative(a.negative);
    let mut y = rust_decimal::Decimal::from_i128_with_scale(b.magnitude as i128, b.scale);
    y.set_sign_negative(b.negative);
    x == y
}

/// `rust_decimal::Decimal::rescale` to fewer fractional digits, then
/// `mantissa`: the surplus digits are rounded half away from zero, and the sign
/// stays.
#[verifier::external_body]
fn decimal_rescaled_mantissa(d: Decimal, target: u32) -> (m: i128)
    requires
        target < d@.scale,
    ensures
        m == (if d@.negative {
            -(rounded_magnitude(d@.magnitude, d@.scale, target as nat) as int)
        } else {
            rounded_magnitude(d@.magnitude, d@.scale, target as nat) as int
        }),
{
    let mut outside = rust_decimal::Decimal::from_i128_with_scale(d.magnitude as i128, d.scale);
    outside.set_sign_negative(d.negative);
    outside.rescale(target);
    outside.mantissa()
}

/// `rust_decimal::Decimal::from_parts`: the limbs are the magnitude, low to
/// high; a zero magnitude drops the sign.
#[verifier::external_body]
fn decimal_from_parts(lo: u32, mid: u32, hi: u32, negative: bool, scale: u32) -> (d: Decimal)
    requires
        scale <= DECIMAL_MAX_SCALE,
    ensures
        d@.magnitude == lo + mid * 0x1_0000_0000 + hi * 0x1_0000_0000_0000_0000,
        d@.negative == (negative && d@.magnitude != 0),
        d@.scale == scale,
{
    let d = rust_decimal::Decimal::from_parts(lo, mid, hi, negative, scale);
    Decimal {
        negative: d.is_sign_negative(),
        magnitude: d.mantissa().unsigned_abs(),
        scale: d.scale(),
    }
}

// ---- trusted: the crate `time` ----

/// The RFC 3339 spelling, in UTC, of an instant in nanoseconds, where
/// `time::OffsetDateTime::format` gives one.
pub uninterp spec fn rfc3339_spelling(nanos: int) -> Option<Seq<char>>;

/// What `time::OffsetDateTime::parse` makes of an RFC 3339 text: the instant
/// in nanoseconds, or the message of its error.
pub uninterp spec fn rfc3339_parsed(raw: Seq<char>) -> Result<int, Seq<char>>;

/// Where `raw` is the spelling of an instant, `r` is that instant.
pub open spec fn instant_spelling_read_back(raw: Seq<char>, r: Result<i128, String>) -> bool {
    forall|nanos: int| #[trigger]
        rfc3339_spelling(nanos) == Some(raw) && in_instant_range(nanos) ==> (r matches Ok(n) && n
            == nanos)
}

/// `time::OffsetDateTime::from_unix_timestamp_nanos`: succeeds from the start
/// of the year -9999 to the end of the year 9999 and keeps the count.
#[verifier::external_body]
fn checked_instant(nanos: i128) -> (r: Result<i128, String>)
    ensures
        r is Ok <==> in_instant_range(nanos as int),
        r matches Ok(n) ==> n == nanos,
        r matches Err(e) ==> e@ == "timestamp was not in range"@,
{
    match time::OffsetDateTime::from_unix_timestamp_nanos(nanos) {
        Ok(t) => Ok(t.unix_timestamp_nanos()),
        Err(e) => Err(e.to_string()),
    }
}

/// `time::OffsetDateTime::format` with `Rfc3339`, of the instant in UTC: its
/// outcome depends on the instant alone, and only years before the year 0 have
/// no spelling.
#[verifier::external_body]
fn rfc3339_format(nanos: i128) -> (r: Option<String>)
    requires
        in_instant_range(nanos as int),
    ensures
        crate::text::optional_text(r) == rfc3339_spelling(nanos as int),
        r is Some <==> nanos >= YEAR_ZERO_UNIX_NANOS,
{
    let t = time::OffsetDateTime::from_unix_timestamp_nanos(nanos).ok()?;
    t.format(&time::format_description::well_known::Rfc3339).ok()
}

/// `time::OffsetDateTime::parse` with `Rfc3339`, as nanoseconds since the Unix
/// epoch: its outcome depends on the text alone, and the spelling of an
/// instant is read as that instant.
#[verifier::external_body]
pub(crate) fn rfc3339_parse(raw: &str) -> (r: Result<i128, String>)
    ensures
        match rfc3339_parsed(raw@) {
            Ok(nanos) => r matches Ok(n) && n == nanos,
            Err(why) => r matches Err(e) && e@ == why,
        },
        instant_spelling_read_back(raw@, r),
{
    match time::OffsetDateTime::parse(raw, &time::format_description::well_known::Rfc3339) {
        Ok(t) => Ok(t.unix_timestamp_nanos()),
        Err(e) => Err(e.to_string()),
    }
}

/// `time::OffsetDateTime::now_utc`, in nanoseconds since the Unix epoch. Only
/// that it is an instant is claimed.
#[verifier::external_body]
fn now_nanos() -> (n: i128)
    ensures
        in_instant_range(n as int),
{
    time::OffsetDateTime::now_utc().unix_timestamp_nanos()
}

// ---- trusted: the crate `bigdecimal` ----

/// An arbitrary-precision decimal.
#[verifier::external_type_specification]
#[verifier::external_body]
pub struct ExBigDecimal(bigdecimal::BigDecimal);

/// The digits of an arbitrary-precision decimal, as one signed number, and the
/// count of them that is fractional.
pub uninterp spec fn big_decimal_parts(n: bigdecimal::BigDecimal) -> (int, int);

/// What `bigdecimal::BigDecimal::from_str` makes of a text: digits and
/// fractional count, or the message of its error.
pub uninterp spec fn big_decimal_parsed(raw: Seq<char>) -> Result<(int, int), Seq<char>>;

/// `bigdecimal::BigDecimal`'s `Display`, of digits and fractional count.
pub uninterp spec fn big_decimal_spelling(parts: (int, int)) -> Seq<char>;

/// `bigdecimal::BigDecimal::from_str`: its outcome depends on the text alone.
#[verifier::external_body]
pub(crate) fn big_decimal_parse(raw: &str) -> (r: Result<bigdecimal::BigDecimal, String>)
    ensures
        match big_decimal_parsed(raw@) {
            Ok(parts) => r matches Ok(n) && big_decimal_parts(n) == parts,
            Err(why) => r matches Err(e) && e@ == why,
        },
{
    match raw.parse::<bigdecimal::BigDecimal>() {
        Ok(n) => Ok(n),
        Err(e) => Err(e.to_string()),
    }
}

/// `bigdecimal::BigDecimal`'s `Display`: its outcome depends on the digits and
/// the fractional count alone.
#[verifier::external_body]
pub(crate) fn big_decimal_display(n: &bigdecimal::BigDecimal) -> (s: String)
    ensures
        s@ == big_decimal_spelling(big_decimal_parts(*n)),
{
    n.to_string()
}

/// An identifier is spelled in thirty-two hexadecimal digits of lower case, most
/// significant first, in groups that hyphens part.
pub proof fn law_identifier_is_spelled_in_groups(bits: u128, i: int, d: int)
    requires
        0 <= i < 36,
        0 <= d < 16,
    ensures
        uuid_text(bits).len() == 36,
        i == 8 || i == 13 || i == 18 || i == 23 ==> uuid_text(bits)[i] == '-',
        ({
            let place = if i < 8 {
                31 - i
            } else if 8 < i < 13 {
                32 - i
            } else if 13 < i < 18 {
                33 - i
            } else if 18 < i < 23 {
                34 - i
            } else {
                35 - i
            };
            i != 8 && i != 13 && i != 18 && i != 23 && (bits as int / pow(16, place as nat)) % 16
                == d ==> uuid_text(bits)[i] == "0123456789abcdef"@[d]
        }),
{
    reveal_strlit("0123456789abcdef");
}

/// Cutting fractional digits takes the nearest number: never further away than
/// half a unit of the last digit that stays, and away from zero where two are as
/// near.
pub proof fn law_surplus_digits_are_rounded_half_away_from_zero(
    magnitude: nat,
    scale: nat,
    target: nat,
)
    requires
        target < scale,
    ensures
        ({
            let unit = pow(10, (scale - target) as nat);
            let cut = rounded_magnitude(magnitude, scale, target) as int * unit;
            &&& 2 * (cut - magnitude) <= unit
            &&& 2 * (magnitude - cut) < unit
        }),
{
    let unit = pow(10, (scale - target) as nat);
    let half = 5 * pow(10, (scale - target - 1) as nat);
    lemma_pow_positive(10, (scale - target) as nat);
    lemma_pow_positive(10, (scale - target - 1) as nat);
    assert(unit == 2 * half) by {
        reveal_with_fuel(pow, 2);
    }
    let sum = magnitude as int + half;
    let q = sum / unit;
    assert(q >= 0 && q * unit <= sum < q * unit + unit) by (nonlinear_arith)
        requires
            q == sum / unit,
            unit > 0,
            sum >= 0,
    ;
}

} // verus!
