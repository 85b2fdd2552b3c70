//! Rows of the tables `usage_records` and `usage_type_catalog`, and the forms
//! that their columns take on the wire.
//!
//! A `UUID` travels as two 64-bit halves, a `Decimal128(9)` as the number
//! times 10^9, an `Enum8` as its discriminant. In human-readable formats the
//! first two travel as text.
use crate::maps::StringMap;
use crate::text::optional_text;
use crate::values::{
    decimal_parsed, decimal_spelling, law_surplus_digits_are_rounded_half_away_from_zero,
    rounded_magnitude, uuid_parsed, uuid_text, Decimal, DECIMAL_MAGNITUDE_LIMIT, DecimalView, Uuid,
};
use vstd::arithmetic::power::{lemma_pow_adds, lemma_pow_positive, pow};
use vstd::prelude::*;

verus! {

/// The `status` column: `Enum8('active' = 1, 'inactive' = 2)`.
#[derive(Debug, Clone, Copy, PartialEq, Eq, Structural)]
pub enum UsageRecordStatusCode {
    Active,
    Inactive,
}

impl UsageRecordStatusCode {
    /// The discriminant of the column's `Enum8`.
    pub open spec fn spec_discriminant(self) -> i8 {
        match self {
            UsageRecordStatusCode::Active => 1,
            UsageRecordStatusCode::Inactive => 2,
        }
    }

    /// The discriminant of the column's `Enum8`.
    pub fn discriminant(self) -> (d: i8)
        ensures
            d == self.spec_discriminant(),
    {
        match self {
            UsageRecordStatusCode::Active => 1,
            UsageRecordStatusCode::Inactive => 2,
        }
    }

    /// The status with the given discriminant.
    pub fn from_discriminant(d: i8) -> (r: Option<UsageRecordStatusCode>)
        ensures
            r matches Some(c) ==> c.spec_discriminant() == d,
            r is None <==> d != 1 && d != 2,
    {
        if d == 1 {
            Some(UsageRecordStatusCode::Active)
        } else if d == 2 {
            Some(UsageRecordStatusCode::Inactive)
        } else {
            None
        }
    }
}

/// The `kind` column: `Enum8('counter' = 1, 'gauge' = 2)`.
#[derive(Debug, Clone, Copy, PartialEq, Eq, Structural)]
pub enum UsageTypeKindCode {
    Counter,
    Gauge,
}

impl UsageTypeKindCode {
    /// The discriminant of the column's `Enum8`.
    pub open spec fn spec_discriminant(self) -> i8 {
        match self {
            UsageTypeKindCode::Counter => 1,
            UsageTypeKindCode::Gauge => 2,
        }
    }

    /// The discriminant of the column's `Enum8`.
    pub fn discriminant(self) -> (d: i8)
        ensures
            d == self.spec_discriminant(),
    {
        match self {
            UsageTypeKindCode::Counter => 1,
            UsageTypeKindCode::Gauge => 2,
        }
    }

    /// The kind with the given discriminant.
    pub fn from_discriminant(d: i8) -> (r: Option<UsageTypeKindCode>)
        ensures
            r matches Some(c) ==> c.spec_discriminant() == d,
            r is None <==> d != 1 && d != 2,
    {
        if d == 1 {
            Some(UsageTypeKindCode::Counter)
        } else if d == 2 {
            Some(UsageTypeKindCode::Gauge)
        } else {
            None
        }
    }
}

/// One row of `usage_records`.
#[derive(Debug)]
pub struct UsageRecordRow {
    /// Deterministic record id.
    pub id: Uuid,
    /// Owning tenant.
    pub tenant_id: Uuid,
    /// Usage-type identifier.
    pub gts_id: String,
    /// Signed measurement.
    pub value: Decimal,
    /// Event time, in microseconds since the epoch.
    pub created_at: i64,
    /// Resource attribution.
    pub resource_id: String,
    /// Resource type.
    pub resource_type: String,
    /// Subject attribution.
    pub subject_id: Option<String>,
    /// Subject type.
    pub subject_type: Option<String>,
    /// Caller-supplied deduplication key.
    pub idempotency_key: String,
    /// The row that this one compensates.
    pub corrects_id: Option<Uuid>,
    /// Whether the row counts.
    pub status: UsageRecordStatusCode,
    /// Caller metadata.
    pub metadata: StringMap,
    /// Insert time, in microseconds since the epoch.
    pub ingested_at: i64,
    /// Merge version; the highest wins.
    pub version: u64,
}

/// What a [`UsageRecordRow`] holds.
#[verifier::ext_equal]
pub struct RowView {
    pub id: Uuid,
    pub tenant_id: Uuid,
    pub gts_id: Seq<char>,
    pub value: DecimalView,
    pub created_at: i64,
    pub resource_id: Seq<char>,
    pub resource_type: Seq<char>,
    pub subject_id: Option<Seq<char>>,
    pub subject_type: Option<Seq<char>>,
    pub idempotency_key: Seq<char>,
    pub corrects_id: Option<Uuid>,
    pub status: UsageRecordStatusCode,
    pub metadata: Map<Seq<char>, Seq<char>>,
    pub ingested_at: i64,
    pub version: u64,
}

impl View for UsageRecordRow {
    type V = RowView;

    open spec fn view(&self) -> RowView {
        RowView {
            id: self.id,
            tenant_id: self.tenant_id,
            gts_id: self.gts_id@,
            value: self.value@,
            created_at: self.created_at,
            resource_id: self.resource_id@,
            resource_type: self.resource_type@,
            subject_id: optional_text(self.subject_id),
            subject_type: optional_text(self.subject_type),
            idempotency_key: self.idempotency_key@,
            corrects_id: self.corrects_id,
            status: self.status,
            metadata: self.metadata@,
            ingested_at: self.ingested_at,
            version: self.version,
        }
    }
}

/// The views of a sequence of rows.
pub open spec fn row_views(rows: Seq<UsageRecordRow>) -> Seq<RowView> {
    rows.map_values(|r: UsageRecordRow| r@)
}

fn clone_optional(s: &Option<String>) -> (r: Option<String>)
    ensures
        optional_text(r) == optional_text(*s),
{
    match s {
        Some(t) => Some(t.clone()),
        None => None,
    }
}

impl Clone for UsageRecordRow {
    fn clone(&self) -> (r: UsageRecordRow)
        ensures
            r@ == self@,
    {
        UsageRecordRow {
            id: self.id,
            tenant_id: self.tenant_id,
            gts_id: self.gts_id.clone(),
            value: self.value,
            created_at: self.created_at,
            resource_id: self.resource_id.clone(),
            resource_type: self.resource_type.clone(),
            subject_id: clone_optional(&self.subject_id),
            subject_type: clone_optional(&self.subject_type),
            idempotency_key: self.idempotency_key.clone(),
            corrects_id: self.corrects_id,
            status: self.status,
            metadata: self.metadata.clone(),
            ingested_at: self.ingested_at,
            version: self.version,
        }
    }
}

/// One row of `usage_type_catalog`.
#[derive(Debug)]
pub struct UsageTypeRow {
    /// Catalog key.
    pub gts_id: String,
    /// Kind of the usage type.
    pub kind: UsageTypeKindCode,
    /// Declared metadata keys.
    pub metadata_fields: Vec<String>,
    /// Merge version; the highest wins.
    pub version: u64,
}

/// A `UUID` on the wire.
#[derive(Debug)]
pub enum UuidWire {
    Text(String),
    Halves(u64, u64),
}

/// The wire form of an identifier.
pub open spec fn is_uuid_wire(w: UuidWire, u: Uuid, human_readable: bool) -> bool {
    match w {
        UuidWire::Text(t) => human_readable && t@ == uuid_text(u.bits),
        UuidWire::Halves(h, l) => !human_readable && h == u.bits / 0x1_0000_0000_0000_0000 && l
            == u.bits % 0x1_0000_0000_0000_0000,
    }
}

/// Puts an identifier on the wire.
pub fn uuid_to_wire(u: &Uuid, human_readable: bool) -> (w: UuidWire)
    ensures
        is_uuid_wire(w, *u, human_readable),
{
    if human_readable {
        UuidWire::Text(u.to_string())
    } else {
        let (high, low) = u.as_u64_pair();
        UuidWire::Halves(high, low)
    }
}

/// Reads an identifier off the wire. What [`uuid_to_wire`] wrote of an
/// identifier is read as that identifier.
pub fn uuid_from_wire(w: &UuidWire) -> (r: Result<Uuid, String>)
    ensures
        w matches UuidWire::Halves(h, l) ==> (r matches Ok(u) && u.bits == *h
            * 0x1_0000_0000_0000_0000 + *l),
        w matches UuidWire::Text(t) ==> match uuid_parsed(t@) {
            Ok(bits) => r matches Ok(u) && u.bits == bits,
            Err(why) => r matches Err(e) && e@ == why,
        },
        forall|u: Uuid, human_readable: bool| #[trigger]
            is_uuid_wire(*w, u, human_readable) ==> r == Ok::<Uuid, String>(u),
{
    match w {
        UuidWire::Text(t) => {
            let r = Uuid::parse_str(t.as_str());
            proof {
                assert forall|u: Uuid, human_readable: bool| #[trigger]
                    is_uuid_wire(*w, u, human_readable) implies r == Ok::<Uuid, String>(u) by {
                    assert(uuid_text(u.bits) == t@);
                }
            }
            r
        },
        UuidWire::Halves(high, low) => {
            let u = Uuid::from_u64_pair(*high, *low);
            Ok(u)
        },
    }
}

/// A `Nullable(UUID)` on the wire.
pub fn optional_uuid_to_wire(u: &Option<Uuid>, human_readable: bool) -> (w: Option<UuidWire>)
    ensures
        u is Some <==> w is Some,
        w matches Some(x) ==> is_uuid_wire(x, u->0, human_readable),
{
    match u {
        Some(id) => Some(uuid_to_wire(id, human_readable)),
        None => None,
    }
}

/// Reads a `Nullable(UUID)` off the wire. What [`optional_uuid_to_wire`] wrote
/// is read back.
pub fn optional_uuid_from_wire(w: &Option<UuidWire>) -> (r: Result<Option<Uuid>, String>)
    ensures
        w is None ==> r == Ok::<Option<Uuid>, String>(None),
        w matches Some(UuidWire::Halves(h, l)) ==> (r matches Ok(Some(u)) && u.bits == *h
            * 0x1_0000_0000_0000_0000 + *l),
        w matches Some(UuidWire::Text(t)) ==> match uuid_parsed(t@) {
            Ok(bits) => r matches Ok(Some(u)) && u.bits == bits,
            Err(why) => r matches Err(e) && e@ == why,
        },
        w matches Some(x) ==> forall|u: Uuid, human_readable: bool| #[trigger]
            is_uuid_wire(*x, u, human_readable) ==> r == Ok::<Option<Uuid>, String>(Some(u)),
{
    match w {
        Some(x) => match uuid_from_wire(x) {
            Ok(u) => Ok(Some(u)),
            Err(e) => Err(e),
        },
        None => Ok(None),
    }
}

/// The fractional digits of the `value` column.
pub const VALUE_SCALE: u32 = 9;

/// A `Decimal128(9)` on the wire.
#[derive(Debug)]
pub enum DecimalWire {
    Text(String),
    Scaled(i128),
}

/// The number that the `value` column stores for a decimal: the value times
/// `10^9`. Fractional digits beyond the ninth are rounded half away from zero.
pub open spec fn scaled_value(d: DecimalView) -> int {
    if d.scale <= VALUE_SCALE {
        d.mantissa() * pow(10, (VALUE_SCALE - d.scale) as nat)
    } else {
        let magnitude = rounded_magnitude(d.magnitude, d.scale, VALUE_SCALE as nat) as int;
        if d.negative {
            -magnitude
        } else {
            magnitude
        }
    }
}

/// The wire form of a decimal.
pub open spec fn is_decimal_wire(w: DecimalWire, d: DecimalView, human_readable: bool) -> bool {
    match w {
        DecimalWire::Text(t) => human_readable && t@ == decimal_spelling(d),
        DecimalWire::Scaled(raw) => !human_readable && raw == scaled_value(d),
    }
}

/// The number that the `value` column stores for a decimal.
fn scaled_mantissa(d: &Decimal) -> (m: i128)
    ensures
        m == scaled_value(d@),
{
    let scale = d.scale();
    if scale > VALUE_SCALE {
        return d.rounded_mantissa(VALUE_SCALE);
    }
    let mut m: i128 = d.mantissa();
    let mut digits: u32 = scale;
    proof {
        vstd::arithmetic::power::lemma_pow0(10);
    }
    while digits < VALUE_SCALE
        invariant
            scale <= digits <= VALUE_SCALE,
            d@.wf(),
            scale == d@.scale,
            m == d@.mantissa() * pow(10, (digits - scale) as nat),
        decreases VALUE_SCALE - digits,
    {
        proof {
            let done = (digits - scale) as nat;
            lemma_pow_adds(10, done, 1);
            vstd::arithmetic::power::lemma_pow1(10);
            lemma_pow_positive(10, done);
            vstd::arithmetic::power::lemma_pow_increases(10, done, 8);
            assert(pow(10, 8) == 100_000_000) by {
                reveal_with_fuel(pow, 9);
            }
            let factor = pow(10, done);
            let mantissa = d@.mantissa();
            assert(-0x1_0000_0000_0000_0000_0000_0000 * 100_000_000 <= mantissa * factor
                <= 0x1_0000_0000_0000_0000_0000_0000 * 100_000_000) by (nonlinear_arith)
                requires
                    -0x1_0000_0000_0000_0000_0000_0000 <= mantissa
                        <= 0x1_0000_0000_0000_0000_0000_0000,
                    1 <= factor <= 100_000_000,
            ;
            assert(mantissa * (factor * 10) == mantissa * factor * 10) by (nonlinear_arith);
        }
        m = m * 10;
        digits = digits + 1;
    }
    m
}

/// Puts a decimal on the wire.
pub fn decimal_to_wire(d: &Decimal, human_readable: bool) -> (w: DecimalWire)
    ensures
        is_decimal_wire(w, d@, human_readable),
{
    if human_readable {
        DecimalWire::Text(d.to_string())
    } else {
        DecimalWire::Scaled(scaled_mantissa(d))
    }
}

/// What a stored number stands for: its sign and magnitude, with the column's
/// scale.
pub open spec fn unscaled_value(raw: int) -> DecimalView {
    DecimalView {
        negative: raw < 0,
        magnitude: (if raw < 0 {
            -raw
        } else {
            raw
        }) as nat,
        scale: VALUE_SCALE as nat,
    }
}

/// Reads a decimal off the wire. A stored number of more than 96 bits is an
/// error.
pub fn decimal_from_wire(w: &DecimalWire) -> (r: Result<Decimal, String>)
    ensures
        w matches DecimalWire::Scaled(raw) ==> {
            &&& r is Ok <==> unscaled_value(raw as int).magnitude < DECIMAL_MAGNITUDE_LIMIT
            &&& r matches Ok(d) ==> d@ == unscaled_value(raw as int)
            &&& r matches Err(e) ==> e@
                == "Decimal128(9) value overflows `rust_decimal::Decimal`"@
        },
        w matches DecimalWire::Text(t) ==> {
            &&& match decimal_parsed(t@) {
                Ok(v) => r matches Ok(d) && d@ == v,
                Err(why) => r matches Err(e) && e@ == why,
            }
            &&& forall|v: DecimalView|
                v.wf() && #[trigger] decimal_spelling(v) == t@ ==> (r matches Ok(d)
                    && d@.same_number(v))
        },
{
    match w {
        DecimalWire::Text(t) => Decimal::parse(t.as_str()),
        DecimalWire::Scaled(raw_ref) => {
            let raw = *raw_ref;
            let negative = raw < 0;
            let magnitude: u128 = if raw == i128::MIN {
                0x8000_0000_0000_0000_0000_0000_0000_0000
            } else if raw < 0 {
                (-raw) as u128
            } else {
                raw as u128
            };
            assert((magnitude >> 96 != 0) == (magnitude >= 0x1_0000_0000_0000_0000_0000_0000))
                by (bit_vector);
            if magnitude >> 96 != 0 {
                return Err("Decimal128(9) value overflows `rust_decimal::Decimal`".to_owned());
            }
            let lo = magnitude & 0xffff_ffff;
            let mid = (magnitude >> 32) & 0xffff_ffff;
            let hi = (magnitude >> 64) & 0xffff_ffff;
            assert(lo <= 0xffff_ffff && mid <= 0xffff_ffff && hi <= 0xffff_ffff && lo + mid
                * 0x1_0000_0000 + hi * 0x1_0000_0000_0000_0000 == magnitude) by (bit_vector)
                requires
                    lo == magnitude & 0xffff_ffff,
                    mid == (magnitude >> 32) & 0xffff_ffff,
                    hi == (magnitude >> 64) & 0xffff_ffff,
                    magnitude < 0x1_0000_0000_0000_0000_0000_0000,
            ;
            Ok(Decimal::from_parts(lo as u32, mid as u32, hi as u32, negative, VALUE_SCALE))
        },
    }
}

/// A decimal with at most nine fractional digits goes out as a number that
/// stands for the same value.
pub proof fn law_decimal_column_round_trips(d: DecimalView)
    requires
        d.wf(),
        d.scale <= VALUE_SCALE,
    ensures
        unscaled_value(scaled_value(d)).same_number(d),
{
    let gap = (VALUE_SCALE - d.scale) as nat;
    let back = unscaled_value(scaled_value(d));
    assert(back.mantissa() == d.mantissa() * pow(10, gap));
    lemma_pow_adds(10, gap, d.scale);
    assert(d.mantissa() * pow(10, gap) * pow(10, d.scale) == d.mantissa() * (pow(10, gap) * pow(
        10,
        d.scale,
    ))) by (nonlinear_arith);
}

/// The codes of a status and of a kind are those of their columns.
pub proof fn law_codes_are_those_of_their_columns(
    status: UsageRecordStatusCode,
    kind: UsageTypeKindCode,
)
    ensures
        status.spec_discriminant() == 1 <==> status == UsageRecordStatusCode::Active,
        status.spec_discriminant() == 2 <==> status == UsageRecordStatusCode::Inactive,
        kind.spec_discriminant() == 1 <==> kind == UsageTypeKindCode::Counter,
        kind.spec_discriminant() == 2 <==> kind == UsageTypeKindCode::Gauge,
{
}

/// An identifier goes out as its text, or as two halves that make it up, the
/// upper half first.
pub proof fn law_identifier_goes_out_whole(w: UuidWire, u: Uuid, human_readable: bool)
    requires
        is_uuid_wire(w, u, human_readable),
    ensures
        human_readable ==> w is Text && w->Text_0@ == uuid_text(u.bits),
        !human_readable ==> w is Halves && w->Halves_0 * 0x1_0000_0000_0000_0000 + w->Halves_1
            == u.bits,
{
}

/// A decimal goes out as its text, or as the nearest count of billionths: exactly
/// where it has no more than nine fractional digits, and else rounded half away
/// from zero, with its sign.
pub proof fn law_decimal_goes_out_in_billionths(w: DecimalWire, d: DecimalView, human_readable: bool)
    requires
        is_decimal_wire(w, d, human_readable),
        d.wf(),
    ensures
        human_readable ==> w is Text && w->Text_0@ == decimal_spelling(d),
        !human_readable ==> w is Scaled,
        w matches DecimalWire::Scaled(raw) ==> {
            &&& d.scale <= 9 ==> raw == d.mantissa() * pow(10, (9 - d.scale) as nat)
            &&& d.scale > 9 ==> {
                let unit = pow(10, (d.scale - 9) as nat);
                let cut = (if d.negative {
                    -(raw as int)
                } else {
                    raw as int
                }) * unit;
                &&& 2 * (cut - d.magnitude) <= unit
                &&& 2 * (d.magnitude - cut) < unit
            }
        },
{
    if d.scale > 9 {
        law_surplus_digits_are_rounded_half_away_from_zero(d.magnitude, d.scale, 9);
    }
}

/// A stored number is a count of billionths.
pub proof fn law_stored_number_counts_billionths(raw: int)
    ensures
        unscaled_value(raw).mantissa() == raw,
        unscaled_value(raw).scale == 9,
        unscaled_value(raw).negative == (raw < 0),
{
}

/// Each row is seen as it is, in its place.
pub proof fn law_rows_are_seen_one_by_one(rows: Seq<UsageRecordRow>, i: int)
    requires
        0 <= i < rows.len(),
    ensures
        row_views(rows).len() == rows.len(),
        row_views(rows)[i] == rows[i]@,
{
}

} // verus!
