//! Identifiers, decimals and instants.
use clickhouse_usage_collector_plugin::entity::{
    decimal_from_wire, decimal_to_wire, optional_uuid_from_wire, optional_uuid_to_wire,
    uuid_from_wire, uuid_to_wire, DecimalWire, UsageRecordStatusCode, UsageTypeKindCode, UuidWire,
    VALUE_SCALE,
};
use clickhouse_usage_collector_plugin::mapper::{
    datetime_to_micros, merge_version_at, micros_to_datetime, version_higher_than_at,
};
use clickhouse_usage_collector_plugin::maps::StringMap;
use clickhouse_usage_collector_plugin::text::{
    comes_before, join_texts, same_optional_text, same_text, spell_signed, spell_unsigned,
};
use clickhouse_usage_collector_plugin::values::{nanos_to_micros, Decimal, OffsetDateTime, Uuid};

const SAMPLE: u128 = 0x0123_4567_89ab_cdef_fedc_ba98_7654_3210;
const SAMPLE_TEXT: &str = "01234567-89ab-cdef-fedc-ba9876543210";

fn decimal(text: &str) -> Decimal {
    Decimal::parse(text).unwrap()
}

#[test]
fn identifiers_are_spelled_and_read_back() {
    let id = Uuid::from_u128(SAMPLE);
    assert_eq!(id.to_string(), SAMPLE_TEXT);
    assert_eq!(id.to_string(), uuid::Uuid::from_u128(SAMPLE).to_string());
    assert_eq!(Uuid::parse_str(SAMPLE_TEXT), Ok(id));
    assert_eq!(Uuid::parse_str(&SAMPLE_TEXT.to_uppercase()), Ok(id));
    let refusal = Uuid::parse_str("not an identifier").unwrap_err();
    assert_eq!(refusal, uuid::Uuid::parse_str("not an identifier").unwrap_err().to_string());
}

#[test]
fn identifier_halves_round_trip() {
    for bits in [0, 1, SAMPLE, u128::MAX, 1 << 64, (1 << 64) - 1] {
        let id = Uuid::from_u128(bits);
        let (high, low) = id.as_u64_pair();
        assert_eq!((high, low), uuid::Uuid::from_u128(bits).as_u64_pair());
        assert_eq!(Uuid::from_u64_pair(high, low), id);
    }
}

#[test]
fn identifiers_round_trip_on_the_wire() {
    let id = Uuid::from_u128(SAMPLE);
    assert!(matches!(
        uuid_to_wire(&id, false),
        UuidWire::Halves(0x0123_4567_89ab_cdef, 0xfedc_ba98_7654_3210)
    ));
    assert!(matches!(uuid_to_wire(&id, true), UuidWire::Text(t) if t == SAMPLE_TEXT));
    for human_readable in [false, true] {
        assert_eq!(uuid_from_wire(&uuid_to_wire(&id, human_readable)), Ok(id));
        let some = optional_uuid_to_wire(&Some(id), human_readable);
        assert_eq!(optional_uuid_from_wire(&some), Ok(Some(id)));
        assert!(optional_uuid_to_wire(&None, human_readable).is_none());
    }
    assert_eq!(optional_uuid_from_wire(&None), Ok(None));
    assert!(uuid_from_wire(&UuidWire::Text("x".to_owned())).is_err());
    assert!(optional_uuid_from_wire(&Some(UuidWire::Text("x".to_owned()))).is_err());
}

#[test]
fn decimals_are_spelled_and_read_back() {
    assert_eq!(Decimal::new(425, 1).to_string(), "42.5");
    assert_eq!(Decimal::new(-5, 3).to_string(), "-0.005");
    assert_eq!(Decimal::new(0, 0).to_string(), "0");
    assert_eq!(decimal("42.5"), Decimal::new(425, 1));
    assert_eq!(decimal("42.50"), Decimal::new(425, 1));
    assert_ne!(decimal("42.5"), decimal("42.51"));
    assert_eq!(decimal("-7").mantissa(), -7);
    assert_eq!(decimal("1.250").scale(), 3);
    let refusal = Decimal::parse("no number").unwrap_err();
    let outside = "no number".parse::<rust_decimal::Decimal>().unwrap_err();
    assert_eq!(refusal, outside.to_string());
}

#[test]
fn decimals_round_trip_on_the_wire() {
    assert_eq!(VALUE_SCALE, 9);
    let value = decimal("42.5");
    assert!(matches!(decimal_to_wire(&value, false), DecimalWire::Scaled(42_500_000_000)));
    assert!(matches!(decimal_to_wire(&value, true), DecimalWire::Text(t) if t == "42.5"));
    for text in ["42.5", "-0.000000001", "0", "123456789.987654321", "-3"] {
        for human_readable in [false, true] {
            let wire = decimal_to_wire(&decimal(text), human_readable);
            assert_eq!(decimal_from_wire(&wire), Ok(decimal(text)), "{text}");
        }
    }
}

#[test]
fn the_largest_decimals_go_out_as_their_value_times_a_billion() {
    let largest = decimal("79228162514264337593543950335");
    assert!(matches!(
        decimal_to_wire(&largest, false),
        DecimalWire::Scaled(79_228_162_514_264_337_593_543_950_335_000_000_000)
    ));
    let lowest = decimal("-7922816251426433759354395033.5");
    assert!(matches!(
        decimal_to_wire(&lowest, false),
        DecimalWire::Scaled(-7_922_816_251_426_433_759_354_395_033_500_000_000)
    ));
    // Such a number is refused on the way back, never read as another one.
    assert!(decimal_from_wire(&decimal_to_wire(&largest, false)).is_err());
}

#[test]
fn decimals_are_rounded_to_nine_digits_on_the_wire() {
    // Half away from zero, as `rescale` does it.
    assert!(matches!(
        decimal_to_wire(&decimal("0.0000000015"), false),
        DecimalWire::Scaled(2)
    ));
    assert!(matches!(
        decimal_to_wire(&decimal("-0.00000000149"), false),
        DecimalWire::Scaled(-1)
    ));
}

#[test]
fn stored_decimals_that_do_not_fit_are_refused() {
    for raw in [1_i128 << 96, -(1_i128 << 96), i128::MAX, i128::MIN] {
        assert_eq!(
            decimal_from_wire(&DecimalWire::Scaled(raw)),
            Err("Decimal128(9) value overflows `rust_decimal::Decimal`".to_owned())
        );
    }
    let largest = (1_i128 << 96) - 1;
    let read = decimal_from_wire(&DecimalWire::Scaled(-largest)).unwrap();
    assert_eq!(read.mantissa(), -largest);
    assert_eq!(read.scale(), 9);
    assert!(decimal_from_wire(&DecimalWire::Text("x".to_owned())).is_err());
}

#[test]
fn codes_have_their_discriminants() {
    for code in [UsageRecordStatusCode::Active, UsageRecordStatusCode::Inactive] {
        assert_eq!(UsageRecordStatusCode::from_discriminant(code.discriminant()), Some(code));
    }
    for code in [UsageTypeKindCode::Counter, UsageTypeKindCode::Gauge] {
        assert_eq!(UsageTypeKindCode::from_discriminant(code.discriminant()), Some(code));
    }
    assert_eq!(UsageRecordStatusCode::from_discriminant(99), None);
    assert_eq!(UsageTypeKindCode::from_discriminant(99), None);
}

#[test]
fn instants_are_spelled_in_rfc_3339() {
    let nanos: i128 = 1_700_000_000_123_456_000;
    let t = OffsetDateTime::from_unix_timestamp_nanos(nanos).unwrap();
    assert_eq!(t.unix_timestamp_nanos(), nanos);
    assert_eq!(t.format_rfc3339().as_deref(), Some("2023-11-14T22:13:20.123456Z"));
    // Years before zero have no such spelling.
    let early = OffsetDateTime::from_unix_timestamp_nanos(-70_000_000_000_000_000_000).unwrap();
    assert_eq!(early.format_rfc3339(), None);
}

#[test]
fn instants_have_a_range() {
    let last = time::Date::MAX.midnight().assume_utc().unix_timestamp_nanos();
    assert!(OffsetDateTime::from_unix_timestamp_nanos(last).is_ok());
    assert!(OffsetDateTime::from_unix_timestamp_nanos(last + 86_400_000_000_000).is_err());
    assert!(OffsetDateTime::from_unix_timestamp_nanos(i128::MIN).is_err());
}

#[test]
fn the_clock_is_the_machine_s() {
    let before = time::OffsetDateTime::now_utc().unix_timestamp_nanos();
    let now = OffsetDateTime::now_utc().unix_timestamp_nanos();
    let after = time::OffsetDateTime::now_utc().unix_timestamp_nanos();
    assert!(before <= now && now <= after);
}

#[test]
fn microseconds_are_rounded_down() {
    assert_eq!(nanos_to_micros(1_999), 1);
    assert_eq!(nanos_to_micros(-1), -1);
    let t = OffsetDateTime::from_unix_timestamp_nanos(-1).unwrap();
    assert_eq!(datetime_to_micros(t), -1);
    for micros in [0, -1, 1, 1_700_000_000_123_456] {
        assert_eq!(datetime_to_micros(micros_to_datetime(micros).unwrap()), micros);
    }
}

#[test]
fn merge_versions_are_microseconds() {
    let t = micros_to_datetime(1_700_000_000_000_001).unwrap();
    assert_eq!(merge_version_at(t), 1_700_000_000_000_001);
    let early = micros_to_datetime(-1).unwrap();
    assert_eq!(merge_version_at(early), u64::MAX);
}

#[test]
fn superseding_versions_are_higher() {
    assert_eq!(version_higher_than_at(0, 1_000, 0), 1_001);
    assert_eq!(version_higher_than_at(0, 1_000, 5), 1_006);
    assert_eq!(version_higher_than_at(9_000, 1_000, 5), 9_000);
    assert_eq!(version_higher_than_at(0, u64::MAX, 0), u64::MAX);
    assert_eq!(version_higher_than_at(0, u64::MAX - 3, 9), u64::MAX);
}

#[test]
fn texts_are_compared_joined_and_spelled() {
    assert!(same_text("a", "a"));
    assert!(!same_text("a", "b"));
    assert!(same_optional_text(&None, &None));
    assert!(!same_optional_text(&None, &Some(String::new())));
    assert!(comes_before("a", "b"));
    assert!(comes_before("a", "ab"));
    assert!(!comes_before("b", "a"));
    assert!(!comes_before("a", "a"));
    // UTF-8 bytes decide, as they do for `str`.
    assert_eq!(comes_before("z", "\u{e9}"), "z" < "\u{e9}");
    let parts = vec!["x".to_owned(), "y".to_owned(), "z".to_owned()];
    assert_eq!(join_texts(&parts, ", "), "x, y, z");
    assert_eq!(join_texts(&Vec::new(), ", "), "");
    for n in [0, 9, 10, u64::MAX] {
        assert_eq!(spell_unsigned(n), n.to_string());
    }
    for n in [0, -1, i64::MIN, i64::MAX] {
        assert_eq!(spell_signed(n), n.to_string());
    }
}

#[test]
fn string_maps_hold_one_value_for_a_key() {
    let mut a = StringMap::new();
    a.insert("k".to_owned(), "1".to_owned());
    a.insert("l".to_owned(), "2".to_owned());
    a.insert("k".to_owned(), "3".to_owned());
    assert_eq!(a.len(), 2);
    assert_eq!(a.get("k").map(String::as_str), Some("3"));
    assert_eq!(a.get("m"), None);
    let mut b = StringMap::new();
    b.insert("l".to_owned(), "2".to_owned());
    assert_ne!(a, b);
    b.insert("k".to_owned(), "3".to_owned());
    assert_eq!(a, b);
    assert_eq!(a.clone(), b);
}
