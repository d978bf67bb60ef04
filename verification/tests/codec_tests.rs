use marky::codec::{OutField, RawField, parse_row, parse_row_checked, render_row, row_arity,
    select_shape};
use marky::errors::MarkyError;
use marky::float_bits::{FloatKey, NAN_BITS};
use marky::row::{Row, RowShape, row_eq};

/// Lexes one field the way the delimited-text layer does: the raw text plus
/// its float reading, where it has one.
fn lex(s: &str) -> RawField {
    RawField { text: s.to_string(), float_bits: s.parse::<f64>().ok().map(|f| f.to_bits()) }
}

fn lex_record(fields: &[&str]) -> Vec<RawField> {
    fields.iter().map(|s| lex(s)).collect()
}

/// Formats one rendered field the way the delimited-text layer does, then
/// lexes it back.
fn format_and_relex(f: &OutField) -> RawField {
    let text = match f {
        OutField::Text(s) => s.clone(),
        OutField::FloatBits(b) => format!("{}", f64::from_bits(*b)),
    };
    lex(&text)
}

fn round_trip(shape: RowShape, fields: &[&str]) {
    let row = parse_row(shape, &lex_record(fields)).unwrap();
    let rendered = render_row(&row);
    let relexed: Vec<RawField> = rendered.iter().map(format_and_relex).collect();
    let again = parse_row(shape, &relexed).unwrap();
    assert!(row_eq(&row, &again));
}

#[test]
fn parse_price_volume() {
    let row = parse_row(RowShape::PriceVolume, &lex_record(&["1.5", "7"])).unwrap();
    match row {
        Row::PriceVolume { price, volume } => {
            assert_eq!(price.bits(), 1.5f64.to_bits());
            assert_eq!(volume, 7);
        },
        _ => panic!("wrong shape"),
    }
}

#[test]
fn parse_rejects_wrong_field_count() {
    let e = parse_row(RowShape::PriceVolume, &lex_record(&["1.5"])).unwrap_err();
    assert_eq!(e, MarkyError::MalformedRecord);
    let e = parse_row(RowShape::Ohlc, &lex_record(&["1", "2", "3"])).unwrap_err();
    assert_eq!(e, MarkyError::MalformedRecord);
    let e = parse_row(RowShape::Ohlcv, &lex_record(&["1", "2", "3", "4"])).unwrap_err();
    assert_eq!(e, MarkyError::MalformedRecord);
}

#[test]
fn parse_rejects_type_mismatch() {
    let e = parse_row(RowShape::PriceVolume, &lex_record(&["1.5", "abc"])).unwrap_err();
    assert_eq!(e, MarkyError::MalformedRecord);
    let e = parse_row(RowShape::UintVector, &lex_record(&["1", "2.5"])).unwrap_err();
    assert_eq!(e, MarkyError::MalformedRecord);
    let e = parse_row(RowShape::IntVector, &lex_record(&["1", "x"])).unwrap_err();
    assert_eq!(e, MarkyError::MalformedRecord);
    let e = parse_row(RowShape::FloatVector, &lex_record(&["1.5", "nope"])).unwrap_err();
    assert_eq!(e, MarkyError::MalformedRecord);
    assert_eq!(e.describe(), "record does not match the active row shape");
}

#[test]
fn parse_uint_rejects_negative_and_overflow() {
    assert!(parse_row(RowShape::UintVector, &lex_record(&["-1"])).is_err());
    assert!(parse_row(RowShape::UintVector, &lex_record(&["18446744073709551615"])).is_ok());
    assert!(parse_row(RowShape::UintVector, &lex_record(&["18446744073709551616"])).is_err());
}

#[test]
fn parse_int_bounds() {
    let row = parse_row(RowShape::IntVector, &lex_record(&["-9223372036854775808"])).unwrap();
    match row {
        Row::IntVector(v) => assert_eq!(v, vec![i64::MIN]),
        _ => panic!("wrong shape"),
    }
    assert!(parse_row(RowShape::IntVector, &lex_record(&["9223372036854775808"])).is_err());
    assert!(parse_row(RowShape::IntVector, &lex_record(&["-9223372036854775809"])).is_err());
}

#[test]
fn round_trip_price_volume() {
    round_trip(RowShape::PriceVolume, &["1.5", "7"]);
}

#[test]
fn round_trip_ohlc() {
    round_trip(RowShape::Ohlc, &["1.25", "2.5", "0.125", "-3.75"]);
}

#[test]
fn round_trip_ohlcv() {
    round_trip(RowShape::Ohlcv, &["0.1", "0.2", "0.3", "0.4", "42"]);
}

#[test]
fn round_trip_float_vector() {
    round_trip(RowShape::FloatVector, &["3.141592653589793", "-0.0", "1e-300", "inf", "NaN"]);
}

#[test]
fn round_trip_int_vector() {
    round_trip(RowShape::IntVector, &["-9223372036854775808", "0", "9223372036854775807"]);
}

#[test]
fn round_trip_uint_vector() {
    round_trip(RowShape::UintVector, &["0", "1", "18446744073709551615"]);
}

#[test]
fn float_vector_accepts_ragged_arity() {
    // Vector shapes accept any arity row by row (the permissive default).
    assert!(parse_row(RowShape::FloatVector, &lex_record(&["1.0"])).is_ok());
    assert!(parse_row(RowShape::FloatVector, &lex_record(&["1.0", "2.0", "3.0"])).is_ok());
}

#[test]
fn strict_arity_rejects_ragged_rows() {
    let e = parse_row_checked(RowShape::FloatVector, Some(3), &lex_record(&["1.0", "2.0"]))
        .unwrap_err();
    assert_eq!(e, MarkyError::MalformedRecord);
    assert!(parse_row_checked(RowShape::FloatVector, Some(2), &lex_record(&["1.0", "2.0"]))
        .is_ok());
    // Fixed shapes ignore the expected arity: their own count check applies.
    assert!(parse_row_checked(RowShape::PriceVolume, Some(9), &lex_record(&["1.5", "7"])).is_ok());
}

#[test]
fn nan_is_canonicalized() {
    let quiet = FloatKey::from_bits(f64::NAN.to_bits());
    let payload = FloatKey::from_bits(0x7ff8_0000_0000_0001);
    let negative = FloatKey::from_bits(0xfff8_0000_0000_0777);
    assert_eq!(quiet.bits(), NAN_BITS);
    assert_eq!(payload.bits(), NAN_BITS);
    assert_eq!(negative.bits(), NAN_BITS);
    let a = parse_row(RowShape::FloatVector, &lex_record(&["NaN"])).unwrap();
    let b = parse_row(RowShape::FloatVector, &lex_record(&["nan"])).unwrap();
    assert!(row_eq(&a, &b));
}

#[test]
fn ordinary_bits_pass_through() {
    let k = FloatKey::from_bits(1.5f64.to_bits());
    assert_eq!(k.bits(), 1.5f64.to_bits());
    let inf = FloatKey::from_bits(f64::INFINITY.to_bits());
    assert_eq!(inf.bits(), f64::INFINITY.to_bits());
    let neg_inf = FloatKey::from_bits(f64::NEG_INFINITY.to_bits());
    assert_eq!(neg_inf.bits(), f64::NEG_INFINITY.to_bits());
}

#[test]
fn zero_signs_are_unified() {
    // 0.0 == -0.0 as floats, so the two spellings must make equal keys.
    let pos = FloatKey::from_bits(0.0f64.to_bits());
    let neg = FloatKey::from_bits((-0.0f64).to_bits());
    assert_eq!(neg.bits(), pos.bits());
    let a = parse_row(RowShape::FloatVector, &lex_record(&["0.0"])).unwrap();
    let b = parse_row(RowShape::FloatVector, &lex_record(&["-0.0"])).unwrap();
    assert!(row_eq(&a, &b));
}

#[test]
fn arity_of_each_shape() {
    assert_eq!(row_arity(&parse_row(RowShape::PriceVolume, &lex_record(&["1", "2"])).unwrap()), 2);
    assert_eq!(
        row_arity(&parse_row(RowShape::Ohlc, &lex_record(&["1", "2", "3", "4"])).unwrap()),
        4
    );
    assert_eq!(
        row_arity(&parse_row(RowShape::Ohlcv, &lex_record(&["1", "2", "3", "4", "5"])).unwrap()),
        5
    );
    assert_eq!(row_arity(&parse_row(RowShape::IntVector, &lex_record(&["1", "2", "3"])).unwrap()), 3);
}

#[test]
fn select_shape_default_is_float_vector() {
    assert_eq!(select_shape(false, false, false, false, false, false).unwrap(),
        RowShape::FloatVector);
}

#[test]
fn select_shape_each_single_flag() {
    assert_eq!(select_shape(true, false, false, false, false, false).unwrap(),
        RowShape::PriceVolume);
    assert_eq!(select_shape(false, true, false, false, false, false).unwrap(), RowShape::Ohlc);
    assert_eq!(select_shape(false, false, true, false, false, false).unwrap(), RowShape::Ohlcv);
    assert_eq!(select_shape(false, false, false, true, false, false).unwrap(),
        RowShape::FloatVector);
    assert_eq!(select_shape(false, false, false, false, true, false).unwrap(),
        RowShape::IntVector);
    assert_eq!(select_shape(false, false, false, false, false, true).unwrap(),
        RowShape::UintVector);
}

#[test]
fn select_shape_conflict() {
    let e = select_shape(true, true, false, false, false, false).unwrap_err();
    assert_eq!(e, MarkyError::ConfigConflict);
    assert_eq!(e.describe(), "more than one row shape selected");
    assert!(select_shape(false, false, true, false, true, true).is_err());
}
