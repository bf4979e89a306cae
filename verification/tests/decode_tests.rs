use ov_mobility::decode::{decode_metric, parse_decimal_milli, parse_unsigned_milli, Metric, RawValue};
use ov_mobility::error::PipelineError;

#[test]
fn nan_marker_decodes_to_absent() {
    let r = decode_metric(RawValue::Text(String::from("NaN")));
    assert!(matches!(r, Ok(None)));
}

#[test]
fn null_decodes_to_absent() {
    let r = decode_metric(RawValue::Null);
    assert!(matches!(r, Ok(None)));
}

#[test]
fn finite_number_decodes_to_exact_value() {
    let r = decode_metric(RawValue::Number(String::from("83.5")));
    assert_eq!(r.unwrap(), Some(Metric { milli: 83_500 }));

    let r = decode_metric(RawValue::Number(String::from("10")));
    assert_eq!(r.unwrap(), Some(Metric { milli: 10_000 }));

    let r = decode_metric(RawValue::Number(String::from("0.125")));
    assert_eq!(r.unwrap(), Some(Metric { milli: 125 }));

    let r = decode_metric(RawValue::Number(String::from("-2.75")));
    assert_eq!(r.unwrap(), Some(Metric { milli: -2_750 }));
}

#[test]
fn other_string_fails_with_invalid_value() {
    let r = decode_metric(RawValue::Text(String::from("n/a")));
    match r {
        Err(PipelineError::InvalidValue(s)) => assert_eq!(s, "n/a"),
        _ => panic!("expected InvalidValue"),
    }
    // The marker is case-sensitive: close misses are still invalid.
    let r = decode_metric(RawValue::Text(String::from("nan")));
    assert!(matches!(r, Err(PipelineError::InvalidValue(_))));
    let r = decode_metric(RawValue::Text(String::from("")));
    assert!(matches!(r, Err(PipelineError::InvalidValue(_))));
}

#[test]
fn malformed_numeral_fails_with_decode() {
    for bad in ["", ".", "1.", ".5", "1.2.3", "1e5", "--1", "1.2345", "12345678901234"] {
        let r = decode_metric(RawValue::Number(String::from(bad)));
        match r {
            Err(PipelineError::Decode(s)) => assert_eq!(s, bad),
            _ => panic!("expected Decode for {bad:?}"),
        }
    }
}

#[test]
fn decimal_parser_exact_values() {
    assert_eq!(parse_decimal_milli("0"), Some(0));
    assert_eq!(parse_decimal_milli("0.001"), Some(1));
    assert_eq!(parse_decimal_milli("7.5"), Some(7_500));
    assert_eq!(parse_decimal_milli("7.50"), Some(7_500));
    assert_eq!(parse_decimal_milli("-0.1"), Some(-100));
    assert_eq!(parse_decimal_milli("999999999999"), Some(999_999_999_999_000));
    assert_eq!(parse_decimal_milli("1000000000000"), None);
    assert_eq!(parse_decimal_milli("12a"), None);
    assert_eq!(parse_decimal_milli("-"), None);
}

#[test]
fn unsigned_parser_rejects_signs() {
    assert_eq!(parse_unsigned_milli("5.5"), Some(5_500));
    assert_eq!(parse_unsigned_milli("-5.5"), None);
}
