use ltsv::from_str;
use ltsv::to_string;
use ltsv::try_detect_type;
use ltsv::LtsvError;
use ltsv::Value;

#[test]
fn infer_true() {
    assert_eq!(try_detect_type("true"), Value::Bool(true));
}

#[test]
fn infer_false() {
    assert_eq!(try_detect_type("false"), Value::Bool(false));
}

#[test]
fn infer_unsigned() {
    assert_eq!(try_detect_type("42"), Value::U64(42));
}

#[test]
fn infer_signed() {
    assert_eq!(try_detect_type("-42"), Value::I64(-42));
}

#[test]
fn infer_float() {
    assert_eq!(try_detect_type("3.14"), Value::F64("3.14".to_string()));
}

#[test]
fn infer_string() {
    assert_eq!(try_detect_type("hello"), Value::Str("hello".to_string()));
}

#[test]
fn infer_u64_max_stays_unsigned() {
    assert_eq!(try_detect_type("18446744073709551615"), Value::U64(u64::MAX));
}

#[test]
fn infer_beyond_u64_becomes_float() {
    assert_eq!(
        try_detect_type("18446744073709551616"),
        Value::F64("18446744073709551616".to_string())
    );
}

#[test]
fn infer_i64_min() {
    assert_eq!(try_detect_type("-9223372036854775808"), Value::I64(i64::MIN));
}

#[test]
fn infer_below_i64_becomes_float() {
    assert_eq!(
        try_detect_type("-9223372036854775809"),
        Value::F64("-9223372036854775809".to_string())
    );
}

#[test]
fn infer_exponent_and_special_floats() {
    assert_eq!(try_detect_type("1e5"), Value::F64("1e5".to_string()));
    assert_eq!(try_detect_type("-2.5E-3"), Value::F64("-2.5E-3".to_string()));
    assert_eq!(try_detect_type("inf"), Value::F64("inf".to_string()));
    assert_eq!(try_detect_type("NaN"), Value::F64("NaN".to_string()));
    assert_eq!(try_detect_type("-Infinity"), Value::F64("-Infinity".to_string()));
}

#[test]
fn infer_near_misses_stay_strings() {
    assert_eq!(try_detect_type("1e"), Value::Str("1e".to_string()));
    assert_eq!(try_detect_type("."), Value::Str(".".to_string()));
    assert_eq!(try_detect_type("1.2.3"), Value::Str("1.2.3".to_string()));
    assert_eq!(try_detect_type("--5"), Value::Str("--5".to_string()));
    assert_eq!(try_detect_type("True"), Value::Str("True".to_string()));
    assert_eq!(try_detect_type(""), Value::Str(String::new()));
}

#[test]
fn decode_no_colon_fails() {
    assert!(matches!(from_str("a"), Err(LtsvError::InvalidInput(_))));
}

#[test]
fn decode_empty_line_fails() {
    assert!(matches!(from_str(""), Err(LtsvError::InvalidInput(_))));
}

#[test]
fn decode_chunk_without_colon_fails() {
    assert!(matches!(from_str("a:1\tb"), Err(LtsvError::InvalidInput(_))));
}

#[test]
fn decode_trailing_tab_fails() {
    assert!(matches!(from_str("a:1\t"), Err(LtsvError::InvalidInput(_))));
}

#[test]
fn decode_duplicate_label_keeps_last_value() {
    let v = from_str("a:1\ta:2").unwrap();
    assert_eq!(
        v,
        Value::Mapping(vec![(Value::Str("a".to_string()), Value::U64(2))])
    );
}

#[test]
fn decode_three_typed_fields() {
    let v = from_str("a:Test\tb:8\tc:false").unwrap();
    assert_eq!(
        v,
        Value::Mapping(vec![
            (Value::Str("a".to_string()), Value::Str("Test".to_string())),
            (Value::Str("b".to_string()), Value::U64(8)),
            (Value::Str("c".to_string()), Value::Bool(false)),
        ])
    );
}

#[test]
fn decode_empty_label_and_colon_in_value() {
    let v = from_str(":v\tk:a:b").unwrap();
    assert_eq!(
        v,
        Value::Mapping(vec![
            (Value::Str(String::new()), Value::Str("v".to_string())),
            (Value::Str("k".to_string()), Value::Str("a:b".to_string())),
        ])
    );
}

#[test]
fn decode_empty_value_is_empty_string() {
    let v = from_str("k:").unwrap();
    assert_eq!(
        v,
        Value::Mapping(vec![(Value::Str("k".to_string()), Value::Str(String::new()))])
    );
}

#[test]
fn encode_mapping() {
    let v = Value::Mapping(vec![
        (Value::Str("a".to_string()), Value::Str("Test".to_string())),
        (Value::Str("b".to_string()), Value::U64(8)),
        (Value::Str("c".to_string()), Value::Bool(false)),
    ]);
    assert_eq!(to_string(&v).unwrap(), "a:Test\tb:8\tc:false");
}

#[test]
fn encode_sequence_keys_by_index() {
    let v = Value::Sequence(vec![
        Value::Str("x".to_string()),
        Value::Str("y".to_string()),
    ]);
    assert_eq!(to_string(&v).unwrap(), "0:x\t1:y");
}

#[test]
fn encode_bare_scalar_fails() {
    assert!(matches!(to_string(&Value::Bool(true)), Err(LtsvError::InvalidInput(_))));
    assert!(matches!(to_string(&Value::U64(1)), Err(LtsvError::InvalidInput(_))));
    assert!(matches!(to_string(&Value::Unit), Err(LtsvError::InvalidInput(_))));
}

#[test]
fn encode_sequence_of_sequences_fails() {
    let v = Value::Sequence(vec![Value::Sequence(vec![])]);
    assert!(matches!(to_string(&v), Err(LtsvError::InvalidInput(_))));
}

#[test]
fn encode_nested_mapping_value_fails() {
    let v = Value::Mapping(vec![(Value::Str("a".to_string()), Value::Mapping(vec![]))]);
    assert!(matches!(to_string(&v), Err(LtsvError::InvalidInput(_))));
}

#[test]
fn encode_newtype_over_mapping_unwraps() {
    let v = Value::Newtype(Box::new(Value::Mapping(vec![(
        Value::Str("a".to_string()),
        Value::U64(1),
    )])));
    assert_eq!(to_string(&v).unwrap(), "a:1");
}

#[test]
fn encode_newtype_over_scalar_fails() {
    let v = Value::Newtype(Box::new(Value::U64(1)));
    assert!(matches!(to_string(&v), Err(LtsvError::InvalidInput(_))));
}

#[test]
fn encode_optional_value_fails() {
    let v = Value::Mapping(vec![(Value::Str("a".to_string()), Value::Optional(None))]);
    assert!(matches!(to_string(&v), Err(LtsvError::InvalidInput(_))));
}

#[test]
fn encode_boolean_key_fails() {
    let v = Value::Mapping(vec![(Value::Bool(true), Value::U64(1))]);
    assert!(matches!(to_string(&v), Err(LtsvError::InvalidInput(_))));
}

#[test]
fn encode_numeric_keys_and_extremes() {
    let v = Value::Mapping(vec![
        (Value::U8(7), Value::I64(-5)),
        (Value::U64(u64::MAX), Value::I64(i64::MIN)),
    ]);
    assert_eq!(
        to_string(&v).unwrap(),
        "7:-5\t18446744073709551615:-9223372036854775808"
    );
}

#[test]
fn encode_char_key_and_value() {
    let v = Value::Mapping(vec![(Value::Char('k'), Value::Char('v'))]);
    assert_eq!(to_string(&v).unwrap(), "k:v");
}

#[test]
fn encode_float_texts() {
    let v = Value::Mapping(vec![
        (Value::Str("a".to_string()), Value::F64("3.14".to_string())),
        (Value::F32("0.5".to_string()), Value::F32("-1".to_string())),
    ]);
    assert_eq!(to_string(&v).unwrap(), "a:3.14\t0.5:-1");
}

#[test]
fn encode_utf8_bytes() {
    let v = Value::Mapping(vec![(
        Value::Bytes("key".as_bytes().to_vec()),
        Value::Bytes("caf\u{e9}".as_bytes().to_vec()),
    )]);
    assert_eq!(to_string(&v).unwrap(), "key:caf\u{e9}");
}

#[test]
fn encode_invalid_utf8_bytes_fails() {
    let v = Value::Mapping(vec![(
        Value::Str("a".to_string()),
        Value::Bytes(vec![0xff, 0xfe]),
    )]);
    assert!(matches!(to_string(&v), Err(LtsvError::FromUtf8Error(_))));
    let k = Value::Mapping(vec![(Value::Bytes(vec![0x80]), Value::U64(1))]);
    assert!(matches!(to_string(&k), Err(LtsvError::FromUtf8Error(_))));
}

#[test]
fn round_trip_stable_scalars() {
    let v = Value::Mapping(vec![
        (Value::Str("b".to_string()), Value::Bool(true)),
        (Value::Str("n".to_string()), Value::U64(42)),
        (Value::Str("i".to_string()), Value::I64(-42)),
        (Value::Str("f".to_string()), Value::F64("3.14".to_string())),
        (Value::Str("s".to_string()), Value::Str("hello".to_string())),
    ]);
    let line = to_string(&v).unwrap();
    assert_eq!(line, "b:true\tn:42\ti:-42\tf:3.14\ts:hello");
    assert_eq!(from_str(&line).unwrap(), v);
}

#[test]
fn error_message_carries_description() {
    let e = LtsvError::InvalidInput("boom".to_string());
    assert_eq!(e.message(), "boom");
}
