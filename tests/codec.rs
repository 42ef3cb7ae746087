use epee_storage::{from_bytes, is_encodable, to_bytes, Deserializer, Error, Marker, Value};

const PREAMBLE: [u8; 9] = [0x01, 0x11, 0x01, 0x01, 0x01, 0x01, 0x02, 0x01, 0x01];

fn with_preamble(body: &[u8]) -> Vec<u8> {
    let mut v = PREAMBLE.to_vec();
    v.extend_from_slice(body);
    v
}

fn field<'a>(v: &'a Value, name: &str) -> &'a Value {
    v.get(name).expect("field present")
}

#[test]
fn varint_encodes_with_smallest_class() {
    assert_eq!(epee_storage::varint_encode(0), vec![0x00]);
    assert_eq!(epee_storage::varint_encode(2), vec![0x08]);
    assert_eq!(epee_storage::varint_encode(63), vec![0xFC]);
    assert_eq!(epee_storage::varint_encode(64), vec![0x01, 0x01]);
    assert_eq!(epee_storage::varint_encode(16383), vec![0xFD, 0xFF]);
    assert_eq!(epee_storage::varint_encode(16384), vec![0x02, 0x00, 0x01, 0x00]);
    assert_eq!(
        epee_storage::varint_encode(1073741824),
        vec![0x03, 0x00, 0x00, 0x00, 0x01, 0x00, 0x00, 0x00]
    );
}

#[test]
fn varint_round_trips() {
    for n in [0usize, 1, 63, 64, 300, 16383, 16384, 1 << 29, 1073741823, 1073741824, (1 << 62) - 1] {
        let bytes = epee_storage::varint_encode(n);
        let (got, width) = epee_storage::varint_decode(&bytes, 0).unwrap();
        assert_eq!(got, n as u64);
        assert_eq!(width, bytes.len());
    }
}

#[test]
fn varint_decode_short_input_fails() {
    assert!(matches!(epee_storage::varint_decode(&[], 0), Err(Error::UnexpectedEof)));
    assert!(matches!(epee_storage::varint_decode(&[0x01], 0), Err(Error::UnexpectedEof)));
    assert!(matches!(epee_storage::varint_decode(&[0x02, 0, 0], 0), Err(Error::UnexpectedEof)));
}

#[test]
fn marker_byte_round_trips() {
    for b in 0..=255u8 {
        assert_eq!(Marker::from_byte(b).to_byte(), b);
    }
}

#[test]
fn marker_shapes() {
    assert_eq!(Marker::from_byte(0x0A), Marker::Single { value: 10 });
    assert_eq!(Marker::from_byte(0x88), Marker::Sequence { element: 8 });
    assert_eq!(Marker::Single { value: 5 }.to_sequence(), Marker::Sequence { element: 5 });
    assert_eq!(Marker::Sequence { element: 5 }.to_sequence(), Marker::Sequence { element: 5 });
    assert_eq!(Marker::Sequence { element: 12 }.to_byte(), 0x8C);
}

#[test]
fn end_to_end_example() {
    let v = Value::Object(vec![
        ("a".to_string(), Value::U8(5)),
        ("b".to_string(), Value::String("hi".to_string())),
    ]);
    let bytes = to_bytes(&v).unwrap();
    let expected = with_preamble(&[
        0x08, 0x01, b'a', 0x08, 0x05, 0x01, b'b', 0x0A, 0x08, b'h', b'i',
    ]);
    assert_eq!(bytes, expected);
    let back = from_bytes(&bytes).unwrap();
    assert!(matches!(field(&back, "a"), Value::U8(5)));
    match field(&back, "b") {
        Value::Bytes(b) => assert_eq!(b, &b"hi".to_vec()),
        other => panic!("unexpected {:?}", other),
    }
}

#[test]
fn scalars_round_trip() {
    let v = Value::Object(vec![
        ("i64".to_string(), Value::I64(-5)),
        ("i32".to_string(), Value::I32(i32::MIN)),
        ("i16".to_string(), Value::I16(-300)),
        ("i8".to_string(), Value::I8(-1)),
        ("u64".to_string(), Value::U64(u64::MAX)),
        ("u32".to_string(), Value::U32(70000)),
        ("u16".to_string(), Value::U16(65535)),
        ("f64".to_string(), Value::F64(1.5f64.to_bits())),
        ("t".to_string(), Value::Bool(true)),
        ("f".to_string(), Value::Bool(false)),
    ]);
    let back = from_bytes(&to_bytes(&v).unwrap()).unwrap();
    assert!(matches!(field(&back, "i64"), Value::I64(-5)));
    assert!(matches!(field(&back, "i32"), Value::I32(i32::MIN)));
    assert!(matches!(field(&back, "i16"), Value::I16(-300)));
    assert!(matches!(field(&back, "i8"), Value::I8(-1)));
    assert!(matches!(field(&back, "u64"), Value::U64(u64::MAX)));
    assert!(matches!(field(&back, "u32"), Value::U32(70000)));
    assert!(matches!(field(&back, "u16"), Value::U16(65535)));
    match field(&back, "f64") {
        Value::F64(bits) => assert_eq!(f64::from_bits(*bits), 1.5),
        other => panic!("unexpected {:?}", other),
    }
    assert!(matches!(field(&back, "t"), Value::Bool(true)));
    assert!(matches!(field(&back, "f"), Value::Bool(false)));
}

#[test]
fn nested_struct_and_sequence_round_trip() {
    let inner = Value::Object(vec![("x".to_string(), Value::U32(7))]);
    let v = Value::Object(vec![
        ("inner".to_string(), inner),
        ("list".to_string(), Value::List(vec![Value::U16(1), Value::U16(2), Value::U16(3)])),
        ("empty".to_string(), Value::List(vec![])),
    ]);
    let bytes = to_bytes(&v).unwrap();
    let back = from_bytes(&bytes).unwrap();
    assert!(matches!(field(field(&back, "inner"), "x"), Value::U32(7)));
    match field(&back, "list") {
        Value::List(items) => {
            assert_eq!(items.len(), 3);
            assert!(matches!(items[2], Value::U16(3)));
        }
        other => panic!("unexpected {:?}", other),
    }
    assert!(matches!(field(&back, "empty"), Value::List(items) if items.is_empty()));
}

#[test]
fn sequence_is_written_without_element_markers() {
    let v = Value::Object(vec![("s".to_string(), Value::List(vec![Value::U8(1), Value::U8(2)]))]);
    let bytes = to_bytes(&v).unwrap();
    assert_eq!(bytes, with_preamble(&[0x04, 0x01, b's', 0x88, 0x08, 0x01, 0x02]));
}

#[test]
fn missing_header_is_refused() {
    assert!(matches!(from_bytes(&[]), Err(Error::MissingHeader)));
    assert!(matches!(from_bytes(&[0x01, 0x11, 0x01]), Err(Error::MissingHeader)));
    assert!(matches!(
        from_bytes(&[0x01, 0x11, 0x01, 0x01, 0x01, 0x01, 0x02, 0x02, 0x01, 0x00]),
        Err(Error::MissingHeader)
    ));
}

#[test]
fn wrong_version_is_refused() {
    let mut bytes = PREAMBLE.to_vec();
    bytes[8] = 2;
    bytes.push(0x00);
    assert!(matches!(from_bytes(&bytes), Err(Error::InvalidVersion(2))));
}

#[test]
fn empty_root_map() {
    let back = from_bytes(&with_preamble(&[0x00])).unwrap();
    assert!(matches!(back, Value::Object(ref fs) if fs.is_empty()));
}

#[test]
fn overlong_string_fails_before_reading() {
    let mut body = vec![0x04, 0x01, b'a', 0x0A];
    let n: u64 = 2_000_000_001;
    body.extend_from_slice(&(n * 4 + 3).to_le_bytes());
    assert!(matches!(from_bytes(&with_preamble(&body)), Err(Error::MarkedStringExceededMaxLength)));
}

#[test]
fn non_utf8_field_name_fails() {
    let body = [0x04, 0x01, 0xFF, 0x08, 0x05];
    assert!(matches!(from_bytes(&with_preamble(&body)), Err(Error::InvalidString)));
}

#[test]
fn unknown_marker_fails() {
    let body = [0x04, 0x01, b'a', 0x0D, 0x00];
    assert!(matches!(
        from_bytes(&with_preamble(&body)),
        Err(Error::UnknownMarker(Marker::Single { value: 13 }))
    ));
}

#[test]
fn invalid_bool_fails() {
    let body = [0x04, 0x01, b'a', 0x0B, 0x02];
    assert!(matches!(from_bytes(&with_preamble(&body)), Err(Error::InvalidBoolValue)));
}

#[test]
fn truncated_input_fails() {
    let body = [0x04, 0x01, b'a', 0x05, 0x01, 0x02];
    assert!(matches!(from_bytes(&with_preamble(&body)), Err(Error::UnexpectedEof)));
}

#[test]
fn root_must_be_struct() {
    assert!(matches!(to_bytes(&Value::U8(1)), Err(Error::RootValueIsNotStruct)));
}

#[test]
fn tuple_of_declared_arity() {
    let data = [0x0A, 0x0C, 1, 2, 3];
    let mut de = Deserializer::from_bytes(&data);
    assert_eq!(de.deserialize_tuple(3).unwrap(), vec![1, 2, 3]);
}

#[test]
fn tuple_length_mismatch() {
    let data = [0x0A, 0x0C, 1, 2, 3];
    let mut de = Deserializer::from_bytes(&data);
    assert!(matches!(de.deserialize_tuple(4), Err(Error::LengthMismatch { declared: 4, got: 3 })));
}

#[test]
fn tuple_of_other_marker() {
    let data = [0x08, 0x01];
    let mut de = Deserializer::from_bytes(&data);
    assert!(matches!(
        de.deserialize_tuple(1),
        Err(Error::TuplesOfTypeNotSupported(Marker::Single { value: 8 }))
    ));
}

#[test]
fn narrowing_reads() {
    let data = [0x08, b'z', 0x0A, 0x08, b'o', b'k', 0x05];
    let mut de = Deserializer::from_bytes(&data);
    assert_eq!(de.deserialize_char().unwrap(), 'z');
    assert_eq!(de.deserialize_string().unwrap(), "ok".to_string());
    assert!(matches!(
        de.deserialize_char(),
        Err(Error::UnexpectedMarker {
            expected: Marker::Single { value: 8 },
            actual: Marker::Single { value: 5 }
        })
    ));
}

#[test]
fn deserializer_reads_root_then_marked_values() {
    let data = [0x04, 0x01, b'a', 0x08, 0x05, 0x07, 0x34, 0x12];
    let mut de = Deserializer::from_bytes(&data);
    let root = de.deserialize_any().unwrap();
    assert!(matches!(field(&root, "a"), Value::U8(5)));
    assert!(matches!(de.deserialize_any().unwrap(), Value::U16(0x1234)));
}

#[test]
fn deserializer_primitive_reads() {
    let data = [0x08, b'h', b'i', 0xC3, 0x28, 0x05];
    let mut de = Deserializer::from_bytes(&data);
    assert_eq!(de.read_varint().unwrap(), 2);
    assert_eq!(de.read_string(2).unwrap(), "hi".to_string());
    assert!(matches!(de.read_string(2), Err(Error::InvalidString)));
    assert!(matches!(de.read_marked_string(2_000_000_001), Err(Error::MarkedStringExceededMaxLength)));
    assert_eq!(de.read_marker().unwrap(), Marker::Single { value: 5 });
    assert!(matches!(de.read_bytes(1), Err(Error::UnexpectedEof)));
}

#[test]
fn get_and_get_mut() {
    let mut v = Value::Object(vec![("k".to_string(), Value::U8(1))]);
    assert!(v.get("missing").is_none());
    assert!(Value::U8(1).get("k").is_none());
    if let Some(x) = v.get_mut("k") {
        *x = Value::U8(9);
    }
    assert!(matches!(v.get("k"), Some(Value::U8(9))));
}

#[test]
fn encodability() {
    let mixed = Value::Object(vec![(
        "m".to_string(),
        Value::List(vec![Value::U8(1), Value::U16(2)]),
    )]);
    assert!(!is_encodable(&mixed));
    let nested = Value::Object(vec![("n".to_string(), Value::List(vec![Value::List(vec![])]))]);
    assert!(!is_encodable(&nested));
    let long_name = Value::Object(vec![("x".repeat(256), Value::U8(1))]);
    assert!(!is_encodable(&long_name));
    let fine = Value::Object(vec![("x".repeat(255), Value::U8(1))]);
    assert!(is_encodable(&fine));
}

#[test]
fn failed_marker_match_consumes_the_marker_only() {
    let data = [0x05, 0x08, 0x07];
    let mut de = Deserializer::from_bytes(&data);
    assert!(matches!(
        de.read_expected_marker(Marker::Single { value: 10 }),
        Err(Error::UnexpectedMarker { .. })
    ));
    assert_eq!(de.read_marker().unwrap(), Marker::Single { value: 8 });
    assert!(matches!(de.deserialize_char(), Err(Error::UnexpectedMarker { .. })));
    assert!(matches!(de.read_marker(), Err(Error::UnexpectedEof)));
}

#[test]
fn refused_length_leaves_cursor_after_varint() {
    let mut data = (2_000_000_001u64 * 4 + 3).to_le_bytes().to_vec();
    data.push(0x0B);
    let mut de = Deserializer::from_bytes(&data);
    assert!(matches!(de.read_varint_marked_string(), Err(Error::MarkedStringExceededMaxLength)));
    assert_eq!(de.read_marker().unwrap(), Marker::Single { value: 11 });
}

#[test]
fn over_bound_length_consumes_nothing() {
    let data = [0x0B];
    let mut de = Deserializer::from_bytes(&data);
    assert!(matches!(de.read_marked_string(2_000_000_001), Err(Error::MarkedStringExceededMaxLength)));
    assert_eq!(de.read_marker().unwrap(), Marker::Single { value: 11 });
}

#[test]
fn failed_dispatch_stops_after_taken_bytes() {
    let data = [0x02, 0x0B];
    let mut de = Deserializer::from_bytes(&data);
    assert!(matches!(de.dispatch_based_on_marker(Marker::Single { value: 11 }), Err(Error::InvalidBoolValue)));
    assert!(matches!(
        de.dispatch_based_on_marker(Marker::Single { value: 13 }),
        Err(Error::UnknownMarker(Marker::Single { value: 13 }))
    ));
    assert_eq!(de.read_bytes(1).unwrap(), vec![0x0B]);
}

#[test]
fn refused_length_in_dispatch_leaves_cursor_after_varint() {
    let mut data = (2_000_000_001u64 * 4 + 3).to_le_bytes().to_vec();
    data.push(0x0B);
    let mut de = Deserializer::from_bytes(&data);
    assert!(matches!(
        de.dispatch_based_on_marker(Marker::Single { value: 10 }),
        Err(Error::MarkedStringExceededMaxLength)
    ));
    assert_eq!(de.read_marker().unwrap(), Marker::Single { value: 11 });
}

#[test]
fn tuple_errors_leave_cursor() {
    let data = [0x08, 0x0A, 0x0C, 0x07];
    let mut de = Deserializer::from_bytes(&data);
    assert!(matches!(de.deserialize_tuple(1), Err(Error::TuplesOfTypeNotSupported(_))));
    assert!(matches!(de.deserialize_tuple(2), Err(Error::LengthMismatch { declared: 2, got: 3 })));
    assert_eq!(de.read_marker().unwrap(), Marker::Single { value: 7 });
}

#[test]
fn value_narrowing() {
    assert_eq!(Value::U8(b'q').into_char().unwrap(), 'q');
    assert!(matches!(
        Value::U16(1).into_char(),
        Err(Error::UnexpectedMarker { expected: Marker::Single { value: 8 }, actual: Marker::Single { value: 7 } })
    ));
    assert_eq!(Value::Bytes(b"ok".to_vec()).into_text().unwrap(), "ok".to_string());
    assert!(matches!(Value::Bytes(vec![0xFF]).into_text(), Err(Error::InvalidString)));
    assert_eq!(Value::Bytes(vec![1, 2]).into_tuple(2).unwrap(), vec![1, 2]);
    assert!(matches!(Value::Bytes(vec![1, 2]).into_tuple(3), Err(Error::LengthMismatch { declared: 3, got: 2 })));
    assert!(matches!(
        Value::List(vec![Value::U8(1)]).into_tuple(1),
        Err(Error::TuplesOfTypeNotSupported(Marker::Sequence { element: 8 }))
    ));
}

#[test]
fn first_of_repeated_names_wins() {
    let v = Value::Object(vec![("k".to_string(), Value::U8(1)), ("k".to_string(), Value::U8(2))]);
    assert!(matches!(v.get("k"), Some(Value::U8(1))));
}

#[test]
fn repeated_name_on_the_wire_keeps_the_later_value() {
    let body = [0x08, 0x01, b'k', 0x08, 0x01, 0x01, b'k', 0x08, 0x02];
    let v = from_bytes(&with_preamble(&body)).unwrap();
    match &v {
        Value::Object(fs) => assert_eq!(fs.len(), 1),
        other => panic!("unexpected {:?}", other),
    }
    assert!(matches!(v.get("k"), Some(Value::U8(2))));
}

#[test]
fn repeated_name_is_not_encodable() {
    let v = Value::Object(vec![("k".to_string(), Value::U8(1)), ("k".to_string(), Value::U8(2))]);
    assert!(!is_encodable(&v));
}

#[test]
fn non_utf8_second_field_name_fails() {
    let body = [0x08, 0x01, b'a', 0x08, 0x05, 0x01, 0xFF, 0x08, 0x06];
    assert!(matches!(from_bytes(&with_preamble(&body)), Err(Error::InvalidString)));
}
