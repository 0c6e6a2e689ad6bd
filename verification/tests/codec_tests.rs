use rpc_codec::codec::{encode_to_bytes, extract_value, read_message, value_eq, DecodeError};
use rpc_codec::types::{Value, ValueType};

fn roundtrip(v: Value, t: &ValueType) -> Value {
    let bytes = encode_to_bytes(&v);
    extract_value(t, &bytes).expect("roundtrip decode failed")
}

#[test]
fn tuple_bool_string_roundtrip() {
    let v = Value::Pair(
        Box::new(Value::Bool(true)),
        Box::new(Value::Text(String::from("abc"))),
    );
    let t = ValueType::Pair(Box::new(ValueType::Bool), Box::new(ValueType::Text));
    let back = roundtrip(v, &t);
    assert_eq!(
        back,
        Value::Pair(
            Box::new(Value::Bool(true)),
            Box::new(Value::Text(String::from("abc"))),
        )
    );
}

#[test]
fn sequence_into_set_dedups() {
    let v = Value::List(vec![
        Value::U32(1),
        Value::U32(2),
        Value::U32(2),
        Value::U32(3),
    ]);
    let bytes = encode_to_bytes(&v);
    let t = ValueType::DedupSet(Box::new(ValueType::U32));
    let got = extract_value(&t, &bytes).unwrap();
    match got {
        Value::DedupSet(items) => {
            assert_eq!(items.len(), 3);
            assert_eq!(items, vec![Value::U32(1), Value::U32(2), Value::U32(3)]);
        }
        other => panic!("expected a set, got {:?}", other),
    }
}

#[test]
fn mapping_duplicate_key_last_wins() {
    let v = Value::KeyMap(vec![
        (Value::Text(String::from("a")), Value::U32(1)),
        (Value::Text(String::from("a")), Value::U32(2)),
    ]);
    let bytes = encode_to_bytes(&v);
    let t = ValueType::KeyMap(Box::new(ValueType::Text), Box::new(ValueType::U32));
    let got = extract_value(&t, &bytes).unwrap();
    match got {
        Value::KeyMap(entries) => {
            assert_eq!(entries.len(), 1);
            assert_eq!(
                entries[0],
                (Value::Text(String::from("a")), Value::U32(2))
            );
        }
        other => panic!("expected a mapping, got {:?}", other),
    }
}

#[test]
fn primitive_roundtrips() {
    assert_eq!(roundtrip(Value::U32(0), &ValueType::U32), Value::U32(0));
    assert_eq!(roundtrip(Value::U32(127), &ValueType::U32), Value::U32(127));
    assert_eq!(roundtrip(Value::U32(128), &ValueType::U32), Value::U32(128));
    assert_eq!(
        roundtrip(Value::U32(u32::MAX), &ValueType::U32),
        Value::U32(u32::MAX)
    );
    assert_eq!(
        roundtrip(Value::U64(u64::MAX), &ValueType::U64),
        Value::U64(u64::MAX)
    );
    assert_eq!(roundtrip(Value::I32(-1), &ValueType::I32), Value::I32(-1));
    assert_eq!(
        roundtrip(Value::I32(i32::MIN), &ValueType::I32),
        Value::I32(i32::MIN)
    );
    assert_eq!(
        roundtrip(Value::I32(i32::MAX), &ValueType::I32),
        Value::I32(i32::MAX)
    );
    assert_eq!(
        roundtrip(Value::I64(i64::MIN), &ValueType::I64),
        Value::I64(i64::MIN)
    );
    assert_eq!(
        roundtrip(Value::Bool(false), &ValueType::Bool),
        Value::Bool(false)
    );
    assert_eq!(roundtrip(Value::Unit, &ValueType::Unit), Value::Unit);
    assert_eq!(
        roundtrip(Value::Text(String::new()), &ValueType::Text),
        Value::Text(String::new())
    );
    let uni = String::from("héllo \u{1F680}");
    assert_eq!(
        roundtrip(Value::Text(uni.clone()), &ValueType::Text),
        Value::Text(uni)
    );
}

#[test]
fn float_bit_pattern_roundtrips() {
    let f = 1.5f64.to_bits();
    assert_eq!(
        roundtrip(Value::F64Bits(f), &ValueType::F64),
        Value::F64Bits(f)
    );
    let g = (-0.25f32).to_bits();
    assert_eq!(
        roundtrip(Value::F32Bits(g), &ValueType::F32),
        Value::F32Bits(g)
    );
    // little-endian fixed width on the wire
    assert_eq!(encode_to_bytes(&Value::F32Bits(0x01020304)), vec![4, 3, 2, 1]);
}

#[test]
fn zigzag_exact_bytes() {
    // signed varints fold onto the unsigned line: 0, -1, 1, -2, ...
    assert_eq!(encode_to_bytes(&Value::I32(0)), vec![0]);
    assert_eq!(encode_to_bytes(&Value::I32(-1)), vec![1]);
    assert_eq!(encode_to_bytes(&Value::I32(1)), vec![2]);
    assert_eq!(encode_to_bytes(&Value::I64(-2)), vec![3]);
    assert_eq!(encode_to_bytes(&Value::U32(300)), vec![0xAC, 0x02]);
    assert_eq!(
        encode_to_bytes(&Value::Text(String::from("abc"))),
        vec![3, b'a', b'b', b'c']
    );
}

#[test]
fn empty_containers_roundtrip() {
    let lt = ValueType::List(Box::new(ValueType::U32));
    assert_eq!(roundtrip(Value::List(vec![]), &lt), Value::List(vec![]));
    let st = ValueType::DedupSet(Box::new(ValueType::U32));
    assert_eq!(
        roundtrip(Value::DedupSet(vec![]), &st),
        Value::DedupSet(vec![])
    );
    let mt = ValueType::KeyMap(Box::new(ValueType::U32), Box::new(ValueType::Text));
    assert_eq!(roundtrip(Value::KeyMap(vec![]), &mt), Value::KeyMap(vec![]));
}

#[test]
fn nested_containers_roundtrip() {
    let v = Value::List(vec![
        Value::List(vec![Value::I64(-5), Value::I64(6)]),
        Value::List(vec![]),
    ]);
    let t = ValueType::List(Box::new(ValueType::List(Box::new(ValueType::I64))));
    let back = roundtrip(v, &t);
    match &back {
        Value::List(outer) => assert_eq!(outer.len(), 2),
        other => panic!("expected a list, got {:?}", other),
    }
    let m = Value::KeyMap(vec![(
        Value::Text(String::from("k")),
        Value::List(vec![Value::U32(9)]),
    )]);
    let mt = ValueType::KeyMap(
        Box::new(ValueType::Text),
        Box::new(ValueType::List(Box::new(ValueType::U32))),
    );
    let got = roundtrip(m, &mt);
    match got {
        Value::KeyMap(entries) => {
            assert_eq!(entries.len(), 1);
            assert_eq!(entries[0].1, Value::List(vec![Value::U32(9)]));
        }
        other => panic!("expected a mapping, got {:?}", other),
    }
}

#[test]
fn quad_and_triple_roundtrip() {
    let v = Value::Triple(
        Box::new(Value::U32(7)),
        Box::new(Value::Bool(false)),
        Box::new(Value::Text(String::from("x"))),
    );
    let t = ValueType::Triple(
        Box::new(ValueType::U32),
        Box::new(ValueType::Bool),
        Box::new(ValueType::Text),
    );
    let back = roundtrip(v, &t);
    assert!(matches!(back, Value::Triple(_, _, _)));

    let q = Value::Quad(
        Box::new(Value::I64(-1)),
        Box::new(Value::U64(2)),
        Box::new(Value::Unit),
        Box::new(Value::Bool(true)),
    );
    let qt = ValueType::Quad(
        Box::new(ValueType::I64),
        Box::new(ValueType::U64),
        Box::new(ValueType::Unit),
        Box::new(ValueType::Bool),
    );
    let back = roundtrip(q, &qt);
    assert!(matches!(back, Value::Quad(_, _, _, _)));
}

#[test]
fn encoding_is_deterministic() {
    let v = Value::KeyMap(vec![(
        Value::Text(String::from("a")),
        Value::List(vec![Value::U32(1), Value::U32(2)]),
    )]);
    assert_eq!(encode_to_bytes(&v), encode_to_bytes(&v));
}

#[test]
fn truncated_varint_is_malformed() {
    let t = ValueType::U64;
    assert_eq!(extract_value(&t, &[0x80]), Err(DecodeError::Malformed));
    assert_eq!(extract_value(&t, &[]), Err(DecodeError::Malformed));
    assert_eq!(
        extract_value(&t, &[0xFF, 0xFF, 0xFF]),
        Err(DecodeError::Malformed)
    );
}

#[test]
fn truncated_string_is_malformed() {
    let mut bytes = encode_to_bytes(&Value::Text(String::from("abc")));
    bytes.pop();
    assert_eq!(
        extract_value(&ValueType::Text, &bytes),
        Err(DecodeError::Malformed)
    );
}

#[test]
fn invalid_utf8_is_malformed() {
    let bytes = vec![2, 0xFF, 0xFF];
    assert_eq!(
        extract_value(&ValueType::Text, &bytes),
        Err(DecodeError::Malformed)
    );
}

#[test]
fn oversized_varint_for_u32_is_malformed() {
    let bytes = encode_to_bytes(&Value::U64(0x1_0000_0000));
    assert_eq!(
        extract_value(&ValueType::U32, &bytes),
        Err(DecodeError::Malformed)
    );
}

#[test]
fn bad_envelope_tag_is_malformed() {
    let t = ValueType::List(Box::new(ValueType::U32));
    assert_eq!(extract_value(&t, &[0x12, 0x00]), Err(DecodeError::Malformed));
}

#[test]
fn nonzero_varint_decodes_as_true() {
    assert_eq!(
        extract_value(&ValueType::Bool, &[2]),
        Ok(Value::Bool(true))
    );
}

#[test]
fn value_eq_is_structural() {
    let a = Value::List(vec![Value::Text(String::from("x"))]);
    let b = Value::List(vec![Value::Text(String::from("x"))]);
    let c = Value::List(vec![Value::Text(String::from("y"))]);
    assert!(value_eq(&a, &b));
    assert!(!value_eq(&a, &c));
    assert!(!value_eq(&a, &Value::U32(1)));
}

#[test]
fn read_message_frames() {
    let buf = [3u8, 10, 20, 30, 99];
    let (msg, used) = read_message(&buf).unwrap();
    assert_eq!(msg, vec![10, 20, 30]);
    assert_eq!(used, 4);
    assert_eq!(read_message(&[5u8, 1, 2]), Err(DecodeError::Malformed));
}
