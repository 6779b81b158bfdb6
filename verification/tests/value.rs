use tcpros::encoder::Encoder;
use tcpros::error::Error;
use tcpros::value::Value;

fn encode(value: &Value) -> Result<Vec<u8>, Error> {
    let mut encoder = Encoder::new();
    value.encode(&mut encoder)?;
    let mut bytes = Vec::new();
    encoder.write_to(&mut bytes).unwrap();
    Ok(bytes)
}

fn bools(values: &[bool]) -> Value {
    Value::Sequence(values.iter().map(|b| Value::Bool(*b)).collect())
}

fn part(a: &str, b: bool) -> Value {
    Value::Struct(vec![Value::Str(String::from(a)), Value::Bool(b)])
}

fn worked_fields() -> Vec<Value> {
    vec![
        Value::I16(2050),
        Value::Bool(true),
        Value::U8(7),
        Value::Str(String::from("ABC012")),
        bools(&[true, false, false, true]),
    ]
}

#[test]
fn value_u32() {
    assert_eq!(vec![0x45, 0x23, 0x01, 0xCD], encode(&Value::U32(0xCD012345)).unwrap());
}

#[test]
fn value_i16() {
    assert_eq!(vec![0xD0, 0x8A], encode(&Value::I16(-30000)).unwrap());
}

#[test]
fn value_string() {
    assert_eq!(
        vec![13, 0, 0, 0, 72, 101, 108, 108, 111, 44, 32, 87, 111, 114, 108, 100, 33],
        encode(&Value::Str(String::from("Hello, World!"))).unwrap()
    );
    assert_eq!(vec![0, 0, 0, 0], encode(&Value::Str(String::new())).unwrap());
}

#[test]
fn value_string_counts_bytes_not_characters() {
    assert_eq!(
        vec![3, 0, 0, 0, 0xE2, 0x82, 0xAC],
        encode(&Value::Str(String::from("\u{20ac}"))).unwrap()
    );
}

#[test]
fn value_tuple() {
    assert_eq!(
        vec![
            26, 0, 0, 0, 2, 8, 1, 7, 6, 0, 0, 0, 65, 66, 67, 48, 49, 50, 8, 0, 0, 0, 4, 0, 0, 0,
            1, 0, 0, 1
        ],
        encode(&Value::Tuple(worked_fields())).unwrap()
    );
}

#[test]
fn value_struct_of_parts() {
    let big = Value::Struct(vec![
        Value::Sequence(vec![part("ABC", true), part("1!!!!", true), part("234b", false)]),
        Value::Str(String::from("EEe")),
    ]);
    let bytes = encode(&big).unwrap();
    assert_eq!(
        vec![
            54, 0, 0, 0, 43, 0, 0, 0, 3, 0, 0, 0, 8, 0, 0, 0, 3, 0, 0, 0, 65, 66, 67, 1, 10, 0, 0,
            0, 5, 0, 0, 0, 49, 33, 33, 33, 33, 1, 9, 0, 0, 0, 4, 0, 0, 0, 50, 51, 52, 98, 0, 3, 0,
            0, 0, 69, 69, 101
        ],
        bytes
    );
    assert_eq!(58, bytes.len());
}

#[test]
fn value_leaves() {
    assert_eq!(vec![150], encode(&Value::U8(150)).unwrap());
    assert_eq!(vec![0x34, 0xA2], encode(&Value::U16(0xA234)).unwrap());
    assert_eq!(
        vec![0xBB, 0xAA, 0x10, 0x32, 0x54, 0x76, 0x98, 0xAB],
        encode(&Value::U64(0xAB9876543210AABB)).unwrap()
    );
    assert_eq!(vec![156], encode(&Value::I8(-100)).unwrap());
    assert_eq!(vec![0x00, 0x6C, 0xCA, 0x88], encode(&Value::I32(-2000000000)).unwrap());
    assert_eq!(
        vec![0x00, 0x00, 0x7c, 0x1d, 0xaf, 0x93, 0x19, 0x83],
        encode(&Value::I64(-9000000000000000000)).unwrap()
    );
    assert_eq!(vec![1], encode(&Value::Bool(true)).unwrap());
    assert_eq!(vec![0], encode(&Value::Bool(false)).unwrap());
}

#[test]
fn value_floats_are_laid_out_by_their_bits() {
    assert_eq!(
        vec![0x00, 0x70, 0x7b, 0x44],
        encode(&Value::F32(1005.75f32.to_bits())).unwrap()
    );
    assert_eq!(
        vec![0x00, 0x00, 0x00, 0x00, 0x00, 0x6e, 0x8f, 0x40],
        encode(&Value::F64(1005.75f64.to_bits())).unwrap()
    );
}

#[test]
fn value_extremes() {
    assert_eq!(vec![0xFF; 8], encode(&Value::U64(u64::MAX)).unwrap());
    assert_eq!(vec![0; 8], encode(&Value::U64(0)).unwrap());
    assert_eq!(vec![0xFF; 8], encode(&Value::I64(-1)).unwrap());
    assert_eq!(
        vec![0, 0, 0, 0, 0, 0, 0, 0x80],
        encode(&Value::I64(i64::MIN)).unwrap()
    );
    assert_eq!(vec![0xFF, 0x7F], encode(&Value::I16(i16::MAX)).unwrap());
    assert_eq!(vec![0x00, 0x80], encode(&Value::I16(i16::MIN)).unwrap());
    assert_eq!(vec![0x80], encode(&Value::I8(i8::MIN)).unwrap());
    assert_eq!(vec![0xFF, 0xFF, 0xFF, 0xFF], encode(&Value::I32(-1)).unwrap());
}

#[test]
fn value_empty_composites() {
    assert_eq!(vec![0, 0, 0, 0], encode(&Value::Tuple(Vec::new())).unwrap());
    assert_eq!(vec![0, 0, 0, 0], encode(&Value::Struct(Vec::new())).unwrap());
    assert_eq!(
        vec![4, 0, 0, 0, 0, 0, 0, 0],
        encode(&Value::Sequence(Vec::new())).unwrap()
    );
}

#[test]
fn composite_begins_with_the_size_of_the_rest() {
    let values = vec![
        Value::Tuple(worked_fields()),
        Value::Struct(worked_fields()),
        Value::Sequence(vec![Value::U16(1), Value::U16(2), Value::U16(3)]),
        Value::Tuple(vec![Value::Tuple(vec![Value::Tuple(Vec::new())])]),
        Value::Sequence(vec![bools(&[true]), bools(&[]), bools(&[false, true])]),
    ];
    for value in &values {
        let bytes = encode(value).unwrap();
        let announced = u32::from_le_bytes([bytes[0], bytes[1], bytes[2], bytes[3]]);
        assert_eq!(bytes.len() - 4, announced as usize);
    }
}

#[test]
fn sequence_is_size_then_count_then_elements() {
    let elements = vec![
        Value::Str(String::from("a")),
        Value::Str(String::from("bcd")),
        Value::Str(String::new()),
    ];
    let mut joined = Vec::new();
    for element in &elements {
        joined.extend(encode(element).unwrap());
    }
    let mut expected = ((joined.len() + 4) as u32).to_le_bytes().to_vec();
    expected.extend_from_slice(&3u32.to_le_bytes());
    expected.extend(joined);
    assert_eq!(expected, encode(&Value::Sequence(elements)).unwrap());
}

#[test]
fn sequence_of_i16() {
    let elements = vec![Value::I16(7), Value::I16(1025), Value::I16(33), Value::I16(57)];
    assert_eq!(
        vec![12, 0, 0, 0, 4, 0, 0, 0, 7, 0, 1, 4, 33, 0, 57, 0],
        encode(&Value::Sequence(elements)).unwrap()
    );
}

#[test]
fn struct_and_tuple_of_the_same_fields_agree() {
    assert_eq!(
        encode(&Value::Tuple(worked_fields())).unwrap(),
        encode(&Value::Struct(worked_fields())).unwrap()
    );
    let nested = || vec![part("x", false), Value::Tuple(vec![Value::U64(1), part("", true)])];
    assert_eq!(
        encode(&Value::Tuple(nested())).unwrap(),
        encode(&Value::Struct(nested())).unwrap()
    );
}

#[test]
fn value_appends_to_what_the_encoder_holds() {
    let mut encoder = Encoder::new();
    encoder.emit_u8(9).unwrap();
    Value::Tuple(vec![Value::U8(1)]).encode(&mut encoder).unwrap();
    Value::Bool(true).encode(&mut encoder).unwrap();
    let mut bytes = Vec::new();
    encoder.write_to(&mut bytes).unwrap();
    assert_eq!(vec![9, 1, 0, 0, 0, 1, 1], bytes);
}

#[test]
fn unsupported_values_are_rejected() {
    let unsupported = vec![
        Value::Nil,
        Value::Usize(1),
        Value::Isize(-1),
        Value::Char('a'),
        Value::Optional(None),
        Value::Optional(Some(Box::new(Value::U8(1)))),
        Value::Keyed(Vec::new()),
        Value::Keyed(vec![(Value::U8(1), Value::U8(2))]),
        Value::Variant(0, Vec::new()),
        Value::Variant(1, vec![Value::U8(1)]),
    ];
    for value in &unsupported {
        assert!(matches!(encode(value), Err(Error::UnsupportedData)));
    }
}

#[test]
fn unsupported_part_makes_the_whole_unsupported() {
    let values = vec![
        Value::Tuple(vec![Value::U8(1), Value::Nil]),
        Value::Struct(vec![Value::Char('x'), Value::U8(1)]),
        Value::Sequence(vec![Value::Usize(1)]),
        Value::Tuple(vec![Value::Sequence(vec![Value::Struct(vec![Value::Optional(None)])])]),
    ];
    for value in &values {
        assert!(matches!(encode(value), Err(Error::UnsupportedData)));
    }
}

#[test]
fn bytes_written_before_an_unsupported_part_stay() {
    let mut encoder = Encoder::new();
    encoder.emit_u8(9).unwrap();
    let value = Value::Tuple(vec![Value::U8(1), Value::Nil, Value::U8(2)]);
    assert!(matches!(value.encode(&mut encoder), Err(Error::UnsupportedData)));
    let mut bytes = Vec::new();
    encoder.write_to(&mut bytes).unwrap();
    assert_eq!(vec![9, 0, 0, 0, 0, 1], bytes);
}
