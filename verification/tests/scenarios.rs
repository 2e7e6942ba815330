use aglio::{deserialize, serialize, DeserializeError, Kind, Value};

#[test]
fn encodes_true() {
    let packet = serialize(&Value::Bool(true)).unwrap();
    assert_eq!(packet, vec![0xAA, 0x55, 0x03, 0x00, 0x01, 0xE3, 0xEB]);
    assert_eq!(deserialize(&Kind::Bool, &packet), Ok(Value::Bool(true)));
}

#[test]
fn encodes_u32() {
    let packet = serialize(&Value::U32(0x11223344)).unwrap();
    assert_eq!(packet, vec![0xAA, 0x55, 0x06, 0x00, 0x44, 0x33, 0x22, 0x11, 0x0C, 0xC3]);
    assert_eq!(deserialize(&Kind::U32, &packet), Ok(Value::U32(0x11223344)));
}

#[test]
fn encodes_text() {
    let packet = serialize(&Value::Str("OK")).unwrap();
    assert_eq!(
        packet,
        vec![0xAA, 0x55, 0x08, 0x00, 0x02, 0x00, 0x00, 0x00, 0x4F, 0x4B, 0x1E, 0x4A]
    );
    assert_eq!(deserialize(&Kind::Str, &packet), Ok(Value::Str("OK")));
    assert_eq!(deserialize(&Kind::String, &packet), Ok(Value::String("OK".to_string())));
}

#[test]
fn encodes_absent_option() {
    let packet = serialize(&Value::Optional(None)).unwrap();
    assert_eq!(packet, vec![0xAA, 0x55, 0x03, 0x00, 0x00, 0x22, 0x2B]);
    let kind = Kind::Optional(Box::new(Kind::U16));
    assert_eq!(deserialize(&kind, &packet), Ok(Value::Optional(None)));
}

#[test]
fn encodes_variant_with_payload() {
    let value = Value::Variant(2, Box::new(Value::U8(7)));
    let packet = serialize(&value).unwrap();
    assert_eq!(packet, vec![0xAA, 0x55, 0x04, 0x00, 0x02, 0x07, 0xAA, 0x70]);
    let kind = Kind::Enum(vec![Kind::Unit, Kind::Unit, Kind::U8]);
    assert_eq!(deserialize(&kind, &packet), Ok(value));
}

#[test]
fn encodes_struct_as_concatenation() {
    let value = Value::Tuple(vec![Value::U8(1), Value::U8(2), Value::U8(3)]);
    let packet = serialize(&value).unwrap();
    assert_eq!(packet, vec![0xAA, 0x55, 0x05, 0x00, 0x01, 0x02, 0x03, 0x3E, 0x51]);
    let kind = Kind::Tuple(vec![Kind::U8, Kind::U8, Kind::U8]);
    assert_eq!(deserialize(&kind, &packet), Ok(value));
}

#[test]
fn corrupted_body_fails_the_checksum() {
    let mut packet = serialize(&Value::Str("OK")).unwrap();
    packet[9] ^= 0x01;
    assert_eq!(deserialize(&Kind::Str, &packet), Err(DeserializeError::ChecksumError));
}
