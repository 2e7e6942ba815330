use aglio::{
    deserialize_with_config, serialize, serialize_with_config, AglioConfig, Decoder,
    DeserializeError, Encoder, Endianess, Kind, LengthWidth, SerializeError, Value,
};

fn body(width: LengthWidth, value: &Value) -> Result<Vec<u8>, SerializeError> {
    let mut encoder = Encoder::new(Endianess::Little, width);
    encoder.encode(value)?;
    Ok(encoder.data)
}

fn plain(width: LengthWidth) -> AglioConfig {
    AglioConfig {
        endianess: Endianess::Little,
        packet_start: vec![0xAA, 0x55],
        length_width: width,
        body_crc: None,
    }
}

#[test]
fn empty_containers_are_one_zero_prefix() {
    for (width, zeros) in [
        (LengthWidth::U8, vec![0u8; 1]),
        (LengthWidth::U16, vec![0u8; 2]),
        (LengthWidth::U32, vec![0u8; 4]),
        (LengthWidth::U64, vec![0u8; 8]),
    ] {
        assert_eq!(body(width, &Value::Sequence(vec![])), Ok(zeros.clone()));
        assert_eq!(body(width, &Value::Mapping(vec![])), Ok(zeros.clone()));
        assert_eq!(body(width, &Value::Str("")), Ok(zeros.clone()));
        assert_eq!(body(width, &Value::String(String::new())), Ok(zeros.clone()));
        assert_eq!(body(width, &Value::Bytes(&[])), Ok(zeros.clone()));
        assert_eq!(body(width, &Value::ByteBuf(vec![])), Ok(zeros.clone()));
    }
}

#[test]
fn empty_containers_decode_to_empty() {
    let bytes = vec![0u8; 4];
    let kinds = [
        (Kind::Sequence(Box::new(Kind::U64)), Value::Sequence(vec![])),
        (Kind::Mapping(Box::new(Kind::U8), Box::new(Kind::Str)), Value::Mapping(vec![])),
        (Kind::Str, Value::Str("")),
        (Kind::ByteBuf, Value::ByteBuf(vec![])),
    ];
    for (kind, expected) in kinds {
        let mut decoder = Decoder::new(Endianess::Little, LengthWidth::U32, &bytes);
        assert_eq!(decoder.decode(&kind), Ok(expected));
        assert!(decoder.data.is_empty());
    }
}

#[test]
fn nested_options_keep_both_levels() {
    let absent = Value::Optional(None);
    let present_absent = Value::Optional(Some(Box::new(Value::Optional(None))));
    let present_present =
        Value::Optional(Some(Box::new(Value::Optional(Some(Box::new(Value::U8(9)))))));
    assert_eq!(body(LengthWidth::U32, &absent), Ok(vec![0]));
    assert_eq!(body(LengthWidth::U32, &present_absent), Ok(vec![1, 0]));
    assert_eq!(body(LengthWidth::U32, &present_present), Ok(vec![1, 1, 9]));

    let kind = Kind::Optional(Box::new(Kind::Optional(Box::new(Kind::U8))));
    for value in [absent, present_absent, present_present] {
        let bytes = body(LengthWidth::U32, &value).unwrap();
        let mut decoder = Decoder::new(Endianess::Little, LengthWidth::U32, &bytes);
        assert_eq!(decoder.decode(&kind), Ok(value));
    }
}

#[test]
fn every_truncation_of_a_body_is_invalid_length() {
    let value = Value::Tuple(vec![
        Value::U16(7),
        Value::Str("héllo"),
        Value::Optional(Some(Box::new(Value::I64(-9)))),
        Value::Sequence(vec![Value::Bool(true), Value::Bool(false)]),
        Value::Mapping(vec![(Value::U8(1), Value::Char('x'))]),
        Value::Variant(1, Box::new(Value::Tuple(vec![Value::U32(5), Value::Bytes(&[1, 2])]))),
    ]);
    let kind = Kind::Tuple(vec![
        Kind::U16,
        Kind::Str,
        Kind::Optional(Box::new(Kind::I64)),
        Kind::Sequence(Box::new(Kind::Bool)),
        Kind::Mapping(Box::new(Kind::U8), Box::new(Kind::Char)),
        Kind::Enum(vec![Kind::Unit, Kind::Tuple(vec![Kind::U32, Kind::Bytes])]),
    ]);
    let bytes = body(LengthWidth::U16, &value).unwrap();
    let mut decoder = Decoder::new(Endianess::Little, LengthWidth::U16, &bytes);
    assert_eq!(decoder.decode(&kind), Ok(value));
    for cut in 0..bytes.len() {
        let mut decoder = Decoder::new(Endianess::Little, LengthWidth::U16, &bytes[..cut]);
        assert_eq!(decoder.decode(&kind), Err(DeserializeError::InvalidLength), "cut at {}", cut);
    }
}

#[test]
fn truncated_packet_without_checksum_is_rejected() {
    let packet = serialize_with_config(plain(LengthWidth::U32), &Value::U32(77)).unwrap();
    assert_eq!(packet, vec![0xAA, 0x55, 6, 0, 77, 0, 0, 0]);
    let short = &packet[..packet.len() - 1];
    assert_eq!(
        deserialize_with_config(plain(LengthWidth::U32), &Kind::U32, short),
        Err(DeserializeError::InvalidData)
    );
    assert_eq!(
        deserialize_with_config(plain(LengthWidth::U32), &Kind::U32, &packet[..3]),
        Err(DeserializeError::InvalidLength)
    );
    assert_eq!(
        deserialize_with_config(plain(LengthWidth::U32), &Kind::U32, &packet[..1]),
        Err(DeserializeError::InvalidPacketStart)
    );
}

#[test]
fn variant_index_equal_to_the_number_of_variants_is_invalid_data() {
    let kind = Kind::Enum(vec![Kind::Unit, Kind::Unit, Kind::U8]);
    let bytes = vec![3, 7];
    let mut decoder = Decoder::new(Endianess::Little, LengthWidth::U32, &bytes);
    assert_eq!(decoder.decode(&kind), Err(DeserializeError::InvalidData));
    let bytes = vec![200];
    let mut decoder = Decoder::new(Endianess::Little, LengthWidth::U32, &bytes);
    assert_eq!(decoder.decode(&kind), Err(DeserializeError::InvalidData));
    let bytes = vec![2, 7];
    let mut decoder = Decoder::new(Endianess::Little, LengthWidth::U32, &bytes);
    assert_eq!(decoder.decode(&kind), Ok(Value::Variant(2, Box::new(Value::U8(7)))));
    let mut decoder = Decoder::new(Endianess::Little, LengthWidth::U32, &bytes);
    assert_eq!(decoder.read_variant(2), Err(DeserializeError::InvalidData));
    assert_eq!(decoder.data, &[7][..]);
}

#[test]
fn length_prefix_beyond_the_buffer_is_invalid_length() {
    let bytes = vec![5, 0, 0, 0, b'a', b'b', b'c', b'd'];
    for kind in [Kind::Str, Kind::String, Kind::Bytes, Kind::ByteBuf, Kind::Char] {
        let mut decoder = Decoder::new(Endianess::Little, LengthWidth::U32, &bytes);
        assert_eq!(decoder.decode(&kind), Err(DeserializeError::InvalidLength));
    }
    let mut decoder = Decoder::new(Endianess::Little, LengthWidth::U32, &bytes);
    assert_eq!(
        decoder.decode(&Kind::Sequence(Box::new(Kind::U8))),
        Err(DeserializeError::InvalidLength)
    );
    let mut decoder = Decoder::new(Endianess::Big, LengthWidth::U64, &bytes);
    assert_eq!(decoder.decode(&Kind::Bytes), Err(DeserializeError::InvalidLength));
}

#[test]
fn one_byte_prefix_rejects_256_elements() {
    let full: Vec<Value> = (0..255).map(|_| Value::Unit).collect();
    assert_eq!(body(LengthWidth::U8, &Value::Sequence(full)), Ok(vec![255]));
    let over: Vec<Value> = (0..256).map(|_| Value::Unit).collect();
    assert_eq!(body(LengthWidth::U8, &Value::Sequence(over)), Err(SerializeError::TooLong));
    let more: Vec<Value> = (0..300).map(|i| Value::U16(i)).collect();
    assert_eq!(body(LengthWidth::U8, &Value::Sequence(more)), Err(SerializeError::TooLong));
    let pairs: Vec<(Value, Value)> = (0..256).map(|_| (Value::Unit, Value::Unit)).collect();
    assert_eq!(body(LengthWidth::U8, &Value::Mapping(pairs)), Err(SerializeError::TooLong));
    let bytes = vec![0u8; 256];
    assert_eq!(body(LengthWidth::U8, &Value::Bytes(&bytes)), Err(SerializeError::TooLong));
    assert_eq!(body(LengthWidth::U8, &Value::Bytes(&bytes[..255])).unwrap().len(), 256);
    let text = "x".repeat(256);
    assert_eq!(body(LengthWidth::U8, &Value::Str(&text)), Err(SerializeError::TooLong));
    let config = AglioConfig { length_width: LengthWidth::U8, ..AglioConfig::default() };
    assert_eq!(
        serialize_with_config(config, &Value::Bytes(&bytes)),
        Err(SerializeError::TooLong)
    );
}

#[test]
fn two_byte_prefix_rejects_65536_elements() {
    let bytes = vec![0u8; 65536];
    assert_eq!(body(LengthWidth::U16, &Value::Bytes(&bytes)), Err(SerializeError::TooLong));
    assert_eq!(body(LengthWidth::U16, &Value::Bytes(&bytes[..65535])).unwrap().len(), 65537);
}

#[test]
fn body_that_overflows_the_length_field_is_too_long() {
    let largest = vec![7u8; 65535 - 2 - 4];
    let packet = serialize(&Value::Bytes(&largest)).unwrap();
    assert_eq!(packet.len(), 2 + 65535 + 2);
    assert_eq!(&packet[2..4], &[0xFF, 0xFF]);
    let over = vec![7u8; 65535 - 2 - 4 + 1];
    assert_eq!(serialize(&Value::Bytes(&over)), Err(SerializeError::TooLong));
}

#[test]
fn tuples_and_structs_have_no_length_prefix() {
    let value = Value::Tuple(vec![Value::U8(1), Value::U16(0x0302), Value::Bool(true)]);
    assert_eq!(body(LengthWidth::U32, &value), Ok(vec![1, 2, 3, 1]));
    let variant = Value::Variant(1, Box::new(value));
    assert_eq!(body(LengthWidth::U32, &variant), Ok(vec![1, 1, 2, 3, 1]));
}

#[test]
fn sequence_prefix_counts_elements_not_bytes() {
    let value = Value::Sequence(vec![Value::U32(1), Value::U32(2)]);
    assert_eq!(body(LengthWidth::U8, &value), Ok(vec![2, 1, 0, 0, 0, 2, 0, 0, 0]));
    let map = Value::Mapping(vec![
        (Value::U8(1), Value::Str("a")),
        (Value::U8(2), Value::Str("bc")),
    ]);
    assert_eq!(body(LengthWidth::U8, &map), Ok(vec![2, 1, 1, b'a', 2, 2, b'b', b'c']));
    let kind = Kind::Mapping(Box::new(Kind::U8), Box::new(Kind::Str));
    let bytes = body(LengthWidth::U8, &map).unwrap();
    let mut decoder = Decoder::new(Endianess::Little, LengthWidth::U8, &bytes);
    assert_eq!(decoder.decode(&kind), Ok(map));
}
