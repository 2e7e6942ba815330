use aglio::{Decoder, DeserializeError, Encoder, Endianess, Fault, Kind, LengthWidth, Value};

fn encode_with(endianess: Endianess, width: LengthWidth, value: &Value) -> Vec<u8> {
    let mut encoder = Encoder::new(endianess, width);
    encoder.encode(value).unwrap();
    encoder.data
}

fn little(value: &Value) -> Vec<u8> {
    encode_with(Endianess::Little, LengthWidth::U32, value)
}

fn big(value: &Value) -> Vec<u8> {
    encode_with(Endianess::Big, LengthWidth::U32, value)
}

#[test]
fn bool_is_one_byte() {
    assert_eq!(little(&Value::Bool(false)), vec![0x00]);
    assert_eq!(little(&Value::Bool(true)), vec![0x01]);
    assert_eq!(big(&Value::Bool(true)), vec![0x01]);
}

#[test]
fn unsigned_integers_little_endian() {
    assert_eq!(little(&Value::U8(0xAB)), vec![0xAB]);
    assert_eq!(little(&Value::U16(0x1234)), vec![0x34, 0x12]);
    assert_eq!(little(&Value::U32(0x11223344)), vec![0x44, 0x33, 0x22, 0x11]);
    assert_eq!(
        little(&Value::U64(0x0102030405060708)),
        vec![0x08, 0x07, 0x06, 0x05, 0x04, 0x03, 0x02, 0x01]
    );
    assert_eq!(
        little(&Value::U128(0x0102030405060708090A0B0C0D0E0F10)),
        vec![
            0x10, 0x0F, 0x0E, 0x0D, 0x0C, 0x0B, 0x0A, 0x09, 0x08, 0x07, 0x06, 0x05, 0x04, 0x03,
            0x02, 0x01
        ]
    );
}

#[test]
fn unsigned_integers_big_endian() {
    assert_eq!(big(&Value::U8(0xAB)), vec![0xAB]);
    assert_eq!(big(&Value::U16(0x1234)), vec![0x12, 0x34]);
    assert_eq!(big(&Value::U32(0x11223344)), vec![0x11, 0x22, 0x33, 0x44]);
    assert_eq!(
        big(&Value::U64(0x0102030405060708)),
        vec![0x01, 0x02, 0x03, 0x04, 0x05, 0x06, 0x07, 0x08]
    );
    assert_eq!(
        big(&Value::U128(0x0102030405060708090A0B0C0D0E0F10)),
        vec![
            0x01, 0x02, 0x03, 0x04, 0x05, 0x06, 0x07, 0x08, 0x09, 0x0A, 0x0B, 0x0C, 0x0D, 0x0E,
            0x0F, 0x10
        ]
    );
}

#[test]
fn signed_integers_are_twos_complement() {
    assert_eq!(little(&Value::I8(-1)), vec![0xFF]);
    assert_eq!(little(&Value::I8(i8::MIN)), vec![0x80]);
    assert_eq!(little(&Value::I8(i8::MAX)), vec![0x7F]);
    assert_eq!(little(&Value::I16(-2)), vec![0xFE, 0xFF]);
    assert_eq!(big(&Value::I16(-2)), vec![0xFF, 0xFE]);
    assert_eq!(little(&Value::I32(-0x01020304)), (-0x01020304i32).to_le_bytes().to_vec());
    assert_eq!(big(&Value::I32(i32::MIN)), vec![0x80, 0x00, 0x00, 0x00]);
    assert_eq!(little(&Value::I64(-3)), (-3i64).to_le_bytes().to_vec());
    assert_eq!(big(&Value::I64(i64::MIN + 5)), (i64::MIN + 5).to_be_bytes().to_vec());
    assert_eq!(little(&Value::I128(-1)), vec![0xFF; 16]);
    assert_eq!(big(&Value::I128(i128::MIN)), i128::MIN.to_be_bytes().to_vec());
    assert_eq!(little(&Value::I128(i128::MAX)), i128::MAX.to_le_bytes().to_vec());
}

#[test]
fn floats_are_their_bit_patterns() {
    assert_eq!(little(&Value::F32(1.0f32.to_bits())), vec![0x00, 0x00, 0x80, 0x3F]);
    assert_eq!(big(&Value::F32(1.0f32.to_bits())), vec![0x3F, 0x80, 0x00, 0x00]);
    assert_eq!(little(&Value::F64((-2.5f64).to_bits())), (-2.5f64).to_le_bytes().to_vec());
    assert_eq!(big(&Value::F64((-2.5f64).to_bits())), (-2.5f64).to_be_bytes().to_vec());
}

#[test]
fn every_number_decodes_to_itself() {
    let cases = vec![
        (Value::U8(200), Kind::U8),
        (Value::U16(60000), Kind::U16),
        (Value::U32(4_000_000_000), Kind::U32),
        (Value::U64(u64::MAX), Kind::U64),
        (Value::U128(u128::MAX - 7), Kind::U128),
        (Value::I8(-128), Kind::I8),
        (Value::I8(127), Kind::I8),
        (Value::I16(-32768), Kind::I16),
        (Value::I32(-1), Kind::I32),
        (Value::I32(i32::MAX), Kind::I32),
        (Value::I64(i64::MIN), Kind::I64),
        (Value::I128(i128::MIN), Kind::I128),
        (Value::I128(-42), Kind::I128),
        (Value::F32(3.25f32.to_bits()), Kind::F32),
        (Value::F64(f64::MAX.to_bits()), Kind::F64),
    ];
    for endianess in [Endianess::Little, Endianess::Big] {
        for (value, kind) in &cases {
            let bytes = encode_with(endianess, LengthWidth::U16, value);
            let mut decoder = Decoder::new(endianess, LengthWidth::U16, &bytes);
            assert_eq!(decoder.decode(kind).as_ref(), Ok(value));
            assert!(decoder.data.is_empty());
        }
    }
}

#[test]
fn typed_reads_give_plain_values() {
    let bytes = vec![0x01, 0xFE, 0xFF, 0x44, 0x33, 0x22, 0x11, 0x00, 0x00, 0x80, 0x3F];
    let mut decoder = Decoder::new(Endianess::Little, LengthWidth::U32, &bytes);
    assert_eq!(decoder.read_bool(), Ok(true));
    assert_eq!(decoder.read_i16(), Ok(-2));
    assert_eq!(decoder.read_u32(), Ok(0x11223344));
    assert_eq!(decoder.read_f32().map(f32::from_bits), Ok(1.0f32));
    assert_eq!(decoder.data.len(), 0);
}

#[test]
fn reading_past_the_end_is_invalid_length() {
    let bytes = vec![0x01, 0x02, 0x03];
    let mut decoder = Decoder::new(Endianess::Little, LengthWidth::U32, &bytes);
    assert_eq!(decoder.read_u32(), Err(DeserializeError::InvalidLength));
    assert_eq!(decoder.data, &bytes[..]);
    assert_eq!(decoder.read_u16(), Ok(0x0201));
    assert_eq!(decoder.read_u16(), Err(DeserializeError::InvalidLength));
    assert_eq!(decoder.read_u8(), Ok(3));
    assert_eq!(decoder.read_u8(), Err(DeserializeError::InvalidLength));
    assert_eq!(decoder.read_bool(), Err(DeserializeError::InvalidLength));
    assert_eq!(decoder.read_option_tag(), Err(DeserializeError::InvalidLength));
    assert_eq!(decoder.read_variant(4), Err(DeserializeError::InvalidLength));
}

#[test]
fn bad_truth_value_is_invalid_data_and_is_consumed() {
    let bytes = vec![0x02, 0x01];
    let mut decoder = Decoder::new(Endianess::Little, LengthWidth::U32, &bytes);
    assert_eq!(decoder.read_bool(), Err(DeserializeError::InvalidData));
    assert_eq!(decoder.data, &[0x01][..]);
    assert_eq!(decoder.read_bool(), Ok(true));
}

#[test]
fn bad_option_tag_is_invalid_data_and_is_consumed() {
    let bytes = vec![0x07, 0x00];
    let mut decoder = Decoder::new(Endianess::Little, LengthWidth::U32, &bytes);
    let kind = Kind::Optional(Box::new(Kind::U8));
    assert_eq!(decoder.decode(&kind), Err(DeserializeError::InvalidData));
    assert_eq!(decoder.data, &[0x00][..]);
    assert_eq!(decoder.decode(&kind), Ok(Value::Optional(None)));
}

#[test]
fn length_prefix_has_the_configured_width() {
    let value = Value::Bytes(&[9, 8, 7]);
    assert_eq!(encode_with(Endianess::Little, LengthWidth::U8, &value), vec![3, 9, 8, 7]);
    assert_eq!(encode_with(Endianess::Little, LengthWidth::U16, &value), vec![3, 0, 9, 8, 7]);
    assert_eq!(encode_with(Endianess::Big, LengthWidth::U16, &value), vec![0, 3, 9, 8, 7]);
    assert_eq!(
        encode_with(Endianess::Little, LengthWidth::U32, &value),
        vec![3, 0, 0, 0, 9, 8, 7]
    );
    assert_eq!(
        encode_with(Endianess::Big, LengthWidth::U64, &value),
        vec![0, 0, 0, 0, 0, 0, 0, 3, 9, 8, 7]
    );
    assert_eq!(LengthWidth::U8.bytes(), 1);
    assert_eq!(LengthWidth::U64.bytes(), 8);
    assert_eq!(LengthWidth::U8.max(), 255);
    assert_eq!(LengthWidth::U16.max(), 65535);
    assert_eq!(LengthWidth::U32.max(), 0xFFFF_FFFF);
    assert_eq!(LengthWidth::U64.max(), u64::MAX);
}

#[test]
fn character_is_a_counted_utf8_string() {
    assert_eq!(little(&Value::Char('A')), vec![1, 0, 0, 0, 0x41]);
    assert_eq!(little(&Value::Char('é')), vec![2, 0, 0, 0, 0xC3, 0xA9]);
    assert_eq!(little(&Value::Char('€')), vec![3, 0, 0, 0, 0xE2, 0x82, 0xAC]);
    assert_eq!(little(&Value::Char('😀')), vec![4, 0, 0, 0, 0xF0, 0x9F, 0x98, 0x80]);
    let bytes = little(&Value::Char('€'));
    let mut decoder = Decoder::new(Endianess::Little, LengthWidth::U32, &bytes);
    assert_eq!(decoder.read_char(), Ok('€'));
}

#[test]
fn character_takes_the_first_of_a_longer_text() {
    let bytes = little(&Value::Str("hey"));
    let mut decoder = Decoder::new(Endianess::Little, LengthWidth::U32, &bytes);
    assert_eq!(decoder.decode(&Kind::Char), Ok(Value::Char('h')));
    assert!(decoder.data.is_empty());
}

#[test]
fn empty_character_is_invalid_length() {
    let bytes = vec![0, 0, 0, 0];
    let mut decoder = Decoder::new(Endianess::Little, LengthWidth::U32, &bytes);
    assert_eq!(decoder.decode(&Kind::Char), Err(DeserializeError::InvalidLength));
}

#[test]
fn text_that_is_not_utf8_is_invalid_utf8() {
    let bytes = vec![2, 0, 0, 0, 0xC3, 0x28];
    for kind in [Kind::Str, Kind::String, Kind::Char] {
        let mut decoder = Decoder::new(Endianess::Little, LengthWidth::U32, &bytes);
        let error = decoder.decode(&kind).unwrap_err();
        assert!(matches!(error, DeserializeError::InvalidUtf8(_)));
        assert_eq!(error.fault(), Fault::InvalidUtf8);
    }
    let mut decoder = Decoder::new(Endianess::Little, LengthWidth::U32, &bytes);
    assert_eq!(decoder.decode(&Kind::Bytes), Ok(Value::Bytes(&[0xC3, 0x28])));
}

#[test]
fn borrowed_kinds_borrow_and_owned_kinds_own() {
    let bytes = little(&Value::Str("zero copy"));
    let mut decoder = Decoder::new(Endianess::Little, LengthWidth::U32, &bytes);
    let text = decoder.read_str().unwrap();
    assert_eq!(text, "zero copy");
    assert_eq!(text.as_ptr(), bytes[4..].as_ptr());

    let mut decoder = Decoder::new(Endianess::Little, LengthWidth::U32, &bytes);
    let blob = decoder.read_bytes().unwrap();
    assert_eq!(blob.as_ptr(), bytes[4..].as_ptr());

    let mut decoder = Decoder::new(Endianess::Little, LengthWidth::U32, &bytes);
    assert_eq!(decoder.decode(&Kind::Str), Ok(Value::Str("zero copy")));
    let mut decoder = Decoder::new(Endianess::Little, LengthWidth::U32, &bytes);
    assert_eq!(decoder.decode(&Kind::String), Ok(Value::String("zero copy".to_string())));
    let mut decoder = Decoder::new(Endianess::Little, LengthWidth::U32, &bytes);
    assert_eq!(decoder.decode(&Kind::Bytes), Ok(Value::Bytes(b"zero copy")));
    let mut decoder = Decoder::new(Endianess::Little, LengthWidth::U32, &bytes);
    assert_eq!(decoder.decode(&Kind::ByteBuf), Ok(Value::ByteBuf(b"zero copy".to_vec())));
    let mut decoder = Decoder::new(Endianess::Little, LengthWidth::U32, &bytes);
    assert_eq!(decoder.read_string(), Ok("zero copy".to_string()));
    let mut decoder = Decoder::new(Endianess::Little, LengthWidth::U32, &bytes);
    assert_eq!(decoder.read_byte_buf(), Ok(b"zero copy".to_vec()));
}

#[test]
fn owned_and_borrowed_forms_encode_alike() {
    assert_eq!(little(&Value::String("abc".to_string())), little(&Value::Str("abc")));
    assert_eq!(little(&Value::ByteBuf(vec![1, 2])), little(&Value::Bytes(&[1, 2])));
    assert_eq!(little(&Value::Str("abc")), little(&Value::Bytes(b"abc")));
}

#[test]
fn self_describing_kinds_are_not_descriptive() {
    let bytes = vec![1, 2, 3];
    let mut decoder = Decoder::new(Endianess::Little, LengthWidth::U32, &bytes);
    assert_eq!(decoder.decode(&Kind::Any), Err(DeserializeError::NotDescriptive));
    assert_eq!(decoder.decode(&Kind::IgnoredAny), Err(DeserializeError::NotDescriptive));
    assert_eq!(decoder.data.len(), 3);
}

#[test]
fn unit_and_newtype_add_nothing() {
    assert_eq!(little(&Value::Unit), Vec::<u8>::new());
    assert_eq!(little(&Value::Newtype(Box::new(Value::U16(5)))), vec![5, 0]);
    let bytes = vec![5, 0];
    let mut decoder = Decoder::new(Endianess::Little, LengthWidth::U32, &bytes);
    assert_eq!(decoder.decode(&Kind::Unit), Ok(Value::Unit));
    assert_eq!(decoder.data.len(), 2);
    assert_eq!(
        decoder.decode(&Kind::Newtype(Box::new(Kind::U16))),
        Ok(Value::Newtype(Box::new(Value::U16(5))))
    );
}

#[test]
fn variant_index_is_one_byte_whatever_the_width() {
    let value = Value::Variant(3, Box::new(Value::Unit));
    for width in [LengthWidth::U8, LengthWidth::U16, LengthWidth::U32, LengthWidth::U64] {
        assert_eq!(encode_with(Endianess::Big, width, &value), vec![3]);
    }
}

#[test]
fn variant_index_above_255_is_too_long() {
    let mut encoder = Encoder::new(Endianess::Little, LengthWidth::U32);
    assert_eq!(encoder.write_variant(255), Ok(()));
    assert_eq!(encoder.write_variant(256), Err(aglio::SerializeError::TooLong));
    assert_eq!(encoder.data, vec![255]);
    let value = Value::Variant(256, Box::new(Value::Unit));
    assert_eq!(encoder.encode(&value), Err(aglio::SerializeError::TooLong));
}

#[test]
fn patch_overwrites_two_bytes_in_place() {
    let mut encoder = Encoder::new(Endianess::Big, LengthWidth::U32);
    encoder.write_raw(&[1, 2, 3, 4, 5]);
    encoder.patch_u16(1, 0xABCD);
    assert_eq!(encoder.data, vec![1, 0xAB, 0xCD, 4, 5]);
    let mut encoder = Encoder::new(Endianess::Little, LengthWidth::U32);
    encoder.write_raw(&[1, 2, 3, 4, 5]);
    encoder.patch_u16(3, 0xABCD);
    assert_eq!(encoder.data, vec![1, 2, 3, 0xCD, 0xAB]);
}

#[test]
fn counted_run_is_prefix_and_body() {
    let mut encoder = Encoder::new(Endianess::Little, LengthWidth::U16);
    assert_eq!(encoder.write_counted(2, &[7, 7, 8, 8]), Ok(()));
    assert_eq!(encoder.data, vec![2, 0, 7, 7, 8, 8]);
    let mut encoder = Encoder::new(Endianess::Little, LengthWidth::U8);
    assert_eq!(encoder.write_counted(256, &[1]), Err(aglio::SerializeError::TooLong));
    assert!(encoder.data.is_empty());
    assert_eq!(encoder.write_len(255), Ok(()));
    assert_eq!(encoder.data, vec![255]);
}

#[test]
fn decoding_stops_where_the_fault_is_found() {
    let cases: Vec<(Kind, Vec<u8>, DeserializeError, Vec<u8>)> = vec![
        (
            Kind::Tuple(vec![Kind::U8, Kind::Bool, Kind::U8]),
            vec![5, 2, 9],
            DeserializeError::InvalidData,
            vec![9],
        ),
        (Kind::Bytes, vec![5, 0, 0, 0, 1, 2], DeserializeError::InvalidLength, vec![1, 2]),
        (Kind::Bytes, vec![5, 0, 0], DeserializeError::InvalidLength, vec![5, 0, 0]),
        (
            Kind::Sequence(Box::new(Kind::U16)),
            vec![2, 0, 0, 0, 1, 0, 9],
            DeserializeError::InvalidLength,
            vec![9],
        ),
        (
            Kind::Enum(vec![Kind::Unit, Kind::U8]),
            vec![3, 7],
            DeserializeError::InvalidData,
            vec![7],
        ),
        (
            Kind::Mapping(Box::new(Kind::U8), Box::new(Kind::Optional(Box::new(Kind::U8)))),
            vec![2, 0, 0, 0, 1, 0, 2, 5, 8],
            DeserializeError::InvalidData,
            vec![8],
        ),
        (Kind::Char, vec![0, 0, 0, 0, 4], DeserializeError::InvalidLength, vec![4]),
        (Kind::Any, vec![1, 2], DeserializeError::NotDescriptive, vec![1, 2]),
    ];
    for (kind, input, error, left) in cases {
        let mut decoder = Decoder::new(Endianess::Little, LengthWidth::U32, &input);
        assert_eq!(decoder.decode(&kind), Err(error));
        assert_eq!(decoder.data, &left[..]);
    }
    let input = vec![2, 0, 0, 0, 0xC3, 0x28, 7];
    let mut decoder = Decoder::new(Endianess::Little, LengthWidth::U32, &input);
    assert!(matches!(decoder.decode(&Kind::Str), Err(DeserializeError::InvalidUtf8(_))));
    assert_eq!(decoder.data, &[7][..]);
}
