use aglio::frame::starts_with;
use aglio::{
    deserialize, deserialize_with_config, pack, serialize, serialize_with_config, unpack,
    AglioConfig, CrcAlgorithm, DeserializeError, Endianess, Kind, LengthWidth, SerializeError,
    Value,
};

fn ibm_3740() -> CrcAlgorithm {
    CrcAlgorithm {
        poly: 0x1021,
        init: 0xffff,
        refin: false,
        refout: false,
        xorout: 0x0000,
        check: 0x29b1,
        residue: 0x0000,
    }
}

fn big_config() -> AglioConfig {
    AglioConfig {
        endianess: Endianess::Big,
        packet_start: vec![0x7E],
        length_width: LengthWidth::U8,
        body_crc: Some(ibm_3740()),
    }
}

fn sample() -> (Value<'static>, Kind) {
    let value = Value::Tuple(vec![
        Value::Str("serial-1"),
        Value::U32(48_000),
        Value::Tuple(vec![Value::U8(1), Value::U8(2), Value::U8(3)]),
        Value::Sequence(vec![Value::U16(10), Value::U16(20), Value::U16(30)]),
        Value::Optional(Some(Box::new(Value::F64(0.5f64.to_bits())))),
        Value::Variant(2, Box::new(Value::Newtype(Box::new(Value::I32(-5))))),
        Value::Mapping(vec![(Value::Char('k'), Value::ByteBuf(vec![1, 2, 3]))]),
        Value::Unit,
    ]);
    let kind = Kind::Tuple(vec![
        Kind::Str,
        Kind::U32,
        Kind::Tuple(vec![Kind::U8, Kind::U8, Kind::U8]),
        Kind::Sequence(Box::new(Kind::U16)),
        Kind::Optional(Box::new(Kind::F64)),
        Kind::Enum(vec![Kind::Unit, Kind::Bool, Kind::Newtype(Box::new(Kind::I32))]),
        Kind::Mapping(Box::new(Kind::Char), Box::new(Kind::ByteBuf)),
        Kind::Unit,
    ]);
    (value, kind)
}

#[test]
fn default_configuration_is_as_documented() {
    let config = AglioConfig::default();
    assert_eq!(config.endianess, Endianess::Little);
    assert_eq!(config.packet_start, vec![0xAA, 0x55]);
    assert_eq!(config.length_width, LengthWidth::U32);
    assert_eq!(config.body_crc, Some(CrcAlgorithm::usb()));
    let usb = CrcAlgorithm::usb();
    assert_eq!(usb.poly, 0x8005);
    assert_eq!(usb.init, 0xFFFF);
    assert!(usb.refin && usb.refout);
    assert_eq!(usb.xorout, 0xFFFF);
    assert_eq!(config.clone(), config);
}

#[test]
fn checksum_is_the_named_algorithm() {
    let usb = crc::Crc::<u16>::new(&crc::CRC_16_USB);
    let packet = serialize(&Value::U64(0xDEADBEEF)).unwrap();
    let (covered, field) = packet.split_at(packet.len() - 2);
    assert_eq!(field, &usb.checksum(covered).to_le_bytes()[..]);
    assert_eq!(usb.checksum(b"123456789"), CrcAlgorithm::usb().check);

    let other = crc::Crc::<u16>::new(&crc::CRC_16_IBM_3740);
    let packet = serialize_with_config(big_config(), &Value::U64(0xDEADBEEF)).unwrap();
    let (covered, field) = packet.split_at(packet.len() - 2);
    assert_eq!(field, &other.checksum(covered).to_be_bytes()[..]);
}

#[test]
fn big_endian_packet_is_bit_exact() {
    let packet = serialize_with_config(big_config(), &Value::U16(0x1234)).unwrap();
    assert_eq!(packet, vec![0x7E, 0x00, 0x04, 0x12, 0x34, 0x0C, 0x24]);
    assert_eq!(deserialize_with_config(big_config(), &Kind::U16, &packet), Ok(Value::U16(0x1234)));
}

#[test]
fn packet_without_checksum_ends_with_the_body() {
    let config = AglioConfig { body_crc: None, ..AglioConfig::default() };
    let packet = serialize_with_config(config.clone(), &Value::Bool(true)).unwrap();
    assert_eq!(packet, vec![0xAA, 0x55, 0x03, 0x00, 0x01]);
    assert_eq!(deserialize_with_config(config, &Kind::Bool, &packet), Ok(Value::Bool(true)));
}

#[test]
fn empty_sentinel_is_allowed() {
    let config = AglioConfig { packet_start: vec![], body_crc: None, ..AglioConfig::default() };
    let packet = serialize_with_config(config.clone(), &Value::U8(9)).unwrap();
    assert_eq!(packet, vec![0x03, 0x00, 0x09]);
    assert_eq!(deserialize_with_config(config, &Kind::U8, &packet), Ok(Value::U8(9)));
}

#[test]
fn round_trip_under_every_configuration() {
    let (value, kind) = sample();
    for endianess in [Endianess::Little, Endianess::Big] {
        for width in [LengthWidth::U8, LengthWidth::U16, LengthWidth::U32, LengthWidth::U64] {
            for crc in [None, Some(CrcAlgorithm::usb()), Some(ibm_3740())] {
                for sentinel in [vec![], vec![0xAA, 0x55], vec![1, 2, 3, 4, 5]] {
                    let config = AglioConfig {
                        endianess,
                        packet_start: sentinel,
                        length_width: width,
                        body_crc: crc,
                    };
                    let packet = serialize_with_config(config.clone(), &value).unwrap();
                    let back = deserialize_with_config(config, &kind, &packet).unwrap();
                    assert_eq!(back, value);
                }
            }
        }
    }
}

#[test]
fn decoding_twice_gives_the_same_and_leaves_the_input() {
    let (value, kind) = sample();
    let packet = serialize(&value).unwrap();
    let copy = packet.clone();
    let first = deserialize(&kind, &packet);
    let second = deserialize(&kind, &packet);
    assert_eq!(first, second);
    assert_eq!(packet, copy);
    let broken = &packet[..packet.len() - 3];
    assert_eq!(deserialize(&kind, broken), deserialize(&kind, broken));
}

#[test]
fn numbers_are_byte_reverses_under_the_two_orders() {
    let numbers = [
        Value::U16(0x1234),
        Value::U32(0xA1B2C3D4),
        Value::U64(0x0102030405060708),
        Value::U128(0x1122334455667788_99AABBCCDDEEFF00),
        Value::I16(-300),
        Value::I32(-70_000),
        Value::I64(i64::MIN + 1),
        Value::I128(-1_000_000_000_000),
        Value::F32(6.5f32.to_bits()),
        Value::F64(1e100f64.to_bits()),
    ];
    for number in &numbers {
        let little_config =
            AglioConfig { body_crc: None, endianess: Endianess::Little, ..AglioConfig::default() };
        let big_config =
            AglioConfig { body_crc: None, endianess: Endianess::Big, ..AglioConfig::default() };
        let little = serialize_with_config(little_config, number).unwrap();
        let big = serialize_with_config(big_config, number).unwrap();
        assert_eq!(&little[..2], &big[..2]);
        let mut reversed = little[4..].to_vec();
        reversed.reverse();
        assert_eq!(reversed, &big[4..]);
        let mut length = little[2..4].to_vec();
        length.reverse();
        assert_eq!(length, &big[2..4]);
    }
}

#[test]
fn flipping_any_byte_before_the_checksum_is_a_checksum_error() {
    let (value, kind) = sample();
    let packet = serialize(&value).unwrap();
    for at in 0..packet.len() - 2 {
        for bit in 0..8 {
            let mut tampered = packet.clone();
            tampered[at] ^= 1 << bit;
            assert_eq!(deserialize(&kind, &tampered), Err(DeserializeError::ChecksumError));
        }
    }
}

#[test]
fn flipping_the_stored_checksum_is_a_checksum_error() {
    let packet = serialize(&Value::U8(1)).unwrap();
    let mut tampered = packet.clone();
    let last = tampered.len() - 1;
    tampered[last] ^= 0x80;
    assert_eq!(deserialize(&Kind::U8, &tampered), Err(DeserializeError::ChecksumError));
}

#[test]
fn checksum_is_checked_before_the_sentinel() {
    let mut packet = serialize(&Value::U8(1)).unwrap();
    packet[0] = 0x00;
    assert_eq!(deserialize(&Kind::U8, &packet), Err(DeserializeError::ChecksumError));
}

#[test]
fn short_input_with_checksum_is_invalid_length() {
    assert_eq!(deserialize(&Kind::U8, &[]), Err(DeserializeError::InvalidLength));
    assert_eq!(deserialize(&Kind::U8, &[0xAA]), Err(DeserializeError::InvalidLength));
}

#[test]
fn wrong_sentinel_is_invalid_packet_start() {
    let config = AglioConfig { body_crc: None, ..AglioConfig::default() };
    assert_eq!(
        deserialize_with_config(config.clone(), &Kind::U8, &[0xAA, 0x54, 3, 0, 1]),
        Err(DeserializeError::InvalidPacketStart)
    );
    assert_eq!(
        deserialize_with_config(config.clone(), &Kind::U8, &[0xAA]),
        Err(DeserializeError::InvalidPacketStart)
    );
    assert_eq!(
        deserialize_with_config(config, &Kind::U8, &[]),
        Err(DeserializeError::InvalidPacketStart)
    );
    let usb = crc::Crc::<u16>::new(&crc::CRC_16_USB);
    let mut packet = vec![0x55, 0xAA, 3, 0, 1];
    let sum = usb.checksum(&packet);
    packet.extend_from_slice(&sum.to_le_bytes());
    assert_eq!(deserialize(&Kind::U8, &packet), Err(DeserializeError::InvalidPacketStart));
}

#[test]
fn missing_length_field_is_invalid_length() {
    let config = AglioConfig { body_crc: None, ..AglioConfig::default() };
    assert_eq!(
        deserialize_with_config(config.clone(), &Kind::U8, &[0xAA, 0x55]),
        Err(DeserializeError::InvalidLength)
    );
    assert_eq!(
        deserialize_with_config(config, &Kind::U8, &[0xAA, 0x55, 3]),
        Err(DeserializeError::InvalidLength)
    );
}

#[test]
fn length_field_that_disagrees_is_invalid_data() {
    let config = AglioConfig { body_crc: None, ..AglioConfig::default() };
    assert_eq!(
        deserialize_with_config(config.clone(), &Kind::U8, &[0xAA, 0x55, 4, 0, 1]),
        Err(DeserializeError::InvalidData)
    );
    assert_eq!(
        deserialize_with_config(config.clone(), &Kind::U8, &[0xAA, 0x55, 2, 0, 1]),
        Err(DeserializeError::InvalidData)
    );
    assert_eq!(
        deserialize_with_config(config.clone(), &Kind::U8, &[0xAA, 0x55, 1, 0, 1]),
        Err(DeserializeError::InvalidData)
    );
    assert_eq!(
        deserialize_with_config(config, &Kind::U8, &[0xAA, 0x55, 3, 0, 1]),
        Ok(Value::U8(1))
    );
}

#[test]
fn body_errors_surface_through_the_frame() {
    let config = AglioConfig { body_crc: None, ..AglioConfig::default() };
    assert_eq!(
        deserialize_with_config(config.clone(), &Kind::Bool, &[0xAA, 0x55, 3, 0, 2]),
        Err(DeserializeError::InvalidData)
    );
    assert_eq!(
        deserialize_with_config(config.clone(), &Kind::U32, &[0xAA, 0x55, 3, 0, 2]),
        Err(DeserializeError::InvalidLength)
    );
    assert_eq!(
        deserialize_with_config(config.clone(), &Kind::Any, &[0xAA, 0x55, 3, 0, 2]),
        Err(DeserializeError::NotDescriptive)
    );
    let error =
        deserialize_with_config(config, &Kind::Str, &[0xAA, 0x55, 7, 0, 1, 0, 0, 0, 0xFF])
            .unwrap_err();
    assert!(matches!(error, DeserializeError::InvalidUtf8(_)));
}

#[test]
fn bytes_after_the_value_are_not_looked_at() {
    let config = AglioConfig { body_crc: None, ..AglioConfig::default() };
    assert_eq!(
        deserialize_with_config(config, &Kind::U8, &[0xAA, 0x55, 5, 0, 1, 9, 9]),
        Ok(Value::U8(1))
    );
}

#[test]
fn checksums_match_the_catalogue_check_values() {
    assert_eq!(CrcAlgorithm::usb().checksum(b"123456789"), 0xB4C8);
    assert_eq!(ibm_3740().checksum(b"123456789"), 0x29B1);
    assert_eq!(CrcAlgorithm::usb().checksum(b""), 0x0000);
    assert_eq!(ibm_3740().checksum(b""), 0xFFFF);
    let arc = CrcAlgorithm {
        poly: 0x8005,
        init: 0x0000,
        refin: true,
        refout: true,
        xorout: 0x0000,
        check: 0xbb3d,
        residue: 0x0000,
    };
    assert_eq!(arc.checksum(b"123456789"), 0xBB3D);
    let usb_in_other_words = CrcAlgorithm { check: 0, ..CrcAlgorithm::usb() };
    assert_eq!(usb_in_other_words.checksum(b"123456789"), 0xB4C8);
}

#[test]
fn packing_frames_a_body() {
    let config = AglioConfig::default();
    assert_eq!(pack(&config, &[0x01]), Ok(vec![0xAA, 0x55, 0x03, 0x00, 0x01, 0xE3, 0xEB]));
    let plain = AglioConfig { body_crc: None, ..AglioConfig::default() };
    assert_eq!(pack(&plain, &[]), Ok(vec![0xAA, 0x55, 0x02, 0x00]));
    assert_eq!(pack(&plain, &vec![0u8; 65533]).map(|packet| packet.len()), Ok(65537));
    assert_eq!(pack(&plain, &vec![0u8; 65534]), Err(SerializeError::TooLong));
    assert_eq!(pack(&big_config(), &[0x12, 0x34]), Ok(vec![0x7E, 0x00, 0x04, 0x12, 0x34, 0x0C, 0x24]));
}

#[test]
fn unpacking_hands_out_the_body() {
    let config = AglioConfig::default();
    let packet = vec![0xAA, 0x55, 0x04, 0x00, 0x02, 0x07, 0xAA, 0x70];
    let body = unpack(&config, &packet).unwrap();
    assert_eq!(body, &[0x02, 0x07][..]);
    assert_eq!(body.as_ptr(), packet[4..].as_ptr());
    assert_eq!(unpack(&config, &packet[..7]), Err(DeserializeError::ChecksumError));
    let plain = AglioConfig { body_crc: None, ..AglioConfig::default() };
    assert_eq!(unpack(&plain, &[0xAA, 0x55, 0x02, 0x00]), Ok(&[][..]));
    assert_eq!(unpack(&plain, &[0xAA, 0x55, 0x02]), Err(DeserializeError::InvalidLength));
    assert_eq!(unpack(&plain, &[0xAB, 0x55, 0x02, 0x00]), Err(DeserializeError::InvalidPacketStart));
    assert_eq!(unpack(&plain, &[0xAA, 0x55, 0x03, 0x00]), Err(DeserializeError::InvalidData));
}

#[test]
fn prefix_test_compares_the_opening_bytes() {
    assert!(starts_with(&[1, 2, 3], &[1, 2]));
    assert!(starts_with(&[1, 2, 3], &[1, 2, 3]));
    assert!(starts_with(&[1, 2, 3], &[]));
    assert!(starts_with(&[], &[]));
    assert!(!starts_with(&[1, 2], &[1, 2, 3]));
    assert!(!starts_with(&[1, 2, 3], &[1, 3]));
    assert!(!starts_with(&[], &[0]));
}
