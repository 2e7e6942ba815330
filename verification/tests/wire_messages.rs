use aglio::{
    deserialize, serialize, DeserializeError, Id, Kind, MeasureData, MessageType, MetaData,
    RxMessage, SetMetaData, SetRGB, StartOfFrame, TxMessage, Value, Version,
};

fn sample_id() -> Id {
    Id::new(
        "SN1".to_string(),
        "scope".to_string(),
        0x01020304,
        Version::new(1, 2, 3),
        Version::new(4, 5, 6),
        "abcd".to_string(),
    )
}

fn id_body() -> Vec<u8> {
    let mut body = vec![3, 0, 0, 0];
    body.extend_from_slice(b"SN1");
    body.extend_from_slice(&[5, 0, 0, 0]);
    body.extend_from_slice(b"scope");
    body.extend_from_slice(&[0x04, 0x03, 0x02, 0x01]);
    body.extend_from_slice(&[1, 2, 3, 4, 5, 6]);
    body.extend_from_slice(&[4, 0, 0, 0]);
    body.extend_from_slice(b"abcd");
    body
}

fn framed(body: &[u8]) -> Vec<u8> {
    let mut packet = vec![0xAA, 0x55];
    packet.extend_from_slice(&((body.len() + 2) as u16).to_le_bytes());
    packet.extend_from_slice(body);
    let sum = crc::Crc::<u16>::new(&crc::CRC_16_USB).checksum(&packet);
    packet.extend_from_slice(&sum.to_le_bytes());
    packet
}

#[test]
fn messages_without_payload_are_one_byte() {
    assert_eq!(TxMessage::GetId.serialize().unwrap(), framed(&[0]));
    assert_eq!(TxMessage::Ping.serialize().unwrap(), vec![0xAA, 0x55, 3, 0, 1, 0xE3, 0xEB]);
    assert_eq!(TxMessage::Start.serialize().unwrap(), framed(&[2]));
    assert_eq!(TxMessage::Stop.serialize().unwrap(), framed(&[3]));
    assert_eq!(TxMessage::GetMetaData.serialize().unwrap(), framed(&[6]));
}

#[test]
fn colour_message_is_index_and_three_bytes() {
    let message = TxMessage::SetRGB(SetRGB::new(0, 0, 255));
    assert_eq!(
        message.serialize().unwrap(),
        vec![0xAA, 0x55, 6, 0, 4, 0, 0, 255, 0x71, 0xE0]
    );
    assert_eq!(
        message.to_value(),
        Value::Variant(4, Box::new(Value::Tuple(vec![Value::U8(0), Value::U8(0), Value::U8(255)])))
    );
}

#[test]
fn meta_data_message_carries_its_text() {
    let message = TxMessage::SetMetaData(SetMetaData { data: "hi".to_string() });
    assert_eq!(message.serialize().unwrap(), framed(&[5, 2, 0, 0, 0, b'h', b'i']));
}

#[test]
fn version_converts_both_ways() {
    let version = Version::new(9, 8, 7);
    let value = version.to_value();
    assert_eq!(value, Value::Tuple(vec![Value::U8(9), Value::U8(8), Value::U8(7)]));
    let back = Version::from_value(&value).unwrap();
    assert_eq!((back.major(), back.minor(), back.patch()), (9, 8, 7));
    assert_eq!(Version::kind(), Kind::Tuple(vec![Kind::U8, Kind::U8, Kind::U8]));
    assert!(Version::from_value(&Value::Tuple(vec![Value::U8(1), Value::U8(2)])).is_none());
    assert!(Version::from_value(&Value::Tuple(vec![Value::U8(1), Value::U16(2), Value::U8(3)]))
        .is_none());
    assert!(Version::from_value(&Value::U8(1)).is_none());
}

#[test]
fn colour_converts_both_ways() {
    let colour = SetRGB::new(1, 2, 3);
    let back = SetRGB::from_value(&colour.to_value()).unwrap();
    assert_eq!((back.r(), back.g(), back.b()), (1, 2, 3));
    assert_eq!(SetRGB::kind(), Kind::Tuple(vec![Kind::U8, Kind::U8, Kind::U8]));
    assert!(SetRGB::from_value(&Value::Unit).is_none());
}

#[test]
fn identification_is_decoded_from_its_packet() {
    let mut body = vec![0];
    body.extend_from_slice(&id_body());
    let packet = framed(&body);
    match RxMessage::deserialize(&packet).unwrap() {
        RxMessage::Id(id) => {
            assert_eq!(id.serial(), "SN1");
            assert_eq!(id.device_type(), "scope");
            assert_eq!(id.sample_rate(), 0x01020304);
            assert_eq!(id.hw_version().minor(), 2);
            assert_eq!(id.sw_version().patch(), 6);
            assert_eq!(id.sw_git_hash(), "abcd");
        }
        other => panic!("unexpected message {:?}", other),
    }
}

#[test]
fn identification_encodes_to_its_body() {
    let id = sample_id();
    let packet = serialize(&id.to_value()).unwrap();
    assert_eq!(packet, framed(&id_body()));
    let decoded = deserialize(&Id::kind(), &packet).unwrap();
    let back = Id::from_value(&decoded).unwrap();
    assert_eq!(back.serial(), id.serial());
    assert_eq!(back.sw_git_hash(), id.sw_git_hash());
    let borrowed = id.to_value();
    assert_eq!(Id::from_value(&borrowed).unwrap().device_type(), "scope");
}

#[test]
fn samples_are_decoded_from_their_packet() {
    let body = vec![1, 7, 0xCD, 0xAB, 3, 0, 0, 0, 1, 0, 2, 0, 0xFF, 0xFF];
    let packet = framed(&body);
    let message = RxMessage::deserialize(&packet).unwrap();
    assert_eq!(message.message_type(), MessageType::MeasureData);
    match message {
        RxMessage::MeasureData(data) => {
            assert_eq!(data.package_counter, 7);
            assert_eq!(data.sof.content, 0xABCD);
            assert_eq!(data.data, vec![1, 2, 0xFFFF]);
        }
        other => panic!("unexpected message {:?}", other),
    }
}

#[test]
fn samples_convert_both_ways() {
    let data = MeasureData {
        package_counter: 200,
        sof: StartOfFrame { content: 1 },
        data: vec![10, 20, 30, 40],
    };
    let value = data.to_value();
    assert_eq!(
        value,
        Value::Tuple(vec![
            Value::U8(200),
            Value::Tuple(vec![Value::U16(1)]),
            Value::Sequence(vec![Value::U16(10), Value::U16(20), Value::U16(30), Value::U16(40)]),
        ])
    );
    let back = MeasureData::from_value(&value).unwrap();
    assert_eq!(back.data, vec![10, 20, 30, 40]);
    assert_eq!(back.sof.content, 1);
    let wrong = Value::Tuple(vec![
        Value::U8(200),
        Value::Tuple(vec![Value::U16(1)]),
        Value::Sequence(vec![Value::U16(10), Value::U8(20)]),
    ]);
    assert!(MeasureData::from_value(&wrong).is_none());
    assert!(StartOfFrame::from_value(&Value::Tuple(vec![Value::U8(1)])).is_none());
    assert_eq!(
        MeasureData::kind(),
        Kind::Tuple(vec![
            Kind::U8,
            Kind::Tuple(vec![Kind::U16]),
            Kind::Sequence(Box::new(Kind::U16))
        ])
    );
}

#[test]
fn meta_data_is_decoded_from_its_packet() {
    let body = vec![2, 4, 0, 0, 0, b'n', b'o', b't', b'e'];
    let message = RxMessage::deserialize(&framed(&body)).unwrap();
    assert_eq!(message.message_type(), MessageType::MetaData);
    match &message {
        RxMessage::MetaData(meta) => assert_eq!(meta.data, "note"),
        other => panic!("unexpected message {:?}", other),
    }
    assert_eq!(RxMessage::from_value(&message.to_value()).unwrap().message_type(), MessageType::MetaData);
    assert!(MetaData::from_value(&Value::Tuple(vec![Value::U8(1)])).is_none());
    assert_eq!(
        MetaData::from_value(&Value::Tuple(vec![Value::String("x".to_string())])).unwrap().data,
        "x"
    );
}

#[test]
fn message_kind_lists_the_three_arms() {
    assert_eq!(
        RxMessage::kind(),
        Kind::Enum(vec![Id::kind(), MeasureData::kind(), MetaData::kind()])
    );
    let message = RxMessage::Id(sample_id());
    assert_eq!(message.message_type(), MessageType::Id);
    let value = message.to_value();
    assert!(matches!(value, Value::Variant(0, _)));
    assert!(RxMessage::from_value(&Value::Variant(3, Box::new(Value::Unit))).is_none());
    assert!(RxMessage::from_value(&Value::Variant(0, Box::new(Value::Unit))).is_none());
    assert!(RxMessage::from_value(&Value::Unit).is_none());
}

#[test]
fn unknown_message_is_invalid_data() {
    assert_eq!(
        RxMessage::deserialize(&framed(&[3])).unwrap_err(),
        DeserializeError::InvalidData
    );
    assert_eq!(
        RxMessage::deserialize(&framed(&[1, 7])).unwrap_err(),
        DeserializeError::InvalidLength
    );
    let mut packet = framed(&[2, 0, 0, 0, 0]);
    packet[4] = 1;
    assert_eq!(RxMessage::deserialize(&packet).unwrap_err(), DeserializeError::ChecksumError);
}
