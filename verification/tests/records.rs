use aglio::{
    Id, MeasureData, MessageType, MetaData, Options, RxMessage, SerializableDevice, SetMetaData,
    SetRGB, StartOfFrame, TxMessage, Version,
};

#[test]
fn version_keeps_its_parts() {
    let version = Version::new(1, 22, 133);
    assert_eq!(version.major(), 1);
    assert_eq!(version.minor(), 22);
    assert_eq!(version.patch(), 133);
}

#[test]
fn id_keeps_its_parts() {
    let id = Id::new(
        "SN-0042".to_string(),
        "scope".to_string(),
        100_000,
        Version::new(1, 0, 2),
        Version::new(0, 9, 7),
        "deadbeef".to_string(),
    );
    assert_eq!(id.serial(), "SN-0042");
    assert_eq!(id.device_type(), "scope");
    assert_eq!(id.sample_rate(), 100_000);
    assert_eq!(id.hw_version().major(), 1);
    assert_eq!(id.hw_version().patch(), 2);
    assert_eq!(id.sw_version().minor(), 9);
    assert_eq!(id.sw_git_hash(), "deadbeef");
    let copy = id.clone();
    assert_eq!(copy.serial(), id.serial());
}

#[test]
fn colour_keeps_its_parts() {
    let colour = SetRGB::new(0, 128, 255);
    assert_eq!(colour.r(), 0);
    assert_eq!(colour.g(), 128);
    assert_eq!(colour.b(), 255);
}

#[test]
fn messages_hold_their_payloads() {
    let data = MeasureData {
        package_counter: 7,
        sof: StartOfFrame { content: 0xABCD },
        data: vec![1, 2, 3],
    };
    match RxMessage::MeasureData(data) {
        RxMessage::MeasureData(inner) => {
            assert_eq!(inner.package_counter, 7);
            assert_eq!(inner.sof.content, 0xABCD);
            assert_eq!(inner.data, vec![1, 2, 3]);
        }
        _ => unreachable!(),
    }
    match TxMessage::SetMetaData(SetMetaData { data: "note".to_string() }) {
        TxMessage::SetMetaData(inner) => assert_eq!(inner.data, "note"),
        _ => unreachable!(),
    }
    assert_ne!(MessageType::Id, MessageType::MetaData);
    assert_eq!(MessageType::MeasureData, MessageType::MeasureData);
}

#[test]
fn listed_device_holds_what_is_known() {
    let device = SerializableDevice {
        descriptor: "descriptor".to_string(),
        id: None,
        meta_data: Some(MetaData { data: "bench 3".to_string() }),
        rgb: SetRGB::new(0, 0, 255),
    };
    assert!(device.id.is_none());
    assert_eq!(device.meta_data.as_ref().map(|m| m.data.as_str()), Some("bench 3"));
    assert_eq!(device.rgb.b(), 255);
}

#[test]
fn options_keep_their_settings() {
    let id = uuid::Uuid::from_u128(0x1234);
    let options = Options::new(
        true,
        false,
        vec![id],
        true,
        Some(std::path::PathBuf::from("out.json")),
        true,
        false,
        8080,
    );
    assert!(options.version());
    assert!(!options.search());
    assert_eq!(options.device(), &[id][..]);
    assert!(options.verbose());
    assert_eq!(options.output(), Some(&std::path::PathBuf::from("out.json")));
    assert!(options.json());
    assert!(!options.websocket());
    assert_eq!(options.port(), 8080);
}

#[test]
fn default_options_ask_for_nothing() {
    let options = Options::default();
    assert!(!options.version());
    assert!(!options.search());
    assert!(options.device().is_empty());
    assert!(!options.verbose());
    assert_eq!(options.output(), None);
    assert!(!options.json());
    assert!(!options.websocket());
    assert_eq!(options.port(), 0);
}
