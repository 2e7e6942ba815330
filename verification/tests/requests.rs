use aglio::decimal::{parse_u32, u32_to_string};
use aglio::DeviceConfig;

#[test]
fn numbers_are_read_as_the_standard_library_reads_them() {
    let inputs = [
        "", "+", "-", "0", "+0", "-0", "7", "007", "+42", "++42", "4294967295", "4294967296",
        "+4294967295", "00000000004294967295", "99999999999999999999999", "12a", "a12", " 12",
        "12 ", "1_000", "1.5", "٣", "١٢", "0x10", "+-1", "18446744073709551616",
    ];
    for input in inputs {
        assert_eq!(parse_u32(input), input.parse::<u32>().ok(), "input {:?}", input);
    }
    assert_eq!(parse_u32("60"), Some(60));
    assert_eq!(parse_u32("100000"), Some(100_000));
    assert_eq!(parse_u32("4294967296"), None);
}

#[test]
fn numbers_are_written_as_the_standard_library_writes_them() {
    for number in [0u32, 1, 9, 10, 11, 99, 100, 101, 4096, 65535, 1_000_000, u32::MAX - 1, u32::MAX]
    {
        assert_eq!(u32_to_string(number), number.to_string());
    }
    assert_eq!(u32_to_string(8080), "8080");
}

#[test]
fn one_word_is_a_serial_number() {
    let config = DeviceConfig::parse("abc");
    assert_eq!(config.uuid, vec!["abc"]);
    assert_eq!(config.sampling_rate, None);
    assert_eq!(config.format, None);
}

#[test]
fn empty_request_is_one_empty_serial_number() {
    let config = DeviceConfig::parse("");
    assert_eq!(config.uuid, vec![""]);
    assert_eq!(config.sampling_rate, None);
    assert_eq!(config.format, None);
}

#[test]
fn leading_number_is_the_sampling_rate() {
    let config = DeviceConfig::parse("500 dev-a dev-b dev-c");
    assert_eq!(config.sampling_rate, Some(500));
    assert_eq!(config.uuid, vec!["dev-a", "dev-c", "dev-b"]);
    assert_eq!(config.format, None);
}

#[test]
fn number_in_second_place_makes_the_first_word_the_format() {
    let config = DeviceConfig::parse("json 500 dev-a dev-b");
    assert_eq!(config.sampling_rate, Some(500));
    assert_eq!(config.format, Some("json"));
    assert_eq!(config.uuid, vec!["dev-b", "dev-a"]);
}

#[test]
fn without_a_number_every_word_is_a_serial_number() {
    let config = DeviceConfig::parse("a b c d");
    assert_eq!(config.sampling_rate, None);
    assert_eq!(config.format, None);
    assert_eq!(config.uuid, vec!["a", "b", "d", "c"]);
}

#[test]
fn first_number_wins_over_the_second() {
    let config = DeviceConfig::parse("10 20 x");
    assert_eq!(config.sampling_rate, Some(10));
    assert_eq!(config.format, None);
    assert_eq!(config.uuid, vec!["20", "x"]);
}

#[test]
fn trailing_number_is_a_serial_number() {
    let config = DeviceConfig::parse("a b 60");
    assert_eq!(config.sampling_rate, None);
    assert_eq!(config.uuid, vec!["a", "b", "60"]);
}

#[test]
fn double_space_gives_an_empty_word() {
    let config = DeviceConfig::parse("a  b");
    assert_eq!(config.uuid, vec!["a", "", "b"]);
}

#[test]
fn words_are_taken_last_word_first() {
    let config = DeviceConfig::from_words(vec!["c", "b", "a", "9"]);
    assert_eq!(config.sampling_rate, Some(9));
    assert_eq!(config.uuid, vec!["a", "c", "b"]);
    let config = DeviceConfig::from_words(Vec::new());
    assert_eq!(config, DeviceConfig { uuid: vec![], sampling_rate: None, format: None });
}

#[test]
fn request_is_written_with_spaces() {
    let config =
        DeviceConfig { uuid: vec!["a", "b"], sampling_rate: Some(100), format: Some("csv") };
    assert_eq!(config.to_text(), "a b 100 csv");
    let config = DeviceConfig { uuid: vec!["solo"], sampling_rate: None, format: None };
    assert_eq!(config.to_text(), "solo");
    let config = DeviceConfig { uuid: vec![], sampling_rate: Some(0), format: None };
    assert_eq!(config.to_text(), " 0");
    let config = DeviceConfig { uuid: vec!["x", "", "y"], sampling_rate: None, format: Some("f") };
    assert_eq!(config.to_text(), "x  y f");
}
