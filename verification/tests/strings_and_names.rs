use botw_editor::get_hash;
use botw_editor::kind::Kind;
use botw_editor::save::SaveData;
use botw_editor::schema::Schema;
use botw_editor::value::Error;
use botw_editor::value::FieldValue;
use botw_editor::weather::Weather;

fn push_raw_record(buf: &mut Vec<u8>, hash: u32, payload: [u8; 4]) {
    buf.extend_from_slice(&hash.to_le_bytes());
    buf.extend_from_slice(&payload);
}

fn string_header() -> Vec<u8> {
    let mut buf = Vec::new();
    buf.extend_from_slice(&7u32.to_le_bytes());
    buf.extend_from_slice(&0xffffu32.to_le_bytes());
    buf.extend_from_slice(&1u32.to_le_bytes());
    buf
}

#[test]
fn golden_checksums() {
    assert_eq!(get_hash("MainField_Item_Fruit_A_1641432141"), 195588);
    assert_eq!(get_hash("GodTree_Finish"), 408334);
}

#[test]
fn embedded_nul_is_stripped() {
    let mut buf = string_header();
    push_raw_record(&mut buf, 0x80, [b'A', 0, b'B', b'C']);
    let s = SaveData::new(&buf).unwrap();
    let mut schema = Schema::new();
    schema.insert(0x80, Kind::Str);
    assert_eq!(
        s.get_by_hash(&schema, 0x80).unwrap(),
        FieldValue::Str(String::from("ABC"))
    );
}

#[test]
fn string_spans_several_records() {
    let mut buf = string_header();
    push_raw_record(&mut buf, 0x80, [b'A', b'B', 0, 0]);
    push_raw_record(&mut buf, 0x80, [b'C', b'D', 0, 0]);
    let s = SaveData::new(&buf).unwrap();
    let mut schema = Schema::new();
    schema.insert(0x80, Kind::Str);
    assert_eq!(
        s.get_by_hash(&schema, 0x80).unwrap(),
        FieldValue::Str(String::from("ABCD"))
    );
}

#[test]
fn string_of_nuls_is_empty() {
    let mut buf = string_header();
    push_raw_record(&mut buf, 0x80, [0, 0, 0, 0]);
    let s = SaveData::new(&buf).unwrap();
    let mut schema = Schema::new();
    schema.insert(0x80, Kind::Str);
    assert_eq!(s.get_by_hash(&schema, 0x80).unwrap(), FieldValue::Str(String::new()));
}

#[test]
fn multibyte_utf8_decodes() {
    let mut buf = string_header();
    push_raw_record(&mut buf, 0x80, [0xC3, 0xA9, 0, 0]);
    let s = SaveData::new(&buf).unwrap();
    let mut schema = Schema::new();
    schema.insert(0x80, Kind::Str);
    assert_eq!(
        s.get_by_hash(&schema, 0x80).unwrap(),
        FieldValue::Str(String::from("\u{e9}"))
    );
}

#[test]
fn invalid_utf8_is_malformed() {
    let mut buf = string_header();
    push_raw_record(&mut buf, 0x80, [0xFF, 0xFE, 1, 2]);
    let s = SaveData::new(&buf).unwrap();
    let mut schema = Schema::new();
    schema.insert(0x80, Kind::Str);
    assert_eq!(s.get_by_hash(&schema, 0x80).unwrap_err(), Error::Malformed);
}

#[test]
fn string_array_splits_at_capacity() {
    let mut buf = string_header();
    // first string: sixteen records fill the 64-byte capacity
    for _ in 0..16 {
        push_raw_record(&mut buf, 0x81, [b'A', b'A', b'A', b'A']);
    }
    // second string: one record, padded with NULs
    push_raw_record(&mut buf, 0x81, [b'Z', 0, 0, 0]);
    let s = SaveData::new(&buf).unwrap();
    let mut schema = Schema::new();
    schema.insert(0x81, Kind::Str64Array);
    assert_eq!(
        s.get_by_hash(&schema, 0x81).unwrap(),
        FieldValue::StrArray(vec!["A".repeat(64), String::from("Z")])
    );
}

#[test]
fn string_against_matching_fragment_is_malformed() {
    let mut buf = string_header();
    push_raw_record(&mut buf, 0x80, [b'A', b'B', 0, 0]);
    // a bare checksum word of the same field follows
    buf.extend_from_slice(&0x80u32.to_le_bytes());
    let s = SaveData::new(&buf).unwrap();
    let mut schema = Schema::new();
    schema.insert(0x80, Kind::Str);
    assert_eq!(s.get_by_hash(&schema, 0x80).unwrap_err(), Error::Malformed);
}

#[test]
fn kind_names_parse() {
    assert_eq!(Kind::from_name("bool"), Kind::Bool);
    assert_eq!(Kind::from_name("s32_array"), Kind::S32Array);
    assert_eq!(Kind::from_name("string256"), Kind::Str256);
    assert_eq!(Kind::from_name("vector2f_array"), Kind::Vec2fArray);
    assert_eq!(Kind::from_name("vector4f"), Kind::Vec4f);
    assert_eq!(Kind::from_name("weather"), Kind::Unknown);
}

#[test]
fn weather_codes_unpack() {
    assert_eq!(Weather::from_code(3), Some(Weather::HeavyRain));
    assert_eq!(Weather::from_code(9), None);
    assert_eq!(Weather::HeavyRain.name(), "heavy_rain");
    let codes = Weather::unpack(0x654321);
    assert_eq!(codes, vec![1, 2, 3, 4, 5, 6]);
    let names: Vec<&str> = codes
        .iter()
        .map(|c| Weather::from_code(*c).unwrap().name())
        .collect();
    assert_eq!(
        names,
        vec!["cloudy", "rain", "heavy_rain", "snow", "heavy_snow", "thunder_storm"]
    );
}
