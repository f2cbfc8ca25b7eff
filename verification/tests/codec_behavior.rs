use botw_editor::kind::Kind;
use botw_editor::save::SaveData;
use botw_editor::schema::Schema;
use botw_editor::value::Error;
use botw_editor::value::FieldValue;

fn push_record(buf: &mut Vec<u8>, hash: u32, payload: u32) {
    buf.extend_from_slice(&hash.to_le_bytes());
    buf.extend_from_slice(&payload.to_le_bytes());
}

fn header() -> Vec<u8> {
    let mut buf = Vec::new();
    buf.extend_from_slice(&7u32.to_le_bytes());
    buf.extend_from_slice(&0xffffu32.to_le_bytes());
    buf.extend_from_slice(&1u32.to_le_bytes());
    buf
}

#[test]
fn truncated_buffer_is_rejected() {
    assert_eq!(SaveData::new(&[]).unwrap_err(), Error::Truncated);
    assert_eq!(SaveData::new(&[0u8; 11]).unwrap_err(), Error::Truncated);
    assert!(SaveData::new(&[0u8; 12]).is_ok());
}

#[test]
fn round_trip_identity() {
    let mut buf = header();
    push_record(&mut buf, 0x11, 5);
    push_record(&mut buf, 0x22, 7);
    push_record(&mut buf, 0x22, 9);
    // trailing slack shorter than a record is kept verbatim too
    buf.push(0xAB);
    let s = SaveData::new(&buf).unwrap();
    assert_eq!(s.size(), buf.len());
    assert_eq!(s.data().as_slice(), buf.as_slice());
}

#[test]
fn scalar_bool_read() {
    let mut buf = header();
    push_record(&mut buf, 0x11, 0);
    push_record(&mut buf, 0x12, 3);
    let s = SaveData::new(&buf).unwrap();
    let schema = Schema::new();
    // an uncatalogued checksum defaults to the boolean kind
    assert_eq!(s.get_by_hash(&schema, 0x11).unwrap(), FieldValue::Bool(false));
    assert_eq!(s.get_by_hash(&schema, 0x12).unwrap(), FieldValue::Bool(true));
}

#[test]
fn missing_checksum_is_not_found() {
    let mut buf = header();
    push_record(&mut buf, 0x11, 0);
    let mut s = SaveData::new(&buf).unwrap();
    let schema = Schema::new();
    assert_eq!(s.get_by_hash(&schema, 0x99).unwrap_err(), Error::NotFound);
    assert_eq!(
        s.set_by_hash(&schema, 0x99, &FieldValue::Bool(true)).unwrap_err(),
        Error::NotFound
    );
}

#[test]
fn write_then_read_scalars() {
    let mut buf = header();
    push_record(&mut buf, 0x11, 0);
    push_record(&mut buf, 0x22, 0);
    push_record(&mut buf, 0x33, 0);
    let mut s = SaveData::new(&buf).unwrap();
    let mut schema = Schema::new();
    schema.insert(0x11, Kind::Bool);
    schema.insert(0x22, Kind::S32);
    schema.insert(0x33, Kind::F32);

    s.set_by_hash(&schema, 0x11, &FieldValue::Bool(true)).unwrap();
    s.set_by_hash(&schema, 0x22, &FieldValue::S32(-123456)).unwrap();
    let bits = 1.5f32.to_bits();
    s.set_by_hash(&schema, 0x33, &FieldValue::F32(bits)).unwrap();

    assert_eq!(s.get_by_hash(&schema, 0x11).unwrap(), FieldValue::Bool(true));
    assert_eq!(s.get_by_hash(&schema, 0x22).unwrap(), FieldValue::S32(-123456));
    match s.get_by_hash(&schema, 0x33).unwrap() {
        FieldValue::F32(w) => assert_eq!(f32::from_bits(w), 1.5),
        other => panic!("expected a float, got {:?}", other),
    }
}

#[test]
fn write_then_read_arrays_and_neighbours_unaffected() {
    let mut buf = header();
    push_record(&mut buf, 0x10, 77);
    push_record(&mut buf, 0x20, 0);
    push_record(&mut buf, 0x20, 0);
    push_record(&mut buf, 0x20, 0);
    push_record(&mut buf, 0x30, 1);
    let mut s = SaveData::new(&buf).unwrap();
    let mut schema = Schema::new();
    schema.insert(0x10, Kind::S32);
    schema.insert(0x20, Kind::S32Array);
    schema.insert(0x30, Kind::Bool);

    s.set_by_hash(&schema, 0x20, &FieldValue::S32Array(vec![-1, 0, 42])).unwrap();
    assert_eq!(
        s.get_by_hash(&schema, 0x20).unwrap(),
        FieldValue::S32Array(vec![-1, 0, 42])
    );
    // fields on either side keep their values
    assert_eq!(s.get_by_hash(&schema, 0x10).unwrap(), FieldValue::S32(77));
    assert_eq!(s.get_by_hash(&schema, 0x30).unwrap(), FieldValue::Bool(true));
}

#[test]
fn write_then_read_bool_array() {
    let mut buf = header();
    push_record(&mut buf, 0x40, 1);
    push_record(&mut buf, 0x40, 1);
    let mut s = SaveData::new(&buf).unwrap();
    let mut schema = Schema::new();
    schema.insert(0x40, Kind::BoolArray);
    s.set_by_hash(&schema, 0x40, &FieldValue::BoolArray(vec![false, true])).unwrap();
    assert_eq!(
        s.get_by_hash(&schema, 0x40).unwrap(),
        FieldValue::BoolArray(vec![false, true])
    );
}

#[test]
fn write_then_read_vector2f() {
    let mut buf = header();
    push_record(&mut buf, 0x50, 0);
    push_record(&mut buf, 0x50, 0);
    let mut s = SaveData::new(&buf).unwrap();
    let mut schema = Schema::new();
    schema.insert(0x50, Kind::Vec2f);
    let x = 10.0f32.to_bits();
    let y = 3.0f32.to_bits();
    s.set_by_hash(&schema, 0x50, &FieldValue::F32Array(vec![x, y])).unwrap();
    assert_eq!(
        s.get_by_hash(&schema, 0x50).unwrap(),
        FieldValue::F32Array(vec![x, y])
    );
    // a two-component vector refuses three components
    assert_eq!(
        s.set_by_hash(&schema, 0x50, &FieldValue::F32Array(vec![x, y, x]))
            .unwrap_err(),
        Error::LengthMismatch
    );
}

#[test]
fn write_then_read_vector_array() {
    let mut buf = header();
    for _ in 0..4 {
        push_record(&mut buf, 0x60, 0);
    }
    let mut s = SaveData::new(&buf).unwrap();
    let mut schema = Schema::new();
    schema.insert(0x60, Kind::Vec2fArray);
    let a = 1.0f32.to_bits();
    let b = 2.0f32.to_bits();
    let c = 3.0f32.to_bits();
    let d = 4.0f32.to_bits();
    s.set_by_hash(&schema, 0x60, &FieldValue::Vec2fArray(vec![(a, b), (c, d)]))
        .unwrap();
    assert_eq!(
        s.get_by_hash(&schema, 0x60).unwrap(),
        FieldValue::Vec2fArray(vec![(a, b), (c, d)])
    );
}

#[test]
fn vector_grouping_pairs_flat_run() {
    let mut buf = header();
    push_record(&mut buf, 0x70, 10f32.to_bits());
    push_record(&mut buf, 0x70, 3f32.to_bits());
    push_record(&mut buf, 0x70, (-1f32).to_bits());
    push_record(&mut buf, 0x70, 0f32.to_bits());
    let s = SaveData::new(&buf).unwrap();
    let mut schema = Schema::new();
    schema.insert(0x70, Kind::Vec2fArray);
    assert_eq!(
        s.get_by_hash(&schema, 0x70).unwrap(),
        FieldValue::Vec2fArray(vec![
            (10f32.to_bits(), 3f32.to_bits()),
            ((-1f32).to_bits(), 0f32.to_bits()),
        ])
    );
}

#[test]
fn length_mismatch_leaves_buffer_unchanged() {
    let mut buf = header();
    push_record(&mut buf, 0x20, 5);
    push_record(&mut buf, 0x20, 6);
    let mut s = SaveData::new(&buf).unwrap();
    let mut schema = Schema::new();
    schema.insert(0x20, Kind::S32Array);
    assert_eq!(
        s.set_by_hash(&schema, 0x20, &FieldValue::S32Array(vec![1, 2, 3]))
            .unwrap_err(),
        Error::LengthMismatch
    );
    assert_eq!(s.data().as_slice(), buf.as_slice());
}

#[test]
fn type_mismatch_leaves_buffer_unchanged() {
    let mut buf = header();
    push_record(&mut buf, 0x11, 0);
    let mut s = SaveData::new(&buf).unwrap();
    let mut schema = Schema::new();
    schema.insert(0x11, Kind::Bool);
    assert_eq!(
        s.set_by_hash(&schema, 0x11, &FieldValue::S32(1)).unwrap_err(),
        Error::TypeMismatch
    );
    schema.insert(0x11, Kind::Unknown);
    assert_eq!(
        s.set_by_hash(&schema, 0x11, &FieldValue::Bool(true)).unwrap_err(),
        Error::TypeMismatch
    );
    assert_eq!(s.data().as_slice(), buf.as_slice());
}

#[test]
fn string_write_is_unsupported() {
    let mut buf = header();
    push_record(&mut buf, 0x80, 0x41424344);
    let mut s = SaveData::new(&buf).unwrap();
    let mut schema = Schema::new();
    schema.insert(0x80, Kind::Str);
    assert_eq!(
        s.set_by_hash(&schema, 0x80, &FieldValue::Str(String::from("hi")))
            .unwrap_err(),
        Error::UnsupportedOperation
    );
    schema.insert(0x80, Kind::Str64Array);
    assert_eq!(
        s.set_by_hash(&schema, 0x80, &FieldValue::Bool(true)).unwrap_err(),
        Error::UnsupportedOperation
    );
    assert_eq!(s.data().as_slice(), buf.as_slice());
}

#[test]
fn unknown_kind_decodes_to_absent() {
    let mut buf = header();
    push_record(&mut buf, 0x90, 17);
    let s = SaveData::new(&buf).unwrap();
    let mut schema = Schema::new();
    schema.insert(0x90, Kind::Unknown);
    assert_eq!(s.get_by_hash(&schema, 0x90).unwrap(), FieldValue::Absent);
}

#[test]
fn hashes_lists_every_checksum_once() {
    let mut buf = header();
    push_record(&mut buf, 0x11, 0);
    push_record(&mut buf, 0x22, 0);
    push_record(&mut buf, 0x22, 0);
    push_record(&mut buf, 0x33, 0);
    let s = SaveData::new(&buf).unwrap();
    let mut hs = s.hashes();
    hs.sort();
    assert_eq!(hs, vec![0x11, 0x22, 0x33]);
}

#[test]
fn write_then_read_f32_array() {
    let mut buf = header();
    push_record(&mut buf, 0xA0, 0);
    push_record(&mut buf, 0xA0, 0);
    push_record(&mut buf, 0xA0, 0);
    let mut s = SaveData::new(&buf).unwrap();
    let mut schema = Schema::new();
    schema.insert(0xA0, Kind::F32Array);
    let ws = vec![0.5f32.to_bits(), (-2.25f32).to_bits(), 0f32.to_bits()];
    s.set_by_hash(&schema, 0xA0, &FieldValue::F32Array(ws.clone())).unwrap();
    assert_eq!(s.get_by_hash(&schema, 0xA0).unwrap(), FieldValue::F32Array(ws));
}

#[test]
fn write_then_read_vector3_array() {
    let mut buf = header();
    for _ in 0..6 {
        push_record(&mut buf, 0xB0, 0);
    }
    let mut s = SaveData::new(&buf).unwrap();
    let mut schema = Schema::new();
    schema.insert(0xB0, Kind::Vec3fArray);
    let p = 1f32.to_bits();
    let q = 2f32.to_bits();
    let r = 3f32.to_bits();
    let value = FieldValue::Vec3fArray(vec![(p, q, r), (r, q, p)]);
    s.set_by_hash(&schema, 0xB0, &value).unwrap();
    assert_eq!(s.get_by_hash(&schema, 0xB0).unwrap(), value);
    // run of six floats cannot hold one or three triples
    assert_eq!(
        s.set_by_hash(&schema, 0xB0, &FieldValue::Vec3fArray(vec![(p, q, r)]))
            .unwrap_err(),
        Error::LengthMismatch
    );
}

#[test]
fn uncatalogued_field_writes_as_bool() {
    let mut buf = header();
    push_record(&mut buf, 0xC0, 0);
    let mut s = SaveData::new(&buf).unwrap();
    let schema = Schema::new();
    s.set_by_hash(&schema, 0xC0, &FieldValue::Bool(true)).unwrap();
    assert_eq!(s.get_by_hash(&schema, 0xC0).unwrap(), FieldValue::Bool(true));
}

#[test]
fn earliest_occurrence_wins() {
    let mut buf = header();
    push_record(&mut buf, 0x11, 1);
    push_record(&mut buf, 0x22, 2);
    push_record(&mut buf, 0x11, 3);
    let s = SaveData::new(&buf).unwrap();
    let mut schema = Schema::new();
    schema.insert(0x11, Kind::S32);
    // the first occurrence of the checksum is the one addressed
    assert_eq!(s.get_by_hash(&schema, 0x11).unwrap(), FieldValue::S32(1));
    assert_eq!(s.hashes(), vec![0x11, 0x22]);
}

#[test]
fn fragment_checksum_is_indexed() {
    // a trailing fragment of five bytes: the checksum word is readable,
    // the payload is cut off
    let mut buf = header();
    push_record(&mut buf, 0x11, 9);
    buf.extend_from_slice(&0x77u32.to_le_bytes());
    buf.push(0xEE);
    let mut s = SaveData::new(&buf).unwrap();
    let schema = Schema::new();
    assert_eq!(s.hashes(), vec![0x11, 0x77]);
    // the field resolves, but its payload cannot be read or written
    assert_eq!(s.get_by_hash(&schema, 0x77).unwrap_err(), Error::Malformed);
    assert_eq!(
        s.set_by_hash(&schema, 0x77, &FieldValue::Bool(true)).unwrap_err(),
        Error::Malformed
    );
    assert_eq!(s.data().as_slice(), buf.as_slice());
}

#[test]
fn fragment_of_unknown_kind_is_absent() {
    let mut buf = header();
    buf.extend_from_slice(&0x77u32.to_le_bytes());
    let s = SaveData::new(&buf).unwrap();
    let mut schema = Schema::new();
    schema.insert(0x77, Kind::Unknown);
    assert_eq!(s.get_by_hash(&schema, 0x77).unwrap(), FieldValue::Absent);
}

#[test]
fn run_against_matching_fragment_is_malformed() {
    // one complete record, then a bare checksum word of the same field
    let mut buf = header();
    push_record(&mut buf, 0x20, 5);
    buf.extend_from_slice(&0x20u32.to_le_bytes());
    let mut s = SaveData::new(&buf).unwrap();
    let mut schema = Schema::new();
    schema.insert(0x20, Kind::S32Array);
    assert_eq!(s.get_by_hash(&schema, 0x20).unwrap_err(), Error::Malformed);
    assert_eq!(
        s.set_by_hash(&schema, 0x20, &FieldValue::S32Array(vec![1]))
            .unwrap_err(),
        Error::Malformed
    );
    assert_eq!(s.data().as_slice(), buf.as_slice());
    // a scalar reading only the first payload is unaffected
    schema.insert(0x20, Kind::S32);
    assert_eq!(s.get_by_hash(&schema, 0x20).unwrap(), FieldValue::S32(5));
}

#[test]
fn mismatching_fragment_ends_run_cleanly() {
    let mut buf = header();
    push_record(&mut buf, 0x20, 5);
    push_record(&mut buf, 0x20, 6);
    buf.extend_from_slice(&0x99u32.to_le_bytes());
    buf.push(1);
    buf.push(2);
    let s = SaveData::new(&buf).unwrap();
    let mut schema = Schema::new();
    schema.insert(0x20, Kind::S32Array);
    assert_eq!(
        s.get_by_hash(&schema, 0x20).unwrap(),
        FieldValue::S32Array(vec![5, 6])
    );
}

#[test]
fn slack_short_of_a_checksum_is_ignored() {
    // three trailing bytes cannot hold a checksum word and index nothing
    let mut buf = header();
    push_record(&mut buf, 0x20, 5);
    buf.push(0xAA);
    buf.push(0xBB);
    buf.push(0xCC);
    let s = SaveData::new(&buf).unwrap();
    let mut schema = Schema::new();
    schema.insert(0x20, Kind::S32Array);
    assert_eq!(s.hashes(), vec![0x20]);
    assert_eq!(
        s.get_by_hash(&schema, 0x20).unwrap(),
        FieldValue::S32Array(vec![5])
    );
}

#[test]
fn get_and_set_by_name() {
    let name = "MainField_Item_Fruit_A_1641432141";
    let hash = botw_editor::get_hash(name);
    let mut buf = header();
    push_record(&mut buf, hash, 0);
    let mut s = SaveData::new(&buf).unwrap();
    let mut schema = Schema::new();
    schema.insert_name(name, Kind::Bool);
    assert_eq!(s.get(&schema, name).unwrap(), FieldValue::Bool(false));
    s.set(&schema, name, &FieldValue::Bool(true)).unwrap();
    assert_eq!(s.get(&schema, name).unwrap(), FieldValue::Bool(true));
}
