use nbt::decode::decode_value;
use nbt::encode::encode_value;
use nbt::{Blob, Endianness, Error, Value};

fn sample() -> Blob {
    let mut b = Blob::named("level");
    b.insert("byte", Value::Byte(-5)).unwrap();
    b.insert("short", Value::Short(-300)).unwrap();
    b.insert("int", Value::Int(123456789)).unwrap();
    b.insert("long", Value::Long(-9_000_000_000)).unwrap();
    b.insert("float", Value::Float(1.5f32.to_bits())).unwrap();
    b.insert("double", Value::Double((-2.25f64).to_bits())).unwrap();
    b.insert("bytes", Value::ByteArray(vec![1, -2, 3])).unwrap();
    b.insert("name", Value::String("Herobrine é".to_string())).unwrap();
    b.insert("ints", Value::IntArray(vec![1, -1, i32::MAX, i32::MIN])).unwrap();
    b.insert("longs", Value::LongArray(vec![i64::MIN, 0, i64::MAX])).unwrap();
    b.insert("list", Value::List(3, vec![Value::Int(1), Value::Int(2)])).unwrap();
    let inner = vec![
        ("a".to_string(), Value::Byte(1)),
        ("b".to_string(), Value::List(8, vec![Value::String("x".to_string())])),
    ];
    b.insert("nested", Value::Compound(inner)).unwrap();
    b
}

fn encode(b: &Blob, o: Endianness) -> Vec<u8> {
    let mut out = Vec::new();
    b.to_writer(&mut out, o).unwrap();
    out
}

#[test]
fn round_trip_big_endian() {
    let b = sample();
    let bytes = encode(&b, Endianness::BigEndian);
    let back = Blob::from_reader(&bytes, Endianness::BigEndian).unwrap();
    assert_eq!(back, b);
}

#[test]
fn round_trip_little_endian() {
    let b = sample();
    let bytes = encode(&b, Endianness::LittleEndian);
    let back = Blob::from_reader(&bytes, Endianness::LittleEndian).unwrap();
    assert_eq!(back, b);
    assert_ne!(bytes, encode(&b, Endianness::BigEndian));
}

#[test]
fn heterogeneous_list_is_refused_and_document_unchanged() {
    let mut b = Blob::new();
    b.insert("x", Value::Int(7)).unwrap();
    let before = encode(&b, Endianness::BigEndian);
    let r = b.insert("x", Value::List(1, vec![Value::Byte(1), Value::Short(2)]));
    assert_eq!(r, Err(Error::HeterogeneousList));
    assert_eq!(encode(&b, Endianness::BigEndian), before);
    assert_eq!(b.get("x"), Some(&Value::Int(7)));
}

#[test]
fn nested_heterogeneous_list_is_refused() {
    let mut b = Blob::new();
    let bad = Value::Compound(vec![(
        "l".to_string(),
        Value::List(3, vec![Value::Int(1), Value::Long(2)]),
    )]);
    assert_eq!(b.insert("c", bad), Err(Error::HeterogeneousList));
    assert_eq!(b.get("c"), None);
}

#[test]
fn list_elements_must_match_declared_type() {
    let mut b = Blob::new();
    let r = b.insert("l", Value::List(3, vec![Value::Byte(1)]));
    assert_eq!(r, Err(Error::HeterogeneousList));
}

#[test]
fn decoding_twice_gives_equal_documents() {
    let bytes = encode(&sample(), Endianness::BigEndian);
    let a = Blob::from_reader(&bytes, Endianness::BigEndian).unwrap();
    let b = Blob::from_reader(&bytes, Endianness::BigEndian).unwrap();
    assert_eq!(a, b);
}

#[test]
fn empty_list_keeps_element_type() {
    let mut b = Blob::new();
    b.insert("empty", Value::List(11, vec![])).unwrap();
    let bytes = encode(&b, Endianness::BigEndian);
    let back = Blob::from_reader(&bytes, Endianness::BigEndian).unwrap();
    assert_eq!(back.get("empty"), Some(&Value::List(11, vec![])));
}

#[test]
fn empty_compound_is_one_terminator_after_header() {
    let b = Blob::new();
    assert_eq!(encode(&b, Endianness::BigEndian), vec![0x0a, 0x00, 0x00, 0x00]);
    let mut out = Vec::new();
    encode_value(&Value::Compound(vec![]), Endianness::BigEndian, &mut out).unwrap();
    assert_eq!(out, vec![0x00]);
}

#[test]
fn health_scenario_bytes() {
    let mut b = Blob::new();
    b.insert("health", Value::Byte(100)).unwrap();
    let mut expected = vec![0x0a, 0x00, 0x00, 0x01, 0x00, 0x06];
    expected.extend_from_slice(b"health");
    expected.push(0x64);
    expected.push(0x00);
    assert_eq!(encode(&b, Endianness::BigEndian), expected);
}

#[test]
fn byte_root_is_missing_root_compound() {
    let r = Blob::from_reader(&[0x01, 0x00, 0x00, 0x05], Endianness::BigEndian);
    assert_eq!(r, Err(Error::NoRootCompound));
    let r = Blob::from_reader(&[0x01], Endianness::BigEndian);
    assert_eq!(r, Err(Error::NoRootCompound));
}

#[test]
fn list_length_minus_one_is_invalid_length() {
    let r = decode_value(9, &[0x01, 0xff, 0xff, 0xff, 0xff], 0, Endianness::BigEndian);
    assert_eq!(r, Err(Error::InvalidLength));
    let bytes = [0x0a, 0x00, 0x00, 0x09, 0x00, 0x01, b'l', 0x01, 0xff, 0xff, 0xff, 0xff, 0x00];
    let r = Blob::from_reader(&bytes, Endianness::BigEndian);
    assert_eq!(r, Err(Error::InvalidLength));
}

#[test]
fn negative_array_length_is_invalid_length() {
    let r = decode_value(11, &[0x80, 0x00, 0x00, 0x00], 0, Endianness::BigEndian);
    assert_eq!(r, Err(Error::InvalidLength));
}

#[test]
fn truncated_stream_is_short_read() {
    let bytes = encode(&sample(), Endianness::BigEndian);
    let r = Blob::from_reader(&bytes[..bytes.len() - 1], Endianness::BigEndian);
    assert_eq!(r, Err(Error::ShortRead));
    assert_eq!(Blob::from_reader(&[], Endianness::BigEndian), Err(Error::ShortRead));
}

#[test]
fn invalid_utf8_name_is_malformed_text() {
    let bytes = [0x0a, 0x00, 0x01, 0xff, 0x00];
    assert_eq!(Blob::from_reader(&bytes, Endianness::BigEndian), Err(Error::MalformedText));
}

#[test]
fn unknown_tag_is_refused() {
    let bytes = [0x0a, 0x00, 0x00, 0x0d, 0x00, 0x01, b'x', 0x00];
    assert_eq!(Blob::from_reader(&bytes, Endianness::BigEndian), Err(Error::UnknownTag(13)));
}

#[test]
fn overlong_text_cannot_be_written() {
    let mut b = Blob::new();
    b.insert("s", Value::String("a".repeat(70000))).unwrap();
    let mut out = Vec::new();
    assert_eq!(b.to_writer(&mut out, Endianness::BigEndian), Err(Error::InvalidLength));
}

#[test]
fn little_endian_layout() {
    let mut out = Vec::new();
    encode_value(&Value::Short(0x0102), Endianness::LittleEndian, &mut out).unwrap();
    encode_value(&Value::Int(0x01020304), Endianness::LittleEndian, &mut out).unwrap();
    assert_eq!(out, vec![0x02, 0x01, 0x04, 0x03, 0x02, 0x01]);
    let mut out = Vec::new();
    encode_value(&Value::Int(0x01020304), Endianness::BigEndian, &mut out).unwrap();
    assert_eq!(out, vec![0x01, 0x02, 0x03, 0x04]);
}

#[test]
fn float_bits_are_written_exactly() {
    let mut out = Vec::new();
    encode_value(&Value::Float(1.0f32.to_bits()), Endianness::BigEndian, &mut out).unwrap();
    assert_eq!(out, vec![0x3f, 0x80, 0x00, 0x00]);
}

#[test]
fn later_duplicate_name_wins_on_decode() {
    let bytes = [
        0x0a, 0x00, 0x00, 0x01, 0x00, 0x01, b'a', 0x05, 0x01, 0x00, 0x01, b'a', 0x07, 0x00,
    ];
    let b = Blob::from_reader(&bytes, Endianness::BigEndian).unwrap();
    assert_eq!(b.get("a"), Some(&Value::Byte(7)));
    assert_eq!(encode(&b, Endianness::BigEndian).len(), bytes.len() - 5);
}

#[test]
fn insert_overwrites_and_get_finds() {
    let mut b = Blob::named("n");
    b.insert("k", Value::Int(1)).unwrap();
    b.insert("k", Value::Int(2)).unwrap();
    assert_eq!(b.get("k"), Some(&Value::Int(2)));
    assert_eq!(b.get("missing"), None);
    let bytes = encode(&b, Endianness::BigEndian);
    assert_eq!(bytes[..4].to_vec(), vec![0x0a, 0x00, 0x01, b'n']);
}

#[test]
fn trailing_bytes_are_not_read() {
    let mut bytes = encode(&sample(), Endianness::BigEndian);
    bytes.extend_from_slice(&[1, 2, 3]);
    assert_eq!(Blob::from_reader(&bytes, Endianness::BigEndian).unwrap(), sample());
}

#[test]
fn gzip_round_trip() {
    let b = sample();
    let mut packed = Vec::new();
    b.to_gzip_writer(&mut packed, Endianness::BigEndian).unwrap();
    assert_eq!(packed[..2].to_vec(), vec![0x1f, 0x8b]);
    assert_ne!(packed, encode(&b, Endianness::BigEndian));
    assert_eq!(Blob::from_gzip_reader(&packed, Endianness::BigEndian).unwrap(), b);
}

#[test]
fn zlib_round_trip() {
    let b = sample();
    let mut packed = Vec::new();
    b.to_zlib_writer(&mut packed, Endianness::LittleEndian).unwrap();
    assert_eq!(packed[0], 0x78);
    assert_ne!(packed, encode(&b, Endianness::LittleEndian));
    assert_eq!(Blob::from_zlib_reader(&packed, Endianness::LittleEndian).unwrap(), b);
}

#[test]
fn garbage_is_not_compressed_data() {
    let raw = encode(&sample(), Endianness::BigEndian);
    assert_eq!(Blob::from_gzip_reader(&raw, Endianness::BigEndian), Err(Error::Compression));
    assert_eq!(Blob::from_zlib_reader(&raw, Endianness::BigEndian), Err(Error::Compression));
}

#[test]
fn title_and_entries_in_insertion_order() {
    let mut b = Blob::named("root");
    b.insert("z", Value::Byte(1)).unwrap();
    b.insert("a", Value::Byte(2)).unwrap();
    b.insert("z", Value::Byte(3)).unwrap();
    assert_eq!(b.title(), "root");
    let names: Vec<&str> = b.entries().iter().map(|e| e.0.as_str()).collect();
    assert_eq!(names, vec!["z", "a"]);
    assert_eq!(b.entries()[0].1, Value::Byte(3));
}

#[test]
fn nested_duplicate_names_are_refused() {
    let mut b = Blob::new();
    let dup = Value::Compound(vec![
        ("a".to_string(), Value::Byte(1)),
        ("a".to_string(), Value::Byte(2)),
    ]);
    assert_eq!(b.insert("c", dup), Err(Error::DuplicateName));
    assert_eq!(b.get("c"), None);
    let deep = Value::List(
        10,
        vec![Value::Compound(vec![
            ("x".to_string(), Value::Int(1)),
            ("x".to_string(), Value::Int(1)),
        ])],
    );
    assert_eq!(b.insert("d", deep), Err(Error::DuplicateName));
    assert_eq!(encode(&b, Endianness::BigEndian), vec![0x0a, 0x00, 0x00, 0x00]);
}

#[test]
fn end_position_is_just_after_root_terminator() {
    let b = sample();
    let mut bytes = encode(&b, Endianness::LittleEndian);
    let n = bytes.len();
    bytes.extend_from_slice(&[9, 9, 9]);
    let (d, end) = Blob::from_reader_end(&bytes, Endianness::LittleEndian).unwrap();
    assert_eq!(d, b);
    assert_eq!(end, n);
    assert_eq!(bytes[end..].to_vec(), vec![9, 9, 9]);
}

#[test]
fn index_gives_stored_value() {
    let b = sample();
    assert_eq!(b.index("int"), &Value::Int(123456789));
    assert_eq!(b.index("list"), &Value::List(3, vec![Value::Int(1), Value::Int(2)]));
}
