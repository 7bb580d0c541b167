use sbon::{ByteSink, ByteSource, Dynamic, DynamicMap, IoError, SbonError, TryFromDynamicError};

fn encode(d: &Dynamic) -> Vec<u8> {
    let mut sink = ByteSink::new();
    sink.write_sb_dynamic(d);
    sink.into_inner()
}

fn decode(bytes: &[u8]) -> Result<Dynamic, SbonError> {
    ByteSource::new(bytes.to_vec()).read_sb_dynamic()
}

fn text(s: &str) -> Dynamic {
    Dynamic::String(s.to_string())
}

fn mapping(pairs: Vec<(&str, Dynamic)>) -> Dynamic {
    let mut map = DynamicMap::new();
    for (k, v) in pairs {
        map.insert(k.to_string(), v);
    }
    Dynamic::Mapping(map)
}

fn nested(depth: usize) -> Dynamic {
    if depth == 0 {
        return Dynamic::VlqI(-7);
    }
    if depth % 2 == 0 {
        Dynamic::List(vec![nested(depth - 1), Dynamic::Nil, text("leaf")])
    } else {
        mapping(vec![
            ("inner", nested(depth - 1)),
            ("flag", Dynamic::Boolean(depth % 3 == 0)),
            ("ratio", Dynamic::Double(0.25f64.to_bits())),
        ])
    }
}

#[test]
fn nil_on_the_wire() {
    assert_eq!(encode(&Dynamic::Nil), vec![1]);
    assert_eq!(decode(&[1]), Ok(Dynamic::Nil));
}

#[test]
fn double_on_the_wire() {
    let bits = 1.5f64.to_bits();
    let wire = vec![2, 0x3f, 0xf8, 0, 0, 0, 0, 0, 0];
    assert_eq!(encode(&Dynamic::Double(bits)), wire);
    let back = decode(&wire).unwrap();
    assert_eq!(back, Dynamic::Double(bits));
    match back {
        Dynamic::Double(b) => assert_eq!(f64::from_bits(b), 1.5),
        _ => panic!("not a double"),
    }
}

#[test]
fn double_is_big_endian() {
    let wire = [2, 0x01, 0x02, 0x03, 0x04, 0x05, 0x06, 0x07, 0x08];
    assert_eq!(decode(&wire), Ok(Dynamic::Double(0x0102_0304_0506_0708)));
    assert_eq!(encode(&Dynamic::Double(0x0102_0304_0506_0708)), wire.to_vec());
}

#[test]
fn double_keeps_every_pattern() {
    for bits in [0u64, u64::MAX, f64::NAN.to_bits(), 0x7ff0_0000_0000_0001, (-0.0f64).to_bits()] {
        assert_eq!(decode(&encode(&Dynamic::Double(bits))), Ok(Dynamic::Double(bits)));
    }
}

#[test]
fn boolean_on_the_wire() {
    assert_eq!(encode(&Dynamic::Boolean(true)), vec![3, 1]);
    assert_eq!(encode(&Dynamic::Boolean(false)), vec![3, 0]);
    assert_eq!(decode(&[3, 0]), Ok(Dynamic::Boolean(false)));
    assert_eq!(decode(&[3, 1]), Ok(Dynamic::Boolean(true)));
    assert_eq!(decode(&[3, 2]), Ok(Dynamic::Boolean(true)));
    assert_eq!(decode(&[3, 0xff]), Ok(Dynamic::Boolean(true)));
}

#[test]
fn signed_integer_on_the_wire() {
    assert_eq!(encode(&Dynamic::VlqI(-1)), vec![4, 1]);
    assert_eq!(encode(&Dynamic::VlqI(64)), vec![4, 0x81, 0x00]);
    assert_eq!(decode(&[4, 0x03]), Ok(Dynamic::VlqI(-2)));
    assert_eq!(decode(&[4, 0x04]), Ok(Dynamic::VlqI(2)));
}

#[test]
fn string_on_the_wire() {
    assert_eq!(encode(&text("hi")), vec![5, 2, b'h', b'i']);
    assert_eq!(decode(&[5, 2, b'h', b'i']), Ok(text("hi")));
    assert_eq!(encode(&text("")), vec![5, 0]);
    assert_eq!(decode(&[5, 0]), Ok(text("")));
    let euro = "\u{20ac}";
    assert_eq!(encode(&text(euro)), vec![5, 3, 0xe2, 0x82, 0xac]);
    assert_eq!(decode(&[5, 3, 0xe2, 0x82, 0xac]), Ok(text(euro)));
}

#[test]
fn long_string_has_a_two_byte_length() {
    let s = "x".repeat(200);
    let wire = encode(&text(&s));
    assert_eq!(&wire[..3], &[5, 0x81, 0x48]);
    assert_eq!(wire.len(), 203);
    assert_eq!(decode(&wire), Ok(text(&s)));
}

#[test]
fn string_with_invalid_utf8_is_an_encoding_error() {
    assert_eq!(decode(&[5, 2, 0xff, 0xfe]), Err(SbonError::Utf8));
    assert_eq!(decode(&[5, 1, 0x80]), Err(SbonError::Utf8));
    assert_eq!(decode(&[5, 2, 0xc3, 0x28]), Err(SbonError::Utf8));
    assert_eq!(decode(&[5, 3, 0xed, 0xa0, 0x80]), Err(SbonError::Utf8));
    let mut src = ByteSource::new(vec![2, 0xc0, 0xaf]);
    assert_eq!(src.read_sb_string(), Err(SbonError::Utf8));
}

#[test]
fn string_longer_than_the_source_is_a_short_read() {
    let mut src = ByteSource::new(vec![5, b'a', b'b']);
    assert_eq!(src.read_sb_string(), Err(SbonError::Io(IoError::UnexpectedEof)));
    assert_eq!(src.remaining_len(), 0);
    let mut src = ByteSource::new(vec![0x81, 0x00, 1, 2, 3]);
    assert_eq!(src.read_sb_bytes(), Err(SbonError::Io(IoError::UnexpectedEof)));
    assert_eq!(decode(&[5, 4, b'a']), Err(SbonError::Io(IoError::UnexpectedEof)));
    let huge = [5, 0x81, 0xff, 0xff, 0xff, 0xff, 0xff, 0xff, 0xff, 0xff, 0x7f, b'a'];
    if usize::BITS == 64 {
        assert_eq!(decode(&huge), Err(SbonError::Io(IoError::UnexpectedEof)));
    } else {
        assert_eq!(decode(&huge), Err(SbonError::InvalidStringSize));
    }
}

#[test]
fn bytes_on_the_wire() {
    let mut sink = ByteSink::new();
    sink.write_sb_bytes(&[9, 8, 7]);
    assert_eq!(sink.into_inner(), vec![3, 9, 8, 7]);
    let mut src = ByteSource::new(vec![3, 9, 8, 7, 6]);
    assert_eq!(src.read_sb_bytes(), Ok(vec![9, 8, 7]));
    assert_eq!(src.tell(), 4);
}

#[test]
fn list_on_the_wire() {
    let list = Dynamic::List(vec![Dynamic::Nil, Dynamic::Boolean(true), Dynamic::VlqI(1)]);
    let wire = vec![6, 3, 1, 3, 1, 4, 2];
    assert_eq!(encode(&list), wire);
    assert_eq!(decode(&wire), Ok(list));
    assert_eq!(encode(&Dynamic::List(vec![])), vec![6, 0]);
    assert_eq!(decode(&[6, 0]), Ok(Dynamic::List(vec![])));
}

#[test]
fn list_that_ends_early_is_a_short_read() {
    assert_eq!(decode(&[6, 3, 1, 1]), Err(SbonError::Io(IoError::UnexpectedEof)));
    assert_eq!(decode(&[6]), Err(SbonError::Io(IoError::UnexpectedEof)));
    let huge = [6, 0x81, 0xff, 0xff, 0xff, 0xff, 0xff, 0xff, 0xff, 0xff, 0x7f, 1, 1];
    assert_eq!(decode(&huge), Err(SbonError::Io(IoError::UnexpectedEof)));
}

#[test]
fn list_fails_with_the_failure_of_its_item() {
    assert_eq!(decode(&[6, 2, 1, 9]), Err(SbonError::DynamicTypeError(9)));
    assert_eq!(decode(&[6, 1, 5, 1, 0xff]), Err(SbonError::Utf8));
}

#[test]
fn mapping_on_the_wire() {
    let map = mapping(vec![("a", Dynamic::Nil), ("b", Dynamic::VlqI(-1))]);
    let wire = vec![7, 2, 1, b'a', 1, 1, b'b', 4, 1];
    assert_eq!(encode(&map), wire);
    assert_eq!(decode(&wire), Ok(map));
    assert_eq!(encode(&mapping(vec![])), vec![7, 0]);
    assert_eq!(decode(&[7, 0]), Ok(mapping(vec![])));
}

#[test]
fn mapping_keeps_the_last_value_of_a_repeated_key() {
    let wire = [7, 3, 1, b'k', 4, 2, 1, b'j', 1, 1, b'k', 4, 4];
    let back = decode(&wire).unwrap();
    assert_eq!(back, mapping(vec![("k", Dynamic::VlqI(2)), ("j", Dynamic::Nil)]));
    match back {
        Dynamic::Mapping(map) => {
            assert_eq!(map.len(), 2);
            assert_eq!(map.get(&"k".to_string()), Some(&Dynamic::VlqI(2)));
            assert_eq!(map.get(&"j".to_string()), Some(&Dynamic::Nil));
        }
        _ => panic!("not a mapping"),
    }
}

#[test]
fn mapping_with_a_bad_key_fails() {
    assert_eq!(decode(&[7, 1, 1, 0xff, 1]), Err(SbonError::Utf8));
    assert_eq!(decode(&[7, 1, 1, b'a']), Err(SbonError::Io(IoError::UnexpectedEof)));
    assert_eq!(decode(&[7, 1, 1, b'a', 0]), Err(SbonError::DynamicTypeError(0)));
}

#[test]
fn unknown_tag_names_the_byte_and_takes_one_byte() {
    for tag in [0u8, 8, 9, 0x7f, 0x80, 0xfe, 0xff] {
        let mut src = ByteSource::new(vec![tag, 1, 2, 3]);
        assert_eq!(src.read_sb_dynamic(), Err(SbonError::DynamicTypeError(tag)));
        assert_eq!(src.tell(), 1);
        assert_eq!(src.remaining_len(), 3);
    }
}

#[test]
fn every_tag_outside_one_to_seven_is_refused() {
    for tag in 0..=255u8 {
        let got = decode(&[tag]);
        if (1..=7).contains(&tag) {
            assert_ne!(got, Err(SbonError::DynamicTypeError(tag)));
        } else {
            assert_eq!(got, Err(SbonError::DynamicTypeError(tag)));
        }
    }
}

#[test]
fn empty_source_is_a_short_read() {
    assert_eq!(decode(&[]), Err(SbonError::Io(IoError::UnexpectedEof)));
    assert_eq!(decode(&[2, 1, 2, 3]), Err(SbonError::Io(IoError::UnexpectedEof)));
    assert_eq!(decode(&[3]), Err(SbonError::Io(IoError::UnexpectedEof)));
    assert_eq!(decode(&[4]), Err(SbonError::Io(IoError::UnexpectedEof)));
    assert_eq!(decode(&[4, 0x80]), Err(SbonError::Io(IoError::UnexpectedEof)));
}

#[test]
fn oversized_integer_inside_a_value() {
    let mut wire = vec![4u8];
    wire.extend_from_slice(&[0x80; 11]);
    assert_eq!(decode(&wire), Err(SbonError::OversizedVLQ));
}

#[test]
fn nested_values_roundtrip() {
    for depth in 0..=8 {
        let d = nested(depth);
        let wire = encode(&d);
        let mut src = ByteSource::new(wire.clone());
        assert_eq!(src.read_sb_dynamic(), Ok(nested(depth)));
        assert_eq!(src.remaining_len(), 0);
        assert_eq!(encode(&src_decode(&wire)), wire);
    }
}

fn src_decode(bytes: &[u8]) -> Dynamic {
    decode(bytes).unwrap()
}

#[test]
fn values_roundtrip_with_bytes_behind_them() {
    let d = nested(5);
    let mut wire = encode(&d);
    let len = wire.len();
    wire.extend_from_slice(&[0xde, 0xad]);
    let mut src = ByteSource::new(wire);
    assert_eq!(src.read_sb_dynamic(), Ok(d));
    assert_eq!(src.tell(), len);
    assert_eq!(src.read_u8(), Ok(0xde));
}

#[test]
fn two_values_in_a_row() {
    let mut sink = ByteSink::new();
    sink.write_sb_dynamic(&text("one"));
    sink.write_sb_dynamic(&Dynamic::VlqI(2));
    let mut src = ByteSource::new(sink.into_inner());
    assert_eq!(src.read_sb_dynamic(), Ok(text("one")));
    assert_eq!(src.read_sb_dynamic(), Ok(Dynamic::VlqI(2)));
    assert_eq!(src.read_sb_dynamic(), Err(SbonError::Io(IoError::UnexpectedEof)));
}

#[test]
fn list_and_map_writers() {
    let mut sink = ByteSink::new();
    sink.write_sb_list(&vec![Dynamic::Nil, Dynamic::Nil]);
    assert_eq!(sink.into_inner(), vec![2, 1, 1]);
    let mut map = DynamicMap::new();
    map.insert("k".to_string(), Dynamic::Boolean(false));
    let mut sink = ByteSink::new();
    sink.write_sb_map(&map);
    assert_eq!(sink.into_inner(), vec![1, 1, b'k', 3, 0]);
    let mut src = ByteSource::new(vec![2, 1, 1]);
    assert_eq!(src.read_sb_list(), Ok(vec![Dynamic::Nil, Dynamic::Nil]));
    let mut src = ByteSource::new(vec![1, 1, b'k', 3, 0]);
    assert_eq!(src.read_sb_map(), Ok(map));
}

#[test]
fn map_insert_replaces_in_place() {
    let mut map = DynamicMap::new();
    assert_eq!(map.len(), 0);
    map.insert("a".to_string(), Dynamic::VlqI(1));
    map.insert("b".to_string(), Dynamic::VlqI(2));
    map.insert("a".to_string(), Dynamic::VlqI(3));
    assert_eq!(map.len(), 2);
    assert_eq!(map.position(&"a".to_string()), Some(0));
    assert_eq!(map.position(&"b".to_string()), Some(1));
    assert_eq!(map.position(&"c".to_string()), None);
    assert_eq!(map.get(&"a".to_string()), Some(&Dynamic::VlqI(3)));
    assert_eq!(map.get(&"c".to_string()), None);
    assert!(map.contains_key(&"b".to_string()));
    assert!(!map.contains_key(&"".to_string()));
    assert_eq!(map.entries[0], ("a".to_string(), Dynamic::VlqI(3)));
}

#[test]
fn cast_gives_the_value_of_the_right_kind() {
    assert_eq!(Dynamic::Boolean(true).cast::<bool>(), Some(true));
    assert_eq!(Dynamic::VlqI(-3).cast::<i64>(), Some(-3));
    assert_eq!(Dynamic::Double(7).cast::<u64>(), Some(7));
    assert_eq!(text("s").cast::<String>(), Some("s".to_string()));
    assert_eq!(Dynamic::List(vec![Dynamic::Nil]).cast::<Vec<Dynamic>>(), Some(vec![Dynamic::Nil]));
    assert_eq!(mapping(vec![]).cast::<DynamicMap>(), Some(DynamicMap::new()));
}

#[test]
fn cast_gives_nothing_for_another_kind() {
    assert_eq!(Dynamic::Nil.cast::<bool>(), None);
    assert_eq!(Dynamic::VlqI(1).cast::<bool>(), None);
    assert_eq!(Dynamic::VlqI(1).cast::<u64>(), None);
    assert_eq!(Dynamic::Double(1).cast::<i64>(), None);
    assert_eq!(Dynamic::List(vec![]).cast::<String>(), None);
    assert_eq!(text("x").cast::<Vec<Dynamic>>(), None);
    assert_eq!(Dynamic::Boolean(true).cast::<DynamicMap>(), None);
}

#[test]
fn try_from_names_the_failure() {
    assert_eq!(bool::try_from(Dynamic::Nil), Err(TryFromDynamicError::Invalid));
    assert_eq!(String::try_from(text("ok")), Ok("ok".to_string()));
    assert_eq!(i64::try_from(text("no")), Err(TryFromDynamicError::Invalid));
}

#[test]
fn error_messages() {
    assert_eq!(
        SbonError::OversizedVLQ.message(),
        "Max bytes read for VLQU is 10, while the VLQU wants to read over 10."
    );
    assert_eq!(
        SbonError::Io(IoError::UnexpectedEof).message(),
        "IO error while reading/writing SBON"
    );
    assert_eq!(
        SbonError::Utf8.message(),
        "Invalid UTF-8 string encountered while reading SBON"
    );
    assert_eq!(SbonError::InvalidStringSize.message(), "Invalid string size");
    assert_eq!(
        SbonError::DynamicTypeError(9).message(),
        "Invalid dynamic type byte. Expected 1..=7"
    );
}
