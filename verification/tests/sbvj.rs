use sbon::formats::sbvj::{SbvjError, VJson};
use sbon::{ByteSink, ByteSource, Dynamic, DynamicMap, IoError, SbonError};

fn doc(name: &str, version: Option<i32>, data: Dynamic) -> VJson {
    VJson { name: name.to_string(), version, data }
}

fn read(bytes: &[u8]) -> Result<VJson, SbvjError> {
    ByteSource::new(bytes.to_vec()).read_sb_vjson()
}

fn read_enveloped(bytes: &[u8]) -> Result<VJson, SbvjError> {
    ByteSource::new(bytes.to_vec()).read_sb_sbvj01()
}

#[test]
fn flag_zero_means_no_version() {
    let got = read(&[1, b'n', 0x00, 1]).unwrap();
    assert_eq!(got.version, None);
    assert_eq!(got, doc("n", None, Dynamic::Nil));
}

#[test]
fn flag_one_is_followed_by_the_version() {
    let got = read(&[1, b'n', 0x01, 0x00, 0x00, 0x00, 0x2a, 1]).unwrap();
    assert_eq!(got.version, Some(42));
    assert_eq!(got, doc("n", Some(42), Dynamic::Nil));
}

#[test]
fn only_the_low_bit_of_the_flag_counts() {
    assert_eq!(read(&[0, 0x02, 1]), Ok(doc("", None, Dynamic::Nil)));
    assert_eq!(read(&[0, 0xfe, 1]), Ok(doc("", None, Dynamic::Nil)));
    assert_eq!(read(&[0, 0x03, 0, 0, 0, 7, 1]), Ok(doc("", Some(7), Dynamic::Nil)));
    assert_eq!(read(&[0, 0xff, 0, 0, 1, 0, 1]), Ok(doc("", Some(256), Dynamic::Nil)));
}

#[test]
fn version_is_big_endian_and_signed() {
    assert_eq!(
        read(&[0, 1, 0xff, 0xff, 0xff, 0xff, 1]),
        Ok(doc("", Some(-1), Dynamic::Nil))
    );
    assert_eq!(
        read(&[0, 1, 0x80, 0x00, 0x00, 0x00, 1]),
        Ok(doc("", Some(i32::MIN), Dynamic::Nil))
    );
    assert_eq!(
        read(&[0, 1, 0x7f, 0xff, 0xff, 0xff, 1]),
        Ok(doc("", Some(i32::MAX), Dynamic::Nil))
    );
    assert_eq!(
        read(&[0, 1, 0x01, 0x02, 0x03, 0x04, 1]),
        Ok(doc("", Some(0x0102_0304), Dynamic::Nil))
    );
}

#[test]
fn document_on_the_wire() {
    let mut sink = ByteSink::new();
    sink.write_sb_vjson(&doc("ab", Some(42), Dynamic::Boolean(true)));
    assert_eq!(sink.into_inner(), vec![2, b'a', b'b', 1, 0, 0, 0, 0x2a, 3, 1]);
    let mut sink = ByteSink::new();
    sink.write_sb_vjson(&doc("ab", None, Dynamic::Boolean(true)));
    assert_eq!(sink.into_inner(), vec![2, b'a', b'b', 0, 3, 1]);
    let mut sink = ByteSink::new();
    sink.write_sb_vjson(&doc("", Some(-2), Dynamic::Nil));
    assert_eq!(sink.into_inner(), vec![0, 1, 0xff, 0xff, 0xff, 0xfe, 1]);
}

#[test]
fn enveloped_document_on_the_wire() {
    let mut sink = ByteSink::new();
    sink.write_sb_sbvj01(&doc("p", None, Dynamic::Nil));
    let wire = sink.into_inner();
    assert_eq!(wire, b"SBVJ01\x01p\x00\x01".to_vec());
    assert_eq!(read_enveloped(&wire), Ok(doc("p", None, Dynamic::Nil)));
}

#[test]
fn wrong_magic_is_refused() {
    assert_eq!(read_enveloped(b"SBVJ02\x01p\x00\x01"), Err(SbvjError::MagicNumberError));
    assert_eq!(read_enveloped(b"sbvj01\x01p\x00\x01"), Err(SbvjError::MagicNumberError));
    assert_eq!(read_enveloped(b"SBAsset6"), Err(SbvjError::MagicNumberError));
    assert_eq!(read_enveloped(b"XBVJ01"), Err(SbvjError::MagicNumberError));
}

#[test]
fn short_magic_is_an_io_error() {
    assert_eq!(read_enveloped(b"SBVJ0"), Err(SbvjError::Io(IoError::UnexpectedEof)));
    assert_eq!(read_enveloped(b""), Err(SbvjError::Io(IoError::UnexpectedEof)));
}

#[test]
fn failures_keep_their_layer() {
    assert_eq!(read(&[]), Err(SbvjError::Sbon(SbonError::Io(IoError::UnexpectedEof))));
    assert_eq!(read(&[1, 0xff, 0, 1]), Err(SbvjError::Sbon(SbonError::Utf8)));
    assert_eq!(read(&[1, b'n']), Err(SbvjError::Io(IoError::UnexpectedEof)));
    assert_eq!(read(&[1, b'n', 1, 0, 0]), Err(SbvjError::Io(IoError::UnexpectedEof)));
    assert_eq!(
        read(&[1, b'n', 0]),
        Err(SbvjError::Sbon(SbonError::Io(IoError::UnexpectedEof)))
    );
    assert_eq!(
        read(&[1, b'n', 0, 9]),
        Err(SbvjError::Sbon(SbonError::DynamicTypeError(9)))
    );
    assert_eq!(
        read_enveloped(b"SBVJ01"),
        Err(SbvjError::Sbon(SbonError::Io(IoError::UnexpectedEof)))
    );
}

#[test]
fn documents_roundtrip() {
    let mut map = DynamicMap::new();
    map.insert("health".to_string(), Dynamic::Double(100.0f64.to_bits()));
    map.insert(
        "inventory".to_string(),
        Dynamic::List(vec![Dynamic::String("pickaxe".to_string()), Dynamic::VlqI(-5)]),
    );
    for version in [None, Some(0), Some(1), Some(-1), Some(42), Some(i32::MIN), Some(i32::MAX)] {
        let mut sink = ByteSink::new();
        let mut inner = DynamicMap::new();
        inner.insert("health".to_string(), Dynamic::Double(100.0f64.to_bits()));
        let written = doc("PlayerEntity", version, Dynamic::Mapping(inner));
        sink.write_sb_sbvj01(&written);
        let mut src = ByteSource::new(sink.into_inner());
        assert_eq!(src.read_sb_sbvj01(), Ok(written));
        assert_eq!(src.remaining_len(), 0);
    }
    let mut sink = ByteSink::new();
    sink.write_sb_vjson(&doc("big", Some(3), Dynamic::Mapping(map)));
    let wire = sink.into_inner();
    let back = read(&wire).unwrap();
    let mut again = ByteSink::new();
    again.write_sb_vjson(&back);
    assert_eq!(again.into_inner(), wire);
}
