use sbon::formats::sbasset::{
    get, get_list, Asset, AssetError, AssetFile, AssetReader, FileIndex, Metadata,
};
use sbon::{ByteSink, ByteSource, Dynamic, DynamicMap, IoError, SbonError};

fn s(text: &str) -> String {
    text.to_string()
}

fn entry(path: &str, offset: u64, length: u64) -> Vec<u8> {
    let mut sink = ByteSink::new();
    sink.write_sb_string(path);
    let mut out = sink.into_inner();
    out.extend_from_slice(&offset.to_be_bytes());
    out.extend_from_slice(&length.to_be_bytes());
    out
}

fn index_block(meta: &DynamicMap, entries: &[(&str, u64, u64)], count: u64) -> Vec<u8> {
    let mut sink = ByteSink::new();
    sink.write_all(b"INDEX");
    sink.write_sb_map(meta);
    sink.write_sb_vlqu(count);
    let mut out = sink.into_inner();
    for (path, offset, length) in entries {
        out.extend_from_slice(&entry(path, *offset, *length));
    }
    out
}

fn archive(payload: &[u8], meta: &DynamicMap, entries: &[(&str, u64, u64)]) -> Vec<u8> {
    let mut out = b"SBAsset6".to_vec();
    let index_offset = 16 + payload.len() as u64;
    out.extend_from_slice(&index_offset.to_be_bytes());
    out.extend_from_slice(payload);
    out.extend_from_slice(&index_block(meta, entries, entries.len() as u64));
    out
}

fn two_files() -> Vec<u8> {
    archive(
        b"hello, world",
        &DynamicMap::new(),
        &[("a.txt", 16, 5), ("b.txt", 23, 5)],
    )
}

fn open(bytes: Vec<u8>) -> Result<AssetReader, AssetError> {
    AssetReader::new(ByteSource::new(bytes))
}

fn failure(bytes: Vec<u8>) -> AssetError {
    match open(bytes) {
        Ok(_) => panic!("the archive opened"),
        Err(e) => e,
    }
}

#[test]
fn well_formed_archive_lists_its_paths() {
    let reader = open(two_files()).unwrap();
    let paths = reader.get_paths();
    assert_eq!(paths, vec![&s("a.txt"), &s("b.txt")]);
    assert!(reader.has_file(&s("a.txt")));
    assert!(reader.has_file(&s("b.txt")));
    assert!(!reader.has_file(&s("missing")));
    assert!(!reader.has_file(&s("A.TXT")));
}

#[test]
fn get_file_reads_the_bytes_at_the_offset() {
    let mut reader = open(two_files()).unwrap();
    assert_eq!(
        reader.get_file(&s("a.txt")),
        Some(Ok(AssetFile { path: s("a.txt"), bytes: b"hello".to_vec() }))
    );
    assert_eq!(
        reader.get_file(&s("b.txt")),
        Some(Ok(AssetFile { path: s("b.txt"), bytes: b"world".to_vec() }))
    );
    assert_eq!(
        reader.get_file(&s("a.txt")),
        Some(Ok(AssetFile { path: s("a.txt"), bytes: b"hello".to_vec() }))
    );
}

#[test]
fn missing_path_is_absent_not_an_error() {
    let mut reader = open(two_files()).unwrap();
    assert_eq!(reader.get_file(&s("missing")), None);
    assert_eq!(reader.get_file(&s("")), None);
}

#[test]
fn empty_metadata_gives_absent_fields() {
    let reader = open(two_files()).unwrap();
    assert_eq!(reader.meta(), &Metadata::default());
    assert_eq!(reader.meta().internal_name, None);
    assert_eq!(reader.meta().includes, None);
}

#[test]
fn wrong_magic_is_refused_before_the_index() {
    let mut bytes = two_files();
    bytes[7] = b'5';
    assert_eq!(failure(bytes), AssetError::InvalidAsset("Invalid magic number"));
    assert_eq!(
        failure(b"SBVJ01\x00\x00\x00\x00\x00\x00\x00\x00\x00\x00".to_vec()),
        AssetError::InvalidAsset("Invalid magic number")
    );
    let mut no_index = b"sbasset6".to_vec();
    no_index.extend_from_slice(&u64::MAX.to_be_bytes());
    assert_eq!(failure(no_index), AssetError::InvalidAsset("Invalid magic number"));
    assert_eq!(
        failure(b"NotAnAsset".to_vec()),
        AssetError::InvalidAsset("Invalid magic number")
    );
}

#[test]
fn short_header_is_an_io_error() {
    assert_eq!(failure(vec![]), AssetError::Io(IoError::UnexpectedEof));
    assert_eq!(failure(b"SBAsset".to_vec()), AssetError::Io(IoError::UnexpectedEof));
    assert_eq!(failure(b"SBAsset6".to_vec()), AssetError::Io(IoError::UnexpectedEof));
    assert_eq!(
        failure(b"SBAsset6\x00\x00\x00".to_vec()),
        AssetError::Io(IoError::UnexpectedEof)
    );
}

#[test]
fn index_offset_past_the_end_is_an_io_error() {
    let mut bytes = b"SBAsset6".to_vec();
    bytes.extend_from_slice(&1000u64.to_be_bytes());
    assert_eq!(failure(bytes), AssetError::Io(IoError::UnexpectedEof));
    let mut bytes = b"SBAsset6".to_vec();
    bytes.extend_from_slice(&u64::MAX.to_be_bytes());
    assert_eq!(failure(bytes), AssetError::Io(IoError::UnexpectedEof));
}

#[test]
fn wrong_index_marker_is_refused() {
    let mut bytes = two_files();
    let at = 16 + 12;
    assert_eq!(&bytes[at..at + 5], b"INDEX");
    bytes[at + 4] = b'Y';
    assert_eq!(failure(bytes), AssetError::InvalidAsset("Invalid index"));
    let mut bytes = b"SBAsset6".to_vec();
    bytes.extend_from_slice(&0u64.to_be_bytes());
    assert_eq!(failure(bytes), AssetError::InvalidAsset("Invalid index"));
}

#[test]
fn broken_index_fails_in_its_layer() {
    let mut bytes = b"SBAsset6".to_vec();
    bytes.extend_from_slice(&16u64.to_be_bytes());
    bytes.extend_from_slice(b"INDEX");
    assert_eq!(failure(bytes.clone()), AssetError::Sbon(SbonError::Io(IoError::UnexpectedEof)));
    bytes.push(0);
    assert_eq!(failure(bytes.clone()), AssetError::Sbon(SbonError::Io(IoError::UnexpectedEof)));
    bytes.push(1);
    assert_eq!(failure(bytes.clone()), AssetError::Sbon(SbonError::Io(IoError::UnexpectedEof)));
    bytes.extend_from_slice(&[1, 0xff]);
    assert_eq!(failure(bytes.clone()), AssetError::Sbon(SbonError::Utf8));
    let n = bytes.len();
    bytes[n - 1] = b'p';
    assert_eq!(failure(bytes.clone()), AssetError::Io(IoError::UnexpectedEof));
    bytes.extend_from_slice(&[0; 8]);
    assert_eq!(failure(bytes.clone()), AssetError::Io(IoError::UnexpectedEof));
    bytes.extend_from_slice(&[0; 8]);
    assert!(open(bytes).is_ok());
    let mut bytes = b"SBAsset6".to_vec();
    bytes.extend_from_slice(&16u64.to_be_bytes());
    bytes.extend_from_slice(b"INDEX");
    bytes.push(0);
    bytes.extend_from_slice(&[0x80; 10]);
    assert_eq!(failure(bytes), AssetError::Sbon(SbonError::OversizedVLQ));
}

#[test]
fn count_larger_than_the_entries_is_a_failure() {
    let mut bytes = b"SBAsset6".to_vec();
    bytes.extend_from_slice(&16u64.to_be_bytes());
    bytes.extend_from_slice(&index_block(&DynamicMap::new(), &[("a", 0, 0)], 2));
    assert_eq!(failure(bytes), AssetError::Sbon(SbonError::Io(IoError::UnexpectedEof)));
}

#[test]
fn index_may_lie_before_the_files() {
    let block = index_block(&DynamicMap::new(), &[("f", 0, 0)], 1);
    let payload_at = 16 + block.len() as u64;
    let block = index_block(&DynamicMap::new(), &[("f", payload_at, 3)], 1);
    let mut bytes = b"SBAsset6".to_vec();
    bytes.extend_from_slice(&16u64.to_be_bytes());
    bytes.extend_from_slice(&block);
    bytes.extend_from_slice(b"xyz");
    let mut reader = open(bytes).unwrap();
    assert_eq!(
        reader.get_file(&s("f")),
        Some(Ok(AssetFile { path: s("f"), bytes: b"xyz".to_vec() }))
    );
}

#[test]
fn archive_may_start_inside_the_source() {
    let mut bytes = two_files();
    let mut src_bytes = vec![0xee, 0xee];
    src_bytes.append(&mut bytes);
    let mut src = ByteSource::new(src_bytes.clone());
    src.seek(2);
    assert_eq!(
        failure_of(AssetReader::new(src)),
        AssetError::InvalidAsset("Invalid index")
    );
    let index_offset = 2 + 16 + 12u64;
    src_bytes[10..18].copy_from_slice(&index_offset.to_be_bytes());
    let mut src = ByteSource::new(src_bytes);
    src.seek(2);
    let mut reader = AssetReader::new(src).unwrap();
    assert_eq!(
        reader.get_file(&s("a.txt")),
        Some(Ok(AssetFile { path: s("a.txt"), bytes: vec![0, 30, b'h', b'e', b'l'] }))
    );
}

fn failure_of(r: Result<AssetReader, AssetError>) -> AssetError {
    match r {
        Ok(_) => panic!("the archive opened"),
        Err(e) => e,
    }
}

#[test]
fn later_entry_wins_for_a_repeated_path() {
    let bytes = archive(
        b"0123456789",
        &DynamicMap::new(),
        &[("p", 16, 2), ("q", 18, 2), ("p", 20, 3)],
    );
    let mut reader = open(bytes).unwrap();
    assert_eq!(reader.get_paths(), vec![&s("p"), &s("q")]);
    assert_eq!(
        reader.get_file(&s("p")),
        Some(Ok(AssetFile { path: s("p"), bytes: b"456".to_vec() }))
    );
}

#[test]
fn file_past_the_end_fails_when_it_is_read() {
    let bytes = archive(
        b"abc",
        &DynamicMap::new(),
        &[("ok", 16, 3), ("long", 16, 10_000), ("far", 1 << 40, 1), ("huge", 0, u64::MAX)],
    );
    let mut reader = open(bytes).unwrap();
    assert_eq!(
        reader.get_file(&s("long")),
        Some(Err(AssetError::Io(IoError::UnexpectedEof)))
    );
    assert_eq!(
        reader.get_file(&s("far")),
        Some(Err(AssetError::Io(IoError::UnexpectedEof)))
    );
    assert_eq!(
        reader.get_file(&s("huge")),
        Some(Err(AssetError::Io(IoError::UnexpectedEof)))
    );
    assert_eq!(
        reader.get_file(&s("ok")),
        Some(Ok(AssetFile { path: s("ok"), bytes: b"abc".to_vec() }))
    );
}

#[test]
fn empty_file_lies_anywhere() {
    let bytes = archive(b"", &DynamicMap::new(), &[("e", u64::MAX, 0), ("z", 0, 0)]);
    let mut reader = open(bytes).unwrap();
    assert_eq!(reader.get_file(&s("e")), Some(Ok(AssetFile { path: s("e"), bytes: vec![] })));
    assert_eq!(reader.get_file(&s("z")), Some(Ok(AssetFile { path: s("z"), bytes: vec![] })));
}

#[test]
fn file_may_end_with_the_archive() {
    let block = index_block(&DynamicMap::new(), &[("f", 0, 0)], 1);
    let total = 16 + block.len() as u64;
    let bytes = archive(b"", &DynamicMap::new(), &[("f", total - 2, 2)]);
    assert_eq!(bytes.len() as u64, total);
    let tail = bytes[bytes.len() - 2..].to_vec();
    let mut reader = open(bytes).unwrap();
    assert_eq!(reader.get_file(&s("f")), Some(Ok(AssetFile { path: s("f"), bytes: tail })));
    let bytes = archive(b"", &DynamicMap::new(), &[("f", total - 1, 2)]);
    let mut reader = open(bytes).unwrap();
    assert_eq!(reader.get_file(&s("f")), Some(Err(AssetError::Io(IoError::UnexpectedEof))));
}

#[test]
fn metadata_is_read_leniently() {
    let mut meta = DynamicMap::new();
    meta.insert(s("name"), Dynamic::String(s("my_mod")));
    meta.insert(s("friendlyName"), Dynamic::String(s("My Mod")));
    meta.insert(s("author"), Dynamic::VlqI(3));
    meta.insert(s("description"), Dynamic::List(vec![Dynamic::String(s("d"))]));
    meta.insert(s("steamContentId"), Dynamic::String(s("12345")));
    meta.insert(s("version"), Dynamic::String(s("1.0")));
    meta.insert(
        s("includes"),
        Dynamic::List(vec![Dynamic::String(s("base")), Dynamic::String(s("other"))]),
    );
    meta.insert(
        s("requires"),
        Dynamic::List(vec![Dynamic::String(s("base")), Dynamic::Nil]),
    );
    meta.insert(s("unknown"), Dynamic::Boolean(true));
    let reader = open(archive(b"", &meta, &[])).unwrap();
    let expected = Metadata {
        internal_name: Some(s("my_mod")),
        friendly_name: Some(s("My Mod")),
        author: None,
        description: None,
        steam_id: Some(s("12345")),
        tags: None,
        version: Some(s("1.0")),
        link: None,
        includes: Some(vec![s("base"), s("other")]),
        requires: None,
    };
    assert_eq!(reader.meta(), &expected);
    assert_eq!(Metadata::from_map(&meta), expected);
    assert_eq!(reader.get_paths().len(), 0);
}

#[test]
fn metadata_fields_one_by_one() {
    let mut meta = DynamicMap::new();
    meta.insert(s("tags"), Dynamic::String(s("a|b")));
    meta.insert(s("link"), Dynamic::String(s("http://example")));
    meta.insert(s("includes"), Dynamic::String(s("not a list")));
    meta.insert(s("requires"), Dynamic::List(vec![]));
    assert_eq!(get(&meta, "tags"), Some(s("a|b")));
    assert_eq!(get(&meta, "link"), Some(s("http://example")));
    assert_eq!(get(&meta, "name"), None);
    assert_eq!(get(&meta, "includes"), Some(s("not a list")));
    assert_eq!(get(&meta, "requires"), None);
    assert_eq!(get_list(&meta, "includes"), None);
    assert_eq!(get_list(&meta, "requires"), Some(vec![]));
    assert_eq!(get_list(&meta, "tags"), None);
    assert_eq!(get_list(&meta, "absent"), None);
    let m = Metadata::from_map(&meta);
    assert_eq!(m.tags, Some(s("a|b")));
    assert_eq!(m.link, Some(s("http://example")));
    assert_eq!(m.includes, None);
    assert_eq!(m.requires, Some(vec![]));
}

#[test]
fn to_asset_reads_every_file_in_index_order() {
    let asset = open(two_files()).unwrap().to_asset().unwrap();
    assert_eq!(asset.meta, Metadata::default());
    assert_eq!(
        asset.files,
        vec![
            AssetFile { path: s("a.txt"), bytes: b"hello".to_vec() },
            AssetFile { path: s("b.txt"), bytes: b"world".to_vec() },
        ]
    );
    assert_eq!(Asset::read_from(ByteSource::new(two_files())), Ok(asset));
}

#[test]
fn to_asset_fails_with_the_first_unreadable_file() {
    let bytes = archive(b"abc", &DynamicMap::new(), &[("ok", 16, 3), ("long", 16, 10_000)]);
    assert_eq!(
        open(bytes.clone()).unwrap().to_asset(),
        Err(AssetError::Io(IoError::UnexpectedEof))
    );
    assert_eq!(
        Asset::read_from(ByteSource::new(bytes)),
        Err(AssetError::Io(IoError::UnexpectedEof))
    );
    assert_eq!(
        Asset::read_from(ByteSource::new(b"nothing".to_vec())),
        Err(AssetError::Io(IoError::UnexpectedEof))
    );
    assert_eq!(
        Asset::read_from(ByteSource::new(b"nothing!\x00\x00\x00\x00\x00\x00\x00\x00".to_vec())),
        Err(AssetError::InvalidAsset("Invalid magic number"))
    );
}

#[test]
fn empty_asset() {
    let asset = Asset::new();
    assert_eq!(asset.meta, Metadata::default());
    assert!(asset.files.is_empty());
}

#[test]
fn iteration_reads_one_file_per_step() {
    let bytes = archive(
        b"abcdef",
        &DynamicMap::new(),
        &[("one", 16, 2), ("bad", 20, 99), ("two", 18, 4)],
    );
    let mut iter = open(bytes).unwrap().into_iter();
    assert_eq!(iter.next(), Some(Ok(AssetFile { path: s("one"), bytes: b"ab".to_vec() })));
    assert_eq!(iter.next(), Some(Err(AssetError::Io(IoError::UnexpectedEof))));
    assert_eq!(iter.next(), Some(Ok(AssetFile { path: s("two"), bytes: b"cdef".to_vec() })));
    assert_eq!(iter.next(), None);
    assert_eq!(iter.next(), None);
}

#[test]
fn iteration_over_an_empty_index() {
    let mut iter = open(archive(b"", &DynamicMap::new(), &[])).unwrap().into_iter();
    assert_eq!(iter.next(), None);
}

#[test]
fn file_index_binds_paths() {
    let mut index = FileIndex::new();
    assert_eq!(index.len(), 0);
    index.insert(s("a"), 1, 2);
    index.insert(s("b"), 3, 4);
    index.insert(s("a"), 5, 6);
    assert_eq!(index.len(), 2);
    assert_eq!(index.get(&s("a")), Some((5, 6)));
    assert_eq!(index.get(&s("b")), Some((3, 4)));
    assert_eq!(index.get(&s("c")), None);
    assert_eq!(index.position(&s("a")), Some(0));
    assert_eq!(index.position(&s("b")), Some(1));
    assert_eq!(index.position(&s("c")), None);
}

#[test]
fn offsets_are_big_endian() {
    let mut bytes = b"SBAsset6".to_vec();
    bytes.extend_from_slice(&[0, 0, 0, 0, 0, 0, 0, 0x12]);
    bytes.extend_from_slice(b"zz");
    bytes.extend_from_slice(b"INDEX");
    bytes.push(0);
    bytes.push(1);
    bytes.extend_from_slice(&[1, b'f']);
    bytes.extend_from_slice(&[0, 0, 0, 0, 0, 0, 0, 0x10]);
    bytes.extend_from_slice(&[0, 0, 0, 0, 0, 0, 0, 0x02]);
    let mut reader = open(bytes).unwrap();
    assert_eq!(
        reader.get_file(&s("f")),
        Some(Ok(AssetFile { path: s("f"), bytes: b"zz".to_vec() }))
    );
}
