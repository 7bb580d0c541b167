//! The asset archive: a header, an index of paths with the place of each
//! file, and the files themselves, read one at a time when asked for.

use vstd::prelude::*;
use crate::decode::{parse_map, parse_string};
use crate::dynamic::{lemma_view_of_collections, list_view, Dynamic, DynamicMap, Value};
use crate::endian::{be_bytes, be_read_u64, be_value, lemma_be_bytes_of_value};
use crate::error::{IoError, SbonError};
use crate::keyed::{
    has_key, is_first_position, key_position, keys_unique, lemma_key_position, lemma_map_insert,
    map_get, map_insert,
};
use crate::source::{take_exact, ByteSource};
use crate::varint::decode_varuint;

verus! {

/// What can go wrong while opening an archive or reading a file of it.
#[derive(Debug, Clone, Copy, PartialEq, Eq)]
pub enum AssetError {
    /// The byte source failed on a field of the archive itself, or on a file.
    Io(IoError),
    /// The metadata, the file count or a path did not decode.
    Sbon(SbonError),
    /// The bytes are no archive; the text says what was wrong.
    InvalidAsset(&'static str),
}

pub type AssetResult<T> = Result<T, AssetError>;

/// The failure of an archive that does not start with `SBAsset6`.
pub open spec fn invalid_magic() -> AssetError {
    AssetError::InvalidAsset("Invalid magic number")
}

/// The failure of an archive whose index does not start with `INDEX`.
pub open spec fn invalid_index() -> AssetError {
    AssetError::InvalidAsset("Invalid index")
}

/// The ASCII bytes of `SBAsset6`, read as one big-endian number.
pub const ASSET_MAGIC: u64 = 0x5342_4173_7365_7436;

/// The ASCII bytes of `SBAsset6`.
pub open spec fn asset_magic() -> Seq<u8> {
    seq![0x53u8, 0x42u8, 0x41u8, 0x73u8, 0x73u8, 0x65u8, 0x74u8, 0x36u8]
}

/// The ASCII bytes of `INDEX`.
pub open spec fn index_marker() -> Seq<u8> {
    seq![0x49u8, 0x4eu8, 0x44u8, 0x45u8, 0x58u8]
}

/// Eight bytes spell the magic number exactly when they are `SBAsset6`.
pub proof fn lemma_asset_magic(bytes: Seq<u8>)
    requires
        bytes.len() == 8,
    ensures
        be_value(bytes) == ASSET_MAGIC <==> bytes == asset_magic(),
{
    reveal_with_fuel(be_bytes, 9);
    reveal_with_fuel(be_value, 9);
    lemma_be_bytes_of_value(bytes);
    assert(be_bytes(ASSET_MAGIC as nat, 8) =~= asset_magic());
    if bytes == asset_magic() {
        lemma_be_bytes_of_value(asset_magic());
        assert(be_value(asset_magic()) == ASSET_MAGIC);
    }
}

/// A file of an archive: its path and its bytes.
#[derive(Debug, PartialEq, Eq)]
pub struct AssetFile {
    pub path: String,
    pub bytes: Vec<u8>,
}

impl View for AssetFile {
    type V = (Seq<char>, Seq<u8>);

    open spec fn view(&self) -> (Seq<char>, Seq<u8>) {
        (self.path@, self.bytes@)
    }
}

/// What an archive says of itself. Every field is optional: one that the
/// archive does not give, or gives in another shape, is absent.
#[derive(Debug, Clone, PartialEq, Eq)]
pub struct Metadata {
    pub internal_name: Option<String>,
    pub friendly_name: Option<String>,
    pub author: Option<String>,
    pub description: Option<String>,
    pub steam_id: Option<String>,
    pub tags: Option<String>,
    pub version: Option<String>,
    pub link: Option<String>,
    pub includes: Option<Vec<String>>,
    pub requires: Option<Vec<String>>,
}

/// The model of an archive's metadata.
pub struct MetadataView {
    pub internal_name: Option<Seq<char>>,
    pub friendly_name: Option<Seq<char>>,
    pub author: Option<Seq<char>>,
    pub description: Option<Seq<char>>,
    pub steam_id: Option<Seq<char>>,
    pub tags: Option<Seq<char>>,
    pub version: Option<Seq<char>>,
    pub link: Option<Seq<char>>,
    pub includes: Option<Seq<Seq<char>>>,
    pub requires: Option<Seq<Seq<char>>>,
}

/// The model of an optional text.
pub open spec fn text_view(field: Option<String>) -> Option<Seq<char>> {
    match field {
        Some(s) => Some(s@),
        None => None,
    }
}

/// The model of a list of texts.
pub open spec fn texts_view(texts: Seq<String>) -> Seq<Seq<char>> {
    Seq::new(texts.len(), |i: int| texts[i]@)
}

/// The model of an optional list of texts.
pub open spec fn text_list_view(field: Option<Vec<String>>) -> Option<Seq<Seq<char>>> {
    match field {
        Some(v) => Some(texts_view(v@)),
        None => None,
    }
}

impl View for Metadata {
    type V = MetadataView;

    open spec fn view(&self) -> MetadataView {
        MetadataView {
            internal_name: text_view(self.internal_name),
            friendly_name: text_view(self.friendly_name),
            author: text_view(self.author),
            description: text_view(self.description),
            steam_id: text_view(self.steam_id),
            tags: text_view(self.tags),
            version: text_view(self.version),
            link: text_view(self.link),
            includes: text_list_view(self.includes),
            requires: text_list_view(self.requires),
        }
    }
}

/// Metadata with every field absent.
pub open spec fn absent_metadata() -> MetadataView {
    MetadataView {
        internal_name: None,
        friendly_name: None,
        author: None,
        description: None,
        steam_id: None,
        tags: None,
        version: None,
        link: None,
        includes: None,
        requires: None,
    }
}

/// The text that `map` binds to `tag`; absent where `tag` is unbound or
/// bound to something else than a text.
pub open spec fn text_field(map: Seq<(Seq<char>, Value)>, tag: Seq<char>) -> Option<Seq<char>> {
    match map_get(map, tag) {
        Some(Value::String(s)) => Some(s),
        _ => None,
    }
}

/// Whether every item is a text.
pub open spec fn all_texts(items: Seq<Value>) -> bool {
    forall|i: int| 0 <= i < items.len() ==> (#[trigger] items[i]) is String
}

/// The texts that the items hold, in order.
pub open spec fn texts_of(items: Seq<Value>) -> Seq<Seq<char>> {
    Seq::new(items.len(), |i: int| items[i]->String_0)
}

/// The list of texts that `map` binds to `tag`; absent where `tag` is
/// unbound, bound to something else than a list, or to a list with an item
/// that is no text.
pub open spec fn text_list_field(map: Seq<(Seq<char>, Value)>, tag: Seq<char>) -> Option<
    Seq<Seq<char>>,
> {
    match map_get(map, tag) {
        Some(Value::List(items)) => if all_texts(items) {
            Some(texts_of(items))
        } else {
            None
        },
        _ => None,
    }
}

/// The metadata that an archive's top-level mapping gives.
pub open spec fn project_metadata(map: Seq<(Seq<char>, Value)>) -> MetadataView {
    MetadataView {
        internal_name: text_field(map, "name"@),
        friendly_name: text_field(map, "friendlyName"@),
        author: text_field(map, "author"@),
        description: text_field(map, "description"@),
        steam_id: text_field(map, "steamContentId"@),
        tags: text_field(map, "tags"@),
        version: text_field(map, "version"@),
        link: text_field(map, "link"@),
        includes: text_list_field(map, "includes"@),
        requires: text_list_field(map, "requires"@),
    }
}

/// The text bound to `tag`, if `tag` is bound to a text.
pub fn get(rm: &DynamicMap, tag: &str) -> (r: Option<String>)
    ensures
        text_view(r) == text_field(rm@, tag@),
{
    let key = tag.to_owned();
    match rm.get(&key) {
        Some(Dynamic::String(s)) => Some(s.clone()),
        _ => None,
    }
}

/// The texts bound to `tag`, if `tag` is bound to a list of texts.
pub fn get_list(rm: &DynamicMap, tag: &str) -> (r: Option<Vec<String>>)
    ensures
        text_list_view(r) == text_list_field(rm@, tag@),
{
    let key = tag.to_owned();
    match rm.get(&key) {
        Some(Dynamic::List(items)) => {
            let ghost models = list_view(items@);
            proof {
                lemma_view_of_collections(Dynamic::List(*items));
            }
            let mut out: Vec<String> = Vec::new();
            let mut i: usize = 0;
            while i < items.len()
                invariant
                    i <= items.len(),
                    models == list_view(items@),
                    text_list_field(rm@, tag@) == if all_texts(models) {
                        Some(texts_of(models))
                    } else {
                        None
                    },
                    out@.len() == i,
                    forall|j: int| 0 <= j < i ==> (#[trigger] models[j]) is String,
                    forall|j: int| 0 <= j < i ==> (#[trigger] out@[j])@ == models[j]->String_0,
                decreases items.len() - i,
            {
                match &items[i] {
                    Dynamic::String(s) => {
                        out.push(s.clone());
                    },
                    _ => {
                        assert(!(models[i as int] is String));
                        return None;
                    },
                }
                i = i + 1;
            }
            assert(texts_view(out@) =~= texts_of(models));
            Some(out)
        },
        _ => None,
    }
}

impl Metadata {
    /// Reads the metadata off an archive's top-level mapping. This never
    /// fails: what is missing or misshapen is absent.
    pub fn from_map(rm: &DynamicMap) -> (meta: Metadata)
        ensures
            meta@ == project_metadata(rm@),
    {
        Metadata {
            internal_name: get(rm, "name"),
            friendly_name: get(rm, "friendlyName"),
            author: get(rm, "author"),
            description: get(rm, "description"),
            steam_id: get(rm, "steamContentId"),
            tags: get(rm, "tags"),
            version: get(rm, "version"),
            link: get(rm, "link"),
            includes: get_list(rm, "includes"),
            requires: get_list(rm, "requires"),
        }
    }
}

impl Default for Metadata {
    /// Metadata with every field absent.
    fn default() -> (meta: Metadata)
        ensures
            meta@ == absent_metadata(),
    {
        Metadata {
            internal_name: None,
            friendly_name: None,
            author: None,
            description: None,
            steam_id: None,
            tags: None,
            version: None,
            link: None,
            includes: None,
            requires: None,
        }
    }
}

/// Where a file lies in an archive: its path, the offset of its first
/// byte from the start of the archive, and its length in bytes.
#[derive(Debug, PartialEq, Eq)]
pub struct IndexEntry {
    pub path: String,
    pub offset: u64,
    pub length: u64,
}

/// The index of an archive: for each path the place of its file.
#[derive(Debug, PartialEq, Eq)]
pub struct FileIndex {
    pub entries: Vec<IndexEntry>,
}

/// The model of an index: its paths, each with an offset and a length, in
/// the order in which the paths first came.
pub type IndexView = Seq<(Seq<char>, (u64, u64))>;

/// The models of index entries, in order.
pub open spec fn index_view(entries: Seq<IndexEntry>) -> IndexView {
    Seq::new(entries.len(), |i: int| (entries[i].path@, (entries[i].offset, entries[i].length)))
}

impl View for FileIndex {
    type V = IndexView;

    open spec fn view(&self) -> IndexView {
        index_view(self.entries@)
    }
}

impl FileIndex {
    /// An index without entries.
    pub fn new() -> (index: FileIndex)
        ensures
            index@ == Seq::<(Seq<char>, (u64, u64))>::empty(),
    {
        let index = FileIndex { entries: Vec::new() };
        assert(index@ =~= Seq::<(Seq<char>, (u64, u64))>::empty());
        index
    }

    /// How many paths the index holds.
    pub fn len(&self) -> (n: usize)
        ensures
            n == self@.len(),
    {
        self.entries.len()
    }

    /// The first place that holds `path`, if any does.
    pub fn position(&self, path: &String) -> (r: Option<usize>)
        ensures
            match r {
                Some(i) => has_key(self@, path@) && i == key_position(self@, path@)
                    && is_first_position(self@, path@, i as int),
                None => !has_key(self@, path@),
            },
    {
        let mut i: usize = 0;
        while i < self.entries.len()
            invariant
                i <= self.entries.len(),
                forall|j: int| 0 <= j < i ==> (#[trigger] self@[j]).0 != path@,
            decreases self.entries.len() - i,
        {
            if self.entries[i].path == *path {
                proof {
                    assert(self@[i as int].0 == path@);
                    assert(is_first_position(self@, path@, i as int));
                    lemma_key_position(self@, path@);
                    let p = key_position(self@, path@);
                    if p < i {
                        assert(self@[p].0 == path@);
                    }
                }
                return Some(i);
            }
            i = i + 1;
        }
        None
    }

    /// The offset and the length recorded for `path`, if it is indexed.
    pub fn get(&self, path: &String) -> (r: Option<(u64, u64)>)
        ensures
            r == map_get(self@, path@),
    {
        match self.position(path) {
            Some(i) => Some((self.entries[i].offset, self.entries[i].length)),
            None => None,
        }
    }

    /// Records `offset` and `length` for `path`. A path that is already
    /// indexed keeps its place and takes the new values.
    pub fn insert(&mut self, path: String, offset: u64, length: u64)
        ensures
            final(self)@ == map_insert(old(self)@, path@, (offset, length)),
            keys_unique(old(self)@) ==> keys_unique(final(self)@),
    {
        proof {
            if keys_unique(self@) {
                lemma_map_insert(self@, path@, (offset, length));
            }
        }
        match self.position(&path) {
            Some(i) => {
                self.entries.set(i, IndexEntry { path, offset, length });
            },
            None => {
                self.entries.push(IndexEntry { path, offset, length });
            },
        }
        assert(self@ =~= map_insert(old(self)@, path@, (offset, length)));
    }
}

/// What opening an archive yields: its metadata and its index.
pub struct ArchiveView {
    pub meta: MetadataView,
    pub index: IndexView,
}

/// The bytes from `offset` on; none when `offset` lies past the end.
pub open spec fn bytes_from(all: Seq<u8>, offset: nat) -> Seq<u8> {
    if offset <= all.len() {
        all.skip(offset as int)
    } else {
        Seq::empty()
    }
}

/// Decoding `count` more index entries after those in `done`: for each a
/// path, an offset and a length, each of the two as eight big-endian
/// bytes. A path that comes again takes the later offset and length.
pub open spec fn parse_index_entries(bytes: Seq<u8>, count: nat, done: IndexView) -> Result<
    IndexView,
    AssetError,
>
    decreases count,
{
    if count == 0 {
        Ok(done)
    } else {
        let path = parse_string(bytes);
        match path.value {
            Err(e) => Err(AssetError::Sbon(e)),
            Ok(p) => {
                let offset = take_exact(path.rest, 8);
                match offset.value {
                    Err(e) => Err(AssetError::Io(e)),
                    Ok(o) => {
                        let length = take_exact(offset.rest, 8);
                        match length.value {
                            Err(e) => Err(AssetError::Io(e)),
                            Ok(l) => parse_index_entries(
                                length.rest,
                                (count - 1) as nat,
                                map_insert(done, p, (be_value(o) as u64, be_value(l) as u64)),
                            ),
                        }
                    },
                }
            },
        }
    }
}

/// Decoding the index block: the marker `INDEX`, the metadata mapping, the
/// number of entries, the entries.
pub open spec fn parse_index_block(bytes: Seq<u8>) -> Result<ArchiveView, AssetError> {
    let marker = take_exact(bytes, 5);
    match marker.value {
        Err(e) => Err(AssetError::Io(e)),
        Ok(m) => if m != index_marker() {
            Err(invalid_index())
        } else {
            let meta = parse_map(marker.rest);
            match meta.value {
                Err(e) => Err(AssetError::Sbon(e)),
                Ok(map) => {
                    let count = decode_varuint(meta.rest);
                    match count.value {
                        Err(e) => Err(AssetError::Sbon(e)),
                        Ok(n) => match parse_index_entries(count.rest, n as nat, Seq::empty()) {
                            Err(e) => Err(e),
                            Ok(index) => Ok(ArchiveView { meta: project_metadata(map), index }),
                        },
                    }
                },
            }
        },
    }
}

/// Decoding the header: the magic `SBAsset6`, then the offset of the index
/// block as eight big-endian bytes.
pub open spec fn parse_header(bytes: Seq<u8>) -> Result<u64, AssetError> {
    let magic = take_exact(bytes, 8);
    match magic.value {
        Err(e) => Err(AssetError::Io(e)),
        Ok(m) => if m != asset_magic() {
            Err(invalid_magic())
        } else {
            let offset = take_exact(magic.rest, 8);
            match offset.value {
                Err(e) => Err(AssetError::Io(e)),
                Ok(o) => Ok(be_value(o) as u64),
            }
        },
    }
}

/// Opening an archive whose bytes are `all`, with `unread` still to read:
/// the header, and at the offset it gives, counted from the start of
/// `all`, the index block.
pub open spec fn parse_archive(all: Seq<u8>, unread: Seq<u8>) -> Result<ArchiveView, AssetError> {
    match parse_header(unread) {
        Err(e) => Err(e),
        Ok(offset) => parse_index_block(bytes_from(all, offset as nat)),
    }
}

/// The bytes of the file that lies at `offset` with `length` bytes. A
/// file that reaches past the end of the archive is a failed read; an
/// empty file lies anywhere.
pub open spec fn file_bytes(all: Seq<u8>, offset: u64, length: u64) -> Result<Seq<u8>, AssetError> {
    if length == 0 {
        Ok(Seq::empty())
    } else if offset + length <= all.len() {
        Ok(all.subrange(offset as int, offset + length))
    } else {
        Err(AssetError::Io(IoError::UnexpectedEof))
    }
}

/// The index that was read holds each path once.
pub proof fn lemma_index_keys_unique(bytes: Seq<u8>, count: nat, done: IndexView)
    requires
        keys_unique(done),
    ensures
        parse_index_entries(bytes, count, done) matches Ok(index) ==> keys_unique(index),
    decreases count,
{
    if count > 0 {
        let path = parse_string(bytes);
        if path.value is Ok {
            let offset = take_exact(path.rest, 8);
            if offset.value is Ok {
                let length = take_exact(offset.rest, 8);
                if length.value is Ok {
                    let value = (
                        be_value(offset.value->Ok_0) as u64,
                        be_value(length.value->Ok_0) as u64,
                    );
                    lemma_map_insert(done, path.value->Ok_0, value);
                    lemma_index_keys_unique(
                        length.rest,
                        (count - 1) as nat,
                        map_insert(done, path.value->Ok_0, value),
                    );
                }
            }
        }
    }
}

impl ByteSource {
    /// Reads the header of an archive: checks the magic and gives the
    /// offset of the index block, counted from the start of the archive.
    pub fn read_sb_asset_header(&mut self) -> (r: AssetResult<u64>)
        ensures
            final(self).bytes() == old(self).bytes(),
            r == parse_header(old(self).remaining()),
            old(self).remaining().len() >= 8 && old(self).remaining().take(8) != asset_magic()
                ==> r == Err::<u64, AssetError>(invalid_magic()),
    {
        let magic = match self.read_exact(8) {
            Ok(m) => m,
            Err(e) => {
                return Err(AssetError::Io(e));
            },
        };
        proof {
            lemma_asset_magic(magic@);
            assert(magic@.take(8) =~= magic@);
        }
        if be_read_u64(magic.as_slice()) != ASSET_MAGIC {
            return Err(AssetError::InvalidAsset("Invalid magic number"));
        }
        let raw_offset = match self.read_exact(8) {
            Ok(o) => o,
            Err(e) => {
                return Err(AssetError::Io(e));
            },
        };
        assert(raw_offset@.take(8) =~= raw_offset@);
        Ok(be_read_u64(raw_offset.as_slice()))
    }

    /// Reads the index block of an archive, from its marker on: the
    /// metadata, read leniently, and the index, each path once.
    #[verifier::loop_isolation(false)]
    pub fn read_sb_asset_index(&mut self) -> (r: AssetResult<(Metadata, FileIndex)>)
        ensures
            final(self).bytes() == old(self).bytes(),
            match parse_index_block(old(self).remaining()) {
                Ok(archive) => r matches Ok(read) && read.0@ == archive.meta && read.1@
                    == archive.index && keys_unique(read.1@),
                Err(e) => r matches Err(err) && err == e,
            },
    {
        let marker = match self.read_exact(5) {
            Ok(m) => m,
            Err(e) => {
                return Err(AssetError::Io(e));
            },
        };
        let is_marker = marker[0] == 0x49 && marker[1] == 0x4e && marker[2] == 0x44 && marker[3]
            == 0x45 && marker[4] == 0x58;
        assert(is_marker <==> marker@ =~= index_marker());
        if !is_marker {
            return Err(AssetError::InvalidAsset("Invalid index"));
        }
        let rm = match self.read_sb_map() {
            Ok(m) => m,
            Err(e) => {
                return Err(AssetError::Sbon(e));
            },
        };
        let meta = Metadata::from_map(&rm);
        let count: u64 = match self.read_sb_vlqu() {
            Ok(n) => n,
            Err(e) => {
                return Err(AssetError::Sbon(e));
            },
        };
        let ghost after_count = self.remaining();
        let mut files = FileIndex::new();
        let mut i: u64 = 0;
        while i < count
            invariant
                i <= count,
                self.bytes() == old(self).bytes(),
                keys_unique(files@),
                parse_index_entries(after_count, count as nat, Seq::empty())
                    == parse_index_entries(self.remaining(), (count - i) as nat, files@),
            decreases count - i,
        {
            let path = match self.read_sb_string() {
                Ok(p) => p,
                Err(e) => {
                    return Err(AssetError::Sbon(e));
                },
            };
            let raw_offset = match self.read_exact(8) {
                Ok(o) => o,
                Err(e) => {
                    return Err(AssetError::Io(e));
                },
            };
            let raw_length = match self.read_exact(8) {
                Ok(l) => l,
                Err(e) => {
                    return Err(AssetError::Io(e));
                },
            };
            assert(raw_offset@.take(8) =~= raw_offset@);
            assert(raw_length@.take(8) =~= raw_length@);
            let offset = be_read_u64(raw_offset.as_slice());
            let length = be_read_u64(raw_length.as_slice());
            files.insert(path, offset, length);
            i = i + 1;
        }
        Ok((meta, files))
    }
}

/// The models of files, in order.
pub open spec fn files_view(files: Seq<AssetFile>) -> Seq<(Seq<char>, Seq<u8>)> {
    Seq::new(files.len(), |i: int| files[i]@)
}

/// Whether `files` are the files that `index` names, each read in full
/// from `all`, in the order of the index.
pub open spec fn is_full_read(
    all: Seq<u8>,
    index: IndexView,
    files: Seq<(Seq<char>, Seq<u8>)>,
) -> bool {
    &&& files.len() == index.len()
    &&& forall|i: int|
        0 <= i < index.len() ==> (#[trigger] files[i]).0 == index[i].0 && file_bytes(
            all,
            index[i].1.0,
            index[i].1.1,
        ) == Ok::<Seq<u8>, AssetError>(files[i].1)
}

/// Whether `e` is the failure of the first file of `index` that cannot be
/// read in full from `all`.
pub open spec fn is_first_failure(all: Seq<u8>, index: IndexView, e: AssetError) -> bool {
    exists|i: int|
        0 <= i < index.len() && file_bytes(all, (#[trigger] index[i]).1.0, index[i].1.1) == Err::<
            Seq<u8>,
            AssetError,
        >(e) && forall|j: int|
            0 <= j < i ==> file_bytes(all, (#[trigger] index[j]).1.0, index[j].1.1) is Ok
}

/// Seeks to `offset` and reads `length` bytes.
fn read_at(source: &mut ByteSource, offset: u64, length: u64) -> (r: AssetResult<Vec<u8>>)
    ensures
        final(source).bytes() == old(source).bytes(),
        match file_bytes(old(source).bytes(), offset, length) {
            Ok(b) => r matches Ok(v) && v@ == b,
            Err(e) => r == Err::<Vec<u8>, AssetError>(e),
        },
{
    let total = source.len();
    source.seek(offset);
    if length > usize::MAX as u64 {
        return Err(AssetError::Io(IoError::UnexpectedEof));
    }
    match source.read_exact(length as usize) {
        Ok(v) => {
            if length > 0 {
                assert(v@ =~= source.bytes().subrange(offset as int, offset + length));
            } else {
                assert(v@ =~= Seq::<u8>::empty());
            }
            Ok(v)
        },
        Err(e) => Err(AssetError::Io(e)),
    }
}

/// Every file of an archive, held in memory.
#[derive(Debug, PartialEq, Eq)]
pub struct Asset {
    pub meta: Metadata,
    pub files: Vec<AssetFile>,
}

impl Asset {
    /// An archive without metadata and without files.
    pub fn new() -> (asset: Asset)
        ensures
            asset.meta@ == absent_metadata(),
            asset.files@ == Seq::<AssetFile>::empty(),
    {
        Asset { meta: Metadata::default(), files: Vec::new() }
    }

    /// Opens the archive in `inner` and reads every file of it.
    pub fn read_from(inner: ByteSource) -> (r: AssetResult<Asset>)
        ensures
            match parse_archive(inner.bytes(), inner.remaining()) {
                Err(e) => r == Err::<Asset, AssetError>(e),
                Ok(archive) => match r {
                    Ok(asset) => asset.meta@ == archive.meta && is_full_read(
                        inner.bytes(),
                        archive.index,
                        files_view(asset.files@),
                    ),
                    Err(e) => is_first_failure(inner.bytes(), archive.index, e),
                },
            },
    {
        match AssetReader::new(inner) {
            Ok(reader) => reader.to_asset(),
            Err(e) => Err(e),
        }
    }
}

/// An open archive: the index and the metadata are read, the files are
/// not. Each file is read from the source when it is asked for.
pub struct AssetReader {
    inner: ByteSource,
    files: FileIndex,
    meta: Metadata,
}

impl AssetReader {
    /// Every byte of the archive.
    pub closed spec fn archive_bytes(&self) -> Seq<u8> {
        self.inner.bytes()
    }

    /// The index: each path once, with the place of its file.
    pub closed spec fn index(&self) -> IndexView {
        self.files@
    }

    /// What the archive says of itself.
    pub closed spec fn metadata(&self) -> MetadataView {
        self.meta@
    }

    /// What the archive says of itself.
    pub fn meta(&self) -> (meta: &Metadata)
        ensures
            meta@ == self.metadata(),
    {
        &self.meta
    }

    /// Opens the archive in `inner`: checks the magic, finds the index
    /// block, and reads the metadata and the index. No file is read.
    pub fn new(inner: ByteSource) -> (r: AssetResult<AssetReader>)
        ensures
            match parse_archive(inner.bytes(), inner.remaining()) {
                Ok(archive) => r matches Ok(reader) && reader.archive_bytes() == inner.bytes()
                    && reader.index() == archive.index && reader.metadata() == archive.meta
                    && keys_unique(reader.index()),
                Err(e) => r matches Err(err) && err == e,
            },
            inner.remaining().len() >= 8 && inner.remaining().take(8) != asset_magic() ==> (r
                matches Err(err) && err == invalid_magic()),
    {
        let mut inner = inner;
        let index_offset = match inner.read_sb_asset_header() {
            Ok(offset) => offset,
            Err(e) => {
                return Err(e);
            },
        };
        inner.seek(index_offset);
        assert(inner.remaining() =~= bytes_from(inner.bytes(), index_offset as nat));
        match inner.read_sb_asset_index() {
            Ok((meta, files)) => Ok(AssetReader { inner, files, meta }),
            Err(e) => Err(e),
        }
    }

    /// Reads the file recorded at `info`, an offset and a length.
    fn read_file(&mut self, info: &(u64, u64)) -> (r: AssetResult<Vec<u8>>)
        ensures
            final(self).archive_bytes() == old(self).archive_bytes(),
            final(self).index() == old(self).index(),
            final(self).metadata() == old(self).metadata(),
            match file_bytes(old(self).archive_bytes(), info.0, info.1) {
                Ok(b) => r matches Ok(v) && v@ == b,
                Err(e) => r == Err::<Vec<u8>, AssetError>(e),
            },
    {
        read_at(&mut self.inner, info.0, info.1)
    }

    /// Reads the file that the index records for `path`. A path that is
    /// not indexed gives nothing, which is no failure; an indexed file
    /// that reaches past the end of the archive is a failed read.
    pub fn get_file(&mut self, path: &String) -> (r: Option<AssetResult<AssetFile>>)
        ensures
            final(self).archive_bytes() == old(self).archive_bytes(),
            final(self).index() == old(self).index(),
            final(self).metadata() == old(self).metadata(),
            match map_get(old(self).index(), path@) {
                None => r is None,
                Some(place) => r matches Some(read) && match file_bytes(
                    old(self).archive_bytes(),
                    place.0,
                    place.1,
                ) {
                    Ok(b) => read matches Ok(file) && file@ == (path@, b),
                    Err(e) => read == Err::<AssetFile, AssetError>(e),
                },
            },
    {
        let info = match self.files.get(path) {
            Some(place) => place,
            None => {
                return None;
            },
        };
        match self.read_file(&info) {
            Ok(bytes) => Some(Ok(AssetFile { path: path.clone(), bytes })),
            Err(e) => Some(Err(e)),
        }
    }

    /// Every indexed path, each once, in the order of the index.
    pub fn get_paths(&self) -> (paths: Vec<&String>)
        ensures
            paths@.len() == self.index().len(),
            forall|i: int| 0 <= i < paths@.len() ==> (#[trigger] paths@[i])@ == self.index()[i].0,
    {
        let mut paths: Vec<&String> = Vec::new();
        let mut i: usize = 0;
        while i < self.files.entries.len()
            invariant
                i <= self.files.entries.len(),
                paths@.len() == i,
                forall|j: int| 0 <= j < i ==> (#[trigger] paths@[j])@ == self.files@[j].0,
            decreases self.files.entries.len() - i,
        {
            paths.push(&self.files.entries[i].path);
            i = i + 1;
        }
        paths
    }

    /// Whether `path` is indexed. Nothing is read.
    pub fn has_file(&self, path: &String) -> (b: bool)
        ensures
            b == has_key(self.index(), path@),
    {
        self.files.position(path).is_some()
    }

    /// Reads every file, in the order of the index, and gives the archive
    /// as a whole. The first file that cannot be read ends it.
    #[verifier::loop_isolation(false)]
    pub fn to_asset(self) -> (r: AssetResult<Asset>)
        ensures
            match r {
                Ok(asset) => asset.meta@ == self.metadata() && is_full_read(
                    self.archive_bytes(),
                    self.index(),
                    files_view(asset.files@),
                ),
                Err(e) => is_first_failure(self.archive_bytes(), self.index(), e),
            },
    {
        let ghost all = self.archive_bytes();
        let ghost index = self.index();
        let AssetReader { inner, files, meta } = self;
        let mut inner = inner;
        let mut out: Vec<AssetFile> = Vec::new();
        let mut i: usize = 0;
        while i < files.entries.len()
            invariant
                i <= files.entries.len(),
                inner.bytes() == all,
                files@ == index,
                out@.len() == i,
                forall|j: int|
                    0 <= j < i ==> (#[trigger] files_view(out@)[j]).0 == index[j].0 && file_bytes(
                        all,
                        index[j].1.0,
                        index[j].1.1,
                    ) == Ok::<Seq<u8>, AssetError>(files_view(out@)[j].1),
            decreases files.entries.len() - i,
        {
            let ghost before = files_view(out@);
            let entry = &files.entries[i];
            assert(index[i as int] == (entry.path@, (entry.offset, entry.length)));
            match read_at(&mut inner, entry.offset, entry.length) {
                Ok(bytes) => {
                    out.push(AssetFile { path: entry.path.clone(), bytes });
                },
                Err(e) => {
                    assert forall|j: int| 0 <= j < i implies file_bytes(
                        all,
                        (#[trigger] index[j]).1.0,
                        index[j].1.1,
                    ) is Ok by {
                        assert(files_view(out@)[j].0 == index[j].0);
                    }
                    return Err(e);
                },
            }
            assert forall|j: int| 0 <= j < i + 1 implies (#[trigger] files_view(out@)[j]).0
                == index[j].0 && file_bytes(all, index[j].1.0, index[j].1.1) == Ok::<
                Seq<u8>,
                AssetError,
            >(files_view(out@)[j].1) by {
                if j < i {
                    assert(files_view(out@)[j] == before[j]);
                }
            }
            i = i + 1;
        }
        Ok(Asset { meta, files: out })
    }

    /// Turns the reader into a walk over its files, in the order of the index.
    pub fn into_iter(self) -> (iter: AssetReadIter)
        ensures
            iter.archive_bytes() == self.archive_bytes(),
            iter.pending() == self.index(),
    {
        let AssetReader { inner, files, meta: _ } = self;
        let iter = AssetReadIter { inner, files, cursor: 0 };
        assert(iter.pending() =~= files@);
        iter
    }
}

/// A walk over the files of an archive: each step reads one file.
pub struct AssetReadIter {
    inner: ByteSource,
    files: FileIndex,
    cursor: usize,
}

impl AssetReadIter {
    /// Every byte of the archive.
    pub closed spec fn archive_bytes(&self) -> Seq<u8> {
        self.inner.bytes()
    }

    /// The index entries whose files are still to come, in order.
    pub closed spec fn pending(&self) -> IndexView {
        if self.cursor <= self.files@.len() {
            self.files@.skip(self.cursor as int)
        } else {
            Seq::empty()
        }
    }

    /// Reads the next file. There is nothing once every entry was
    /// visited; a file that cannot be read is a failure of that step, and
    /// the walk goes on behind it.
    pub fn next(&mut self) -> (r: Option<AssetResult<AssetFile>>)
        ensures
            final(self).archive_bytes() == old(self).archive_bytes(),
            old(self).pending().len() == 0 ==> r is None && final(self).pending() == old(
                self,
            ).pending(),
            old(self).pending().len() > 0 ==> final(self).pending() == old(
                self,
            ).pending().drop_first() && (r matches Some(read) && match file_bytes(
                old(self).archive_bytes(),
                old(self).pending()[0].1.0,
                old(self).pending()[0].1.1,
            ) {
                Ok(b) => read matches Ok(file) && file@ == (old(self).pending()[0].0, b),
                Err(e) => read == Err::<AssetFile, AssetError>(e),
            }),
    {
        if self.cursor >= self.files.entries.len() {
            return None;
        }
        let ghost first = self.pending()[0];
        let path = self.files.entries[self.cursor].path.clone();
        let offset = self.files.entries[self.cursor].offset;
        let length = self.files.entries[self.cursor].length;
        assert(first == (path@, (offset, length)));
        self.cursor = self.cursor + 1;
        assert(self.pending() =~= old(self).pending().drop_first());
        match read_at(&mut self.inner, offset, length) {
            Ok(bytes) => Some(Ok(AssetFile { path, bytes })),
            Err(e) => Some(Err(e)),
        }
    }
}

} // verus!
