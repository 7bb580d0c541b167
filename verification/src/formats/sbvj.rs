//! The versioned document: a name, an optional version and one dynamic
//! value, bare or behind the six-byte magic `SBVJ01` of a standalone file.

use vstd::prelude::*;
use crate::decode::{parse_dynamic, parse_string};
use crate::dynamic::{text_fits, value_wf, Dynamic, Value};
use crate::encode::{encode_dynamic, encode_string};
use crate::endian::{
    be_bytes, be_read_i32, be_value, be_write_i32, i32_from_bits, i32_to_bits,
    lemma_be_value_of_bytes, lemma_pow256_widths,
};
use crate::error::{IoError, SbonError};
use crate::roundtrip::{lemma_dynamic_roundtrip, lemma_string_roundtrip};
use crate::sink::ByteSink;
use crate::source::{take_exact, take_u8, ByteSource, Decoded};

verus! {

/// What can go wrong while reading a versioned document.
#[derive(Debug, Clone, Copy, PartialEq, Eq, Structural)]
pub enum SbvjError {
    /// The byte source failed on a field of the document itself.
    Io(IoError),
    /// The name or the payload did not decode.
    Sbon(SbonError),
    /// The file does not start with `SBVJ01`.
    MagicNumberError,
}

/// A versioned document.
#[derive(Debug, PartialEq)]
pub struct VJson {
    pub name: String,
    pub version: Option<i32>,
    pub data: Dynamic,
}

/// The model of a versioned document.
pub struct VJsonView {
    pub name: Seq<char>,
    pub version: Option<i32>,
    pub data: Value,
}

impl View for VJson {
    type V = VJsonView;

    open spec fn view(&self) -> VJsonView {
        VJsonView { name: self.name@, version: self.version, data: self.data@ }
    }
}

/// The ASCII bytes of `SBVJ01`.
pub open spec fn sbvj01_magic() -> Seq<u8> {
    seq![0x53u8, 0x42u8, 0x56u8, 0x4au8, 0x30u8, 0x31u8]
}

/// A document on the wire: the name, a flag byte that is `1` exactly when
/// a version follows, the version as four big-endian bytes, the payload.
pub open spec fn encode_vjson(doc: VJsonView) -> Seq<u8> {
    encode_string(doc.name) + encode_version(doc.version) + encode_dynamic(doc.data)
}

/// A standalone document on the wire: the magic, then the document.
pub open spec fn encode_sbvj01(doc: VJsonView) -> Seq<u8> {
    sbvj01_magic() + encode_vjson(doc)
}

/// Decoding the version field: a flag byte, and four more bytes when its
/// low bit is set.
pub open spec fn parse_version(bytes: Seq<u8>) -> Decoded<Option<i32>, SbvjError> {
    let flag = take_u8(bytes);
    match flag.value {
        Err(e) => Decoded { value: Err(SbvjError::Io(e)), rest: flag.rest },
        Ok(f) => if f % 2 == 1 {
            let raw = take_exact(flag.rest, 4);
            Decoded {
                value: match raw.value {
                    Ok(b) => Ok(Some(i32_from_bits(be_value(b)) as i32)),
                    Err(e) => Err(SbvjError::Io(e)),
                },
                rest: raw.rest,
            }
        } else {
            Decoded { value: Ok(None), rest: flag.rest }
        },
    }
}

/// Decoding a document off the front of `bytes`.
pub open spec fn parse_vjson(bytes: Seq<u8>) -> Decoded<VJsonView, SbvjError> {
    let name = parse_string(bytes);
    match name.value {
        Err(e) => Decoded { value: Err(SbvjError::Sbon(e)), rest: name.rest },
        Ok(n) => {
            let version = parse_version(name.rest);
            match version.value {
                Err(e) => Decoded { value: Err(e), rest: version.rest },
                Ok(v) => {
                    let data = parse_dynamic(version.rest);
                    Decoded {
                        value: match data.value {
                            Ok(d) => Ok(VJsonView { name: n, version: v, data: d }),
                            Err(e) => Err(SbvjError::Sbon(e)),
                        },
                        rest: data.rest,
                    }
                },
            }
        },
    }
}

/// Decoding a standalone document: six bytes that must be the magic, then
/// the document.
pub open spec fn parse_sbvj01(bytes: Seq<u8>) -> Decoded<VJsonView, SbvjError> {
    let magic = take_exact(bytes, 6);
    match magic.value {
        Err(e) => Decoded { value: Err(SbvjError::Io(e)), rest: magic.rest },
        Ok(m) => if m == sbvj01_magic() {
            parse_vjson(magic.rest)
        } else {
            Decoded { value: Err(SbvjError::MagicNumberError), rest: magic.rest }
        },
    }
}

/// The version field on the wire.
pub open spec fn encode_version(version: Option<i32>) -> Seq<u8> {
    match version {
        Some(v) => seq![1u8] + be_bytes(i32_to_bits(v), 4),
        None => seq![0u8],
    }
}

/// A version field that is written and read back is the same.
pub proof fn lemma_version_roundtrip(version: Option<i32>, tail: Seq<u8>)
    ensures
        parse_version(encode_version(version) + tail) == (Decoded::<Option<i32>, SbvjError> {
            value: Ok(version),
            rest: tail,
        }),
{
    let bytes = encode_version(version) + tail;
    match version {
        Some(v) => {
            lemma_pow256_widths();
            lemma_be_value_of_bytes(i32_to_bits(v), 4);
            let after_flag = bytes.skip(1);
            assert(after_flag =~= be_bytes(i32_to_bits(v), 4) + tail);
            assert(after_flag.take(4) =~= be_bytes(i32_to_bits(v), 4));
            assert(after_flag.skip(4) =~= tail);
        },
        None => {
            assert(bytes.skip(1) =~= tail);
        },
    }
}

/// A document that is written and read back is the same document, and
/// reading takes exactly what was written.
pub proof fn lemma_vjson_roundtrip(doc: VJsonView, tail: Seq<u8>)
    requires
        text_fits(doc.name),
        value_wf(doc.data),
    ensures
        parse_vjson(encode_vjson(doc) + tail) == (Decoded::<VJsonView, SbvjError> {
            value: Ok(doc),
            rest: tail,
        }),
{
    let after_version = encode_dynamic(doc.data) + tail;
    let after_name = encode_version(doc.version) + after_version;
    assert(encode_vjson(doc) + tail =~= encode_string(doc.name) + after_name);
    lemma_string_roundtrip(doc.name, after_name);
    lemma_version_roundtrip(doc.version, after_version);
    lemma_dynamic_roundtrip(doc.data, tail);
}

/// A standalone document that is written and read back is the same
/// document.
pub proof fn lemma_sbvj01_roundtrip(doc: VJsonView, tail: Seq<u8>)
    requires
        text_fits(doc.name),
        value_wf(doc.data),
    ensures
        parse_sbvj01(encode_sbvj01(doc) + tail) == (Decoded::<VJsonView, SbvjError> {
            value: Ok(doc),
            rest: tail,
        }),
{
    let whole = encode_sbvj01(doc) + tail;
    assert(whole.take(6) =~= sbvj01_magic());
    assert(whole.skip(6) =~= encode_vjson(doc) + tail);
    lemma_vjson_roundtrip(doc, tail);
}

/// The ASCII bytes of `SBVJ01`.
fn sbvj01_magic_bytes() -> (m: [u8; 6])
    ensures
        m@ == sbvj01_magic(),
{
    let m: [u8; 6] = [0x53, 0x42, 0x56, 0x4a, 0x30, 0x31];
    assert(m@ =~= sbvj01_magic());
    m
}

impl ByteSource {
    /// Reads a versioned document.
    pub fn read_sb_vjson(&mut self) -> (r: Result<VJson, SbvjError>)
        ensures
            final(self).bytes() == old(self).bytes(),
            final(self).remaining() == parse_vjson(old(self).remaining()).rest,
            match parse_vjson(old(self).remaining()).value {
                Ok(doc) => r matches Ok(d) && d@ == doc,
                Err(e) => r == Err::<VJson, SbvjError>(e),
            },
    {
        let name = match self.read_sb_string() {
            Ok(s) => s,
            Err(e) => {
                return Err(SbvjError::Sbon(e));
            },
        };
        let flag: u8 = match self.read_u8() {
            Ok(b) => b,
            Err(e) => {
                return Err(SbvjError::Io(e));
            },
        };
        assert((flag & 1 == 1) <==> flag % 2 == 1) by (bit_vector);
        let version = if flag & 1 == 1 {
            match self.read_exact(4) {
                Ok(raw) => {
                    assert(raw@.take(4) =~= raw@);
                    Some(be_read_i32(raw.as_slice()))
                },
                Err(e) => {
                    return Err(SbvjError::Io(e));
                },
            }
        } else {
            None
        };
        let data = match self.read_sb_dynamic() {
            Ok(d) => d,
            Err(e) => {
                return Err(SbvjError::Sbon(e));
            },
        };
        Ok(VJson { name, version, data })
    }

    /// Reads a standalone document: the magic `SBVJ01`, then the document.
    pub fn read_sb_sbvj01(&mut self) -> (r: Result<VJson, SbvjError>)
        ensures
            final(self).bytes() == old(self).bytes(),
            final(self).remaining() == parse_sbvj01(old(self).remaining()).rest,
            match parse_sbvj01(old(self).remaining()).value {
                Ok(doc) => r matches Ok(d) && d@ == doc,
                Err(e) => r == Err::<VJson, SbvjError>(e),
            },
    {
        let magic = match self.read_exact(6) {
            Ok(m) => m,
            Err(e) => {
                return Err(SbvjError::Io(e));
            },
        };
        let is_magic = magic[0] == 0x53 && magic[1] == 0x42 && magic[2] == 0x56 && magic[3] == 0x4a
            && magic[4] == 0x30 && magic[5] == 0x31;
        assert(is_magic <==> magic@ =~= sbvj01_magic());
        if !is_magic {
            return Err(SbvjError::MagicNumberError);
        }
        self.read_sb_vjson()
    }
}

impl ByteSink {
    /// Writes a versioned document.
    pub fn write_sb_vjson(&mut self, val: &VJson)
        ensures
            final(self)@ == old(self)@ + encode_vjson(val@),
    {
        self.write_sb_string(val.name.as_str());
        match val.version {
            Some(v) => {
                self.write_u8(1);
                let bytes = be_write_i32(v);
                self.write_all(bytes.as_slice());
            },
            None => {
                self.write_u8(0);
            },
        }
        self.write_sb_dynamic(&val.data);
        assert(self@ =~= old(self)@ + encode_vjson(val@));
    }

    /// Writes a standalone document: the magic `SBVJ01`, then the document.
    pub fn write_sb_sbvj01(&mut self, val: &VJson)
        ensures
            final(self)@ == old(self)@ + encode_sbvj01(val@),
    {
        let magic = sbvj01_magic_bytes();
        self.write_all(magic.as_slice());
        self.write_sb_vjson(val);
        assert(self@ =~= old(self)@ + encode_sbvj01(val@));
    }
}

} // verus!
