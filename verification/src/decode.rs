//! The decoder: what every byte string decodes to, value or failure, and
//! the readers that compute exactly that.

use vstd::prelude::*;
use vstd::utf8::{decode_utf8, valid_utf8};
use crate::dynamic::{lemma_view_of_collections, list_view, Dynamic, DynamicMap, List, Value};
use crate::keyed::map_insert;
use crate::encode::{
    TAG_BOOLEAN, TAG_DOUBLE, TAG_LIST, TAG_MAPPING, TAG_NIL, TAG_STRING, TAG_VLQI,
};
use crate::endian::{be_read_u64, be_value};
use crate::error::{IoError, SbonError};
use crate::source::{take_exact, take_u8, ByteSource, Decoded};
use crate::varint::{
    decode_varint, decode_varuint, decode_varuint_from, varuint_step, MAX_VLQ_BYTES,
};

verus! {

/// Decoding a byte string: a varuint length, then that many bytes. A
/// length that no `usize` holds is refused before any byte is taken.
pub open spec fn parse_bytes(bytes: Seq<u8>) -> Decoded<Seq<u8>, SbonError> {
    let length = decode_varuint(bytes);
    match length.value {
        Err(e) => Decoded { value: Err(e), rest: length.rest },
        Ok(n) => if n > usize::MAX {
            Decoded { value: Err(SbonError::InvalidStringSize), rest: length.rest }
        } else {
            let body = take_exact(length.rest, n as nat);
            Decoded {
                value: match body.value {
                    Ok(b) => Ok(b),
                    Err(e) => Err(SbonError::Io(e)),
                },
                rest: body.rest,
            }
        },
    }
}

/// Decoding a string: a byte string that must be valid UTF-8.
pub open spec fn parse_string(bytes: Seq<u8>) -> Decoded<Seq<char>, SbonError> {
    let raw = parse_bytes(bytes);
    Decoded {
        value: match raw.value {
            Ok(b) => if valid_utf8(b) {
                Ok(decode_utf8(b))
            } else {
                Err(SbonError::Utf8)
            },
            Err(e) => Err(e),
        },
        rest: raw.rest,
    }
}

/// Decoding never hands back more bytes than it was given.
pub proof fn lemma_varuint_rest(bytes: Seq<u8>, acc: u64, budget: nat)
    ensures
        decode_varuint_from(bytes, acc, budget).rest.len() <= bytes.len(),
        decode_varuint_from(bytes, acc, budget).value is Ok ==> decode_varuint_from(
            bytes,
            acc,
            budget,
        ).rest.len() < bytes.len(),
    decreases budget,
{
    if budget > 0 && bytes.len() > 0 && bytes[0] >= 128 {
        lemma_varuint_rest(bytes.skip(1), varuint_step(acc, bytes[0]), (budget - 1) as nat);
    }
}

/// A string takes at least its length byte, and never gives bytes back.
pub proof fn lemma_string_rest(bytes: Seq<u8>)
    ensures
        parse_bytes(bytes).rest.len() <= bytes.len(),
        parse_string(bytes).rest.len() <= bytes.len(),
        parse_bytes(bytes).value is Ok ==> parse_bytes(bytes).rest.len() < bytes.len(),
        parse_string(bytes).value is Ok ==> parse_string(bytes).rest.len() < bytes.len(),
{
    lemma_varuint_rest(bytes, 0, MAX_VLQ_BYTES as nat);
}

/// Decoding one dynamic value off the front of `bytes`: a tag byte, then
/// the payload that the tag announces. A tag outside `1..=7` fails with
/// that byte, after the one byte was taken.
pub open spec fn parse_dynamic(bytes: Seq<u8>) -> Decoded<Value, SbonError>
    decreases bytes.len(), 0nat,
{
    if bytes.len() == 0 {
        Decoded { value: Err(SbonError::Io(IoError::UnexpectedEof)), rest: bytes }
    } else {
        let tag = bytes[0];
        let body = bytes.skip(1);
        if tag == TAG_NIL {
            Decoded { value: Ok(Value::Nil), rest: body }
        } else if tag == TAG_DOUBLE {
            let raw = take_exact(body, 8);
            Decoded {
                value: match raw.value {
                    Ok(b) => Ok(Value::Double(be_value(b) as u64)),
                    Err(e) => Err(SbonError::Io(e)),
                },
                rest: raw.rest,
            }
        } else if tag == TAG_BOOLEAN {
            let flag = take_u8(body);
            Decoded {
                value: match flag.value {
                    Ok(b) => Ok(Value::Boolean(b != 0)),
                    Err(e) => Err(SbonError::Io(e)),
                },
                rest: flag.rest,
            }
        } else if tag == TAG_VLQI {
            let number = decode_varint(body);
            Decoded {
                value: match number.value {
                    Ok(i) => Ok(Value::VlqI(i)),
                    Err(e) => Err(e),
                },
                rest: number.rest,
            }
        } else if tag == TAG_STRING {
            let text = parse_string(body);
            Decoded {
                value: match text.value {
                    Ok(s) => Ok(Value::String(s)),
                    Err(e) => Err(e),
                },
                rest: text.rest,
            }
        } else if tag == TAG_LIST {
            let list = parse_list(body);
            Decoded {
                value: match list.value {
                    Ok(items) => Ok(Value::List(items)),
                    Err(e) => Err(e),
                },
                rest: list.rest,
            }
        } else if tag == TAG_MAPPING {
            let map = parse_map(body);
            Decoded {
                value: match map.value {
                    Ok(entries) => Ok(Value::Mapping(entries)),
                    Err(e) => Err(e),
                },
                rest: map.rest,
            }
        } else {
            Decoded { value: Err(SbonError::DynamicTypeError(tag)), rest: body }
        }
    }
}

/// Decoding a list: a varuint count, then that many dynamic values.
pub open spec fn parse_list(bytes: Seq<u8>) -> Decoded<Seq<Value>, SbonError>
    decreases bytes.len(), 2nat,
{
    let count = decode_varuint(bytes);
    match count.value {
        Err(e) => Decoded { value: Err(e), rest: count.rest },
        Ok(n) => {
            proof {
                lemma_varuint_rest(bytes, 0, MAX_VLQ_BYTES as nat);
            }
            parse_items(count.rest, n as nat, Seq::empty())
        },
    }
}

/// Decoding `count` more items after those in `done`. The first failure
/// ends the list.
///
/// The test on the lengths is what shows that the definition ends; a value
/// that decodes always takes a byte (`lemma_parse_shrinks`), so the test
/// never fails.
pub open spec fn parse_items(bytes: Seq<u8>, count: nat, done: Seq<Value>) -> Decoded<
    Seq<Value>,
    SbonError,
>
    decreases bytes.len(), 1nat,
{
    if count == 0 {
        Decoded { value: Ok(done), rest: bytes }
    } else {
        let item = parse_dynamic(bytes);
        match item.value {
            Err(e) => Decoded { value: Err(e), rest: item.rest },
            Ok(v) => if item.rest.len() < bytes.len() {
                parse_items(item.rest, (count - 1) as nat, done.push(v))
            } else {
                Decoded { value: Err(SbonError::Io(IoError::UnexpectedEof)), rest: item.rest }
            },
        }
    }
}

/// Decoding a mapping: a varuint count, then that many pairs.
pub open spec fn parse_map(bytes: Seq<u8>) -> Decoded<Seq<(Seq<char>, Value)>, SbonError>
    decreases bytes.len(), 2nat,
{
    let count = decode_varuint(bytes);
    match count.value {
        Err(e) => Decoded { value: Err(e), rest: count.rest },
        Ok(n) => {
            proof {
                lemma_varuint_rest(bytes, 0, MAX_VLQ_BYTES as nat);
            }
            parse_entries(count.rest, n as nat, Seq::empty())
        },
    }
}

/// Decoding `count` more pairs, each a string key and then a dynamic
/// value, and binding them in `done` one after another: a key that comes
/// again replaces the value it had.
///
/// As in `parse_items`, the test on the lengths never fails.
pub open spec fn parse_entries(
    bytes: Seq<u8>,
    count: nat,
    done: Seq<(Seq<char>, Value)>,
) -> Decoded<Seq<(Seq<char>, Value)>, SbonError>
    decreases bytes.len(), 1nat,
{
    if count == 0 {
        Decoded { value: Ok(done), rest: bytes }
    } else {
        let key = parse_string(bytes);
        match key.value {
            Err(e) => Decoded { value: Err(e), rest: key.rest },
            Ok(k) => {
                proof {
                    lemma_string_rest(bytes);
                }
                let item = parse_dynamic(key.rest);
                match item.value {
                    Err(e) => Decoded { value: Err(e), rest: item.rest },
                    Ok(v) => if item.rest.len() < bytes.len() {
                        parse_entries(item.rest, (count - 1) as nat, map_insert(done, k, v))
                    } else {
                        Decoded {
                            value: Err(SbonError::Io(IoError::UnexpectedEof)),
                            rest: item.rest,
                        }
                    },
                }
            },
        }
    }
}

/// A dynamic value that decodes takes at least its tag byte, and a failed
/// decode never gives bytes back.
pub proof fn lemma_parse_shrinks(bytes: Seq<u8>)
    ensures
        parse_dynamic(bytes).rest.len() <= bytes.len(),
        parse_dynamic(bytes).value is Ok ==> parse_dynamic(bytes).rest.len() < bytes.len(),
    decreases bytes.len(), 0nat,
{
    if bytes.len() > 0 {
        let tag = bytes[0];
        let body = bytes.skip(1);
        if tag == TAG_VLQI {
            lemma_varuint_rest(body, 0, MAX_VLQ_BYTES as nat);
        } else if tag == TAG_STRING {
            lemma_string_rest(body);
        } else if tag == TAG_LIST {
            lemma_varuint_rest(body, 0, MAX_VLQ_BYTES as nat);
            let count = decode_varuint(body);
            if count.value is Ok {
                lemma_items_rest(count.rest, count.value->Ok_0 as nat, Seq::empty());
            }
        } else if tag == TAG_MAPPING {
            lemma_varuint_rest(body, 0, MAX_VLQ_BYTES as nat);
            let count = decode_varuint(body);
            if count.value is Ok {
                lemma_entries_rest(count.rest, count.value->Ok_0 as nat, Seq::empty());
            }
        }
    }
}

/// The items of a list never give bytes back.
pub proof fn lemma_items_rest(bytes: Seq<u8>, count: nat, done: Seq<Value>)
    ensures
        parse_items(bytes, count, done).rest.len() <= bytes.len(),
    decreases bytes.len(), 1nat,
{
    if count > 0 {
        lemma_parse_shrinks(bytes);
        let item = parse_dynamic(bytes);
        if item.value is Ok {
            lemma_items_rest(item.rest, (count - 1) as nat, done.push(item.value->Ok_0));
        }
    }
}

/// The pairs of a mapping never give bytes back.
pub proof fn lemma_entries_rest(bytes: Seq<u8>, count: nat, done: Seq<(Seq<char>, Value)>)
    ensures
        parse_entries(bytes, count, done).rest.len() <= bytes.len(),
    decreases bytes.len(), 1nat,
{
    if count > 0 {
        lemma_string_rest(bytes);
        let key = parse_string(bytes);
        if key.value is Ok {
            lemma_parse_shrinks(key.rest);
            let item = parse_dynamic(key.rest);
            if item.value is Ok {
                lemma_entries_rest(
                    item.rest,
                    (count - 1) as nat,
                    map_insert(done, key.value->Ok_0, item.value->Ok_0),
                );
            }
        }
    }
}

/// `String::from_utf8` of std: the string that `bytes` spell, where they are
/// valid UTF-8, and nothing where they are not.
#[verifier::external_body]
fn string_from_utf8(bytes: Vec<u8>) -> (r: Option<String>)
    ensures
        r is Some <==> valid_utf8(bytes@),
        r matches Some(s) ==> s@ == decode_utf8(bytes@),
{
    String::from_utf8(bytes).ok()
}

impl ByteSource {
    /// Reads a byte string: its length, then its bytes.
    pub fn read_sb_bytes(&mut self) -> (r: Result<Vec<u8>, SbonError>)
        ensures
            final(self).bytes() == old(self).bytes(),
            final(self).remaining() == parse_bytes(old(self).remaining()).rest,
            match parse_bytes(old(self).remaining()).value {
                Ok(bytes) => r matches Ok(v) && v@ == bytes,
                Err(e) => r == Err::<Vec<u8>, SbonError>(e),
            },
    {
        let length: u64 = match self.read_sb_vlqu() {
            Ok(n) => n,
            Err(e) => {
                return Err(e);
            },
        };
        if length > usize::MAX as u64 {
            return Err(SbonError::InvalidStringSize);
        }
        match self.read_exact(length as usize) {
            Ok(v) => Ok(v),
            Err(e) => Err(SbonError::Io(e)),
        }
    }

    /// Reads a string: a byte string that must be valid UTF-8.
    pub fn read_sb_string(&mut self) -> (r: Result<String, SbonError>)
        ensures
            final(self).bytes() == old(self).bytes(),
            final(self).remaining() == parse_string(old(self).remaining()).rest,
            match parse_string(old(self).remaining()).value {
                Ok(text) => r matches Ok(s) && s@ == text,
                Err(e) => r == Err::<String, SbonError>(e),
            },
            decode_varuint(old(self).remaining()).value matches Ok(n) && decode_varuint(
                old(self).remaining(),
            ).rest.len() < n <= usize::MAX ==> r == Err::<String, SbonError>(
                SbonError::Io(IoError::UnexpectedEof),
            ),
    {
        let bytes = match self.read_sb_bytes() {
            Ok(v) => v,
            Err(e) => {
                return Err(e);
            },
        };
        match string_from_utf8(bytes) {
            Some(s) => Ok(s),
            None => Err(SbonError::Utf8),
        }
    }

    /// Reads a list: the count of its items, then each item in order.
    pub fn read_sb_list(&mut self) -> (r: Result<List, SbonError>)
        ensures
            final(self).bytes() == old(self).bytes(),
            final(self).remaining() == parse_list(old(self).remaining()).rest,
            match parse_list(old(self).remaining()).value {
                Ok(items) => r matches Ok(list) && list_view(list@) == items,
                Err(e) => r == Err::<List, SbonError>(e),
            },
        decreases old(self).remaining().len(), 2nat,
    {
        let ghost start = self.remaining();
        let count: u64 = match self.read_sb_vlqu() {
            Ok(n) => n,
            Err(e) => {
                return Err(e);
            },
        };
        proof {
            lemma_varuint_rest(start, 0, MAX_VLQ_BYTES as nat);
        }
        let mut out: Vec<Dynamic> = Vec::new();
        let mut i: u64 = 0;
        assert(list_view(out@) =~= Seq::<Value>::empty());
        while i < count
            invariant
                i <= count,
                self.bytes() == old(self).bytes(),
                start == old(self).remaining(),
                self.remaining().len() <= start.len(),
                parse_list(start) == parse_items(
                    self.remaining(),
                    (count - i) as nat,
                    list_view(out@),
                ),
            decreases count - i,
        {
            let ghost before = self.remaining();
            let ghost done = list_view(out@);
            proof {
                lemma_parse_shrinks(before);
            }
            let item = match self.read_sb_dynamic() {
                Ok(d) => d,
                Err(e) => {
                    return Err(e);
                },
            };
            out.push(item);
            assert(list_view(out@) =~= done.push(item@));
            i = i + 1;
        }
        Ok(out)
    }

    /// Reads a mapping: the count of its pairs, then each key and value.
    /// A key that comes again replaces the value it had.
    pub fn read_sb_map(&mut self) -> (r: Result<DynamicMap, SbonError>)
        ensures
            final(self).bytes() == old(self).bytes(),
            final(self).remaining() == parse_map(old(self).remaining()).rest,
            match parse_map(old(self).remaining()).value {
                Ok(entries) => r matches Ok(map) && map@ == entries,
                Err(e) => r == Err::<DynamicMap, SbonError>(e),
            },
        decreases old(self).remaining().len(), 2nat,
    {
        let ghost start = self.remaining();
        let count: u64 = match self.read_sb_vlqu() {
            Ok(n) => n,
            Err(e) => {
                return Err(e);
            },
        };
        proof {
            lemma_varuint_rest(start, 0, MAX_VLQ_BYTES as nat);
        }
        let mut out = DynamicMap::new();
        let mut i: u64 = 0;
        while i < count
            invariant
                i <= count,
                self.bytes() == old(self).bytes(),
                start == old(self).remaining(),
                self.remaining().len() <= start.len(),
                parse_map(start) == parse_entries(self.remaining(), (count - i) as nat, out@),
            decreases count - i,
        {
            let ghost before = self.remaining();
            proof {
                lemma_string_rest(before);
            }
            let key = match self.read_sb_string() {
                Ok(s) => s,
                Err(e) => {
                    return Err(e);
                },
            };
            proof {
                lemma_parse_shrinks(self.remaining());
            }
            let value = match self.read_sb_dynamic() {
                Ok(d) => d,
                Err(e) => {
                    return Err(e);
                },
            };
            out.insert(key, value);
            i = i + 1;
        }
        Ok(out)
    }

    /// Reads one dynamic value: its tag, then the payload the tag announces.
    pub fn read_sb_dynamic(&mut self) -> (r: Result<Dynamic, SbonError>)
        ensures
            final(self).bytes() == old(self).bytes(),
            final(self).remaining() == parse_dynamic(old(self).remaining()).rest,
            match parse_dynamic(old(self).remaining()).value {
                Ok(v) => r matches Ok(d) && d@ == v,
                Err(e) => r == Err::<Dynamic, SbonError>(e),
            },
            old(self).remaining().len() > 0 && !(TAG_NIL <= old(self).remaining()[0]
                <= TAG_MAPPING) ==> r == Err::<Dynamic, SbonError>(
                SbonError::DynamicTypeError(old(self).remaining()[0]),
            ) && final(self).remaining() == old(self).remaining().skip(1),
        decreases old(self).remaining().len(), 0nat,
    {
        let tag: u8 = match self.read_u8() {
            Ok(b) => b,
            Err(e) => {
                return Err(SbonError::Io(e));
            },
        };
        if tag == TAG_NIL {
            Ok(Dynamic::Nil)
        } else if tag == TAG_DOUBLE {
            match self.read_exact(8) {
                Ok(raw) => {
                    assert(raw@.take(8) =~= raw@);
                    Ok(Dynamic::Double(be_read_u64(raw.as_slice())))
                },
                Err(e) => Err(SbonError::Io(e)),
            }
        } else if tag == TAG_BOOLEAN {
            match self.read_u8() {
                Ok(b) => Ok(Dynamic::Boolean(b != 0)),
                Err(e) => Err(SbonError::Io(e)),
            }
        } else if tag == TAG_VLQI {
            match self.read_sb_vlqi() {
                Ok(i) => Ok(Dynamic::VlqI(i)),
                Err(e) => Err(e),
            }
        } else if tag == TAG_STRING {
            match self.read_sb_string() {
                Ok(s) => Ok(Dynamic::String(s)),
                Err(e) => Err(e),
            }
        } else if tag == TAG_LIST {
            match self.read_sb_list() {
                Ok(items) => {
                    let d = Dynamic::List(items);
                    proof {
                        lemma_view_of_collections(d);
                    }
                    Ok(d)
                },
                Err(e) => Err(e),
            }
        } else if tag == TAG_MAPPING {
            match self.read_sb_map() {
                Ok(map) => {
                    let d = Dynamic::Mapping(map);
                    proof {
                        lemma_view_of_collections(d);
                    }
                    Ok(d)
                },
                Err(e) => Err(e),
            }
        } else {
            Err(SbonError::DynamicTypeError(tag))
        }
    }
}

} // verus!
