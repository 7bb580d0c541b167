//! The encoder: what each value looks like on the wire, and the writers
//! that produce exactly that.

use vstd::prelude::*;
use vstd::utf8::encode_utf8;
use crate::dynamic::{lemma_view_of_collections, list_view, Dynamic, DynamicMap, List, Value};
use crate::endian::{be_bytes, be_write_u64};
use crate::sink::ByteSink;
use crate::varint::{encode_varint, encode_varuint};

verus! {

/// The type tag that opens each kind of value.
pub const TAG_NIL: u8 = 1;

pub const TAG_DOUBLE: u8 = 2;

pub const TAG_BOOLEAN: u8 = 3;

pub const TAG_VLQI: u8 = 4;

pub const TAG_STRING: u8 = 5;

pub const TAG_LIST: u8 = 6;

pub const TAG_MAPPING: u8 = 7;

/// A byte string on the wire: its length as a varuint, then the bytes.
pub open spec fn encode_bytes(bytes: Seq<u8>) -> Seq<u8> {
    encode_varuint(bytes.len()) + bytes
}

/// A string on the wire: its UTF-8 bytes as a byte string.
pub open spec fn encode_string(s: Seq<char>) -> Seq<u8> {
    encode_bytes(encode_utf8(s))
}

/// A dynamic value on the wire: its tag, then its payload.
pub open spec fn encode_dynamic(v: Value) -> Seq<u8>
    decreases v, 0nat,
{
    match v {
        Value::Nil => seq![TAG_NIL],
        Value::Double(bits) => seq![TAG_DOUBLE] + be_bytes(bits as nat, 8),
        Value::Boolean(b) => seq![TAG_BOOLEAN, if b { 1u8 } else { 0u8 }],
        Value::VlqI(i) => seq![TAG_VLQI] + encode_varint(i),
        Value::String(s) => seq![TAG_STRING] + encode_string(s),
        Value::List(items) => seq![TAG_LIST] + encode_varuint(items.len()) + encode_items(items),
        Value::Mapping(entries) => seq![TAG_MAPPING] + encode_varuint(entries.len())
            + encode_entries(entries),
    }
}

/// The items of a list on the wire, one after another.
pub open spec fn encode_items(items: Seq<Value>) -> Seq<u8>
    decreases items, 1nat,
{
    if items.len() == 0 {
        Seq::empty()
    } else {
        encode_dynamic(items[0]) + encode_items(items.drop_first())
    }
}

/// The pairs of a mapping on the wire: each key as a string, then its value.
pub open spec fn encode_entries(entries: Seq<(Seq<char>, Value)>) -> Seq<u8>
    decreases entries, 1nat,
{
    if entries.len() == 0 {
        Seq::empty()
    } else {
        encode_string(entries[0].0) + encode_dynamic(entries[0].1) + encode_entries(
            entries.drop_first(),
        )
    }
}

/// A list on the wire: the count of its items, then the items.
pub open spec fn encode_list(items: Seq<Value>) -> Seq<u8> {
    encode_varuint(items.len()) + encode_items(items)
}

/// A mapping on the wire: the count of its pairs, then the pairs.
pub open spec fn encode_map(entries: Seq<(Seq<char>, Value)>) -> Seq<u8> {
    encode_varuint(entries.len()) + encode_entries(entries)
}

/// Appending an item to a list appends its encoding to the items' encoding.
pub proof fn lemma_encode_items_push(items: Seq<Value>, last: Value)
    ensures
        encode_items(items.push(last)) == encode_items(items) + encode_dynamic(last),
    decreases items.len(),
{
    let all = items.push(last);
    if items.len() == 0 {
        assert(all.drop_first() =~= Seq::<Value>::empty());
        assert(encode_items(all.drop_first()) =~= Seq::<u8>::empty());
        assert(encode_items(all) =~= encode_dynamic(last));
    } else {
        assert(all.drop_first() =~= items.drop_first().push(last));
        lemma_encode_items_push(items.drop_first(), last);
        assert(encode_items(all) =~= encode_items(items) + encode_dynamic(last));
    }
}

/// Appending a pair to a mapping appends its encoding to the pairs' encoding.
pub proof fn lemma_encode_entries_push(entries: Seq<(Seq<char>, Value)>, last: (Seq<char>, Value))
    ensures
        encode_entries(entries.push(last)) == encode_entries(entries) + encode_string(last.0)
            + encode_dynamic(last.1),
    decreases entries.len(),
{
    let all = entries.push(last);
    if entries.len() == 0 {
        assert(all.drop_first() =~= Seq::<(Seq<char>, Value)>::empty());
        assert(encode_entries(all.drop_first()) =~= Seq::<u8>::empty());
        assert(encode_entries(all) =~= encode_string(last.0) + encode_dynamic(last.1));
    } else {
        assert(all.drop_first() =~= entries.drop_first().push(last));
        lemma_encode_entries_push(entries.drop_first(), last);
        assert(encode_entries(all) =~= encode_entries(entries) + encode_string(last.0)
            + encode_dynamic(last.1));
    }
}

impl ByteSink {
    /// Writes a byte string: its length, then its bytes.
    pub fn write_sb_bytes(&mut self, val: &[u8])
        ensures
            final(self)@ == old(self)@ + encode_bytes(val@),
    {
        self.write_sb_vlqu(val.len() as u64);
        self.write_all(val);
        assert(self@ =~= old(self)@ + encode_bytes(val@));
    }

    /// Writes a string: its UTF-8 bytes as a byte string.
    pub fn write_sb_string(&mut self, val: &str)
        ensures
            final(self)@ == old(self)@ + encode_string(val@),
    {
        self.write_sb_bytes(val.as_bytes());
    }

    /// Writes a list: the count of its items, then each item in order.
    pub fn write_sb_list(&mut self, val: &List)
        ensures
            final(self)@ == old(self)@ + encode_list(list_view(val@)),
        decreases val, 1nat,
    {
        self.write_sb_vlqu(val.len() as u64);
        let ghost items = list_view(val@);
        let ghost base = self@;
        let mut i: usize = 0;
        while i < val.len()
            invariant
                i <= val.len(),
                items == list_view(val@),
                self@ == base + encode_items(items.take(i as int)),
            decreases val.len() - i,
        {
            proof {
                lemma_encode_items_push(items.take(i as int), items[i as int]);
                assert(items.take(i as int).push(items[i as int]) =~= items.take(i + 1));
            }
            self.write_sb_dynamic(&val[i]);
            i = i + 1;
        }
        assert(items.take(i as int) =~= items);
        assert(self@ =~= old(self)@ + encode_list(items));
    }

    /// Writes a mapping: the count of its pairs, then each key and value in
    /// the order the mapping keeps them.
    pub fn write_sb_map(&mut self, val: &DynamicMap)
        ensures
            final(self)@ == old(self)@ + encode_map(val@),
        decreases val, 1nat,
    {
        self.write_sb_vlqu(val.entries.len() as u64);
        let ghost entries = val@;
        let ghost base = self@;
        let mut i: usize = 0;
        while i < val.entries.len()
            invariant
                i <= val.entries.len(),
                entries == val@,
                self@ == base + encode_entries(entries.take(i as int)),
            decreases val.entries.len() - i,
        {
            proof {
                lemma_encode_entries_push(entries.take(i as int), entries[i as int]);
                assert(entries.take(i as int).push(entries[i as int]) =~= entries.take(i + 1));
            }
            self.write_sb_string(val.entries[i].0.as_str());
            self.write_sb_dynamic(&val.entries[i].1);
            i = i + 1;
        }
        assert(entries.take(i as int) =~= entries);
        assert(self@ =~= old(self)@ + encode_map(entries));
    }

    /// Writes a dynamic value: its tag, then its payload.
    pub fn write_sb_dynamic(&mut self, val: &Dynamic)
        ensures
            final(self)@ == old(self)@ + encode_dynamic(val@),
        decreases val, 0nat,
    {
        proof {
            lemma_view_of_collections(*val);
        }
        match val {
            Dynamic::Nil => {
                self.write_u8(TAG_NIL);
            },
            Dynamic::Double(x) => {
                self.write_u8(TAG_DOUBLE);
                let bytes = be_write_u64(*x);
                self.write_all(bytes.as_slice());
            },
            Dynamic::Boolean(x) => {
                self.write_u8(TAG_BOOLEAN);
                self.write_u8(if *x { 1 } else { 0 });
            },
            Dynamic::VlqI(x) => {
                self.write_u8(TAG_VLQI);
                self.write_sb_vlqi(*x);
            },
            Dynamic::String(x) => {
                self.write_u8(TAG_STRING);
                self.write_sb_string(x.as_str());
            },
            Dynamic::List(x) => {
                self.write_u8(TAG_LIST);
                self.write_sb_list(x);
            },
            Dynamic::Mapping(x) => {
                self.write_u8(TAG_MAPPING);
                self.write_sb_map(x);
            },
        }
        assert(self@ =~= old(self)@ + encode_dynamic(val@));
    }
}

} // verus!
