//! What holds between the encoder and the decoder: a value that is
//! written and read back is the same value, and a value that was read is
//! one that can be written.

use vstd::prelude::*;
use vstd::utf8::{
    decode_utf8_encode_utf8, encode_utf8, encode_utf8_decode_utf8, encode_utf8_valid_utf8,
};
use crate::decode::{
    lemma_parse_shrinks, lemma_string_rest, lemma_varuint_rest, parse_bytes, parse_dynamic,
    parse_entries, parse_items, parse_list, parse_map, parse_string,
};
use crate::dynamic::{text_fits, value_wf, Value};
use crate::encode::{
    encode_bytes, encode_dynamic, encode_entries, encode_items, encode_list, encode_map,
    encode_string, TAG_LIST, TAG_MAPPING, TAG_STRING,
};
use crate::endian::{be_bytes, lemma_be_value_of_bytes, lemma_pow256_widths};
use crate::error::SbonError;
use crate::keyed::{has_key, keys_unique, lemma_key_position, lemma_map_insert, map_insert};
use crate::source::Decoded;
use crate::varint::{
    decode_varuint, encode_varint, encode_varuint, lemma_varint_roundtrip,
    lemma_varuint_roundtrip, MAX_VLQ_BYTES,
};

verus! {

/// A byte string that is written and read back is the same byte string,
/// and what followed it is what is left.
pub proof fn lemma_bytes_roundtrip(bytes: Seq<u8>, tail: Seq<u8>)
    requires
        bytes.len() <= usize::MAX,
    ensures
        parse_bytes(encode_bytes(bytes) + tail) == (Decoded::<Seq<u8>, SbonError> {
            value: Ok(bytes),
            rest: tail,
        }),
{
    let after_length = bytes + tail;
    assert(encode_bytes(bytes) + tail =~= encode_varuint(bytes.len()) + after_length);
    lemma_varuint_roundtrip(bytes.len() as u64, after_length);
    assert(after_length.take(bytes.len() as int) =~= bytes);
    assert(after_length.skip(bytes.len() as int) =~= tail);
}

/// A text that is written and read back is the same text.
pub proof fn lemma_string_roundtrip(s: Seq<char>, tail: Seq<u8>)
    requires
        text_fits(s),
    ensures
        parse_string(encode_string(s) + tail) == (Decoded::<Seq<char>, SbonError> {
            value: Ok(s),
            rest: tail,
        }),
{
    lemma_bytes_roundtrip(encode_utf8(s), tail);
    encode_utf8_valid_utf8(s);
    encode_utf8_decode_utf8(s);
}

/// A dynamic value that is written and read back is the same value, at
/// any depth of lists and mappings, and reading takes exactly what was
/// written: what followed it is what is left.
pub proof fn lemma_dynamic_roundtrip(v: Value, tail: Seq<u8>)
    requires
        value_wf(v),
    ensures
        parse_dynamic(encode_dynamic(v) + tail) == (Decoded::<Value, SbonError> {
            value: Ok(v),
            rest: tail,
        }),
    decreases v, 0nat,
{
    let bytes = encode_dynamic(v) + tail;
    let body = bytes.skip(1);
    match v {
        Value::Nil => {
            assert(body =~= tail);
        },
        Value::Double(bits) => {
            lemma_pow256_widths();
            lemma_be_value_of_bytes(bits as nat, 8);
            assert(body =~= be_bytes(bits as nat, 8) + tail);
            assert(body.take(8) =~= be_bytes(bits as nat, 8));
            assert(body.skip(8) =~= tail);
        },
        Value::Boolean(b) => {
            assert(body.skip(1) =~= tail);
        },
        Value::VlqI(i) => {
            lemma_varint_roundtrip(i, tail);
            assert(body =~= encode_varint(i) + tail);
        },
        Value::String(s) => {
            lemma_string_roundtrip(s, tail);
            assert(body =~= encode_string(s) + tail);
        },
        Value::List(items) => {
            lemma_list_roundtrip(items, tail);
            assert(body =~= encode_list(items) + tail);
        },
        Value::Mapping(entries) => {
            lemma_map_roundtrip(entries, tail);
            assert(body =~= encode_map(entries) + tail);
        },
    }
}

/// A list that is written and read back is the same list.
pub proof fn lemma_list_roundtrip(items: Seq<Value>, tail: Seq<u8>)
    requires
        value_wf(Value::List(items)),
    ensures
        parse_list(encode_list(items) + tail) == (Decoded::<Seq<Value>, SbonError> {
            value: Ok(items),
            rest: tail,
        }),
    decreases items, 2nat,
{
    let after_count = encode_items(items) + tail;
    assert(encode_list(items) + tail =~= encode_varuint(items.len()) + after_count);
    lemma_varuint_roundtrip(items.len() as u64, after_count);
    lemma_items_roundtrip(items, tail, Seq::empty());
    assert(Seq::<Value>::empty() + items =~= items);
}

proof fn lemma_items_roundtrip(items: Seq<Value>, tail: Seq<u8>, done: Seq<Value>)
    requires
        forall|i: int| 0 <= i < items.len() ==> value_wf(#[trigger] items[i]),
    ensures
        parse_items(encode_items(items) + tail, items.len(), done) == (Decoded::<
            Seq<Value>,
            SbonError,
        > { value: Ok(done + items), rest: tail }),
    decreases items, 1nat,
{
    let bytes = encode_items(items) + tail;
    if items.len() == 0 {
        assert(bytes =~= tail);
        assert(done + items =~= done);
    } else {
        let later = items.drop_first();
        let after_first = encode_items(later) + tail;
        assert(bytes =~= encode_dynamic(items[0]) + after_first);
        lemma_dynamic_roundtrip(items[0], after_first);
        lemma_parse_shrinks(bytes);
        assert forall|i: int| 0 <= i < later.len() implies value_wf(#[trigger] later[i]) by {
            assert(later[i] == items[i + 1]);
        }
        lemma_items_roundtrip(later, tail, done.push(items[0]));
        assert(done.push(items[0]) + later =~= done + items);
    }
}

/// A mapping that is written and read back is the same mapping, its pairs
/// in the same order.
pub proof fn lemma_map_roundtrip(entries: Seq<(Seq<char>, Value)>, tail: Seq<u8>)
    requires
        value_wf(Value::Mapping(entries)),
    ensures
        parse_map(encode_map(entries) + tail) == (Decoded::<
            Seq<(Seq<char>, Value)>,
            SbonError,
        > { value: Ok(entries), rest: tail }),
    decreases entries, 2nat,
{
    let after_count = encode_entries(entries) + tail;
    assert(encode_map(entries) + tail =~= encode_varuint(entries.len()) + after_count);
    lemma_varuint_roundtrip(entries.len() as u64, after_count);
    assert(Seq::<(Seq<char>, Value)>::empty() + entries =~= entries);
    lemma_entries_roundtrip(entries, tail, Seq::empty());
}

proof fn lemma_entries_roundtrip(
    entries: Seq<(Seq<char>, Value)>,
    tail: Seq<u8>,
    done: Seq<(Seq<char>, Value)>,
)
    requires
        keys_unique(done + entries),
        forall|i: int|
            0 <= i < entries.len() ==> text_fits((#[trigger] entries[i]).0) && value_wf(
                entries[i].1,
            ),
    ensures
        parse_entries(encode_entries(entries) + tail, entries.len(), done) == (Decoded::<
            Seq<(Seq<char>, Value)>,
            SbonError,
        > { value: Ok(done + entries), rest: tail }),
    decreases entries, 1nat,
{
    let bytes = encode_entries(entries) + tail;
    if entries.len() == 0 {
        assert(bytes =~= tail);
        assert(done + entries =~= done);
    } else {
        let key = entries[0].0;
        let value = entries[0].1;
        let later = entries.drop_first();
        let after_first = encode_entries(later) + tail;
        let after_key = encode_dynamic(value) + after_first;
        assert(bytes =~= encode_string(key) + after_key);
        lemma_string_roundtrip(key, after_key);
        lemma_dynamic_roundtrip(value, after_first);
        lemma_parse_shrinks(after_key);
        lemma_string_rest(bytes);
        let all = done + entries;
        assert(!has_key(done, key)) by {
            if has_key(done, key) {
                let i = choose|i: int| 0 <= i < done.len() && (#[trigger] done[i]).0 == key;
                assert(all[i] == done[i]);
                assert(all[done.len() as int] == entries[0]);
            }
        }
        let next = done.push((key, value));
        assert(map_insert(done, key, value) == next);
        assert(next + later =~= all);
        assert forall|i: int| 0 <= i < later.len() implies text_fits((#[trigger] later[i]).0)
            && value_wf(later[i].1) by {
            assert(later[i] == entries[i + 1]);
        }
        lemma_entries_roundtrip(later, tail, next);
    }
}

/// A text that was read is one that can be written.
pub proof fn lemma_decoded_text_fits(bytes: Seq<u8>)
    ensures
        parse_string(bytes).value matches Ok(s) ==> text_fits(s),
{
    if parse_string(bytes).value is Ok {
        decode_utf8_encode_utf8(parse_bytes(bytes).value->Ok_0);
    }
}

/// A dynamic value that was read is well formed: no mapping in it holds a
/// key twice, whatever the bytes held, and every size in it can be written.
pub proof fn lemma_decoded_wf(bytes: Seq<u8>)
    ensures
        parse_dynamic(bytes).value matches Ok(v) ==> value_wf(v),
    decreases bytes.len(), 0nat,
{
    if bytes.len() > 0 {
        let tag = bytes[0];
        let body = bytes.skip(1);
        if tag == TAG_STRING {
            lemma_decoded_text_fits(body);
        } else if tag == TAG_LIST {
            lemma_decoded_list_wf(body);
        } else if tag == TAG_MAPPING {
            lemma_decoded_map_wf(body);
        }
    }
}

/// A list that was read is well formed, and holds as many items as its
/// count said.
pub proof fn lemma_decoded_list_wf(bytes: Seq<u8>)
    ensures
        parse_list(bytes).value matches Ok(items) ==> value_wf(Value::List(items))
            && decode_varuint(bytes).value == Ok::<u64, SbonError>(items.len() as u64),
    decreases bytes.len(), 2nat,
{
    let count = decode_varuint(bytes);
    if count.value is Ok {
        lemma_varuint_rest(bytes, 0, MAX_VLQ_BYTES as nat);
        lemma_items_wf(count.rest, count.value->Ok_0 as nat, Seq::empty());
    }
}

/// A mapping that was read is well formed: a key that came twice is held
/// once, so it holds at most as many pairs as its count said.
pub proof fn lemma_decoded_map_wf(bytes: Seq<u8>)
    ensures
        parse_map(bytes).value matches Ok(entries) ==> value_wf(Value::Mapping(entries)) && (
        decode_varuint(bytes).value matches Ok(n) && entries.len() <= n),
    decreases bytes.len(), 2nat,
{
    let count = decode_varuint(bytes);
    if count.value is Ok {
        lemma_varuint_rest(bytes, 0, MAX_VLQ_BYTES as nat);
        lemma_entries_wf(count.rest, count.value->Ok_0 as nat, Seq::empty());
    }
}

proof fn lemma_items_wf(bytes: Seq<u8>, count: nat, done: Seq<Value>)
    requires
        forall|i: int| 0 <= i < done.len() ==> value_wf(#[trigger] done[i]),
    ensures
        parse_items(bytes, count, done).value matches Ok(items) ==> items.len() == done.len()
            + count && forall|i: int| 0 <= i < items.len() ==> value_wf(#[trigger] items[i]),
    decreases bytes.len(), 1nat,
{
    if count > 0 {
        let item = parse_dynamic(bytes);
        lemma_decoded_wf(bytes);
        lemma_parse_shrinks(bytes);
        if item.value is Ok {
            lemma_items_wf(item.rest, (count - 1) as nat, done.push(item.value->Ok_0));
        }
    }
}

proof fn lemma_entries_wf(bytes: Seq<u8>, count: nat, done: Seq<(Seq<char>, Value)>)
    requires
        keys_unique(done),
        forall|i: int|
            0 <= i < done.len() ==> text_fits((#[trigger] done[i]).0) && value_wf(done[i].1),
    ensures
        parse_entries(bytes, count, done).value matches Ok(entries) ==> entries.len()
            <= done.len() + count && keys_unique(entries) && forall|i: int|
            0 <= i < entries.len() ==> text_fits((#[trigger] entries[i]).0) && value_wf(
                entries[i].1,
            ),
    decreases bytes.len(), 1nat,
{
    if count > 0 {
        let key = parse_string(bytes);
        lemma_string_rest(bytes);
        lemma_decoded_text_fits(bytes);
        if key.value is Ok {
            let item = parse_dynamic(key.rest);
            lemma_decoded_wf(key.rest);
            lemma_parse_shrinks(key.rest);
            if item.value is Ok {
                let k = key.value->Ok_0;
                let v = item.value->Ok_0;
                let next = map_insert(done, k, v);
                lemma_map_insert(done, k, v);
                if has_key(done, k) {
                    lemma_key_position(done, k);
                }
                assert forall|i: int| 0 <= i < next.len() implies text_fits(
                    (#[trigger] next[i]).0,
                ) && value_wf(next[i].1) by {
                    if next[i] != (k, v) {
                        assert(next[i] == done[i]);
                    }
                }
                lemma_entries_wf(item.rest, (count - 1) as nat, next);
            }
        }
    }
}

} // verus!
