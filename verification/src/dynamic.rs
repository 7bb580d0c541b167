//! The dynamic value: the tagged union that every SBON payload decodes to.

use vstd::prelude::*;
use vstd::utf8::encode_utf8;
use crate::keyed::{
    has_key, is_first_position, key_position, keys_unique, lemma_key_position,
    lemma_map_insert, map_get, map_insert,
};

verus! {

/// An ordered run of dynamic values.
pub type List = Vec<Dynamic>;

/// A dynamic value in memory.
///
/// A `Double` holds the 64 bits of its IEEE-754 pattern, so that a value
/// is kept bit for bit. A `Mapping` keeps its pairs in the order in which
/// their keys first came.
#[derive(Debug, PartialEq)]
pub enum Dynamic {
    Nil,
    Double(u64),
    Boolean(bool),
    VlqI(i64),
    String(String),
    List(List),
    Mapping(DynamicMap),
}

/// The pairs of a `Mapping`, each key at most once.
#[derive(Debug, PartialEq)]
pub struct DynamicMap {
    pub entries: Vec<(String, Dynamic)>,
}

/// What a dynamic value is, as mathematics: the model that contracts speak of.
pub enum Value {
    Nil,
    Double(u64),
    Boolean(bool),
    VlqI(i64),
    String(Seq<char>),
    List(Seq<Value>),
    Mapping(Seq<(Seq<char>, Value)>),
}

/// The model of a dynamic value.
pub open spec fn dynamic_view(d: Dynamic) -> Value
    decreases d,
{
    match d {
        Dynamic::Nil => Value::Nil,
        Dynamic::Double(bits) => Value::Double(bits),
        Dynamic::Boolean(b) => Value::Boolean(b),
        Dynamic::VlqI(i) => Value::VlqI(i),
        Dynamic::String(s) => Value::String(s@),
        Dynamic::List(items) => Value::List(
            Seq::new(
                items@.len(),
                |i: int|
                    if 0 <= i < items@.len() {
                        dynamic_view(items@[i])
                    } else {
                        Value::Nil
                    },
            ),
        ),
        Dynamic::Mapping(map) => Value::Mapping(
            Seq::new(
                map.entries@.len(),
                |i: int|
                    if 0 <= i < map.entries@.len() {
                        (map.entries@[i].0@, dynamic_view(map.entries@[i].1))
                    } else {
                        (Seq::empty(), Value::Nil)
                    },
            ),
        ),
    }
}

/// The models of a run of dynamic values, in order.
pub open spec fn list_view(items: Seq<Dynamic>) -> Seq<Value> {
    Seq::new(items.len(), |i: int| dynamic_view(items[i]))
}

/// The models of the pairs of a mapping, in order.
pub open spec fn entries_view(entries: Seq<(String, Dynamic)>) -> Seq<(Seq<char>, Value)> {
    Seq::new(entries.len(), |i: int| (entries[i].0@, dynamic_view(entries[i].1)))
}

/// The model of a list is the list of its items' models, and the model of
/// a mapping the list of its pairs' models.
pub proof fn lemma_view_of_collections(d: Dynamic)
    ensures
        d matches Dynamic::List(items) ==> d@ == Value::List(list_view(items@)),
        d matches Dynamic::Mapping(map) ==> d@ == Value::Mapping(map@),
{
    match d {
        Dynamic::List(items) => {
            assert(d@->List_0 =~= list_view(items@));
        },
        Dynamic::Mapping(map) => {
            assert(d@->Mapping_0 =~= map@);
        },
        _ => {},
    }
}

impl View for Dynamic {
    type V = Value;

    open spec fn view(&self) -> Value {
        dynamic_view(*self)
    }
}

impl View for DynamicMap {
    type V = Seq<(Seq<char>, Value)>;

    open spec fn view(&self) -> Seq<(Seq<char>, Value)> {
        entries_view(self.entries@)
    }
}

/// A text whose UTF-8 form has a length that a `usize` holds.
pub open spec fn text_fits(s: Seq<char>) -> bool {
    encode_utf8(s).len() <= usize::MAX
}

/// What can be written and read back: at every depth a mapping holds each
/// key at most once, a count fits 64 bits, and the UTF-8 length of a text
/// fits a `usize`.
pub open spec fn value_wf(v: Value) -> bool
    decreases v,
{
    match v {
        Value::String(s) => text_fits(s),
        Value::List(items) => items.len() <= u64::MAX && forall|i: int|
            0 <= i < items.len() ==> value_wf(#[trigger] items[i]),
        Value::Mapping(entries) => entries.len() <= u64::MAX && keys_unique(entries) && forall|
            i: int,
        |
            0 <= i < entries.len() ==> text_fits((#[trigger] entries[i]).0) && value_wf(
                entries[i].1,
            ),
        _ => true,
    }
}

impl DynamicMap {
    /// A mapping without pairs.
    pub fn new() -> (m: DynamicMap)
        ensures
            m@ == Seq::<(Seq<char>, Value)>::empty(),
    {
        let m = DynamicMap { entries: Vec::new() };
        assert(m@ =~= Seq::<(Seq<char>, Value)>::empty());
        m
    }

    /// How many pairs the mapping holds.
    pub fn len(&self) -> (n: usize)
        ensures
            n == self@.len(),
    {
        self.entries.len()
    }

    /// The first place that holds `key`, if any does.
    pub fn position(&self, key: &String) -> (r: Option<usize>)
        ensures
            match r {
                Some(i) => has_key(self@, key@) && i == key_position(self@, key@)
                    && is_first_position(self@, key@, i as int),
                None => !has_key(self@, key@),
            },
    {
        let mut i: usize = 0;
        while i < self.entries.len()
            invariant
                i <= self.entries.len(),
                forall|j: int| 0 <= j < i ==> (#[trigger] self@[j]).0 != key@,
            decreases self.entries.len() - i,
        {
            if self.entries[i].0 == *key {
                proof {
                    assert(self@[i as int].0 == key@);
                    assert(is_first_position(self@, key@, i as int));
                    lemma_key_position(self@, key@);
                    let p = key_position(self@, key@);
                    if p < i {
                        assert(self@[p].0 == key@);
                    }
                }
                return Some(i);
            }
            i = i + 1;
        }
        None
    }

    /// Whether the mapping binds `key`.
    pub fn contains_key(&self, key: &String) -> (b: bool)
        ensures
            b == has_key(self@, key@),
    {
        self.position(key).is_some()
    }

    /// The value bound to `key`, if there is one.
    pub fn get(&self, key: &String) -> (r: Option<&Dynamic>)
        ensures
            match map_get(self@, key@) {
                Some(v) => r matches Some(d) && d@ == v,
                None => r is None,
            },
    {
        match self.position(key) {
            Some(i) => Some(&self.entries[i].1),
            None => None,
        }
    }

    /// Binds `key` to `value`. A key that is already bound keeps its place
    /// and loses its old value; a new key goes to the end.
    pub fn insert(&mut self, key: String, value: Dynamic)
        ensures
            final(self)@ == map_insert(old(self)@, key@, value@),
            keys_unique(old(self)@) ==> keys_unique(final(self)@),
    {
        proof {
            if keys_unique(self@) {
                lemma_map_insert(self@, key@, value@);
            }
        }
        match self.position(&key) {
            Some(i) => {
                self.entries.set(i, (key, value));
            },
            None => {
                self.entries.push((key, value));
            },
        }
        assert(self@ =~= map_insert(old(self)@, key@, value@));
    }
}

} // verus!
