//! Lists of pairs keyed by text: the model of every mapping in this
//! crate. A key is bound at most once; binding it again replaces the value
//! and keeps the place.

use vstd::prelude::*;

verus! {

/// Whether `i` is the first place in `entries` that holds `key`.
pub open spec fn is_first_position<V>(
    entries: Seq<(Seq<char>, V)>,
    key: Seq<char>,
    i: int,
) -> bool {
    &&& 0 <= i < entries.len()
    &&& entries[i].0 == key
    &&& forall|j: int| 0 <= j < i ==> (#[trigger] entries[j]).0 != key
}

/// Whether some pair of `entries` holds `key`.
pub open spec fn has_key<V>(entries: Seq<(Seq<char>, V)>, key: Seq<char>) -> bool {
    exists|i: int| 0 <= i < entries.len() && (#[trigger] entries[i]).0 == key
}

/// The first place in `entries` that holds `key`, where one does.
pub open spec fn key_position<V>(entries: Seq<(Seq<char>, V)>, key: Seq<char>) -> int {
    choose|i: int| is_first_position(entries, key, i)
}

/// The value that `entries` gives for `key`.
pub open spec fn map_get<V>(entries: Seq<(Seq<char>, V)>, key: Seq<char>) -> Option<V> {
    if has_key(entries, key) {
        Some(entries[key_position(entries, key)].1)
    } else {
        None
    }
}

/// `entries` with `key` bound to `value`: a key already there keeps its
/// place and takes the new value, a new key goes to the end.
pub open spec fn map_insert<V>(entries: Seq<(Seq<char>, V)>, key: Seq<char>, value: V) -> Seq<
    (Seq<char>, V),
> {
    if has_key(entries, key) {
        entries.update(key_position(entries, key), (key, value))
    } else {
        entries.push((key, value))
    }
}

/// No key occurs twice in `entries`.
pub open spec fn keys_unique<V>(entries: Seq<(Seq<char>, V)>) -> bool {
    forall|i: int, j: int|
        0 <= i < j < entries.len() ==> (#[trigger] entries[i]).0 != (#[trigger] entries[j]).0
}

/// A key that occurs has a first place, and `key_position` is that place.
pub proof fn lemma_key_position<V>(entries: Seq<(Seq<char>, V)>, key: Seq<char>)
    requires
        has_key(entries, key),
    ensures
        is_first_position(entries, key, key_position(entries, key)),
{
    let some = choose|i: int| 0 <= i < entries.len() && (#[trigger] entries[i]).0 == key;
    lemma_first_below(entries, key, some);
}

proof fn lemma_first_below<V>(entries: Seq<(Seq<char>, V)>, key: Seq<char>, bound: int)
    requires
        0 <= bound < entries.len(),
        entries[bound].0 == key,
    ensures
        exists|i: int| is_first_position(entries, key, i),
    decreases bound,
{
    if exists|j: int| 0 <= j < bound && (#[trigger] entries[j]).0 == key {
        let j = choose|j: int| 0 <= j < bound && (#[trigger] entries[j]).0 == key;
        lemma_first_below(entries, key, j);
    } else {
        assert(is_first_position(entries, key, bound));
    }
}

/// Binding a key keeps the keys of a mapping apart, and binds it: the
/// mapping then gives `value` for `key` and what it gave before for every
/// other key.
pub proof fn lemma_map_insert<V>(entries: Seq<(Seq<char>, V)>, key: Seq<char>, value: V)
    requires
        keys_unique(entries),
    ensures
        keys_unique(map_insert(entries, key, value)),
        map_get(map_insert(entries, key, value), key) == Some(value),
        forall|other: Seq<char>|
            other != key ==> map_get(map_insert(entries, key, value), other) == map_get(
                entries,
                other,
            ),
{
    let after = map_insert(entries, key, value);
    if has_key(entries, key) {
        lemma_key_position(entries, key);
    }
    let at = if has_key(entries, key) {
        key_position(entries, key)
    } else {
        entries.len() as int
    };
    assert(after[at] == (key, value));
    assert(has_key(after, key));
    lemma_key_position(after, key);
    assert(key_position(after, key) == at) by {
        let p = key_position(after, key);
        if p != at {
            assert(after[p].0 == after[at].0);
        }
    }
    assert forall|other: Seq<char>| other != key implies map_get(after, other) == map_get(
        entries,
        other,
    ) by {
        if has_key(entries, other) {
            lemma_key_position(entries, other);
            let q = key_position(entries, other);
            assert(after[q] == entries[q]);
            assert(has_key(after, other));
            lemma_key_position(after, other);
            let p = key_position(after, other);
            if p != q {
                assert(after[p].0 == after[q].0);
            }
        } else if has_key(after, other) {
            lemma_key_position(after, other);
            let p = key_position(after, other);
            assert(p != at);
            assert(entries[p] == after[p]);
        }
    }
}

} // verus!
