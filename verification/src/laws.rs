//! What holds of every dictionary, stated over the mapping that it holds,
//! its size and its capacity, and proved from what its operations ensure.
use crate::dictionary::{spec_load_limit, Dictionary};
use crate::key::HashKey;
use crate::table::{
    has_key, key_of, lemma_erase, lemma_miss_is_absent, lemma_stored_at, misses, slot_of, sound,
    stored, Bucket,
};
use vstd::prelude::*;

verus! {

/// One change to a dictionary.
pub enum Change<K, V> {
    /// Storing a value for a key.
    Insert(K, V),
    /// Removing a key.
    Remove(K),
}

impl<K, V> Change<K, V> {
    /// The key that the change is about.
    pub open spec fn key(self) -> K {
        match self {
            Change::Insert(key, _) => key,
            Change::Remove(key) => key,
        }
    }
}

/// `after` is `before` once `change` was made.
pub open spec fn follows<K: HashKey, V>(
    after: &Dictionary<K, V>,
    before: &Dictionary<K, V>,
    change: Change<K, V>,
) -> bool {
    match change {
        Change::Insert(key, value) => after.after_insert(before, key, value),
        Change::Remove(key) => after.after_remove(before, key),
    }
}

/// `states` are the dictionaries that `changes`, made one after the other,
/// lead through, from the first state on.
pub open spec fn is_run<K: HashKey, V>(
    states: Seq<Dictionary<K, V>>,
    changes: Seq<Change<K, V>>,
) -> bool {
    &&& states.len() == changes.len() + 1
    &&& forall|i: int|
        0 <= i < changes.len() ==> follows(&states[i + 1], &states[i], #[trigger] changes[i])
}

/// A value that was stored for a key is the value that the dictionary holds
/// for that key right after, and after any number of insertions and removals
/// of other keys.
pub proof fn lemma_round_trip<K: HashKey, V>(
    origin: Dictionary<K, V>,
    states: Seq<Dictionary<K, V>>,
    changes: Seq<Change<K, V>>,
    key: K,
    value: V,
)
    requires
        is_run(states, changes),
        states[0].after_insert(&origin, key, value),
        forall|i: int| 0 <= i < changes.len() ==> (#[trigger] changes[i]).key() != key,
    ensures
        forall|i: int| 0 <= i < states.len() ==> (#[trigger] states[i])@.contains_pair(key, value),
{
    assert forall|i: int| 0 <= i < states.len() implies (#[trigger] states[i])@.contains_pair(
        key,
        value,
    ) by {
        lemma_round_trip_upto(origin, states, changes, key, value, i);
    }
}

/// The round trip, for the states up to the one at `upto`.
proof fn lemma_round_trip_upto<K: HashKey, V>(
    origin: Dictionary<K, V>,
    states: Seq<Dictionary<K, V>>,
    changes: Seq<Change<K, V>>,
    key: K,
    value: V,
    upto: int,
)
    requires
        is_run(states, changes),
        states[0].after_insert(&origin, key, value),
        forall|i: int| 0 <= i < changes.len() ==> (#[trigger] changes[i]).key() != key,
        0 <= upto < states.len(),
    ensures
        states[upto]@.contains_pair(key, value),
    decreases upto,
{
    if upto > 0 {
        lemma_round_trip_upto(origin, states, changes, key, value, upto - 1);
        assert(follows(&states[upto - 1 + 1], &states[upto - 1], changes[upto - 1]));
        assert(changes[upto - 1].key() != key);
    }
}

/// Storing a second value for a key leaves one entry for that key, with the
/// second value: the keys, the size and the capacity stay as they were.
pub proof fn lemma_overwrite<K: HashKey, V>(
    origin: Dictionary<K, V>,
    first: Dictionary<K, V>,
    second: Dictionary<K, V>,
    key: K,
    earlier: V,
    later: V,
)
    requires
        first.after_insert(&origin, key, earlier),
        second.after_insert(&first, key, later),
    ensures
        second@.contains_pair(key, later),
        second@.dom() == first@.dom(),
        second@ == origin@.insert(key, later),
        second.size() == first.size(),
        second.capacity() == first.capacity(),
        forall|i: int, j: int|
            0 <= i < second.entries().len() && 0 <= j < second.entries().len()
                && second.entries()[i].0 == key && second.entries()[j].0 == key ==> i == j,
{
    assert(second@.dom() =~= first@.dom());
    assert(second@ =~= origin@.insert(key, later));
    second.lemma_entries();
}

/// A key that was removed has no entry; removing a key that has none hands
/// nothing back and changes neither the mapping nor the size, and the
/// capacity only where the dictionary was already emptier than one third.
pub proof fn lemma_deletion<K: HashKey, V>(
    before: Dictionary<K, V>,
    after: Dictionary<K, V>,
    key: K,
)
    requires
        before.wf(),
        after.after_remove(&before, key),
    ensures
        !after@.contains_key(key),
        before@.contains_key(key) ==> before.taken(key) == Some((key, before@[key]))
            && after.size() == before.size() - 1,
        !before@.contains_key(key) ==> {
            &&& before.taken(key) is None
            &&& after@ == before@
            &&& after.size() == before.size()
            &&& before.size() >= before.capacity() / 3 ==> after.capacity() == before.capacity()
        },
{
    if !before@.contains_key(key) {
        assert(after@ =~= before@);
    }
}

/// The dictionaries that storing `pairs` one after the other leads through,
/// from the first state on.
pub open spec fn is_filling<K: HashKey, V>(
    states: Seq<Dictionary<K, V>>,
    pairs: Seq<(K, V)>,
) -> bool {
    &&& states.len() == pairs.len() + 1
    &&& forall|i: int|
        0 <= i < pairs.len() ==> states[i + 1].after_insert(
            &states[i],
            (#[trigger] pairs[i]).0,
            pairs[i].1,
        )
}

/// No two of `pairs` have the same key.
pub open spec fn distinct_keys<K, V>(pairs: Seq<(K, V)>) -> bool {
    forall|i: int, j: int|
        0 <= i < j < pairs.len() ==> (#[trigger] pairs[i]).0 != (#[trigger] pairs[j]).0
}

/// Storing values for distinct keys in an empty dictionary: every key is
/// then held with its value, the size is their number, and once there are
/// more than two thirds of the first capacity allows, the capacity has
/// doubled at least once.
pub proof fn lemma_growth<K: HashKey, V>(states: Seq<Dictionary<K, V>>, pairs: Seq<(K, V)>)
    requires
        is_filling(states, pairs),
        distinct_keys(pairs),
        states[0].wf(),
        states[0]@ == Map::<K, V>::empty(),
    ensures
        forall|i: int|
            0 <= i < pairs.len() ==> states.last()@.contains_pair(
                (#[trigger] pairs[i]).0,
                pairs[i].1,
            ),
        states.last().size() == pairs.len(),
        states.last().capacity() >= states[0].capacity(),
        pairs.len() > spec_load_limit(states[0].capacity() as int) ==> states.last().capacity() >= 2
            * states[0].capacity(),
{
    lemma_growth_upto(states, pairs, pairs.len() as int);
}

/// The growth law, for the first `upto` pairs.
proof fn lemma_growth_upto<K: HashKey, V>(
    states: Seq<Dictionary<K, V>>,
    pairs: Seq<(K, V)>,
    upto: int,
)
    requires
        is_filling(states, pairs),
        distinct_keys(pairs),
        states[0].wf(),
        states[0]@ == Map::<K, V>::empty(),
        0 <= upto <= pairs.len(),
    ensures
        states[upto].wf(),
        forall|i: int|
            0 <= i < upto ==> states[upto]@.contains_pair((#[trigger] pairs[i]).0, pairs[i].1),
        forall|key: K|
            states[upto]@.contains_key(key) ==> exists|i: int|
                0 <= i < upto && (#[trigger] pairs[i]).0 == key,
        states[upto].size() == upto,
        states[upto].capacity() == states[0].capacity() || states[upto].capacity() >= 2
            * states[0].capacity(),
        upto > spec_load_limit(states[0].capacity() as int) ==> states[upto].capacity() >= 2
            * states[0].capacity(),
    decreases upto,
{
    if upto > 0 {
        lemma_growth_upto(states, pairs, upto - 1);
        let before = states[upto - 1];
        let after = states[upto];
        let key = pairs[upto - 1].0;
        assert(states[upto - 1 + 1].after_insert(&states[upto - 1], key, pairs[upto - 1].1));
        if before@.contains_key(key) {
            let i = choose|i: int| 0 <= i < upto - 1 && (#[trigger] pairs[i]).0 == key;
            assert(pairs[i].0 != pairs[upto - 1].0);
        }
        assert forall|i: int| 0 <= i < upto implies after@.contains_pair(
            (#[trigger] pairs[i]).0,
            pairs[i].1,
        ) by {
            if i < upto - 1 {
                assert(before@.contains_pair(pairs[i].0, pairs[i].1));
                assert(pairs[i].0 != pairs[upto - 1].0);
            }
        }
        assert forall|k: K| after@.contains_key(k) implies exists|i: int|
            0 <= i < upto && (#[trigger] pairs[i]).0 == k by {
            if k == key {
                assert(pairs[upto - 1].0 == k);
            } else {
                assert(before@.contains_key(k));
                let i = choose|i: int| 0 <= i < upto - 1 && (#[trigger] pairs[i]).0 == k;
                assert(pairs[i].0 == k);
            }
        }
    }
}

/// A removal that leaves the dictionary emptier than one third of its
/// capacity halves the capacity; every other key keeps its value.
pub proof fn lemma_shrink<K: HashKey, V>(
    before: Dictionary<K, V>,
    after: Dictionary<K, V>,
    key: K,
)
    requires
        before.wf(),
        after.after_remove(&before, key),
    ensures
        after.size() < before.capacity() / 3 ==> after.capacity() == before.capacity() / 2,
        after.size() >= before.capacity() / 3 ==> after.capacity() == before.capacity(),
        forall|other: K|
            other != key && before@.contains_key(other) ==> #[trigger] after@.contains_pair(
                other,
                before@[other],
            ),
{
}

/// An entry outlasts the removal of an entry that was stored before it,
/// whatever slots the two were stored in.
pub proof fn lemma_tombstone<K: HashKey, V>(
    origin: Dictionary<K, V>,
    first: Dictionary<K, V>,
    second: Dictionary<K, V>,
    third: Dictionary<K, V>,
    gone: K,
    gone_value: V,
    kept: K,
    kept_value: V,
)
    requires
        gone != kept,
        first.after_insert(&origin, gone, gone_value),
        second.after_insert(&first, kept, kept_value),
        third.after_remove(&second, gone),
    ensures
        third@.contains_pair(kept, kept_value),
        !third@.contains_key(gone),
{
}

/// A tombstone does not end a search: once a live entry of a sound table has
/// become a tombstone, the table is still sound, and a search for any other
/// key that the table stores still ends with a match, at the same value.
pub proof fn lemma_tombstone_does_not_end_search<K: HashKey, V>(
    slots: Seq<Bucket<K, V>>,
    index: int,
    kept: K,
)
    requires
        sound(slots),
        0 <= index < slots.len(),
        slots[index] is Entry,
        has_key(slots, kept),
        key_of(slots[index]) != kept,
    ensures
        sound(slots.update(index, Bucket::Tombstone)),
        has_key(slots.update(index, Bucket::Tombstone), kept),
        !misses(slots.update(index, Bucket::Tombstone), kept, kept.spec_hash()),
        stored(slots.update(index, Bucket::Tombstone))[kept] == stored(slots)[kept],
{
    let after = slots.update(index, Bucket::<K, V>::Tombstone);
    lemma_erase(slots, index);
    let at = slot_of(slots, kept);
    lemma_stored_at(slots, at);
    assert(stored(after).contains_key(kept));
    if misses(after, kept, kept.spec_hash()) {
        lemma_miss_is_absent(after, kept, kept.spec_hash());
    }
}

/// The keys of the entries, as a set, are the keys of the dictionary; their
/// values, as a set, are its values; and the entries, as a set, are its
/// pairs of key and value.
pub proof fn lemma_enumeration<K: HashKey, V>(dict: Dictionary<K, V>)
    requires
        dict.wf(),
    ensures
        dict.entries().map_values(|entry: (K, V)| entry.0).to_set() == dict@.dom(),
        dict.entries().map_values(|entry: (K, V)| entry.1).to_set() == dict@.values(),
        dict.entries().to_set() == Set::new(|entry: (K, V)| dict@.contains_pair(entry.0, entry.1)),
{
    dict.lemma_entries();
    let entries = dict.entries();
    let keys = entries.map_values(|entry: (K, V)| entry.0);
    let values = entries.map_values(|entry: (K, V)| entry.1);
    assert forall|key: K| keys.to_set().contains(key) <==> dict@.dom().contains(key) by {
        if keys.to_set().contains(key) {
            let i = choose|i: int| 0 <= i < keys.len() && keys[i] == key;
            assert(dict@.contains_pair(entries[i].0, entries[i].1));
        }
        if dict@.contains_key(key) {
            let i = choose|i: int|
                0 <= i < entries.len() && #[trigger] entries[i] == (key, dict@[key]);
            assert(keys[i] == key);
        }
    }
    assert(keys.to_set() =~= dict@.dom());
    assert forall|value: V| values.to_set().contains(value) <==> dict@.values().contains(value) by {
        if values.to_set().contains(value) {
            let i = choose|i: int| 0 <= i < values.len() && values[i] == value;
            assert(dict@.contains_pair(entries[i].0, entries[i].1));
            assert(dict@.contains_key(entries[i].0) && dict@[entries[i].0] == value);
        }
        if dict@.values().contains(value) {
            let key = choose|key: K| dict@.contains_key(key) && dict@[key] == value;
            assert(dict@.contains_key(key));
            let i = choose|i: int|
                0 <= i < entries.len() && #[trigger] entries[i] == (key, dict@[key]);
            assert(values[i] == value);
        }
    }
    assert(values.to_set() =~= dict@.values());
    let pairs = Set::new(|entry: (K, V)| dict@.contains_pair(entry.0, entry.1));
    assert forall|entry: (K, V)| entries.to_set().contains(entry) <==> pairs.contains(entry) by {
        if entries.to_set().contains(entry) {
            let i = choose|i: int| 0 <= i < entries.len() && entries[i] == entry;
            assert(dict@.contains_pair(entries[i].0, entries[i].1));
        }
        if pairs.contains(entry) {
            assert(dict@.contains_key(entry.0));
            let i = choose|i: int|
                0 <= i < entries.len() && #[trigger] entries[i] == (entry.0, dict@[entry.0]);
            assert(entries[i] == entry);
        }
    }
    assert(entries.to_set() =~= pairs);
}

} // verus!
