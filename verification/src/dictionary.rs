//! The dictionary: a mapping from keys to values, stored in a table of
//! slots that grows when it fills beyond two thirds and shrinks when it
//! empties below one third.
//!
//! A key has at most one live entry. Storing a value for a key that has an
//! entry replaces the value in place, wherever tombstones lie on the way to
//! it; only a key that has none is counted, and only then may the table
//! grow. A new entry goes to the first tombstone that the search for its key
//! went past, or else to the empty slot that ended the search.
//!
//! The size is the number of live entries. After any insertion it is at
//! most two thirds of the capacity, rounded down. After any removal, of a
//! key that had an entry or not, a table whose size is below a third of its
//! capacity, rounded down, has its capacity halved; a table of one or two
//! slots is never below that third, so the capacity stays above zero.
//! Growing and shrinking rebuild the table, which leaves no tombstone.
use crate::key::HashKey;
use crate::table::{
    blank, has_key, holds, lands_at, lemma_blank, lemma_claim, lemma_erase, lemma_lands_once,
    lemma_listing, lemma_live_bound, lemma_live_prefix, lemma_miss_is_absent, lemma_overwrite,
    lemma_prefix_step, lemma_stored_at, lemma_vacant_is_reachable, landing, listing, live,
    no_tombstones,
    placed, rebuilt, rebuilt_from, search, slot_of, sound, stored, Bucket, Probe,
};
use vstd::prelude::*;

verus! {

/// The capacity of a dictionary made by [`Dictionary::new`].
pub const DEFAULT_CAPACITY: usize = 8;

/// The most entries that a table of `capacity` slots holds before it grows:
/// two thirds of the capacity, rounded down.
pub open spec fn spec_load_limit(capacity: int) -> int {
    2 * capacity / 3
}

/// The most entries that a table of `capacity` slots holds before it grows.
#[verifier::when_used_as_spec(spec_load_limit_of)]
pub fn load_limit(capacity: usize) -> (limit: usize)
    ensures
        limit == spec_load_limit(capacity as int),
{
    let wide: u128 = 2 * (capacity as u128) / 3;
    wide as usize
}

/// [`load_limit`] as a function of the capacity.
pub open spec fn spec_load_limit_of(capacity: usize) -> usize {
    spec_load_limit(capacity as int) as usize
}

/// The slots once `value` is stored for `key`. A key that has no live entry
/// is counted first: if the table would then be fuller than two thirds, it
/// is rebuilt with twice the slots before the entry is stored.
pub open spec fn stored_into<K: HashKey, V>(
    slots: Seq<Bucket<K, V>>,
    key: K,
    value: V,
) -> Seq<Bucket<K, V>> {
    let base = if !has_key(slots, key) && live(slots) + 1 > spec_load_limit(slots.len() as int) {
        rebuilt(slots, 2 * slots.len())
    } else {
        slots
    };
    placed(base, key, value, key.spec_hash())
}

/// The slots once `key` is removed: the slot of its live entry, if it has
/// one, becomes a tombstone; then a table that is emptier than one third is
/// rebuilt with half the slots, rounded down.
pub open spec fn removed_from<K: HashKey, V>(slots: Seq<Bucket<K, V>>, key: K) -> Seq<
    Bucket<K, V>,
> {
    let marked = if has_key(slots, key) {
        slots.update(slot_of(slots, key), Bucket::Tombstone)
    } else {
        slots
    };
    if live(marked) < marked.len() / 3 {
        rebuilt(marked, marked.len() / 2)
    } else {
        marked
    }
}

/// The slots once `pairs` are stored, one after the other, in a table that
/// starts as `capacity` empty slots.
pub open spec fn built_from<K: HashKey, V>(pairs: Seq<(K, V)>, capacity: nat) -> Seq<
    Bucket<K, V>,
>
    decreases pairs.len(),
{
    if pairs.len() == 0 {
        blank(capacity)
    } else {
        stored_into(built_from(pairs.drop_last(), capacity), pairs.last().0, pairs.last().1)
    }
}

/// A table of `capacity` empty slots.
fn blank_table<K: HashKey, V>(capacity: usize) -> (table: Vec<Bucket<K, V>>)
    ensures
        table@ == blank::<K, V>(capacity as nat),
{
    let mut table: Vec<Bucket<K, V>> = Vec::new();
    let mut made: usize = 0;
    while made < capacity
        invariant
            made <= capacity,
            table.len() == made,
            forall|i: int| 0 <= i < table.len() ==> (#[trigger] table@[i]) is Empty,
        decreases capacity - made,
    {
        table.push(Bucket::Empty);
        made = made + 1;
    }
    proof {
        assert(table@ =~= blank::<K, V>(capacity as nat));
    }
    table
}

/// The longest input that the bulk constructors take: the capacity that they
/// start with, and its double, must fit the machine's word.
pub const MAX_BULK: usize = usize::MAX / 8;

/// The capacity that a dictionary built from `count` pairs starts with: one
/// and a half times the count, rounded by halves, and one more.
pub open spec fn spec_bulk_capacity(count: int) -> int {
    count / 2 * 3 + 1
}

/// The capacity that a dictionary built from `count` pairs starts with.
pub fn bulk_capacity(count: usize) -> (capacity: usize)
    requires
        count <= MAX_BULK,
    ensures
        capacity == spec_bulk_capacity(count as int),
        0 < capacity <= usize::MAX / 4,
{
    count / 2 * 3 + 1
}

/// The mapping that storing `pairs` one after the other leaves: of two
/// pairs with one key, the later one counts.
pub open spec fn collected<K, V>(pairs: Seq<(K, V)>) -> Map<K, V>
    decreases pairs.len(),
{
    if pairs.len() == 0 {
        Map::empty()
    } else {
        collected(pairs.drop_last()).insert(pairs.last().0, pairs.last().1)
    }
}

/// The pairs of the keys and values that stand at the same place in two
/// sequences of one length.
pub open spec fn paired<K, V>(keys: Seq<K>, values: Seq<V>) -> Seq<(K, V)> {
    Seq::new(keys.len(), |i: int| (keys[i], values[i]))
}

/// Why a dictionary could not be made.
#[derive(Debug, Clone, Copy, PartialEq, Eq)]
pub enum ConstructionError {
    /// A capacity of zero was asked for.
    ZeroCapacity,
    /// There were no pairs to build from.
    EmptyInput,
    /// There were not as many values as keys.
    LengthMismatch,
}

/// Pairs each key with the value at its place.
pub fn zip<K, V>(key_vec: Vec<K>, value_vec: Vec<V>) -> (pairs: Vec<(K, V)>)
    requires
        key_vec.len() == value_vec.len(),
    ensures
        pairs@ == paired(key_vec@, value_vec@),
{
    let mut keys = key_vec;
    let mut values = value_vec;
    let mut backwards: Vec<(K, V)> = Vec::new();
    let ghost total = key_vec.len() as int;
    while keys.len() > 0
        invariant
            keys.len() == values.len(),
            keys.len() + backwards.len() == total,
            keys@ == key_vec@.take(keys.len() as int),
            values@ == value_vec@.take(keys.len() as int),
            total == key_vec.len() == value_vec.len(),
            forall|i: int|
                0 <= i < backwards.len() ==> #[trigger] backwards@[i] == (
                    key_vec@[total - 1 - i],
                    value_vec@[total - 1 - i],
                ),
        decreases keys.len(),
    {
        let key = keys.pop().unwrap();
        let value = values.pop().unwrap();
        backwards.push((key, value));
    }
    let mut pairs: Vec<(K, V)> = Vec::new();
    while backwards.len() > 0
        invariant
            pairs.len() + backwards.len() == total,
            total == key_vec.len() == value_vec.len(),
            forall|i: int|
                0 <= i < backwards.len() ==> #[trigger] backwards@[i] == (
                    key_vec@[total - 1 - i],
                    value_vec@[total - 1 - i],
                ),
            forall|i: int|
                0 <= i < pairs.len() ==> #[trigger] pairs@[i] == (key_vec@[i], value_vec@[i]),
        decreases backwards.len(),
    {
        let pair = backwards.pop().unwrap();
        pairs.push(pair);
    }
    proof {
        assert(pairs@ =~= paired(key_vec@, value_vec@));
    }
    pairs
}

/// A mapping from keys to values, kept in an open-addressed hash table.
pub struct Dictionary<K: HashKey, V> {
    capacity: usize,
    size: usize,
    table: Vec<Bucket<K, V>>,
}

impl<K: HashKey, V> View for Dictionary<K, V> {
    type V = Map<K, V>;

    /// The mapping that the dictionary holds: what its slots store.
    open spec fn view(&self) -> Map<K, V> {
        stored(self.slots())
    }
}

impl<K: HashKey, V> Dictionary<K, V> {
    /// The number of slots of the table.
    pub closed spec fn spec_capacity(&self) -> usize {
        self.capacity
    }

    /// The number of entries that the dictionary counts.
    pub closed spec fn spec_size(&self) -> usize {
        self.size
    }

    /// The slots of the table.
    pub closed spec fn slots(&self) -> Seq<Bucket<K, V>> {
        self.table@
    }

    /// The entries as pairs of key and value, in the order of their slots.
    pub open spec fn entries(&self) -> Seq<(K, V)> {
        listing(self.slots())
    }

    /// The table is sound, and `capacity` is the number of its slots.
    spec fn storage_ok(&self) -> bool {
        &&& self.capacity == self.table.len()
        &&& sound(self.table@)
    }

    /// The storage is sound and `size` counts its live entries.
    spec fn inv(&self) -> bool {
        &&& self.storage_ok()
        &&& self.size == live(self.table@)
    }

    /// The dictionary is well formed: its table is sound, the capacity is
    /// the number of its slots, the size is the number of its live entries
    /// and of the keys that it maps, and it is no fuller than two thirds.
    pub open spec fn wf(&self) -> bool {
        &&& sound(self.slots())
        &&& self.capacity() == self.slots().len()
        &&& self.size() == live(self.slots())
        &&& self@.dom().finite()
        &&& self.size() == self@.len()
        &&& self.size() <= spec_load_limit(self.capacity() as int)
    }

    /// Storing an entry for `key` makes the table grow: the key is new, and
    /// with it the dictionary would be fuller than two thirds.
    pub open spec fn grows_for(&self, key: K) -> bool {
        !self@.contains_key(key) && self.size() + 1 > spec_load_limit(self.capacity() as int)
    }

    /// The dictionary is `before` after `value` was stored for `key`: it is
    /// well formed, its slots are those of `before` with the entry stored, it
    /// maps `key` to `value` and every other key as `before` did, and it has
    /// the capacity of `before`, or twice that where the table grew.
    pub open spec fn after_insert(&self, before: &Self, key: K, value: V) -> bool {
        &&& self.wf()
        &&& self.slots() == stored_into(before.slots(), key, value)
        &&& self@ == before@.insert(key, value)
        &&& self.capacity() == (if before.grows_for(key) {
            2 * before.capacity()
        } else {
            before.capacity() as int
        })
    }

    /// Once `key` is out, the dictionary is emptier than one third of the
    /// capacity: the table shrinks.
    pub open spec fn shrinks_for(&self, key: K) -> bool {
        self@.remove(key).len() < self.capacity() / 3
    }

    /// The dictionary is `before` after `key` was removed: it is well
    /// formed, its slots are those of `before` with the key removed, it maps
    /// every other key as `before` did and `key` to nothing, and it has the
    /// capacity of `before`, or half of that, rounded down, where the table
    /// shrank.
    pub open spec fn after_remove(&self, before: &Self, key: K) -> bool {
        &&& self.wf()
        &&& self.slots() == removed_from(before.slots(), key)
        &&& self@ == before@.remove(key)
        &&& self.capacity() == (if before.shrinks_for(key) {
            before.capacity() / 2
        } else {
            before.capacity()
        })
    }

    /// What removing `key` hands back: the key and its value, or `None`
    /// where the key has no entry.
    pub open spec fn taken(&self, key: K) -> Option<(K, V)> {
        if self@.contains_key(key) {
            Some((key, self@[key]))
        } else {
            None
        }
    }

    /// An empty dictionary of the default capacity.
    pub fn new() -> (dict: Dictionary<K, V>)
        ensures
            dict.wf(),
            dict.slots() == blank::<K, V>(DEFAULT_CAPACITY as nat),
            dict@ == Map::<K, V>::empty(),
            dict.capacity() == DEFAULT_CAPACITY,
            dict.size() == 0,
    {
        let table = blank_table(DEFAULT_CAPACITY);
        proof {
            lemma_blank(table@);
        }
        Dictionary { capacity: DEFAULT_CAPACITY, size: 0, table }
    }

    /// An empty dictionary of `size` slots.
    pub fn with_capacity(size: usize) -> (dict: Dictionary<K, V>)
        requires
            size > 0,
        ensures
            dict.wf(),
            dict.slots() == blank::<K, V>(size as nat),
            dict@ == Map::<K, V>::empty(),
            dict.capacity() == size,
            dict.size() == 0,
    {
        let table = blank_table(size);
        proof {
            lemma_blank(table@);
        }
        Dictionary { capacity: size, size: 0, table }
    }

    /// The number of entries.
    #[verifier::when_used_as_spec(spec_size)]
    pub fn size(&self) -> (n: usize)
        ensures
            n == self.spec_size(),
    {
        self.size
    }

    /// The number of slots.
    #[verifier::when_used_as_spec(spec_capacity)]
    pub fn capacity(&self) -> (n: usize)
        ensures
            n == self.spec_capacity(),
    {
        self.capacity
    }

    /// The hash of `key`.
    pub fn get_hash(&self, key: &K) -> (hash: usize)
        ensures
            hash == key.spec_hash(),
    {
        key.hash_code()
    }

    /// The slot of the live entry for `key`, if it has one.
    fn find(&self, key: &K, hash: usize) -> (slot: Option<usize>)
        requires
            self.storage_ok(),
            hash == key.spec_hash(),
        ensures
            match slot {
                Some(index) => {
                    &&& index < self.capacity
                    &&& holds(self.table@[index as int], *key)
                    &&& index == slot_of(self.table@, *key)
                    &&& self@.contains_key(*key)
                },
                None => !self@.contains_key(*key) && !has_key(self.table@, *key),
            },
    {
        match search(&self.table, key, hash) {
            Probe::Hit(index) => {
                proof {
                    lemma_stored_at(self.table@, index as int);
                }
                Some(index)
            },
            _ => {
                proof {
                    lemma_miss_is_absent(self.table@, *key, hash);
                }
                None
            },
        }
    }

    /// Stores `value` for `key` without regard for how full the table is:
    /// where the key has a live entry, that entry gets the value; where it
    /// has none, the entry goes to the first tombstone on the key's probe
    /// order, or else to the empty slot that ends it.
    fn force_insert(&mut self, key: K, value: V, key_hash: usize)
        requires
            old(self).storage_ok(),
            key_hash == key.spec_hash(),
            live(old(self).table@) < old(self).capacity,
        ensures
            final(self).storage_ok(),
            final(self).capacity == old(self).capacity,
            final(self).size == old(self).size,
            final(self)@ == old(self)@.insert(key, value),
            live(final(self).table@) == live(old(self).table@) + (if old(self)@.contains_key(key) {
                0nat
            } else {
                1nat
            }),
            final(self).table@ == placed(old(self).table@, key, value, key_hash),
            0 <= landing(old(self).table@, key, key_hash) < old(self).capacity,
    {
        let found = search(&self.table, &key, key_hash);
        match found {
            Probe::Hit(index) => {
                proof {
                    lemma_stored_at(self.table@, index as int);
                    lemma_overwrite(self.table@, index as int, value);
                    assert(lands_at(self.table@, key, key_hash, index as int));
                    lemma_lands_once(self.table@, key, key_hash, index as int);
                }
                self.table[index] = Bucket::Entry(key, value, key_hash);
            },
            Probe::Free(index) => {
                proof {
                    lemma_miss_is_absent(self.table@, key, key_hash);
                    lemma_vacant_is_reachable(self.table@, key_hash, index as int);
                    lemma_claim(self.table@, index as int, key, value, key_hash);
                    assert(lands_at(self.table@, key, key_hash, index as int));
                    lemma_lands_once(self.table@, key, key_hash, index as int);
                }
                self.table[index] = Bucket::Entry(key, value, key_hash);
            },
            Probe::Full => {
                proof {
                    lemma_live_bound(self.table@);
                }
            },
        }
    }

    /// Rebuilds the table with `new_capacity` slots: every live entry is
    /// stored again, in the order of the old slots, and the tombstones are
    /// gone. The new table is built in full before it takes the place of the
    /// old one.
    fn resize(&mut self, new_capacity: usize)
        requires
            old(self).inv(),
            new_capacity > old(self).size,
        ensures
            final(self).inv(),
            final(self).capacity == new_capacity,
            final(self).size == old(self).size,
            final(self)@ == old(self)@,
            final(self).table@ == rebuilt(old(self).table@, new_capacity as nat),
            no_tombstones(final(self).table@),
            live(final(self).table@) == live(old(self).table@),
    {
        let mut next: Dictionary<K, V> = Dictionary {
            capacity: new_capacity,
            size: self.size,
            table: blank_table(new_capacity),
        };
        let ghost before = self.table@;
        proof {
            lemma_blank(next.table@);
            lemma_blank(before.take(0));
        }
        let mut moved: usize = 0;
        while moved < self.table.len()
            invariant
                moved <= before.len(),
                self.table.len() == before.len(),
                self.size == live(before),
                self.capacity == old(self).capacity,
                sound(before),
                forall|i: int| moved <= i < before.len() ==> self.table@[i] == before[i],
                next.storage_ok(),
                next.capacity == new_capacity,
                next.size == self.size,
                new_capacity > live(before),
                no_tombstones(next.table@),
                next.table@ == rebuilt_from(before, moved as nat, new_capacity as nat),
                next@ == stored(before.take(moved as int)),
                live(next.table@) == live(before.take(moved as int)),
            decreases before.len() - moved,
        {
            let mut slot: Bucket<K, V> = Bucket::Empty;
            core::mem::swap(&mut self.table[moved], &mut slot);
            proof {
                lemma_prefix_step(before, moved as int);
                lemma_live_prefix(before, moved + 1);
            }
            match slot {
                Bucket::Entry(key, value, hash) => {
                    next.force_insert(key, value, hash);
                },
                _ => {},
            }
            moved = moved + 1;
        }
        proof {
            assert(before.take(moved as int) =~= before);
        }
        self.capacity = new_capacity;
        self.table = next.table;
    }

    /// Tells whether `key` has an entry.
    pub fn contains(&self, key: &K) -> (present: bool)
        requires
            self.wf(),
        ensures
            present == self@.contains_key(*key),
    {
        let hash = self.get_hash(key);
        self.find(key, hash).is_some()
    }

    /// Stores `value` for `key`. A key that has an entry keeps its slot and
    /// gets the new value; the size and the capacity stay as they are. A new
    /// key is counted first: if the dictionary would then be fuller than two
    /// thirds, the capacity is doubled and the table rebuilt before the entry
    /// is stored.
    pub fn insert(&mut self, key: K, value: V)
        requires
            old(self).wf(),
            old(self).capacity() <= usize::MAX / 2,
        ensures
            final(self).after_insert(old(self), key, value),
    {
        let hash = self.get_hash(&key);
        proof {
            lemma_live_bound(self.table@);
        }
        if self.find(&key, hash).is_none() {
            if load_limit(self.capacity) < self.size + 1 {
                self.resize(2 * self.capacity);
            }
            self.force_insert(key, value, hash);
            self.size = self.size + 1;
        } else {
            self.force_insert(key, value, hash);
        }
    }

    /// Takes the entry of `key` out, if it has one, and hands it back. Its
    /// slot becomes a tombstone. Then, whether or not there was an entry, a
    /// dictionary that is emptier than one third has its capacity halved and
    /// its table rebuilt.
    pub fn remove(&mut self, key: &K) -> (removed: Option<(K, V)>)
        requires
            old(self).wf(),
        ensures
            final(self).after_remove(old(self), *key),
            removed == old(self).taken(*key),
    {
        let hash = self.get_hash(key);
        let output: Option<(K, V)> = match self.find(key, hash) {
            Some(index) => {
                proof {
                    lemma_stored_at(self.table@, index as int);
                    lemma_erase(self.table@, index as int);
                }
                let mut slot: Bucket<K, V> = Bucket::Tombstone;
                core::mem::swap(&mut self.table[index], &mut slot);
                self.size = self.size - 1;
                match slot {
                    Bucket::Entry(stored_key, value, _) => Some((stored_key, value)),
                    _ => None,
                }
            },
            None => None,
        };
        if self.size < self.capacity / 3 {
            self.resize(self.capacity / 2);
        }
        proof {
            assert(self@ =~= old(self)@.remove(*key));
        }
        output
    }

    /// The dictionary is what building from `pairs` gives: its slots are
    /// those of a table that started empty, with the capacity that the count
    /// of the pairs asks for, and had the pairs stored in turn; it maps what
    /// storing the pairs in turn leaves; and its capacity is the one that it
    /// started with, doubled if the keys overfill that.
    pub open spec fn is_built_from(&self, pairs: Seq<(K, V)>) -> bool {
        &&& self.wf()
        &&& self.slots() == built_from(pairs, spec_bulk_capacity(pairs.len() as int) as nat)
        &&& self@ == collected(pairs)
        &&& self.capacity() == (if self.size() > spec_load_limit(
            spec_bulk_capacity(pairs.len() as int),
        ) {
            2 * spec_bulk_capacity(pairs.len() as int)
        } else {
            spec_bulk_capacity(pairs.len() as int)
        })
    }

    /// An empty dictionary of `size` slots, or the error that no dictionary
    /// has zero slots.
    pub fn try_with_capacity(size: usize) -> (made: Result<Dictionary<K, V>, ConstructionError>)
        ensures
            match made {
                Ok(dict) => {
                    &&& size > 0
                    &&& dict.wf()
                    &&& dict.slots() == blank::<K, V>(size as nat)
                    &&& dict@ == Map::<K, V>::empty()
                    &&& dict.capacity() == size
                    &&& dict.size() == 0
                },
                Err(error) => size == 0 && error is ZeroCapacity,
            },
    {
        if size == 0 {
            Err(ConstructionError::ZeroCapacity)
        } else {
            Ok(Dictionary::with_capacity(size))
        }
    }

    /// A dictionary that holds `tuples`, stored from the first to the last.
    pub fn from_tuples(tuples: Vec<(K, V)>) -> (dict: Dictionary<K, V>)
        requires
            0 < tuples.len() <= MAX_BULK,
        ensures
            dict.is_built_from(tuples@),
    {
        let start: usize = bulk_capacity(tuples.len());
        let mut dict: Dictionary<K, V> = Dictionary::with_capacity(start);
        for pair in it: tuples
            invariant
                it.seq() == tuples@,
                0 < tuples.len() <= MAX_BULK,
                start == spec_bulk_capacity(tuples.len() as int),
                dict.wf(),
                dict.slots() == built_from(tuples@.take(it.index() as int), start as nat),
                dict@ == collected(tuples@.take(it.index() as int)),
                dict.size() <= it.index(),
                dict.capacity() == (if dict.size() > spec_load_limit(start as int) {
                    2 * start
                } else {
                    start as int
                }),
        {
            proof {
                assert(tuples@.take(it.index() + 1).drop_last() =~= tuples@.take(
                    it.index() as int,
                ));
            }
            let (key, value) = pair;
            dict.insert(key, value);
        }
        proof {
            assert(tuples@.take(tuples.len() as int) =~= tuples@);
        }
        dict
    }

    /// A dictionary that holds `tuples`, or the error that there were none.
    pub fn try_from_tuples(tuples: Vec<(K, V)>) -> (made: Result<
        Dictionary<K, V>,
        ConstructionError,
    >)
        requires
            tuples.len() <= MAX_BULK,
        ensures
            match made {
                Ok(dict) => tuples.len() > 0 && dict.is_built_from(tuples@),
                Err(error) => tuples.len() == 0 && error is EmptyInput,
            },
    {
        if tuples.is_empty() {
            Err(ConstructionError::EmptyInput)
        } else {
            Ok(Dictionary::from_tuples(tuples))
        }
    }

    /// A dictionary that holds each key of `key_vec` with the value at its
    /// place in `value_vec`, stored from the first to the last.
    pub fn from_vecs(key_vec: Vec<K>, value_vec: Vec<V>) -> (dict: Dictionary<K, V>)
        requires
            key_vec.len() == value_vec.len(),
            0 < key_vec.len() <= MAX_BULK,
        ensures
            dict.is_built_from(paired(key_vec@, value_vec@)),
    {
        Dictionary::from_tuples(zip(key_vec, value_vec))
    }

    /// A dictionary that holds each key of `key_vec` with the value at its
    /// place in `value_vec`, or the error that the two differ in length, or
    /// else that they are empty.
    pub fn try_from_vecs(key_vec: Vec<K>, value_vec: Vec<V>) -> (made: Result<
        Dictionary<K, V>,
        ConstructionError,
    >)
        requires
            key_vec.len() <= MAX_BULK,
        ensures
            match made {
                Ok(dict) => {
                    &&& key_vec.len() == value_vec.len()
                    &&& key_vec.len() > 0
                    &&& dict.is_built_from(paired(key_vec@, value_vec@))
                },
                Err(error) => if key_vec.len() != value_vec.len() {
                    error is LengthMismatch
                } else {
                    key_vec.len() == 0 && error is EmptyInput
                },
            },
    {
        if key_vec.len() != value_vec.len() {
            Err(ConstructionError::LengthMismatch)
        } else if key_vec.is_empty() {
            Err(ConstructionError::EmptyInput)
        } else {
            Ok(Dictionary::from_vecs(key_vec, value_vec))
        }
    }

    /// The keys of the entries, in the order of their slots.
    pub fn keys(&self) -> (key_vec: Vec<&K>)
        requires
            self.wf(),
        ensures
            key_vec.len() == self.entries().len(),
            forall|i: int| 0 <= i < key_vec.len() ==> *(#[trigger] key_vec@[i]) == self.entries()[i].0,
    {
        let mut key_vec: Vec<&K> = Vec::new();
        let mut at: usize = 0;
        while at < self.table.len()
            invariant
                at <= self.table.len(),
                sound(self.table@),
                key_vec.len() == listing(self.table@.take(at as int)).len(),
                forall|i: int|
                    0 <= i < key_vec.len() ==> *(#[trigger] key_vec@[i]) == listing(
                        self.table@.take(at as int),
                    )[i].0,
            decreases self.table.len() - at,
        {
            proof {
                lemma_prefix_step(self.table@, at as int);
            }
            match &self.table[at] {
                Bucket::Entry(key, _, _) => {
                    key_vec.push(key);
                },
                _ => {},
            }
            at = at + 1;
        }
        proof {
            assert(self.table@.take(at as int) =~= self.table@);
        }
        key_vec
    }

    /// The values of the entries, in the order of their slots.
    pub fn values(&self) -> (value_vec: Vec<&V>)
        requires
            self.wf(),
        ensures
            value_vec.len() == self.entries().len(),
            forall|i: int|
                0 <= i < value_vec.len() ==> *(#[trigger] value_vec@[i]) == self.entries()[i].1,
    {
        let mut value_vec: Vec<&V> = Vec::new();
        let mut at: usize = 0;
        while at < self.table.len()
            invariant
                at <= self.table.len(),
                sound(self.table@),
                value_vec.len() == listing(self.table@.take(at as int)).len(),
                forall|i: int|
                    0 <= i < value_vec.len() ==> *(#[trigger] value_vec@[i]) == listing(
                        self.table@.take(at as int),
                    )[i].1,
            decreases self.table.len() - at,
        {
            proof {
                lemma_prefix_step(self.table@, at as int);
            }
            match &self.table[at] {
                Bucket::Entry(_, value, _) => {
                    value_vec.push(value);
                },
                _ => {},
            }
            at = at + 1;
        }
        proof {
            assert(self.table@.take(at as int) =~= self.table@);
        }
        value_vec
    }

    /// The entries as pairs of key and value, in the order of their slots.
    pub fn items(&self) -> (item_vec: Vec<(&K, &V)>)
        requires
            self.wf(),
        ensures
            item_vec.len() == self.entries().len(),
            forall|i: int|
                0 <= i < item_vec.len() ==> {
                    &&& *(#[trigger] item_vec@[i]).0 == self.entries()[i].0
                    &&& *item_vec@[i].1 == self.entries()[i].1
                },
    {
        let mut item_vec: Vec<(&K, &V)> = Vec::new();
        let mut at: usize = 0;
        while at < self.table.len()
            invariant
                at <= self.table.len(),
                sound(self.table@),
                item_vec.len() == listing(self.table@.take(at as int)).len(),
                forall|i: int|
                    0 <= i < item_vec.len() ==> {
                        &&& *(#[trigger] item_vec@[i]).0 == listing(self.table@.take(at as int))[i].0
                        &&& *item_vec@[i].1 == listing(self.table@.take(at as int))[i].1
                    },
            decreases self.table.len() - at,
        {
            proof {
                lemma_prefix_step(self.table@, at as int);
            }
            match &self.table[at] {
                Bucket::Entry(key, value, _) => {
                    item_vec.push((key, value));
                },
                _ => {},
            }
            at = at + 1;
        }
        proof {
            assert(self.table@.take(at as int) =~= self.table@);
        }
        item_vec
    }

    /// The entries name each key of the dictionary once, with its value, and
    /// nothing else; there are as many as the size says.
    pub proof fn lemma_entries(&self)
        requires
            self.wf(),
        ensures
            self.entries().len() == self.size(),
            forall|i: int|
                0 <= i < self.entries().len() ==> self@.contains_pair(
                    (#[trigger] self.entries()[i]).0,
                    self.entries()[i].1,
                ),
            forall|key: K| #[trigger]
                self@.contains_key(key) ==> exists|i: int|
                    0 <= i < self.entries().len() && #[trigger] self.entries()[i] == (
                        key,
                        self@[key],
                    ),
            forall|i: int, j: int|
                0 <= i < j < self.entries().len() ==> (#[trigger] self.entries()[i]).0 != (
                #[trigger] self.entries()[j]).0,
    {
        lemma_listing(self.table@);
        assert forall|key: K| #[trigger] self@.contains_key(key) implies exists|i: int|
            0 <= i < self.entries().len() && #[trigger] self.entries()[i] == (key, self@[key]) by {
            assert(stored(self.table@).contains_key(key));
            let i = choose|i: int|
                0 <= i < listing(self.table@).len() && #[trigger] listing(self.table@)[i] == (
                    key,
                    stored(self.table@)[key],
                );
            assert(self.entries()[i] == (key, self@[key]));
        }
    }

    /// Makes the dictionary an empty one of the default capacity.
    pub fn clear(&mut self)
        ensures
            final(self).wf(),
            final(self).slots() == blank::<K, V>(DEFAULT_CAPACITY as nat),
            final(self)@ == Map::<K, V>::empty(),
            final(self).capacity() == DEFAULT_CAPACITY,
            final(self).size() == 0,
    {
        *self = Dictionary::new();
    }
}

impl<K: HashKey, V: Clone> Dictionary<K, V> {
    /// Looks `key` up: a copy of its key, a copy of its value and the slot of
    /// its entry, or `None` where it has no entry.
    pub fn lookup(&self, key: &K) -> (found: Option<(K, V, usize)>)
        requires
            self.wf(),
        ensures
            match found {
                Some((found_key, value, index)) => {
                    &&& self@.contains_key(*key)
                    &&& found_key == *key
                    &&& cloned(self@[*key], value)
                    &&& index < self.capacity()
                    &&& holds(self.slots()[index as int], *key)
                },
                None => !self@.contains_key(*key),
            },
    {
        let hash = self.get_hash(key);
        match self.find(key, hash) {
            Some(index) => {
                match &self.table[index] {
                    Bucket::Entry(stored_key, value, _) => Some(
                        (stored_key.duplicate(), value.clone(), index),
                    ),
                    _ => None,
                }
            },
            None => None,
        }
    }

    /// A copy of the value of `key`, or the message that the key does not
    /// exist.
    pub fn get(&self, key: &K) -> (value: Result<V, String>)
        requires
            self.wf(),
        ensures
            match value {
                Ok(value) => self@.contains_key(*key) && cloned(self@[*key], value),
                Err(message) => !self@.contains_key(*key) && message@ == "Key does not exist"@,
            },
    {
        match self.lookup(key) {
            Some(found) => Ok(found.1),
            None => Err("Key does not exist".to_owned()),
        }
    }
}

} // verus!
