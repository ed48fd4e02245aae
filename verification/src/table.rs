//! The slots of the table: their three states, what a sequence of slots
//! holds, and the search along the probe order that lookups and placements
//! share.
use crate::key::HashKey;
use crate::probe::{lemma_probe_in_table, lemma_probe_reaches, probe_at, probe_len, walk_len, Cursor};
use vstd::prelude::*;

verus! {

/// One slot of the table.
pub enum Bucket<K, V> {
    /// A live entry: its key, its value, and the key's hash as it was when
    /// the entry was stored.
    Entry(K, V, usize),
    /// A slot that has held no entry since the table was last rebuilt. A
    /// search stops here.
    Empty,
    /// A slot whose entry was removed. A search goes on past it.
    Tombstone,
}

/// The key of a live entry.
pub open spec fn key_of<K, V>(bucket: Bucket<K, V>) -> K {
    match bucket {
        Bucket::Entry(key, _, _) => key,
        _ => arbitrary(),
    }
}

/// The value of a live entry.
pub open spec fn value_of<K, V>(bucket: Bucket<K, V>) -> V {
    match bucket {
        Bucket::Entry(_, value, _) => value,
        _ => arbitrary(),
    }
}

/// The hash that a live entry was stored with.
pub open spec fn hash_of<K, V>(bucket: Bucket<K, V>) -> usize {
    match bucket {
        Bucket::Entry(_, _, hash) => hash,
        _ => arbitrary(),
    }
}

/// The slot is a live entry for `key`.
pub open spec fn holds<K, V>(bucket: Bucket<K, V>, key: K) -> bool {
    bucket is Entry && key_of(bucket) == key
}

/// Some slot of `slots` is a live entry for `key`.
pub open spec fn has_key<K, V>(slots: Seq<Bucket<K, V>>, key: K) -> bool {
    exists|i: int| 0 <= i < slots.len() && holds(#[trigger] slots[i], key)
}

/// A slot of `slots` that is a live entry for `key`, if there is one.
pub open spec fn slot_of<K, V>(slots: Seq<Bucket<K, V>>, key: K) -> int {
    choose|i: int| 0 <= i < slots.len() && holds(#[trigger] slots[i], key)
}

/// The mapping that `slots` stores: each key of a live entry, with the value
/// beside it.
pub open spec fn stored<K, V>(slots: Seq<Bucket<K, V>>) -> Map<K, V> {
    Map::new(|key: K| has_key(slots, key), |key: K| value_of(slots[slot_of(slots, key)]))
}

/// The number of live entries in `slots`.
pub open spec fn live<K, V>(slots: Seq<Bucket<K, V>>) -> nat
    decreases slots.len(),
{
    if slots.len() == 0 {
        0
    } else if slots.last() is Entry {
        live(slots.drop_last()) + 1
    } else {
        live(slots.drop_last())
    }
}

/// The live entries of `slots` as pairs of key and value, in the order of
/// their slots.
pub open spec fn listing<K, V>(slots: Seq<Bucket<K, V>>) -> Seq<(K, V)>
    decreases slots.len(),
{
    if slots.len() == 0 {
        Seq::empty()
    } else if slots.last() is Entry {
        listing(slots.drop_last()).push((key_of(slots.last()), value_of(slots.last())))
    } else {
        listing(slots.drop_last())
    }
}

/// The first `n` slots of the probe order of `hash` are neither empty nor
/// live entries for `key`: a search for `key` goes past them.
pub open spec fn passes<K, V>(slots: Seq<Bucket<K, V>>, key: K, hash: usize, n: nat) -> bool {
    forall|m: nat|
        m < n ==> {
            let slot = slots[#[trigger] probe_at(hash, slots.len(), m) as int];
            !(slot is Empty) && !holds(slot, key)
        }
}

/// A search for `key` along the probe order of `hash` ends without a match:
/// it goes past every slot up to an empty one, or up to the end of the order.
pub open spec fn misses<K, V>(slots: Seq<Bucket<K, V>>, key: K, hash: usize) -> bool {
    exists|stop: nat|
        {
            &&& stop <= probe_len(slots.len())
            &&& #[trigger] passes(slots, key, hash, stop)
            &&& stop < probe_len(slots.len()) ==> slots[probe_at(hash, slots.len(), stop) as int] is Empty
        }
}

/// No empty slot lies among the first `n` slots of the probe order of `hash`.
pub open spec fn unbroken<K, V>(slots: Seq<Bucket<K, V>>, hash: usize, n: nat) -> bool {
    forall|m: nat| m < n ==> !(slots[#[trigger] probe_at(hash, slots.len(), m) as int] is Empty)
}

/// The probe order of `hash` comes to the slot `index` before it comes to an
/// empty slot: a search with that hash gets as far as `index`.
pub open spec fn reachable<K, V>(slots: Seq<Bucket<K, V>>, hash: usize, index: int) -> bool {
    exists|n: nat|
        {
            &&& n < probe_len(slots.len())
            &&& probe_at(hash, slots.len(), n) == index
            &&& #[trigger] unbroken(slots, hash, n)
        }
}

/// The first `n` slots of the probe order of `hash` are all live.
pub open spec fn all_live<K, V>(slots: Seq<Bucket<K, V>>, hash: usize, n: nat) -> bool {
    forall|m: nat| m < n ==> slots[#[trigger] probe_at(hash, slots.len(), m) as int] is Entry
}

/// The slot `index` is the first on the probe order of `hash` that is not
/// live.
pub open spec fn first_vacant<K, V>(slots: Seq<Bucket<K, V>>, hash: usize, index: int) -> bool {
    &&& 0 <= index < slots.len()
    &&& !(slots[index] is Entry)
    &&& exists|n: nat|
        {
            &&& n < probe_len(slots.len())
            &&& probe_at(hash, slots.len(), n) == index
            &&& #[trigger] all_live(slots, hash, n)
        }
}

/// A search for `key` along the probe order of `hash` ends with a match in
/// the slot `index`.
pub open spec fn found_at<K, V>(
    slots: Seq<Bucket<K, V>>,
    key: K,
    hash: usize,
    index: int,
) -> bool {
    &&& 0 <= index < slots.len()
    &&& holds(slots[index], key)
    &&& exists|n: nat|
        {
            &&& n < probe_len(slots.len())
            &&& probe_at(hash, slots.len(), n) == index
            &&& #[trigger] passes(slots, key, hash, n)
        }
}

/// The slot `index` is where an entry for `key` is stored: the slot of the
/// match where a search for the key ends with one, and else the first slot
/// on the probe order that is not live.
pub open spec fn lands_at<K, V>(slots: Seq<Bucket<K, V>>, key: K, hash: usize, index: int) -> bool {
    ||| found_at(slots, key, hash, index)
    ||| misses(slots, key, hash) && first_vacant(slots, hash, index)
}

/// The slot where an entry for `key` is stored.
pub open spec fn landing<K, V>(slots: Seq<Bucket<K, V>>, key: K, hash: usize) -> int {
    choose|index: int| lands_at(slots, key, hash, index)
}

/// The slots once `value` is stored for `key`: the slot where the entry
/// lands holds the key, the value and the hash, and the others are as they
/// were.
pub open spec fn placed<K, V>(
    slots: Seq<Bucket<K, V>>,
    key: K,
    value: V,
    hash: usize,
) -> Seq<Bucket<K, V>> {
    slots.update(landing(slots, key, hash), Bucket::Entry(key, value, hash))
}

/// A table of `capacity` empty slots.
pub open spec fn blank<K, V>(capacity: nat) -> Seq<Bucket<K, V>> {
    Seq::new(capacity, |i: int| Bucket::Empty)
}

/// A table of `capacity` slots in which the live entries among the first
/// `n` slots of `slots` were stored, one after the other, each with the hash
/// that it carries.
pub open spec fn rebuilt_from<K, V>(
    slots: Seq<Bucket<K, V>>,
    n: nat,
    capacity: nat,
) -> Seq<Bucket<K, V>>
    decreases n,
{
    if n == 0 {
        blank(capacity)
    } else {
        let so_far = rebuilt_from(slots, (n - 1) as nat, capacity);
        match slots[n - 1] {
            Bucket::Entry(key, value, hash) => placed(so_far, key, value, hash),
            _ => so_far,
        }
    }
}

/// The table rebuilt with `capacity` slots: every live entry of `slots`
/// stored again, in the order of the slots.
pub open spec fn rebuilt<K, V>(slots: Seq<Bucket<K, V>>, capacity: nat) -> Seq<Bucket<K, V>> {
    rebuilt_from(slots, slots.len(), capacity)
}

/// No slot is a tombstone.
pub open spec fn no_tombstones<K, V>(slots: Seq<Bucket<K, V>>) -> bool {
    forall|i: int| 0 <= i < slots.len() ==> !((#[trigger] slots[i]) is Tombstone)
}

/// No key has two live entries in `slots`.
pub open spec fn distinct<K, V>(slots: Seq<Bucket<K, V>>) -> bool {
    forall|i: int, j: int|
        0 <= i < slots.len() && 0 <= j < slots.len() && (#[trigger] slots[i]) is Entry && (
        #[trigger] slots[j]) is Entry && key_of(slots[i]) == key_of(slots[j]) ==> i == j
}

/// The slots are a sound table: there is at least one slot, every live
/// entry carries the hash of its key and is reachable by that hash, and no
/// key has two live entries.
pub open spec fn sound<K: HashKey, V>(slots: Seq<Bucket<K, V>>) -> bool {
    &&& slots.len() > 0
    &&& forall|i: int|
        0 <= i < slots.len() && (#[trigger] slots[i]) is Entry ==> {
            &&& hash_of(slots[i]) == key_of(slots[i]).spec_hash()
            &&& reachable(slots, hash_of(slots[i]), i)
        }
    &&& distinct(slots)
}

/// A search gets as far as the first slot on its probe order that is not
/// live.
pub proof fn lemma_vacant_is_reachable<K, V>(slots: Seq<Bucket<K, V>>, hash: usize, index: int)
    requires
        first_vacant(slots, hash, index),
    ensures
        reachable(slots, hash, index),
{
    let n = choose|n: nat|
        {
            &&& n < probe_len(slots.len())
            &&& probe_at(hash, slots.len(), n) == index
            &&& #[trigger] all_live(slots, hash, n)
        };
    assert(unbroken(slots, hash, n));
}

/// An entry lands in one slot only.
pub proof fn lemma_lands_once<K: HashKey, V>(
    slots: Seq<Bucket<K, V>>,
    key: K,
    hash: usize,
    index: int,
)
    requires
        sound(slots),
        hash == key.spec_hash(),
        lands_at(slots, key, hash, index),
    ensures
        landing(slots, key, hash) == index,
{
    let other = landing(slots, key, hash);
    assert(lands_at(slots, key, hash, other));
    if misses(slots, key, hash) {
        lemma_miss_is_absent(slots, key, hash);
    }
    if found_at(slots, key, hash, index) {
        assert(holds(slots[index], key));
        assert(has_key(slots, key));
        assert(found_at(slots, key, hash, other));
        assert(slots[index] is Entry && slots[other] is Entry);
    } else {
        assert(!has_key(slots, key));
        if found_at(slots, key, hash, other) {
            assert(holds(slots[other], key));
        }
        assert(first_vacant(slots, hash, index) && first_vacant(slots, hash, other));
        let n = choose|n: nat|
            {
                &&& n < probe_len(slots.len())
                &&& probe_at(hash, slots.len(), n) == index
                &&& #[trigger] all_live(slots, hash, n)
            };
        let m = choose|m: nat|
            {
                &&& m < probe_len(slots.len())
                &&& probe_at(hash, slots.len(), m) == other
                &&& #[trigger] all_live(slots, hash, m)
            };
        if n < m {
            assert(slots[probe_at(hash, slots.len(), n) as int] is Entry);
        } else if m < n {
            assert(slots[probe_at(hash, slots.len(), m) as int] is Entry);
        }
    }
}

/// A key with a live entry in the slot `index` is stored with that slot's
/// value.
pub proof fn lemma_stored_at<K, V>(slots: Seq<Bucket<K, V>>, index: int)
    requires
        distinct(slots),
        0 <= index < slots.len(),
        slots[index] is Entry,
    ensures
        has_key(slots, key_of(slots[index])),
        slot_of(slots, key_of(slots[index])) == index,
        stored(slots).contains_key(key_of(slots[index])),
        stored(slots)[key_of(slots[index])] == value_of(slots[index]),
{
    assert(holds(slots[index], key_of(slots[index])));
}

/// A search that ends without a match shows that the key has no live entry.
pub proof fn lemma_miss_is_absent<K: HashKey, V>(slots: Seq<Bucket<K, V>>, key: K, hash: usize)
    requires
        sound(slots),
        hash == key.spec_hash(),
        misses(slots, key, hash),
    ensures
        !has_key(slots, key),
        !stored(slots).contains_key(key),
{
    if has_key(slots, key) {
        let at = slot_of(slots, key);
        assert(holds(slots[at], key));
        assert(reachable(slots, hash, at));
        let n = choose|n: nat|
            {
                &&& n < probe_len(slots.len())
                &&& probe_at(hash, slots.len(), n) == at
                &&& #[trigger] unbroken(slots, hash, n)
            };
        let stop = choose|stop: nat|
            {
                &&& stop <= probe_len(slots.len())
                &&& #[trigger] passes(slots, key, hash, stop)
                &&& stop < probe_len(slots.len()) ==> slots[probe_at(
                    hash,
                    slots.len(),
                    stop,
                ) as int] is Empty
            };
        if n < stop {
            assert(!holds(slots[probe_at(hash, slots.len(), n) as int], key));
        } else if stop < n {
            assert(!(slots[probe_at(hash, slots.len(), stop) as int] is Empty));
        }
        assert(false);
    }
}

/// The number of live entries after one slot is replaced.
pub proof fn lemma_live_update<K, V>(slots: Seq<Bucket<K, V>>, index: int, bucket: Bucket<K, V>)
    requires
        0 <= index < slots.len(),
    ensures
        live(slots.update(index, bucket)) + (if slots[index] is Entry {
            1nat
        } else {
            0nat
        }) == live(slots) + (if bucket is Entry {
            1nat
        } else {
            0nat
        }),
    decreases slots.len(),
{
    let after = slots.update(index, bucket);
    if index == slots.len() - 1 {
        assert(after.drop_last() =~= slots.drop_last());
    } else {
        assert(after.drop_last() =~= slots.drop_last().update(index, bucket));
        lemma_live_update(slots.drop_last(), index, bucket);
    }
}

/// There are no more live entries than slots, and as many only if every
/// slot is live.
pub proof fn lemma_live_bound<K, V>(slots: Seq<Bucket<K, V>>)
    ensures
        live(slots) <= slots.len(),
        (forall|i: int| 0 <= i < slots.len() ==> (#[trigger] slots[i]) is Entry) ==> live(slots)
            == slots.len(),
    decreases slots.len(),
{
    if slots.len() > 0 {
        lemma_live_bound(slots.drop_last());
        if forall|i: int| 0 <= i < slots.len() ==> (#[trigger] slots[i]) is Entry {
            assert(slots.last() is Entry);
            assert forall|i: int| 0 <= i < slots.drop_last().len() implies (
            #[trigger] slots.drop_last()[i]) is Entry by {
                assert(slots[i] is Entry);
            }
        }
    }
}

/// Replacing a slot by one that is not empty breaks no probe order.
pub proof fn lemma_unbroken_update<K, V>(
    slots: Seq<Bucket<K, V>>,
    index: int,
    bucket: Bucket<K, V>,
    hash: usize,
    n: nat,
)
    requires
        0 <= index < slots.len(),
        !(bucket is Empty),
        unbroken(slots, hash, n),
        n <= probe_len(slots.len()),
    ensures
        unbroken(slots.update(index, bucket), hash, n),
{
    let after = slots.update(index, bucket);
    assert forall|m: nat| m < n implies !(after[#[trigger] probe_at(
        hash,
        after.len(),
        m,
    ) as int] is Empty) by {
        lemma_probe_in_table(hash, slots.len(), m);
        assert(!(slots[probe_at(hash, slots.len(), m) as int] is Empty));
    }
}

/// Replacing a slot by one that is not empty leaves every slot reachable
/// that was reachable.
pub proof fn lemma_reachable_update<K, V>(
    slots: Seq<Bucket<K, V>>,
    index: int,
    bucket: Bucket<K, V>,
    hash: usize,
    target: int,
)
    requires
        0 <= index < slots.len(),
        !(bucket is Empty),
        reachable(slots, hash, target),
    ensures
        reachable(slots.update(index, bucket), hash, target),
{
    let n = choose|n: nat|
        {
            &&& n < probe_len(slots.len())
            &&& probe_at(hash, slots.len(), n) == target
            &&& #[trigger] unbroken(slots, hash, n)
        };
    lemma_unbroken_update(slots, index, bucket, hash, n);
}

/// Storing a key that has no live entry in a slot that is not live, and that
/// the key's hash reaches, adds the key to what the table stores.
pub proof fn lemma_claim<K: HashKey, V>(
    slots: Seq<Bucket<K, V>>,
    index: int,
    key: K,
    value: V,
    hash: usize,
)
    requires
        sound(slots),
        0 <= index < slots.len(),
        !(slots[index] is Entry),
        !has_key(slots, key),
        reachable(slots, hash, index),
        hash == key.spec_hash(),
    ensures
        sound(slots.update(index, Bucket::Entry(key, value, hash))),
        stored(slots.update(index, Bucket::Entry(key, value, hash))) == stored(slots).insert(
            key,
            value,
        ),
        live(slots.update(index, Bucket::Entry(key, value, hash))) == live(slots) + 1,
{
    let bucket = Bucket::Entry(key, value, hash);
    let after = slots.update(index, bucket);
    lemma_live_update(slots, index, bucket);
    assert forall|i: int| 0 <= i < after.len() && (#[trigger] after[i]) is Entry implies {
        &&& hash_of(after[i]) == key_of(after[i]).spec_hash()
        &&& reachable(after, hash_of(after[i]), i)
    } by {
        if i == index {
            lemma_reachable_update(slots, index, bucket, hash, index);
        } else {
            assert(slots[i] is Entry);
            lemma_reachable_update(slots, index, bucket, hash_of(slots[i]), i);
        }
    }
    assert forall|i: int, j: int|
        0 <= i < after.len() && 0 <= j < after.len() && (#[trigger] after[i]) is Entry && (
        #[trigger] after[j]) is Entry && key_of(after[i]) == key_of(after[j]) implies i == j by {
        if i != index {
            assert(slots[i] is Entry);
            assert(holds(slots[i], key_of(slots[i])));
        }
        if j != index {
            assert(slots[j] is Entry);
            assert(holds(slots[j], key_of(slots[j])));
        }
    }
    assert(sound(after));
    assert forall|k: K| has_key(after, k) <==> k == key || has_key(slots, k) by {
        if has_key(after, k) {
            let at = slot_of(after, k);
            assert(holds(after[at], k));
            if at != index {
                assert(holds(slots[at], k));
            }
        }
        if k == key {
            assert(holds(after[index], k));
        }
        if has_key(slots, k) {
            let at = slot_of(slots, k);
            assert(holds(slots[at], k));
            assert(holds(after[at], k));
        }
    }
    assert forall|k: K| has_key(after, k) implies #[trigger] stored(after)[k] == stored(
        slots,
    ).insert(key, value)[k] by {
        if k == key {
            lemma_stored_at(after, index);
        } else {
            let at = slot_of(slots, k);
            assert(holds(slots[at], k));
            assert(after[at] is Entry);
            lemma_stored_at(after, at);
            lemma_stored_at(slots, at);
        }
    }
    assert(stored(after) =~= stored(slots).insert(key, value));
}

/// Giving a live entry a new value changes the value that is stored for its
/// key, and nothing else.
pub proof fn lemma_overwrite<K: HashKey, V>(slots: Seq<Bucket<K, V>>, index: int, value: V)
    requires
        sound(slots),
        0 <= index < slots.len(),
        slots[index] is Entry,
    ensures
        sound(slots.update(index, Bucket::Entry(key_of(slots[index]), value, hash_of(slots[index])))),
        stored(slots.update(index, Bucket::Entry(key_of(slots[index]), value, hash_of(slots[index]))))
            == stored(slots).insert(key_of(slots[index]), value),
        live(slots.update(index, Bucket::Entry(key_of(slots[index]), value, hash_of(slots[index]))))
            == live(slots),
{
    let key = key_of(slots[index]);
    let bucket = Bucket::Entry(key, value, hash_of(slots[index]));
    let after = slots.update(index, bucket);
    lemma_live_update(slots, index, bucket);
    assert forall|i: int| 0 <= i < after.len() && (#[trigger] after[i]) is Entry implies {
        &&& hash_of(after[i]) == key_of(after[i]).spec_hash()
        &&& reachable(after, hash_of(after[i]), i)
    } by {
        assert(slots[i] is Entry);
        lemma_reachable_update(slots, index, bucket, hash_of(slots[i]), i);
    }
    assert forall|i: int, j: int|
        0 <= i < after.len() && 0 <= j < after.len() && (#[trigger] after[i]) is Entry && (
        #[trigger] after[j]) is Entry && key_of(after[i]) == key_of(after[j]) implies i == j by {
        assert(slots[i] is Entry);
        assert(slots[j] is Entry);
    }
    assert(sound(after));
    assert forall|k: K| has_key(after, k) <==> k == key || has_key(slots, k) by {
        if has_key(after, k) {
            let at = slot_of(after, k);
            assert(holds(after[at], k));
            assert(holds(slots[at], k));
        }
        if k == key {
            assert(holds(after[index], k));
        }
        if has_key(slots, k) {
            let at = slot_of(slots, k);
            assert(holds(slots[at], k));
            assert(holds(after[at], k));
        }
    }
    assert forall|k: K| has_key(after, k) implies #[trigger] stored(after)[k] == stored(
        slots,
    ).insert(key, value)[k] by {
        if k == key {
            lemma_stored_at(after, index);
        } else {
            let at = slot_of(slots, k);
            assert(holds(slots[at], k));
            assert(after[at] is Entry);
            lemma_stored_at(after, at);
            lemma_stored_at(slots, at);
        }
    }
    assert(stored(after) =~= stored(slots).insert(key, value));
}

/// Turning a live entry into a tombstone takes its key out of what the table
/// stores, and nothing else.
pub proof fn lemma_erase<K: HashKey, V>(slots: Seq<Bucket<K, V>>, index: int)
    requires
        sound(slots),
        0 <= index < slots.len(),
        slots[index] is Entry,
    ensures
        sound(slots.update(index, Bucket::Tombstone)),
        stored(slots.update(index, Bucket::Tombstone)) == stored(slots).remove(
            key_of(slots[index]),
        ),
        live(slots.update(index, Bucket::Tombstone)) + 1 == live(slots),
{
    let key = key_of(slots[index]);
    let bucket = Bucket::<K, V>::Tombstone;
    let after = slots.update(index, bucket);
    lemma_live_update(slots, index, bucket);
    assert forall|i: int| 0 <= i < after.len() && (#[trigger] after[i]) is Entry implies {
        &&& hash_of(after[i]) == key_of(after[i]).spec_hash()
        &&& reachable(after, hash_of(after[i]), i)
    } by {
        assert(slots[i] is Entry);
        lemma_reachable_update(slots, index, bucket, hash_of(slots[i]), i);
    }
    assert forall|i: int, j: int|
        0 <= i < after.len() && 0 <= j < after.len() && (#[trigger] after[i]) is Entry && (
        #[trigger] after[j]) is Entry && key_of(after[i]) == key_of(after[j]) implies i == j by {
        assert(slots[i] is Entry);
        assert(slots[j] is Entry);
    }
    assert(sound(after));
    assert forall|k: K| has_key(after, k) <==> k != key && has_key(slots, k) by {
        if has_key(after, k) {
            let at = slot_of(after, k);
            assert(holds(after[at], k));
            assert(holds(slots[at], k));
            assert(slots[index] is Entry);
        }
        if k != key && has_key(slots, k) {
            let at = slot_of(slots, k);
            assert(holds(slots[at], k));
            assert(holds(after[at], k));
        }
    }
    assert forall|k: K| has_key(after, k) implies #[trigger] stored(after)[k] == stored(
        slots,
    ).remove(key)[k] by {
        let at = slot_of(slots, k);
        assert(holds(slots[at], k));
        assert(after[at] is Entry);
        lemma_stored_at(after, at);
        lemma_stored_at(slots, at);
    }
    assert(stored(after) =~= stored(slots).remove(key));
}

/// A table of empty slots is sound and stores nothing.
pub proof fn lemma_blank<K: HashKey, V>(slots: Seq<Bucket<K, V>>)
    requires
        forall|i: int| 0 <= i < slots.len() ==> (#[trigger] slots[i]) is Empty,
    ensures
        slots.len() > 0 ==> sound(slots),
        stored(slots) == Map::<K, V>::empty(),
        live(slots) == 0,
        listing(slots) == Seq::<(K, V)>::empty(),
    decreases slots.len(),
{
    if slots.len() > 0 {
        assert(slots.last() is Empty);
        assert forall|i: int| 0 <= i < slots.drop_last().len() implies (
        #[trigger] slots.drop_last()[i]) is Empty by {
            assert(slots[i] is Empty);
        }
        lemma_blank(slots.drop_last());
    }
    assert forall|k: K| !has_key(slots, k) by {
        if has_key(slots, k) {
            let at = slot_of(slots, k);
            assert(holds(slots[at], k));
        }
    }
    assert(stored(slots) =~= Map::<K, V>::empty());
}

/// The first `n` slots hold no more live entries than all of them.
pub proof fn lemma_live_prefix<K, V>(slots: Seq<Bucket<K, V>>, n: int)
    requires
        0 <= n <= slots.len(),
    ensures
        live(slots.take(n)) <= live(slots),
    decreases slots.len(),
{
    if n == slots.len() {
        assert(slots.take(n) =~= slots);
    } else {
        assert(slots.take(n) =~= slots.drop_last().take(n));
        lemma_live_prefix(slots.drop_last(), n);
    }
}

/// What one more slot adds to the first `n`: to their live entries, to their
/// listing, and to what they store.
pub proof fn lemma_prefix_step<K, V>(slots: Seq<Bucket<K, V>>, n: int)
    requires
        distinct(slots),
        0 <= n < slots.len(),
    ensures
        distinct(slots.take(n)),
        distinct(slots.take(n + 1)),
        slots[n] is Entry ==> {
            &&& !has_key(slots.take(n), key_of(slots[n]))
            &&& live(slots.take(n + 1)) == live(slots.take(n)) + 1
            &&& listing(slots.take(n + 1)) == listing(slots.take(n)).push(
                (key_of(slots[n]), value_of(slots[n])),
            )
            &&& stored(slots.take(n + 1)) == stored(slots.take(n)).insert(
                key_of(slots[n]),
                value_of(slots[n]),
            )
        },
        !(slots[n] is Entry) ==> {
            &&& live(slots.take(n + 1)) == live(slots.take(n))
            &&& listing(slots.take(n + 1)) == listing(slots.take(n))
            &&& stored(slots.take(n + 1)) == stored(slots.take(n))
        },
{
    let less = slots.take(n);
    let more = slots.take(n + 1);
    assert(more.drop_last() =~= less);
    assert(more.last() == slots[n]);
    assert(distinct(less)) by {
        assert forall|i: int, j: int|
            0 <= i < less.len() && 0 <= j < less.len() && (#[trigger] less[i]) is Entry && (
            #[trigger] less[j]) is Entry && key_of(less[i]) == key_of(less[j]) implies i == j by {
            assert(slots[i] is Entry && slots[j] is Entry);
        }
    }
    assert(distinct(more)) by {
        assert forall|i: int, j: int|
            0 <= i < more.len() && 0 <= j < more.len() && (#[trigger] more[i]) is Entry && (
            #[trigger] more[j]) is Entry && key_of(more[i]) == key_of(more[j]) implies i == j by {
            assert(slots[i] is Entry && slots[j] is Entry);
        }
    }
    if slots[n] is Entry {
        let key = key_of(slots[n]);
        let value = value_of(slots[n]);
        if has_key(less, key) {
            let at = slot_of(less, key);
            assert(holds(less[at], key));
            assert(slots[at] is Entry && slots[n] is Entry);
        }
        assert forall|k: K| has_key(more, k) <==> k == key || has_key(less, k) by {
            if has_key(more, k) {
                let at = slot_of(more, k);
                assert(holds(more[at], k));
                if at != n {
                    assert(holds(less[at], k));
                }
            }
            if k == key {
                assert(holds(more[n], k));
            }
            if has_key(less, k) {
                let at = slot_of(less, k);
                assert(holds(less[at], k));
                assert(holds(more[at], k));
            }
        }
        assert forall|k: K| has_key(more, k) implies #[trigger] stored(more)[k] == stored(
            less,
        ).insert(key, value)[k] by {
            if k == key {
                lemma_stored_at(more, n);
            } else {
                let at = slot_of(less, k);
                assert(holds(less[at], k));
                assert(more[at] is Entry);
                lemma_stored_at(more, at);
                lemma_stored_at(less, at);
            }
        }
        assert(stored(more) =~= stored(less).insert(key, value));
    } else {
        assert forall|k: K| has_key(more, k) <==> has_key(less, k) by {
            if has_key(more, k) {
                let at = slot_of(more, k);
                assert(holds(more[at], k));
                assert(holds(less[at], k));
            }
            if has_key(less, k) {
                let at = slot_of(less, k);
                assert(holds(less[at], k));
                assert(holds(more[at], k));
            }
        }
        assert forall|k: K| has_key(more, k) implies #[trigger] stored(more)[k] == stored(less)[k] by {
            let at = slot_of(less, k);
            assert(holds(less[at], k));
            assert(more[at] is Entry);
            lemma_stored_at(more, at);
            lemma_stored_at(less, at);
        }
        assert(stored(more) =~= stored(less));
    }
}

/// The listing of the first `n` slots names each key that they store once,
/// with the value stored for it, and nothing else.
pub proof fn lemma_listing_prefix<K: HashKey, V>(slots: Seq<Bucket<K, V>>, n: int)
    requires
        distinct(slots),
        0 <= n <= slots.len(),
    ensures
        listing(slots.take(n)).len() == live(slots.take(n)),
        forall|i: int|
            0 <= i < listing(slots.take(n)).len() ==> stored(slots.take(n)).contains_pair(
                (#[trigger] listing(slots.take(n))[i]).0,
                listing(slots.take(n))[i].1,
            ),
        forall|key: K| #[trigger]
            stored(slots.take(n)).contains_key(key) ==> exists|i: int|
                0 <= i < listing(slots.take(n)).len() && #[trigger] listing(slots.take(n))[i] == (
                    key,
                    stored(slots.take(n))[key],
                ),
        forall|i: int, j: int|
            0 <= i < j < listing(slots.take(n)).len() ==> (#[trigger] listing(slots.take(n))[i]).0
                != (#[trigger] listing(slots.take(n))[j]).0,
    decreases n,
{
    if n == 0 {
        lemma_blank(slots.take(0));
    } else {
        lemma_listing_prefix(slots, n - 1);
        lemma_prefix_step(slots, n - 1);
        let less = slots.take(n - 1);
        let more = slots.take(n);
        if slots[n - 1] is Entry {
            let key = key_of(slots[n - 1]);
            let value = value_of(slots[n - 1]);
            let last = listing(less).len() as int;
            assert forall|k: K| #[trigger] stored(more).contains_key(k) implies exists|i: int|
                0 <= i < listing(more).len() && #[trigger] listing(more)[i] == (
                    k,
                    stored(more)[k],
                ) by {
                if k == key {
                    assert(listing(more)[last] == (k, stored(more)[k]));
                } else {
                    assert(stored(less).contains_key(k));
                    let i = choose|i: int|
                        0 <= i < listing(less).len() && #[trigger] listing(less)[i] == (
                            k,
                            stored(less)[k],
                        );
                    assert(listing(more)[i] == (k, stored(more)[k]));
                }
            }
            assert forall|i: int, j: int| 0 <= i < j < listing(more).len() implies (
            #[trigger] listing(more)[i]).0 != (#[trigger] listing(more)[j]).0 by {
                if j == last {
                    assert(stored(less).contains_pair(listing(less)[i].0, listing(less)[i].1));
                }
            }
            assert forall|i: int| 0 <= i < listing(more).len() implies stored(more).contains_pair(
                (#[trigger] listing(more)[i]).0,
                listing(more)[i].1,
            ) by {
                if i < last {
                    assert(stored(less).contains_pair(listing(less)[i].0, listing(less)[i].1));
                }
            }
        }
    }
}

/// The listing of a table names each key that the table stores once, with
/// the value stored for it, and nothing else.
pub proof fn lemma_listing<K: HashKey, V>(slots: Seq<Bucket<K, V>>)
    requires
        distinct(slots),
    ensures
        listing(slots).len() == live(slots),
        forall|i: int|
            0 <= i < listing(slots).len() ==> stored(slots).contains_pair(
                (#[trigger] listing(slots)[i]).0,
                listing(slots)[i].1,
            ),
        forall|key: K| #[trigger]
            stored(slots).contains_key(key) ==> exists|i: int|
                0 <= i < listing(slots).len() && #[trigger] listing(slots)[i] == (
                    key,
                    stored(slots)[key],
                ),
        forall|i: int, j: int|
            0 <= i < j < listing(slots).len() ==> (#[trigger] listing(slots)[i]).0 != (
            #[trigger] listing(slots)[j]).0,
{
    lemma_listing_prefix(slots, slots.len() as int);
    assert(slots.take(slots.len() as int) =~= slots);
}

/// How a search along the probe order ended.
pub enum Probe {
    /// The key has a live entry in this slot.
    Hit(usize),
    /// The key has no live entry, and this slot is where it would be stored:
    /// the first tombstone that the search went past, or else the empty slot
    /// that ended it.
    Free(usize),
    /// The key has no live entry, and every slot of the table is live.
    Full,
}

/// Searches `table` for `key` along the probe order of `hash`.
pub fn search<K: HashKey, V>(table: &Vec<Bucket<K, V>>, key: &K, hash: usize) -> (found: Probe)
    requires
        table.len() > 0,
    ensures
        match found {
            Probe::Hit(index) => found_at(table@, *key, hash, index as int),
            Probe::Free(index) => {
                &&& misses(table@, *key, hash)
                &&& first_vacant(table@, hash, index as int)
            },
            Probe::Full => {
                &&& misses(table@, *key, hash)
                &&& forall|i: int| 0 <= i < table.len() ==> (#[trigger] table@[i]) is Entry
            },
        },
{
    let capacity: usize = table.len();
    let ghost cap: nat = capacity as nat;
    let mut cursor = Cursor::start(hash, capacity);
    let mut free: Option<usize> = None;
    let mut more: bool = true;
    let ghost mut seen: nat = 0;
    while more
        invariant
            capacity == table.len(),
            cap == capacity,
            capacity > 0,
            cursor.hash == hash,
            cursor.at(cap, cursor.round as nat),
            more ==> seen == cursor.round,
            !more ==> seen == probe_len(cap),
            passes(table@, *key, hash, seen),
            match free {
                Some(index) => first_vacant(table@, hash, index as int),
                None => all_live(table@, hash, seen),
            },
        decreases probe_len(cap) - cursor.round + (if more { 1nat } else { 0nat }),
    {
        match &table[cursor.index] {
            Bucket::Entry(stored_key, _, _) => {
                if stored_key.same(key) {
                    return Probe::Hit(cursor.index);
                }
            },
            Bucket::Tombstone => {
                if free.is_none() {
                    free = Some(cursor.index);
                }
            },
            Bucket::Empty => {
                proof {
                    assert(passes(table@, *key, hash, seen));
                }
                return Probe::Free(
                    match free {
                        Some(index) => index,
                        None => cursor.index,
                    },
                );
            },
        }
        more = cursor.advance(capacity);
        proof {
            seen = seen + 1;
        }
    }
    proof {
        assert(passes(table@, *key, hash, seen));
    }
    match free {
        Some(index) => Probe::Free(index),
        None => {
            proof {
                assert forall|i: int| 0 <= i < table.len() implies (#[trigger] table@[i]) is Entry by {
                    lemma_probe_reaches(hash, cap, i as nat);
                    assert(table@[probe_at(hash, cap, walk_len(cap) + i as nat) as int] is Entry);
                }
            }
            Probe::Full
        },
    }
}

} // verus!
