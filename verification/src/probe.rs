//! The probe order: the slots that are visited, in turn, for a hash in a
//! table of a given capacity.
//!
//! The order starts as a perturbed walk: from `hash mod capacity`, each step
//! takes `index` to `(5 * index + 1 + perturb) mod capacity`, where `perturb`
//! starts as the hash and loses its five lowest bits before every step. Once
//! `perturb` has run out the walk depends on the index alone, so within
//! `capacity` further steps it has been everywhere it will ever go. The walk
//! is therefore followed for `capacity + SETTLE_STEPS` slots; after that the
//! order sweeps the slots from the first to the last, so that it reaches
//! every slot of the table, whatever the capacity.
use vstd::prelude::*;

verus! {

/// The number of bits that `perturb` loses before each step.
pub const PERTURB_SHIFT: usize = 5;

/// After this many steps `perturb` is zero for every hash.
pub const SETTLE_STEPS: u128 = 13;

/// `perturb` after `n` steps from the hash `hash`.
pub open spec fn perturb_at(hash: usize, n: nat) -> usize
    decreases n,
{
    if n == 0 {
        hash
    } else {
        perturb_at(hash, (n - 1) as nat) >> PERTURB_SHIFT
    }
}

/// The slot that the perturbed walk is at after `n` steps.
pub open spec fn walk_at(hash: usize, capacity: nat, n: nat) -> nat
    decreases n,
{
    if n == 0 {
        hash as nat % capacity
    } else {
        ((5 * walk_at(hash, capacity, (n - 1) as nat) + 1 + perturb_at(hash, n)) % (
        capacity as int)) as nat
    }
}

/// The number of slots for which the probe order follows the perturbed walk.
pub open spec fn walk_len(capacity: nat) -> nat {
    capacity + SETTLE_STEPS as nat
}

/// The length of the probe order.
pub open spec fn probe_len(capacity: nat) -> nat {
    walk_len(capacity) + capacity
}

/// The `n`-th slot of the probe order, for `n < probe_len(capacity)`.
pub open spec fn probe_at(hash: usize, capacity: nat, n: nat) -> nat {
    if n < walk_len(capacity) {
        walk_at(hash, capacity, n)
    } else {
        (n - walk_len(capacity)) as nat
    }
}

/// Every slot of the probe order lies in the table.
pub proof fn lemma_probe_in_table(hash: usize, capacity: nat, n: nat)
    requires
        capacity > 0,
        n < probe_len(capacity),
    ensures
        probe_at(hash, capacity, n) < capacity,
{
    if n < walk_len(capacity) {
        lemma_walk_in_table(hash, capacity, n);
    }
}

/// Every slot of the perturbed walk lies in the table.
pub proof fn lemma_walk_in_table(hash: usize, capacity: nat, n: nat)
    requires
        capacity > 0,
    ensures
        walk_at(hash, capacity, n) < capacity,
{
    reveal_with_fuel(walk_at, 2);
}

/// The probe order reaches every slot of the table.
pub proof fn lemma_probe_reaches(hash: usize, capacity: nat, slot: nat)
    requires
        slot < capacity,
    ensures
        walk_len(capacity) + slot < probe_len(capacity),
        probe_at(hash, capacity, walk_len(capacity) + slot) == slot,
{
}

/// The first slot of the probe order.
pub fn first_index(hash: usize, capacity: usize) -> (index: usize)
    requires
        capacity > 0,
    ensures
        index == probe_at(hash, capacity as nat, 0),
        index < capacity,
{
    hash % capacity
}

/// One step of the perturbed walk: the next values of `index` and `perturb`.
pub fn step(index: usize, perturb: usize, capacity: usize) -> (next: (usize, usize))
    requires
        index < capacity,
    ensures
        next.1 == perturb >> PERTURB_SHIFT,
        next.0 == (5 * index + 1 + next.1) % (capacity as int),
        next.0 < capacity,
{
    let decayed: usize = perturb >> PERTURB_SHIFT;
    let wide: u128 = 5 * (index as u128) + 1 + (decayed as u128);
    let index: u128 = wide % (capacity as u128);
    (index as usize, decayed)
}

/// A position in the probe order of one hash in one table.
pub struct Cursor {
    /// The hash whose probe order this is.
    pub hash: usize,
    /// How many slots of the order lie before this one.
    pub round: u128,
    /// The slot at this position.
    pub index: usize,
    /// `perturb` at this position, while the walk lasts.
    pub perturb: usize,
}

impl Cursor {
    /// The cursor stands at position `n` of the probe order of its hash in a
    /// table of `capacity` slots.
    pub open spec fn at(&self, capacity: nat, n: nat) -> bool {
        &&& self.round == n
        &&& n < probe_len(capacity)
        &&& self.index == probe_at(self.hash, capacity, n)
        &&& self.index < capacity
        &&& n < walk_len(capacity) ==> self.perturb == perturb_at(self.hash, n)
    }

    /// The cursor at the start of the probe order of `hash`.
    pub fn start(hash: usize, capacity: usize) -> (cursor: Cursor)
        requires
            capacity > 0,
        ensures
            cursor.hash == hash,
            cursor.at(capacity as nat, 0),
    {
        Cursor { hash, round: 0, index: first_index(hash, capacity), perturb: hash }
    }

    /// Moves to the next position; `false` when the order has ended, and the
    /// cursor then stays where it was.
    pub fn advance(&mut self, capacity: usize) -> (more: bool)
        requires
            old(self).at(capacity as nat, old(self).round as nat),
        ensures
            more == (old(self).round + 1 < probe_len(capacity as nat)),
            more ==> final(self).at(capacity as nat, (old(self).round + 1) as nat),
            final(self).hash == old(self).hash,
            !more ==> *final(self) == *old(self),
    {
        let walk: u128 = capacity as u128 + SETTLE_STEPS;
        let next: u128 = self.round + 1;
        if next >= walk + capacity as u128 {
            return false;
        }
        if next < walk {
            let (index, perturb) = step(self.index, self.perturb, capacity);
            self.index = index;
            self.perturb = perturb;
        } else {
            self.index = (next - walk) as usize;
        }
        self.round = next;
        true
    }
}

} // verus!
