//! Keys of the dictionary: what the table needs from a key type, and the
//! key types that come with the library.
//!
//! The table compares keys, copies them, and hashes them. A key's hash is
//! modelled as a mathematical function of the key, `spec_hash`, so that the
//! slot a key is looked up in is the slot it was stored in.
use std::collections::hash_map::DefaultHasher;
use std::hash::{Hash, Hasher};
use vstd::prelude::*;
use vstd::std_specs::hash::DefaultHasherAdditionalSpecFns;

verus! {

/// A type that can key a [`crate::dictionary::Dictionary`].
pub trait HashKey: Sized {
    /// The hash of the key, as a function of the key alone.
    spec fn spec_hash(&self) -> usize;

    /// Computes the hash of the key.
    fn hash_code(&self) -> (h: usize)
        ensures
            h == self.spec_hash(),
    ;

    /// Tells whether two keys are the same key.
    fn same(&self, other: &Self) -> (b: bool)
        ensures
            b == (*self == *other),
    ;

    /// Makes an owned copy of the key.
    fn duplicate(&self) -> (c: Self)
        ensures
            c == *self,
    ;
}

/// The writes that hashing a `u8` sends to a hasher.
pub uninterp spec fn u8_hash_writes(k: u8) -> Seq<Seq<u8>>;

/// The writes that hashing a `u16` sends to a hasher.
pub uninterp spec fn u16_hash_writes(k: u16) -> Seq<Seq<u8>>;

/// The writes that hashing a `u32` sends to a hasher.
pub uninterp spec fn u32_hash_writes(k: u32) -> Seq<Seq<u8>>;

/// The writes that hashing a `u64` sends to a hasher.
pub uninterp spec fn u64_hash_writes(k: u64) -> Seq<Seq<u8>>;

/// The writes that hashing a `usize` sends to a hasher.
pub uninterp spec fn usize_hash_writes(k: usize) -> Seq<Seq<u8>>;

/// Trusted: `<u8 as Hash>::hash` with a `DefaultHasher`. The contract claims
/// that the call appends writes to the hasher's state, and that which writes
/// it appends depends on the key alone.
#[verifier::external_body]
fn feed_u8(k: &u8, state: &mut DefaultHasher)
    ensures
        final(state)@ == old(state)@ + u8_hash_writes(*k),
{
    k.hash(state)
}

/// Trusted: `<u16 as Hash>::hash` with a `DefaultHasher`. The contract claims
/// that the call appends writes to the hasher's state, and that which writes
/// it appends depends on the key alone.
#[verifier::external_body]
fn feed_u16(k: &u16, state: &mut DefaultHasher)
    ensures
        final(state)@ == old(state)@ + u16_hash_writes(*k),
{
    k.hash(state)
}

/// Trusted: `<u32 as Hash>::hash` with a `DefaultHasher`. The contract claims
/// that the call appends writes to the hasher's state, and that which writes
/// it appends depends on the key alone.
#[verifier::external_body]
fn feed_u32(k: &u32, state: &mut DefaultHasher)
    ensures
        final(state)@ == old(state)@ + u32_hash_writes(*k),
{
    k.hash(state)
}

/// Trusted: `<u64 as Hash>::hash` with a `DefaultHasher`. The contract claims
/// that the call appends writes to the hasher's state, and that which writes
/// it appends depends on the key alone.
#[verifier::external_body]
fn feed_u64(k: &u64, state: &mut DefaultHasher)
    ensures
        final(state)@ == old(state)@ + u64_hash_writes(*k),
{
    k.hash(state)
}

/// Trusted: `<usize as Hash>::hash` with a `DefaultHasher`. The contract
/// claims that the call appends writes to the hasher's state, and that which
/// writes it appends depends on the key alone.
#[verifier::external_body]
fn feed_usize(k: &usize, state: &mut DefaultHasher)
    ensures
        final(state)@ == old(state)@ + usize_hash_writes(*k),
{
    k.hash(state)
}

/// The hash that a fresh `DefaultHasher` gives after the writes `writes`,
/// cut to the width of a slot index.
pub open spec fn digest(writes: Seq<Seq<u8>>) -> usize {
    DefaultHasher::spec_finish(Seq::<Seq<u8>>::empty() + writes) as usize
}

/// Reads the hash out of a hasher and cuts it to the width of a slot index.
fn finish_hash(state: &DefaultHasher) -> (h: usize)
    ensures
        h == DefaultHasher::spec_finish(state@) as usize,
{
    #[verifier::truncate]
    let h: usize = state.finish() as usize;
    h
}

impl HashKey for u8 {
    open spec fn spec_hash(&self) -> usize {
        digest(u8_hash_writes(*self))
    }

    fn hash_code(&self) -> (h: usize) {
        let mut state = DefaultHasher::new();
        feed_u8(self, &mut state);
        finish_hash(&state)
    }

    fn same(&self, other: &Self) -> (b: bool) {
        *self == *other
    }

    fn duplicate(&self) -> (c: Self) {
        *self
    }
}

impl HashKey for u16 {
    open spec fn spec_hash(&self) -> usize {
        digest(u16_hash_writes(*self))
    }

    fn hash_code(&self) -> (h: usize) {
        let mut state = DefaultHasher::new();
        feed_u16(self, &mut state);
        finish_hash(&state)
    }

    fn same(&self, other: &Self) -> (b: bool) {
        *self == *other
    }

    fn duplicate(&self) -> (c: Self) {
        *self
    }
}

impl HashKey for u32 {
    open spec fn spec_hash(&self) -> usize {
        digest(u32_hash_writes(*self))
    }

    fn hash_code(&self) -> (h: usize) {
        let mut state = DefaultHasher::new();
        feed_u32(self, &mut state);
        finish_hash(&state)
    }

    fn same(&self, other: &Self) -> (b: bool) {
        *self == *other
    }

    fn duplicate(&self) -> (c: Self) {
        *self
    }
}

impl HashKey for u64 {
    open spec fn spec_hash(&self) -> usize {
        digest(u64_hash_writes(*self))
    }

    fn hash_code(&self) -> (h: usize) {
        let mut state = DefaultHasher::new();
        feed_u64(self, &mut state);
        finish_hash(&state)
    }

    fn same(&self, other: &Self) -> (b: bool) {
        *self == *other
    }

    fn duplicate(&self) -> (c: Self) {
        *self
    }
}

impl HashKey for usize {
    open spec fn spec_hash(&self) -> usize {
        digest(usize_hash_writes(*self))
    }

    fn hash_code(&self) -> (h: usize) {
        let mut state = DefaultHasher::new();
        feed_usize(self, &mut state);
        finish_hash(&state)
    }

    fn same(&self, other: &Self) -> (b: bool) {
        *self == *other
    }

    fn duplicate(&self) -> (c: Self) {
        *self
    }
}

} // verus!
