//! An associative container built as an open-addressed hash table.
//!
//! [`dictionary::Dictionary`] maps keys to values. Its entries live in a
//! table of slots ([`table`]), found along a probe order ([`probe`]) that
//! starts at the key's hash ([`key`]).
pub mod dictionary;
pub mod key;
pub mod laws;
pub mod probe;
pub mod render;
pub mod table;

pub use crate::dictionary::Dictionary;
use vstd::prelude::*;
use vstd::std_specs::cmp::PartialEqSpec;

verus! {

/// The mapping of the sample dictionary.
pub open spec fn sample_map() -> Map<u8, u8> {
    map![1u8 => 6u8, 2u8 => 7u8, 3u8 => 8u8, 4u8 => 9u8, 5u8 => 0u8]
}

/// The sample dictionary: the keys one to five, each with a digit.
pub fn create_dict() -> (dict: Dictionary<u8, u8>)
    ensures
        dict.wf(),
        dict@ == sample_map(),
        dict.size() == 5,
        dict.capacity() == 14,
{
    let tuples: Vec<(u8, u8)> = vec![(1, 6), (2, 7), (3, 8), (4, 9), (5, 0)];
    let dict = Dictionary::from_tuples(tuples);
    proof {
        reveal_with_fuel(crate::dictionary::collected, 6);
        assert(dict@ =~= sample_map());
        assert(dict@.dom() =~= set![1u8, 2u8, 3u8, 4u8, 5u8]);
    }
    dict
}

/// Some element of `items` is equal to `item`.
pub open spec fn occurs_in<T: PartialEq>(items: Seq<T>, item: T) -> bool {
    exists|j: int| 0 <= j < items.len() && item.eq_spec(&#[trigger] items[j])
}

/// Every element of `first` is equal to some element of `second`.
pub open spec fn all_occur_in<T: PartialEq>(first: Seq<T>, second: Seq<T>) -> bool {
    forall|i: int| 0 <= i < first.len() ==> occurs_in(second, #[trigger] first[i])
}

/// Tells whether `items` has an element equal to `item`.
fn has_element<T: PartialEq>(items: &Vec<T>, item: &T) -> (found: bool)
    ensures
        T::obeys_eq_spec() ==> found == occurs_in(items@, *item),
{
    let mut at: usize = 0;
    while at < items.len()
        invariant
            at <= items.len(),
            T::obeys_eq_spec() ==> forall|j: int| 0 <= j < at ==> !item.eq_spec(&#[trigger] items@[j]),
        decreases items.len() - at,
    {
        if *item == items[at] {
            return true;
        }
        at = at + 1;
    }
    false
}

/// Tells whether every element of `vec1` is equal to some element of `vec2`.
pub fn has_same_elements<T: PartialEq>(vec1: &Vec<T>, vec2: &Vec<T>) -> (same: bool)
    ensures
        T::obeys_eq_spec() ==> same == all_occur_in(vec1@, vec2@),
{
    let mut at: usize = 0;
    while at < vec1.len()
        invariant
            at <= vec1.len(),
            T::obeys_eq_spec() ==> forall|i: int|
                0 <= i < at ==> occurs_in(vec2@, #[trigger] vec1@[i]),
        decreases vec1.len() - at,
    {
        if !has_element(vec2, &vec1[at]) {
            return false;
        }
        at = at + 1;
    }
    true
}

} // verus!
