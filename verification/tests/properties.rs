use dictionary::dictionary::{bulk_capacity, load_limit, zip, ConstructionError};
use dictionary::key::HashKey;
use dictionary::probe::first_index;
use dictionary::{create_dict, has_same_elements, Dictionary};

/// Two keys, neither in `taken`, whose probe orders start in the same slot
/// of a table of `capacity` slots.
fn colliding_pair(capacity: usize, taken: &[u64]) -> (u64, u64) {
    let mut first_seen: Vec<Option<u64>> = vec![None; capacity];
    let mut key: u64 = 1000;
    loop {
        if !taken.contains(&key) {
            let slot = first_index(key.hash_code(), capacity);
            match first_seen[slot] {
                Some(earlier) => return (earlier, key),
                None => first_seen[slot] = Some(key),
            }
        }
        key += 1;
    }
}

#[test]
fn value_is_read_back_after_other_changes() {
    let mut d: Dictionary<u32, u32> = Dictionary::new();
    d.insert(7, 70);
    assert_eq!(d.get(&7), Ok(70));
    for k in 100..200u32 {
        d.insert(k, k + 1);
        assert_eq!(d.get(&7), Ok(70));
    }
    for k in 100..200u32 {
        assert_eq!(d.remove(&k), Some((k, k + 1)));
        assert_eq!(d.get(&7), Ok(70));
    }
    assert_eq!(d.size(), 1);
}

#[test]
fn second_value_replaces_first() {
    let mut d: Dictionary<u8, u8> = Dictionary::new();
    d.insert(1, 2);
    d.insert(1, 3);
    assert_eq!(d.get(&1), Ok(3));
    assert_eq!(d.size(), 1);
    assert_eq!(d.capacity(), 8);
    assert_eq!(d.keys(), vec![&1]);
}

#[test]
fn storing_one_key_often_never_grows_the_table() {
    let mut d: Dictionary<u8, u32> = Dictionary::with_capacity(4);
    for round in 0..50u32 {
        d.insert(9, round);
    }
    assert_eq!(d.size(), 1);
    assert_eq!(d.capacity(), 4);
    assert_eq!(d.get(&9), Ok(49));
}

#[test]
fn removed_key_is_gone() {
    let mut d = create_dict();
    assert_eq!(d.remove(&3), Some((3, 8)));
    assert!(!d.contains(&3));
    assert_eq!(d.get(&3), Err("Key does not exist".to_string()));
    assert_eq!(d.remove(&3), None);
    assert_eq!(d.size(), 4);
}

#[test]
fn removing_an_absent_key_changes_no_entry() {
    let mut d = create_dict();
    assert_eq!(d.remove(&42), None);
    assert_eq!(d.size(), 5);
    assert_eq!(d.capacity(), 14);
    for (k, v) in [(1u8, 6u8), (2, 7), (3, 8), (4, 9), (5, 0)] {
        assert_eq!(d.get(&k), Ok(v));
    }
}

#[test]
fn removing_from_a_sparse_table_halves_it_even_without_a_hit() {
    let mut d: Dictionary<u8, u8> = Dictionary::new();
    assert_eq!(d.remove(&1), None);
    assert_eq!(d.capacity(), 4);
    assert_eq!(d.remove(&1), None);
    assert_eq!(d.capacity(), 2);
    assert_eq!(d.remove(&1), None);
    assert_eq!(d.capacity(), 2);
    d.insert(1, 1);
    assert_eq!(d.get(&1), Ok(1));
}

#[test]
fn table_doubles_once_two_thirds_are_passed() {
    let mut d: Dictionary<u16, u16> = Dictionary::with_capacity(3);
    d.insert(10, 1);
    d.insert(20, 2);
    assert_eq!(d.capacity(), 3);
    d.insert(30, 3);
    assert_eq!(d.capacity(), 6);
    d.insert(40, 4);
    assert_eq!(d.capacity(), 6);
    d.insert(50, 5);
    assert_eq!(d.capacity(), 12);
    for (k, v) in [(10u16, 1u16), (20, 2), (30, 3), (40, 4), (50, 5)] {
        assert_eq!(d.get(&k), Ok(v));
    }
    assert_eq!(d.size(), 5);
}

#[test]
fn many_keys_stay_within_two_thirds() {
    let mut d: Dictionary<usize, usize> = Dictionary::with_capacity(1);
    for k in 0..500usize {
        d.insert(k, k * 2);
        assert!(d.size() <= load_limit(d.capacity()));
    }
    assert_eq!(d.size(), 500);
    assert_eq!(d.capacity(), 1024);
    for k in 0..500usize {
        assert_eq!(d.get(&k), Ok(k * 2));
    }
}

#[test]
fn table_halves_below_one_third() {
    let mut d = create_dict();
    assert_eq!(d.capacity(), 14);
    d.remove(&1);
    assert_eq!(d.size(), 4);
    assert_eq!(d.capacity(), 14);
    d.remove(&2);
    assert_eq!(d.size(), 3);
    assert_eq!(d.capacity(), 7);
    for (k, v) in [(3u8, 8u8), (4, 9), (5, 0)] {
        assert_eq!(d.get(&k), Ok(v));
    }
    assert!(!d.contains(&1));
    assert!(!d.contains(&2));
}

#[test]
fn capacity_never_falls_to_zero() {
    let mut d: Dictionary<u8, u8> = Dictionary::with_capacity(3);
    d.insert(1, 1);
    assert_eq!(d.remove(&1), Some((1, 1)));
    assert_eq!(d.capacity(), 1);
    assert_eq!(d.remove(&1), None);
    assert_eq!(d.capacity(), 1);
    d.insert(2, 2);
    assert_eq!(d.capacity(), 2);
    assert_eq!(d.get(&2), Ok(2));
}

#[test]
fn tombstone_does_not_end_the_search() {
    let (first, second) = colliding_pair(8, &[]);
    let (third, fourth) = colliding_pair(8, &[first, second]);
    let mut d: Dictionary<u64, u64> = Dictionary::new();
    d.insert(first, 1);
    d.insert(second, 2);
    d.insert(third, 3);
    d.insert(fourth, 4);
    assert_eq!(d.capacity(), 8);
    let home = first_index(first.hash_code(), 8);
    assert_eq!(d.lookup(&first), Some((first, 1, home)));
    let (_, _, slot_of_second) = d.lookup(&second).unwrap();
    assert_ne!(slot_of_second, home);

    assert_eq!(d.remove(&first), Some((first, 1)));
    assert_eq!(d.capacity(), 8);
    assert_eq!(d.get(&second), Ok(2));
    assert_eq!(d.lookup(&second), Some((second, 2, slot_of_second)));
}

#[test]
fn stored_again_behind_a_tombstone_the_key_keeps_one_entry() {
    let (first, second) = colliding_pair(8, &[]);
    let (third, fourth) = colliding_pair(8, &[first, second]);
    let mut d: Dictionary<u64, u64> = Dictionary::new();
    d.insert(first, 1);
    d.insert(second, 2);
    d.insert(third, 3);
    d.insert(fourth, 4);
    let (_, _, slot_of_second) = d.lookup(&second).unwrap();
    d.remove(&first);

    d.insert(second, 20);
    assert_eq!(d.size(), 3);
    assert_eq!(d.lookup(&second), Some((second, 20, slot_of_second)));
    assert_eq!(d.keys().len(), 3);
    assert_eq!(d.remove(&second), Some((second, 20)));
    assert!(!d.contains(&second));
    assert_eq!(d.get(&third), Ok(3));
    assert_eq!(d.get(&fourth), Ok(4));
}

#[test]
fn new_key_takes_the_first_tombstone_on_its_way() {
    let (first, second) = colliding_pair(8, &[]);
    let (third, fourth) = colliding_pair(8, &[first, second]);
    let mut d: Dictionary<u64, u64> = Dictionary::new();
    d.insert(first, 1);
    d.insert(second, 2);
    d.insert(third, 3);
    d.insert(fourth, 4);
    let home = first_index(first.hash_code(), 8);
    d.remove(&first);

    let mut newcomer: u64 = 5000;
    while first_index(newcomer.hash_code(), 8) != home
        || [first, second, third, fourth].contains(&newcomer)
    {
        newcomer += 1;
    }
    d.insert(newcomer, 5);
    assert_eq!(d.lookup(&newcomer), Some((newcomer, 5, home)));
    assert_eq!(d.get(&second), Ok(2));
    assert_eq!(d.size(), 4);
}

#[test]
fn searches_end_in_a_table_of_tombstones() {
    let mut d: Dictionary<u32, u32> = Dictionary::with_capacity(2);
    for k in 0..200u32 {
        d.insert(k, k);
        assert_eq!(d.get(&k), Ok(k));
        assert_eq!(d.remove(&k), Some((k, k)));
        assert!(!d.contains(&k));
        assert!(!d.contains(&(k + 1000)));
        assert_eq!(d.capacity(), 2);
        assert_eq!(d.size(), 0);
    }
}

#[test]
fn every_capacity_finds_what_it_stores() {
    for capacity in 1..40usize {
        let mut d: Dictionary<u16, u16> = Dictionary::with_capacity(capacity);
        for k in 0..60u16 {
            d.insert(k, k + 1);
        }
        for k in 0..60u16 {
            if k % 3 == 0 {
                assert_eq!(d.remove(&k), Some((k, k + 1)));
            }
        }
        for k in 0..60u16 {
            if k % 3 == 0 {
                assert_eq!(d.get(&k), Err("Key does not exist".to_string()));
            } else {
                assert_eq!(d.get(&k), Ok(k + 1));
            }
        }
        assert_eq!(d.size(), 40);
        assert_eq!(d.keys().len(), 40);
    }
}

#[test]
fn zero_capacity_is_refused() {
    let made: Result<Dictionary<u8, u8>, ConstructionError> = Dictionary::try_with_capacity(0);
    assert!(matches!(made, Err(ConstructionError::ZeroCapacity)));
    let made: Result<Dictionary<u8, u8>, ConstructionError> = Dictionary::try_with_capacity(16);
    assert_eq!(made.ok().map(|d| (d.capacity(), d.size())), Some((16, 0)));
}

#[test]
fn no_pairs_are_refused() {
    let tuples: Vec<(u8, u8)> = Vec::new();
    let made = Dictionary::try_from_tuples(tuples);
    assert!(matches!(made, Err(ConstructionError::EmptyInput)));
    let made = Dictionary::try_from_tuples(vec![(1u8, 2u8), (3, 4)]);
    assert_eq!(made.ok().map(|d| d.get(&3)), Some(Ok(4)));
}

#[test]
fn vecs_of_different_length_are_refused() {
    let made = Dictionary::try_from_vecs(vec![1usize, 2, 3], vec![1usize, 2]);
    assert!(matches!(made, Err(ConstructionError::LengthMismatch)));
    let made = Dictionary::try_from_vecs(vec![1usize, 2, 3, 4], vec![5usize, 6, 7]);
    assert!(matches!(made, Err(ConstructionError::LengthMismatch)));
    let made = Dictionary::try_from_vecs(vec![1usize], Vec::<usize>::new());
    assert!(matches!(made, Err(ConstructionError::LengthMismatch)));
}

#[test]
fn empty_vecs_are_refused() {
    let made = Dictionary::try_from_vecs(Vec::<u8>::new(), Vec::<u8>::new());
    assert!(matches!(made, Err(ConstructionError::EmptyInput)));
    let made = Dictionary::try_from_vecs(vec![1u8, 2], vec![6u8, 7]);
    assert_eq!(made.ok().map(|d| (d.get(&1), d.get(&2), d.size())), Some((Ok(6), Ok(7), 2)));
}

#[test]
fn enumeration_is_complete() {
    let d = create_dict();
    let mut keys: Vec<u8> = d.keys().into_iter().map(|k| *k).collect();
    keys.sort();
    assert_eq!(keys, vec![1, 2, 3, 4, 5]);
    let mut values: Vec<u8> = d.values().into_iter().map(|v| *v).collect();
    values.sort();
    assert_eq!(values, vec![0, 6, 7, 8, 9]);
    let mut items: Vec<(u8, u8)> = d.items().into_iter().map(|(k, v)| (*k, *v)).collect();
    items.sort();
    assert_eq!(items, vec![(1, 6), (2, 7), (3, 8), (4, 9), (5, 0)]);
}

#[test]
fn keys_values_and_items_share_one_order() {
    let d = create_dict();
    let keys = d.keys();
    let values = d.values();
    let items = d.items();
    assert_eq!(items.len(), 5);
    for at in 0..items.len() {
        assert_eq!(items[at], (keys[at], values[at]));
    }
}

#[test]
fn later_pair_wins() {
    let d = Dictionary::from_tuples(vec![(1u8, 10u8), (2, 20), (1, 30)]);
    assert_eq!(d.get(&1), Ok(30));
    assert_eq!(d.get(&2), Ok(20));
    assert_eq!(d.size(), 2);
    let d = Dictionary::from_vecs(vec![1u8, 2, 1], vec![10u8, 20, 30]);
    assert_eq!(d.get(&1), Ok(30));
    assert_eq!(d.get(&2), Ok(20));
    assert_eq!(d.size(), 2);
}

#[test]
fn bulk_capacity_is_one_and_a_half_times_the_count() {
    assert_eq!(bulk_capacity(1), 1);
    assert_eq!(bulk_capacity(2), 4);
    assert_eq!(bulk_capacity(5), 7);
    assert_eq!(bulk_capacity(10), 16);
    let d = Dictionary::from_tuples(vec![(1u8, 1u8), (2, 2)]);
    assert_eq!(d.capacity(), 4);
    let d = Dictionary::from_tuples(vec![(1u8, 1u8), (2, 2), (3, 3), (4, 4), (5, 5)]);
    assert_eq!(d.capacity(), 14);
    let d = Dictionary::from_tuples(vec![(1u8, 1u8), (1, 2), (1, 3), (1, 4), (1, 5)]);
    assert_eq!(d.capacity(), 7);
    assert_eq!(d.size(), 1);
}

#[test]
fn load_limit_is_two_thirds_rounded_down() {
    assert_eq!(load_limit(1), 0);
    assert_eq!(load_limit(2), 1);
    assert_eq!(load_limit(3), 2);
    assert_eq!(load_limit(4), 2);
    assert_eq!(load_limit(7), 4);
    assert_eq!(load_limit(8), 5);
    assert_eq!(load_limit(usize::MAX), usize::MAX / 3 * 2);
}

#[test]
fn zip_pairs_by_place() {
    assert_eq!(zip(vec![1u8, 2, 3], vec!['a', 'b', 'c']), vec![(1, 'a'), (2, 'b'), (3, 'c')]);
    assert_eq!(zip(Vec::<u8>::new(), Vec::<u8>::new()), Vec::new());
}

#[test]
fn clear_starts_over() {
    let mut d = create_dict();
    d.clear();
    assert_eq!(d.size(), 0);
    assert_eq!(d.capacity(), 8);
    assert!(!d.contains(&1));
    assert!(d.keys().is_empty());
}

#[test]
fn lookup_hands_back_key_value_and_slot() {
    let mut d: Dictionary<u64, u64> = Dictionary::with_capacity(16);
    d.insert(77, 5);
    let home = first_index(77u64.hash_code(), 16);
    assert_eq!(d.lookup(&77), Some((77, 5, home)));
    assert_eq!(d.lookup(&78), None);
    assert_eq!(d.get_hash(&77), 77u64.hash_code());
}

#[test]
fn not_every_element_occurs() {
    assert!(!has_same_elements(&vec![1u8, 2, 9], &vec![1u8, 2, 3]));
    assert!(has_same_elements(&vec![1u8, 1, 2], &vec![2u8, 1, 3]));
    assert!(has_same_elements(&Vec::<u8>::new(), &vec![1u8]));
    assert!(!has_same_elements(&vec![1u8], &Vec::<u8>::new()));
    assert!(has_same_elements(&vec![(1u8, 2u8)], &vec![(3u8, 4u8), (1, 2)]));
    assert!(!has_same_elements(&vec![(1u8, 3u8)], &vec![(3u8, 4u8), (1, 2)]));
}

#[test]
fn sample_dictionary_is_as_described() {
    let d = create_dict();
    assert_eq!(d.size(), 5);
    assert_eq!(d.capacity(), 14);
    for (k, v) in [(1u8, 6u8), (2, 7), (3, 8), (4, 9), (5, 0)] {
        assert_eq!(d.get(&k), Ok(v));
    }
    assert!(!d.contains(&6));
}
