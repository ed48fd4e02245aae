use dictionary::key::HashKey;
use dictionary::probe::{first_index, step, Cursor};
use std::collections::hash_map::DefaultHasher;
use std::hash::{Hash, Hasher};

fn std_hash<T: Hash>(key: &T) -> usize {
    let mut state = DefaultHasher::new();
    key.hash(&mut state);
    state.finish() as usize
}

#[test]
fn u8_hash_is_the_default_hash() {
    for k in [0u8, 1, 2, 77, 255] {
        assert_eq!(k.hash_code(), std_hash(&k));
    }
    assert_ne!(1u8.hash_code(), 2u8.hash_code());
    assert_ne!(0u8.hash_code(), DefaultHasher::new().finish() as usize);
}

#[test]
fn u16_hash_is_the_default_hash() {
    for k in [0u16, 1, 2, 777, u16::MAX] {
        assert_eq!(k.hash_code(), std_hash(&k));
    }
    assert_ne!(1u16.hash_code(), 2u16.hash_code());
    assert_ne!(0u16.hash_code(), DefaultHasher::new().finish() as usize);
}

#[test]
fn u32_hash_is_the_default_hash() {
    for k in [0u32, 1, 2, 77_777, u32::MAX] {
        assert_eq!(k.hash_code(), std_hash(&k));
    }
    assert_ne!(1u32.hash_code(), 2u32.hash_code());
    assert_ne!(0u32.hash_code(), DefaultHasher::new().finish() as usize);
}

#[test]
fn u64_hash_is_the_default_hash() {
    for k in [0u64, 1, 2, 7_777_777_777, u64::MAX] {
        assert_eq!(k.hash_code(), std_hash(&k));
    }
    assert_ne!(1u64.hash_code(), 2u64.hash_code());
    assert_ne!(0u64.hash_code(), DefaultHasher::new().finish() as usize);
}

#[test]
fn usize_hash_is_the_default_hash() {
    for k in [0usize, 1, 2, 7_777_777, usize::MAX] {
        assert_eq!(k.hash_code(), std_hash(&k));
    }
    assert_ne!(1usize.hash_code(), 2usize.hash_code());
    assert_ne!(0usize.hash_code(), DefaultHasher::new().finish() as usize);
}

#[test]
fn keys_compare_and_copy() {
    assert!(5u8.same(&5));
    assert!(!5u8.same(&6));
    assert!(5usize.same(&5));
    assert!(!5u64.same(&6));
    assert_eq!(9u16.duplicate(), 9);
    assert_eq!(9u32.duplicate(), 9);
}

#[test]
fn probe_order_starts_at_the_hash_modulo_the_capacity() {
    assert_eq!(first_index(1000, 8), 0);
    assert_eq!(first_index(1003, 8), 3);
    assert_eq!(first_index(5, 7), 5);
    assert_eq!(first_index(usize::MAX, 1), 0);
}

#[test]
fn step_follows_the_formula() {
    assert_eq!(step(0, 1000, 8), (0, 31));
    assert_eq!(step(0, 31, 8), (1, 0));
    assert_eq!(step(1, 0, 8), (6, 0));
    assert_eq!(step(6, 0, 8), (7, 0));
    assert_eq!(step(5, 0, 7), (5, 0));
    assert_eq!(step(3, 64, 10), (8, 2));
}

#[test]
fn step_does_not_overflow() {
    let capacity = usize::MAX;
    let (index, perturb) = step(capacity - 1, usize::MAX, capacity);
    let wide = (5 * (capacity as u128 - 1) + 1 + (usize::MAX >> 5) as u128) % capacity as u128;
    assert_eq!(index as u128, wide);
    assert_eq!(perturb, usize::MAX >> 5);
}

#[test]
fn probe_order_walks_then_sweeps() {
    let mut cursor = Cursor::start(1000, 8);
    let mut seen: Vec<usize> = vec![cursor.index];
    while cursor.advance(8) {
        seen.push(cursor.index);
    }
    let walk: Vec<usize> = vec![0, 0, 1, 6, 7, 4, 5, 2, 3, 0, 1, 6, 7, 4, 5, 2, 3, 0, 1, 6, 7];
    let sweep: Vec<usize> = vec![0, 1, 2, 3, 4, 5, 6, 7];
    assert_eq!(seen.len(), 29);
    assert_eq!(seen[..21], walk[..]);
    assert_eq!(seen[21..], sweep[..]);
    assert!(!cursor.advance(8));
    assert_eq!(cursor.index, 7);
}

#[test]
fn probe_order_reaches_every_slot_of_any_capacity() {
    for capacity in 1..30usize {
        for hash in [0usize, 5, 1000, usize::MAX] {
            let mut cursor = Cursor::start(hash, capacity);
            let mut reached = vec![false; capacity];
            reached[cursor.index] = true;
            let mut count = 1;
            while cursor.advance(capacity) {
                reached[cursor.index] = true;
                count += 1;
            }
            assert_eq!(count, 2 * capacity + 13);
            assert!(reached.iter().all(|r| *r));
        }
    }
}
