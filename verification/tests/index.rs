use ahash::RandomState;
use sized_cache::hash_index::hash_at;
use sized_cache::hash_index::hash_of;
use sized_cache::hash_index::key_at_is;
use sized_cache::LRUList;

#[test]
fn hash_of_is_the_hash_of_the_state() {
    let state = RandomState::new();
    for key in [0u64, 1, 5, 1 << 40, u64::MAX] {
        let h = hash_of(&state, &key);
        assert_eq!(h, state.hash_one(&key));
        assert_eq!(h, hash_of(&state, &key));
    }
    let spread: Vec<u64> = (0..64u64).map(|k| hash_of(&state, &k)).collect();
    let same_as_key = spread.iter().enumerate().filter(|(k, h)| *k as u64 == **h).count();
    assert!(same_as_key < 64);
    let mut distinct = spread.clone();
    distinct.sort();
    distinct.dedup();
    assert!(distinct.len() > 32);
}

#[test]
fn hash_of_goes_by_the_value_of_the_key() {
    let state = RandomState::new();
    let a = String::from("recency");
    let b = format!("{}{}", "rec", "ency");
    assert_eq!(hash_of(&state, &a), hash_of(&state, &b));
    assert_ne!(hash_of(&state, &a), hash_of(&state, &String::from("latency")));
}

#[test]
fn states_made_apart_hash_apart() {
    let one = RandomState::new();
    let two = RandomState::new();
    let differ = (0..64u64).filter(|k| hash_of(&one, k) != hash_of(&two, k)).count();
    assert!(differ > 0);
    let copy = one.clone();
    for k in 0..64u64 {
        assert_eq!(hash_of(&one, &k), hash_of(&copy, &k));
    }
}

#[test]
fn hash_at_hashes_the_key_in_the_slot() {
    let state = RandomState::new();
    let mut order: LRUList<(u64, u64)> = LRUList::with_capacity(2);
    let a = order.push_front((7, 70));
    let b = order.push_front((8, 80));
    assert_eq!(hash_at(&order, &state, a), hash_of(&state, &7u64));
    assert_eq!(hash_at(&order, &state, b), hash_of(&state, &8u64));
    order.set(a, (9, 90));
    assert_eq!(hash_at(&order, &state, a), hash_of(&state, &9u64));
}

#[test]
fn key_at_is_compares_the_key_in_the_slot() {
    let mut order: LRUList<(u64, u64)> = LRUList::with_capacity(2);
    let a = order.push_front((7, 70));
    let b = order.push_front((8, 80));
    assert!(key_at_is(&order, a, &7));
    assert!(!key_at_is(&order, a, &8));
    assert!(key_at_is(&order, b, &8));
    assert!(!key_at_is(&order, b, &70));
}
