use sized_cache::error::EINVAL;
use sized_cache::error::ENOMEM;
use sized_cache::hash_index::ReserveError;
use sized_cache::sized::Presence;
use sized_cache::sized::MAX_CAPACITY;
use sized_cache::SizeError;
use sized_cache::SizedCache;

fn keys(c: &SizedCache<u32, u32>) -> Vec<u32> {
    c.key_order().copied().collect()
}

fn entries(c: &SizedCache<u32, u32>) -> Vec<(u32, u32)> {
    c.iter_order().copied().collect()
}

fn filled(capacity: usize, upto: u32) -> SizedCache<u32, u32> {
    let mut c = SizedCache::with_size(capacity);
    for k in 1..=upto {
        c.cache_set(k, k * 10);
    }
    c
}

#[test]
fn new_cache_is_empty() {
    let c: SizedCache<u32, u32> = SizedCache::with_size(4);
    assert_eq!(c.cache_size(), 0);
    assert_eq!(c.cache_capacity(), Some(4));
    assert_eq!(c.cache_hits(), Some(0));
    assert_eq!(c.cache_misses(), Some(0));
    assert!(keys(&c).is_empty());
    assert!(c.store_capacity() >= 4);
}

#[test]
fn with_capacity_is_with_size() {
    let mut c: SizedCache<u32, u32> = SizedCache::with_capacity(2);
    assert_eq!(c.cache_capacity(), Some(2));
    c.cache_set(1, 1);
    c.cache_set(2, 2);
    c.cache_set(3, 3);
    assert_eq!(keys(&c), [3, 2]);
}

#[test]
fn size_never_passes_capacity() {
    let mut c: SizedCache<u32, u32> = SizedCache::with_size(3);
    for k in 0..50u32 {
        c.cache_set(k % 7, k);
        assert!(c.cache_size() <= 3);
        c.cache_set(k, k);
        assert!(c.cache_size() <= 3);
    }
    assert_eq!(c.cache_size(), 3);
    assert_eq!(c.cache_capacity(), Some(3));
}

#[test]
fn capacity_of_one_keeps_the_newest() {
    let mut c: SizedCache<u32, u32> = SizedCache::with_size(1);
    assert_eq!(c.cache_set(1, 10), None);
    assert_eq!(c.cache_set(2, 20), None);
    assert_eq!(entries(&c), [(2, 20)]);
    assert_eq!(c.cache_set(2, 21), Some(20));
    assert_eq!(entries(&c), [(2, 21)]);
    assert_eq!(c.cache_get(&1), None);
    assert_eq!(c.cache_get(&2), Some(&21));
}

#[test]
fn setting_a_present_key_adds_no_slot() {
    let mut c = filled(3, 3);
    for round in 0..10u32 {
        assert_eq!(c.cache_set(2, round), Some(if round == 0 { 20 } else { round - 1 }));
        assert_eq!(c.cache_size(), 3);
        assert_eq!(keys(&c), [3, 2, 1]);
    }
    // the next new key drops the oldest entry and nothing else
    assert_eq!(c.cache_set(4, 40), None);
    assert_eq!(entries(&c), [(4, 40), (3, 30), (2, 9)]);
    assert_eq!(c.cache_set(5, 50), None);
    assert_eq!(entries(&c), [(5, 50), (4, 40), (3, 30)]);
}

#[test]
fn get_moves_the_key_to_the_front() {
    let mut c = filled(4, 4);
    assert_eq!(keys(&c), [4, 3, 2, 1]);
    assert_eq!(c.cache_get(&2), Some(&20));
    assert_eq!(keys(&c), [2, 4, 3, 1]);
    assert_eq!(c.cache_get(&1), Some(&10));
    assert_eq!(keys(&c), [1, 2, 4, 3]);
    assert_eq!(c.cache_get(&1), Some(&10));
    assert_eq!(keys(&c), [1, 2, 4, 3]);
    assert_eq!(c.cache_get_mut(&3), Some(&mut 30));
    assert_eq!(keys(&c), [3, 1, 2, 4]);
}

#[test]
fn set_of_a_present_key_keeps_its_place() {
    let mut c = filled(3, 3);
    assert_eq!(c.cache_set(1, 11), Some(10));
    assert_eq!(entries(&c), [(3, 30), (2, 20), (1, 11)]);
    assert_eq!(c.cache_set(3, 31), Some(30));
    assert_eq!(entries(&c), [(3, 31), (2, 20), (1, 11)]);
    // so the key that was set, not touched, is still the first to go
    assert_eq!(c.cache_set(4, 40), None);
    assert_eq!(entries(&c), [(4, 40), (3, 31), (2, 20)]);
}

#[test]
fn set_of_a_new_key_puts_it_first() {
    let mut c = filled(3, 2);
    assert_eq!(c.cache_set(9, 90), None);
    assert_eq!(keys(&c), [9, 2, 1]);
}

#[test]
fn overflow_drops_the_least_recently_touched() {
    let mut c = filled(3, 3);
    assert!(c.cache_get(&1).is_some());
    assert!(c.cache_get(&2).is_some());
    // 3 is now the one touched longest ago
    assert_eq!(c.cache_set(4, 40), None);
    assert_eq!(keys(&c), [4, 2, 1]);
    assert_eq!(c.cache_get(&3), None);
    assert_eq!(c.cache_set(5, 50), None);
    assert_eq!(keys(&c), [5, 4, 2]);
}

#[test]
fn removing_an_absent_key_changes_nothing() {
    let mut c = filled(3, 3);
    assert!(c.cache_get(&1).is_some());
    let hits = c.cache_hits();
    let misses = c.cache_misses();
    assert_eq!(c.cache_remove(&7), None);
    assert_eq!(c.cache_size(), 3);
    assert_eq!(entries(&c), [(1, 10), (3, 30), (2, 20)]);
    assert_eq!(c.cache_hits(), hits);
    assert_eq!(c.cache_misses(), misses);
}

#[test]
fn removing_a_key_keeps_the_order_of_the_rest() {
    let mut c = filled(4, 4);
    assert_eq!(c.cache_remove(&3), Some(30));
    assert_eq!(entries(&c), [(4, 40), (2, 20), (1, 10)]);
    assert_eq!(c.cache_remove(&4), Some(40));
    assert_eq!(c.cache_remove(&1), Some(10));
    assert_eq!(entries(&c), [(2, 20)]);
    assert_eq!(c.cache_hits(), Some(0));
    assert_eq!(c.cache_misses(), Some(0));
    // the freed room is used again
    c.cache_set(5, 50);
    c.cache_set(6, 60);
    c.cache_set(7, 70);
    assert_eq!(keys(&c), [7, 6, 5, 2]);
    c.cache_set(8, 80);
    assert_eq!(keys(&c), [8, 7, 6, 5]);
}

#[test]
fn reset_metrics_leaves_the_entries() {
    let mut c = filled(3, 3);
    assert!(c.cache_get(&1).is_some());
    assert!(c.cache_get(&9).is_none());
    assert_eq!(c.cache_hits(), Some(1));
    assert_eq!(c.cache_misses(), Some(1));
    let before = entries(&c);
    c.cache_reset_metrics();
    assert_eq!(c.cache_hits(), Some(0));
    assert_eq!(c.cache_misses(), Some(0));
    assert_eq!(c.cache_size(), 3);
    assert_eq!(c.cache_capacity(), Some(3));
    assert_eq!(entries(&c), before);
    assert_eq!(c.cache_get(&2), Some(&20));
}

#[test]
fn clear_and_reset_keep_capacity_and_counters() {
    let mut c = filled(3, 3);
    assert!(c.cache_get(&1).is_some());
    assert!(c.cache_get(&8).is_none());
    c.cache_clear();
    assert_eq!(c.cache_size(), 0);
    assert!(keys(&c).is_empty());
    assert_eq!(c.cache_capacity(), Some(3));
    assert_eq!(c.cache_hits(), Some(1));
    assert_eq!(c.cache_misses(), Some(1));
    assert_eq!(c.cache_get(&1), None);
    c.cache_set(4, 40);
    c.cache_reset();
    assert_eq!(c.cache_size(), 0);
    assert_eq!(c.cache_capacity(), Some(3));
    assert_eq!(c.cache_misses(), Some(2));
    for k in 1..=4u32 {
        c.cache_set(k, k);
    }
    assert_eq!(keys(&c), [4, 3, 2]);
}

#[test]
fn retain_keeps_exactly_what_the_test_accepts() {
    let mut c = filled(6, 6);
    assert!(c.cache_get(&2).is_some());
    assert_eq!(keys(&c), [2, 6, 5, 4, 3, 1]);
    c.retain(|k, _v| k % 2 == 0);
    assert_eq!(entries(&c), [(2, 20), (6, 60), (4, 40)]);
    assert_eq!(c.cache_size(), 3);
    c.retain(|_k, v| *v > 20);
    assert_eq!(entries(&c), [(6, 60), (4, 40)]);
    c.retain(|_k, _v| true);
    assert_eq!(entries(&c), [(6, 60), (4, 40)]);
    c.retain(|_k, _v| false);
    assert!(entries(&c).is_empty());
    assert_eq!(c.cache_size(), 0);
    assert_eq!(c.cache_hits(), Some(1));
    assert_eq!(c.cache_misses(), Some(0));
    c.cache_set(1, 1);
    assert_eq!(c.cache_get(&1), Some(&1));
    assert_eq!(c.cache_get(&6), None);
}

#[test]
fn order_after_inserts_and_a_get() {
    let mut c: SizedCache<u32, u32> = SizedCache::with_size(5);
    for k in 1..=5u32 {
        c.cache_set(k, 0);
    }
    assert_eq!(keys(&c), [5, 4, 3, 2, 1]);
    c.cache_set(6, 0);
    assert_eq!(keys(&c), [6, 5, 4, 3, 2]);
    c.cache_set(7, 0);
    assert_eq!(keys(&c), [7, 6, 5, 4, 3]);
    assert!(c.cache_get(&3).is_some());
    assert_eq!(keys(&c), [3, 7, 6, 5, 4]);
}

#[test]
fn duplicate_set_does_not_cost_a_live_key() {
    let mut c: SizedCache<u32, u32> = SizedCache::with_size(2);
    assert_eq!(c.cache_set(1, 100), None);
    assert_eq!(c.cache_set(1, 100), Some(100));
    assert_eq!(c.cache_size(), 1);
    assert_eq!(c.cache_set(2, 100), None);
    assert_eq!(c.cache_size(), 2);
    assert_eq!(c.cache_set(3, 100), None);
    let mut now = keys(&c);
    now.sort();
    assert_eq!(now, [2, 3]);
    assert_eq!(c.cache_set(4, 100), None);
    let mut now = keys(&c);
    now.sort();
    assert_eq!(now, [3, 4]);
}

#[test]
fn supplier_runs_once() {
    let mut c: SizedCache<u32, u32> = SizedCache::with_size(3);
    let mut calls = 0;
    assert_eq!(
        *c.cache_get_or_set_with(0, || {
            calls += 1;
            5
        }),
        5
    );
    assert_eq!(calls, 1);
    assert_eq!(c.cache_misses(), Some(1));
    assert_eq!(c.cache_hits(), Some(0));
    let mut later = 0;
    assert_eq!(
        *c.cache_get_or_set_with(0, || {
            later += 1;
            6
        }),
        5
    );
    assert_eq!(later, 0);
    assert_eq!(c.cache_misses(), Some(1));
    assert_eq!(c.cache_hits(), Some(1));
}

#[test]
fn equality_ignores_capacity_and_order() {
    let mut a: SizedCache<u32, u32> = SizedCache::with_size(3);
    let mut b: SizedCache<u32, u32> = SizedCache::with_size(10);
    a.cache_set(1, 10);
    a.cache_set(2, 20);
    a.cache_set(3, 30);
    b.cache_set(3, 30);
    b.cache_set(1, 10);
    b.cache_set(2, 20);
    assert_ne!(keys(&a), keys(&b));
    assert!(a.eq(&b));
    assert!(b.eq(&a));
    assert!(a.cache_get(&1).is_some());
    assert!(a.eq(&b));
    b.cache_set(2, 21);
    assert!(!a.eq(&b));
    assert!(!b.eq(&a));
    b.cache_set(2, 20);
    assert!(a.eq(&b));
    b.cache_remove(&3);
    assert!(!a.eq(&b));
    b.cache_set(4, 30);
    assert!(!a.eq(&b));
    assert!(!b.eq(&a));
    let empty: SizedCache<u32, u32> = SizedCache::with_size(1);
    let none: SizedCache<u32, u32> = SizedCache::with_size(2);
    assert!(empty.eq(&none));
    assert!(!empty.eq(&a));
}

#[test]
fn get_if_counts_an_invalid_value_as_a_miss_and_keeps_it() {
    let mut c = filled(3, 3);
    assert_eq!(c.get_if(&1, |v| *v > 10), None);
    assert_eq!(c.cache_hits(), Some(0));
    assert_eq!(c.cache_misses(), Some(1));
    assert_eq!(entries(&c), [(3, 30), (2, 20), (1, 10)]);
    assert_eq!(c.get_if(&1, |v| *v == 10), Some(&10));
    assert_eq!(c.cache_hits(), Some(1));
    assert_eq!(c.cache_misses(), Some(1));
    assert_eq!(entries(&c), [(1, 10), (3, 30), (2, 20)]);
    assert_eq!(c.get_if(&9, |_| true), None);
    assert_eq!(c.cache_misses(), Some(2));
}

#[test]
fn get_mut_if_hands_out_only_a_valid_value() {
    let mut c = filled(3, 3);
    assert!(c.get_mut_if(&2, |v| *v != 20).is_none());
    assert_eq!(c.cache_misses(), Some(1));
    assert_eq!(keys(&c), [3, 2, 1]);
    match c.get_mut_if(&2, |v| *v == 20) {
        Some(v) => *v = 25,
        None => panic!("the value is valid"),
    }
    assert_eq!(c.cache_hits(), Some(1));
    assert_eq!(entries(&c), [(2, 25), (3, 30), (1, 10)]);
    assert!(c.get_mut_if(&8, |_| true).is_none());
    assert_eq!(c.cache_misses(), Some(2));
}

#[test]
fn get_or_set_with_if_tells_the_three_cases_apart() {
    let mut c = filled(3, 3);
    // present and valid: a hit, the supplier is not called
    let mut calls = 0;
    {
        let (present, valid, value) = c.get_or_set_with_if(
            1,
            || {
                calls += 1;
                0
            },
            |v| *v == 10,
        );
        assert!(present);
        assert!(valid);
        assert_eq!(*value, 10);
    }
    assert_eq!(calls, 0);
    assert_eq!(c.cache_hits(), Some(1));
    assert_eq!(c.cache_misses(), Some(0));
    assert_eq!(entries(&c), [(1, 10), (3, 30), (2, 20)]);
    // present and invalid: the value is replaced, counted as a miss
    {
        let (present, valid, value) = c.get_or_set_with_if(2, || 99, |v| *v != 20);
        assert!(present);
        assert!(!valid);
        assert_eq!(*value, 99);
        *value += 1;
    }
    assert_eq!(c.cache_hits(), Some(1));
    assert_eq!(c.cache_misses(), Some(1));
    assert_eq!(entries(&c), [(2, 100), (1, 10), (3, 30)]);
    // absent: inserted, the oldest leaves, counted as a miss
    {
        let (present, valid, value) = c.get_or_set_with_if(7, || 70, |_| true);
        assert!(!present);
        assert!(!valid);
        assert_eq!(*value, 70);
    }
    assert_eq!(c.cache_hits(), Some(1));
    assert_eq!(c.cache_misses(), Some(2));
    assert_eq!(entries(&c), [(7, 70), (2, 100), (1, 10)]);
}

#[test]
fn failing_supplier_leaves_the_cache_as_it_was() {
    let mut c = filled(3, 3);
    assert!(c.cache_get(&1).is_some());
    let before = entries(&c);
    let absent: Result<&mut u32, String> =
        c.cache_try_get_or_set_with(9, || Err("dead".to_string()));
    assert_eq!(absent, Err("dead".to_string()));
    assert_eq!(entries(&c), before);
    assert_eq!(c.cache_size(), 3);
    assert_eq!(c.cache_hits(), Some(1));
    assert_eq!(c.cache_misses(), Some(0));
    let stale: Result<(bool, bool, &mut u32), String> =
        c.try_get_or_set_with_if(2, || Err("gone".to_string()), |_| false);
    assert!(matches!(stale, Err(ref e) if e == "gone"));
    assert_eq!(entries(&c), before);
    assert_eq!(c.cache_hits(), Some(1));
    assert_eq!(c.cache_misses(), Some(0));
    // a supplier that succeeds is committed
    let fresh: Result<(bool, bool, &mut u32), String> =
        c.try_get_or_set_with_if(2, || Ok(21), |_| false);
    match fresh {
        Ok((present, valid, value)) => {
            assert!(present);
            assert!(!valid);
            assert_eq!(*value, 21);
        }
        Err(_) => panic!("the supplier succeeded"),
    }
    assert_eq!(entries(&c), [(2, 21), (1, 10), (3, 30)]);
    assert_eq!(c.cache_misses(), Some(1));
    let hit: Result<&mut u32, String> = c.cache_try_get_or_set_with(3, || Err("no".to_string()));
    assert_eq!(hit, Ok(&mut 30));
    assert_eq!(c.cache_hits(), Some(2));
    let made: Result<&mut u32, String> = c.cache_try_get_or_set_with(8, || Ok(80));
    assert_eq!(made, Ok(&mut 80));
    assert_eq!(entries(&c), [(8, 80), (3, 30), (2, 21)]);
    assert_eq!(c.cache_misses(), Some(2));
}

#[test]
fn value_written_through_get_or_set_with_stays() {
    let mut c: SizedCache<u32, u32> = SizedCache::with_size(2);
    *c.cache_get_or_set_with(1, || 1) += 5;
    assert_eq!(c.cache_get(&1), Some(&6));
    *c.cache_get_or_set_with(1, || 100) += 5;
    assert_eq!(c.cache_get(&1), Some(&11));
}

#[test]
fn probe_looks_without_counting_or_moving() {
    let mut c = filled(3, 3);
    assert_eq!(c.probe(&1, |v| *v == 10), Presence::Valid);
    assert_eq!(c.probe(&1, |v| *v != 10), Presence::Stale);
    assert_eq!(c.probe(&9, |_| true), Presence::Absent);
    assert_eq!(c.cache_hits(), Some(0));
    assert_eq!(c.cache_misses(), Some(0));
    assert_eq!(keys(&c), [3, 2, 1]);
    c.cache_remove(&1);
    assert_eq!(c.probe(&1, |_| true), Presence::Absent);
}

#[test]
fn commit_fresh_replaces_or_inserts_and_counts_a_miss() {
    let mut c = filled(3, 3);
    {
        let (present, value) = c.commit_fresh(1, 11);
        assert!(present);
        assert_eq!(*value, 11);
    }
    assert_eq!(entries(&c), [(1, 11), (3, 30), (2, 20)]);
    assert_eq!(c.cache_misses(), Some(1));
    {
        let (present, value) = c.commit_fresh(4, 40);
        assert!(!present);
        *value = 44;
    }
    assert_eq!(entries(&c), [(4, 44), (1, 11), (3, 30)]);
    assert_eq!(c.cache_misses(), Some(2));
    assert_eq!(c.cache_hits(), Some(0));
}

#[test]
fn orders_of_keys_values_and_entries_agree() {
    let mut c = filled(3, 3);
    assert!(c.cache_get(&2).is_some());
    assert_eq!(keys(&c), [2, 3, 1]);
    assert_eq!(c.value_order().copied().collect::<Vec<_>>(), [20, 30, 10]);
    assert_eq!(entries(&c), [(2, 20), (3, 30), (1, 10)]);
    let order = c.get_order();
    assert_eq!(order.len(), 3);
    assert_eq!(order.iter().copied().collect::<Vec<_>>(), [(2, 20), (3, 30), (1, 10)]);
    assert_eq!(*order.get(order.back()), (1, 10));
}

#[test]
fn clone_is_an_independent_copy() {
    let mut c = filled(3, 3);
    assert!(c.cache_get(&1).is_some());
    assert!(c.cache_get(&7).is_none());
    let mut d = c.clone();
    assert_eq!(entries(&d), entries(&c));
    assert_eq!(d.cache_capacity(), Some(3));
    assert_eq!(d.cache_hits(), Some(1));
    assert_eq!(d.cache_misses(), Some(1));
    assert!(d.eq(&c));
    d.cache_set(4, 40);
    assert_eq!(keys(&d), [4, 1, 3]);
    assert_eq!(keys(&c), [1, 3, 2]);
    assert_eq!(d.cache_get(&3), Some(&30));
    assert_eq!(d.cache_get(&2), None);
    assert_eq!(c.cache_get(&2), Some(&20));
    assert_eq!(c.cache_hits(), Some(2));
    assert_eq!(d.cache_hits(), Some(2));
    assert_eq!(d.cache_misses(), Some(2));
    assert_eq!(c.cache_misses(), Some(1));
    c.cache_clear();
    assert_eq!(d.cache_size(), 3);
}

#[test]
fn try_with_size_makes_a_working_cache() {
    let made: Result<SizedCache<u32, u32>, SizeError> = SizedCache::try_with_size(2);
    let mut c = match made {
        Ok(c) => c,
        Err(_) => panic!("two entries fit in memory"),
    };
    assert_eq!(c.cache_capacity(), Some(2));
    assert_eq!(c.cache_size(), 0);
    assert!(c.store_capacity() >= 2);
    c.cache_set(1, 1);
    c.cache_set(2, 2);
    c.cache_set(3, 3);
    assert_eq!(keys(&c), [3, 2]);
}

#[test]
fn try_with_size_refuses_zero() {
    let made: Result<SizedCache<u32, u32>, SizeError> = SizedCache::try_with_size(0);
    assert_eq!(made.err(), Some(SizeError::InvalidArgument));
}

#[test]
fn try_with_size_reports_overflow_as_invalid() {
    let made: Result<SizedCache<u32, u32>, SizeError> = SizedCache::try_with_size(usize::MAX);
    assert_eq!(made.err(), Some(SizeError::InvalidArgument));
}

#[test]
fn try_with_size_reports_exhaustion() {
    let made: Result<SizedCache<u32, u32>, SizeError> =
        SizedCache::try_with_size(MAX_CAPACITY / 4);
    assert_eq!(made.err(), Some(SizeError::ResourceExhausted));
}

#[test]
fn size_error_numbers() {
    assert_eq!(SizeError::InvalidArgument.raw_os_error(), Some(22));
    assert_eq!(SizeError::ResourceExhausted.raw_os_error(), Some(12));
    assert_eq!(EINVAL, 22);
    assert_eq!(ENOMEM, 12);
    assert_eq!(
        SizeError::from_reserve(ReserveError::CapacityOverflow),
        SizeError::InvalidArgument
    );
    assert_eq!(
        SizeError::from_reserve(ReserveError::AllocError),
        SizeError::ResourceExhausted
    );
}

#[test]
fn many_keys_through_growth_and_eviction() {
    let mut c: SizedCache<u64, u64> = SizedCache::with_size(64);
    for k in 0..10_000u64 {
        assert_eq!(c.cache_set(k, k + 1), None);
        assert!(c.cache_size() <= 64);
        if k >= 3 {
            // keep one old key alive by touching it
            assert_eq!(c.cache_get(&0), Some(&1));
        }
    }
    assert_eq!(c.cache_size(), 64);
    assert_eq!(c.cache_get(&0), Some(&1));
    for k in 9_937..10_000u64 {
        assert_eq!(c.cache_get(&k), Some(&(k + 1)));
    }
    assert_eq!(c.cache_get(&9_936), None);
    assert_eq!(c.cache_get(&5_000), None);
    let order: Vec<u64> = c.key_order().copied().collect();
    let mut expected: Vec<u64> = (9_937..10_000u64).rev().collect();
    expected.push(0);
    assert_eq!(order, expected);
}

#[test]
fn index_grows_when_made_small() {
    let made: Result<SizedCache<u64, u64>, SizeError> = SizedCache::try_with_size(1);
    let mut c = match made {
        Ok(c) => c,
        Err(_) => panic!("one entry fits in memory"),
    };
    c.cache_set(1, 1);
    c.cache_set(2, 2);
    assert_eq!(c.cache_get(&2), Some(&2));
    let mut big: SizedCache<u64, u64> = SizedCache::with_size(5_000);
    for k in 0..5_000u64 {
        big.cache_set(k, k);
    }
    assert_eq!(big.cache_size(), 5_000);
    for k in 0..5_000u64 {
        assert_eq!(big.cache_remove(&k), Some(k));
    }
    assert_eq!(big.cache_size(), 0);
}

#[test]
fn string_keys_are_found_by_value() {
    let mut c: SizedCache<String, usize> = SizedCache::with_size(2);
    assert_eq!(c.cache_set("one".to_string(), 1), None);
    assert_eq!(c.cache_set(format!("{}{}", "o", "ne"), 11), Some(1));
    assert_eq!(c.cache_set("two".to_string(), 2), None);
    assert_eq!(c.cache_get(&"one".to_string()), Some(&11));
    assert_eq!(c.cache_set("three".to_string(), 3), None);
    assert_eq!(c.cache_get(&"two".to_string()), None);
    assert_eq!(c.cache_remove(&"one".to_string()), Some(11));
    assert_eq!(c.cache_size(), 1);
}

#[test]
fn two_caches_hash_on_their_own() {
    let mut a: SizedCache<u32, u32> = SizedCache::with_size(8);
    let mut b: SizedCache<u32, u32> = SizedCache::with_size(8);
    for k in 0..8u32 {
        a.cache_set(k, k);
        b.cache_set(k, k + 100);
    }
    for k in 0..8u32 {
        assert_eq!(a.cache_get(&k), Some(&k));
        assert_eq!(b.cache_get(&k), Some(&(k + 100)));
    }
}

#[test]
fn store_capacity_covers_the_entries() {
    let mut c: SizedCache<u32, u32> = SizedCache::with_size(40);
    assert!(c.store_capacity() >= c.cache_size());
    for k in 0..200u32 {
        c.cache_set(k, k);
        assert!(c.store_capacity() >= c.cache_size());
    }
    for k in 150..200u32 {
        c.cache_remove(&k);
        assert!(c.store_capacity() >= c.cache_size());
    }
    assert_eq!(c.cache_size(), 0);
}
