use retainer::sweep::{sample_positions, Threshold};
use retainer::{Cache, CacheExpiration};

#[test]
fn sampling_draws_distinct_positions_in_range() {
    let cases: [(usize, usize); 7] = [(0, 10), (5, 10), (10, 10), (20, 10), (3, 3), (1, 1), (7, 100)];
    for &(sample, total) in cases.iter() {
        let picks = sample_positions(sample, total);
        assert_eq!(picks.len(), sample.min(total));
        for pair in picks.windows(2) {
            assert!(pair[0] < pair[1]);
        }
        for &p in picks.iter() {
            assert!(p < total);
        }
    }
}

#[test]
fn sampling_full_store_visits_every_position() {
    let picks = sample_positions(8, 8);
    let expected: Vec<usize> = (0..8).collect();
    assert_eq!(picks, expected);
}

#[test]
fn purge_drains_a_fully_expired_store() {
    let mut cache = Cache::<u64, u64>::new();
    for i in 0..100u64 {
        cache.insert(i, i, CacheExpiration::new(10), 1000);
    }
    assert_eq!(cache.len(), 100);
    cache.purge(20, Threshold { numer: 1, denom: 4 }, 1000);
    assert_eq!(cache.len(), 0);
    assert!(cache.is_empty());
}

#[test]
fn purge_never_deletes_live_entries() {
    let mut cache = Cache::<u64, u64>::new();
    for i in 0..50u64 {
        cache.insert(i, i, CacheExpiration::new(10), 1000);
    }
    for i in 50..100u64 {
        cache.insert(i, i, CacheExpiration::new(10_000), 1000);
    }
    cache.purge(10, Threshold { numer: 1, denom: 4 }, 1000);
    assert_eq!(cache.unexpired(1000), 50);
    for i in 50..100u64 {
        let guard = cache.get(&i, 1000).unwrap();
        assert_eq!(*guard.value(), i);
    }
}

#[test]
fn purge_of_empty_store_does_nothing() {
    let mut cache = Cache::<u64, u64>::new();
    cache.purge(20, Threshold { numer: 1, denom: 4 }, 0);
    assert!(cache.is_empty());
}

#[test]
fn lazy_hiding_is_independent_of_sweeping() {
    let mut cache = Cache::<u64, &str>::new();
    cache.insert(1, "short", CacheExpiration::after(0, 50), 0);
    cache.insert(2, "forever", CacheExpiration::none(), 0);

    assert!(cache.get(&1, 0).is_some());
    assert!(cache.get(&1, 60).is_none());
    assert!(cache.get(&2, 60).is_some());

    assert_eq!(cache.len(), 2);
    assert_eq!(cache.expired(60), 1);
    assert_eq!(cache.unexpired(60), 1);
}

#[test]
fn insert_twice_returns_prior_live_value() {
    let mut cache = Cache::<u64, u64>::new();
    let first = cache.insert(1, 2, CacheExpiration::none(), 0);
    assert_eq!(first, None);
    let second = cache.insert(1, 3, CacheExpiration::none(), 0);
    assert_eq!(second, Some(2));
    assert_eq!(*cache.get(&1, 0).unwrap().value(), 3);
}

#[test]
fn insert_over_expired_entry_returns_nothing() {
    let mut cache = Cache::<u64, u64>::new();
    cache.insert(1, 2, CacheExpiration::new(100), 0);
    let prev = cache.insert(1, 3, CacheExpiration::none(), 100);
    assert_eq!(prev, None);
    assert_eq!(*cache.get(&1, 100).unwrap().value(), 3);
}

#[test]
fn remove_returns_only_live_values() {
    let mut cache = Cache::<u64, u64>::new();
    cache.insert(1, 7, CacheExpiration::none(), 0);
    cache.insert(2, 8, CacheExpiration::new(50), 0);
    assert_eq!(cache.len(), 2);

    assert_eq!(cache.remove(&1, 0), Some(7));
    assert_eq!(cache.len(), 1);
    assert!(cache.get(&1, 0).is_none());

    assert_eq!(cache.remove(&2, 100), None);
    assert_eq!(cache.len(), 0);

    assert_eq!(cache.remove(&3, 0), None);
    assert_eq!(cache.len(), 0);
}

#[test]
fn update_and_set_expiration_skip_absent_and_expired() {
    let mut cache = Cache::<u64, u64>::new();
    cache.insert(1, 5, CacheExpiration::new(100), 0);

    cache.update(&2, |v| v + 1, 0);
    assert_eq!(cache.len(), 1);

    cache.update(&1, |v| v + 1, 200);
    assert_eq!(*cache.get(&1, 0).unwrap().value(), 5);

    cache.set_expiration(&1, CacheExpiration::none(), 200);
    assert!(cache.get(&1, 200).is_none());
}

#[test]
fn update_and_set_expiration_touch_only_their_field() {
    let mut cache = Cache::<u64, u64>::new();
    cache.insert(1, 5, CacheExpiration::new(100), 0);

    cache.update(&1, |v| v + 1, 50);
    let guard = cache.get(&1, 50).unwrap();
    assert_eq!(*guard.value(), 6);
    assert_eq!(*guard.expiration().instant(), Some(100));

    cache.set_expiration(&1, CacheExpiration::new(300), 50);
    let guard = cache.get(&1, 200).unwrap();
    assert_eq!(*guard.value(), 6);
    assert_eq!(*guard.expiration().instant(), Some(300));
}

#[test]
fn full_lifecycle_with_sweeps() {
    let mut cache = Cache::<u64, usize>::new();
    let start: u64 = 0;

    cache.insert(1, 1, CacheExpiration::new(start), start);
    cache.insert(2, 2, CacheExpiration::after(start, 2000), start);
    cache.insert(3, 3, CacheExpiration::after(start, 3500), start);
    cache.insert(4, 4, CacheExpiration::after_range(start, 3500, 5000), start);
    cache.insert_untracked(5, 5, start);

    let threshold = Threshold { numer: 1, denom: 4 };

    cache.purge(25, threshold, start + 3250);
    assert!(cache.get(&1, start + 3250).is_none());
    assert!(cache.get(&2, start + 3250).is_none());
    assert!(cache.get(&3, start + 3250).is_some());
    assert!(cache.get(&4, start + 3250).is_some());
    assert!(cache.get(&5, start + 3250).is_some());

    cache.purge(25, threshold, start + 6500);
    assert!(cache.get(&3, start + 6500).is_none());
    assert!(cache.get(&4, start + 6500).is_none());
    assert!(cache.get(&5, start + 6500).is_some());

    assert!(cache.remove(&5, start + 6500).is_some());
    assert!(cache.get(&5, start + 6500).is_none());
    assert!(cache.is_empty());
}

#[test]
fn full_sample_sweep_removes_exactly_the_expired() {
    let mut cache = Cache::<u64, u64>::new();
    for i in 0..3u64 {
        cache.insert(i, i, CacheExpiration::new(10), 100);
    }
    for i in 3..10u64 {
        cache.insert(i, i, CacheExpiration::new(10_000), 100);
    }
    cache.purge(10, Threshold { numer: 1, denom: 1 }, 100);
    assert_eq!(cache.len(), 7);
    assert_eq!(cache.expired(100), 0);
    assert_eq!(cache.unexpired(100), 7);
}
