use core::cmp::Ordering;

use retainer::key::OrderedKey;
use retainer::{Cache, CacheExpiration};

#[test]
fn test_cache_size_operations() {
    let mut cache = Cache::<u8, u8>::new();

    cache.insert(1, 2, CacheExpiration::none(), 0);
    cache.insert(2, 2, CacheExpiration::none(), 0);
    cache.insert(3, 3, CacheExpiration::none(), 0);

    assert_eq!(cache.len(), 3);
    assert_eq!(cache.expired(0), 0);
    assert_eq!(cache.unexpired(0), 3);

    cache.clear();

    assert_eq!(cache.len(), 0);
    assert_eq!(cache.expired(0), 0);
    assert_eq!(cache.unexpired(0), 0);
}

#[test]
fn test_cache_update_operations() {
    let mut cache = Cache::<u8, u8>::new();

    cache.insert(1, 1, CacheExpiration::none(), 0);

    assert_eq!(cache.get(&1, 0).unwrap().value(), &1);

    cache.update(&1, |_value| 5, 0);

    assert_eq!(cache.get(&1, 0).unwrap().value(), &5);
}

#[test]
fn fresh_cache_is_empty() {
    let cache = Cache::<u64, u64>::default();
    assert!(cache.is_empty());
    assert_eq!(cache.len(), 0);
    assert!(cache.get(&1, 0).is_none());
}

#[test]
fn with_label_keeps_entries() {
    let mut cache = Cache::<u8, u8>::new();
    cache.insert(1, 1, CacheExpiration::none(), 0);
    let cache = cache.with_label("orders");
    assert_eq!(cache.len(), 1);
    assert_eq!(cache.get(&1, 0).unwrap().value(), &1);
}

#[test]
fn insert_untracked_never_expires() {
    let mut cache = Cache::<u64, u64>::new();
    assert_eq!(cache.insert_untracked(9, 40, 0), None);
    let guard = cache.get(&9, u64::MAX).unwrap();
    assert_eq!(*guard.value(), 40);
    assert_eq!(*guard.expiration().instant(), None);
}

#[test]
fn guard_exposes_entry() {
    let mut cache = Cache::<u64, u64>::new();
    cache.insert(4, 11, CacheExpiration::new(500), 100);
    let guard = cache.get(&4, 100).unwrap();
    assert_eq!(*guard.value(), 11);
    assert_eq!(*guard.expiration().instant(), Some(500));
    assert_eq!(guard.expiration().remaining(100), Some(400));
}

#[test]
fn entry_accessors() {
    let mut entry = retainer::entry::CacheEntry::new(3u64, CacheExpiration::new(9));
    assert_eq!(*entry.value(), 3);
    *entry.value_mut() = 4;
    assert_eq!(*entry.value(), 4);
    assert_eq!(*entry.expiration().instant(), Some(9));
    assert_eq!(entry.into_inner(), 4);
}

#[test]
fn key_order_is_decided_three_ways() {
    assert_eq!(1u8.key_cmp(&2), Ordering::Less);
    assert_eq!(2u8.key_cmp(&2), Ordering::Equal);
    assert_eq!(3u8.key_cmp(&2), Ordering::Greater);
    assert_eq!(10u64.key_cmp(&4), Ordering::Greater);
    assert_eq!((-5i64).key_cmp(&3), Ordering::Less);
}
