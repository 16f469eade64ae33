use retainer::CacheExpiration;

#[test]
fn none_never_expires() {
    let e = CacheExpiration::none();
    assert!(!e.is_expired(0));
    assert!(!e.is_expired(u64::MAX));
    assert_eq!(e.remaining(123), None);
    assert_eq!(*e.instant(), None);
}

#[test]
fn absolute_instant_boundary() {
    let e = CacheExpiration::new(100);
    assert!(!e.is_expired(99));
    assert!(e.is_expired(100));
    assert!(e.is_expired(101));
    assert_eq!(*e.instant(), Some(100));
}

#[test]
fn remaining_saturates_at_zero() {
    let e = CacheExpiration::new(100);
    assert_eq!(e.remaining(40), Some(60));
    assert_eq!(e.remaining(100), Some(0));
    assert_eq!(e.remaining(250), Some(0));
}

#[test]
fn after_adds_to_now() {
    let e = CacheExpiration::after(1000, 50);
    assert_eq!(*e.instant(), Some(1050));
    assert!(!e.is_expired(1049));
    assert!(e.is_expired(1050));
}

#[test]
fn range_draw_stays_within_bounds() {
    for _ in 0..64 {
        let e = CacheExpiration::after_range(100, 50, 60);
        let t = (*e.instant()).unwrap();
        assert!((150..160).contains(&t));
    }
}

#[test]
fn range_of_width_one_is_determined() {
    let e = CacheExpiration::after_range(0, 7, 8);
    assert_eq!(*e.instant(), Some(7));
}
