//! Entries of the cache: a value together with an optional absolute deadline.
//!
//! A deadline is a point on the host's monotonic clock, counted in
//! milliseconds from an epoch the host chooses (for instance the moment the
//! cache was created). The library never reads a clock itself: every check
//! against the deadline takes the current instant as an argument.

use vstd::prelude::*;

verus! {

/// The deadline has passed at `now`: a deadline exists and is not after `now`.
///
/// An absent deadline (`None`) never passes, so such an entry is always live.
pub open spec fn expired_at(instant: Option<u64>, now: u64) -> bool {
    match instant {
        Some(t) => t <= now,
        None => false,
    }
}

/// An optional absolute deadline, in milliseconds of the host's clock.
///
/// Immutable once constructed; replacing an entry's deadline means storing a
/// new `CacheExpiration` wholesale.
#[derive(Clone, Copy, Debug)]
pub struct CacheExpiration {
    instant: Option<u64>,
}

impl View for CacheExpiration {
    type V = Option<u64>;

    closed spec fn view(&self) -> Option<u64> {
        self.instant
    }
}

impl CacheExpiration {
    /// An expiration at the given absolute instant.
    pub fn new(instant: u64) -> (r: Self)
        ensures
            r@ == Some(instant),
    {
        CacheExpiration { instant: Some(instant) }
    }

    /// An expiration that never passes.
    pub fn none() -> (r: Self)
        ensures
            r@ == None::<u64>,
    {
        CacheExpiration { instant: None }
    }

    /// An expiration `millis` milliseconds after `now`.
    ///
    /// The deadline is fixed here, at construction; it is not re-evaluated
    /// against a later clock. A sum beyond the range of the tick count would
    /// wrap, so it is excluded up front.
    pub fn after(now: u64, millis: u64) -> (r: Self)
        requires
            now + millis <= u64::MAX,
        ensures
            r@ == Some((now + millis) as u64),
    {
        CacheExpiration { instant: Some(now + millis) }
    }

    /// An expiration a uniformly drawn number of milliseconds after `now`,
    /// the number taken from the half-open range `lo..hi`.
    ///
    /// As with `after`, the deadline is fixed here, at construction, and a
    /// sum that would wrap the tick count is excluded up front.
    pub fn after_range(now: u64, lo: u64, hi: u64) -> (r: Self)
        requires
            lo < hi,
            now + hi - 1 <= u64::MAX,
        ensures
            (match r@ {
                Some(t) => now + lo <= t < now + hi,
                None => false,
            }),
    {
        let d = crate::rng::draw_in_range(lo, hi);
        CacheExpiration { instant: Some(now + d) }
    }

    /// The absolute instant of this expiration, if there is one.
    pub fn instant(&self) -> (r: &Option<u64>)
        ensures
            *r == self@,
    {
        &self.instant
    }

    /// Whether the deadline has passed at `now`.
    pub fn is_expired(&self, now: u64) -> (r: bool)
        ensures
            r == expired_at(self@, now),
    {
        match self.instant {
            Some(t) => t <= now,
            None => false,
        }
    }

    /// Time left until the deadline: zero once past, `None` if there is no
    /// deadline to reach.
    pub fn remaining(&self, now: u64) -> (r: Option<u64>)
        ensures
            r == (match self@ {
                Some(t) => Some(if t > now { (t - now) as u64 } else { 0u64 }),
                None => None::<u64>,
            }),
    {
        match self.instant {
            Some(t) => Some(if t > now { t - now } else { 0 }),
            None => None,
        }
    }
}

/// A stored value and the deadline it was stored with.
#[derive(Debug)]
pub struct CacheEntry<V> {
    value: V,
    expiration: CacheExpiration,
}

impl<V> CacheEntry<V> {
    /// The stored value, as the contracts speak of it.
    pub closed spec fn spec_value(&self) -> V {
        self.value
    }

    /// The deadline, as the contracts speak of it.
    pub closed spec fn spec_instant(&self) -> Option<u64> {
        self.expiration@
    }

    /// A new entry holding `value` until `expiration`.
    pub fn new(value: V, expiration: CacheExpiration) -> (r: Self)
        ensures
            r.spec_value() == value,
            r.spec_instant() == expiration@,
    {
        CacheEntry { value, expiration }
    }

    /// The entry's expiration.
    pub fn expiration(&self) -> (r: &CacheExpiration)
        ensures
            r@ == self.spec_instant(),
    {
        &self.expiration
    }

    /// The entry's value.
    pub fn value(&self) -> (r: &V)
        ensures
            *r == self.spec_value(),
    {
        &self.value
    }

    /// The entry's value, for mutation in place.
    pub fn value_mut(&mut self) -> (r: &mut V)
        ensures
            *r == old(self).spec_value(),
            final(self).spec_value() == *final(r),
            final(self).spec_instant() == old(self).spec_instant(),
    {
        &mut self.value
    }

    /// The value, surrendering the entry.
    pub fn into_inner(self) -> (r: V)
        ensures
            r == self.spec_value(),
    {
        self.value
    }
}

/// A read handle onto an entry found live by a lookup.
///
/// It exposes the entry's value and expiration for as long as the borrow of
/// the cache that produced it lasts. A host that keeps the store behind a
/// lock must not retain it across a later mutating call on the same cache
/// from the same flow.
#[derive(Debug)]
pub struct CacheReadGuard<'a, V> {
    entry: &'a CacheEntry<V>,
}

impl<'a, V> CacheReadGuard<'a, V> {
    /// The entry seen through this guard.
    pub closed spec fn spec_entry(&self) -> CacheEntry<V> {
        *self.entry
    }

    /// A guard onto `entry`.
    pub(crate) fn hold(entry: &'a CacheEntry<V>) -> (r: Self)
        ensures
            r.spec_entry() == *entry,
    {
        CacheReadGuard { entry }
    }

    /// The guarded entry's expiration.
    pub fn expiration(&self) -> (r: &'a CacheExpiration)
        ensures
            r@ == self.spec_entry().spec_instant(),
    {
        self.entry.expiration()
    }

    /// The guarded entry's value.
    pub fn value(&self) -> (r: &'a V)
        ensures
            *r == self.spec_entry().spec_value(),
    {
        self.entry.value()
    }
}

} // verus!
