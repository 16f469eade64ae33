//! The cache itself: an ordered key/value store with per-entry deadlines.
//!
//! Every operation is stated against the finite map the store denotes,
//! `self.as_map()`, from keys to pairs of value and optional deadline. An
//! entry past its deadline may still be resident: readers never see it, and
//! `purge` removes such entries by random sampling. Operations that depend
//! on the clock take the current instant `now` as an argument; the host
//! reads the clock and, where several callers share the cache, serializes
//! access around these calls.

use vstd::prelude::*;

use crate::entry::{expired_at, CacheEntry, CacheExpiration, CacheReadGuard};
use crate::key::OrderedKey;
use crate::sweep::{lemma_increasing_gap, lemma_product_fits, sample_positions, strictly_increasing, Threshold};
use vstd::arithmetic::mul::lemma_mul_inequality;

use crate::store::{
    all_expired, expired_keys, expired_upto, has_key, index_of_key, lemma_expiry_counts,
    lemma_insert_fresh_key, lemma_map_of_contains, lemma_map_of_index, lemma_map_of_len,
    lemma_remove_at, lemma_sorted_distinct, lemma_update_same_key, live_keys, map_of,
    strictly_sorted,
};

verus! {

/// A key/value store whose entries carry an optional absolute deadline.
///
/// The store is a vector of pairs kept strictly ascending in the key order;
/// the label only names the cache for the host's own reporting.
pub struct Cache<K: OrderedKey, V> {
    store: Vec<(K, CacheEntry<V>)>,
    label: String,
}

impl<K: OrderedKey, V> Cache<K, V> {
    /// The pairs of the store, in key order.
    pub closed spec fn entries(&self) -> Seq<(K, CacheEntry<V>)> {
        self.store@
    }

    /// The map the store denotes: each resident key to its value and
    /// optional deadline, expired entries included.
    pub open spec fn as_map(&self) -> Map<K, (V, Option<u64>)> {
        map_of(self.entries())
    }

    /// The store's keys stand strictly ascending, so each key at most once.
    pub open spec fn wf(&self) -> bool {
        strictly_sorted(self.entries())
    }

    /// The label given to this cache, empty unless one was set.
    pub closed spec fn spec_label(&self) -> Seq<char> {
        self.label@
    }

    /// The key `k` is resident and its deadline has not passed at `now`.
    pub open spec fn live_at(&self, k: K, now: u64) -> bool {
        self.as_map().contains_key(k) && !expired_at(self.as_map()[k].1, now)
    }

    /// An empty cache.
    pub fn new() -> (r: Self)
        ensures
            r.wf(),
            r.as_map() == Map::<K, (V, Option<u64>)>::empty(),
            r.spec_label() == Seq::<char>::empty(),
    {
        Cache { store: Vec::new(), label: String::new() }
    }

    /// Name this cache for the host's reporting.
    pub fn with_label(self, s: &str) -> (r: Self)
        ensures
            r.entries() == self.entries(),
            r.as_map() == self.as_map(),
            r.wf() == self.wf(),
            r.spec_label() == "cache("@ + s@ + "): "@,
    {
        let mut label = String::from_str("cache(");
        label.append(s);
        label.append("): ");
        Cache { store: self.store, label }
    }

    /// How many entries are resident, expired ones included.
    pub fn len(&self) -> (r: usize)
        requires
            self.wf(),
        ensures
            r == self.as_map().dom().len(),
    {
        proof {
            lemma_sorted_distinct(self.entries());
            lemma_map_of_len(self.entries());
        }
        self.store.len()
    }

    /// Whether nothing at all is resident.
    pub fn is_empty(&self) -> (r: bool)
        requires
            self.wf(),
        ensures
            r == (self.as_map() == Map::<K, (V, Option<u64>)>::empty()),
    {
        proof {
            lemma_sorted_distinct(self.entries());
            lemma_map_of_len(self.entries());
            if self.entries().len() == 0 {
                assert(self.as_map() =~= Map::<K, (V, Option<u64>)>::empty());
            } else {
                lemma_map_of_index(self.entries(), 0);
                assert(self.as_map() != Map::<K, (V, Option<u64>)>::empty());
            }
        }
        self.store.len() == 0
    }

    /// Drop every entry, expired or not.
    pub fn clear(&mut self)
        ensures
            final(self).wf(),
            final(self).as_map() == Map::<K, (V, Option<u64>)>::empty(),
            final(self).spec_label() == old(self).spec_label(),
    {
        self.store.clear();
    }

    /// Where `k` stands in the store: its position, or the position the
    /// order would give it, with the key then absent altogether.
    fn locate(&self, k: &K) -> (r: Result<usize, usize>)
        requires
            self.wf(),
        ensures
            (match r {
                Ok(i) => i < self.entries().len() && self.entries()[i as int].0 == *k,
                Err(i) => {
                    &&& i <= self.entries().len()
                    &&& !has_key(self.entries(), *k)
                    &&& forall|j: int|
                        #![trigger self.entries()[j]]
                        0 <= j < i ==> self.entries()[j].0.le(*k) && self.entries()[j].0 != *k
                    &&& forall|j: int|
                        #![trigger self.entries()[j]]
                        i <= j < self.entries().len() ==> k.le(self.entries()[j].0) && *k
                            != self.entries()[j].0
                },
            }),
    {
        let ghost s = self.entries();
        let n = self.store.len();
        let mut i: usize = 0;
        while i < n
            invariant
                self.wf(),
                s == self.entries(),
                n == s.len(),
                i <= n,
                forall|j: int| #![trigger s[j]] 0 <= j < i ==> s[j].0.le(*k) && s[j].0 != *k,
            decreases n - i,
        {
            match self.store[i].0.key_cmp(k) {
                core::cmp::Ordering::Less => {
                    i = i + 1;
                }
                core::cmp::Ordering::Equal => {
                    return Ok(i);
                }
                core::cmp::Ordering::Greater => {
                    proof {
                        assert forall|j: int| i <= j < s.len() implies k.le(
                            #[trigger] s[j].0,
                        ) && *k != s[j].0 by {
                            if j > i {
                                K::lemma_le_transitive(*k, s[i as int].0, s[j].0);
                                if *k == s[j].0 {
                                    K::lemma_le_antisymmetric(*k, s[i as int].0);
                                }
                            }
                        }
                        assert(!has_key(s, *k)) by {
                            if has_key(s, *k) {
                                let j = index_of_key(s, *k);
                                assert(s[j].0 == *k);
                            }
                        }
                    }
                    return Err(i);
                }
            }
        }
        proof {
            assert(!has_key(s, *k)) by {
                if has_key(s, *k) {
                    let j = index_of_key(s, *k);
                    assert(s[j].0 == *k);
                }
            }
        }
        Err(n)
    }

    /// Look `k` up: a read handle on its entry when it is resident and its
    /// deadline has not passed at `now`, and nothing otherwise. A reader
    /// cannot tell an expired entry from an absent one.
    pub fn get<'a>(&'a self, k: &K, now: u64) -> (r: Option<CacheReadGuard<'a, V>>)
        requires
            self.wf(),
        ensures
            (match r {
                Some(g) => {
                    &&& self.live_at(*k, now)
                    &&& g.spec_entry().spec_value() == self.as_map()[*k].0
                    &&& g.spec_entry().spec_instant() == self.as_map()[*k].1
                },
                None => !self.live_at(*k, now),
            }),
    {
        proof {
            lemma_sorted_distinct(self.entries());
            lemma_map_of_contains(self.entries(), *k);
        }
        match self.locate(k) {
            Ok(i) => {
                proof {
                    lemma_map_of_index(self.entries(), i as int);
                }
                let entry = &self.store[i].1;
                if entry.expiration().is_expired(now) {
                    None
                } else {
                    Some(CacheReadGuard::hold(entry))
                }
            }
            Err(_) => None,
        }
    }

    /// Store `v` under `k` until `e`, replacing any prior entry wholesale.
    ///
    /// The prior value comes back only when the prior entry was live at
    /// `now`: an expired resident entry and an absent key look the same.
    pub fn insert(&mut self, k: K, v: V, e: CacheExpiration, now: u64) -> (prev: Option<V>)
        requires
            old(self).wf(),
        ensures
            final(self).wf(),
            final(self).as_map() == old(self).as_map().insert(k, (v, e@)),
            final(self).spec_label() == old(self).spec_label(),
            prev == (if old(self).live_at(k, now) {
                Some(old(self).as_map()[k].0)
            } else {
                None::<V>
            }),
    {
        let entry = CacheEntry::new(v, e);
        let ghost ge = entry;
        let ghost s1 = old(self).entries();
        proof {
            lemma_sorted_distinct(s1);
        }
        match self.locate(&k) {
            Ok(i) => {
                proof {
                    lemma_map_of_index(s1, i as int);
                }
                let (_, old_entry) = self.store.remove(i);
                let prev = if old_entry.expiration().is_expired(now) {
                    None
                } else {
                    Some(old_entry.into_inner())
                };
                self.store.insert(i, (k, entry));
                proof {
                    assert(self.entries() =~= s1.update(i as int, (k, ge)));
                    lemma_update_same_key(s1, i as int, (k, ge));
                }
                prev
            }
            Err(i) => {
                self.store.insert(i, (k, entry));
                proof {
                    lemma_insert_fresh_key(s1, i as int, (k, ge));
                    lemma_map_of_contains(s1, k);
                }
                None
            }
        }
    }

    /// Store `v` under `k` with no deadline at all: it stays until removed.
    pub fn insert_untracked(&mut self, k: K, v: V, now: u64) -> (prev: Option<V>)
        requires
            old(self).wf(),
        ensures
            final(self).wf(),
            final(self).as_map() == old(self).as_map().insert(k, (v, None::<u64>)),
            final(self).spec_label() == old(self).spec_label(),
            prev == (if old(self).live_at(k, now) {
                Some(old(self).as_map()[k].0)
            } else {
                None::<V>
            }),
    {
        self.insert(k, v, CacheExpiration::none(), now)
    }

    /// Take `k` out of the store altogether.
    ///
    /// The removed value comes back only when the entry was live at `now`.
    pub fn remove(&mut self, k: &K, now: u64) -> (r: Option<V>)
        requires
            old(self).wf(),
        ensures
            final(self).wf(),
            final(self).as_map() == old(self).as_map().remove(*k),
            final(self).spec_label() == old(self).spec_label(),
            r == (if old(self).live_at(*k, now) {
                Some(old(self).as_map()[*k].0)
            } else {
                None::<V>
            }),
    {
        let ghost s1 = old(self).entries();
        proof {
            lemma_sorted_distinct(s1);
        }
        match self.locate(k) {
            Ok(i) => {
                proof {
                    lemma_map_of_index(s1, i as int);
                    lemma_remove_at(s1, i as int);
                }
                let (_, old_entry) = self.store.remove(i);
                if old_entry.expiration().is_expired(now) {
                    None
                } else {
                    Some(old_entry.into_inner())
                }
            }
            Err(_) => {
                proof {
                    lemma_map_of_contains(s1, *k);
                    assert(old(self).as_map().remove(*k) =~= old(self).as_map());
                }
                None
            }
        }
    }

    /// Apply `f` to the value under `k`, in place, the deadline untouched.
    ///
    /// On an absent or expired key nothing at all happens: mutation is
    /// offered only to entries their readers can still see.
    pub fn update<F: FnOnce(V) -> V>(&mut self, k: &K, f: F, now: u64)
        requires
            old(self).wf(),
            forall|v: V| #[trigger] f.requires((v,)),
        ensures
            final(self).wf(),
            final(self).spec_label() == old(self).spec_label(),
            old(self).live_at(*k, now) ==> exists|nv: V|
                {
                    &&& #[trigger] f.ensures((old(self).as_map()[*k].0,), nv)
                    &&& final(self).as_map() == old(self).as_map().insert(
                        *k,
                        (nv, old(self).as_map()[*k].1),
                    )
                },
            !old(self).live_at(*k, now) ==> final(self).as_map() == old(self).as_map(),
    {
        let ghost s1 = old(self).entries();
        proof {
            lemma_sorted_distinct(s1);
        }
        match self.locate(k) {
            Ok(i) => {
                proof {
                    lemma_map_of_index(s1, i as int);
                }
                let (k0, old_entry) = self.store.remove(i);
                if old_entry.expiration().is_expired(now) {
                    self.store.insert(i, (k0, old_entry));
                    proof {
                        assert(self.entries() =~= s1);
                    }
                } else {
                    let exp = *old_entry.expiration();
                    let nv = f(old_entry.into_inner());
                    let new_entry = CacheEntry::new(nv, exp);
                    let ghost ge = new_entry;
                    self.store.insert(i, (k0, new_entry));
                    proof {
                        assert(self.entries() =~= s1.update(i as int, (k0, ge)));
                        lemma_update_same_key(s1, i as int, (k0, ge));
                        assert(f.ensures((old(self).as_map()[*k].0,), nv) && self.as_map()
                            == old(self).as_map().insert(*k, (nv, old(self).as_map()[*k].1)));
                    }
                }
            }
            Err(_) => {
                proof {
                    lemma_map_of_contains(s1, *k);
                }
            }
        }
    }

    /// Replace the deadline of the entry under `k` wholesale, the value
    /// untouched.
    ///
    /// On an absent or expired key nothing at all happens.
    pub fn set_expiration(&mut self, k: &K, e: CacheExpiration, now: u64)
        requires
            old(self).wf(),
        ensures
            final(self).wf(),
            final(self).spec_label() == old(self).spec_label(),
            old(self).live_at(*k, now) ==> final(self).as_map() == old(self).as_map().insert(
                *k,
                (old(self).as_map()[*k].0, e@),
            ),
            !old(self).live_at(*k, now) ==> final(self).as_map() == old(self).as_map(),
    {
        let ghost s1 = old(self).entries();
        proof {
            lemma_sorted_distinct(s1);
        }
        match self.locate(k) {
            Ok(i) => {
                proof {
                    lemma_map_of_index(s1, i as int);
                }
                let (k0, old_entry) = self.store.remove(i);
                if old_entry.expiration().is_expired(now) {
                    self.store.insert(i, (k0, old_entry));
                    proof {
                        assert(self.entries() =~= s1);
                    }
                } else {
                    let new_entry = CacheEntry::new(old_entry.into_inner(), e);
                    let ghost ge = new_entry;
                    self.store.insert(i, (k0, new_entry));
                    proof {
                        assert(self.entries() =~= s1.update(i as int, (k0, ge)));
                        lemma_update_same_key(s1, i as int, (k0, ge));
                    }
                }
            }
            Err(_) => {
                proof {
                    lemma_map_of_contains(s1, *k);
                }
            }
        }
    }
    /// How many resident entries have passed their deadline at `now`.
    ///
    /// A full walk of the store: not for hot paths.
    pub fn expired(&self, now: u64) -> (r: usize)
        requires
            self.wf(),
        ensures
            r == expired_keys(self.as_map(), now).len(),
    {
        let ghost s = self.entries();
        proof {
            lemma_sorted_distinct(s);
            lemma_expiry_counts(s, now);
        }
        let n = self.store.len();
        let mut c: usize = 0;
        let mut i: usize = 0;
        while i < n
            invariant
                s == self.entries(),
                n == s.len(),
                i <= n,
                c <= i,
                c == expired_upto(s, now, i as int),
            decreases n - i,
        {
            if self.store[i].1.expiration().is_expired(now) {
                c = c + 1;
            }
            i = i + 1;
        }
        c
    }

    /// How many resident entries have not passed their deadline at `now`.
    ///
    /// A full walk of the store: not for hot paths.
    pub fn unexpired(&self, now: u64) -> (r: usize)
        requires
            self.wf(),
        ensures
            r == live_keys(self.as_map(), now).len(),
    {
        let ghost s = self.entries();
        proof {
            lemma_sorted_distinct(s);
            lemma_expiry_counts(s, now);
        }
        let e = self.expired(now);
        self.store.len() - e
    }
    /// Which of the given store positions hold an entry whose deadline has
    /// passed at `now`, ascending, inspecting only those positions.
    ///
    /// This is the scanning half of a sweep batch: a host holding the read
    /// side of an upgradable lock calls it on positions drawn by
    /// `sample_positions`, and hands what comes back to `remove_positions`
    /// once it holds the write side.
    pub fn collect_expired(&self, positions: &Vec<usize>, now: u64) -> (r: Vec<usize>)
        requires
            self.wf(),
            strictly_increasing(positions@),
            forall|b: int|
                #![trigger positions@[b]]
                0 <= b < positions@.len() ==> positions@[b] < self.entries().len(),
        ensures
            strictly_increasing(r@),
            r@.len() <= positions@.len(),
            forall|a: int|
                #![trigger r@[a]]
                0 <= a < r@.len() ==> r@[a] < self.entries().len() && expired_at(
                    self.entries()[r@[a] as int].1.spec_instant(),
                    now,
                ) && positions@.contains(r@[a]),
            forall|b: int|
                #![trigger positions@[b]]
                0 <= b < positions@.len() ==> (r@.contains(positions@[b]) <==> expired_at(
                    self.entries()[positions@[b] as int].1.spec_instant(),
                    now,
                )),
            (forall|b: int|
                #![trigger positions@[b]]
                0 <= b < positions@.len() ==> expired_at(
                    self.entries()[positions@[b] as int].1.spec_instant(),
                    now,
                )) ==> r@.len() == positions@.len(),
    {
        let ghost s = self.entries();
        let ghost ps = positions@;
        let m = positions.len();
        let mut hits: Vec<usize> = Vec::new();
        let mut b: usize = 0;
        while b < m
            invariant
                self.wf(),
                s == self.entries(),
                ps == positions@,
                m == ps.len(),
                b <= m,
                forall|c: int| #![trigger ps[c]] 0 <= c < m ==> ps[c] < s.len(),
                strictly_increasing(ps),
                strictly_increasing(hits@),
                hits@.len() <= b,
                forall|a: int|
                    #![trigger hits@[a]]
                    0 <= a < hits@.len() ==> hits@[a] < s.len() && expired_at(
                        s[hits@[a] as int].1.spec_instant(),
                        now,
                    ) && ps.contains(hits@[a]),
                forall|c: int|
                    #![trigger ps[c]]
                    0 <= c < b ==> (hits@.contains(ps[c]) <==> expired_at(
                        s[ps[c] as int].1.spec_instant(),
                        now,
                    )),
                hits@.len() > 0 ==> b > 0 && hits@[hits@.len() - 1] <= ps[b - 1],
                (forall|c: int|
                    #![trigger ps[c]]
                    0 <= c < b ==> expired_at(s[ps[c] as int].1.spec_instant(), now)) ==> hits@.len()
                    == b,
            decreases m - b,
        {
            let idx = positions[b];
            let ghost h0 = hits@;
            proof {
                assert forall|a: int| 0 <= a < h0.len() implies #[trigger] h0[a] < idx by {
                    if a < h0.len() - 1 {
                        assert(h0[a] < h0[h0.len() - 1]);
                    }
                    assert(ps[b - 1] < ps[b as int]);
                }
            }
            if self.store[idx].1.expiration().is_expired(now) {
                hits.push(idx);
                proof {
                    assert(ps.contains(ps[b as int]));
                    assert(hits@[hits@.len() - 1] == idx);
                    assert forall|c: int| 0 <= c < b + 1 implies (hits@.contains(
                        #[trigger] ps[c],
                    ) <==> expired_at(s[ps[c] as int].1.spec_instant(), now)) by {
                        if c < b {
                            if h0.contains(ps[c]) {
                                let a = choose|a: int| 0 <= a < h0.len() && h0[a] == ps[c];
                                assert(hits@[a] == ps[c]);
                            }
                            if hits@.contains(ps[c]) && !h0.contains(ps[c]) {
                                let a = choose|a: int| 0 <= a < hits@.len() && hits@[a] == ps[c];
                                assert(a == hits@.len() - 1 || h0[a] == ps[c]);
                                assert(ps[c] < ps[b as int]);
                            }
                        } else {
                            assert(hits@.contains(ps[c])) by {
                                assert(hits@[hits@.len() - 1] == ps[c]);
                            }
                        }
                    }
                }
            } else {
                proof {
                    assert forall|c: int| 0 <= c < b + 1 implies (hits@.contains(
                        #[trigger] ps[c],
                    ) <==> expired_at(s[ps[c] as int].1.spec_instant(), now)) by {
                        if c == b {
                            if hits@.contains(ps[c]) {
                                let a = choose|a: int| 0 <= a < hits@.len() && hits@[a] == ps[c];
                                assert(hits@[a] < idx);
                            }
                        }
                    }
                }
            }
            b = b + 1;
        }
        proof {
            assert forall|c: int| 0 <= c < m implies (hits@.contains(#[trigger] ps[c]) <==> expired_at(
                s[ps[c] as int].1.spec_instant(),
                now,
            )) by {}
        }
        hits
    }
    /// Delete the entries at the given store positions, all at once.
    ///
    /// This is the deleting half of a sweep batch: the positions come from
    /// `collect_expired`, and a host interleaving the steps itself calls
    /// this only after upgrading its lock in place, so the positions still
    /// name the entries its scan saw.
    pub fn remove_positions(&mut self, positions: &Vec<usize>)
        requires
            old(self).wf(),
            strictly_increasing(positions@),
            forall|b: int|
                #![trigger positions@[b]]
                0 <= b < positions@.len() ==> positions@[b] < old(self).entries().len(),
        ensures
            final(self).wf(),
            final(self).spec_label() == old(self).spec_label(),
            final(self).entries().len() == old(self).entries().len() - positions@.len(),
            forall|x: K|
                #![trigger final(self).as_map().dom().contains(x)]
                final(self).as_map().contains_key(x) <==> (old(self).as_map().contains_key(x)
                    && !(exists|b: int|
                    #![trigger positions@[b]]
                    0 <= b < positions@.len() && old(self).entries()[positions@[b] as int].0 == x)),
            forall|x: K|
                #![trigger final(self).as_map().dom().contains(x)]
                final(self).as_map().contains_key(x) ==> final(self).as_map()[x] == old(
                    self,
                ).as_map()[x],
    {
        let ghost s1 = old(self).entries();
        let ghost ps = positions@;
        proof {
            lemma_sorted_distinct(s1);
        }
        let m = positions.len();
        let mut j = m;
        while j > 0
            invariant
                ps == positions@,
                m == ps.len(),
                strictly_increasing(ps),
                strictly_sorted(s1),
                forall|b: int| #![trigger ps[b]] 0 <= b < m ==> ps[b] < s1.len(),
                j <= m,
                self.wf(),
                self.spec_label() == old(self).spec_label(),
                self.entries().len() == s1.len() - (m - j),
                forall|t: int|
                    #![trigger self.entries()[t]]
                    0 <= t < (if (j as int) < ps.len() {
                        ps[j as int] as int
                    } else {
                        s1.len() as int
                    }) ==> self.entries()[t] == s1[t],
                forall|x: K|
                    #![trigger self.as_map().dom().contains(x)]
                    self.as_map().contains_key(x) <==> (map_of(s1).contains_key(x) && !(
                    exists|b: int|
                        #![trigger ps[b]]
                        j <= b < m && s1[ps[b] as int].0 == x)),
                forall|x: K|
                    #![trigger self.as_map().dom().contains(x)]
                    self.as_map().contains_key(x) ==> self.as_map()[x] == map_of(s1)[x],
            decreases j,
        {
            j = j - 1;
            let idx = positions[j];
            let ghost scur = self.entries();
            let ghost mcur = self.as_map();
            let ghost key_j = s1[ps[j as int] as int].0;
            proof {
                assert(mcur == map_of(scur));
                lemma_increasing_gap(ps, j as int, m - 1);
                assert(idx < scur.len());
                assert(scur[idx as int] == s1[idx as int]);
                lemma_remove_at(scur, idx as int);
                lemma_sorted_distinct(scur);
                lemma_map_of_index(scur, idx as int);
                lemma_map_of_contains(scur, key_j);
            }
            let _ = self.store.remove(idx);
            proof {
                let snew = self.entries();
                assert(snew == scur.remove(idx as int));
                assert(map_of(snew) == map_of(scur).remove(key_j));
                assert forall|x: K|
                    self.as_map().dom().contains(x) <==> (map_of(s1).contains_key(x) && !(
                exists|b: int|
                    #![trigger ps[b]]
                    j <= b < m && s1[ps[b] as int].0 == x)) by {
                    if self.as_map().contains_key(x) {
                        assert(map_of(scur).contains_key(x) && x != key_j);
                        if exists|b: int| #![trigger ps[b]] j <= b < m && s1[ps[b] as int].0 == x {
                            let b = choose|b: int|
                                #![trigger ps[b]]
                                j <= b < m && s1[ps[b] as int].0 == x;
                            if b == j {
                                assert(false);
                            } else {
                                assert(j + 1 <= b < m && s1[ps[b] as int].0 == x);
                                assert(exists|b2: int|
                                    #![trigger ps[b2]]
                                    j + 1 <= b2 < m && s1[ps[b2] as int].0 == x);
                                assert(!mcur.contains_key(x));
                                assert(false);
                            }
                        }
                    }
                    if map_of(s1).contains_key(x) && !(exists|b: int|
                        #![trigger ps[b]]
                        j <= b < m && s1[ps[b] as int].0 == x) {
                        assert forall|b: int| j + 1 <= b < m implies s1[#[trigger] ps[b] as int].0
                            != x by {
                            if s1[ps[b] as int].0 == x {
                                assert(j <= b < m && s1[ps[b] as int].0 == x);
                            }
                        }
                        assert(map_of(scur).contains_key(x));
                        assert(x != key_j) by {
                            if x == key_j {
                                assert(j <= j < m && s1[ps[j as int] as int].0 == x);
                            }
                        }
                        assert(self.as_map().contains_key(x));
                    }
                }
                assert forall|x: K| self.as_map().dom().contains(x) implies self.as_map()[x]
                    == map_of(s1)[x] by {
                    assert(map_of(scur).contains_key(x) && x != key_j);
                    assert(self.as_map()[x] == map_of(scur)[x]);
                }
                assert forall|t: int|
                    0 <= t < (if (j as int) < ps.len() {
                        ps[j as int] as int
                    } else {
                        s1.len() as int
                    }) implies #[trigger] self.entries()[t] == s1[t] by {
                    assert(snew[t] == scur[t]);
                }
            }
        }
    }
    /// One sweep: batches of random sampling and deletion, repeated while
    /// each batch finds expired entries at or above `threshold`.
    ///
    /// Every batch samples `min(sample, len)` distinct positions, deletes
    /// the expired entries among them, and stops the sweep once a batch
    /// finds nothing, or fewer than the threshold fraction of its sample.
    /// A sweep never deletes a live entry, whatever the sampling drew; and
    /// once every resident entry has expired, a sweep with a sample of at
    /// least one and a threshold of at most one drains the store entirely.
    pub fn purge(&mut self, sample: usize, threshold: Threshold, now: u64)
        requires
            old(self).wf(),
            threshold.denom > 0,
        ensures
            final(self).wf(),
            final(self).spec_label() == old(self).spec_label(),
            forall|x: K|
                #![trigger final(self).as_map().dom().contains(x)]
                final(self).as_map().contains_key(x) ==> old(self).as_map().contains_key(x)
                    && final(self).as_map()[x] == old(self).as_map()[x],
            forall|x: K|
                #![trigger old(self).as_map().dom().contains(x)]
                old(self).as_map().contains_key(x) && !final(self).as_map().contains_key(x)
                    ==> expired_at(old(self).as_map()[x].1, now),
            (sample >= 1 && threshold.numer <= threshold.denom && all_expired(
                old(self).as_map(),
                now,
            )) ==> final(self).as_map() == Map::<K, (V, Option<u64>)>::empty(),
    {
        let ghost m0 = old(self).as_map();
        let ghost l0 = old(self).spec_label();
        let ghost hyp = sample >= 1 && threshold.numer <= threshold.denom && all_expired(m0, now);
        loop
            invariant_except_break
                self.wf(),
                threshold.denom > 0,
                m0 == old(self).as_map(),
                l0 == old(self).spec_label(),
                hyp == (sample >= 1 && threshold.numer <= threshold.denom && all_expired(m0, now)),
                self.spec_label() == l0,
                forall|x: K|
                    #![trigger self.as_map().dom().contains(x)]
                    self.as_map().contains_key(x) ==> m0.contains_key(x) && self.as_map()[x]
                        == m0[x],
                forall|x: K|
                    #![trigger m0.dom().contains(x)]
                    m0.contains_key(x) && !self.as_map().contains_key(x) ==> expired_at(
                        m0[x].1,
                        now,
                    ),
            ensures
                self.wf(),
                self.spec_label() == l0,
                forall|x: K|
                    #![trigger self.as_map().dom().contains(x)]
                    self.as_map().contains_key(x) ==> m0.contains_key(x) && self.as_map()[x]
                        == m0[x],
                forall|x: K|
                    #![trigger m0.dom().contains(x)]
                    m0.contains_key(x) && !self.as_map().contains_key(x) ==> expired_at(
                        m0[x].1,
                        now,
                    ),
                hyp ==> self.as_map() == Map::<K, (V, Option<u64>)>::empty(),
            decreases self.entries().len(),
        {
            let total = self.store.len();
            if total == 0 {
                proof {
                    assert(self.as_map() =~= Map::<K, (V, Option<u64>)>::empty());
                }
                break;
            }
            let positions = sample_positions(sample, total);
            let hits = self.collect_expired(&positions, now);
            proof {
                if hyp {
                    let s = self.entries();
                    assert forall|b: int| 0 <= b < positions@.len() implies expired_at(
                        s[#[trigger] positions@[b] as int].1.spec_instant(),
                        now,
                    ) by {
                        lemma_sorted_distinct(s);
                        lemma_map_of_index(s, positions@[b] as int);
                        let kb = s[positions@[b] as int].0;
                        assert(self.as_map().contains_key(kb));
                        assert(m0.dom().contains(kb));
                        assert(expired_at(m0[kb].1, now));
                    }
                    assert(hits@.len() == positions@.len());
                }
            }
            let gone = hits.len();
            if gone == 0 {
                proof {
                    if hyp {
                        assert(positions@.len() >= 1);
                        assert(false);
                    }
                }
                break;
            }
            let ghost pre = *self;
            self.remove_positions(&hits);
            proof {
                assert forall|x: K| self.as_map().dom().contains(x) implies m0.contains_key(x)
                    && self.as_map()[x] == m0[x] by {
                    assert(pre.as_map().contains_key(x));
                }
                assert forall|x: K| m0.dom().contains(x) && !self.as_map().contains_key(x)
                    implies expired_at(m0[x].1, now) by {
                    if pre.as_map().contains_key(x) {
                        let b = choose|b: int|
                            #![trigger hits@[b]]
                            0 <= b < hits@.len() && pre.entries()[hits@[b] as int].0 == x;
                        lemma_sorted_distinct(pre.entries());
                        lemma_map_of_index(pre.entries(), hits@[b] as int);
                    }
                }
            }
            let sampled = positions.len();
            proof {
                lemma_product_fits(gone as int, threshold.denom as int);
                lemma_product_fits(sampled as int, threshold.numer as int);
            }
            if (gone as u128) * (threshold.denom as u128) < (sampled as u128) * (threshold.numer
                as u128) {
                proof {
                    if hyp {
                        lemma_mul_inequality(
                            threshold.numer as int,
                            threshold.denom as int,
                            sampled as int,
                        );
                        assert(false);
                    }
                }
                break;
            }
        }
    }
}

/// A fresh cache is the empty cache.
impl<K: OrderedKey, V> Default for Cache<K, V> {
    fn default() -> (r: Self)
        ensures
            r.wf(),
            r.as_map() == Map::<K, (V, Option<u64>)>::empty(),
            r.spec_label() == Seq::<char>::empty(),
    {
        Cache::new()
    }
}

} // verus!
