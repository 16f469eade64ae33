//! The model of the store.
//!
//! The store itself is a vector of key/entry pairs kept strictly ascending in
//! the key order. Contracts do not speak of the vector: they speak of the
//! finite map it denotes, built here by `map_of`. The lemmas relate the two
//! sides: what holding, inserting, updating or removing a pair does to the
//! map, and that a strictly sorted sequence has each key at most once.

use vstd::prelude::*;

use crate::entry::{expired_at, CacheEntry};
use crate::key::OrderedKey;

verus! {

/// What one entry stands for: its value and its optional deadline.
pub open spec fn entry_model<V>(e: CacheEntry<V>) -> (V, Option<u64>) {
    (e.spec_value(), e.spec_instant())
}

/// Keys strictly ascending: every earlier key is at or before every later
/// one and no key repeats.
pub open spec fn strictly_sorted<K: OrderedKey, V>(s: Seq<(K, CacheEntry<V>)>) -> bool {
    forall|i: int, j: int|
        #![trigger s[i], s[j]]
        0 <= i < j < s.len() ==> s[i].0.le(s[j].0) && s[i].0 != s[j].0
}

/// No key occurs twice.
pub open spec fn distinct_keys<K: OrderedKey, V>(s: Seq<(K, CacheEntry<V>)>) -> bool {
    forall|i: int, j: int| #![trigger s[i], s[j]] 0 <= i < j < s.len() ==> s[i].0 != s[j].0
}

/// Some pair of the sequence holds the key `k`.
pub open spec fn has_key<K: OrderedKey, V>(s: Seq<(K, CacheEntry<V>)>, k: K) -> bool {
    exists|i: int| #![trigger s[i]] 0 <= i < s.len() && s[i].0 == k
}

/// A position at which the key `k` stands, when it stands anywhere.
pub open spec fn index_of_key<K: OrderedKey, V>(s: Seq<(K, CacheEntry<V>)>, k: K) -> int {
    choose|i: int| #![trigger s[i]] 0 <= i < s.len() && s[i].0 == k
}

/// The finite map the sequence denotes. Later pairs would win over earlier
/// ones; on a sequence with distinct keys there is nothing to win.
pub open spec fn map_of<K: OrderedKey, V>(s: Seq<(K, CacheEntry<V>)>) -> Map<K, (V, Option<u64>)>
    decreases s.len(),
{
    if s.len() == 0 {
        Map::empty()
    } else {
        map_of(s.drop_last()).insert(s.last().0, entry_model(s.last().1))
    }
}

/// A strictly sorted sequence has no key twice.
pub proof fn lemma_sorted_distinct<K: OrderedKey, V>(s: Seq<(K, CacheEntry<V>)>)
    requires
        strictly_sorted(s),
    ensures
        distinct_keys(s),
{
}

/// The map holds exactly the keys the sequence holds.
pub proof fn lemma_map_of_contains<K: OrderedKey, V>(s: Seq<(K, CacheEntry<V>)>, k: K)
    ensures
        map_of(s).contains_key(k) <==> has_key(s, k),
    decreases s.len(),
{
    if s.len() == 0 {
    } else {
        lemma_map_of_contains(s.drop_last(), k);
        if map_of(s).contains_key(k) {
            if k == s.last().0 {
                assert(s[s.len() - 1].0 == k);
            } else {
                let i = index_of_key(s.drop_last(), k);
                assert(s[i] == s.drop_last()[i]);
            }
        }
        if has_key(s, k) {
            let i = index_of_key(s, k);
            if i < s.len() - 1 {
                assert(s.drop_last()[i] == s[i]);
                assert(has_key(s.drop_last(), k));
            }
        }
    }
}

/// At each position, the map takes that pair's key to that pair's model.
pub proof fn lemma_map_of_index<K: OrderedKey, V>(s: Seq<(K, CacheEntry<V>)>, i: int)
    requires
        distinct_keys(s),
        0 <= i < s.len(),
    ensures
        map_of(s).contains_key(s[i].0),
        map_of(s)[s[i].0] == entry_model(s[i].1),
    decreases s.len(),
{
    if i == s.len() - 1 {
    } else {
        assert(s.drop_last()[i] == s[i]);
        lemma_map_of_index(s.drop_last(), i);
        assert(s[i].0 != s.last().0);
    }
}

/// The map is finite and as large as the sequence.
pub proof fn lemma_map_of_len<K: OrderedKey, V>(s: Seq<(K, CacheEntry<V>)>)
    requires
        distinct_keys(s),
    ensures
        map_of(s).dom().finite(),
        map_of(s).dom().len() == s.len(),
    decreases s.len(),
{
    if s.len() == 0 {
        assert(map_of(s).dom() =~= Set::<K>::empty());
    } else {
        lemma_map_of_len(s.drop_last());
        lemma_map_of_contains(s.drop_last(), s.last().0);
        if has_key(s.drop_last(), s.last().0) {
            let i = index_of_key(s.drop_last(), s.last().0);
            assert(s[i] == s.drop_last()[i]);
            assert(false);
        }
    }
}

/// Replacing the pair at `i` by one with the same key keeps the order and
/// turns the map's value for that key into the new pair's model.
pub proof fn lemma_update_same_key<K: OrderedKey, V>(
    s: Seq<(K, CacheEntry<V>)>,
    i: int,
    p: (K, CacheEntry<V>),
)
    requires
        strictly_sorted(s),
        0 <= i < s.len(),
        p.0 == s[i].0,
    ensures
        strictly_sorted(s.update(i, p)),
        map_of(s.update(i, p)) == map_of(s).insert(p.0, entry_model(p.1)),
{
    let s2 = s.update(i, p);
    assert(forall|m: int| #![trigger s2[m]] 0 <= m < s2.len() ==> s2[m].0 == s[m].0);
    lemma_sorted_distinct(s);
    assert(strictly_sorted(s2));
    lemma_sorted_distinct(s2);
    let goal = map_of(s).insert(p.0, entry_model(p.1));
    assert forall|x: K| map_of(s2).dom().contains(x) == goal.dom().contains(x) by {
        if map_of(s2).contains_key(x) {
            lemma_map_of_contains(s2, x);
            let j = index_of_key(s2, x);
            assert(s[j].0 == x);
            lemma_map_of_contains(s, x);
        }
        if goal.contains_key(x) && x != p.0 {
            lemma_map_of_contains(s, x);
            let j = index_of_key(s, x);
            assert(s2[j].0 == x);
            lemma_map_of_contains(s2, x);
        }
        if x == p.0 {
            assert(s2[i].0 == x);
            lemma_map_of_contains(s2, x);
        }
    }
    assert(map_of(s2).dom() =~= goal.dom());
    assert forall|x: K| map_of(s2).dom().contains(x) implies map_of(s2)[x] == goal[x] by {
        lemma_map_of_contains(s2, x);
        let j = index_of_key(s2, x);
        lemma_map_of_index(s2, j);
        if j == i {
            assert(x == p.0);
        } else {
            assert(s2[j] == s[j]);
            lemma_map_of_index(s, j);
            assert(x != p.0);
        }
    }
    assert(map_of(s2) =~= goal);
}

/// Putting a fresh key in at the position the order gives it keeps the order
/// and adds exactly that key to the map.
pub proof fn lemma_insert_fresh_key<K: OrderedKey, V>(
    s: Seq<(K, CacheEntry<V>)>,
    i: int,
    p: (K, CacheEntry<V>),
)
    requires
        strictly_sorted(s),
        0 <= i <= s.len(),
        forall|j: int| #![trigger s[j]] 0 <= j < i ==> s[j].0.le(p.0) && s[j].0 != p.0,
        forall|j: int| #![trigger s[j]] i <= j < s.len() ==> p.0.le(s[j].0) && p.0 != s[j].0,
    ensures
        strictly_sorted(s.insert(i, p)),
        map_of(s.insert(i, p)) == map_of(s).insert(p.0, entry_model(p.1)),
{
    let s2 = s.insert(i, p);
    assert(forall|m: int| #![trigger s2[m]] 0 <= m < i ==> s2[m] == s[m]);
    assert(s2[i] == p);
    assert(forall|m: int| #![trigger s2[m]] i < m < s2.len() ==> s2[m] == s[m - 1]);
    assert forall|m: int, n: int| 0 <= m < n < s2.len() implies #[trigger] s2[m].0.le(
        #[trigger] s2[n].0,
    ) && s2[m].0 != s2[n].0 by {
        if m < i && n == i {
        } else if m == i && n > i {
        } else if m < i && n > i {
            assert(s2[m] == s[m] && s2[n] == s[n - 1]);
        }
    }
    lemma_sorted_distinct(s);
    lemma_sorted_distinct(s2);
    let goal = map_of(s).insert(p.0, entry_model(p.1));
    assert forall|x: K| map_of(s2).dom().contains(x) == goal.dom().contains(x) by {
        if map_of(s2).contains_key(x) && x != p.0 {
            lemma_map_of_contains(s2, x);
            let j = index_of_key(s2, x);
            if j < i {
                assert(s[j].0 == x);
            } else {
                assert(s[j - 1].0 == x);
            }
            lemma_map_of_contains(s, x);
        }
        if goal.contains_key(x) && x != p.0 {
            lemma_map_of_contains(s, x);
            let j = index_of_key(s, x);
            if j < i {
                assert(s2[j].0 == x);
            } else {
                assert(s2[j + 1].0 == x);
            }
            lemma_map_of_contains(s2, x);
        }
        if x == p.0 {
            assert(s2[i].0 == x);
            lemma_map_of_contains(s2, x);
        }
    }
    assert(map_of(s2).dom() =~= goal.dom());
    assert forall|x: K| map_of(s2).dom().contains(x) implies map_of(s2)[x] == goal[x] by {
        lemma_map_of_contains(s2, x);
        let j = index_of_key(s2, x);
        lemma_map_of_index(s2, j);
        if j == i {
            assert(x == p.0);
        } else if j < i {
            lemma_map_of_index(s, j);
            assert(x != p.0);
        } else {
            assert(s2[j] == s[j - 1]);
            lemma_map_of_index(s, j - 1);
            assert(x != p.0);
        }
    }
    assert(map_of(s2) =~= goal);
}

/// The keys of `m` whose deadline has passed at `now`.
pub open spec fn expired_keys<K, V>(m: Map<K, (V, Option<u64>)>, now: u64) -> Set<K> {
    m.dom().filter(|k: K| expired_at(m[k].1, now))
}

/// Every resident entry of `m` has passed its deadline at `now`.
pub open spec fn all_expired<K, V>(m: Map<K, (V, Option<u64>)>, now: u64) -> bool {
    forall|x: K| #![trigger m.dom().contains(x)] m.contains_key(x) ==> expired_at(m[x].1, now)
}

/// The keys of `m` whose deadline has not passed at `now`.
pub open spec fn live_keys<K, V>(m: Map<K, (V, Option<u64>)>, now: u64) -> Set<K> {
    m.dom().filter(|k: K| !expired_at(m[k].1, now))
}

/// How many of the first `n` pairs have passed their deadline at `now`.
pub open spec fn expired_upto<K: OrderedKey, V>(
    s: Seq<(K, CacheEntry<V>)>,
    now: u64,
    n: int,
) -> int
    decreases n,
{
    if n <= 0 {
        0
    } else {
        expired_upto(s, now, n - 1) + (if expired_at(s[n - 1].1.spec_instant(), now) {
            1int
        } else {
            0int
        })
    }
}

/// The counts over a prefix depend only on the pairs of the prefix.
pub proof fn lemma_upto_agree<K: OrderedKey, V>(
    s1: Seq<(K, CacheEntry<V>)>,
    s2: Seq<(K, CacheEntry<V>)>,
    now: u64,
    n: int,
)
    requires
        0 <= n <= s1.len(),
        n <= s2.len(),
        forall|m: int| #![trigger s1[m]] 0 <= m < n ==> s1[m] == s2[m],
    ensures
        expired_upto(s1, now, n) == expired_upto(s2, now, n),
    decreases n,
{
    if n > 0 {
        lemma_upto_agree(s1, s2, now, n - 1);
    }
}

/// Counting expired pairs along the sequence counts the expired keys of the
/// map, and that set is finite; the live keys make up the rest.
pub proof fn lemma_expiry_counts<K: OrderedKey, V>(s: Seq<(K, CacheEntry<V>)>, now: u64)
    requires
        distinct_keys(s),
    ensures
        expired_keys(map_of(s), now).finite(),
        live_keys(map_of(s), now).finite(),
        expired_upto(s, now, s.len() as int) == expired_keys(map_of(s), now).len(),
        expired_keys(map_of(s), now).len() + live_keys(map_of(s), now).len() == s.len(),
    decreases s.len(),
{
    if s.len() == 0 {
        assert(expired_keys(map_of(s), now) =~= Set::<K>::empty());
        assert(live_keys(map_of(s), now) =~= Set::<K>::empty());
    } else {
        let dl = s.drop_last();
        let k0 = s.last().0;
        lemma_expiry_counts(dl, now);
        lemma_upto_agree(s, dl, now, s.len() - 1);
        lemma_map_of_contains(dl, k0);
        if has_key(dl, k0) {
            let i = index_of_key(dl, k0);
            assert(s[i] == dl[i]);
            assert(false);
        }
        if expired_at(s.last().1.spec_instant(), now) {
            assert(expired_keys(map_of(s), now) =~= expired_keys(map_of(dl), now).insert(k0));
            assert(live_keys(map_of(s), now) =~= live_keys(map_of(dl), now));
        } else {
            assert(expired_keys(map_of(s), now) =~= expired_keys(map_of(dl), now));
            assert(live_keys(map_of(s), now) =~= live_keys(map_of(dl), now).insert(k0));
        }
    }
}

/// Taking the pair at `i` out keeps the order and takes exactly its key out
/// of the map.
pub proof fn lemma_remove_at<K: OrderedKey, V>(s: Seq<(K, CacheEntry<V>)>, i: int)
    requires
        strictly_sorted(s),
        0 <= i < s.len(),
    ensures
        strictly_sorted(s.remove(i)),
        map_of(s.remove(i)) == map_of(s).remove(s[i].0),
{
    let s2 = s.remove(i);
    assert(forall|m: int| #![trigger s2[m]] 0 <= m < i ==> s2[m] == s[m]);
    assert(forall|m: int| #![trigger s2[m]] i <= m < s2.len() ==> s2[m] == s[m + 1]);
    assert forall|m: int, n: int| 0 <= m < n < s2.len() implies #[trigger] s2[m].0.le(
        #[trigger] s2[n].0,
    ) && s2[m].0 != s2[n].0 by {
        if m < i && n >= i {
            assert(s2[m] == s[m] && s2[n] == s[n + 1]);
        }
    }
    lemma_sorted_distinct(s);
    lemma_sorted_distinct(s2);
    let goal = map_of(s).remove(s[i].0);
    assert forall|x: K| map_of(s2).dom().contains(x) == goal.dom().contains(x) by {
        if map_of(s2).contains_key(x) {
            lemma_map_of_contains(s2, x);
            let j = index_of_key(s2, x);
            if j < i {
                assert(s[j].0 == x);
                assert(x != s[i].0);
            } else {
                assert(s[j + 1].0 == x);
                assert(x != s[i].0);
            }
            lemma_map_of_contains(s, x);
        }
        if goal.contains_key(x) {
            lemma_map_of_contains(s, x);
            let j = index_of_key(s, x);
            assert(j != i);
            if j < i {
                assert(s2[j].0 == x);
            } else {
                assert(s2[j - 1].0 == x);
            }
            lemma_map_of_contains(s2, x);
        }
    }
    assert(map_of(s2).dom() =~= goal.dom());
    assert forall|x: K| map_of(s2).dom().contains(x) implies map_of(s2)[x] == goal[x] by {
        lemma_map_of_contains(s2, x);
        let j = index_of_key(s2, x);
        lemma_map_of_index(s2, j);
        if j < i {
            lemma_map_of_index(s, j);
            assert(x != s[i].0);
        } else {
            assert(s2[j] == s[j + 1]);
            lemma_map_of_index(s, j + 1);
            assert(x != s[i].0);
        }
    }
    assert(map_of(s2) =~= goal);
}

} // verus!
