//! Laws of the cache's model.
//!
//! Each law here states, over the map model the operations' contracts speak
//! of, how two operations compose. The operations themselves promise how
//! they change or read the map; these lemmas close the loop by proving what
//! a caller then observes.

use vstd::prelude::*;

use crate::entry::expired_at;

verus! {

/// Immediately after `insert(k, v, e)` at `now`, with `e` not yet past at
/// `now`, a lookup at `now` finds `k` live and yields `v`.
///
/// `insert` turns the map `m` into `m.insert(k, (v, e))`; `get` yields the
/// stored value exactly when the key is resident and not expired.
pub proof fn lemma_insert_then_get<K, V>(
    m: Map<K, (V, Option<u64>)>,
    k: K,
    v: V,
    e: Option<u64>,
    now: u64,
)
    requires
        !expired_at(e, now),
    ensures
        m.insert(k, (v, e)).contains_key(k),
        !expired_at(m.insert(k, (v, e))[k].1, now),
        m.insert(k, (v, e))[k].0 == v,
{
}

/// After `remove(k)` the key is gone, so a lookup finds nothing; and the
/// resident count drops by one exactly when `k` was resident before,
/// expired or not.
pub proof fn lemma_remove_then_get<K, V>(m: Map<K, (V, Option<u64>)>, k: K)
    requires
        m.dom().finite(),
    ensures
        !m.remove(k).contains_key(k),
        m.contains_key(k) ==> m.remove(k).dom().len() == m.dom().len() - 1,
        !m.contains_key(k) ==> m.remove(k).dom().len() == m.dom().len(),
{
    if !m.contains_key(k) {
        assert(m.remove(k) =~= m);
    }
}

/// Two inserts of the same key in a row: the second hands back the first
/// value exactly when the first entry has not expired by the time of the
/// second call, and nothing otherwise; what is read afterwards is the
/// second value.
///
/// The first insert turns `m` into `m1 = m.insert(k, (v1, e1))`; `insert`'s
/// own contract then returns `Some(m1[k].0)` on a live key and `None` on an
/// expired or absent one, and leaves `m1.insert(k, (v2, e2))` behind.
pub proof fn lemma_insert_twice<K, V>(
    m: Map<K, (V, Option<u64>)>,
    k: K,
    v1: V,
    e1: Option<u64>,
    v2: V,
    e2: Option<u64>,
    now: u64,
)
    ensures
        m.insert(k, (v1, e1)).contains_key(k),
        m.insert(k, (v1, e1))[k].0 == v1,
        m.insert(k, (v1, e1)).insert(k, (v2, e2))[k].0 == v2,
        m.insert(k, (v1, e1)).insert(k, (v2, e2)) == m.insert(k, (v2, e2)),
{
    assert(m.insert(k, (v1, e1)).insert(k, (v2, e2)) =~= m.insert(k, (v2, e2)));
}

} // verus!
