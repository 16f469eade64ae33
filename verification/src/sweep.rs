//! Active eviction by randomized sampling.
//!
//! A sweep never scans the whole store. It draws a bounded number of
//! distinct positions at random, inspects only those, deletes the expired
//! entries it found, and repeats while the sample's expired share stays at
//! or above a threshold: a rich sample suggests more staleness nearby, a
//! poor one that waiting for the next tick is cheaper. The bound this buys
//! is statistical and local to what was sampled; it says nothing about
//! entries no sample reached.
//!
//! A host that keeps the store behind an upgradable lock can interleave the
//! same steps itself: `sample_positions`, then the cache's `collect_expired`
//! under the read side, then its `remove_positions` after upgrading in
//! place, so nothing changes the store between the scan and the deletion.

use vstd::prelude::*;

use crate::rng::draw_in_range;

verus! {

/// Positions strictly ascending: distinct, in walking order.
pub open spec fn strictly_increasing(s: Seq<usize>) -> bool {
    forall|a: int, b: int| #![trigger s[a], s[b]] 0 <= a < b < s.len() ==> s[a] < s[b]
}

/// The sweep's stopping rule, a fraction of the sample.
///
/// After a batch that sampled `n` entries and found `gone` of them expired,
/// the sweep goes straight into another batch only while
/// `gone / n >= numer / denom`, that is while `gone * denom >= n * numer`.
/// The fraction is mandatory and has no default; `denom` must not be zero.
/// `numer == 0` keeps sweeping until a batch finds nothing at all.
#[derive(Clone, Copy, Debug)]
pub struct Threshold {
    /// Numerator of the fraction of the sample.
    pub numer: u64,
    /// Denominator of the fraction of the sample; never zero.
    pub denom: u64,
}

/// Put `x` into the ascending vector unless it is already there.
fn insert_if_absent(v: &mut Vec<usize>, x: usize) -> (added: bool)
    requires
        strictly_increasing(old(v)@),
    ensures
        strictly_increasing(final(v)@),
        added == !old(v)@.contains(x),
        !added ==> final(v)@ == old(v)@,
        added ==> final(v)@.len() == old(v)@.len() + 1,
        forall|y: usize| final(v)@.contains(y) <==> (old(v)@.contains(y) || (added && y == x)),
{
    let ghost s = v@;
    let n = v.len();
    let mut i: usize = 0;
    while i < n
        invariant_except_break
            strictly_increasing(s),
            s == v@,
            n == s.len(),
            i <= n,
            forall|j: int| #![trigger s[j]] 0 <= j < i ==> s[j] < x,
        ensures
            strictly_increasing(s),
            s == v@,
            n == s.len(),
            i <= n,
            forall|j: int| #![trigger s[j]] 0 <= j < i ==> s[j] < x,
            forall|j: int| #![trigger s[j]] i <= j < n ==> s[j] > x,
        decreases n - i,
    {
        if v[i] == x {
            assert(s.contains(x)) by {
                assert(s[i as int] == x);
            }
            return false;
        }
        if v[i] > x {
            proof {
                assert forall|j: int| i <= j < n implies #[trigger] s[j] > x by {
                    if j > i {
                        assert(s[i as int] < s[j]);
                    }
                }
            }
            break;
        }
        i = i + 1;
    }
    proof {
        assert(!s.contains(x)) by {
            if s.contains(x) {
                let j = choose|j: int| 0 <= j < s.len() && s[j] == x;
                assert(s[j] == x);
            }
        }
    }
    v.insert(i, x);
    proof {
        let s2 = v@;
        assert(forall|m: int| #![trigger s2[m]] 0 <= m < i ==> s2[m] == s[m]);
        assert(s2[i as int] == x);
        assert(forall|m: int| #![trigger s2[m]] i < m < s2.len() ==> s2[m] == s[m - 1]);
        assert forall|a: int, b: int| 0 <= a < b < s2.len() implies #[trigger] s2[a]
            < #[trigger] s2[b] by {
            if a < i && b == i {
            } else if a == i && b > i {
                assert(s2[b] == s[b - 1] && s[b - 1] > x);
            } else if a < i && b > i {
                assert(s2[a] == s[a] && s2[b] == s[b - 1]);
            }
        }
        assert forall|y: usize| s2.contains(y) <==> (s.contains(y) || y == x) by {
            if s2.contains(y) {
                let m = choose|m: int| 0 <= m < s2.len() && s2[m] == y;
                if m < i {
                    assert(s[m] == y);
                } else if m > i {
                    assert(s[m - 1] == y);
                }
            }
            if s.contains(y) {
                let m = choose|m: int| 0 <= m < s.len() && s[m] == y;
                if m < i {
                    assert(s2[m] == y);
                } else {
                    assert(s2[m + 1] == y);
                }
            }
            if y == x {
                assert(s2[i as int] == y);
            }
        }
    }
    true
}

/// Draw `min(sample, total)` distinct positions in `[0, total)`, uniformly
/// without replacement, and hand them out ascending.
///
/// Each round draws from a range one longer than the last and, on a
/// collision, takes the round's own upper bound instead, which no earlier
/// round can have produced. A round therefore always adds one position, and
/// the draw ends after exactly `min(sample, total)` rounds rather than
/// retrying until the collisions stop.
pub fn sample_positions(sample: usize, total: usize) -> (r: Vec<usize>)
    ensures
        strictly_increasing(r@),
        r@.len() == (if sample <= total {
            sample as int
        } else {
            total as int
        }),
        forall|a: int| #![trigger r@[a]] 0 <= a < r@.len() ==> r@[a] < total,
{
    let n = if sample <= total {
        sample
    } else {
        total
    };
    let base = total - n;
    let mut picks: Vec<usize> = Vec::new();
    let mut j = base;
    while j < total
        invariant
            n <= total,
            base == total - n,
            base <= j <= total,
            strictly_increasing(picks@),
            picks@.len() == j - base,
            forall|a: int| #![trigger picks@[a]] 0 <= a < picks@.len() ==> picks@[a] < j,
        decreases total - j,
    {
        let ghost before = picks@;
        let t = draw_in_range(0, (j + 1) as u64) as usize;
        if !insert_if_absent(&mut picks, t) {
            let added = insert_if_absent(&mut picks, j);
            proof {
                assert(added) by {
                    if before.contains(j) {
                        let m = choose|m: int| 0 <= m < before.len() && before[m] == j;
                        assert(before[m] == j);
                    }
                }
            }
        }
        proof {
            assert forall|a: int| 0 <= a < picks@.len() implies #[trigger] picks@[a] <= j by {
                let y = picks@[a];
                assert(picks@.contains(y));
                if before.contains(y) {
                    let m = choose|m: int| 0 <= m < before.len() && before[m] == y;
                    assert(before[m] == y);
                }
            }
        }
        j = j + 1;
    }
    picks
}

/// The product of two values of the tick count's range stays within the
/// double-width range the stopping rule is evaluated in.
pub proof fn lemma_product_fits(a: int, b: int)
    requires
        0 <= a <= 0xffff_ffff_ffff_ffff,
        0 <= b <= 0xffff_ffff_ffff_ffff,
    ensures
        a * b <= 0xffff_ffff_ffff_ffff_ffff_ffff_ffff_ffff,
{
    assert(a * b <= 0xffff_ffff_ffff_ffff * 0xffff_ffff_ffff_ffff) by (nonlinear_arith)
        requires
            0 <= a <= 0xffff_ffff_ffff_ffff,
            0 <= b <= 0xffff_ffff_ffff_ffff,
    ;
}

/// Positions further along an ascending sequence are further up by at least
/// as much.
pub proof fn lemma_increasing_gap(s: Seq<usize>, a: int, b: int)
    requires
        strictly_increasing(s),
        0 <= a <= b < s.len(),
    ensures
        s[b] - s[a] >= b - a,
    decreases b - a,
{
    if a < b {
        lemma_increasing_gap(s, a, b - 1);
    }
}

} // verus!
