//! Nearest-key lookup under a circular distance metric.
//!
//! The `u64` keys form a ring of size 2^64: the distance between two keys
//! is the smaller of their direct difference and the wraparound difference.
//! The query returns the stored entry circularly closest to the probe key,
//! optionally excluding an exact match.  Only the in-order neighbours of
//! the probe and the extreme stored keys can be closest, since the minimum
//! of the direct distances is reached at a neighbour and the minimum of the
//! wraparound distances at an extreme; the implementation therefore
//! compares those four candidates.
use crate::succ::is_predecessor;
use crate::succ::is_successor;
use crate::tree::BstMap;
use vstd::prelude::*;

verus! {

/// The direct distance between two keys: the absolute difference.
pub open spec fn direct_dist(a: u64, b: u64) -> int {
    if a >= b {
        a - b
    } else {
        b - a
    }
}

/// The circular distance between two keys over the ring of size 2^64: the
/// smaller of the direct difference and the wraparound difference.
pub open spec fn circ_dist(a: u64, b: u64) -> int {
    if direct_dist(a, b) <= 0x10000000000000000 - direct_dist(a, b) {
        direct_dist(a, b)
    } else {
        0x10000000000000000 - direct_dist(a, b)
    }
}

/// `k` is a key of `m` that the nearest-key query for `key` may return:
/// an exact match is ruled out when `include_key` is false.
pub open spec fn eligible<V>(m: Map<u64, V>, key: u64, include_key: bool, k: u64) -> bool {
    m.dom().contains(k) && (include_key || k != key)
}

/// Computes the absolute difference of two keys.
pub fn get_abs_diff(a: u64, b: u64) -> (r: u64)
    ensures
        r == direct_dist(a, b),
{
    if a >= b {
        a - b
    } else {
        b - a
    }
}

/// Computes the circular distance of two keys.  The ring size 2^64 itself
/// is not representable, so the wraparound difference is computed as
/// `u64::MAX - (d - 1)`.
pub fn circular_distance(a: u64, b: u64) -> (r: u64)
    ensures
        r == circ_dist(a, b),
{
    let d = get_abs_diff(a, b);
    if d == 0 {
        0
    } else {
        let wrap = u64::MAX - (d - 1);
        if d <= wrap {
            d
        } else {
            wrap
        }
    }
}

/// Keeps whichever of the running candidate and the new candidate lies
/// circularly closer to `key`, preferring the running one on a tie.
fn closer_candidate<V: Copy>(key: u64, cur: Option<(u64, V)>, cand: Option<(u64, V)>) -> (r: Option<
    (u64, V),
>)
    ensures
        r is None <==> (cur is None && cand is None),
        r matches Some(kv) ==> cur == Some(kv) || cand == Some(kv),
        cur matches Some(c) ==> (r matches Some(kv) && circ_dist(key, kv.0) <= circ_dist(
            key,
            c.0,
        )),
        cand matches Some(c) ==> (r matches Some(kv) && circ_dist(key, kv.0) <= circ_dist(
            key,
            c.0,
        )),
{
    match cand {
        None => cur,
        Some(b) => match cur {
            None => Some(b),
            Some(a) => {
                if circular_distance(key, b.0) < circular_distance(key, a.0) {
                    Some(b)
                } else {
                    Some(a)
                }
            },
        },
    }
}

impl<V: Copy> BstMap<V> {
    /// Returns the entry whose key is circularly closest to `key`.
    ///
    /// An exact match wins when `include_key` is true; when it is false
    /// the entry for `key` itself is passed over and the closest of the
    /// remaining entries is returned.  Returns nothing exactly when no
    /// entry may be returned at all.
    pub fn get_or_closest_by_key(&self, key: u64, include_key: bool) -> (r: Option<(u64, V)>)
        requires
            self.wf(),
        ensures
            r is None <==> (forall|k: u64| !eligible(self@, key, include_key, k)),
            r matches Some(kv) ==> {
                &&& eligible(self@, key, include_key, kv.0)
                &&& self@[kv.0] == kv.1
                &&& include_key && self@.dom().contains(key) ==> kv.0 == key
                &&& forall|k: u64|
                    eligible(self@, key, include_key, k) ==> circ_dist(key, kv.0) <= circ_dist(
                        key,
                        k,
                    )
            },
    {
        if include_key {
            match self.get(key) {
                Some(v) => {
                    proof {
                        assert(eligible(self@, key, include_key, key));
                    }
                    return Some((key, v));
                },
                None => {},
            }
        }
        // Past this point an exact match is never returned: either it is
        // excluded, or it does not exist.
        let below = self.get_prev(key);
        let above = self.get_next(key);
        let min_entry = self.get_min();
        let max_entry = self.get_max();
        let lo = match min_entry {
            None => None,
            Some((k, v)) => if k == key {
                above
            } else {
                Some((k, v))
            },
        };
        let hi = match max_entry {
            None => None,
            Some((k, v)) => if k == key {
                below
            } else {
                Some((k, v))
            },
        };
        let mut best = closer_candidate(key, None, below);
        best = closer_candidate(key, best, above);
        best = closer_candidate(key, best, lo);
        best = closer_candidate(key, best, hi);
        proof {
            lemma_nearest_candidates(self@, key, include_key, below, above, lo, hi, best);
        }
        best
    }
}

/// The heart of the nearest-key argument: among the eligible keys, the
/// circularly closest lies at the in-order predecessor or successor of the
/// probe (where the direct difference is smallest) or at the least or
/// greatest eligible key (where the wraparound difference is smallest), so
/// the best of those four candidates is the best overall.
#[verifier::spinoff_prover]
proof fn lemma_nearest_candidates<V>(
    m: Map<u64, V>,
    key: u64,
    include_key: bool,
    below: Option<(u64, V)>,
    above: Option<(u64, V)>,
    lo: Option<(u64, V)>,
    hi: Option<(u64, V)>,
    best: Option<(u64, V)>,
)
    requires
        include_key ==> !m.dom().contains(key),
        below is None ==> forall|k: u64| m.dom().contains(k) ==> k >= key,
        below matches Some(kv) ==> is_predecessor(m, key, kv.0),
        above is None ==> forall|k: u64| m.dom().contains(k) ==> k <= key,
        above matches Some(kv) ==> is_successor(m, key, kv.0),
        lo matches Some(kv) ==> m.dom().contains(kv.0) && kv.0 != key && forall|k: u64|
            m.dom().contains(k) && k != key ==> kv.0 <= k,
        lo is None ==> forall|k: u64| m.dom().contains(k) ==> k == key,
        hi matches Some(kv) ==> m.dom().contains(kv.0) && kv.0 != key && forall|k: u64|
            m.dom().contains(k) && k != key ==> kv.0 >= k,
        hi is None ==> forall|k: u64| m.dom().contains(k) ==> k == key,
        best is None <==> (below is None && above is None && lo is None && hi is None),
        best matches Some(kv) ==> m.dom().contains(kv.0) && kv.0 != key,
        below matches Some(c) ==> (best matches Some(kv) && circ_dist(key, kv.0) <= circ_dist(
            key,
            c.0,
        )),
        above matches Some(c) ==> (best matches Some(kv) && circ_dist(key, kv.0) <= circ_dist(
            key,
            c.0,
        )),
        lo matches Some(c) ==> (best matches Some(kv) && circ_dist(key, kv.0) <= circ_dist(
            key,
            c.0,
        )),
        hi matches Some(c) ==> (best matches Some(kv) && circ_dist(key, kv.0) <= circ_dist(
            key,
            c.0,
        )),
    ensures
        best is None <==> (forall|k: u64| !eligible(m, key, include_key, k)),
        best matches Some(kv) ==> forall|k: u64|
            eligible(m, key, include_key, k) ==> circ_dist(key, kv.0) <= circ_dist(key, k),
{
    match best {
        None => {
            assert forall|k: u64| !eligible(m, key, include_key, k) by {
                if m.dom().contains(k) {
                    assert(k >= key && k <= key);
                }
            }
        },
        Some(kv) => {
            assert(eligible(m, key, include_key, kv.0));
            assert forall|k: u64|
                eligible(m, key, include_key, k) implies circ_dist(key, kv.0) <= circ_dist(
                key,
                k,
            ) by {
                if k < key {
                    let b = below.unwrap();
                    assert(is_predecessor(m, key, b.0));
                    assert(k <= b.0);
                    let l = lo.unwrap();
                    assert(l.0 <= k);
                    assert(direct_dist(key, b.0) <= direct_dist(key, k));
                    assert(direct_dist(key, k) <= direct_dist(key, l.0));
                    assert(circ_dist(key, kv.0) <= circ_dist(key, b.0));
                    assert(circ_dist(key, kv.0) <= circ_dist(key, l.0));
                } else if k > key {
                    let a = above.unwrap();
                    assert(is_successor(m, key, a.0));
                    assert(k >= a.0);
                    let h = hi.unwrap();
                    assert(h.0 >= k);
                    assert(direct_dist(key, a.0) <= direct_dist(key, k));
                    assert(direct_dist(key, k) <= direct_dist(key, h.0));
                    assert(circ_dist(key, kv.0) <= circ_dist(key, a.0));
                    assert(circ_dist(key, kv.0) <= circ_dist(key, h.0));
                } else {
                    assert(include_key);
                    assert(false);
                }
            }
        },
    }
}

} // verus!
