//! Successor queries: the smallest key strictly greater than a given one.
//!
//! Repeating the query from the smallest key walks the map in increasing
//! key order; the iterators of the concurrent map are built on it.
use crate::tree::BstMap;
use crate::tree::Node;
use vstd::prelude::*;

verus! {

/// `k` is the in-order successor of `q` in `m`: a key of `m` above `q`,
/// with no other key of `m` between them.
pub open spec fn is_successor<V>(m: Map<u64, V>, q: u64, k: u64) -> bool {
    &&& m.dom().contains(k)
    &&& k > q
    &&& forall|j: u64| m.dom().contains(j) && j > q ==> j >= k
}

impl<V: Copy> BstMap<V> {
    /// Returns the entry with the smallest key strictly greater than
    /// `key`, or nothing if `key` is at or above every stored key.
    pub fn get_next(&self, key: u64) -> (r: Option<(u64, V)>)
        requires
            self.wf(),
        ensures
            r is None ==> forall|k: u64| self@.dom().contains(k) ==> k <= key,
            (forall|k: u64| self@.dom().contains(k) ==> k <= key) ==> r is None,
            r matches Some(kv) ==> is_successor(self@, key, kv.0) && self@[kv.0] == kv.1,
    {
        let r = next_rec(&self.root, key);
        proof {
            if forall|k: u64| self@.dom().contains(k) ==> k <= key {
                assert forall|k: u64|
                    Node::<V>::sub_map(self.root).dom().contains(k) implies k <= key by {
                    assert(self@.dom().contains(k));
                }
            }
        }
        r
    }

    /// Returns the entry with the greatest key strictly smaller than
    /// `key`, or nothing if `key` is at or below every stored key.
    pub fn get_prev(&self, key: u64) -> (r: Option<(u64, V)>)
        requires
            self.wf(),
        ensures
            r is None ==> forall|k: u64| self@.dom().contains(k) ==> k >= key,
            (forall|k: u64| self@.dom().contains(k) ==> k >= key) ==> r is None,
            r matches Some(kv) ==> is_predecessor(self@, key, kv.0) && self@[kv.0] == kv.1,
    {
        let r = prev_rec(&self.root, key);
        proof {
            if forall|k: u64| self@.dom().contains(k) ==> k >= key {
                assert forall|k: u64|
                    Node::<V>::sub_map(self.root).dom().contains(k) implies k >= key by {
                    assert(self@.dom().contains(k));
                }
            }
        }
        r
    }
}

/// `k` is the in-order predecessor of `q` in `m`: a key of `m` below `q`,
/// with no other key of `m` between them.
pub open spec fn is_predecessor<V>(m: Map<u64, V>, q: u64, k: u64) -> bool {
    &&& m.dom().contains(k)
    &&& k < q
    &&& forall|j: u64| m.dom().contains(j) && j < q ==> j <= k
}

/// Recursive predecessor search, the mirror image of [`next_rec`].
fn prev_rec<V: Copy>(opt: &Option<Box<Node<V>>>, key: u64) -> (r: Option<(u64, V)>)
    requires
        Node::<V>::ordered(*opt),
    ensures
        r is None ==> forall|k: u64| Node::<V>::sub_map(*opt).dom().contains(k) ==> k >= key,
        (forall|k: u64| Node::<V>::sub_map(*opt).dom().contains(k) ==> k >= key) ==> r is None,
        r matches Some(kv) ==> is_predecessor(Node::<V>::sub_map(*opt), key, kv.0) && Node::<
            V,
        >::sub_map(*opt)[kv.0] == kv.1,
    decreases *opt,
{
    match opt {
        None => None,
        Some(n) => {
            if n.key >= key {
                let r = prev_rec(&n.left, key);
                proof {
                    match r {
                        None => {
                            assert forall|k: u64|
                                Node::<V>::sub_map(*opt).dom().contains(k) implies k >= key by {
                                if k != n.key && !Node::<V>::sub_map(n.right).dom().contains(k) {
                                    assert(Node::<V>::sub_map(n.left).dom().contains(k));
                                }
                            }
                        },
                        Some(kv) => {
                            assert(Node::<V>::sub_map(n.left).dom().contains(kv.0));
                            assert(!Node::<V>::sub_map(n.right).dom().contains(kv.0));
                            assert(Node::<V>::sub_map(*opt).dom().contains(kv.0));
                            assert forall|j: u64|
                                Node::<V>::sub_map(*opt).dom().contains(j) && j < key implies j
                                <= kv.0 by {
                                if j != n.key && !Node::<V>::sub_map(n.right).dom().contains(j) {
                                    assert(Node::<V>::sub_map(n.left).dom().contains(j));
                                }
                            }
                        },
                    }
                }
                r
            } else {
                let r = prev_rec(&n.right, key);
                match r {
                    Some(kv) => {
                        proof {
                            assert(Node::<V>::sub_map(n.right).dom().contains(kv.0));
                            assert(!Node::<V>::sub_map(n.left).dom().contains(kv.0));
                            assert(Node::<V>::sub_map(*opt).dom().contains(kv.0));
                            assert forall|j: u64|
                                Node::<V>::sub_map(*opt).dom().contains(j) && j < key implies j
                                <= kv.0 by {
                                if j != n.key && !Node::<V>::sub_map(n.right).dom().contains(j) {
                                    assert(Node::<V>::sub_map(n.left).dom().contains(j));
                                }
                            }
                        }
                        Some(kv)
                    },
                    None => {
                        proof {
                            assert(Node::<V>::sub_map(*opt).dom().contains(n.key));
                            assert forall|j: u64|
                                Node::<V>::sub_map(*opt).dom().contains(j) && j < key implies j
                                <= n.key by {
                                if j != n.key && !Node::<V>::sub_map(n.right).dom().contains(j) {
                                    assert(Node::<V>::sub_map(n.left).dom().contains(j));
                                }
                            }
                        }
                        Some((n.key, n.value))
                    },
                }
            }
        },
    }
}

/// Recursive successor search: descend towards `key`, remembering the last
/// node passed on the left.
fn next_rec<V: Copy>(opt: &Option<Box<Node<V>>>, key: u64) -> (r: Option<(u64, V)>)
    requires
        Node::<V>::ordered(*opt),
    ensures
        r is None ==> forall|k: u64| Node::<V>::sub_map(*opt).dom().contains(k) ==> k <= key,
        (forall|k: u64| Node::<V>::sub_map(*opt).dom().contains(k) ==> k <= key) ==> r is None,
        r matches Some(kv) ==> is_successor(Node::<V>::sub_map(*opt), key, kv.0) && Node::<
            V,
        >::sub_map(*opt)[kv.0] == kv.1,
    decreases *opt,
{
    match opt {
        None => None,
        Some(n) => {
            if n.key <= key {
                let r = next_rec(&n.right, key);
                proof {
                    match r {
                        None => {
                            assert forall|k: u64|
                                Node::<V>::sub_map(*opt).dom().contains(k) implies k <= key by {
                                if k != n.key && !Node::<V>::sub_map(n.left).dom().contains(k) {
                                    assert(Node::<V>::sub_map(n.right).dom().contains(k));
                                }
                            }
                        },
                        Some(kv) => {
                            assert(Node::<V>::sub_map(n.right).dom().contains(kv.0));
                            assert(Node::<V>::sub_map(*opt).dom().contains(kv.0));
                            assert forall|j: u64|
                                Node::<V>::sub_map(*opt).dom().contains(j) && j > key implies j
                                >= kv.0 by {
                                if j != n.key && !Node::<V>::sub_map(n.left).dom().contains(j) {
                                    assert(Node::<V>::sub_map(n.right).dom().contains(j));
                                }
                            }
                        },
                    }
                }
                r
            } else {
                let r = next_rec(&n.left, key);
                match r {
                    Some(kv) => {
                        proof {
                            assert(Node::<V>::sub_map(n.left).dom().contains(kv.0));
                            assert(!Node::<V>::sub_map(n.right).dom().contains(kv.0));
                            assert(Node::<V>::sub_map(*opt).dom().contains(kv.0));
                            assert forall|j: u64|
                                Node::<V>::sub_map(*opt).dom().contains(j) && j > key implies j
                                >= kv.0 by {
                                if j != n.key && !Node::<V>::sub_map(n.left).dom().contains(j) {
                                    assert(Node::<V>::sub_map(n.right).dom().contains(j));
                                }
                            }
                        }
                        Some(kv)
                    },
                    None => {
                        proof {
                            assert(Node::<V>::sub_map(*opt).dom().contains(n.key));
                            assert forall|j: u64|
                                Node::<V>::sub_map(*opt).dom().contains(j) && j > key implies j
                                >= n.key by {
                                if j != n.key && !Node::<V>::sub_map(n.left).dom().contains(j) {
                                    assert(Node::<V>::sub_map(n.right).dom().contains(j));
                                }
                            }
                        }
                        Some((n.key, n.value))
                    },
                }
            }
        },
    }
}

} // verus!
