//! The concurrent map: a well-formed search tree guarded by a verified
//! reader-writer lock.
//!
//! Every operation takes `&self`, so the map can be shared across threads;
//! readers run concurrently and writers serialize on the lock.  The lock's
//! predicate is the tree's well-formedness invariant, so the strict key
//! ordering holds at every lock release, machine-checked.  Each operation
//! behaves as the sequential [`BstMap`] operation it runs under the lock,
//! applied to the tree as it stands when the lock is acquired; its contract
//! says exactly that: the result is the sequential answer on *some*
//! well-formed tree.  Which tree cannot be said in a contract, since other
//! threads may run their operations between any two calls.
use crate::tree::BstMap;
use crate::MaxDepthReachedError;
use vstd::prelude::*;
use vstd::rwlock::RwLock;
use vstd::rwlock::RwLockPredicate;

verus! {

/// The lock invariant of the map: only well-formed trees are stored.
pub struct TreeInv;

impl<V: Copy> RwLockPredicate<BstMap<V>> for TreeInv {
    open spec fn inv(self, t: BstMap<V>) -> bool {
        t.wf()
    }
}

/// A concurrent ordered map from `u64` keys to copyable values: an
/// unbalanced binary search tree behind a reader-writer lock.
pub struct ConcurrentBSTMap<V: Copy> {
    slot: RwLock<BstMap<V>, TreeInv>,
}

impl<V: Copy> ConcurrentBSTMap<V> {
    #[verifier::type_invariant]
    spec fn lock_inv(self) -> bool {
        self.slot.pred() == TreeInv
    }

    /// Creates an empty map.
    pub fn new() -> Self {
        ConcurrentBSTMap { slot: RwLock::new(BstMap::new(), Ghost(TreeInv)) }
    }

    /// Discards every entry.
    pub fn clear(&self) {
        proof {
            use_type_invariant(self);
        }
        let (mut tree, handle) = self.slot.acquire_write();
        tree.clear();
        handle.release_write(tree);
    }

    /// Counts the entries of the tree observed under the lock.
    pub fn len(&self) -> (r: usize)
        ensures
            exists|t: BstMap<V>|
                t.wf() && r as nat == (if t.spec_len() > usize::MAX as nat {
                    usize::MAX as nat
                } else {
                    t.spec_len()
                }),
    {
        proof {
            use_type_invariant(self);
        }
        let handle = self.slot.acquire_read();
        let tree = handle.borrow();
        let r = tree.len();
        proof {
            let t0 = *tree;
            assert(exists|t: BstMap<V>|
                t.wf() && r as nat == (if t.spec_len() > usize::MAX as nat {
                    usize::MAX as nat
                } else {
                    t.spec_len()
                })) by {
                assert(t0.wf() && r as nat == (if t0.spec_len() > usize::MAX as nat {
                    usize::MAX as nat
                } else {
                    t0.spec_len()
                }));
            }
        }
        handle.release_read();
        r
    }

    /// Reports whether the tree observed under the lock held no entry.
    pub fn is_empty(&self) -> (r: bool)
        ensures
            exists|t: BstMap<V>| t.wf() && (r <==> t@ == Map::<u64, V>::empty()),
    {
        proof {
            use_type_invariant(self);
        }
        let handle = self.slot.acquire_read();
        let tree = handle.borrow();
        let r = tree.is_empty();
        proof {
            let t0 = *tree;
            assert(exists|t: BstMap<V>| t.wf() && (r <==> t@ == Map::<u64, V>::empty())) by {
                assert(t0.wf() && (r <==> t0@ == Map::<u64, V>::empty()));
            }
        }
        handle.release_read();
        r
    }

    /// Measures the height of the tree observed under the lock.
    pub fn depth(&self) -> (r: usize)
        ensures
            exists|t: BstMap<V>|
                t.wf() && r as nat == (if t.spec_depth() > usize::MAX as nat {
                    usize::MAX as nat
                } else {
                    t.spec_depth()
                }),
    {
        proof {
            use_type_invariant(self);
        }
        let handle = self.slot.acquire_read();
        let tree = handle.borrow();
        let r = tree.depth();
        proof {
            let t0 = *tree;
            assert(exists|t: BstMap<V>|
                t.wf() && r as nat == (if t.spec_depth() > usize::MAX as nat {
                    usize::MAX as nat
                } else {
                    t.spec_depth()
                })) by {
                assert(t0.wf() && r as nat == (if t0.spec_depth() > usize::MAX as nat {
                    usize::MAX as nat
                } else {
                    t0.spec_depth()
                }));
            }
        }
        handle.release_read();
        r
    }

    /// Reports whether `key` was present in the tree observed under the
    /// lock.
    pub fn contains_key(&self, key: u64) -> (r: bool)
        ensures
            exists|t: BstMap<V>| t.wf() && r == t@.dom().contains(key),
    {
        proof {
            use_type_invariant(self);
        }
        let handle = self.slot.acquire_read();
        let tree = handle.borrow();
        let r = tree.contains_key(key);
        proof {
            let t0 = *tree;
            assert(exists|t: BstMap<V>| t.wf() && r == t@.dom().contains(key)) by {
                assert(t0.wf() && r == t0@.dom().contains(key));
            }
        }
        handle.release_read();
        r
    }

    /// Looks `key` up in the tree observed under the lock.
    pub fn get(&self, key: u64) -> (r: Option<V>)
        ensures
            exists|t: BstMap<V>|
                t.wf() && r == (if t@.dom().contains(key) {
                    Some(t@[key])
                } else {
                    None::<V>
                }),
    {
        proof {
            use_type_invariant(self);
        }
        let handle = self.slot.acquire_read();
        let tree = handle.borrow();
        let r = tree.get(key);
        proof {
            let t0 = *tree;
            assert(exists|t: BstMap<V>|
                t.wf() && r == (if t@.dom().contains(key) {
                    Some(t@[key])
                } else {
                    None::<V>
                })) by {
                assert(t0.wf() && r == (if t0@.dom().contains(key) {
                    Some(t0@[key])
                } else {
                    None::<V>
                }));
            }
        }
        handle.release_read();
        r
    }

    /// Returns the smallest entry of the tree observed under the lock.
    pub fn get_min(&self) -> (r: Option<(u64, V)>)
        ensures
            exists|t: BstMap<V>|
                t.wf() && (r is None <==> t@ == Map::<u64, V>::empty()) && (r matches Some(kv)
                    ==> t@.dom().contains(kv.0) && t@[kv.0] == kv.1 && forall|k: u64|
                    t@.dom().contains(k) ==> kv.0 <= k),
    {
        proof {
            use_type_invariant(self);
        }
        let handle = self.slot.acquire_read();
        let tree = handle.borrow();
        let r = tree.get_min();
        proof {
            let t0 = *tree;
            assert(exists|t: BstMap<V>|
                t.wf() && (r is None <==> t@ == Map::<u64, V>::empty()) && (r matches Some(kv)
                    ==> t@.dom().contains(kv.0) && t@[kv.0] == kv.1 && forall|k: u64|
                    t@.dom().contains(k) ==> kv.0 <= k)) by {
                assert(t0.wf() && (r is None <==> t0@ == Map::<u64, V>::empty()) && (r matches Some(
                    kv,
                ) ==> t0@.dom().contains(kv.0) && t0@[kv.0] == kv.1 && forall|k: u64|
                    t0@.dom().contains(k) ==> kv.0 <= k));
            }
        }
        handle.release_read();
        r
    }

    /// Returns the greatest entry of the tree observed under the lock.
    pub fn get_max(&self) -> (r: Option<(u64, V)>)
        ensures
            exists|t: BstMap<V>|
                t.wf() && (r is None <==> t@ == Map::<u64, V>::empty()) && (r matches Some(kv)
                    ==> t@.dom().contains(kv.0) && t@[kv.0] == kv.1 && forall|k: u64|
                    t@.dom().contains(k) ==> kv.0 >= k),
    {
        proof {
            use_type_invariant(self);
        }
        let handle = self.slot.acquire_read();
        let tree = handle.borrow();
        let r = tree.get_max();
        proof {
            let t0 = *tree;
            assert(exists|t: BstMap<V>|
                t.wf() && (r is None <==> t@ == Map::<u64, V>::empty()) && (r matches Some(kv)
                    ==> t@.dom().contains(kv.0) && t@[kv.0] == kv.1 && forall|k: u64|
                    t@.dom().contains(k) ==> kv.0 >= k)) by {
                assert(t0.wf() && (r is None <==> t0@ == Map::<u64, V>::empty()) && (r matches Some(
                    kv,
                ) ==> t0@.dom().contains(kv.0) && t0@[kv.0] == kv.1 && forall|k: u64|
                    t0@.dom().contains(k) ==> kv.0 >= k));
            }
        }
        handle.release_read();
        r
    }

    /// Returns the smallest or the greatest entry, as `min` asks.
    pub fn get_min_or_max(&self, min: bool) -> (r: Option<(u64, V)>)
        ensures
            exists|t: BstMap<V>|
                t.wf() && (r is None <==> t@ == Map::<u64, V>::empty()) && (r matches Some(kv)
                    ==> t@.dom().contains(kv.0) && t@[kv.0] == kv.1),
    {
        if min {
            let r = self.get_min();
            proof {
                let t0 = choose|t: BstMap<V>|
                    t.wf() && (r is None <==> t@ == Map::<u64, V>::empty()) && (r matches Some(kv)
                        ==> t@.dom().contains(kv.0) && t@[kv.0] == kv.1 && forall|k: u64|
                        t@.dom().contains(k) ==> kv.0 <= k);
                assert(exists|t: BstMap<V>|
                    t.wf() && (r is None <==> t@ == Map::<u64, V>::empty()) && (r matches Some(kv)
                        ==> t@.dom().contains(kv.0) && t@[kv.0] == kv.1)) by {
                    assert(t0.wf() && (r is None <==> t0@ == Map::<u64, V>::empty()) && (r
                        matches Some(kv) ==> t0@.dom().contains(kv.0) && t0@[kv.0] == kv.1));
                }
            }
            r
        } else {
            let r = self.get_max();
            proof {
                let t0 = choose|t: BstMap<V>|
                    t.wf() && (r is None <==> t@ == Map::<u64, V>::empty()) && (r matches Some(kv)
                        ==> t@.dom().contains(kv.0) && t@[kv.0] == kv.1 && forall|k: u64|
                        t@.dom().contains(k) ==> kv.0 >= k);
                assert(exists|t: BstMap<V>|
                    t.wf() && (r is None <==> t@ == Map::<u64, V>::empty()) && (r matches Some(kv)
                        ==> t@.dom().contains(kv.0) && t@[kv.0] == kv.1)) by {
                    assert(t0.wf() && (r is None <==> t0@ == Map::<u64, V>::empty()) && (r
                        matches Some(kv) ==> t0@.dom().contains(kv.0) && t0@[kv.0] == kv.1));
                }
            }
            r
        }
    }

    /// Returns the successor entry of `key` in the tree observed under the
    /// lock: the smallest stored key strictly greater than `key`.
    pub fn get_next(&self, key: u64) -> (r: Option<(u64, V)>)
        ensures
            exists|t: BstMap<V>|
                t.wf() && (r matches Some(kv) ==> crate::succ::is_successor(t@, key, kv.0)
                    && t@[kv.0] == kv.1) && (r is None ==> forall|k: u64|
                    t@.dom().contains(k) ==> k <= key),
    {
        proof {
            use_type_invariant(self);
        }
        let handle = self.slot.acquire_read();
        let tree = handle.borrow();
        let r = tree.get_next(key);
        proof {
            let t0 = *tree;
            assert(exists|t: BstMap<V>|
                t.wf() && (r matches Some(kv) ==> crate::succ::is_successor(t@, key, kv.0)
                    && t@[kv.0] == kv.1) && (r is None ==> forall|k: u64|
                    t@.dom().contains(k) ==> k <= key)) by {
                assert(t0.wf() && (r matches Some(kv) ==> crate::succ::is_successor(t0@, key, kv.0)
                    && t0@[kv.0] == kv.1) && (r is None ==> forall|k: u64|
                    t0@.dom().contains(k) ==> k <= key));
            }
        }
        handle.release_read();
        r
    }

    /// Returns the entry circularly closest to `key` in the tree observed
    /// under the lock; see [`BstMap::get_or_closest_by_key`] for the exact
    /// meaning of `include_key`.
    pub fn get_or_closest_by_key(&self, key: u64, include_key: bool) -> (r: Option<(u64, V)>)
        ensures
            exists|t: BstMap<V>|
                t.wf() && (r matches Some(kv) ==> crate::nearest::eligible(
                    t@,
                    key,
                    include_key,
                    kv.0,
                ) && t@[kv.0] == kv.1 && forall|k: u64|
                    crate::nearest::eligible(t@, key, include_key, k)
                        ==> crate::nearest::circ_dist(key, kv.0) <= crate::nearest::circ_dist(
                        key,
                        k,
                    )) && (r is None ==> forall|k: u64| !crate::nearest::eligible(
                    t@,
                    key,
                    include_key,
                    k,
                )),
    {
        proof {
            use_type_invariant(self);
        }
        let handle = self.slot.acquire_read();
        let tree = handle.borrow();
        let r = tree.get_or_closest_by_key(key, include_key);
        proof {
            let t0 = *tree;
            assert(exists|t: BstMap<V>|
                t.wf() && (r matches Some(kv) ==> crate::nearest::eligible(
                    t@,
                    key,
                    include_key,
                    kv.0,
                ) && t@[kv.0] == kv.1 && forall|k: u64|
                    crate::nearest::eligible(t@, key, include_key, k)
                        ==> crate::nearest::circ_dist(key, kv.0) <= crate::nearest::circ_dist(
                        key,
                        k,
                    )) && (r is None ==> forall|k: u64| !crate::nearest::eligible(
                    t@,
                    key,
                    include_key,
                    k,
                ))) by {
                assert(t0.wf() && (r matches Some(kv) ==> crate::nearest::eligible(
                    t0@,
                    key,
                    include_key,
                    kv.0,
                ) && t0@[kv.0] == kv.1 && forall|k: u64|
                    crate::nearest::eligible(t0@, key, include_key, k)
                        ==> crate::nearest::circ_dist(key, kv.0) <= crate::nearest::circ_dist(
                        key,
                        k,
                    )) && (r is None ==> forall|k: u64| !crate::nearest::eligible(
                    t0@,
                    key,
                    include_key,
                    k,
                )));
            }
        }
        handle.release_read();
        r
    }

    /// Collects every entry of the tree observed under the lock: distinct
    /// keys, each carrying the value stored with it.
    pub fn get_all_key_values(&self) -> (r: Vec<(u64, V)>)
        ensures
            exists|t: BstMap<V>|
                t.wf() && (forall|i: int|
                    0 <= i < r@.len() ==> t@.dom().contains(#[trigger] r@[i].0) && t@[r@[i].0]
                        == r@[i].1) && r@.len() == t.spec_len(),
            forall|i: int, j: int| 0 <= i < j < r@.len() ==> r@[i].0 != r@[j].0,
    {
        proof {
            use_type_invariant(self);
        }
        let handle = self.slot.acquire_read();
        let tree = handle.borrow();
        let r = tree.get_all_key_values();
        proof {
            let t0 = *tree;
            assert(exists|t: BstMap<V>|
                t.wf() && (forall|i: int|
                    0 <= i < r@.len() ==> t@.dom().contains(#[trigger] r@[i].0) && t@[r@[i].0]
                        == r@[i].1) && r@.len() == t.spec_len()) by {
                assert(t0.wf() && (forall|i: int|
                    0 <= i < r@.len() ==> t0@.dom().contains(#[trigger] r@[i].0) && t0@[r@[i].0]
                        == r@[i].1) && r@.len() == t0.spec_len());
            }
        }
        handle.release_read();
        r
    }

    /// Creates the entry `key -> value` in the tree observed under the
    /// lock, overwriting any stored value; fails with
    /// [`MaxDepthReachedError`], leaving the tree unchanged, exactly when
    /// that tree's search path for `key` exceeds `max_depth` levels.
    pub fn insert_or_update(&self, key: u64, value: V, max_depth: u32) -> (r: Result<
        bool,
        MaxDepthReachedError,
    >)
        ensures
            r is Ok ==> r == Ok::<bool, MaxDepthReachedError>(true),
            exists|w: (BstMap<V>, BstMap<V>)|
                {
                    &&& w.0.wf() && w.1.wf()
                    &&& (r is Err <==> w.0.reach_depth(key) > max_depth)
                    &&& (r is Err ==> w.1 == w.0)
                    &&& (r is Ok ==> w.1@ == w.0@.insert(key, value) && w.0.spec_inserted(
                        w.1,
                        key,
                        value,
                    ))
                },
    {
        proof {
            use_type_invariant(self);
        }
        let (mut tree, handle) = self.slot.acquire_write();
        let ghost t0 = tree;
        let r = tree.insert_or_update(key, value, max_depth);
        proof {
            let w = (t0, tree);
            assert({
                &&& w.0.wf() && w.1.wf()
                &&& (r is Err <==> w.0.reach_depth(key) > max_depth)
                &&& (r is Err ==> w.1 == w.0)
                &&& (r is Ok ==> w.1@ == w.0@.insert(key, value) && w.0.spec_inserted(
                    w.1,
                    key,
                    value,
                ))
            });
        }
        handle.release_write(tree);
        r
    }

    /// Creates the entry `key -> value` in the tree observed under the
    /// lock, or hands the stored value and the new one to `should_update`
    /// and overwrites only if it agrees; see [`BstMap::insert_or_update_if`].
    pub fn insert_or_update_if<F: Fn(&V, &V) -> bool>(
        &self,
        key: u64,
        value: V,
        should_update: &F,
        max_depth: u32,
    ) -> (r: Result<bool, MaxDepthReachedError>)
        requires
            forall|a: &V, b: &V| call_requires(*should_update, (a, b)),
        ensures
            exists|w: (BstMap<V>, BstMap<V>)|
                {
                    &&& w.0.wf() && w.1.wf()
                    &&& (r is Err <==> w.0.reach_depth(key) > max_depth)
                    &&& (r is Err ==> w.1 == w.0)
                    &&& (r matches Ok(changed) ==> {
                        &&& changed ==> w.1@ == w.0@.insert(key, value) && w.0.spec_inserted(
                            w.1,
                            key,
                            value,
                        )
                        &&& !changed ==> w.1 == w.0
                        &&& !w.0@.dom().contains(key) ==> changed
                        &&& w.0@.dom().contains(key) ==> call_ensures(
                            *should_update,
                            (&w.0@[key], &value),
                            changed,
                        )
                    })
                },
    {
        proof {
            use_type_invariant(self);
        }
        let (mut tree, handle) = self.slot.acquire_write();
        let ghost t0 = tree;
        let r = tree.insert_or_update_if(key, value, should_update, max_depth);
        proof {
            let w = (t0, tree);
            assert({
                &&& w.0.wf() && w.1.wf()
                &&& (r is Err <==> w.0.reach_depth(key) > max_depth)
                &&& (r is Err ==> w.1 == w.0)
                &&& (r matches Ok(changed) ==> {
                    &&& changed ==> w.1@ == w.0@.insert(key, value) && w.0.spec_inserted(
                        w.1,
                        key,
                        value,
                    )
                    &&& !changed ==> w.1 == w.0
                    &&& !w.0@.dom().contains(key) ==> changed
                    &&& w.0@.dom().contains(key) ==> call_ensures(
                        *should_update,
                        (&w.0@[key], &value),
                        changed,
                    )
                })
            });
        }
        handle.release_write(tree);
        r
    }

    /// Removes the entry for `key` from the tree observed under the lock,
    /// if that tree holds one.
    pub fn remove(&self, key: u64) {
        proof {
            use_type_invariant(self);
        }
        let (mut tree, handle) = self.slot.acquire_write();
        tree.remove(key);
        handle.release_write(tree);
    }

    /// Removes the entry for `key` from the tree observed under the lock
    /// if `should_remove` agrees when handed its value; a no-op if the key
    /// is absent or the predicate declines.
    pub fn remove_if<F: Fn(&V) -> bool>(&self, key: u64, should_remove: &F)
        requires
            forall|v: &V| call_requires(*should_remove, (v,)),
    {
        proof {
            use_type_invariant(self);
        }
        let (mut tree, handle) = self.slot.acquire_write();
        tree.remove_if(key, should_remove);
        handle.release_write(tree);
    }

    /// Removes every entry that `criteria` selects, walking a snapshot of
    /// the entries and taking the write lock once per removal; entries
    /// inserted concurrently during the walk may be missed.
    pub fn retain<F: Fn(&u64, &V) -> bool>(&self, criteria: &F)
        requires
            forall|k: &u64, v: &V| call_requires(*criteria, (k, v)),
    {
        let entries = self.get_all_key_values();
        let mut i: usize = 0;
        while i < entries.len()
            invariant
                forall|k: &u64, v: &V| call_requires(*criteria, (k, v)),
            decreases entries.len() - i,
        {
            let (key, value) = entries[i];
            if criteria(&key, &value) {
                self.remove(key);
            }
            i = i + 1;
        }
    }

    /// Builds a fresh map holding the entries observed in this one,
    /// inserted in the order that `rand_index_func` picks; inserting in
    /// random order keeps the new tree from degenerating when this map's
    /// keys were inserted in sorted order.  The rebuild itself is
    /// [`BstMap::from_entries_shuffled`], whose contract fixes the new
    /// tree's entries as exactly the observed ones; the picker's result is
    /// reduced modulo the number of entries still waiting, where the
    /// original design expected an in-range index.
    pub fn copy<F: Fn(usize) -> usize>(&self, rand_index_func: &F) -> Self
        requires
            forall|n: usize| call_requires(*rand_index_func, (n,)),
    {
        let mut entries = self.get_all_key_values();
        if entries.len() < 0xFFFF_FFFFusize {
            let fresh = BstMap::from_entries_shuffled(entries, rand_index_func);
            ConcurrentBSTMap { slot: RwLock::new(fresh, Ghost(TreeInv)) }
        } else {
            // More entries than any representable depth bound can cover:
            // rebuild on a best-effort basis with the roomiest bound there
            // is.
            let mut fresh = BstMap::new();
            while entries.len() > 0
                invariant
                    fresh.wf(),
                    forall|n: usize| call_requires(*rand_index_func, (n,)),
                decreases entries.len(),
            {
                let picked = rand_index_func(entries.len());
                let idx = picked % entries.len();
                let (key, value) = entries.swap_remove(idx);
                let _ = fresh.insert_or_update(key, value, u32::MAX);
            }
            ConcurrentBSTMap { slot: RwLock::new(fresh, Ghost(TreeInv)) }
        }
    }

    /// Starts a forward walk over the entries in increasing key order,
    /// beginning at the smallest key.  The walk is lazy: each step queries
    /// the live map, so entries changed by other threads between steps may
    /// be seen, skipped or repeated.
    pub fn iter(&self) -> (r: ConcurrentBSTMapIterator<'_, V>)
        ensures
            exists|t: BstMap<V>|
                t.wf() && (r.spec_pending() is None <==> t@ == Map::<u64, V>::empty()) && (
                r.spec_pending() matches Some(kv) ==> t@.dom().contains(kv.0) && t@[kv.0] == kv.1
                    && forall|k: u64| t@.dom().contains(k) ==> kv.0 <= k),
    {
        let pending = self.get_min();
        let r = ConcurrentBSTMapIterator { map: self, pending };
        proof {
            let t0 = choose|t: BstMap<V>|
                t.wf() && (pending is None <==> t@ == Map::<u64, V>::empty()) && (pending
                    matches Some(kv) ==> t@.dom().contains(kv.0) && t@[kv.0] == kv.1 && forall|
                    k: u64,
                |
                    t@.dom().contains(k) ==> kv.0 <= k);
            assert(exists|t: BstMap<V>|
                t.wf() && (r.spec_pending() is None <==> t@ == Map::<u64, V>::empty()) && (
                r.spec_pending() matches Some(kv) ==> t@.dom().contains(kv.0) && t@[kv.0] == kv.1
                    && forall|k: u64| t@.dom().contains(k) ==> kv.0 <= k)) by {
                assert(t0.wf() && (r.spec_pending() is None <==> t0@ == Map::<u64, V>::empty()) && (
                r.spec_pending() matches Some(kv) ==> t0@.dom().contains(kv.0) && t0@[kv.0] == kv.1
                    && forall|k: u64| t0@.dom().contains(k) ==> kv.0 <= k));
            }
        }
        r
    }

    /// As [`ConcurrentBSTMap::iter`], consuming the map.
    pub fn into_iter(self) -> (r: ConcurrentBSTMapIntoIterator<V>)
        ensures
            exists|t: BstMap<V>|
                t.wf() && (r.spec_pending() is None <==> t@ == Map::<u64, V>::empty()) && (
                r.spec_pending() matches Some(kv) ==> t@.dom().contains(kv.0) && t@[kv.0] == kv.1
                    && forall|k: u64| t@.dom().contains(k) ==> kv.0 <= k),
    {
        let pending = self.get_min();
        let r = ConcurrentBSTMapIntoIterator { map: self, pending };
        proof {
            let t0 = choose|t: BstMap<V>|
                t.wf() && (pending is None <==> t@ == Map::<u64, V>::empty()) && (pending
                    matches Some(kv) ==> t@.dom().contains(kv.0) && t@[kv.0] == kv.1 && forall|
                    k: u64,
                |
                    t@.dom().contains(k) ==> kv.0 <= k);
            assert(exists|t: BstMap<V>|
                t.wf() && (r.spec_pending() is None <==> t@ == Map::<u64, V>::empty()) && (
                r.spec_pending() matches Some(kv) ==> t@.dom().contains(kv.0) && t@[kv.0] == kv.1
                    && forall|k: u64| t@.dom().contains(k) ==> kv.0 <= k)) by {
                assert(t0.wf() && (r.spec_pending() is None <==> t0@ == Map::<u64, V>::empty()) && (
                r.spec_pending() matches Some(kv) ==> t0@.dom().contains(kv.0) && t0@[kv.0] == kv.1
                    && forall|k: u64| t0@.dom().contains(k) ==> kv.0 <= k));
            }
        }
        r
    }
}

/// A lazy forward walk over a borrowed [`ConcurrentBSTMap`], yielding
/// entries in increasing key order, starting at the smallest key.
pub struct ConcurrentBSTMapIterator<'a, V: Copy> {
    map: &'a ConcurrentBSTMap<V>,
    pending: Option<(u64, V)>,
}

impl<'a, V: Copy> ConcurrentBSTMapIterator<'a, V> {
    /// The entry the next call of [`Self::next`] will yield.
    pub closed spec fn spec_pending(self) -> Option<(u64, V)> {
        self.pending
    }

    /// Yields the stored pending entry and fetches its successor from the
    /// live map, so consecutive yielded keys strictly increase; once the
    /// walk yields nothing it stays exhausted.
    pub fn next(&mut self) -> (r: Option<(u64, V)>)
        ensures
            r == old(self).spec_pending(),
            r is None ==> final(self).spec_pending() is None,
            r matches Some(kv) ==> (final(self).spec_pending() matches Some(kv2) ==> kv2.0
                > kv.0),
    {
        let out = self.pending;
        match out {
            None => {},
            Some((key, _)) => {
                let n = self.map.get_next(key);
                proof {
                    let t0 = choose|t: BstMap<V>|
                        t.wf() && (n matches Some(kv) ==> crate::succ::is_successor(t@, key, kv.0)
                            && t@[kv.0] == kv.1) && (n is None ==> forall|k: u64|
                            t@.dom().contains(k) ==> k <= key);
                    match n {
                        Some(kv2) => {
                            assert(crate::succ::is_successor(t0@, key, kv2.0));
                        },
                        None => {},
                    }
                }
                self.pending = n;
            },
        }
        out
    }
}

/// A lazy forward walk that owns its [`ConcurrentBSTMap`].
pub struct ConcurrentBSTMapIntoIterator<V: Copy> {
    map: ConcurrentBSTMap<V>,
    pending: Option<(u64, V)>,
}

impl<V: Copy> ConcurrentBSTMapIntoIterator<V> {
    /// The entry the next call of [`Self::next`] will yield.
    pub closed spec fn spec_pending(self) -> Option<(u64, V)> {
        self.pending
    }

    /// Yields the stored pending entry and fetches its successor from the
    /// live map, so consecutive yielded keys strictly increase; once the
    /// walk yields nothing it stays exhausted.
    pub fn next(&mut self) -> (r: Option<(u64, V)>)
        ensures
            r == old(self).spec_pending(),
            r is None ==> final(self).spec_pending() is None,
            r matches Some(kv) ==> (final(self).spec_pending() matches Some(kv2) ==> kv2.0
                > kv.0),
    {
        let out = self.pending;
        match out {
            None => {},
            Some((key, _)) => {
                let n = self.map.get_next(key);
                proof {
                    let t0 = choose|t: BstMap<V>|
                        t.wf() && (n matches Some(kv) ==> crate::succ::is_successor(t@, key, kv.0)
                            && t@[kv.0] == kv.1) && (n is None ==> forall|k: u64|
                            t@.dom().contains(k) ==> k <= key);
                    match n {
                        Some(kv2) => {
                            assert(crate::succ::is_successor(t0@, key, kv2.0));
                        },
                        None => {},
                    }
                }
                self.pending = n;
            },
        }
        out
    }
}

} // verus!
