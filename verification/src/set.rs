//! The set facade: a concurrent ordered set of `u64` keys, a thin consumer
//! of the concurrent map with a unit value per key.
//!
//! Inserting is idempotent: the update predicate handed to the map never
//! agrees to overwrite, so re-inserting a present key changes nothing.
use crate::concurrent::ConcurrentBSTMap;
use crate::concurrent::ConcurrentBSTMapIntoIterator;
use crate::concurrent::ConcurrentBSTMapIterator;
use crate::tree::BstMap;
use crate::MaxDepthReachedError;
use vstd::prelude::*;

verus! {

/// The unit value the set stores with each key: membership itself.
#[derive(Clone, Copy, Debug, PartialEq, Eq, Structural)]
pub struct Present;

/// A concurrent ordered set of `u64` keys.
pub struct ConcurrentBSTSet {
    map: ConcurrentBSTMap<Present>,
}

impl ConcurrentBSTSet {
    /// Creates an empty set.
    pub fn new() -> Self {
        ConcurrentBSTSet { map: ConcurrentBSTMap::new() }
    }

    /// Discards every key.
    pub fn clear(&self) {
        self.map.clear();
    }

    /// Counts the keys of the tree observed under the map's lock.
    pub fn len(&self) -> (r: usize)
        ensures
            exists|t: BstMap<Present>|
                t.wf() && r as nat == (if t.spec_len() > usize::MAX as nat {
                    usize::MAX as nat
                } else {
                    t.spec_len()
                }),
    {
        self.map.len()
    }

    /// Reports whether the tree observed under the map's lock held no key.
    pub fn is_empty(&self) -> (r: bool)
        ensures
            exists|t: BstMap<Present>| t.wf() && (r <==> t@ == Map::<u64, Present>::empty()),
    {
        self.map.is_empty()
    }

    /// Measures the height of the tree observed under the map's lock.
    pub fn depth(&self) -> (r: usize)
        ensures
            exists|t: BstMap<Present>|
                t.wf() && r as nat == (if t.spec_depth() > usize::MAX as nat {
                    usize::MAX as nat
                } else {
                    t.spec_depth()
                }),
    {
        self.map.depth()
    }

    /// Reports whether `key` was in the tree observed under the map's lock.
    pub fn contains_key(&self, key: u64) -> (r: bool)
        ensures
            exists|t: BstMap<Present>| t.wf() && r == t@.dom().contains(key),
    {
        self.map.contains_key(key)
    }

    /// Adds `key` if it was absent; adding a present key is a no-op.
    /// Fails with [`MaxDepthReachedError`], leaving the set unchanged,
    /// when the search path would exceed `max_depth` levels.
    pub fn insert(&self, key: u64, max_depth: u32) -> (r: Result<(), MaxDepthReachedError>)
        ensures
            exists|w: (BstMap<Present>, BstMap<Present>)|
                {
                    &&& w.0.wf() && w.1.wf()
                    &&& (r is Err <==> w.0.reach_depth(key) > max_depth)
                    &&& (r is Err ==> w.1 == w.0)
                    &&& (r is Ok && w.0@.dom().contains(key) ==> w.1 == w.0)
                    &&& (r is Ok && !w.0@.dom().contains(key) ==> w.1@ == w.0@.insert(
                        key,
                        Present,
                    ))
                },
    {
        let keep_stored = |a: &Present, b: &Present| -> (c: bool)
            ensures
                !c,
            { false };
        let inner = self.map.insert_or_update_if(key, Present, &keep_stored, max_depth);
        proof {
            let w = choose|w: (BstMap<Present>, BstMap<Present>)|
                {
                    &&& w.0.wf() && w.1.wf()
                    &&& (inner is Err <==> w.0.reach_depth(key) > max_depth)
                    &&& (inner is Err ==> w.1 == w.0)
                    &&& (inner matches Ok(changed) ==> {
                        &&& changed ==> w.1@ == w.0@.insert(key, Present) && w.0.spec_inserted(
                            w.1,
                            key,
                            Present,
                        )
                        &&& !changed ==> w.1 == w.0
                        &&& !w.0@.dom().contains(key) ==> changed
                        &&& w.0@.dom().contains(key) ==> call_ensures(
                            keep_stored,
                            (&w.0@[key], &Present),
                            changed,
                        )
                    })
                };
            let r0 = match inner {
                Ok(_) => Ok::<(), MaxDepthReachedError>(()),
                Err(e) => Err::<(), MaxDepthReachedError>(e),
            };
            assert({
                &&& w.0.wf() && w.1.wf()
                &&& (r0 is Err <==> w.0.reach_depth(key) > max_depth)
                &&& (r0 is Err ==> w.1 == w.0)
                &&& (r0 is Ok && w.0@.dom().contains(key) ==> w.1 == w.0)
                &&& (r0 is Ok && !w.0@.dom().contains(key) ==> w.1@ == w.0@.insert(key, Present))
            });
        }
        match inner {
            Ok(_) => Ok(()),
            Err(e) => Err(e),
        }
    }

    /// Returns the smallest key of the tree observed under the map's lock.
    pub fn get_min(&self) -> (r: Option<u64>)
        ensures
            exists|t: BstMap<Present>|
                t.wf() && (r is None <==> t@ == Map::<u64, Present>::empty()) && (r matches Some(k)
                    ==> t@.dom().contains(k) && forall|k2: u64| t@.dom().contains(k2) ==> k <= k2),
    {
        let inner = self.map.get_min();
        proof {
            let t0 = choose|t: BstMap<Present>|
                t.wf() && (inner is None <==> t@ == Map::<u64, Present>::empty()) && (inner
                    matches Some(kv) ==> t@.dom().contains(kv.0) && t@[kv.0] == kv.1 && forall|
                    k: u64,
                |
                    t@.dom().contains(k) ==> kv.0 <= k);
            let r0 = match inner {
                None => None::<u64>,
                Some((k, _)) => Some(k),
            };
            assert(t0.wf() && (r0 is None <==> t0@ == Map::<u64, Present>::empty()) && (r0
                matches Some(k) ==> t0@.dom().contains(k) && forall|k2: u64|
                t0@.dom().contains(k2) ==> k <= k2));
        }
        match inner {
            None => None,
            Some((key, _)) => Some(key),
        }
    }

    /// Returns the greatest key of the tree observed under the map's lock.
    pub fn get_max(&self) -> (r: Option<u64>)
        ensures
            exists|t: BstMap<Present>|
                t.wf() && (r is None <==> t@ == Map::<u64, Present>::empty()) && (r matches Some(k)
                    ==> t@.dom().contains(k) && forall|k2: u64| t@.dom().contains(k2) ==> k >= k2),
    {
        let inner = self.map.get_max();
        proof {
            let t0 = choose|t: BstMap<Present>|
                t.wf() && (inner is None <==> t@ == Map::<u64, Present>::empty()) && (inner
                    matches Some(kv) ==> t@.dom().contains(kv.0) && t@[kv.0] == kv.1 && forall|
                    k: u64,
                |
                    t@.dom().contains(k) ==> kv.0 >= k);
            let r0 = match inner {
                None => None::<u64>,
                Some((k, _)) => Some(k),
            };
            assert(t0.wf() && (r0 is None <==> t0@ == Map::<u64, Present>::empty()) && (r0
                matches Some(k) ==> t0@.dom().contains(k) && forall|k2: u64|
                t0@.dom().contains(k2) ==> k >= k2));
        }
        match inner {
            None => None,
            Some((key, _)) => Some(key),
        }
    }

    /// Returns the smallest key strictly greater than `key` in the tree
    /// observed under the map's lock.
    pub fn get_next(&self, key: u64) -> (r: Option<u64>)
        ensures
            exists|t: BstMap<Present>|
                t.wf() && (r matches Some(k) ==> crate::succ::is_successor(t@, key, k)) && (
                r is None ==> forall|k: u64| t@.dom().contains(k) ==> k <= key),
    {
        let inner = self.map.get_next(key);
        proof {
            let t0 = choose|t: BstMap<Present>|
                t.wf() && (inner matches Some(kv) ==> crate::succ::is_successor(t@, key, kv.0)
                    && t@[kv.0] == kv.1) && (inner is None ==> forall|k: u64|
                    t@.dom().contains(k) ==> k <= key);
            let r0 = match inner {
                None => None::<u64>,
                Some((k, _)) => Some(k),
            };
            assert(t0.wf() && (r0 matches Some(k) ==> crate::succ::is_successor(t0@, key, k)) && (
            r0 is None ==> forall|k: u64| t0@.dom().contains(k) ==> k <= key));
        }
        match inner {
            None => None,
            Some((next_key, _)) => Some(next_key),
        }
    }

    /// Removes `key`, if present.
    pub fn remove(&self, key: u64) {
        self.map.remove(key);
    }

    /// Removes `key` if it is present and `should_remove` agrees when
    /// handed it.
    pub fn remove_if<F: Fn(&u64) -> bool>(&self, key: u64, should_remove: &F)
        requires
            forall|k: &u64| call_requires(*should_remove, (k,)),
    {
        if should_remove(&key) {
            self.map.remove(key);
        }
    }

    /// Removes every key that `criteria` selects, walking a snapshot of
    /// the keys.
    pub fn retain<F: Fn(&u64) -> bool>(&self, criteria: &F)
        requires
            forall|k: &u64| call_requires(*criteria, (k,)),
    {
        let entries = self.map.get_all_key_values();
        let mut i: usize = 0;
        while i < entries.len()
            invariant
                forall|k: &u64| call_requires(*criteria, (k,)),
            decreases entries.len() - i,
        {
            let (key, _unit) = entries[i];
            if criteria(&key) {
                self.map.remove(key);
            }
            i = i + 1;
        }
    }

    /// Starts a forward walk over the keys in increasing order.
    pub fn iter(&self) -> ConcurrentBSTMapIterator<'_, Present> {
        self.map.iter()
    }

    /// As [`ConcurrentBSTSet::iter`], consuming the set.
    pub fn into_iter(self) -> ConcurrentBSTMapIntoIterator<Present> {
        self.map.into_iter()
    }
}

} // verus!
