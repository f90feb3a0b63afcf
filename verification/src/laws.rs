//! The library's general guarantees, stated once over the abstractions the
//! operation contracts use and proved by Verus.
//!
//! Together with the `ensures` clauses of the tree operations these cover
//! the map's laws: a lookup after an insert sees the inserted value and the
//! key count grows only for new keys; a removed key is gone and nothing
//! else moved; successor chains ascend strictly; an insert within a bound
//! above the tree's height cannot fail; and the circular distance behaves
//! as a metric on the key ring.
use crate::nearest::circ_dist;
use crate::succ::is_successor;
use crate::tree::BstMap;
use crate::tree::Node;
use vstd::prelude::*;

verus! {

/// A well-formed tree holds one entry per node: `len()` returns the number
/// of distinct keys stored, the cardinality of `self@.dom()`.
pub proof fn lemma_len_matches_model<V: Copy>(m: BstMap<V>)
    requires
        m.wf(),
    ensures
        m@.dom().finite(),
        m@.dom().len() == m.spec_len(),
{
    crate::tree::lemma_count_is_cardinality(m.root);
}

/// Round trip: after an insert, lookup at the inserted key finds the value
/// inserted last, no other entry has moved, and the key count has grown
/// exactly when the key was new.
pub proof fn lemma_insert_round_trip<V>(m: Map<u64, V>, key: u64, value: V)
    requires
        m.dom().finite(),
    ensures
        m.insert(key, value).dom().contains(key),
        m.insert(key, value)[key] == value,
        !m.dom().contains(key) ==> m.insert(key, value).dom().len() == m.dom().len() + 1,
        m.dom().contains(key) ==> m.insert(key, value).dom().len() == m.dom().len(),
        forall|k: u64|
            k != key ==> (#[trigger] m.insert(key, value).dom().contains(k) <==> m.dom().contains(
                k,
            )),
        forall|k: u64| k != key && m.dom().contains(k) ==> #[trigger] m.insert(key, value)[k]
            == m[k],
{
    if m.dom().contains(key) {
        assert(m.insert(key, value).dom() =~= m.dom());
    } else {
        assert(m.insert(key, value).dom() =~= m.dom().insert(key));
    }
}

/// Removal completeness: after a remove, lookup at the removed key finds
/// nothing, no other entry has moved, and the key count has shrunk exactly
/// when the key was present.  Removing every key in turn therefore leaves
/// the count at zero.
pub proof fn lemma_remove_round_trip<V>(m: Map<u64, V>, key: u64)
    requires
        m.dom().finite(),
    ensures
        !m.remove(key).dom().contains(key),
        m.dom().contains(key) ==> m.remove(key).dom().len() == m.dom().len() - 1,
        !m.dom().contains(key) ==> m.remove(key) == m,
        forall|k: u64|
            k != key ==> (#[trigger] m.remove(key).dom().contains(k) <==> m.dom().contains(k)),
        forall|k: u64| k != key && m.dom().contains(k) ==> #[trigger] m.remove(key)[k] == m[k],
{
    if m.dom().contains(key) {
        assert(m.remove(key).dom() =~= m.dom().remove(key));
    } else {
        assert(m.remove(key) =~= m);
    }
}

/// The map left behind by a sequence of inserts, first element first:
/// what a run of successful `insert_or_update` calls builds, since each
/// such call ensures `final(self)@ == old(self)@.insert(key, value)`.
pub open spec fn after_inserts<V>(ops: Seq<(u64, V)>) -> Map<u64, V>
    decreases ops.len(),
{
    if ops.len() == 0 {
        Map::empty()
    } else {
        after_inserts(ops.drop_last()).insert(ops.last().0, ops.last().1)
    }
}

/// The position of the last insert of `k` in `ops`.
pub open spec fn last_write<V>(ops: Seq<(u64, V)>, k: u64) -> int
    decreases ops.len(),
{
    if ops.len() == 0 {
        -1
    } else if ops.last().0 == k {
        ops.len() - 1
    } else {
        last_write(ops.drop_last(), k)
    }
}

/// Round trip over whole histories: after any sequence of inserts, the
/// map holds exactly the keys that were inserted, and each key carries
/// the value of its last insert.
pub proof fn lemma_insert_sequence_round_trip<V>(ops: Seq<(u64, V)>, k: u64)
    ensures
        after_inserts(ops).dom().contains(k) <==> exists|i: int|
            0 <= i < ops.len() && ops[i].0 == k,
        after_inserts(ops).dom().contains(k) ==> 0 <= last_write(ops, k) < ops.len() && ops[
            last_write(ops, k)
        ].0 == k && after_inserts(ops)[k] == ops[last_write(ops, k)].1,
    decreases ops.len(),
{
    if ops.len() > 0 {
        lemma_insert_sequence_round_trip(ops.drop_last(), k);
        let prefix = ops.drop_last();
        if ops.last().0 == k {
            assert(ops[ops.len() - 1].0 == k);
        } else {
            if after_inserts(ops).dom().contains(k) {
                let i = choose|i: int| 0 <= i < prefix.len() && prefix[i].0 == k;
                assert(ops[i].0 == k);
            } else {
                if exists|i: int| 0 <= i < ops.len() && ops[i].0 == k {
                    let i = choose|i: int| 0 <= i < ops.len() && ops[i].0 == k;
                    assert(prefix[i].0 == k);
                }
            }
        }
    }
}

/// Removal completeness over whole maps: removing every key leaves the
/// empty map, so `len()` is zero afterwards.
pub proof fn lemma_remove_all_empties<V>(m: Map<u64, V>)
    ensures
        m.remove_keys(m.dom()) == Map::<u64, V>::empty(),
{
    assert(m.remove_keys(m.dom()) =~= Map::<u64, V>::empty());
}

/// Ordering invariant: chaining successor queries yields strictly
/// increasing keys and skips nothing, so the walk that starts at the
/// smallest key visits the keys in strictly increasing order.
pub proof fn lemma_successor_chain_increases<V>(m: Map<u64, V>, q: u64, k1: u64, k2: u64)
    requires
        is_successor(m, q, k1),
        is_successor(m, k1, k2),
    ensures
        q < k1 < k2,
        forall|j: u64| m.dom().contains(j) ==> !(q < j < k1) && !(k1 < j < k2),
{
}

/// Depth bound: the search path for any key descends at most one level
/// below the deepest node, so an insert whose bound exceeds the tree's
/// depth cannot fail.
pub proof fn lemma_depth_bound_suffices<V: Copy>(m: BstMap<V>, key: u64)
    ensures
        m.reach_depth(key) <= m.spec_depth() + 1,
        m.reach_depth(key) <= m.spec_len() + 1,
{
    crate::tree::lemma_reach_le_height(m.root, key);
    crate::tree::lemma_height_le_count(m.root);
}

/// Depth-bound invariant, one step: a successful insert under bound `b`
/// never leaves the tree deeper than `b`, since the contract fixes the new
/// depth as the larger of the old depth and the key's search-path length.
/// Chained from `new()` (depth zero), a run of inserts that all returned
/// `Ok` under bound `b` keeps `depth() <= b`.
pub proof fn lemma_ok_insert_keeps_depth_bounded<V: Copy>(
    pre: BstMap<V>,
    post: BstMap<V>,
    key: u64,
    bound: u32,
)
    requires
        pre.spec_depth() <= bound,
        pre.reach_depth(key) <= bound,
        post.spec_depth() == (if pre.spec_depth() >= pre.reach_depth(key) {
            pre.spec_depth()
        } else {
            pre.reach_depth(key)
        }),
    ensures
        post.spec_depth() <= bound,
{
}

/// Inserting a key above every stored key extends the right spine: the
/// search paths of that key and of everything beyond it grow by exactly
/// one level.  Inserting `n` strictly increasing keys from empty therefore
/// gives the `n`-th key a search path of `n` levels, which is what makes a
/// depth-bounded ascending insert sequence fail once the bound is passed.
pub proof fn lemma_ascending_insert_reach<V: Copy>(
    pre: BstMap<V>,
    post: BstMap<V>,
    key: u64,
    value: V,
    beyond: u64,
)
    requires
        pre.spec_inserted(post, key, value),
        forall|k: u64| pre@.dom().contains(k) ==> k < key,
        beyond > key,
    ensures
        post.reach_depth(key) == pre.reach_depth(key),
        post.reach_depth(beyond) == pre.reach_depth(key) + 1,
{
    assert forall|k: u64| Node::<V>::sub_map(pre.root).dom().contains(k) implies k < key by {
        assert(pre@.dom().contains(k));
    }
    lemma_ascending_reach_node(pre.root, post.root, key, value, beyond);
}

/// Node-level induction behind [`lemma_ascending_insert_reach`]: with all
/// keys below `key`, the insert recursion only ever turns right, so both
/// search paths follow the right spine down to the new leaf.
proof fn lemma_ascending_reach_node<V>(
    pre: Option<Box<Node<V>>>,
    post: Option<Box<Node<V>>>,
    key: u64,
    value: V,
    beyond: u64,
)
    requires
        Node::<V>::inserted(pre, post, key, value),
        forall|k: u64| Node::<V>::sub_map(pre).dom().contains(k) ==> k < key,
        beyond > key,
    ensures
        Node::<V>::reach(post, key) == Node::<V>::reach(pre, key),
        Node::<V>::reach(post, beyond) == Node::<V>::reach(pre, key) + 1,
    decreases pre,
{
    match pre {
        None => {
            let p = post.unwrap();
            assert(p.key == key && p.right is None);
            assert(Node::<V>::reach(post, beyond) == 1 + Node::<V>::reach(p.right, beyond));
        },
        Some(n) => {
            assert(Node::<V>::sub_map(pre).dom().contains(n.key));
            let p = post.unwrap();
            assert forall|k: u64| Node::<V>::sub_map(n.right).dom().contains(k) implies k
                < key by {
                assert(Node::<V>::sub_map(pre).dom().contains(k));
            }
            lemma_ascending_reach_node(n.right, p.right, key, value, beyond);
        },
    }
}

/// Circular distance is symmetric, zero exactly on equal keys, and never
/// more than half way around the ring of size 2^64.
pub proof fn lemma_circ_dist_metric(a: u64, b: u64)
    ensures
        circ_dist(a, b) == circ_dist(b, a),
        circ_dist(a, b) >= 0,
        circ_dist(a, b) == 0 <==> a == b,
        circ_dist(a, b) <= 0x8000000000000000,
{
}

} // verus!
