//! The sequential core of the map: an unbalanced binary search tree owning
//! its nodes, abstracted as a `Map<u64, V>`.
//!
//! Every operation of the concurrent map is a specialization of the same
//! top-down descent over this structure; the concurrent wrappers run these
//! functions while holding the tree's lock.  The well-formedness predicate
//! [`BstMap::wf`] is the strict ordering invariant: every key in a node's
//! left subtree is smaller than the node's key, every key in its right
//! subtree is greater.
use crate::MaxDepthReachedError;
use vstd::prelude::*;

verus! {

/// One tree node: a key, a value, and two optional child subtrees it owns.
pub(crate) struct Node<V> {
    pub(crate) key: u64,
    pub(crate) value: V,
    pub(crate) left: Option<Box<Node<V>>>,
    pub(crate) right: Option<Box<Node<V>>>,
}

/// An ordered map from `u64` keys to copyable values, as a binary search
/// tree.  All operations take their meaning from the abstraction `self@`,
/// a `Map<u64, V>`.
pub struct BstMap<V> {
    pub(crate) root: Option<Box<Node<V>>>,
}

impl<V> Node<V> {
    /// The entries stored in an optional subtree.
    pub(crate) open spec fn sub_map(opt: Option<Box<Node<V>>>) -> Map<u64, V>
        decreases opt,
    {
        match opt {
            None => Map::empty(),
            Some(n) => Map::<u64, V>::empty()
                .union_prefer_right(Self::sub_map(n.left))
                .union_prefer_right(Self::sub_map(n.right))
                .insert(n.key, n.value),
        }
    }

    /// Strict search-tree ordering: keys on the left are below the node's
    /// key, keys on the right above it, recursively.
    pub(crate) open spec fn ordered(opt: Option<Box<Node<V>>>) -> bool
        decreases opt,
    {
        match opt {
            None => true,
            Some(n) => {
                &&& forall|k: u64| Self::sub_map(n.left).dom().contains(k) ==> k < n.key
                &&& forall|k: u64| Self::sub_map(n.right).dom().contains(k) ==> k > n.key
                &&& Self::ordered(n.left)
                &&& Self::ordered(n.right)
            },
        }
    }
}

impl<V> Node<V> {
    /// Number of nodes in an optional subtree.
    pub(crate) open spec fn count(opt: Option<Box<Node<V>>>) -> nat
        decreases opt,
    {
        match opt {
            None => 0,
            Some(n) => 1 + Self::count(n.left) + Self::count(n.right),
        }
    }

    /// Height of an optional subtree: the number of nodes on its longest
    /// root-to-leaf path.
    pub(crate) open spec fn height(opt: Option<Box<Node<V>>>) -> nat
        decreases opt,
    {
        match opt {
            None => 0,
            Some(n) => 1 + if Self::height(n.left) >= Self::height(n.right) {
                Self::height(n.left)
            } else {
                Self::height(n.right)
            },
        }
    }

    /// How many levels an insert of `key` must descend through before it
    /// resolves: the length of the search path for `key`, counting the
    /// level at which the new node would be created.
    pub(crate) open spec fn reach(opt: Option<Box<Node<V>>>, key: u64) -> nat
        decreases opt,
    {
        match opt {
            None => 1,
            Some(n) => if n.key == key {
                1
            } else if key < n.key {
                1 + Self::reach(n.left, key)
            } else {
                1 + Self::reach(n.right, key)
            },
        }
    }
}

impl<V> Node<V> {
    /// `post` is exactly `pre` with `key -> value` written along the
    /// search path: a new leaf where the path ended at an empty slot, or
    /// the value overwritten in place where the path found the key.  This
    /// pins the whole post-insert shape, so structural facts — how
    /// `reach` and `height` evolve, which spine grows — are derivable.
    pub(crate) open spec fn inserted(
        pre: Option<Box<Node<V>>>,
        post: Option<Box<Node<V>>>,
        key: u64,
        value: V,
    ) -> bool
        decreases pre,
    {
        match pre {
            None => match post {
                None => false,
                Some(p) => p.key == key && p.value == value && p.left is None && p.right is None,
            },
            Some(n) => match post {
                None => false,
                Some(p) => if key == n.key {
                    p.key == n.key && p.value == value && p.left == n.left && p.right == n.right
                } else if key < n.key {
                    p.key == n.key && p.value == n.value && p.right == n.right && Self::inserted(
                        n.left,
                        p.left,
                        key,
                        value,
                    )
                } else {
                    p.key == n.key && p.value == n.value && p.left == n.left && Self::inserted(
                        n.right,
                        p.right,
                        key,
                        value,
                    )
                },
            },
        }
    }
}

impl<V> Node<V> {
    /// The entries of an optional subtree as a sequence: both subtrees'
    /// entries first, the node's own entry last.
    pub(crate) open spec fn kv_seq(opt: Option<Box<Node<V>>>) -> Seq<(u64, V)>
        decreases opt,
    {
        match opt {
            None => Seq::empty(),
            Some(n) => Self::kv_seq(n.left) + Self::kv_seq(n.right) + seq![(n.key, n.value)],
        }
    }
}

impl<V> View for BstMap<V> {
    type V = Map<u64, V>;

    open(crate) spec fn view(&self) -> Map<u64, V> {
        Node::<V>::sub_map(self.root)
    }
}

impl<V: Copy> BstMap<V> {
    /// The internal invariant: the tree respects strict search-tree
    /// ordering.  `new` establishes it and every operation preserves it.
    pub open(crate) spec fn wf(self) -> bool {
        Node::<V>::ordered(self.root)
    }

    /// Creates an empty map.
    pub fn new() -> (r: Self)
        ensures
            r.wf(),
            r@ == Map::<u64, V>::empty(),
            r.spec_len() == 0,
            r.spec_depth() == 0,
            forall|k: u64| r.reach_depth(k) == 1,
    {
        BstMap { root: None }
    }

    /// Discards every entry.
    pub fn clear(&mut self)
        ensures
            final(self).wf(),
            final(self)@ == Map::<u64, V>::empty(),
            final(self).spec_len() == 0,
            final(self).spec_depth() == 0,
            forall|k: u64| final(self).reach_depth(k) == 1,
    {
        self.root = None;
    }

    /// Looks a key up, returning its value if the key is present.
    pub fn get(&self, key: u64) -> (r: Option<V>)
        requires
            self.wf(),
        ensures
            r == (if self@.dom().contains(key) {
                Some(self@[key])
            } else {
                None::<V>
            }),
    {
        get_rec(&self.root, key)
    }

    /// Reports whether a key is present.
    pub fn contains_key(&self, key: u64) -> (r: bool)
        requires
            self.wf(),
        ensures
            r == self@.dom().contains(key),
    {
        self.get(key).is_some()
    }

    /// The number of nodes the tree holds; equals `self@.dom().len()` (see
    /// `crate::laws::lemma_len_matches_model`).
    pub open(crate) spec fn spec_len(self) -> nat {
        Node::<V>::count(self.root)
    }

    /// The height of the tree.  Structural, so not a function of `self@`:
    /// two trees holding the same entries may have different depths.
    pub open(crate) spec fn spec_depth(self) -> nat {
        Node::<V>::height(self.root)
    }

    /// The number of levels an insert of `key` must descend through before
    /// it resolves; inserts fail with [`MaxDepthReachedError`] exactly when
    /// this exceeds the caller's bound.
    pub open(crate) spec fn reach_depth(self, key: u64) -> nat {
        Node::<V>::reach(self.root, key)
    }

    /// `post` is this tree with `key -> value` written along the search
    /// path and nothing else moved; what a successful insert that changed
    /// the map did to the structure.
    pub open(crate) spec fn spec_inserted(self, post: BstMap<V>, key: u64, value: V) -> bool {
        Node::<V>::inserted(self.root, post.root, key, value)
    }

    /// Counts the entries, saturating at `usize::MAX`.
    pub fn len(&self) -> (r: usize)
        ensures
            r as nat == if self.spec_len() > usize::MAX as nat {
                usize::MAX as nat
            } else {
                self.spec_len()
            },
    {
        len_rec(&self.root)
    }

    /// Reports whether the map holds no entry.
    pub fn is_empty(&self) -> (r: bool)
        ensures
            r <==> self@ == Map::<u64, V>::empty(),
    {
        proof {
            lemma_empty_iff_none(self.root);
        }
        self.len() == 0
    }

    /// Measures the height of the tree, saturating at `usize::MAX`.
    pub fn depth(&self) -> (r: usize)
        ensures
            r as nat == if self.spec_depth() > usize::MAX as nat {
                usize::MAX as nat
            } else {
                self.spec_depth()
            },
            r == 0 <==> self@ == Map::<u64, V>::empty(),
    {
        proof {
            lemma_empty_iff_none(self.root);
        }
        depth_rec(&self.root)
    }
}

impl<V: Copy> BstMap<V> {
    /// The entries as a sequence, in the order `get_all_key_values` hands
    /// them out.
    pub open(crate) spec fn spec_kv_seq(self) -> Seq<(u64, V)> {
        Node::<V>::kv_seq(self.root)
    }

    /// Collects every entry into a vector: each element is a stored entry,
    /// every stored entry appears, and no key appears twice.
    pub fn get_all_key_values(&self) -> (r: Vec<(u64, V)>)
        requires
            self.wf(),
        ensures
            r@.len() == self.spec_len(),
            forall|i: int|
                0 <= i < r@.len() ==> self@.dom().contains(#[trigger] r@[i].0) && self@[r@[i].0]
                    == r@[i].1,
            forall|k: u64|
                #[trigger] self@.dom().contains(k) ==> exists|i: int|
                    0 <= i < r@.len() && r@[i] == (k, self@[k]),
            forall|i: int, j: int| 0 <= i < j < r@.len() ==> r@[i].0 != r@[j].0,
    {
        proof {
            lemma_kv_seq_props(self.root);
        }
        let mut out: Vec<(u64, V)> = Vec::new();
        all_rec(&self.root, &mut out);
        out
    }
}

impl<V: Copy> BstMap<V> {
    /// Builds a map holding exactly the given entries, whose keys must be
    /// distinct, inserting them in the order `pick` chooses.  `pick`'s
    /// result is reduced modulo the number of entries still waiting (the
    /// original design expected an in-range index).  The entry count must
    /// leave the per-insert depth bound representable in a `u32`.
    #[verifier::spinoff_prover]
    #[verifier::rlimit(100)]
    pub fn from_entries_shuffled<F: Fn(usize) -> usize>(entries: Vec<(u64, V)>, pick: &F) -> (r:
        BstMap<V>)
        requires
            forall|n: usize| call_requires(*pick, (n,)),
            forall|i: int, j: int| 0 <= i < j < entries@.len() ==> entries@[i].0 != entries@[j].0,
            entries@.len() < 0xFFFF_FFFF,
        ensures
            r.wf(),
            forall|i: int|
                0 <= i < entries@.len() ==> r@.dom().contains(#[trigger] entries@[i].0)
                    && r@[entries@[i].0] == entries@[i].1,
            forall|k: u64| #[trigger] r@.dom().contains(k) ==> entries@.contains((k, r@[k])),
    {
        let ghost orig = entries@;
        let total = entries.len();
        let bound: u32 = (total + 1) as u32;
        let mut waiting = entries;
        let mut fresh = BstMap::new();
        proof {
            assert forall|i: int|
                0 <= i < waiting@.len() implies orig.contains(#[trigger] waiting@[i]) by {
                orig.lemma_index_contains(i);
            }
        }
        while waiting.len() > 0
            invariant
                fresh.wf(),
                forall|n: usize| call_requires(*pick, (n,)),
                orig.len() < 0xFFFF_FFFF,
                bound == orig.len() + 1,
                forall|i: int, j: int| 0 <= i < j < orig.len() ==> orig[i].0 != orig[j].0,
                forall|i: int| 0 <= i < waiting@.len() ==> orig.contains(#[trigger] waiting@[i]),
                forall|i: int, j: int|
                    0 <= i < j < waiting@.len() ==> waiting@[i].0 != waiting@[j].0,
                forall|i: int|
                    0 <= i < waiting@.len() ==> !fresh@.dom().contains(#[trigger] waiting@[i].0),
                forall|k: u64| #[trigger] fresh@.dom().contains(k) ==> orig.contains((
                    k,
                    fresh@[k],
                )),
                forall|j: int|
                    0 <= j < orig.len() ==> fresh@.dom().contains(#[trigger] orig[j].0)
                        || waiting@.contains(orig[j]),
                fresh@.dom().finite(),
                fresh@.dom().len() + waiting@.len() <= orig.len(),
            decreases waiting.len(),
        {
            let ghost prev_waiting = waiting@;
            let ghost prev_map = fresh@;
            let picked = pick(waiting.len());
            let idx = picked % waiting.len();
            let (key, value) = waiting.swap_remove(idx);
            proof {
                assert(prev_waiting[idx as int] == (key, value));
                lemma_reach_le_height(fresh.root, key);
                lemma_height_le_count(fresh.root);
                lemma_count_is_cardinality(fresh.root);
            }
            let res = fresh.insert_or_update(key, value, bound);
            proof {
                assert(res is Ok);
                assert(fresh@ == prev_map.insert(key, value));
                let moved = prev_waiting.len() - 1;
                assert forall|i: int|
                    0 <= i < waiting@.len() implies orig.contains(#[trigger] waiting@[i]) by {
                    if i == idx {
                        assert(waiting@[i] == prev_waiting[moved]);
                    } else {
                        assert(waiting@[i] == prev_waiting[i]);
                    }
                }
                assert forall|i: int, j: int|
                    0 <= i < j < waiting@.len() implies waiting@[i].0 != waiting@[j].0 by {
                    if i == idx {
                        assert(waiting@[i] == prev_waiting[moved] && waiting@[j]
                            == prev_waiting[j]);
                    } else if j == idx {
                        assert(waiting@[i] == prev_waiting[i] && waiting@[j]
                            == prev_waiting[moved]);
                    } else {
                        assert(waiting@[i] == prev_waiting[i] && waiting@[j] == prev_waiting[j]);
                    }
                }
                assert forall|i: int|
                    0 <= i < waiting@.len() implies !fresh@.dom().contains(
                    #[trigger] waiting@[i].0,
                ) by {
                    if i == idx {
                        assert(waiting@[i] == prev_waiting[moved]);
                        assert(prev_waiting[moved].0 != prev_waiting[idx as int].0);
                    } else {
                        assert(waiting@[i] == prev_waiting[i]);
                        assert(prev_waiting[i].0 != prev_waiting[idx as int].0);
                    }
                }
                assert forall|k: u64| #[trigger] fresh@.dom().contains(k) implies orig.contains(
                    (k, fresh@[k]),
                ) by {
                    if k == key {
                        assert(orig.contains(prev_waiting[idx as int]));
                        assert((k, fresh@[k]) == prev_waiting[idx as int]);
                    } else {
                        assert(prev_map.dom().contains(k));
                        assert((k, fresh@[k]) == (k, prev_map[k]));
                    }
                }
                assert forall|j: int|
                    0 <= j < orig.len() implies fresh@.dom().contains(#[trigger] orig[j].0)
                    || waiting@.contains(orig[j]) by {
                    if orig[j].0 != key && !prev_map.dom().contains(orig[j].0) {
                        assert(prev_waiting.contains(orig[j]));
                        let i = choose|i: int|
                            0 <= i < prev_waiting.len() && prev_waiting[i] == orig[j];
                        if i == moved && idx < moved {
                            assert(waiting@[idx as int] == orig[j]);
                            waiting@.lemma_index_contains(idx as int);
                        } else {
                            assert(i != idx && i != moved);
                            assert(waiting@[i] == orig[j]);
                            waiting@.lemma_index_contains(i);
                        }
                    }
                }
                assert(fresh@.dom() =~= prev_map.dom().insert(key));
            }
        }
        proof {
            assert forall|i: int|
                0 <= i < orig.len() implies fresh@.dom().contains(#[trigger] orig[i].0)
                && fresh@[orig[i].0] == orig[i].1 by {
                if waiting@.contains(orig[i]) {
                    let p = choose|p: int| 0 <= p < waiting@.len() && waiting@[p] == orig[i];
                    assert(false);
                }
                assert(fresh@.dom().contains(orig[i].0));
                assert(orig.contains((orig[i].0, fresh@[orig[i].0])));
                let j = choose|j: int|
                    0 <= j < orig.len() && orig[j] == (orig[i].0, fresh@[orig[i].0]);
                assert(j == i);
            }
        }
        fresh
    }
}

/// Accumulates a subtree's entries, subtrees first, the node's own last.
fn all_rec<V: Copy>(opt: &Option<Box<Node<V>>>, out: &mut Vec<(u64, V)>)
    ensures
        final(out)@ == old(out)@ + Node::<V>::kv_seq(*opt),
    decreases *opt,
{
    match opt {
        None => {
            proof {
                assert(final(out)@ =~= old(out)@ + Node::<V>::kv_seq(*opt));
            }
        },
        Some(n) => {
            all_rec(&n.left, out);
            all_rec(&n.right, out);
            out.push((n.key, n.value));
            proof {
                assert(out@ =~= old(out)@ + Node::<V>::kv_seq(*opt));
            }
        },
    }
}

/// The entry sequence of an ordered subtree matches its entry map: same
/// length as the node count, every element a stored entry, every stored
/// entry present, and all keys distinct.
pub(crate) proof fn lemma_kv_seq_props<V>(opt: Option<Box<Node<V>>>)
    requires
        Node::<V>::ordered(opt),
    ensures
        Node::<V>::kv_seq(opt).len() == Node::<V>::count(opt),
        forall|i: int|
            0 <= i < Node::<V>::kv_seq(opt).len() ==> Node::<V>::sub_map(opt).dom().contains(
                #[trigger] Node::<V>::kv_seq(opt)[i].0,
            ) && Node::<V>::sub_map(opt)[Node::<V>::kv_seq(opt)[i].0] == Node::<V>::kv_seq(
                opt,
            )[i].1,
        forall|k: u64|
            #[trigger] Node::<V>::sub_map(opt).dom().contains(k) ==> exists|i: int|
                0 <= i < Node::<V>::kv_seq(opt).len() && Node::<V>::kv_seq(opt)[i] == (
                k,
                Node::<V>::sub_map(opt)[k],
                ),
        forall|i: int, j: int|
            0 <= i < j < Node::<V>::kv_seq(opt).len() ==> Node::<V>::kv_seq(opt)[i].0 != Node::<
                V,
            >::kv_seq(opt)[j].0,
    decreases opt,
{
    match opt {
        None => {},
        Some(n) => {
            lemma_kv_seq_props(n.left);
            lemma_kv_seq_props(n.right);
            let ls = Node::<V>::kv_seq(n.left);
            let rs = Node::<V>::kv_seq(n.right);
            let s = Node::<V>::kv_seq(opt);
            let m = Node::<V>::sub_map(opt);
            assert(s == ls + rs + seq![(n.key, n.value)]);
            assert forall|i: int| 0 <= i < s.len() implies m.dom().contains(#[trigger] s[i].0)
                && m[s[i].0] == s[i].1 by {
                if i < ls.len() {
                    assert(s[i] == ls[i]);
                    assert(Node::<V>::sub_map(n.left).dom().contains(ls[i].0));
                    assert(!Node::<V>::sub_map(n.right).dom().contains(ls[i].0));
                } else if i < ls.len() + rs.len() {
                    assert(s[i] == rs[i - ls.len()]);
                    assert(Node::<V>::sub_map(n.right).dom().contains(rs[i - ls.len()].0));
                } else {
                    assert(s[i] == (n.key, n.value));
                }
            }
            assert forall|k: u64| #[trigger] m.dom().contains(k) implies exists|i: int|
                0 <= i < s.len() && s[i] == (k, m[k]) by {
                if k == n.key {
                    assert(s[s.len() - 1] == (k, m[k]));
                } else if Node::<V>::sub_map(n.left).dom().contains(k) {
                    assert(!Node::<V>::sub_map(n.right).dom().contains(k));
                    let i = choose|i: int|
                        0 <= i < ls.len() && ls[i] == (k, Node::<V>::sub_map(n.left)[k]);
                    assert(s[i] == (k, m[k]));
                } else {
                    assert(Node::<V>::sub_map(n.right).dom().contains(k));
                    let i = choose|i: int|
                        0 <= i < rs.len() && rs[i] == (k, Node::<V>::sub_map(n.right)[k]);
                    assert(s[ls.len() + i] == (k, m[k]));
                }
            }
            assert forall|i: int, j: int| 0 <= i < j < s.len() implies s[i].0 != s[j].0 by {
                if j == s.len() - 1 {
                    if i < ls.len() {
                        assert(Node::<V>::sub_map(n.left).dom().contains(ls[i].0));
                    } else {
                        assert(Node::<V>::sub_map(n.right).dom().contains(rs[i - ls.len()].0));
                    }
                } else if i < ls.len() && j >= ls.len() {
                    assert(Node::<V>::sub_map(n.left).dom().contains(ls[i].0));
                    assert(Node::<V>::sub_map(n.right).dom().contains(rs[j - ls.len()].0));
                }
            }
        },
    }
}

/// An ordered subtree's entry map is finite and holds exactly one entry
/// per node.
pub(crate) proof fn lemma_count_is_cardinality<V>(opt: Option<Box<Node<V>>>)
    requires
        Node::<V>::ordered(opt),
    ensures
        Node::<V>::sub_map(opt).dom().finite(),
        Node::<V>::sub_map(opt).dom().len() == Node::<V>::count(opt),
    decreases opt,
{
    match opt {
        None => {
            assert(Node::<V>::sub_map(opt).dom() =~= Set::<u64>::empty());
        },
        Some(n) => {
            lemma_count_is_cardinality(n.left);
            lemma_count_is_cardinality(n.right);
            let dl = Node::<V>::sub_map(n.left).dom();
            let dr = Node::<V>::sub_map(n.right).dom();
            assert(dl.disjoint(dr)) by {
                assert forall|k: u64| !(dl.contains(k) && dr.contains(k)) by {
                    if dl.contains(k) && dr.contains(k) {
                        assert(k < n.key && k > n.key);
                    }
                }
            }
            vstd::set_lib::lemma_set_disjoint_lens(dl, dr);
            assert(Node::<V>::sub_map(opt).dom() =~= (dl + dr).insert(n.key));
            assert(!(dl + dr).contains(n.key));
        },
    }
}

/// No search path descends deeper than one level below the deepest node.
pub(crate) proof fn lemma_reach_le_height<V>(opt: Option<Box<Node<V>>>, key: u64)
    ensures
        Node::<V>::reach(opt, key) <= Node::<V>::height(opt) + 1,
    decreases opt,
{
    match opt {
        None => {},
        Some(n) => {
            lemma_reach_le_height(n.left, key);
            lemma_reach_le_height(n.right, key);
        },
    }
}

/// A tree's height never exceeds its node count.
pub(crate) proof fn lemma_height_le_count<V>(opt: Option<Box<Node<V>>>)
    ensures
        Node::<V>::height(opt) <= Node::<V>::count(opt),
    decreases opt,
{
    match opt {
        None => {},
        Some(n) => {
            lemma_height_le_count(n.left);
            lemma_height_le_count(n.right);
        },
    }
}

/// A subtree's entry map is empty exactly when the subtree has no root node,
/// which is also when its count and height are zero.
proof fn lemma_empty_iff_none<V>(opt: Option<Box<Node<V>>>)
    ensures
        (Node::<V>::sub_map(opt) == Map::<u64, V>::empty()) <==> opt is None,
        (Node::<V>::count(opt) == 0) <==> opt is None,
        (Node::<V>::height(opt) == 0) <==> opt is None,
{
    match opt {
        None => {
            assert(Node::<V>::sub_map(opt) =~= Map::<u64, V>::empty());
        },
        Some(n) => {
            assert(Node::<V>::sub_map(opt).dom().contains(n.key));
        },
    }
}

/// Recursive node count, saturating at `usize::MAX`.
fn len_rec<V>(opt: &Option<Box<Node<V>>>) -> (r: usize)
    ensures
        r as nat == if Node::<V>::count(*opt) > usize::MAX as nat {
            usize::MAX as nat
        } else {
            Node::<V>::count(*opt)
        },
    decreases *opt,
{
    match opt {
        None => 0,
        Some(n) => {
            let left_len = len_rec(&n.left);
            let right_len = len_rec(&n.right);
            if left_len < usize::MAX && right_len < usize::MAX - left_len {
                left_len + right_len + 1
            } else {
                usize::MAX
            }
        },
    }
}

/// Recursive height, saturating at `usize::MAX`.
fn depth_rec<V>(opt: &Option<Box<Node<V>>>) -> (r: usize)
    ensures
        r as nat == if Node::<V>::height(*opt) > usize::MAX as nat {
            usize::MAX as nat
        } else {
            Node::<V>::height(*opt)
        },
    decreases *opt,
{
    match opt {
        None => 0,
        Some(n) => {
            let left_depth = depth_rec(&n.left);
            let right_depth = depth_rec(&n.right);
            let tall = if left_depth >= right_depth {
                left_depth
            } else {
                right_depth
            };
            if tall < usize::MAX {
                tall + 1
            } else {
                usize::MAX
            }
        },
    }
}

impl<V: Copy> BstMap<V> {
    /// Creates the entry `key -> value`, or hands the stored value and the
    /// new one to `should_update` and overwrites only if it agrees.
    ///
    /// Returns `Ok(true)` when a new entry was created or an existing one
    /// overwritten, `Ok(false)` when `should_update` declined (the map is
    /// then unchanged), and `Err(MaxDepthReachedError)` when the search
    /// path for `key` would exceed `max_depth` levels (the map is then
    /// unchanged as well).
    pub fn insert_or_update_if<F: Fn(&V, &V) -> bool>(
        &mut self,
        key: u64,
        value: V,
        should_update: &F,
        max_depth: u32,
    ) -> (r: Result<bool, MaxDepthReachedError>)
        requires
            old(self).wf(),
            forall|a: &V, b: &V| call_requires(*should_update, (a, b)),
        ensures
            final(self).wf(),
            final(self).spec_depth() <= old(self).spec_depth() + 1,
            r is Err <==> old(self).reach_depth(key) > max_depth,
            r is Err ==> *final(self) == *old(self),
            r is Ok ==> final(self).spec_depth() == (if old(self).spec_depth() >= old(
                self,
            ).reach_depth(key) {
                old(self).spec_depth()
            } else {
                old(self).reach_depth(key)
            }),
            r matches Ok(changed) ==> {
                &&& changed ==> final(self)@ == old(self)@.insert(key, value)
                &&& changed ==> old(self).spec_inserted(*final(self), key, value)
                &&& !changed ==> *final(self) == *old(self)
                &&& !old(self)@.dom().contains(key) ==> changed
                &&& old(self)@.dom().contains(key) ==> call_ensures(
                    *should_update,
                    (&old(self)@[key], &value),
                    changed,
                )
            },
    {
        insert_rec(&mut self.root, key, value, should_update, max_depth)
    }

    /// Creates the entry `key -> value`, overwriting any stored value.
    /// Fails with [`MaxDepthReachedError`], leaving the map unchanged,
    /// exactly when the search path for `key` would exceed `max_depth`.
    pub fn insert_or_update(&mut self, key: u64, value: V, max_depth: u32) -> (r: Result<
        bool,
        MaxDepthReachedError,
    >)
        requires
            old(self).wf(),
        ensures
            final(self).wf(),
            final(self).spec_depth() <= old(self).spec_depth() + 1,
            r is Err <==> old(self).reach_depth(key) > max_depth,
            r is Err ==> *final(self) == *old(self),
            r is Ok ==> r == Ok::<bool, MaxDepthReachedError>(true) && final(self)@ == old(
                self,
            )@.insert(key, value) && old(self).spec_inserted(*final(self), key, value),
            r is Ok ==> final(self).spec_depth() == (if old(self).spec_depth() >= old(
                self,
            ).reach_depth(key) {
                old(self).spec_depth()
            } else {
                old(self).reach_depth(key)
            }),
    {
        let accept = |a: &V, b: &V| -> (c: bool)
            ensures
                c,
            { true };
        self.insert_or_update_if(key, value, &accept, max_depth)
    }
}

impl<V: Copy> BstMap<V> {
    /// Returns the entry with the smallest key, or nothing if the map is
    /// empty.
    pub fn get_min(&self) -> (r: Option<(u64, V)>)
        requires
            self.wf(),
        ensures
            r is None <==> self@ == Map::<u64, V>::empty(),
            r matches Some(kv) ==> {
                &&& self@.dom().contains(kv.0)
                &&& self@[kv.0] == kv.1
                &&& forall|k: u64| self@.dom().contains(k) ==> kv.0 <= k
            },
    {
        proof {
            lemma_empty_iff_none(self.root);
        }
        min_rec(&self.root)
    }

    /// Returns the entry with the greatest key, or nothing if the map is
    /// empty.
    pub fn get_max(&self) -> (r: Option<(u64, V)>)
        requires
            self.wf(),
        ensures
            r is None <==> self@ == Map::<u64, V>::empty(),
            r matches Some(kv) ==> {
                &&& self@.dom().contains(kv.0)
                &&& self@[kv.0] == kv.1
                &&& forall|k: u64| self@.dom().contains(k) ==> kv.0 >= k
            },
    {
        proof {
            lemma_empty_iff_none(self.root);
        }
        max_rec(&self.root)
    }

    /// Returns the entry with the smallest key when `min` is true, with the
    /// greatest key otherwise.
    pub fn get_min_or_max(&self, min: bool) -> (r: Option<(u64, V)>)
        requires
            self.wf(),
        ensures
            r is None <==> self@ == Map::<u64, V>::empty(),
            r matches Some(kv) ==> {
                &&& self@.dom().contains(kv.0)
                &&& self@[kv.0] == kv.1
                &&& min ==> forall|k: u64| self@.dom().contains(k) ==> kv.0 <= k
                &&& !min ==> forall|k: u64| self@.dom().contains(k) ==> kv.0 >= k
            },
    {
        if min {
            self.get_min()
        } else {
            self.get_max()
        }
    }
}

/// Recursive descent along the left spine to the smallest key.
fn min_rec<V: Copy>(opt: &Option<Box<Node<V>>>) -> (r: Option<(u64, V)>)
    requires
        Node::<V>::ordered(*opt),
    ensures
        r is None <==> *opt is None,
        r matches Some(kv) ==> {
            &&& Node::<V>::sub_map(*opt).dom().contains(kv.0)
            &&& Node::<V>::sub_map(*opt)[kv.0] == kv.1
            &&& forall|k: u64| Node::<V>::sub_map(*opt).dom().contains(k) ==> kv.0 <= k
        },
    decreases *opt,
{
    match opt {
        None => None,
        Some(n) => match min_rec(&n.left) {
            Some(kv) => {
                proof {
                    assert(Node::<V>::sub_map(n.left).dom().contains(kv.0));
                    assert(!Node::<V>::sub_map(n.right).dom().contains(kv.0));
                    assert forall|k: u64|
                        Node::<V>::sub_map(*opt).dom().contains(k) implies kv.0 <= k by {
                        if k != n.key && !Node::<V>::sub_map(n.left).dom().contains(k) {
                            assert(Node::<V>::sub_map(n.right).dom().contains(k));
                        }
                    }
                }
                Some(kv)
            },
            None => {
                proof {
                    assert forall|k: u64|
                        Node::<V>::sub_map(*opt).dom().contains(k) implies n.key <= k by {
                        if k != n.key && !Node::<V>::sub_map(n.left).dom().contains(k) {
                            assert(Node::<V>::sub_map(n.right).dom().contains(k));
                        }
                    }
                }
                Some((n.key, n.value))
            },
        },
    }
}

/// Recursive descent along the right spine to the greatest key.
fn max_rec<V: Copy>(opt: &Option<Box<Node<V>>>) -> (r: Option<(u64, V)>)
    requires
        Node::<V>::ordered(*opt),
    ensures
        r is None <==> *opt is None,
        r matches Some(kv) ==> {
            &&& Node::<V>::sub_map(*opt).dom().contains(kv.0)
            &&& Node::<V>::sub_map(*opt)[kv.0] == kv.1
            &&& forall|k: u64| Node::<V>::sub_map(*opt).dom().contains(k) ==> kv.0 >= k
        },
    decreases *opt,
{
    match opt {
        None => None,
        Some(n) => match max_rec(&n.right) {
            Some(kv) => {
                proof {
                    assert(Node::<V>::sub_map(n.right).dom().contains(kv.0));
                    assert(!Node::<V>::sub_map(n.left).dom().contains(kv.0));
                    assert forall|k: u64|
                        Node::<V>::sub_map(*opt).dom().contains(k) implies kv.0 >= k by {
                        if k != n.key && !Node::<V>::sub_map(n.right).dom().contains(k) {
                            assert(Node::<V>::sub_map(n.left).dom().contains(k));
                        }
                    }
                }
                Some(kv)
            },
            None => {
                proof {
                    assert forall|k: u64|
                        Node::<V>::sub_map(*opt).dom().contains(k) implies n.key >= k by {
                        if k != n.key && !Node::<V>::sub_map(n.right).dom().contains(k) {
                            assert(Node::<V>::sub_map(n.left).dom().contains(k));
                        }
                    }
                }
                Some((n.key, n.value))
            },
        },
    }
}

impl<V: Copy> BstMap<V> {
    /// Removes the entry for `key` if it is present and `should_remove`
    /// agrees when handed its value; a no-op if the key is absent or the
    /// predicate declines.
    pub fn remove_if<F: Fn(&V) -> bool>(&mut self, key: u64, should_remove: &F)
        requires
            old(self).wf(),
            forall|v: &V| call_requires(*should_remove, (v,)),
        ensures
            final(self).wf(),
            final(self).spec_depth() <= old(self).spec_depth(),
            !old(self)@.dom().contains(key) ==> *final(self) == *old(self),
            old(self)@.dom().contains(key) ==> {
                ||| (call_ensures(*should_remove, (&old(self)@[key],), true) && final(self)@ == old(
                    self,
                )@.remove(key))
                ||| (call_ensures(*should_remove, (&old(self)@[key],), false) && *final(self)
                    == *old(self))
            },
    {
        remove_rec(&mut self.root, key, should_remove);
    }

    /// Removes the entry for `key`, if any.
    pub fn remove(&mut self, key: u64)
        requires
            old(self).wf(),
        ensures
            final(self).wf(),
            final(self).spec_depth() <= old(self).spec_depth(),
            final(self)@ == old(self)@.remove(key),
    {
        let drop_entry = |v: &V| -> (c: bool)
            ensures
                c,
            { true };
        self.remove_if(key, &drop_entry);
        proof {
            if !old(self)@.dom().contains(key) {
                assert(self@ =~= old(self)@.remove(key));
            }
        }
    }
}

/// Extracts the smallest key and its value out of a subtree, recursively
/// patching the hole it leaves behind, as the removal splice requires.
fn take_min_rec<V: Copy>(opt: &mut Option<Box<Node<V>>>) -> (r: Option<(u64, V)>)
    requires
        Node::<V>::ordered(*old(opt)),
    ensures
        Node::<V>::ordered(*final(opt)),
        Node::<V>::height(*final(opt)) <= Node::<V>::height(*old(opt)),
        r is None <==> *old(opt) is None,
        r is None ==> *final(opt) is None,
        r matches Some(kv) ==> {
            &&& Node::<V>::sub_map(*old(opt)).dom().contains(kv.0)
            &&& Node::<V>::sub_map(*old(opt))[kv.0] == kv.1
            &&& forall|k: u64| Node::<V>::sub_map(*old(opt)).dom().contains(k) ==> kv.0 <= k
            &&& Node::<V>::sub_map(*final(opt)) =~= Node::<V>::sub_map(*old(opt)).remove(kv.0)
        },
    decreases *old(opt),
{
    match opt.take() {
        None => None,
        Some(mut n) => {
            let ghost orig = n;
            let taken = take_min_rec(&mut n.left);
            match taken {
                Some(kv) => {
                    proof {
                        assert(Node::<V>::sub_map(orig.left).dom().contains(kv.0));
                        assert(!Node::<V>::sub_map(orig.right).dom().contains(kv.0));
                        assert forall|k: u64|
                            Node::<V>::sub_map(*old(opt)).dom().contains(k) implies kv.0 <= k by {
                            if k != orig.key && !Node::<V>::sub_map(orig.left).dom().contains(k) {
                                assert(Node::<V>::sub_map(orig.right).dom().contains(k));
                            }
                        }
                    }
                    *opt = Some(n);
                    proof {
                        assert(Node::<V>::sub_map(*opt) =~= Node::<V>::sub_map(
                            *old(opt),
                        ).remove(kv.0));
                    }
                    Some(kv)
                },
                None => {
                    // The node itself holds the smallest key; pull the
                    // smallest entry of its right subtree up into its place.
                    let harvested_key = n.key;
                    let harvested_value = n.value;
                    proof {
                        assert forall|k: u64|
                            Node::<V>::sub_map(*old(opt)).dom().contains(k) implies harvested_key
                            <= k by {
                            if k != orig.key && !Node::<V>::sub_map(orig.left).dom().contains(k) {
                                assert(Node::<V>::sub_map(orig.right).dom().contains(k));
                            }
                        }
                        assert(!Node::<V>::sub_map(orig.right).dom().contains(harvested_key));
                    }
                    match take_min_rec(&mut n.right) {
                        None => {
                            *opt = None;
                            proof {
                                assert(Node::<V>::sub_map(*opt) =~= Node::<V>::sub_map(
                                    *old(opt),
                                ).remove(harvested_key));
                            }
                        },
                        Some((successor_key, successor_value)) => {
                            proof {
                                assert(Node::<V>::sub_map(orig.right).dom().contains(
                                    successor_key,
                                ));
                                assert forall|k: u64|
                                    Node::<V>::sub_map(n.right).dom().contains(
                                        k,
                                    ) implies successor_key < k by {
                                    assert(Node::<V>::sub_map(orig.right).dom().contains(k));
                                }
                            }
                            n.key = successor_key;
                            n.value = successor_value;
                            *opt = Some(n);
                            proof {
                                assert(n.left is None);
                                assert(Node::<V>::sub_map(*opt) == Map::<u64, V>::empty()
                                    .union_prefer_right(Node::<V>::sub_map(n.left))
                                    .union_prefer_right(Node::<V>::sub_map(n.right))
                                    .insert(n.key, n.value));
                                assert(Node::<V>::sub_map(n.left) == Map::<u64, V>::empty());
                                assert(Node::<V>::sub_map(n.right) == Node::<V>::sub_map(
                                    orig.right,
                                ).remove(successor_key));
                                assert(n.key == successor_key && n.value == successor_value);
                                lemma_splice_promote(
                                    Node::<V>::sub_map(orig.right),
                                    successor_key,
                                    successor_value,
                                );
                                assert(Node::<V>::sub_map(*opt) =~= Node::<V>::sub_map(
                                    orig.right,
                                ));
                                lemma_remove_root_key(
                                    Node::<V>::sub_map(orig.right),
                                    harvested_key,
                                    orig.value,
                                );
                                assert(Node::<V>::sub_map(*old(opt)).remove(harvested_key)
                                    =~= Node::<V>::sub_map(orig.right));
                            }
                        },
                    }
                    Some((harvested_key, harvested_value))
                },
            }
        },
    }
}

/// Extracts the greatest key and its value out of a subtree, recursively
/// patching the hole it leaves behind; the mirror image of [`take_min_rec`].
fn take_max_rec<V: Copy>(opt: &mut Option<Box<Node<V>>>) -> (r: Option<(u64, V)>)
    requires
        Node::<V>::ordered(*old(opt)),
    ensures
        Node::<V>::ordered(*final(opt)),
        Node::<V>::height(*final(opt)) <= Node::<V>::height(*old(opt)),
        r is None <==> *old(opt) is None,
        r is None ==> *final(opt) is None,
        r matches Some(kv) ==> {
            &&& Node::<V>::sub_map(*old(opt)).dom().contains(kv.0)
            &&& Node::<V>::sub_map(*old(opt))[kv.0] == kv.1
            &&& forall|k: u64| Node::<V>::sub_map(*old(opt)).dom().contains(k) ==> kv.0 >= k
            &&& Node::<V>::sub_map(*final(opt)) =~= Node::<V>::sub_map(*old(opt)).remove(kv.0)
        },
    decreases *old(opt),
{
    match opt.take() {
        None => None,
        Some(mut n) => {
            let ghost orig = n;
            let taken = take_max_rec(&mut n.right);
            match taken {
                Some(kv) => {
                    proof {
                        assert(Node::<V>::sub_map(orig.right).dom().contains(kv.0));
                        assert(!Node::<V>::sub_map(orig.left).dom().contains(kv.0));
                        assert forall|k: u64|
                            Node::<V>::sub_map(*old(opt)).dom().contains(k) implies kv.0 >= k by {
                            if k != orig.key && !Node::<V>::sub_map(orig.right).dom().contains(k) {
                                assert(Node::<V>::sub_map(orig.left).dom().contains(k));
                            }
                        }
                    }
                    *opt = Some(n);
                    proof {
                        assert(Node::<V>::sub_map(*opt) =~= Node::<V>::sub_map(
                            *old(opt),
                        ).remove(kv.0));
                    }
                    Some(kv)
                },
                None => {
                    // The node itself holds the greatest key; pull the
                    // greatest entry of its left subtree up into its place.
                    let harvested_key = n.key;
                    let harvested_value = n.value;
                    proof {
                        assert forall|k: u64|
                            Node::<V>::sub_map(*old(opt)).dom().contains(k) implies harvested_key
                            >= k by {
                            if k != orig.key && !Node::<V>::sub_map(orig.right).dom().contains(k) {
                                assert(Node::<V>::sub_map(orig.left).dom().contains(k));
                            }
                        }
                        assert(!Node::<V>::sub_map(orig.left).dom().contains(harvested_key));
                    }
                    match take_max_rec(&mut n.left) {
                        None => {
                            *opt = None;
                            proof {
                                assert(Node::<V>::sub_map(*opt) =~= Node::<V>::sub_map(
                                    *old(opt),
                                ).remove(harvested_key));
                            }
                        },
                        Some((predecessor_key, predecessor_value)) => {
                            proof {
                                assert(Node::<V>::sub_map(orig.left).dom().contains(
                                    predecessor_key,
                                ));
                                assert forall|k: u64|
                                    Node::<V>::sub_map(n.left).dom().contains(
                                        k,
                                    ) implies predecessor_key > k by {
                                    assert(Node::<V>::sub_map(orig.left).dom().contains(k));
                                }
                            }
                            n.key = predecessor_key;
                            n.value = predecessor_value;
                            *opt = Some(n);
                            proof {
                                assert(n.right is None);
                                assert(Node::<V>::sub_map(*opt) == Map::<u64, V>::empty()
                                    .union_prefer_right(Node::<V>::sub_map(n.left))
                                    .union_prefer_right(Node::<V>::sub_map(n.right))
                                    .insert(n.key, n.value));
                                assert(Node::<V>::sub_map(n.right) == Map::<u64, V>::empty());
                                assert(Node::<V>::sub_map(n.left) == Node::<V>::sub_map(
                                    orig.left,
                                ).remove(predecessor_key));
                                assert(n.key == predecessor_key && n.value == predecessor_value);
                                lemma_splice_promote(
                                    Node::<V>::sub_map(orig.left),
                                    predecessor_key,
                                    predecessor_value,
                                );
                                assert(Node::<V>::sub_map(*opt) =~= Node::<V>::sub_map(
                                    orig.left,
                                ));
                                lemma_remove_root_key(
                                    Node::<V>::sub_map(orig.left),
                                    harvested_key,
                                    orig.value,
                                );
                                assert(Node::<V>::sub_map(*old(opt)).remove(harvested_key)
                                    =~= Node::<V>::sub_map(orig.left));
                            }
                        },
                    }
                    Some((harvested_key, harvested_value))
                },
            }
        },
    }
}

/// Recursive removal along the search path for `key`, splicing the hole
/// with an extremal entry of a child subtree when an interior node goes.
fn remove_rec<V: Copy, F: Fn(&V) -> bool>(
    opt: &mut Option<Box<Node<V>>>,
    key: u64,
    should_remove: &F,
) -> (r: Option<bool>)
    requires
        Node::<V>::ordered(*old(opt)),
        forall|v: &V| call_requires(*should_remove, (v,)),
    ensures
        Node::<V>::ordered(*final(opt)),
        Node::<V>::height(*final(opt)) <= Node::<V>::height(*old(opt)),
        r is None <==> !Node::<V>::sub_map(*old(opt)).dom().contains(key),
        r is None ==> *final(opt) == *old(opt),
        r matches Some(removed) ==> {
            &&& call_ensures(*should_remove, (&Node::<V>::sub_map(*old(opt))[key],), removed)
            &&& removed ==> Node::<V>::sub_map(*final(opt)) =~= Node::<V>::sub_map(
                *old(opt),
            ).remove(key)
            &&& !removed ==> *final(opt) == *old(opt)
        },
    decreases *old(opt),
{
    match opt.take() {
        None => None,
        Some(mut n) => {
            let ghost orig = n;
            if key == n.key {
                proof {
                    assert(!Node::<V>::sub_map(orig.left).dom().contains(key));
                    assert(!Node::<V>::sub_map(orig.right).dom().contains(key));
                }
                let removed = should_remove(&n.value);
                if !removed {
                    *opt = Some(n);
                    Some(false)
                } else {
                    match take_min_rec(&mut n.right) {
                        Some((successor_key, successor_value)) => {
                            proof {
                                assert(Node::<V>::sub_map(orig.right).dom().contains(
                                    successor_key,
                                ));
                                assert forall|k: u64|
                                    Node::<V>::sub_map(n.right).dom().contains(
                                        k,
                                    ) implies successor_key < k by {
                                    assert(Node::<V>::sub_map(orig.right).dom().contains(k));
                                }
                            }
                            n.key = successor_key;
                            n.value = successor_value;
                            *opt = Some(n);
                            Some(true)
                        },
                        None => {
                            match take_max_rec(&mut n.left) {
                                Some((predecessor_key, predecessor_value)) => {
                                    proof {
                                        assert(Node::<V>::sub_map(orig.left).dom().contains(
                                            predecessor_key,
                                        ));
                                        assert forall|k: u64|
                                            Node::<V>::sub_map(n.left).dom().contains(
                                                k,
                                            ) implies predecessor_key > k by {
                                            assert(Node::<V>::sub_map(orig.left).dom().contains(
                                                k,
                                            ));
                                        }
                                    }
                                    n.key = predecessor_key;
                                    n.value = predecessor_value;
                                    *opt = Some(n);
                                    Some(true)
                                },
                                None => {
                                    *opt = None;
                                    Some(true)
                                },
                            }
                        },
                    }
                }
            } else if key < n.key {
                proof {
                    assert(!Node::<V>::sub_map(orig.right).dom().contains(key));
                }
                let r = remove_rec(&mut n.left, key, should_remove);
                proof {
                    assert forall|k: u64|
                        Node::<V>::sub_map(n.left).dom().contains(k) implies k < n.key by {
                        assert(Node::<V>::sub_map(orig.left).dom().contains(k));
                    }
                }
                *opt = Some(n);
                r
            } else {
                proof {
                    assert(!Node::<V>::sub_map(orig.left).dom().contains(key));
                }
                let r = remove_rec(&mut n.right, key, should_remove);
                proof {
                    assert forall|k: u64|
                        Node::<V>::sub_map(n.right).dom().contains(k) implies k > n.key by {
                        assert(Node::<V>::sub_map(orig.right).dom().contains(k));
                    }
                }
                *opt = Some(n);
                r
            }
        },
    }
}

/// Putting an entry taken out of a subtree's map straight back yields the
/// map it was taken from, in either of the two node-map shapes whose other
/// child is empty.
proof fn lemma_splice_promote<V>(child: Map<u64, V>, pk: u64, pv: V)
    requires
        child.dom().contains(pk),
        child[pk] == pv,
    ensures
        Map::<u64, V>::empty().union_prefer_right(Map::<u64, V>::empty()).union_prefer_right(
            child.remove(pk),
        ).insert(pk, pv) =~= child,
        Map::<u64, V>::empty().union_prefer_right(child.remove(pk)).union_prefer_right(
            Map::<u64, V>::empty(),
        ).insert(pk, pv) =~= child,
{
}

/// Removing a node's own key from its map leaves exactly its single
/// non-empty child subtree's map, in either node-map shape.
proof fn lemma_remove_root_key<V>(sub: Map<u64, V>, hk: u64, hv: V)
    requires
        !sub.dom().contains(hk),
    ensures
        Map::<u64, V>::empty().union_prefer_right(Map::<u64, V>::empty()).union_prefer_right(
            sub,
        ).insert(hk, hv).remove(hk) =~= sub,
        Map::<u64, V>::empty().union_prefer_right(sub).union_prefer_right(
            Map::<u64, V>::empty(),
        ).insert(hk, hv).remove(hk) =~= sub,
{
}

/// Every search path has at least one level: even an empty slot costs one.
proof fn lemma_reach_at_least_one<V>(opt: Option<Box<Node<V>>>, key: u64)
    ensures
        Node::<V>::reach(opt, key) >= 1,
{
    match opt {
        None => {},
        Some(_) => {},
    }
}

/// Recursive depth-bounded insert-or-update along the search path for `key`.
fn insert_rec<V: Copy, F: Fn(&V, &V) -> bool>(
    opt: &mut Option<Box<Node<V>>>,
    key: u64,
    value: V,
    should_update: &F,
    depth_remaining: u32,
) -> (r: Result<bool, MaxDepthReachedError>)
    requires
        Node::<V>::ordered(*old(opt)),
        forall|a: &V, b: &V| call_requires(*should_update, (a, b)),
    ensures
        Node::<V>::ordered(*final(opt)),
        Node::<V>::height(*final(opt)) <= Node::<V>::height(*old(opt)) + 1,
        r is Err <==> Node::<V>::reach(*old(opt), key) > depth_remaining,
        r is Err ==> *final(opt) == *old(opt),
        r is Ok ==> Node::<V>::height(*final(opt)) == (if Node::<V>::height(*old(opt)) >= Node::<
            V,
        >::reach(*old(opt), key) {
            Node::<V>::height(*old(opt))
        } else {
            Node::<V>::reach(*old(opt), key)
        }),
        r matches Ok(changed) ==> {
            &&& changed ==> Node::<V>::sub_map(*final(opt)) =~= Node::<V>::sub_map(
                *old(opt),
            ).insert(key, value)
            &&& changed ==> Node::<V>::inserted(*old(opt), *final(opt), key, value)
            &&& !changed ==> *final(opt) == *old(opt)
            &&& !Node::<V>::sub_map(*old(opt)).dom().contains(key) ==> changed
            &&& Node::<V>::sub_map(*old(opt)).dom().contains(key) ==> call_ensures(
                *should_update,
                (&Node::<V>::sub_map(*old(opt))[key], &value),
                changed,
            )
        },
    decreases *old(opt),
{
    if depth_remaining == 0 {
        return Err(MaxDepthReachedError);
    }
    match opt.take() {
        None => {
            *opt = Some(Box::new(Node { key, value, left: None, right: None }));
            Ok(true)
        },
        Some(mut n) => {
            if key == n.key {
                let changed = should_update(&n.value, &value);
                proof {
                    assert(!Node::<V>::sub_map(n.left).dom().contains(key));
                    assert(!Node::<V>::sub_map(n.right).dom().contains(key));
                }
                if changed {
                    n.value = value;
                }
                *opt = Some(n);
                Ok(changed)
            } else if depth_remaining < 2 {
                proof {
                    lemma_reach_at_least_one(n.left, key);
                    lemma_reach_at_least_one(n.right, key);
                }
                *opt = Some(n);
                Err(MaxDepthReachedError)
            } else if key < n.key {
                proof {
                    assert(!Node::<V>::sub_map(n.right).dom().contains(key));
                }
                let r = insert_rec(&mut n.left, key, value, should_update, depth_remaining - 1);
                *opt = Some(n);
                r
            } else {
                proof {
                    assert(!Node::<V>::sub_map(n.left).dom().contains(key));
                }
                let r = insert_rec(&mut n.right, key, value, should_update, depth_remaining - 1);
                *opt = Some(n);
                r
            }
        },
    }
}

/// Recursive lookup along the unique search path for `key`.
fn get_rec<V: Copy>(opt: &Option<Box<Node<V>>>, key: u64) -> (r: Option<V>)
    requires
        Node::<V>::ordered(*opt),
    ensures
        r == (if Node::<V>::sub_map(*opt).dom().contains(key) {
            Some(Node::<V>::sub_map(*opt)[key])
        } else {
            None::<V>
        }),
    decreases *opt,
{
    match opt {
        None => None,
        Some(n) => {
            if key == n.key {
                Some(n.value)
            } else if key < n.key {
                proof {
                    assert(!Node::<V>::sub_map(n.right).dom().contains(key));
                }
                get_rec(&n.left, key)
            } else {
                proof {
                    assert(!Node::<V>::sub_map(n.left).dom().contains(key));
                }
                get_rec(&n.right, key)
            }
        },
    }
}

} // verus!
