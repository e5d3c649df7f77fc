//! The AA tree itself: an ordered key-value map balanced by node levels.

use vstd::prelude::*;

verus! {

use core::cmp::Ordering;
use crate::order::TotalOrder;

/// One node: a key, its value, an AA level, and up to two children.
///
/// Present nodes have level at least 1; an absent child counts as level 0.
pub struct Node<K: TotalOrder, V> {
    key: K,
    value: V,
    left: Option<Box<Node<K, V>>>,
    right: Option<Box<Node<K, V>>>,
    level: usize,
}

/// An AA tree: at most one root node and a count of the keys stored.
///
/// Every tree reachable through this interface is a binary search tree
/// satisfying the AA balance rules, and `size` equals the number of keys.
pub struct Tree<K: TotalOrder, V> {
    root: Option<Box<Node<K, V>>>,
    size: usize,
}

impl<K: TotalOrder, V> Node<K, V> {
    /// The key-value map stored in an optional subtree.
    pub closed spec fn opt_as_map(o: Option<Box<Node<K, V>>>) -> Map<K, V>
        decreases o,
    {
        match o {
            None => Map::empty(),
            Some(n) => n.as_map(),
        }
    }

    /// The key-value map stored in the subtree rooted at this node.
    pub closed spec fn as_map(self) -> Map<K, V>
        decreases self,
    {
        Self::opt_as_map(self.left).union_prefer_right(Self::opt_as_map(self.right)).insert(
            self.key,
            self.value,
        )
    }

    /// The level of an optional subtree: 0 when absent.
    pub closed spec fn opt_level(o: Option<Box<Node<K, V>>>) -> nat {
        match o {
            None => 0,
            Some(n) => n.level as nat,
        }
    }

    /// Binary-search-tree order: all keys on the left are below this
    /// node's key, all keys on the right above it, recursively.
    pub closed spec fn bst_ordered(self) -> bool
        decreases self,
    {
        &&& (forall|k: K| #[trigger]
            Self::opt_as_map(self.left).dom().contains(k) ==> k.lt(self.key))
        &&& (forall|k: K| #[trigger]
            Self::opt_as_map(self.right).dom().contains(k) ==> self.key.lt(k))
        &&& (match self.left {
            Some(l) => l.bst_ordered(),
            None => true,
        })
        &&& (match self.right {
            Some(r) => r.bst_ordered(),
            None => true,
        })
    }

    /// The full AA balance discipline maintained by insertion:
    /// the left child sits exactly one level below its parent, the right
    /// child at most one level below, and a right child sharing its
    /// parent's level has no right child of that same level again.
    pub closed spec fn aa_balanced(self) -> bool
        decreases self,
    {
        &&& Self::opt_level(self.left) + 1 == self.level
        &&& Self::opt_level(self.right) <= self.level
        &&& self.level <= Self::opt_level(self.right) + 1
        &&& (match self.right {
            Some(r) => Self::opt_level(r.right) < self.level,
            None => true,
        })
        &&& (match self.left {
            Some(l) => l.aa_balanced(),
            None => true,
        })
        &&& (match self.right {
            Some(r) => r.aa_balanced(),
            None => true,
        })
    }

    /// The AA level rules as a node-local check over present children:
    /// exactly what the `is_aa` checker tests at each node.
    pub closed spec fn aa_local(self) -> bool
        decreases self,
    {
        &&& (match self.left {
            Some(l) => l.aa_local() && l.level + 1 == self.level,
            None => true,
        })
        &&& (match self.right {
            Some(r) => {
                &&& r.aa_local()
                &&& (r.level == self.level || r.level + 1 == self.level)
                &&& (r.level == self.level ==> (match r.right {
                    Some(c) => c.level != r.level,
                    None => true,
                }))
            }
            None => true,
        })
    }

    /// The key of the rightmost node of this subtree.
    pub closed spec fn rightmost(self) -> K
        decreases self,
    {
        match self.right {
            None => self.key,
            Some(r) => r.rightmost(),
        }
    }

    /// The key of the leftmost node of this subtree.
    pub closed spec fn leftmost(self) -> K
        decreases self,
    {
        match self.left {
            None => self.key,
            Some(l) => l.leftmost(),
        }
    }

    /// The node has a left child on its own level: the shape `skew` removes.
    spec fn has_left_horizontal(self) -> bool {
        match self.left {
            Some(l) => l.level == self.level,
            None => false,
        }
    }

    /// The node's right child has a right child on the node's own level:
    /// the shape `split` removes.
    spec fn has_double_right(self) -> bool {
        match self.right {
            Some(r) => match r.right {
                Some(c) => c.level == self.level,
                None => false,
            },
            None => false,
        }
    }

    /// `post` is exactly what `skew` makes of `pre`: a right rotation when
    /// `pre` has a left horizontal link, and `pre` unchanged otherwise.
    spec fn skew_of(pre: Node<K, V>, post: Node<K, V>) -> bool {
        if pre.has_left_horizontal() {
            match (pre.left, post.right) {
                (Some(l), Some(d)) => {
                    &&& post.key == l.key
                    &&& post.value == l.value
                    &&& post.level == l.level
                    &&& post.left == l.left
                    &&& d.key == pre.key
                    &&& d.value == pre.value
                    &&& d.level == pre.level
                    &&& d.left == l.right
                    &&& d.right == pre.right
                }
                _ => false,
            }
        } else {
            post == pre
        }
    }

    /// `post` is exactly what `split` makes of `pre`: a left rotation with
    /// a level increment when `pre` has a double right horizontal link, and
    /// `pre` unchanged otherwise.
    spec fn split_of(pre: Node<K, V>, post: Node<K, V>) -> bool {
        if pre.has_double_right() {
            match (pre.right, post.left) {
                (Some(r), Some(d)) => {
                    &&& post.key == r.key
                    &&& post.value == r.value
                    &&& post.level == r.level + 1
                    &&& post.right == r.right
                    &&& d.key == pre.key
                    &&& d.value == pre.value
                    &&& d.level == pre.level
                    &&& d.left == pre.left
                    &&& d.right == r.left
                }
                _ => false,
            }
        } else {
            post == pre
        }
    }

    /// An optional subtree in binary-search-tree order and AA balance.
    spec fn opt_ok(o: Option<Box<Node<K, V>>>) -> bool {
        match o {
            Some(n) => n.bst_ordered() && n.aa_balanced(),
            None => true,
        }
    }

    /// A fresh leaf node holding one pair, at level 1.
    pub fn new(key: K, value: V) -> (n: Node<K, V>)
        ensures
            n.as_map() == Map::<K, V>::empty().insert(key, value),
            n.bst_ordered(),
            n.aa_balanced(),
    {
        let n = Node { key, value, left: None, right: None, level: 1 };
        proof {
            assert(n.as_map() =~= Map::<K, V>::empty().insert(key, value));
        }
        n
    }

    /// The rightmost key of this subtree: the greatest one when the
    /// subtree is in binary-search-tree order.
    pub fn max(&self) -> (r: &K)
        ensures
            *r == self.rightmost(),
            self.bst_ordered() ==> self.as_map().dom().contains(*r) && (forall|k: K| #[trigger]
                self.as_map().dom().contains(k) ==> k == *r || k.lt(*r)),
        decreases self,
    {
        proof {
            if self.bst_ordered() {
                Self::lemma_rightmost_bound(*self);
            }
        }
        match &self.right {
            None => &self.key,
            Some(r) => r.max(),
        }
    }

    /// The leftmost key of this subtree: the least one when the subtree
    /// is in binary-search-tree order.
    pub fn min(&self) -> (r: &K)
        ensures
            *r == self.leftmost(),
            self.bst_ordered() ==> self.as_map().dom().contains(*r) && (forall|k: K| #[trigger]
                self.as_map().dom().contains(k) ==> k == *r || (*r).lt(k)),
        decreases self,
    {
        proof {
            if self.bst_ordered() {
                Self::lemma_leftmost_bound(*self);
            }
        }
        match &self.left {
            None => &self.key,
            Some(l) => l.min(),
        }
    }

    /// Check binary-search-tree order: each node's left subtree tops out
    /// below its key and its right subtree starts above it.
    pub fn is_bst(&self) -> (r: bool)
        ensures
            r == self.bst_ordered(),
        decreases self,
    {
        let check_left: bool = match &self.left {
            None => true,
            Some(l) => {
                let ok = l.is_bst();
                if ok {
                    let c = l.max().compare(&self.key);
                    let good = match c {
                        Ordering::Less => true,
                        _ => false,
                    };
                    proof {
                        Self::lemma_rightmost_bound(**l);
                        K::lemma_total(l.rightmost(), self.key);
                        assert(Self::opt_as_map(self.left) == l.as_map());
                        if good {
                            assert forall|k: K| #[trigger]
                                Self::opt_as_map(self.left).dom().contains(k) implies k.lt(
                                self.key,
                            ) by {
                                if k != l.rightmost() {
                                    K::lemma_transitive(k, l.rightmost(), self.key);
                                }
                            }
                        } else {
                            assert(Self::opt_as_map(self.left).dom().contains(l.rightmost()));
                            assert(!l.rightmost().lt(self.key));
                        }
                    }
                    good
                } else {
                    false
                }
            }
        };
        proof {
            assert(check_left == (match self.left {
                Some(l) => l.bst_ordered() && (forall|k: K| #[trigger]
                    Self::opt_as_map(self.left).dom().contains(k) ==> k.lt(self.key)),
                None => true,
            }));
        }
        let r = if check_left {
            match &self.right {
                None => true,
                Some(rn) => {
                    let ok = rn.is_bst();
                    if ok {
                        let c = rn.min().compare(&self.key);
                        let good = match c {
                            Ordering::Greater => true,
                            _ => false,
                        };
                        proof {
                            Self::lemma_leftmost_bound(**rn);
                            K::lemma_total(rn.leftmost(), self.key);
                            assert(Self::opt_as_map(self.right) == rn.as_map());
                            if good {
                                assert forall|k: K| #[trigger]
                                    Self::opt_as_map(self.right).dom().contains(k) implies self
                                    .key.lt(k) by {
                                    if k != rn.leftmost() {
                                        K::lemma_transitive(self.key, rn.leftmost(), k);
                                    }
                                }
                            } else {
                                assert(Self::opt_as_map(self.right).dom().contains(rn.leftmost()));
                                assert(!self.key.lt(rn.leftmost()));
                            }
                        }
                        good
                    } else {
                        false
                    }
                }
            }
        } else {
            false
        };
        proof {
            assert(r == self.bst_ordered());
        }
        r
    }

    /// Check the AA discipline: binary-search-tree order plus the level
    /// rules at every node with present children.
    pub fn is_aa(&self) -> (r: bool)
        ensures
            r == (self.bst_ordered() && self.aa_local()),
        decreases self,
    {
        if !self.is_bst() {
            return false;
        }
        match &self.left {
            None => {
            }
            Some(l) => {
                if !l.is_aa() {
                    proof {
                        assert(l.bst_ordered());
                        assert(!l.aa_local());
                        assert(!self.aa_local());
                    }
                    return false;
                }
                if !(self.level >= 1 && l.level == self.level - 1) {
                    proof {
                        assert(!self.aa_local());
                    }
                    return false;
                }
            }
        }
        match &self.right {
            None => {
            }
            Some(rn) => {
                if !rn.is_aa() {
                    proof {
                        assert(rn.bst_ordered());
                        assert(!rn.aa_local());
                        assert(!self.aa_local());
                    }
                    return false;
                }
                if !(rn.level == self.level || (self.level >= 1 && rn.level == self.level - 1)) {
                    proof {
                        assert(!self.aa_local());
                    }
                    return false;
                }
                if rn.level == self.level {
                    match &rn.right {
                        None => {
                        }
                        Some(c) => {
                            if c.level == rn.level {
                                proof {
                                    assert(!self.aa_local());
                                }
                                return false;
                            }
                        }
                    }
                }
            }
        }
        proof {
            assert(self.aa_local());
        }
        true
    }

    /// In a tree in binary-search-tree order, the rightmost key bounds
    /// every key from above.
    proof fn lemma_rightmost_bound(n: Node<K, V>)
        requires
            n.bst_ordered(),
        ensures
            n.as_map().dom().contains(n.rightmost()),
            forall|k: K| #[trigger]
                n.as_map().dom().contains(k) ==> k == n.rightmost() || k.lt(n.rightmost()),
        decreases n,
    {
        Self::lemma_bst_node_facts(n);
        match n.right {
            None => {
            }
            Some(r) => {
                Self::lemma_rightmost_bound(*r);
                assert(Self::opt_as_map(n.right) == r.as_map());
                assert(n.as_map().dom().contains(n.rightmost()));
                assert(n.key.lt(r.rightmost()));
                assert forall|k: K| #[trigger]
                    n.as_map().dom().contains(k) implies k == n.rightmost() || k.lt(
                    n.rightmost(),
                ) by {
                    if Self::opt_as_map(n.left).dom().contains(k) {
                        K::lemma_transitive(k, n.key, r.rightmost());
                    }
                }
            }
        }
    }

    /// In a tree in binary-search-tree order, the leftmost key bounds
    /// every key from below.
    proof fn lemma_leftmost_bound(n: Node<K, V>)
        requires
            n.bst_ordered(),
        ensures
            n.as_map().dom().contains(n.leftmost()),
            forall|k: K| #[trigger]
                n.as_map().dom().contains(k) ==> k == n.leftmost() || n.leftmost().lt(k),
        decreases n,
    {
        Self::lemma_bst_node_facts(n);
        match n.left {
            None => {
            }
            Some(l) => {
                Self::lemma_leftmost_bound(*l);
                assert(Self::opt_as_map(n.left) == l.as_map());
                assert(n.as_map().dom().contains(n.leftmost()));
                assert(l.leftmost().lt(n.key));
                assert forall|k: K| #[trigger]
                    n.as_map().dom().contains(k) implies k == n.leftmost() || n.leftmost().lt(
                    k,
                ) by {
                    if Self::opt_as_map(n.right).dom().contains(k) {
                        K::lemma_transitive(l.leftmost(), n.key, k);
                    }
                }
            }
        }
    }

    /// How a node's map relates to its children's maps when the node is
    /// in binary-search-tree order: the three parts are disjoint and each
    /// lookup lands in the part that holds the key.
    proof fn lemma_bst_node_facts(n: Node<K, V>)
        requires
            n.bst_ordered(),
        ensures
            !Self::opt_as_map(n.left).dom().contains(n.key),
            !Self::opt_as_map(n.right).dom().contains(n.key),
            forall|k: K| #[trigger]
                Self::opt_as_map(n.left).dom().contains(k) ==> !Self::opt_as_map(
                    n.right,
                ).dom().contains(k),
            n.as_map().dom() == Self::opt_as_map(n.left).dom().union(
                Self::opt_as_map(n.right).dom(),
            ).insert(n.key),
            n.as_map().dom().contains(n.key),
            n.as_map()[n.key] == n.value,
            forall|k: K| #[trigger]
                Self::opt_as_map(n.left).dom().contains(k) ==> n.as_map().dom().contains(k)
                    && n.as_map()[k] == Self::opt_as_map(n.left)[k],
            forall|k: K| #[trigger]
                Self::opt_as_map(n.right).dom().contains(k) ==> n.as_map().dom().contains(k)
                    && n.as_map()[k] == Self::opt_as_map(n.right)[k],
            forall|k: K| #[trigger]
                n.as_map().dom().contains(k) ==> k == n.key || Self::opt_as_map(
                    n.left,
                ).dom().contains(k) || Self::opt_as_map(n.right).dom().contains(k),
    {
        broadcast use vstd::map_lib::lemma_union_dom;

        let ml = Self::opt_as_map(n.left);
        let mr = Self::opt_as_map(n.right);
        assert forall|k: K| #[trigger] ml.dom().contains(k) implies !mr.dom().contains(k) && k
            != n.key by {
            K::lemma_total(k, n.key);
        }
        assert forall|k: K| #[trigger] mr.dom().contains(k) implies k != n.key by {
            K::lemma_total(k, n.key);
        }
        assert(n.as_map().dom() =~= ml.dom().union(mr.dom()).insert(n.key));
    }

    /// A node's map is finite and one entry larger than its children's
    /// maps together.
    proof fn lemma_map_len(n: Node<K, V>)
        requires
            n.bst_ordered(),
        ensures
            n.as_map().dom().finite(),
            Self::opt_as_map(n.left).dom().finite(),
            Self::opt_as_map(n.right).dom().finite(),
            n.as_map().len() == Self::opt_as_map(n.left).len() + Self::opt_as_map(n.right).len()
                + 1,
        decreases n,
    {
        Self::lemma_bst_node_facts(n);
        let ml = Self::opt_as_map(n.left);
        let mr = Self::opt_as_map(n.right);
        match n.left {
            Some(l) => Self::lemma_map_len(*l),
            None => assert(ml.dom() =~= Set::<K>::empty()),
        }
        match n.right {
            Some(r) => Self::lemma_map_len(*r),
            None => assert(mr.dom() =~= Set::<K>::empty()),
        }
        vstd::set_lib::lemma_set_disjoint_lens(ml.dom(), mr.dom());
        assert(ml.dom() + mr.dom() == ml.dom().union(mr.dom()));
    }

    /// Under the AA balance discipline a node's level never exceeds the
    /// number of keys in its subtree.
    proof fn lemma_level_le_len(n: Node<K, V>)
        requires
            n.bst_ordered(),
            n.aa_balanced(),
        ensures
            n.level <= n.as_map().len(),
        decreases n,
    {
        Self::lemma_map_len(n);
        match n.left {
            Some(l) => Self::lemma_level_le_len(*l),
            None => {
            }
        }
    }

    /// The full balance discipline implies the node-local level checks.
    proof fn lemma_balanced_implies_local(n: Node<K, V>)
        requires
            n.aa_balanced(),
        ensures
            n.aa_local(),
        decreases n,
    {
        match n.left {
            Some(l) => Self::lemma_balanced_implies_local(*l),
            None => {
            }
        }
        match n.right {
            Some(r) => Self::lemma_balanced_implies_local(*r),
            None => {
            }
        }
    }

    /// A skew keeps the tree in binary-search-tree order and stores the
    /// same map.
    proof fn lemma_skew_preserves(pre: Node<K, V>, post: Node<K, V>)
        requires
            Self::skew_of(pre, post),
            pre.bst_ordered(),
        ensures
            post.bst_ordered(),
            post.as_map() == pre.as_map(),
    {
        if pre.has_left_horizontal() {
            let l = *pre.left.unwrap();
            let d = *post.right.unwrap();
            Self::lemma_bst_node_facts(pre);
            Self::lemma_bst_node_facts(l);
            assert(pre.bst_ordered());
            assert(l.bst_ordered());
            assert(match l.right {
                Some(x) => x.bst_ordered(),
                None => true,
            });
            assert(forall|k: K| #[trigger]
                Self::opt_as_map(l.left).dom().contains(k) ==> k.lt(l.key));
            assert(Self::opt_as_map(pre.left) == l.as_map());
            assert(l.as_map().dom().contains(l.key));
            assert(l.key.lt(pre.key));
            assert forall|k: K| #[trigger]
                Self::opt_as_map(d.left).dom().contains(k) implies k.lt(d.key) by {
                assert(Self::opt_as_map(l.right).dom().contains(k));
                assert(l.as_map().dom().contains(k));
            }
            assert forall|k: K| #[trigger]
                Self::opt_as_map(d.right).dom().contains(k) implies d.key.lt(k) by {
                assert(Self::opt_as_map(pre.right).dom().contains(k));
            }
            assert(match d.left {
                Some(x) => x.bst_ordered(),
                None => true,
            });
            assert(match d.right {
                Some(x) => x.bst_ordered(),
                None => true,
            });
            assert(d.bst_ordered());
            Self::lemma_bst_node_facts(d);
            assert(Self::opt_as_map(post.right) == d.as_map());
            assert forall|k: K| #[trigger]
                Self::opt_as_map(post.right).dom().contains(k) implies post.key.lt(k) by {
                assert(d.as_map().dom().contains(k));
                if k == d.key {
                } else if Self::opt_as_map(d.left).dom().contains(k) {
                    assert(Self::opt_as_map(l.right).dom().contains(k));
                } else {
                    assert(Self::opt_as_map(d.right).dom().contains(k));
                    assert(Self::opt_as_map(pre.right).dom().contains(k));
                    K::lemma_transitive(l.key, pre.key, k);
                }
            }
            assert forall|k: K| #[trigger]
                Self::opt_as_map(post.left).dom().contains(k) implies k.lt(post.key) by {
                assert(Self::opt_as_map(l.left).dom().contains(k));
            }
            assert(post.bst_ordered());
            Self::lemma_bst_node_facts(post);
            assert(post.as_map() =~= pre.as_map());
        }
    }

    /// A split keeps the tree in binary-search-tree order and stores the
    /// same map.
    proof fn lemma_split_preserves(pre: Node<K, V>, post: Node<K, V>)
        requires
            Self::split_of(pre, post),
            pre.bst_ordered(),
        ensures
            post.bst_ordered(),
            post.as_map() == pre.as_map(),
    {
        if pre.has_double_right() {
            let r = *pre.right.unwrap();
            let d = *post.left.unwrap();
            Self::lemma_bst_node_facts(pre);
            Self::lemma_bst_node_facts(r);
            assert(pre.bst_ordered());
            assert(r.bst_ordered());
            assert(match r.left {
                Some(x) => x.bst_ordered(),
                None => true,
            });
            assert(forall|k: K| #[trigger]
                Self::opt_as_map(r.right).dom().contains(k) ==> r.key.lt(k));
            assert(Self::opt_as_map(pre.right) == r.as_map());
            assert(r.as_map().dom().contains(r.key));
            assert(pre.key.lt(r.key));
            assert forall|k: K| #[trigger]
                Self::opt_as_map(d.right).dom().contains(k) implies d.key.lt(k) by {
                assert(Self::opt_as_map(r.left).dom().contains(k));
                assert(r.as_map().dom().contains(k));
            }
            assert forall|k: K| #[trigger]
                Self::opt_as_map(d.left).dom().contains(k) implies k.lt(d.key) by {
                assert(Self::opt_as_map(pre.left).dom().contains(k));
            }
            assert(match d.left {
                Some(x) => x.bst_ordered(),
                None => true,
            });
            assert(match d.right {
                Some(x) => x.bst_ordered(),
                None => true,
            });
            assert(d.bst_ordered());
            Self::lemma_bst_node_facts(d);
            assert(Self::opt_as_map(post.left) == d.as_map());
            assert forall|k: K| #[trigger]
                Self::opt_as_map(post.left).dom().contains(k) implies k.lt(post.key) by {
                assert(d.as_map().dom().contains(k));
                if k == d.key {
                } else if Self::opt_as_map(d.left).dom().contains(k) {
                    assert(Self::opt_as_map(pre.left).dom().contains(k));
                    K::lemma_transitive(k, pre.key, r.key);
                } else {
                    assert(Self::opt_as_map(d.right).dom().contains(k));
                    assert(Self::opt_as_map(r.left).dom().contains(k));
                }
            }
            assert forall|k: K| #[trigger]
                Self::opt_as_map(post.right).dom().contains(k) implies post.key.lt(k) by {
                assert(Self::opt_as_map(r.right).dom().contains(k));
            }
            assert(post.bst_ordered());
            Self::lemma_bst_node_facts(post);
            assert(post.as_map() =~= pre.as_map());
        }
    }
}

/// Remove a left horizontal link by rotating right: the left child becomes
/// the subtree root and the old root becomes its right child.
fn skew<K: TotalOrder, V>(node: Box<Node<K, V>>) -> (r: Box<Node<K, V>>)
    ensures
        Node::<K, V>::skew_of(*node, *r),
{
    let mut node = node;
    let rotate = match &node.left {
        Some(l) => l.level == node.level,
        None => false,
    };
    if rotate {
        let mut l = node.left.take().unwrap();
        node.left = l.right.take();
        l.right = Some(node);
        l
    } else {
        node
    }
}

/// Remove a double right horizontal link by rotating left: the right child
/// becomes the subtree root, one level higher, and the old root becomes its
/// left child.
fn split<K: TotalOrder, V>(node: Box<Node<K, V>>) -> (r: Box<Node<K, V>>)
    requires
        node.has_double_right() ==> Node::<K, V>::opt_level(node.right) < usize::MAX,
    ensures
        Node::<K, V>::split_of(*node, *r),
{
    let mut node = node;
    let rotate = match &node.right {
        Some(r) => match &r.right {
            Some(c) => c.level == node.level,
            None => false,
        },
        None => false,
    };
    if rotate {
        let mut b = node.right.take().unwrap();
        node.right = b.left.take();
        b.left = Some(node);
        b.level = b.level + 1;
        b
    } else {
        node
    }
}

impl<K: TotalOrder, V> Node<K, V> {
    /// Insert `(key, value)` into an optional subtree and rebalance the
    /// insertion path bottom-up with `skew` then `split`.
    ///
    /// Besides the map update and the returned previous value, the
    /// contract tracks how the subtree's level may move: it rises by at
    /// most one, and only when the old subtree was absent or carried a
    /// right child on its own level; a risen subtree has both children
    /// exactly on the old level.
    fn insert_opt(link: &mut Option<Box<Node<K, V>>>, key: K, value: V) -> (prev: Option<V>)
        requires
            Self::opt_ok(*old(link)),
            Self::opt_as_map(*old(link)).len() < usize::MAX,
        ensures
            Self::opt_ok(*final(link)),
            final(link).is_some(),
            Self::opt_as_map(*final(link)) == Self::opt_as_map(*old(link)).insert(key, value),
            prev == (if Self::opt_as_map(*old(link)).dom().contains(key) {
                Some(Self::opt_as_map(*old(link))[key])
            } else {
                None::<V>
            }),
            Self::opt_level(*final(link)) == Self::opt_level(*old(link)) || Self::opt_level(
                *final(link),
            ) == Self::opt_level(*old(link)) + 1,
            Self::opt_level(*final(link)) == Self::opt_level(*old(link)) + 1 ==> ({
                &&& (match *old(link) {
                    Some(n) => Self::opt_level(n.right) == n.level,
                    None => true,
                })
                &&& (match *final(link) {
                    Some(n) => Self::opt_level(n.left) == Self::opt_level(*old(link))
                        && Self::opt_level(n.right) == Self::opt_level(*old(link)),
                    None => false,
                })
            }),
        decreases *old(link),
    {
        match link.take() {
            None => {
                let n = Node { key, value, left: None, right: None, level: 1 };
                proof {
                    assert(n.as_map() =~= Self::opt_as_map(*old(link)).insert(key, value));
                    assert(!Self::opt_as_map(*old(link)).dom().contains(key));
                }
                *link = Some(Box::new(n));
                None
            }
            Some(mut n) => {
                proof {
                    Self::lemma_bst_node_facts(*n);
                    Self::lemma_map_len(*n);
                    Self::lemma_level_le_len(*n);
                }
                let ghost n0 = *n;
                let ghost lvl0: int = n0.level as int;
                match key.compare(&n.key) {
                    Ordering::Equal => {
                        proof {
                            K::lemma_total(key, n0.key);
                        }
                        n.key = key;
                        let mut prev_v = value;
                        std::mem::swap(&mut n.value, &mut prev_v);
                        proof {
                            let n1 = *n;
                            assert(n1.key == n0.key && n1.left == n0.left && n1.right == n0.right
                                && n1.level == n0.level);
                            assert(n0.bst_ordered() && n0.aa_balanced());
                            assert(n1.bst_ordered());
                            assert(n1.aa_balanced());
                            assert(n1.as_map() =~= n0.as_map().insert(key, value));
                        }
                        *link = Some(n);
                        Some(prev_v)
                    }
                    Ordering::Less => {
                        proof {
                            K::lemma_total(key, n0.key);
                            if Self::opt_as_map(n0.right).dom().contains(key) {
                                assert(false);
                            }
                            assert(match n0.left {
                                Some(x) => x.bst_ordered() && x.aa_balanced(),
                                None => true,
                            });
                        }
                        let prev = Self::insert_opt(&mut n.left, key, value);
                        let ghost a = *n;
                        proof {
                            assert(Self::opt_as_map(a.left) == Self::opt_as_map(
                                n0.left,
                            ).insert(key, value));
                            assert forall|k: K| #[trigger]
                                Self::opt_as_map(a.left).dom().contains(k) implies k.lt(
                                a.key,
                            ) by {
                                if Self::opt_as_map(n0.left).dom().contains(k) {
                                } else {
                                    assert(k == key);
                                }
                            }
                            assert(a.bst_ordered());
                            // The left child's level is the old one or one
                            // higher; in either case nothing on the right
                            // spine rose, so at most the skew has work to do.
                            assert(Self::opt_level(a.right) <= lvl0);
                        }
                        let n2 = skew(n);
                        proof {
                            let s = *n2;
                            assert(Node::<K, V>::skew_of(a, s));
                            if a.has_left_horizontal() {
                                assert(Self::opt_level(s.right) == lvl0);
                            } else {
                                assert(s == a);
                            }
                            assert(Self::opt_level(s.right) <= lvl0);
                            assert(lvl0 < usize::MAX);
                        }
                        let n3 = split(n2);
                        proof {
                            let s = *n2;
                            let p = *n3;
                            Self::lemma_skew_preserves(a, s);
                            Self::lemma_split_preserves(s, p);
                            assert(p.as_map() == Self::opt_as_map(*old(link)).insert(key, value));
                            let lam = Self::opt_level(a.left);
                            assert(lam == lvl0 - 1 || lam == lvl0);
                            if lam == lvl0 {
                                // The left child rose: skew rotates it up.
                                let nlb = a.left.unwrap();
                                assert(nlb.level == lvl0);
                                assert(a.has_left_horizontal());
                                assert(Self::opt_level(nlb.left) == lvl0 - 1);
                                assert(Self::opt_level(nlb.right) == lvl0 - 1);
                                assert(nlb.aa_balanced());
                                assert(match nlb.left {
                                    Some(x) => x.aa_balanced(),
                                    None => true,
                                });
                                assert(match nlb.right {
                                    Some(x) => x.aa_balanced(),
                                    None => true,
                                });
                                let db = s.right.unwrap();
                                assert(s.level == lvl0 && s.left == nlb.left);
                                assert(db.level == lvl0 && db.left == nlb.right && db.right
                                    == a.right);
                                assert(match a.right {
                                    Some(x) => x.aa_balanced(),
                                    None => true,
                                });
                                assert(db.aa_balanced());
                                if Self::opt_level(a.right) == lvl0 {
                                    // Two same-level links in a row on the
                                    // right: split rotates and rises.
                                    assert(s.has_double_right());
                                    let eb = p.left.unwrap();
                                    assert(p.level == lvl0 + 1 && p.right == db.right);
                                    assert(eb.level == lvl0 && eb.left == s.left && eb.right
                                        == db.left);
                                    assert(match eb.right {
                                        Some(x) => x.aa_balanced() && Self::opt_level(x.right)
                                            < lvl0,
                                        None => true,
                                    });
                                    assert(eb.aa_balanced());
                                    assert(match p.right {
                                        Some(x) => x.aa_balanced() && Self::opt_level(x.right)
                                            <= lvl0,
                                        None => true,
                                    });
                                    assert(p.aa_balanced());
                                    assert(Self::opt_level(n0.right) == lvl0);
                                } else {
                                    assert(!s.has_double_right());
                                    assert(p == s);
                                    assert(s.aa_balanced());
                                }
                            } else {
                                assert(!a.has_left_horizontal());
                                assert(s == a);
                                assert(!s.has_double_right());
                                assert(p == a);
                                assert(a.aa_balanced());
                            }
                            if Self::opt_as_map(n0.left).dom().contains(key) {
                                assert(Self::opt_as_map(*old(link)).dom().contains(key));
                            } else {
                                assert(!Self::opt_as_map(*old(link)).dom().contains(key));
                            }
                        }
                        *link = Some(n3);
                        prev
                    }
                    Ordering::Greater => {
                        proof {
                            K::lemma_total(n0.key, key);
                            if Self::opt_as_map(n0.left).dom().contains(key) {
                                assert(false);
                            }
                            assert(match n0.right {
                                Some(x) => x.bst_ordered() && x.aa_balanced(),
                                None => true,
                            });
                        }
                        let prev = Self::insert_opt(&mut n.right, key, value);
                        let ghost a = *n;
                        proof {
                            assert(Self::opt_as_map(a.right) == Self::opt_as_map(
                                n0.right,
                            ).insert(key, value));
                            assert forall|k: K| #[trigger]
                                Self::opt_as_map(a.right).dom().contains(k) implies a.key.lt(
                                k,
                            ) by {
                                if Self::opt_as_map(n0.right).dom().contains(k) {
                                } else {
                                    assert(k == key);
                                }
                            }
                            assert(a.bst_ordered());
                            let mu = Self::opt_level(a.right);
                            // A right child that already sat on this node's
                            // level cannot rise again: its own right link was
                            // strictly lower, which the rise condition forbids.
                            if mu == lvl0 + 1 {
                                assert(Self::opt_level(n0.right) == lvl0);
                                let rb = n0.right.unwrap();
                                assert(Self::opt_level(rb.right) == rb.level);
                                assert(Self::opt_level(rb.right) < lvl0);
                                assert(false);
                            }
                            assert(mu <= lvl0);
                            assert(Self::opt_level(a.left) == lvl0 - 1);
                        }
                        let n2 = skew(n);
                        proof {
                            let s = *n2;
                            assert(Node::<K, V>::skew_of(a, s));
                            assert(!a.has_left_horizontal());
                            assert(s == a);
                            assert(Self::opt_level(s.right) <= lvl0);
                            assert(lvl0 < usize::MAX);
                        }
                        let n3 = split(n2);
                        proof {
                            let s = *n2;
                            let p = *n3;
                            Self::lemma_skew_preserves(a, s);
                            Self::lemma_split_preserves(s, p);
                            assert(p.as_map() == Self::opt_as_map(*old(link)).insert(key, value));
                            let mu = Self::opt_level(a.right);
                            if mu == lvl0 {
                                let rnb = a.right.unwrap();
                                assert(rnb.level == lvl0);
                                assert(rnb.aa_balanced());
                                assert(match rnb.left {
                                    Some(x) => x.aa_balanced(),
                                    None => true,
                                });
                                assert(match rnb.right {
                                    Some(x) => x.aa_balanced(),
                                    None => true,
                                });
                                let rho = Self::opt_level(rnb.right);
                                if rho == lvl0 {
                                    // Split fires: the right child rotates up
                                    // one level.
                                    assert(a.has_double_right());
                                    // The old right child already sat on this
                                    // level: a rise of the child would have
                                    // needed a right link on its own level.
                                    if Self::opt_level(n0.right) == lvl0 - 1 {
                                        assert(Self::opt_level(rnb.right) == lvl0 - 1);
                                        assert(false);
                                    }
                                    assert(Self::opt_level(n0.right) == lvl0);
                                    let eb = p.left.unwrap();
                                    assert(p.level == lvl0 + 1 && p.right == rnb.right);
                                    assert(eb.level == lvl0 && eb.left == a.left && eb.right
                                        == rnb.left);
                                    assert(Self::opt_level(rnb.left) == lvl0 - 1);
                                    assert(match eb.right {
                                        Some(x) => x.aa_balanced() && Self::opt_level(x.right)
                                            < lvl0,
                                        None => true,
                                    });
                                    assert(match eb.left {
                                        Some(x) => x.aa_balanced(),
                                        None => true,
                                    });
                                    assert(eb.aa_balanced());
                                    assert(match p.right {
                                        Some(x) => x.aa_balanced() && Self::opt_level(x.right)
                                            <= lvl0,
                                        None => true,
                                    });
                                    assert(p.aa_balanced());
                                } else {
                                    assert(!a.has_double_right());
                                    assert(p == a);
                                    assert(match a.left {
                                        Some(x) => x.aa_balanced(),
                                        None => true,
                                    });
                                    assert(a.aa_balanced());
                                }
                            } else {
                                assert(mu == lvl0 - 1);
                                assert(match a.right {
                                    Some(x) => x.aa_balanced() && Self::opt_level(x.right) <= mu,
                                    None => true,
                                });
                                assert(!a.has_double_right());
                                assert(p == a);
                                assert(match a.left {
                                    Some(x) => x.aa_balanced(),
                                    None => true,
                                });
                                assert(a.aa_balanced());
                            }
                            if Self::opt_as_map(n0.right).dom().contains(key) {
                                assert(Self::opt_as_map(*old(link)).dom().contains(key));
                            } else {
                                assert(!Self::opt_as_map(*old(link)).dom().contains(key));
                            }
                        }
                        *link = Some(n3);
                        prev
                    }
                }
            }
        }
    }
}

impl<K: TotalOrder, V> Tree<K, V> {
    /// The key-value map this tree stores.
    pub closed spec fn as_map(self) -> Map<K, V> {
        Node::<K, V>::opt_as_map(self.root)
    }

    #[verifier::type_invariant]
    spec fn inv(self) -> bool {
        &&& (match self.root {
            Some(n) => n.bst_ordered() && n.aa_balanced(),
            None => true,
        })
        &&& self.as_map().dom().finite()
        &&& self.size == self.as_map().len()
    }

    /// An empty tree: no root, size 0.
    pub fn new() -> (t: Tree<K, V>)
        ensures
            t@ == Map::<K, V>::empty(),
    {
        proof {
            assert(Map::<K, V>::empty().dom() =~= Set::<K>::empty());
        }
        Tree { root: None, size: 0 }
    }

    /// The number of keys stored.
    pub fn size(&self) -> (n: usize)
        ensures
            n == self@.len(),
    {
        proof {
            use_type_invariant(self);
        }
        self.size
    }

    /// Insert `key` with `value`.
    ///
    /// Returns the value previously stored under `key` when there was
    /// one — the key itself is then overwritten by the equal key supplied,
    /// a deliberate last-write-wins policy — and `None` when the key is
    /// fresh, in which case the size grows by one.
    pub fn insert(&mut self, key: K, value: V) -> (prev: Option<V>)
        requires
            old(self)@.len() < usize::MAX,
        ensures
            final(self)@ == old(self)@.insert(key, value),
            prev == (if old(self)@.dom().contains(key) {
                Some(old(self)@[key])
            } else {
                None::<V>
            }),
            final(self)@.len() == old(self)@.len() + (if old(self)@.dom().contains(key) {
                0int
            } else {
                1int
            }),
    {
        proof {
            use_type_invariant(&*self);
        }
        let mut tmp = Tree::<K, V> { root: None, size: 0 };
        proof {
            assert(Map::<K, V>::empty().dom() =~= Set::<K>::empty());
        }
        std::mem::swap(&mut tmp, self);
        let Tree { mut root, size } = tmp;
        let prev = Node::<K, V>::insert_opt(&mut root, key, value);
        let new_size = if prev.is_none() {
            size + 1
        } else {
            size
        };
        proof {
            assert(Node::<K, V>::opt_as_map(root).dom() =~= old(self)@.dom().insert(key));
        }
        *self = Tree { root, size: new_size };
        prev
    }

    /// Re-check binary-search-tree order at runtime.
    ///
    /// Always returns `true`: every tree reachable through this interface
    /// is in order, so the full recursive check is proven to succeed.
    pub fn is_bst(&self) -> (r: bool)
        ensures
            r,
    {
        proof {
            use_type_invariant(self);
        }
        match &self.root {
            None => true,
            Some(n) => n.is_bst(),
        }
    }

    /// Re-check binary-search-tree order and the AA level rules at runtime.
    ///
    /// Always returns `true`: every tree reachable through this interface
    /// satisfies the AA balance discipline, which implies the node-local
    /// level rules the check tests.
    pub fn is_aa(&self) -> (r: bool)
        ensures
            r,
    {
        proof {
            use_type_invariant(self);
        }
        match &self.root {
            None => true,
            Some(n) => {
                proof {
                    Node::<K, V>::lemma_balanced_implies_local(**n);
                }
                n.is_aa()
            }
        }
    }

    /// Iterative binary-search-tree lookup: returns a reference to the
    /// value stored under `key`, or `None` when the key is absent.
    pub fn find<'a>(&'a self, key: &K) -> (r: Option<&'a V>)
        ensures
            r == (if self@.dom().contains(*key) {
                Some(&self@[*key])
            } else {
                None::<&'a V>
            }),
    {
        proof {
            use_type_invariant(self);
        }
        let mut cur: &Option<Box<Node<K, V>>> = &self.root;
        loop
            invariant
                match cur {
                    Some(n) => n.bst_ordered(),
                    None => true,
                },
                Node::<K, V>::opt_as_map(*cur).dom().contains(*key) == self@.dom().contains(
                    *key,
                ),
                Node::<K, V>::opt_as_map(*cur).dom().contains(*key) ==> Node::<K, V>::opt_as_map(
                    *cur,
                )[*key] == self@[*key],
            decreases *cur,
        {
            match cur {
                None => {
                    return None;
                }
                Some(n) => {
                    match key.compare(&n.key) {
                        Ordering::Less => {
                            proof {
                                K::lemma_total(*key, n.key);
                                if Node::<K, V>::opt_as_map(n.right).dom().contains(*key) {
                                    assert(false);
                                }
                            }
                            cur = &n.left;
                        }
                        Ordering::Greater => {
                            proof {
                                K::lemma_total(n.key, *key);
                                if Node::<K, V>::opt_as_map(n.left).dom().contains(*key) {
                                    assert(false);
                                }
                            }
                            cur = &n.right;
                        }
                        Ordering::Equal => {
                            return Some(&n.value);
                        }
                    }
                }
            }
        }
    }
}

impl<K: TotalOrder + Copy, V: Copy> Node<K, V> {
    /// Pre-order walk for external pretty-printing: appends one
    /// `(key, value, level, depth)` tuple per node of the subtree.
    fn walk_preorder(node: &Option<Box<Node<K, V>>>, depth: usize, out: &mut Vec<(K, V, usize, usize)>)
        requires
            match *node {
                Some(n) => n.bst_ordered(),
                None => true,
            },
            depth + Self::opt_as_map(*node).len() <= usize::MAX,
            old(out)@.len() + Self::opt_as_map(*node).len() <= usize::MAX,
        ensures
            final(out)@.len() == old(out)@.len() + Self::opt_as_map(*node).len(),
            forall|i: int|
                0 <= i < old(out)@.len() ==> final(out)@[i] == old(out)@[i],
            forall|i: int|
                old(out)@.len() <= i < final(out)@.len() ==> Self::opt_as_map(*node).contains_pair(
                    #[trigger] final(out)@[i].0,
                    final(out)@[i].1,
                ),
            forall|i: int, j: int|
                old(out)@.len() <= i < j < final(out)@.len() ==> final(out)@[i].0
                    != final(out)@[j].0,
        decreases *node,
    {
        match node {
            None => {
                proof {
                    assert(Self::opt_as_map(*node).dom() =~= Set::<K>::empty());
                }
            }
            Some(n) => {
                proof {
                    Self::lemma_bst_node_facts(**n);
                    Self::lemma_map_len(**n);
                }
                out.push((n.key, n.value, n.level, depth));
                let next_depth = depth + 1;
                Self::walk_preorder(&n.left, next_depth, out);
                Self::walk_preorder(&n.right, next_depth, out);
            }
        }
    }
}

impl<K: TotalOrder + Copy, V: Copy> Tree<K, V> {
    /// The tree's contents for external pretty-printing: one
    /// `(key, value, level, depth)` tuple per node, in pre-order, where
    /// `depth` is the node's distance from the root.
    ///
    /// Every listed pair is stored in the tree, and there is one tuple
    /// per stored key.
    pub fn entries(&self) -> (v: Vec<(K, V, usize, usize)>)
        ensures
            v@.len() == self@.len(),
            forall|i: int|
                0 <= i < v@.len() ==> self@.contains_pair(#[trigger] v@[i].0, v@[i].1),
            forall|i: int, j: int| 0 <= i < j < v@.len() ==> v@[i].0 != v@[j].0,
    {
        proof {
            use_type_invariant(self);
        }
        let mut out: Vec<(K, V, usize, usize)> = Vec::new();
        Node::<K, V>::walk_preorder(&self.root, 0, &mut out);
        out
    }
}

impl<K: TotalOrder, V> View for Tree<K, V> {
    type V = Map<K, V>;

    open spec fn view(&self) -> Map<K, V> {
        self.as_map()
    }
}

} // verus!
