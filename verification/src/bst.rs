//! Binary search tree mapping `i32` keys to values, with the empty tree
//! represented by a root node that holds no key.

use vstd::prelude::*;

verus! {

type Link<V> = Option<Box<BST<V>>>;

/// A binary search tree node; a tree with no key is the empty tree.  Its
/// view is the finite map from stored keys to their values.
pub struct BST<V> {
    key: Option<i32>,
    val: Option<V>,
    left: Link<V>,
    right: Link<V>,
}

/// Keyed nodes under a child link.
spec fn link_count<V>(l: Link<V>) -> nat
    decreases l,
{
    match l {
        None => 0,
        Some(node) => node.node_count(),
    }
}

/// Childless nodes under a child link.
spec fn link_leaves<V>(l: Link<V>) -> nat
    decreases l,
{
    match l {
        None => 0,
        Some(node) => node.leaf_count(),
    }
}

/// Longest chain under a child link.
spec fn link_depth<V>(l: Link<V>) -> nat
    decreases l,
{
    match l {
        None => 0,
        Some(node) => node.depth_spec(),
    }
}

/// Inserting a strictly smaller key below the root commutes with
/// rebuilding the root's map.
proof fn lemma_view_insert_left<V>(lm: Map<i32, V>, rm: Map<i32, V>, k: i32, rootv: V, key: i32, val: V)
    requires
        key < k,
        forall|m: i32| rm.dom().contains(m) ==> m > k,
    ensures
        lm.insert(key, val).union_prefer_right(rm).insert(k, rootv) == lm.union_prefer_right(
            rm,
        ).insert(k, rootv).insert(key, val),
{
    assert(lm.insert(key, val).union_prefer_right(rm).insert(k, rootv) =~= lm.union_prefer_right(
        rm,
    ).insert(k, rootv).insert(key, val));
}

/// Inserting a strictly larger key below the root commutes with
/// rebuilding the root's map.
proof fn lemma_view_insert_right<V>(lm: Map<i32, V>, rm: Map<i32, V>, k: i32, rootv: V, key: i32, val: V)
    requires
        key > k,
    ensures
        lm.union_prefer_right(rm.insert(key, val)).insert(k, rootv) == lm.union_prefer_right(
            rm,
        ).insert(k, rootv).insert(key, val),
{
    assert(lm.union_prefer_right(rm.insert(key, val)).insert(k, rootv) =~= lm.union_prefer_right(
        rm,
    ).insert(k, rootv).insert(key, val));
}

/// The map stored under a child link.
spec fn link_map<V>(l: Link<V>) -> Map<i32, V>
    decreases l,
{
    match l {
        None => Map::empty(),
        Some(node) => node.as_map(),
    }
}

impl<V> View for BST<V> {
    type V = Map<i32, V>;

    closed spec fn view(&self) -> Map<i32, V> {
        self.as_map()
    }
}

impl<V> BST<V> {
    /// The map stored in this subtree.
    spec fn as_map(self) -> Map<i32, V>
        decreases self,
    {
        match self.key {
            None => Map::empty(),
            Some(k) => link_map(self.left).union_prefer_right(link_map(self.right)).insert(
                k,
                self.val->Some_0,
            ),
        }
    }

    /// Search-tree shape: a keyless node stores nothing at all, and a
    /// keyed node has a value, strictly smaller keys on the left and
    /// strictly larger keys on the right.
    pub closed spec fn well_formed(self) -> bool
        decreases self,
    {
        match self.key {
            None => self.val is None && self.left is None && self.right is None,
            Some(k) => {
                &&& self.val is Some
                &&& match self.left {
                    None => true,
                    Some(node) => node.well_formed() && node.key is Some && forall|m: i32|
                        node.as_map().dom().contains(m) ==> m < k,
                }
                &&& match self.right {
                    None => true,
                    Some(node) => node.well_formed() && node.key is Some && forall|m: i32|
                        node.as_map().dom().contains(m) ==> m > k,
                }
            },
        }
    }

    /// A well-formed subtree stores a finite map; a keyed subtree stores
    /// its own key, and every stored key lies between the smallest and
    /// largest keys of the subtree's span.
    proof fn lemma_map_facts(self)
        requires
            self.well_formed(),
        ensures
            self.as_map().dom().finite(),
            self.key is None ==> self.as_map() == Map::<i32, V>::empty(),
            self.key is Some ==> self.as_map().dom().contains(self.key->Some_0),
        decreases self,
    {
        match self.key {
            None => {
                assert(self.as_map().dom() =~= Set::<i32>::empty());
            },
            Some(k) => {
                match self.left {
                    None => {
                    },
                    Some(node) => {
                        node.lemma_map_facts();
                    },
                }
                match self.right {
                    None => {
                    },
                    Some(node) => {
                        node.lemma_map_facts();
                    },
                }
                assert(self.as_map().dom() =~= link_map(self.left).dom().union(
                    link_map(self.right).dom(),
                ).insert(k));
            },
        }
    }

    /// In a keyed, well-formed node, a key other than the root's is stored
    /// exactly when the child on its side stores it, with the same value,
    /// and the root key maps to the root value.
    proof fn lemma_lookup(self, m: i32)
        requires
            self.well_formed(),
            self.key is Some,
        ensures
            self.as_map().dom().contains(self.key->Some_0),
            self.as_map()[self.key->Some_0] == self.val->Some_0,
            m < self.key->Some_0 ==> (self.as_map().dom().contains(m) <==> link_map(
                self.left,
            ).dom().contains(m)),
            m < self.key->Some_0 && link_map(self.left).dom().contains(m)
                ==> self.as_map()[m] == link_map(self.left)[m],
            m > self.key->Some_0 ==> (self.as_map().dom().contains(m) <==> link_map(
                self.right,
            ).dom().contains(m)),
            m > self.key->Some_0 && link_map(self.right).dom().contains(m)
                ==> self.as_map()[m] == link_map(self.right)[m],
    {
        let k = self.key->Some_0;
        if m < k {
            match self.right {
                None => {
                },
                Some(node) => {
                    if node.as_map().dom().contains(m) {
                        assert(m > k);
                    }
                },
            }
        }
        if m > k {
            match self.left {
                None => {
                },
                Some(node) => {
                    if node.as_map().dom().contains(m) {
                        assert(m < k);
                    }
                },
            }
        }
    }

    /// Creates an empty tree.
    pub fn new() -> (r: Self)
        ensures
            r.well_formed(),
            r@ == Map::<i32, V>::empty(),
    {
        BST { key: None, val: None, left: None, right: None }
    }

    /// True when no key is stored.
    pub fn is_empty(&self) -> (r: bool)
        requires
            self.well_formed(),
        ensures
            r == (self@.dom() == Set::<i32>::empty()),
    {
        proof {
            self.lemma_map_facts();
            if self.key is None {
                assert(self@.dom() =~= Set::<i32>::empty());
            }
        }
        self.key.is_none()
    }

    /// Number of keyed nodes in this subtree.
    pub closed spec fn node_count(self) -> nat
        decreases self,
    {
        match self.key {
            None => 0,
            Some(k) => 1 + link_count(self.left) + link_count(self.right),
        }
    }

    /// Number of nodes without any child, counting an empty root node as
    /// one childless node.
    pub closed spec fn leaf_count(self) -> nat
        decreases self,
    {
        if self.left is None && self.right is None {
            1
        } else {
            link_leaves(self.left) + link_leaves(self.right)
        }
    }

    /// Length of the longest root-to-leaf chain.
    pub closed spec fn depth_spec(self) -> nat
        decreases self,
    {
        match self.key {
            None => 0,
            Some(k) => 1 + if link_depth(self.left) > link_depth(self.right) {
                link_depth(self.left)
            } else {
                link_depth(self.right)
            },
        }
    }

    /// The node count is the number of stored keys.
    proof fn lemma_count_is_card(self)
        requires
            self.well_formed(),
        ensures
            self.as_map().dom().finite(),
            self.node_count() == self.as_map().dom().len(),
        decreases self,
    {
        broadcast use vstd::set_lib::lemma_set_disjoint_lens;

        self.lemma_map_facts();
        match self.key {
            None => {
                assert(self.as_map().dom() =~= Set::<i32>::empty());
            },
            Some(k) => {
                let ld = link_map(self.left).dom();
                let rd = link_map(self.right).dom();
                match self.left {
                    None => {
                        assert(ld =~= Set::<i32>::empty());
                    },
                    Some(node) => {
                        node.lemma_count_is_card();
                    },
                }
                match self.right {
                    None => {
                        assert(rd =~= Set::<i32>::empty());
                    },
                    Some(node) => {
                        node.lemma_count_is_card();
                    },
                }
                assert(ld.disjoint(rd)) by {
                    assert forall|m: i32| ld.contains(m) implies !rd.contains(m) by {
                        match self.left {
                            None => {
                            },
                            Some(node) => {
                                assert(node.as_map().dom().contains(m));
                            },
                        }
                        if rd.contains(m) {
                            match self.right {
                                None => {
                                },
                                Some(node) => {
                                    assert(node.as_map().dom().contains(m));
                                },
                            }
                        }
                    }
                }
                assert((ld + rd).len() == ld.len() + rd.len());
                assert(!(ld + rd).contains(k)) by {
                    if ld.contains(k) {
                        match self.left {
                            None => {
                            },
                            Some(node) => {
                                assert(node.as_map().dom().contains(k));
                            },
                        }
                    }
                    if rd.contains(k) {
                        match self.right {
                            None => {
                            },
                            Some(node) => {
                                assert(node.as_map().dom().contains(k));
                            },
                        }
                    }
                }
                assert(self.as_map().dom() =~= (ld + rd).insert(k));
            },
        }
    }

    /// Childless nodes are never more numerous than keyed nodes, except
    /// that the empty tree counts one childless node.
    proof fn lemma_leaves_le_count(self)
        requires
            self.well_formed(),
        ensures
            self.leaf_count() <= self.node_count() + 1,
            self.key is Some ==> self.leaf_count() <= self.node_count(),
        decreases self,
    {
        match self.left {
            None => {
            },
            Some(node) => {
                node.lemma_leaves_le_count();
            },
        }
        match self.right {
            None => {
            },
            Some(node) => {
                node.lemma_leaves_le_count();
            },
        }
    }

    /// The longest chain visits each node at most once.
    proof fn lemma_depth_le_count(self)
        requires
            self.well_formed(),
        ensures
            self.depth_spec() <= self.node_count(),
        decreases self,
    {
        match self.left {
            None => {
            },
            Some(node) => {
                node.lemma_depth_le_count();
            },
        }
        match self.right {
            None => {
            },
            Some(node) => {
                node.lemma_depth_le_count();
            },
        }
    }

    /// Number of stored keys.
    pub fn size(&self) -> (r: usize)
        requires
            self.well_formed(),
            self@.dom().len() <= usize::MAX,
        ensures
            r == self@.dom().len(),
    {
        proof {
            self.lemma_count_is_card();
        }
        self.calc_size(0)
    }

    /// Adds the number of keyed nodes in this subtree to the running count
    /// `size`.
    pub fn calc_size(&self, size: usize) -> (r: usize)
        requires
            self.well_formed(),
            size + self.node_count() <= usize::MAX,
        ensures
            r == size + self.node_count(),
        decreases *self,
    {
        match &self.key {
            None => size,
            Some(_) => {
                let mut size = size + 1;
                match &self.left {
                    Some(node) => {
                        size = node.calc_size(size);
                    },
                    None => {
                    },
                }
                match &self.right {
                    Some(node) => {
                        size = node.calc_size(size);
                    },
                    None => {
                    },
                }
                size
            },
        }
    }

    /// Number of childless nodes; the empty tree reports one.
    pub fn leaf_size(&self) -> (r: usize)
        requires
            self.well_formed(),
            self@.dom().len() + 1 <= usize::MAX,
        ensures
            r == self.leaf_count(),
        decreases *self,
    {
        proof {
            self.lemma_count_is_card();
            self.lemma_leaves_le_count();
        }
        if self.left.is_none() && self.right.is_none() {
            return 1;
        }

        let left_leaf_size = match &self.left {
            Some(node) => {
                proof {
                    node.lemma_count_is_card();
                    node.lemma_leaves_le_count();
                }
                node.leaf_size()
            },
            None => 0,
        };
        let right_leaf_size = match &self.right {
            Some(node) => {
                proof {
                    node.lemma_count_is_card();
                    node.lemma_leaves_le_count();
                }
                node.leaf_size()
            },
            None => 0,
        };
        left_leaf_size + right_leaf_size
    }

    /// Number of keyed nodes that have at least one child.
    pub fn none_leaf_size(&self) -> (r: usize)
        requires
            self.well_formed(),
            self@.dom().len() >= 1,
            self@.dom().len() + 1 <= usize::MAX,
        ensures
            r == self.node_count() - self.leaf_count(),
    {
        proof {
            self.lemma_count_is_card();
            self.lemma_leaves_le_count();
            if self.key is None {
                assert(self@.dom() =~= Set::<i32>::empty());
            }
        }
        self.size() - self.leaf_size()
    }

    /// Length of the longest root-to-leaf chain.
    pub fn depth(&self) -> (r: usize)
        requires
            self.well_formed(),
            self@.dom().len() < usize::MAX,
        ensures
            r == self.depth_spec(),
        decreases *self,
    {
        proof {
            self.lemma_count_is_card();
            self.lemma_depth_le_count();
        }
        if self.key.is_none() {
            return 0;
        }

        let mut left_depth: usize = 1;
        match &self.left {
            Some(left) => {
                proof {
                    left.lemma_count_is_card();
                    left.lemma_depth_le_count();
                }
                left_depth = left_depth + left.depth();
            },
            None => {
            },
        }

        let mut right_depth: usize = 1;
        match &self.right {
            Some(right) => {
                proof {
                    right.lemma_count_is_card();
                    right.lemma_depth_le_count();
                }
                right_depth = right_depth + right.depth();
            },
            None => {
            },
        }

        if left_depth > right_depth {
            left_depth
        } else {
            right_depth
        }
    }

    /// The smallest stored key with its value, or `(None, None)` when the
    /// tree is empty.
    pub fn min(&self) -> (r: (Option<&i32>, Option<&V>))
        requires
            self.well_formed(),
        ensures
            match (r.0, r.1) {
                (Some(k), Some(v)) => self@.dom().contains(*k) && *v == self@[*k] && forall|m: i32|
                    self@.dom().contains(m) ==> *k <= m,
                (None, None) => self@.dom() == Set::<i32>::empty(),
                _ => false,
            },
        decreases *self,
    {
        match &self.left {
            Some(node) => {
                let r = node.min();
                proof {
                    let k = self.key->Some_0;
                    match r.0 {
                        Some(k0) => {
                            self.lemma_lookup(*k0);
                            assert forall|m: i32| self@.dom().contains(m) implies *k0 <= m by {
                                self.lemma_lookup(m);
                                if m > k {
                                    assert(*k0 < k);
                                } else if m < k {
                                    assert(link_map(self.left).dom().contains(m));
                                }
                            }
                        },
                        None => {
                            node.lemma_map_facts();
                        },
                    }
                }
                r
            },
            None => {
                match &self.key {
                    Some(_) => {
                        proof {
                            let k = self.key->Some_0;
                            self.lemma_lookup(k);
                            assert forall|m: i32| self@.dom().contains(m) implies k <= m by {
                                self.lemma_lookup(m);
                                if m < k {
                                    assert(link_map(self.left).dom().contains(m));
                                    assert(link_map(self.left).dom() =~= Set::<i32>::empty());
                                }
                            }
                        }
                        (self.key.as_ref(), self.val.as_ref())
                    },
                    None => {
                        proof {
                            assert(self@.dom() =~= Set::<i32>::empty());
                        }
                        (None, None)
                    },
                }
            },
        }
    }

    /// The largest stored key with its value, or `(None, None)` when the
    /// tree is empty.
    pub fn max(&self) -> (r: (Option<&i32>, Option<&V>))
        requires
            self.well_formed(),
        ensures
            match (r.0, r.1) {
                (Some(k), Some(v)) => self@.dom().contains(*k) && *v == self@[*k] && forall|m: i32|
                    self@.dom().contains(m) ==> *k >= m,
                (None, None) => self@.dom() == Set::<i32>::empty(),
                _ => false,
            },
        decreases *self,
    {
        match &self.right {
            Some(node) => {
                let r = node.max();
                proof {
                    let k = self.key->Some_0;
                    match r.0 {
                        Some(k0) => {
                            self.lemma_lookup(*k0);
                            assert forall|m: i32| self@.dom().contains(m) implies *k0 >= m by {
                                self.lemma_lookup(m);
                                if m < k {
                                    assert(*k0 > k);
                                } else if m > k {
                                    assert(link_map(self.right).dom().contains(m));
                                }
                            }
                        },
                        None => {
                            node.lemma_map_facts();
                        },
                    }
                }
                r
            },
            None => {
                match &self.key {
                    Some(_) => {
                        proof {
                            let k = self.key->Some_0;
                            self.lemma_lookup(k);
                            assert forall|m: i32| self@.dom().contains(m) implies k >= m by {
                                self.lemma_lookup(m);
                                if m > k {
                                    assert(link_map(self.right).dom().contains(m));
                                    assert(link_map(self.right).dom() =~= Set::<i32>::empty());
                                }
                            }
                        }
                        (self.key.as_ref(), self.val.as_ref())
                    },
                    None => {
                        proof {
                            assert(self@.dom() =~= Set::<i32>::empty());
                        }
                        (None, None)
                    },
                }
            },
        }
    }

    /// Stores `val` under `key`, overwriting any previous value.
    pub fn insert(&mut self, key: i32, val: V)
        requires
            old(self).well_formed(),
        ensures
            final(self).well_formed(),
            final(self)@ == old(self)@.insert(key, val),
        decreases *old(self),
    {
        match self.key {
            None => {
                self.key = Some(key);
                self.val = Some(val);
                proof {
                    assert(final(self)@ =~= old(self)@.insert(key, val));
                }
            },
            Some(k) => {
                proof {
                    old(self).lemma_map_facts();
                }
                if key == k {
                    self.val = Some(val);
                    proof {
                        assert(final(self)@ =~= old(self)@.insert(key, val));
                    }
                } else if key < k {
                    Self::link_insert(&mut self.left, key, val);
                    proof {
                        let lm = link_map(old(self).left);
                        let rm = link_map(old(self).right);
                        assert forall|m: i32| rm.dom().contains(m) implies m > k by {
                            match old(self).right {
                                None => {
                                    assert(rm.dom() =~= Set::<i32>::empty());
                                },
                                Some(node) => {
                                    assert(node.as_map().dom().contains(m));
                                },
                            }
                        }
                        assert forall|m: i32| lm.dom().contains(m) implies m < k by {
                            match old(self).left {
                                None => {
                                    assert(lm.dom() =~= Set::<i32>::empty());
                                },
                                Some(node) => {
                                    assert(node.as_map().dom().contains(m));
                                },
                            }
                        }
                        lemma_view_insert_left(lm, rm, k, old(self).val->Some_0, key, val);
                        assert(link_map(self.left) == lm.insert(key, val));
                        assert(final(self).well_formed()) by {
                            assert(link_map(self.left).dom() =~= lm.dom().insert(key));
                        }
                    }
                } else {
                    Self::link_insert(&mut self.right, key, val);
                    proof {
                        let lm = link_map(old(self).left);
                        let rm = link_map(old(self).right);
                        assert forall|m: i32| rm.dom().contains(m) implies m > k by {
                            match old(self).right {
                                None => {
                                    assert(rm.dom() =~= Set::<i32>::empty());
                                },
                                Some(node) => {
                                    assert(node.as_map().dom().contains(m));
                                },
                            }
                        }
                        lemma_view_insert_right(lm, rm, k, old(self).val->Some_0, key, val);
                        assert(link_map(self.right) == rm.insert(key, val));
                        assert(final(self).well_formed()) by {
                            assert(link_map(self.right).dom() =~= rm.dom().insert(key));
                        }
                    }
                }
            },
        }
    }

    /// Stores `val` under `key` in the subtree behind a child link,
    /// growing a fresh node when the link is empty.
    fn link_insert(l: &mut Link<V>, key: i32, val: V)
        requires
            match *old(l) {
                None => true,
                Some(node) => node.well_formed() && node.key is Some,
            },
        ensures
            match *final(l) {
                None => false,
                Some(node) => node.well_formed() && node.key is Some,
            },
            link_map(*final(l)) == link_map(*old(l)).insert(key, val),
        decreases *old(l),
    {
        match l.take() {
            None => {
                let node = BST { key: Some(key), val: Some(val), left: None, right: None };
                *l = Some(Box::new(node));
                proof {
                    assert(link_map(*final(l)) =~= link_map(*old(l)).insert(key, val));
                }
            },
            Some(mut boxed) => {
                (&mut *boxed).insert(key, val);
                proof {
                    if boxed.key is None {
                        boxed.lemma_map_facts();
                        assert(boxed.as_map().dom().contains(key));
                        assert(false);
                    }
                }
                *l = Some(boxed);
                proof {
                    assert(link_map(*final(l)) =~= link_map(*old(l)).insert(key, val));
                }
            },
        }
    }

    /// True exactly when `key` is stored.
    pub fn contains(&self, key: &i32) -> (r: bool)
        requires
            self.well_formed(),
        ensures
            r == self@.dom().contains(*key),
        decreases *self,
    {
        match &self.key {
            None => {
                proof {
                    self.lemma_map_facts();
                }
                false
            },
            Some(k) => {
                proof {
                    self.lemma_lookup(*key);
                }
                if *k == *key {
                    true
                } else if *k < *key {
                    match &self.right {
                        Some(node) => node.contains(key),
                        None => false,
                    }
                } else {
                    match &self.left {
                        Some(node) => node.contains(key),
                        None => false,
                    }
                }
            },
        }
    }

    /// Borrows the value stored under `key`, or `None` when `key` is
    /// absent.
    pub fn get(&self, key: &i32) -> (r: Option<&V>)
        requires
            self.well_formed(),
        ensures
            match r {
                Some(v) => self@.dom().contains(*key) && *v == self@[*key],
                None => !self@.dom().contains(*key),
            },
        decreases *self,
    {
        match &self.key {
            None => {
                proof {
                    self.lemma_map_facts();
                }
                None
            },
            Some(k) => {
                proof {
                    self.lemma_lookup(*key);
                }
                if *k == *key {
                    self.val.as_ref()
                } else if *k < *key {
                    match &self.right {
                        None => None,
                        Some(node) => node.get(key),
                    }
                } else {
                    match &self.left {
                        None => None,
                        Some(node) => node.get(key),
                    }
                }
            },
        }
    }
}

} // verus!
