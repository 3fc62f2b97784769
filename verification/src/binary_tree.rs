//! Plain binary tree of `i32` keys, grown by pushing new nodes in at the
//! root's left or right side.  Every node holds a key; the view is the set
//! of stored keys.

use vstd::prelude::*;

verus! {

type Link = Option<Box<BinaryTree>>;

/// A binary tree node.  Its view is the set of keys stored in the whole
/// subtree.
#[derive(Debug)]
pub struct BinaryTree {
    key: i32,
    left: Link,
    right: Link,
}

/// Keys stored under a child link.
spec fn link_keys(l: Link) -> Set<i32>
    decreases l,
{
    match l {
        None => Set::empty(),
        Some(node) => node.key_set(),
    }
}

/// Nodes under a child link.
spec fn link_count(l: Link) -> nat
    decreases l,
{
    match l {
        None => 0,
        Some(node) => node.node_count(),
    }
}

/// Childless nodes under a child link.
spec fn link_leaves(l: Link) -> nat
    decreases l,
{
    match l {
        None => 0,
        Some(node) => node.leaf_count(),
    }
}

/// Longest chain under a child link.
spec fn link_depth(l: Link) -> nat
    decreases l,
{
    match l {
        None => 0,
        Some(node) => node.depth_spec(),
    }
}

impl View for BinaryTree {
    type V = Set<i32>;

    closed spec fn view(&self) -> Set<i32> {
        self.key_set()
    }
}

impl BinaryTree {
    /// The set of keys stored in this subtree.
    pub closed spec fn key_set(self) -> Set<i32>
        decreases self,
    {
        link_keys(self.left).union(link_keys(self.right)).insert(self.key)
    }

    /// The key at the root.
    pub closed spec fn root_key(self) -> i32 {
        self.key
    }

    /// The left subtree, if any.
    pub closed spec fn left_link(self) -> Option<Box<BinaryTree>> {
        self.left
    }

    /// The right subtree, if any.
    pub closed spec fn right_link(self) -> Option<Box<BinaryTree>> {
        self.right
    }

    /// Number of nodes in this subtree.
    pub closed spec fn node_count(self) -> nat
        decreases self,
    {
        1 + link_count(self.left) + link_count(self.right)
    }

    /// Number of childless nodes in this subtree.
    pub closed spec fn leaf_count(self) -> nat
        decreases self,
    {
        if self.left is None && self.right is None {
            1
        } else {
            link_leaves(self.left) + link_leaves(self.right)
        }
    }

    /// Length of the longest root-to-leaf chain.
    pub closed spec fn depth_spec(self) -> nat
        decreases self,
    {
        1 + if link_depth(self.left) > link_depth(self.right) {
            link_depth(self.left)
        } else {
            link_depth(self.right)
        }
    }

    /// The key of the leftmost node.
    pub closed spec fn leftmost(self) -> i32
        decreases self,
    {
        match self.left {
            None => self.key,
            Some(node) => node.leftmost(),
        }
    }

    /// The key of the rightmost node.
    pub closed spec fn rightmost(self) -> i32
        decreases self,
    {
        match self.right {
            None => self.key,
            Some(node) => node.rightmost(),
        }
    }

    /// Childless nodes are never more numerous than nodes, and there is at
    /// least one node; the root key and the end keys of both flanks are
    /// all stored.
    proof fn lemma_tree_facts(self)
        ensures
            1 <= self.leaf_count() <= self.node_count(),
            self.depth_spec() <= self.node_count(),
            self.key_set().contains(self.root_key()),
            self.key_set().contains(self.leftmost()),
            self.key_set().contains(self.rightmost()),
        decreases self,
    {
        match self.left {
            None => {
            },
            Some(node) => {
                node.lemma_tree_facts();
            },
        }
        match self.right {
            None => {
            },
            Some(node) => {
                node.lemma_tree_facts();
            },
        }
    }

    /// Creates a tree of one node holding `key`.
    pub fn new(key: i32) -> (r: Self)
        ensures
            r@ == Set::<i32>::empty().insert(key),
            r.root_key() == key,
            r.node_count() == 1,
            r.left_link() is None,
            r.right_link() is None,
    {
        let r = BinaryTree { key, left: None, right: None };
        proof {
            assert(r@ =~= Set::<i32>::empty().insert(key));
        }
        r
    }

    /// Pushes a new node holding `key` in as the root's left child; the
    /// previous left subtree becomes the new node's left subtree.
    pub fn insert_left_tree(&mut self, key: i32)
        ensures
            final(self)@ == old(self)@.insert(key),
            final(self).root_key() == old(self).root_key(),
            final(self).node_count() == old(self).node_count() + 1,
    {
        if self.left.is_none() {
            let node = BinaryTree::new(key);
            self.left = Some(Box::new(node));
        } else {
            let mut node = BinaryTree::new(key);
            node.left = self.left.take();
            self.left = Some(Box::new(node));
        }
        proof {
            assert(link_count(final(self).left) == link_count(old(self).left) + 1);
            assert(link_keys(final(self).left) =~= link_keys(old(self).left).insert(key));
            assert(final(self)@ =~= old(self)@.insert(key));
        }
    }

    /// Pushes a new node holding `key` in as the root's right child; the
    /// previous right subtree becomes the new node's right subtree.
    pub fn insert_right_tree(&mut self, key: i32)
        ensures
            final(self)@ == old(self)@.insert(key),
            final(self).root_key() == old(self).root_key(),
            final(self).node_count() == old(self).node_count() + 1,
    {
        if self.right.is_none() {
            let node = BinaryTree::new(key);
            self.right = Some(Box::new(node));
        } else {
            let mut node = BinaryTree::new(key);
            node.right = self.right.take();
            self.right = Some(Box::new(node));
        }
        proof {
            assert(link_count(final(self).right) == link_count(old(self).right) + 1);
            assert(link_keys(final(self).right) =~= link_keys(old(self).right).insert(key));
            assert(final(self)@ =~= old(self)@.insert(key));
        }
    }

    /// Number of stored nodes.
    pub fn size(&self) -> (r: usize)
        requires
            self.node_count() <= usize::MAX,
        ensures
            r == self.node_count(),
    {
        self.calc_size(0)
    }

    /// Adds the number of nodes in this subtree to the running count
    /// `size`.
    pub fn calc_size(&self, size: usize) -> (r: usize)
        requires
            size + self.node_count() <= usize::MAX,
        ensures
            r == size + self.node_count(),
        decreases *self,
    {
        let mut size = size + 1;

        match &self.left {
            Some(node) => {
                size = node.calc_size(size);
            },
            None => {
            },
        }
        match &self.right {
            Some(node) => {
                size = node.calc_size(size);
            },
            None => {
            },
        }
        size
    }

    /// Length of the longest root-to-leaf chain.
    pub fn depth(&self) -> (r: usize)
        requires
            self.node_count() <= usize::MAX,
        ensures
            r == self.depth_spec(),
        decreases *self,
    {
        proof {
            self.lemma_tree_facts();
        }
        let mut left_depth: usize = 1;
        match &self.left {
            Some(left) => {
                proof {
                    left.lemma_tree_facts();
                }
                left_depth = left_depth + left.depth();
            },
            None => {
            },
        }

        let mut right_depth: usize = 1;
        match &self.right {
            Some(right) => {
                proof {
                    right.lemma_tree_facts();
                }
                right_depth = right_depth + right.depth();
            },
            None => {
            },
        }

        if left_depth > right_depth {
            left_depth
        } else {
            right_depth
        }
    }

    /// A structurally identical copy of this subtree.
    fn clone_tree(&self) -> (r: Self)
        ensures
            r == *self,
        decreases *self,
    {
        let left = match &self.left {
            None => None,
            Some(node) => Some(Box::new(node.clone_tree())),
        };
        let right = match &self.right {
            None => None,
            Some(node) => Some(Box::new(node.clone_tree())),
        };
        BinaryTree { key: self.key, left, right }
    }

    /// A copy of the left subtree, if any.
    pub fn get_left(&self) -> (r: Option<Box<BinaryTree>>)
        ensures
            r == self.left_link(),
        decreases *self,
    {
        match &self.left {
            None => None,
            Some(node) => Some(Box::new(node.clone_tree())),
        }
    }

    /// A copy of the right subtree, if any.
    pub fn get_right(&self) -> (r: Option<Box<BinaryTree>>)
        ensures
            r == self.right_link(),
        decreases *self,
    {
        match &self.right {
            None => None,
            Some(node) => Some(Box::new(node.clone_tree())),
        }
    }

    /// The key at the root.
    pub fn get_key(&self) -> (r: i32)
        ensures
            r == self.root_key(),
    {
        self.key
    }

    /// Replaces the key at the root, leaving both subtrees alone.
    pub fn set_key(&mut self, key: i32)
        ensures
            final(self).root_key() == key,
            final(self).left_link() == old(self).left_link(),
            final(self).right_link() == old(self).right_link(),
    {
        self.key = key;
    }

    /// The key of the leftmost node, which the tree stores.
    pub fn min(&self) -> (r: Option<&i32>)
        ensures
            match r {
                Some(k) => *k == self.leftmost() && self@.contains(*k),
                None => false,
            },
        decreases *self,
    {
        proof {
            self.lemma_tree_facts();
        }
        match &self.left {
            Some(node) => node.min(),
            None => Some(&self.key),
        }
    }

    /// The key of the rightmost node, which the tree stores.
    pub fn max(&self) -> (r: Option<&i32>)
        ensures
            match r {
                Some(k) => *k == self.rightmost() && self@.contains(*k),
                None => false,
            },
        decreases *self,
    {
        proof {
            self.lemma_tree_facts();
        }
        match &self.right {
            Some(node) => node.max(),
            None => Some(&self.key),
        }
    }

    /// Number of childless nodes.
    pub fn leaf_size(&self) -> (r: usize)
        requires
            self.node_count() <= usize::MAX,
        ensures
            r == self.leaf_count(),
        decreases *self,
    {
        proof {
            self.lemma_tree_facts();
        }
        if self.left.is_none() && self.right.is_none() {
            return 1;
        }

        let left_leaf = match &self.left {
            Some(left) => {
                proof {
                    left.lemma_tree_facts();
                }
                left.leaf_size()
            },
            None => 0,
        };
        let right_leaf = match &self.right {
            Some(right) => {
                proof {
                    right.lemma_tree_facts();
                }
                right.leaf_size()
            },
            None => 0,
        };
        left_leaf + right_leaf
    }

    /// Number of nodes with at least one child.
    pub fn none_leaf_size(&self) -> (r: usize)
        requires
            self.node_count() <= usize::MAX,
        ensures
            r == self.node_count() - self.leaf_count(),
    {
        proof {
            self.lemma_tree_facts();
        }
        self.size() - self.leaf_size()
    }

    /// Searches for `key` the way a search tree would: equal stops, a
    /// larger root turns left, a smaller root turns right.  A report of
    /// `true` always means the key is stored; on a tree that was not built
    /// in search order, a stored key may nevertheless be missed.
    pub fn contains(&self, key: &i32) -> (r: bool)
        ensures
            r ==> self@.contains(*key),
        decreases *self,
    {
        if self.key == *key {
            proof {
                self.lemma_tree_facts();
            }
            true
        } else if self.key < *key {
            match &self.right {
                Some(node) => {
                    let r = node.contains(key);
                    proof {
                        if node.key_set().contains(*key) {
                            assert(self@.contains(*key));
                        }
                    }
                    r
                },
                None => false,
            }
        } else {
            match &self.left {
                Some(node) => {
                    let r = node.contains(key);
                    proof {
                        if node.key_set().contains(*key) {
                            assert(self@.contains(*key));
                        }
                    }
                    r
                },
                None => false,
            }
        }
    }
}

} // verus!
