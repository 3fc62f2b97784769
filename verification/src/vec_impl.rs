//! Growable list over singly linked nodes, with positional insertion and
//! removal.  New values are appended at the tail, so the view keeps
//! insertion order.

use vstd::prelude::*;

verus! {

type Link<T> = Option<Box<Node<T>>>;

/// One node of the list: a value and the link to the next node.
#[derive(Debug)]
pub struct Node<T> {
    elem: T,
    next: Link<T>,
}

impl<T> Node<T> {
    fn new(elem: T) -> (r: Self)
        ensures
            r.elem == elem,
            r.next is None,
    {
        Node { elem, next: None }
    }
}

/// The values reachable from a link, nearest first.
spec fn link_view<T>(l: Link<T>) -> Seq<T>
    decreases l,
{
    match l {
        None => Seq::empty(),
        Some(node) => seq![node.elem] + link_view(node.next),
    }
}

/// The values reachable from a borrowed node, nearest first.
spec fn node_view<T>(n: Option<&Node<T>>) -> Seq<T> {
    match n {
        None => Seq::empty(),
        Some(node) => seq![node.elem] + link_view(node.next),
    }
}

/// Appends `val` at the far end of the chain.
fn link_push<T>(l: &mut Link<T>, val: T)
    ensures
        link_view(*final(l)) == link_view(*old(l)).push(val),
    decreases link_view(*old(l)).len(),
{
    match l {
        None => {
            *l = Some(Box::new(Node::new(val)));
            proof {
                assert(link_view(*final(l)) =~= link_view(*old(l)).push(val));
            }
        },
        Some(node) => {
            link_push(&mut node.next, val);
            proof {
                assert(link_view(*final(l)) =~= link_view(*old(l)).push(val));
            }
        },
    }
}

/// Splices the whole chain `tail` onto the far end of the chain.
fn link_append<T>(l: &mut Link<T>, tail: Link<T>)
    ensures
        link_view(*final(l)) == link_view(*old(l)) + link_view(tail),
    decreases link_view(*old(l)).len(),
{
    match l {
        None => {
            *l = tail;
            proof {
                assert(link_view(*final(l)) =~= link_view(*old(l)) + link_view(tail));
            }
        },
        Some(node) => {
            link_append(&mut node.next, tail);
            proof {
                assert(link_view(*final(l)) =~= link_view(*old(l)) + link_view(tail));
            }
        },
    }
}

/// Inserts `elem` so that it becomes the value at position `index`.
fn link_insert<T>(l: &mut Link<T>, index: usize, elem: T)
    requires
        index <= link_view(*old(l)).len(),
    ensures
        link_view(*final(l)) == link_view(*old(l)).insert(index as int, elem),
    decreases link_view(*old(l)).len(),
{
    if index == 0 {
        let rest = l.take();
        let mut node = Node::new(elem);
        node.next = rest;
        *l = Some(Box::new(node));
        proof {
            assert(link_view(*final(l)) =~= link_view(*old(l)).insert(index as int, elem));
        }
    } else {
        match l {
            None => {
                proof {
                    assert(false);
                }
            },
            Some(node) => {
                link_insert(&mut node.next, index - 1, elem);
                proof {
                    assert(link_view(*final(l)) =~= link_view(*old(l)).insert(index as int, elem));
                }
            },
        }
    }
}

/// Unlinks and returns the value at position `index`.
fn link_remove<T>(l: &mut Link<T>, index: usize) -> (r: T)
    requires
        index < link_view(*old(l)).len(),
    ensures
        r == link_view(*old(l))[index as int],
        link_view(*final(l)) == link_view(*old(l)).remove(index as int),
    decreases link_view(*old(l)).len(),
{
    if index == 0 {
        match l.take() {
            None => vstd::pervasive::unreached(),
            Some(node) => {
                let boxed = *node;
                let Node { elem, next } = boxed;
                *l = next;
                proof {
                    assert(link_view(*final(l)) =~= link_view(*old(l)).remove(index as int));
                }
                elem
            },
        }
    } else {
        match l {
            None => vstd::pervasive::unreached(),
            Some(node) => {
                let r = link_remove(&mut node.next, index - 1);
                proof {
                    assert(link_view(*final(l)) =~= link_view(*old(l)).remove(index as int));
                }
                r
            },
        }
    }
}

/// A growable list of values of type `T`.  Its view is the sequence of
/// stored values in insertion order.
#[derive(Debug)]
pub struct LVec<T> {
    size: usize,
    head: Link<T>,
}

impl<T> View for LVec<T> {
    type V = Seq<T>;

    closed spec fn view(&self) -> Seq<T> {
        link_view(self.head)
    }
}

impl<T> LVec<T> {
    /// The stored node count always agrees with the reachable values.
    #[verifier::type_invariant]
    spec fn wf(self) -> bool {
        self.size == link_view(self.head).len()
    }

    /// Creates an empty list.
    pub fn new() -> (r: Self)
        ensures
            r@ == Seq::<T>::empty(),
    {
        LVec { size: 0, head: None }
    }

    /// True when nothing is stored.
    pub fn is_empty(&self) -> (r: bool)
        ensures
            r == (self@.len() == 0),
    {
        proof {
            use_type_invariant(&*self);
        }
        self.size == 0
    }

    /// Number of stored values.
    pub fn len(&self) -> (r: usize)
        ensures
            r == self@.len(),
    {
        proof {
            use_type_invariant(&*self);
        }
        self.size
    }

    /// Discards every stored value.
    pub fn clear(&mut self)
        ensures
            final(self)@ == Seq::<T>::empty(),
    {
        *self = LVec { size: 0, head: None };
    }

    /// Appends `val` at the tail.
    pub fn push(&mut self, val: T)
        requires
            old(self)@.len() < usize::MAX,
        ensures
            final(self)@ == old(self)@.push(val),
    {
        proof {
            use_type_invariant(&*self);
        }
        let mut tmp = LVec { size: 0, head: None };
        core::mem::swap(&mut tmp, self);
        let LVec { size, mut head } = tmp;
        link_push(&mut head, val);
        *self = LVec { size: size + 1, head };
    }

    /// Moves every value of `other` to the tail of `self`, leaving `other`
    /// empty.
    pub fn append(&mut self, other: &mut Self)
        requires
            old(self)@.len() + old(other)@.len() <= usize::MAX,
        ensures
            final(self)@ == old(self)@ + old(other)@,
            final(other)@ == Seq::<T>::empty(),
    {
        proof {
            use_type_invariant(&*self);
            use_type_invariant(&*other);
        }
        let mut tmp = LVec { size: 0, head: None };
        core::mem::swap(&mut tmp, self);
        let LVec { size, mut head } = tmp;
        let mut tmp_other = LVec { size: 0, head: None };
        core::mem::swap(&mut tmp_other, other);
        let LVec { size: osize, head: ohead } = tmp_other;
        link_append(&mut head, ohead);
        *self = LVec { size: size + osize, head };
    }

    /// Inserts `elem` at position `index`; an index past the tail is
    /// clamped so the value is appended.
    pub fn insert(&mut self, index: usize, elem: T)
        requires
            old(self)@.len() < usize::MAX,
        ensures
            final(self)@ == old(self)@.insert(
                if index <= old(self)@.len() {
                    index as int
                } else {
                    old(self)@.len() as int
                },
                elem,
            ),
    {
        proof {
            use_type_invariant(&*self);
        }
        let mut tmp = LVec { size: 0, head: None };
        core::mem::swap(&mut tmp, self);
        let LVec { size, mut head } = tmp;
        let at = if index >= size {
            size
        } else {
            index
        };
        link_insert(&mut head, at, elem);
        *self = LVec { size: size + 1, head };
    }

    /// Removes and returns the value at position `index`, or `None` when
    /// `index` is past the tail.
    pub fn remove(&mut self, index: usize) -> (r: Option<T>)
        ensures
            match r {
                Some(v) => index < old(self)@.len() && v == old(self)@[index as int]
                    && final(self)@ == old(self)@.remove(index as int),
                None => index >= old(self)@.len() && final(self)@ == old(self)@,
            },
    {
        proof {
            use_type_invariant(&*self);
        }
        if index >= self.size {
            return None;
        }
        let mut tmp = LVec { size: 0, head: None };
        core::mem::swap(&mut tmp, self);
        let LVec { size, mut head } = tmp;
        let v = link_remove(&mut head, index);
        *self = LVec { size: size - 1, head };
        Some(v)
    }

    /// Removes and returns the tail value, or `None` when the list is
    /// empty.
    pub fn pop(&mut self) -> (r: Option<T>)
        ensures
            match r {
                Some(v) => old(self)@.len() > 0 && v == old(self)@.last() && final(self)@ == old(
                    self,
                )@.drop_last(),
                None => old(self)@.len() == 0 && final(self)@ == old(self)@,
            },
    {
        proof {
            use_type_invariant(&*self);
        }
        if self.size < 1 {
            None
        } else {
            let i = self.size - 1;
            let r = self.remove(i);
            proof {
                assert(old(self)@.remove(old(self)@.len() - 1) =~= old(self)@.drop_last());
            }
            r
        }
    }

    /// Turns the list into an iterator that consumes it front-first.
    pub fn into_iter(self) -> (r: IntoIter<T>)
        ensures
            r@ == self@,
    {
        IntoIter { list: self }
    }

    /// An iterator over borrowed values, front-first.
    pub fn iter(&self) -> (r: Iter<'_, T>)
        ensures
            r@ == self@,
    {
        match &self.head {
            None => Iter { item: None },
            Some(node) => Iter { item: Some(node) },
        }
    }
}

/// Consuming iterator for [`LVec`]: yields the stored values front-first.
pub struct IntoIter<T> {
    list: LVec<T>,
}

impl<T> View for IntoIter<T> {
    type V = Seq<T>;

    /// The values not yet yielded, in insertion order.
    closed spec fn view(&self) -> Seq<T> {
        self.list@
    }
}

impl<T> IntoIter<T> {
    /// Yields the next value from the front, or `None` when exhausted.
    pub fn next(&mut self) -> (r: Option<T>)
        ensures
            match r {
                Some(v) => old(self)@.len() > 0 && v == old(self)@[0] && final(self)@ == old(
                    self,
                )@.drop_first(),
                None => old(self)@.len() == 0 && final(self)@ == old(self)@,
            },
    {
        let r = self.list.remove(0);
        proof {
            if old(self)@.len() > 0 {
                assert(old(self)@.remove(0) =~= old(self)@.drop_first());
            }
        }
        r
    }
}

/// Borrowing iterator for [`LVec`]: yields references front-first.
pub struct Iter<'a, T> {
    item: Option<&'a Node<T>>,
}

impl<'a, T> View for Iter<'a, T> {
    type V = Seq<T>;

    /// The values not yet yielded, in insertion order.
    closed spec fn view(&self) -> Seq<T> {
        node_view(self.item)
    }
}

impl<'a, T> Iter<'a, T> {
    /// Yields a reference to the next value, or `None` when exhausted.
    pub fn next(&mut self) -> (r: Option<&'a T>)
        ensures
            match r {
                Some(v) => old(self)@.len() > 0 && *v == old(self)@[0] && final(self)@ == old(
                    self,
                )@.drop_first(),
                None => old(self)@.len() == 0 && final(self)@ == old(self)@,
            },
    {
        match self.item {
            None => None,
            Some(node) => {
                self.item = match &node.next {
                    None => None,
                    Some(b) => Some(&**b),
                };
                proof {
                    assert(final(self)@ =~= old(self)@.drop_first());
                }
                Some(&node.elem)
            },
        }
    }
}

} // verus!
