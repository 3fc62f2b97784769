//! Singly linked list with head insertion, so the view's first element is
//! the most recently pushed one.

use vstd::prelude::*;

verus! {

type Link<T> = Option<Box<Node<T>>>;

struct Node<T> {
    elem: T,
    next: Link<T>,
}

/// The values reachable from a link, nearest first.
spec fn link_view<T>(l: Link<T>) -> Seq<T>
    decreases l,
{
    match l {
        None => Seq::empty(),
        Some(node) => seq![node.elem] + link_view(node.next),
    }
}

/// Mutably borrows the nearest value of a link, if there is one.  Writing
/// through the borrow replaces that value and nothing else.
fn link_peek_mut<T>(l: &mut Link<T>) -> (r: Option<&mut T>)
    ensures
        match r {
            Some(v) => link_view(*old(l)).len() > 0 && *v == link_view(*old(l))[0] && link_view(
                *final(l),
            ) == link_view(*old(l)).update(0, *final(v)),
            None => link_view(*old(l)).len() == 0 && *final(l) == *old(l),
        },
    no_unwind
{
    match l {
        None => None,
        Some(node) => Some(&mut node.elem),
    }
}

/// The values reachable from a borrowed node, nearest first.
spec fn node_view<T>(n: Option<&Node<T>>) -> Seq<T> {
    match n {
        None => Seq::empty(),
        Some(node) => seq![node.elem] + link_view(node.next),
    }
}

/// A singly linked list.  Its view is the sequence of stored values from
/// the head (most recently pushed) to the tail.
pub struct List<T> {
    size: usize,
    head: Link<T>,
}

impl<T> View for List<T> {
    type V = Seq<T>;

    closed spec fn view(&self) -> Seq<T> {
        link_view(self.head)
    }
}

impl<T> List<T> {
    /// The stored node count always agrees with the reachable values.
    #[verifier::type_invariant]
    spec fn wf(self) -> bool {
        self.size == link_view(self.head).len()
    }

    /// Creates an empty list.
    pub fn new() -> (r: Self)
        ensures
            r@ == Seq::<T>::empty(),
    {
        List { size: 0, head: None }
    }

    /// True when nothing is stored.
    pub fn is_empty(&self) -> (r: bool)
        ensures
            r == (self@.len() == 0),
    {
        proof {
            use_type_invariant(&*self);
        }
        self.size == 0
    }

    /// Number of stored values.
    pub fn len(&self) -> (r: usize)
        ensures
            r == self@.len(),
    {
        proof {
            use_type_invariant(&*self);
        }
        self.size
    }

    /// Discards every stored value.
    pub fn clear(&mut self)
        ensures
            final(self)@ == Seq::<T>::empty(),
    {
        *self = List { size: 0, head: None };
    }

    /// Adds `elem` at the head.
    pub fn push(&mut self, elem: T)
        requires
            old(self)@.len() < usize::MAX,
        ensures
            final(self)@ == seq![elem] + old(self)@,
    {
        proof {
            use_type_invariant(&*self);
        }
        let mut tmp = List { size: 0, head: None };
        core::mem::swap(&mut tmp, self);
        let List { size, head } = tmp;
        let node = Box::new(Node { elem, next: head });
        *self = List { size: size + 1, head: Some(node) };
    }

    /// Removes and returns the head value, or `None` when the list is
    /// empty.
    pub fn pop(&mut self) -> (r: Option<T>)
        ensures
            match r {
                Some(v) => old(self)@.len() > 0 && v == old(self)@[0] && final(self)@ == old(
                    self,
                )@.drop_first(),
                None => old(self)@.len() == 0 && final(self)@ == old(self)@,
            },
    {
        proof {
            use_type_invariant(&*self);
        }
        let mut tmp = List { size: 0, head: None };
        core::mem::swap(&mut tmp, self);
        let List { size, head } = tmp;
        match head {
            None => {
                *self = List { size, head: None };
                None
            },
            Some(node) => {
                let boxed = *node;
                let Node { elem, next } = boxed;
                *self = List { size: size - 1, head: next };
                proof {
                    assert(final(self)@ =~= old(self)@.drop_first());
                }
                Some(elem)
            },
        }
    }

    /// Borrows the head value, or `None` when the list is empty.
    pub fn peek(&self) -> (r: Option<&T>)
        ensures
            match r {
                Some(v) => self@.len() > 0 && *v == self@[0],
                None => self@.len() == 0,
            },
    {
        match &self.head {
            None => None,
            Some(node) => Some(&node.elem),
        }
    }

    /// Mutably borrows the head value, or `None` when the list is empty.
    /// Writing through the borrow replaces the head value and nothing
    /// else.
    pub fn peek_mut(&mut self) -> (r: Option<&mut T>)
        ensures
            match r {
                Some(v) => old(self)@.len() > 0 && *v == old(self)@[0] && final(self)@ == old(
                    self,
                )@.update(0, *final(v)),
                None => old(self)@.len() == 0 && final(self)@ == old(self)@,
            },
    {
        proof {
            use_type_invariant(&*self);
        }
        link_peek_mut(&mut self.head)
    }

    /// Turns the list into an iterator that consumes it head-first.
    pub fn into_iter(self) -> (r: IntoIter<T>)
        ensures
            r@ == self@,
    {
        IntoIter { list: self }
    }

    /// An iterator over borrowed values, head-first.
    pub fn iter(&self) -> (r: Iter<'_, T>)
        ensures
            r@ == self@,
    {
        match &self.head {
            None => Iter { next: None },
            Some(node) => Iter { next: Some(node) },
        }
    }
}

/// Consuming iterator for [`List`]: yields the stored values head-first.
pub struct IntoIter<T> {
    list: List<T>,
}

impl<T> View for IntoIter<T> {
    type V = Seq<T>;

    /// The values not yet yielded, nearest first.
    closed spec fn view(&self) -> Seq<T> {
        self.list@
    }
}

impl<T> IntoIter<T> {
    /// Yields the next value from the head, or `None` when exhausted.
    pub fn next(&mut self) -> (r: Option<T>)
        ensures
            match r {
                Some(v) => old(self)@.len() > 0 && v == old(self)@[0] && final(self)@ == old(
                    self,
                )@.drop_first(),
                None => old(self)@.len() == 0 && final(self)@ == old(self)@,
            },
    {
        self.list.pop()
    }
}

/// Borrowing iterator for [`List`]: yields references head-first.
pub struct Iter<'a, T> {
    next: Option<&'a Node<T>>,
}

impl<'a, T> View for Iter<'a, T> {
    type V = Seq<T>;

    /// The values not yet yielded, nearest first.
    closed spec fn view(&self) -> Seq<T> {
        node_view(self.next)
    }
}

impl<'a, T> Iter<'a, T> {
    /// Yields a reference to the next value, or `None` when exhausted.
    pub fn next(&mut self) -> (r: Option<&'a T>)
        ensures
            match r {
                Some(v) => old(self)@.len() > 0 && *v == old(self)@[0] && final(self)@ == old(
                    self,
                )@.drop_first(),
                None => old(self)@.len() == 0 && final(self)@ == old(self)@,
            },
    {
        match self.next {
            None => None,
            Some(node) => {
                self.next = match &node.next {
                    None => None,
                    Some(b) => Some(&**b),
                };
                proof {
                    assert(final(self)@ =~= old(self)@.drop_first());
                }
                Some(&node.elem)
            },
        }
    }
}

} // verus!
