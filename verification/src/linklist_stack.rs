//! Last-in first-out stack over a singly linked list: pushes and pops both
//! happen at the head.

use vstd::prelude::*;

verus! {

type Link<T> = Option<Box<Node<T>>>;

/// One node of the stack: a value and the link to the node below it.
#[derive(Debug)]
pub struct Node<T> {
    data: T,
    next: Link<T>,
}

impl<T> View for Node<T> {
    type V = Seq<T>;

    /// The values reachable from this node, its own first.
    closed spec fn view(&self) -> Seq<T> {
        seq![self.data] + link_view(self.next)
    }
}

impl<T> Node<T> {
    /// A detached node holding `data`.
    pub fn new(data: T) -> (r: Self)
        ensures
            r@ == seq![data],
    {
        let r = Node { data, next: None };
        proof {
            assert(r@ =~= seq![data]);
        }
        r
    }
}

/// The values reachable from a link, top first.
spec fn link_view<T>(l: Link<T>) -> Seq<T>
    decreases l,
{
    match l {
        None => Seq::empty(),
        Some(node) => seq![node.data] + link_view(node.next),
    }
}

/// The values reachable from a borrowed node, top first.
spec fn node_view<T>(n: Option<&Node<T>>) -> Seq<T> {
    match n {
        None => Seq::empty(),
        Some(node) => seq![node.data] + link_view(node.next),
    }
}

/// Mutably borrows the top value of a link, if there is one.  Writing
/// through the borrow replaces that value and nothing else.
fn link_peek_mut<T>(l: &mut Link<T>) -> (r: Option<&mut T>)
    ensures
        match r {
            Some(v) => link_view(*old(l)).len() > 0 && *v == link_view(*old(l))[0] && link_view(
                *final(l),
            ) == link_view(*old(l)).update(0, *final(v)),
            None => link_view(*old(l)).len() == 0 && *final(l) == *old(l),
        },
    no_unwind
{
    match l {
        None => None,
        Some(node) => Some(&mut node.data),
    }
}

/// A linked stack.  Its view is the sequence of stored values from the top
/// (most recently pushed) down.
#[derive(Debug)]
pub struct LStack<T> {
    size: usize,
    top: Link<T>,
}

impl<T> View for LStack<T> {
    type V = Seq<T>;

    closed spec fn view(&self) -> Seq<T> {
        link_view(self.top)
    }
}

impl<T> LStack<T> {
    /// The stored node count always agrees with the reachable values.
    #[verifier::type_invariant]
    spec fn wf(self) -> bool {
        self.size == link_view(self.top).len()
    }

    /// Creates an empty stack.
    pub fn new() -> (r: Self)
        ensures
            r@ == Seq::<T>::empty(),
    {
        LStack { size: 0, top: None }
    }

    /// True when nothing is stored.
    pub fn is_empty(&self) -> (r: bool)
        ensures
            r == (self@.len() == 0),
    {
        proof {
            use_type_invariant(&*self);
        }
        self.size == 0
    }

    /// Number of stored values.
    pub fn len(&self) -> (r: usize)
        ensures
            r == self@.len(),
    {
        proof {
            use_type_invariant(&*self);
        }
        self.size
    }

    /// Discards every stored value.
    pub fn clear(&mut self)
        ensures
            final(self)@ == Seq::<T>::empty(),
    {
        *self = LStack { size: 0, top: None };
    }

    /// Places `val` on top of the stack.
    pub fn push(&mut self, val: T)
        requires
            old(self)@.len() < usize::MAX,
        ensures
            final(self)@ == seq![val] + old(self)@,
    {
        proof {
            use_type_invariant(&*self);
        }
        let mut tmp = LStack { size: 0, top: None };
        core::mem::swap(&mut tmp, self);
        let LStack { size, top } = tmp;
        let mut node = Node::new(val);
        node.next = top;
        *self = LStack { size: size + 1, top: Some(Box::new(node)) };
    }

    /// Removes and returns the top value, or `None` when the stack is
    /// empty.
    pub fn pop(&mut self) -> (r: Option<T>)
        ensures
            match r {
                Some(v) => old(self)@.len() > 0 && v == old(self)@[0] && final(self)@ == old(
                    self,
                )@.drop_first(),
                None => old(self)@.len() == 0 && final(self)@ == old(self)@,
            },
    {
        proof {
            use_type_invariant(&*self);
        }
        let mut tmp = LStack { size: 0, top: None };
        core::mem::swap(&mut tmp, self);
        let LStack { size, top } = tmp;
        match top {
            None => {
                *self = LStack { size, top: None };
                None
            },
            Some(node) => {
                let boxed = *node;
                let Node { data, next } = boxed;
                *self = LStack { size: size - 1, top: next };
                proof {
                    assert(final(self)@ =~= old(self)@.drop_first());
                }
                Some(data)
            },
        }
    }

    /// Borrows the top value, or `None` when the stack is empty.
    pub fn peek(&self) -> (r: Option<&T>)
        ensures
            match r {
                Some(v) => self@.len() > 0 && *v == self@[0],
                None => self@.len() == 0,
            },
    {
        match &self.top {
            None => None,
            Some(node) => Some(&node.data),
        }
    }

    /// Mutably borrows the top value, or `None` when the stack is empty.
    /// Writing through the borrow replaces the top value and nothing else.
    pub fn peek_mut(&mut self) -> (r: Option<&mut T>)
        ensures
            match r {
                Some(v) => old(self)@.len() > 0 && *v == old(self)@[0] && final(self)@ == old(
                    self,
                )@.update(0, *final(v)),
                None => old(self)@.len() == 0 && final(self)@ == old(self)@,
            },
    {
        proof {
            use_type_invariant(&*self);
        }
        link_peek_mut(&mut self.top)
    }

    /// Turns the stack into an iterator that consumes it top-first.
    pub fn into_iter(self) -> (r: IntoIter<T>)
        ensures
            r@ == self@,
    {
        IntoIter { stack: self }
    }

    /// An iterator over borrowed values, top-first.
    pub fn iter(&self) -> (r: Iter<'_, T>)
        ensures
            r@ == self@,
    {
        match &self.top {
            None => Iter { next: None },
            Some(node) => Iter { next: Some(node) },
        }
    }
}

/// Consuming iterator for [`LStack`]: yields the stored values top-first.
pub struct IntoIter<T> {
    stack: LStack<T>,
}

impl<T> View for IntoIter<T> {
    type V = Seq<T>;

    /// The values not yet yielded, top first.
    closed spec fn view(&self) -> Seq<T> {
        self.stack@
    }
}

impl<T> IntoIter<T> {
    /// Yields the next value from the top, or `None` when exhausted.
    pub fn next(&mut self) -> (r: Option<T>)
        ensures
            match r {
                Some(v) => old(self)@.len() > 0 && v == old(self)@[0] && final(self)@ == old(
                    self,
                )@.drop_first(),
                None => old(self)@.len() == 0 && final(self)@ == old(self)@,
            },
    {
        self.stack.pop()
    }
}

/// Borrowing iterator for [`LStack`]: yields references top-first.
pub struct Iter<'a, T> {
    next: Option<&'a Node<T>>,
}

impl<'a, T> View for Iter<'a, T> {
    type V = Seq<T>;

    /// The values not yet yielded, top first.
    closed spec fn view(&self) -> Seq<T> {
        node_view(self.next)
    }
}

impl<'a, T> Iter<'a, T> {
    /// Yields a reference to the next value, or `None` when exhausted.
    pub fn next(&mut self) -> (r: Option<&'a T>)
        ensures
            match r {
                Some(v) => old(self)@.len() > 0 && *v == old(self)@[0] && final(self)@ == old(
                    self,
                )@.drop_first(),
                None => old(self)@.len() == 0 && final(self)@ == old(self)@,
            },
    {
        match self.next {
            None => None,
            Some(node) => {
                self.next = match &node.next {
                    None => None,
                    Some(b) => Some(&**b),
                };
                proof {
                    assert(final(self)@ =~= old(self)@.drop_first());
                }
                Some(&node.data)
            },
        }
    }
}

} // verus!
