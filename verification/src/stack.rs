//! Last-in first-out stack backed by a `Vec`: the end of the vector is the
//! top of the stack.

use vstd::prelude::*;

verus! {

/// A stack of values of type `T`.  Its view is the sequence of stored
/// values from bottom (index 0) to top.
#[derive(Debug)]
pub struct Stack<T> {
    data: Vec<T>,
}

impl<T> View for Stack<T> {
    type V = Seq<T>;

    closed spec fn view(&self) -> Seq<T> {
        self.data@
    }
}

impl<T> Stack<T> {
    /// Creates an empty stack.
    pub fn new() -> (r: Self)
        ensures
            r@ == Seq::<T>::empty(),
    {
        Stack { data: Vec::new() }
    }

    /// True when nothing is stored.
    pub fn is_empty(&self) -> (r: bool)
        ensures
            r == (self@.len() == 0),
    {
        self.data.len() == 0
    }

    /// Number of stored values.
    pub fn len(&self) -> (r: usize)
        ensures
            r == self@.len(),
    {
        self.data.len()
    }

    /// Discards every stored value.
    pub fn clear(&mut self)
        ensures
            final(self)@ == Seq::<T>::empty(),
    {
        self.data.clear();
    }

    /// Places `val` on top of the stack.
    pub fn push(&mut self, val: T)
        ensures
            final(self)@ == old(self)@.push(val),
    {
        self.data.push(val);
    }

    /// Removes and returns the top value, or `None` when the stack is
    /// empty.
    pub fn pop(&mut self) -> (r: Option<T>)
        ensures
            match r {
                Some(v) => old(self)@.len() > 0 && v == old(self)@.last() && final(self)@ == old(
                    self,
                )@.drop_last(),
                None => old(self)@.len() == 0 && final(self)@ == old(self)@,
            },
    {
        let r = self.data.pop();
        proof {
            if old(self)@.len() > 0 {
                assert(self@ =~= old(self)@.drop_last());
            }
        }
        r
    }

    /// Borrows the top value, or `None` when the stack is empty.
    pub fn peek(&self) -> (r: Option<&T>)
        ensures
            match r {
                Some(v) => self@.len() > 0 && *v == self@.last(),
                None => self@.len() == 0,
            },
    {
        if self.data.len() == 0 {
            None
        } else {
            Some(&self.data[self.data.len() - 1])
        }
    }

    /// Mutably borrows the top value, or `None` when the stack is empty.
    /// Writing through the borrow replaces the top value and nothing else.
    pub fn peek_mut(&mut self) -> (r: Option<&mut T>)
        ensures
            match r {
                Some(v) => old(self)@.len() > 0 && *v == old(self)@.last() && final(self)@ == old(
                    self,
                )@.update(old(self)@.len() - 1, *final(v)),
                None => old(self)@.len() == 0 && *final(self) == *old(self),
            },
    {
        if self.data.len() == 0 {
            None
        } else {
            let i = self.data.len() - 1;
            Some(&mut self.data[i])
        }
    }

    /// Turns the stack into an iterator that consumes it top-first.
    pub fn into_iter(self) -> (r: IntoIter<T>)
        ensures
            r@ == self@,
    {
        IntoIter { stack: self }
    }

    /// An iterator over borrowed values, top-first.
    pub fn iter(&self) -> (r: Iter<'_, T>)
        ensures
            r@ == self@,
    {
        let mut refs: Vec<&T> = Vec::new();
        let mut i: usize = 0;
        while i < self.data.len()
            invariant
                i <= self.data@.len(),
                refs@.len() == i,
                forall|j: int| 0 <= j < i ==> *refs@[j] == self.data@[j],
            decreases self.data@.len() - i,
        {
            refs.push(&self.data[i]);
            i += 1;
        }
        let r = Iter { data: refs };
        proof {
            assert(r@ =~= self@);
        }
        r
    }
}

/// Consuming iterator for [`Stack`]: yields the stored values top-first.
pub struct IntoIter<T> {
    stack: Stack<T>,
}

impl<T> View for IntoIter<T> {
    type V = Seq<T>;

    /// The values not yet yielded, bottom to top.
    closed spec fn view(&self) -> Seq<T> {
        self.stack@
    }
}

impl<T> IntoIter<T> {
    /// Yields the next value from the top, or `None` when exhausted.
    pub fn next(&mut self) -> (r: Option<T>)
        ensures
            match r {
                Some(v) => old(self)@.len() > 0 && v == old(self)@.last() && final(self)@ == old(
                    self,
                )@.drop_last(),
                None => old(self)@.len() == 0 && final(self)@ == old(self)@,
            },
    {
        self.stack.pop()
    }
}

/// Borrowing iterator for [`Stack`]: yields references top-first.
pub struct Iter<'a, T> {
    data: Vec<&'a T>,
}

impl<'a, T> View for Iter<'a, T> {
    type V = Seq<T>;

    /// The values not yet yielded, bottom to top.
    closed spec fn view(&self) -> Seq<T> {
        Seq::new(self.data@.len(), |i: int| *self.data@[i])
    }
}

impl<'a, T> Iter<'a, T> {
    /// Yields a reference to the next value from the top, or `None` when
    /// exhausted.
    pub fn next(&mut self) -> (r: Option<&'a T>)
        ensures
            match r {
                Some(v) => old(self)@.len() > 0 && *v == old(self)@.last() && final(self)@ == old(
                    self,
                )@.drop_last(),
                None => old(self)@.len() == 0 && final(self)@ == old(self)@,
            },
    {
        let r = self.data.pop();
        proof {
            if old(self)@.len() > 0 {
                assert(final(self)@ =~= old(self)@.drop_last());
            } else {
                assert(final(self)@ =~= old(self)@);
            }
        }
        r
    }
}

} // verus!
