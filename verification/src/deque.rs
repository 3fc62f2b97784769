//! Double-ended queue with a fixed capacity, backed by a `Vec`.  The end of
//! the vector is the front of the deque and index 0 is its rear.

use vstd::prelude::*;

verus! {

/// A bounded deque of values of type `T`.  Its view is the sequence of
/// stored values from rear (index 0) to front.
#[derive(Debug)]
pub struct Deque<T> {
    cap: usize,
    data: Vec<T>,
}

impl<T> View for Deque<T> {
    type V = Seq<T>;

    closed spec fn view(&self) -> Seq<T> {
        self.data@
    }
}

impl<T> Deque<T> {
    /// The fixed number of values the deque can hold.
    pub closed spec fn capacity(self) -> nat {
        self.cap as nat
    }

    /// Creates an empty deque that can hold `cap` values.
    pub fn new(cap: usize) -> (r: Self)
        ensures
            r@ == Seq::<T>::empty(),
            r.capacity() == cap,
    {
        Deque { cap, data: Vec::new() }
    }

    /// Number of stored values.
    pub fn len(&self) -> (r: usize)
        ensures
            r == self@.len(),
    {
        self.data.len()
    }

    /// True when nothing is stored.
    pub fn is_empty(&self) -> (r: bool)
        ensures
            r == (self@.len() == 0),
    {
        self.data.len() == 0
    }

    /// True when the deque holds `capacity()` values.
    pub fn is_full(&self) -> (r: bool)
        ensures
            r == (self@.len() == self.capacity()),
    {
        self.data.len() == self.cap
    }

    /// Discards every stored value; the capacity is kept.
    pub fn clear(&mut self)
        ensures
            final(self)@ == Seq::<T>::empty(),
            final(self).capacity() == old(self).capacity(),
    {
        self.data.clear();
    }

    /// Adds `val` at the front.  Fails, and changes nothing, exactly when
    /// the deque is already full.
    pub fn add_front(&mut self, val: T) -> (r: Result<(), String>)
        requires
            old(self)@.len() <= old(self).capacity(),
        ensures
            final(self).capacity() == old(self).capacity(),
            match r {
                Ok(()) => old(self)@.len() < old(self).capacity() && final(self)@ == old(
                    self,
                )@.push(val),
                Err(m) => old(self)@.len() == old(self).capacity() && final(self)@ == old(self)@
                    && m@ == "No space available"@,
            },
    {
        if self.data.len() == self.cap {
            return Err("No space available".to_owned());
        }
        self.data.push(val);
        Ok(())
    }

    /// Adds `val` at the rear.  Fails, and changes nothing, exactly when
    /// the deque is already full.
    pub fn add_rear(&mut self, val: T) -> (r: Result<(), String>)
        requires
            old(self)@.len() <= old(self).capacity(),
        ensures
            final(self).capacity() == old(self).capacity(),
            match r {
                Ok(()) => old(self)@.len() < old(self).capacity() && final(self)@ == seq![val]
                    + old(self)@,
                Err(m) => old(self)@.len() == old(self).capacity() && final(self)@ == old(self)@
                    && m@ == "No space available"@,
            },
    {
        if self.data.len() == self.cap {
            return Err("No space available".to_owned());
        }
        self.data.insert(0, val);
        proof {
            assert(self@ =~= seq![val] + old(self)@);
        }
        Ok(())
    }

    /// Removes and returns the front value, or `None` when the deque is
    /// empty.
    pub fn remove_front(&mut self) -> (r: Option<T>)
        ensures
            final(self).capacity() == old(self).capacity(),
            match r {
                Some(v) => old(self)@.len() > 0 && v == old(self)@.last() && final(self)@ == old(
                    self,
                )@.drop_last(),
                None => old(self)@.len() == 0 && final(self)@ == old(self)@,
            },
    {
        if self.data.len() > 0 {
            let r = self.data.pop();
            proof {
                assert(self@ =~= old(self)@.drop_last());
            }
            r
        } else {
            None
        }
    }

    /// Removes and returns the rear value, or `None` when the deque is
    /// empty.
    pub fn remove_rear(&mut self) -> (r: Option<T>)
        ensures
            final(self).capacity() == old(self).capacity(),
            match r {
                Some(v) => old(self)@.len() > 0 && v == old(self)@.first() && final(self)@ == old(
                    self,
                )@.drop_first(),
                None => old(self)@.len() == 0 && final(self)@ == old(self)@,
            },
    {
        if self.data.len() > 0 {
            let r = Some(self.data.remove(0));
            proof {
                assert(self@ =~= old(self)@.drop_first());
            }
            r
        } else {
            None
        }
    }

    /// Turns the deque into an iterator that consumes it rear-first.
    pub fn into_iter(self) -> (r: IntoIter<T>)
        ensures
            r@ == self@,
    {
        IntoIter { deque: self }
    }

    /// An iterator over borrowed values, rear-first.
    pub fn iter(&self) -> (r: Iter<'_, T>)
        ensures
            r@ == self@,
    {
        let mut refs: Vec<&T> = Vec::new();
        let mut i: usize = 0;
        while i < self.data.len()
            invariant
                i <= self.data@.len(),
                refs@.len() == i,
                forall|j: int| 0 <= j < i ==> *refs@[j] == self.data@[j],
            decreases self.data@.len() - i,
        {
            refs.push(&self.data[i]);
            i += 1;
        }
        let r = Iter { data: refs };
        proof {
            assert(r@ =~= self@);
        }
        r
    }
}

/// Consuming iterator for [`Deque`]: yields the stored values rear-first.
pub struct IntoIter<T> {
    deque: Deque<T>,
}

impl<T> View for IntoIter<T> {
    type V = Seq<T>;

    /// The values not yet yielded, rear (index 0) to front.
    closed spec fn view(&self) -> Seq<T> {
        self.deque@
    }
}

impl<T> IntoIter<T> {
    /// Yields the next value from the rear end, or `None` when exhausted.
    pub fn next(&mut self) -> (r: Option<T>)
        ensures
            match r {
                Some(v) => old(self)@.len() > 0 && v == old(self)@.first() && final(self)@ == old(
                    self,
                )@.drop_first(),
                None => old(self)@.len() == 0 && final(self)@ == old(self)@,
            },
    {
        if self.deque.data.len() != 0 {
            let r = Some(self.deque.data.remove(0));
            proof {
                assert(final(self)@ =~= old(self)@.drop_first());
            }
            r
        } else {
            None
        }
    }
}

/// Borrowing iterator for [`Deque`]: yields references rear-first.
pub struct Iter<'a, T> {
    data: Vec<&'a T>,
}

impl<'a, T> View for Iter<'a, T> {
    type V = Seq<T>;

    /// The values not yet yielded, rear (index 0) to front.
    closed spec fn view(&self) -> Seq<T> {
        Seq::new(self.data@.len(), |i: int| *self.data@[i])
    }
}

impl<'a, T> Iter<'a, T> {
    /// Yields a reference to the next value from the rear end, or `None`
    /// when exhausted.
    pub fn next(&mut self) -> (r: Option<&'a T>)
        ensures
            match r {
                Some(v) => old(self)@.len() > 0 && *v == old(self)@.first() && final(self)@ == old(
                    self,
                )@.drop_first(),
                None => old(self)@.len() == 0 && final(self)@ == old(self)@,
            },
    {
        if self.data.len() != 0 {
            let r = Some(self.data.remove(0));
            proof {
                assert(final(self)@ =~= old(self)@.drop_first());
            }
            r
        } else {
            None
        }
    }
}

} // verus!
