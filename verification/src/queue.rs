//! First-in first-out queue with a fixed capacity, backed by a `Vec`.
//! Values enter at index 0 of the vector and leave from its end, so the
//! view's last element is the front of the queue.

use vstd::prelude::*;

verus! {

/// A bounded queue of values of type `T`.  Its view is the sequence of
/// stored values, newest (rear) first.
#[derive(Debug)]
pub struct Queue<T> {
    cap: usize,
    data: Vec<T>,
}

impl<T> View for Queue<T> {
    type V = Seq<T>;

    closed spec fn view(&self) -> Seq<T> {
        self.data@
    }
}

impl<T> Queue<T> {
    /// The fixed number of values the queue can hold.
    pub closed spec fn capacity(self) -> nat {
        self.cap as nat
    }

    /// Creates an empty queue that can hold `size` values.
    pub fn new(size: usize) -> (r: Self)
        ensures
            r@ == Seq::<T>::empty(),
            r.capacity() == size,
    {
        Queue { cap: size, data: Vec::new() }
    }

    /// Number of stored values.
    pub fn len(&self) -> (r: usize)
        ensures
            r == self@.len(),
    {
        self.data.len()
    }

    /// True when nothing is stored.
    pub fn is_empty(&self) -> (r: bool)
        ensures
            r == (self@.len() == 0),
    {
        self.data.len() == 0
    }

    /// True when the queue holds `capacity()` values.
    pub fn is_full(&self) -> (r: bool)
        ensures
            r == (self@.len() == self.capacity()),
    {
        self.data.len() == self.cap
    }

    /// Adds `val` at the rear.  Fails, and changes nothing, exactly when
    /// the queue is already full.
    pub fn enqueue(&mut self, val: T) -> (r: Result<(), String>)
        requires
            old(self)@.len() <= old(self).capacity(),
        ensures
            final(self).capacity() == old(self).capacity(),
            match r {
                Ok(()) => old(self)@.len() < old(self).capacity() && final(self)@ == seq![val]
                    + old(self)@,
                Err(m) => old(self)@.len() == old(self).capacity() && final(self)@ == old(self)@
                    && m@ == "No space available"@,
            },
    {
        if self.data.len() == self.cap {
            return Err("No space available".to_owned());
        }
        self.data.insert(0, val);
        proof {
            assert(self@ =~= seq![val] + old(self)@);
        }
        Ok(())
    }

    /// Removes and returns the front value, or `None` when the queue is
    /// empty.
    pub fn dequeue(&mut self) -> (r: Option<T>)
        ensures
            final(self).capacity() == old(self).capacity(),
            match r {
                Some(v) => old(self)@.len() > 0 && v == old(self)@.last() && final(self)@ == old(
                    self,
                )@.drop_last(),
                None => old(self)@.len() == 0 && final(self)@ == old(self)@,
            },
    {
        if self.data.len() > 0 {
            let r = self.data.pop();
            proof {
                assert(self@ =~= old(self)@.drop_last());
            }
            r
        } else {
            None
        }
    }

    /// Discards every stored value; the capacity is kept.
    pub fn clear(&mut self)
        ensures
            final(self)@ == Seq::<T>::empty(),
            final(self).capacity() == old(self).capacity(),
    {
        self.data.clear();
    }

    /// Turns the queue into an iterator that consumes it rear-first.
    pub fn into_iter(self) -> (r: IntoIter<T>)
        ensures
            r@ == self@,
    {
        IntoIter { queue: self }
    }

    /// An iterator over borrowed values, rear-first.
    pub fn iter(&self) -> (r: Iter<'_, T>)
        ensures
            r@ == self@,
    {
        let mut refs: Vec<&T> = Vec::new();
        let mut i: usize = 0;
        while i < self.data.len()
            invariant
                i <= self.data@.len(),
                refs@.len() == i,
                forall|j: int| 0 <= j < i ==> *refs@[j] == self.data@[j],
            decreases self.data@.len() - i,
        {
            refs.push(&self.data[i]);
            i += 1;
        }
        let r = Iter { data: refs };
        proof {
            assert(r@ =~= self@);
        }
        r
    }
}

/// Consuming iterator for [`Queue`]: yields the stored values rear-first.
pub struct IntoIter<T> {
    queue: Queue<T>,
}

impl<T> View for IntoIter<T> {
    type V = Seq<T>;

    /// The values not yet yielded, rear (index 0) to front.
    closed spec fn view(&self) -> Seq<T> {
        self.queue@
    }
}

impl<T> IntoIter<T> {
    /// Yields the next value from the rear end, or `None` when exhausted.
    pub fn next(&mut self) -> (r: Option<T>)
        ensures
            match r {
                Some(v) => old(self)@.len() > 0 && v == old(self)@.first() && final(self)@ == old(
                    self,
                )@.drop_first(),
                None => old(self)@.len() == 0 && final(self)@ == old(self)@,
            },
    {
        if self.queue.data.len() != 0 {
            let r = Some(self.queue.data.remove(0));
            proof {
                assert(final(self)@ =~= old(self)@.drop_first());
            }
            r
        } else {
            None
        }
    }
}

/// Borrowing iterator for [`Queue`]: yields references rear-first.
pub struct Iter<'a, T> {
    data: Vec<&'a T>,
}

impl<'a, T> View for Iter<'a, T> {
    type V = Seq<T>;

    /// The values not yet yielded, rear (index 0) to front.
    closed spec fn view(&self) -> Seq<T> {
        Seq::new(self.data@.len(), |i: int| *self.data@[i])
    }
}

impl<'a, T> Iter<'a, T> {
    /// Yields a reference to the next value from the rear end, or `None`
    /// when exhausted.
    pub fn next(&mut self) -> (r: Option<&'a T>)
        ensures
            match r {
                Some(v) => old(self)@.len() > 0 && *v == old(self)@.first() && final(self)@ == old(
                    self,
                )@.drop_first(),
                None => old(self)@.len() == 0 && final(self)@ == old(self)@,
            },
    {
        if self.data.len() != 0 {
            let r = Some(self.data.remove(0));
            proof {
                assert(final(self)@ =~= old(self)@.drop_first());
            }
            r
        } else {
            None
        }
    }
}

} // verus!
