//! Fixed-capacity hash table with open addressing and linear probing.
//!
//! The table owns two parallel arrays sized to a capacity chosen at
//! construction and never resized: `slot` holds the key stored at each index
//! (`0` is the reserved sentinel for an empty slot, so keys must be non-zero)
//! and `data` holds the value co-located with each slot.  Collisions are
//! resolved by linear probing: from `hash(key) = key % capacity` the probe
//! sequence `(i + 1) % capacity` is followed, for at most `capacity` steps.
//!
//! Probing policy: every lookup (`get`, `get_mut`, `get_pos`, `contains`,
//! `remove`, and the overwrite check of `insert`) follows the full probe
//! cycle, up to `capacity` steps, and does not stop early at an empty slot.
//! Removals leave gaps in probe chains, and a lookup that stopped at the
//! first empty slot could miss a key inserted past a slot that has since
//! been emptied.  The bounded full scan is the one policy that keeps every
//! operation correct without tombstones, and it is applied uniformly.

use vstd::prelude::*;
use vstd::seq_lib::*;
use vstd::arithmetic::div_mod::*;

verus! {

/// The two failure conditions of the table.  Both leave the table unchanged.
#[derive(Debug, Clone, Copy, PartialEq, Eq, Structural)]
pub enum TableError {
    /// The key was the reserved empty sentinel `0`.
    InvalidKey,
    /// No free slot is reachable within one full probe cycle.
    TableFull,
}

/// An open-addressing hash table from non-zero `usize` keys to values `V`,
/// with a fixed capacity chosen at construction.
#[derive(Debug, Clone)]
pub struct HashMap<V> {
    cap: usize,
    slot: Vec<usize>,
    data: Vec<Option<V>>,
}

/// The slot predicate used throughout the model: a slot is occupied
/// exactly when it holds a non-zero key.
pub open spec fn occupied_key(k: usize) -> bool {
    k != 0
}

impl<V> View for HashMap<V> {
    type V = Map<usize, V>;

    /// The table abstracts to the finite map from each stored key to the
    /// value co-located with it.
    closed spec fn view(&self) -> Map<usize, V> {
        Map::new(
            |k: usize| k != 0 && self.slot@.contains(k),
            |k: usize| self.data@[self.slot@.index_of(k)]->Some_0,
        )
    }
}

impl<V> HashMap<V> {
    /// Number of slots, fixed at construction.
    pub closed spec fn capacity(self) -> nat {
        self.cap as nat
    }

    /// The key-marker array: `slots()[i]` is the key stored at index `i`,
    /// or `0` if that slot is empty.
    pub closed spec fn slots(self) -> Seq<usize> {
        self.slot@
    }

    /// Internal consistency: both arrays have length `capacity()`, a slot
    /// holds a value exactly when it holds a key, and keys are unique.
    pub closed spec fn wf(self) -> bool {
        &&& self.cap >= 1
        &&& self.slot@.len() == self.cap
        &&& self.data@.len() == self.cap
        &&& forall|i: int|
            0 <= i < self.cap ==> (self.slot@[i] == 0 <==> self.data@[i] is None)
        &&& forall|i: int, j: int|
            0 <= i < j < self.cap && self.slot@[i] != 0 ==> self.slot@[i] != self.slot@[j]
    }

    /// A key is in the map exactly when some slot holds it.
    pub proof fn lemma_dom_slots(self, k: usize)
        requires
            self.wf(),
        ensures
            self@.dom().contains(k) <==> (k != 0 && self.slots().contains(k)),
    {
    }

    /// The domain of the abstract map is finite, and its cardinality is the
    /// number of occupied slots.
    pub proof fn lemma_dom_len(self)
        requires
            self.wf(),
        ensures
            self@.dom().finite(),
            self@.dom().len() == self.slots().filter(|k: usize| occupied_key(k)).len(),
    {
        let pred = |k: usize| occupied_key(k);
        let f = self.slot@.filter(pred);
        lemma_pairwise_distinct_filter(self.slot@);
        assert(self@.dom() =~= f.to_set()) by {
            assert forall|k: usize| self@.dom().contains(k) implies f.to_set().contains(k) by {
                let i = choose|i: int| 0 <= i < self.slot@.len() && self.slot@[i] == k;
                assert(pred(self.slot@[i]));
                self.slot@.lemma_filter_contains(pred, i);
                assert(f.contains(k));
            }
            assert forall|k: usize| f.to_set().contains(k) implies self@.dom().contains(k) by {
                assert(f.contains(k));
                self.slot@.lemma_filter_contains_rev(pred, k);
                let i = choose|i: int| 0 <= i < f.len() && f[i] == k;
                self.slot@.lemma_filter_pred(pred, i);
                assert(k != 0);
            }
        }
        f.unique_seq_to_set();
        seq_to_set_is_finite(f);
    }
}

impl<V> HashMap<V> {
    /// The slot index actually holding key `slots()[i]` is `i` itself, and
    /// the abstract map sends that key to the value stored beside it.
    proof fn lemma_at(self, i: int)
        requires
            self.wf(),
            0 <= i < self.capacity(),
            self.slots()[i] != 0,
        ensures
            self@.dom().contains(self.slots()[i]),
            self@[self.slots()[i]] == self.data@[i]->Some_0,
    {
        let k = self.slot@[i];
        assert(self.slot@.contains(k));
        let j = self.slot@.index_of(k);
        assert(0 <= j < self.slot@.len() && self.slot@[j] == k);
        if j != i {
            assert(false);
        }
    }

    /// Overwriting the value beside an occupied slot updates the abstract
    /// map at that slot's key and keeps the table well-formed.
    proof fn lemma_overwrite_view(o: Self, n: Self, i: int, value: V)
        requires
            o.wf(),
            0 <= i < o.capacity(),
            o.slots()[i] != 0,
            n.cap == o.cap,
            n.slot == o.slot,
            n.data@ == o.data@.update(i, Some(value)),
        ensures
            n.wf(),
            n@ == o@.insert(o.slots()[i], value),
    {
        let key = o.slot@[i];
        assert(n.wf());
        assert(n@ =~= o@.insert(key, value)) by {
            o.lemma_at(i);
            assert forall|k: usize| n@.dom().contains(k) implies n@[k] == o@.insert(
                key,
                value,
            )[k] by {
                let j = choose|j: int| 0 <= j < n.slot@.len() && n.slot@[j] == k;
                n.lemma_at(j);
                o.lemma_at(j);
                if k == key {
                    if j != i {
                        assert(false);
                    }
                } else {
                    assert(j != i);
                    assert(n.data@[j] == o.data@[j]);
                }
            }
        }
    }

    /// Storing a fresh key in an empty slot adds one binding to the
    /// abstract map and keeps the table well-formed.
    proof fn lemma_place_view(o: Self, n: Self, i: int, key: usize, value: V)
        requires
            o.wf(),
            0 <= i < o.capacity(),
            o.slots()[i] == 0,
            key != 0,
            !o.slots().contains(key),
            n.cap == o.cap,
            n.slot@ == o.slot@.update(i, key),
            n.data@ == o.data@.update(i, Some(value)),
        ensures
            n.wf(),
            n@ == o@.insert(key, value),
    {
        assert(n.wf()) by {
            assert forall|a: int, b: int|
                0 <= a < b < n.cap && n.slot@[a] != 0 implies n.slot@[a] != n.slot@[b] by {
                if a == i {
                    if n.slot@[b] == key {
                        assert(o.slot@[b] == key);
                        assert(o.slot@.contains(key));
                    }
                } else if b == i {
                    if n.slot@[a] == key {
                        assert(o.slot@[a] == key);
                        assert(o.slot@.contains(key));
                    }
                }
            }
        }
        assert(n@ =~= o@.insert(key, value)) by {
            assert forall|k: usize| #[trigger] n@.dom().contains(k) implies o@.insert(
                key,
                value,
            ).dom().contains(k) by {
                let j = choose|j: int| 0 <= j < n.slot@.len() && n.slot@[j] == k;
                if j != i {
                    assert(o.slot@[j] == k);
                }
            }
            assert forall|k: usize| #[trigger] o@.insert(key, value).dom().contains(
                k,
            ) implies n@.dom().contains(k) by {
                if k == key {
                    assert(n.slot@[i] == key);
                } else {
                    let j = choose|j: int| 0 <= j < o.slot@.len() && o.slot@[j] == k;
                    assert(j != i);
                    assert(n.slot@[j] == k);
                }
            }
            assert forall|k: usize| n@.dom().contains(k) implies n@[k] == o@.insert(
                key,
                value,
            )[k] by {
                let j = choose|j: int| 0 <= j < n.slot@.len() && n.slot@[j] == k;
                n.lemma_at(j);
                if k == key {
                    if j != i {
                        assert(false);
                    }
                } else {
                    assert(j != i);
                    assert(o.slot@[j] == k);
                    o.lemma_at(j);
                    assert(n.data@[j] == o.data@[j]);
                }
            }
        }
    }

    /// Emptying an occupied slot removes exactly that slot's key from the
    /// abstract map and keeps the table well-formed.
    proof fn lemma_clear_slot_view(o: Self, n: Self, i: int)
        requires
            o.wf(),
            0 <= i < o.capacity(),
            o.slots()[i] != 0,
            n.cap == o.cap,
            n.slot@ == o.slot@.update(i, 0),
            n.data@ == o.data@.update(i, None),
        ensures
            n.wf(),
            n@ == o@.remove(o.slots()[i]),
    {
        let key = o.slot@[i];
        assert(n.wf());
        assert(n@ =~= o@.remove(key)) by {
            assert forall|k: usize| #[trigger] n@.dom().contains(k) implies o@.remove(
                key,
            ).dom().contains(k) by {
                let j = choose|j: int| 0 <= j < n.slot@.len() && n.slot@[j] == k;
                assert(j != i);
                assert(o.slot@[j] == k);
                if k == key {
                    assert(false);
                }
            }
            assert forall|k: usize| #[trigger] o@.remove(key).dom().contains(k) implies n@.dom(
            ).contains(k) by {
                let j = choose|j: int| 0 <= j < o.slot@.len() && o.slot@[j] == k;
                assert(j != i);
                assert(n.slot@[j] == k);
            }
            assert forall|k: usize| n@.dom().contains(k) implies n@[k] == o@.remove(key)[k] by {
                let j = choose|j: int| 0 <= j < n.slot@.len() && n.slot@[j] == k;
                n.lemma_at(j);
                assert(j != i);
                assert(o.slot@[j] == k);
                o.lemma_at(j);
                assert(n.data@[j] == o.data@[j]);
            }
        }
    }

    /// Creates a table with `cap` slots, all empty.
    pub fn new(cap: usize) -> (r: Self)
        requires
            cap >= 1,
        ensures
            r.wf(),
            r.capacity() == cap,
            r@ == Map::<usize, V>::empty(),
    {
        let mut slot: Vec<usize> = Vec::new();
        let mut data: Vec<Option<V>> = Vec::new();
        let mut i: usize = 0;
        while i < cap
            invariant
                i <= cap,
                slot@.len() == i,
                data@.len() == i,
                forall|j: int| 0 <= j < i ==> slot@[j] == 0,
                forall|j: int| 0 <= j < i ==> data@[j] is None,
            decreases cap - i,
        {
            slot.push(0);
            data.push(None);
            i += 1;
        }
        let r = HashMap { cap, slot, data };
        proof {
            assert(r@ =~= Map::<usize, V>::empty());
        }
        r
    }

    /// Counts the occupied slots.
    pub fn len(&self) -> (r: usize)
        requires
            self.wf(),
        ensures
            r == self@.dom().len(),
    {
        let mut n: usize = 0;
        let mut i: usize = 0;
        while i < self.cap
            invariant
                self.wf(),
                i <= self.cap,
                n <= i,
                n == self.slot@.take(i as int).filter(|k: usize| occupied_key(k)).len(),
            decreases self.cap - i,
        {
            proof {
                self.slot@.lemma_take_succ_push(i as int);
                self.slot@.take(i as int).lemma_filter_len_push(
                    |k: usize| occupied_key(k),
                    self.slot@[i as int],
                );
            }
            if self.slot[i] != 0 {
                n += 1;
            }
            i += 1;
        }
        proof {
            self.slot@.lemma_take_len();
            self.lemma_dom_len();
        }
        n
    }

    /// True when no slot is occupied.
    pub fn is_empty(&self) -> (r: bool)
        requires
            self.wf(),
        ensures
            r == (self@.dom().len() == 0),
    {
        let mut i: usize = 0;
        proof {
            self.lemma_dom_len();
        }
        while i < self.cap
            invariant
                self.wf(),
                i <= self.cap,
                forall|j: int| 0 <= j < i ==> self.slot@[j] == 0,
            decreases self.cap - i,
        {
            if self.slot[i] != 0 {
                proof {
                    self.lemma_dom_len();
                    self.slot@.lemma_filter_contains(|k: usize| occupied_key(k), i as int);
                    let f = self.slot@.filter(|k: usize| occupied_key(k));
                    let j = choose|j: int| 0 <= j < f.len() && f[j] == self.slot@[i as int];
                }
                return false;
            }
            i += 1;
        }
        proof {
            self.lemma_dom_len();
            self.slot@.lemma_all_neg_filter_empty(|k: usize| occupied_key(k));
        }
        true
    }

    /// Resets every slot to empty; the capacity is kept.
    pub fn clear(&mut self)
        requires
            old(self).wf(),
        ensures
            final(self).wf(),
            final(self).capacity() == old(self).capacity(),
            final(self)@ == Map::<usize, V>::empty(),
    {
        let cap = self.cap;
        let mut slot: Vec<usize> = Vec::new();
        let mut data: Vec<Option<V>> = Vec::new();
        let mut i: usize = 0;
        while i < cap
            invariant
                i <= cap,
                slot@.len() == i,
                data@.len() == i,
                forall|j: int| 0 <= j < i ==> slot@[j] == 0,
                forall|j: int| 0 <= j < i ==> data@[j] is None,
            decreases cap - i,
        {
            slot.push(0);
            data.push(None);
            i += 1;
        }
        self.slot = slot;
        self.data = data;
        proof {
            assert(self@ =~= Map::<usize, V>::empty());
        }
    }

    /// The home slot of a key: `key % capacity`.
    pub fn hash(&self, key: usize) -> (r: usize)
        requires
            self.wf(),
        ensures
            r == key as int % self.capacity() as int,
            r < self.capacity(),
    {
        proof {
            lemma_mod_division_less_than_divisor(key as int, self.cap as int);
        }
        key % self.cap
    }

    /// The next slot in the probe sequence: `(pos + 1) % capacity`.
    pub fn rehash(&self, pos: usize) -> (r: usize)
        requires
            self.wf(),
            pos < self.capacity(),
        ensures
            r == (pos as int + 1) % self.capacity() as int,
            r < self.capacity(),
    {
        proof {
            lemma_mod_step(pos as int, self.cap as int);
            lemma_small_mod(pos as nat, self.cap as nat);
        }
        if pos + 1 == self.cap {
            0
        } else {
            pos + 1
        }
    }

    /// Follows the probe sequence from the key's home slot for at most
    /// `capacity` steps and reports the slot holding `key`, if any.
    fn probe_find(&self, key: usize) -> (r: Option<usize>)
        requires
            self.wf(),
            key != 0,
        ensures
            match r {
                Some(i) => i < self.capacity() && self.slot@[i as int] == key,
                None => !self.slot@.contains(key),
            },
    {
        let h = self.hash(key);
        let mut j: usize = 0;
        let mut curr: usize = h;
        proof {
            lemma_small_mod(h as nat, self.cap as nat);
        }
        while j < self.cap
            invariant
                self.wf(),
                key != 0,
                h < self.cap,
                j <= self.cap,
                curr < self.cap,
                curr as int == (h + j) as int % self.cap as int,
                forall|m: int| 0 <= m < j ==> probe_at(self.slot@, h as int, self.cap as int, m) != key,
            decreases self.cap - j,
        {
            if self.slot[curr] == key {
                return Some(curr);
            }
            proof {
                assert(probe_at(self.slot@, h as int, self.cap as int, j as int) == self.slot@[curr as int]);
                lemma_mod_step(h + j as int, self.cap as int);
            }
            curr = if curr + 1 == self.cap {
                0
            } else {
                curr + 1
            };
            j += 1;
        }
        proof {
            lemma_probe_cycle_covers(self.slot@, h as int, self.cap as int, key);
        }
        None
    }

    /// Follows the probe sequence from the key's home slot and reports the
    /// first empty slot, if any slot is empty at all.
    fn probe_free(&self, key: usize) -> (r: Option<usize>)
        requires
            self.wf(),
            key != 0,
        ensures
            match r {
                Some(i) => i < self.capacity() && self.slot@[i as int] == 0,
                None => forall|i: int| 0 <= i < self.capacity() ==> self.slot@[i] != 0,
            },
    {
        let h = self.hash(key);
        let mut j: usize = 0;
        let mut curr: usize = h;
        proof {
            lemma_small_mod(h as nat, self.cap as nat);
        }
        while j < self.cap
            invariant
                self.wf(),
                h < self.cap,
                j <= self.cap,
                curr < self.cap,
                curr as int == (h + j) as int % self.cap as int,
                forall|m: int| 0 <= m < j ==> probe_at(self.slot@, h as int, self.cap as int, m) != 0,
            decreases self.cap - j,
        {
            if self.slot[curr] == 0 {
                return Some(curr);
            }
            proof {
                assert(probe_at(self.slot@, h as int, self.cap as int, j as int) == self.slot@[curr as int]);
                lemma_mod_step(h + j as int, self.cap as int);
            }
            curr = if curr + 1 == self.cap {
                0
            } else {
                curr + 1
            };
            j += 1;
        }
        proof {
            lemma_probe_cycle_covers(self.slot@, h as int, self.cap as int, 0);
        }
        None
    }

    /// Stores `value` under `key`.  A key already present is overwritten in
    /// place; a fresh key goes to the first empty slot on its probe
    /// sequence.  Fails with `InvalidKey` on the sentinel key `0` and with
    /// `TableFull` when a fresh key finds no empty slot; either failure
    /// leaves the table untouched.
    pub fn insert(&mut self, key: usize, value: V) -> (r: Result<(), TableError>)
        requires
            old(self).wf(),
        ensures
            final(self).wf(),
            final(self).capacity() == old(self).capacity(),
            match r {
                Ok(()) => key != 0 && final(self)@ == old(self)@.insert(key, value),
                Err(TableError::InvalidKey) => key == 0 && *final(self) == *old(self),
                Err(TableError::TableFull) => {
                    &&& key != 0
                    &&& !old(self)@.dom().contains(key)
                    &&& old(self)@.dom().len() == old(self).capacity()
                    &&& *final(self) == *old(self)
                },
            },
            r is Ok <==> (key != 0 && (old(self)@.dom().contains(key) || old(self)@.dom().len()
                < old(self).capacity())),
    {
        if key == 0 {
            return Err(TableError::InvalidKey);
        }
        let found = self.probe_find(key);
        match found {
            Some(i) => {
                proof {
                    self.lemma_at(i as int);
                }
                self.data.set(i, Some(value));
                proof {
                    Self::lemma_overwrite_view(*old(self), *self, i as int, value);
                }
                Ok(())
            },
            None => {
                let free = self.probe_free(key);
                match free {
                    Some(i) => {
                        proof {
                            lemma_filter_len_lt(self.slot@, i as int);
                            self.lemma_dom_len();
                        }
                        self.slot.set(i, key);
                        self.data.set(i, Some(value));
                        proof {
                            Self::lemma_place_view(*old(self), *self, i as int, key, value);
                        }
                        Ok(())
                    },
                    None => {
                        proof {
                            lemma_filter_all(self.slot@);
                            self.lemma_dom_len();
                        }
                        Err(TableError::TableFull)
                    },
                }
            },
        }
    }

    /// Removes `key` and hands its value back, or `Ok(None)` when the key
    /// is absent.  Fails with `InvalidKey` on the sentinel key `0`, leaving
    /// the table untouched.
    pub fn remove(&mut self, key: usize) -> (r: Result<Option<V>, TableError>)
        requires
            old(self).wf(),
        ensures
            final(self).wf(),
            final(self).capacity() == old(self).capacity(),
            match r {
                Ok(Some(v)) => {
                    &&& key != 0
                    &&& old(self)@.dom().contains(key)
                    &&& v == old(self)@[key]
                    &&& final(self)@ == old(self)@.remove(key)
                },
                Ok(None) => key != 0 && !old(self)@.dom().contains(key) && *final(self) == *old(
                    self,
                ),
                Err(e) => e == TableError::InvalidKey && key == 0 && *final(self) == *old(self),
            },
    {
        if key == 0 {
            return Err(TableError::InvalidKey);
        }
        let found = self.probe_find(key);
        match found {
            Some(i) => {
                proof {
                    self.lemma_at(i as int);
                }
                self.slot.set(i, 0);
                let cell = &mut self.data[i];
                let taken = cell.take();
                proof {
                    assert(self.data@ =~= old(self).data@.update(i as int, None));
                    Self::lemma_clear_slot_view(*old(self), *self, i as int);
                }
                match taken {
                    Some(v) => Ok(Some(v)),
                    None => {
                        proof {
                            assert(false);
                        }
                        Ok(None)
                    },
                }
            },
            None => {
                proof {
                    self.lemma_dom_slots(key);
                }
                Ok(None)
            },
        }
    }

    /// The slot index at which `key` is stored, or `None` when `key` is
    /// absent.  This is the shared probe-based lookup that `get`, `get_mut`
    /// and `contains` rely on.
    pub fn get_pos(&self, key: usize) -> (r: Option<usize>)
        requires
            self.wf(),
            key != 0,
        ensures
            match r {
                Some(i) => i < self.capacity() && self.slots()[i as int] == key
                    && self@.dom().contains(key),
                None => !self@.dom().contains(key),
            },
    {
        let r = self.probe_find(key);
        proof {
            match r {
                Some(i) => self.lemma_at(i as int),
                None => self.lemma_dom_slots(key),
            }
        }
        r
    }

    /// Borrows the value stored under `key`, or `None` when `key` is
    /// absent.
    pub fn get(&self, key: usize) -> (r: Option<&V>)
        requires
            self.wf(),
            key != 0,
        ensures
            match r {
                Some(v) => self@.dom().contains(key) && *v == self@[key],
                None => !self@.dom().contains(key),
            },
    {
        match self.probe_find(key) {
            Some(i) => {
                proof {
                    self.lemma_at(i as int);
                }
                let cell = &self.data[i];
                cell.as_ref()
            },
            None => {
                proof {
                    self.lemma_dom_slots(key);
                }
                None
            },
        }
    }

    /// Mutably borrows the value stored under `key`, or `None` when `key`
    /// is absent.  Writing through the borrow updates the binding of `key`
    /// and nothing else.
    pub fn get_mut(&mut self, key: usize) -> (r: Option<&mut V>)
        requires
            old(self).wf(),
            key != 0,
        ensures
            final(self).wf(),
            final(self).capacity() == old(self).capacity(),
            match r {
                Some(v) => {
                    &&& old(self)@.dom().contains(key)
                    &&& *v == old(self)@[key]
                    &&& final(self)@ == old(self)@.insert(key, *final(v))
                },
                None => !old(self)@.dom().contains(key) && *final(self) == *old(self),
            },
    {
        let found = self.probe_find(key);
        match found {
            Some(i) => {
                proof {
                    self.lemma_at(i as int);
                }
                let cell = &mut self.data[i];
                cell.as_mut()
            },
            None => {
                proof {
                    self.lemma_dom_slots(key);
                }
                None
            },
        }
    }

    /// True exactly when some slot holds `key`, located by the same probe
    /// sequence as `get`.
    pub fn contains(&self, key: usize) -> (r: bool)
        requires
            self.wf(),
            key != 0,
        ensures
            r == self@.dom().contains(key),
    {
        let r = self.probe_find(key);
        proof {
            match r {
                Some(i) => self.lemma_at(i as int),
                None => self.lemma_dom_slots(key),
            }
        }
        r.is_some()
    }

    /// The stored values of the first `n` slots, in slot order, occupied
    /// slots only.
    pub closed spec fn values_prefix(self, n: int) -> Seq<V>
        decreases n,
    {
        if n <= 0 {
            Seq::empty()
        } else if self.slot@[n - 1] != 0 {
            self.values_prefix(n - 1) + seq![self.data@[n - 1]->Some_0]
        } else {
            self.values_prefix(n - 1)
        }
    }

    /// The stored values in slot order, one for each occupied slot.
    pub open spec fn values_in_order(self) -> Seq<V> {
        self.values_prefix(self.capacity() as int)
    }

    /// One value per occupied slot.
    proof fn lemma_values_prefix_len(self, n: int)
        requires
            self.wf(),
            0 <= n <= self.capacity(),
        ensures
            self.values_prefix(n).len() == self.slot@.take(n).filter(
                |k: usize| occupied_key(k),
            ).len(),
        decreases n,
    {
        if n > 0 {
            self.lemma_values_prefix_len(n - 1);
            self.slot@.lemma_take_succ_push(n - 1);
            self.slot@.take(n - 1).lemma_filter_len_push(
                |k: usize| occupied_key(k),
                self.slot@[n - 1],
            );
        }
    }

    /// Borrows every stored value, in slot order, skipping empty slots.
    pub fn iter(&self) -> (r: Vec<&V>)
        requires
            self.wf(),
        ensures
            r@.len() == self.values_in_order().len(),
            r@.len() == self@.dom().len(),
            forall|i: int| 0 <= i < r@.len() ==> *r@[i] == self.values_in_order()[i],
    {
        let mut out: Vec<&V> = Vec::new();
        let mut i: usize = 0;
        while i < self.cap
            invariant
                self.wf(),
                i <= self.cap,
                out@.len() == self.values_prefix(i as int).len(),
                forall|j: int| 0 <= j < out@.len() ==> *out@[j] == self.values_prefix(i as int)[j],
            decreases self.cap - i,
        {
            proof {
                assert(self.values_prefix(i as int + 1) == if self.slot@[i as int] != 0 {
                    self.values_prefix(i as int) + seq![self.data@[i as int]->Some_0]
                } else {
                    self.values_prefix(i as int)
                });
            }
            if self.slot[i] != 0 {
                let cell = &self.data[i];
                match cell.as_ref() {
                    Some(v) => out.push(v),
                    None => {
                        proof {
                            assert(false);
                        }
                    },
                }
            }
            i += 1;
        }
        proof {
            self.lemma_values_prefix_len(self.cap as int);
            self.slot@.lemma_take_len();
            self.lemma_dom_len();
        }
        out
    }

    /// Round-trip law: a successful `insert(k, v)` makes `k` present with
    /// value `v`, so a following `get(k)` returns `v`.
    pub proof fn lemma_insert_then_get(m: Map<usize, V>, k: usize, v: V)
        requires
            k != 0,
        ensures
            m.insert(k, v).dom().contains(k),
            m.insert(k, v)[k] == v,
    {
    }

    /// Idempotent-overwrite law: inserting the same key twice keeps the
    /// number of stored keys unchanged, and `get(k)` reflects the latest
    /// value.
    pub proof fn lemma_overwrite_keeps_len(m: Map<usize, V>, k: usize, v1: V, v2: V)
        requires
            k != 0,
        ensures
            m.insert(k, v1).insert(k, v2).dom().len() == m.insert(k, v1).dom().len(),
            m.insert(k, v1).insert(k, v2)[k] == v2,
    {
        assert(m.insert(k, v1).insert(k, v2).dom() =~= m.insert(k, v1).dom());
    }

    /// Removal law: after `insert(k, v)`, a `remove(k)` hands back exactly
    /// `v`, leaves `k` absent, and shrinks the number of stored keys by
    /// exactly one.
    pub proof fn lemma_insert_then_remove(m: Map<usize, V>, k: usize, v: V)
        requires
            k != 0,
            m.dom().finite(),
        ensures
            m.insert(k, v)[k] == v,
            !m.insert(k, v).remove(k).dom().contains(k),
            m.insert(k, v).remove(k).dom().len() + 1 == m.insert(k, v).dom().len(),
    {
        let big = m.insert(k, v).dom();
        let small = m.insert(k, v).remove(k).dom();
        assert(small =~= big.remove(k));
        assert(big.contains(k));
    }
}

/// The key seen at probe step `m` of the sequence that starts at home
/// slot `h`.
spec fn probe_at(s: Seq<usize>, h: int, cap: int, m: int) -> usize {
    s[(h + m) % cap]
}

/// `(a + 1) % m` steps the remainder forward by one, wrapping at `m`.
proof fn lemma_mod_step(a: int, m: int)
    requires
        m >= 1,
    ensures
        (a + 1) % m == if a % m + 1 == m {
            0int
        } else {
            a % m + 1
        },
{
    lemma_fundamental_div_mod(a, m);
    lemma_mod_division_less_than_divisor(a, m);
    let q = a / m;
    let r = a % m;
    if r + 1 == m {
        assert(a + 1 == (q + 1) * m + 0) by (nonlinear_arith)
            requires
                a == m * q + r,
                r + 1 == m,
        ;
        lemma_fundamental_div_mod_converse(a + 1, m, q + 1, 0);
    } else {
        assert(a + 1 == q * m + (r + 1)) by (nonlinear_arith)
            requires
                a == m * q + r,
        ;
        lemma_fundamental_div_mod_converse(a + 1, m, q, r + 1);
    }
}

/// If no key `key` was seen at `(h + m) % cap` for any step count `m` below
/// `cap`, then no slot at all holds `key`: one full probe cycle visits every
/// slot.
proof fn lemma_probe_cycle_covers(s: Seq<usize>, h: int, cap: int, key: usize)
    requires
        cap >= 1,
        s.len() == cap,
        0 <= h < cap,
        forall|m: int| 0 <= m < cap ==> probe_at(s, h, cap, m) != key,
    ensures
        !s.contains(key),
{
    assert forall|i: int| 0 <= i < cap implies s[i] != key by {
        let m = if i >= h {
            i - h
        } else {
            i - h + cap
        };
        assert(0 <= m < cap);
        assert((h + m) % cap == i) by {
            if i >= h {
                lemma_small_mod(i as nat, cap as nat);
            } else {
                lemma_mod_add_multiples_vanish(i, cap);
                lemma_small_mod(i as nat, cap as nat);
            }
        }
        assert(probe_at(s, h, cap, m) != key);
    }
    if s.contains(key) {
        let i = choose|i: int| 0 <= i < s.len() && s[i] == key;
        assert(false);
    }
}

/// A sequence every element of which is occupied filters to itself.
proof fn lemma_filter_all(s: Seq<usize>)
    requires
        forall|i: int| 0 <= i < s.len() ==> s[i] != 0,
    ensures
        s.filter(|k: usize| occupied_key(k)) == s,
    decreases s.len(),
{
    let pred = |k: usize| occupied_key(k);
    reveal(Seq::filter);
    if s.len() == 0 {
        assert(s.filter(pred) =~= s);
    } else {
        let head = s.drop_last();
        lemma_filter_all(head);
        assert(s.filter(pred) =~= head.push(s.last()));
        assert(head.push(s.last()) =~= s);
    }
}

/// A sequence with an empty slot at index `i` filters to something strictly
/// shorter than itself.
proof fn lemma_filter_len_lt(s: Seq<usize>, i: int)
    requires
        0 <= i < s.len(),
        s[i] == 0,
    ensures
        s.filter(|k: usize| occupied_key(k)).len() < s.len(),
    decreases s.len(),
{
    let pred = |k: usize| occupied_key(k);
    reveal(Seq::filter);
    let head = s.drop_last();
    if i == s.len() - 1 {
        head.lemma_filter_len(pred);
    } else {
        lemma_filter_len_lt(head, i);
    }
}

/// Keys at distinct occupied slots are distinct.
spec fn pairwise_distinct(s: Seq<usize>) -> bool {
    forall|i: int, j: int| 0 <= i < j < s.len() && s[i] != 0 ==> s[i] != s[j]
}

/// Filtering the occupied keys out of a slot array with unique keys yields
/// a duplicate-free sequence.
proof fn lemma_pairwise_distinct_filter(s: Seq<usize>)
    requires
        pairwise_distinct(s),
    ensures
        s.filter(|k: usize| occupied_key(k)).no_duplicates(),
    decreases s.len(),
{
    let pred = |k: usize| occupied_key(k);
    reveal(Seq::filter);
    if s.len() == 0 {
    } else {
        let head = s.drop_last();
        assert(pairwise_distinct(head));
        lemma_pairwise_distinct_filter(head);
        let g = head.filter(pred);
        if pred(s.last()) {
            assert(!g.contains(s.last())) by {
                if g.contains(s.last()) {
                    head.lemma_filter_contains_rev(pred, s.last());
                    let j = choose|j: int| 0 <= j < head.len() && head[j] == s.last();
                    assert(s[j] == s[s.len() - 1]);
                    assert(false);
                }
            }
            assert(s.filter(pred) == g.push(s.last()));
            assert forall|i: int, j: int|
                0 <= i < j < s.filter(pred).len() implies s.filter(pred)[i] != s.filter(
                pred,
            )[j] by {
                if j == s.filter(pred).len() - 1 {
                    assert(g.contains(g[i]));
                }
            }
        } else {
            assert(s.filter(pred) == g);
        }
    }
}

} // verus!
