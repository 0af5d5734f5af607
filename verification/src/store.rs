//! The storage layer of the cache: an unbounded mapping from interned
//! `u64` keys to values, with no ordering and no eviction logic.

use std::collections::HashMap;
use vstd::prelude::*;

verus! {

/// The resident key-to-value mapping.
///
/// The view of a `Store<V>` is the `Map<u64, V>` it currently holds.
/// The store is not responsible for capacity enforcement; that is the
/// cache's job.
pub struct Store<V> {
    entries: HashMap<u64, V>,
}

impl<V> View for Store<V> {
    type V = Map<u64, V>;

    closed spec fn view(&self) -> Map<u64, V> {
        self.entries@
    }
}

impl<V> Store<V> {
    /// Creates an empty store.
    pub fn new() -> (s: Self)
        ensures
            s@ == Map::<u64, V>::empty(),
    {
        Store { entries: HashMap::new() }
    }

    /// Inserts a key-value pair; if the key is already present, its value
    /// is overwritten.
    pub fn insert(&mut self, key: u64, value: V)
        ensures
            final(self)@ == old(self)@.insert(key, value),
    {
        self.entries.insert(key, value);
    }

    /// Returns a reference to the value held for `key`, if any.
    pub fn get(&self, key: u64) -> (r: Option<&V>)
        ensures
            match r {
                Some(v) => self@.contains_key(key) && *v == self@[key],
                None => !self@.contains_key(key),
            },
    {
        self.entries.get(&key)
    }

    /// Removes the pair held for `key`, returning its value if any.
    pub fn remove(&mut self, key: u64) -> (r: Option<V>)
        ensures
            final(self)@ == old(self)@.remove(key),
            match r {
                Some(v) => old(self)@.contains_key(key) && v == old(self)@[key],
                None => !old(self)@.contains_key(key),
            },
    {
        self.entries.remove(&key)
    }

    /// Reports whether a value is held for `key`.
    pub fn contains_key(&self, key: u64) -> (r: bool)
        ensures
            r == self@.contains_key(key),
    {
        self.entries.contains_key(&key)
    }

    /// The number of resident keys.
    pub fn len(&self) -> (n: usize)
        ensures
            n == self@.len(),
    {
        self.entries.len()
    }
}

} // verus!
