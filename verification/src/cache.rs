//! The main Cache type: a [`Store`], an owned eviction policy and a
//! fixed positive capacity, kept in step with one another.

use vstd::prelude::*;

use crate::eviction::EvictionPolicy;
use crate::model::erase_step;
use crate::model::evict_rel;
use crate::model::needs_evict;
use crate::model::read_step;
use crate::model::store_after_evict;
use crate::model::write_step;
use crate::model::CacheModel;
use crate::store::Store;

verus! {

/// A bounded key-value cache.
///
/// The cache owns its store and its policy and is their single point of
/// synchronization: every user operation is translated into one store
/// update paired with one policy callback, exactly as [`write_step`],
/// [`read_step`] and [`erase_step`] describe.
///
/// # Type Parameters
/// * `V`: the type of the cached values.
/// * `P`: the eviction policy deciding which key leaves when the cache
///   is full.
pub struct Cache<V, P>
where
    P: EvictionPolicy,
{
    store: Store<V>,
    eviction_policy: P,
    capacity: usize,
}

impl<V, P: EvictionPolicy> View for Cache<V, P> {
    type V = CacheModel<V>;

    closed spec fn view(&self) -> CacheModel<V> {
        CacheModel {
            store: self.store@,
            policy: self.eviction_policy.abs(),
            capacity: self.capacity as nat,
        }
    }
}

impl<V, P: EvictionPolicy> Cache<V, P> {
    /// Structural validity: the policy representation is valid and the
    /// capacity is positive.
    pub closed spec fn wf(&self) -> bool {
        self.eviction_policy.wf() && self.capacity >= 1
    }

    /// Creates a cache with the given eviction policy and capacity.
    ///
    /// # Parameters
    /// * `eviction_policy`: the policy instance the cache will own.
    /// * `capacity`: the maximum number of resident keys; positive.
    pub fn new(eviction_policy: P, capacity: usize) -> (c: Self)
        requires
            eviction_policy.wf(),
            capacity >= 1,
        ensures
            c.wf(),
            c@.store == Map::<u64, V>::empty(),
            c@.policy == eviction_policy.abs(),
            c@.capacity == capacity as nat,
    {
        Cache { store: Store::new(), eviction_policy, capacity }
    }

    /// Inserts a key-value pair, updating the value if the key is
    /// already resident.
    ///
    /// When the store is full and the key is new, the policy names a
    /// victim, which is removed from the store first; an update of a
    /// resident key never evicts. The relation between the models
    /// before and after, including the victim chosen, is exactly
    /// [`write_step`].
    pub fn set(&mut self, key: u64, value: V)
        requires
            old(self).wf(),
        ensures
            final(self).wf(),
            exists|evicted: Option<u64>|
                #[trigger] write_step(old(self)@, key, value, evicted, final(self)@),
    {
        let ghost m0 = self@;
        if self.store.len() >= self.capacity && !self.store.contains_key(key) {
            let victim = self.eviction_policy.evict();
            let ghost pmid = self.eviction_policy.abs();
            if let Some(vk) = victim {
                self.store.remove(vk);
            }
            self.store.insert(key, value);
            self.eviction_policy.on_insert(key);
            proof {
                assert(needs_evict(m0, key));
                assert(evict_rel(m0.policy, pmid, victim));
                assert(self@.store =~= store_after_evict(m0.store, victim).insert(key, value));
                assert(write_step(m0, key, value, victim, self@));
            }
        } else {
            self.store.insert(key, value);
            self.eviction_policy.on_insert(key);
            proof {
                assert(!needs_evict(m0, key));
                assert(write_step(m0, key, value, None::<u64>, self@));
            }
        }
    }

    /// Retrieves the value held for `key`, reporting the access to the
    /// policy when (and only when) the key is resident.
    pub fn get(&mut self, key: u64) -> (r: Option<&V>)
        requires
            old(self).wf(),
        ensures
            final(self).wf(),
            final(self)@ == read_step(old(self)@, key),
            match r {
                Some(v) => old(self)@.store.contains_key(key) && *v == old(self)@.store[key],
                None => !old(self)@.store.contains_key(key),
            },
    {
        if self.store.contains_key(key) {
            self.eviction_policy.on_access(key);
            self.store.get(key)
        } else {
            None
        }
    }

    /// Removes the pair held for `key`, returning its value if any; the
    /// policy hears of the removal unconditionally.
    pub fn remove(&mut self, key: u64) -> (r: Option<V>)
        requires
            old(self).wf(),
        ensures
            final(self).wf(),
            final(self)@ == erase_step(old(self)@, key),
            match r {
                Some(v) => old(self)@.store.contains_key(key) && v == old(self)@.store[key],
                None => !old(self)@.store.contains_key(key),
            },
    {
        self.eviction_policy.on_remove(key);
        self.store.remove(key)
    }
}

} // verus!
