//! The Least Recently Used eviction policy.

use vstd::prelude::*;

use crate::eviction::EvictionPolicy;
use crate::model::lru_empty;
use crate::model::LruModel;
use crate::model::PolicyModel;
use crate::vecops::bump_exec;
use crate::vecops::key_vec_has;
use crate::vecops::key_vec_min_idx;
use crate::vecops::key_vec_stamp;
use crate::vecops::key_vec_without;
use crate::vecops::lemma_min_stamp_idx;

verus! {

/// Least Recently Used: each tracked key carries the stamp of its last
/// touch, and the key with the minimum stamp is evicted first.
pub struct LRU {
    use_order: Vec<(u64, u64)>,
    current_time: u64,
}

impl LRU {
    /// The recency bookkeeping this instance holds.
    pub closed spec fn model(&self) -> LruModel {
        LruModel { entries: self.use_order@, stamp: self.current_time }
    }

    /// Reports whether `key` is tracked, for segment bookkeeping.
    pub(crate) fn tracks(&self, key: u64) -> (r: bool)
        ensures
            r == crate::vecops::has_key(self.model().entries, key),
    {
        key_vec_has(&self.use_order, key)
    }

    /// The number of tracked keys, for segment bookkeeping.
    pub(crate) fn tracked_len(&self) -> (n: usize)
        ensures
            n == self.model().entries.len(),
    {
        self.use_order.len()
    }

    /// Creates a new LRU eviction policy instance with no tracked keys.
    pub fn new() -> (r: Self)
        ensures
            r.wf(),
            r.abs() == PolicyModel::Lru(lru_empty()),
    {
        let r = LRU { use_order: Vec::new(), current_time: 0 };
        proof {
            assert(r.use_order@ =~= lru_empty().entries);
        }
        r
    }
}

impl EvictionPolicy for LRU {
    open spec fn abs(&self) -> PolicyModel {
        PolicyModel::Lru(self.model())
    }

    open spec fn wf(&self) -> bool {
        true
    }

    fn on_insert(&mut self, key: u64) {
        self.current_time = bump_exec(self.current_time);
        let t = self.current_time;
        if key_vec_has(&self.use_order, key) {
            key_vec_stamp(&mut self.use_order, key, t);
        } else {
            self.use_order.push((key, t));
        }
    }

    fn on_access(&mut self, key: u64) {
        self.current_time = bump_exec(self.current_time);
        let t = self.current_time;
        key_vec_stamp(&mut self.use_order, key, t);
    }

    fn on_remove(&mut self, key: u64) {
        self.use_order = key_vec_without(&self.use_order, key);
    }

    fn evict(&mut self) -> (victim: Option<u64>) {
        if self.use_order.len() == 0 {
            None
        } else {
            proof {
                lemma_min_stamp_idx(self.use_order@);
            }
            let i = key_vec_min_idx(&self.use_order);
            let k = self.use_order[i].0;
            self.use_order = key_vec_without(&self.use_order, k);
            Some(k)
        }
    }
}

} // verus!
