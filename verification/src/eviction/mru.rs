//! The Most Recently Used eviction policy.

use vstd::prelude::*;

use crate::eviction::EvictionPolicy;
use crate::model::lru_empty;
use crate::model::LruModel;
use crate::model::PolicyModel;
use crate::vecops::bump_exec;
use crate::vecops::key_vec_has;
use crate::vecops::key_vec_max_idx;
use crate::vecops::key_vec_stamp;
use crate::vecops::key_vec_without;
use crate::vecops::lemma_max_stamp_idx;

verus! {

/// Most Recently Used: bookkeeping identical to LRU, but the key with
/// the *maximum* stamp is evicted first. An access re-stamps a key only
/// if it is already tracked.
pub struct MRU {
    use_order: Vec<(u64, u64)>,
    current_time: u64,
}

impl MRU {
    /// Creates a new MRU eviction policy instance with no tracked keys.
    pub fn new() -> (r: Self)
        ensures
            r.wf(),
            r.abs() == PolicyModel::Mru(lru_empty()),
    {
        let r = MRU { use_order: Vec::new(), current_time: 0 };
        proof {
            assert(r.use_order@ =~= lru_empty().entries);
        }
        r
    }
}

impl EvictionPolicy for MRU {
    closed spec fn abs(&self) -> PolicyModel {
        PolicyModel::Mru(LruModel { entries: self.use_order@, stamp: self.current_time })
    }

    closed spec fn wf(&self) -> bool {
        true
    }

    fn on_insert(&mut self, key: u64) {
        self.current_time = bump_exec(self.current_time);
        let t = self.current_time;
        if key_vec_has(&self.use_order, key) {
            key_vec_stamp(&mut self.use_order, key, t);
        } else {
            self.use_order.push((key, t));
        }
    }

    fn on_access(&mut self, key: u64) {
        self.current_time = bump_exec(self.current_time);
        let t = self.current_time;
        key_vec_stamp(&mut self.use_order, key, t);
    }

    fn on_remove(&mut self, key: u64) {
        self.use_order = key_vec_without(&self.use_order, key);
    }

    fn evict(&mut self) -> (victim: Option<u64>) {
        if self.use_order.len() == 0 {
            None
        } else {
            proof {
                lemma_max_stamp_idx(self.use_order@);
            }
            let i = key_vec_max_idx(&self.use_order);
            let k = self.use_order[i].0;
            self.use_order = key_vec_without(&self.use_order, k);
            Some(k)
        }
    }
}

} // verus!
