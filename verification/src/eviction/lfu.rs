//! The Least Frequently Used eviction policy.

use vstd::prelude::*;

use crate::eviction::EvictionPolicy;
use crate::model::PolicyModel;
use crate::vecops::key_vec_bump;
use crate::vecops::key_vec_has;
use crate::vecops::key_vec_min_idx;
use crate::vecops::key_vec_stamp;
use crate::vecops::key_vec_without;
use crate::vecops::lemma_min_stamp_idx;

verus! {

/// Least Frequently Used: each tracked key carries an access count; an
/// insertion (re)sets the count to 1, and the key with the minimum
/// count is evicted first.
pub struct LFU {
    frequency: Vec<(u64, u64)>,
}

impl LFU {
    /// Creates a new LFU eviction policy instance with no tracked keys.
    pub fn new() -> (r: Self)
        ensures
            r.wf(),
            r.abs() == (PolicyModel::Lfu { counts: Seq::empty() }),
    {
        let r = LFU { frequency: Vec::new() };
        proof {
            assert(r.frequency@ =~= Seq::<(u64, u64)>::empty());
        }
        r
    }
}

impl EvictionPolicy for LFU {
    closed spec fn abs(&self) -> PolicyModel {
        PolicyModel::Lfu { counts: self.frequency@ }
    }

    closed spec fn wf(&self) -> bool {
        true
    }

    fn on_insert(&mut self, key: u64) {
        if key_vec_has(&self.frequency, key) {
            key_vec_stamp(&mut self.frequency, key, 1);
        } else {
            self.frequency.push((key, 1));
        }
    }

    fn on_access(&mut self, key: u64) {
        key_vec_bump(&mut self.frequency, key);
    }

    fn on_remove(&mut self, key: u64) {
        self.frequency = key_vec_without(&self.frequency, key);
    }

    fn evict(&mut self) -> (victim: Option<u64>) {
        if self.frequency.len() == 0 {
            None
        } else {
            proof {
                lemma_min_stamp_idx(self.frequency@);
            }
            let i = key_vec_min_idx(&self.frequency);
            let k = self.frequency[i].0;
            self.frequency = key_vec_without(&self.frequency, k);
            Some(k)
        }
    }
}

} // verus!
