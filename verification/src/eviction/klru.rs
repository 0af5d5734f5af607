//! The K-th position LRU eviction policy.

use vstd::prelude::*;

use crate::eviction::EvictionPolicy;
use crate::model::KlruModel;
use crate::model::PolicyModel;
use crate::vecops::vec_without;

verus! {

/// K-th position LRU: keys are kept in touch order (most recent at the
/// back), and eviction takes the key sitting `k` places before the
/// back — the `(k+1)`-th most recently touched key — rather than the
/// oldest one. With `k` or fewer tracked keys there is no candidate.
pub struct KLRU {
    use_order: Vec<u64>,
    k: usize,
}

impl KLRU {
    /// Creates a new KLRU eviction policy instance.
    ///
    /// # Parameters
    /// * `k`: the 0-based offset from the most recent key to the one
    ///   eviction selects.
    pub fn new(k: usize) -> (r: Self)
        ensures
            r.wf(),
            r.abs() == PolicyModel::Klru(KlruModel { order: Seq::empty(), k: k as nat }),
    {
        let r = KLRU { use_order: Vec::new(), k };
        proof {
            assert(r.use_order@ =~= Seq::<u64>::empty());
        }
        r
    }
}

impl EvictionPolicy for KLRU {
    closed spec fn abs(&self) -> PolicyModel {
        PolicyModel::Klru(KlruModel { order: self.use_order@, k: self.k as nat })
    }

    closed spec fn wf(&self) -> bool {
        true
    }

    fn on_insert(&mut self, key: u64) {
        self.use_order.push(key);
    }

    fn on_access(&mut self, key: u64) {
        self.use_order = vec_without(&self.use_order, key);
        self.use_order.push(key);
    }

    fn on_remove(&mut self, key: u64) {
        self.use_order = vec_without(&self.use_order, key);
    }

    fn evict(&mut self) -> (victim: Option<u64>) {
        if self.use_order.len() > self.k {
            let i = self.use_order.len() - 1 - self.k;
            let victim = self.use_order[i];
            self.use_order = vec_without(&self.use_order, victim);
            Some(victim)
        } else {
            None
        }
    }
}

} // verus!
