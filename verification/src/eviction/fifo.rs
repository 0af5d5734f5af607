//! The First In First Out eviction policy.

use vstd::prelude::*;

use crate::eviction::EvictionPolicy;
use crate::model::PolicyModel;
use crate::vecops::vec_pop_front;
use crate::vecops::vec_without;

verus! {

/// First In First Out: keys queue up in insertion order and leave from
/// the front; accesses change nothing.
pub struct FIFO {
    queue: Vec<u64>,
}

impl FIFO {
    /// Creates a new FIFO eviction policy instance with an empty queue.
    pub fn new() -> (r: Self)
        ensures
            r.wf(),
            r.abs() == (PolicyModel::Fifo { queue: Seq::empty() }),
    {
        let r = FIFO { queue: Vec::new() };
        proof {
            assert(r.queue@ =~= Seq::<u64>::empty());
        }
        r
    }
}

impl EvictionPolicy for FIFO {
    closed spec fn abs(&self) -> PolicyModel {
        PolicyModel::Fifo { queue: self.queue@ }
    }

    closed spec fn wf(&self) -> bool {
        true
    }

    fn on_insert(&mut self, key: u64) {
        self.queue.push(key);
    }

    fn on_access(&mut self, key: u64) {
        // Recency plays no part in FIFO.
    }

    fn on_remove(&mut self, key: u64) {
        self.queue = vec_without(&self.queue, key);
    }

    fn evict(&mut self) -> (victim: Option<u64>) {
        vec_pop_front(&mut self.queue)
    }
}

} // verus!
