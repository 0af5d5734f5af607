//! The Segmented LRU eviction policy.

use vstd::prelude::*;

use crate::eviction::lru::LRU;
use crate::eviction::EvictionPolicy;
use crate::model::lru_empty;
use crate::model::slru_promote;
use crate::model::PolicyModel;
use crate::model::SlruModel;

verus! {

/// Segmented LRU: a probationary segment receives new keys and a
/// protected segment receives keys accessed while probationary. Each
/// segment is an inner LRU with its own capacity; a full segment drops
/// its own LRU victim. Eviction is probationary-first.
pub struct SLRU {
    probationary: LRU,
    protected: LRU,
    probationary_capacity: usize,
    protected_capacity: usize,
}

impl SLRU {
    /// The two segments and their capacities.
    pub closed spec fn model(&self) -> SlruModel {
        SlruModel {
            probationary: self.probationary.model(),
            protected: self.protected.model(),
            probationary_capacity: self.probationary_capacity as nat,
            protected_capacity: self.protected_capacity as nat,
        }
    }

    /// Creates a new SLRU eviction policy instance with empty segments.
    ///
    /// # Parameters
    /// * `probationary_capacity`: the capacity of the probationary
    ///   segment.
    /// * `protected_capacity`: the capacity of the protected segment.
    pub fn new(probationary_capacity: usize, protected_capacity: usize) -> (r: Self)
        ensures
            r.wf(),
            r.abs() == PolicyModel::Slru(
                SlruModel {
                    probationary: lru_empty(),
                    protected: lru_empty(),
                    probationary_capacity: probationary_capacity as nat,
                    protected_capacity: protected_capacity as nat,
                },
            ),
    {
        SLRU {
            probationary: LRU::new(),
            protected: LRU::new(),
            probationary_capacity,
            protected_capacity,
        }
    }

    /// Promotes a probationary key into the protected segment, making
    /// room there by dropping the protected LRU victim if needed. The
    /// victim is purged from the segment bookkeeping exactly once.
    fn move_to_protected(&mut self, key: u64)
        requires
            old(self).wf(),
        ensures
            final(self).wf(),
            final(self).model() == slru_promote(old(self).model(), key),
    {
        if self.probationary.tracks(key) {
            if self.protected.tracked_len() >= self.protected_capacity {
                let _victim = self.protected.evict();
            }
            self.probationary.on_remove(key);
            self.protected.on_insert(key);
        }
    }
}

impl EvictionPolicy for SLRU {
    closed spec fn abs(&self) -> PolicyModel {
        PolicyModel::Slru(self.model())
    }

    closed spec fn wf(&self) -> bool {
        self.probationary.wf() && self.protected.wf()
    }

    fn on_insert(&mut self, key: u64) {
        if self.probationary.tracked_len() >= self.probationary_capacity {
            let _victim = self.probationary.evict();
        }
        self.probationary.on_insert(key);
    }

    fn on_access(&mut self, key: u64) {
        if self.probationary.tracks(key) {
            self.move_to_protected(key);
        } else {
            self.protected.on_access(key);
        }
    }

    fn on_remove(&mut self, key: u64) {
        if self.probationary.tracks(key) {
            self.probationary.on_remove(key);
        } else {
            self.protected.on_remove(key);
        }
    }

    fn evict(&mut self) -> (victim: Option<u64>) {
        if self.probationary.tracked_len() > 0 {
            self.probationary.evict()
        } else {
            self.protected.evict()
        }
    }
}

} // verus!
