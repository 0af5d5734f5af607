//! The Random eviction policy.

use vstd::prelude::*;

use crate::eviction::EvictionPolicy;
use crate::model::PolicyModel;
use crate::vecops::lemma_without;
use crate::vecops::vec_contains;
use crate::vecops::vec_without;

verus! {

/// Relies on `rand::random_range`: a sample drawn from the range
/// `0..n` lies below `n`. The range is non-empty, so the call cannot
/// panic.
#[verifier::external_body]
fn random_below(n: usize) -> (r: usize)
    requires
        n >= 1,
    ensures
        r < n,
{
    rand::random_range(0..n)
}

/// Random eviction: the policy tracks the resident keys and, when
/// asked, discards one chosen by a fresh draw from the thread-local
/// random number generator. This is the one policy whose eviction
/// order is not a function of the operation history.
pub struct RandomEviction {
    keys: Vec<u64>,
}

impl RandomEviction {
    /// Creates a new Random eviction policy instance with no tracked
    /// keys.
    pub fn new() -> (r: Self)
        ensures
            r.wf(),
            r.abs() == (PolicyModel::Rand { keys: Seq::empty() }),
    {
        let r = RandomEviction { keys: Vec::new() };
        proof {
            assert(r.keys@ =~= Seq::<u64>::empty());
        }
        r
    }
}

impl EvictionPolicy for RandomEviction {
    closed spec fn abs(&self) -> PolicyModel {
        PolicyModel::Rand { keys: self.keys@ }
    }

    closed spec fn wf(&self) -> bool {
        true
    }

    fn on_insert(&mut self, key: u64) {
        if !vec_contains(&self.keys, key) {
            self.keys.push(key);
        }
    }

    fn on_access(&mut self, key: u64) {
        // Recency plays no part in random eviction.
    }

    fn on_remove(&mut self, key: u64) {
        self.keys = vec_without(&self.keys, key);
    }

    fn evict(&mut self) -> (victim: Option<u64>) {
        if self.keys.len() == 0 {
            None
        } else {
            let i = random_below(self.keys.len());
            let k = self.keys[i];
            proof {
                assert(self.keys@.contains(k));
            }
            self.keys = vec_without(&self.keys, k);
            Some(k)
        }
    }
}

} // verus!
