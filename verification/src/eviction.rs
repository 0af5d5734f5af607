//! Eviction policies for cache management.
//!
//! Each policy keeps its own bookkeeping (ordering queues, frequency
//! counters, reference bits, ghost lists) and answers which key should
//! leave the cache next. The [`EvictionPolicy`] trait ties every
//! callback to the transition of the policy's abstract state in
//! [`crate::model`].

use vstd::prelude::*;

use crate::model::evict_rel;
use crate::model::policy_on_access;
use crate::model::policy_on_insert;
use crate::model::policy_on_remove;
use crate::model::PolicyModel;

pub mod arc;
pub mod fifo;
pub mod klru;
pub mod lfu;
pub mod lru;
pub mod mru;
pub mod random;
pub mod second_chance;
pub mod sfifo;
pub mod slru;

pub use arc::ARC;
pub use fifo::FIFO;
pub use klru::KLRU;
pub use lfu::LFU;
pub use lru::LRU;
pub use mru::MRU;
pub use random::RandomEviction;
pub use second_chance::SecondChance;
pub use sfifo::SFIFO;
pub use slru::SLRU;

verus! {

/// The contract between a cache and its eviction policy.
///
/// A policy exposes its bookkeeping as an abstract state (`abs`), and
/// each callback promises to transform that state exactly as the
/// matching spec function in [`crate::model`] says. `evict` is
/// relational, because the Random policy may report any tracked key.
pub trait EvictionPolicy: Sized {
    /// The abstract bookkeeping state the policy maintains.
    spec fn abs(&self) -> PolicyModel;

    /// Structural validity of the concrete representation.
    spec fn wf(&self) -> bool;

    /// Called after a key is inserted into the cache.
    fn on_insert(&mut self, key: u64)
        requires
            old(self).wf(),
        ensures
            final(self).wf(),
            final(self).abs() == policy_on_insert(old(self).abs(), key),
    ;

    /// Called after a resident key is read.
    fn on_access(&mut self, key: u64)
        requires
            old(self).wf(),
        ensures
            final(self).wf(),
            final(self).abs() == policy_on_access(old(self).abs(), key),
    ;

    /// Called when a key is removed by the user.
    fn on_remove(&mut self, key: u64)
        requires
            old(self).wf(),
        ensures
            final(self).wf(),
            final(self).abs() == policy_on_remove(old(self).abs(), key),
    ;

    /// Picks a key to discard and purges it from the bookkeeping;
    /// reports no candidate only as [`crate::model::evict_rel`] allows.
    fn evict(&mut self) -> (victim: Option<u64>)
        requires
            old(self).wf(),
        ensures
            final(self).wf(),
            evict_rel(old(self).abs(), final(self).abs(), victim),
    ;
}

} // verus!
