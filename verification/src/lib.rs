//! A bounded, in-process key-value cache with a pluggable family of
//! eviction policies.
//!
//! The cache couples an unbounded [`Store`] (the resident key-to-value
//! mapping) with an [`EvictionPolicy`] that decides which key leaves when
//! the store is full. Keys are interned as `u64` handles; values are an
//! arbitrary type held only by the store.
//!
//! Every policy carries a mathematical model of its bookkeeping state
//! (see [`model`]), and every operation's contract states exactly how it
//! transforms that model.

pub mod cache;
pub mod eviction;
pub mod laws;
pub mod model;
pub mod store;
pub mod vecops;

pub use cache::Cache;
pub use eviction::{ARC, EvictionPolicy, FIFO, KLRU, LFU, LRU, MRU, RandomEviction, SecondChance, SFIFO, SLRU};
pub use store::Store;
