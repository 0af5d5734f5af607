//! Unit tests for the caching library.
//!
//! Keys are interned as `u64` handles; the values below carry owned
//! string data to exercise non-trivial value types.

use cache_lib::{Cache, Store, ARC, FIFO, KLRU, LFU, LRU, MRU, RandomEviction, SecondChance, SFIFO, SLRU};

/// Custom struct to test the cache with complex value types.
#[derive(Debug, PartialEq, Clone)]
struct TestValue {
    data: String,
}

fn value(data: &str) -> TestValue {
    TestValue { data: data.to_string() }
}

/// Tests the basic functionality of the Cache.
#[test]
fn test_cache_basic_operations() {
    let eviction_policy = LRU::new();
    let mut cache = Cache::new(eviction_policy, 3);

    let key1: u64 = 1;
    let value1 = value("value1");
    let key2: u64 = 2;
    let value2 = value("value2");

    // Test insertion and retrieval
    cache.set(key1, value1.clone());
    assert_eq!(cache.get(key1), Some(&value1));

    // Test updating a value
    cache.set(key1, value2.clone());
    assert_eq!(cache.get(key1), Some(&value2));

    // Test inserting a second key
    cache.set(key2, value1.clone());
    assert_eq!(cache.get(key2), Some(&value1));

    // Test removing a key
    assert_eq!(cache.remove(key1), Some(value2));
    assert_eq!(cache.get(key1), None);
}

/// Tests the LRU eviction policy.
#[test]
fn test_lru_eviction_policy() {
    let eviction_policy = LRU::new();
    let mut cache = Cache::new(eviction_policy, 2);

    let value1 = value("value1");
    let value2 = value("value2");
    let value3 = value("value3");

    // Insert two key-value pairs
    cache.set(1, value1.clone());
    cache.set(2, value2.clone());

    // Access key 1 to make it recently used
    assert_eq!(cache.get(1), Some(&value1));

    // Insert another key-value pair to trigger eviction
    cache.set(3, value3.clone());

    // Check that key 2 has been evicted
    assert_eq!(cache.get(2), None);
    assert_eq!(cache.get(1), Some(&value1));
    assert_eq!(cache.get(3), Some(&value3));
}

/// Tests the Store functionality.
#[test]
fn test_store_operations() {
    let mut store = Store::new();

    let key1: u64 = 1;
    let value1 = value("value1");
    let key2: u64 = 2;
    let value2 = value("value2");

    // Test insertion and retrieval
    store.insert(key1, value1.clone());
    assert_eq!(store.get(key1), Some(&value1));

    // Test updating a value
    store.insert(key1, value2.clone());
    assert_eq!(store.get(key1), Some(&value2));

    // Test inserting a second key
    store.insert(key2, value1.clone());
    assert_eq!(store.get(key2), Some(&value1));

    // Test removing a key
    assert_eq!(store.remove(key1), Some(value2));
    assert_eq!(store.get(key1), None);

    // Test contains_key
    assert_eq!(store.contains_key(key2), true);
    assert_eq!(store.contains_key(key1), false);
}

/// Tests the FIFO eviction policy.
#[test]
fn test_fifo_eviction_policy() {
    let eviction_policy = FIFO::new();
    let mut cache = Cache::new(eviction_policy, 2);

    let value1 = value("value1");
    let value2 = value("value2");
    let value3 = value("value3");

    // Insert two key-value pairs
    cache.set(1, value1.clone());
    cache.set(2, value2.clone());

    // Insert another key-value pair to trigger eviction
    cache.set(3, value3.clone());

    // Check that key 1 has been evicted
    assert_eq!(cache.get(1), None);
    assert_eq!(cache.get(2), Some(&value2));
    assert_eq!(cache.get(3), Some(&value3));
}

/// Tests the LFU eviction policy.
#[test]
fn test_lfu_eviction_policy() {
    let eviction_policy = LFU::new();
    let mut cache = Cache::new(eviction_policy, 2);

    let value1 = value("value1");
    let value2 = value("value2");
    let value3 = value("value3");

    // Insert two key-value pairs
    cache.set(1, value1.clone());
    cache.set(2, value2.clone());

    // Access key 1 to increase its frequency
    cache.get(1);

    // Insert another key-value pair to trigger eviction
    cache.set(3, value3.clone());

    // Check that key 2 has been evicted
    assert_eq!(cache.get(2), None);
    assert_eq!(cache.get(1), Some(&value1));
    assert_eq!(cache.get(3), Some(&value3));
}

/// Tests the MRU eviction policy.
#[test]
fn test_mru_eviction_policy() {
    let eviction_policy = MRU::new();
    let mut cache = Cache::new(eviction_policy, 2);

    let value1 = value("value1");
    let value2 = value("value2");
    let value3 = value("value3");

    // Insert two key-value pairs
    cache.set(1, value1.clone());
    cache.set(2, value2.clone());

    // Access key 2 to make it recently used
    assert_eq!(cache.get(2), Some(&value2));

    // Insert another key-value pair to trigger eviction
    cache.set(3, value3.clone());

    // Check that key 2 has been evicted
    assert_eq!(cache.get(2), None);
    assert_eq!(cache.get(1), Some(&value1));
    assert_eq!(cache.get(3), Some(&value3));
}

/// Tests the Random eviction policy.
#[test]
fn test_random_eviction_policy() {
    let eviction_policy = RandomEviction::new();
    let mut cache = Cache::new(eviction_policy, 2);

    let value1 = value("value1");
    let value2 = value("value2");
    let value3 = value("value3");

    // Insert two key-value pairs
    cache.set(1, value1.clone());
    cache.set(2, value2.clone());

    // Insert another key-value pair to trigger eviction
    cache.set(3, value3.clone());

    // Check that one of the first two keys has been evicted
    let key1_evicted = cache.get(1).is_none();
    let key2_evicted = cache.get(2).is_none();
    assert!(key1_evicted || key2_evicted);
    assert_eq!(cache.get(3), Some(&value3));
}

/// Tests the SLRU eviction policy.
#[test]
fn test_slru_eviction_policy() {
    let eviction_policy = SLRU::new(1, 1);
    let mut cache = Cache::new(eviction_policy, 2);

    let value1 = value("value1");
    let value2 = value("value2");
    let value3 = value("value3");

    // Insert two key-value pairs
    cache.set(1, value1.clone());
    cache.set(2, value2.clone());

    // Access key 1 to move it to the protected segment
    assert_eq!(cache.get(1), Some(&value1));

    // Insert another key-value pair to trigger eviction
    cache.set(3, value3.clone());

    // Check that key 2 has been evicted
    assert_eq!(cache.get(2), None);
    assert_eq!(cache.get(1), Some(&value1));
    assert_eq!(cache.get(3), Some(&value3));
}

/// Tests the SFIFO eviction policy.
#[test]
fn test_sfifo_eviction_policy() {
    let eviction_policy = SFIFO::new(2, 2); // 2 segments, each with a capacity of 2
    let mut cache = Cache::new(eviction_policy, 4);

    let value1 = value("value1");
    let value2 = value("value2");
    let value3 = value("value3");
    let value4 = value("value4");
    let value5 = value("value5");

    // Insert four key-value pairs (two per segment)
    cache.set(1, value1.clone());
    cache.set(2, value2.clone());
    cache.set(3, value3.clone());
    cache.set(4, value4.clone());

    // Insert another key-value pair to trigger eviction
    cache.set(5, value5.clone());

    // Check evictions: exactly one of the first four keys has left
    let mut evicted_keys: Vec<u64> = Vec::new();
    for k in [1u64, 2, 3, 4] {
        if cache.get(k).is_none() {
            evicted_keys.push(k);
        }
    }
    assert_eq!(evicted_keys.len(), 1);
    assert_eq!(cache.get(5), Some(&value5));
    assert_eq!(cache.get(evicted_keys[0]), None);
}

/// Tests the KLRU eviction policy.
#[test]
fn test_klru_eviction_policy() {
    let eviction_policy = KLRU::new(1); // Evict the 2nd most recently used key
    let mut cache = Cache::new(eviction_policy, 2);

    let value1 = value("value1");
    let value2 = value("value2");
    let value3 = value("value3");

    // Insert two key-value pairs
    cache.set(1, value1.clone());
    cache.set(2, value2.clone());

    // Access key 2 to make it the most recently used
    assert_eq!(cache.get(2), Some(&value2));

    // Insert another key-value pair to trigger eviction
    cache.set(3, value3.clone());

    // Check that key 1 has been evicted (2nd most recently used)
    assert_eq!(cache.get(1), None);
    assert_eq!(cache.get(2), Some(&value2));
    assert_eq!(cache.get(3), Some(&value3));
}

#[test]
fn test_second_chance_eviction_policy() {
    let eviction_policy = SecondChance::new();
    let mut cache = Cache::new(eviction_policy, 2);

    let value1 = value("value1");
    let value2 = value("value2");
    let value3 = value("value3");

    // Insert two key-value pairs
    cache.set(1, value1.clone());
    cache.set(2, value2.clone());

    // Access key 1 to set its reference bit
    assert_eq!(cache.get(1), Some(&value1));

    // Insert another key-value pair to trigger eviction
    cache.set(3, value3.clone());

    // Check that key 2 has been evicted
    assert_eq!(cache.get(2), None);
    assert_eq!(cache.get(1), Some(&value1));
    assert_eq!(cache.get(3), Some(&value3));
}

/// Tests the ARC eviction policy.
#[test]
fn test_arc_eviction_policy() {
    let eviction_policy = ARC::new(2);
    let mut cache = Cache::new(eviction_policy, 2);

    let value1 = value("value1");
    let value2 = value("value2");
    let value3 = value("value3");

    // Insert two key-value pairs
    cache.set(1, value1.clone());
    cache.set(2, value2.clone());

    // Access key 1 to move it to t2
    assert_eq!(cache.get(1), Some(&value1));

    // Insert another key-value pair to trigger eviction
    cache.set(3, value3.clone());

    // Check that key 2 has been evicted
    assert_eq!(cache.get(2), None);
    assert_eq!(cache.get(1), Some(&value1));
    assert_eq!(cache.get(3), Some(&value3));
}
