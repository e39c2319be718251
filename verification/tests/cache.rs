use std::collections::hash_map::DefaultHasher;
use std::hash::{Hash, Hasher};
use tokenizer_utils::cache::{
    cap_per_shard, get_from, group_by_shard, merge_into, set_in, shard_for_hash, shard_index, Cache,
    DEFAULT_CACHE_CAPACITY, DEFAULT_MERGE_AFTER_INSERTS, MAX_LENGTH, NUM_SHARDS,
};
use tokenizer_utils::entry_map::EntryMap;

/// `n` different keys that all belong to the shard of `like`.
fn keys_in_shard_of(like: &str, n: usize) -> Vec<String> {
    let shard = shard_index(like);
    let mut keys = Vec::new();
    let mut i = 0;
    while keys.len() < n {
        let key = format!("key{}", i);
        if shard_index(&key) == shard {
            keys.push(key);
        }
        i += 1;
    }
    keys
}

fn buffer(entries: &[(&str, i32)]) -> EntryMap<i32> {
    let mut buf = EntryMap::with_capacity(entries.len());
    for (key, value) in entries {
        buf.insert(key.to_string(), *value);
    }
    buf
}

#[test]
fn constants() {
    assert_eq!(DEFAULT_CACHE_CAPACITY, 10_000);
    assert_eq!(DEFAULT_MERGE_AFTER_INSERTS, 256);
    assert_eq!(NUM_SHARDS, 64);
    assert_eq!(MAX_LENGTH, 256);
}

#[test]
fn shard_index_is_the_default_hash_modulo_the_shards() {
    for key in ["", "a", "hello", "wörld", "👋"] {
        let mut hasher = DefaultHasher::new();
        key.hash(&mut hasher);
        assert_eq!(shard_index(key), (hasher.finish() % 64) as usize);
    }
    let shards: std::collections::BTreeSet<usize> =
        (0..1000).map(|i| shard_index(&format!("{}", i))).collect();
    assert!(shards.len() > 32);
}

#[test]
fn shard_for_given_hashes() {
    assert_eq!(shard_for_hash(0), 0);
    assert_eq!(shard_for_hash(63), 63);
    assert_eq!(shard_for_hash(64), 0);
    assert_eq!(shard_for_hash(u64::MAX), 63);
    assert_eq!(shard_for_hash(0x1_0000_0001), 1);
}

#[test]
fn capacity_is_spread_over_the_shards() {
    assert_eq!(cap_per_shard(0), 0);
    assert_eq!(cap_per_shard(1), 1);
    assert_eq!(cap_per_shard(64), 1);
    assert_eq!(cap_per_shard(65), 2);
    assert_eq!(cap_per_shard(10_000), 157);
}

#[test]
fn entry_map_operations() {
    let mut map = EntryMap::with_capacity(4);
    assert!(map.is_empty());
    assert_eq!(map.len(), 0);
    assert_eq!(map.get("a"), None);
    map.insert("a".to_string(), 1);
    map.insert("b".to_string(), 2);
    map.insert("a".to_string(), 3);
    assert!(!map.is_empty());
    assert_eq!(map.len(), 2);
    assert_eq!(map.get("a"), Some(&3));
    assert_eq!(map.get("b"), Some(&2));
    assert_eq!(map.get("c"), None);
    map.shrink_to(0);
    assert_eq!(map.len(), 2);
    assert_eq!(map.get("a"), Some(&3));
    let mut entries = map.drain();
    entries.sort();
    assert_eq!(entries, vec![("a".to_string(), 3), ("b".to_string(), 2)]);
    assert!(map.is_empty());
    assert_eq!(map.get("a"), None);
    map.insert("d".to_string(), 4);
    assert_eq!(map.get("d"), Some(&4));
    map.clear();
    assert!(map.is_empty());
    assert_eq!(map.get("d"), None);
}

#[test]
fn read_after_write() {
    let mut cache = Cache::new(1000);
    assert_eq!(cache.get("hello"), None);
    cache.set("hello".to_string(), vec![1, 2, 3]);
    assert_eq!(cache.get("hello"), Some(vec![1, 2, 3]));
    assert_eq!(cache.get("world"), None);
    cache.set("hello".to_string(), vec![4]);
    assert_eq!(cache.get("hello"), Some(vec![4]));
    cache.set("world".to_string(), vec![5]);
    assert_eq!(cache.get("hello"), Some(vec![4]));
}

#[test]
fn several_values_at_once() {
    let mut cache = Cache::new(1000);
    cache.set_values(vec![("a".to_string(), 1), ("b".to_string(), 2), ("a".to_string(), 3)]);
    assert_eq!(cache.get_values(&vec!["a", "x", "b"]), Some(vec![Some(3), None, Some(2)]));
    assert_eq!(cache.get_values(&vec![]), Some(vec![]));
}

#[test]
fn a_full_shard_takes_no_write() {
    let mut cache = Cache::new(64);
    let keys = keys_in_shard_of("x", 3);
    cache.set(keys[0].clone(), 1);
    // Another key, and the same key again: both are dropped.
    cache.set(keys[1].clone(), 2);
    cache.set(keys[0].clone(), 3);
    assert_eq!(cache.get(&keys[0]), Some(1));
    assert_eq!(cache.get(&keys[1]), None);
}

#[test]
fn a_cache_without_capacity_stays_empty() {
    let mut cache = Cache::new(0);
    cache.set("a".to_string(), 1);
    assert_eq!(cache.get("a"), None);
    let mut buf = buffer(&[("a", 1)]);
    cache.flush_buf(&mut buf);
    assert!(buf.is_empty());
    assert_eq!(cache.get("a"), None);
}

#[test]
fn capacity_bounds_the_number_of_entries() {
    let mut cache = Cache::new(100);
    for i in 0..1000 {
        cache.set(format!("{}", i), i);
    }
    let held = (0..1000).filter(|i| cache.get(&format!("{}", i)).is_some()).count();
    assert!(held < 100 + NUM_SHARDS);
    assert!(held > 64);
}

#[test]
fn flush_merges_and_empties_the_buffer() {
    let mut cache = Cache::new(6400);
    cache.set("a".to_string(), 1);
    cache.set("b".to_string(), 2);
    let mut buf = buffer(&[("b", 20), ("c", 30)]);
    cache.flush_buf(&mut buf);
    assert!(buf.is_empty());
    assert_eq!(cache.get("a"), Some(1));
    assert_eq!(cache.get("b"), Some(20));
    assert_eq!(cache.get("c"), Some(30));
    // An empty buffer changes nothing.
    cache.flush_buf(&mut buf);
    assert_eq!(cache.get("b"), Some(20));
}

#[test]
fn flush_takes_no_more_than_there_is_room_for() {
    let mut cache = Cache::new(128);
    let keys = keys_in_shard_of("x", 4);
    cache.set(keys[0].clone(), 0);
    let mut buf = EntryMap::with_capacity(4);
    for key in &keys[1..] {
        buf.insert(key.clone(), 1);
    }
    cache.flush_buf(&mut buf);
    assert!(buf.is_empty());
    assert_eq!(cache.get(&keys[0]), Some(0));
    let merged = keys[1..].iter().filter(|key| cache.get(key) == Some(1)).count();
    assert_eq!(merged, 1);
}

#[test]
fn grouping_caps_each_group() {
    let keys = keys_in_shard_of("x", 3);
    let mut buf = EntryMap::with_capacity(4);
    for key in &keys {
        buf.insert(key.clone(), 1);
    }
    let groups = group_by_shard(&mut buf, 2);
    assert!(buf.is_empty());
    assert_eq!(groups.len(), NUM_SHARDS);
    for (i, group) in groups.iter().enumerate() {
        assert_eq!(group.len(), if i == shard_index("x") { 2 } else { 0 });
    }
}

#[test]
fn busy_shards_read_as_empty_and_drop_writes() {
    assert_eq!(get_from::<i32>(None, "a"), None);
    set_in::<i32>(None, 1, "a".to_string(), 1);
    merge_into::<i32>(None, 1, vec![("a".to_string(), 1)]);
    let mut shard = EntryMap::with_capacity(1);
    set_in(Some(&mut shard), 1, "a".to_string(), 1);
    assert_eq!(get_from(Some(&shard), "a"), Some(1));
    merge_into(Some(&mut shard), 3, vec![
        ("b".to_string(), 2),
        ("c".to_string(), 3),
        ("d".to_string(), 4),
    ]);
    assert_eq!(get_from(Some(&shard), "b"), Some(2));
    assert_eq!(get_from(Some(&shard), "c"), Some(3));
    assert_eq!(get_from(Some(&shard), "d"), None);
}

#[test]
fn a_merge_counts_entries_that_overwrite() {
    let mut shard = buffer(&[("a", 1)]);
    merge_into(Some(&mut shard), 2, vec![("a".to_string(), 10), ("b".to_string(), 20)]);
    assert_eq!(shard.get("a"), Some(&10));
    assert_eq!(shard.get("b"), None);
}

#[test]
fn clear_removes_everything() {
    let mut cache = Cache::new(1000);
    for i in 0..100 {
        cache.set(format!("{}", i), i);
    }
    cache.clear();
    for i in 0..100 {
        assert_eq!(cache.get(&format!("{}", i)), None);
    }
    assert_eq!(cache.capacity(), 1000);
}

#[test]
fn fresh_keeps_the_configuration() {
    let mut cache = Cache::new(123);
    cache.set_merge_after_inserts(7);
    assert_eq!(cache.capacity(), 123);
    assert_eq!(cache.merge_after_inserts(), 7);
    cache.set("a".to_string(), 1);
    let fresh = cache.fresh();
    assert_eq!(fresh.capacity(), 123);
    assert_eq!(fresh.merge_after_inserts(), 7);
    assert_eq!(fresh.get("a"), None);
    assert_eq!(cache.get("a"), Some(1));
}

#[test]
fn resize_keeps_entries() {
    let mut cache = Cache::new(64 * 3);
    let keys = keys_in_shard_of("x", 4);
    for key in &keys[..3] {
        cache.set(key.clone(), 1);
    }
    cache.resize(64);
    assert_eq!(cache.capacity(), 64);
    for key in &keys[..3] {
        assert_eq!(cache.get(key), Some(1));
    }
    // The shard holds more than its new capacity, and takes nothing more.
    cache.set(keys[3].clone(), 1);
    assert_eq!(cache.get(&keys[3]), None);
    let mut buf = buffer(&[(keys[0].as_str(), 2), (keys[3].as_str(), 2)]);
    cache.flush_buf(&mut buf);
    assert!(buf.is_empty());
    assert_eq!(cache.get(&keys[0]), Some(1));
    assert_eq!(cache.get(&keys[3]), None);
    cache.resize(64 * 4);
    cache.set(keys[3].clone(), 1);
    assert_eq!(cache.get(&keys[3]), Some(1));
}

#[test]
fn default_cache_and_equality() {
    let mut cache: Cache<i32> = Cache::default();
    assert_eq!(cache.capacity(), 10_000);
    assert_eq!(cache.merge_after_inserts(), 256);
    assert!(cache == Cache::new(5));
    cache.set("a".to_string(), 1);
    assert!(cache == Cache::new(5));
}
