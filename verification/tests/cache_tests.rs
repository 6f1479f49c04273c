use slabcache::Cache;
use slabcache::SortOrder;

#[test]
fn test_cache_basic() {
    let mut cache = Cache::new(10);
    let key = cache.insert("hello", "world");
    assert_eq!(cache.get(key), Some(&"world"));
}

#[test]
fn test_lru_eviction() {
    let mut cache = Cache::new(2);

    let key1 = cache.insert("key1", "value1");
    let key2 = cache.insert("key2", "value2");

    let _value = cache.get(key1);
    let _value = cache.get(key2);
    let _value = cache.get(key2);

    // At this point, the cache is full. The next insert should evict the
    // least recently used item (key1).
    let key3 = cache.insert("key3", "value3");

    // Check that the value associated with key1 has been evicted.
    assert_eq!(cache.get(key1), None);

    // Check that the values associated with key2 and key3 are still in the cache.
    assert_eq!(cache.get(key2), Some(&"value2"));
    assert_eq!(cache.get(key3), Some(&"value3"));
}

#[test]
fn test_get_lru_element() {
    let mut cache = Cache::new(2);
    let key1 = cache.insert("key1", "value1");
    let _key2 = cache.insert("key2", "value2");

    let _value = cache.get(key1);

    // key1 was just accessed, so key2 is now the least recently used entry
    assert_eq!(cache.get_lru(), Some(&"value2"));
}

#[test]
fn test_frequency_iter() {
    let mut cache = Cache::new(3);

    let key1 = cache.insert("key1", "value1");
    let key2 = cache.insert("key2", "value2");
    let key3 = cache.insert("key3", "value3");

    let _ = cache.get(key1);
    let _ = cache.get(key1);
    let _ = cache.get(key1);
    let _ = cache.get(key2);
    let _ = cache.get(key2);
    let _ = cache.get(key3);

    let mut ascending_keys: Vec<&str> = Vec::new();
    let mut it = cache.iter_frequency(SortOrder::Ascending);
    while let Some((k, _, _)) = it.next() {
        ascending_keys.push(*k);
    }
    let mut descending_keys: Vec<&str> = Vec::new();
    let mut it = cache.iter_frequency(SortOrder::Descending);
    while let Some((k, _, _)) = it.next() {
        descending_keys.push(*k);
    }
    assert_eq!(ascending_keys, vec!["key3", "key2", "key1"]);
    assert_eq!(descending_keys, vec!["key1", "key2", "key3"]);
}

#[test]
fn test_statistics() {
    let mut cache = Cache::new(3);

    cache.insert("key1", "value1");
    cache.insert("key2", "value2");
    cache.insert("key3", "value3");

    cache.get("key1");
    cache.get("key2");
    cache.get("key4"); // Miss

    assert_eq!(cache.statistics().get_hits(), 2);
    assert_eq!(cache.statistics().get_misses(), 1);
    assert_eq!(cache.statistics().get_current_size(), 3);
}

#[test]
fn test_metadata_fields() {
    let mut cache = Cache::new(3);

    let key1 = cache.insert("key1", "value1");
    let key2 = cache.insert("key2", "value2");

    cache.get(key1);
    cache.get(key1);
    cache.get(key2);
    // Force a miss
    cache.get("key4");

    let mut found1 = false;
    let mut found2 = false;
    let mut it = cache.iter_frequency(SortOrder::Ascending);
    while let Some((k, _, meta)) = it.next() {
        if *k == "key1" {
            assert!(meta.last_accessed() > 0);
            assert_eq!(meta.frequency(), 2);
            assert_eq!(meta.hits(), 2);
            found1 = true;
        }
        if *k == "key2" {
            assert!(meta.last_accessed() > 0);
            assert_eq!(meta.frequency(), 1);
            assert_eq!(meta.hits(), 1);
            found2 = true;
        }
    }
    assert!(found1);
    assert!(found2);
}

#[test]
fn test_capacity_never_exceeded() {
    let mut cache = Cache::new(3);
    for i in 0u64..10u64 {
        cache.insert(i, i * 10);
        assert!(cache.statistics().get_current_size() <= 3);
    }
    assert_eq!(cache.statistics().get_current_size(), 3);
}

#[test]
fn test_hit_miss_accounting() {
    let mut cache = Cache::new(3);
    cache.insert("a", 1u64);
    cache.insert("b", 2u64);
    cache.insert("c", 3u64);

    cache.get("a"); // hit
    cache.get("zzz"); // miss

    assert_eq!(cache.statistics().get_hits(), 1);
    assert_eq!(cache.statistics().get_misses(), 1);
    assert_eq!(cache.statistics().get_current_size(), 3);
}

#[test]
fn test_flush_empties_but_keeps_statistics() {
    let mut cache = Cache::new(2);
    let k1 = cache.insert("one", 1u64);
    let k2 = cache.insert("two", 2u64);
    cache.get(k1);
    cache.get("absent");

    cache.flush();

    assert_eq!(cache.get_lru(), None);
    assert_eq!(cache.get(k1), None);
    assert_eq!(cache.get(k2), None);
    // the flush itself left the counters untouched; the two post-flush
    // lookups above each recorded one more miss
    assert_eq!(cache.statistics().get_hits(), 1);
    assert_eq!(cache.statistics().get_misses(), 3);
}

#[test]
fn test_insert_existing_key_replaces_entry() {
    let mut cache = Cache::new(2);
    cache.insert("dup", 1u64);
    cache.insert("dup", 2u64);
    assert_eq!(cache.get("dup"), Some(&2u64));
    assert_eq!(cache.statistics().get_current_size(), 1);
}

#[test]
fn test_insert_returns_key() {
    let mut cache: Cache<&str, u64> = Cache::new(2);
    let returned = cache.insert("alpha", 7);
    assert_eq!(returned, "alpha");
}

#[test]
fn test_get_lru_empty_cache() {
    let cache: Cache<&str, u64> = Cache::new(4);
    assert_eq!(cache.get_lru(), None);
}

#[test]
fn test_iter_frequency_empty_cache() {
    let cache: Cache<&str, u64> = Cache::new(4);
    let mut it = cache.iter_frequency(SortOrder::Ascending);
    assert!(it.next().is_none());
}

#[test]
fn test_recency_after_access() {
    let mut cache = Cache::new(2);
    let a = cache.insert("a", 1u64);
    let _b = cache.insert("b", 2u64);
    // a becomes most recently used, so b is the eviction candidate
    cache.get(a);
    cache.insert("c", 3u64);
    assert_eq!(cache.get("b"), None);
    assert_eq!(cache.get("a"), Some(&1u64));
    assert_eq!(cache.get("c"), Some(&3u64));
}

#[test]
fn test_string_keys() {
    let mut cache: Cache<String, String> = Cache::new(2);
    cache.insert(String::from("key1"), String::from("value1"));
    cache.insert(String::from("key2"), String::from("value2"));
    assert_eq!(cache.get(String::from("key1")), Some(&String::from("value1")));
    cache.insert(String::from("key3"), String::from("value3"));
    // key2 was least recently used and has been evicted
    assert_eq!(cache.get(String::from("key2")), None);
    assert_eq!(cache.get(String::from("key3")), Some(&String::from("value3")));
}

#[test]
fn test_u64_keys() {
    let mut cache: Cache<u64, &str> = Cache::new(2);
    cache.insert(10, "ten");
    cache.insert(20, "twenty");
    assert_eq!(cache.get(10), Some(&"ten"));
    cache.insert(30, "thirty");
    assert_eq!(cache.get(20), None);
    assert_eq!(cache.get(30), Some(&"thirty"));
}

#[test]
fn test_iter_frequency_equal_frequencies_sorted() {
    let mut cache = Cache::new(3);
    cache.insert("x", 1u64);
    cache.insert("y", 2u64);
    cache.insert("z", 3u64);
    cache.get("x");
    cache.get("y");
    // frequencies: x = 1, y = 1, z = 0; ascending must be non-decreasing
    let mut freqs: Vec<usize> = Vec::new();
    let mut it = cache.iter_frequency(SortOrder::Ascending);
    while let Some((_, _, meta)) = it.next() {
        freqs.push(meta.frequency());
    }
    assert_eq!(freqs.len(), 3);
    for w in freqs.windows(2) {
        assert!(w[0] <= w[1]);
    }
    assert_eq!(freqs[0], 0);
}

#[test]
fn test_new_entry_metadata_is_zeroed() {
    let mut cache = Cache::new(2);
    cache.insert("fresh", 5u64);
    let mut it = cache.iter_frequency(SortOrder::Ascending);
    let (k, v, meta) = it.next().unwrap();
    assert_eq!(*k, "fresh");
    assert_eq!(*v, 5u64);
    assert_eq!(meta.frequency(), 0);
    assert_eq!(meta.hits(), 0);
    assert_eq!(meta.last_accessed(), 0);
    assert_eq!(*meta.user_key(), "fresh");
}
