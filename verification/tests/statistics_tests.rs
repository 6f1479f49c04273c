use slabcache::Statistics;

#[test]
fn test_new_statistics_are_zero() {
    let stats = Statistics::new();
    assert_eq!(stats.get_hits(), 0);
    assert_eq!(stats.get_misses(), 0);
    assert_eq!(stats.get_current_size(), 0);
}

#[test]
fn test_hit_and_miss_counters() {
    let mut stats = Statistics::new();
    stats.hit();
    stats.hit();
    stats.miss();
    assert_eq!(stats.get_hits(), 2);
    assert_eq!(stats.get_misses(), 1);
    assert_eq!(stats.get_current_size(), 0);
}

#[test]
fn test_update_size_overwrites() {
    let mut stats = Statistics::new();
    stats.update_size(5);
    stats.update_size(2);
    assert_eq!(stats.get_current_size(), 2);
    assert_eq!(stats.get_hits(), 0);
    assert_eq!(stats.get_misses(), 0);
}
