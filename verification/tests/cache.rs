use comparator_layers::cache::{CacheManager, CACHE_LIMIT};

#[test]
fn a_new_cache_knows_nothing() {
    let mut cache = CacheManager::new();
    assert_eq!(cache.lookup(&vec![0, 1, 2], 0, 3), None);
    assert_eq!(CACHE_LIMIT, 10000);
}

#[test]
fn lookup_finds_what_was_recorded() {
    let mut cache = CacheManager::with_limit(4);
    cache.record(&vec![0, 0, 1], 2, 5, true);
    assert_eq!(cache.lookup(&vec![0, 0, 1], 2, 5), Some(true));
    cache.record(&vec![2, 2, 2], 0, 1, false);
    assert_eq!(cache.lookup(&vec![2, 2, 2], 0, 1), Some(false));
}

#[test]
fn the_key_is_the_state_the_last_layer_and_the_depth() {
    let mut cache = CacheManager::with_limit(4);
    cache.record(&vec![0, 0, 1], 2, 5, true);
    assert_eq!(cache.lookup(&vec![0, 0, 1], 2, 4), None);
    assert_eq!(cache.lookup(&vec![0, 0, 1], 3, 5), None);
    assert_eq!(cache.lookup(&vec![0, 1, 1], 2, 5), None);
    assert_eq!(cache.lookup(&vec![0, 0, 1], 2, 5), Some(true));
}

#[test]
fn recording_again_replaces_the_value() {
    let mut cache = CacheManager::with_limit(2);
    cache.record(&vec![1], 0, 1, false);
    cache.record(&vec![1], 0, 1, true);
    assert_eq!(cache.lookup(&vec![1], 0, 1), Some(true));
    cache.record(&vec![2], 0, 1, true);
    assert_eq!(cache.lookup(&vec![1], 0, 1), Some(true));
    assert_eq!(cache.lookup(&vec![2], 0, 1), Some(true));
}

#[test]
fn a_full_cache_drops_the_least_recently_used_entry() {
    let mut cache = CacheManager::with_limit(2);
    cache.record(&vec![1], 0, 1, true);
    cache.record(&vec![2], 0, 1, true);
    cache.record(&vec![3], 0, 1, true);
    assert_eq!(cache.lookup(&vec![1], 0, 1), None);
    assert_eq!(cache.lookup(&vec![2], 0, 1), Some(true));
    assert_eq!(cache.lookup(&vec![3], 0, 1), Some(true));
}

#[test]
fn a_lookup_counts_as_a_use() {
    let mut cache = CacheManager::with_limit(2);
    cache.record(&vec![1], 0, 1, true);
    cache.record(&vec![2], 0, 1, true);
    assert_eq!(cache.lookup(&vec![1], 0, 1), Some(true));
    cache.record(&vec![3], 0, 1, true);
    assert_eq!(cache.lookup(&vec![2], 0, 1), None);
    assert_eq!(cache.lookup(&vec![1], 0, 1), Some(true));
    assert_eq!(cache.lookup(&vec![3], 0, 1), Some(true));
}

#[test]
fn a_cache_of_one_entry_keeps_the_latest() {
    let mut cache = CacheManager::with_limit(1);
    cache.record(&vec![1], 0, 1, true);
    cache.record(&vec![2], 0, 1, false);
    assert_eq!(cache.lookup(&vec![1], 0, 1), None);
    assert_eq!(cache.lookup(&vec![2], 0, 1), Some(false));
}
