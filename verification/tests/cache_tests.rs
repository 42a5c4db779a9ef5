use std::sync::Arc;
use zoo::cache::StaticCache;

#[test]
fn test_cache_insert_and_get() {
    let cache: StaticCache<usize, String> = StaticCache::new();

    let value = cache.get_or_insert(42, "hello".to_string());
    assert_eq!(&*value, "hello");

    // Second insert with same key returns original value
    let value2 = cache.get_or_insert(42, "world".to_string());
    assert_eq!(&*value2, "hello");

    // Different key works
    let value3 = cache.get_or_insert(99, "world".to_string());
    assert_eq!(&*value3, "world");
}

#[test]
fn test_cache_get_missing() {
    let cache: StaticCache<usize, String> = StaticCache::new();
    assert!(cache.get(&42).is_none());
}

#[test]
fn test_cache_arc_sharing() {
    let cache: StaticCache<usize, String> = StaticCache::new();

    let arc1 = cache.get_or_insert(1, "shared".to_string());
    let arc2 = cache.get(&1).unwrap();

    // Both point to the same allocation
    assert!(Arc::ptr_eq(&arc1, &arc2));
}

#[test]
fn first_writer_wins_and_reads_agree() {
    let cache: StaticCache<String, u64> = StaticCache::new();
    let first = cache.get_or_insert("layout".to_string(), 7);
    let second = cache.get_or_insert("layout".to_string(), 8);
    assert_eq!(*first, 7);
    assert_eq!(*second, 7);
    assert_eq!(*cache.get(&"layout".to_string()).unwrap(), 7);
}
