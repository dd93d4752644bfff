use shunyadb::cache::lru::LruCache;
use shunyadb::engine::metrics::EngineMetrics;

#[test]
fn lru_get_and_put() {
    let mut m = EngineMetrics::new();
    let mut c: LruCache<&str> = LruCache::new(2);
    assert_eq!(c.len(), 0);
    assert_eq!(c.get(&1), None);
    c.put(1, "one", &mut m);
    c.put(2, "two", &mut m);
    assert_eq!(c.len(), 2);
    assert_eq!(c.get(&1), Some(&"one"));
    // 2 is now the least recently used
    c.put(3, "three", &mut m);
    assert_eq!(m.page_cache_evictions, 1);
    assert_eq!(c.len(), 2);
    assert_eq!(c.get(&2), None);
    assert_eq!(c.get(&1), Some(&"one"));
    assert_eq!(c.get(&3), Some(&"three"));
}

#[test]
fn lru_put_refreshes_an_entry() {
    let mut m = EngineMetrics::new();
    let mut c: LruCache<u32> = LruCache::new(2);
    c.put(1, 10, &mut m);
    c.put(2, 20, &mut m);
    c.put(1, 11, &mut m);
    assert_eq!(m.page_cache_evictions, 0);
    assert_eq!(c.len(), 2);
    // 2 is the least recently used
    c.put(3, 30, &mut m);
    assert_eq!(m.page_cache_evictions, 1);
    assert_eq!(c.get(&2), None);
    assert_eq!(c.get(&1), Some(&11));
}

#[test]
fn lru_of_capacity_one() {
    let mut m = EngineMetrics::new();
    let mut c: LruCache<u32> = LruCache::new(1);
    c.put(1, 10, &mut m);
    c.put(2, 20, &mut m);
    assert_eq!(c.len(), 1);
    assert_eq!(c.get(&1), None);
    assert_eq!(c.get(&2), Some(&20));
    assert_eq!(m.page_cache_evictions, 1);
}

#[test]
fn eviction_counter_stops_at_the_top() {
    let mut m = EngineMetrics::new();
    m.page_cache_evictions = u64::MAX;
    let mut c: LruCache<u32> = LruCache::new(1);
    c.put(1, 10, &mut m);
    c.put(2, 20, &mut m);
    assert_eq!(m.page_cache_evictions, u64::MAX);
}
