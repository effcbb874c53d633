use flashvault::{Cache, Clock, Stats, SystemClock, TestClock};

fn cache(capacity: usize) -> Cache<String, TestClock> {
    Cache::new(capacity, TestClock::new(0))
}

fn keys(c: &Cache<String, TestClock>) -> Vec<String> {
    c.keys_by_recency()
}

#[test]
fn read_after_write_returns_the_value_and_keeps_order() {
    let mut c = cache(3);
    c.put_at("x".into(), "10".into(), Some(50), 100);
    c.put_at("y".into(), "20".into(), None, 100);
    c.put_at("x".into(), "11".into(), Some(50), 120);
    assert_eq!(keys(&c), vec!["x".to_string(), "y".to_string()]);
    assert_eq!(c.get_at("x", 169), Some("11".to_string()));
    assert_eq!(keys(&c), vec!["x".to_string(), "y".to_string()]);
}

#[test]
fn new_cache_is_empty_with_zero_counters() {
    let c = cache(4);
    assert!(c.is_empty());
    assert_eq!(c.len(), 0);
    assert_eq!(c.capacity(), 4);
    assert_eq!(c.stats(), Stats::default());
    assert_eq!(Stats::default(), Stats { hits: 0, misses: 0, evictions: 0, expirations: 0, size: 0 });
    assert!(keys(&c).is_empty());
}

#[test]
fn keys_by_recency_lists_most_recent_first() {
    let mut c = cache(5);
    c.put("a".into(), "1".into(), None);
    c.put("b".into(), "2".into(), None);
    c.put("c".into(), "3".into(), None);
    assert_eq!(keys(&c), vec!["c".to_string(), "b".to_string(), "a".to_string()]);
    assert_eq!(c.get("a"), Some("1".to_string()));
    assert_eq!(keys(&c), vec!["a".to_string(), "c".to_string(), "b".to_string()]);
    // a miss does not change the order
    assert_eq!(c.get("nope"), None);
    assert_eq!(keys(&c), vec!["a".to_string(), "c".to_string(), "b".to_string()]);
    // overwriting moves the key to the front
    c.put("b".into(), "22".into(), None);
    assert_eq!(keys(&c), vec!["b".to_string(), "a".to_string(), "c".to_string()]);
}

#[test]
fn full_put_evicts_exactly_the_least_recently_used() {
    let mut c = cache(3);
    c.put("a".into(), "1".into(), None);
    c.put("b".into(), "2".into(), None);
    c.put("c".into(), "3".into(), None);
    c.put("d".into(), "4".into(), None);
    assert_eq!(keys(&c), vec!["d".to_string(), "c".to_string(), "b".to_string()]);
    assert_eq!(c.stats().evictions, 1);
    // overwriting at capacity evicts nothing
    c.put("b".into(), "5".into(), None);
    assert_eq!(c.stats().evictions, 1);
    assert_eq!(keys(&c), vec!["b".to_string(), "d".to_string(), "c".to_string()]);
}

#[test]
fn expiry_boundary_is_inclusive() {
    let mut c = cache(2);
    c.put_at("k".into(), "v".into(), Some(10), 5);
    assert_eq!(c.get_at("k", 14), Some("v".to_string()));
    assert_eq!(c.get_at("k", 15), None);
    let s = c.stats();
    assert_eq!((s.hits, s.misses, s.expirations, s.size), (1, 1, 1, 0));
}

#[test]
fn ttl_stamp_saturates_at_the_largest_time() {
    let mut c = cache(2);
    c.put_at("k".into(), "v".into(), Some(u64::MAX), 5);
    assert_eq!(c.get_at("k", u64::MAX - 1), Some("v".to_string()));
    assert_eq!(c.get_at("k", u64::MAX), None);
}

#[test]
fn entries_without_ttl_never_expire() {
    let mut c = cache(2);
    c.put_at("k".into(), "v".into(), None, 0);
    assert_eq!(c.get_at("k", u64::MAX), Some("v".to_string()));
    assert_eq!(c.stats().expirations, 0);
}

#[test]
fn overwrite_replaces_the_expiry() {
    let clock = TestClock::new(0);
    let mut c: Cache<String, TestClock> = Cache::new(2, clock);
    c.put("k".into(), "old".into(), Some(10));
    c.put("k".into(), "new".into(), None);
    assert_eq!(c.get_at("k", 1_000), Some("new".to_string()));
}

#[test]
fn expired_entry_is_dropped_and_the_rest_keep_their_order() {
    let mut c = cache(3);
    c.put_at("a".into(), "1".into(), None, 0);
    c.put_at("b".into(), "2".into(), Some(5), 0);
    c.put_at("c".into(), "3".into(), None, 0);
    assert_eq!(c.get_at("b", 5), None);
    assert_eq!(keys(&c), vec!["c".to_string(), "a".to_string()]);
    assert_eq!(c.len(), 2);
    // the freed slot is reused
    c.put_at("d".into(), "4".into(), None, 6);
    assert_eq!(keys(&c), vec!["d".to_string(), "c".to_string(), "a".to_string()]);
    assert_eq!(c.get_at("a", 7), Some("1".to_string()));
}

#[test]
fn remove_is_not_a_lookup() {
    let mut c = cache(2);
    c.put("a".into(), "1".into(), Some(1));
    assert!(!c.remove("zzz"));
    assert!(c.remove("a"));
    let s = c.stats();
    assert_eq!((s.hits, s.misses, s.evictions, s.expirations, s.size), (0, 0, 0, 0, 0));
}

#[test]
fn clear_drops_entries_but_keeps_counters() {
    let mut c = cache(2);
    c.put("a".into(), "1".into(), None);
    c.put("b".into(), "2".into(), None);
    assert_eq!(c.get("a"), Some("1".to_string()));
    assert_eq!(c.get("q"), None);
    c.clear();
    assert!(c.is_empty());
    assert!(keys(&c).is_empty());
    let s = c.stats();
    assert_eq!((s.hits, s.misses, s.size), (1, 1, 0));
    c.put("c".into(), "3".into(), None);
    assert_eq!(c.get("c"), Some("3".to_string()));
    assert_eq!(c.get("a"), None);
}

#[test]
fn zero_capacity_counts_misses_and_stores_nothing() {
    let mut c = cache(0);
    c.put("a".into(), "1".into(), None);
    c.put("b".into(), "2".into(), None);
    assert_eq!(c.get("a"), None);
    let s = c.stats();
    assert_eq!((s.misses, s.evictions, s.size), (1, 0, 0));
    assert!(keys(&c).is_empty());
}

#[test]
fn stats_size_tracks_len() {
    let mut c = cache(3);
    for i in 0..5u32 {
        c.put(format!("k{i}"), format!("v{i}"), None);
        assert_eq!(c.stats().size, c.len());
    }
    assert_eq!(c.stats().evictions, 2);
}

#[test]
fn test_clock_set_and_advance() {
    let clock = TestClock::new(7);
    assert_eq!(clock.now_millis(), 7);
    clock.advance(3);
    assert_eq!(clock.now_millis(), 10);
    clock.set(2);
    assert_eq!(clock.now_millis(), 2);
    clock.advance(u64::MAX);
    assert_eq!(clock.now_millis(), u64::MAX);
}

#[test]
fn system_clock_reads_the_wall_clock() {
    let clock = SystemClock::default();
    // 2020-01-01 in milliseconds since the Unix epoch
    assert!(clock.now_millis() > 1_577_836_800_000);
    let mut c: Cache<Vec<u8>, SystemClock> = Cache::new(1, SystemClock);
    c.put("raw".into(), vec![1, 2, 3], Some(60_000));
    assert_eq!(c.get("raw"), Some(vec![1, 2, 3]));
}
