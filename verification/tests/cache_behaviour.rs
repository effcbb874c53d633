use flashvault::{Cache, Clock, TestClock};
use std::rc::Rc;

fn cache(capacity: usize) -> Cache<String, TestClock> {
    Cache::new(capacity, TestClock::new(0))
}

#[test]
fn eviction_removes_least_recently_used() {
    let mut c = cache(2);
    c.put("a".into(), "1".into(), None);
    c.put("b".into(), "2".into(), None);
    // a is LRU, b is MRU. Inserting c should evict a.
    c.put("c".into(), "3".into(), None);

    assert_eq!(c.get("a"), None);
    assert_eq!(c.get("b"), Some("2".to_string()));
    assert_eq!(c.get("c"), Some("3".to_string()));
    assert_eq!(c.len(), 2);
    assert_eq!(c.stats().evictions, 1);
}

#[test]
fn get_refreshes_recency_so_the_touched_key_survives() {
    let mut c = cache(2);
    c.put("a".into(), "1".into(), None);
    c.put("b".into(), "2".into(), None);
    // touch a, making b the LRU
    assert_eq!(c.get("a"), Some("1".to_string()));
    c.put("c".into(), "3".into(), None);

    assert_eq!(c.get("b"), None, "b should have been evicted, not a");
    assert_eq!(c.get("a"), Some("1".to_string()));
    assert_eq!(c.get("c"), Some("3".to_string()));
}

struct SharedClock(Rc<TestClock>);

impl Clock for SharedClock {
    fn now_millis(&self) -> u64 {
        self.0.now_millis()
    }
}

#[test]
fn ttl_expired_entry_is_a_miss_and_is_removed() {
    let inner = Rc::new(TestClock::new(0));
    let mut c: Cache<String, SharedClock> = Cache::new(10, SharedClock(inner.clone()));

    c.put("a".into(), "1".into(), Some(1_000));
    assert_eq!(c.get("a"), Some("1".to_string()));

    inner.advance(1_000);
    assert_eq!(c.get("a"), None, "entry should be expired and evicted");
    assert_eq!(c.len(), 0, "expired entry must be removed, not just hidden");

    let stats = c.stats();
    assert_eq!(stats.expirations, 1);
    assert_eq!(stats.misses, 1);
}

#[test]
fn stats_are_correct_after_a_known_sequence() {
    let mut c = cache(2);
    c.put("a".into(), "1".into(), None);
    c.put("b".into(), "2".into(), None);

    assert_eq!(c.get("a"), Some("1".to_string())); // hit
    assert_eq!(c.get("z"), None); // miss

    c.put("c".into(), "3".into(), None); // evicts b (a was touched, is MRU)

    assert_eq!(c.get("b"), None); // miss
    assert_eq!(c.get("c"), Some("3".to_string())); // hit

    let stats = c.stats();
    assert_eq!(stats.hits, 2);
    assert_eq!(stats.misses, 2);
    assert_eq!(stats.evictions, 1);
    assert_eq!(stats.size, 2);
}

#[test]
fn size_never_exceeds_capacity() {
    let mut c = cache(3);
    for i in 0..50 {
        c.put(format!("k{i}"), format!("v{i}"), None);
        assert!(c.len() <= c.capacity());
    }
    assert_eq!(c.len(), 3);
}

#[test]
fn zero_capacity_never_panics_and_never_stores() {
    let mut c = cache(0);
    c.put("a".into(), "1".into(), None);
    assert_eq!(c.get("a"), None);
    assert_eq!(c.len(), 0);
}

#[test]
fn overwriting_an_existing_key_does_not_grow_size() {
    let mut c = cache(2);
    c.put("a".into(), "1".into(), None);
    c.put("a".into(), "2".into(), None);
    assert_eq!(c.len(), 1);
    assert_eq!(c.get("a"), Some("2".to_string()));
}

#[test]
fn remove_deletes_regardless_of_ttl() {
    let mut c = cache(2);
    c.put("a".into(), "1".into(), None);
    assert!(c.remove("a"));
    assert!(!c.remove("a"));
    assert_eq!(c.get("a"), None);
}
