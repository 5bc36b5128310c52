use condo_fs::cache::{cache_key, ContentCache, TtlCache};
use std::path::PathBuf;
use std::time::{Duration, Instant};

#[test]
fn ttl_cache_invalidate() {
    let mut c: TtlCache<u64, String> = TtlCache::new(Duration::from_secs(60));
    c.put(1, "a".into());
    c.invalidate(&1);
    assert_eq!(c.get(&1), None);
}

#[test]
fn ttl_cache_expires() {
    let mut c: TtlCache<u64, String> = TtlCache::new(Duration::from_millis(30));
    c.put(7, "hi".into());
    assert_eq!(c.get(&7), Some("hi".to_string()));
    let start = Instant::now();
    while start.elapsed() < Duration::from_millis(50) {}
    assert_eq!(c.get(&7), None);
}

#[test]
fn ttl_cache_expires_at_explicit_times() {
    let mut c: TtlCache<u64, String> = TtlCache::new(Duration::from_millis(30));
    c.put_at(7, "hi".into(), 0);
    assert_eq!(c.get_at(&7, 0), Some("hi".to_string()));
    assert_eq!(c.get_at(&7, 50_000_000), None);
}

#[test]
fn ttl_cache_get_after_put_within_ttl() {
    let mut c: TtlCache<u64, String> = TtlCache::new(Duration::from_secs(60));
    c.put(3, "x".into());
    assert_eq!(c.get(&3), Some("x".to_string()));
    c.put_at(4, "y".into(), 1_000);
    assert_eq!(c.get_at(&4, 1_000 + 60_000_000_000), Some("y".to_string()));
    assert_eq!(c.get_at(&4, 1_001 + 60_000_000_000), None);
    // an expired entry is dropped, so it stays gone
    assert_eq!(c.get_at(&4, 0), None);
    // replacing an entry restarts its time to live
    c.put_at(5, "a".into(), 0);
    c.put_at(5, "b".into(), 100_000_000_000);
    assert_eq!(c.get_at(&5, 150_000_000_000), Some("b".to_string()));
    assert_eq!(c.get(&99), None);
}

#[test]
fn cache_key_is_id_and_safe_date() {
    assert_eq!(cache_key(1, "2025-01-01 00:00:00"), "1-2025_01_01_00_00_00.bin");
    assert_eq!(cache_key(0, ""), "0-.bin");
    assert_eq!(cache_key(18446744073709551615, "aZ9/é"), "18446744073709551615-aZ9__.bin");
    assert_ne!(cache_key(1, "2025-01-01 00:00:00"), cache_key(1, "2025-02-02 00:00:00"));
    assert_ne!(cache_key(1, "x"), cache_key(11, "x"));
}

#[test]
fn content_cache_paths_are_keyed_by_id_and_date() {
    let root = PathBuf::from("/nonexistent-condo-cache-root");
    let cache = ContentCache::at(root.clone());
    assert_eq!(cache.root(), &root);
    assert_eq!(
        cache.path_for(1, "2025-01-01 00:00:00"),
        root.join("1-2025_01_01_00_00_00.bin")
    );
    assert!(cache.get(1, "2025-01-01 00:00:00").is_none());
}
