//! The query cache.

use konnect::cache::{QueryCache, DEFAULT_TTL};
use serde_json::Value;

fn count(n: u64) -> Value {
    let mut m = serde_json::Map::new();
    m.insert("count".to_string(), Value::from(n));
    Value::Object(m)
}

#[test]
fn miss_on_unknown_key() {
    let cache: QueryCache<Value> = QueryCache::new(60_000);
    assert!(cache.get("nope", 0).is_none());
}

#[test]
fn put_then_get_roundtrips() {
    let mut cache: QueryCache<Value> = QueryCache::new(60_000);
    cache.put("key".to_string(), count(3), 0);
    assert_eq!(cache.get("key", 0), Some(&count(3)));
}

#[test]
fn entry_expires_after_ttl() {
    let mut cache: QueryCache<Value> = QueryCache::new(10);
    cache.put("key".to_string(), Value::from("value"), 100);
    assert_eq!(cache.get("key", 100), Some(&Value::from("value")));
    assert_eq!(cache.get("key", 109), Some(&Value::from("value")));
    assert!(cache.get("key", 110).is_none());
    assert!(cache.get("key", 120).is_none());
}

#[test]
fn put_overwrites_existing_entry() {
    let mut cache: QueryCache<Value> = QueryCache::new(60_000);
    cache.put("key".to_string(), Value::from("first"), 0);
    cache.put("key".to_string(), Value::from("second"), 0);
    assert_eq!(cache.get("key", 0), Some(&Value::from("second")));
}

#[test]
fn a_cache_is_fresh_for_five_minutes_by_default() {
    let mut cache: QueryCache<u8> = QueryCache::default();
    assert_eq!(DEFAULT_TTL, 300_000);
    cache.put("a".to_string(), 1, 0);
    cache.put("b".to_string(), 2, 1);
    assert_eq!(cache.get("a", 299_999), Some(&1));
    assert_eq!(cache.get("a", 300_000), None);
    assert_eq!(cache.get("b", 300_000), Some(&2));
}
