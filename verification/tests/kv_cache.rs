use reconcile_engine::kvcache::{KvCache, KvLookup};

fn value(c: &KvCache, k: &str, now: i64) -> Option<String> {
    match c.lookup(k, now) {
        KvLookup::Hit(v) => Some(v),
        _ => None,
    }
}

/// Applies queued writes in order to a store, as a flush does.
fn flush(c: &mut KvCache, store: &mut Vec<(String, String)>) -> usize {
    let n = c.pending_writes().len();
    for (k, v) in c.pending_writes() {
        match store.iter().position(|(sk, _)| sk == k) {
            Some(i) => store[i].1 = v.clone(),
            None => store.push((k.clone(), v.clone())),
        }
    }
    c.clear_pending();
    n
}

#[test]
fn coalescing_keeps_one_slot_per_key_and_last_write_wins() {
    let mut c = KvCache::new();
    let mut store: Vec<(String, String)> = vec![];
    for i in 0..300 {
        c.record_set(format!("ck{}", i % 30), format!("v{i}"));
    }
    assert_eq!(c.pending.len(), 30);
    assert!(!c.needs_flush());
    assert_eq!(flush(&mut c, &mut store), 30);
    assert_eq!(value(&c, "ck0", 0).unwrap(), "v270");
    let stored = store.iter().find(|(k, _)| k == "ck0").unwrap();
    assert_eq!(stored.1, "v270");
    // coalescing off: every set is queued
    c.set_high_water(100000);
    c.set_coalesce(false);
    for i in 0..300 {
        c.record_set(format!("ck{}", i % 30), format!("w{i}"));
    }
    assert_eq!(c.pending.len(), 300);
    assert_eq!(flush(&mut c, &mut store), 300);
    assert_eq!(value(&c, "ck0", 0).unwrap(), "w270");
    assert_eq!(store.iter().find(|(k, _)| k == "ck0").unwrap().1, "w270");
    // a low high-water mark asks for a flush early
    c.set_high_water(4);
    c.set_coalesce(true);
    let mut flushes = 0;
    for i in 0..10 {
        c.record_set(format!("hw{i}"), "x".into());
        if c.needs_flush() {
            flush(&mut c, &mut store);
            flushes += 1;
        }
    }
    assert!(c.pending.len() < 4);
    assert_eq!(flushes, 2);
}

#[test]
fn high_water_is_at_least_one() {
    let mut c = KvCache::new();
    assert_eq!(c.high_water, 256);
    assert!(c.coalesce);
    c.set_high_water(0);
    assert_eq!(c.high_water, 1);
    c.record_set("a".into(), "1".into());
    assert!(c.needs_flush());
}

#[test]
fn a_write_is_read_back_and_clears_the_deadline() {
    let mut c = KvCache::new();
    assert!(matches!(c.lookup("a", 0), KvLookup::Miss));
    c.record_set("a".into(), "1".into());
    c.note_ttl("a".into(), 1000);
    assert_eq!(value(&c, "a", 999).unwrap(), "1");
    assert!(matches!(c.lookup("a", 1000), KvLookup::Expired));
    c.record_set("a".into(), "2".into());
    assert_eq!(value(&c, "a", 5000).unwrap(), "2");
}

#[test]
fn forget_drops_value_and_deadline() {
    let mut c = KvCache::new();
    let mut store = vec![];
    c.record_set("k".into(), "v".into());
    assert!(c.is_queued("k"));
    flush(&mut c, &mut store);
    assert!(!c.is_queued("k"));
    c.note_ttl("k".into(), 10);
    c.forget("k");
    assert!(matches!(c.lookup("k", 100), KvLookup::Miss));
    c.note_ttl("h".into(), 10);
    c.clear_ttl("h");
    assert!(matches!(c.lookup("h", 100), KvLookup::Miss));
}

#[test]
fn coalesced_write_overwrites_its_slot_in_place() {
    let mut c = KvCache::new();
    c.record_set("a".into(), "1".into());
    c.record_set("b".into(), "2".into());
    c.record_set("a".into(), "3".into());
    let q: Vec<(&str, &str)> = c.pending_writes().iter().map(|(k, v)| (k.as_str(), v.as_str())).collect();
    assert_eq!(q, vec![("a", "3"), ("b", "2")]);
    c.set_coalesce(false);
    c.record_set("a".into(), "4".into());
    let q: Vec<(&str, &str)> = c.pending_writes().iter().map(|(k, v)| (k.as_str(), v.as_str())).collect();
    assert_eq!(q, vec![("a", "3"), ("b", "2"), ("a", "4")]);
}
