use reconcile_engine::pubsub::PubSub;
use std::sync::{Arc, Mutex};

fn recording_pubsub() -> (PubSub, Arc<Mutex<Vec<(String, String)>>>) {
    let mut ps = PubSub::new();
    let log: Arc<Mutex<Vec<(String, String)>>> = Arc::new(Mutex::new(vec![]));
    let l2 = log.clone();
    ps.set_sink(Box::new(move |ch: &str, payload: &str| {
        l2.lock().unwrap().push((ch.to_string(), payload.to_string()));
    }));
    (ps, log)
}

#[test]
fn publish_reaches_matching_pattern_once() {
    let (mut ps, log) = recording_pubsub();
    ps.subscribe("changes:*");
    ps.subscribe("changes:people"); // second match must not double-fire sink
    let n = ps.publish("changes:people", "{}");
    assert_eq!(n, 2);
    assert_eq!(log.lock().unwrap().len(), 1);
    assert_eq!(log.lock().unwrap()[0].0, "changes:people");
}

#[test]
fn no_match_no_sink() {
    let (mut ps, log) = recording_pubsub();
    ps.subscribe("changes:people");
    assert_eq!(ps.publish("changes:orders", "{}"), 0);
    assert!(log.lock().unwrap().is_empty());
}

#[test]
fn unsubscribe_stops_delivery() {
    let (mut ps, log) = recording_pubsub();
    let id = ps.subscribe("changes:*");
    assert!(ps.unsubscribe(id));
    assert!(!ps.unsubscribe(id));
    ps.publish("changes:people", "{}");
    assert!(log.lock().unwrap().is_empty());
}

#[test]
fn ids_count_up_from_one() {
    let mut ps = PubSub::new();
    assert_eq!(ps.subscribe("a"), 1);
    assert_eq!(ps.subscribe("b"), 2);
    assert!(ps.unsubscribe(1));
    assert_eq!(ps.subscribe("c"), 3);
}

#[test]
fn any_match_follows_the_patterns() {
    let mut ps = PubSub::new();
    assert!(!ps.any_match("changes:people"));
    let id = ps.subscribe("changes:p*");
    assert!(ps.any_match("changes:people"));
    assert!(!ps.any_match("changes:orders"));
    ps.unsubscribe(id);
    assert!(!ps.any_match("changes:people"));
}

#[test]
fn publish_without_sink_still_counts() {
    let mut ps = PubSub::new();
    ps.subscribe("*");
    assert_eq!(ps.publish("x", "payload"), 1);
}
