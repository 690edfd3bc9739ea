use reconcile_engine::dispatch::validate_collection;
use reconcile_engine::normalize::{normalize, SourceConfig, SourceFormat};
use reconcile_engine::reconcile::{group_keys, merge_group, tally_outcomes};
use reconcile_engine::ingest::{change_channel, change_events, ingest_fingerprint, is_repeat};
use reconcile_engine::pubsub::PubSub;

#[test]
fn fingerprint_is_stable_hex_and_depends_on_both_inputs() {
    let cfg_a = r#"{"source_id":"api","priority":10}"#;
    let cfg_b = r#"{"source_id":"api","priority":11}"#;
    let f1 = ingest_fingerprint("[1]", cfg_a);
    let f2 = ingest_fingerprint("[1]", cfg_a);
    assert_eq!(f1, f2);
    assert!(f1.chars().all(|c| c.is_ascii_hexdigit() && !c.is_ascii_uppercase()));
    assert!(f1.len() <= 16 && !f1.is_empty());
    assert_ne!(f1, ingest_fingerprint("[1]", cfg_b));
    assert_ne!(f1, ingest_fingerprint("[2]", cfg_a));
    // the separator keeps the split between payload and config significant
    assert_ne!(ingest_fingerprint("ab", "c"), ingest_fingerprint("a", "bc"));
}

#[test]
fn changed_source_config_defeats_payload_skip() {
    let cfg_old = r#"{"source_id":"api","priority":10}"#;
    let cfg_new = r#"{"source_id":"api","priority":50}"#;
    let recorded = Some(ingest_fingerprint("[]", cfg_old));
    assert!(is_repeat(&recorded, &ingest_fingerprint("[]", cfg_old)));
    assert!(!is_repeat(&recorded, &ingest_fingerprint("[]", cfg_new)));
    assert!(!is_repeat(&None, &ingest_fingerprint("[]", cfg_old)));
}

#[test]
fn events_only_for_subscribed_channels() {
    let mut ps = PubSub::new();
    ps.subscribe("changes:people");
    let cols = vec!["orders".to_string(), "people".to_string()];
    let ev = change_events(&ps, &cols);
    assert_eq!(ev, vec![("people".to_string(), "changes:people".to_string())]);
    assert_eq!(change_channel("crm"), "changes:crm");
    let none = change_events(&PubSub::new(), &cols);
    assert!(none.is_empty());
}

#[test]
fn duplicate_ingest_is_skipped_by_content_hash() {
    let cfg = r#"{"source_id":"api","format":"Json","collection":"people","natural_key_field":"email","timestamp_field":null,"priority":10}"#;
    let payload = r#"[{"email":"a@x.com","name":"Ann"}]"#;
    // the first ingest records its fingerprint; the same bytes again are skipped
    let recorded = Some(ingest_fingerprint(payload, cfg));
    assert!(!is_repeat(&None, &ingest_fingerprint(payload, cfg)));
    assert!(is_repeat(&recorded, &ingest_fingerprint(payload, cfg)));
}

#[test]
fn register_source_and_ingest_publishes_changes() {
    let cfg = SourceConfig {
        source_id: "api".into(),
        format: SourceFormat::Json,
        collection: "people".into(),
        natural_key_field: "email".into(),
        timestamp_field: None,
        priority: 10,
    };
    assert!(validate_collection(&cfg.collection).is_ok());
    let mut ps = PubSub::new();
    ps.subscribe("changes:*");
    let out = normalize(&cfg, r#"[{"email":"a@x.com","name":"Ann"}]"#, 1000).unwrap();
    let (keys, gidx) = group_keys(&out.records);
    let mut outcomes = vec![];
    for g in 0..keys.len() {
        outcomes.push(
            merge_group(&cfg, None, keys[g].0.clone(), keys[g].1.clone(), &out.records, &gidx, g).unwrap(),
        );
    }
    let counts = tally_outcomes(&outcomes);
    assert_eq!(counts.inserted, 1);
    let events = change_events(&ps, &counts.collections);
    assert_eq!(events, vec![("people".to_string(), "changes:people".to_string())]);
}
