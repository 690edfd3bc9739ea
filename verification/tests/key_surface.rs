use reconcile_engine::commands::{
    check_writable, entry_hash, entry_key, entry_key_parts, expiry_deadline, is_expired, remaining_ttl,
    scan_choice, ScanChoice,
};
use reconcile_engine::error::EngineError;
use reconcile_engine::fieldmap::{FieldMap, TextMap};
use reconcile_engine::store::{has_shared_file, is_memory_path, plan_migrations};
use reconcile_engine::text::sanitize_for_cstring;

#[test]
fn reserved_prefixes_are_write_protected() {
    assert!(matches!(check_writable("entry:people:x"), Err(EngineError::Command(_))));
    assert!(matches!(check_writable("meta:api"), Err(EngineError::Command(_))));
    assert!(matches!(check_writable("idx:people"), Err(EngineError::Command(_))));
    assert!(matches!(check_writable("changes:people"), Err(EngineError::Command(_))));
    assert!(check_writable("user:1").is_ok());
    assert!(check_writable("entry").is_ok());
    match check_writable("idx:people") {
        Err(e) => assert_eq!(e.to_string(), "command error: key 'idx:people' is reserved (prefix 'idx:')"),
        Ok(()) => panic!("reserved key accepted"),
    }
}

#[test]
fn entry_keys_split_at_the_first_colon() {
    let (c, k) = entry_key_parts("entry:people:a@x.com").unwrap();
    assert_eq!(c, "people");
    assert_eq!(k, "a@x.com");
    let (c, k) = entry_key_parts("entry:people:urn:x:1").unwrap();
    assert_eq!(c, "people");
    assert_eq!(k, "urn:x:1");
    assert!(entry_key_parts("entry:people").is_none());
    assert!(entry_key_parts("user:1").is_none());
    assert_eq!(entry_key("people", "a@x.com"), "entry:people:a@x.com");
}

#[test]
fn entry_hash_adds_the_row_timestamp() {
    let mut f: FieldMap = TextMap::new();
    f.insert("name".into(), "Ann".into());
    let h = entry_hash(f, -100);
    assert_eq!(h.len(), 2);
    assert_eq!(h.get("name").unwrap(), "Ann");
    assert_eq!(h.get("_updated_at").unwrap(), "-100");
}

#[test]
fn ttl_arithmetic() {
    assert!(!is_expired(None, 5));
    assert!(!is_expired(Some(1000), 999));
    assert!(is_expired(Some(1000), 1000));
    assert_eq!(remaining_ttl(Some(1000), 500), Some(500));
    assert_eq!(remaining_ttl(None, 500), None);
    assert_eq!(expiry_deadline(0, 1000), 1000);
}

#[test]
fn scan_keeps_matching_keys() {
    assert!(matches!(scan_choice("user:*", "cfg:1"), ScanChoice::Skip));
    assert!(matches!(scan_choice("user:*", "user:1"), ScanChoice::KeepIfLive));
    assert!(matches!(scan_choice("entry:people:*", "entry:people:a@x.com"), ScanChoice::Keep));
}

#[test]
fn store_paths_and_migrations() {
    assert!(is_memory_path(":memory:"));
    assert!(!is_memory_path("db.sqlite"));
    assert!(!has_shared_file(":memory:"));
    assert!(!has_shared_file(""));
    assert!(has_shared_file("/tmp/db.sqlite"));
    let p = plan_migrations(0);
    assert!(p.create_base && p.add_floor_columns && p.add_field_count);
    let p = plan_migrations(1);
    assert!(!p.create_base && p.add_floor_columns && p.add_field_count);
    let p = plan_migrations(2);
    assert!(!p.create_base && !p.add_floor_columns && p.add_field_count);
    let p = plan_migrations(3);
    assert!(!p.create_base && !p.add_floor_columns && !p.add_field_count);
}

#[test]
fn interior_nul_is_replaced() {
    assert_eq!(sanitize_for_cstring("a\0b"), "a\u{FFFD}b");
    assert_eq!(sanitize_for_cstring("plain"), "plain");
}
