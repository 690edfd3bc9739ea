use reconcile_engine::error::EngineError;
use reconcile_engine::normalize::{normalize, parse_timestamp_ms, SourceConfig, SourceFormat};

fn json_cfg() -> SourceConfig {
    SourceConfig {
        source_id: "api".into(),
        format: SourceFormat::Json,
        collection: "people".into(),
        natural_key_field: "email".into(),
        timestamp_field: Some("updatedAt".into()),
        priority: 10,
    }
}

fn csv_cfg() -> SourceConfig {
    SourceConfig {
        source_id: "csv".into(),
        format: SourceFormat::Csv,
        collection: "people".into(),
        natural_key_field: "email".into(),
        timestamp_field: None,
        priority: 5,
    }
}

#[test]
fn json_happy_path() {
    let payload = r#"[
        {"email":"a@x.com","name":"Ann","age":30,"updatedAt":1000},
        {"email":"b@x.com","name":"Bob","active":true,"updatedAt":2000}
    ]"#;
    let out = normalize(&json_cfg(), payload, 99).unwrap();
    assert_eq!(out.records.len(), 2);
    assert!(out.rejects.is_empty());
    let r = &out.records[0];
    assert_eq!(r.collection, "people");
    assert_eq!(r.natural_key, "a@x.com");
    assert_eq!(r.source, "api");
    assert_eq!(r.fields.get("name").unwrap(), "Ann");
    assert_eq!(r.fields.get("age").unwrap(), "30");
    assert_eq!(r.updated_at, 1000);
    assert_eq!(out.records[1].fields.get("active").unwrap(), "true");
}

#[test]
fn json_missing_key_is_reject_not_failure() {
    let payload = r#"[{"name":"NoKey"},{"email":"ok@x.com","name":"Ok"}]"#;
    let out = normalize(&json_cfg(), payload, 42).unwrap();
    assert_eq!(out.records.len(), 1);
    assert_eq!(out.rejects.len(), 1);
    assert!(out.rejects[0].1.contains("email"));
    // no timestamp field on the good record -> falls back to now_ms
    assert_eq!(out.records[0].updated_at, 42);
}

#[test]
fn json_non_array_is_parse_error() {
    assert!(matches!(
        normalize(&json_cfg(), r#"{"not":"array"}"#, 0),
        Err(EngineError::Parse(_))
    ));
}

#[test]
fn csv_happy_path_with_quotes() {
    let payload = "email,name,notes\na@x.com,Ann,\"likes, commas\"\nb@x.com,Bob,\"say \"\"hi\"\"\"\n";
    let out = normalize(&csv_cfg(), payload, 7).unwrap();
    assert_eq!(out.records.len(), 2);
    assert_eq!(out.records[0].fields.get("notes").unwrap(), "likes, commas");
    assert_eq!(out.records[1].fields.get("notes").unwrap(), "say \"hi\"");
    assert_eq!(out.records[0].updated_at, 7);
}

#[test]
fn parse_timestamp_ms_accepts_int_float_rfc3339() {
    assert_eq!(parse_timestamp_ms("1721000000000"), Some(1721000000000));
    assert_eq!(parse_timestamp_ms("-5"), Some(-5));
    assert_eq!(parse_timestamp_ms("1721000000000.75"), Some(1721000000000));
    assert_eq!(parse_timestamp_ms("2026-07-17T00:00:00Z"), Some(1784246400000));
    assert_eq!(parse_timestamp_ms("2026-07-17T00:00:00.5+00:00"), Some(1784246400500));
    assert_eq!(parse_timestamp_ms("2026-07-17T10:00:00+10:00"), Some(1784246400000));
    assert_eq!(parse_timestamp_ms("1970-01-01T00:00:00Z"), Some(0));
    assert_eq!(parse_timestamp_ms("1969-12-31T23:59:59Z"), Some(-1000));
    assert_eq!(parse_timestamp_ms("not-a-date"), None);
    assert_eq!(parse_timestamp_ms(""), None);
    assert_eq!(parse_timestamp_ms("2026-07-17"), None);
    assert_eq!(parse_timestamp_ms("2026-13-01T00:00:00Z"), None);
    assert_eq!(parse_timestamp_ms("2026-07-17T00:00:00"), None); // no offset
    assert_eq!(parse_timestamp_ms("NaN"), None);
    assert_eq!(parse_timestamp_ms("inf"), None);
}

#[test]
fn unparseable_timestamp_rejects_record() {
    let payload = r#"[{"email":"a@x.com","name":"A","updatedAt":"yesterday"}]"#;
    let out = normalize(&json_cfg(), payload, 42).unwrap();
    assert!(out.records.is_empty());
    assert_eq!(out.rejects.len(), 1);
    assert!(out.rejects[0].1.contains("unparseable timestamp"));
}

#[test]
fn absent_timestamp_field_still_falls_back_to_now() {
    let payload = r#"[{"email":"a@x.com","name":"A"}]"#;
    let out = normalize(&json_cfg(), payload, 42).unwrap();
    assert_eq!(out.records[0].updated_at, 42);
}

#[test]
fn null_and_float_natural_keys_reject() {
    let payload = r#"[{"email":null,"name":"A"},{"email":1.5,"name":"B"},{"email":true,"name":"C"},{"email":7,"name":"D"}]"#;
    let out = normalize(&json_cfg(), payload, 0).unwrap();
    assert_eq!(out.records.len(), 1);
    assert_eq!(out.records[0].natural_key, "7");
    assert_eq!(out.rejects.len(), 3);
    for (_, reason) in &out.rejects {
        assert!(reason.contains("invalid natural key"), "{reason}");
    }
}

#[test]
fn integral_floats_canonicalize_in_values() {
    let payload = r#"[{"email":"a@x.com","balance":1000.0,"rate":0.5,"count":7}]"#;
    let cfg = SourceConfig { timestamp_field: None, ..json_cfg() };
    let out = normalize(&cfg, payload, 0).unwrap();
    let f = &out.records[0].fields;
    assert_eq!(f.get("balance").unwrap(), "1000");
    assert_eq!(f.get("rate").unwrap(), "0.5");
    assert_eq!(f.get("count").unwrap(), "7");
}

#[test]
fn csv_bad_rows_are_rejects() {
    let payload = "email,name\na@x.com,Ann\nonly-one-column\n,MissingEmail\n";
    let out = normalize(&csv_cfg(), payload, 0).unwrap();
    assert_eq!(out.records.len(), 1);
    assert_eq!(out.rejects.len(), 2);
}

#[test]
fn csv_dead_letter_fragment_preserves_raw_line() {
    let payload = "email,name\na@x.com,\"likes, commas\",extra\nb@x.com,Bob\n";
    let out = normalize(&csv_cfg(), payload, 0).unwrap();
    assert_eq!(out.records.len(), 1);
    assert_eq!(out.rejects.len(), 1);
    assert_eq!(out.rejects[0].0, "a@x.com,\"likes, commas\",extra");
}

#[test]
fn csv_dead_letter_fragment_preserves_quoted_newline() {
    let payload = "email,name\na@x.com,\"line1\nline2\",extra\n";
    let out = normalize(&csv_cfg(), payload, 0).unwrap();
    assert_eq!(out.rejects.len(), 1);
    assert_eq!(out.rejects[0].0, "a@x.com,\"line1\nline2\",extra");
}

#[test]
fn duplicate_csv_headers_fail_the_batch() {
    let payload = "email,name,name\na@x.com,Ann,Anne\n";
    let err = normalize(&csv_cfg(), payload, 0).unwrap_err();
    assert!(err.to_string().contains("duplicate CSV header 'name'"), "{}", err.to_string());
}

#[test]
fn json_reserved_field_name_is_dead_lettered() {
    let payload = r#"[{"email":"a@x.com","_updated_at":"5"},{"email":"b@x.com","name":"Bob"}]"#;
    let out = normalize(&json_cfg(), payload, 7).unwrap();
    assert_eq!(out.records.len(), 1);
    assert_eq!(out.records[0].natural_key, "b@x.com");
    assert_eq!(out.rejects.len(), 1);
    assert!(out.rejects[0].0.contains("a@x.com"));
    assert_eq!(out.rejects[0].1, "reserved field name");
}

#[test]
fn csv_reserved_field_name_is_dead_lettered() {
    let payload = "email,_updated_at\na@x.com,5\n";
    let out = normalize(&csv_cfg(), payload, 7).unwrap();
    assert!(out.records.is_empty());
    assert_eq!(out.rejects.len(), 1);
    assert_eq!(out.rejects[0].0, "a@x.com,5");
    assert_eq!(out.rejects[0].1, "reserved field name");
}
