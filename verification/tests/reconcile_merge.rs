use reconcile_engine::commands::entry_hash;
use reconcile_engine::fieldmap::{FieldMap, TextMap};
use reconcile_engine::normalize::{CanonicalRecord, SourceConfig, SourceFormat};
use reconcile_engine::normalize::normalize;
use reconcile_engine::reconcile::{
    changed_keys, compact_meta, group_by_collection, expand_meta, fields_hash, group_keys, merge_group, meta_floor, tally_outcomes,
    CompactMeta, ExistingRow, FieldMeta, GroupOutcome, MetaMap, StoredMeta, CHANGED_KEYS_CAP,
};

type Meta = (String, i64, u32);

/// A stored row as plain values, standing in for the entries table.
struct Row {
    fields: Vec<(String, String)>,
    default: Meta,
    overrides: Vec<(String, Meta)>,
    legacy: Option<Vec<(String, Meta)>>,
    updated_at: i64,
    hash: Option<i64>,
    floor_ts: Option<i64>,
    floor_pri: Option<i64>,
    count: Option<i64>,
}

#[derive(Default)]
struct Db {
    rows: Vec<((String, String), Row)>,
}

struct Summary {
    inserted: u32,
    updated: u32,
    unchanged: u32,
    dead_lettered: usize,
    collections: Vec<String>,
    changed: Vec<(String, String)>,
    truncated: bool,
}

fn cfg(source: &str, priority: u32) -> SourceConfig {
    SourceConfig {
        source_id: source.into(),
        format: SourceFormat::Json,
        collection: "people".into(),
        natural_key_field: "email".into(),
        timestamp_field: None,
        priority,
    }
}

fn field_map(pairs: &[(&str, &str)]) -> FieldMap {
    let mut m: FieldMap = TextMap::new();
    for (k, v) in pairs {
        m.insert(k.to_string(), v.to_string());
    }
    m
}

fn rec(source: &str, key: &str, field: &str, value: &str, ts: i64) -> CanonicalRecord {
    CanonicalRecord {
        collection: "people".into(),
        natural_key: key.into(),
        source: source.into(),
        fields: field_map(&[("email", key), (field, value)]),
        updated_at: ts,
    }
}

fn meta_of(m: &Meta) -> FieldMeta {
    FieldMeta { source: m.0.clone(), updated_at: m.1, priority: m.2 }
}

fn plain_meta(m: &FieldMeta) -> Meta {
    (m.source.clone(), m.updated_at, m.priority)
}

fn meta_map(entries: &[(String, Meta)]) -> MetaMap {
    let mut m: MetaMap = TextMap::new();
    for (k, v) in entries {
        m.insert(k.clone(), meta_of(v));
    }
    m
}

fn existing(row: &Row) -> ExistingRow {
    let mut fields: FieldMap = TextMap::new();
    for (k, v) in &row.fields {
        fields.insert(k.clone(), v.clone());
    }
    let stored = match &row.legacy {
        Some(per_field) => StoredMeta::PerField(meta_map(per_field)),
        None => StoredMeta::Compact(CompactMeta {
            default: meta_of(&row.default),
            overrides: meta_map(&row.overrides),
        }),
    };
    ExistingRow {
        decoded: Ok((fields, stored)),
        updated_at: row.updated_at,
        content_hash: row.hash,
        meta_floor_ts: row.floor_ts,
        meta_floor_pri: row.floor_pri,
        field_count: row.count,
    }
}

fn pairs(m: &FieldMap) -> Vec<(String, String)> {
    (0..m.len()).map(|i| (m.key_at(i).clone(), m.value_at(i).clone())).collect()
}

fn meta_pairs(m: &MetaMap) -> Vec<(String, Meta)> {
    (0..m.len()).map(|i| (m.key_at(i).clone(), plain_meta(m.value_at(i)))).collect()
}

impl Db {
    fn find(&self, c: &str, k: &str) -> Option<usize> {
        self.rows.iter().position(|((rc, rk), _)| rc == c && rk == k)
    }

    fn row(&self, k: &str) -> &Row {
        &self.rows[self.find("people", k).unwrap()].1
    }

    fn field(&self, k: &str, f: &str) -> Option<String> {
        self.row(k).fields.iter().find(|(n, _)| n == f).map(|(_, v)| v.clone())
    }

    /// The row's metadata, one entry per field.
    fn meta(&self, k: &str) -> Vec<(String, Meta)> {
        let row = self.row(k);
        let mut fields: FieldMap = TextMap::new();
        for (n, v) in &row.fields {
            fields.insert(n.clone(), v.clone());
        }
        let stored = StoredMeta::Compact(CompactMeta {
            default: meta_of(&row.default),
            overrides: meta_map(&row.overrides),
        });
        meta_pairs(&expand_meta(&fields, stored))
    }

    fn reconcile(&mut self, cfg: &SourceConfig, records: Vec<CanonicalRecord>) -> Summary {
        let (keys, gidx) = group_keys(&records);
        let mut outcomes: Vec<GroupOutcome> = Vec::new();
        for (g, (c, k)) in keys.iter().enumerate() {
            let stored = self.find(c, k).map(|i| existing(&self.rows[i].1));
            let o = merge_group(cfg, stored, c.clone(), k.clone(), &records, &gidx, g).unwrap();
            outcomes.push(o);
        }
        let counts = tally_outcomes(&outcomes);
        let (changed, truncated) = changed_keys(&outcomes);
        for o in outcomes {
            if let Some(w) = o.write {
                let row = Row {
                    fields: pairs(&w.fields),
                    default: plain_meta(&w.meta.default),
                    overrides: meta_pairs(&w.meta.overrides),
                    legacy: None,
                    updated_at: w.updated_at,
                    hash: Some(w.content_hash),
                    floor_ts: Some(w.floor_ts),
                    floor_pri: Some(w.floor_pri),
                    count: Some(w.field_count),
                };
                assert_eq!(w.is_insert, self.find(&o.collection, &o.natural_key).is_none());
                match self.find(&o.collection, &o.natural_key) {
                    Some(i) => self.rows[i].1 = row,
                    None => self.rows.push(((o.collection.clone(), o.natural_key.clone()), row)),
                }
            }
        }
        Summary {
            inserted: counts.inserted,
            updated: counts.updated,
            unchanged: counts.unchanged,
            dead_lettered: 0,
            collections: counts.collections,
            changed,
            truncated,
        }
    }

    /// Normalizes a payload and merges its records; rejects are counted.
    fn ingest(&mut self, cfg: &SourceConfig, payload: &str, now: i64) -> Summary {
        let out = normalize(cfg, payload, now).unwrap();
        let rejects = out.rejects.len();
        let mut s = self.reconcile(cfg, out.records);
        s.dead_lettered = rejects;
        s
    }

    fn field_in(&self, c: &str, k: &str, f: &str) -> Option<String> {
        let i = self.find(c, k)?;
        self.rows[i].1.fields.iter().find(|(n, _)| n == f).map(|(_, v)| v.clone())
    }
}

fn json_cfg(collection: &str, key: &str, ts: Option<&str>, priority: u32) -> SourceConfig {
    SourceConfig {
        source_id: "api".into(),
        format: SourceFormat::Json,
        collection: collection.into(),
        natural_key_field: key.into(),
        timestamp_field: ts.map(|t| t.to_string()),
        priority,
    }
}

fn id_rows(ids: &[String], rev: usize) -> String {
    let items: Vec<String> = ids.iter().map(|id| format!(r#"{{"id":"{id}","v":"{rev}"}}"#)).collect();
    format!("[{}]", items.join(","))
}

fn keys_of(s: &Summary, collection: &str) -> Vec<String> {
    s.changed.iter().filter(|(c, _)| c == collection).map(|(_, k)| k.clone()).collect()
}

#[test]
fn large_batches_take_the_parallel_path() {
    let mut db = Db::default();
    let inserts: Vec<CanonicalRecord> =
        (0..300).map(|i| rec("api", &format!("u{i}@x.com"), "name", "A", 100)).collect();
    let s = db.reconcile(&cfg("api", 10), inserts);
    assert_eq!(s.inserted, 300);
    let updates: Vec<CanonicalRecord> = (0..300)
        .map(|i| rec("api", &format!("u{i}@x.com"), "name", if i % 2 == 0 { "B" } else { "A" }, 200))
        .collect();
    let s = db.reconcile(&cfg("api", 10), updates);
    assert_eq!(s.updated, 150);
    assert_eq!(s.unchanged, 150); // same value, newer ts: advanced-not-dirty
    let n = db
        .rows
        .iter()
        .filter(|(_, r)| r.fields.iter().any(|(f, v)| f == "name" && v == "B"))
        .count();
    assert_eq!(n, 150);
}

#[test]
fn legacy_meta_rows_still_merge() {
    let mut db = Db::default();
    let m = ("api".to_string(), 50, 10);
    db.rows.push((
        ("people".into(), "old@x.com".into()),
        Row {
            fields: vec![("email".into(), "old@x.com".into()), ("name".into(), "Old".into())],
            default: ("".into(), 0, 0),
            overrides: vec![],
            legacy: Some(vec![("email".into(), m.clone()), ("name".into(), m)]),
            updated_at: 50,
            hash: None,
            floor_ts: None,
            floor_pri: None,
            count: None,
        },
    ));
    let s = db.reconcile(&cfg("api", 10), vec![rec("api", "old@x.com", "name", "New", 100)]);
    assert_eq!(s.updated, 1);
    assert_eq!(db.field("old@x.com", "name").unwrap(), "New");
    // rewritten in the compact form with the short-circuit columns filled in
    let row = db.row("old@x.com");
    assert!(row.legacy.is_none());
    assert!(row.hash.is_some());
    assert_eq!(row.count, Some(2));
}

#[test]
fn hash_short_circuit_never_blocks_meta_advance() {
    let mut db = Db::default();
    db.reconcile(&cfg("a", 10), vec![rec("a", "k@x.com", "name", "Ann", 100)]);
    // identical content, same ts, lower priority: the short-circuit is sound
    let s = db.reconcile(&cfg("low", 5), vec![rec("low", "k@x.com", "name", "Ann", 100)]);
    assert_eq!(s.unchanged, 1);
    // identical content, same ts, higher priority: the newer meta is persisted
    let s = db.reconcile(&cfg("b", 20), vec![rec("b", "k@x.com", "name", "Ann", 100)]);
    assert_eq!(s.unchanged, 1);
    let meta = db.meta("k@x.com");
    assert!(meta.iter().any(|(_, m)| m.0 == "b"), "meta advance was skipped");
    // a same-ts pri-15 different value loses against the pri-20 meta
    let s = db.reconcile(&cfg("c", 15), vec![rec("c", "k@x.com", "name", "Evil", 100)]);
    assert_eq!(s.updated, 0);
    assert_eq!(db.field("k@x.com", "name").unwrap(), "Ann");
}

#[test]
fn same_key_twice_in_one_batch_sees_earlier_merge() {
    let mut db = Db::default();
    let s = db.reconcile(
        &cfg("api", 10),
        vec![rec("api", "a@x.com", "name", "Ann", 100), rec("api", "a@x.com", "name", "Annie", 200)],
    );
    assert_eq!(s.inserted, 1);
    assert_eq!(s.updated, 1);
    assert_eq!(db.field("a@x.com", "name").unwrap(), "Annie");
}

#[test]
fn insert_then_read_via_redis_surface() {
    let mut db = Db::default();
    let s = db.reconcile(&cfg("api", 10), vec![rec("api", "a@x.com", "name", "Ann", 100)]);
    assert_eq!(s.inserted, 1);
    assert_eq!(s.collections, vec!["people".to_string()]);
    let row = db.row("a@x.com");
    let mut fields: FieldMap = TextMap::new();
    for (k, v) in &row.fields {
        fields.insert(k.clone(), v.clone());
    }
    let h = entry_hash(fields, row.updated_at);
    assert_eq!(h.get("name").unwrap(), "Ann");
    assert_eq!(h.get("_updated_at").unwrap(), "100");
}

#[test]
fn newer_timestamp_wins_per_field() {
    let mut db = Db::default();
    db.reconcile(&cfg("api", 10), vec![rec("api", "a@x.com", "name", "Ann", 100)]);
    let s = db.reconcile(&cfg("csv", 5), vec![rec("csv", "a@x.com", "name", "Annie", 200)]);
    assert_eq!(s.updated, 1);
    assert_eq!(db.field("a@x.com", "name").unwrap(), "Annie");
}

#[test]
fn older_timestamp_loses_higher_priority_ties_win() {
    let mut db = Db::default();
    db.reconcile(&cfg("api", 10), vec![rec("api", "a@x.com", "name", "Ann", 100)]);
    let s1 = db.reconcile(&cfg("csv", 99), vec![rec("csv", "a@x.com", "name", "Old", 50)]);
    assert_eq!(s1.unchanged, 1);
    db.reconcile(&cfg("dev", 20), vec![rec("dev", "a@x.com", "name", "Tie", 100)]);
    assert_eq!(db.field("a@x.com", "name").unwrap(), "Tie");
}

#[test]
fn fields_merge_across_sources() {
    let mut db = Db::default();
    db.reconcile(&cfg("api", 10), vec![rec("api", "a@x.com", "name", "Ann", 100)]);
    db.reconcile(&cfg("csv", 5), vec![rec("csv", "a@x.com", "phone", "555", 100)]);
    assert_eq!(db.field("a@x.com", "name").unwrap(), "Ann");
    assert_eq!(db.field("a@x.com", "phone").unwrap(), "555");
}

#[test]
fn identical_reingest_is_unchanged() {
    let mut db = Db::default();
    db.reconcile(&cfg("api", 10), vec![rec("api", "a@x.com", "name", "Ann", 100)]);
    let s = db.reconcile(&cfg("api", 10), vec![rec("api", "a@x.com", "name", "Ann", 100)]);
    assert_eq!(s.unchanged, 1);
    assert!(s.collections.is_empty());
}

#[test]
fn row_updated_at_never_regresses() {
    let mut db = Db::default();
    db.reconcile(&cfg("api", 10), vec![rec("api", "a@x.com", "name", "Ann", 100)]);
    db.reconcile(&cfg("csv", 5), vec![rec("csv", "a@x.com", "addr", "123 Main St", 50)]);
    assert_eq!(db.row("a@x.com").updated_at, 100);
    assert_eq!(db.field("a@x.com", "addr").unwrap(), "123 Main St");
}

#[test]
fn same_value_win_advances_meta() {
    let mut db = Db::default();
    db.reconcile(&cfg("api", 10), vec![rec("api", "a@x.com", "name", "Ann", 100)]);
    let s = db.reconcile(&cfg("csv", 5), vec![rec("csv", "a@x.com", "name", "Ann", 150)]);
    assert_eq!(s.unchanged, 1);
    assert_eq!(s.updated, 0);
    db.reconcile(&cfg("dev", 1), vec![rec("dev", "a@x.com", "name", "Changed", 120)]);
    assert_eq!(db.field("a@x.com", "name").unwrap(), "Ann");
}

#[test]
fn exact_tie_same_source_last_writer_wins() {
    let mut db = Db::default();
    let s = db.reconcile(
        &cfg("api", 10),
        vec![rec("api", "a@x.com", "name", "Ann", 100), rec("api", "a@x.com", "name", "Corrected", 100)],
    );
    assert_eq!(s.inserted, 1);
    assert_eq!(db.field("a@x.com", "name").unwrap(), "Corrected", "same-source tie discarded the correction");
}

#[test]
fn exact_tie_cross_source_keeps_existing() {
    let mut db = Db::default();
    db.reconcile(&cfg("api", 10), vec![rec("api", "a@x.com", "name", "Ann", 100)]);
    let s = db.reconcile(&cfg("other", 10), vec![rec("other", "a@x.com", "name", "Intruder", 100)]);
    assert_eq!(s.updated, 0);
    assert_eq!(db.field("a@x.com", "name").unwrap(), "Ann");
}

#[test]
fn hash_collision_with_new_field_still_stores_it() {
    let mut db = Db::default();
    db.reconcile(&cfg("api", 10), vec![rec("api", "a@x.com", "name", "Ann", 100)]);
    let mut extra = rec("api", "a@x.com", "name", "Ann", 50); // old ts: cannot advance
    extra.fields.insert("nickname".into(), "Nan".into());
    let forged = fields_hash(&extra.fields);
    let i = db.find("people", "a@x.com").unwrap();
    db.rows[i].1.hash = Some(forged);
    db.reconcile(&cfg("api", 10), vec![extra]);
    assert_eq!(db.field("a@x.com", "nickname").unwrap(), "Nan", "colliding hash swallowed the new field");
}

#[test]
fn same_value_win_publishes_no_change() {
    let mut db = Db::default();
    db.reconcile(&cfg("api", 10), vec![rec("api", "a@x.com", "name", "Ann", 100)]);
    let s = db.reconcile(&cfg("csv", 5), vec![rec("csv", "a@x.com", "name", "Ann", 150)]);
    assert!(s.collections.is_empty());
}

#[test]
fn unreadable_stored_row_fails_the_group() {
    let records = vec![rec("api", "a@x.com", "name", "Ann", 100)];
    let (keys, gidx) = group_keys(&records);
    let row = ExistingRow {
        decoded: Err("expected value at line 1 column 1".into()),
        updated_at: 1,
        content_hash: None,
        meta_floor_ts: None,
        meta_floor_pri: None,
        field_count: None,
    };
    let r = merge_group(&cfg("api", 10), Some(row), keys[0].0.clone(), keys[0].1.clone(), &records, &gidx, 0);
    match r {
        Err(e) => {
            assert_eq!(e.code(), 2);
            assert_eq!(e.to_string(), "storage error: expected value at line 1 column 1");
        }
        Ok(_) => panic!("an unreadable row must fail the merge"),
    }
}

#[test]
fn short_circuit_skips_an_unreadable_row_it_need_not_read() {
    let r0 = rec("api", "a@x.com", "name", "Ann", 100);
    let hash = fields_hash(&r0.fields);
    let records = vec![r0];
    let (keys, gidx) = group_keys(&records);
    let row = ExistingRow {
        decoded: Err("corrupt".into()),
        updated_at: 100,
        content_hash: Some(hash),
        meta_floor_ts: Some(100),
        meta_floor_pri: Some(10),
        field_count: Some(2),
    };
    let o = merge_group(&cfg("api", 10), Some(row), keys[0].0.clone(), keys[0].1.clone(), &records, &gidx, 0)
        .unwrap();
    assert_eq!(o.unchanged, 1);
    assert!(o.write.is_none());
    assert!(!o.visibly_changed);
}

#[test]
fn groups_follow_first_occurrence() {
    let records = vec![
        rec("api", "b@x.com", "name", "B", 1),
        rec("api", "a@x.com", "name", "A", 1),
        rec("api", "b@x.com", "name", "B2", 2),
    ];
    let (keys, gidx) = group_keys(&records);
    assert_eq!(keys.len(), 2);
    assert_eq!(keys[0].1, "b@x.com");
    assert_eq!(keys[1].1, "a@x.com");
    assert_eq!(gidx, vec![0, 1, 0]);
}

#[test]
fn compact_meta_round_trips_and_picks_the_common_meta() {
    let a = ("api".to_string(), 100, 10);
    let b = ("csv".to_string(), 200, 5);
    let meta = meta_map(&[
        ("email".into(), a.clone()),
        ("name".into(), a.clone()),
        ("phone".into(), b.clone()),
    ]);
    let c = compact_meta(&meta);
    assert_eq!(plain_meta(&c.default), a);
    assert_eq!(meta_pairs(&c.overrides), vec![("phone".to_string(), b.clone())]);
    let fields = field_map(&[("email", "e"), ("name", "n"), ("phone", "p")]);
    let back = expand_meta(&fields, StoredMeta::Compact(c));
    assert_eq!(meta_pairs(&back), meta_pairs(&meta));
}

#[test]
fn empty_meta_compacts_to_the_empty_default() {
    let meta: MetaMap = TextMap::new();
    let c = compact_meta(&meta);
    assert_eq!(plain_meta(&c.default), ("".to_string(), 0, 0));
    assert_eq!(c.overrides.len(), 0);
    assert_eq!(meta_floor(&meta), (i64::MIN, 0));
}

#[test]
fn floor_is_least_timestamp_then_least_priority() {
    let meta = meta_map(&[
        ("a".into(), ("x".into(), 100, 9)),
        ("b".into(), ("y".into(), 50, 7)),
        ("c".into(), ("z".into(), 50, 3)),
        ("d".into(), ("w".into(), 70, 1)),
    ]);
    assert_eq!(meta_floor(&meta), (50, 3));
}

#[test]
fn fields_hash_depends_on_content_only() {
    let a = field_map(&[("email", "a@x.com"), ("name", "Ann")]);
    let b = field_map(&[("name", "Ann"), ("email", "a@x.com")]);
    let c = field_map(&[("email", "a@x.com"), ("name", "Anne")]);
    let d = field_map(&[("email", "a@x.comname"), ("", "Ann")]);
    assert_eq!(fields_hash(&a), fields_hash(&b));
    assert_ne!(fields_hash(&a), fields_hash(&c));
    assert_ne!(fields_hash(&a), fields_hash(&d));
}

#[test]
fn summary_reports_the_keys_that_changed() {
    let mut db = Db::default();
    let cfg = json_cfg("people", "id", None, 1);
    let ids: Vec<String> = ["a", "b", "c"].iter().map(|s| s.to_string()).collect();
    let s = db.ingest(&cfg, &id_rows(&ids, 1), 0);
    let mut got = keys_of(&s, "people");
    got.sort();
    assert_eq!(got, vec!["a", "b", "c"]);
    let s = db.ingest(&cfg, &id_rows(&["b".to_string()], 2), 0);
    assert_eq!(keys_of(&s, "people"), vec!["b"]);
}

#[test]
fn unchanged_rows_report_no_keys() {
    let mut db = Db::default();
    let cfg = json_cfg("people", "id", None, 1);
    db.ingest(&cfg, &id_rows(&["a".to_string(), "b".to_string()], 1), 0);
    let s = db.ingest(&cfg, r#"[{"id":"b","v":"1"},{"id":"a","v":"1"}]"#, 0);
    assert!(keys_of(&s, "people").is_empty());
    assert!(!s.truncated);
}

#[test]
fn oversized_batches_flag_truncation() {
    let mut db = Db::default();
    let cfg = json_cfg("people", "id", None, 1);
    let ids: Vec<String> = (0..(CHANGED_KEYS_CAP + 50)).map(|i| i.to_string()).collect();
    let s = db.ingest(&cfg, &id_rows(&ids, 1), 0);
    assert!(s.truncated);
    assert_eq!(keys_of(&s, "people").len(), CHANGED_KEYS_CAP);
}

#[test]
fn partial_field_updates_report_their_keys() {
    let mut db = Db::default();
    let cfg = json_cfg("sel", "id", Some("updated_at"), 1);
    let full = r#"[{"id":"s1","event":"A v B","market":"Match Odds","back_price":"2.40","updated_at":"2026-08-05T00:00:00Z"}]"#;
    let s = db.ingest(&cfg, full, 0);
    assert_eq!(keys_of(&s, "sel").len(), 1);
    let delta = r#"[{"id":"s1","back_price":"2.44","updated_at":"2026-08-05T00:00:01Z"}]"#;
    let s = db.ingest(&cfg, delta, 0);
    assert_eq!(s.updated, 1);
    assert_eq!(keys_of(&s, "sel"), vec!["s1"]);
    assert_eq!(db.field_in("sel", "s1", "event").unwrap(), "A v B");
    assert_eq!(db.field_in("sel", "s1", "back_price").unwrap(), "2.44");
}

#[test]
fn iso8601_timestamps_drive_lww_ordering() {
    let mut db = Db::default();
    let cfg = json_cfg("people", "email", Some("updated_at"), 10);
    let fresh = r#"[{"email":"a@x.com","name":"new","updated_at":"2026-07-17T00:00:10Z"}]"#;
    let stale = r#"[{"email":"a@x.com","name":"old","updated_at":"2026-07-17T00:00:01Z"}]"#;
    let s1 = db.ingest(&cfg, fresh, 5_000_000);
    assert_eq!(s1.inserted, 1);
    let s2 = db.ingest(&cfg, stale, 5_000_001);
    assert_eq!(s2.updated, 0);
    assert_eq!(s2.unchanged, 1);
    assert_eq!(db.field_in("people", "a@x.com", "name").unwrap(), "new");
}

#[test]
fn unparseable_timestamp_dead_letters_instead_of_now_fallback() {
    let mut db = Db::default();
    let cfg = json_cfg("people", "email", Some("updated_at"), 10);
    let s = db.ingest(&cfg, r#"[{"email":"a@x.com","name":"A","updated_at":"not-a-date"}]"#, 5_000_000);
    assert_eq!(s.inserted, 0);
    assert_eq!(s.dead_lettered, 1);
    assert!(db.find("people", "a@x.com").is_none());
}

#[test]
fn null_natural_key_dead_letters() {
    let mut db = Db::default();
    let cfg = json_cfg("people", "email", Some("updated_at"), 10);
    let s = db.ingest(&cfg, r#"[{"email":null,"name":"A"},{"email":null,"name":"B"}]"#, 5_000_000);
    assert_eq!(s.inserted, 0);
    assert_eq!(s.dead_lettered, 2);
    assert!(db.find("people", "null").is_none());
}

#[test]
fn float_natural_key_dead_letters() {
    let mut db = Db::default();
    let cfg = json_cfg("nums", "id", None, 10);
    let s = db.ingest(&cfg, r#"[{"id":1,"v":"int"},{"id":1.0,"v":"float"}]"#, 5_000_000);
    assert_eq!(s.dead_lettered, 1);
    assert_eq!(s.inserted, 1);
    assert_eq!(db.field_in("nums", "1", "v").unwrap(), "int");
    assert!(db.find("nums", "1.0").is_none());
}

#[test]
fn numeric_values_canonicalize_across_formats() {
    let mut db = Db::default();
    let cfg = json_cfg("acct", "id", None, 10);
    let s1 = db.ingest(&cfg, r#"[{"id":"k1","balance":1000.0}]"#, 5_000_000);
    assert_eq!(s1.inserted, 1);
    assert_eq!(db.field_in("acct", "k1", "balance").unwrap(), "1000");
    let s2 = db.ingest(&cfg, r#"[{"id":"k1","balance":"1000","note":"x"}]"#, 5_000_000);
    assert_eq!(s2.updated, 1);
    let s3 = db.ingest(&cfg, r#"[{"id":"k1","balance":1000.0,"note":"x"}]"#, 5_000_000);
    assert_eq!(s3.unchanged, 1);
    assert_eq!(s3.updated, 0);
}

#[test]
fn delta_tick_after_snapshot_reports_changed_keys() {
    let mut db = Db::default();
    let cfg = SourceConfig {
        source_id: "feed".into(),
        format: SourceFormat::Json,
        collection: "selections".into(),
        natural_key_field: "selection_id".into(),
        timestamp_field: Some("updated_at".into()),
        priority: 10,
    };
    let snapshot = r#"[{"selection_id":"s0","event_id":"e0","event_name":"A v B","competition":"PL","market_id":"m0","market_name":"Match Odds","market_type":"MATCH_ODDS","start_time":"2026-08-06T19:45:00Z","runner_name":"A","runner_id":47000,"sort_order":1,"in_play":false,"status":"ACTIVE","back_price":7.97,"back_size":4523.09,"lay_price":8,"lay_size":2406.7,"last_traded_price":7.97,"total_matched":233403.9,"updated_at":"2026-07-25T17:20:00.000Z"}]"#;
    let s = db.ingest(&cfg, snapshot, 0);
    assert_eq!(s.inserted, 1);
    let tick = r#"[{"selection_id":"s0","back_price":3.7,"back_size":3976.28,"lay_price":3.74,"lay_size":2466.39,"last_traded_price":3.7,"total_matched":253469.37,"updated_at":"2026-07-25T17:20:00.250Z"}]"#;
    let s = db.ingest(&cfg, tick, 0);
    assert_eq!(s.updated, 1);
    assert_eq!(keys_of(&s, "selections").len(), 1);
}

#[test]
fn changed_keys_group_under_their_collections_in_order() {
    let pairs: Vec<(String, String)> = vec![
        ("people".into(), "b".into()),
        ("orders".into(), "7".into()),
        ("people".into(), "a".into()),
        ("orders".into(), "3".into()),
        ("crm".into(), "x".into()),
    ];
    let groups = group_by_collection(&pairs);
    assert_eq!(
        groups,
        vec![
            ("people".to_string(), vec!["b".to_string(), "a".to_string()]),
            ("orders".to_string(), vec!["7".to_string(), "3".to_string()]),
            ("crm".to_string(), vec!["x".to_string()]),
        ]
    );
    assert!(group_by_collection(&vec![]).is_empty());
}

#[test]
fn batch_totals_count_every_record_once() {
    let mut db = Db::default();
    db.reconcile(&cfg("api", 10), vec![rec("api", "old@x.com", "name", "Ann", 100)]);
    let batch = vec![
        rec("api", "new@x.com", "name", "Nia", 100),
        rec("api", "old@x.com", "name", "Anne", 200),
        rec("api", "new@x.com", "name", "Nia", 150),
        rec("api", "old@x.com", "name", "Anne", 300),
        rec("api", "two@x.com", "name", "Tom", 100),
    ];
    let s = db.reconcile(&cfg("api", 10), batch);
    assert_eq!(s.inserted + s.updated + s.unchanged, 5);
    assert_eq!(s.inserted, 2);
    assert_eq!(s.updated, 1);
    assert_eq!(s.unchanged, 2);
}

#[test]
fn distinct_batch_reingest_over_stored_rows_is_unchanged() {
    let mut db = Db::default();
    db.reconcile(&cfg("api", 10), vec![rec("api", "a@x.com", "name", "Ann", 100)]);
    let batch = || {
        vec![
            rec("csv", "a@x.com", "phone", "555", 200),
            rec("csv", "b@x.com", "name", "Bob", 50),
            rec("csv", "a2@x.com", "name", "Al", 70),
        ]
    };
    let s1 = db.reconcile(&cfg("csv", 5), batch());
    assert_eq!((s1.inserted, s1.updated, s1.unchanged), (2, 1, 0));
    let a_before = (db.row("a@x.com").fields.clone(), db.row("a@x.com").updated_at);
    let s2 = db.reconcile(&cfg("csv", 5), batch());
    assert_eq!((s2.inserted, s2.updated, s2.unchanged), (0, 0, 3));
    assert!(s2.collections.is_empty());
    assert_eq!((db.row("a@x.com").fields.clone(), db.row("a@x.com").updated_at), a_before);
}
