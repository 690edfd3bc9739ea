use reconcile_engine::binenc::{encode_entries_schema, SCHEMA_FIELD_MISSING};

fn u32_at(b: &[u8], o: usize) -> u32 {
    u32::from_le_bytes(b[o..o + 4].try_into().unwrap())
}

#[test]
fn schema_encodes_field_table_and_values() {
    let rows = vec![("k1".to_string(), r#"{"name":"Ann","age":30}"#.to_string())];
    let buf = encode_entries_schema(&rows, &["name", "age", "missing"]);
    let mut off = 0usize;
    assert_eq!(u32_at(&buf, off), 3);
    off += 4;
    for expected in ["name", "age", "missing"] {
        let len = u32_at(&buf, off) as usize;
        off += 4;
        assert_eq!(&buf[off..off + len], expected.as_bytes());
        off += len;
    }
    assert_eq!(u32_at(&buf, off), 1);
    off += 4;
    let klen = u32_at(&buf, off) as usize;
    off += 4;
    assert_eq!(&buf[off..off + klen], b"k1");
    off += klen;
    assert_eq!(u32_at(&buf, off), 3);
    off += 4;
    assert_eq!(&buf[off..off + 3], b"Ann");
    off += 3;
    assert_eq!(u32_at(&buf, off), 2);
    off += 4;
    assert_eq!(&buf[off..off + 2], b"30");
    off += 2;
    assert_eq!(u32_at(&buf, off), SCHEMA_FIELD_MISSING);
    off += 4;
    assert_eq!(off, buf.len());
}

#[test]
fn schema_handles_unparseable_fields_json() {
    let rows = vec![("k".to_string(), "not json".to_string())];
    let buf = encode_entries_schema(&rows, &["a"]);
    let tail = &buf[buf.len() - 4..];
    assert_eq!(u32::from_le_bytes(tail.try_into().unwrap()), SCHEMA_FIELD_MISSING);
}

#[test]
fn schema_null_and_nested_values() {
    let rows = vec![("k".to_string(), r#"{"a":null,"b":{"x":[1,2.5]},"c":true}"#.to_string())];
    let buf = encode_entries_schema(&rows, &["a", "b", "c"]);
    // header: 3 fields of one byte each, row count, key "k"
    let mut off = 4 + 3 * 5 + 4 + 5;
    assert_eq!(u32_at(&buf, off), SCHEMA_FIELD_MISSING);
    off += 4;
    let len = u32_at(&buf, off) as usize;
    off += 4;
    assert_eq!(&buf[off..off + len], br#"{"x":[1,2.5]}"#);
    off += len;
    assert_eq!(u32_at(&buf, off), 4);
    assert_eq!(&buf[off + 4..], b"true");
}

#[test]
fn schema_with_no_rows_or_fields() {
    assert_eq!(encode_entries_schema(&[], &[]), vec![0, 0, 0, 0, 0, 0, 0, 0]);
}
