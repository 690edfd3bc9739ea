use reconcile_engine::binenc::encode_entries;

#[test]
fn encodes_rows_le() {
    let rows = vec![("k1".to_string(), "{\"a\":1}".to_string())];
    let buf = encode_entries(&rows);
    assert_eq!(&buf[0..4], &1u32.to_le_bytes());
    assert_eq!(&buf[4..8], &2u32.to_le_bytes());
    assert_eq!(&buf[8..10], b"k1");
    assert_eq!(&buf[10..14], &7u32.to_le_bytes());
    assert_eq!(&buf[14..21], b"{\"a\":1}");
}

#[test]
fn empty_is_just_count() {
    assert_eq!(encode_entries(&[]), 0u32.to_le_bytes().to_vec());
}

#[test]
fn lengths_are_utf8_byte_lengths() {
    let rows = vec![
        ("é".to_string(), String::new()),
        ("b".to_string(), "xy".to_string()),
    ];
    let buf = encode_entries(&rows);
    let mut want = Vec::new();
    want.extend_from_slice(&2u32.to_le_bytes());
    want.extend_from_slice(&2u32.to_le_bytes());
    want.extend_from_slice("é".as_bytes());
    want.extend_from_slice(&0u32.to_le_bytes());
    want.extend_from_slice(&1u32.to_le_bytes());
    want.extend_from_slice(b"b");
    want.extend_from_slice(&2u32.to_le_bytes());
    want.extend_from_slice(b"xy");
    assert_eq!(buf, want);
}
