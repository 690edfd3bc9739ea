use vstd::prelude::*;
use crate::json::{json_parse, parse_json, JsonNode, JsonValue};
use crate::normalize::{find_member, member};
use crate::text::{str_chars, string_from_chars, trim, trim_chars};

verus! {

/// Largest byte length a length prefix carries; longer lengths are clamped so
/// they can never collide with the missing-field sentinel `u32::MAX`.
pub const MAX_LEN: u32 = 0xFFFF_FFFE;

/// Sentinel length marking a field that is absent (or JSON null) in a row.
pub const SCHEMA_FIELD_MISSING: u32 = 0xFFFF_FFFF;

/// Little-endian bytes of a 32-bit value.
pub open spec fn le32(n: u32) -> Seq<u8> {
    seq![
        (n % 256) as u8,
        ((n / 256) % 256) as u8,
        ((n / 65536) % 256) as u8,
        ((n / 16777216) % 256) as u8,
    ]
}

/// The length prefix of a byte string: its length, clamped to `MAX_LEN`.
pub open spec fn len_prefix(n: nat) -> Seq<u8> {
    le32(if n <= MAX_LEN { n as u32 } else { MAX_LEN })
}

/// A length-prefixed byte string.
pub open spec fn framed(b: Seq<u8>) -> Seq<u8> {
    len_prefix(b.len()) + b
}

/// The UTF-8 bytes of a text.
pub open spec fn utf8(s: Seq<char>) -> Seq<u8> {
    vstd::utf8::encode_utf8(s)
}

/// Each row as its framed key followed by its framed JSON.
pub open spec fn rows_bytes(rows: Seq<(Seq<char>, Seq<char>)>) -> Seq<u8>
    decreases rows.len(),
{
    if rows.len() == 0 {
        Seq::empty()
    } else {
        rows_bytes(rows.drop_last()) + framed(utf8(rows.last().0)) + framed(utf8(rows.last().1))
    }
}

/// The entries encoding: the row count (modulo 2^32) then every row in order.
pub open spec fn encode_entries_spec(rows: Seq<(Seq<char>, Seq<char>)>) -> Seq<u8> {
    le32((rows.len() % 0x1_0000_0000) as u32) + rows_bytes(rows)
}

/// Rows of `(key, json)` pairs viewed as texts.
pub open spec fn rows_view(rows: Seq<(String, String)>) -> Seq<(Seq<char>, Seq<char>)> {
    rows.map_values(|r: (String, String)| (r.0@, r.1@))
}

/// Appends the little-endian bytes of `n`.
pub fn push_le32(buf: &mut Vec<u8>, n: u32)
    ensures
        final(buf)@ == old(buf)@ + le32(n),
{
    buf.push((n % 256) as u8);
    buf.push(((n / 256) % 256) as u8);
    buf.push(((n / 65536) % 256) as u8);
    buf.push(((n / 16777216) % 256) as u8);
    assert(final(buf)@ =~= old(buf)@ + le32(n));
}

/// Appends a byte string.
pub fn push_bytes(buf: &mut Vec<u8>, b: &[u8])
    ensures
        final(buf)@ == old(buf)@ + b@,
{
    let ghost start = buf@;
    let mut i: usize = 0;
    while i < b.len()
        invariant
            i <= b.len(),
            buf@ == start + b@.take(i as int),
        decreases b.len() - i,
    {
        buf.push(b[i]);
        i = i + 1;
        assert(buf@ =~= start + b@.take(i as int));
    }
    assert(b@.take(i as int) =~= b@);
}

/// The little-endian length prefix of `n` bytes, clamped to `MAX_LEN` so an
/// oversized length can never frame-shift the buffer.
pub fn le_len(n: usize) -> (r: [u8; 4])
    ensures
        r@ == len_prefix(n as nat),
{
    let v: u32 = if n <= MAX_LEN as usize {
        n as u32
    } else {
        MAX_LEN
    };
    let r = [(v % 256) as u8, ((v / 256) % 256) as u8, ((v / 65536) % 256) as u8, ((v / 16777216) % 256) as u8];
    assert(r@ =~= len_prefix(n as nat));
    r
}

/// Appends a length prefix (clamped to `MAX_LEN`) then the bytes.
pub fn push_framed(buf: &mut Vec<u8>, b: &[u8])
    ensures
        final(buf)@ == old(buf)@ + framed(b@),
{
    let prefix = le_len(b.len());
    push_bytes(buf, &prefix);
    push_bytes(buf, b);
    assert(final(buf)@ =~= old(buf)@ + framed(b@));
}

/// Packs `(key, json)` rows little-endian: `[u32 count]` then, per row,
/// `[u32 klen][key][u32 vlen][json]`. Lengths past `MAX_LEN` are clamped.
pub fn encode_entries(rows: &[(String, String)]) -> (buf: Vec<u8>)
    ensures
        buf@ == encode_entries_spec(rows_view(rows@)),
{
    let ghost rv = rows_view(rows@);
    let mut buf: Vec<u8> = Vec::new();
    let count: u32 = (rows.len() as u64 % 0x1_0000_0000u64) as u32;
    push_le32(&mut buf, count);
    let ghost head = buf@;
    let mut i: usize = 0;
    while i < rows.len()
        invariant
            i <= rows.len(),
            rv == rows_view(rows@),
            buf@ == head + rows_bytes(rv.take(i as int)),
        decreases rows.len() - i,
    {
        let (key, json) = &rows[i];
        push_framed(&mut buf, key.as_str().as_bytes());
        push_framed(&mut buf, json.as_str().as_bytes());
        proof {
            assert(rv.take(i + 1).drop_last() =~= rv.take(i as int));
            assert(rv[i as int] == (rows@[i as int].0@, rows@[i as int].1@));
            assert(buf@ =~= head + rows_bytes(rv.take(i + 1)));
        }
        i = i + 1;
    }
    assert(rv.take(i as int) =~= rv);
    buf
}


/// The bytes of one field of a row: the sentinel when the row's document is
/// not an object, lacks the field or holds JSON null there; a string's
/// framed UTF-8; any other value's framed compact JSON.
pub open spec fn field_bytes(doc: Option<JsonNode>, f: Seq<char>) -> Seq<u8> {
    let missing = le32(SCHEMA_FIELD_MISSING);
    match doc {
        Some(n) => match n.value {
            JsonValue::Object(ms) => match member(ms@, f) {
                Some(v) => match v.value {
                    JsonValue::Null => missing,
                    JsonValue::Str(s) => framed(utf8(s@)),
                    _ => framed(utf8(v.text@)),
                },
                None => missing,
            },
            _ => missing,
        },
        None => missing,
    }
}

/// A row's field values, in field-table order.
pub open spec fn row_fields_bytes(doc: Option<JsonNode>, fields: Seq<Seq<char>>) -> Seq<u8>
    decreases fields.len(),
{
    if fields.len() == 0 {
        Seq::empty()
    } else {
        row_fields_bytes(doc, fields.drop_last()) + field_bytes(doc, fields.last())
    }
}

/// The field table: each name framed.
pub open spec fn field_table_bytes(fields: Seq<Seq<char>>) -> Seq<u8>
    decreases fields.len(),
{
    if fields.len() == 0 {
        Seq::empty()
    } else {
        field_table_bytes(fields.drop_last()) + framed(utf8(fields.last()))
    }
}

/// The rows: each key framed, then its field values.
pub open spec fn schema_rows_bytes(rows: Seq<(Seq<char>, Option<JsonNode>)>, fields: Seq<Seq<char>>) -> Seq<u8>
    decreases rows.len(),
{
    if rows.len() == 0 {
        Seq::empty()
    } else {
        schema_rows_bytes(rows.drop_last(), fields) + framed(utf8(rows.last().0))
            + row_fields_bytes(rows.last().1, fields)
    }
}

/// The schema-packed encoding: `[u32 nFields]`, the field table,
/// `[u32 rowCount]`, then the rows (counts modulo 2^32).
pub open spec fn encode_schema_spec(rows: Seq<(Seq<char>, Option<JsonNode>)>, fields: Seq<Seq<char>>) -> Seq<u8> {
    le32((fields.len() % 0x1_0000_0000) as u32) + field_table_bytes(fields) + le32(
        (rows.len() % 0x1_0000_0000) as u32,
    ) + schema_rows_bytes(rows, fields)
}

/// Field names as texts.
pub open spec fn names_view(fields: Seq<&str>) -> Seq<Seq<char>> {
    fields.map_values(|f: &str| f@)
}

/// Rows with their parsed documents as plain values.
pub open spec fn parsed_rows_view(rows: Seq<(String, Option<JsonNode>)>) -> Seq<(Seq<char>, Option<JsonNode>)> {
    rows.map_values(|r: (String, Option<JsonNode>)| (r.0@, r.1))
}

fn push_field(buf: &mut Vec<u8>, doc: &Option<JsonNode>, f: &str)
    ensures
        final(buf)@ == old(buf)@ + field_bytes(*doc, f@),
{
    if let Some(n) = doc {
        if let JsonValue::Object(ms) = &n.value {
            match find_member(ms, f) {
                Some(v) => match &v.value {
                    JsonValue::Null => push_le32(buf, SCHEMA_FIELD_MISSING),
                    JsonValue::Str(s) => push_framed(buf, s.as_str().as_bytes()),
                    _ => push_framed(buf, v.text.as_str().as_bytes()),
                },
                None => push_le32(buf, SCHEMA_FIELD_MISSING),
            }
            return;
        }
    }
    push_le32(buf, SCHEMA_FIELD_MISSING);
}

/// Schema-packs rows whose JSON has been parsed (`None` where it could not be).
pub fn encode_parsed_rows_schema(rows: &Vec<(String, Option<JsonNode>)>, fields: &[&str]) -> (buf: Vec<u8>)
    ensures
        buf@ == encode_schema_spec(parsed_rows_view(rows@), names_view(fields@)),
{
    let ghost fv = names_view(fields@);
    let ghost rv = parsed_rows_view(rows@);
    let mut buf: Vec<u8> = Vec::new();
    push_le32(&mut buf, (fields.len() as u64 % 0x1_0000_0000u64) as u32);
    let ghost start = buf@;
    let mut j: usize = 0;
    while j < fields.len()
        invariant
            j <= fields@.len(),
            fv == names_view(fields@),
            buf@ == start + field_table_bytes(fv.take(j as int)),
        decreases fields.len() - j,
    {
        push_framed(&mut buf, fields[j].as_bytes());
        proof {
            assert(fv.take(j + 1).drop_last() =~= fv.take(j as int));
            assert(buf@ =~= start + field_table_bytes(fv.take(j + 1)));
        }
        j = j + 1;
    }
    assert(fv.take(j as int) =~= fv);
    push_le32(&mut buf, (rows.len() as u64 % 0x1_0000_0000u64) as u32);
    let ghost head = buf@;
    let mut i: usize = 0;
    while i < rows.len()
        invariant
            i <= rows@.len(),
            fv == names_view(fields@),
            rv == parsed_rows_view(rows@),
            buf@ == head + schema_rows_bytes(rv.take(i as int), fv),
        decreases rows.len() - i,
    {
        let (key, doc) = &rows[i];
        push_framed(&mut buf, key.as_str().as_bytes());
        let ghost mid = buf@;
        let mut j: usize = 0;
        while j < fields.len()
            invariant
                j <= fields@.len(),
                fv == names_view(fields@),
                buf@ == mid + row_fields_bytes(*doc, fv.take(j as int)),
            decreases fields.len() - j,
        {
            push_field(&mut buf, doc, fields[j]);
            proof {
                assert(fv.take(j + 1).drop_last() =~= fv.take(j as int));
                assert(buf@ =~= mid + row_fields_bytes(*doc, fv.take(j + 1)));
            }
            j = j + 1;
        }
        proof {
            assert(fv.take(j as int) =~= fv);
            assert(rv.take(i + 1).drop_last() =~= rv.take(i as int));
            assert(rv[i as int] == (rows@[i as int].0@, rows@[i as int].1));
            assert(buf@ =~= head + schema_rows_bytes(rv.take(i + 1), fv));
        }
        i = i + 1;
    }
    assert(rv.take(i as int) =~= rv);
    buf
}

/// Each row's JSON as serde_json reads it (`None` where it does not parse).
pub open spec fn parse_rows_view(rows: Seq<(String, String)>) -> Seq<(Seq<char>, Option<JsonNode>)> {
    rows.map_values(
        |r: (String, String)|
            (
                r.0@,
                match json_parse(r.1@) {
                    Ok(n) => Some(n),
                    Err(_) => None,
                },
            ),
    )
}

/// Schema-packed rows: the field table once, then per row the key and each
/// field's value in table order (see `encode_schema_spec`); a row whose JSON
/// does not parse has every field missing.
pub fn encode_entries_schema(rows: &[(String, String)], fields: &[&str]) -> (buf: Vec<u8>)
    ensures
        buf@ == encode_schema_spec(parse_rows_view(rows@), names_view(fields@)),
{
    let mut parsed: Vec<(String, Option<JsonNode>)> = Vec::new();
    let mut i: usize = 0;
    while i < rows.len()
        invariant
            i <= rows@.len(),
            parsed_rows_view(parsed@) == parse_rows_view(rows@).take(i as int),
        decreases rows.len() - i,
    {
        let (key, json) = &rows[i];
        let doc = match parse_json(json.as_str()) {
            Ok(n) => Some(n),
            Err(_) => None,
        };
        let ghost before = parsed@;
        parsed.push((key.clone(), doc));
        proof {
            assert(parsed_rows_view(parsed@) =~= parsed_rows_view(before).push(parse_rows_view(rows@)[i as int]));
            assert(parse_rows_view(rows@).take(i + 1) =~= parse_rows_view(rows@).take(i as int).push(parse_rows_view(rows@)[i as int]));
        }
        i = i + 1;
    }
    assert(parse_rows_view(rows@).take(i as int) =~= parse_rows_view(rows@));
    encode_parsed_rows_schema(&parsed, fields)
}


/// Adds a trimmed piece to the list unless it is empty.
pub open spec fn keep_piece(done: Seq<Seq<char>>, piece: Seq<char>) -> Seq<Seq<char>> {
    if trim(piece).len() > 0 {
        done.push(trim(piece))
    } else {
        done
    }
}

/// Splitting at commas so far: the kept pieces, and the piece in progress.
pub open spec fn split_state(s: Seq<char>) -> (Seq<Seq<char>>, Seq<char>)
    decreases s.len(),
{
    if s.len() == 0 {
        (Seq::empty(), Seq::empty())
    } else {
        let (done, cur) = split_state(s.drop_last());
        if s.last() == ',' {
            (keep_piece(done, cur), Seq::empty())
        } else {
            (done, cur.push(s.last()))
        }
    }
}

/// A comma-separated field list: each piece trimmed, empty pieces dropped.
pub open spec fn field_list_spec(s: Seq<char>) -> Seq<Seq<char>> {
    keep_piece(split_state(s).0, split_state(s).1)
}

fn push_piece(out: &mut Vec<String>, cur: &Vec<char>)
    ensures
        texts_of(final(out)@) == keep_piece(texts_of(old(out)@), cur@),
{
    let t = trim_chars(cur);
    if t.len() > 0 {
        let ghost before = out@;
        out.push(string_from_chars(&t));
        assert(texts_of(out@) =~= texts_of(before).push(t@));
    }
}

/// Strings as texts.
pub open spec fn texts_of(v: Seq<String>) -> Seq<Seq<char>> {
    v.map_values(|s: String| s@)
}

/// The field names a comma-separated list asks for (see `field_list_spec`).
pub fn parse_field_list(fields_csv: &str) -> (r: Vec<String>)
    ensures
        texts_of(r@) == field_list_spec(fields_csv@),
{
    let cs = str_chars(fields_csv);
    let mut out: Vec<String> = Vec::new();
    let mut cur: Vec<char> = Vec::new();
    let mut i: usize = 0;
    assert(cs@.take(0) =~= Seq::<char>::empty());
    assert(texts_of(out@) =~= Seq::<Seq<char>>::empty());
    while i < cs.len()
        invariant
            i <= cs@.len(),
            cs@ == fields_csv@,
            (texts_of(out@), cur@) == split_state(cs@.take(i as int)),
        decreases cs.len() - i,
    {
        assert(cs@.take(i + 1).drop_last() =~= cs@.take(i as int));
        assert(cs@.take(i + 1).last() == cs@[i as int]);
        if cs[i] == ',' {
            push_piece(&mut out, &cur);
            cur = Vec::new();
            assert(cur@ =~= Seq::<char>::empty());
        } else {
            cur.push(cs[i]);
        }
        i = i + 1;
    }
    assert(cs@.take(i as int) =~= cs@);
    push_piece(&mut out, &cur);
    out
}

/// A page of a range query is valid when it asks for some fields, at least
/// one row, and does not start before the first row.
pub fn valid_page(field_count: usize, limit: i64, offset: i64) -> (r: bool)
    ensures
        r == (field_count > 0 && limit > 0 && offset >= 0),
{
    field_count > 0 && limit > 0 && offset >= 0
}

} // verus!
