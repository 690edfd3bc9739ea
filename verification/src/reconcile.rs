//! Field-level merging: each field keeps the value of the write that wins on
//! (timestamp, source priority), with same-source exact ties resolved in
//! favour of the later write.
use vstd::prelude::*;
use crate::fieldmap::{compare_text, has_key, lemma_map_of_entry, lemma_text_lt_irreflexive, map_of, sorted_keys, FieldMap, TextMap};
use crate::normalize::{CanonicalRecord, RecordSpec};
use std::collections::hash_map::DefaultHasher;
use std::hash::Hasher;
use vstd::std_specs::hash::DefaultHasherAdditionalSpecFns;
use vstd::string::StringSliceAdditionalSpecFns;

verus! {

/// Which write a field's current value came from.
#[derive(Debug)]
pub struct FieldMeta {
    pub source: String,
    pub updated_at: i64,
    pub priority: u32,
}

/// A field's merge metadata as plain values.
pub struct MetaSpec {
    pub source: Seq<char>,
    pub updated_at: i64,
    pub priority: u32,
}

impl View for FieldMeta {
    type V = MetaSpec;

    open spec fn view(&self) -> MetaSpec {
        MetaSpec { source: self.source@, updated_at: self.updated_at, priority: self.priority }
    }
}

/// Field names to their merge metadata.
pub type MetaMap = TextMap<FieldMeta>;

/// A copy of a field's metadata.
pub fn copy_meta(m: &FieldMeta) -> (r: FieldMeta)
    ensures
        r@ == m@,
{
    FieldMeta { source: m.source.clone(), updated_at: m.updated_at, priority: m.priority }
}

/// Whether two metadata are the same write.
pub fn same_meta(a: &FieldMeta, b: &FieldMeta) -> (r: bool)
    ensures
        r == (a@ == b@),
{
    a.updated_at == b.updated_at && a.priority == b.priority && compare_text(
        a.source.as_str(),
        b.source.as_str(),
    ) == 0
}

/// Whether a write from `source` at `ts` with priority `pri` takes field `k`:
/// an unknown field, a newer timestamp, or an equal timestamp with a higher
/// priority, or an exact tie from the same source (a correction in batch
/// order). Cross-source exact ties keep the current value.
pub open spec fn wins(
    meta: Map<Seq<char>, MetaSpec>,
    k: Seq<char>,
    source: Seq<char>,
    ts: i64,
    pri: u32,
) -> bool {
    !meta.contains_key(k) || ts > meta[k].updated_at || (ts == meta[k].updated_at && (pri
        > meta[k].priority || (pri == meta[k].priority && meta[k].source == source)))
}

/// A row's state while merging: its fields, their metadata, and its timestamp.
#[verifier::ext_equal]
pub struct MergeState {
    pub fields: Map<Seq<char>, Seq<char>>,
    pub meta: Map<Seq<char>, MetaSpec>,
    pub row_ts: i64,
}

/// Field `k` of `rec` is taken by the merge.
pub open spec fn takes(st: MergeState, rec: RecordSpec, pri: u32, k: Seq<char>) -> bool {
    rec.fields.contains_key(k) && wins(st.meta, k, rec.source, rec.updated_at, pri)
}

/// Some field of `rec` is taken.
pub open spec fn advances(st: MergeState, rec: RecordSpec, pri: u32) -> bool {
    exists|k: Seq<char>| #[trigger] takes(st, rec, pri, k)
}

/// A taken field whose value changes.
pub open spec fn changes_field(st: MergeState, rec: RecordSpec, pri: u32, k: Seq<char>) -> bool {
    takes(st, rec, pri, k) && !(st.fields.contains_key(k) && st.fields[k] == rec.fields[k])
}

/// Some taken field changes value.
pub open spec fn changes(st: MergeState, rec: RecordSpec, pri: u32) -> bool {
    exists|k: Seq<char>| #[trigger] changes_field(st, rec, pri, k)
}

/// The metadata a taken field receives.
pub open spec fn record_meta(rec: RecordSpec, pri: u32) -> MetaSpec {
    MetaSpec { source: rec.source, updated_at: rec.updated_at, priority: pri }
}

/// The state after merging one record with priority `pri`: every taken field
/// gets the record's value and metadata; the row timestamp moves to the
/// record's when that is later and some field was taken, and never backward.
pub open spec fn apply_record(st: MergeState, rec: RecordSpec, pri: u32) -> MergeState {
    MergeState {
        fields: Map::new(
            |k: Seq<char>| st.fields.contains_key(k) || takes(st, rec, pri, k),
            |k: Seq<char>|
                if takes(st, rec, pri, k) {
                    rec.fields[k]
                } else {
                    st.fields[k]
                },
        ),
        meta: Map::new(
            |k: Seq<char>| st.meta.contains_key(k) || takes(st, rec, pri, k),
            |k: Seq<char>|
                if takes(st, rec, pri, k) {
                    record_meta(rec, pri)
                } else {
                    st.meta[k]
                },
        ),
        row_ts: if advances(st, rec, pri) && rec.updated_at > st.row_ts {
            rec.updated_at
        } else {
            st.row_ts
        },
    }
}

/// `k` is the key of one of the first `n` entries.
pub open spec fn seen<V>(entries: Seq<(Seq<char>, V)>, n: int, k: Seq<char>) -> bool {
    exists|i: int| 0 <= i < n && #[trigger] entries[i].0 == k
}

/// Taking one more entry into the prefix adds exactly that entry's key.
pub proof fn lemma_seen_step<V>(entries: Seq<(Seq<char>, V)>, n: int)
    requires
        0 <= n < entries.len(),
    ensures
        forall|k: Seq<char>| #[trigger] seen(entries, n + 1, k) == (seen(entries, n, k) || k == entries[n].0),
{
    assert forall|k: Seq<char>| #[trigger] seen(entries, n + 1, k) == (seen(entries, n, k) || k == entries[n].0) by {
        if seen(entries, n + 1, k) {
            let i = choose|i: int| 0 <= i < n + 1 && #[trigger] entries[i].0 == k;
            if i < n {
                assert(seen(entries, n, k));
            }
        }
        if seen(entries, n, k) {
            let i = choose|i: int| 0 <= i < n && #[trigger] entries[i].0 == k;
            assert(0 <= i < n + 1 && entries[i].0 == k);
        }
        if k == entries[n].0 {
            assert(entries[n].0 == k);
        }
    }
}

/// Every entry taken, the keys seen are exactly the map's keys.
pub proof fn lemma_seen_all<V>(entries: Seq<(Seq<char>, V)>)
    ensures
        forall|k: Seq<char>| #[trigger] seen(entries, entries.len() as int, k) == map_of(entries).contains_key(k),
{
    assert forall|k: Seq<char>| #[trigger] seen(entries, entries.len() as int, k) == map_of(entries).contains_key(k) by {
        if has_key(entries, k) {
            let x = choose|x: int| 0 <= x < entries.len() && #[trigger] entries[x].0 == k;
            assert(0 <= x < entries.len() && entries[x].0 == k);
        }
    }
}

/// The merged fields, restricted to the keys among the first `n` entries.
pub open spec fn prefix_fields(
    st: MergeState,
    rec: RecordSpec,
    entries: Seq<(Seq<char>, Seq<char>)>,
    pri: u32,
    n: int,
) -> Map<Seq<char>, Seq<char>> {
    Map::new(
        |k: Seq<char>| st.fields.contains_key(k) || (seen(entries, n, k) && takes(st, rec, pri, k)),
        |k: Seq<char>|
            if seen(entries, n, k) && takes(st, rec, pri, k) {
                rec.fields[k]
            } else {
                st.fields[k]
            },
    )
}

/// The merged metadata, restricted to the keys among the first `n` entries.
pub open spec fn prefix_meta(
    st: MergeState,
    rec: RecordSpec,
    entries: Seq<(Seq<char>, Seq<char>)>,
    pri: u32,
    n: int,
) -> Map<Seq<char>, MetaSpec> {
    Map::new(
        |k: Seq<char>| st.meta.contains_key(k) || (seen(entries, n, k) && takes(st, rec, pri, k)),
        |k: Seq<char>|
            if seen(entries, n, k) && takes(st, rec, pri, k) {
                record_meta(rec, pri)
            } else {
                st.meta[k]
            },
    )
}

fn meta_wins(meta: &MetaMap, k: &str, source: &String, ts: i64, pri: u32) -> (w: bool)
    ensures
        w == wins(meta.map(), k@, source@, ts, pri),
{
    match meta.get(k) {
        None => true,
        Some(m) => {
            ts > m.updated_at || (ts == m.updated_at && (pri > m.priority || (pri == m.priority
                && compare_text(m.source.as_str(), source.as_str()) == 0)))
        },
    }
}

/// Merges one record into a row's fields and metadata; returns whether some
/// field was taken and whether some taken field changed value.
pub fn apply_record_exec(
    fields: &mut FieldMap,
    meta: &mut MetaMap,
    row_ts: &mut i64,
    rec: &CanonicalRecord,
    pri: u32,
) -> (r: (bool, bool))
    ensures
        ({
            let st = MergeState {
                fields: old(fields).map(),
                meta: old(meta).map(),
                row_ts: *old(row_ts),
            };
            let st2 = apply_record(st, rec.view(), pri);
            &&& final(fields).map() == st2.fields
            &&& final(meta).map() == st2.meta
            &&& *final(row_ts) == st2.row_ts
            &&& r.0 == advances(st, rec.view(), pri)
            &&& r.1 == changes(st, rec.view(), pri)
        }),
{
    let ghost st = MergeState { fields: fields.map(), meta: meta.map(), row_ts: *row_ts };
    let ghost rv = rec.view();
    let ghost entries = rec.fields@;
    let mut advanced = false;
    let mut dirty = false;
    let mut j: usize = 0;
    let n = rec.fields.len();
    assert(fields.map() =~= prefix_fields(st, rv, entries, pri, 0));
    assert(meta.map() =~= prefix_meta(st, rv, entries, pri, 0));
    while j < n
        invariant
            j <= n == entries.len(),
            entries == rec.fields@,
            sorted_keys(entries),
            rv == rec.view(),
            rv.fields == map_of(entries),
            st.fields == old(fields).map(),
            st.meta == old(meta).map(),
            fields.map() == prefix_fields(st, rv, entries, pri, j as int),
            meta.map() == prefix_meta(st, rv, entries, pri, j as int),
            advanced == exists|i: int| 0 <= i < j && #[trigger] takes(st, rv, pri, entries[i].0),
            dirty == exists|i: int| 0 <= i < j && #[trigger] changes_field(st, rv, pri, entries[i].0),
        decreases n - j,
    {
        let k = rec.fields.key_at(j);
        let v = rec.fields.value_at(j);
        let ghost kv = k@;
        proof {
            lemma_map_of_entry(entries, j as int);
            assert(!seen(entries, j as int, kv)) by {
                if seen(entries, j as int, kv) {
                    let i = choose|i: int| 0 <= i < j && #[trigger] entries[i].0 == kv;
                    assert(crate::fieldmap::text_lt(entries[i].0, entries[j as int].0));
                    lemma_text_lt_irreflexive(kv);
                }
            }
            lemma_seen_step(entries, j as int);
        }
        let w = meta_wins(meta, k.as_str(), &rec.source, rec.updated_at, pri);
        assert(w == takes(st, rv, pri, kv));
        if w {
            advanced = true;
            let same = match fields.get(k.as_str()) {
                Some(cur) => compare_text(cur.as_str(), v.as_str()) == 0,
                None => false,
            };
            assert(same == (st.fields.contains_key(kv) && st.fields[kv] == rv.fields[kv]));
            if !same {
                fields.insert(k.clone(), v.clone());
                dirty = true;
            }
            meta.insert(
                k.clone(),
                FieldMeta { source: rec.source.clone(), updated_at: rec.updated_at, priority: pri },
            );
        }
        proof {
            let pf = prefix_fields(st, rv, entries, pri, j + 1);
            let pm = prefix_meta(st, rv, entries, pri, j + 1);
            assert(fields.map() =~= pf);
            assert(meta.map() =~= pm);
            if takes(st, rv, pri, kv) {
                assert(takes(st, rv, pri, entries[j as int].0));
            }
            if changes_field(st, rv, pri, kv) {
                assert(changes_field(st, rv, pri, entries[j as int].0));
            }
        }
        j = j + 1;
    }
    proof {
        assert forall|k2: Seq<char>| #[trigger] takes(st, rv, pri, k2) implies seen(entries, n as int, k2) by {
            assert(has_key(entries, k2));
            let i = choose|i: int| 0 <= i < entries.len() && #[trigger] entries[i].0 == k2;
            assert(0 <= i < n && entries[i].0 == k2);
        }
        let st2 = apply_record(st, rv, pri);
        assert(fields.map() =~= st2.fields);
        assert(meta.map() =~= st2.meta);
        if advances(st, rv, pri) {
            let k2 = choose|k2: Seq<char>| #[trigger] takes(st, rv, pri, k2);
            let i = choose|i: int| 0 <= i < n && #[trigger] entries[i].0 == k2;
            assert(takes(st, rv, pri, entries[i].0));
        }
        if changes(st, rv, pri) {
            let k2 = choose|k2: Seq<char>| #[trigger] changes_field(st, rv, pri, k2);
            assert(takes(st, rv, pri, k2));
            let i = choose|i: int| 0 <= i < n && #[trigger] entries[i].0 == k2;
            assert(changes_field(st, rv, pri, entries[i].0));
        }
    }
    if advanced && rec.updated_at > *row_ts {
        *row_ts = rec.updated_at;
    }
    (advanced, dirty)
}


/// A merge never moves the row timestamp backward.
pub proof fn lemma_row_ts_never_regresses(st: MergeState, rec: RecordSpec, pri: u32)
    ensures
        apply_record(st, rec, pri).row_ts >= st.row_ts,
{
}

/// A field the row has never seen, or one the record carries with a newer
/// timestamp, takes the record's value and metadata, whatever the priorities.
pub proof fn lemma_newer_timestamp_wins(st: MergeState, rec: RecordSpec, pri: u32, k: Seq<char>)
    requires
        rec.fields.contains_key(k),
        !st.meta.contains_key(k) || rec.updated_at > st.meta[k].updated_at,
    ensures
        apply_record(st, rec, pri).fields[k] == rec.fields[k],
        apply_record(st, rec, pri).meta[k] == record_meta(rec, pri),
        apply_record(st, rec, pri).row_ts >= rec.updated_at,
{
    assert(takes(st, rec, pri, k));
}

/// Both maps hold the same thing at `k`, or neither holds `k`.
pub open spec fn same_at<V>(a: Map<Seq<char>, V>, b: Map<Seq<char>, V>, k: Seq<char>) -> bool {
    a.contains_key(k) == b.contains_key(k) && (a.contains_key(k) ==> a[k] == b[k])
}

/// A record older than a field's current metadata leaves that field alone.
pub proof fn lemma_older_timestamp_loses(st: MergeState, rec: RecordSpec, pri: u32, k: Seq<char>)
    requires
        st.meta.contains_key(k),
        rec.updated_at < st.meta[k].updated_at,
    ensures
        same_at(apply_record(st, rec, pri).fields, st.fields, k),
        apply_record(st, rec, pri).meta[k] == st.meta[k],
{
}

/// At an equal timestamp a higher priority takes the field, a lower one does
/// not, and at an equal priority only the source that wrote it takes it again.
pub proof fn lemma_timestamp_tie(st: MergeState, rec: RecordSpec, pri: u32, k: Seq<char>)
    requires
        rec.fields.contains_key(k),
        st.meta.contains_key(k),
        rec.updated_at == st.meta[k].updated_at,
    ensures
        pri > st.meta[k].priority ==> apply_record(st, rec, pri).fields[k] == rec.fields[k],
        pri < st.meta[k].priority ==> apply_record(st, rec, pri).meta[k] == st.meta[k],
        pri == st.meta[k].priority && st.meta[k].source == rec.source ==> apply_record(
            st,
            rec,
            pri,
        ).fields[k] == rec.fields[k],
        pri == st.meta[k].priority && st.meta[k].source != rec.source ==> apply_record(
            st,
            rec,
            pri,
        ).meta[k] == st.meta[k] && same_at(apply_record(st, rec, pri).fields, st.fields, k),
{
}

/// Merging the same record a second time changes nothing.
pub proof fn lemma_reapply_is_unchanged(st: MergeState, rec: RecordSpec, pri: u32)
    ensures
        !changes(apply_record(st, rec, pri), rec, pri),
        apply_record(apply_record(st, rec, pri), rec, pri) == apply_record(st, rec, pri),
{
    let st2 = apply_record(st, rec, pri);
    assert forall|k: Seq<char>| #[trigger] takes(st2, rec, pri, k) implies takes(st, rec, pri, k) by {
        if !takes(st, rec, pri, k) {
            assert(st.meta.contains_key(k));
            assert(st2.meta[k] == st.meta[k]);
        }
    }
    assert forall|k: Seq<char>| #[trigger] takes(st, rec, pri, k) implies takes(st2, rec, pri, k) by {
        assert(st2.meta[k] == record_meta(rec, pri));
    }
    if changes(st2, rec, pri) {
        let k = choose|k: Seq<char>| #[trigger] changes_field(st2, rec, pri, k);
        assert(takes(st, rec, pri, k));
    }
    let st3 = apply_record(st2, rec, pri);
    assert(st3.fields =~= st2.fields);
    assert(st3.meta =~= st2.meta);
    if advances(st2, rec, pri) {
        let k = choose|k: Seq<char>| #[trigger] takes(st2, rec, pri, k);
        assert(takes(st, rec, pri, k));
    }
}

/// A merge never drops a field, and leaves the value and metadata of every
/// field the record does not carry as they were.
pub proof fn lemma_untouched_fields_kept(st: MergeState, rec: RecordSpec, pri: u32, k: Seq<char>)
    requires
        !rec.fields.contains_key(k),
    ensures
        same_at(apply_record(st, rec, pri).fields, st.fields, k),
        same_at(apply_record(st, rec, pri).meta, st.meta, k),
{
}

/// The content hash depends on a row's fields alone: two key-ordered entry
/// sequences with the same fields hash alike.
pub proof fn lemma_fields_hash_by_content(a: Seq<(Seq<char>, Seq<char>)>, b: Seq<(Seq<char>, Seq<char>)>)
    requires
        sorted_keys(a),
        sorted_keys(b),
        map_of(a) == map_of(b),
    ensures
        fields_hash_spec(a) == fields_hash_spec(b),
{
    crate::fieldmap::lemma_sorted_entries_determined(a, b);
}

/// A merge keeps a row's metadata covering exactly its fields.
pub proof fn lemma_merge_keeps_meta_covering(st: MergeState, rec: RecordSpec, pri: u32)
    requires
        st.meta.dom() == st.fields.dom(),
    ensures
        apply_record(st, rec, pri).meta.dom() == apply_record(st, rec, pri).fields.dom(),
{
    let st2 = apply_record(st, rec, pri);
    assert forall|k: Seq<char>| st2.meta.dom().contains(k) <==> st2.fields.dom().contains(k) by {
        assert(st.meta.dom().contains(k) <==> st.fields.dom().contains(k));
    }
    assert(st2.meta.dom() =~= st2.fields.dom());
}

/// Re-sending a record after its merge was stored changes nothing: the row
/// written back (fields, and metadata compacted around any default) and read
/// again merges the same record without a visible change and without moving.
pub proof fn lemma_stored_reingest_unchanged(st0: MergeState, rec: RecordSpec, pri: u32, d: MetaSpec)
    requires
        st0.meta.dom() == st0.fields.dom(),
    ensures
        ({
            let st = apply_record(st0, rec, pri);
            let back = MergeState {
                fields: st.fields,
                meta: expand_spec(st.fields, d, overrides_of(st.meta, d)),
                row_ts: st.row_ts,
            };
            &&& back == st
            &&& !changes(back, rec, pri)
            &&& apply_record(back, rec, pri) == back
        }),
{
    let st = apply_record(st0, rec, pri);
    lemma_merge_keeps_meta_covering(st0, rec, pri);
    lemma_compact_round_trip(st.fields, st.meta, d);
    lemma_reapply_is_unchanged(st0, rec, pri);
}

/// A freshly inserted row's metadata covers exactly its fields.
pub proof fn lemma_insert_meta_covering(rec: RecordSpec, pri: u32)
    ensures
        insert_state(rec, pri).meta.dom() == insert_state(rec, pri).fields.dom(),
{
    assert(insert_state(rec, pri).meta.dom() =~= insert_state(rec, pri).fields.dom());
}

/// Whether `(fts, fpri)` is the weakest metadata of a map: the least
/// timestamp, and the least priority among the fields at that timestamp; for
/// an empty map, `(i64::MIN, 0)`.
pub open spec fn is_meta_floor(meta: Map<Seq<char>, MetaSpec>, fts: i64, fpri: i64) -> bool {
    if meta.dom() =~= Set::empty() {
        fts == i64::MIN && fpri == 0
    } else {
        &&& forall|k: Seq<char>| #[trigger]
            meta.contains_key(k) ==> fts <= meta[k].updated_at && (meta[k].updated_at == fts
                ==> fpri <= meta[k].priority)
        &&& exists|k: Seq<char>| #[trigger]
            meta.contains_key(k) && meta[k].updated_at == fts && meta[k].priority == fpri
    }
}

/// A record that cannot beat a row's weakest metadata cannot take any of its
/// fields: when it also carries exactly the row's fields, merging it leaves
/// every value and every metadata as it was.
pub proof fn lemma_floor_short_circuit_sound(
    st: MergeState,
    rec: RecordSpec,
    pri: u32,
    fts: i64,
    fpri: i64,
)
    requires
        is_meta_floor(st.meta, fts, fpri),
        rec.updated_at < fts || (rec.updated_at == fts && pri <= fpri),
        rec.fields == st.fields,
        st.meta.dom() == st.fields.dom(),
    ensures
        apply_record(st, rec, pri).fields == st.fields,
        apply_record(st, rec, pri).meta == st.meta,
        !changes(st, rec, pri),
{
    let st2 = apply_record(st, rec, pri);
    assert forall|k: Seq<char>| #[trigger] takes(st, rec, pri, k) implies st.meta[k] == record_meta(rec, pri) && st.fields[k] == rec.fields[k] by {
        assert(st.meta.contains_key(k));
        if !(st.meta.dom() =~= Set::empty()) {
            assert(fts <= st.meta[k].updated_at);
        } else {
            assert(st.meta.dom().contains(k));
        }
    }
    assert(st2.fields =~= st.fields);
    assert(st2.meta =~= st.meta);
}

/// The weakest metadata of a map (see `is_meta_floor`).
pub fn meta_floor(meta: &MetaMap) -> (r: (i64, i64))
    ensures
        is_meta_floor(meta.map(), r.0, r.1),
{
    let n = meta.len();
    let ghost es = meta@;
    if n == 0 {
        assert(meta.map().dom() =~= Set::empty()) by {
            assert forall|k: Seq<char>| !#[trigger] meta.map().contains_key(k) by {
                if has_key(es, k) {
                    let i = choose|i: int| 0 <= i < es.len() && #[trigger] es[i].0 == k;
                }
            }
        }
        return (i64::MIN, 0);
    }
    let m0 = meta.value_at(0);
    let mut fts: i64 = m0.updated_at;
    let mut fpri: i64 = m0.priority as i64;
    let mut best: usize = 0;
    let mut i: usize = 1;
    while i < n
        invariant
            1 <= i <= n == es.len(),
            es == meta@,
            best < i,
            fts == es[best as int].1.updated_at,
            fpri == es[best as int].1.priority,
            forall|j: int| #![trigger es[j]]
                0 <= j < i ==> fts <= es[j].1.updated_at && (es[j].1.updated_at == fts ==> fpri
                    <= es[j].1.priority),
        decreases n - i,
    {
        let m = meta.value_at(i);
        if m.updated_at < fts || (m.updated_at == fts && (m.priority as i64) < fpri) {
            fts = m.updated_at;
            fpri = m.priority as i64;
            best = i;
        }
        i = i + 1;
    }
    proof {
        lemma_map_of_entry(es, best as int);
        assert(!(meta.map().dom() =~= Set::empty())) by {
            assert(meta.map().dom().contains(es[best as int].0));
        }
        assert forall|k: Seq<char>| #[trigger] meta.map().contains_key(k) implies fts <= meta.map()[k].updated_at && (meta.map()[k].updated_at == fts ==> fpri <= meta.map()[k].priority) by {
            let j = choose|j: int| 0 <= j < es.len() && #[trigger] es[j].0 == k;
            lemma_map_of_entry(es, j);
        }
        let kb = es[best as int].0;
        assert(meta.map().contains_key(kb) && meta.map()[kb].updated_at == fts && meta.map()[kb].priority == fpri);
    }
    (fts, fpri)
}


/// Metadata stored as one default for every field plus the fields whose
/// metadata differs from it.
pub struct CompactMeta {
    pub default: FieldMeta,
    pub overrides: MetaMap,
}

/// Metadata as read back from a stored row: the compact form, or the older
/// form with one entry per field.
pub enum StoredMeta {
    Compact(CompactMeta),
    PerField(MetaMap),
}

/// The per-field metadata a compact form stands for: the default for every
/// field name and every override key, overridden where an override exists.
pub open spec fn expand_spec(
    fields: Map<Seq<char>, Seq<char>>,
    d: MetaSpec,
    o: Map<Seq<char>, MetaSpec>,
) -> Map<Seq<char>, MetaSpec> {
    Map::new(
        |k: Seq<char>| fields.contains_key(k) || o.contains_key(k),
        |k: Seq<char>|
            if o.contains_key(k) {
                o[k]
            } else {
                d
            },
    )
}

/// The fields whose metadata differs from `d`.
pub open spec fn overrides_of(meta: Map<Seq<char>, MetaSpec>, d: MetaSpec) -> Map<
    Seq<char>,
    MetaSpec,
> {
    Map::new(|k: Seq<char>| meta.contains_key(k) && meta[k] != d, |k: Seq<char>| meta[k])
}

/// The per-field metadata stored metadata stands for, for a row with these fields.
pub open spec fn stored_meta_view(fields: Map<Seq<char>, Seq<char>>, sm: StoredMeta) -> Map<
    Seq<char>,
    MetaSpec,
> {
    match sm {
        StoredMeta::Compact(c) => expand_spec(fields, c.default@, c.overrides.map()),
        StoredMeta::PerField(m) => m.map(),
    }
}

/// Compacting around any default and expanding again gives back the
/// metadata of a row whose metadata covers exactly its fields.
pub proof fn lemma_compact_round_trip(
    fields: Map<Seq<char>, Seq<char>>,
    meta: Map<Seq<char>, MetaSpec>,
    d: MetaSpec,
)
    requires
        meta.dom() == fields.dom(),
    ensures
        expand_spec(fields, d, overrides_of(meta, d)) == meta,
{
    let e = expand_spec(fields, d, overrides_of(meta, d));
    assert forall|k: Seq<char>| #[trigger] e.contains_key(k) <==> meta.contains_key(k) by {
        assert(fields.contains_key(k) <==> meta.dom().contains(k));
    }
    assert(e =~= meta);
}

/// Expands stored metadata into one entry per field (see `stored_meta_view`).
pub fn expand_meta(fields: &FieldMap, stored: StoredMeta) -> (r: MetaMap)
    ensures
        r.map() == stored_meta_view(fields.map(), stored),
        stored matches StoredMeta::PerField(m) ==> r.map() == m.map(),
{
    match stored {
        StoredMeta::PerField(m) => m,
        StoredMeta::Compact(c) => {
            let ghost fes = fields@;
            let ghost oes = c.overrides@;
            let ghost d = c.default@;
            let mut out: MetaMap = TextMap::new();
            let n = fields.len();
            let mut i: usize = 0;
            assert(out.map() =~= Map::new(|k: Seq<char>| seen(fes, 0, k), |k: Seq<char>| d));
            while i < n
                invariant
                    i <= n == fes.len(),
                    fes == fields@,
                    d == c.default@,
                    out.map() == Map::new(|k: Seq<char>| seen(fes, i as int, k), |k: Seq<char>| d),
                decreases n - i,
            {
                let k = fields.key_at(i);
                out.insert(k.clone(), copy_meta(&c.default));
                proof {
                    lemma_seen_step(fes, i as int);
                    assert(out.map() =~= Map::new(|k: Seq<char>| seen(fes, i + 1, k), |k: Seq<char>| d));
                }
                i = i + 1;
            }
            let no = c.overrides.len();
            let mut j: usize = 0;
            proof {
                lemma_seen_all(fes);
                assert(out.map() =~= Map::new(
                    |k: Seq<char>| fields.map().contains_key(k) || seen(oes, 0, k),
                    |k: Seq<char>| if seen(oes, 0, k) { c.overrides.map()[k] } else { d },
                ));
            }
            while j < no
                invariant
                    j <= no == oes.len(),
                    oes == c.overrides@,
                    sorted_keys(oes),
                    d == c.default@,
                    out.map() == Map::new(
                        |k: Seq<char>| fields.map().contains_key(k) || seen(oes, j as int, k),
                        |k: Seq<char>| if seen(oes, j as int, k) { c.overrides.map()[k] } else { d },
                    ),
                decreases no - j,
            {
                let k = c.overrides.key_at(j);
                let m = c.overrides.value_at(j);
                out.insert(k.clone(), copy_meta(m));
                proof {
                    lemma_map_of_entry(oes, j as int);
                    lemma_seen_step(oes, j as int);
                    assert(out.map() =~= Map::new(
                        |k: Seq<char>| fields.map().contains_key(k) || seen(oes, j + 1, k),
                        |k: Seq<char>| if seen(oes, j + 1, k) { c.overrides.map()[k] } else { d },
                    ));
                }
                j = j + 1;
            }
            proof {
                lemma_seen_all(oes);
                assert(out.map() =~= expand_spec(fields.map(), d, c.overrides.map()));
            }
            out
        },
    }
}


/// How many entries carry the metadata `x`.
pub open spec fn meta_count(es: Seq<(Seq<char>, MetaSpec)>, x: MetaSpec) -> nat
    decreases es.len(),
{
    if es.len() == 0 {
        0
    } else {
        meta_count(es.drop_last(), x) + if es.last().1 == x {
            1nat
        } else {
            0nat
        }
    }
}

/// The metadata every field of an empty row is given when compacted.
pub open spec fn empty_default() -> MetaSpec {
    MetaSpec { source: Seq::empty(), updated_at: 0, priority: 0 }
}

/// `c` compacts the metadata entries `es`: its default is a metadata that
/// occurs most often (the empty default when there are none), and its
/// overrides are exactly the fields whose metadata differs from the default.
pub open spec fn is_compaction(c: CompactMeta, es: Seq<(Seq<char>, MetaSpec)>) -> bool {
    &&& if es.len() == 0 {
        c.default@ == empty_default()
    } else {
        &&& exists|i: int| 0 <= i < es.len() && #[trigger] es[i].1 == c.default@
        &&& forall|i: int|
            0 <= i < es.len() ==> meta_count(es, #[trigger] es[i].1) <= meta_count(es, c.default@)
    }
    &&& c.overrides.map() == overrides_of(map_of(es), c.default@)
}

fn count_meta(meta: &MetaMap, x: &FieldMeta) -> (n: usize)
    ensures
        n == meta_count(meta@, x@),
{
    let ghost es = meta@;
    let len = meta.len();
    let mut n: usize = 0;
    let mut j: usize = 0;
    assert(es.take(0) =~= Seq::<(Seq<char>, MetaSpec)>::empty());
    while j < len
        invariant
            j <= len == es.len(),
            es == meta@,
            n == meta_count(es.take(j as int), x@),
            n <= j,
        decreases len - j,
    {
        assert(es.take(j + 1).drop_last() =~= es.take(j as int));
        if same_meta(meta.value_at(j), x) {
            n = n + 1;
        }
        j = j + 1;
    }
    assert(es.take(len as int) =~= es);
    n
}

/// Compacts per-field metadata around the metadata most fields share (see
/// `is_compaction`).
pub fn compact_meta(meta: &MetaMap) -> (c: CompactMeta)
    ensures
        is_compaction(c, meta@),
{
    let ghost es = meta@;
    let len = meta.len();
    let d = if len == 0 {
        FieldMeta { source: String::new(), updated_at: 0, priority: 0 }
    } else {
        let mut best: usize = 0;
        let mut best_n = count_meta(meta, meta.value_at(0));
        let mut i: usize = 1;
        while i < len
            invariant
                1 <= i <= len == es.len(),
                es == meta@,
                best < i,
                best_n == meta_count(es, es[best as int].1),
                forall|j: int| 0 <= j < i ==> meta_count(es, #[trigger] es[j].1) <= best_n,
            decreases len - i,
        {
            let n = count_meta(meta, meta.value_at(i));
            if n > best_n {
                best = i;
                best_n = n;
            }
            i = i + 1;
        }
        copy_meta(meta.value_at(best))
    };
    let ghost dv = d@;
    let mut overrides: MetaMap = TextMap::new();
    let mut i: usize = 0;
    assert(overrides.map() =~= Map::new(
        |k: Seq<char>| seen(es, 0, k) && map_of(es)[k] != dv,
        |k: Seq<char>| map_of(es)[k],
    ));
    while i < len
        invariant
            i <= len == es.len(),
            es == meta@,
            sorted_keys(es),
            dv == d@,
            overrides.map() == Map::new(
                |k: Seq<char>| seen(es, i as int, k) && map_of(es)[k] != dv,
                |k: Seq<char>| map_of(es)[k],
            ),
        decreases len - i,
    {
        let k = meta.key_at(i);
        let m = meta.value_at(i);
        proof {
            lemma_map_of_entry(es, i as int);
        }
        if !same_meta(m, &d) {
            overrides.insert(k.clone(), copy_meta(m));
        }
        proof {
            lemma_seen_step(es, i as int);
            assert(overrides.map() =~= Map::new(
                |k: Seq<char>| seen(es, i + 1, k) && map_of(es)[k] != dv,
                |k: Seq<char>| map_of(es)[k],
            ));
        }
        i = i + 1;
    }
    proof {
        lemma_seen_all(es);
        assert(overrides.map() =~= overrides_of(map_of(es), dv));
    }
    CompactMeta { default: d, overrides }
}

/// The writes a row's fields make to the hasher, in key order: each name and
/// each value as its UTF-8 bytes followed by the byte 0xFF, which never
/// occurs in UTF-8 and so keeps the stream prefix-free.
pub open spec fn hash_writes(es: Seq<(Seq<char>, Seq<char>)>) -> Seq<Seq<u8>>
    decreases es.len(),
{
    if es.len() == 0 {
        Seq::empty()
    } else {
        hash_writes(es.drop_last()).push(vstd::utf8::encode_utf8(es.last().0)).push(
            seq![0xffu8],
        ).push(vstd::utf8::encode_utf8(es.last().1)).push(seq![0xffu8])
    }
}

/// The content hash of a row's fields: std's `DefaultHasher` over
/// `hash_writes`, its 64 bits read as a signed integer.
pub open spec fn fields_hash_spec(es: Seq<(Seq<char>, Seq<char>)>) -> i64 {
    DefaultHasher::spec_finish(hash_writes(es)) as i64
}

/// Structural hash of a row's fields in key order, so that content equality
/// can be checked without serializing.
pub fn fields_hash(fields: &FieldMap) -> (h: i64)
    ensures
        h == fields_hash_spec(fields@),
{
    let ghost es = fields@;
    let mut hasher = DefaultHasher::new();
    let sep: Vec<u8> = vec![0xffu8];
    let n = fields.len();
    let mut i: usize = 0;
    assert(es.take(0) =~= Seq::<(Seq<char>, Seq<char>)>::empty());
    while i < n
        invariant
            i <= n == es.len(),
            es == fields@,
            sep@ == seq![0xffu8],
            hasher@ == hash_writes(es.take(i as int)),
        decreases n - i,
    {
        let k = fields.key_at(i);
        let v = fields.value_at(i);
        hasher.write(k.as_str().as_bytes());
        hasher.write(sep.as_slice());
        hasher.write(v.as_str().as_bytes());
        hasher.write(sep.as_slice());
        assert(es.take(i + 1).drop_last() =~= es.take(i as int));
        i = i + 1;
    }
    assert(es.take(n as int) =~= es);
    hasher.finish() as i64
}


/// A stored row as read back before a merge.
pub struct ExistingRow {
    /// The row's fields and stored metadata, or why they could not be read.
    pub decoded: Result<(FieldMap, StoredMeta), String>,
    pub updated_at: i64,
    /// Short-circuit columns; `None` on rows written before they existed.
    pub content_hash: Option<i64>,
    pub meta_floor_ts: Option<i64>,
    pub meta_floor_pri: Option<i64>,
    pub field_count: Option<i64>,
}

/// What a group's merged row is written back as.
pub struct WriteRow {
    pub is_insert: bool,
    pub fields: FieldMap,
    pub meta: CompactMeta,
    pub updated_at: i64,
    pub content_hash: i64,
    pub floor_ts: i64,
    pub floor_pri: i64,
    pub field_count: i64,
}

/// The result of merging all of one key's records.
pub struct GroupOutcome {
    pub collection: String,
    pub natural_key: String,
    pub inserted: u32,
    pub updated: u32,
    pub unchanged: u32,
    /// Some field value changed (an event is due for the collection).
    pub visibly_changed: bool,
    /// The row to write, when some record was inserted or took a field.
    pub write: Option<WriteRow>,
}

/// The state a stored row starts a merge in, or why it cannot be read.
pub open spec fn row_start(row: ExistingRow) -> Result<MergeState, Seq<char>> {
    match row.decoded {
        Ok((f, sm)) => Ok(
            MergeState { fields: f.map(), meta: stored_meta_view(f.map(), sm), row_ts: row.updated_at },
        ),
        Err(e) => Err(e@),
    }
}

/// The stored row's short-circuit columns show that the record carries the
/// same content (same hash, same number of fields) and cannot beat the row's
/// weakest metadata, so the row need not be read.
pub open spec fn skips_unchanged(row: ExistingRow, rec: CanonicalRecord, pri: u32) -> bool {
    match (row.content_hash, row.meta_floor_ts, row.meta_floor_pri, row.field_count) {
        (Some(h), Some(fts), Some(fpri), Some(fc)) => {
            &&& (rec.updated_at < fts || (rec.updated_at == fts && pri as i64 <= fpri))
            &&& fields_hash_spec(rec.fields@) == h
            &&& fc == rec.fields@.len() as i64
        },
        _ => false,
    }
}

/// The row a first record creates: its fields, each with the record's metadata.
pub open spec fn insert_state(rec: RecordSpec, pri: u32) -> MergeState {
    MergeState {
        fields: rec.fields,
        meta: Map::new(|k: Seq<char>| rec.fields.contains_key(k), |k: Seq<char>| record_meta(rec, pri)),
        row_ts: rec.updated_at,
    }
}

/// A group's merge so far.
pub struct GroupSpec {
    pub state: Option<MergeState>,
    pub failure: Option<Seq<char>>,
    pub inserted: nat,
    pub updated: nat,
    pub unchanged: nat,
    pub visibly_changed: bool,
    pub wrote: bool,
}

pub open spec fn group_start() -> GroupSpec {
    GroupSpec {
        state: None,
        failure: None,
        inserted: 0,
        updated: 0,
        unchanged: 0,
        visibly_changed: false,
        wrote: false,
    }
}

/// Merges a record into a loaded row and counts it: updated when a value
/// changed, unchanged otherwise (also when it only advanced metadata).
pub open spec fn merge_counted(g: GroupSpec, st: MergeState, rec: RecordSpec, pri: u32) -> GroupSpec {
    let ch = changes(st, rec, pri);
    GroupSpec {
        state: Some(apply_record(st, rec, pri)),
        updated: if ch {
            g.updated + 1
        } else {
            g.updated
        },
        unchanged: if ch {
            g.unchanged
        } else {
            g.unchanged + 1
        },
        visibly_changed: g.visibly_changed || ch,
        wrote: g.wrote || advances(st, rec, pri),
        ..g
    }
}

/// One record's step: the first record of a new key inserts the row; the
/// first record of a stored key is counted unchanged when the short-circuit
/// applies, and otherwise loads the row (or fails) and merges; later records
/// merge into the row as it stands.
pub open spec fn merge_step(
    g: GroupSpec,
    row: Option<ExistingRow>,
    rec: CanonicalRecord,
    pri: u32,
) -> GroupSpec {
    if g.failure is Some {
        g
    } else {
        match g.state {
            Some(st) => merge_counted(g, st, rec.view(), pri),
            None => match row {
                None => GroupSpec {
                    state: Some(insert_state(rec.view(), pri)),
                    inserted: g.inserted + 1,
                    visibly_changed: true,
                    wrote: true,
                    ..g
                },
                Some(r) => if skips_unchanged(r, rec, pri) {
                    GroupSpec { unchanged: g.unchanged + 1, ..g }
                } else {
                    match row_start(r) {
                        Err(e) => GroupSpec { failure: Some(e), ..g },
                        Ok(st) => merge_counted(g, st, rec.view(), pri),
                    }
                },
            },
        }
    }
}

/// The merge of the records among the first `n` whose group index is `g`,
/// in order.
pub open spec fn group_fold(
    records: Seq<CanonicalRecord>,
    gidx: Seq<usize>,
    g: usize,
    row: Option<ExistingRow>,
    pri: u32,
    n: nat,
) -> GroupSpec
    decreases n,
{
    if n == 0 {
        group_start()
    } else {
        let prev = group_fold(records, gidx, g, row, pri, (n - 1) as nat);
        if gidx[n - 1] == g {
            merge_step(prev, row, records[n - 1], pri)
        } else {
            prev
        }
    }
}

/// Once a group's merge fails, it stays failed with the same reason.
pub proof fn lemma_failure_persists(
    records: Seq<CanonicalRecord>,
    gidx: Seq<usize>,
    g: usize,
    row: Option<ExistingRow>,
    pri: u32,
    a: nat,
    b: nat,
)
    requires
        a <= b,
        group_fold(records, gidx, g, row, pri, a).failure is Some,
    ensures
        group_fold(records, gidx, g, row, pri, b).failure == group_fold(
            records,
            gidx,
            g,
            row,
            pri,
            a,
        ).failure,
    decreases b - a,
{
    if a < b {
        lemma_failure_persists(records, gidx, g, row, pri, a, (b - 1) as nat);
    }
}

/// How many of the first `n` records belong to group `g`.
pub open spec fn member_count(gidx: Seq<usize>, g: usize, n: nat) -> nat
    decreases n,
{
    if n == 0 {
        0
    } else {
        member_count(gidx, g, (n - 1) as nat) + if gidx[n - 1] == g {
            1nat
        } else {
            0nat
        }
    }
}

/// Every record of a group is counted exactly once, as inserted, updated or
/// unchanged, unless the merge failed. A key with no stored row is inserted
/// by its first record and cannot fail; a key with a stored row is never
/// counted as inserted.
pub proof fn lemma_each_record_counted_once(
    records: Seq<CanonicalRecord>,
    gidx: Seq<usize>,
    g: usize,
    row: Option<ExistingRow>,
    pri: u32,
    n: nat,
)
    ensures
        ({
            let gs = group_fold(records, gidx, g, row, pri, n);
            &&& gs.failure is None ==> gs.inserted + gs.updated + gs.unchanged == member_count(gidx, g, n)
            &&& row is None ==> gs.failure is None && (gs.state is Some <==> member_count(gidx, g, n) > 0)
                && gs.inserted == (if member_count(gidx, g, n) > 0 { 1nat } else { 0nat })
            &&& row is Some ==> gs.inserted == 0
        }),
    decreases n,
{
    if n > 0 {
        lemma_each_record_counted_once(records, gidx, g, row, pri, (n - 1) as nat);
        let prev = group_fold(records, gidx, g, row, pri, (n - 1) as nat);
        if prev.failure is Some && gidx[n - 1] == g {
            assert(group_fold(records, gidx, g, row, pri, n) == prev);
        }
    }
}

/// A stored row's timestamp never goes back over a group: once the row is
/// loaded, its timestamp stays at least the stored one, whatever records
/// follow.
pub proof fn lemma_group_row_ts_never_regresses(
    records: Seq<CanonicalRecord>,
    gidx: Seq<usize>,
    g: usize,
    row: ExistingRow,
    pri: u32,
    n: nat,
)
    ensures
        group_fold(records, gidx, g, Some(row), pri, n).state matches Some(st) ==> st.row_ts >= row.updated_at,
    decreases n,
{
    if n > 0 {
        lemma_group_row_ts_never_regresses(records, gidx, g, row, pri, (n - 1) as nat);
        let prev = group_fold(records, gidx, g, Some(row), pri, (n - 1) as nat);
        if gidx[n - 1] == g && prev.failure is None {
            match prev.state {
                Some(st) => lemma_row_ts_never_regresses(st, records[n - 1].view(), pri),
                None => {
                    if let Ok(st) = row_start(row) {
                        lemma_row_ts_never_regresses(st, records[n - 1].view(), pri);
                    }
                },
            }
        }
    }
}

/// A record merged into a new key, written back and read again, is unchanged
/// when it is ingested once more: the re-ingest inserts nothing, updates
/// nothing, counts the record unchanged, reports no visible change, and
/// leaves the row as it was.
pub proof fn lemma_stored_group_reingest_unchanged(r: CanonicalRecord, pri: u32, w: WriteRow, row2: ExistingRow)
    requires
        writes_state(w, insert_state(r.view(), pri), true),
        row2.decoded == Ok::<(FieldMap, StoredMeta), String>((w.fields, StoredMeta::Compact(w.meta))),
        row2.updated_at == w.updated_at,
    ensures
        group_fold(seq![r], seq![0usize], 0, None, pri, 1).state == Some(insert_state(r.view(), pri)),
        ({
            let gs = group_fold(seq![r], seq![0usize], 0, Some(row2), pri, 1);
            &&& gs.failure is None
            &&& gs.inserted == 0
            &&& gs.updated == 0
            &&& gs.unchanged == 1
            &&& !gs.visibly_changed
            &&& gs.state matches Some(st) ==> st == insert_state(r.view(), pri)
        }),
{
    let ins = insert_state(r.view(), pri);
    let recs = seq![r];
    let gx = seq![0usize];
    assert(group_fold(recs, gx, 0, None, pri, 0) == group_start());
    assert(group_fold(recs, gx, 0, Some(row2), pri, 0) == group_start());
    if !skips_unchanged(row2, r, pri) {
        let es = choose|es: Seq<(Seq<char>, MetaSpec)>|
            sorted_keys(es) && map_of(es) == ins.meta && #[trigger] is_compaction(w.meta, es);
        lemma_insert_meta_covering(r.view(), pri);
        lemma_compact_round_trip(ins.fields, ins.meta, w.meta.default@);
        let st = MergeState {
            fields: w.fields.map(),
            meta: stored_meta_view(w.fields.map(), StoredMeta::Compact(w.meta)),
            row_ts: row2.updated_at,
        };
        assert(row_start(row2) == Ok::<MergeState, Seq<char>>(st));
        assert(st == ins);
        assert(!changes(ins, r.view(), pri)) by {
            if changes(ins, r.view(), pri) {
                let k = choose|k: Seq<char>| #[trigger] changes_field(ins, r.view(), pri, k);
                assert(takes(ins, r.view(), pri, k));
            }
        }
        let st2 = apply_record(ins, r.view(), pri);
        assert(st2.fields =~= ins.fields);
        assert(st2.meta =~= ins.meta) by {
            assert forall|k: Seq<char>| st2.meta.contains_key(k) implies st2.meta[k] == ins.meta[k] by {
                if takes(ins, r.view(), pri, k) {
                    assert(ins.meta.contains_key(k));
                }
            }
        }
    }
}

/// A key's single record, sent again after its merge was stored, changes
/// nothing, whether the key was new or stored before: when the first merge
/// wrote a row it is read back as written, and otherwise the store still
/// holds the row the first merge saw. The second merge inserts nothing,
/// updates nothing, counts the record unchanged, reports no visible change,
/// and any row it loads is the one the first merge left. Stored rows are
/// those this library writes: their metadata covers exactly their fields.
pub proof fn lemma_single_record_reingest_unchanged(
    r: CanonicalRecord,
    pri: u32,
    row0: Option<ExistingRow>,
    w: Option<WriteRow>,
    row2: Option<ExistingRow>,
)
    requires
        ({
            let gs = merge_step(group_start(), row0, r, pri);
            &&& gs.failure is None
            &&& (w is Some <==> gs.wrote)
            &&& w matches Some(wr) ==> gs.state is Some && writes_state(wr, gs.state.unwrap(), row0 is None)
        }),
        row0 matches Some(x) ==> (row_start(x) matches Ok(st0) ==> st0.meta.dom() == st0.fields.dom()),
        w matches Some(wr) ==> (row2 matches Some(x) && x.decoded == Ok::<(FieldMap, StoredMeta), String>(
            (wr.fields, StoredMeta::Compact(wr.meta)),
        ) && x.updated_at == wr.updated_at),
        w is None ==> row2 == row0,
    ensures
        ({
            let gs2 = merge_step(group_start(), row2, r, pri);
            &&& gs2.failure is None
            &&& gs2.inserted == 0
            &&& gs2.updated == 0
            &&& gs2.unchanged == 1
            &&& !gs2.visibly_changed
            &&& gs2.state matches Some(st) ==> merge_step(group_start(), row0, r, pri).state == Some(st)
        }),
{
    let gs = merge_step(group_start(), row0, r, pri);
    let rv = r.view();
    match w {
        None => {
            if row0 is None {
                assert(gs.wrote);
            } else if !skips_unchanged(row0.unwrap(), r, pri) {
                let st0 = row_start(row0.unwrap())->Ok_0;
                if changes(st0, rv, pri) {
                    let k = choose|k: Seq<char>| #[trigger] changes_field(st0, rv, pri, k);
                    assert(takes(st0, rv, pri, k));
                }
            }
        },
        Some(wr) => {
            let st = gs.state.unwrap();
            let x = row2.unwrap();
            match row0 {
                None => {
                    lemma_stored_group_reingest_unchanged(r, pri, wr, x);
                    assert(group_fold(seq![r], seq![0usize], 0, None, pri, 0) == group_start());
                    assert(group_fold(seq![r], seq![0usize], 0, Some(x), pri, 0) == group_start());
                },
                Some(x0) => {
                    let st0 = row_start(x0)->Ok_0;
                    assert(gs.state == Some(apply_record(st0, rv, pri)));
                    if !skips_unchanged(x, r, pri) {
                        let es = choose|es: Seq<(Seq<char>, MetaSpec)>|
                            sorted_keys(es) && map_of(es) == st.meta && #[trigger] is_compaction(wr.meta, es);
                        lemma_stored_reingest_unchanged(st0, rv, pri, wr.meta.default@);
                        let back = MergeState {
                            fields: wr.fields.map(),
                            meta: stored_meta_view(wr.fields.map(), StoredMeta::Compact(wr.meta)),
                            row_ts: x.updated_at,
                        };
                        assert(row_start(x) == Ok::<MergeState, Seq<char>>(back));
                        assert(back == st);
                    }
                },
            }
        },
    }
}

/// A group none of whose records are among the first `n` has not started.
proof fn lemma_fold_without_members(
    records: Seq<CanonicalRecord>,
    gidx: Seq<usize>,
    g: usize,
    row: Option<ExistingRow>,
    pri: u32,
    n: nat,
)
    requires
        n <= gidx.len(),
        forall|j: int| 0 <= j < n ==> #[trigger] gidx[j] != g,
    ensures
        group_fold(records, gidx, g, row, pri, n) == group_start(),
    decreases n,
{
    if n > 0 {
        lemma_fold_without_members(records, gidx, g, row, pri, (n - 1) as nat);
    }
}

/// A group whose only record among the first `n` is record `i` is that
/// record's single merge step.
proof fn lemma_fold_single_member(
    records: Seq<CanonicalRecord>,
    gidx: Seq<usize>,
    g: usize,
    row: Option<ExistingRow>,
    pri: u32,
    n: nat,
    i: int,
)
    requires
        n <= gidx.len(),
        0 <= i < n,
        gidx[i] == g,
        forall|j: int| 0 <= j < n && j != i ==> #[trigger] gidx[j] != g,
    ensures
        group_fold(records, gidx, g, row, pri, n) == merge_step(group_start(), row, records[i], pri),
    decreases n,
{
    if n - 1 == i {
        lemma_fold_without_members(records, gidx, g, row, pri, i as nat);
    } else {
        lemma_fold_single_member(records, gidx, g, row, pri, (n - 1) as nat, i);
    }
}

/// A batch in which no key occurs twice, sent again after its merge was
/// stored, changes nothing: for each group, with its row read back as the
/// first merge wrote it (or, when nothing was written, as it was), the
/// second merge inserts nothing, updates nothing, counts its record
/// unchanged, reports no visible change, and loads the row the first merge
/// left. Stored rows are those this library writes (metadata covering
/// exactly the fields).
pub proof fn lemma_distinct_batch_reingest_unchanged(
    records: Seq<CanonicalRecord>,
    gidx: Seq<usize>,
    g: usize,
    i: int,
    pri: u32,
    row0: Option<ExistingRow>,
    w: Option<WriteRow>,
    row2: Option<ExistingRow>,
)
    requires
        gidx.len() == records.len(),
        0 <= i < records.len(),
        gidx[i] == g,
        forall|a: int, b: int| 0 <= a < b < gidx.len() ==> #[trigger] gidx[a] != #[trigger] gidx[b],
        ({
            let gs = group_fold(records, gidx, g, row0, pri, records.len());
            &&& gs.failure is None
            &&& (w is Some <==> gs.wrote)
            &&& w matches Some(wr) ==> gs.state is Some && writes_state(wr, gs.state.unwrap(), row0 is None)
        }),
        row0 matches Some(x) ==> (row_start(x) matches Ok(st0) ==> st0.meta.dom() == st0.fields.dom()),
        w matches Some(wr) ==> (row2 matches Some(x) && x.decoded == Ok::<(FieldMap, StoredMeta), String>(
            (wr.fields, StoredMeta::Compact(wr.meta)),
        ) && x.updated_at == wr.updated_at),
        w is None ==> row2 == row0,
    ensures
        ({
            let gs2 = group_fold(records, gidx, g, row2, pri, records.len());
            &&& gs2.failure is None
            &&& gs2.inserted == 0
            &&& gs2.updated == 0
            &&& gs2.unchanged == 1
            &&& !gs2.visibly_changed
            &&& gs2.state matches Some(st) ==> group_fold(records, gidx, g, row0, pri, records.len()).state
                == Some(st)
        }),
{
    assert forall|j: int| 0 <= j < records.len() && j != i implies #[trigger] gidx[j] != g by {
        if j < i {
            assert(gidx[j] != gidx[i]);
        } else {
            assert(gidx[i] != gidx[j]);
        }
    }
    lemma_fold_single_member(records, gidx, g, row0, pri, records.len(), i);
    lemma_fold_single_member(records, gidx, g, row2, pri, records.len(), i);
    lemma_single_record_reingest_unchanged(records[i], pri, row0, w, row2);
}

/// A row stored with per-field metadata is read with exactly that metadata,
/// so its stored writes keep ordering later ones: every field of a record
/// that is older than the field's stored write keeps its stored value and
/// metadata, and a record all of whose fields are older changes nothing
/// (counted unchanged, nothing written, no visible change).
pub proof fn lemma_per_field_meta_kept(row: ExistingRow, f: FieldMap, m: MetaMap, rec: CanonicalRecord, pri: u32)
    requires
        row.decoded == Ok::<(FieldMap, StoredMeta), String>((f, StoredMeta::PerField(m))),
    ensures
        row_start(row) == Ok::<MergeState, Seq<char>>(
            MergeState { fields: f.map(), meta: m.map(), row_ts: row.updated_at },
        ),
        forall|k: Seq<char>|
            #![trigger m.map().contains_key(k)]
            m.map().contains_key(k) && rec.updated_at < m.map()[k].updated_at ==> !takes(
                MergeState { fields: f.map(), meta: m.map(), row_ts: row.updated_at },
                rec.view(),
                pri,
                k,
            ) && same_at(
                apply_record(
                    MergeState { fields: f.map(), meta: m.map(), row_ts: row.updated_at },
                    rec.view(),
                    pri,
                ).fields,
                f.map(),
                k,
            ) && same_at(
                apply_record(
                    MergeState { fields: f.map(), meta: m.map(), row_ts: row.updated_at },
                    rec.view(),
                    pri,
                ).meta,
                m.map(),
                k,
            ),
        (forall|k: Seq<char>|
            #![trigger rec.fields.map().contains_key(k)]
            rec.fields.map().contains_key(k) ==> m.map().contains_key(k) && rec.updated_at
                < m.map()[k].updated_at) ==> ({
            let gs = merge_step(group_start(), Some(row), rec, pri);
            &&& gs.failure is None
            &&& gs.inserted == 0
            &&& gs.updated == 0
            &&& gs.unchanged == 1
            &&& !gs.visibly_changed
            &&& !gs.wrote
        }),
{
    let st = MergeState { fields: f.map(), meta: m.map(), row_ts: row.updated_at };
    let rv = rec.view();
    if forall|k: Seq<char>|
        #![trigger rec.fields.map().contains_key(k)]
        rec.fields.map().contains_key(k) ==> m.map().contains_key(k) && rec.updated_at
            < m.map()[k].updated_at {
        if advances(st, rv, pri) {
            let k = choose|k: Seq<char>| #[trigger] takes(st, rv, pri, k);
            assert(rec.fields.map().contains_key(k));
        }
        if changes(st, rv, pri) {
            let k = choose|k: Seq<char>| #[trigger] changes_field(st, rv, pri, k);
            assert(rec.fields.map().contains_key(k));
        }
    }
}

/// `w` writes back the row `st`, with its metadata compacted.
pub open spec fn writes_state(w: WriteRow, st: MergeState, is_insert: bool) -> bool {
    &&& w.is_insert == is_insert
    &&& w.fields.map() == st.fields
    &&& w.updated_at == st.row_ts
    &&& w.content_hash == fields_hash_spec(w.fields@)
    &&& is_meta_floor(st.meta, w.floor_ts, w.floor_pri)
    &&& w.field_count == w.fields@.len() as i64
    &&& exists|es: Seq<(Seq<char>, MetaSpec)>|
        sorted_keys(es) && map_of(es) == st.meta && #[trigger] is_compaction(w.meta, es)
}

fn row_skips(row: &ExistingRow, rec: &CanonicalRecord, pri: u32) -> (b: bool)
    ensures
        b == skips_unchanged(*row, *rec, pri),
{
    match (row.content_hash, row.meta_floor_ts, row.meta_floor_pri, row.field_count) {
        (Some(h), Some(fts), Some(fpri), Some(fc)) => {
            let cannot_advance = rec.updated_at < fts || (rec.updated_at == fts && (pri as i64)
                <= fpri);
            cannot_advance && fields_hash(&rec.fields) == h && fc == rec.fields.len() as i64
        },
        _ => false,
    }
}

fn initial_meta(rec: &CanonicalRecord, pri: u32) -> (m: MetaMap)
    ensures
        m.map() == insert_state(rec.view(), pri).meta,
{
    let ghost es = rec.fields@;
    let ghost rm = record_meta(rec.view(), pri);
    let n = rec.fields.len();
    let mut m: MetaMap = TextMap::new();
    let mut i: usize = 0;
    assert(m.map() =~= Map::new(|k: Seq<char>| seen(es, 0, k), |k: Seq<char>| rm));
    while i < n
        invariant
            i <= n == es.len(),
            es == rec.fields@,
            rm == record_meta(rec.view(), pri),
            m.map() == Map::new(|k: Seq<char>| seen(es, i as int, k), |k: Seq<char>| rm),
        decreases n - i,
    {
        let k = rec.fields.key_at(i);
        m.insert(
            k.clone(),
            FieldMeta { source: rec.source.clone(), updated_at: rec.updated_at, priority: pri },
        );
        proof {
            lemma_seen_step(es, i as int);
            assert(m.map() =~= Map::new(|k: Seq<char>| seen(es, i + 1, k), |k: Seq<char>| rm));
        }
        i = i + 1;
    }
    proof {
        lemma_seen_all(es);
        assert(m.map() =~= insert_state(rec.view(), pri).meta);
    }
    m
}

/// Folds all records of group `g` (the records whose group index is `g`, in
/// order) into that key's final row, starting from the stored row if there
/// is one. Fails only when a stored row that has to be read cannot be.
pub fn merge_group(
    cfg: &crate::normalize::SourceConfig,
    db_row: Option<ExistingRow>,
    collection: String,
    natural_key: String,
    records: &Vec<CanonicalRecord>,
    gidx: &Vec<usize>,
    g: usize,
) -> (r: Result<GroupOutcome, crate::error::EngineError>)
    requires
        records@.len() == gidx@.len(),
        records@.len() <= u32::MAX,
    ensures
        ({
            let gs = group_fold(records@, gidx@, g, db_row, cfg.priority, records@.len());
            match r {
                Err(e) => e matches crate::error::EngineError::Storage(m) && gs.failure == Some(m@),
                Ok(o) => {
                    &&& gs.failure is None
                    &&& o.collection@ == collection@
                    &&& o.natural_key@ == natural_key@
                    &&& o.inserted == gs.inserted
                    &&& o.updated == gs.updated
                    &&& o.unchanged == gs.unchanged
                    &&& o.visibly_changed == gs.visibly_changed
                    &&& (o.write is Some <==> gs.wrote)
                    &&& (o.write is Some ==> gs.state is Some && writes_state(
                        o.write.unwrap(),
                        gs.state.unwrap(),
                        db_row is None,
                    ))
                },
            }
        }),
{
    let pri = cfg.priority;
    let ghost row0 = db_row;
    let ghost recs = records@;
    let ghost gx = gidx@;
    let was_insert = db_row.is_none();
    let mut pending = db_row;
    let mut loaded = false;
    let mut fields: FieldMap = TextMap::new();
    let mut meta: MetaMap = TextMap::new();
    let mut row_ts: i64 = 0;
    let mut inserted: u32 = 0;
    let mut updated: u32 = 0;
    let mut unchanged: u32 = 0;
    let mut visibly_changed = false;
    let mut wrote = false;
    let n = records.len();
    let mut i: usize = 0;
    while i < n
        invariant
            i <= n == recs.len() == gx.len(),
            n <= u32::MAX,
            recs == records@,
            gx == gidx@,
            pri == cfg.priority,
            was_insert == row0 is None,
            row0 == db_row,
            ({
                let gs = group_fold(recs, gx, g, row0, pri, i as nat);
                &&& gs.failure is None
                &&& loaded == gs.state is Some
                &&& (loaded ==> fields.map() == gs.state.unwrap().fields && meta.map()
                    == gs.state.unwrap().meta && row_ts == gs.state.unwrap().row_ts)
                &&& (!loaded ==> pending == row0)
                &&& inserted == gs.inserted
                &&& updated == gs.updated
                &&& unchanged == gs.unchanged
                &&& visibly_changed == gs.visibly_changed
                &&& wrote == gs.wrote
                &&& (wrote ==> loaded)
                &&& inserted + updated + unchanged <= i
            }),
        decreases n - i,
    {
        if gidx[i] == g {
            let rec = &records[i];
            let mut merge_now = loaded;
            if !loaded {
                if was_insert {
                    fields = rec.fields.copy();
                    meta = initial_meta(rec, pri);
                    row_ts = rec.updated_at;
                    loaded = true;
                    inserted = inserted + 1;
                    visibly_changed = true;
                    wrote = true;
                } else {
                    let skip = match &pending {
                        Some(row) => row_skips(row, rec, pri),
                        None => false,
                    };
                    if skip {
                        unchanged = unchanged + 1;
                    } else {
                        let row = pending.take().unwrap();
                        let row_updated_at = row.updated_at;
                        match row.decoded {
                            Err(e) => {
                                proof {
                                    assert(row_start(row) == Err::<MergeState, Seq<char>>(e@));
                                    lemma_failure_persists(recs, gx, g, row0, pri, (i + 1) as nat, n as nat);
                                }
                                return Err(crate::error::EngineError::Storage(e));
                            },
                            Ok((f, sm)) => {
                                meta = expand_meta(&f, sm);
                                fields = f;
                                row_ts = row_updated_at;
                                loaded = true;
                                merge_now = true;
                            },
                        }
                    }
                }
            }
            if merge_now {
                let (adv, ch) = apply_record_exec(&mut fields, &mut meta, &mut row_ts, rec, pri);
                if adv {
                    wrote = true;
                }
                if ch {
                    updated = updated + 1;
                    visibly_changed = true;
                } else {
                    unchanged = unchanged + 1;
                }
            }
        }
        i = i + 1;
    }
    let write = if wrote {
        let (floor_ts, floor_pri) = meta_floor(&meta);
        let compact = compact_meta(&meta);
        let content_hash = fields_hash(&fields);
        let field_count = fields.len() as i64;
        proof {
            use_type_invariant(&meta);
        }
        Some(
            WriteRow {
                is_insert: was_insert,
                fields,
                meta: compact,
                updated_at: row_ts,
                content_hash,
                floor_ts,
                floor_pri,
                field_count,
            },
        )
    } else {
        None
    };
    proof {
        if write is Some {
            // the compacted entries witness `writes_state`
            assert(is_compaction(write.unwrap().meta, meta@));
        }
    }
    Ok(
        GroupOutcome {
            collection,
            natural_key,
            inserted,
            updated,
            unchanged,
            visibly_changed,
            write,
        },
    )
}


/// A record's key: its collection and natural key.
pub open spec fn record_key(r: CanonicalRecord) -> (Seq<char>, Seq<char>) {
    (r.collection@, r.natural_key@)
}

/// The records' keys, each once, in order of first occurrence.
pub open spec fn distinct_keys(records: Seq<CanonicalRecord>) -> Seq<(Seq<char>, Seq<char>)>
    decreases records.len(),
{
    if records.len() == 0 {
        Seq::empty()
    } else {
        let prev = distinct_keys(records.drop_last());
        if prev.contains(record_key(records.last())) {
            prev
        } else {
            prev.push(record_key(records.last()))
        }
    }
}

/// No key occurs twice among the distinct keys.
pub proof fn lemma_distinct_keys_unique(records: Seq<CanonicalRecord>)
    ensures
        distinct_keys(records).no_duplicates(),
    decreases records.len(),
{
    if records.len() > 0 {
        lemma_distinct_keys_unique(records.drop_last());
    }
}

/// Key pairs as texts.
pub open spec fn keys_view(keys: Seq<(String, String)>) -> Seq<(Seq<char>, Seq<char>)> {
    keys.map_values(|k: (String, String)| (k.0@, k.1@))
}

fn find_key(keys: &Vec<(String, String)>, collection: &str, natural_key: &str) -> (r: Option<usize>)
    ensures
        match r {
            Some(j) => j < keys@.len() && keys_view(keys@)[j as int] == (collection@, natural_key@),
            None => !keys_view(keys@).contains((collection@, natural_key@)),
        },
{
    let mut j: usize = 0;
    while j < keys.len()
        invariant
            j <= keys@.len(),
            forall|x: int| 0 <= x < j ==> #[trigger] keys_view(keys@)[x] != (collection@, natural_key@),
        decreases keys.len() - j,
    {
        if compare_text(keys[j].0.as_str(), collection) == 0 && compare_text(
            keys[j].1.as_str(),
            natural_key,
        ) == 0 {
            return Some(j);
        }
        j = j + 1;
    }
    proof {
        if keys_view(keys@).contains((collection@, natural_key@)) {
            let x = choose|x: int| 0 <= x < keys_view(keys@).len() && keys_view(keys@)[x] == (collection@, natural_key@);
            assert(keys_view(keys@)[x] != (collection@, natural_key@));
        }
    }
    None
}

/// Groups records by key: the distinct keys in order of first occurrence,
/// and for each record the position of its key among them. A group's
/// records are merged in their batch order.
pub fn group_keys(records: &Vec<CanonicalRecord>) -> (r: (Vec<(String, String)>, Vec<usize>))
    ensures
        keys_view(r.0@) == distinct_keys(records@),
        r.1@.len() == records@.len(),
        forall|i: int|
            0 <= i < records@.len() ==> #[trigger] r.1@[i] < r.0@.len() && distinct_keys(
                records@,
            )[r.1@[i] as int] == record_key(records@[i]),
{
    let ghost recs = records@;
    let mut keys: Vec<(String, String)> = Vec::new();
    let mut gidx: Vec<usize> = Vec::new();
    let n = records.len();
    let mut i: usize = 0;
    assert(recs.take(0) =~= Seq::<CanonicalRecord>::empty());
    assert(keys_view(keys@) =~= Seq::<(Seq<char>, Seq<char>)>::empty());
    while i < n
        invariant
            i <= n == recs.len(),
            recs == records@,
            keys_view(keys@) == distinct_keys(recs.take(i as int)),
            gidx@.len() == i,
            forall|x: int|
                0 <= x < i ==> #[trigger] gidx@[x] < keys@.len() && keys_view(keys@)[gidx@[x] as int]
                    == record_key(recs[x]),
        decreases n - i,
    {
        let rec = &records[i];
        assert(recs.take(i + 1).drop_last() =~= recs.take(i as int));
        assert(recs.take(i + 1).last() == recs[i as int]);
        match find_key(&keys, rec.collection.as_str(), rec.natural_key.as_str()) {
            Some(j) => {
                gidx.push(j);
            },
            None => {
                let ghost before = keys@;
                keys.push((rec.collection.clone(), rec.natural_key.clone()));
                assert(keys_view(keys@) =~= keys_view(before).push(record_key(recs[i as int])));
                gidx.push(keys.len() - 1);
            },
        }
        i = i + 1;
    }
    assert(recs.take(n as int) =~= recs);
    (keys, gidx)
}

/// Sum of a count over outcomes.
pub open spec fn sum_inserted(os: Seq<GroupOutcome>) -> nat
    decreases os.len(),
{
    if os.len() == 0 {
        0
    } else {
        sum_inserted(os.drop_last()) + os.last().inserted as nat
    }
}

pub open spec fn sum_updated(os: Seq<GroupOutcome>) -> nat
    decreases os.len(),
{
    if os.len() == 0 {
        0
    } else {
        sum_updated(os.drop_last()) + os.last().updated as nat
    }
}

pub open spec fn sum_unchanged(os: Seq<GroupOutcome>) -> nat
    decreases os.len(),
{
    if os.len() == 0 {
        0
    } else {
        sum_unchanged(os.drop_last()) + os.last().unchanged as nat
    }
}

/// Some outcome visibly changed collection `c`.
pub open spec fn changed_collection(os: Seq<GroupOutcome>, c: Seq<char>) -> bool {
    exists|j: int| 0 <= j < os.len() && #[trigger] os[j].visibly_changed && os[j].collection@ == c
}

/// A batch's totals: records inserted, updated and unchanged, and the
/// collections with a visible change, sorted and each once.
pub struct BatchCounts {
    pub inserted: u32,
    pub updated: u32,
    pub unchanged: u32,
    pub collections: Vec<String>,
}

/// Adds up a batch's group outcomes.
pub fn tally_outcomes(outcomes: &Vec<GroupOutcome>) -> (c: BatchCounts)
    requires
        sum_inserted(outcomes@) <= u32::MAX,
        sum_updated(outcomes@) <= u32::MAX,
        sum_unchanged(outcomes@) <= u32::MAX,
    ensures
        c.inserted == sum_inserted(outcomes@),
        c.updated == sum_updated(outcomes@),
        c.unchanged == sum_unchanged(outcomes@),
        forall|a: int, b: int|
            0 <= a < b < c.collections@.len() ==> crate::fieldmap::text_lt(
                #[trigger] c.collections@[a]@,
                #[trigger] c.collections@[b]@,
            ),
        forall|x: Seq<char>|
            changed_collection(outcomes@, x) <==> exists|i: int|
                0 <= i < c.collections@.len() && #[trigger] c.collections@[i]@ == x,
{
    let ghost os = outcomes@;
    let mut inserted: u32 = 0;
    let mut updated: u32 = 0;
    let mut unchanged: u32 = 0;
    let mut changed: FieldMap = TextMap::new();
    let n = outcomes.len();
    let mut i: usize = 0;
    assert(os.take(0) =~= Seq::<GroupOutcome>::empty());
    while i < n
        invariant
            i <= n == os.len(),
            os == outcomes@,
            sum_inserted(os) <= u32::MAX,
            sum_updated(os) <= u32::MAX,
            sum_unchanged(os) <= u32::MAX,
            inserted == sum_inserted(os.take(i as int)),
            updated == sum_updated(os.take(i as int)),
            unchanged == sum_unchanged(os.take(i as int)),
            forall|x: Seq<char>| #[trigger]
                changed.map().contains_key(x) <==> changed_collection(os.take(i as int), x),
        decreases n - i,
    {
        proof {
            lemma_sums_monotone(os, i as int + 1);
        }
        let o = &outcomes[i];
        assert(os.take(i + 1).drop_last() =~= os.take(i as int));
        inserted = inserted + o.inserted;
        updated = updated + o.updated;
        unchanged = unchanged + o.unchanged;
        if o.visibly_changed {
            changed.insert(o.collection.clone(), o.collection.clone());
        }
        proof {
            let t = os.take(i + 1);
            assert forall|x: Seq<char>| #[trigger]
                changed.map().contains_key(x) <==> changed_collection(t, x) by {
                if changed_collection(t, x) {
                    let j = choose|j: int| 0 <= j < t.len() && #[trigger] t[j].visibly_changed && t[j].collection@ == x;
                    if j < i {
                        assert(os.take(i as int)[j] == t[j]);
                        assert(changed_collection(os.take(i as int), x));
                    }
                }
                if changed_collection(os.take(i as int), x) {
                    let j = choose|j: int| 0 <= j < i && #[trigger] os.take(i as int)[j].visibly_changed && os.take(i as int)[j].collection@ == x;
                    assert(t[j] == os.take(i as int)[j]);
                    assert(t[j].visibly_changed && t[j].collection@ == x);
                }
                if o.visibly_changed && x == o.collection@ {
                    assert(t[i as int] == o);
                    assert(t[i as int].visibly_changed && t[i as int].collection@ == x);
                }
            }
        }
        i = i + 1;
    }
    assert(os.take(n as int) =~= os);
    let collections = changed.keys();
    proof {
        use_type_invariant(&changed);
    }
    proof {
        let es = changed@;
        assert forall|x: Seq<char>|
            changed_collection(outcomes@, x) <==> exists|i: int|
                0 <= i < collections@.len() && #[trigger] collections@[i]@ == x by {
            assert(changed_collection(os, x) == changed_collection(os.take(n as int), x));
            assert(changed.map().contains_key(x) <==> changed_collection(os.take(n as int), x));
            if changed_collection(os, x) {
                assert(changed.map().contains_key(x));
                let j = choose|j: int| 0 <= j < es.len() && #[trigger] es[j].0 == x;
                assert(collections@[j]@ == x);
            }
            if exists|i: int| 0 <= i < collections@.len() && #[trigger] collections@[i]@ == x {
                let j = choose|i: int| 0 <= i < collections@.len() && #[trigger] collections@[i]@ == x;
                assert(es[j].0 == x);
                assert(has_key(es, x));
            }
        }
        assert forall|a: int, b: int|
            0 <= a < b < collections@.len() implies crate::fieldmap::text_lt(
                #[trigger] collections@[a]@,
                #[trigger] collections@[b]@,
            ) by {
            assert(collections@[a]@ == es[a].0 && collections@[b]@ == es[b].0);
        }
    }
    let ghost cv = collections@;
    let c = BatchCounts { inserted, updated, unchanged, collections };
    assert(c.collections@ == cv);
    assert(forall|x: Seq<char>|
            changed_collection(outcomes@, x) <==> exists|i: int|
                0 <= i < c.collections@.len() && #[trigger] c.collections@[i]@ == x);
    c
}

/// How many of the first `n` records fall in the groups below `k`.
pub open spec fn members_below(gidx: Seq<usize>, k: nat, n: nat) -> nat
    decreases k,
{
    if k == 0 {
        0
    } else {
        members_below(gidx, (k - 1) as nat, n) + member_count(gidx, (k - 1) as usize, n)
    }
}

/// How many of the groups below `k` have no stored row and at least one of
/// the first `n` records: the keys a batch inserts.
pub open spec fn new_keys_below(gidx: Seq<usize>, rows: Seq<Option<ExistingRow>>, k: nat, n: nat) -> nat
    decreases k,
{
    if k == 0 {
        0
    } else {
        new_keys_below(gidx, rows, (k - 1) as nat, n) + if rows[k - 1] is None && member_count(
            gidx,
            (k - 1) as usize,
            n,
        ) > 0 {
            1nat
        } else {
            0nat
        }
    }
}

/// One more record adds one to the groups below `k` exactly when its group is
/// one of them.
proof fn lemma_members_below_step(gidx: Seq<usize>, k: nat, n: nat)
    requires
        0 < n <= gidx.len(),
        k <= usize::MAX + 1,
    ensures
        members_below(gidx, k, n) == members_below(gidx, k, (n - 1) as nat) + if gidx[n - 1] < k {
            1nat
        } else {
            0nat
        },
    decreases k,
{
    if k > 0 {
        lemma_members_below_step(gidx, (k - 1) as nat, n);
    }
}

/// When every group index is below `k`, the groups below `k` hold every record.
proof fn lemma_members_below_all(gidx: Seq<usize>, k: nat, n: nat)
    requires
        n <= gidx.len(),
        k <= usize::MAX + 1,
        forall|i: int| 0 <= i < n ==> #[trigger] gidx[i] < k,
    ensures
        members_below(gidx, k, n) == n,
    decreases n,
{
    if n == 0 {
        assert(members_below(gidx, k, 0) == 0) by {
            lemma_members_below_zero(gidx, k);
        }
    } else {
        lemma_members_below_all(gidx, k, (n - 1) as nat);
        lemma_members_below_step(gidx, k, n);
        assert(gidx[n - 1] < k);
    }
}

proof fn lemma_members_below_zero(gidx: Seq<usize>, k: nat)
    ensures
        members_below(gidx, k, 0) == 0,
    decreases k,
{
    if k > 0 {
        lemma_members_below_zero(gidx, (k - 1) as nat);
    }
}

/// The first `k` outcomes count the records of their groups, and insert once
/// per new key among them.
proof fn lemma_outcome_prefix_counts(
    records: Seq<CanonicalRecord>,
    gidx: Seq<usize>,
    rows: Seq<Option<ExistingRow>>,
    pri: u32,
    os: Seq<GroupOutcome>,
    k: nat,
)
    requires
        k <= os.len() == rows.len(),
        os.len() <= usize::MAX,
        forall|g: int|
            0 <= g < os.len() ==> ({
                let gs = #[trigger] group_fold(records, gidx, g as usize, rows[g], pri, records.len());
                &&& gs.failure is None
                &&& os[g].inserted == gs.inserted
                &&& os[g].updated == gs.updated
                &&& os[g].unchanged == gs.unchanged
            }),
    ensures
        sum_inserted(os.take(k as int)) + sum_updated(os.take(k as int)) + sum_unchanged(os.take(k as int))
            == members_below(gidx, k, records.len()),
        sum_inserted(os.take(k as int)) == new_keys_below(gidx, rows, k, records.len()),
    decreases k,
{
    if k == 0 {
        assert(os.take(0) =~= Seq::<GroupOutcome>::empty());
    } else {
        lemma_outcome_prefix_counts(records, gidx, rows, pri, os, (k - 1) as nat);
        assert(os.take(k as int).drop_last() =~= os.take(k - 1));
        assert(os.take(k as int).last() == os[k - 1]);
        let g = (k - 1) as usize;
        assert(g as int == k - 1);
        let gs = group_fold(records, gidx, g, rows[k - 1], pri, records.len());
        assert(gs == group_fold(records, gidx, (k - 1) as usize, rows[k - 1], pri, records.len()));
        lemma_each_record_counted_once(records, gidx, g, rows[k - 1], pri, records.len());
    }
}

/// Every record of a batch is counted once: when the batch's keys are the
/// groups `0..os.len()`, every record's group is one of them, and each
/// group's outcome carries its merge's counts (no merge failed), the
/// inserted, updated and unchanged totals add up to the number of records,
/// and the inserted total is the number of keys that had no stored row.
pub proof fn lemma_batch_counts_every_record(
    records: Seq<CanonicalRecord>,
    gidx: Seq<usize>,
    rows: Seq<Option<ExistingRow>>,
    pri: u32,
    os: Seq<GroupOutcome>,
)
    requires
        gidx.len() == records.len(),
        rows.len() == os.len(),
        os.len() <= usize::MAX,
        forall|i: int| 0 <= i < gidx.len() ==> #[trigger] gidx[i] < os.len(),
        forall|g: int|
            0 <= g < os.len() ==> ({
                let gs = #[trigger] group_fold(records, gidx, g as usize, rows[g], pri, records.len());
                &&& gs.failure is None
                &&& os[g].inserted == gs.inserted
                &&& os[g].updated == gs.updated
                &&& os[g].unchanged == gs.unchanged
            }),
    ensures
        sum_inserted(os) + sum_updated(os) + sum_unchanged(os) == records.len(),
        sum_inserted(os) == new_keys_below(gidx, rows, os.len(), records.len()),
{
    lemma_outcome_prefix_counts(records, gidx, rows, pri, os, os.len());
    assert(os.take(os.len() as int) =~= os);
    lemma_members_below_all(gidx, os.len(), records.len());
}

/// Prefix sums never exceed the whole.
proof fn lemma_sums_monotone(os: Seq<GroupOutcome>, k: int)
    requires
        0 <= k <= os.len(),
    ensures
        sum_inserted(os.take(k)) <= sum_inserted(os),
        sum_updated(os.take(k)) <= sum_updated(os),
        sum_unchanged(os.take(k)) <= sum_unchanged(os),
    decreases os.len() - k,
{
    if k < os.len() {
        lemma_sums_monotone(os, k + 1);
        assert(os.take(k + 1).drop_last() =~= os.take(k));
    } else {
        assert(os.take(k) =~= os);
    }
}


/// At most this many changed keys are reported per batch.
pub const CHANGED_KEYS_CAP: usize = 1000;

/// The keys of the groups that visibly changed, in group order, as
/// `(collection, natural key)`.
pub open spec fn changed_keys_spec(os: Seq<GroupOutcome>) -> Seq<(Seq<char>, Seq<char>)>
    decreases os.len(),
{
    if os.len() == 0 {
        Seq::empty()
    } else {
        let p = changed_keys_spec(os.drop_last());
        if os.last().visibly_changed {
            p.push((os.last().collection@, os.last().natural_key@))
        } else {
            p
        }
    }
}

/// The keys that visibly changed, as `(collection, natural key)` in group
/// order, cut at `CHANGED_KEYS_CAP`; and whether any were cut.
pub fn changed_keys(outcomes: &Vec<GroupOutcome>) -> (r: (Vec<(String, String)>, bool))
    ensures
        r.0@.len() <= CHANGED_KEYS_CAP,
        crate::kvcache::writes_view(r.0@) == changed_keys_spec(outcomes@).take(
            if changed_keys_spec(outcomes@).len() <= CHANGED_KEYS_CAP {
                changed_keys_spec(outcomes@).len() as int
            } else {
                CHANGED_KEYS_CAP as int
            },
        ),
        r.1 == (changed_keys_spec(outcomes@).len() > CHANGED_KEYS_CAP),
{
    let ghost os = outcomes@;
    let mut keys: Vec<(String, String)> = Vec::new();
    let mut truncated = false;
    let n = outcomes.len();
    let mut i: usize = 0;
    assert(os.take(0) =~= Seq::<GroupOutcome>::empty());
    assert(crate::kvcache::writes_view(keys@) =~= Seq::<(Seq<char>, Seq<char>)>::empty());
    while i < n
        invariant
            i <= n == os.len(),
            os == outcomes@,
            keys@.len() <= CHANGED_KEYS_CAP,
            crate::kvcache::writes_view(keys@) == changed_keys_spec(os.take(i as int)).take(keys@.len() as int),
            truncated == (changed_keys_spec(os.take(i as int)).len() > CHANGED_KEYS_CAP),
            !truncated ==> keys@.len() == changed_keys_spec(os.take(i as int)).len(),
            truncated ==> keys@.len() == CHANGED_KEYS_CAP,
        decreases n - i,
    {
        let o = &outcomes[i];
        assert(os.take(i + 1).drop_last() =~= os.take(i as int));
        assert(os.take(i + 1).last() == o);
        let ghost before = changed_keys_spec(os.take(i as int));
        if o.visibly_changed {
            if keys.len() < CHANGED_KEYS_CAP {
                let ghost kv = keys@;
                keys.push((o.collection.clone(), o.natural_key.clone()));
                proof {
                    let after = changed_keys_spec(os.take(i + 1));
                    assert(after == before.push((o.collection@, o.natural_key@)));
                    assert(crate::kvcache::writes_view(keys@) =~= crate::kvcache::writes_view(kv).push((o.collection@, o.natural_key@)));
                    assert(after.take(keys@.len() as int) =~= before.take(kv.len() as int).push((o.collection@, o.natural_key@)));
                }
            } else {
                truncated = true;
                proof {
                    let after = changed_keys_spec(os.take(i + 1));
                    assert(after == before.push((o.collection@, o.natural_key@)));
                    assert(after.take(keys@.len() as int) =~= before.take(keys@.len() as int));
                }
            }
        } else {
            assert(changed_keys_spec(os.take(i + 1)) == before);
        }
        i = i + 1;
    }
    assert(os.take(n as int) =~= os);
    (keys, truncated)
}


/// The collections of `(collection, key)` pairs, each once, in order of first occurrence.
pub open spec fn pair_collections(kv: Seq<(Seq<char>, Seq<char>)>) -> Seq<Seq<char>>
    decreases kv.len(),
{
    if kv.len() == 0 {
        Seq::empty()
    } else {
        let prev = pair_collections(kv.drop_last());
        if prev.contains(kv.last().0) {
            prev
        } else {
            prev.push(kv.last().0)
        }
    }
}

/// The keys paired with collection `c`, in order.
pub open spec fn keys_in(kv: Seq<(Seq<char>, Seq<char>)>, c: Seq<char>) -> Seq<Seq<char>>
    decreases kv.len(),
{
    if kv.len() == 0 {
        Seq::empty()
    } else {
        let prev = keys_in(kv.drop_last(), c);
        if kv.last().0 == c {
            prev.push(kv.last().1)
        } else {
            prev
        }
    }
}

fn collect_keys_in(kv: &Vec<(String, String)>, c: &str) -> (r: Vec<String>)
    ensures
        crate::dispatch::texts(r@) == keys_in(crate::kvcache::writes_view(kv@), c@),
{
    let ghost v = crate::kvcache::writes_view(kv@);
    let mut out: Vec<String> = Vec::new();
    let mut i: usize = 0;
    assert(v.take(0) =~= Seq::<(Seq<char>, Seq<char>)>::empty());
    assert(crate::dispatch::texts(out@) =~= Seq::<Seq<char>>::empty());
    while i < kv.len()
        invariant
            i <= kv@.len(),
            v == crate::kvcache::writes_view(kv@),
            crate::dispatch::texts(out@) == keys_in(v.take(i as int), c@),
        decreases kv.len() - i,
    {
        assert(v.take(i + 1).drop_last() =~= v.take(i as int));
        assert(v.take(i + 1).last() == (kv@[i as int].0@, kv@[i as int].1@));
        if compare_text(kv[i].0.as_str(), c) == 0 {
            let ghost before = out@;
            out.push(kv[i].1.clone());
            assert(crate::dispatch::texts(out@) =~= crate::dispatch::texts(before).push(kv@[i as int].1@));
        }
        i = i + 1;
    }
    assert(v.take(i as int) =~= v);
    out
}

/// Groups `(collection, key)` pairs by collection: the collections in order
/// of first occurrence, each with all of its keys in their order.
pub fn group_by_collection(kv: &Vec<(String, String)>) -> (r: Vec<(String, Vec<String>)>)
    ensures
        r@.map_values(|e: (String, Vec<String>)| e.0@) == pair_collections(crate::kvcache::writes_view(kv@)),
        forall|i: int|
            0 <= i < r@.len() ==> crate::dispatch::texts(#[trigger] r@[i].1@) == keys_in(
                crate::kvcache::writes_view(kv@),
                r@[i].0@,
            ),
{
    let ghost v = crate::kvcache::writes_view(kv@);
    let mut out: Vec<(String, Vec<String>)> = Vec::new();
    let mut i: usize = 0;
    assert(v.take(0) =~= Seq::<(Seq<char>, Seq<char>)>::empty());
    assert(out@.map_values(|e: (String, Vec<String>)| e.0@) =~= Seq::<Seq<char>>::empty());
    while i < kv.len()
        invariant
            i <= kv@.len(),
            v == crate::kvcache::writes_view(kv@),
            out@.map_values(|e: (String, Vec<String>)| e.0@) == pair_collections(v.take(i as int)),
            forall|j: int|
                0 <= j < out@.len() ==> crate::dispatch::texts(#[trigger] out@[j].1@) == keys_in(v, out@[j].0@),
        decreases kv.len() - i,
    {
        assert(v.take(i + 1).drop_last() =~= v.take(i as int));
        assert(v.take(i + 1).last() == (kv@[i as int].0@, kv@[i as int].1@));
        let c = &kv[i].0;
        let mut seen_before = false;
        let mut j: usize = 0;
        while j < out.len()
            invariant
                j <= out@.len(),
                seen_before == exists|x: int| 0 <= x < j && #[trigger] out@[x].0@ == c@,
            decreases out.len() - j,
        {
            if compare_text(out[j].0.as_str(), c.as_str()) == 0 {
                seen_before = true;
            }
            j = j + 1;
        }
        let ghost names = out@.map_values(|e: (String, Vec<String>)| e.0@);
        proof {
            if names.contains(c@) {
                let x = choose|x: int| 0 <= x < names.len() && names[x] == c@;
                assert(out@[x].0@ == c@);
            }
            if seen_before {
                let x = choose|x: int| 0 <= x < j && #[trigger] out@[x].0@ == c@;
                assert(names[x] == c@);
            }
        }
        if !seen_before {
            let keys = collect_keys_in(kv, c.as_str());
            out.push((c.clone(), keys));
            assert(out@.map_values(|e: (String, Vec<String>)| e.0@) =~= names.push(c@));
        }
        i = i + 1;
    }
    assert(v.take(i as int) =~= v);
    out
}

} // verus!
