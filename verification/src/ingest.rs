//! The decisions of an ingest around the merge: the fingerprint that lets a
//! repeated payload skip the merge, and the change channels to notify.
use vstd::prelude::*;
use crate::pubsub::{match_count, PubSub};
use crate::text::{push_str_chars, string_from_chars};
use std::collections::hash_map::DefaultHasher;
use std::hash::Hasher;
use vstd::std_specs::hash::DefaultHasherAdditionalSpecFns;
use vstd::string::StringSliceAdditionalSpecFns;

verus! {

/// The lower-case hexadecimal digit of `d < 16`.
pub open spec fn hex_digit(d: nat) -> char {
    if d < 10 {
        ((d + ('0' as nat)) as u32) as char
    } else {
        ((d - 10 + ('a' as nat)) as u32) as char
    }
}

/// Lower-case hexadecimal text of a natural number, without leading zeros.
pub open spec fn hex_text(n: nat) -> Seq<char>
    decreases n,
{
    if n < 16 {
        seq![hex_digit(n)]
    } else {
        hex_text(n / 16).push(hex_digit(n % 16))
    }
}

fn hex_digit_char(d: u64) -> (c: char)
    requires
        d < 16,
    ensures
        c == hex_digit(d as nat),
{
    if d < 10 {
        assert(('0' as u64) + d < 0xD800);
        ((('0' as u8) + (d as u8)) as char)
    } else {
        assert(('a' as u64) + d - 10 < 0xD800);
        ((('a' as u8) + ((d - 10) as u8)) as char)
    }
}

fn push_hex(v: &mut Vec<char>, n: u64)
    ensures
        final(v)@ == old(v)@ + hex_text(n as nat),
    decreases n,
{
    if n < 16 {
        v.push(hex_digit_char(n));
        assert(final(v)@ =~= old(v)@ + hex_text(n as nat));
    } else {
        push_hex(v, n / 16);
        v.push(hex_digit_char(n % 16));
        assert(final(v)@ =~= old(v)@ + hex_text(n as nat));
    }
}

/// The hasher writes a payload and its source's configuration make: each
/// text's UTF-8 bytes followed by the byte 0xFF.
pub open spec fn fingerprint_writes(payload: Seq<char>, cfg_json: Seq<char>) -> Seq<Seq<u8>> {
    seq![
        vstd::utf8::encode_utf8(payload),
        seq![0xffu8],
        vstd::utf8::encode_utf8(cfg_json),
        seq![0xffu8],
    ]
}

/// The fingerprint of a payload under a source configuration: std's
/// `DefaultHasher` over `fingerprint_writes`, in lower-case hexadecimal.
pub open spec fn fingerprint_spec(payload: Seq<char>, cfg_json: Seq<char>) -> Seq<char> {
    hex_text(DefaultHasher::spec_finish(fingerprint_writes(payload, cfg_json)) as nat)
}

/// Fingerprints a payload together with its source's configuration (as
/// JSON), so that re-registering a source with other merge rules never lets
/// a byte-identical payload skip the merge.
pub fn ingest_fingerprint(payload: &str, cfg_json: &str) -> (r: String)
    ensures
        r@ == fingerprint_spec(payload@, cfg_json@),
{
    let mut hasher = DefaultHasher::new();
    let sep: Vec<u8> = vec![0xffu8];
    assert(sep@ =~= seq![0xffu8]);
    hasher.write(payload.as_bytes());
    hasher.write(sep.as_slice());
    hasher.write(cfg_json.as_bytes());
    hasher.write(sep.as_slice());
    assert(hasher@ =~= fingerprint_writes(payload@, cfg_json@));
    let h = hasher.finish();
    let mut v: Vec<char> = Vec::new();
    push_hex(&mut v, h);
    assert(v@ =~= fingerprint_spec(payload@, cfg_json@));
    string_from_chars(&v)
}

/// A payload whose fingerprint equals the one recorded for the source's
/// last ingest is skipped.
pub fn is_repeat(previous: &Option<String>, fingerprint: &String) -> (r: bool)
    ensures
        r == (previous is Some && previous->Some_0@ == fingerprint@),
{
    match previous {
        Some(p) => crate::fieldmap::compare_text(p.as_str(), fingerprint.as_str()) == 0,
        None => false,
    }
}

/// The channel a collection's changes are published on.
pub open spec fn change_channel_spec(collection: Seq<char>) -> Seq<char> {
    "changes:"@ + collection
}

/// `changes:{collection}`.
pub fn change_channel(collection: &str) -> (r: String)
    ensures
        r@ == change_channel_spec(collection@),
{
    let mut v: Vec<char> = Vec::new();
    push_str_chars(&mut v, "changes:");
    push_str_chars(&mut v, collection);
    string_from_chars(&v)
}

/// The changed collections some subscription listens to, in order, with
/// their channels: only those get an event.
pub fn change_events(pubsub: &PubSub, collections: &Vec<String>) -> (r: Vec<(String, String)>)
    ensures
        r@.len() <= collections@.len(),
        forall|i: int|
            0 <= i < r@.len() ==> #[trigger] r@[i].1@ == change_channel_spec(r@[i].0@) && match_count(pubsub.subs_view(), r@[i].1@) > 0,
        r@.map_values(|e: (String, String)| e.0@) == collections@.map_values(|c: String| c@).filter(
            |c: Seq<char>| (match_count(pubsub.subs_view(), change_channel_spec(c)) > 0),
        ),
{
    let ghost cs = collections@.map_values(|c: String| c@);
    let ghost keep = |c: Seq<char>| (match_count(pubsub.subs_view(), change_channel_spec(c)) > 0);
    let mut out: Vec<(String, String)> = Vec::new();
    let mut i: usize = 0;
    proof {
        reveal(Seq::filter);
        assert(cs.take(0).filter(keep) =~= Seq::<Seq<char>>::empty());
    }
    while i < collections.len()
        invariant
            i <= collections@.len(),
            cs == collections@.map_values(|c: String| c@),
            keep == (|c: Seq<char>| (match_count(pubsub.subs_view(), change_channel_spec(c)) > 0)),
            out@.len() <= i,
            forall|j: int|
                0 <= j < out@.len() ==> #[trigger] out@[j].1@ == change_channel_spec(out@[j].0@) && match_count(pubsub.subs_view(), out@[j].1@) > 0,
            out@.map_values(|e: (String, String)| e.0@) == cs.take(i as int).filter(keep),
        decreases collections.len() - i,
    {
        let c = &collections[i];
        let channel = change_channel(c.as_str());
        let ghost before = out@;
        assert(cs.take(i + 1).drop_last() =~= cs.take(i as int));
        proof {
            reveal(Seq::filter);
            assert(cs.take(i + 1).last() == c@);
        }
        if pubsub.any_match(channel.as_str()) {
            out.push((c.clone(), channel));
            assert(out@.map_values(|e: (String, String)| e.0@) =~= before.map_values(|e: (String, String)| e.0@).push(cs[i as int]));
        }
        i = i + 1;
    }
    assert(cs.take(i as int) =~= cs);
    out
}

} // verus!
