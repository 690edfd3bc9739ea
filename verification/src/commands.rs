//! The decisions behind the redis-style key/value surface: which keys are
//! write-protected, how `entry:{collection}:{key}` names a merged row, when
//! a key has expired, and which keys a scan reports.
use vstd::prelude::*;
use crate::error::EngineError;
use crate::fieldmap::FieldMap;
use crate::glob::{glob_match, glob_spec};
use crate::text::{i64_to_string, int_text, push_str_chars, str_chars, string_from_chars};

verus! {

/// The key prefixes that name engine-owned data.
pub open spec fn reserved_prefixes() -> Seq<Seq<char>> {
    seq!["entry:"@, "idx:"@, "meta:"@, "changes:"@]
}

/// The first reserved prefix that `key` starts with, if any.
pub open spec fn reserved_prefix_of(key: Seq<char>) -> Option<Seq<char>> {
    if reserved_prefixes()[0].is_prefix_of(key) {
        Some(reserved_prefixes()[0])
    } else if reserved_prefixes()[1].is_prefix_of(key) {
        Some(reserved_prefixes()[1])
    } else if reserved_prefixes()[2].is_prefix_of(key) {
        Some(reserved_prefixes()[2])
    } else if reserved_prefixes()[3].is_prefix_of(key) {
        Some(reserved_prefixes()[3])
    } else {
        None
    }
}

/// Why a write to a reserved key is refused.
pub open spec fn reserved_msg(key: Seq<char>, prefix: Seq<char>) -> Seq<char> {
    "key '"@ + key + "' is reserved (prefix '"@ + prefix + "')"@
}

/// Whether `s` starts with `p`.
pub fn has_prefix(s: &Vec<char>, p: &str) -> (r: bool)
    ensures
        r == p@.is_prefix_of(s@),
{
    let pc = str_chars(p);
    if pc.len() > s.len() {
        return false;
    }
    let mut i: usize = 0;
    while i < pc.len()
        invariant
            i <= pc@.len() <= s@.len(),
            pc@ == p@,
            forall|j: int| 0 <= j < i ==> pc@[j] == s@[j],
        decreases pc.len() - i,
    {
        if pc[i] != s[i] {
            assert(s@.subrange(0, pc@.len() as int)[i as int] != pc@[i as int]);
            return false;
        }
        i = i + 1;
    }
    assert(pc@ =~= s@.subrange(0, pc@.len() as int));
    true
}

fn reserved_error(key: &str, prefix: &str) -> (e: EngineError)
    ensures
        e matches EngineError::Command(m) && m@ == reserved_msg(key@, prefix@),
{
    let mut v: Vec<char> = Vec::new();
    push_str_chars(&mut v, "key '");
    push_str_chars(&mut v, key);
    push_str_chars(&mut v, "' is reserved (prefix '");
    push_str_chars(&mut v, prefix);
    push_str_chars(&mut v, "')");
    let s = string_from_chars(&v);
    proof {
        reveal_strlit("key '");
        reveal_strlit("' is reserved (prefix '");
        reveal_strlit("')");
    }
    assert(s@ =~= reserved_msg(key@, prefix@));
    EngineError::Command(s)
}

/// Refuses writes to keys under a reserved prefix.
pub fn check_writable(key: &str) -> (r: Result<(), EngineError>)
    ensures
        match reserved_prefix_of(key@) {
            None => r is Ok,
            Some(p) => r matches Err(EngineError::Command(m)) && m@ == reserved_msg(key@, p),
        },
{
    let cs = str_chars(key);
    proof {
        reveal_strlit("entry:");
        reveal_strlit("idx:");
        reveal_strlit("meta:");
        reveal_strlit("changes:");
    }
    if has_prefix(&cs, "entry:") {
        Err(reserved_error(key, "entry:"))
    } else if has_prefix(&cs, "idx:") {
        Err(reserved_error(key, "idx:"))
    } else if has_prefix(&cs, "meta:") {
        Err(reserved_error(key, "meta:"))
    } else if has_prefix(&cs, "changes:") {
        Err(reserved_error(key, "changes:"))
    } else {
        Ok(())
    }
}

/// The name under which a merged row appears on the key surface.
pub open spec fn entry_key_spec(collection: Seq<char>, natural_key: Seq<char>) -> Seq<char> {
    "entry:"@ + collection + ":"@ + natural_key
}

/// `entry:{collection}:{natural_key}`.
pub fn entry_key(collection: &str, natural_key: &str) -> (r: String)
    ensures
        r@ == entry_key_spec(collection@, natural_key@),
{
    let mut v: Vec<char> = Vec::new();
    push_str_chars(&mut v, "entry:");
    push_str_chars(&mut v, collection);
    push_str_chars(&mut v, ":");
    push_str_chars(&mut v, natural_key);
    assert(v@ =~= entry_key_spec(collection@, natural_key@));
    string_from_chars(&v)
}

/// Splits `entry:{collection}:{natural_key}` at the first `:` after the
/// prefix; `None` for a key without the prefix or without that `:`.
pub fn entry_key_parts(key: &str) -> (r: Option<(String, String)>)
    ensures
        match r {
            Some((c, nk)) => key@ == entry_key_spec(c@, nk@) && !c@.contains(':'),
            None => !("entry:"@.is_prefix_of(key@)) || !key@.skip(6).contains(':'),
        },
{
    let cs = str_chars(key);
    proof {
        reveal_strlit("entry:");
        reveal_strlit(":");
    }
    if !has_prefix(&cs, "entry:") {
        return None;
    }
    let mut i: usize = 6;
    while i < cs.len()
        invariant
            6 <= i <= cs@.len(),
            cs@ == key@,
            "entry:"@.is_prefix_of(cs@),
            "entry:"@ == seq!['e', 'n', 't', 'r', 'y', ':'],
            ":"@ == seq![':'],
            forall|j: int| 6 <= j < i ==> cs@[j] != ':',
        decreases cs.len() - i,
    {
        if cs[i] == ':' {
            let mut c: Vec<char> = Vec::new();
            let mut j: usize = 6;
            while j < i
                invariant
                    6 <= j <= i < cs@.len(),
                    c@ == cs@.subrange(6, j as int),
                decreases i - j,
            {
                c.push(cs[j]);
                j = j + 1;
                assert(c@ =~= cs@.subrange(6, j as int));
            }
            let mut nk: Vec<char> = Vec::new();
            let mut j: usize = i + 1;
            assert(nk@ =~= cs@.subrange(i + 1, i + 1));
            while j < cs.len()
                invariant
                    i < j <= cs@.len(),
                    nk@ == cs@.subrange(i + 1, j as int),
                decreases cs.len() - j,
            {
                nk.push(cs[j]);
                j = j + 1;
                assert(nk@ =~= cs@.subrange(i + 1, j as int));
            }
            proof {
                assert(cs@.subrange(0, 6) =~= "entry:"@);
                assert(cs@ =~= entry_key_spec(c@, nk@));
                assert(!c@.contains(':')) by {
                    if c@.contains(':') {
                        let x = choose|x: int| 0 <= x < c@.len() && c@[x] == ':';
                        assert(cs@[x + 6] == ':');
                    }
                }
            }
            return Some((string_from_chars(&c), string_from_chars(&nk)));
        }
        i = i + 1;
    }
    proof {
        assert(!key@.skip(6).contains(':')) by {
            if key@.skip(6).contains(':') {
                let x = choose|x: int| 0 <= x < key@.skip(6).len() && key@.skip(6)[x] == ':';
                assert(cs@[x + 6] == ':');
            }
        }
    }
    None
}

/// The name of the field that carries a merged row's timestamp on the key surface.
pub open spec fn updated_at_field() -> Seq<char> {
    "_updated_at"@
}

/// A merged row as a hash: its fields plus `_updated_at`, the row
/// timestamp in decimal.
pub fn entry_hash(fields: FieldMap, updated_at: i64) -> (r: FieldMap)
    ensures
        r.map() == fields.map().insert(updated_at_field(), int_text(updated_at as int)),
{
    let mut r = fields;
    r.insert(string_from_chars(&str_chars("_updated_at")), i64_to_string(updated_at));
    r
}

/// A key with a deadline has expired once `now` reaches it.
pub fn is_expired(expires_at: Option<i64>, now: i64) -> (r: bool)
    ensures
        r == (expires_at is Some && now >= expires_at->Some_0),
{
    match expires_at {
        Some(at) => now >= at,
        None => false,
    }
}

/// Milliseconds a key has left, for a key with a deadline.
pub fn remaining_ttl(expires_at: Option<i64>, now: i64) -> (r: Option<i64>)
    requires
        expires_at is Some ==> i64::MIN <= expires_at->Some_0 - now <= i64::MAX,
    ensures
        match expires_at {
            Some(at) => r == Some((at - now) as i64),
            None => r is None,
        },
{
    match expires_at {
        Some(at) => Some(at - now),
        None => None,
    }
}

/// The deadline of a key given `ttl_ms` at `now`.
pub fn expiry_deadline(now: i64, ttl_ms: i64) -> (r: i64)
    requires
        i64::MIN <= now + ttl_ms <= i64::MAX,
    ensures
        r == now + ttl_ms,
{
    now + ttl_ms
}

/// What a scan does with a key it found.
pub enum ScanChoice {
    /// The key does not match the pattern.
    Skip,
    /// A merged row's name: reported as it is.
    Keep,
    /// A plain key: reported unless it has expired.
    KeepIfLive,
}

/// The scan's decision for one key: unmatched keys are skipped, merged-row
/// names are kept, plain keys are kept if they have not expired.
pub fn scan_choice(pattern: &str, key: &str) -> (r: ScanChoice)
    ensures
        match r {
            ScanChoice::Skip => !glob_spec(pattern@, key@),
            ScanChoice::Keep => glob_spec(pattern@, key@) && "entry:"@.is_prefix_of(key@),
            ScanChoice::KeepIfLive => glob_spec(pattern@, key@) && !"entry:"@.is_prefix_of(key@),
        },
{
    if !glob_match(pattern, key) {
        ScanChoice::Skip
    } else if has_prefix(&str_chars(key), "entry:") {
        ScanChoice::Keep
    } else {
        ScanChoice::KeepIfLive
    }
}

} // verus!
