//! Write-behind cache for plain keys: writes land in memory at once and are
//! queued for the store, repeated writes of one key sharing one queue slot.
use vstd::prelude::*;
use crate::fieldmap::TextMap;

verus! {

/// Writes applied in order to a key/value map.
pub open spec fn apply_writes(db: Map<Seq<char>, Seq<char>>, ws: Seq<(Seq<char>, Seq<char>)>) -> Map<
    Seq<char>,
    Seq<char>,
>
    decreases ws.len(),
{
    if ws.len() == 0 {
        db
    } else {
        apply_writes(db, ws.drop_last()).insert(ws.last().0, ws.last().1)
    }
}

/// `i` is the last slot of the queue that writes `k`.
pub open spec fn last_slot(ws: Seq<(Seq<char>, Seq<char>)>, k: Seq<char>, i: int) -> bool {
    &&& 0 <= i < ws.len()
    &&& ws[i].0 == k
    &&& forall|j: int| i < j < ws.len() ==> #[trigger] ws[j].0 != k
}

/// Some slot of the queue writes `k`.
pub open spec fn queued(ws: Seq<(Seq<char>, Seq<char>)>, k: Seq<char>) -> bool {
    exists|i: int| 0 <= i < ws.len() && #[trigger] ws[i].0 == k
}

/// Queued writes as texts.
pub open spec fn writes_view(ws: Seq<(String, String)>) -> Seq<(Seq<char>, Seq<char>)> {
    ws.map_values(|w: (String, String)| (w.0@, w.1@))
}

/// Overwriting the last write of `k` with a new value is the same, flushed,
/// as writing the new value after the whole queue.
pub proof fn lemma_overwrite_last_slot(
    db: Map<Seq<char>, Seq<char>>,
    ws: Seq<(Seq<char>, Seq<char>)>,
    k: Seq<char>,
    v: Seq<char>,
    i: int,
)
    requires
        last_slot(ws, k, i),
    ensures
        apply_writes(db, ws.update(i, (k, v))) == apply_writes(db, ws).insert(k, v),
    decreases ws.len(),
{
    let u = ws.update(i, (k, v));
    assert(u.drop_last() =~= if i == ws.len() - 1 {
        ws.drop_last()
    } else {
        ws.drop_last().update(i, (k, v))
    });
    if i == ws.len() - 1 {
        assert(apply_writes(db, u) =~= apply_writes(db, ws).insert(k, v));
    } else {
        lemma_overwrite_last_slot(db, ws.drop_last(), k, v, i);
        assert(ws.last().0 != k);
        assert(apply_writes(db, u) =~= apply_writes(db, ws).insert(k, v));
    }
}

/// The queue's writes to `k` end with the one in its last slot, and keys the
/// queue does not write keep what the store held.
pub proof fn lemma_apply_writes_at(db: Map<Seq<char>, Seq<char>>, ws: Seq<(Seq<char>, Seq<char>)>, k: Seq<char>)
    ensures
        !queued(ws, k) ==> (apply_writes(db, ws).contains_key(k) == db.contains_key(k) && apply_writes(
            db,
            ws,
        )[k] == db[k]),
        forall|i: int| #[trigger] last_slot(ws, k, i) ==> apply_writes(db, ws).contains_key(k) && apply_writes(
            db,
            ws,
        )[k] == ws[i].1,
    decreases ws.len(),
{
    if ws.len() > 0 {
        let init = ws.drop_last();
        lemma_apply_writes_at(db, init, k);
        if !queued(ws, k) {
            assert(!queued(init, k)) by {
                if queued(init, k) {
                    let j = choose|j: int| 0 <= j < init.len() && #[trigger] init[j].0 == k;
                    assert(ws[j].0 == k);
                }
            }
            assert(ws[ws.len() - 1].0 != k);
        }
        assert forall|i: int| #[trigger] last_slot(ws, k, i) implies apply_writes(db, ws).contains_key(k)
            && apply_writes(db, ws)[k] == ws[i].1 by {
            if i < ws.len() - 1 {
                assert(ws[ws.len() - 1].0 != k);
                assert(last_slot(init, k, i)) by {
                    assert forall|j: int| i < j < init.len() implies #[trigger] init[j].0 != k by {
                        assert(init[j] == ws[j]);
                    }
                }
            }
        }
    }
}

/// Write-behind is faithful: flushing the queue into any store leaves every
/// queued key holding the value the cache serves for it, and every other key
/// as the store had it.
pub proof fn lemma_flush_writes_cached_values(c: KvCache, db: Map<Seq<char>, Seq<char>>, k: Seq<char>)
    requires
        c.wf(),
    ensures
        queued(c.pending_view(), k) ==> apply_writes(db, c.pending_view()).contains_key(k) && apply_writes(
            db,
            c.pending_view(),
        )[k] == c.map.map()[k],
        !queued(c.pending_view(), k) ==> apply_writes(db, c.pending_view()).contains_key(k) == db.contains_key(k)
            && apply_writes(db, c.pending_view())[k] == db[k],
{
    lemma_apply_writes_at(db, c.pending_view(), k);
    if queued(c.pending_view(), k) {
        assert(c.pending_index.map().contains_key(k));
        let i = c.pending_index.map()[k] as int;
        assert(last_slot(c.pending_view(), k, i));
    }
}

/// What the cache knows of a key at a given time.
pub enum KvLookup {
    /// The key carries a deadline that has passed.
    Expired,
    /// This session wrote the key; its value.
    Hit(String),
    /// The cache knows nothing of the key; the store decides.
    Miss,
}

/// Write-behind cache for the kv table. `map` holds every value this session
/// wrote, `pending` the writes not yet flushed in order, `pending_index` the
/// last queue slot of each queued key, `ttl` the deadlines this session set.
pub struct KvCache {
    pub map: TextMap<String>,
    /// expires_at for keys this session knows have TTLs (mirrors key_ttl).
    pub ttl: TextMap<i64>,
    pub pending: Vec<(String, String)>,
    /// key -> slot in pending, for last-write-wins coalescing.
    pub pending_index: TextMap<usize>,
    /// pending size that triggers a synchronous flush.
    pub high_water: usize,
    /// coalesce repeated sets of one key into a single pending slot.
    pub coalesce: bool,
}

impl KvCache {
    /// The cache is consistent: the index holds exactly the queued keys, each
    /// with its last slot, the cached value of a queued key is its last
    /// queued value, and the high-water mark is at least one.
    pub open spec fn wf(&self) -> bool {
        let pv = writes_view(self.pending@);
        &&& forall|k: Seq<char>| #[trigger]
            self.pending_index.map().contains_key(k) <==> queued(pv, k)
        &&& forall|k: Seq<char>| #[trigger]
            self.pending_index.map().contains_key(k) ==> last_slot(
                pv,
                k,
                self.pending_index.map()[k] as int,
            ) && self.map.map().contains_key(k) && self.map.map()[k] == pv[self.pending_index.map()[k] as int].1
        &&& self.high_water >= 1
    }

    /// The queued writes as texts.
    pub open spec fn pending_view(&self) -> Seq<(Seq<char>, Seq<char>)> {
        writes_view(self.pending@)
    }

    /// An empty cache: flush at 256 queued writes, coalescing on.
    pub fn new() -> (c: KvCache)
        ensures
            c.wf(),
            c.map.map() == Map::<Seq<char>, Seq<char>>::empty(),
            c.ttl.map() == Map::<Seq<char>, i64>::empty(),
            c.pending_view() == Seq::<(Seq<char>, Seq<char>)>::empty(),
            c.high_water == 256,
            c.coalesce,
    {
        let c = KvCache {
            map: TextMap::new(),
            ttl: TextMap::new(),
            pending: Vec::new(),
            pending_index: TextMap::new(),
            high_water: 256,
            coalesce: true,
        };
        assert(c.pending_view() =~= Seq::<(Seq<char>, Seq<char>)>::empty());
        c
    }

    /// Records a write of `key`: the cache serves the new value at once, any
    /// deadline of the key is dropped, and the write is queued: when
    /// coalescing and the key is queued, its last slot is overwritten in
    /// place, otherwise the write is appended. Flushed, the new queue writes
    /// what the old one wrote and then `key`.
    pub fn record_set(&mut self, key: String, value: String)
        requires
            old(self).wf(),
        ensures
            final(self).wf(),
            final(self).map.map() == old(self).map.map().insert(key@, value@),
            final(self).ttl.map() == old(self).ttl.map().remove(key@),
            final(self).high_water == old(self).high_water,
            final(self).coalesce == old(self).coalesce,
            forall|db: Map<Seq<char>, Seq<char>>| #[trigger]
                apply_writes(db, final(self).pending_view()) == apply_writes(
                    db,
                    old(self).pending_view(),
                ).insert(key@, value@),
            final(self).pending_view() == if old(self).coalesce && queued(old(self).pending_view(), key@) {
                old(self).pending_view().update(
                    old(self).pending_index.map()[key@] as int,
                    (key@, value@),
                )
            } else {
                old(self).pending_view().push((key@, value@))
            },
            final(self).pending_index.map() == if old(self).coalesce && queued(
                old(self).pending_view(),
                key@,
            ) {
                old(self).pending_index.map()
            } else {
                old(self).pending_index.map().insert(key@, old(self).pending@.len() as usize)
            },
    {
        let ghost pv0 = self.pending_view();
        let ghost kv = key@;
        let ghost vv = value@;
        self.ttl.remove(key.as_str());
        let slot = if self.coalesce {
            match self.pending_index.get(key.as_str()) {
                Some(i) => Some(*i),
                None => None,
            }
        } else {
            None
        };
        match slot {
            Some(i) => {
                proof {
                    assert(last_slot(pv0, kv, i as int));
                }
                self.pending.set(i, (key.clone(), value.clone()));
                self.map.insert(key, value);
                proof {
                    let pv = self.pending_view();
                    assert(pv =~= pv0.update(i as int, (kv, vv)));
                    assert forall|db: Map<Seq<char>, Seq<char>>| #[trigger]
                        apply_writes(db, pv) == apply_writes(db, pv0).insert(kv, vv) by {
                        lemma_overwrite_last_slot(db, pv0, kv, vv, i as int);
                    }
                    assert forall|k: Seq<char>| #[trigger]
                        self.pending_index.map().contains_key(k) <==> queued(pv, k) by {
                        if queued(pv0, k) {
                            let j = choose|j: int| 0 <= j < pv0.len() && #[trigger] pv0[j].0 == k;
                            if j == i {
                                assert(pv[j].0 == k);
                            } else {
                                assert(pv[j] == pv0[j]);
                            }
                        }
                        if queued(pv, k) {
                            let j = choose|j: int| 0 <= j < pv.len() && #[trigger] pv[j].0 == k;
                            if j != i {
                                assert(pv[j] == pv0[j]);
                            } else {
                                assert(pv0[i as int].0 == k);
                            }
                        }
                    }
                    assert forall|k: Seq<char>| #[trigger]
                        self.pending_index.map().contains_key(k) implies last_slot(
                        pv,
                        k,
                        self.pending_index.map()[k] as int,
                    ) && self.map.map().contains_key(k) && self.map.map()[k]
                        == pv[self.pending_index.map()[k] as int].1 by {
                        let x = self.pending_index.map()[k] as int;
                        assert(last_slot(pv0, k, x));
                        assert forall|j: int| x < j < pv.len() implies #[trigger] pv[j].0 != k by {
                            if j != i {
                                assert(pv[j] == pv0[j]);
                            }
                        }
                    }
                }
            },
            None => {
                let n = self.pending.len();
                self.pending.push((key.clone(), value.clone()));
                self.pending_index.insert(key.clone(), n);
                self.map.insert(key, value);
                proof {
                    let pv = self.pending_view();
                    assert(pv =~= pv0.push((kv, vv)));
                    assert(pv.drop_last() =~= pv0);
                    assert forall|k: Seq<char>| #[trigger]
                        self.pending_index.map().contains_key(k) <==> queued(pv, k) by {
                        if queued(pv0, k) {
                            let j = choose|j: int| 0 <= j < pv0.len() && #[trigger] pv0[j].0 == k;
                            assert(pv[j].0 == k);
                        }
                        if queued(pv, k) {
                            let j = choose|j: int| 0 <= j < pv.len() && #[trigger] pv[j].0 == k;
                            if j < n {
                                assert(pv0[j].0 == k);
                            }
                        }
                        if k == kv {
                            assert(pv[n as int].0 == k);
                        }
                    }
                    assert forall|k: Seq<char>| #[trigger]
                        self.pending_index.map().contains_key(k) implies last_slot(
                        pv,
                        k,
                        self.pending_index.map()[k] as int,
                    ) && self.map.map().contains_key(k) && self.map.map()[k]
                        == pv[self.pending_index.map()[k] as int].1 by {
                        if k != kv {
                            let x = self.pending_index.map()[k] as int;
                            assert(last_slot(pv0, k, x));
                            assert(pv[x] == pv0[x]);
                        }
                    }
                }
            },
        }
    }

    /// Whether the queue has reached the high-water mark.
    pub fn needs_flush(&self) -> (r: bool)
        ensures
            r == (self.pending@.len() >= self.high_water),
    {
        self.pending.len() >= self.high_water
    }

    /// The queued writes, in order, for a flush.
    pub fn pending_writes(&self) -> (r: &Vec<(String, String)>)
        ensures
            writes_view(r@) == self.pending_view(),
    {
        &self.pending
    }

    /// Empties the queue after a flush wrote it; the cached values stay.
    pub fn clear_pending(&mut self)
        requires
            old(self).wf(),
        ensures
            final(self).wf(),
            final(self).pending_view() == Seq::<(Seq<char>, Seq<char>)>::empty(),
            final(self).map == old(self).map,
            final(self).ttl == old(self).ttl,
            final(self).high_water == old(self).high_water,
            final(self).coalesce == old(self).coalesce,
    {
        self.pending = Vec::new();
        self.pending_index = TextMap::new();
        assert(self.pending_view() =~= Seq::<(Seq<char>, Seq<char>)>::empty());
    }

    /// Sets the high-water mark, at least one.
    pub fn set_high_water(&mut self, high_water: usize)
        requires
            old(self).wf(),
        ensures
            final(self).wf(),
            final(self).high_water == if high_water < 1 {
                1
            } else {
                high_water
            },
            final(self).coalesce == old(self).coalesce,
            final(self).map == old(self).map,
            final(self).ttl == old(self).ttl,
            final(self).pending_view() == old(self).pending_view(),
    {
        self.high_water = if high_water < 1 {
            1
        } else {
            high_water
        };
    }

    /// Turns coalescing of repeated writes on or off.
    pub fn set_coalesce(&mut self, coalesce: bool)
        requires
            old(self).wf(),
        ensures
            final(self).wf(),
            final(self).coalesce == coalesce,
            final(self).high_water == old(self).high_water,
            final(self).map == old(self).map,
            final(self).ttl == old(self).ttl,
            final(self).pending_view() == old(self).pending_view(),
    {
        self.coalesce = coalesce;
    }

    /// Records that `key` expires at `expires_at`.
    pub fn note_ttl(&mut self, key: String, expires_at: i64)
        requires
            old(self).wf(),
        ensures
            final(self).wf(),
            final(self).ttl.map() == old(self).ttl.map().insert(key@, expires_at),
            final(self).map == old(self).map,
            final(self).pending_view() == old(self).pending_view(),
            final(self).high_water == old(self).high_water,
            final(self).coalesce == old(self).coalesce,
    {
        self.ttl.insert(key, expires_at);
    }

    /// Forgets any deadline of `key` (a hash write clears it).
    pub fn clear_ttl(&mut self, key: &str)
        requires
            old(self).wf(),
        ensures
            final(self).wf(),
            final(self).ttl.map() == old(self).ttl.map().remove(key@),
            final(self).map == old(self).map,
            final(self).pending_view() == old(self).pending_view(),
            final(self).high_water == old(self).high_water,
            final(self).coalesce == old(self).coalesce,
    {
        self.ttl.remove(key);
    }

    /// Forgets `key` entirely (it was deleted or expired in the store) once
    /// no write of it is queued.
    pub fn forget(&mut self, key: &str)
        requires
            old(self).wf(),
            !queued(old(self).pending_view(), key@),
        ensures
            final(self).wf(),
            final(self).map.map() == old(self).map.map().remove(key@),
            final(self).ttl.map() == old(self).ttl.map().remove(key@),
            final(self).pending_view() == old(self).pending_view(),
            final(self).high_water == old(self).high_water,
            final(self).coalesce == old(self).coalesce,
    {
        self.map.remove(key);
        self.ttl.remove(key);
    }

    /// Whether a write of `key` is queued.
    pub fn is_queued(&self, key: &str) -> (r: bool)
        requires
            self.wf(),
        ensures
            r == queued(self.pending_view(), key@),
    {
        self.pending_index.contains_key(key)
    }

    /// What the cache knows of `key` at `now`: expired once `now` reaches the
    /// key's deadline, else the value this session wrote, else nothing.
    pub fn lookup(&self, key: &str, now: i64) -> (r: KvLookup)
        ensures
            match r {
                KvLookup::Expired => self.ttl.map().contains_key(key@) && now >= self.ttl.map()[key@],
                KvLookup::Hit(v) => !(self.ttl.map().contains_key(key@) && now >= self.ttl.map()[key@])
                    && self.map.map().contains_key(key@) && v@ == self.map.map()[key@],
                KvLookup::Miss => !(self.ttl.map().contains_key(key@) && now >= self.ttl.map()[key@])
                    && !self.map.map().contains_key(key@),
            },
    {
        if let Some(at) = self.ttl.get(key) {
            if now >= *at {
                return KvLookup::Expired;
            }
        }
        match self.map.get(key) {
            Some(v) => KvLookup::Hit(v.clone()),
            None => KvLookup::Miss,
        }
    }
}

/// After a write, the cache serves the written value until a deadline is set
/// again: reading back what was written gives it back.
pub proof fn lemma_read_your_write(c: KvCache, c2: KvCache, key: Seq<char>, value: Seq<char>)
    requires
        c2.map.map() == c.map.map().insert(key, value),
        c2.ttl.map() == c.ttl.map().remove(key),
    ensures
        !c2.ttl.map().contains_key(key),
        c2.map.map().contains_key(key) && c2.map.map()[key] == value,
{
}

} // verus!
