//! An ordered map from field names to field values, ordered by key as
//! `String`'s `Ord` orders them (code point by code point).
use vstd::prelude::*;
use crate::text::str_chars;

verus! {

/// Lexicographic order on texts, comparing code points.
pub open spec fn text_lt(a: Seq<char>, b: Seq<char>) -> bool
    decreases a.len(),
{
    if a.len() == 0 {
        b.len() > 0
    } else if b.len() == 0 {
        false
    } else if a[0] != b[0] {
        a[0] < b[0]
    } else {
        text_lt(a.drop_first(), b.drop_first())
    }
}

pub proof fn lemma_text_lt_irreflexive(a: Seq<char>)
    ensures
        !text_lt(a, a),
    decreases a.len(),
{
    if a.len() > 0 {
        lemma_text_lt_irreflexive(a.drop_first());
    }
}

pub proof fn lemma_text_lt_transitive(a: Seq<char>, b: Seq<char>, c: Seq<char>)
    requires
        text_lt(a, b),
        text_lt(b, c),
    ensures
        text_lt(a, c),
    decreases a.len(),
{
    if a.len() > 0 && b.len() > 0 && c.len() > 0 && a[0] == b[0] && b[0] == c[0] {
        lemma_text_lt_transitive(a.drop_first(), b.drop_first(), c.drop_first());
    }
}

pub proof fn lemma_text_lt_total(a: Seq<char>, b: Seq<char>)
    ensures
        a == b || text_lt(a, b) || text_lt(b, a),
    decreases a.len(),
{
    if a.len() > 0 && b.len() > 0 {
        if a[0] == b[0] {
            lemma_text_lt_total(a.drop_first(), b.drop_first());
            if a.drop_first() == b.drop_first() {
                assert(a =~= seq![a[0]] + a.drop_first());
                assert(b =~= seq![b[0]] + b.drop_first());
            }
        } else {
        }
    } else if a.len() == 0 && b.len() == 0 {
        assert(a =~= b);
    }
}

pub proof fn lemma_text_lt_asymmetric(a: Seq<char>, b: Seq<char>)
    requires
        text_lt(a, b),
    ensures
        !text_lt(b, a),
{
    if text_lt(b, a) {
        lemma_text_lt_transitive(a, b, a);
        lemma_text_lt_irreflexive(a);
    }
}

/// Three-way comparison of two texts: negative, zero or positive.
pub fn compare_text(a: &str, b: &str) -> (r: i8)
    ensures
        r < 0 <==> text_lt(a@, b@),
        r == 0 <==> a@ == b@,
        r > 0 <==> text_lt(b@, a@),
{
    let x = str_chars(a);
    let y = str_chars(b);
    let mut i: usize = 0;
    assert(x@.skip(0) =~= x@);
    assert(y@.skip(0) =~= y@);
    while i < x.len() && i < y.len() && x[i] == y[i]
        invariant
            i <= x.len(),
            i <= y.len(),
            x@.take(i as int) == y@.take(i as int),
            text_lt(x@, y@) == text_lt(x@.skip(i as int), y@.skip(i as int)),
            text_lt(y@, x@) == text_lt(y@.skip(i as int), x@.skip(i as int)),
        decreases x.len() - i,
    {
        assert(x@.skip(i as int).drop_first() =~= x@.skip(i + 1));
        assert(y@.skip(i as int).drop_first() =~= y@.skip(i + 1));
        assert(x@.take(i + 1) =~= x@.take(i as int).push(x@[i as int]));
        assert(y@.take(i + 1) =~= y@.take(i as int).push(y@[i as int]));
        i = i + 1;
    }
    let ghost xs = x@.skip(i as int);
    let ghost ys = y@.skip(i as int);
    if i == x.len() && i == y.len() {
        assert(x@ =~= x@.take(i as int));
        assert(y@ =~= y@.take(i as int));
        proof {
            lemma_text_lt_irreflexive(x@);
        }
        0
    } else if i == x.len() {
        assert(xs.len() == 0 && ys.len() > 0);
        proof {
            if x@ == y@ {
                assert(x@.len() == y@.len());
            }
        }
        -1
    } else if i == y.len() {
        assert(ys.len() == 0 && xs.len() > 0);
        proof {
            if x@ == y@ {
                assert(x@.len() == y@.len());
            }
        }
        1
    } else {
        assert(xs[0] == x@[i as int] && ys[0] == y@[i as int]);
        proof {
            if x@ == y@ {
                assert(x@[i as int] == y@[i as int]);
            }
        }
        if x[i] < y[i] {
            -1
        } else {
            1
        }
    }
}

/// Keys strictly increasing.
pub open spec fn sorted_keys<V>(s: Seq<(Seq<char>, V)>) -> bool {
    forall|i: int, j: int| 0 <= i < j < s.len() ==> text_lt(#[trigger] s[i].0, #[trigger] s[j].0)
}

/// Some entry has this key.
pub open spec fn has_key<V>(s: Seq<(Seq<char>, V)>, k: Seq<char>) -> bool {
    exists|i: int| 0 <= i < s.len() && #[trigger] s[i].0 == k
}

/// The map the entries describe.
pub open spec fn map_of<V>(s: Seq<(Seq<char>, V)>) -> Map<Seq<char>, V> {
    Map::new(
        |k: Seq<char>| has_key(s, k),
        |k: Seq<char>| s[choose|i: int| 0 <= i < s.len() && #[trigger] s[i].0 == k].1,
    )
}

/// With sorted (hence unique) keys, each entry is what the map holds at its key.
pub proof fn lemma_map_of_entry<V>(s: Seq<(Seq<char>, V)>, i: int)
    requires
        sorted_keys(s),
        0 <= i < s.len(),
    ensures
        map_of(s).contains_key(s[i].0),
        map_of(s)[s[i].0] == s[i].1,
{
    assert(has_key(s, s[i].0));
    let j = choose|j: int| 0 <= j < s.len() && #[trigger] s[j].0 == s[i].0;
    if j != i {
        if j < i {
            assert(text_lt(s[j].0, s[i].0));
        } else {
            assert(text_lt(s[i].0, s[j].0));
        }
        lemma_text_lt_irreflexive(s[i].0);
    }
}

/// Dropping the last of sorted entries removes exactly its key from the map.
pub proof fn lemma_map_of_drop_last<V>(s: Seq<(Seq<char>, V)>)
    requires
        sorted_keys(s),
        s.len() > 0,
    ensures
        map_of(s.drop_last()) == map_of(s).remove(s.last().0),
{
    let t = s.drop_last();
    let k = s.last().0;
    assert(sorted_keys(t)) by {
        assert forall|i: int, j: int| 0 <= i < j < t.len() implies text_lt(#[trigger] t[i].0, #[trigger] t[j].0) by {
            assert(t[i] == s[i] && t[j] == s[j]);
        }
    }
    assert forall|key: Seq<char>| #[trigger] map_of(t).contains_key(key) <==> map_of(s).remove(k).contains_key(key) by {
        if has_key(t, key) {
            let i = choose|i: int| 0 <= i < t.len() && #[trigger] t[i].0 == key;
            assert(s[i].0 == key);
            assert(text_lt(s[i].0, s[s.len() - 1].0));
            if key == k {
                lemma_text_lt_irreflexive(k);
            }
        }
        if has_key(s, key) && key != k {
            let i = choose|i: int| 0 <= i < s.len() && #[trigger] s[i].0 == key;
            assert(i != s.len() - 1);
            assert(t[i].0 == key);
        }
    }
    assert forall|key: Seq<char>| #[trigger] map_of(t).contains_key(key) implies map_of(t)[key] == map_of(s).remove(k)[key] by {
        let i = choose|i: int| 0 <= i < t.len() && #[trigger] t[i].0 == key;
        lemma_map_of_entry(t, i);
        lemma_map_of_entry(s, i);
    }
    assert(map_of(t) =~= map_of(s).remove(k));
}

/// Entries in strictly increasing key order are determined by the map they
/// describe: two such entry sequences for one map are the same.
pub proof fn lemma_sorted_entries_determined<V>(s1: Seq<(Seq<char>, V)>, s2: Seq<(Seq<char>, V)>)
    requires
        sorted_keys(s1),
        sorted_keys(s2),
        map_of(s1) == map_of(s2),
    ensures
        s1 == s2,
    decreases s1.len(),
{
    if s1.len() == 0 || s2.len() == 0 {
        if s1.len() > 0 {
            assert(map_of(s1).contains_key(s1[0].0));
        }
        if s2.len() > 0 {
            assert(map_of(s2).contains_key(s2[0].0));
        }
        assert(s1 =~= s2);
    } else {
        let a = s1.last();
        let b = s2.last();
        lemma_map_of_entry(s1, s1.len() - 1);
        lemma_map_of_entry(s2, s2.len() - 1);
        let i = choose|i: int| 0 <= i < s2.len() && #[trigger] s2[i].0 == a.0;
        let j = choose|j: int| 0 <= j < s1.len() && #[trigger] s1[j].0 == b.0;
        if a.0 != b.0 {
            assert(i != s2.len() - 1);
            assert(text_lt(a.0, b.0));
            assert(j != s1.len() - 1);
            assert(text_lt(b.0, a.0));
            lemma_text_lt_asymmetric(a.0, b.0);
        }
        assert(a == b);
        lemma_map_of_drop_last(s1);
        lemma_map_of_drop_last(s2);
        assert(sorted_keys(s1.drop_last())) by {
            assert forall|x: int, y: int| 0 <= x < y < s1.drop_last().len() implies text_lt(#[trigger] s1.drop_last()[x].0, #[trigger] s1.drop_last()[y].0) by {
                assert(s1.drop_last()[x] == s1[x] && s1.drop_last()[y] == s1[y]);
            }
        }
        assert(sorted_keys(s2.drop_last())) by {
            assert forall|x: int, y: int| 0 <= x < y < s2.drop_last().len() implies text_lt(#[trigger] s2.drop_last()[x].0, #[trigger] s2.drop_last()[y].0) by {
                assert(s2.drop_last()[x] == s2[x] && s2.drop_last()[y] == s2[y]);
            }
        }
        lemma_sorted_entries_determined(s1.drop_last(), s2.drop_last());
        assert(s1 =~= s1.drop_last().push(a));
        assert(s2 =~= s2.drop_last().push(b));
    }
}

/// A string-keyed map kept in key order.
#[derive(Debug, PartialEq)]
pub struct TextMap<V: View> {
    entries: Vec<(String, V)>,
}

/// Field names to field values.
pub type FieldMap = TextMap<String>;

impl<V: View> View for TextMap<V> {
    type V = Seq<(Seq<char>, V::V)>;

    closed spec fn view(&self) -> Seq<(Seq<char>, V::V)> {
        self.entries@.map_values(|e: (String, V)| (e.0@, e.1@))
    }
}

impl<V: View> TextMap<V> {
    /// The map the entries describe.
    pub open spec fn map(&self) -> Map<Seq<char>, V::V> {
        map_of(self@)
    }

    /// Keys are strictly increasing.
    #[verifier::type_invariant]
    pub open spec fn keys_sorted(&self) -> bool {
        sorted_keys(self@)
    }

    pub fn new() -> (m: TextMap<V>)
        ensures
            m@ == Seq::<(Seq<char>, V::V)>::empty(),
            m.map() == Map::<Seq<char>, V::V>::empty(),
    {
        let m = TextMap { entries: Vec::new() };
        assert(m@ =~= Seq::<(Seq<char>, V::V)>::empty());
        assert(m.map() =~= Map::<Seq<char>, V::V>::empty());
        m
    }

    /// Number of entries; the entries are in strictly increasing key order.
    pub fn len(&self) -> (n: usize)
        ensures
            n == self@.len(),
            sorted_keys(self@),
    {
        proof {
            use_type_invariant(self);
        }
        self.entries.len()
    }

    /// The keys in increasing order.
    pub fn keys(&self) -> (r: Vec<String>)
        ensures
            r@.len() == self@.len(),
            forall|i: int| 0 <= i < r@.len() ==> #[trigger] r@[i]@ == self@[i].0,
    {
        let mut r: Vec<String> = Vec::new();
        let mut i: usize = 0;
        while i < self.entries.len()
            invariant
                i <= self.entries@.len(),
                self@.len() == self.entries@.len(),
                r@.len() == i,
                forall|j: int| 0 <= j < i ==> #[trigger] r@[j]@ == self@[j].0,
            decreases self.entries.len() - i,
        {
            assert(self@[i as int] == (self.entries@[i as int].0@, self.entries@[i as int].1@));
            r.push(self.entries[i].0.clone());
            i = i + 1;
        }
        r
    }

    /// The key of the `i`-th entry in key order.
    pub fn key_at(&self, i: usize) -> (k: &String)
        requires
            i < self@.len(),
        ensures
            k@ == self@[i as int].0,
    {
        &self.entries[i].0
    }

    /// The value of the `i`-th entry in key order.
    pub fn value_at(&self, i: usize) -> (v: &V)
        requires
            i < self@.len(),
        ensures
            v@ == self@[i as int].1,
    {
        &self.entries[i].1
    }

    /// Position of the first entry whose key is not below `k` (binary search).
    fn lower_bound(&self, k: &str) -> (r: (usize, bool))
        ensures
            r.0 <= self@.len(),
            forall|j: int| 0 <= j < r.0 ==> text_lt(#[trigger] self@[j].0, k@),
            r.0 < self@.len() ==> !text_lt(self@[r.0 as int].0, k@),
            r.1 == (r.0 < self@.len() && self@[r.0 as int].0 == k@),
    {
        proof {
            use_type_invariant(self);
        }
        let ghost v = self@;
        let mut lo: usize = 0;
        let mut hi: usize = self.entries.len();
        while lo < hi
            invariant
                lo <= hi <= v.len(),
                v == self@,
                v.len() == self.entries@.len(),
                sorted_keys(v),
                forall|j: int| 0 <= j < lo ==> text_lt(#[trigger] v[j].0, k@),
                forall|j: int| hi <= j < v.len() ==> !text_lt(#[trigger] v[j].0, k@),
            decreases hi - lo,
        {
            let mid = lo + (hi - lo) / 2;
            assert(v[mid as int] == (self.entries@[mid as int].0@, self.entries@[mid as int].1@));
            let c = compare_text(self.entries[mid].0.as_str(), k);
            if c < 0 {
                proof {
                    assert forall|j: int| 0 <= j < mid + 1 implies text_lt(#[trigger] v[j].0, k@) by {
                        if j < mid {
                            lemma_text_lt_transitive(v[j].0, v[mid as int].0, k@);
                        }
                    }
                }
                lo = mid + 1;
            } else {
                proof {
                    assert forall|j: int| mid <= j < v.len() implies !text_lt(#[trigger] v[j].0, k@) by {
                        if j > mid && text_lt(v[j].0, k@) {
                            lemma_text_lt_transitive(v[mid as int].0, v[j].0, k@);
                        }
                    }
                }
                hi = mid;
            }
        }
        if lo < self.entries.len() {
            assert(v[lo as int] == (self.entries@[lo as int].0@, self.entries@[lo as int].1@));
            let found = compare_text(self.entries[lo].0.as_str(), k) == 0;
            (lo, found)
        } else {
            (lo, false)
        }
    }

    /// The value at `k`, if any.
    pub fn get(&self, k: &str) -> (r: Option<&V>)
        ensures
            match r {
                Some(v) => self.map().contains_key(k@) && self.map()[k@] == v@,
                None => !self.map().contains_key(k@),
            },
    {
        proof {
            use_type_invariant(self);
        }
        let (i, found) = self.lower_bound(k);
        if found {
            proof {
                lemma_map_of_entry(self@, i as int);
            }
            assert(self@[i as int] == (self.entries@[i as int].0@, self.entries@[i as int].1@));
            Some(&self.entries[i].1)
        } else {
            proof {
                if has_key(self@, k@) {
                    let j = choose|j: int| 0 <= j < self@.len() && #[trigger] self@[j].0 == k@;
                    if j < i {
                        assert(text_lt(self@[j].0, k@));
                        lemma_text_lt_irreflexive(k@);
                    } else if j > i {
                        assert(text_lt(self@[i as int].0, self@[j].0));
                        lemma_text_lt_total(self@[i as int].0, k@);
                    }
                }
            }
            None
        }
    }

    /// Whether `k` has an entry.
    pub fn contains_key(&self, k: &str) -> (r: bool)
        ensures
            r == self.map().contains_key(k@),
    {
        self.get(k).is_some()
    }

    /// Removes `k`'s entry, if any.
    pub fn remove(&mut self, k: &str)
        ensures
            final(self).map() == old(self).map().remove(k@),
    {
        proof {
            use_type_invariant(&*self);
        }
        let (i, found) = self.lower_bound(k);
        if !found {
            proof {
                assert(!self.map().contains_key(k@)) by {
                    if has_key(self@, k@) {
                        let j = choose|j: int| 0 <= j < self@.len() && #[trigger] self@[j].0 == k@;
                        if j < i {
                            assert(text_lt(self@[j].0, k@));
                            lemma_text_lt_irreflexive(k@);
                        } else if j > i {
                            assert(text_lt(self@[i as int].0, self@[j].0));
                            lemma_text_lt_total(self@[i as int].0, k@);
                        }
                    }
                }
                assert(self.map().remove(k@) =~= self.map());
            }
            return;
        }
        let ghost s0 = self@;
        let ghost kv = k@;
        let mut entries: Vec<(String, V)> = Vec::new();
        std::mem::swap(&mut entries, &mut self.entries);
        assert(entries@.map_values(|e: (String, V)| (e.0@, e.1@)) == s0);
        let _ = entries.remove(i);
        let ghost s1 = entries@.map_values(|e: (String, V)| (e.0@, e.1@));
        assert(s1 =~= s0.remove(i as int));
        assert(sorted_keys(s1)) by {
            assert forall|a: int, b: int| 0 <= a < b < s1.len() implies text_lt(#[trigger] s1[a].0, #[trigger] s1[b].0) by {
                if a < i && b < i {
                } else if a < i {
                    assert(s1[b] == s0[b + 1]);
                } else {
                    assert(s1[a] == s0[a + 1] && s1[b] == s0[b + 1]);
                }
            }
        }
        assert(map_of(s1) =~= map_of(s0).remove(kv)) by {
            assert forall|key: Seq<char>| #[trigger] map_of(s1).contains_key(key) <==> map_of(s0).remove(kv).contains_key(key) by {
                if has_key(s1, key) {
                    let j = choose|j: int| 0 <= j < s1.len() && #[trigger] s1[j].0 == key;
                    if j < i {
                        assert(s0[j].0 == key);
                        assert(text_lt(s0[j].0, s0[i as int].0));
                        if key == kv {
                            lemma_text_lt_irreflexive(kv);
                        }
                    } else {
                        assert(s0[j + 1].0 == key);
                        assert(text_lt(s0[i as int].0, s0[j + 1].0));
                        if key == kv {
                            lemma_text_lt_irreflexive(kv);
                        }
                    }
                }
                if has_key(s0, key) && key != kv {
                    let j = choose|j: int| 0 <= j < s0.len() && #[trigger] s0[j].0 == key;
                    if j < i {
                        assert(s1[j].0 == key);
                    } else if j > i {
                        assert(s1[j - 1].0 == key);
                    }
                }
            }
            assert forall|key: Seq<char>| #[trigger] map_of(s1).contains_key(key) implies map_of(s1)[key] == map_of(s0).remove(kv)[key] by {
                let j = choose|j: int| 0 <= j < s1.len() && #[trigger] s1[j].0 == key;
                lemma_map_of_entry(s1, j);
                if j < i {
                    lemma_map_of_entry(s0, j);
                } else {
                    lemma_map_of_entry(s0, j + 1);
                }
            }
        }
        self.entries = entries;
    }

    /// Sets `k` to `v`, replacing any previous value.
    pub fn insert(&mut self, k: String, v: V)
        ensures
            final(self).map() == old(self).map().insert(k@, v@),
    {
        proof {
            use_type_invariant(&*self);
        }
        let (i, found) = self.lower_bound(k.as_str());
        let ghost s0 = self@;
        let ghost kv = k@;
        let ghost vv = v@;
        let mut entries: Vec<(String, V)> = Vec::new();
        std::mem::swap(&mut entries, &mut self.entries);
        assert(entries@.map_values(|e: (String, V)| (e.0@, e.1@)) == s0);
        if found {
            entries.set(i, (k, v));
            let ghost s1 = entries@.map_values(|e: (String, V)| (e.0@, e.1@));
            assert(s1 =~= s0.update(i as int, (kv, vv)));
            assert(sorted_keys(s1)) by {
                assert forall|a: int, b: int| 0 <= a < b < s1.len() implies text_lt(#[trigger] s1[a].0, #[trigger] s1[b].0) by {
                    assert(s0[a].0 == s1[a].0 || a == i);
                    assert(s0[b].0 == s1[b].0 || b == i);
                }
            }
            assert(map_of(s1) =~= map_of(s0).insert(kv, vv)) by {
                assert forall|key: Seq<char>| #[trigger] map_of(s1).contains_key(key) <==> map_of(s0).insert(kv, vv).contains_key(key) by {
                    if has_key(s1, key) {
                        let j = choose|j: int| 0 <= j < s1.len() && #[trigger] s1[j].0 == key;
                        assert(s0[j].0 == key);
                    }
                    if has_key(s0, key) {
                        let j = choose|j: int| 0 <= j < s0.len() && #[trigger] s0[j].0 == key;
                        assert(s1[j].0 == key);
                    }
                    if key == kv {
                        assert(s1[i as int].0 == key);
                    }
                }
                assert forall|key: Seq<char>| #[trigger] map_of(s1).contains_key(key) implies map_of(s1)[key] == map_of(s0).insert(kv, vv)[key] by {
                    let j = choose|j: int| 0 <= j < s1.len() && #[trigger] s1[j].0 == key;
                    lemma_map_of_entry(s1, j);
                    if j != i {
                        lemma_map_of_entry(s0, j);
                    }
                }
            }
            self.entries = entries;
        } else {
            entries.insert(i, (k, v));
            let ghost s1 = entries@.map_values(|e: (String, V)| (e.0@, e.1@));
            assert(s1 =~= s0.insert(i as int, (kv, vv)));
            assert(sorted_keys(s1)) by {
                assert forall|a: int, b: int| 0 <= a < b < s1.len() implies text_lt(#[trigger] s1[a].0, #[trigger] s1[b].0) by {
                    if a < i && b == i {
                    } else if a == i && b > i {
                        assert(s1[b] == s0[b - 1]);
                        if b - 1 > i {
                            assert(text_lt(s0[i as int].0, s0[b - 1].0));
                        }
                        lemma_text_lt_total(s0[i as int].0, kv);
                        if text_lt(s0[i as int].0, kv) {
                        } else if s0[i as int].0 == kv {
                        } else if b - 1 > i {
                            lemma_text_lt_transitive(kv, s0[i as int].0, s0[b - 1].0);
                        }
                    } else if a < i && b > i {
                        assert(s1[b] == s0[b - 1]);
                        assert(text_lt(s0[a].0, s0[b - 1].0));
                    } else if a > i {
                        assert(s1[a] == s0[a - 1] && s1[b] == s0[b - 1]);
                    }
                }
            }
            assert(map_of(s1) =~= map_of(s0).insert(kv, vv)) by {
                assert forall|key: Seq<char>| #[trigger] map_of(s1).contains_key(key) <==> map_of(s0).insert(kv, vv).contains_key(key) by {
                    if has_key(s1, key) {
                        let j = choose|j: int| 0 <= j < s1.len() && #[trigger] s1[j].0 == key;
                        if j < i {
                            assert(s0[j].0 == key);
                        } else if j > i {
                            assert(s0[j - 1].0 == key);
                        }
                    }
                    if has_key(s0, key) {
                        let j = choose|j: int| 0 <= j < s0.len() && #[trigger] s0[j].0 == key;
                        if j < i {
                            assert(s1[j].0 == key);
                        } else {
                            assert(s1[j + 1].0 == key);
                        }
                    }
                    if key == kv {
                        assert(s1[i as int].0 == key);
                    }
                }
                assert forall|key: Seq<char>| #[trigger] map_of(s1).contains_key(key) implies map_of(s1)[key] == map_of(s0).insert(kv, vv)[key] by {
                    let j = choose|j: int| 0 <= j < s1.len() && #[trigger] s1[j].0 == key;
                    lemma_map_of_entry(s1, j);
                    if j < i {
                        lemma_map_of_entry(s0, j);
                        assert(text_lt(s1[j].0, s1[i as int].0));
                        if key == kv {
                            lemma_text_lt_irreflexive(kv);
                        }
                    } else if j > i {
                        lemma_map_of_entry(s0, j - 1);
                        assert(text_lt(s1[i as int].0, s1[j].0));
                        if key == kv {
                            lemma_text_lt_irreflexive(kv);
                        }
                    }
                }
            }
            self.entries = entries;
        }
    }
}

impl TextMap<String> {
    /// A copy with the same entries.
    pub fn copy(&self) -> (r: TextMap<String>)
        ensures
            r@ == self@,
    {
        proof {
            use_type_invariant(self);
        }
        let mut entries: Vec<(String, String)> = Vec::new();
        let mut i: usize = 0;
        while i < self.entries.len()
            invariant
                i <= self.entries@.len(),
                entries@.len() == i,
                forall|j: int| 0 <= j < i ==> (#[trigger] entries@[j]).0@ == self.entries@[j].0@
                    && entries@[j].1@ == self.entries@[j].1@,
            decreases self.entries.len() - i,
        {
            entries.push((self.entries[i].0.clone(), self.entries[i].1.clone()));
            i = i + 1;
        }
        assert(entries@.map_values(|e: (String, String)| (e.0@, e.1@)) =~= self@);
        let r = TextMap { entries };
        r
    }
}

} // verus!
