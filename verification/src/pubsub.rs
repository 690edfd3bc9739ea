use vstd::prelude::*;
use crate::glob::{glob_match, glob_spec};

verus! {

/// Holds the user's delivery callback, a boxed `Fn(&str, &str) + Send`.
/// Verus cannot name a trait object, so the box stays behind this opaque holder.
#[verifier::external_body]
pub struct SinkSlot {
    f: Box<dyn Fn(&str, &str) + Send>,
}

/// Boxes the user's callback into a holder; nothing is called.
#[verifier::external_body]
fn hold_sink<F: Fn(&str, &str) + Send + 'static>(f: F) -> SinkSlot {
    SinkSlot { f: Box::new(f) }
}

/// One active subscription: its id and its glob pattern.
pub struct Sub {
    pub id: u64,
    pub pattern: String,
}

/// Glob-pattern subscriptions with a single delivery sink.
pub struct PubSub {
    subs: Vec<Sub>,
    next_id: u64,
    sink: Option<SinkSlot>,
}

/// Invokes the user's callback once with `(channel, payload)`; what the
/// callback does is the user's, so nothing is promised of it.
#[verifier::external_body]
fn call_sink(slot: &SinkSlot, channel: &str, payload: &str) {
    (slot.f)(channel, payload)
}

/// Ids strictly increase along the subscriptions.
spec fn ids_increasing(subs: Seq<Sub>) -> bool {
    forall|i: int, j: int| 0 <= i < j < subs.len() ==> #[trigger] subs[i].id < #[trigger] subs[j].id
}

/// Number of subscriptions (given as `(id, pattern)`) whose pattern matches `channel`.
pub open spec fn match_count(subs: Seq<(u64, Seq<char>)>, channel: Seq<char>) -> nat
    decreases subs.len(),
{
    if subs.len() == 0 {
        0
    } else {
        match_count(subs.drop_last(), channel) + if glob_spec(subs.last().1, channel) {
            1nat
        } else {
            0nat
        }
    }
}

impl PubSub {
    /// The active subscriptions, oldest first, as `(id, pattern)`.
    pub closed spec fn subs_view(&self) -> Seq<(u64, Seq<char>)> {
        self.subs@.map_values(|s: Sub| (s.id, s.pattern@))
    }

    /// The id the next subscription will receive.
    pub closed spec fn spec_next_id(&self) -> u64 {
        self.next_id
    }

    /// Whether a sink is installed.
    pub closed spec fn has_sink(&self) -> bool {
        self.sink is Some
    }

    /// Ids are strictly increasing in subscription order and all below the next id.
    #[verifier::type_invariant]
    spec fn wf(&self) -> bool {
        &&& self.next_id >= 1
        &&& ids_increasing(self.subs@)
        &&& forall|i: int| 0 <= i < self.subs@.len() ==> #[trigger] self.subs@[i].id < self.next_id
    }

    /// No subscriptions, next id 1, no sink.
    pub fn new() -> (ps: PubSub)
        ensures
            ps.subs_view() == Seq::<(u64, Seq<char>)>::empty(),
            ps.spec_next_id() == 1,
            !ps.has_sink(),
    {
        let ps = PubSub { subs: Vec::new(), next_id: 1, sink: None };
        assert(ps.subs_view() =~= Seq::<(u64, Seq<char>)>::empty());
        ps
    }

    /// Installs (or replaces) the delivery sink.
    pub fn set_sink<F: Fn(&str, &str) + Send + 'static>(&mut self, sink: F)
        ensures
            final(self).subs_view() == old(self).subs_view(),
            final(self).spec_next_id() == old(self).spec_next_id(),
            final(self).has_sink(),
    {
        proof {
            use_type_invariant(&*self);
        }
        self.sink = Some(hold_sink(sink));
    }

    /// The id the next subscription will receive.
    pub fn next_id(&self) -> (n: u64)
        ensures
            n == self.spec_next_id(),
    {
        self.next_id
    }

    /// Adds a subscription and returns its id, which is the previous next id
    /// and above every id already given out.
    pub fn subscribe(&mut self, pattern: &str) -> (id: u64)
        requires
            old(self).spec_next_id() < u64::MAX,
        ensures
            id == old(self).spec_next_id(),
            id >= 1,
            forall|i: int|
                0 <= i < old(self).subs_view().len() ==> #[trigger] old(self).subs_view()[i].0 < id,
            final(self).spec_next_id() == id + 1,
            final(self).subs_view() == old(self).subs_view().push((id, pattern@)),
            final(self).has_sink() == old(self).has_sink(),
    {
        proof {
            use_type_invariant(&*self);
        }
        let id = self.next_id;
        self.next_id = self.next_id + 1;
        let ghost before = self.subs@;
        let mut subs: Vec<Sub> = Vec::new();
        std::mem::swap(&mut subs, &mut self.subs);
        subs.push(Sub { id, pattern: pattern.to_string() });
        self.subs = subs;
        assert(self.subs@ =~= before.push(Sub { id, pattern: self.subs@.last().pattern }));
        assert(self.subs_view() =~= old(self).subs_view().push((id, pattern@)));
        id
    }

    /// Removes every subscription with this id; true when one was removed.
    pub fn unsubscribe(&mut self, id: u64) -> (removed: bool)
        ensures
            final(self).subs_view() == old(self).subs_view().filter(
                |s: (u64, Seq<char>)| s.0 != id,
            ),
            removed == exists|i: int|
                0 <= i < old(self).subs_view().len() && #[trigger] old(self).subs_view()[i].0
                    == id,
            final(self).spec_next_id() == old(self).spec_next_id(),
            final(self).has_sink() == old(self).has_sink(),
    {
        proof {
            use_type_invariant(&*self);
        }
        let ghost pred = |s: (u64, Seq<char>)| s.0 != id;
        let ghost view0 = self.subs_view();
        let mut kept: Vec<Sub> = Vec::new();
        let mut found = false;
        assert(kept@.map_values(|s: Sub| (s.id, s.pattern@)) =~= view0.take(0).filter(pred)) by {
            reveal_with_fuel(Seq::filter, 1);
            assert(view0.take(0) =~= Seq::<(u64, Seq<char>)>::empty());
        }
        let mut i: usize = 0;
        while i < self.subs.len()
            invariant
                i <= self.subs.len(),
                view0 == self.subs_view(),
                pred == (|s: (u64, Seq<char>)| s.0 != id),
                kept@.map_values(|s: Sub| (s.id, s.pattern@)) =~= view0.take(i as int).filter(pred),
                found == exists|k: int| 0 <= k < i && #[trigger] view0[k].0 == id,
            decreases self.subs.len() - i,
        {
            proof {
                assert(view0.take(i + 1).drop_last() =~= view0.take(i as int));
                reveal_with_fuel(Seq::filter, 1);
            }
            let sid = self.subs[i].id;
            assert(view0[i as int] == (self.subs@[i as int].id, self.subs@[i as int].pattern@));
            if sid != id {
                assert(pred(view0[i as int]));
                assert(view0.take(i + 1).filter(pred) == view0.take(i as int).filter(pred).push(view0[i as int])) by {
                    reveal_with_fuel(Seq::filter, 1);
                    assert(view0.take(i + 1).last() == view0[i as int]);
                }
                let ghost before = kept@;
                kept.push(Sub { id: sid, pattern: self.subs[i].pattern.clone() });
                assert(kept@.map_values(|s: Sub| (s.id, s.pattern@)) =~= before.map_values(|s: Sub| (s.id, s.pattern@)).push(view0[i as int]));
            } else {
                found = true;
                assert(view0[i as int].0 == id);
                assert(!pred(view0[i as int]));
                assert(view0.take(i + 1).filter(pred) == view0.take(i as int).filter(pred)) by {
                    reveal_with_fuel(Seq::filter, 1);
                    assert(view0.take(i + 1).last() == view0[i as int]);
                }
            }
            i = i + 1;
        }
        proof {
            assert(view0.take(i as int) =~= view0);
        }
        proof {
            let nv = kept@.map_values(|s: Sub| (s.id, s.pattern@));
            assert(nv =~= view0.filter(pred));
            assert forall|i: int, j: int| 0 <= i < j < kept@.len() implies #[trigger] kept@[i].id
                < #[trigger] kept@[j].id by {
                assert(nv[i].0 == kept@[i].id && nv[j].0 == kept@[j].id);
                assert forall|a: int, b: int| 0 <= a < b < view0.len() implies #[trigger] view0[a].0
                    < #[trigger] view0[b].0 by {
                    assert(view0[a].0 == self.subs@[a].id && view0[b].0 == self.subs@[b].id);
                }
                lemma_filter_keeps_increasing(view0, pred, i, j);
            }
            assert forall|i: int| 0 <= i < kept@.len() implies #[trigger] kept@[i].id < self.next_id by {
                assert(nv[i].0 == kept@[i].id);
                lemma_filter_member(view0, pred, i);
                let k = choose|k: int| 0 <= k < view0.len() && view0[k] == view0.filter(pred)[i];
                assert(view0[k].0 == self.subs@[k].id);
            }
        }
        self.subs = kept;
        found
    }

    /// How many subscriptions match `channel`; when at least one does and a
    /// sink is installed, the sink receives the message exactly once.
    pub fn publish(&self, channel: &str, payload: &str) -> (n: u32)
        ensures
            n == match_count(self.subs_view(), channel@) as u32,
    {
        let count = self.count_matches(channel);
        let n = count as u32;
        if count > 0 {
            if let Some(sink) = &self.sink {
                call_sink(sink, channel, payload);
            }
        }
        n
    }

    /// Whether any active subscription matches this channel.
    pub fn any_match(&self, channel: &str) -> (r: bool)
        ensures
            r == (match_count(self.subs_view(), channel@) > 0),
            r == exists|i: int|
                0 <= i < self.subs_view().len() && glob_spec(#[trigger] self.subs_view()[i].1, channel@),
    {
        let count = self.count_matches(channel);
        proof {
            lemma_match_count_positive(self.subs_view(), channel@);
        }
        count > 0
    }

    fn count_matches(&self, channel: &str) -> (c: u64)
        ensures
            c == match_count(self.subs_view(), channel@),
    {
        let ghost v = self.subs_view();
        let mut c: u64 = 0;
        let mut i: usize = 0;
        while i < self.subs.len()
            invariant
                i <= self.subs.len(),
                v == self.subs_view(),
                c == match_count(v.take(i as int), channel@),
                c <= i,
            decreases self.subs.len() - i,
        {
            proof {
                assert(v.take(i + 1).drop_last() =~= v.take(i as int));
            }
            if glob_match(self.subs[i].pattern.as_str(), channel) {
                c = c + 1;
            }
            i = i + 1;
        }
        proof {
            assert(v.take(i as int) =~= v);
        }
        c
    }
}

/// A filter keeps the relative order of the elements it keeps, so a strictly
/// increasing id sequence stays strictly increasing.
proof fn lemma_filter_keeps_increasing(
    s: Seq<(u64, Seq<char>)>,
    pred: spec_fn((u64, Seq<char>)) -> bool,
    i: int,
    j: int,
)
    requires
        forall|a: int, b: int| 0 <= a < b < s.len() ==> #[trigger] s[a].0 < #[trigger] s[b].0,
        0 <= i < j < s.filter(pred).len(),
    ensures
        s.filter(pred)[i].0 < s.filter(pred)[j].0,
    decreases s.len(),
{
    reveal_with_fuel(Seq::filter, 1);
    if s.len() > 0 {
        let init = s.drop_last();
        assert forall|a: int, b: int| 0 <= a < b < init.len() implies #[trigger] init[a].0 < #[trigger] init[b].0 by {
            assert(init[a] == s[a] && init[b] == s[b]);
        }
        if pred(s.last()) {
            if j < init.filter(pred).len() {
                lemma_filter_keeps_increasing(init, pred, i, j);
            } else {
                lemma_filter_member(init, pred, i);
                let k = choose|k: int| 0 <= k < init.len() && init[k] == init.filter(pred)[i];
                assert(s[k] == init[k]);
                assert(s[k].0 < s[s.len() - 1].0);
            }
        } else {
            lemma_filter_keeps_increasing(init, pred, i, j);
        }
    }
}

/// Every element a filter keeps comes from the sequence it filters.
proof fn lemma_filter_member(s: Seq<(u64, Seq<char>)>, pred: spec_fn((u64, Seq<char>)) -> bool, i: int)
    requires
        0 <= i < s.filter(pred).len(),
    ensures
        exists|k: int| 0 <= k < s.len() && s[k] == s.filter(pred)[i],
    decreases s.len(),
{
    reveal_with_fuel(Seq::filter, 1);
    if s.len() > 0 {
        let init = s.drop_last();
        if i < init.filter(pred).len() {
            lemma_filter_member(init, pred, i);
            let k = choose|k: int| 0 <= k < init.len() && init[k] == init.filter(pred)[i];
            assert(s[k] == init[k]);
        } else {
            assert(s[s.len() - 1] == s.filter(pred)[i]);
        }
    }
}

/// The match count is positive exactly when some subscription matches.
proof fn lemma_match_count_positive(subs: Seq<(u64, Seq<char>)>, channel: Seq<char>)
    ensures
        (match_count(subs, channel) > 0) == exists|i: int|
            0 <= i < subs.len() && glob_spec(#[trigger] subs[i].1, channel),
    decreases subs.len(),
{
    if subs.len() > 0 {
        let init = subs.drop_last();
        lemma_match_count_positive(init, channel);
        if exists|i: int| 0 <= i < init.len() && glob_spec(#[trigger] init[i].1, channel) {
            let i = choose|i: int| 0 <= i < init.len() && glob_spec(#[trigger] init[i].1, channel);
            assert(subs[i] == init[i]);
        }
        if exists|i: int| 0 <= i < subs.len() && glob_spec(#[trigger] subs[i].1, channel) {
            let i = choose|i: int| 0 <= i < subs.len() && glob_spec(#[trigger] subs[i].1, channel);
            if i < init.len() {
                assert(init[i] == subs[i]);
            }
        }
    }
}

/// A filter that every element passes keeps the sequence as it is.
proof fn lemma_filter_all_pass(s: Seq<(u64, Seq<char>)>, pred: spec_fn((u64, Seq<char>)) -> bool)
    requires
        forall|i: int| 0 <= i < s.len() ==> pred(#[trigger] s[i]),
    ensures
        s.filter(pred) == s,
    decreases s.len(),
{
    reveal_with_fuel(Seq::filter, 1);
    if s.len() > 0 {
        let init = s.drop_last();
        assert forall|i: int| 0 <= i < init.len() implies pred(#[trigger] init[i]) by {
            assert(init[i] == s[i]);
        }
        lemma_filter_all_pass(init, pred);
        assert(pred(s[s.len() - 1]));
        assert(s =~= init.push(s.last()));
    }
}

/// Unsubscribing the id a subscription just received restores the
/// subscriptions as they were before it.
pub proof fn lemma_unsubscribe_undoes_subscribe(before: Seq<(u64, Seq<char>)>, id: u64, pattern: Seq<char>)
    requires
        forall|i: int| 0 <= i < before.len() ==> #[trigger] before[i].0 < id,
    ensures
        before.push((id, pattern)).filter(|s: (u64, Seq<char>)| s.0 != id) == before,
{
    let pred = |s: (u64, Seq<char>)| s.0 != id;
    let after = before.push((id, pattern));
    reveal_with_fuel(Seq::filter, 1);
    assert(after.drop_last() =~= before);
    assert(!pred(after.last()));
    assert forall|i: int| 0 <= i < before.len() implies pred(#[trigger] before[i]) by {}
    lemma_filter_all_pass(before, pred);
}

} // verus!
