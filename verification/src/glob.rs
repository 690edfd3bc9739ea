use vstd::prelude::*;
use crate::text::str_chars;

verus! {

/// Redis-style glob matching where `*` matches any (possibly empty) run of
/// characters and every other pattern character matches itself.
pub open spec fn glob_spec(p: Seq<char>, t: Seq<char>) -> bool
    decreases p.len() + t.len(),
{
    if p.len() == 0 {
        t.len() == 0
    } else if p[0] == '*' {
        glob_spec(p.drop_first(), t) || (t.len() > 0 && glob_spec(p, t.drop_first()))
    } else if t.len() > 0 && p[0] == t[0] {
        glob_spec(p.drop_first(), t.drop_first())
    } else {
        false
    }
}

fn glob_from(p: &Vec<char>, i: usize, t: &Vec<char>, j: usize) -> (r: bool)
    requires
        i <= p.len(),
        j <= t.len(),
    ensures
        r == glob_spec(p@.skip(i as int), t@.skip(j as int)),
    decreases p.len() - i + t.len() - j,
{
    let ghost ps = p@.skip(i as int);
    let ghost ts = t@.skip(j as int);
    if i == p.len() {
        j == t.len()
    } else if p[i] == '*' {
        assert(ps.drop_first() =~= p@.skip(i + 1));
        if glob_from(p, i + 1, t, j) {
            true
        } else if j < t.len() {
            assert(ts.drop_first() =~= t@.skip(j + 1));
            glob_from(p, i, t, j + 1)
        } else {
            false
        }
    } else if j < t.len() && p[i] == t[j] {
        assert(ps.drop_first() =~= p@.skip(i + 1));
        assert(ts.drop_first() =~= t@.skip(j + 1));
        glob_from(p, i + 1, t, j + 1)
    } else {
        false
    }
}

/// Whether `text` matches the glob `pattern` (`*` is the only wildcard).
pub fn glob_match(pattern: &str, text: &str) -> (r: bool)
    ensures
        r == glob_spec(pattern@, text@),
{
    let p = str_chars(pattern);
    let t = str_chars(text);
    assert(p@.skip(0) =~= p@);
    assert(t@.skip(0) =~= t@);
    glob_from(&p, 0, &t, 0)
}

/// A pattern that is a lone `*` matches every text.
pub proof fn lemma_star_matches_everything(t: Seq<char>)
    ensures
        glob_spec(seq!['*'], t),
    decreases t.len(),
{
    let p = seq!['*'];
    assert(p.drop_first() =~= Seq::<char>::empty());
    assert(p.len() == 1 && p[0] == '*');
    if t.len() > 0 {
        lemma_star_matches_everything(t.drop_first());
        assert(glob_spec(p, t.drop_first()));
    } else {
        assert(glob_spec(p.drop_first(), t));
    }
}

/// A pattern with no `*` matches exactly the text equal to it.
pub proof fn lemma_literal_pattern_matches_itself_only(p: Seq<char>, t: Seq<char>)
    requires
        !p.contains('*'),
    ensures
        glob_spec(p, t) <==> p == t,
    decreases p.len() + t.len(),
{
    if p.len() == 0 {
        if t.len() == 0 {
            assert(p =~= t);
        }
    } else {
        assert(p[0] != '*') by {
            assert(p.contains(p[0]) || !p.contains(p[0]));
            if p[0] == '*' {
                assert(p.contains('*'));
            }
        }
        assert(!p.drop_first().contains('*')) by {
            if p.drop_first().contains('*') {
                let k = choose|k: int| 0 <= k < p.drop_first().len() && p.drop_first()[k] == '*';
                assert(p[k + 1] == '*');
            }
        }
        if t.len() > 0 {
            lemma_literal_pattern_matches_itself_only(p.drop_first(), t.drop_first());
            if p == t {
                assert(p.drop_first() =~= t.drop_first());
            }
            if p[0] == t[0] && p.drop_first() == t.drop_first() {
                assert forall|k: int| 0 <= k < p.len() implies p[k] == t[k] by {
                    if k > 0 {
                        assert(p.drop_first()[k - 1] == t.drop_first()[k - 1]);
                    }
                }
                assert(p =~= t);
            }
        }
    }
}

/// `prefix*` matches exactly the texts that start with `prefix`, when `prefix`
/// itself has no `*`.
pub proof fn lemma_prefix_star_matches_prefixed(prefix: Seq<char>, t: Seq<char>)
    requires
        !prefix.contains('*'),
    ensures
        glob_spec(prefix.push('*'), t) <==> (prefix.len() <= t.len() && t.take(
            prefix.len() as int,
        ) == prefix),
    decreases prefix.len(),
{
    if prefix.len() == 0 {
        assert(prefix.push('*') =~= seq!['*']);
        lemma_star_matches_everything(t);
        assert(t.take(0) =~= prefix);
    } else {
        assert(prefix[0] != '*') by {
            if prefix[0] == '*' {
                assert(prefix.contains('*'));
            }
        }
        let rest = prefix.drop_first();
        assert(!rest.contains('*')) by {
            if rest.contains('*') {
                let k = choose|k: int| 0 <= k < rest.len() && rest[k] == '*';
                assert(prefix[k + 1] == '*');
            }
        }
        assert(prefix.push('*').drop_first() =~= rest.push('*'));
        if t.len() > 0 {
            lemma_prefix_star_matches_prefixed(rest, t.drop_first());
            if prefix.len() <= t.len() && t.take(prefix.len() as int) == prefix {
                assert(t.drop_first().take(rest.len() as int) =~= rest) by {
                    assert forall|k: int| 0 <= k < rest.len() implies t.drop_first().take(
                        rest.len() as int,
                    )[k] == rest[k] by {
                        assert(t.take(prefix.len() as int)[k + 1] == prefix[k + 1]);
                    }
                }
            }
            if t[0] == prefix[0] && rest.len() <= t.drop_first().len() && t.drop_first().take(
                rest.len() as int,
            ) == rest {
                assert(t.take(prefix.len() as int) =~= prefix) by {
                    assert forall|k: int| 0 <= k < prefix.len() implies t.take(
                        prefix.len() as int,
                    )[k] == prefix[k] by {
                        if k > 0 {
                            assert(t.drop_first().take(rest.len() as int)[k - 1] == rest[k - 1]);
                        }
                    }
                }
            }
            if prefix.len() <= t.len() && t.take(prefix.len() as int) == prefix {
                assert(t.take(prefix.len() as int)[0] == prefix[0]);
            }
        }
    }
}

/// A `*`-free prefix is matched character by character: `a + q` matches
/// `a + t` exactly when `q` matches `t`.
proof fn lemma_literal_prefix(a: Seq<char>, q: Seq<char>, t: Seq<char>)
    requires
        !a.contains('*'),
    ensures
        glob_spec(a + q, a + t) == glob_spec(q, t),
    decreases a.len(),
{
    if a.len() > 0 {
        assert(a[0] != '*') by {
            if a[0] == '*' {
                assert(a.contains('*'));
            }
        }
        let rest = a.drop_first();
        assert(!rest.contains('*')) by {
            if rest.contains('*') {
                let k = choose|k: int| 0 <= k < rest.len() && rest[k] == '*';
                assert(a[k + 1] == '*');
            }
        }
        assert((a + q).drop_first() =~= rest + q);
        assert((a + t).drop_first() =~= rest + t);
        assert((a + q)[0] == a[0] && (a + t)[0] == a[0]);
        lemma_literal_prefix(rest, q, t);
    } else {
        assert(a + q =~= q);
        assert(a + t =~= t);
    }
}

/// `*` followed by `b` matches any text that ends with `b`.
proof fn lemma_star_then_suffix(b: Seq<char>, x: Seq<char>)
    requires
        !b.contains('*'),
    ensures
        glob_spec(seq!['*'] + b, x + b),
    decreases x.len(),
{
    let p = seq!['*'] + b;
    assert(p[0] == '*');
    assert(p.drop_first() =~= b);
    if x.len() == 0 {
        assert(x + b =~= b);
        lemma_literal_pattern_matches_itself_only(b, b);
    } else {
        lemma_star_then_suffix(b, x.drop_first());
        assert((x + b).drop_first() =~= x.drop_first() + b);
    }
}

/// A `*` anywhere in a pattern matches any run of characters: with `a` and
/// `b` free of `*`, `a*b` matches `a`, then any text `x`, then `b`.
pub proof fn lemma_star_matches_any_run(a: Seq<char>, b: Seq<char>, x: Seq<char>)
    requires
        !a.contains('*'),
        !b.contains('*'),
    ensures
        glob_spec(a + seq!['*'] + b, a + x + b),
{
    lemma_star_then_suffix(b, x);
    lemma_literal_prefix(a, seq!['*'] + b, x + b);
    assert(a + seq!['*'] + b =~= a + (seq!['*'] + b));
    assert(a + x + b =~= a + (x + b));
}

} // verus!
