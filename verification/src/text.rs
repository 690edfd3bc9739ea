use vstd::prelude::*;

verus! {

/// The characters of a string slice, in order.
pub fn str_chars(s: &str) -> (r: Vec<char>)
    ensures
        r@ == s@,
{
    let mut r: Vec<char> = Vec::new();
    for c in it: s.chars()
        invariant
            r@ == it.seq().take(it.index() as int),
            it.seq() == s@,
    {
        r.push(c);
    }
    r
}

/// Collects characters into a `String` (std's `FromIterator<char>`).
#[verifier::external_body]
pub fn string_from_chars(cs: &Vec<char>) -> (s: String)
    ensures
        s@ == cs@,
{
    cs.iter().collect()
}

/// A `String` holding the given text.
pub fn string_of(s: &str) -> (r: String)
    ensures
        r@ == s@,
{
    String::from_str(s)
}

/// Appends the characters of `s`.
pub fn push_str_chars(v: &mut Vec<char>, s: &str)
    ensures
        final(v)@ == old(v)@ + s@,
{
    let cs = str_chars(s);
    let ghost start = v@;
    let mut i: usize = 0;
    while i < cs.len()
        invariant
            i <= cs.len(),
            v@ == start + cs@.take(i as int),
        decreases cs.len() - i,
    {
        v.push(cs[i]);
        i = i + 1;
        assert(v@ =~= start + cs@.take(i as int));
    }
    assert(cs@.take(i as int) =~= cs@);
}

/// Whether `c` is an ASCII decimal digit.
pub open spec fn is_digit(c: char) -> bool {
    '0' <= c && c <= '9'
}

/// The value of an ASCII digit.
pub open spec fn digit_value(c: char) -> int {
    (c as int) - ('0' as int)
}

/// The character of a decimal digit `0..=9`.
pub open spec fn digit_char(d: nat) -> char {
    ((d + ('0' as nat)) as u32) as char
}

/// Whether every character is an ASCII digit.
pub open spec fn all_digits(s: Seq<char>) -> bool {
    forall|i: int| 0 <= i < s.len() ==> is_digit(#[trigger] s[i])
}

/// The decimal value of a digit string, read most significant first.
pub open spec fn decimal_value(s: Seq<char>) -> nat
    decreases s.len(),
{
    if s.len() == 0 {
        0
    } else {
        (decimal_value(s.drop_last()) * 10 + digit_value(s.last())) as nat
    }
}

/// Decimal text of a natural number, without leading zeros.
pub open spec fn nat_text(n: nat) -> Seq<char>
    decreases n,
{
    if n < 10 {
        seq![digit_char(n)]
    } else {
        nat_text(n / 10).push(digit_char(n % 10))
    }
}

/// Decimal text of an integer, with a leading `-` when negative.
pub open spec fn int_text(i: int) -> Seq<char> {
    if i < 0 {
        seq!['-'] + nat_text((-i) as nat)
    } else {
        nat_text(i as nat)
    }
}

fn digit_to_char(d: u64) -> (c: char)
    requires
        d < 10,
    ensures
        c == digit_char(d as nat),
{
    let c = if d == 0 { '0' } else if d == 1 { '1' } else if d == 2 { '2' } else if d == 3 {
        '3'
    } else if d == 4 { '4' } else if d == 5 { '5' } else if d == 6 { '6' } else if d == 7 {
        '7'
    } else if d == 8 { '8' } else { '9' };
    c
}

/// Appends the decimal text of `n`.
pub fn push_u64_text(v: &mut Vec<char>, n: u64)
    ensures
        final(v)@ == old(v)@ + nat_text(n as nat),
    decreases n,
{
    if n < 10 {
        v.push(digit_to_char(n));
        assert(final(v)@ =~= old(v)@ + nat_text(n as nat));
    } else {
        push_u64_text(v, n / 10);
        v.push(digit_to_char(n % 10));
        assert(final(v)@ =~= old(v)@ + nat_text(n as nat));
    }
}

/// Appends the decimal text of `i`.
pub fn push_i64_text(v: &mut Vec<char>, i: i64)
    ensures
        final(v)@ == old(v)@ + int_text(i as int),
{
    if i < 0 {
        v.push('-');
        let m: u64 = ((-(i + 1)) as u64) + 1;
        push_u64_text(v, m);
        assert(final(v)@ =~= old(v)@ + int_text(i as int));
    } else {
        push_u64_text(v, i as u64);
    }
}

/// The decimal text of a signed integer (std's `to_string`).
pub fn i64_to_string(i: i64) -> (s: String)
    ensures
        s@ == int_text(i as int),
{
    let mut v: Vec<char> = Vec::new();
    push_i64_text(&mut v, i);
    assert(v@ =~= int_text(i as int));
    string_from_chars(&v)
}

/// The decimal text of an unsigned integer (std's `to_string`).
pub fn u64_to_string(n: u64) -> (s: String)
    ensures
        s@ == nat_text(n as nat),
{
    let mut v: Vec<char> = Vec::new();
    push_u64_text(&mut v, n);
    assert(v@ =~= nat_text(n as nat));
    string_from_chars(&v)
}

/// Unicode `White_Space`, which std's `char::is_whitespace` tests.
pub open spec fn is_ws(c: char) -> bool {
    let u = c as u32;
    ||| 0x9 <= u <= 0xd
    ||| u == 0x20
    ||| u == 0x85
    ||| u == 0xa0
    ||| u == 0x1680
    ||| 0x2000 <= u <= 0x200a
    ||| u == 0x2028
    ||| u == 0x2029
    ||| u == 0x202f
    ||| u == 0x205f
    ||| u == 0x3000
}

fn char_is_ws(c: char) -> (r: bool)
    ensures
        r == is_ws(c),
{
    let u = c as u32;
    (0x9 <= u && u <= 0xd) || u == 0x20 || u == 0x85 || u == 0xa0 || u == 0x1680 || (0x2000 <= u
        && u <= 0x200a) || u == 0x2028 || u == 0x2029 || u == 0x202f || u == 0x205f || u == 0x3000
}

/// The text without leading whitespace.
pub open spec fn trim_start(s: Seq<char>) -> Seq<char>
    decreases s.len(),
{
    if s.len() > 0 && is_ws(s[0]) {
        trim_start(s.drop_first())
    } else {
        s
    }
}

/// The text without trailing whitespace.
pub open spec fn trim_end(s: Seq<char>) -> Seq<char>
    decreases s.len(),
{
    if s.len() > 0 && is_ws(s.last()) {
        trim_end(s.drop_last())
    } else {
        s
    }
}

/// The text without leading or trailing whitespace (std's `str::trim`).
pub open spec fn trim(s: Seq<char>) -> Seq<char> {
    trim_end(trim_start(s))
}

/// The characters of `s` with leading and trailing whitespace removed.
pub fn trim_chars(s: &Vec<char>) -> (r: Vec<char>)
    ensures
        r@ == trim(s@),
{
    let mut i: usize = 0;
    assert(s@.skip(0) =~= s@);
    while i < s.len() && char_is_ws(s[i])
        invariant
            i <= s.len(),
            trim_start(s@) == trim_start(s@.skip(i as int)),
        decreases s.len() - i,
    {
        assert(s@.skip(i as int).drop_first() =~= s@.skip(i + 1));
        i = i + 1;
    }
    let ghost mid = s@.skip(i as int);
    assert(trim_start(mid) == mid);
    let mut j: usize = s.len();
    while j > i && char_is_ws(s[j - 1])
        invariant
            i <= j <= s.len(),
            mid == s@.skip(i as int),
            trim_end(mid) == trim_end(s@.subrange(i as int, j as int)),
        decreases j,
    {
        assert(s@.subrange(i as int, j as int).drop_last() =~= s@.subrange(i as int, j - 1));
        j = j - 1;
    }
    assert(s@.skip(i as int) =~= s@.subrange(i as int, s.len() as int));
    let mut r: Vec<char> = Vec::new();
    let mut k: usize = i;
    while k < j
        invariant
            i <= k <= j,
            j <= s.len(),
            r@ == s@.subrange(i as int, k as int),
        decreases j - k,
    {
        r.push(s[k]);
        k = k + 1;
        assert(r@ =~= s@.subrange(i as int, k as int));
    }
    r
}

/// std's `i64::from_str`: an optional `+` or `-`, then one or more ASCII
/// digits, whose value must fit in `i64`.
pub open spec fn spec_parse_i64(s: Seq<char>) -> Option<i64> {
    let signed = s.len() > 0 && (s[0] == '+' || s[0] == '-');
    let body = if signed {
        s.drop_first()
    } else {
        s
    };
    let neg = signed && s[0] == '-';
    let v: int = if neg {
        -decimal_value(body)
    } else {
        decimal_value(body) as int
    };
    if body.len() == 0 || !all_digits(body) {
        None
    } else if i64::MIN <= v <= i64::MAX {
        Some(v as i64)
    } else {
        None
    }
}

proof fn lemma_decimal_value_grows(s: Seq<char>, k: int)
    requires
        all_digits(s),
        0 <= k <= s.len(),
    ensures
        decimal_value(s.take(k)) <= decimal_value(s),
    decreases s.len() - k,
{
    if k < s.len() {
        lemma_decimal_value_grows(s, k + 1);
        assert(s.take(k + 1).drop_last() =~= s.take(k));
        assert(is_digit(s[k]));
    } else {
        assert(s.take(k) =~= s);
    }
}

/// Parses a signed decimal integer exactly as `i64::from_str` does.
pub fn parse_i64(s: &Vec<char>) -> (r: Option<i64>)
    ensures
        r == spec_parse_i64(s@),
{
    let signed = s.len() > 0 && (s[0] == '+' || s[0] == '-');
    let neg = signed && s[0] == '-';
    let start: usize = if signed {
        1
    } else {
        0
    };
    let ghost body = s@.skip(start as int);
    proof {
        if signed {
            assert(body =~= s@.drop_first());
        } else {
            assert(body =~= s@);
        }
    }
    if start == s.len() {
        return None;
    }
    let limit: u64 = if neg {
        0x8000_0000_0000_0000
    } else {
        0x7FFF_FFFF_FFFF_FFFF
    };
    let mut acc: u64 = 0;
    let mut i: usize = start;
    while i < s.len()
        invariant
            start <= i <= s.len(),
            body == s@.skip(start as int),
            signed == (s@.len() > 0 && (s@[0] == '+' || s@[0] == '-')),
            neg == (signed && s@[0] == '-'),
            start == (if signed { 1usize } else { 0usize }),
            body == (if signed { s@.drop_first() } else { s@ }),
            limit == (if neg { 0x8000_0000_0000_0000u64 } else { 0x7FFF_FFFF_FFFF_FFFFu64 }),
            all_digits(body.take(i - start)),
            acc == decimal_value(body.take(i - start)),
            acc <= limit,
            limit <= 0x8000_0000_0000_0000,
            limit >= 0x7FFF_FFFF_FFFF_FFFF,
        decreases s.len() - i,
    {
        let c = s[i];
        if !('0' <= c && c <= '9') {
            proof {
                assert(body[i - start] == c);
                assert(!is_digit(body[i - start]));
                assert(0 <= i - start < body.len());
                assert(!all_digits(body));
            }
            return None;
        }
        assert('0' as u32 <= c as u32 <= '9' as u32);
        let d = (c as u32 - '0' as u32) as u64;
        assert(d <= 9);
        proof {
            assert(body.take(i + 1 - start).drop_last() =~= body.take(i - start));
            assert(body.take(i + 1 - start).last() == c);
        }
        if acc > (limit - d) / 10 {
            proof {
                assert(all_digits(body.take(i + 1 - start)));
                if all_digits(body) {
                    lemma_decimal_value_grows(body, i + 1 - start);
                    assert(body.take(i + 1 - start) =~= body.take(i + 1 - start).take(i + 1 - start));
                    lemma_decimal_value_grows(body.take(i + 1 - start), i - start);
                    assert(decimal_value(body.take(i + 1 - start)) > limit);
                }
            }
            return None;
        }
        acc = acc * 10 + d;
        i = i + 1;
    }
    assert(body.take(i - start) =~= body);
    if neg {
        if acc == 0x8000_0000_0000_0000 {
            Some(i64::MIN)
        } else {
            Some(-(acc as i64))
        }
    } else {
        Some(acc as i64)
    }
}


/// What unsigned `from_str` makes of a text, for a type whose largest value
/// is `max`: an optional `+`, then one or more ASCII digits whose value does
/// not exceed `max`.
pub open spec fn spec_parse_unsigned(s: Seq<char>, max: nat) -> Option<nat> {
    let body = if s.len() > 0 && s[0] == '+' {
        s.drop_first()
    } else {
        s
    };
    if body.len() == 0 || !all_digits(body) || decimal_value(body) > max {
        None
    } else {
        Some(decimal_value(body))
    }
}

/// Parses an unsigned decimal integer no larger than `max`, as unsigned
/// `from_str` does.
pub fn parse_unsigned(s: &Vec<char>, max: u64) -> (r: Option<u64>)
    ensures
        match r {
            Some(n) => spec_parse_unsigned(s@, max as nat) == Some(n as nat),
            None => spec_parse_unsigned(s@, max as nat) is None,
        },
{
    let signed = s.len() > 0 && s[0] == '+';
    let start: usize = if signed {
        1
    } else {
        0
    };
    let ghost body = if signed {
        s@.drop_first()
    } else {
        s@
    };
    proof {
        assert(body =~= s@.skip(start as int));
    }
    if start == s.len() {
        return None;
    }
    let mut acc: u64 = 0;
    let mut i: usize = start;
    assert(body.take(0) =~= Seq::<char>::empty());
    while i < s.len()
        invariant
            start <= i <= s.len(),
            signed == (s@.len() > 0 && s@[0] == '+'),
            start == (if signed { 1usize } else { 0usize }),
            body == s@.skip(start as int),
            body == (if signed { s@.drop_first() } else { s@ }),
            all_digits(body.take(i - start)),
            acc == decimal_value(body.take(i - start)),
            acc <= max,
        decreases s.len() - i,
    {
        let c = s[i];
        if !('0' <= c && c <= '9') {
            proof {
                assert(body[i - start] == c);
                assert(!is_digit(body[i - start]));
                assert(0 <= i - start < body.len());
                assert(!all_digits(body));
                assert(body == (if s@.len() > 0 && s@[0] == '+' { s@.drop_first() } else { s@ }));
                assert(spec_parse_unsigned(s@, max as nat) is None);
            }
            return None;
        }
        assert('0' as u32 <= c as u32 <= '9' as u32);
        let d = (c as u32 - '0' as u32) as u64;
        proof {
            assert(body.take(i + 1 - start).drop_last() =~= body.take(i - start));
            assert(body.take(i + 1 - start).last() == c);
        }
        if d > max || acc > (max - d) / 10 {
            proof {
                assert(all_digits(body.take(i + 1 - start)));
                assert(decimal_value(body.take(i + 1 - start)) == acc * 10 + d);
                if all_digits(body) {
                    lemma_decimal_value_grows(body, i + 1 - start);
                    assert(decimal_value(body.take(i + 1 - start)) > max);
                }
            }
            return None;
        }
        acc = acc * 10 + d;
        i = i + 1;
    }
    assert(body.take(i - start) =~= body);
    Some(acc)
}


/// A text with every NUL character replaced by U+FFFD, so that it can be
/// handed to C as a NUL-terminated string.
pub open spec fn without_nul(s: Seq<char>) -> Seq<char> {
    s.map_values(|c: char| if c == '\0' { '\u{FFFD}' } else { c })
}

/// Replaces interior NUL characters with the Unicode replacement character.
pub fn sanitize_for_cstring(s: &str) -> (r: String)
    ensures
        r@ == without_nul(s@),
{
    let cs = str_chars(s);
    let mut out: Vec<char> = Vec::new();
    let mut i: usize = 0;
    while i < cs.len()
        invariant
            i <= cs@.len(),
            cs@ == s@,
            out@ == without_nul(cs@.take(i as int)),
        decreases cs.len() - i,
    {
        let c = cs[i];
        if c == '\0' {
            out.push('\u{FFFD}');
        } else {
            out.push(c);
        }
        i = i + 1;
        assert(out@ =~= without_nul(cs@.take(i as int)));
    }
    assert(cs@.take(i as int) =~= cs@);
    string_from_chars(&out)
}

} // verus!
