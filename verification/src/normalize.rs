//! Turns a source payload (a JSON array of objects, or CSV with a header row)
//! into canonical records, quarantining the entries that cannot be used.
use vstd::prelude::*;
use crate::error::EngineError;
use crate::commands::updated_at_field;
use crate::fieldmap::FieldMap;
use crate::ieee::{bits_integral_below_2_53, bits_trunc_below_2_53, integral_below_2_53, trunc_below_2_53};
use crate::json::{float_parse_bits, json_parse, parse_float_bits, parse_json, JsonNode, JsonNumber, JsonValue};
use crate::csv::{cells_view, csv_rows_view, parse_csv, parse_csv_rows};
use crate::text::{i64_to_string, int_text, nat_text, u64_to_string, string_of, all_digits, decimal_value, digit_value, is_digit, parse_i64, spec_parse_i64, str_chars, string_from_chars, trim, trim_chars};

verus! {

/// The payload format of a source.
#[derive(Clone, Copy, Debug, PartialEq, Eq, Structural)]
pub enum SourceFormat {
    Json,
    Csv,
}

/// How a source's payloads are read and merged.
#[derive(Clone, Debug)]
pub struct SourceConfig {
    pub source_id: String,
    pub format: SourceFormat,
    pub collection: String,
    pub natural_key_field: String,
    pub timestamp_field: Option<String>,
    pub priority: u32,
}

/// One normalized record: its collection, natural key, source, stringified
/// fields and the timestamp that orders it against other writes.
#[derive(Debug, PartialEq)]
pub struct CanonicalRecord {
    pub collection: String,
    pub natural_key: String,
    pub source: String,
    pub fields: FieldMap,
    pub updated_at: i64,
}

/// The records a payload yields, and the `(fragment, reason)` of each entry
/// that was rejected.
#[derive(Debug)]
pub struct NormalizeOutcome {
    pub records: Vec<CanonicalRecord>,
    pub rejects: Vec<(String, String)>,
}

/// A record as plain values.
#[verifier::ext_equal]
pub struct RecordSpec {
    pub collection: Seq<char>,
    pub natural_key: Seq<char>,
    pub source: Seq<char>,
    pub fields: Map<Seq<char>, Seq<char>>,
    pub updated_at: i64,
}

/// An outcome as plain values.
#[verifier::ext_equal]
pub struct OutcomeSpec {
    pub records: Seq<RecordSpec>,
    pub rejects: Seq<(Seq<char>, Seq<char>)>,
}

impl CanonicalRecord {
    pub open spec fn view(&self) -> RecordSpec {
        RecordSpec {
            collection: self.collection@,
            natural_key: self.natural_key@,
            source: self.source@,
            fields: self.fields.map(),
            updated_at: self.updated_at,
        }
    }
}

/// Rejects as plain values.
pub open spec fn rejects_view(r: Seq<(String, String)>) -> Seq<(Seq<char>, Seq<char>)> {
    r.map_values(|e: (String, String)| (e.0@, e.1@))
}

impl NormalizeOutcome {
    pub open spec fn view(&self) -> OutcomeSpec {
        OutcomeSpec {
            records: self.records@.map_values(|r: CanonicalRecord| r.view()),
            rejects: rejects_view(self.rejects@),
        }
    }
}

/// An error as its code and message.
pub open spec fn err_view(e: EngineError) -> (u32, Seq<char>) {
    (e.spec_code(), e.spec_message())
}

/// `a + b + c` as one `String`.
pub fn concat3(a: &str, b: &str, c: &str) -> (s: String)
    ensures
        s@ == a@ + b@ + c@,
{
    let mut s = String::from_str(a);
    s.append(b);
    s.append(c);
    s
}

// ---------------------------------------------------------------- timestamps

/// The value of the digits in `b[lo..hi]`, when that range exists, is
/// non-empty and holds only ASCII digits.
pub open spec fn digits_at(b: Seq<char>, lo: int, hi: int) -> Option<int> {
    if 0 <= lo < hi <= b.len() && all_digits(b.subrange(lo, hi)) {
        Some(decimal_value(b.subrange(lo, hi)) as int)
    } else {
        None
    }
}

/// The end of the run of ASCII digits that starts at `i`.
pub open spec fn digit_run_end(b: Seq<char>, i: nat) -> nat
    decreases b.len() - i,
{
    if i < b.len() && is_digit(b[i as int]) {
        digit_run_end(b, i + 1)
    } else {
        i
    }
}

/// Days since 1970-01-01 of a proleptic Gregorian date (Hinnant's
/// days-from-civil), with `/` rounding toward negative infinity.
pub open spec fn days_from_civil_spec(y: int, m: int, d: int) -> int {
    let y = if m <= 2 {
        y - 1
    } else {
        y
    };
    let era = y / 400;
    let yoe = y - era * 400;
    let mp = (m + 9) % 12;
    let doy = (153 * mp + 2) / 5 + d - 1;
    let doe = yoe * 365 + yoe / 4 - yoe / 100 + doy;
    era * 146_097 + doe - 719_468
}

/// The UTC offset in minutes at `b[i..]`: `Z`/`z` ending the text, or
/// `±HH:MM` ending the text with `HH <= 23` and `MM <= 59`.
pub open spec fn offset_minutes(b: Seq<char>, i: int) -> Option<int> {
    if 0 <= i < b.len() && (b[i] == 'Z' || b[i] == 'z') && i + 1 == b.len() {
        Some(0)
    } else if 0 <= i < b.len() && (b[i] == '+' || b[i] == '-') {
        if b.len() != i + 6 || b[i + 3] != ':' {
            None
        } else {
            match (digits_at(b, i + 1, i + 3), digits_at(b, i + 4, i + 6)) {
                (Some(oh), Some(om)) => if oh > 23 || om > 59 {
                    None
                } else {
                    let v = oh * 60 + om;
                    Some(
                        if b[i] == '-' {
                            -v
                        } else {
                            v
                        },
                    )
                },
                _ => None,
            }
        }
    } else {
        None
    }
}

/// Milliseconds since the epoch of `YYYY-MM-DDTHH:MM:SS[.frac](Z|±HH:MM)`
/// (`T` may be `t`; a leap second 60 counts as 59; fractions keep three
/// digits); `None` for anything else.
pub open spec fn rfc3339_ms(b: Seq<char>) -> Option<i64> {
    if b.len() < 20 || b[4] != '-' || b[7] != '-' || !(b[10] == 'T' || b[10] == 't') || b[13]
        != ':' || b[16] != ':' {
        None
    } else {
        match (
            digits_at(b, 0, 4),
            digits_at(b, 5, 7),
            digits_at(b, 8, 10),
            digits_at(b, 11, 13),
            digits_at(b, 14, 16),
            digits_at(b, 17, 19),
        ) {
            (Some(y), Some(mo), Some(d), Some(h), Some(mi), Some(sec)) => {
                if !(1 <= mo <= 12) || !(1 <= d <= 31) || h > 23 || mi > 59 || sec > 60 {
                    None
                } else {
                    let has_frac = b[19] == '.';
                    let end = digit_run_end(b, 20) as int;
                    if has_frac && end == 20 {
                        None
                    } else {
                        let frac: int = if has_frac {
                            decimal_value((b.subrange(20, end) + seq!['0', '0', '0']).take(3)) as int
                        } else {
                            0
                        };
                        let i: int = if has_frac {
                            end
                        } else {
                            19
                        };
                        match offset_minutes(b, i) {
                            None => None,
                            Some(off) => {
                                let s = if sec > 59 {
                                    59
                                } else {
                                    sec
                                };
                                Some(
                                    ((days_from_civil_spec(y, mo, d) * 86_400 + h * 3600 + mi * 60
                                        + s) * 1000 + frac - off * 60_000) as i64,
                                )
                            },
                        }
                    }
                }
            },
            _ => None,
        }
    }
}

/// A timestamp field value: integer milliseconds, float milliseconds
/// (truncated; finite and below `2^53` in magnitude), or RFC-3339 text.
/// Surrounding whitespace is ignored; `None` means unparseable.
pub open spec fn timestamp_ms(s: Seq<char>) -> Option<i64> {
    let t = trim(s);
    if t.len() == 0 {
        None
    } else if spec_parse_i64(t) is Some {
        spec_parse_i64(t)
    } else {
        timestamp_after_float(t, float_parse_bits(t))
    }
}

/// The rest of [`timestamp_ms`] once the float parse of the trimmed text `t`
/// is known: a finite float gives its truncation (when below `2^53`), an
/// infinite or NaN one gives `None`, and a non-float falls to RFC-3339.
pub open spec fn timestamp_after_float(t: Seq<char>, float: Option<Option<u64>>) -> Option<i64> {
    match float {
        Some(Some(bits)) => match trunc_below_2_53(bits) {
            Some(v) => Some(v as i64),
            None => None,
        },
        Some(None) => None,
        None => rfc3339_ms(t),
    }
}

fn digits_in(b: &Vec<char>, lo: usize, hi: usize) -> (r: Option<i64>)
    requires
        lo <= hi,
        hi - lo <= 4,
    ensures
        match r {
            Some(v) => digits_at(b@, lo as int, hi as int) == Some(v as int) && 0 <= v <= 9999,
            None => digits_at(b@, lo as int, hi as int) is None,
        },
{
    if hi > b.len() || lo == hi {
        return None;
    }
    let ghost sub = b@.subrange(lo as int, hi as int);
    let mut v: i64 = 0;
    let mut i: usize = lo;
    while i < hi
        invariant
            lo <= i <= hi <= b.len(),
            hi - lo <= 4,
            sub == b@.subrange(lo as int, hi as int),
            all_digits(sub.take(i - lo)),
            v == decimal_value(sub.take(i - lo)),
            0 <= v < 10 * ((i - lo) as int) * 1000 + 1,
            v <= 9999 || i - lo == 4,
            v < if i - lo == 0 { 1int } else if i - lo == 1 { 10int } else if i - lo == 2 { 100int } else if i - lo == 3 { 1000int } else { 10000int },
        decreases hi - i,
    {
        let c = b[i];
        proof {
            assert(sub[i - lo] == c);
        }
        if !('0' <= c && c <= '9') {
            assert(!is_digit(sub[i - lo]));
            return None;
        }
        proof {
            assert(sub.take(i + 1 - lo).drop_last() =~= sub.take(i - lo));
            assert(sub.take(i + 1 - lo).last() == c);
        }
        assert('0' as u32 <= c as u32 <= '9' as u32);
        let d = (c as u32 - '0' as u32) as i64;
        v = v * 10 + d;
        i = i + 1;
    }
    assert(sub.take(hi - lo) =~= sub);
    Some(v)
}

/// Hinnant's days-from-civil for years `0..=9999`.
fn days_from_civil(y: i64, m: i64, d: i64) -> (r: i64)
    requires
        0 <= y <= 9999,
        1 <= m <= 12,
        1 <= d <= 31,
    ensures
        r == days_from_civil_spec(y as int, m as int, d as int),
        -1_000_000 <= r <= 3_000_000,
{
    let y = if m <= 2 {
        y - 1
    } else {
        y
    };
    let era = if y >= 0 {
        y / 400
    } else {
        -((399 - y) / 400)
    };
    assert(era == y / 400);
    let yoe = y - era * 400;
    let mp = (m + 9) % 12;
    let doy = (153 * mp + 2) / 5 + d - 1;
    let doe = yoe * 365 + yoe / 4 - yoe / 100 + doy;
    era * 146_097 + doe - 719_468
}

fn offset_in(b: &Vec<char>, i: usize) -> (r: Option<i64>)
    ensures
        match r {
            Some(v) => offset_minutes(b@, i as int) == Some(v as int) && -1439 <= v <= 1439,
            None => offset_minutes(b@, i as int) is None,
        },
{
    if i < b.len() && (b[i] == 'Z' || b[i] == 'z') && i + 1 == b.len() {
        Some(0)
    } else if i < b.len() && (b[i] == '+' || b[i] == '-') {
        if b.len() - i != 6 || b[i + 3] != ':' {
            None
        } else {
            match (digits_in(b, i + 1, i + 3), digits_in(b, i + 4, i + 6)) {
                (Some(oh), Some(om)) => {
                    if oh > 23 || om > 59 {
                        None
                    } else {
                        let v = oh * 60 + om;
                        Some(
                            if b[i] == '-' {
                                -v
                            } else {
                                v
                            },
                        )
                    }
                },
                _ => None,
            }
        }
    } else {
        None
    }
}

fn digit_run(b: &Vec<char>, start: usize) -> (end: usize)
    requires
        start <= b.len(),
    ensures
        end == digit_run_end(b@, start as nat),
        start <= end <= b.len(),
        all_digits(b@.subrange(start as int, end as int)),
{
    let mut end = start;
    while end < b.len() && '0' <= b[end] && b[end] <= '9'
        invariant
            start <= end <= b.len(),
            digit_run_end(b@, start as nat) == digit_run_end(b@, end as nat),
            all_digits(b@.subrange(start as int, end as int)),
        decreases b.len() - end,
    {
        assert(is_digit(b@[end as int]));
        end = end + 1;
        assert forall|k: int| 0 <= k < end - start implies is_digit(
            #[trigger] b@.subrange(start as int, end as int)[k],
        ) by {
            assert(b@.subrange(start as int, end as int)[k] == b@[start + k]);
            if k < end - 1 - start {
                assert(b@.subrange(start as int, end - 1)[k] == b@[start + k]);
            }
        }
    }
    end
}

/// Milliseconds since the epoch of an RFC-3339 timestamp (see [`rfc3339_ms`]).
#[verifier::spinoff_prover]
#[verifier::rlimit(40)]
pub fn parse_rfc3339_ms(b: &Vec<char>) -> (r: Option<i64>)
    ensures
        r == rfc3339_ms(b@),
{
    if b.len() < 20 {
        return None;
    }
    if b[4] != '-' || b[7] != '-' || !(b[10] == 'T' || b[10] == 't') || b[13] != ':' || b[16]
        != ':' {
        return None;
    }
    let y = match digits_in(b, 0, 4) {
        Some(v) => v,
        None => return None,
    };
    let mo = match digits_in(b, 5, 7) {
        Some(v) => v,
        None => return None,
    };
    let d = match digits_in(b, 8, 10) {
        Some(v) => v,
        None => return None,
    };
    let h = match digits_in(b, 11, 13) {
        Some(v) => v,
        None => return None,
    };
    let mi = match digits_in(b, 14, 16) {
        Some(v) => v,
        None => return None,
    };
    let sec = match digits_in(b, 17, 19) {
        Some(v) => v,
        None => return None,
    };
    if !(1 <= mo && mo <= 12) || !(1 <= d && d <= 31) || h > 23 || mi > 59 || sec > 60 {
        return None;
    }
    let has_frac = b[19] == '.';
    let end = digit_run(b, 20);
    if has_frac && end == 20 {
        return None;
    }
    let mut frac: i64 = 0;
    if has_frac {
        let ghost run = b@.subrange(20, end as int);
        let ghost padded = (run + seq!['0', '0', '0']).take(3);
        proof {
            assert(is_digit(run[0]));
            if end > 21 {
                assert(is_digit(run[1]));
            }
            if end > 22 {
                assert(is_digit(run[2]));
            }
        }
        let d0 = (b[20] as u32 - '0' as u32) as i64;
        let d1 = if end > 21 {
            (b[21] as u32 - '0' as u32) as i64
        } else {
            0
        };
        let d2 = if end > 22 {
            (b[22] as u32 - '0' as u32) as i64
        } else {
            0
        };
        proof {
            assert(padded[0] == b@[20]);
            assert(padded[1] == if end > 21 { b@[21] } else { '0' });
            assert(padded[2] == if end > 22 { b@[22] } else { '0' });
            assert(d0 == digit_value(padded[0]));
            assert(d1 == digit_value(padded[1]));
            assert(d2 == digit_value(padded[2]));
            let p1 = padded.take(1);
            let p2 = padded.take(2);
            assert(p1.drop_last() =~= Seq::<char>::empty());
            assert(p2.drop_last() =~= p1);
            assert(padded.drop_last() =~= p2);
            assert(p1.len() == 1 && p1.last() == padded[0]);
            assert(decimal_value(p1.drop_last()) == 0);
            assert(decimal_value(p1) == d0);
            assert(decimal_value(p2) == d0 * 10 + d1);
            assert(decimal_value(padded) == (d0 * 10 + d1) * 10 + d2);
        }
        frac = d0 * 100 + d1 * 10 + d2;
    }
    let i = if has_frac {
        end
    } else {
        19
    };
    let off = match offset_in(b, i) {
        Some(v) => v,
        None => return None,
    };
    let days = days_from_civil(y, mo, d);
    let s = if sec > 59 {
        59
    } else {
        sec
    };
    Some(((days * 86_400 + h * 3600 + mi * 60 + s) * 1000 + frac) - off * 60_000)
}

/// Parses a timestamp field value (see [`timestamp_ms`]).
pub fn parse_timestamp_ms(s: &str) -> (r: Option<i64>)
    ensures
        r == timestamp_ms(s@),
{
    let cs = str_chars(s);
    let t = trim_chars(&cs);
    if t.len() == 0 {
        return None;
    }
    if let Some(v) = parse_i64(&t) {
        return Some(v);
    }
    let ts = string_from_chars(&t);
    let float = parse_float_bits(ts.as_str());
    timestamp_from_float(&t, float)
}

/// The part of [`parse_timestamp_ms`] that follows the float parse of the
/// trimmed text (see [`timestamp_after_float`]).
pub fn timestamp_from_float(t: &Vec<char>, float: Option<Option<u64>>) -> (r: Option<i64>)
    ensures
        r == timestamp_after_float(t@, float),
{
    match float {
        Some(Some(bits)) => bits_trunc_below_2_53(bits),
        Some(None) => None,
        None => parse_rfc3339_ms(t),
    }
}

/// A digit string of at most four characters is below ten to its length.
proof fn lemma_short_decimal_bound(s: Seq<char>)
    requires
        all_digits(s),
        s.len() <= 4,
    ensures
        decimal_value(s) < if s.len() == 0 {
            1int
        } else if s.len() == 1 {
            10int
        } else if s.len() == 2 {
            100int
        } else if s.len() == 3 {
            1000int
        } else {
            10000int
        },
    decreases s.len(),
{
    if s.len() > 0 {
        let t = s.drop_last();
        assert(all_digits(t)) by {
            assert forall|i: int| 0 <= i < t.len() implies is_digit(#[trigger] t[i]) by {
                assert(t[i] == s[i]);
            }
        }
        lemma_short_decimal_bound(t);
        assert(is_digit(s[s.len() - 1]));
    }
}

/// Days of dates with four-digit years stay far inside the `i64` range.
proof fn lemma_days_bounded(y: int, m: int, d: int)
    requires
        0 <= y <= 9999,
        1 <= m <= 12,
        1 <= d <= 31,
    ensures
        -1_000_000 <= days_from_civil_spec(y, m, d) <= 3_000_000,
{
}

/// Gregorian leap years: divisible by 4, but not by 100 unless by 400.
pub open spec fn is_leap_year(y: int) -> bool {
    y % 4 == 0 && (y % 100 != 0 || y % 400 == 0)
}

/// The number of days of month `m` of year `y`.
pub open spec fn days_in_month(y: int, m: int) -> int {
    if m == 2 {
        if is_leap_year(y) {
            29
        } else {
            28
        }
    } else if m == 4 || m == 6 || m == 9 || m == 11 {
        30
    } else {
        31
    }
}

/// Stepping `r` by one moves `r / k` by one exactly when `k` divides `r + 1`.
proof fn lemma_div_step(r: int, k: int)
    requires
        0 <= r,
        k == 4 || k == 100,
    ensures
        (r + 1) / k == r / k + if (r + 1) % k == 0 {
            1int
        } else {
            0int
        },
{
}

/// Day number of 1 March of year `y`, from its four parts.
proof fn lemma_march_first(y: int)
    ensures
        days_from_civil_spec(y, 3, 1) == (y / 400) * 146_097 + (y % 400) * 365 + (y % 400) / 4 - (y % 400)
            / 100 - 719_468,
{
    assert(y - (y / 400) * 400 == y % 400);
    assert((153 * ((3 + 9) % 12) + 2) / 5 + 1 - 1 == 0);
}

/// From 1 March of year `y - 1` to 1 March of year `y` there are 365 days,
/// 366 when `y` is a leap year.
proof fn lemma_march_year_length(y: int)
    ensures
        days_from_civil_spec(y, 3, 1) == days_from_civil_spec(y - 1, 3, 1) + if is_leap_year(y) {
            366int
        } else {
            365int
        },
{
    let a = y - 1;
    let ea = a / 400;
    let ra = a % 400;
    lemma_march_first(y);
    lemma_march_first(a);
    assert(a == ea * 400 + ra && 0 <= ra < 400);
    if ra == 399 {
        assert(y == (ea + 1) * 400);
        assert(y / 400 == ea + 1 && y % 400 == 0);
        assert(y % 4 == 0);
    } else {
        assert(y == ea * 400 + (ra + 1));
        assert(y / 400 == ea && y % 400 == ra + 1);
        assert(y % 4 == (ra + 1) % 4);
        assert(y % 100 == (ra + 1) % 100);
        lemma_div_step(ra, 4);
        lemma_div_step(ra, 100);
    }
}

/// Calendar days are consecutive: the next day within a month, the first of
/// the next month after a month's last day, and 1 January after 31 December
/// are each exactly one day later; and 1970-01-01 is day 0.
pub proof fn lemma_calendar_days_consecutive(y: int, m: int, d: int)
    requires
        1 <= m <= 12,
        1 <= d <= days_in_month(y, m),
    ensures
        days_from_civil_spec(1970, 1, 1) == 0,
        days_from_civil_spec(y, m, d) + 1 == if d < days_in_month(y, m) {
            days_from_civil_spec(y, m, d + 1)
        } else if m < 12 {
            days_from_civil_spec(y, m + 1, 1)
        } else {
            days_from_civil_spec(y + 1, 1, 1)
        },
{
    if m == 2 && d == days_in_month(y, m) {
        lemma_march_year_length(y);
    }
}

/// A digit run starting inside `b` ends inside `b` when what follows `b`
/// starts with a non-digit, wherever `b` is continued, and holds only digits.
proof fn lemma_digit_run_in(b: Seq<char>, s: Seq<char>, t: Seq<char>, i: nat)
    requires
        i <= b.len(),
        s.len() > 0,
        t.len() > 0,
        !is_digit(s[0]),
        !is_digit(t[0]),
    ensures
        digit_run_end(b + s, i) == digit_run_end(b + t, i),
        i <= digit_run_end(b + s, i) <= b.len(),
        forall|k: int| i <= k < digit_run_end(b + s, i) ==> is_digit(#[trigger] b[k]),
    decreases b.len() - i,
{
    if i < b.len() {
        assert((b + s)[i as int] == b[i as int] && (b + t)[i as int] == b[i as int]);
        if is_digit(b[i as int]) {
            lemma_digit_run_in(b, s, t, i + 1);
        }
    } else {
        assert((b + s)[i as int] == s[0] && (b + t)[i as int] == t[0]);
    }
}

/// A UTC offset moves the instant a local time names: `-HH:MM` names the
/// instant `HH*60+MM` minutes after the same local time in UTC (`Z`), and
/// `+HH:MM` the instant as many minutes before it.
pub proof fn lemma_utc_offset_shifts_instant(b: Seq<char>, hh: Seq<char>, mm: Seq<char>)
    requires
        b.len() >= 19,
        hh.len() == 2,
        mm.len() == 2,
        all_digits(hh),
        all_digits(mm),
        decimal_value(hh) <= 23,
        decimal_value(mm) <= 59,
    ensures
        ({
            let v = decimal_value(hh) * 60 + decimal_value(mm);
            rfc3339_ms(b + seq!['Z']) matches Some(z) ==> {
                &&& rfc3339_ms(b + seq!['-'] + hh + seq![':'] + mm) matches Some(n) && n == z + v * 60_000
                &&& rfc3339_ms(b + seq!['+'] + hh + seq![':'] + mm) matches Some(p) && p == z - v * 60_000
            }
        }),
{
    let sz = seq!['Z'];
    let sn = seq!['-'] + hh + seq![':'] + mm;
    let sp = seq!['+'] + hh + seq![':'] + mm;
    let bz = b + sz;
    let bn = b + sn;
    let bp = b + sp;
    assert(b + seq!['-'] + hh + seq![':'] + mm =~= bn);
    assert(b + seq!['+'] + hh + seq![':'] + mm =~= bp);
    let v = decimal_value(hh) * 60 + decimal_value(mm);
    if rfc3339_ms(bz) is Some {
        assert(bz.len() >= 20 && bn.len() >= 20 && bp.len() >= 20);
        assert forall|lo: int, hi: int| 0 <= lo < hi <= 19 implies bz.subrange(lo, hi) =~= b.subrange(lo, hi)
            && bn.subrange(lo, hi) =~= b.subrange(lo, hi) && bp.subrange(lo, hi) =~= b.subrange(lo, hi) by {}
        assert(bz.subrange(0, 4) == b.subrange(0, 4) && bn.subrange(0, 4) == b.subrange(0, 4) && bp.subrange(0, 4) == b.subrange(0, 4));
        assert(bz.subrange(5, 7) == b.subrange(5, 7) && bn.subrange(5, 7) == b.subrange(5, 7) && bp.subrange(5, 7) == b.subrange(5, 7));
        assert(bz.subrange(8, 10) == b.subrange(8, 10) && bn.subrange(8, 10) == b.subrange(8, 10) && bp.subrange(8, 10) == b.subrange(8, 10));
        assert(bz.subrange(11, 13) == b.subrange(11, 13) && bn.subrange(11, 13) == b.subrange(11, 13) && bp.subrange(11, 13) == b.subrange(11, 13));
        assert(bz.subrange(14, 16) == b.subrange(14, 16) && bn.subrange(14, 16) == b.subrange(14, 16) && bp.subrange(14, 16) == b.subrange(14, 16));
        assert(bz.subrange(17, 19) == b.subrange(17, 19) && bn.subrange(17, 19) == b.subrange(17, 19) && bp.subrange(17, 19) == b.subrange(17, 19));
        assert(bz[4] == b[4] && bn[4] == b[4] && bp[4] == b[4]);
        assert(bz[7] == b[7] && bn[7] == b[7] && bp[7] == b[7]);
        assert(bz[10] == b[10] && bn[10] == b[10] && bp[10] == b[10]);
        assert(bz[13] == b[13] && bn[13] == b[13] && bp[13] == b[13]);
        assert(bz[16] == b[16] && bn[16] == b[16] && bp[16] == b[16]);
        let y = decimal_value(b.subrange(0, 4)) as int;
        lemma_short_decimal_bound(b.subrange(0, 4));
        let has_frac = bz[19] == '.';
        if b.len() == 19 {
            assert(bz[19] == 'Z' && bn[19] == '-' && bp[19] == '+');
        } else {
            assert(bz[19] == b[19] && bn[19] == b[19] && bp[19] == b[19]);
        }
        assert(bn[19] == '.' <==> has_frac);
        assert(bp[19] == '.' <==> has_frac);
        let end = digit_run_end(bz, 20) as int;
        let mut i: int = 19;
        if has_frac {
            assert(sn[0] == '-' && sp[0] == '+');
            lemma_digit_run_in(b, sz, sn, 20);
            lemma_digit_run_in(b, sz, sp, 20);
            assert(bz.subrange(20, end) =~= b.subrange(20, end));
            assert(bn.subrange(20, end) =~= b.subrange(20, end));
            assert(bp.subrange(20, end) =~= b.subrange(20, end));
            let padded = (b.subrange(20, end) + seq!['0', '0', '0']).take(3);
            assert(all_digits(padded)) by {
                assert forall|k: int| 0 <= k < padded.len() implies is_digit(#[trigger] padded[k]) by {
                    if k < end - 20 {
                        assert(padded[k] == b[20 + k]);
                    }
                }
            }
            lemma_short_decimal_bound(padded);
            i = end;
        }
        // the text in UTC parses only when its `Z` closes the text
        assert(i == b.len()) by {
            if i != b.len() {
                assert(i < b.len());
                if bz.len() == i + 6 {
                    assert(bz.subrange(i + 4, i + 6)[1] == 'Z');
                    assert(!all_digits(bz.subrange(i + 4, i + 6)));
                }
            }
        }
        assert(bn[i] == '-' && bn[i + 3] == ':' && bn.len() == i + 6);
        assert(bp[i] == '+' && bp[i + 3] == ':' && bp.len() == i + 6);
        assert(bn.subrange(i + 1, i + 3) =~= hh && bp.subrange(i + 1, i + 3) =~= hh);
        assert(bn.subrange(i + 4, i + 6) =~= mm && bp.subrange(i + 4, i + 6) =~= mm);
        assert(bz[i] == 'Z');
        let mo = decimal_value(b.subrange(5, 7)) as int;
        let d = decimal_value(b.subrange(8, 10)) as int;
        if 1 <= mo <= 12 && 1 <= d <= 31 && 0 <= y <= 9999 {
            lemma_days_bounded(y, mo, d);
        }
    }
}

// ------------------------------------------------------------------ records

/// Why a record lacks its natural key.
pub open spec fn missing_key_msg(field: Seq<char>) -> Seq<char> {
    "missing natural key field '"@ + field + "'"@
}

/// Why a record's timestamp was refused.
pub open spec fn bad_timestamp_msg(value: Seq<char>, field: Seq<char>) -> Seq<char> {
    "unparseable timestamp '"@ + value + "' in field '"@ + field + "'"@
}

/// Why a record carrying the row-timestamp field was refused.
pub open spec fn reserved_field_msg() -> Seq<char> {
    "reserved field name"@
}

/// The record made from a fragment's fields: the natural key field must be
/// present and non-empty, and no field may be named `_updated_at` (the key
/// surface shows the row timestamp under that name); a configured timestamp
/// field that is present must parse (its value then orders the record),
/// otherwise `now` does. A refusal is `(fragment, reason)`.
pub open spec fn build_record_spec(
    cfg: SourceConfig,
    fields: Map<Seq<char>, Seq<char>>,
    fragment: Seq<char>,
    now: i64,
) -> Result<RecordSpec, (Seq<char>, Seq<char>)> {
    let nk = cfg.natural_key_field@;
    if !(fields.contains_key(nk) && fields[nk].len() > 0) {
        Err((fragment, missing_key_msg(nk)))
    } else if fields.contains_key(updated_at_field()) {
        Err((fragment, reserved_field_msg()))
    } else {
        let rec = |ts: i64|
            RecordSpec {
                collection: cfg.collection@,
                natural_key: fields[nk],
                source: cfg.source_id@,
                fields: fields,
                updated_at: ts,
            };
        match cfg.timestamp_field {
            Some(tf) => if fields.contains_key(tf@) {
                match timestamp_ms(fields[tf@]) {
                    Some(ms) => Ok(rec(ms)),
                    None => Err((fragment, bad_timestamp_msg(fields[tf@], tf@))),
                }
            } else {
                Ok(rec(now))
            },
            None => Ok(rec(now)),
        }
    }
}

/// A record or a reject, as plain values.
pub open spec fn step_view(r: Result<CanonicalRecord, (String, String)>) -> Result<
    RecordSpec,
    (Seq<char>, Seq<char>),
> {
    match r {
        Ok(rec) => Ok(rec.view()),
        Err(e) => Err((e.0@, e.1@)),
    }
}

fn build_record(cfg: &SourceConfig, fields: FieldMap, fragment: &str, now_ms: i64) -> (r: Result<
    CanonicalRecord,
    (String, String),
>)
    ensures
        step_view(r) == build_record_spec(*cfg, fields.map(), fragment@, now_ms),
{
    let natural_key = match fields.get(cfg.natural_key_field.as_str()) {
        Some(k) if k.as_str().unicode_len() > 0 => k.clone(),
        _ => {
            return Err(
                (
                    string_of(fragment),
                    concat3("missing natural key field '", cfg.natural_key_field.as_str(), "'"),
                ),
            );
        },
    };
    if fields.contains_key("_updated_at") {
        return Err((string_of(fragment), string_of("reserved field name")));
    }
    let mut updated_at = now_ms;
    match &cfg.timestamp_field {
        Some(tf) => {
            match fields.get(tf.as_str()) {
                Some(v) => match parse_timestamp_ms(v.as_str()) {
                    Some(ms) => {
                        updated_at = ms;
                    },
                    None => {
                        let head = concat3("unparseable timestamp '", v.as_str(), "' in field '");
                        return Err((string_of(fragment), concat3(head.as_str(), tf.as_str(), "'")));
                    },
                },
                None => {},
            }
        },
        None => {},
    }
    let rec = CanonicalRecord {
        collection: cfg.collection.clone(),
        natural_key,
        source: cfg.source_id.clone(),
        fields,
        updated_at,
    };
    Ok(rec)
}

/// Adds one record or reject to an outcome.
pub open spec fn outcome_push(o: OutcomeSpec, r: Result<RecordSpec, (Seq<char>, Seq<char>)>) -> OutcomeSpec {
    match r {
        Ok(rec) => OutcomeSpec { records: o.records.push(rec), rejects: o.rejects },
        Err(rej) => OutcomeSpec { records: o.records, rejects: o.rejects.push(rej) },
    }
}

/// The empty outcome.
pub open spec fn empty_outcome() -> OutcomeSpec {
    OutcomeSpec { records: Seq::empty(), rejects: Seq::empty() }
}

fn push_step(out: &mut NormalizeOutcome, r: Result<CanonicalRecord, (String, String)>)
    ensures
        final(out).view() == outcome_push(old(out).view(), step_view(r)),
{
    match r {
        Ok(rec) => {
            let ghost before = out.records@;
            out.records.push(rec);
            assert(out.records@.map_values(|r: CanonicalRecord| r.view()) =~= before.map_values(
                |r: CanonicalRecord| r.view(),
            ).push(out.records@.last().view()));
        },
        Err(rej) => {
            let ghost before = out.rejects@;
            out.rejects.push(rej);
            assert(rejects_view(out.rejects@) =~= rejects_view(before).push(
                (out.rejects@.last().0@, out.rejects@.last().1@),
            ));
        },
    }
}

fn empty_normalize_outcome() -> (o: NormalizeOutcome)
    ensures
        o.view() == empty_outcome(),
{
    let o = NormalizeOutcome { records: Vec::new(), rejects: Vec::new() };
    assert(o.view() =~= empty_outcome()) by {
        assert(o.view().records =~= Seq::<RecordSpec>::empty());
        assert(o.view().rejects =~= Seq::<(Seq<char>, Seq<char>)>::empty());
    }
    o
}

// ---------------------------------------------------------------------- CSV

/// The first header (in order) that repeats an earlier one, looking from `j`.
pub open spec fn first_dup_from(h: Seq<Seq<char>>, j: nat) -> Option<Seq<char>>
    decreases h.len() - j,
{
    if j >= h.len() {
        None
    } else if h.take(j as int).contains(h[j as int]) {
        Some(h[j as int])
    } else {
        first_dup_from(h, j + 1)
    }
}

/// The map of the first `n` header/cell pairs, later pairs overriding.
pub open spec fn zip_take(keys: Seq<Seq<char>>, vals: Seq<Seq<char>>, n: nat) -> Map<
    Seq<char>,
    Seq<char>,
>
    decreases n,
{
    if n == 0 {
        Map::empty()
    } else {
        zip_take(keys, vals, (n - 1) as nat).insert(keys[n - 1], vals[n - 1])
    }
}

/// Why a row was refused for its width.
pub open spec fn columns_msg(header: nat, row: nat) -> Seq<char> {
    "expected "@ + nat_text(header) + " columns, got "@ + nat_text(row)
}

/// One data row: the wrong number of cells is a reject; otherwise the record
/// built from the header/cell map, with the raw line as its fragment.
pub open spec fn csv_row_step(
    cfg: SourceConfig,
    header: Seq<Seq<char>>,
    row: (Seq<Seq<char>>, Seq<char>),
    now: i64,
) -> Result<RecordSpec, (Seq<char>, Seq<char>)> {
    if row.0.len() != header.len() {
        Err((row.1, columns_msg(header.len(), row.0.len())))
    } else {
        build_record_spec(cfg, zip_take(header, row.0, header.len()), row.1, now)
    }
}

/// The outcome of the data rows, in order.
pub open spec fn csv_outcome(
    cfg: SourceConfig,
    header: Seq<Seq<char>>,
    rows: Seq<(Seq<Seq<char>>, Seq<char>)>,
    now: i64,
) -> OutcomeSpec
    decreases rows.len(),
{
    if rows.len() == 0 {
        empty_outcome()
    } else {
        outcome_push(
            csv_outcome(cfg, header, rows.drop_last(), now),
            csv_row_step(cfg, header, rows.last(), now),
        )
    }
}

/// A CSV payload: no rows at all, or a header that repeats a name, fails the
/// whole batch; otherwise every row after the header yields a record or a
/// reject.
pub open spec fn normalize_csv_spec(cfg: SourceConfig, payload: Seq<char>, now: i64) -> Result<
    OutcomeSpec,
    (u32, Seq<char>),
> {
    let rows = parse_csv(payload);
    if rows.len() == 0 {
        Err((1u32, "empty CSV payload"@))
    } else {
        match first_dup_from(rows[0].0, 0) {
            Some(h) => Err((1u32, "duplicate CSV header '"@ + h + "'"@)),
            None => Ok(csv_outcome(cfg, rows[0].0, rows.drop_first(), now)),
        }
    }
}

fn columns_message(header: usize, row: usize) -> (s: String)
    ensures
        s@ == columns_msg(header as nat, row as nat),
{
    let h = u64_to_string(header as u64);
    let r = u64_to_string(row as u64);
    let head = concat3("expected ", h.as_str(), " columns, got ");
    let mut out = String::from_str(head.as_str());
    out.append(r.as_str());
    out
}

fn zip_row(header: &Vec<String>, row: &Vec<String>) -> (m: FieldMap)
    requires
        header.len() == row.len(),
    ensures
        m.map() == zip_take(cells_view(header@), cells_view(row@), header.len() as nat),
{
    let mut m = FieldMap::new();
    let mut i: usize = 0;
    while i < header.len()
        invariant
            i <= header.len() == row.len(),
            m.map() == zip_take(cells_view(header@), cells_view(row@), i as nat),
        decreases header.len() - i,
    {
        m.insert(header[i].clone(), row[i].clone());
        i = i + 1;
    }
    m
}

fn find_duplicate_header(header: &Vec<String>) -> (r: Option<usize>)
    ensures
        match r {
            Some(j) => j < header.len() && first_dup_from(cells_view(header@), 0) == Some(
                header@[j as int]@,
            ),
            None => first_dup_from(cells_view(header@), 0) is None,
        },
{
    let ghost h = cells_view(header@);
    let mut j: usize = 0;
    while j < header.len()
        invariant
            j <= header.len(),
            h == cells_view(header@),
            first_dup_from(h, 0) == first_dup_from(h, j as nat),
        decreases header.len() - j,
    {
        let mut k: usize = 0;
        let mut dup = false;
        while k < j
            invariant
                k <= j < header.len(),
                h == cells_view(header@),
                dup == h.take(k as int).contains(h[j as int]),
            decreases j - k,
        {
            let c = crate::fieldmap::compare_text(header[k].as_str(), header[j].as_str());
            proof {
                assert(h.take(k + 1) =~= h.take(k as int).push(h[k as int]));
                if h.take(k as int).contains(h[j as int]) {
                    let w = choose|w: int| 0 <= w < k && #[trigger] h.take(k as int)[w] == h[j as int];
                    assert(h.take(k + 1)[w] == h[j as int]);
                }
                if c == 0 {
                    assert(h.take(k + 1)[k as int] == h[j as int]);
                }
                if h.take(k + 1).contains(h[j as int]) {
                    let w = choose|w: int| 0 <= w < k + 1 && #[trigger] h.take(k + 1)[w] == h[j as int];
                    if w < k {
                        assert(h.take(k as int)[w] == h[j as int]);
                    }
                }
            }
            if c == 0 {
                dup = true;
            }
            k = k + 1;
        }
        if dup {
            return Some(j);
        }
        j = j + 1;
    }
    None
}

/// Normalizes a CSV payload (see [`normalize_csv_spec`]).
pub fn normalize_csv(cfg: &SourceConfig, payload: &str, now_ms: i64) -> (r: Result<
    NormalizeOutcome,
    EngineError,
>)
    ensures
        match r {
            Ok(o) => normalize_csv_spec(*cfg, payload@, now_ms) == Ok::<OutcomeSpec, (u32, Seq<char>)>(o.view()),
            Err(e) => normalize_csv_spec(*cfg, payload@, now_ms) == Err::<OutcomeSpec, (u32, Seq<char>)>(err_view(e)),
        },
{
    let rows = parse_csv_rows(payload);
    let ghost rv = csv_rows_view(rows@);
    if rows.len() == 0 {
        return Err(EngineError::Parse(string_of("empty CSV payload")));
    }
    let header = &rows[0].0;
    assert(rv[0].0 == cells_view(header@));
    match find_duplicate_header(header) {
        Some(j) => {
            return Err(EngineError::Parse(concat3("duplicate CSV header '", header[j].as_str(), "'")));
        },
        None => {},
    }
    let ghost hv = cells_view(header@);
    let ghost data = rv.drop_first();
    let mut out = empty_normalize_outcome();
    let mut i: usize = 1;
    while i < rows.len()
        invariant
            1 <= i <= rows.len(),
            rv == csv_rows_view(rows@),
            hv == cells_view(header@),
            header == &rows@[0].0,
            data == rv.drop_first(),
            out.view() == csv_outcome(*cfg, hv, data.take(i - 1), now_ms),
        decreases rows.len() - i,
    {
        let row = &rows[i].0;
        let raw = &rows[i].1;
        proof {
            assert(data.take(i as int).drop_last() =~= data.take(i - 1));
            assert(data.take(i as int).last() == rv[i as int]);
            assert(rv[i as int] == (cells_view(row@), raw@));
        }
        if row.len() != header.len() {
            let msg = columns_message(header.len(), row.len());
            push_step(&mut out, Err((raw.clone(), msg)));
        } else {
            let fields = zip_row(header, row);
            let rec = build_record(cfg, fields, raw.as_str(), now_ms);
            push_step(&mut out, rec);
        }
        i = i + 1;
    }
    assert(data.take(i - 1) =~= data);
    Ok(out)
}

// --------------------------------------------------------------------- JSON

/// The last member named `k`.
pub open spec fn member(ms: Seq<(String, JsonNode)>, k: Seq<char>) -> Option<JsonNode>
    decreases ms.len(),
{
    if ms.len() == 0 {
        None
    } else if ms.last().0@ == k {
        Some(ms.last().1)
    } else {
        member(ms.drop_last(), k)
    }
}

/// The natural key is a non-empty string or an integer (one that fits `i64`
/// or `u64`); null, floats, booleans and containers are refused.
pub open spec fn key_ok(ms: Seq<(String, JsonNode)>, nk: Seq<char>) -> bool {
    match member(ms, nk) {
        Some(n) => match n.value {
            JsonValue::Str(s) => s@.len() > 0,
            JsonValue::Number(num) => num.as_i64 is Some || num.as_u64 is Some,
            _ => false,
        },
        None => false,
    }
}

/// A number's canonical text: integers print plainly, and a float that is
/// integral and below `2^53` in magnitude prints as that integer, so equal
/// numbers from different sources converge; other floats keep their text.
pub open spec fn number_text(n: JsonNumber) -> Seq<char> {
    match n.as_i64 {
        Some(i) => int_text(i as int),
        None => match n.as_u64 {
            Some(u) => nat_text(u as nat),
            None => match n.f64_bits {
                Some(b) => match integral_below_2_53(b) {
                    Some(v) => int_text(v),
                    None => n.text@,
                },
                None => n.text@,
            },
        },
    }
}

/// A field value as text: strings as they are, numbers canonicalized, and
/// anything else as its JSON text.
pub open spec fn value_text(n: JsonNode) -> Seq<char> {
    match n.value {
        JsonValue::Str(s) => s@,
        JsonValue::Number(num) => number_text(num),
        _ => n.text@,
    }
}

/// The fields of the first `n` members.
pub open spec fn members_fields(ms: Seq<(String, JsonNode)>, n: nat) -> Map<Seq<char>, Seq<char>>
    decreases n,
{
    if n == 0 {
        Map::empty()
    } else {
        members_fields(ms, (n - 1) as nat).insert(ms[n - 1].0@, value_text(ms[n - 1].1))
    }
}

/// Why an object's natural key was refused.
pub open spec fn invalid_key_msg(field: Seq<char>) -> Seq<char> {
    "invalid natural key field '"@ + field + "'"@
}

/// One array item: it must be an object with a usable natural key; its
/// fields, stringified, build the record, and its JSON text is the fragment.
pub open spec fn json_item_step(cfg: SourceConfig, item: JsonNode, now: i64) -> Result<
    RecordSpec,
    (Seq<char>, Seq<char>),
> {
    match item.value {
        JsonValue::Object(ms) => if !key_ok(ms@, cfg.natural_key_field@) {
            Err((item.text@, invalid_key_msg(cfg.natural_key_field@)))
        } else {
            build_record_spec(cfg, members_fields(ms@, ms@.len()), item.text@, now)
        },
        _ => Err((item.text@, "expected JSON object"@)),
    }
}

/// The outcome of the array items, in order.
pub open spec fn json_outcome(cfg: SourceConfig, items: Seq<JsonNode>, now: i64) -> OutcomeSpec
    decreases items.len(),
{
    if items.len() == 0 {
        empty_outcome()
    } else {
        outcome_push(
            json_outcome(cfg, items.drop_last(), now),
            json_item_step(cfg, items.last(), now),
        )
    }
}

/// A parsed JSON payload: a parse failure or a non-array document fails the
/// batch; otherwise each item yields a record or a reject.
pub open spec fn normalize_json_spec(cfg: SourceConfig, doc: Result<JsonNode, Seq<char>>, now: i64) -> Result<
    OutcomeSpec,
    (u32, Seq<char>),
> {
    match doc {
        Err(m) => Err((1u32, m)),
        Ok(n) => match n.value {
            JsonValue::Array(items) => Ok(json_outcome(cfg, items@, now)),
            _ => Err((1u32, "expected top-level JSON array"@)),
        },
    }
}

/// A parse result with its message as text.
pub open spec fn doc_view(doc: Result<JsonNode, String>) -> Result<JsonNode, Seq<char>> {
    match doc {
        Ok(n) => Ok(n),
        Err(e) => Err(e@),
    }
}

/// What `normalize` does with a payload of either format.
pub open spec fn normalize_spec(cfg: SourceConfig, payload: Seq<char>, now: i64) -> Result<
    OutcomeSpec,
    (u32, Seq<char>),
> {
    match cfg.format {
        SourceFormat::Json => normalize_json_spec(cfg, json_parse(payload), now),
        SourceFormat::Csv => normalize_csv_spec(cfg, payload, now),
    }
}

/// A normalize result as plain values.
pub open spec fn result_view(r: Result<NormalizeOutcome, EngineError>) -> Result<OutcomeSpec, (u32, Seq<char>)> {
    match r {
        Ok(o) => Ok(o.view()),
        Err(e) => Err(err_view(e)),
    }
}

fn number_to_string(n: &JsonNumber) -> (s: String)
    ensures
        s@ == number_text(*n),
{
    match n.as_i64 {
        Some(i) => i64_to_string(i),
        None => match n.as_u64 {
            Some(u) => u64_to_string(u),
            None => match n.f64_bits {
                Some(b) => match bits_integral_below_2_53(b) {
                    Some(v) => i64_to_string(v),
                    None => n.text.clone(),
                },
                None => n.text.clone(),
            },
        },
    }
}

fn value_to_string(n: &JsonNode) -> (s: String)
    ensures
        s@ == value_text(*n),
{
    match &n.value {
        JsonValue::Str(s) => s.clone(),
        JsonValue::Number(num) => number_to_string(num),
        _ => n.text.clone(),
    }
}

pub(crate) fn find_member<'a>(ms: &'a Vec<(String, JsonNode)>, k: &str) -> (r: Option<&'a JsonNode>)
    ensures
        match r {
            Some(n) => member(ms@, k@) == Some(*n),
            None => member(ms@, k@) is None,
        },
{
    let mut i: usize = ms.len();
    assert(ms@.take(i as int) =~= ms@);
    while i > 0
        invariant
            i <= ms.len(),
            member(ms@, k@) == member(ms@.take(i as int), k@),
        decreases i,
    {
        proof {
            assert(ms@.take(i as int).drop_last() =~= ms@.take(i - 1));
            assert(ms@.take(i as int).last() == ms@[i - 1]);
        }
        let c = crate::fieldmap::compare_text(ms[i - 1].0.as_str(), k);
        if c == 0 {
            return Some(&ms[i - 1].1);
        }
        i = i - 1;
    }
    None
}

fn natural_key_ok(ms: &Vec<(String, JsonNode)>, nk: &str) -> (r: bool)
    ensures
        r == key_ok(ms@, nk@),
{
    match find_member(ms, nk) {
        Some(n) => match &n.value {
            JsonValue::Str(s) => s.as_str().unicode_len() > 0,
            JsonValue::Number(num) => num.as_i64.is_some() || num.as_u64.is_some(),
            _ => false,
        },
        None => false,
    }
}

fn object_fields(ms: &Vec<(String, JsonNode)>) -> (m: FieldMap)
    ensures
        m.map() == members_fields(ms@, ms@.len()),
{
    let mut m = FieldMap::new();
    let mut i: usize = 0;
    while i < ms.len()
        invariant
            i <= ms.len(),
            m.map() == members_fields(ms@, i as nat),
        decreases ms.len() - i,
    {
        let v = value_to_string(&ms[i].1);
        m.insert(ms[i].0.clone(), v);
        i = i + 1;
    }
    m
}

fn json_item(cfg: &SourceConfig, item: &JsonNode, now_ms: i64) -> (r: Result<
    CanonicalRecord,
    (String, String),
>)
    ensures
        step_view(r) == json_item_step(*cfg, *item, now_ms),
{
    match &item.value {
        JsonValue::Object(ms) => {
            if !natural_key_ok(ms, cfg.natural_key_field.as_str()) {
                Err(
                    (
                        item.text.clone(),
                        concat3("invalid natural key field '", cfg.natural_key_field.as_str(), "'"),
                    ),
                )
            } else {
                let fields = object_fields(ms);
                build_record(cfg, fields, item.text.as_str(), now_ms)
            }
        },
        _ => Err((item.text.clone(), string_of("expected JSON object"))),
    }
}

/// The part of JSON normalization that follows the parse (see
/// [`normalize_json_spec`]).
pub fn normalize_parsed_json(cfg: &SourceConfig, doc: Result<JsonNode, String>, now_ms: i64) -> (r: Result<
    NormalizeOutcome,
    EngineError,
>)
    ensures
        result_view(r) == normalize_json_spec(*cfg, doc_view(doc), now_ms),
{
    let node = match doc {
        Ok(n) => n,
        Err(m) => {
            return Err(EngineError::Parse(m));
        },
    };
    let items = match &node.value {
        JsonValue::Array(items) => items,
        _ => {
            return Err(EngineError::Parse(string_of("expected top-level JSON array")));
        },
    };
    let mut out = empty_normalize_outcome();
    let mut i: usize = 0;
    while i < items.len()
        invariant
            i <= items.len(),
            out.view() == json_outcome(*cfg, items@.take(i as int), now_ms),
        decreases items.len() - i,
    {
        proof {
            assert(items@.take(i + 1).drop_last() =~= items@.take(i as int));
            assert(items@.take(i + 1).last() == items@[i as int]);
        }
        let step = json_item(cfg, &items[i], now_ms);
        push_step(&mut out, step);
        i = i + 1;
    }
    assert(items@.take(i as int) =~= items@);
    Ok(out)
}

fn normalize_json(cfg: &SourceConfig, payload: &str, now_ms: i64) -> (r: Result<
    NormalizeOutcome,
    EngineError,
>)
    ensures
        result_view(r) == normalize_json_spec(*cfg, json_parse(payload@), now_ms),
{
    let doc = parse_json(payload);
    assert(doc_view(doc) == json_parse(payload@));
    normalize_parsed_json(cfg, doc, now_ms)
}

/// Normalizes a payload of the source's format into records and rejects
/// (see [`normalize_spec`]).
pub fn normalize(cfg: &SourceConfig, payload: &str, now_ms: i64) -> (r: Result<
    NormalizeOutcome,
    EngineError,
>)
    ensures
        result_view(r) == normalize_spec(*cfg, payload@, now_ms),
{
    match cfg.format {
        SourceFormat::Json => normalize_json(cfg, payload, now_ms),
        SourceFormat::Csv => {
            let r = normalize_csv(cfg, payload, now_ms);
            r
        },
    }
}


/// A record carries its source's collection and id, and its natural key is
/// the non-empty value of the configured key field.
pub open spec fn well_keyed(cfg: SourceConfig, r: RecordSpec) -> bool {
    let nk = cfg.natural_key_field@;
    &&& r.collection == cfg.collection@
    &&& r.source == cfg.source_id@
    &&& r.fields.contains_key(nk)
    &&& r.natural_key == r.fields[nk]
    &&& r.natural_key.len() > 0
}

/// Every record a payload yields is well keyed.
pub open spec fn all_well_keyed(cfg: SourceConfig, o: OutcomeSpec) -> bool {
    forall|i: int| 0 <= i < o.records.len() ==> well_keyed(cfg, #[trigger] o.records[i])
}

proof fn lemma_push_accounts(cfg: SourceConfig, o: OutcomeSpec, r: Result<RecordSpec, (Seq<char>, Seq<char>)>)
    requires
        all_well_keyed(cfg, o),
        r matches Ok(rec) ==> well_keyed(cfg, rec),
    ensures
        all_well_keyed(cfg, outcome_push(o, r)),
        outcome_push(o, r).records.len() + outcome_push(o, r).rejects.len() == o.records.len()
            + o.rejects.len() + 1,
{
    let o2 = outcome_push(o, r);
    assert forall|i: int| 0 <= i < o2.records.len() implies well_keyed(cfg, #[trigger] o2.records[i]) by {
        if i < o.records.len() {
            assert(o2.records[i] == o.records[i]);
        }
    }
}

/// JSON: every array item yields exactly one record or one reject, and every
/// record is well keyed.
pub proof fn lemma_json_outcome_accounts(cfg: SourceConfig, items: Seq<JsonNode>, now: i64)
    ensures
        json_outcome(cfg, items, now).records.len() + json_outcome(cfg, items, now).rejects.len()
            == items.len(),
        all_well_keyed(cfg, json_outcome(cfg, items, now)),
    decreases items.len(),
{
    if items.len() > 0 {
        lemma_json_outcome_accounts(cfg, items.drop_last(), now);
        lemma_push_accounts(cfg, json_outcome(cfg, items.drop_last(), now), json_item_step(cfg, items.last(), now));
    }
}

/// CSV: every data row yields exactly one record or one reject, and every
/// record is well keyed.
pub proof fn lemma_csv_outcome_accounts(
    cfg: SourceConfig,
    header: Seq<Seq<char>>,
    rows: Seq<(Seq<Seq<char>>, Seq<char>)>,
    now: i64,
)
    ensures
        csv_outcome(cfg, header, rows, now).records.len() + csv_outcome(cfg, header, rows, now).rejects.len()
            == rows.len(),
        all_well_keyed(cfg, csv_outcome(cfg, header, rows, now)),
    decreases rows.len(),
{
    if rows.len() > 0 {
        lemma_csv_outcome_accounts(cfg, header, rows.drop_last(), now);
        lemma_push_accounts(
            cfg,
            csv_outcome(cfg, header, rows.drop_last(), now),
            csv_row_step(cfg, header, rows.last(), now),
        );
    }
}

/// A normalized payload accounts for every item: the records and rejects
/// together number the array's items (JSON) or the rows after the header
/// (CSV), and every record carries its source's collection and id and a
/// non-empty natural key equal to its key field.
pub proof fn lemma_normalize_accounts(cfg: SourceConfig, payload: Seq<char>, now: i64)
    ensures
        normalize_spec(cfg, payload, now) matches Ok(o) ==> {
            &&& all_well_keyed(cfg, o)
            &&& match cfg.format {
                SourceFormat::Json => json_parse(payload) matches Ok(doc) && doc.value matches JsonValue::Array(
                    items,
                ) && o.records.len() + o.rejects.len() == items@.len(),
                SourceFormat::Csv => o.records.len() + o.rejects.len() == parse_csv(payload).len() - 1,
            }
        },
{
    match cfg.format {
        SourceFormat::Json => {
            if let Ok(doc) = json_parse(payload) {
                if let JsonValue::Array(items) = doc.value {
                    lemma_json_outcome_accounts(cfg, items@, now);
                }
            }
        },
        SourceFormat::Csv => {
            let rows = parse_csv(payload);
            if rows.len() > 0 {
                lemma_csv_outcome_accounts(cfg, rows[0].0, rows.drop_first(), now);
            }
        },
    }
}

} // verus!
