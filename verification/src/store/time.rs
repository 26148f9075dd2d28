//! Instants named in notes and in `--since` specs, as `(seconds since the
//! epoch, nanoseconds)` in UTC. The calendar parsing is chrono's.

use vstd::prelude::*;
use crate::text::{chars_of, string_of, trim, trim_seq, is_digit, digit, is_lower, is_upper, slice};
use crate::store::read::digits_value;

verus! {

/// The instant chrono's `DateTime::parse_from_rfc3339` reads from `s`.
pub uninterp spec fn rfc3339(s: Seq<char>) -> Option<(i64, u32)>;

/// The UTC instant chrono's `NaiveDateTime::parse_from_str` reads from `s`
/// in format `fmt`.
pub uninterp spec fn naive_datetime(s: Seq<char>, fmt: Seq<char>) -> Option<(i64, u32)>;

/// The UTC midnight starting the day chrono's `NaiveDate::parse_from_str`
/// reads from `s` in format `fmt`.
pub uninterp spec fn naive_date(s: Seq<char>, fmt: Seq<char>) -> Option<i64>;

/// Calls `chrono::DateTime::parse_from_rfc3339`; the instant is named
/// [`rfc3339`] of the text.
#[verifier::external_body]
fn parse_rfc3339(s: &str) -> (r: Option<(i64, u32)>)
    ensures
        r == rfc3339(s@),
{
    match chrono::DateTime::parse_from_rfc3339(s) {
        Ok(d) => Some((d.timestamp(), d.timestamp_subsec_nanos())),
        Err(_) => None,
    }
}

/// Calls `chrono::NaiveDateTime::parse_from_str`, read as UTC; named
/// [`naive_datetime`] of the text and format. Only the `--since` format is
/// admitted: with a timestamp item (`%s`) chrono can overflow and panic.
#[verifier::external_body]
fn parse_naive_datetime(s: &str, fmt: &str) -> (r: Option<(i64, u32)>)
    requires
        fmt@ == datetime_format(),
    ensures
        r == naive_datetime(s@, fmt@),
{
    match chrono::NaiveDateTime::parse_from_str(s, fmt) {
        Ok(d) => Some((d.and_utc().timestamp(), d.and_utc().timestamp_subsec_nanos())),
        Err(_) => None,
    }
}

/// Calls `chrono::NaiveDate::parse_from_str` and takes that day's UTC
/// midnight; named [`naive_date`] of the text and format.
#[verifier::external_body]
fn parse_naive_date(s: &str, fmt: &str) -> (r: Option<i64>)
    ensures
        r == naive_date(s@, fmt@),
{
    match chrono::NaiveDate::parse_from_str(s, fmt) {
        Ok(d) => match d.and_hms_opt(0, 0, 0) {
            Some(m) => Some(m.and_utc().timestamp()),
            None => None,
        },
        Err(_) => None,
    }
}

/// The instant an RFC 3339 timestamp names, if it is one.
pub fn parse_ts(s: &str) -> (r: Option<(i64, u32)>)
    ensures
        r == rfc3339(s@),
{
    parse_rfc3339(s)
}

/// `a` is strictly before `b`.
pub open spec fn instant_lt(a: (i64, u32), b: (i64, u32)) -> bool {
    a.0 < b.0 || (a.0 == b.0 && a.1 < b.1)
}

/// `str::parse::<i64>`: an optional sign, then at least one digit, with a
/// value that fits.
/// `s` without one leading sign.
pub open spec fn signless(s: Seq<char>) -> Seq<char> {
    if s.len() > 0 && (s[0] == '+' || s[0] == '-') {
        s.drop_first()
    } else {
        s
    }
}

pub open spec fn parse_i64_spec(s: Seq<char>) -> Option<i64> {
    let neg = s.len() > 0 && s[0] == '-';
    let b = signless(s);
    if b.len() > 0 && (forall|i: int| 0 <= i < b.len() ==> is_digit(b[i])) {
        if neg && digits_value(b) <= 0x8000_0000_0000_0000 {
            Some((0 - digits_value(b)) as i64)
        } else if !neg && digits_value(b) <= 0x7fff_ffff_ffff_ffff {
            Some(digits_value(b) as i64)
        } else {
            None
        }
    } else {
        None
    }
}

proof fn lemma_digits_value_mono(s: Seq<char>, k: int)
    requires
        0 <= k <= s.len(),
        forall|i: int| 0 <= i < s.len() ==> is_digit(s[i]),
    ensures
        digits_value(s.take(k)) <= digits_value(s),
    decreases s.len(),
{
    if k < s.len() {
        assert(s.drop_last().take(k) == s.take(k));
        lemma_digits_value_mono(s.drop_last(), k);
    } else {
        assert(s.take(k) == s);
    }
}

pub fn parse_i64(s: &[char]) -> (r: Option<i64>)
    ensures
        r == parse_i64_spec(s@),
{
    let neg = s.len() > 0 && s[0] == '-';
    let from: usize = if s.len() > 0 && (s[0] == '+' || s[0] == '-') { 1 } else { 0 };
    let ghost b = signless(s@);
    assert(b == s@.skip(from as int));
    if from >= s.len() {
        return None;
    }
    let mut v: u64 = 0;
    let mut i = from;
    assert(b.take(0) =~= Seq::<char>::empty());
    while i < s.len()
        invariant
            from <= i <= s.len(),
            b == s@.skip(from as int),
            b == signless(s@),
            forall|j: int| from <= j < i ==> is_digit(s@[j]),
            v == digits_value(b.take(i - from)),
            v <= 0x8000_0000_0000_0000u64,
        decreases s.len() - i,
    {
        if !digit(s[i]) {
            assert(!is_digit(b[i - from]));
            assert(!(forall|j: int| 0 <= j < b.len() ==> is_digit(b[j])));
            assert(parse_i64_spec(s@) is None);
            return None;
        }
        let d = (s[i] as u32 - '0' as u32) as u64;
        proof {
            assert(b.take(i - from + 1).drop_last() == b.take(i - from));
            assert(b.take(i - from + 1).last() == s@[i as int]);
        }
        if v > 0x0ccc_cccc_cccc_cccc {
            proof {
                assert(digits_value(b.take(i - from + 1)) == v * 10 + d);
                if forall|j: int| 0 <= j < b.len() ==> is_digit(b[j]) {
                    lemma_digits_value_mono(b, i - from + 1);
                }
                assert(parse_i64_spec(s@) is None);
            }
            return None;
        }
        v = v * 10 + d;
        assert(v == digits_value(b.take(i - from + 1)));
        if v > 0x8000_0000_0000_0000u64 {
            proof {
                if forall|j: int| 0 <= j < b.len() ==> is_digit(b[j]) {
                    lemma_digits_value_mono(b, i - from + 1);
                }
                assert(parse_i64_spec(s@) is None);
            }
            return None;
        }
        i += 1;
    }
    assert(b.take(s.len() - from) == b);
    if neg {
        if v == 0x8000_0000_0000_0000u64 {
            Some(i64::MIN)
        } else {
            Some(0 - (v as i64))
        }
    } else if v <= 0x7fff_ffff_ffff_ffffu64 {
        Some(v as i64)
    } else {
        None
    }
}

pub open spec fn ascii_alpha(c: char) -> bool {
    is_lower(c) || is_upper(c)
}

/// The index of the first ASCII letter in `s`.
pub open spec fn first_alpha(s: Seq<char>, i: int) -> Option<int>
    decreases s.len() - i,
{
    if i < 0 || i >= s.len() {
        None
    } else if ascii_alpha(s[i]) {
        Some(i)
    } else {
        first_alpha(s, i + 1)
    }
}

/// The seconds in one unit of a relative spec.
pub open spec fn unit_seconds(u: Seq<char>) -> Option<int> {
    if u == seq!['s'] {
        Some(1)
    } else if u == seq!['m'] {
        Some(60)
    } else if u == seq!['h'] {
        Some(3600)
    } else if u == seq!['d'] {
        Some(86400)
    } else if u == seq!['w'] {
        Some(604800)
    } else {
        None
    }
}

/// A relative spec (`<int><unit>`, e.g. `2h`), resolved against `now`.
pub open spec fn relative_spec(s: Seq<char>, now: (i64, u32)) -> Option<(i64, u32)> {
    match first_alpha(s, 0) {
        Some(idx) => if idx == 0 {
            None
        } else {
            match (parse_i64_spec(trim_seq(s.take(idx))), unit_seconds(s.skip(idx))) {
                (Some(n), Some(u)) => {
                    let v = now.0 - n * u;
                    if i64::MIN <= v <= i64::MAX {
                        Some((v as i64, now.1))
                    } else {
                        None
                    }
                },
                _ => None,
            }
        },
        None => None,
    }
}

pub open spec fn datetime_format() -> Seq<char> {
    "%Y-%m-%dT%H:%M:%S"@
}

pub open spec fn date_format() -> Seq<char> {
    "%Y-%m-%d"@
}

/// The instant a `--since` spec names relative to `now`: a duration back
/// from now, an RFC 3339 timestamp, a naive `YYYY-MM-DDTHH:MM:SS` (UTC), or
/// a `YYYY-MM-DD` date (midnight UTC), tried in that order.
pub open spec fn since_spec(spec: Seq<char>, now: (i64, u32)) -> Option<(i64, u32)> {
    let s = trim_seq(spec);
    match relative_spec(s, now) {
        Some(t) => Some(t),
        None => match rfc3339(s) {
            Some(t) => Some(t),
            None => match naive_datetime(s, datetime_format()) {
                Some(t) => Some(t),
                None => match naive_date(s, date_format()) {
                    Some(d) => Some((d, 0u32)),
                    None => None,
                },
            },
        },
    }
}

fn relative(s: &[char], now: (i64, u32)) -> (r: Option<(i64, u32)>)
    ensures
        r == relative_spec(s@, now),
{
    let mut idx: usize = 0;
    while idx < s.len() && !(('a' <= s[idx] && s[idx] <= 'z') || ('A' <= s[idx] && s[idx] <= 'Z'))
        invariant
            idx <= s.len(),
            first_alpha(s@, 0) == first_alpha(s@, idx as int),
        decreases s.len() - idx,
    {
        idx += 1;
    }
    if idx >= s.len() || idx == 0 {
        return None;
    }
    let n = match parse_i64(&trim(&slice(s, 0, idx))) {
        Some(n) => n,
        None => {
            assert(s@.take(idx as int) == s@.subrange(0, idx as int));
            return None;
        },
    };
    assert(s@.take(idx as int) == s@.subrange(0, idx as int));
    let unit = slice(s, idx, s.len());
    assert(s@.skip(idx as int) == unit@);
    let u: i64 = if unit.len() == 1 && unit[0] == 's' {
        1
    } else if unit.len() == 1 && unit[0] == 'm' {
        60
    } else if unit.len() == 1 && unit[0] == 'h' {
        3600
    } else if unit.len() == 1 && unit[0] == 'd' {
        86400
    } else if unit.len() == 1 && unit[0] == 'w' {
        604800
    } else {
        proof {
            if unit@.len() == 1 {
                assert(unit@ != seq!['s'] && unit@ != seq!['m'] && unit@ != seq!['h'] && unit@ != seq!['d'] && unit@ != seq!['w']) by {
                    if unit@ == seq!['s'] { assert(unit@[0] == 's'); }
                    if unit@ == seq!['m'] { assert(unit@[0] == 'm'); }
                    if unit@ == seq!['h'] { assert(unit@[0] == 'h'); }
                    if unit@ == seq!['d'] { assert(unit@[0] == 'd'); }
                    if unit@ == seq!['w'] { assert(unit@[0] == 'w'); }
                }
            }
        }
        return None;
    };
    proof {
        assert(unit@ =~= seq![unit@[0]]);
    }
    let back = (n as i128) * (u as i128);
    let v = (now.0 as i128) - back;
    if v < (i64::MIN as i128) || v > (i64::MAX as i128) {
        return None;
    }
    Some((v as i64, now.1))
}

/// Resolve a `--since` spec to an instant, relative to `now`. Accepts a
/// relative duration (an integer then `s`/`m`/`h`/`d`/`w`, e.g. `2h`,
/// `3d`, `1w`), a `YYYY-MM-DD` date (midnight UTC), a naive
/// `YYYY-MM-DDTHH:MM:SS` datetime (UTC), or a full RFC 3339 timestamp.
pub fn parse_since(spec: &str, now: (i64, u32)) -> (r: Result<(i64, u32), String>)
    ensures
        match r {
            Ok(t) => since_spec(spec@, now) == Some(t),
            Err(_) => since_spec(spec@, now) is None,
        },
{
    let s = trim(&chars_of(spec));
    if let Some(t) = relative(&s, now) {
        return Ok(t);
    }
    let st = string_of(&s);
    if let Some(t) = parse_rfc3339(st.as_str()) {
        return Ok(t);
    }
    proof {
        reveal_strlit("%Y-%m-%dT%H:%M:%S");
    }
    if let Some(t) = parse_naive_datetime(st.as_str(), "%Y-%m-%dT%H:%M:%S") {
        return Ok(t);
    }
    if let Some(d) = parse_naive_date(st.as_str(), "%Y-%m-%d") {
        return Ok((d, 0));
    }
    let mut m = chars_of("could not parse --since '");
    crate::text::push_str(&mut m, spec);
    crate::text::push_str(&mut m, "'; use a duration like 2h/3d/1w, a date (YYYY-MM-DD), or an RFC3339 timestamp");
    Err(string_of(&m))
}

} // verus!
