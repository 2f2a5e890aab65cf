//! Times written as text: the patterns the log and the backups use, the
//! shapes `chrono` gives them, and the conversion of a file time into the
//! seconds and nanoseconds that `chrono` takes.
use std::time::SystemTime;

use vstd::prelude::*;

verus! {

#[verifier::external_type_specification]
#[verifier::external_body]
pub struct ExSystemTime(SystemTime);

// ---------------------------------------------------------------------
// Patterns and the shapes of what they write
// ---------------------------------------------------------------------

/// The pattern of the time a backup was made, as listed.
pub open spec fn label_pattern() -> Seq<char> {
    "%Y-%m-%d %H:%M:%S"@
}

/// The pattern of the time in a backup's file name.
pub open spec fn stamp_pattern() -> Seq<char> {
    "%Y%m%d-%H%M%S"@
}

/// The pattern of the time in a line of the log.
pub open spec fn log_pattern() -> Seq<char> {
    "%Y-%m-%d %H:%M:%S%.3f"@
}

/// One of the three patterns.
pub open spec fn known_pattern(p: Seq<char>) -> bool {
    p == label_pattern() || p == stamp_pattern() || p == log_pattern()
}

/// An ASCII decimal digit.
pub open spec fn is_digit(c: char) -> bool {
    '0' <= c <= '9'
}

/// `s` follows `template`, where each `0` of the template stands for a
/// digit and every other character for itself.
pub open spec fn fits(s: Seq<char>, template: Seq<char>) -> bool {
    s.len() == template.len() && forall|i: int|
        0 <= i < s.len() ==> if template[i] == '0' {
            is_digit(#[trigger] s[i])
        } else {
            s[i] == template[i]
        }
}

/// A year as `%Y` writes it: four digits for the years 0 to 9999, else a
/// sign and at least four digits.
pub open spec fn is_year_text(y: Seq<char>) -> bool {
    ||| y.len() == 4 && forall|i: int| 0 <= i < 4 ==> is_digit(#[trigger] y[i])
    ||| y.len() >= 5 && (y[0] == '+' || y[0] == '-') && forall|i: int|
        1 <= i < y.len() ==> is_digit(#[trigger] y[i])
}

/// A year followed by text that follows `tail`.
pub open spec fn dated(s: Seq<char>, tail: Seq<char>) -> bool {
    &&& s.len() > tail.len()
    &&& is_year_text(s.take(s.len() - tail.len()))
    &&& fits(s.skip(s.len() - tail.len()), tail)
}

/// What a pattern writes after the year.
pub open spec fn pattern_tail(p: Seq<char>) -> Seq<char> {
    if p == label_pattern() {
        "-00-00 00:00:00"@
    } else if p == stamp_pattern() {
        "0000-000000"@
    } else {
        "-00-00 00:00:00.000"@
    }
}

/// `s` has the shape that the pattern `p` writes.
pub open spec fn time_shape(p: Seq<char>, s: Seq<char>) -> bool {
    dated(s, pattern_tail(p))
}

// ---------------------------------------------------------------------
// Seconds since the epoch
// ---------------------------------------------------------------------

/// Seconds from the epoch within which `chrono` gives every time a date:
/// about 253,000 years either way, well inside its range of dates.
pub const TIMESTAMP_BOUND: i64 = 8_000_000_000_000i64;

/// The signed seconds and the nanoseconds of a time, from its distance to
/// the epoch (`Ok` after it, `Err` before it), as `chrono` counts them: a
/// time before the epoch with nanoseconds counts the second before it. No
/// time when the seconds do not fit or the nanoseconds are not below a
/// second.
pub open spec fn timestamp_spec(offset: Result<(u64, u32), (u64, u32)>) -> Option<(i64, u32)> {
    match offset {
        Ok((s, n)) => if s <= i64::MAX && n < 1_000_000_000 {
            Some((s as i64, n))
        } else {
            None
        },
        Err((s, n)) => if s > i64::MAX || n >= 1_000_000_000 {
            None
        } else if n == 0 {
            Some(((-(s as int)) as i64, 0u32))
        } else {
            Some(((-(s as int) - 1) as i64, (1_000_000_000 - n) as u32))
        },
    }
}

/// `SystemTime::duration_since(UNIX_EPOCH)`: the distance of `t` to the
/// epoch, `Ok` when `t` is not before it and `Err` (with the distance the
/// error carries) when it is, as whole seconds and nanoseconds.
///
/// The contract states only what `Duration::subsec_nanos` documents, that
/// the nanoseconds are below one second: `t` is opaque here.
#[verifier::external_body]
pub(crate) fn since_epoch(t: SystemTime) -> (r: Result<(u64, u32), (u64, u32)>)
    ensures
        match r {
            Ok((_, n)) => n < 1_000_000_000,
            Err((_, n)) => n < 1_000_000_000,
        },
{
    match t.duration_since(std::time::UNIX_EPOCH) {
        Ok(d) => Ok((d.as_secs(), d.subsec_nanos())),
        Err(e) => Err((e.duration().as_secs(), e.duration().subsec_nanos())),
    }
}

/// The seconds and nanoseconds since the epoch of a time whose distance to
/// the epoch is `offset`.
pub fn unix_timestamp(offset: Result<(u64, u32), (u64, u32)>) -> (r: Option<(i64, u32)>)
    ensures
        r == timestamp_spec(offset),
{
    match offset {
        Ok((s, n)) => {
            if s <= 9_223_372_036_854_775_807u64 && n < 1_000_000_000 {
                Some((s as i64, n))
            } else {
                None
            }
        },
        Err((s, n)) => {
            if s > 9_223_372_036_854_775_807u64 || n >= 1_000_000_000 {
                None
            } else if n == 0 {
                Some((0i64 - (s as i64), 0))
            } else {
                Some((0i64 - (s as i64) - 1, 1_000_000_000 - n))
            }
        },
    }
}

// ---------------------------------------------------------------------
// Local time as text
// ---------------------------------------------------------------------

/// `chrono::Local::now().format(pattern)`: the current local time written
/// with one of the three patterns.
///
/// The contract states the shape that `chrono`'s `%Y`, `%m`, `%d`, `%H`,
/// `%M`, `%S` and `%.3f` write (a year of four digits, or a sign and at
/// least four digits; two digits for each other field; three after the
/// point). Which time it is, is the time of the call. That the call
/// returns is not stated: `chrono` reaches an `expect` when the machine's
/// time-zone data gives no offset for the time.
#[verifier::external_body]
pub(crate) fn local_now_text(pattern: &str) -> (s: String)
    requires
        known_pattern(pattern@),
    ensures
        time_shape(pattern@, s@),
{
    chrono::Local::now().format(pattern).to_string()
}

/// `chrono::DateTime::from_timestamp(secs, nanos)`, turned into local time
/// and written with one of the three patterns; `None` where
/// `from_timestamp` gives none (a time outside `chrono`'s range).
///
/// The contract states the shape of the text, as for `local_now_text`,
/// and that within `TIMESTAMP_BOUND` seconds of the epoch, with
/// nanoseconds below one second, there is a time. The digits depend on the
/// machine's time zone and are left unsaid, and so does a failure of the
/// time-zone data, where `chrono` reaches an `expect`.
#[verifier::external_body]
fn local_time_text(secs: i64, nanos: u32, pattern: &str) -> (r: Option<String>)
    requires
        known_pattern(pattern@),
    ensures
        r matches Some(s) ==> time_shape(pattern@, s@),
        -TIMESTAMP_BOUND <= secs <= TIMESTAMP_BOUND && nanos < 1_000_000_000 ==> r is Some,
{
    let utc = chrono::DateTime::from_timestamp(secs, nanos)?;
    Some(utc.with_timezone(&chrono::Local).format(pattern).to_string())
}

/// The local time at `secs` and `nanos` since the epoch written with
/// `pattern`, or `unknown` where `chrono` has no date for it.
pub fn time_text_or_unknown(secs: i64, nanos: u32, pattern: &str) -> (text: String)
    requires
        known_pattern(pattern@),
    ensures
        text@ == "unknown"@ || time_shape(pattern@, text@),
        -TIMESTAMP_BOUND <= secs <= TIMESTAMP_BOUND && nanos < 1_000_000_000 ==> time_shape(
            pattern@,
            text@,
        ),
{
    match local_time_text(secs, nanos, pattern) {
        Some(t) => t,
        None => "unknown".to_owned(),
    }
}

} // verus!
