//! The text of the diagnostic log: summaries of hosts texts and the lines
//! that are appended to the log file.
use std::collections::hash_map::DefaultHasher;
use std::hash::{BuildHasher, BuildHasherDefault};

use vstd::prelude::*;
use vstd::utf8::encode_utf8;

use crate::clock::{local_now_text, log_pattern, time_shape};
use crate::hosts_service::{end_marker, start_marker};
use crate::text::{
    chars_of, count_matches, count_occurrences, decimal, decimal_of, extend_range,
    hex, hex_of, lines_of, pad_left, padded_left, replace_char, split_lines, string_of, trim,
    trim_bounds,
};

verus! {

// ---------------------------------------------------------------------
// Specification
// ---------------------------------------------------------------------

/// The first of `lines[from..]` that is not blank.
pub open spec fn first_nonblank_from(lines: Seq<Seq<char>>, from: int) -> Option<Seq<char>>
    decreases lines.len() - from,
{
    if from < 0 || from >= lines.len() {
        None
    } else if trim(lines[from]).len() > 0 {
        Some(lines[from])
    } else {
        first_nonblank_from(lines, from + 1)
    }
}

/// The first 80 characters of the first line that is not blank, with
/// double quotes turned into single quotes; empty when all lines are blank.
pub open spec fn preview(content: Seq<char>) -> Seq<char> {
    match first_nonblank_from(lines_of(content), 0) {
        Some(line) => replace_char(
            if line.len() <= 80 {
                line
            } else {
                line.take(80)
            },
            '"',
            '\'',
        ),
        None => seq![],
    }
}

/// The fingerprint of a text whose hash is `hash`: the hash in 16
/// lower-case hexadecimal digits.
pub open spec fn fingerprint_text(hash: u64) -> Seq<char> {
    pad_left(hex(hash as nat), 16, '0')
}

/// The summary of `content` that the log records in place of the content:
/// its length in UTF-8 bytes, its number of lines, how often each GitHub
/// marker occurs in it, its fingerprint, and a preview of its first line.
pub open spec fn summary_text(content: Seq<char>, hash: u64) -> Seq<char> {
    "len="@ + decimal(encode_utf8(content).len()) + " lines="@ + decimal(lines_of(content).len())
        + " github_start="@ + decimal(count_matches(content, start_marker())) + " github_end="@
        + decimal(count_matches(content, end_marker())) + " hash="@ + fingerprint_text(hash)
        + " first_line=\""@ + preview(content) + "\""@
}

/// A line of the log: the time, the component in brackets, the action and
/// the details.
pub open spec fn log_line_text(
    timestamp: Seq<char>,
    component: Seq<char>,
    action: Seq<char>,
    details: Seq<char>,
) -> Seq<char> {
    "["@ + timestamp + "] ["@ + component + "] "@ + action + " "@ + details
}

/// A line of the log sent by the frontend.
pub open spec fn frontend_line_text(
    component: Seq<char>,
    action: Seq<char>,
    details: Seq<char>,
) -> Seq<char> {
    "[frontend] ["@ + component + "] "@ + action + " "@ + details
}

// ---------------------------------------------------------------------
// Implementation
// ---------------------------------------------------------------------

/// The hash that `std`'s `DefaultHasher` gives a text: it hashes the
/// text's UTF-8 bytes and a closing `0xff` with fixed keys, so the value
/// depends on the characters alone.
pub uninterp spec fn str_hash(s: Seq<char>) -> u64;

/// `BuildHasher::hash_one` of `BuildHasherDefault<DefaultHasher>` on a
/// `&str`: the same hash as `DefaultHasher::new()` after `content.hash(..)`.
///
/// The contract names the value (`str_hash`); which value the algorithm
/// gives is not stated.
#[verifier::external_body]
fn hash_text(content: &str) -> (h: u64)
    ensures
        h == str_hash(content@),
{
    BuildHasherDefault::<DefaultHasher>::default().hash_one(content)
}

/// The fingerprint of `content`: its hash in 16 hexadecimal digits.
pub fn fingerprint(content: &str) -> (f: String)
    ensures
        f@ == fingerprint_text(str_hash(content@)),
{
    let h = hash_text(content);
    let digits = hex_of(h);
    let padded = padded_left(&digits, 16, '0');
    assert(padded@ == fingerprint_text(h));
    string_of(&padded)
}

/// The preview of the first line of `lines` that is not blank.
fn preview_of(lines: &Vec<Vec<char>>) -> (p: Vec<char>)
    ensures
        p@ == match first_nonblank_from(crate::text::seqs_of(lines@), 0) {
            Some(line) => replace_char(
                if line.len() <= 80 {
                    line
                } else {
                    line.take(80)
                },
                '"',
                '\'',
            ),
            None => seq![],
        },
{
    let n = lines.len();
    for i in 0..n
        invariant
            n == lines@.len(),
            first_nonblank_from(crate::text::seqs_of(lines@), 0) == first_nonblank_from(
                crate::text::seqs_of(lines@),
                i as int,
            ),
    {
        let line = &lines[i];
        let (lo, hi) = trim_bounds(line);
        if lo < hi {
            let keep = if line.len() <= 80 {
                line.len()
            } else {
                80
            };
            let mut out: Vec<char> = Vec::new();
            for k in 0..keep
                invariant
                    keep <= line@.len(),
                    out@ == replace_char(line@.take(k as int), '"', '\''),
            {
                let c = line[k];
                out.push(
                    if c == '"' {
                        '\''
                    } else {
                        c
                    },
                );
                assert(out@ =~= replace_char(line@.take(k + 1), '"', '\''));
            }
            assert(line@.len() <= 80 ==> line@.take(keep as int) =~= line@);
            return out;
        }
    }
    Vec::new()
}

/// `s` followed by the characters of `t`.
fn append_text(s: &mut Vec<char>, t: &str)
    ensures
        final(s)@ == old(s)@ + t@,
{
    let c = chars_of(t);
    extend_range(s, &c, 0, c.len());
    assert(c@.subrange(0, c@.len() as int) =~= c@);
}

/// `s` followed by `t`.
fn append_chars(s: &mut Vec<char>, t: &Vec<char>)
    ensures
        final(s)@ == old(s)@ + t@,
{
    extend_range(s, t, 0, t.len());
    assert(t@.subrange(0, t@.len() as int) =~= t@);
}

/// The summary of `content` when the hash of `content` is `hash`.
pub fn content_summary_with_hash(content: &str, hash: u64) -> (summary: String)
    ensures
        summary@ == summary_text(content@, hash),
{
    let text = chars_of(content);
    let lines = split_lines(&text);
    let start = chars_of("#Github Hosts Start");
    let end = chars_of("#Github Hosts End");
    let byte_len = content.as_bytes().len();
    assert(byte_len == encode_utf8(content@).len());
    let len_text = decimal_of(byte_len as u64);
    let lines_text = decimal_of(lines.len() as u64);
    let starts = count_occurrences(&text, &start);
    let ends = count_occurrences(&text, &end);
    let starts_text = decimal_of(starts as u64);
    let ends_text = decimal_of(ends as u64);
    let hash_text = padded_left(&hex_of(hash), 16, '0');
    let first = preview_of(&lines);
    assert(len_text@ == decimal(encode_utf8(content@).len()));
    assert(lines_text@ == decimal(lines_of(content@).len()));
    assert(starts_text@ == decimal(count_matches(content@, start_marker())));
    assert(ends_text@ == decimal(count_matches(content@, end_marker())));
    assert(hash_text@ == fingerprint_text(hash));
    assert(first@ == preview(content@));
    let mut out: Vec<char> = Vec::new();
    append_text(&mut out, "len=");
    append_chars(&mut out, &len_text);
    append_text(&mut out, " lines=");
    append_chars(&mut out, &lines_text);
    append_text(&mut out, " github_start=");
    append_chars(&mut out, &starts_text);
    append_text(&mut out, " github_end=");
    append_chars(&mut out, &ends_text);
    append_text(&mut out, " hash=");
    append_chars(&mut out, &hash_text);
    append_text(&mut out, " first_line=\"");
    append_chars(&mut out, &first);
    append_text(&mut out, "\"");
    assert(out@ =~= summary_text(content@, hash));
    string_of(&out)
}

/// The summary of `content` that the log records: its length, its number
/// of lines, the number of GitHub markers in it, its fingerprint and a
/// preview of its first line.
pub fn content_summary(content: &str) -> (summary: String)
    ensures
        summary@ == summary_text(content@, str_hash(content@)),
{
    let h = hash_text(content);
    content_summary_with_hash(content, h)
}

/// A line of the log with the given time.
pub fn format_log_line(timestamp: &str, component: &str, action: &str, details: &str) -> (line:
    String)
    ensures
        line@ == log_line_text(timestamp@, component@, action@, details@),
{
    let mut out: Vec<char> = Vec::new();
    append_text(&mut out, "[");
    append_text(&mut out, timestamp);
    append_text(&mut out, "] [");
    append_text(&mut out, component);
    append_text(&mut out, "] ");
    append_text(&mut out, action);
    append_text(&mut out, " ");
    append_text(&mut out, details);
    assert(out@ =~= log_line_text(timestamp@, component@, action@, details@));
    string_of(&out)
}

/// The line that logging an event appends: the current local time to the
/// millisecond, the component, the action and the details.
pub fn log_event_line(component: &str, action: &str, details: &str) -> (line: String)
    ensures
        exists|t: Seq<char>|
            time_shape(log_pattern(), t) && line@ == log_line_text(t, component@, action@, details@),
{
    let now = local_now_text("%Y-%m-%d %H:%M:%S%.3f");
    let line = format_log_line(now.as_str(), component, action, details);
    assert(time_shape(log_pattern(), now@) && line@ == log_line_text(
        now@,
        component@,
        action@,
        details@,
    ));
    line
}

/// The line that a diagnostic event from the frontend appends.
pub fn frontend_log_line(component: &str, action: &str, details: &str) -> (line: String)
    ensures
        line@ == frontend_line_text(component@, action@, details@),
{
    let mut out: Vec<char> = Vec::new();
    append_text(&mut out, "[frontend] [");
    append_text(&mut out, component);
    append_text(&mut out, "] ");
    append_text(&mut out, action);
    append_text(&mut out, " ");
    append_text(&mut out, details);
    assert(out@ =~= frontend_line_text(component@, action@, details@));
    string_of(&out)
}

} // verus!
