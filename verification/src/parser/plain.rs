//! The plain-text log format: an optional timestamp, a level, and a message
//! that may carry request, trace and thread identifiers.
//!
//! Each pattern is a function on the characters of the line whose
//! specification follows the leftmost-first, greedy reading of the regular
//! expression given in its documentation.
use vstd::prelude::*;

use super::LogParser;
use crate::classifier::opt_text;
use crate::model::event::{LogEvent, LogLevel};
use crate::text::{
    at_exact, at_exact_exec, from_chars, is_digit, is_digit_exec, is_ws, is_ws_exec, line_end, lit, lit_exact,
    lit_exact_exec, lit_exec, opt_int, remove_all, remove_all_exec, run1, run1_exec, skip_class,
    skip_digits, skip_nonws, skip_word, skip_word_dash, skip_ws, slice_range, string_of, to_chars,
    trim, trim_exec, upper_is, upper_is_exec, CharClass,
};

verus! {

// ── Levels ──────────────────────────────────────────────────────────────────

/// The level a level word names, whatever its case (`str::to_uppercase`).
pub open spec fn level_of(t: Seq<char>) -> LogLevel {
    if upper_is(t, "TRACE"@) {
        LogLevel::Trace
    } else if upper_is(t, "DEBUG"@) {
        LogLevel::Debug
    } else if upper_is(t, "INFO"@) {
        LogLevel::Info
    } else if upper_is(t, "WARN"@) || upper_is(t, "WARNING"@) {
        LogLevel::Warn
    } else if upper_is(t, "ERROR"@) || upper_is(t, "ERR"@) {
        LogLevel::Error
    } else if upper_is(t, "FATAL"@) || upper_is(t, "CRITICAL"@) || upper_is(t, "CRIT"@) {
        LogLevel::Fatal
    } else {
        LogLevel::Unknown
    }
}

fn upper_word(t: &[char], kw: &str) -> (r: bool)
    ensures
        r == upper_is(t@, kw@),
{
    let k = to_chars(kw);
    upper_is_exec(t, k.as_slice())
}

/// Map a level word to a `LogLevel`.
fn parse_level(t: &[char]) -> (l: LogLevel)
    ensures
        l == level_of(t@),
{
    if upper_word(t, "TRACE") {
        LogLevel::Trace
    } else if upper_word(t, "DEBUG") {
        LogLevel::Debug
    } else if upper_word(t, "INFO") {
        LogLevel::Info
    } else if upper_word(t, "WARN") || upper_word(t, "WARNING") {
        LogLevel::Warn
    } else if upper_word(t, "ERROR") || upper_word(t, "ERR") {
        LogLevel::Error
    } else if upper_word(t, "FATAL") || upper_word(t, "CRITICAL") || upper_word(t, "CRIT") {
        LogLevel::Fatal
    } else {
        LogLevel::Unknown
    }
}

// ── Pieces of the line grammar ──────────────────────────────────────────────

pub open spec fn digit_at(s: Seq<char>, i: int) -> bool {
    0 <= i < s.len() && is_digit(s[i])
}

/// `\d{4}-\d{2}-\d{2}[T ]\d{2}:\d{2}:\d{2}` at the start of `s`.
pub open spec fn ts_core(s: Seq<char>) -> bool {
    &&& s.len() >= 19
    &&& digit_at(s, 0) && digit_at(s, 1) && digit_at(s, 2) && digit_at(s, 3)
    &&& s[4] == '-' && digit_at(s, 5) && digit_at(s, 6)
    &&& s[7] == '-' && digit_at(s, 8) && digit_at(s, 9)
    &&& (s[10] == 'T' || s[10] == ' ')
    &&& digit_at(s, 11) && digit_at(s, 12) && s[13] == ':'
    &&& digit_at(s, 14) && digit_at(s, 15) && s[16] == ':'
    &&& digit_at(s, 17) && digit_at(s, 18)
}

/// End of the timestamp `\d{4}-\d{2}-\d{2}[T ]\d{2}:\d{2}:\d{2}(?:\.\d{1,3})?`
/// at the start of `s`, as far as a following `\s` can accept it: the
/// fraction takes as many digits as there are, up to three.
pub open spec fn ts_end(s: Seq<char>) -> Option<int> {
    if ts_core(s) {
        if s.len() > 20 && s[19] == '.' && is_digit(s[20]) {
            if skip_digits(s, 20) > 23 {
                Some(23)
            } else {
                Some(skip_digits(s, 20))
            }
        } else {
            Some(19)
        }
    } else {
        None
    }
}

fn digit_at_exec(s: &[char], i: usize) -> (r: bool)
    ensures
        r == digit_at(s@, i as int),
{
    i < s.len() && is_digit_exec(s[i])
}

fn ts_end_exec(s: &[char]) -> (r: Option<usize>)
    ensures
        opt_int(r) == ts_end(s@),
        r matches Some(e) ==> e <= s@.len(),
{
    if s.len() < 19 {
        return None;
    }
    // The separators first: they are cheap to test, and most lines fail there.
    let shape = s[4] == '-' && s[7] == '-' && (s[10] == 'T' || s[10] == ' ') && s[13] == ':'
        && s[16] == ':';
    let core = shape && digit_at_exec(s, 0) && digit_at_exec(s, 1) && digit_at_exec(s, 2)
        && digit_at_exec(s, 3) && digit_at_exec(s, 5) && digit_at_exec(s, 6) && digit_at_exec(
        s,
        8,
    ) && digit_at_exec(s, 9) && digit_at_exec(s, 11) && digit_at_exec(s, 12) && digit_at_exec(
        s,
        14,
    ) && digit_at_exec(s, 15) && digit_at_exec(s, 17) && digit_at_exec(s, 18);
    if !core {
        return None;
    }
    if s.len() > 20 && s[19] == '.' && is_digit_exec(s[20]) {
        let d = skip_class(s, 20, CharClass::Digit);
        if d > 23 {
            Some(23)
        } else {
            Some(d)
        }
    } else {
        Some(19)
    }
}

/// `\[(\w+)\]` at `i`: the span of the word.
pub open spec fn bracket_word(s: Seq<char>, i: int) -> Option<(int, int)> {
    if 0 <= i < s.len() && s[i] == '[' && skip_word(s, i + 1) > i + 1 && skip_word(s, i + 1)
        < s.len() && s[skip_word(s, i + 1)] == ']' {
        Some((i + 1, skip_word(s, i + 1)))
    } else {
        None
    }
}

fn bracket_word_exec(s: &[char], i: usize) -> (r: Option<(usize, usize)>)
    ensures
        match r {
            Some((a, b)) => bracket_word(s@, i as int) == Some((a as int, b as int)) && a <= b
                < s@.len(),
            None => bracket_word(s@, i as int) is None,
        },
{
    if i < s.len() && s[i] == '[' {
        let v = skip_class(s, i + 1, CharClass::Word);
        if v > i + 1 && v < s.len() && s[v] == ']' {
            return Some((i + 1, v));
        }
    }
    None
}

/// `\s*(.*)` from `i`: the captured rest of the line.
pub open spec fn msg_from(s: Seq<char>, i: int) -> Seq<char> {
    s.subrange(skip_ws(s, i), line_end(s, skip_ws(s, i)))
}

fn msg_from_exec(s: &[char], i: usize) -> (r: Vec<char>)
    requires
        i <= s@.len(),
    ensures
        r@ == msg_from(s@, i as int),
{
    let a = skip_class(s, i, CharClass::Space);
    let b = skip_class(s, a, CharClass::NotNewline);
    slice_range(s, a, b)
}

/// The character after a level word: `:` or white space.
pub open spec fn follows(c: char, colon: bool) -> bool {
    if colon {
        c == ':'
    } else {
        is_ws(c)
    }
}

/// `kw` at `i`, followed by what `follows` accepts.
pub open spec fn followed(s: Seq<char>, i: int, kw: Seq<char>, colon: bool) -> bool {
    at_exact(s, i, kw) && i + kw.len() < s.len() && follows(s[i + kw.len()], colon)
}

/// `(TRACE|DEBUG|INFO|WARN(?:ING)?|ERROR|FATAL)` at `i`, followed by `:`
/// (`colon`) or by white space: the level and the end of the word.
pub open spec fn level_word(s: Seq<char>, i: int, colon: bool) -> Option<(LogLevel, int)> {
    if followed(s, i, "TRACE"@, colon) {
        Some((LogLevel::Trace, i + "TRACE"@.len()))
    } else if followed(s, i, "DEBUG"@, colon) {
        Some((LogLevel::Debug, i + "DEBUG"@.len()))
    } else if followed(s, i, "INFO"@, colon) {
        Some((LogLevel::Info, i + "INFO"@.len()))
    } else if followed(s, i, "WARNING"@, colon) {
        Some((LogLevel::Warn, i + "WARNING"@.len()))
    } else if followed(s, i, "WARN"@, colon) {
        Some((LogLevel::Warn, i + "WARN"@.len()))
    } else if followed(s, i, "ERROR"@, colon) {
        Some((LogLevel::Error, i + "ERROR"@.len()))
    } else if followed(s, i, "FATAL"@, colon) {
        Some((LogLevel::Fatal, i + "FATAL"@.len()))
    } else {
        None
    }
}

fn followed_exec(s: &[char], i: usize, kw: &str, colon: bool) -> (r: Option<usize>)
    ensures
        r matches Some(k) ==> followed(s@, i as int, kw@, colon) && k == i + kw@.len() && k
            < s@.len(),
        r is None ==> !followed(s@, i as int, kw@, colon),
{
    let k = to_chars(kw);
    let n = s.len();
    if at_exact_exec(s, i, k.as_slice()) && i + k.len() < n {
        let c = s[i + k.len()];
        let ok = if colon {
            c == ':'
        } else {
            is_ws_exec(c)
        };
        if ok {
            return Some(i + k.len());
        }
    }
    None
}

fn level_word_exec(s: &[char], i: usize, colon: bool) -> (r: Option<(LogLevel, usize)>)
    ensures
        match r {
            Some((l, k)) => level_word(s@, i as int, colon) == Some((l, k as int)) && k
                < s@.len(),
            None => level_word(s@, i as int, colon) is None,
        },
{
    if let Some(k) = followed_exec(s, i, "TRACE", colon) {
        return Some((LogLevel::Trace, k));
    }
    if let Some(k) = followed_exec(s, i, "DEBUG", colon) {
        return Some((LogLevel::Debug, k));
    }
    if let Some(k) = followed_exec(s, i, "INFO", colon) {
        return Some((LogLevel::Info, k));
    }
    if let Some(k) = followed_exec(s, i, "WARNING", colon) {
        return Some((LogLevel::Warn, k));
    }
    if let Some(k) = followed_exec(s, i, "WARN", colon) {
        return Some((LogLevel::Warn, k));
    }
    if let Some(k) = followed_exec(s, i, "ERROR", colon) {
        return Some((LogLevel::Error, k));
    }
    if let Some(k) = followed_exec(s, i, "FATAL", colon) {
        return Some((LogLevel::Fatal, k));
    }
    None
}

// ── Timestamp and level ─────────────────────────────────────────────────────

/// `^(TS)\s+\[(\w+)\]\s*(.*)`: timestamp text, level, message.
pub open spec fn ts_bracket_header(s: Seq<char>) -> Option<(Seq<char>, LogLevel, Seq<char>)> {
    match ts_end(s) {
        Some(e) => match run1(s, e, CharClass::Space) {
            Some(w) => match bracket_word(s, w) {
                Some((a, b)) => Some((s.subrange(0, e), level_of(s.subrange(a, b)), msg_from(s, b + 1))),
                None => None,
            },
            None => None,
        },
        None => None,
    }
}

/// `^(TS)\s+(TRACE|DEBUG|INFO|WARN(?:ING)?|ERROR|FATAL)\s+(.*)`.
pub open spec fn ts_bare_header(s: Seq<char>) -> Option<(Seq<char>, LogLevel, Seq<char>)> {
    match ts_end(s) {
        Some(e) => match run1(s, e, CharClass::Space) {
            Some(w) => match level_word(s, w, false) {
                Some((l, k)) => Some((s.subrange(0, e), l, msg_from(s, k))),
                None => None,
            },
            None => None,
        },
        None => None,
    }
}

/// Timestamp text, level and message of a trimmed line, by the first of
/// these that matches:
/// 1. `^(TS)\s+\[(\w+)\]\s*(.*)`
/// 2. `^(TS)\s+(TRACE|DEBUG|INFO|WARN(?:ING)?|ERROR|FATAL)\s+(.*)`
/// 3. `^\[(\w+)\]\s*(.*)`, when the word names a known level
/// 4. `^(TRACE|DEBUG|INFO|WARN(?:ING)?|ERROR|FATAL):\s*(.*)`
/// and otherwise no timestamp, an unknown level and the whole line.
pub open spec fn line_header(s: Seq<char>) -> (Option<Seq<char>>, LogLevel, Seq<char>) {
    match ts_bracket_header(s) {
        Some((t, l, m)) => (Some(t), l, m),
        None => match ts_bare_header(s) {
            Some((t, l, m)) => (Some(t), l, m),
            None => {
                let p3 = match bracket_word(s, 0) {
                    Some((a, b)) => if level_of(s.subrange(a, b)) != LogLevel::Unknown {
                        Some((level_of(s.subrange(a, b)), msg_from(s, b + 1)))
                    } else {
                        None
                    },
                    None => None,
                };
                match p3 {
                    Some((l, m)) => (None, l, m),
                    None => match level_word(s, 0, true) {
                        Some((l, k)) => (None, l, msg_from(s, k + 1)),
                        None => (None, LogLevel::Unknown, s),
                    },
                }
            },
        },
    }
}

/// The optional text `o` holds, as characters.
pub open spec fn opt_chars(o: Option<Vec<char>>) -> Option<Seq<char>> {
    match o {
        Some(v) => Some(v@),
        None => None,
    }
}

fn ts_header_exec(s: &[char], bare: bool) -> (r: Option<(Vec<char>, LogLevel, Vec<char>)>)
    ensures
        match r {
            Some((t, l, m)) => (if bare {
                ts_bare_header(s@)
            } else {
                ts_bracket_header(s@)
            }) == Some((t@, l, m@)),
            None => (if bare {
                ts_bare_header(s@)
            } else {
                ts_bracket_header(s@)
            }) is None,
        },
{
    let _n = s.len();  // records that the length fits in a usize
    let e = match ts_end_exec(s) {
        Some(e) => e,
        None => return None,
    };
    let w = match run1_exec(s, e, CharClass::Space) {
        Some(w) => w,
        None => return None,
    };
    if bare {
        match level_word_exec(s, w, false) {
            Some((l, k)) => Some((slice_range(s, 0, e), l, msg_from_exec(s, k))),
            None => None,
        }
    } else {
        match bracket_word_exec(s, w) {
            Some((a, b)) => {
                let word = slice_range(s, a, b);
                let l = parse_level(word.as_slice());
                Some((slice_range(s, 0, e), l, msg_from_exec(s, b + 1)))
            },
            None => None,
        }
    }
}

/// Try each pattern in priority order and return (timestamp text, level,
/// message).
fn split_header(s: &[char]) -> (r: (Option<Vec<char>>, LogLevel, Vec<char>))
    ensures
        (opt_chars(r.0), r.1, r.2@) == line_header(s@),
{
    let _n = s.len();  // records that the length fits in a usize
    if let Some((t, l, m)) = ts_header_exec(s, false) {
        return (Some(t), l, m);
    }
    if let Some((t, l, m)) = ts_header_exec(s, true) {
        return (Some(t), l, m);
    }
    if let Some((a, b)) = bracket_word_exec(s, 0) {
        let word = slice_range(s, a, b);
        let l = parse_level(word.as_slice());
        if l != LogLevel::Unknown {
            return (None, l, msg_from_exec(s, b + 1));
        }
    }
    if let Some((l, k)) = level_word_exec(s, 0, true) {
        return (None, l, msg_from_exec(s, k + 1));
    }
    let all = slice_range(s, 0, s.len());
    assert(all@ =~= s@);
    (None, LogLevel::Unknown, all)
}

// ── Timestamps ──────────────────────────────────────────────────────────────

/// What `chrono::NaiveDateTime::parse_from_str(text, format)` gives, as the
/// number of milliseconds since 1970-01-01 00:00:00 of the date and time
/// read, when it succeeds.
pub uninterp spec fn spec_parse_datetime(text: Seq<char>, format: Seq<char>) -> Option<i64>;

/// `chrono::NaiveDateTime::parse_from_str`, with the date and time read
/// turned into milliseconds since 1970-01-01 00:00:00 (`and_utc()` then
/// `timestamp_millis()`). The contract names the result: it depends on the
/// text and the format alone.
#[verifier::external_body]
fn parse_datetime_millis(text: &str, format: &str) -> (r: Option<i64>)
    ensures
        r == spec_parse_datetime(text@, format@),
{
    match chrono::NaiveDateTime::parse_from_str(text, format) {
        Ok(d) => Some(d.and_utc().timestamp_millis()),
        Err(_) => None,
    }
}

/// `c`, with `T` read as a space.
pub open spec fn ts_char(c: char) -> char {
    if c == 'T' {
        ' '
    } else {
        c
    }
}

/// A timestamp text with `T` read as a space, trimmed.
pub open spec fn normalized_ts(t: Seq<char>) -> Seq<char> {
    trim(Seq::new(t.len(), |i: int| ts_char(t[i])))
}

/// The timestamp a timestamp text gives: the first of the formats
/// `%Y-%m-%d %H:%M:%S%.3f`, `%Y-%m-%d %H:%M:%S%.f` and `%Y-%m-%d %H:%M:%S`
/// that reads it.
pub open spec fn timestamp_of(t: Seq<char>) -> Option<i64> {
    let n = normalized_ts(t);
    match spec_parse_datetime(n, "%Y-%m-%d %H:%M:%S%.3f"@) {
        Some(x) => Some(x),
        None => match spec_parse_datetime(n, "%Y-%m-%d %H:%M:%S%.f"@) {
            Some(x) => Some(x),
            None => spec_parse_datetime(n, "%Y-%m-%d %H:%M:%S"@),
        },
    }
}

/// Read a timestamp text in any of the accepted formats.
fn parse_timestamp(t: &[char]) -> (r: Option<i64>)
    ensures
        r == timestamp_of(t@),
{
    let mut v: Vec<char> = Vec::new();
    let mut i: usize = 0;
    while i < t.len()
        invariant
            0 <= i <= t@.len(),
            v@.len() == i,
            forall|j: int| 0 <= j < i ==> v@[j] == ts_char(t@[j]),
        decreases t@.len() - i,
    {
        let c = t[i];
        if c == 'T' {
            v.push(' ');
        } else {
            v.push(c);
        }
        i = i + 1;
    }
    assert(v@ =~= Seq::new(t@.len(), |j: int| ts_char(t@[j])));
    let n = trim_exec(v.as_slice());
    let text = from_chars(n.as_slice());
    if let Some(x) = parse_datetime_millis(text.as_str(), "%Y-%m-%d %H:%M:%S%.3f") {
        return Some(x);
    }
    if let Some(x) = parse_datetime_millis(text.as_str(), "%Y-%m-%d %H:%M:%S%.f") {
        return Some(x);
    }
    parse_datetime_millis(text.as_str(), "%Y-%m-%d %H:%M:%S")
}

// ── Identifiers in the message ──────────────────────────────────────────────

/// `kw([\w\-.:]+)` at `p` (`kw` under `(?i)`): the span of the id and
/// whether it is a trace id.
pub open spec fn key_alt(s: Seq<char>, p: int, kw: Seq<char>, trace: bool) -> Option<(int, int, bool)> {
    match lit(s, p, kw) {
        Some(j) => match run1(s, j, CharClass::IdChar) {
            Some(q) => Some((j, q, trace)),
            None => None,
        },
        None => None,
    }
}

/// `(?i)(?:RequestId=|request_id:|traceId=)([\w\-.:]+)` at `p`.
pub open spec fn request_key_at(s: Seq<char>, p: int) -> Option<(int, int, bool)> {
    match key_alt(s, p, "requestid="@, false) {
        Some(m) => Some(m),
        None => match key_alt(s, p, "request_id:"@, false) {
            Some(m) => Some(m),
            None => key_alt(s, p, "traceid="@, true),
        },
    }
}

/// The leftmost match of `request_key_at` at `p` or after: where it starts,
/// the span of the id, and whether it is a trace id.
pub open spec fn request_key_from(s: Seq<char>, p: int) -> Option<(int, int, int, bool)>
    decreases s.len() - p,
{
    if p < 0 || p > s.len() {
        None
    } else {
        match request_key_at(s, p) {
            Some((a, q, t)) => Some((p, a, q, t)),
            None => if p == s.len() {
                None
            } else {
                request_key_from(s, p + 1)
            },
        }
    }
}

fn key_alt_exec(s: &[char], p: usize, kw: &str, trace: bool) -> (r: Option<(usize, usize, bool)>)
    ensures
        match r {
            Some((a, q, t)) => key_alt(s@, p as int, kw@, trace) == Some((a as int, q as int, t))
                && a < q <= s@.len(),
            None => key_alt(s@, p as int, kw@, trace) is None,
        },
{
    match lit_exec(s, p, kw) {
        Some(j) => match run1_exec(s, j, CharClass::IdChar) {
            Some(q) => Some((j, q, trace)),
            None => None,
        },
        None => None,
    }
}

fn request_key_at_exec(s: &[char], p: usize) -> (r: Option<(usize, usize, bool)>)
    ensures
        match r {
            Some((a, q, t)) => request_key_at(s@, p as int) == Some((a as int, q as int, t)) && a
                < q <= s@.len(),
            None => request_key_at(s@, p as int) is None,
        },
{
    if let Some(m) = key_alt_exec(s, p, "requestid=", false) {
        return Some(m);
    }
    if let Some(m) = key_alt_exec(s, p, "request_id:", false) {
        return Some(m);
    }
    key_alt_exec(s, p, "traceid=", true)
}

fn request_key_exec(s: &[char]) -> (r: Option<(usize, usize, usize, bool)>)
    ensures
        match r {
            Some((p, a, q, t)) => request_key_from(s@, 0) == Some((p as int, a as int, q as int, t))
                && p <= a < q <= s@.len(),
            None => request_key_from(s@, 0) is None,
        },
{
    let n = s.len();
    let mut p: usize = 0;
    while p <= n
        invariant
            n == s@.len(),
            0 <= p <= n + 1,
            request_key_from(s@, p as int) == request_key_from(s@, 0),
        decreases n + 1 - p,
    {
        if let Some((a, q, t)) = request_key_at_exec(s, p) {
            return Some((p, a, q, t));
        }
        if p == n {
            return None;
        }
        p = p + 1;
    }
    None
}

/// `^\[([\w\-]{5,})\]` in `c`: the span of the id.
pub open spec fn bracket_id(c: Seq<char>) -> Option<(int, int)> {
    if c.len() > 0 && c[0] == '[' && skip_word_dash(c, 1) >= 6 && skip_word_dash(c, 1) < c.len()
        && c[skip_word_dash(c, 1)] == ']' {
        Some((1, skip_word_dash(c, 1)))
    } else {
        None
    }
}

fn bracket_id_exec(c: &[char]) -> (r: Option<(usize, usize)>)
    ensures
        match r {
            Some((a, b)) => bracket_id(c@) == Some((a as int, b as int)) && a <= b < c@.len(),
            None => bracket_id(c@) is None,
        },
{
    if c.len() > 0 && c[0] == '[' {
        let v = skip_class(c, 1, CharClass::WordDash);
        if v >= 6 && v < c.len() && c[v] == ']' {
            return Some((1, v));
        }
    }
    None
}

/// Position of the last `]` in `s[lo..hi]`.
pub open spec fn last_bracket(s: Seq<char>, lo: int, hi: int) -> Option<int>
    decreases hi - lo,
{
    if hi <= lo {
        None
    } else if s[hi - 1] == ']' {
        Some(hi - 1)
    } else {
        last_bracket(s, lo, hi - 1)
    }
}

fn last_bracket_exec(s: &[char], lo: usize, hi: usize) -> (r: Option<usize>)
    requires
        hi <= s@.len(),
    ensures
        opt_int(r) == last_bracket(s@, lo as int, hi as int),
        r matches Some(k) ==> lo <= k < hi,
{
    let mut h = hi;
    while h > lo
        invariant
            h <= hi <= s@.len(),
            last_bracket(s@, lo as int, h as int) == last_bracket(s@, lo as int, hi as int),
        decreases h,
    {
        if s[h - 1] == ']' {
            return Some(h - 1);
        }
        h = h - 1;
    }
    None
}

/// `\[Thread\s+(\S+)\]` at `p`: the span of the thread id; the match
/// ends just after it.
pub open spec fn thread_at(s: Seq<char>, p: int) -> Option<(int, int)> {
    match lit_exact(s, p, "[Thread"@) {
        Some(t) => match run1(s, t, CharClass::Space) {
            Some(w) => match last_bracket(s, w + 1, skip_nonws(s, w)) {
                Some(e) => Some((w, e)),
                None => None,
            },
            None => None,
        },
        None => None,
    }
}

/// The leftmost match of `thread_at` at `p` or after: where it starts and the
/// span of the id.
pub open spec fn thread_from(s: Seq<char>, p: int) -> Option<(int, int, int)>
    decreases s.len() - p,
{
    if p < 0 || p > s.len() {
        None
    } else {
        match thread_at(s, p) {
            Some((w, e)) => Some((p, w, e)),
            None => if p == s.len() {
                None
            } else {
                thread_from(s, p + 1)
            },
        }
    }
}

fn thread_at_exec(s: &[char], p: usize) -> (r: Option<(usize, usize)>)
    ensures
        match r {
            Some((w, e)) => thread_at(s@, p as int) == Some((w as int, e as int)) && p < w < e
                < s@.len(),
            None => thread_at(s@, p as int) is None,
        },
{
    let t = match lit_exact_exec(s, p, "[Thread") {
        Some(t) => t,
        None => return None,
    };
    let w = match run1_exec(s, t, CharClass::Space) {
        Some(w) => w,
        None => return None,
    };
    let r = skip_class(s, w, CharClass::NonSpace);
    if w >= r {
        return None;
    }
    match last_bracket_exec(s, w + 1, r) {
        Some(e) => Some((w, e)),
        None => None,
    }
}

fn thread_exec(s: &[char]) -> (r: Option<(usize, usize, usize)>)
    ensures
        match r {
            Some((p, w, e)) => thread_from(s@, 0) == Some((p as int, w as int, e as int)) && p < w
                < e < s@.len(),
            None => thread_from(s@, 0) is None,
        },
{
    let n = s.len();
    let mut p: usize = 0;
    while p <= n
        invariant
            n == s@.len(),
            0 <= p <= n + 1,
            thread_from(s@, p as int) == thread_from(s@, 0),
        decreases n + 1 - p,
    {
        if let Some((w, e)) = thread_at_exec(s, p) {
            return Some((p, w, e));
        }
        if p == n {
            return None;
        }
        p = p + 1;
    }
    None
}

/// `\[(thread[\w\-]*\d+)\]` at `p`: the span of the thread name.
pub open spec fn thread_name_at(s: Seq<char>, p: int) -> Option<(int, int)> {
    if 0 <= p < s.len() && s[p] == '[' {
        match lit_exact(s, p + 1, "thread"@) {
            Some(t) => {
                let r = skip_word_dash(s, t);
                if r < s.len() && s[r] == ']' && r > t && is_digit(s[r - 1]) {
                    Some((p + 1, r))
                } else {
                    None
                }
            },
            None => None,
        }
    } else {
        None
    }
}

/// The leftmost match of `thread_name_at` at `p` or after.
pub open spec fn thread_name_from(s: Seq<char>, p: int) -> Option<(int, int)>
    decreases s.len() - p,
{
    if p < 0 || p > s.len() {
        None
    } else {
        match thread_name_at(s, p) {
            Some(m) => Some(m),
            None => if p == s.len() {
                None
            } else {
                thread_name_from(s, p + 1)
            },
        }
    }
}

fn thread_name_at_exec(s: &[char], p: usize) -> (r: Option<(usize, usize)>)
    ensures
        match r {
            Some((a, b)) => thread_name_at(s@, p as int) == Some((a as int, b as int)) && a <= b
                <= s@.len(),
            None => thread_name_at(s@, p as int) is None,
        },
{
    if p < s.len() && s[p] == '[' {
        match lit_exact_exec(s, p + 1, "thread") {
            Some(t) => {
                let r = skip_class(s, t, CharClass::WordDash);
                if r < s.len() && s[r] == ']' && r > t && is_digit_exec(s[r - 1]) {
                    Some((p + 1, r))
                } else {
                    None
                }
            },
            None => None,
        }
    } else {
        None
    }
}

fn thread_name_exec(s: &[char]) -> (r: Option<(usize, usize)>)
    ensures
        match r {
            Some((a, b)) => thread_name_from(s@, 0) == Some((a as int, b as int)) && a <= b
                <= s@.len(),
            None => thread_name_from(s@, 0) is None,
        },
{
    let n = s.len();
    let mut p: usize = 0;
    while p <= n
        invariant
            n == s@.len(),
            0 <= p <= n + 1,
            thread_name_from(s@, p as int) == thread_name_from(s@, 0),
        decreases n + 1 - p,
    {
        if let Some(m) = thread_name_at_exec(s, p) {
            return Some(m);
        }
        if p == n {
            return None;
        }
        p = p + 1;
    }
    None
}

// ── What the message yields ─────────────────────────────────────────────────

/// The message without its identifiers:
/// 1. the first `RequestId=`/`request_id:`/`traceId=` match removed wherever
///    its text occurs, then trimmed;
/// 2. when there was none, a leading `[id]` of at least five word or dash
///    characters cut off, with the white space after it (to the line's end);
/// 3. the text of the first `[Thread …]` match removed wherever it occurs,
///    then trimmed;
/// and trimmed once more.
pub open spec fn clean_message(m: Seq<char>) -> Seq<char> {
    let k = request_key_from(m, 0);
    let c1 = match k {
        Some((p, a, q, t)) => trim(remove_all(m, m.subrange(p, q))),
        None => m,
    };
    let c2 = match k {
        Some(_) => c1,
        None => match bracket_id(c1) {
            Some((a, b)) => msg_from(c1, b + 1),
            None => c1,
        },
    };
    let c3 = match thread_from(m, 0) {
        Some((p, w, e)) => trim(remove_all(c2, m.subrange(p, e + 1))),
        None => c2,
    };
    trim(c3)
}

/// The request id of a message: from `RequestId=`/`request_id:`, or else from
/// a leading `[id]` when the message names no trace id either.
pub open spec fn request_id_in(m: Seq<char>) -> Option<Seq<char>> {
    match request_key_from(m, 0) {
        Some((p, a, q, t)) => if t {
            None
        } else {
            Some(m.subrange(a, q))
        },
        None => match bracket_id(m) {
            Some((a, b)) => Some(m.subrange(a, b)),
            None => None,
        },
    }
}

/// The trace id of a message, from `traceId=`.
pub open spec fn trace_id_in(m: Seq<char>) -> Option<Seq<char>> {
    match request_key_from(m, 0) {
        Some((p, a, q, t)) => if t {
            Some(m.subrange(a, q))
        } else {
            None
        },
        None => None,
    }
}

/// The thread id of a message: from `[Thread id]`, or else `[thread…N]`.
pub open spec fn thread_id_in(m: Seq<char>) -> Option<Seq<char>> {
    match thread_from(m, 0) {
        Some((p, w, e)) => Some(m.subrange(w, e)),
        None => match thread_name_from(m, 0) {
            Some((a, b)) => Some(m.subrange(a, b)),
            None => None,
        },
    }
}

struct ExtractedIds {
    request_id: Option<String>,
    trace_id: Option<String>,
    thread_id: Option<String>,
    clean_message: String,
}

fn extract_ids(m: &[char]) -> (r: ExtractedIds)
    ensures
        opt_text(r.request_id) == request_id_in(m@),
        opt_text(r.trace_id) == trace_id_in(m@),
        opt_text(r.thread_id) == thread_id_in(m@),
        r.clean_message@ == clean_message(m@),
{
    let mut request_id: Option<String> = None;
    let mut trace_id: Option<String> = None;
    let mut clean: Vec<char> = slice_range(m, 0, m.len());
    assert(clean@ =~= m@);
    let key = request_key_exec(m);
    match key {
        Some((p, a, q, t)) => {
            let id = from_chars(slice_range(m, a, q).as_slice());
            if t {
                trace_id = Some(id);
            } else {
                request_id = Some(id);
            }
            let full = slice_range(m, p, q);
            let removed = remove_all_exec(clean.as_slice(), full.as_slice());
            clean = trim_exec(removed.as_slice());
        },
        None => {
            if let Some((a, b)) = bracket_id_exec(clean.as_slice()) {
                request_id = Some(from_chars(slice_range(clean.as_slice(), a, b).as_slice()));
                clean = msg_from_exec(clean.as_slice(), b + 1);
            }
        },
    }
    let thread_id = match thread_exec(m) {
        Some((p, w, e)) => {
            let full = slice_range(m, p, e + 1);
            let removed = remove_all_exec(clean.as_slice(), full.as_slice());
            clean = trim_exec(removed.as_slice());
            Some(from_chars(slice_range(m, w, e).as_slice()))
        },
        None => match thread_name_exec(m) {
            Some((a, b)) => Some(from_chars(slice_range(m, a, b).as_slice())),
            None => None,
        },
    };
    let clean = trim_exec(clean.as_slice());
    ExtractedIds { request_id, trace_id, thread_id, clean_message: from_chars(clean.as_slice()) }
}

// ── The parser ──────────────────────────────────────────────────────────────

/// `e` is the event read from line number `n`, whose text is `line`: the
/// trimmed line split by `line_header`, its timestamp text read by
/// `timestamp_of`, and the identifiers taken from the message.
pub open spec fn parsed_from(e: LogEvent, line: Seq<char>, n: usize) -> bool {
    let (ts, level, raw) = line_header(trim(line));
    &&& e.timestamp == match ts {
        Some(t) => timestamp_of(t),
        None => None,
    }
    &&& e.level == level
    &&& e.message@ == clean_message(raw)
    &&& opt_text(e.request_id) == request_id_in(raw)
    &&& opt_text(e.trace_id) == trace_id_in(raw)
    &&& opt_text(e.thread_id) == thread_id_in(raw)
    &&& e.source_location is None
    &&& e.raw_line@ == line
    &&& e.line_number == n
}

/// Parser for common plain-text log formats.
pub struct PlainTextParser;

impl PlainTextParser {
    pub fn new() -> (p: Self)
        ensures
            p == PlainTextParser,
    {
        PlainTextParser
    }
}

impl Default for PlainTextParser {
    fn default() -> (p: Self)
        ensures
            p == PlainTextParser,
    {
        PlainTextParser::new()
    }
}

impl LogParser for PlainTextParser {
    /// `None` for a line that is empty once trimmed; otherwise the event the
    /// line describes.
    fn parse_line(&self, line: &str, line_number: usize) -> (r: Option<LogEvent>)
        ensures
            r is None <==> trim(line@).len() == 0,
            r matches Some(e) ==> parsed_from(e, line@, line_number),
    {
        let chars = to_chars(line);
        let t = trim_exec(chars.as_slice());
        if t.len() == 0 {
            return None;
        }
        let (ts_text, level, raw) = split_header(t.as_slice());
        let timestamp = match ts_text {
            Some(x) => parse_timestamp(x.as_slice()),
            None => None,
        };
        let ids = extract_ids(raw.as_slice());
        Some(
            LogEvent {
                timestamp,
                level,
                message: ids.clean_message,
                request_id: ids.request_id,
                trace_id: ids.trace_id,
                thread_id: ids.thread_id,
                source_location: None,
                raw_line: string_of(line),
                line_number,
            },
        )
    }
}

} // verus!
