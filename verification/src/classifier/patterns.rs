//! The log-message grammar that recognises function entries, exits and
//! errors.
//!
//! Each pattern is written as a function on the characters of the message
//! whose specification follows the leftmost-first, greedy reading of the
//! regular expression given in its documentation.
use vstd::prelude::*;

use crate::text::{
    at_ci, class_pred, contains_lower, contains_lower_exec, line_end, lit, lit_exact,
    lit_exact_exec, lit_exec, opt_int, run1, run1_exec, skip_class, skip_ws, to_chars, trim,
    trim_exec, from_chars, slice_range, CharClass, lemma_skip_while,
};

verus! {

pub struct PatternMatch {
    pub name: Option<String>,
}

/// Result of matching a message against error patterns.
pub struct ErrorPatternMatch {
    pub message: String,
    pub is_throw: bool,
    pub is_exception: bool,
    pub exception_name: Option<String>,
}

// ── Shared pieces ───────────────────────────────────────────────────────────

/// `kw\s+` at `i` (`kw` under `(?i)`).
pub open spec fn kw_ws(s: Seq<char>, i: int, kw: Seq<char>) -> Option<int> {
    match lit(s, i, kw) {
        Some(j) => run1(s, j, CharClass::Space),
        None => None,
    }
}

fn kw_ws_exec(s: &[char], i: usize, kw: &str) -> (r: Option<usize>)
    ensures
        opt_int(r) == kw_ws(s@, i as int, kw@),
        r matches Some(j) ==> j <= s@.len(),
{
    match lit_exec(s, i, kw) {
        Some(j) => run1_exec(s, j, CharClass::Space),
        None => None,
    }
}

/// `(?:\s+\([^)]+\))` at `i`: its end.
pub open spec fn paren_group(s: Seq<char>, i: int) -> Option<int> {
    match run1(s, i, CharClass::Space) {
        Some(w) => if w < s.len() && s[w] == '(' {
            match run1(s, w + 1, CharClass::NotCloseParen) {
                Some(r) => if r < s.len() && s[r] == ')' {
                    Some(r + 1)
                } else {
                    None
                },
                None => None,
            }
        } else {
            None
        },
        None => None,
    }
}

fn paren_group_exec(s: &[char], i: usize) -> (r: Option<usize>)
    ensures
        opt_int(r) == paren_group(s@, i as int),
        r matches Some(j) ==> j <= s@.len(),
{
    match run1_exec(s, i, CharClass::Space) {
        Some(w) => if w < s.len() && s[w] == '(' {
            match run1_exec(s, w + 1, CharClass::NotCloseParen) {
                Some(r) => if r < s.len() && s[r] == ')' {
                    Some(r + 1)
                } else {
                    None
                },
                None => None,
            }
        } else {
            None
        },
        None => None,
    }
}

/// End of a run, extended by a parenthesised group when one follows.
pub open spec fn paren_or(s: Seq<char>, r: int) -> int {
    match paren_group(s, r) {
        Some(e) => e,
        None => r,
    }
}

fn paren_or_exec(s: &[char], r: usize) -> (e: usize)
    requires
        r <= s@.len(),
    ensures
        e == paren_or(s@, r as int),
        e <= s@.len(),
{
    match paren_group_exec(s, r) {
        Some(e) => e,
        None => r,
    }
}

/// `(?:GET|POST|PUT|PATCH|DELETE|HEAD)` at `i` under `(?i)`.
pub open spec fn http_method(s: Seq<char>, i: int) -> Option<int> {
    if lit(s, i, "get"@) is Some {
        lit(s, i, "get"@)
    } else if lit(s, i, "post"@) is Some {
        lit(s, i, "post"@)
    } else if lit(s, i, "put"@) is Some {
        lit(s, i, "put"@)
    } else if lit(s, i, "patch"@) is Some {
        lit(s, i, "patch"@)
    } else if lit(s, i, "delete"@) is Some {
        lit(s, i, "delete"@)
    } else {
        lit(s, i, "head"@)
    }
}

fn http_method_exec(s: &[char], i: usize) -> (r: Option<usize>)
    ensures
        opt_int(r) == http_method(s@, i as int),
        r matches Some(j) ==> j <= s@.len(),
{
    let r = lit_exec(s, i, "get");
    if r.is_some() {
        return r;
    }
    let r = lit_exec(s, i, "post");
    if r.is_some() {
        return r;
    }
    let r = lit_exec(s, i, "put");
    if r.is_some() {
        return r;
    }
    let r = lit_exec(s, i, "patch");
    if r.is_some() {
        return r;
    }
    let r = lit_exec(s, i, "delete");
    if r.is_some() {
        return r;
    }
    lit_exec(s, i, "head")
}

/// `(?:GET|...)\s+\S+` at `i`: its end.
pub open spec fn method_target(s: Seq<char>, i: int) -> Option<int> {
    match http_method(s, i) {
        Some(m) => match run1(s, m, CharClass::Space) {
            Some(w) => run1(s, w, CharClass::NonSpace),
            None => None,
        },
        None => None,
    }
}

fn method_target_exec(s: &[char], i: usize) -> (r: Option<usize>)
    ensures
        opt_int(r) == method_target(s@, i as int),
        r matches Some(j) ==> j <= s@.len(),
{
    match http_method_exec(s, i) {
        Some(m) => match run1_exec(s, m, CharClass::Space) {
            Some(w) => run1_exec(s, w, CharClass::NonSpace),
            None => None,
        },
        None => None,
    }
}

/// `^kw\s+(\S+)`: the capture.
pub open spec fn kw_then_word(s: Seq<char>, kw: Seq<char>) -> Option<(int, int)> {
    match kw_ws(s, 0, kw) {
        Some(a) => match run1(s, a, CharClass::NonSpace) {
            Some(b) => Some((a, b)),
            None => None,
        },
        None => None,
    }
}

fn kw_then_word_exec(s: &[char], kw: &str) -> (r: Option<(usize, usize)>)
    ensures
        opt_span(r) == kw_then_word(s@, kw@),
        r matches Some((a, b)) ==> a <= b <= s@.len(),
{
    match kw_ws_exec(s, 0, kw) {
        Some(a) => match run1_exec(s, a, CharClass::NonSpace) {
            Some(b) => Some((a, b)),
            None => None,
        },
        None => None,
    }
}

/// An optional span of positions, as mathematical integers.
pub open spec fn opt_span(o: Option<(usize, usize)>) -> Option<(int, int)> {
    match o {
        Some((a, b)) => Some((a as int, b as int)),
        None => None,
    }
}

/// `^verb\s+endpoint\s+'([^']+)'`: the capture.
pub open spec fn quoted_endpoint(s: Seq<char>, verb: Seq<char>) -> Option<(int, int)> {
    match kw_ws(s, 0, verb) {
        Some(a) => match kw_ws(s, a, "endpoint"@) {
            Some(c) => if c < s.len() && s[c] == '\'' {
                match run1(s, c + 1, CharClass::NotQuote) {
                    Some(r) => if r < s.len() && s[r] == '\'' {
                        Some((c + 1, r))
                    } else {
                        None
                    },
                    None => None,
                }
            } else {
                None
            },
            None => None,
        },
        None => None,
    }
}

fn quoted_endpoint_exec(s: &[char], verb: &str) -> (r: Option<(usize, usize)>)
    ensures
        opt_span(r) == quoted_endpoint(s@, verb@),
        r matches Some((a, b)) ==> a <= b <= s@.len(),
{
    match kw_ws_exec(s, 0, verb) {
        Some(a) => match kw_ws_exec(s, a, "endpoint") {
            Some(c) => if c < s.len() && s[c] == '\'' {
                match run1_exec(s, c + 1, CharClass::NotQuote) {
                    Some(r) => if r < s.len() && s[r] == '\'' {
                        Some((c + 1, r))
                    } else {
                        None
                    },
                    None => None,
                }
            } else {
                None
            },
            None => None,
        },
        None => None,
    }
}

/// `^verb\s+action\s+method\s+([^\s<x>]+(?:\s+\([^)]+\))?)` with the run
/// class `k`: the capture.
pub open spec fn action_method(s: Seq<char>, verb: Seq<char>, k: CharClass) -> Option<(int, int)> {
    match kw_ws(s, 0, verb) {
        Some(a) => match kw_ws(s, a, "action"@) {
            Some(b) => match kw_ws(s, b, "method"@) {
                Some(c) => match run1(s, c, k) {
                    Some(r) => Some((c, paren_or(s, r))),
                    None => None,
                },
                None => None,
            },
            None => None,
        },
        None => None,
    }
}

fn action_method_exec(s: &[char], verb: &str, k: CharClass) -> (r: Option<(usize, usize)>)
    ensures
        opt_span(r) == action_method(s@, verb@, k),
        r matches Some((a, b)) ==> a <= b <= s@.len(),
{
    match kw_ws_exec(s, 0, verb) {
        Some(a) => match kw_ws_exec(s, a, "action") {
            Some(b) => match kw_ws_exec(s, b, "method") {
                Some(c) => match run1_exec(s, c, k) {
                    Some(r) => {
                        proof {
                            lemma_skip_while(s@, c as int, class_pred(k));
                        }
                        Some((c, paren_or_exec(s, r)))
                    },
                    None => None,
                },
                None => None,
            },
            None => None,
        },
        None => None,
    }
}

/// `^Request\s+<verb>\s+\S+\s+((?:GET|...)\s+\S+)`: the capture.
pub open spec fn kestrel_request(s: Seq<char>, verb: Seq<char>) -> Option<(int, int)> {
    match kw_ws(s, 0, "request"@) {
        Some(a) => match kw_ws(s, a, verb) {
            Some(b) => match run1(s, b, CharClass::NonSpace) {
                Some(c) => match run1(s, c, CharClass::Space) {
                    Some(d) => match method_target(s, d) {
                        Some(e) => Some((d, e)),
                        None => None,
                    },
                    None => None,
                },
                None => None,
            },
            None => None,
        },
        None => None,
    }
}

fn kestrel_request_exec(s: &[char], verb: &str) -> (r: Option<(usize, usize)>)
    ensures
        opt_span(r) == kestrel_request(s@, verb@),
        r matches Some((a, b)) ==> a <= b <= s@.len(),
{
    match kw_ws_exec(s, 0, "request") {
        Some(a) => match kw_ws_exec(s, a, verb) {
            Some(b) => match run1_exec(s, b, CharClass::NonSpace) {
                Some(c) => match run1_exec(s, c, CharClass::Space) {
                    Some(d) => match method_target_exec(s, d) {
                        Some(e) => {
                            proof {
                                lemma_method_target_after(s@, d as int);
                            }
                            Some((d, e))
                        },
                        None => None,
                    },
                    None => None,
                },
                None => None,
            },
            None => None,
        },
        None => None,
    }
}

proof fn lemma_method_target_after(s: Seq<char>, i: int)
    requires
        method_target(s, i) is Some,
    ensures
        i <= method_target(s, i).unwrap(),
{
    let m = http_method(s, i).unwrap();
    let w = run1(s, m, CharClass::Space).unwrap();
}

// ── ENTRY patterns ──────────────────────────────────────────────────────────

/// `(?i)on\s+controller\s+([^\s(]+(?:\s+\([^)]+\))?)` matched at `p`.
pub open spec fn on_controller_at(s: Seq<char>, p: int) -> Option<(int, int)> {
    match lit(s, p, "on"@) {
        Some(a) => match run1(s, a, CharClass::Space) {
            Some(b) => match kw_ws(s, b, "controller"@) {
                Some(c) => match run1(s, c, CharClass::NonSpaceNotOpenParen) {
                    Some(r) => Some((c, paren_or(s, r))),
                    None => None,
                },
                None => None,
            },
            None => None,
        },
        None => None,
    }
}

/// The leftmost match of `on_controller_at` at `p` or after.
pub open spec fn on_controller_from(s: Seq<char>, p: int) -> Option<(int, int)>
    decreases s.len() - p,
{
    if p < 0 || p > s.len() {
        None
    } else {
        match on_controller_at(s, p) {
            Some(m) => Some(m),
            None => if p == s.len() {
                None
            } else {
                on_controller_from(s, p + 1)
            },
        }
    }
}

fn on_controller_at_exec(s: &[char], p: usize) -> (r: Option<(usize, usize)>)
    ensures
        opt_span(r) == on_controller_at(s@, p as int),
        r matches Some((a, b)) ==> a <= b <= s@.len(),
{
    match lit_exec(s, p, "on") {
        Some(a) => match run1_exec(s, a, CharClass::Space) {
            Some(b) => match kw_ws_exec(s, b, "controller") {
                Some(c) => match run1_exec(s, c, CharClass::NonSpaceNotOpenParen) {
                    Some(r) => {
                        proof {
                            lemma_skip_while(s@, c as int, class_pred(CharClass::NonSpaceNotOpenParen));
                        }
                        Some((c, paren_or_exec(s, r)))
                    },
                    None => None,
                },
                None => None,
            },
            None => None,
        },
        None => None,
    }
}

fn on_controller_exec(s: &[char]) -> (r: Option<(usize, usize)>)
    ensures
        opt_span(r) == on_controller_from(s@, 0),
        r matches Some((a, b)) ==> a <= b <= s@.len(),
{
    let n = s.len();
    let mut p: usize = 0;
    while p <= n
        invariant
            n == s@.len(),
            0 <= p <= n + 1,
            on_controller_from(s@, p as int) == on_controller_from(s@, 0),
        decreases n + 1 - p,
    {
        let m = on_controller_at_exec(s, p);
        if m.is_some() {
            return m;
        }
        if p == n {
            return None;
        }
        p = p + 1;
    }
    None
}

/// `(?i)^Executing\s+(?:method\s+)?(\S+)`: the capture.
pub open spec fn executing_word(s: Seq<char>) -> Option<(int, int)> {
    match kw_ws(s, 0, "executing"@) {
        Some(a) => match kw_ws(s, a, "method"@) {
            Some(c) => match run1(s, c, CharClass::NonSpace) {
                Some(b) => Some((c, b)),
                None => match run1(s, a, CharClass::NonSpace) {
                    Some(b) => Some((a, b)),
                    None => None,
                },
            },
            None => match run1(s, a, CharClass::NonSpace) {
                Some(b) => Some((a, b)),
                None => None,
            },
        },
        None => None,
    }
}

fn executing_word_exec(s: &[char]) -> (r: Option<(usize, usize)>)
    ensures
        opt_span(r) == executing_word(s@),
        r matches Some((a, b)) ==> a <= b <= s@.len(),
{
    match kw_ws_exec(s, 0, "executing") {
        Some(a) => {
            if let Some(c) = kw_ws_exec(s, a, "method") {
                if let Some(b) = run1_exec(s, c, CharClass::NonSpace) {
                    return Some((c, b));
                }
            }
            match run1_exec(s, a, CharClass::NonSpace) {
                Some(b) => Some((a, b)),
                None => None,
            }
        },
        None => None,
    }
}

/// `(?i)^Enter(?:ing)?\s+(\S+)`: the capture.
pub open spec fn enter_word(s: Seq<char>) -> Option<(int, int)> {
    match lit(s, 0, "enter"@) {
        Some(e) => {
            let e2 = match lit(s, e, "ing"@) {
                Some(x) => x,
                None => e,
            };
            match run1(s, e2, CharClass::Space) {
                Some(a) => match run1(s, a, CharClass::NonSpace) {
                    Some(b) => Some((a, b)),
                    None => None,
                },
                None => None,
            }
        },
        None => None,
    }
}

fn enter_word_exec(s: &[char]) -> (r: Option<(usize, usize)>)
    ensures
        opt_span(r) == enter_word(s@),
        r matches Some((a, b)) ==> a <= b <= s@.len(),
{
    match lit_exec(s, 0, "enter") {
        Some(e) => {
            let e2 = match lit_exec(s, e, "ing") {
                Some(x) => x,
                None => e,
            };
            match run1_exec(s, e2, CharClass::Space) {
                Some(a) => match run1_exec(s, a, CharClass::NonSpace) {
                    Some(b) => Some((a, b)),
                    None => None,
                },
                None => None,
            }
        },
        None => None,
    }
}

/// `^-->\s+(\S+)` (or `^<--\s+(\S+)`): the capture.
pub open spec fn arrow_word(s: Seq<char>, arrow: Seq<char>) -> Option<(int, int)> {
    match lit_exact(s, 0, arrow) {
        Some(e) => match run1(s, e, CharClass::Space) {
            Some(a) => match run1(s, a, CharClass::NonSpace) {
                Some(b) => Some((a, b)),
                None => None,
            },
            None => None,
        },
        None => None,
    }
}

fn arrow_word_exec(s: &[char], arrow: &str) -> (r: Option<(usize, usize)>)
    ensures
        opt_span(r) == arrow_word(s@, arrow@),
        r matches Some((a, b)) ==> a <= b <= s@.len(),
{
    match lit_exact_exec(s, 0, arrow) {
        Some(e) => match run1_exec(s, e, CharClass::Space) {
            Some(a) => match run1_exec(s, a, CharClass::NonSpace) {
                Some(b) => Some((a, b)),
                None => None,
            },
            None => None,
        },
        None => None,
    }
}

/// `(?i)^Start\s+processing\s+HTTP\s+request\s+((?:GET|...)\s+\S+)`: the capture.
pub open spec fn start_http_request(s: Seq<char>) -> Option<(int, int)> {
    match kw_ws(s, 0, "start"@) {
        Some(a) => match kw_ws(s, a, "processing"@) {
            Some(b) => match kw_ws(s, b, "http"@) {
                Some(c) => match kw_ws(s, c, "request"@) {
                    Some(d) => match method_target(s, d) {
                        Some(e) => Some((d, e)),
                        None => None,
                    },
                    None => None,
                },
                None => None,
            },
            None => None,
        },
        None => None,
    }
}

fn start_http_request_exec(s: &[char]) -> (r: Option<(usize, usize)>)
    ensures
        opt_span(r) == start_http_request(s@),
        r matches Some((a, b)) ==> a <= b <= s@.len(),
{
    match kw_ws_exec(s, 0, "start") {
        Some(a) => match kw_ws_exec(s, a, "processing") {
            Some(b) => match kw_ws_exec(s, b, "http") {
                Some(c) => match kw_ws_exec(s, c, "request") {
                    Some(d) => match method_target_exec(s, d) {
                        Some(e) => {
                            proof {
                                lemma_method_target_after(s@, d as int);
                            }
                            Some((d, e))
                        },
                        None => None,
                    },
                    None => None,
                },
                None => None,
            },
            None => None,
        },
        None => None,
    }
}

/// The function name an ENTRY pattern captures, trying in order:
///
/// 1. `(?i)^Executing\s+endpoint\s+'([^']+)'`
/// 2. `(?i)^Executing\s+action\s+method\s+([^\s-]+(?:\s+\([^)]+\))?)`
/// 3. `(?i)on\s+controller\s+([^\s(]+(?:\s+\([^)]+\))?)` (anywhere)
/// 4. `(?i)^Executing\s+(?:method\s+)?(\S+)`
/// 5. `(?i)^Enter(?:ing)?\s+(\S+)`
/// 6. `(?i)^Starting\s+(\S+)`
/// 7. `(?i)^Handling\s+(\S+)`
/// 8. `(?i)^Processing\s+(\S+)`
/// 9. `(?i)^Calling\s+(\S+)`
/// 10. `^-->\s+(\S+)`
/// 11. `(?i)^(\S+)\s+started`
/// 12. `(?i)^Request\s+starting\s+\S+\s+((?:GET|POST|PUT|PATCH|DELETE|HEAD)\s+\S+)`
/// 13. `(?i)^Start\s+processing\s+HTTP\s+request\s+((?:GET|POST|PUT|PATCH|DELETE|HEAD)\s+\S+)`
pub open spec fn entry_capture(s: Seq<char>) -> Option<(int, int)> {
    if quoted_endpoint(s, "executing"@) is Some {
        quoted_endpoint(s, "executing"@)
    } else if action_method(s, "executing"@, CharClass::NonSpaceNotDash) is Some {
        action_method(s, "executing"@, CharClass::NonSpaceNotDash)
    } else if on_controller_from(s, 0) is Some {
        on_controller_from(s, 0)
    } else if executing_word(s) is Some {
        executing_word(s)
    } else if enter_word(s) is Some {
        enter_word(s)
    } else if kw_then_word(s, "starting"@) is Some {
        kw_then_word(s, "starting"@)
    } else if kw_then_word(s, "handling"@) is Some {
        kw_then_word(s, "handling"@)
    } else if kw_then_word(s, "processing"@) is Some {
        kw_then_word(s, "processing"@)
    } else if kw_then_word(s, "calling"@) is Some {
        kw_then_word(s, "calling"@)
    } else if arrow_word(s, "-->"@) is Some {
        arrow_word(s, "-->"@)
    } else if word_then_kw(s, "started"@) is Some {
        word_then_kw(s, "started"@)
    } else if kestrel_request(s, "starting"@) is Some {
        kestrel_request(s, "starting"@)
    } else {
        start_http_request(s)
    }
}

fn entry_capture_exec(s: &[char]) -> (r: Option<(usize, usize)>)
    ensures
        opt_span(r) == entry_capture(s@),
        r matches Some((a, b)) ==> a <= b <= s@.len(),
{
    let r = quoted_endpoint_exec(s, "executing");
    if r.is_some() {
        return r;
    }
    let r = action_method_exec(s, "executing", CharClass::NonSpaceNotDash);
    if r.is_some() {
        return r;
    }
    let r = on_controller_exec(s);
    if r.is_some() {
        return r;
    }
    let r = executing_word_exec(s);
    if r.is_some() {
        return r;
    }
    let r = enter_word_exec(s);
    if r.is_some() {
        return r;
    }
    let r = kw_then_word_exec(s, "starting");
    if r.is_some() {
        return r;
    }
    let r = kw_then_word_exec(s, "handling");
    if r.is_some() {
        return r;
    }
    let r = kw_then_word_exec(s, "processing");
    if r.is_some() {
        return r;
    }
    let r = kw_then_word_exec(s, "calling");
    if r.is_some() {
        return r;
    }
    let r = arrow_word_exec(s, "-->");
    if r.is_some() {
        return r;
    }
    let r = word_then_kw_exec(s, "started");
    if r.is_some() {
        return r;
    }
    let r = kestrel_request_exec(s, "starting");
    if r.is_some() {
        return r;
    }
    start_http_request_exec(s)
}

/// The name a pattern captures, as text.
pub open spec fn capture_text(s: Seq<char>, c: Option<(int, int)>) -> Option<Seq<char>> {
    match c {
        Some((a, b)) => Some(s.subrange(a, b)),
        None => None,
    }
}

/// Try to match the message against all ENTRY patterns.
/// Returns the captured function name on success.
pub fn match_entry(message: &str) -> (r: Option<PatternMatch>)
    ensures
        match capture_text(message@, entry_capture(message@)) {
            Some(t) => r matches Some(m) && m.name matches Some(n) && n@ == t,
            None => r is None,
        },
{
    let s = to_chars(message);
    match entry_capture_exec(s.as_slice()) {
        Some((a, b)) => {
            let v = slice_range(s.as_slice(), a, b);
            Some(PatternMatch { name: Some(from_chars(v.as_slice())) })
        },
        None => None,
    }
}

// ── EXIT patterns ───────────────────────────────────────────────────────────

/// `\s+in\s+` at `i`.
pub open spec fn in_tail(s: Seq<char>, i: int) -> bool {
    match run1(s, i, CharClass::Space) {
        Some(a) => kw_ws(s, a, "in"@) is Some,
        None => false,
    }
}

fn in_tail_exec(s: &[char], i: usize) -> (r: bool)
    ensures
        r == in_tail(s@, i as int),
{
    match run1_exec(s, i, CharClass::Space) {
        Some(a) => kw_ws_exec(s, a, "in").is_some(),
        None => false,
    }
}

/// `(?i)^Executed\s+action\s+([^\s]+(?:\s+\([^)]+\))?)\s+in\s+`: the
/// capture. The parenthesised group is kept only when ` in ` follows it.
pub open spec fn executed_action_in(s: Seq<char>) -> Option<(int, int)> {
    match kw_ws(s, 0, "executed"@) {
        Some(a) => match kw_ws(s, a, "action"@) {
            Some(b) => match run1(s, b, CharClass::NonSpace) {
                Some(r) => match paren_group(s, r) {
                    Some(g) => if in_tail(s, g) {
                        Some((b, g))
                    } else if in_tail(s, r) {
                        Some((b, r))
                    } else {
                        None
                    },
                    None => if in_tail(s, r) {
                        Some((b, r))
                    } else {
                        None
                    },
                },
                None => None,
            },
            None => None,
        },
        None => None,
    }
}

fn executed_action_in_exec(s: &[char]) -> (r: Option<(usize, usize)>)
    ensures
        opt_span(r) == executed_action_in(s@),
        r matches Some((a, b)) ==> a <= b <= s@.len(),
{
    match kw_ws_exec(s, 0, "executed") {
        Some(a) => match kw_ws_exec(s, a, "action") {
            Some(b) => match run1_exec(s, b, CharClass::NonSpace) {
                Some(r) => {
                    proof {
                        lemma_skip_while(s@, b as int, class_pred(CharClass::NonSpace));
                    }
                    if let Some(g) = paren_group_exec(s, r) {
                        proof {
                            lemma_paren_group_after(s@, r as int);
                        }
                        if in_tail_exec(s, g) {
                            return Some((b, g));
                        }
                    }
                    if in_tail_exec(s, r) {
                        Some((b, r))
                    } else {
                        None
                    }
                },
                None => None,
            },
            None => None,
        },
        None => None,
    }
}

proof fn lemma_paren_group_after(s: Seq<char>, i: int)
    requires
        paren_group(s, i) is Some,
    ensures
        i <= paren_group(s, i).unwrap(),
{
}

/// `(?i)^(\S+)\s+<word>`: the capture.
pub open spec fn word_then_kw(s: Seq<char>, kw: Seq<char>) -> Option<(int, int)> {
    match run1(s, 0, CharClass::NonSpace) {
        Some(r) => match run1(s, r, CharClass::Space) {
            Some(w) => if at_ci(s, w, kw) {
                Some((0, r))
            } else {
                None
            },
            None => None,
        },
        None => None,
    }
}

fn word_then_kw_exec(s: &[char], kw: &str) -> (r: Option<(usize, usize)>)
    ensures
        opt_span(r) == word_then_kw(s@, kw@),
        r matches Some((a, b)) ==> a <= b <= s@.len(),
{
    match run1_exec(s, 0, CharClass::NonSpace) {
        Some(r) => match run1_exec(s, r, CharClass::Space) {
            Some(w) => if lit_exec(s, w, kw).is_some() {
                Some((0, r))
            } else {
                None
            },
            None => None,
        },
        None => None,
    }
}

/// `(?i)^End\s+processing\s+(HTTP\s+request)\s+after\s+[\d.]+\s*ms\s+-\s+\d+`:
/// the capture.
pub open spec fn end_http_request(s: Seq<char>) -> Option<(int, int)> {
    match kw_ws(s, 0, "end"@) {
        Some(a) => match kw_ws(s, a, "processing"@) {
            Some(b) => match kw_ws(s, b, "http"@) {
                Some(c) => match lit(s, c, "request"@) {
                    Some(d) => if end_http_tail(s, d) {
                        Some((b, d))
                    } else {
                        None
                    },
                    None => None,
                },
                None => None,
            },
            None => None,
        },
        None => None,
    }
}

/// `\s+after\s+[\d.]+\s*ms\s+-\s+\d+` at `i`.
pub open spec fn end_http_tail(s: Seq<char>, i: int) -> bool {
    match run1(s, i, CharClass::Space) {
        Some(a) => match kw_ws(s, a, "after"@) {
            Some(b) => match run1(s, b, CharClass::DigitDot) {
                Some(c) => match kw_ws(s, skip_ws(s, c), "ms"@) {
                    Some(d) => if d < s.len() && s[d] == '-' {
                        match run1(s, d + 1, CharClass::Space) {
                            Some(e) => run1(s, e, CharClass::Digit) is Some,
                            None => false,
                        }
                    } else {
                        false
                    },
                    None => false,
                },
                None => false,
            },
            None => false,
        },
        None => false,
    }
}

fn end_http_tail_exec(s: &[char], i: usize) -> (r: bool)
    ensures
        r == end_http_tail(s@, i as int),
{
    match run1_exec(s, i, CharClass::Space) {
        Some(a) => match kw_ws_exec(s, a, "after") {
            Some(b) => match run1_exec(s, b, CharClass::DigitDot) {
                Some(c) => {
                    let c2 = skip_class(s, c, CharClass::Space);
                    match kw_ws_exec(s, c2, "ms") {
                        Some(d) => if d < s.len() && s[d] == '-' {
                            match run1_exec(s, d + 1, CharClass::Space) {
                                Some(e) => run1_exec(s, e, CharClass::Digit).is_some(),
                                None => false,
                            }
                        } else {
                            false
                        },
                        None => false,
                    }
                },
                None => false,
            },
            None => false,
        },
        None => false,
    }
}

fn end_http_request_exec(s: &[char]) -> (r: Option<(usize, usize)>)
    ensures
        opt_span(r) == end_http_request(s@),
        r matches Some((a, b)) ==> a <= b <= s@.len(),
{
    match kw_ws_exec(s, 0, "end") {
        Some(a) => match kw_ws_exec(s, a, "processing") {
            Some(b) => match kw_ws_exec(s, b, "http") {
                Some(c) => match lit_exec(s, c, "request") {
                    Some(d) => if end_http_tail_exec(s, d) {
                        proof {
                            lemma_skip_while(s@, b as int, class_pred(CharClass::Space));
                        }
                        Some((b, d))
                    } else {
                        None
                    },
                    None => None,
                },
                None => None,
            },
            None => None,
        },
        None => None,
    }
}

/// The function name an EXIT pattern captures, trying in order:
///
/// 1. `(?i)^Executed\s+endpoint\s+'([^']+)'`
/// 2. `(?i)^Executed\s+action\s+([^\s]+(?:\s+\([^)]+\))?)\s+in\s+`
/// 3. `(?i)^Executed\s+action\s+method\s+([^\s,]+(?:\s+\([^)]+\))?)`
/// 4. `(?i)^(\S+)\s+completed`
/// 5. `(?i)^(\S+)\s+finished`
/// 6. `(?i)^Exiting\s+(\S+)`
/// 7. `^<--\s+(\S+)`
/// 8. `(?i)^Completed\s+(\S+)`
/// 9. `(?i)^Request\s+finished\s+\S+\s+((?:GET|POST|PUT|PATCH|DELETE|HEAD)\s+\S+)`
/// 10. `(?i)^End\s+processing\s+(HTTP\s+request)\s+after\s+[\d.]+\s*ms\s+-\s+\d+`
pub open spec fn exit_capture(s: Seq<char>) -> Option<(int, int)> {
    if quoted_endpoint(s, "executed"@) is Some {
        quoted_endpoint(s, "executed"@)
    } else if executed_action_in(s) is Some {
        executed_action_in(s)
    } else if action_method(s, "executed"@, CharClass::NonSpaceNotComma) is Some {
        action_method(s, "executed"@, CharClass::NonSpaceNotComma)
    } else if word_then_kw(s, "completed"@) is Some {
        word_then_kw(s, "completed"@)
    } else if word_then_kw(s, "finished"@) is Some {
        word_then_kw(s, "finished"@)
    } else if kw_then_word(s, "exiting"@) is Some {
        kw_then_word(s, "exiting"@)
    } else if arrow_word(s, "<--"@) is Some {
        arrow_word(s, "<--"@)
    } else if kw_then_word(s, "completed"@) is Some {
        kw_then_word(s, "completed"@)
    } else if kestrel_request(s, "finished"@) is Some {
        kestrel_request(s, "finished"@)
    } else {
        end_http_request(s)
    }
}

fn exit_capture_exec(s: &[char]) -> (r: Option<(usize, usize)>)
    ensures
        opt_span(r) == exit_capture(s@),
        r matches Some((a, b)) ==> a <= b <= s@.len(),
{
    let r = quoted_endpoint_exec(s, "executed");
    if r.is_some() {
        return r;
    }
    let r = executed_action_in_exec(s);
    if r.is_some() {
        return r;
    }
    let r = action_method_exec(s, "executed", CharClass::NonSpaceNotComma);
    if r.is_some() {
        return r;
    }
    let r = word_then_kw_exec(s, "completed");
    if r.is_some() {
        return r;
    }
    let r = word_then_kw_exec(s, "finished");
    if r.is_some() {
        return r;
    }
    let r = kw_then_word_exec(s, "exiting");
    if r.is_some() {
        return r;
    }
    let r = arrow_word_exec(s, "<--");
    if r.is_some() {
        return r;
    }
    let r = kw_then_word_exec(s, "completed");
    if r.is_some() {
        return r;
    }
    let r = kestrel_request_exec(s, "finished");
    if r.is_some() {
        return r;
    }
    end_http_request_exec(s)
}

/// Try to match the message against all EXIT patterns.
/// Returns the captured function name on success.
pub fn match_exit(message: &str) -> (r: Option<PatternMatch>)
    ensures
        match capture_text(message@, exit_capture(message@)) {
            Some(t) => r matches Some(m) && m.name matches Some(n) && n@ == t,
            None => r is None,
        },
{
    let s = to_chars(message);
    match exit_capture_exec(s.as_slice()) {
        Some((a, b)) => {
            let v = slice_range(s.as_slice(), a, b);
            Some(PatternMatch { name: Some(from_chars(v.as_slice())) })
        },
        None => None,
    }
}

// ── ERROR patterns ──────────────────────────────────────────────────────────

/// Position of the last `)` in `s[lo..hi]`.
pub open spec fn last_close(s: Seq<char>, lo: int, hi: int) -> Option<int>
    decreases hi - lo,
{
    if hi <= lo {
        None
    } else if s[hi - 1] == ')' {
        Some(hi - 1)
    } else {
        last_close(s, lo, hi - 1)
    }
}

fn last_close_exec(s: &[char], lo: usize, hi: usize) -> (r: Option<usize>)
    requires
        hi <= s@.len(),
    ensures
        opt_int(r) == last_close(s@, lo as int, hi as int),
        r matches Some(k) ==> lo <= k < hi,
{
    let mut h = hi;
    while h > lo
        invariant
            h <= hi <= s@.len(),
            last_close(s@, lo as int, h as int) == last_close(s@, lo as int, hi as int),
            forall|k: int| h <= k < hi ==> s@[k] != ')',
        decreases h,
    {
        if s[h - 1] == ')' {
            return Some(h - 1);
        }
        h = h - 1;
    }
    None
}

/// `(?:\((.+)\))?` after the exception name ending at `e`: the inner capture.
pub open spec fn paren_detail(s: Seq<char>, e: int) -> Option<(int, int)> {
    if 0 <= e < s.len() && s[e] == '(' {
        match last_close(s, e + 2, line_end(s, e + 1)) {
            Some(k) => Some((e + 1, k)),
            None => None,
        }
    } else {
        None
    }
}

fn paren_detail_exec(s: &[char], e: usize) -> (r: Option<(usize, usize)>)
    ensures
        opt_span(r) == paren_detail(s@, e as int),
        r matches Some((a, b)) ==> a <= b <= s@.len(),
{
    if e < s.len() && s[e] == '(' {
        if e + 1 >= s.len() {
            return None;
        }
        let le = skip_class(s, e + 1, CharClass::NotNewline);
        match last_close_exec(s, e + 2, le) {
            Some(k) => Some((e + 1, k)),
            None => None,
        }
    } else {
        None
    }
}

/// What `throw\s+(?:new\s+)?(\w+)(?:\((.+)\))?` captures at `p`: the
/// exception name and, when present, the parenthesised detail.
pub open spec fn throw_at(s: Seq<char>, p: int) -> Option<((int, int), Option<(int, int)>)> {
    match lit(s, p, "throw"@) {
        Some(t) => match run1(s, t, CharClass::Space) {
            Some(w) => {
                let start = match kw_ws(s, w, "new"@) {
                    Some(q) => if run1(s, q, CharClass::Word) is Some {
                        q
                    } else {
                        w
                    },
                    None => w,
                };
                match run1(s, start, CharClass::Word) {
                    Some(e) => Some(((start, e), paren_detail(s, e))),
                    None => None,
                }
            },
            None => None,
        },
        None => None,
    }
}

fn throw_at_exec(s: &[char], p: usize) -> (r: Option<((usize, usize), Option<(usize, usize)>)>)
    ensures
        match r {
            Some((n, d)) => throw_at(s@, p as int) == Some(((n.0 as int, n.1 as int), opt_span(d)))
                && n.0 <= n.1 <= s@.len() && (d matches Some((a, b)) ==> a <= b <= s@.len()),
            None => throw_at(s@, p as int) is None,
        },
{
    match lit_exec(s, p, "throw") {
        Some(t) => match run1_exec(s, t, CharClass::Space) {
            Some(w) => {
                let start = match kw_ws_exec(s, w, "new") {
                    Some(q) => if run1_exec(s, q, CharClass::Word).is_some() {
                        q
                    } else {
                        w
                    },
                    None => w,
                };
                match run1_exec(s, start, CharClass::Word) {
                    Some(e) => {
                        proof {
                            lemma_skip_while(s@, start as int, class_pred(CharClass::Word));
                        }
                        Some(((start, e), paren_detail_exec(s, e)))
                    },
                    None => None,
                }
            },
            None => None,
        },
        None => None,
    }
}

/// The leftmost match of `throw_at` at `p` or after.
pub open spec fn throw_from(s: Seq<char>, p: int) -> Option<((int, int), Option<(int, int)>)>
    decreases s.len() - p,
{
    if p < 0 || p > s.len() {
        None
    } else {
        match throw_at(s, p) {
            Some(m) => Some(m),
            None => if p == s.len() {
                None
            } else {
                throw_from(s, p + 1)
            },
        }
    }
}

fn throw_exec(s: &[char]) -> (r: Option<((usize, usize), Option<(usize, usize)>)>)
    ensures
        match r {
            Some((n, d)) => throw_from(s@, 0) == Some(((n.0 as int, n.1 as int), opt_span(d)))
                && n.0 <= n.1 <= s@.len() && (d matches Some((a, b)) ==> a <= b <= s@.len()),
            None => throw_from(s@, 0) is None,
        },
{
    let n = s.len();
    let mut p: usize = 0;
    while p <= n
        invariant
            n == s@.len(),
            0 <= p <= n + 1,
            throw_from(s@, p as int) == throw_from(s@, 0),
        decreases n + 1 - p,
    {
        let m = throw_at_exec(s, p);
        if m.is_some() {
            return m;
        }
        if p == n {
            return None;
        }
        p = p + 1;
    }
    None
}

/// Position of the last character in `s[lo..hi]` that is not a line feed.
pub open spec fn last_non_newline(s: Seq<char>, lo: int, hi: int) -> Option<int>
    decreases hi - lo,
{
    if hi <= lo {
        None
    } else if s[hi - 1] != '\n' {
        Some(hi - 1)
    } else {
        last_non_newline(s, lo, hi - 1)
    }
}

fn last_non_newline_exec(s: &[char], lo: usize, hi: usize) -> (r: Option<usize>)
    requires
        hi <= s@.len(),
    ensures
        opt_int(r) == last_non_newline(s@, lo as int, hi as int),
        r matches Some(k) ==> lo <= k < hi,
{
    let mut h = hi;
    while h > lo
        invariant
            h <= hi <= s@.len(),
            last_non_newline(s@, lo as int, h as int) == last_non_newline(
                s@,
                lo as int,
                hi as int,
            ),
        decreases h,
    {
        if s[h - 1] != '\n' {
            return Some(h - 1);
        }
        h = h - 1;
    }
    None
}

/// What `\s*(.+)` captures at `c`: white space is skipped greedily, giving
/// back as much as needed for `.+` to match at least one character.
pub open spec fn tail_capture(s: Seq<char>, c: int) -> Option<(int, int)> {
    let m = skip_ws(s, c);
    if m < s.len() && s[m] != '\n' {
        Some((m, line_end(s, m)))
    } else {
        match last_non_newline(s, c, m) {
            Some(j) => Some((j, line_end(s, j))),
            None => None,
        }
    }
}

fn tail_capture_exec(s: &[char], c: usize) -> (r: Option<(usize, usize)>)
    requires
        c <= s@.len(),
    ensures
        opt_span(r) == tail_capture(s@, c as int),
        r matches Some((a, b)) ==> a <= b <= s@.len(),
{
    let m = skip_class(s, c, CharClass::Space);
    if m < s.len() && s[m] != '\n' {
        let e = skip_class(s, m, CharClass::NotNewline);
        Some((m, e))
    } else {
        match last_non_newline_exec(s, c, m) {
            Some(j) => {
                let e = skip_class(s, j, CharClass::NotNewline);
                Some((j, e))
            },
            None => None,
        }
    }
}

/// What `(?:Exception|Error|PANIC|FATAL):\s*(.+)` captures at `p`.
pub open spec fn exception_at(s: Seq<char>, p: int) -> Option<(int, int)> {
    let k = if lit(s, p, "exception"@) is Some {
        lit(s, p, "exception"@)
    } else if lit(s, p, "error"@) is Some {
        lit(s, p, "error"@)
    } else if lit(s, p, "panic"@) is Some {
        lit(s, p, "panic"@)
    } else {
        lit(s, p, "fatal"@)
    };
    match k {
        Some(c) => if c < s.len() && s[c] == ':' {
            tail_capture(s, c + 1)
        } else {
            None
        },
        None => None,
    }
}

fn exception_at_exec(s: &[char], p: usize) -> (r: Option<(usize, usize)>)
    ensures
        opt_span(r) == exception_at(s@, p as int),
        r matches Some((a, b)) ==> a <= b <= s@.len(),
{
    let mut k = lit_exec(s, p, "exception");
    if k.is_none() {
        k = lit_exec(s, p, "error");
    }
    if k.is_none() {
        k = lit_exec(s, p, "panic");
    }
    if k.is_none() {
        k = lit_exec(s, p, "fatal");
    }
    match k {
        Some(c) => if c < s.len() && s[c] == ':' {
            tail_capture_exec(s, c + 1)
        } else {
            None
        },
        None => None,
    }
}

/// The leftmost match of `exception_at` at `p` or after.
pub open spec fn exception_from(s: Seq<char>, p: int) -> Option<(int, int)>
    decreases s.len() - p,
{
    if p < 0 || p > s.len() {
        None
    } else {
        match exception_at(s, p) {
            Some(m) => Some(m),
            None => if p == s.len() {
                None
            } else {
                exception_from(s, p + 1)
            },
        }
    }
}

fn exception_exec(s: &[char]) -> (r: Option<(usize, usize)>)
    ensures
        opt_span(r) == exception_from(s@, 0),
        r matches Some((a, b)) ==> a <= b <= s@.len(),
{
    let n = s.len();
    let mut p: usize = 0;
    while p <= n
        invariant
            n == s@.len(),
            0 <= p <= n + 1,
            exception_from(s@, p as int) == exception_from(s@, 0),
        decreases n + 1 - p,
    {
        let m = exception_at_exec(s, p);
        if m.is_some() {
            return m;
        }
        if p == n {
            return None;
        }
        p = p + 1;
    }
    None
}

/// The lazy `.+?:` of `failed\s+to\s+.+?:\s*(.+)` with `.+?` starting at
/// `start`: the first `:` at `k` or after, reached without crossing a line
/// feed, after which `\s*(.+)` matches.
pub open spec fn colon_from(s: Seq<char>, start: int, k: int) -> Option<int>
    decreases s.len() - k,
{
    if k <= start || k >= s.len() || s[k - 1] == '\n' {
        None
    } else if s[k] == ':' && tail_capture(s, k + 1) is Some {
        Some(k)
    } else {
        colon_from(s, start, k + 1)
    }
}

fn colon_from_exec(s: &[char], start: usize, k: usize) -> (r: Option<usize>)
    ensures
        opt_int(r) == colon_from(s@, start as int, k as int),
        r matches Some(j) ==> j < s@.len(),
{
    let n = s.len();
    let mut j = k;
    while j < n
        invariant
            n == s@.len(),
            k <= j,
            colon_from(s@, start as int, j as int) == colon_from(s@, start as int, k as int),
        decreases n - j,
    {
        if j <= start || s[j - 1] == '\n' {
            return None;
        }
        if s[j] == ':' && tail_capture_exec(s, j + 1).is_some() {
            return Some(j);
        }
        j = j + 1;
    }
    None
}

/// The `\s+` before `.+?` given back one character at a time, from the
/// longest (ending at `t`) to the shortest (ending at `b + 1`): the first
/// `:` found.
pub open spec fn failed_colon(s: Seq<char>, b: int, t: int) -> Option<int>
    decreases t - b,
{
    if t <= b {
        None
    } else {
        match colon_from(s, t, t + 1) {
            Some(k) => Some(k),
            None => failed_colon(s, b, t - 1),
        }
    }
}

fn failed_colon_exec(s: &[char], b: usize, t: usize) -> (r: Option<usize>)
    ensures
        opt_int(r) == failed_colon(s@, b as int, t as int),
        r matches Some(j) ==> j < s@.len(),
{
    let n = s.len();
    let mut u = t;
    while u > b
        invariant
            n == s@.len(),
            b <= u <= t || u == t,
            failed_colon(s@, b as int, u as int) == failed_colon(s@, b as int, t as int),
        decreases u,
    {
        if u < usize::MAX {
            let c = colon_from_exec(s, u, u + 1);
            if c.is_some() {
                return c;
            }
        } else {
            proof {
                assert(colon_from(s@, u as int, u + 1) is None);
            }
        }
        u = u - 1;
    }
    None
}

/// What `failed\s+to\s+.+?:\s*(.+)` captures at `p`.
pub open spec fn failed_at(s: Seq<char>, p: int) -> Option<(int, int)> {
    match kw_ws(s, p, "failed"@) {
        Some(a) => match lit(s, a, "to"@) {
            Some(b) => match run1(s, b, CharClass::Space) {
                Some(t) => match failed_colon(s, b, t) {
                    Some(k) => tail_capture(s, k + 1),
                    None => None,
                },
                None => None,
            },
            None => None,
        },
        None => None,
    }
}

fn failed_at_exec(s: &[char], p: usize) -> (r: Option<(usize, usize)>)
    ensures
        opt_span(r) == failed_at(s@, p as int),
        r matches Some((a, b)) ==> a <= b <= s@.len(),
{
    let _n = s.len();  // records that the length fits in a usize
    match kw_ws_exec(s, p, "failed") {
        Some(a) => match lit_exec(s, a, "to") {
            Some(b) => match run1_exec(s, b, CharClass::Space) {
                Some(t) => match failed_colon_exec(s, b, t) {
                    Some(k) => tail_capture_exec(s, k + 1),
                    None => None,
                },
                None => None,
            },
            None => None,
        },
        None => None,
    }
}

/// The leftmost match of `failed_at` at `p` or after.
pub open spec fn failed_from(s: Seq<char>, p: int) -> Option<(int, int)>
    decreases s.len() - p,
{
    if p < 0 || p > s.len() {
        None
    } else {
        match failed_at(s, p) {
            Some(m) => Some(m),
            None => if p == s.len() {
                None
            } else {
                failed_from(s, p + 1)
            },
        }
    }
}

fn failed_exec(s: &[char]) -> (r: Option<(usize, usize)>)
    ensures
        opt_span(r) == failed_from(s@, 0),
        r matches Some((a, b)) ==> a <= b <= s@.len(),
{
    let n = s.len();
    let mut p: usize = 0;
    while p <= n
        invariant
            n == s@.len(),
            0 <= p <= n + 1,
            failed_from(s@, p as int) == failed_from(s@, 0),
        decreases n + 1 - p,
    {
        let m = failed_at_exec(s, p);
        if m.is_some() {
            return m;
        }
        if p == n {
            return None;
        }
        p = p + 1;
    }
    None
}

/// `No\s+\w+\s+found.+` matches at `p` (under `(?i)`).
pub open spec fn not_found_at(s: Seq<char>, p: int) -> bool {
    match kw_ws(s, p, "no"@) {
        Some(a) => match run1(s, a, CharClass::Word) {
            Some(b) => match run1(s, b, CharClass::Space) {
                Some(c) => match lit(s, c, "found"@) {
                    Some(f) => f < s.len() && s[f] != '\n',
                    None => false,
                },
                None => false,
            },
            None => false,
        },
        None => false,
    }
}

fn not_found_at_exec(s: &[char], p: usize) -> (r: bool)
    ensures
        r == not_found_at(s@, p as int),
{
    match kw_ws_exec(s, p, "no") {
        Some(a) => match run1_exec(s, a, CharClass::Word) {
            Some(b) => match run1_exec(s, b, CharClass::Space) {
                Some(c) => match lit_exec(s, c, "found") {
                    Some(f) => f < s.len() && s[f] != '\n',
                    None => false,
                },
                None => false,
            },
            None => false,
        },
        None => false,
    }
}

/// `No\s+\w+\s+found.+` matches somewhere in `s`.
pub open spec fn has_not_found(s: Seq<char>) -> bool {
    exists|p: int| 0 <= p <= s.len() && not_found_at(s, p)
}

fn has_not_found_exec(s: &[char]) -> (r: bool)
    ensures
        r == has_not_found(s@),
{
    let n = s.len();
    let mut p: usize = 0;
    loop
        invariant
            n == s@.len(),
            0 <= p <= n,
            forall|q: int| 0 <= q < p ==> !not_found_at(s@, q),
        ensures
            forall|q: int| 0 <= q <= n ==> !not_found_at(s@, q),
        decreases n + 1 - p,
    {
        if not_found_at_exec(s, p) {
            return true;
        }
        if p == n {
            break;
        }
        p = p + 1;
    }
    assert(!has_not_found(s@));
    false
}

/// The information an error pattern extracts, as text.
pub struct ErrorMatchModel {
    pub message: Seq<char>,
    pub is_throw: bool,
    pub is_exception: bool,
    pub exception_name: Option<Seq<char>>,
}

/// What the error patterns extract from a message, trying in order:
///
/// 1. `(?i)throw\s+(?:new\s+)?(\w+)(?:\((.+)\))?`: a throw of the named
///    exception, with the parenthesised detail as message (else the whole
///    message).
/// 2. `(?i)(?:Exception|Error|PANIC|FATAL):\s*(.+)`: the text after the
///    colon, trimmed; an exception when the message mentions "exception" in
///    any case.
/// 3. `(?i)failed\s+to\s+.+?:\s*(.+)`: the reason after the colon, trimmed.
/// 4. `(?i)No\s+\w+\s+found.+`: the whole message.
pub open spec fn error_match(s: Seq<char>) -> Option<ErrorMatchModel> {
    match throw_from(s, 0) {
        Some(((a, b), d)) => Some(
            ErrorMatchModel {
                message: match d {
                    Some((c, e)) => s.subrange(c, e),
                    None => s,
                },
                is_throw: true,
                is_exception: false,
                exception_name: Some(s.subrange(a, b)),
            },
        ),
        None => match exception_from(s, 0) {
            Some((a, b)) => Some(
                ErrorMatchModel {
                    message: trim(s.subrange(a, b)),
                    is_throw: false,
                    is_exception: contains_lower(s, "exception"@),
                    exception_name: None,
                },
            ),
            None => match failed_from(s, 0) {
                Some((a, b)) => Some(
                    ErrorMatchModel {
                        message: trim(s.subrange(a, b)),
                        is_throw: false,
                        is_exception: false,
                        exception_name: None,
                    },
                ),
                None => if has_not_found(s) {
                    Some(
                        ErrorMatchModel {
                            message: s,
                            is_throw: false,
                            is_exception: false,
                            exception_name: None,
                        },
                    )
                } else {
                    None
                },
            },
        },
    }
}

/// What an error pattern reports is a throw or an exception, never both;
/// it names an exception exactly when it is a throw; and it is an
/// exception only when the message mentions `exception` in some case.
pub proof fn law_error_match_flags(s: Seq<char>)
    ensures
        error_match(s) matches Some(e) ==> {
            &&& !(e.is_throw && e.is_exception)
            &&& (e.exception_name is Some) == e.is_throw
            &&& e.is_exception ==> contains_lower(s, "exception"@)
        },
{
}

/// `m` carries what `e` describes.
pub open spec fn error_match_is(m: ErrorPatternMatch, e: ErrorMatchModel) -> bool {
    &&& m.message@ == e.message
    &&& m.is_throw == e.is_throw
    &&& m.is_exception == e.is_exception
    &&& match e.exception_name {
        Some(n) => m.exception_name matches Some(x) && x@ == n,
        None => m.exception_name is None,
    }
}

/// Try to match the message against known error patterns.
/// Returns extracted error information if a pattern matches.
pub fn match_error(message: &str) -> (r: Option<ErrorPatternMatch>)
    ensures
        match error_match(message@) {
            Some(e) => r matches Some(m) && error_match_is(m, e),
            None => r is None,
        },
{
    let s = to_chars(message);
    let sl = s.as_slice();
    match throw_exec(sl) {
        Some((name, detail)) => {
            let n = slice_range(sl, name.0, name.1);
            let msg = match detail {
                Some((a, b)) => from_chars(slice_range(sl, a, b).as_slice()),
                None => from_chars(sl),
            };
            return Some(
                ErrorPatternMatch {
                    message: msg,
                    is_throw: true,
                    is_exception: false,
                    exception_name: Some(from_chars(n.as_slice())),
                },
            );
        },
        None => {},
    }
    match exception_exec(sl) {
        Some((a, b)) => {
            let cap = slice_range(sl, a, b);
            let t = trim_exec(cap.as_slice());
            let kw = to_chars("exception");
            let is_exception = contains_lower_exec(sl, kw.as_slice());
            return Some(
                ErrorPatternMatch {
                    message: from_chars(t.as_slice()),
                    is_throw: false,
                    is_exception,
                    exception_name: None,
                },
            );
        },
        None => {},
    }
    match failed_exec(sl) {
        Some((a, b)) => {
            let cap = slice_range(sl, a, b);
            let t = trim_exec(cap.as_slice());
            return Some(
                ErrorPatternMatch {
                    message: from_chars(t.as_slice()),
                    is_throw: false,
                    is_exception: false,
                    exception_name: None,
                },
            );
        },
        None => {},
    }
    if has_not_found_exec(sl) {
        return Some(
            ErrorPatternMatch {
                message: from_chars(sl),
                is_throw: false,
                is_exception: false,
                exception_name: None,
            },
        );
    }
    None
}

// ── Where captures lie ──────────────────────────────────────────────────────

proof fn lemma_run1_bounds(s: Seq<char>)
    ensures
        forall|i: int, k: CharClass| #[trigger]
            run1(s, i, k) is Some ==> 0 <= i < run1(s, i, k).unwrap() <= s.len(),
{
    assert forall|i: int, k: CharClass| #[trigger]
        run1(s, i, k) is Some implies 0 <= i < run1(s, i, k).unwrap() <= s.len() by {
        lemma_skip_while(s, i, class_pred(k));
    }
}

proof fn lemma_paren_or_bounds(s: Seq<char>)
    ensures
        forall|r: int| 0 <= r <= s.len() ==> r <= #[trigger] paren_or(s, r) <= s.len(),
{
    lemma_run1_bounds(s);
}

proof fn lemma_method_target_bounds(s: Seq<char>)
    ensures
        forall|i: int| #[trigger]
            method_target(s, i) is Some ==> 0 <= i < method_target(s, i).unwrap() <= s.len(),
{
    lemma_run1_bounds(s);
}

proof fn lemma_on_controller_bounds(s: Seq<char>, p: int)
    ensures
        on_controller_from(s, p) matches Some((a, b)) ==> 0 <= a < b <= s.len(),
    decreases s.len() - p,
{
    lemma_run1_bounds(s);
    lemma_paren_or_bounds(s);
    if 0 <= p < s.len() && on_controller_at(s, p) is None {
        lemma_on_controller_bounds(s, p + 1);
    }
}

/// Every name an ENTRY pattern or an EXIT pattern captures is a non-empty
/// stretch of the message.
pub proof fn law_captures_lie_within_the_message(s: Seq<char>)
    ensures
        entry_capture(s) matches Some((a, b)) ==> 0 <= a < b <= s.len(),
        exit_capture(s) matches Some((a, b)) ==> 0 <= a < b <= s.len(),
{
    lemma_run1_bounds(s);
    lemma_paren_or_bounds(s);
    lemma_method_target_bounds(s);
    lemma_on_controller_bounds(s, 0);
}

} // verus!
