//! Character classes and small string operations over `Seq<char>`, the
//! building blocks of the log-line grammar.
use vstd::prelude::*;

verus! {

broadcast use vstd::string::group_string_axioms;

// ── Character classes ───────────────────────────────────────────────────────

/// Unicode `White_Space` (what `char::is_whitespace`, `str::trim` and the
/// `\s` class of the regex crate agree on).
pub open spec fn is_ws(c: char) -> bool {
    let u = c as u32;
    (0x9 <= u && u <= 0xd) || u == 0x20 || u == 0x85 || u == 0xa0 || u == 0x1680 || (0x2000 <= u
        && u <= 0x200a) || u == 0x2028 || u == 0x2029 || u == 0x202f || u == 0x205f || u == 0x3000
}

/// What the regex crate answers when `pattern` is compiled and run on
/// `text`: whether it matches, or `None` when the pattern does not compile.
pub uninterp spec fn spec_regex_match(pattern: Seq<char>, text: Seq<char>) -> Option<bool>;

/// The regex crate's `\d`: within ASCII the digits `0` to `9`, beyond it
/// what the crate's Unicode class (`\p{Nd}`) holds, asked of the text of
/// the one character with the pattern `\A\d\z`.
pub open spec fn is_digit(c: char) -> bool {
    if (c as u32) < 128 {
        '0' <= c && c <= '9'
    } else {
        spec_regex_match("\\A\\d\\z"@, seq![c]) == Some(true)
    }
}

/// ASCII upper-case letter.
pub open spec fn is_upper(c: char) -> bool {
    'A' <= c && c <= 'Z'
}

/// ASCII lower-case letter.
pub open spec fn is_lower(c: char) -> bool {
    'a' <= c && c <= 'z'
}

/// What the regex crate's Unicode `\w` class holds.
pub uninterp spec fn spec_is_word_char(c: char) -> bool;

/// The regex crate's `\w`: within ASCII the letters, the digits and `_`;
/// beyond it what the crate's Unicode class holds.
pub open spec fn is_word(c: char) -> bool {
    if (c as u32) < 128 {
        is_upper(c) || is_lower(c) || ('0' <= c && c <= '9') || c == '_'
    } else {
        spec_is_word_char(c)
    }
}

/// `regex_syntax::is_word_character`: the regex crate's own definition of
/// `\w` (Alphabetic, Join_Control, Decimal_Number, Mark, Connector_Punctuation).
/// The contract names the answer.
#[verifier::external_body]
fn word_char(c: char) -> (r: bool)
    ensures
        r == spec_is_word_char(c),
{
    regex_syntax::is_word_character(c)
}

/// `regex::Regex::new(pattern)`, then `Regex::is_match(text)` on what it
/// compiled: whether the pattern matches the text, `None` when it does not
/// compile. The contract names the answer.
#[verifier::external_body]
fn regex_match(pattern: &str, text: &str) -> (r: Option<bool>)
    ensures
        r == spec_regex_match(pattern@, text@),
{
    match regex::Regex::new(pattern) {
        Ok(re) => Some(re.is_match(text)),
        Err(_) => None,
    }
}

/// `\d` on one character: ASCII digits directly, other characters through
/// the regex crate's class.
pub fn is_digit_exec(c: char) -> (r: bool)
    ensures
        r == is_digit(c),
{
    if (c as u32) < 128 {
        '0' <= c && c <= '9'
    } else {
        let mut text = String::new();
        push_char(&mut text, c);
        assert(text@ =~= seq![c]);
        match regex_match("\\A\\d\\z", text.as_str()) {
            Some(b) => b,
            None => false,
        }
    }
}

pub fn is_ws_exec(c: char) -> (r: bool)
    ensures
        r == is_ws(c),
{
    let u = c as u32;
    (0x9 <= u && u <= 0xd) || u == 0x20 || u == 0x85 || u == 0xa0 || u == 0x1680 || (0x2000 <= u
        && u <= 0x200a) || u == 0x2028 || u == 0x2029 || u == 0x202f || u == 0x205f || u == 0x3000
}

/// `\w` on one character: ASCII directly, other characters through the
/// regex crate's class.
pub fn is_word_exec(c: char) -> (r: bool)
    ensures
        r == is_word(c),
{
    if (c as u32) < 128 {
        ('A' <= c && c <= 'Z') || ('a' <= c && c <= 'z') || ('0' <= c && c <= '9') || c == '_'
    } else {
        word_char(c)
    }
}

/// `c` equals the ASCII lower-case letter or symbol `k` under the regex crate's
/// case-insensitive matching (simple case folding): for letters both cases,
/// plus KELVIN SIGN for `k` and LATIN SMALL LETTER LONG S for `s`.
pub open spec fn ci_eq(c: char, k: char) -> bool {
    if is_lower(k) {
        c == k || (c as u32) == (k as u32) - 32 || (k == 'k' && (c as u32) == 0x212a) || (k == 's'
            && (c as u32) == 0x17f)
    } else {
        c == k
    }
}

pub fn ci_eq_exec(c: char, k: char) -> (r: bool)
    ensures
        r == ci_eq(c, k),
{
    if 'a' <= k && k <= 'z' {
        let cu = c as u32;
        let ku = k as u32;
        cu == ku || cu == ku - 32 || (k == 'k' && cu == 0x212a) || (k == 's' && cu == 0x17f)
    } else {
        c == k
    }
}

/// `c` turns into the ASCII upper-case letter or symbol `k` under
/// `str::to_uppercase` in a string whose whole upper-case form is ASCII:
/// `k` itself, its lower case, and DOTLESS I for `I`.
pub open spec fn upper_eq(c: char, k: char) -> bool {
    if is_upper(k) {
        c == k || (c as u32) == (k as u32) + 32 || (k == 'I' && (c as u32) == 0x131)
    } else {
        c == k
    }
}

pub fn upper_eq_exec(c: char, k: char) -> (r: bool)
    ensures
        r == upper_eq(c, k),
{
    if 'A' <= k && k <= 'Z' {
        let cu = c as u32;
        let ku = k as u32;
        cu == ku || cu == ku + 32 || (k == 'I' && cu == 0x131)
    } else {
        c == k
    }
}

/// `c` turns into the ASCII lower-case letter or symbol `k` under
/// `str::to_lowercase` (ASCII letters only: no other character lower-cases
/// into a run of ASCII letters without a combining mark, except KELVIN SIGN,
/// which matters for `k`).
pub open spec fn lower_eq(c: char, k: char) -> bool {
    if is_lower(k) {
        c == k || (c as u32) == (k as u32) - 32 || (k == 'k' && (c as u32) == 0x212a)
    } else {
        c == k
    }
}

pub fn lower_eq_exec(c: char, k: char) -> (r: bool)
    ensures
        r == lower_eq(c, k),
{
    if 'a' <= k && k <= 'z' {
        let cu = c as u32;
        let ku = k as u32;
        cu == ku || cu == ku - 32 || (k == 'k' && cu == 0x212a)
    } else {
        c == k
    }
}

// ── Scanning ────────────────────────────────────────────────────────────────

/// End of the run of characters from `i` on that satisfy `p`.
pub open spec fn skip_while(s: Seq<char>, i: int, p: spec_fn(char) -> bool) -> int
    decreases s.len() - i,
{
    if 0 <= i < s.len() && p(s[i]) {
        skip_while(s, i + 1, p)
    } else {
        i
    }
}

pub proof fn lemma_skip_while(s: Seq<char>, i: int, p: spec_fn(char) -> bool)
    requires
        0 <= i <= s.len(),
    ensures
        i <= skip_while(s, i, p) <= s.len(),
        forall|j: int| i <= j < skip_while(s, i, p) ==> #[trigger] p(s[j]),
        skip_while(s, i, p) < s.len() ==> !p(s[skip_while(s, i, p)]),
    decreases s.len() - i,
{
    if i < s.len() && p(s[i]) {
        lemma_skip_while(s, i + 1, p);
    }
}

pub open spec fn ws_pred() -> spec_fn(char) -> bool {
    |c: char| is_ws(c)
}

pub open spec fn word_pred() -> spec_fn(char) -> bool {
    |c: char| is_word(c)
}

pub open spec fn digit_pred() -> spec_fn(char) -> bool {
    |c: char| is_digit(c)
}

pub open spec fn nonws_pred() -> spec_fn(char) -> bool {
    |c: char| !is_ws(c)
}

pub open spec fn not_newline_pred() -> spec_fn(char) -> bool {
    |c: char| c != '\n'
}

/// `[\w\-]`
pub open spec fn word_dash_pred() -> spec_fn(char) -> bool {
    |c: char| is_word(c) || c == '-'
}

/// `[\w\-.:]`
pub open spec fn id_pred() -> spec_fn(char) -> bool {
    |c: char| is_word(c) || c == '-' || c == '.' || c == ':'
}

pub open spec fn skip_ws(s: Seq<char>, i: int) -> int {
    skip_while(s, i, ws_pred())
}

pub open spec fn skip_word(s: Seq<char>, i: int) -> int {
    skip_while(s, i, word_pred())
}

pub open spec fn skip_digits(s: Seq<char>, i: int) -> int {
    skip_while(s, i, digit_pred())
}

pub open spec fn skip_nonws(s: Seq<char>, i: int) -> int {
    skip_while(s, i, nonws_pred())
}

/// End of the `.*` that starts at `i`: everything up to the next line feed.
pub open spec fn line_end(s: Seq<char>, i: int) -> int {
    skip_while(s, i, not_newline_pred())
}

pub open spec fn skip_word_dash(s: Seq<char>, i: int) -> int {
    skip_while(s, i, word_dash_pred())
}

/// Which character class a scan runs over.
pub enum CharClass {
    /// `\s`
    Space,
    /// `\w`
    Word,
    /// `\d`
    Digit,
    /// `\S`
    NonSpace,
    /// `.`
    NotNewline,
    /// `[\w\-]`
    WordDash,
    /// `[\w\-.:]`
    IdChar,
    /// `[^']`
    NotQuote,
    /// `[^)]`
    NotCloseParen,
    /// `[^\s-]`
    NonSpaceNotDash,
    /// `[^\s(]`
    NonSpaceNotOpenParen,
    /// `[^\s,]`
    NonSpaceNotComma,
    /// `[\d.]`
    DigitDot,
}

pub open spec fn class_pred(k: CharClass) -> spec_fn(char) -> bool {
    match k {
        CharClass::Space => ws_pred(),
        CharClass::Word => word_pred(),
        CharClass::Digit => digit_pred(),
        CharClass::NonSpace => nonws_pred(),
        CharClass::NotNewline => not_newline_pred(),
        CharClass::WordDash => word_dash_pred(),
        CharClass::IdChar => id_pred(),
        CharClass::NotQuote => |c: char| c != '\'',
        CharClass::NotCloseParen => |c: char| c != ')',
        CharClass::NonSpaceNotDash => |c: char| !is_ws(c) && c != '-',
        CharClass::NonSpaceNotOpenParen => |c: char| !is_ws(c) && c != '(',
        CharClass::NonSpaceNotComma => |c: char| !is_ws(c) && c != ',',
        CharClass::DigitDot => |c: char| is_digit(c) || c == '.',
    }
}

pub fn in_class(c: char, k: &CharClass) -> (r: bool)
    ensures
        r == class_pred(*k)(c),
{
    match k {
        CharClass::Space => is_ws_exec(c),
        CharClass::Word => is_word_exec(c),
        CharClass::Digit => is_digit_exec(c),
        CharClass::NonSpace => !is_ws_exec(c),
        CharClass::NotNewline => c != '\n',
        CharClass::WordDash => is_word_exec(c) || c == '-',
        CharClass::IdChar => is_word_exec(c) || c == '-' || c == '.' || c == ':',
        CharClass::NotQuote => c != '\'',
        CharClass::NotCloseParen => c != ')',
        CharClass::NonSpaceNotDash => !is_ws_exec(c) && c != '-',
        CharClass::NonSpaceNotOpenParen => !is_ws_exec(c) && c != '(',
        CharClass::NonSpaceNotComma => !is_ws_exec(c) && c != ',',
        CharClass::DigitDot => is_digit_exec(c) || c == '.',
    }
}

/// An optional position, as a mathematical integer.
pub open spec fn opt_int(o: Option<usize>) -> Option<int> {
    match o {
        Some(i) => Some(i as int),
        None => None,
    }
}

/// A run of at least one character of class `k` from `i`: its end.
pub open spec fn run1(s: Seq<char>, i: int, k: CharClass) -> Option<int> {
    if 0 <= i <= s.len() && skip_while(s, i, class_pred(k)) > i {
        Some(skip_while(s, i, class_pred(k)))
    } else {
        None
    }
}

pub fn run1_exec(s: &[char], i: usize, k: CharClass) -> (r: Option<usize>)
    ensures
        opt_int(r) == run1(s@, i as int, k),
        r matches Some(j) ==> j <= s@.len(),
{
    if i > s.len() {
        return None;
    }
    let ghost kk = k;
    let j = skip_class(s, i, k);
    if j > i {
        Some(j)
    } else {
        None
    }
}

/// `kw` at `i` under `(?i)`: the position after it.
pub open spec fn lit(s: Seq<char>, i: int, kw: Seq<char>) -> Option<int> {
    if at_ci(s, i, kw) {
        Some(i + kw.len())
    } else {
        None
    }
}

pub fn lit_exec(s: &[char], i: usize, kw: &str) -> (r: Option<usize>)
    ensures
        opt_int(r) == lit(s@, i as int, kw@),
        r matches Some(j) ==> j <= s@.len(),
{
    let k = to_chars(kw);
    let _n = s.len();  // records that the length fits in a usize
    if at_ci_exec(s, i, k.as_slice()) {
        Some(i + k.len())
    } else {
        None
    }
}

/// `kw` at `i`, exactly: the position after it.
pub open spec fn lit_exact(s: Seq<char>, i: int, kw: Seq<char>) -> Option<int> {
    if at_exact(s, i, kw) {
        Some(i + kw.len())
    } else {
        None
    }
}

pub fn lit_exact_exec(s: &[char], i: usize, kw: &str) -> (r: Option<usize>)
    ensures
        opt_int(r) == lit_exact(s@, i as int, kw@),
        r matches Some(j) ==> j <= s@.len(),
{
    let k = to_chars(kw);
    let _n = s.len();  // records that the length fits in a usize
    if at_exact_exec(s, i, k.as_slice()) {
        Some(i + k.len())
    } else {
        None
    }
}

/// Scan from `i` over the characters of class `k`.
pub fn skip_class(s: &[char], i: usize, k: CharClass) -> (r: usize)
    requires
        i <= s@.len(),
    ensures
        r as int == skip_while(s@, i as int, class_pred(k)),
        i <= r <= s@.len(),
{
    let mut j = i;
    while j < s.len() && in_class(s[j], &k)
        invariant
            i <= j <= s@.len(),
            skip_while(s@, j as int, class_pred(k)) == skip_while(s@, i as int, class_pred(k)),
        decreases s@.len() - j,
    {
        j = j + 1;
    }
    j
}

// ── Keywords ────────────────────────────────────────────────────────────────

/// `kw` occurs at `i` in `s`, case-insensitively as the regex crate's `(?i)`
/// matches (`kw` given in lower case).
pub open spec fn at_ci(s: Seq<char>, i: int, kw: Seq<char>) -> bool {
    0 <= i && i + kw.len() <= s.len() && forall|j: int|
        0 <= j < kw.len() ==> #[trigger] ci_eq(s[i + j], kw[j])
}

/// `kw` occurs at `i` in `s`, exactly.
pub open spec fn at_exact(s: Seq<char>, i: int, kw: Seq<char>) -> bool {
    0 <= i && i + kw.len() <= s.len() && s.subrange(i, i + kw.len()) == kw
}

/// `kw` occurs at `i` in `s` once `s` is lower-cased (`kw` in lower case).
pub open spec fn at_lower(s: Seq<char>, i: int, kw: Seq<char>) -> bool {
    0 <= i && i + kw.len() <= s.len() && forall|j: int|
        0 <= j < kw.len() ==> #[trigger] lower_eq(s[i + j], kw[j])
}

/// `s.contains(kw)`.
pub open spec fn contains_exact(s: Seq<char>, kw: Seq<char>) -> bool {
    exists|i: int| at_exact(s, i, kw)
}

pub fn contains_exact_exec(s: &[char], kw: &[char]) -> (r: bool)
    ensures
        r == contains_exact(s@, kw@),
{
    let n = s.len();
    let mut i: usize = 0;
    loop
        invariant
            n == s@.len(),
            0 <= i <= n,
            forall|t: int| 0 <= t < i ==> !at_exact(s@, t, kw@),
        ensures
            forall|t: int| 0 <= t <= n ==> !at_exact(s@, t, kw@),
        decreases n - i,
    {
        if at_exact_exec(s, i, kw) {
            return true;
        }
        if i == n {
            break;
        }
        i = i + 1;
    }
    assert forall|t: int| !at_exact(s@, t, kw@) by {
        if 0 <= t <= n {
        }
    }
    false
}

/// `s.starts_with(kw)`.
pub open spec fn starts_with(s: Seq<char>, kw: Seq<char>) -> bool {
    at_exact(s, 0, kw)
}

/// `s.to_lowercase().contains(kw)`.
pub open spec fn contains_lower(s: Seq<char>, kw: Seq<char>) -> bool {
    exists|i: int| at_lower(s, i, kw)
}

/// `s.to_uppercase() == kw` (`kw` in upper case).
pub open spec fn upper_is(s: Seq<char>, kw: Seq<char>) -> bool {
    s.len() == kw.len() && forall|j: int| 0 <= j < kw.len() ==> #[trigger] upper_eq(s[j], kw[j])
}

pub fn at_ci_exec(s: &[char], i: usize, kw: &[char]) -> (r: bool)
    ensures
        r == at_ci(s@, i as int, kw@),
{
    if i > s.len() || kw.len() > s.len() - i {
        return false;
    }
    let n = s.len();
    let mut j: usize = 0;
    while j < kw.len()
        invariant
            n == s@.len(),
            i + kw@.len() <= s@.len(),
            0 <= j <= kw@.len(),
            forall|t: int| 0 <= t < j ==> #[trigger] ci_eq(s@[i + t], kw@[t]),
        decreases kw@.len() - j,
    {
        if !ci_eq_exec(s[i + j], kw[j]) {
            return false;
        }
        j = j + 1;
    }
    true
}

pub fn at_exact_exec(s: &[char], i: usize, kw: &[char]) -> (r: bool)
    ensures
        r == at_exact(s@, i as int, kw@),
{
    if i > s.len() || kw.len() > s.len() - i {
        return false;
    }
    let n = s.len();
    let mut j: usize = 0;
    while j < kw.len()
        invariant
            n == s@.len(),
            i + kw@.len() <= s@.len(),
            0 <= j <= kw@.len(),
            forall|t: int| 0 <= t < j ==> s@[i + t] == kw@[t],
        decreases kw@.len() - j,
    {
        if s[i + j] != kw[j] {
            assert(s@.subrange(i as int, i + kw@.len())[j as int] == s@[i + j]);
            return false;
        }
        j = j + 1;
    }
    assert(s@.subrange(i as int, i + kw@.len()) =~= kw@);
    true
}

pub fn at_lower_exec(s: &[char], i: usize, kw: &[char]) -> (r: bool)
    ensures
        r == at_lower(s@, i as int, kw@),
{
    if i > s.len() || kw.len() > s.len() - i {
        return false;
    }
    let n = s.len();
    let mut j: usize = 0;
    while j < kw.len()
        invariant
            n == s@.len(),
            i + kw@.len() <= s@.len(),
            0 <= j <= kw@.len(),
            forall|t: int| 0 <= t < j ==> #[trigger] lower_eq(s@[i + t], kw@[t]),
        decreases kw@.len() - j,
    {
        if !lower_eq_exec(s[i + j], kw[j]) {
            return false;
        }
        j = j + 1;
    }
    true
}

pub fn contains_lower_exec(s: &[char], kw: &[char]) -> (r: bool)
    ensures
        r == contains_lower(s@, kw@),
{
    let n = s.len();
    let mut i: usize = 0;
    loop
        invariant
            n == s@.len(),
            0 <= i <= n,
            forall|t: int| 0 <= t < i ==> !at_lower(s@, t, kw@),
        ensures
            forall|t: int| 0 <= t <= n ==> !at_lower(s@, t, kw@),
        decreases n - i,
    {
        if at_lower_exec(s, i, kw) {
            return true;
        }
        if i == n {
            break;
        }
        i = i + 1;
    }
    assert forall|t: int| !at_lower(s@, t, kw@) by {
        if 0 <= t <= n {
        }
    }
    false
}

pub fn upper_is_exec(s: &[char], kw: &[char]) -> (r: bool)
    ensures
        r == upper_is(s@, kw@),
{
    if s.len() != kw.len() {
        return false;
    }
    let mut j: usize = 0;
    while j < kw.len()
        invariant
            s@.len() == kw@.len(),
            0 <= j <= kw@.len(),
            forall|t: int| 0 <= t < j ==> #[trigger] upper_eq(s@[t], kw@[t]),
        decreases kw@.len() - j,
    {
        if !upper_eq_exec(s[j], kw[j]) {
            return false;
        }
        j = j + 1;
    }
    true
}

// ── Trimming and replacing ──────────────────────────────────────────────────

/// Start of the trailing run of white space that ends at `j`.
pub open spec fn rskip_ws(s: Seq<char>, j: int) -> int
    decreases j,
{
    if 0 < j <= s.len() && is_ws(s[j - 1]) {
        rskip_ws(s, j - 1)
    } else {
        j
    }
}

pub proof fn lemma_rskip_ws(s: Seq<char>, j: int)
    requires
        0 <= j <= s.len(),
    ensures
        0 <= rskip_ws(s, j) <= j,
        forall|t: int| rskip_ws(s, j) <= t < j ==> is_ws(#[trigger] s[t]),
        rskip_ws(s, j) > 0 ==> !is_ws(s[rskip_ws(s, j) - 1]),
    decreases j,
{
    if 0 < j && is_ws(s[j - 1]) {
        lemma_rskip_ws(s, j - 1);
    }
}

/// `str::trim`: the text without leading and trailing white space.
pub open spec fn trim(s: Seq<char>) -> Seq<char> {
    let a = skip_ws(s, 0);
    if a >= s.len() {
        Seq::empty()
    } else {
        s.subrange(a, rskip_ws(s, s.len() as int))
    }
}

pub proof fn lemma_trim_bounds(s: Seq<char>)
    ensures
        skip_ws(s, 0) < s.len() ==> skip_ws(s, 0) < rskip_ws(s, s.len() as int) <= s.len(),
        trim(s).len() == 0 <==> skip_ws(s, 0) >= s.len(),
{
    lemma_skip_while(s, 0, ws_pred());
    lemma_rskip_ws(s, s.len() as int);
    let a = skip_ws(s, 0);
    let b = rskip_ws(s, s.len() as int);
    if a < s.len() {
        assert(!is_ws(s[a]));
        if b <= a {
            assert(is_ws(s[a]));
        }
    }
}

pub fn trim_exec(s: &[char]) -> (r: Vec<char>)
    ensures
        r@ == trim(s@),
{
    proof {
        lemma_trim_bounds(s@);
    }
    let a = skip_class(s, 0, CharClass::Space);
    if a >= s.len() {
        return Vec::new();
    }
    let mut b = s.len();
    while b > 0 && is_ws_exec(s[b - 1])
        invariant
            b <= s@.len(),
            rskip_ws(s@, b as int) == rskip_ws(s@, s@.len() as int),
        decreases b,
    {
        b = b - 1;
    }
    slice_range(s, a, b)
}

/// A copy of `s[a..b]`.
pub fn slice_range(s: &[char], a: usize, b: usize) -> (r: Vec<char>)
    requires
        a <= b <= s@.len(),
    ensures
        r@ == s@.subrange(a as int, b as int),
{
    let mut r: Vec<char> = Vec::new();
    let mut i = a;
    while i < b
        invariant
            a <= i <= b <= s@.len(),
            r@ == s@.subrange(a as int, i as int),
        decreases b - i,
    {
        r.push(s[i]);
        i = i + 1;
        assert(r@ =~= s@.subrange(a as int, i as int));
    }
    r
}

/// `str::replace(pat, "")` for a non-empty `pat`: every non-overlapping
/// occurrence, scanning left to right, removed.
pub open spec fn remove_all(s: Seq<char>, pat: Seq<char>) -> Seq<char>
    decreases s.len(),
{
    if s.len() == 0 {
        s
    } else if pat.len() > 0 && pat.len() <= s.len() && s.subrange(0, pat.len() as int) == pat {
        remove_all(s.subrange(pat.len() as int, s.len() as int), pat)
    } else {
        seq![s[0]] + remove_all(s.subrange(1, s.len() as int), pat)
    }
}

pub fn remove_all_exec(s: &[char], pat: &[char]) -> (r: Vec<char>)
    requires
        pat@.len() > 0,
    ensures
        r@ == remove_all(s@, pat@),
{
    let mut out: Vec<char> = Vec::new();
    let mut i: usize = 0;
    assert(s@.subrange(0, s@.len() as int) =~= s@);
    while i < s.len()
        invariant
            pat@.len() > 0,
            0 <= i <= s@.len(),
            out@ + remove_all(s@.subrange(i as int, s@.len() as int), pat@) == remove_all(
                s@,
                pat@,
            ),
        decreases s@.len() - i,
    {
        let ghost rest = s@.subrange(i as int, s@.len() as int);
        if at_exact_exec(s, i, pat) {
            assert(rest.subrange(0, pat@.len() as int) =~= s@.subrange(
                i as int,
                i + pat@.len(),
            ));
            assert(rest.subrange(pat@.len() as int, rest.len() as int) =~= s@.subrange(
                i + pat@.len(),
                s@.len() as int,
            ));
            i = i + pat.len();
        } else {
            proof {
                if pat@.len() <= rest.len() {
                    assert(rest.subrange(0, pat@.len() as int) =~= s@.subrange(
                        i as int,
                        i + pat@.len(),
                    ));
                }
            }
            assert(rest.subrange(1, rest.len() as int) =~= s@.subrange(
                i + 1,
                s@.len() as int,
            ));
            out.push(s[i]);
            assert(out@ + remove_all(s@.subrange(i + 1, s@.len() as int), pat@) =~= (out@.drop_last()
                + remove_all(rest, pat@)));
            i = i + 1;
        }
    }
    assert(s@.subrange(i as int, s@.len() as int) =~= Seq::<char>::empty());
    assert(out@ + Seq::<char>::empty() =~= out@);
    out
}

// ── Conversions between `str`, `String` and `Vec<char>` ─────────────────────

pub fn to_chars(s: &str) -> (v: Vec<char>)
    ensures
        v@ == s@,
{
    let mut v: Vec<char> = Vec::new();
    for c in it: s.chars()
        invariant
            v@ == it.seq().take(it.index() as int),
    {
        v.push(c);
    }
    v
}

/// `String::push`.
#[verifier::external_body]
pub(crate) fn push_char(s: &mut String, c: char)
    ensures
        final(s)@ == old(s)@.push(c),
{
    s.push(c)
}

/// Append the characters `v` to `out`.
pub fn push_chars(out: &mut String, v: &[char])
    ensures
        final(out)@ == old(out)@ + v@,
{
    let mut i: usize = 0;
    while i < v.len()
        invariant
            0 <= i <= v@.len(),
            out@ == old(out)@ + v@.subrange(0, i as int),
        decreases v@.len() - i,
    {
        push_char(out, v[i]);
        i = i + 1;
        assert(out@ =~= old(out)@ + v@.subrange(0, i as int));
    }
    assert(v@.subrange(0, v@.len() as int) =~= v@);
}

pub fn from_chars(v: &[char]) -> (s: String)
    ensures
        s@ == v@,
{
    let mut s = String::new();
    push_chars(&mut s, v);
    assert(s@ =~= v@);
    s
}

/// Append `t` to `out`.
pub fn push_str(out: &mut String, t: &str)
    ensures
        final(out)@ == old(out)@ + t@,
{
    out.append(t);
}

pub fn string_of(t: &str) -> (s: String)
    ensures
        s@ == t@,
{
    String::from_str(t)
}

// ── Numbers ─────────────────────────────────────────────────────────────────

/// The ASCII digit for `d < 10`.
pub open spec fn digit_char(d: nat) -> char {
    ((d + 48) as u32) as char
}

/// The decimal notation of `n`, without leading zeros.
pub open spec fn decimal(n: nat) -> Seq<char>
    decreases n,
{
    if n < 10 {
        seq![digit_char(n)]
    } else {
        decimal(n / 10).push(digit_char(n % 10))
    }
}

fn digit_exec(d: u64) -> (c: char)
    requires
        d < 10,
    ensures
        c == digit_char(d as nat),
{
    let b: u8 = 48u8 + (d as u8);
    b as char
}

/// Append the decimal notation of `n` to `out`.
pub fn push_decimal(out: &mut String, n: u64)
    ensures
        final(out)@ == old(out)@ + decimal(n as nat),
    decreases n,
{
    if n >= 10 {
        push_decimal(out, n / 10);
    }
    push_char(out, digit_exec(n % 10));
    assert(out@ =~= old(out)@ + decimal(n as nat));
}

} // verus!
