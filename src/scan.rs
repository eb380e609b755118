//! Byte classes and forward scans over a document's bytes.
//!
//! Every scan starts at an offset and stops at the first byte that ends it,
//! or at the end of the input.
use vstd::prelude::*;

verus! {

/// Whitespace that does not end a line: space, tab, carriage return,
/// vertical tab and form feed.
///
/// Only ASCII bytes count: the lexer works on bytes, and whitespace outside
/// ASCII (a no-break space, say) is read as part of text.
pub open spec fn is_blank(b: u8) -> bool {
    b == 32u8 || b == 9u8 || b == 13u8 || b == 11u8 || b == 12u8
}

/// The six punctuation bytes `{ } [ ] : ,`.
pub open spec fn is_symbol_byte(b: u8) -> bool {
    b == 123u8 || b == 125u8 || b == 91u8 || b == 93u8 || b == 58u8 || b == 44u8
}

pub open spec fn is_digit(b: u8) -> bool {
    48u8 <= b <= 57u8
}

/// Whether the byte at offset `i` exists and equals `b`.
pub open spec fn byte_at(s: Seq<u8>, i: int, b: u8) -> bool {
    0 <= i < s.len() && s[i] == b
}

/// Whether `pat` occurs in `s` at offset `i`.
pub open spec fn matches_at(s: Seq<u8>, i: int, pat: Seq<u8>) -> bool {
    0 <= i && i + pat.len() <= s.len() && forall|k: int| 0 <= k < pat.len() ==> s[i + k] == pat[k]
}

/// First offset at or after `i` that does not hold a blank.
pub open spec fn blank_end(s: Seq<u8>, i: int) -> int
    decreases s.len() - i,
{
    if 0 <= i < s.len() && is_blank(s[i]) {
        blank_end(s, i + 1)
    } else {
        i
    }
}

/// First offset at or after `i` that does not hold a decimal digit.
pub open spec fn digit_end(s: Seq<u8>, i: int) -> int
    decreases s.len() - i,
{
    if 0 <= i < s.len() && is_digit(s[i]) {
        digit_end(s, i + 1)
    } else {
        i
    }
}

/// First offset at or after `i` that holds a newline, or the end of `s`.
pub open spec fn line_end(s: Seq<u8>, i: int) -> int
    decreases s.len() - i,
{
    if 0 <= i < s.len() && s[i] != 10u8 {
        line_end(s, i + 1)
    } else {
        i
    }
}

/// First offset at or after `i` that holds whitespace or punctuation.
pub open spec fn word_end(s: Seq<u8>, i: int) -> int
    decreases s.len() - i,
{
    if 0 <= i < s.len() && !is_blank(s[i]) && s[i] != 10u8 && !is_symbol_byte(s[i]) {
        word_end(s, i + 1)
    } else {
        i
    }
}

/// Offset `n` moved back over the blanks that precede it, but not below `lo`.
pub open spec fn trim_back(s: Seq<u8>, lo: int, n: int) -> int
    decreases n - lo,
{
    if lo < n && is_blank(s[n - 1]) {
        trim_back(s, lo, n - 1)
    } else {
        n
    }
}

/// First offset at or after `j` that holds the quote `q` not preceded by a backslash.
pub open spec fn closing_quote(s: Seq<u8>, q: u8, j: int) -> Option<int>
    decreases s.len() - j,
{
    if j <= 0 || j >= s.len() {
        None
    } else if s[j] == q && s[j - 1] != 92u8 {
        Some(j)
    } else {
        closing_quote(s, q, j + 1)
    }
}

/// First offset at or after `j` where `pat` occurs.
pub open spec fn find_from(s: Seq<u8>, pat: Seq<u8>, j: int) -> Option<int>
    decreases s.len() - j,
{
    if j < 0 || j + pat.len() > s.len() {
        None
    } else if matches_at(s, j, pat) {
        Some(j)
    } else {
        find_from(s, pat, j + 1)
    }
}

pub proof fn lemma_blank_end(s: Seq<u8>, i: int)
    requires
        0 <= i <= s.len(),
    ensures
        i <= blank_end(s, i) <= s.len(),
        forall|k: int| i <= k < blank_end(s, i) ==> is_blank(#[trigger] s[k]),
        blank_end(s, i) < s.len() ==> !is_blank(s[blank_end(s, i)]),
    decreases s.len() - i,
{
    if i < s.len() && is_blank(s[i]) {
        lemma_blank_end(s, i + 1);
    }
}

pub proof fn lemma_digit_end(s: Seq<u8>, i: int)
    requires
        0 <= i <= s.len(),
    ensures
        i <= digit_end(s, i) <= s.len(),
    decreases s.len() - i,
{
    if i < s.len() && is_digit(s[i]) {
        lemma_digit_end(s, i + 1);
    }
}

pub proof fn lemma_line_end(s: Seq<u8>, i: int)
    requires
        0 <= i <= s.len(),
    ensures
        i <= line_end(s, i) <= s.len(),
        forall|k: int| i <= k < line_end(s, i) ==> #[trigger] s[k] != 10u8,
        line_end(s, i) < s.len() ==> s[line_end(s, i)] == 10u8,
    decreases s.len() - i,
{
    if i < s.len() && s[i] != 10u8 {
        lemma_line_end(s, i + 1);
    }
}

pub proof fn lemma_word_end(s: Seq<u8>, i: int)
    requires
        0 <= i <= s.len(),
    ensures
        i <= word_end(s, i) <= s.len(),
    decreases s.len() - i,
{
    if i < s.len() && !is_blank(s[i]) && s[i] != 10u8 && !is_symbol_byte(s[i]) {
        lemma_word_end(s, i + 1);
    }
}

pub proof fn lemma_trim_back(s: Seq<u8>, lo: int, n: int)
    requires
        lo <= n,
    ensures
        lo <= trim_back(s, lo, n) <= n,
    decreases n - lo,
{
    if lo < n && is_blank(s[n - 1]) {
        lemma_trim_back(s, lo, n - 1);
    }
}

pub proof fn lemma_closing_quote(s: Seq<u8>, q: u8, j: int)
    ensures
        closing_quote(s, q, j) matches Some(k) ==> j <= k < s.len() && 0 < k,
    decreases s.len() - j,
{
    if !(j <= 0 || j >= s.len()) && !(s[j] == q && s[j - 1] != 92u8) {
        lemma_closing_quote(s, q, j + 1);
    }
}

pub proof fn lemma_find_from(s: Seq<u8>, pat: Seq<u8>, j: int)
    ensures
        find_from(s, pat, j) matches Some(k) ==> j <= k && 0 <= k && k + pat.len() <= s.len(),
    decreases s.len() - j,
{
    if !(j < 0 || j + pat.len() > s.len()) && !matches_at(s, j, pat) {
        lemma_find_from(s, pat, j + 1);
    }
}

pub fn scan_blanks(s: &[u8], i: usize) -> (r: usize)
    requires
        i <= s@.len(),
    ensures
        r == blank_end(s@, i as int),
{
    let mut k: usize = i;
    while k < s.len() && (s[k] == 32u8 || s[k] == 9u8 || s[k] == 13u8 || s[k] == 11u8 || s[k] == 12u8)
        invariant
            i <= k <= s@.len(),
            blank_end(s@, k as int) == blank_end(s@, i as int),
        decreases s@.len() - k,
    {
        k = k + 1;
    }
    k
}

pub fn scan_digits(s: &[u8], i: usize) -> (r: usize)
    requires
        i <= s@.len(),
    ensures
        r == digit_end(s@, i as int),
{
    let mut k: usize = i;
    while k < s.len() && 48u8 <= s[k] && s[k] <= 57u8
        invariant
            i <= k <= s@.len(),
            digit_end(s@, k as int) == digit_end(s@, i as int),
        decreases s@.len() - k,
    {
        k = k + 1;
    }
    k
}

pub fn scan_line(s: &[u8], i: usize) -> (r: usize)
    requires
        i <= s@.len(),
    ensures
        r == line_end(s@, i as int),
{
    let mut k: usize = i;
    while k < s.len() && s[k] != 10u8
        invariant
            i <= k <= s@.len(),
            line_end(s@, k as int) == line_end(s@, i as int),
        decreases s@.len() - k,
    {
        k = k + 1;
    }
    k
}

pub fn is_symbol_exec(b: u8) -> (r: bool)
    ensures
        r == is_symbol_byte(b),
{
    b == 123u8 || b == 125u8 || b == 91u8 || b == 93u8 || b == 58u8 || b == 44u8
}

pub fn is_blank_exec(b: u8) -> (r: bool)
    ensures
        r == is_blank(b),
{
    b == 32u8 || b == 9u8 || b == 13u8 || b == 11u8 || b == 12u8
}

pub fn scan_word(s: &[u8], i: usize) -> (r: usize)
    requires
        i <= s@.len(),
    ensures
        r == word_end(s@, i as int),
{
    let mut k: usize = i;
    while k < s.len() && !is_blank_exec(s[k]) && s[k] != 10u8 && !is_symbol_exec(s[k])
        invariant
            i <= k <= s@.len(),
            word_end(s@, k as int) == word_end(s@, i as int),
        decreases s@.len() - k,
    {
        k = k + 1;
    }
    k
}

pub fn scan_trim_back(s: &[u8], lo: usize, n: usize) -> (r: usize)
    requires
        lo <= n <= s@.len(),
    ensures
        r == trim_back(s@, lo as int, n as int),
{
    let mut k: usize = n;
    while lo < k && is_blank_exec(s[k - 1])
        invariant
            lo <= k <= n <= s@.len(),
            trim_back(s@, lo as int, k as int) == trim_back(s@, lo as int, n as int),
        decreases k - lo,
    {
        k = k - 1;
    }
    k
}

pub fn scan_closing_quote(s: &[u8], q: u8, j: usize) -> (r: Option<usize>)
    requires
        0 < j,
    ensures
        r matches Some(k) ==> closing_quote(s@, q, j as int) == Some(k as int),
        r is None ==> closing_quote(s@, q, j as int) is None,
{
    let mut k: usize = j;
    while k < s.len()
        invariant
            0 < j <= k,
            closing_quote(s@, q, k as int) == closing_quote(s@, q, j as int),
        decreases s@.len() - k,
    {
        if s[k] == q && s[k - 1] != 92u8 {
            return Some(k);
        }
        k = k + 1;
    }
    None
}

/// Whether `pat` occurs in `s` at offset `i`.
pub fn scan_matches(s: &[u8], i: usize, pat: &[u8]) -> (r: bool)
    ensures
        r == matches_at(s@, i as int, pat@),
{
    if pat.len() > s.len() || i > s.len() - pat.len() {
        return false;
    }
    let n = s.len();
    let mut k: usize = 0;
    while k < pat.len()
        invariant
            n == s@.len(),
            k <= pat@.len(),
            i + pat@.len() <= s@.len(),
            forall|m: int| 0 <= m < k ==> s@[i + m] == pat@[m],
        decreases pat@.len() - k,
    {
        if s[i + k] != pat[k] {
            return false;
        }
        k = k + 1;
    }
    true
}

pub fn scan_find(s: &[u8], pat: &[u8], j: usize) -> (r: Option<usize>)
    ensures
        r matches Some(k) ==> find_from(s@, pat@, j as int) == Some(k as int),
        r is None ==> find_from(s@, pat@, j as int) is None,
{
    let mut k: usize = j;
    while pat.len() <= s.len() && k <= s.len() - pat.len()
        invariant
            j <= k,
            find_from(s@, pat@, k as int) == find_from(s@, pat@, j as int),
        decreases s@.len() - k,
    {
        if scan_matches(s, k, pat) {
            return Some(k);
        }
        k = k + 1;
    }
    None
}

} // verus!
