//! The recognisers: each one says which token, if any, starts at an offset.
//!
//! A recogniser looks only at the bytes from its offset on. One that finds
//! no token of its own returns `None`; the lexer then tries the next one.
use vstd::prelude::*;
use vstd::string::StringSliceAdditionalSpecFns;
use crate::scan::{
    blank_end, byte_at, closing_quote, digit_end, find_from, is_blank, is_symbol_byte,
    is_symbol_exec,
    lemma_blank_end, lemma_closing_quote, lemma_digit_end, lemma_find_from, lemma_line_end,
    lemma_trim_back, lemma_word_end, line_end, matches_at, scan_blanks, scan_closing_quote,
    scan_digits, scan_find, scan_line, scan_matches, scan_trim_back, scan_word, trim_back,
    word_end,
};
use crate::token::{Token, TokenKind};

verus! {

pub open spec fn pat_line_comment() -> Seq<u8> {
    seq![47u8, 47u8]
}

pub open spec fn pat_block_open() -> Seq<u8> {
    seq![47u8, 42u8]
}

pub open spec fn pat_block_close() -> Seq<u8> {
    seq![42u8, 47u8]
}

pub open spec fn pat_triple_quote() -> Seq<u8> {
    seq![39u8, 39u8, 39u8]
}

pub open spec fn pat_true() -> Seq<u8> {
    seq![116u8, 114u8, 117u8, 101u8]
}

pub open spec fn pat_false() -> Seq<u8> {
    seq![102u8, 97u8, 108u8, 115u8, 101u8]
}

pub open spec fn pat_null() -> Seq<u8> {
    seq![110u8, 117u8, 108u8, 108u8]
}

pub open spec fn tok(kind: TokenKind, len: int) -> Option<Token> {
    Some(Token { kind, len: len as usize })
}

/// `//` or `#` up to the end of the line, or `/*` up to the first `*/`.
pub open spec fn comment_at(s: Seq<u8>, i: int) -> Option<Token> {
    if matches_at(s, i, pat_line_comment()) {
        tok(TokenKind::LineComment, line_end(s, i) - i)
    } else if matches_at(s, i, pat_block_open()) {
        match find_from(s, pat_block_close(), i + 2) {
            Some(j) => tok(TokenKind::BlockComment, j + 2 - i),
            None => None,
        }
    } else if byte_at(s, i, 35u8) {
        tok(TokenKind::HashComment, line_end(s, i) - i)
    } else {
        None
    }
}

/// The token kind of a punctuation byte.
pub open spec fn symbol_kind(b: u8) -> Option<TokenKind> {
    if b == 123u8 {
        Some(TokenKind::OpenBrace)
    } else if b == 125u8 {
        Some(TokenKind::CloseBrace)
    } else if b == 91u8 {
        Some(TokenKind::OpenBracket)
    } else if b == 93u8 {
        Some(TokenKind::CloseBracket)
    } else if b == 58u8 {
        Some(TokenKind::Colon)
    } else if b == 44u8 {
        Some(TokenKind::Comma)
    } else {
        None
    }
}

/// One punctuation byte.
pub open spec fn symbol_at(s: Seq<u8>, i: int) -> Option<Token> {
    if 0 <= i < s.len() {
        match symbol_kind(s[i]) {
            Some(k) => tok(k, 1),
            None => None,
        }
    } else {
        None
    }
}

/// A newline on its own, or a run of blanks.
pub open spec fn whitespace_at(s: Seq<u8>, i: int) -> Option<Token> {
    if byte_at(s, i, 10u8) {
        tok(TokenKind::NewLine, 1)
    } else if blank_end(s, i) > i {
        tok(TokenKind::Whitespace, blank_end(s, i) - i)
    } else {
        None
    }
}

/// The literal `true` or `false`, with no check of what follows it.
pub open spec fn boolean_at(s: Seq<u8>, i: int) -> Option<Token> {
    if matches_at(s, i, pat_true()) {
        tok(TokenKind::Boolean, 4)
    } else if matches_at(s, i, pat_false()) {
        tok(TokenKind::Boolean, 5)
    } else {
        None
    }
}

/// The literal `null`, with no check of what follows it.
pub open spec fn null_at(s: Seq<u8>, i: int) -> Option<Token> {
    if matches_at(s, i, pat_null()) {
        tok(TokenKind::Null, 4)
    } else {
        None
    }
}

/// End of the integer part that starts at `a`: a lone `0`, or one or more
/// digits; `a` itself when there is none.
pub open spec fn integer_end(s: Seq<u8>, a: int) -> int {
    if byte_at(s, a, 48u8) {
        a + 1
    } else {
        digit_end(s, a)
    }
}

/// End of the fraction that starts at `b`: a `.` and one or more digits.
/// `b` itself when there is none.
pub open spec fn fraction_end(s: Seq<u8>, b: int) -> int {
    if byte_at(s, b, 46u8) && digit_end(s, b + 1) > b + 1 {
        digit_end(s, b + 1)
    } else {
        b
    }
}

/// Offset of the first exponent digit, for an exponent marker at `c`.
pub open spec fn exponent_digits(s: Seq<u8>, c: int) -> int {
    if byte_at(s, c + 1, 43u8) || byte_at(s, c + 1, 45u8) {
        c + 2
    } else {
        c + 1
    }
}

/// End of the exponent that starts at `c`: `e` or `E`, an optional sign and
/// one or more digits. `c` itself when there is none.
pub open spec fn exponent_end(s: Seq<u8>, c: int) -> int {
    if (byte_at(s, c, 101u8) || byte_at(s, c, 69u8)) && digit_end(s, exponent_digits(s, c))
        > exponent_digits(s, c) {
        digit_end(s, exponent_digits(s, c))
    } else {
        c
    }
}

/// Whether a number that ends at `d` is properly terminated: after any
/// blanks comes the end of input, a newline or punctuation.
pub open spec fn number_terminated(s: Seq<u8>, d: int) -> bool {
    let t = blank_end(s, d);
    t >= s.len() || s[t] == 10u8 || is_symbol_byte(s[t])
}

/// `-?(0|[1-9][0-9]*)(\.[0-9]+([eE][+-]?[0-9]+)?)?`, then termination.
///
/// An exponent may only follow a fraction. An integer unless it has a
/// fraction.
pub open spec fn number_at(s: Seq<u8>, i: int) -> Option<Token> {
    let a = if byte_at(s, i, 45u8) { i + 1 } else { i };
    let b = integer_end(s, a);
    let c = fraction_end(s, b);
    let d = if c > b { exponent_end(s, c) } else { c };
    if b == a || !number_terminated(s, d) {
        None
    } else if d > b {
        tok(TokenKind::Float, d - i)
    } else {
        tok(TokenKind::Integer, d - i)
    }
}

/// A literal quoted by `q` that starts at `i`, up to its closing quote.
pub open spec fn quoted_at(s: Seq<u8>, i: int, q: u8, kind: TokenKind) -> Option<Token> {
    match closing_quote(s, q, i + 1) {
        Some(j) => tok(kind, j + 1 - i),
        None => None,
    }
}

/// Text of a key: quoted, or up to whitespace or punctuation.
pub open spec fn key_at(s: Seq<u8>, i: int) -> Option<Token> {
    if byte_at(s, i, 39u8) {
        quoted_at(s, i, 39u8, TokenKind::TextSingle)
    } else if byte_at(s, i, 34u8) {
        quoted_at(s, i, 34u8, TokenKind::TextDouble)
    } else {
        tok(TokenKind::TextUnquoted, word_end(s, i) - i)
    }
}

/// Text of a value: `'''` up to the next `'''`, quoted, or up to the end of
/// the line without its trailing blanks.
pub open spec fn text_at(s: Seq<u8>, i: int) -> Option<Token> {
    if matches_at(s, i, pat_triple_quote()) {
        match find_from(s, pat_triple_quote(), i + 3) {
            Some(j) => tok(TokenKind::TextMulti, j + 3 - i),
            None => None,
        }
    } else if byte_at(s, i, 39u8) {
        quoted_at(s, i, 39u8, TokenKind::TextSingle)
    } else if byte_at(s, i, 34u8) {
        quoted_at(s, i, 34u8, TokenKind::TextDouble)
    } else {
        tok(TokenKind::TextUnquoted, trim_back(s, i, line_end(s, i)) - i)
    }
}

/// A number that is found has a positive length within the input.
pub proof fn lemma_number_bounds(s: Seq<u8>, i: int)
    requires
        0 <= i < s.len() < usize::MAX,
    ensures
        number_at(s, i) matches Some(t) ==> 0 < t.len && i + t.len <= s.len(),
{
    let a = if byte_at(s, i, 45u8) { i + 1 } else { i };
    lemma_digit_end(s, a);
    let b = integer_end(s, a);
    if b > a {
        if b + 1 <= s.len() {
            lemma_digit_end(s, b + 1);
        }
        let c = fraction_end(s, b);
        let x = exponent_digits(s, c);
        if x <= s.len() {
            lemma_digit_end(s, x);
        }
        let d = if c > b { exponent_end(s, c) } else { c };
        assert(b <= c <= d <= s.len());
    }
}

/// A value text that is not quoted, starting at a byte that is neither a
/// blank nor a newline, is not empty.
pub proof fn lemma_unquoted_text_nonempty(s: Seq<u8>, i: int)
    requires
        0 <= i < s.len(),
        !is_blank(s[i]),
        s[i] != 10u8,
    ensures
        i < trim_back(s, i, line_end(s, i)) <= s.len(),
{
    lemma_line_end(s, i);
    let e = line_end(s, i);
    assert(e > i);
    lemma_trim_back_above(s, i, e);
}

proof fn lemma_trim_back_above(s: Seq<u8>, lo: int, n: int)
    requires
        0 <= lo < n,
        !is_blank(s[lo]),
    ensures
        lo < trim_back(s, lo, n) <= n,
    decreases n - lo,
{
    if is_blank(s[n - 1]) {
        lemma_trim_back_above(s, lo, n - 1);
    }
}

fn bytes2(a: u8, b: u8) -> (r: Vec<u8>)
    ensures
        r@ == seq![a, b],
{
    let mut v: Vec<u8> = Vec::new();
    v.push(a);
    v.push(b);
    assert(v@ =~= seq![a, b]);
    v
}

fn bytes3(a: u8, b: u8, c: u8) -> (r: Vec<u8>)
    ensures
        r@ == seq![a, b, c],
{
    let mut v = bytes2(a, b);
    v.push(c);
    assert(v@ =~= seq![a, b, c]);
    v
}

fn bytes4(a: u8, b: u8, c: u8, d: u8) -> (r: Vec<u8>)
    ensures
        r@ == seq![a, b, c, d],
{
    let mut v = bytes3(a, b, c);
    v.push(d);
    assert(v@ =~= seq![a, b, c, d]);
    v
}

fn bytes5(a: u8, b: u8, c: u8, d: u8, e: u8) -> (r: Vec<u8>)
    ensures
        r@ == seq![a, b, c, d, e],
{
    let mut v = bytes4(a, b, c, d);
    v.push(e);
    assert(v@ =~= seq![a, b, c, d, e]);
    v
}

fn has_byte(s: &[u8], i: usize, b: u8) -> (r: bool)
    ensures
        r == byte_at(s@, i as int, b),
{
    i < s.len() && s[i] == b
}

pub fn scan_comment(s: &[u8], i: usize) -> (r: Option<Token>)
    requires
        i <= s@.len(),
    ensures
        r == comment_at(s@, i as int),
{
    let len = s.len();
    if i < len && scan_matches(s, i, bytes2(47, 47).as_slice()) {
        let e = scan_line(s, i);
        proof { lemma_line_end(s@, i as int); }
        Some(Token { kind: TokenKind::LineComment, len: e - i })
    } else if scan_matches(s, i, bytes2(47, 42).as_slice()) {
        proof { lemma_find_from(s@, pat_block_close(), i + 2); }
        match scan_find(s, bytes2(42, 47).as_slice(), i + 2) {
            Some(j) => Some(Token { kind: TokenKind::BlockComment, len: j + 2 - i }),
            None => None,
        }
    } else if has_byte(s, i, 35) {
        let e = scan_line(s, i);
        proof { lemma_line_end(s@, i as int); }
        Some(Token { kind: TokenKind::HashComment, len: e - i })
    } else {
        None
    }
}

pub fn scan_symbol(s: &[u8], i: usize) -> (r: Option<Token>)
    ensures
        r == symbol_at(s@, i as int),
{
    if i >= s.len() {
        return None;
    }
    let b = s[i];
    let kind = if b == 123u8 {
        TokenKind::OpenBrace
    } else if b == 125u8 {
        TokenKind::CloseBrace
    } else if b == 91u8 {
        TokenKind::OpenBracket
    } else if b == 93u8 {
        TokenKind::CloseBracket
    } else if b == 58u8 {
        TokenKind::Colon
    } else if b == 44u8 {
        TokenKind::Comma
    } else {
        return None;
    };
    Some(Token { kind, len: 1 })
}

pub fn scan_whitespace(s: &[u8], i: usize) -> (r: Option<Token>)
    requires
        i <= s@.len(),
    ensures
        r == whitespace_at(s@, i as int),
{
    if has_byte(s, i, 10) {
        return Some(Token { kind: TokenKind::NewLine, len: 1 });
    }
    let e = scan_blanks(s, i);
    if e > i {
        Some(Token { kind: TokenKind::Whitespace, len: e - i })
    } else {
        None
    }
}

pub fn scan_boolean(s: &[u8], i: usize) -> (r: Option<Token>)
    ensures
        r == boolean_at(s@, i as int),
{
    if scan_matches(s, i, bytes4(116, 114, 117, 101).as_slice()) {
        Some(Token { kind: TokenKind::Boolean, len: 4 })
    } else if scan_matches(s, i, bytes5(102, 97, 108, 115, 101).as_slice()) {
        Some(Token { kind: TokenKind::Boolean, len: 5 })
    } else {
        None
    }
}

pub fn scan_null(s: &[u8], i: usize) -> (r: Option<Token>)
    ensures
        r == null_at(s@, i as int),
{
    if scan_matches(s, i, bytes4(110, 117, 108, 108).as_slice()) {
        Some(Token { kind: TokenKind::Null, len: 4 })
    } else {
        None
    }
}

fn scan_integer_end(s: &[u8], a: usize) -> (r: usize)
    requires
        a <= s@.len(),
    ensures
        r == integer_end(s@, a as int),
        a <= r <= s@.len(),
{
    let len = s.len();
    if a < len && s[a] == 48u8 {
        a + 1
    } else {
        proof { lemma_digit_end(s@, a as int); }
        scan_digits(s, a)
    }
}

fn scan_fraction_end(s: &[u8], b: usize) -> (r: usize)
    requires
        b <= s@.len(),
    ensures
        r == fraction_end(s@, b as int),
        b <= r <= s@.len(),
{
    let len = s.len();
    if b < len && s[b] == 46u8 {
        let f = scan_digits(s, b + 1);
        proof { lemma_digit_end(s@, b + 1); }
        if f > b + 1 {
            return f;
        }
    }
    b
}

fn scan_exponent_end(s: &[u8], c: usize) -> (r: usize)
    requires
        c <= s@.len(),
    ensures
        r == exponent_end(s@, c as int),
        c <= r <= s@.len(),
{
    let len = s.len();
    if c < len && (s[c] == 101u8 || s[c] == 69u8) {
        let x: usize = if c + 1 < len && (s[c + 1] == 43u8 || s[c + 1] == 45u8) {
            c + 2
        } else {
            c + 1
        };
        assert(x == exponent_digits(s@, c as int));
        if x <= len {
            let e = scan_digits(s, x);
            proof { lemma_digit_end(s@, x as int); }
            if e > x {
                return e;
            }
        } else {
            assert(digit_end(s@, x as int) == x);
        }
    }
    c
}

fn scan_terminated(s: &[u8], d: usize) -> (r: bool)
    requires
        d <= s@.len(),
    ensures
        r == number_terminated(s@, d as int),
{
    let len = s.len();
    let t = scan_blanks(s, d);
    proof { lemma_blank_end(s@, d as int); }
    t >= len || s[t] == 10u8 || is_symbol_exec(s[t])
}

pub fn scan_number(s: &[u8], i: usize) -> (r: Option<Token>)
    requires
        i <= s@.len(),
    ensures
        r == number_at(s@, i as int),
{
    let len = s.len();
    let a: usize = if i < len && s[i] == 45u8 { i + 1 } else { i };
    let b = scan_integer_end(s, a);
    if b == a {
        return None;
    }
    let c = scan_fraction_end(s, b);
    let d = if c > b { scan_exponent_end(s, c) } else { c };
    if !scan_terminated(s, d) {
        None
    } else if d > b {
        Some(Token { kind: TokenKind::Float, len: d - i })
    } else {
        Some(Token { kind: TokenKind::Integer, len: d - i })
    }
}

fn scan_quoted(s: &[u8], i: usize, q: u8, kind: TokenKind) -> (r: Option<Token>)
    ensures
        r == quoted_at(s@, i as int, q, kind),
{
    if i >= s.len() {
        assert(closing_quote(s@, q, i + 1) is None);
        return None;
    }
    proof { lemma_closing_quote(s@, q, i + 1); }
    match scan_closing_quote(s, q, i + 1) {
        Some(j) => Some(Token { kind, len: j + 1 - i }),
        None => None,
    }
}

pub fn scan_key(s: &[u8], i: usize) -> (r: Option<Token>)
    requires
        i <= s@.len(),
    ensures
        r == key_at(s@, i as int),
{
    if has_byte(s, i, 39) {
        scan_quoted(s, i, 39, TokenKind::TextSingle)
    } else if has_byte(s, i, 34) {
        scan_quoted(s, i, 34, TokenKind::TextDouble)
    } else {
        let e = scan_word(s, i);
        proof { lemma_word_end(s@, i as int); }
        Some(Token { kind: TokenKind::TextUnquoted, len: e - i })
    }
}

pub fn scan_text(s: &[u8], i: usize) -> (r: Option<Token>)
    requires
        i <= s@.len(),
    ensures
        r == text_at(s@, i as int),
{
    let len = s.len();
    if i < len && scan_matches(s, i, bytes3(39, 39, 39).as_slice()) {
        proof { lemma_find_from(s@, pat_triple_quote(), i + 3); }
        match scan_find(s, bytes3(39, 39, 39).as_slice(), i + 3) {
            Some(j) => Some(Token { kind: TokenKind::TextMulti, len: j + 3 - i }),
            None => None,
        }
    } else if has_byte(s, i, 39) {
        scan_quoted(s, i, 39, TokenKind::TextSingle)
    } else if has_byte(s, i, 34) {
        scan_quoted(s, i, 34, TokenKind::TextDouble)
    } else {
        let e = scan_line(s, i);
        proof { lemma_line_end(s@, i as int); }
        let t = scan_trim_back(s, i, e);
        proof { lemma_trim_back(s@, i as int, e as int); }
        Some(Token { kind: TokenKind::TextUnquoted, len: t - i })
    }
}

/// Recogniser of the literals `true` and `false`.
#[derive(Clone, Copy, Debug, PartialEq, Eq)]
pub struct Boolean;

/// Recogniser of line (`//`), block (`/* */`) and hash (`#`) comments.
#[derive(Clone, Copy, Debug, PartialEq, Eq)]
pub struct Comment;

/// Recogniser of the text of a key.
#[derive(Clone, Copy, Debug, PartialEq, Eq)]
pub struct Key;

/// Recogniser of the literal `null`.
#[derive(Clone, Copy, Debug, PartialEq, Eq)]
pub struct Null;

/// Recogniser of integers and floats.
#[derive(Clone, Copy, Debug, PartialEq, Eq)]
pub struct Number;

/// Recogniser of the punctuation `{ } [ ] : ,`.
#[derive(Clone, Copy, Debug, PartialEq, Eq)]
pub struct Symbol;

/// Recogniser of the text of a value.
#[derive(Clone, Copy, Debug, PartialEq, Eq)]
pub struct Text;

/// Recogniser of newlines and runs of blanks.
#[derive(Clone, Copy, Debug, PartialEq, Eq)]
pub struct Whitespace;

impl Boolean {
    /// The boolean literal at the start of `input`, if any.
    pub fn parse(input: &str) -> (r: Option<Token>)
        ensures
            r == boolean_at(input.spec_bytes(), 0),
    {
        scan_boolean(input.as_bytes(), 0)
    }
}

impl Comment {
    /// The comment at the start of `input`, if any.
    pub fn parse(input: &str) -> (r: Option<Token>)
        ensures
            r == comment_at(input.spec_bytes(), 0),
    {
        scan_comment(input.as_bytes(), 0)
    }
}

impl Key {
    /// The key text at the start of `input`, if any.
    pub fn parse(input: &str) -> (r: Option<Token>)
        ensures
            r == key_at(input.spec_bytes(), 0),
    {
        scan_key(input.as_bytes(), 0)
    }
}

impl Null {
    /// The `null` literal at the start of `input`, if any.
    pub fn parse(input: &str) -> (r: Option<Token>)
        ensures
            r == null_at(input.spec_bytes(), 0),
    {
        scan_null(input.as_bytes(), 0)
    }
}

impl Number {
    /// The number at the start of `input`, if any.
    pub fn parse(input: &str) -> (r: Option<Token>)
        ensures
            r == number_at(input.spec_bytes(), 0),
    {
        scan_number(input.as_bytes(), 0)
    }
}

impl Symbol {
    /// The punctuation byte at the start of `input`, if any.
    pub fn parse(input: &str) -> (r: Option<Token>)
        ensures
            r == symbol_at(input.spec_bytes(), 0),
    {
        scan_symbol(input.as_bytes(), 0)
    }
}

impl Text {
    /// The value text at the start of `input`, if any.
    pub fn parse(input: &str) -> (r: Option<Token>)
        ensures
            r == text_at(input.spec_bytes(), 0),
    {
        scan_text(input.as_bytes(), 0)
    }
}

impl Whitespace {
    /// The newline or run of blanks at the start of `input`, if any.
    pub fn parse(input: &str) -> (r: Option<Token>)
        ensures
            r == whitespace_at(input.spec_bytes(), 0),
    {
        scan_whitespace(input.as_bytes(), 0)
    }
}

} // verus!
