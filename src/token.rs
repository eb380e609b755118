//! Tokens, their positions, and the byte-level model of a position.
use vstd::prelude::*;

verus! {

/// Kinds of token in the Hjson grammar.
#[derive(Clone, Copy, Debug, PartialEq, Eq, Structural)]
pub enum TokenKind {
    Eof,
    Boolean,
    LineComment,
    BlockComment,
    HashComment,
    Null,
    Integer,
    Float,
    OpenBrace,
    CloseBrace,
    OpenBracket,
    CloseBracket,
    Colon,
    Comma,
    TextSingle,
    TextDouble,
    TextMulti,
    TextUnquoted,
    NewLine,
    Whitespace,
}

/// A token recognised at the start of some input: its kind and its length in bytes.
#[derive(Clone, Copy, Debug, PartialEq, Eq, Structural)]
pub struct Token {
    pub kind: TokenKind,
    pub len: usize,
}

impl Token {
    pub fn new(kind: TokenKind, len: usize) -> (r: Token)
        ensures
            r == (Token { kind, len }),
    {
        Token { kind, len }
    }
}

impl TokenKind {
    /// A [`Token`] of this kind with the given length.
    pub fn with_len(self, len: usize) -> (r: Token)
        ensures
            r == (Token { kind: self, len }),
    {
        Token { kind: self, len }
    }
}

/// A position in a document: 1-based line and column, 0-based byte offset.
///
/// Columns count bytes from the start of the line.
#[derive(Clone, Copy, Debug, PartialEq, Eq, Structural)]
pub struct Cursor {
    pub line: usize,
    pub column: usize,
    pub byte_offset: usize,
}

impl Cursor {
    pub fn new(line: usize, column: usize, byte_offset: usize) -> (r: Cursor)
        ensures
            r == (Cursor { line, column, byte_offset }),
    {
        Cursor { line, column, byte_offset }
    }

    /// The start of a document: line 1, column 1, byte 0.
    pub fn start() -> (r: Cursor)
        ensures
            r == (Cursor { line: 1, column: 1, byte_offset: 0 }),
    {
        Cursor { line: 1, column: 1, byte_offset: 0 }
    }
}

impl Default for Cursor {
    /// The start of a document.
    fn default() -> (r: Cursor)
        ensures
            r == (Cursor { line: 1, column: 1, byte_offset: 0 }),
    {
        Cursor::start()
    }
}

/// A token placed in a document: its kind, where it starts, and its length in bytes.
#[derive(Clone, Copy, Debug, PartialEq, Eq, Structural)]
pub struct Span {
    pub kind: TokenKind,
    pub start: Cursor,
    pub len: usize,
}

impl Span {
    pub fn new(kind: TokenKind, start: Cursor, len: usize) -> (r: Span)
        ensures
            r == (Span { kind, start, len }),
    {
        Span { kind, start, len }
    }
}

/// Number of newline bytes among the first `n` bytes of `s`.
pub open spec fn newlines_before(s: Seq<u8>, n: int) -> nat
    decreases n,
{
    if n <= 0 {
        0
    } else {
        newlines_before(s, n - 1) + if s[n - 1] == 10u8 { 1nat } else { 0nat }
    }
}

/// Offset of the first byte of the line that holds offset `n`.
pub open spec fn line_start(s: Seq<u8>, n: int) -> int
    decreases n,
{
    if n <= 0 {
        0
    } else if s[n - 1] == 10u8 {
        n
    } else {
        line_start(s, n - 1)
    }
}

/// The position of byte offset `n` in the document `s`.
pub open spec fn cursor_at(s: Seq<u8>, n: int) -> Cursor {
    Cursor {
        line: (1 + newlines_before(s, n)) as usize,
        column: (n - line_start(s, n) + 1) as usize,
        byte_offset: n as usize,
    }
}

pub proof fn lemma_line_start_bounds(s: Seq<u8>, n: int)
    requires
        0 <= n,
    ensures
        0 <= line_start(s, n) <= n,
    decreases n,
{
    if n > 0 && s[n - 1] != 10u8 {
        lemma_line_start_bounds(s, n - 1);
    }
}

pub proof fn lemma_newlines_bound(s: Seq<u8>, n: int)
    requires
        0 <= n,
    ensures
        newlines_before(s, n) <= n,
    decreases n,
{
    if n > 0 {
        lemma_newlines_bound(s, n - 1);
    }
}

/// Moves `c`, the position of offset `from` in `s`, over the bytes up to `to`.
pub fn advance_cursor(s: &[u8], c: Cursor, from: usize, to: usize) -> (r: Cursor)
    requires
        from <= to <= s@.len(),
        s@.len() < usize::MAX,
        c == cursor_at(s@, from as int),
    ensures
        r == cursor_at(s@, to as int),
{
    let mut cur = c;
    let mut i: usize = from;
    while i < to
        invariant
            from <= i <= to <= s@.len(),
            s@.len() < usize::MAX,
            cur == cursor_at(s@, i as int),
        decreases to - i,
    {
        proof {
            lemma_line_start_bounds(s@, i as int);
            lemma_newlines_bound(s@, i as int);
        }
        if s[i] == 10u8 {
            cur = Cursor { line: cur.line + 1, column: 1, byte_offset: i + 1 };
        } else {
            cur = Cursor { line: cur.line, column: cur.column + 1, byte_offset: i + 1 };
        }
        i = i + 1;
    }
    cur
}

} // verus!
