//! The lexer: the ordered choice of recogniser at each offset, and the token
//! stream of a whole document.
use vstd::prelude::*;
use vstd::string::StringSliceAdditionalSpecFns;
use crate::recognize::{
    boolean_at, comment_at, key_at, lemma_number_bounds, lemma_unquoted_text_nonempty, null_at,
    number_at, pat_block_close, pat_triple_quote, scan_boolean, scan_comment, scan_key,
    scan_null, scan_number, scan_symbol, scan_text, scan_whitespace, symbol_at, text_at,
    whitespace_at,
};
use crate::scan::{
    is_blank, is_symbol_byte, lemma_blank_end, lemma_closing_quote, lemma_find_from,
    lemma_line_end, lemma_word_end, word_end,
};
use crate::token::{advance_cursor, cursor_at, Cursor, Span, Token, TokenKind};

verus! {

/// The context in which text is lexed.
///
/// Text after a `:` is a value, which runs to the end of the line unless it
/// is quoted; text anywhere else is a key, which ends at punctuation.
#[derive(Clone, Copy, Debug, PartialEq, Eq, Structural)]
pub enum Context {
    Key,
    Value,
}

pub open spec fn first_of(a: Option<Token>, b: Option<Token>) -> Option<Token> {
    if a is Some {
        a
    } else {
        b
    }
}

/// The token at offset `i`: the first recogniser that matches wins.
///
/// For keys the order is comment, symbol, whitespace, key text, boolean,
/// null, number, so that a key named `true` or `10` is text. For values it
/// is comment, symbol, whitespace, boolean, null, number, value text.
#[verifier::opaque]
pub open spec fn token_at(s: Seq<u8>, i: int, context: Context) -> Option<Token> {
    match context {
        Context::Key => first_of(
            comment_at(s, i),
            first_of(
                symbol_at(s, i),
                first_of(
                    whitespace_at(s, i),
                    first_of(
                        key_at(s, i),
                        first_of(boolean_at(s, i), first_of(null_at(s, i), number_at(s, i))),
                    ),
                ),
            ),
        ),
        Context::Value => first_of(
            comment_at(s, i),
            first_of(
                symbol_at(s, i),
                first_of(
                    whitespace_at(s, i),
                    first_of(
                        boolean_at(s, i),
                        first_of(null_at(s, i), first_of(number_at(s, i), text_at(s, i))),
                    ),
                ),
            ),
        ),
    }
}

/// Whitespace, newlines and comments: tokens with no meaning of their own.
pub open spec fn is_trivia(kind: TokenKind) -> bool {
    kind == TokenKind::Whitespace || kind == TokenKind::NewLine || kind == TokenKind::LineComment
        || kind == TokenKind::HashComment || kind == TokenKind::BlockComment
}

/// The context after a token of the given kind: a colon starts a value,
/// trivia keeps the context, anything else returns to keys.
pub open spec fn next_context(context: Context, kind: TokenKind) -> Context {
    if kind == TokenKind::Colon {
        Context::Value
    } else if is_trivia(kind) {
        context
    } else {
        Context::Key
    }
}

/// The tokens of `s` from offset `i` on, in `context`.
///
/// Ends with one zero-length `Eof` token when the end of input is reached;
/// ends without it where no recogniser matches.
pub open spec fn lex_from(s: Seq<u8>, i: int, context: Context) -> Seq<Span>
    decreases s.len() - i,
{
    if i < 0 {
        seq![]
    } else if i >= s.len() {
        seq![Span { kind: TokenKind::Eof, start: cursor_at(s, i), len: 0 }]
    } else {
        match token_at(s, i, context) {
            Some(t) => if 0 < t.len && i + t.len <= s.len() {
                seq![Span { kind: t.kind, start: cursor_at(s, i), len: t.len }] + lex_from(
                    s,
                    i + t.len,
                    next_context(context, t.kind),
                )
            } else {
                seq![]
            },
            None => seq![],
        }
    }
}

/// The token stream of a whole document.
pub open spec fn tokens_of(s: Seq<u8>) -> Seq<Span> {
    lex_from(s, 0, Context::Key)
}

/// Whether a token stream reached the end of its input.
pub open spec fn is_complete(t: Seq<Span>) -> bool {
    t.len() > 0 && t.last().kind == TokenKind::Eof
}

/// A token found at an offset inside the input has a positive length and
/// ends within the input.
pub proof fn lemma_token_bounds(s: Seq<u8>, i: int, context: Context)
    requires
        0 <= i < s.len() < usize::MAX,
    ensures
        token_at(s, i, context) matches Some(t) ==> 0 < t.len && i + t.len <= s.len() && t.kind
            != TokenKind::Eof,
{
    reveal(token_at);
    lemma_line_end(s, i);
    lemma_blank_end(s, i);
    lemma_word_end(s, i);
    lemma_closing_quote(s, 39u8, i + 1);
    lemma_closing_quote(s, 34u8, i + 1);
    lemma_find_from(s, pat_block_close(), i + 2);
    lemma_find_from(s, pat_triple_quote(), i + 3);
    lemma_number_bounds(s, i);
    assert(comment_at(s, i) matches Some(t) ==> 0 < t.len && i + t.len <= s.len());
    assert(symbol_at(s, i) matches Some(t) ==> 0 < t.len && i + t.len <= s.len());
    assert(whitespace_at(s, i) matches Some(t) ==> 0 < t.len && i + t.len <= s.len());
    assert(boolean_at(s, i) matches Some(t) ==> 0 < t.len && i + t.len <= s.len());
    assert(null_at(s, i) matches Some(t) ==> 0 < t.len && i + t.len <= s.len());
    if whitespace_at(s, i) is None && symbol_at(s, i) is None {
        assert(!is_blank(s[i]) && s[i] != 10u8 && !is_symbol_byte(s[i]));
        lemma_unquoted_text_nonempty(s, i);
        lemma_word_end(s, i + 1);
        assert(word_end(s, i) == word_end(s, i + 1));
        assert(key_at(s, i) matches Some(t) ==> 0 < t.len && i + t.len <= s.len());
        assert(text_at(s, i) matches Some(t) ==> 0 < t.len && i + t.len <= s.len());
    }
}

/// The bytes of `s` that the token `span` covers.
pub open spec fn span_text(s: Seq<u8>, span: Span) -> Seq<u8> {
    s.subrange(span.start.byte_offset as int, span.start.byte_offset + span.len)
}

/// The bytes that a sequence of tokens covers, laid end to end.
pub open spec fn concat_text(s: Seq<u8>, spans: Seq<Span>) -> Seq<u8>
    decreases spans.len(),
{
    if spans.len() == 0 {
        seq![]
    } else {
        span_text(s, spans[0]) + concat_text(s, spans.drop_first())
    }
}

proof fn lemma_lex_unfold(s: Seq<u8>, i: int, context: Context)
    requires
        0 <= i < s.len() < usize::MAX,
        token_at(s, i, context) is Some,
    ensures
        ({
            let tk = token_at(s, i, context)->0;
            &&& 0 < tk.len && i + tk.len <= s.len() && tk.kind != TokenKind::Eof
            &&& lex_from(s, i, context) == seq![
                Span { kind: tk.kind, start: cursor_at(s, i), len: tk.len },
            ] + lex_from(s, i + tk.len, next_context(context, tk.kind))
        }),
{
    lemma_token_bounds(s, i, context);
}

proof fn lemma_lex_offsets(s: Seq<u8>, i: int, context: Context)
    requires
        0 <= i <= s.len() < usize::MAX,
    ensures
        lex_from(s, i, context).len() > 0 ==> lex_from(s, i, context)[0].start == cursor_at(s, i),
        forall|k: int|
            0 <= k < lex_from(s, i, context).len() ==> {
                let sp = #[trigger] lex_from(s, i, context)[k];
                &&& sp.start == cursor_at(s, sp.start.byte_offset as int)
                &&& i <= sp.start.byte_offset
                &&& sp.start.byte_offset + sp.len <= s.len()
            },
        forall|k: int|
            0 <= k < lex_from(s, i, context).len() - 1 ==> #[trigger] lex_from(s, i, context)[k
                + 1].start.byte_offset == lex_from(s, i, context)[k].start.byte_offset + lex_from(
                s,
                i,
                context,
            )[k].len,
    decreases s.len() - i,
{
    let t = lex_from(s, i, context);
    if i < s.len() && token_at(s, i, context) is Some {
        lemma_lex_unfold(s, i, context);
        let tk = token_at(s, i, context)->0;
        let j = i + tk.len;
        let rest = lex_from(s, j, next_context(context, tk.kind));
        lemma_lex_offsets(s, j, next_context(context, tk.kind));
        assert forall|k: int| 0 <= k < t.len() - 1 implies #[trigger] t[k + 1].start.byte_offset
            == t[k].start.byte_offset + t[k].len by {
            assert(t[k + 1] == rest[k]);
            if k > 0 {
                let k1 = k - 1;
                assert(t[k] == rest[k1]);
                assert(rest[k1 + 1].start.byte_offset == rest[k1].start.byte_offset
                    + rest[k1].len);
            } else {
                assert(rest[0].start == cursor_at(s, j));
                assert(t[0].start == cursor_at(s, i));
            }
        }
        assert forall|k: int| 0 <= k < t.len() implies {
            let sp = #[trigger] t[k];
            &&& sp.start == cursor_at(s, sp.start.byte_offset as int)
            &&& i <= sp.start.byte_offset
            &&& sp.start.byte_offset + sp.len <= s.len()
        } by {
            if k > 0 {
                assert(t[k] == rest[k - 1]);
            }
        }
    }
}

proof fn lemma_lex_complete(s: Seq<u8>, i: int, context: Context)
    requires
        0 <= i <= s.len() < usize::MAX,
        is_complete(lex_from(s, i, context)),
    ensures
        concat_text(s, lex_from(s, i, context)) == s.subrange(i, s.len() as int),
        lex_from(s, i, context).last().start.byte_offset == s.len(),
        forall|k: int|
            0 <= k < lex_from(s, i, context).len() - 1 ==> (#[trigger] lex_from(s, i, context)[
                k]).kind != TokenKind::Eof,
    decreases s.len() - i,
{
    let t = lex_from(s, i, context);
    if i >= s.len() {
        assert(concat_text(s, t.drop_first()) == Seq::<u8>::empty());
        assert(concat_text(s, t) =~= s.subrange(i, s.len() as int));
    } else {
        lemma_lex_unfold(s, i, context);
        let tk = token_at(s, i, context)->0;
        let j = i + tk.len;
        let rest = lex_from(s, j, next_context(context, tk.kind));
        assert(rest.len() > 0);
        assert(t.last() == rest.last());
        lemma_lex_complete(s, j, next_context(context, tk.kind));
        assert(t.drop_first() =~= rest);
        assert(s.subrange(i, j) + s.subrange(j, s.len() as int) =~= s.subrange(i, s.len() as int));
        assert forall|k: int| 0 <= k < t.len() - 1 implies (#[trigger] t[k]).kind
            != TokenKind::Eof by {
            if k > 0 {
                assert(t[k] == rest[k - 1]);
            }
        }
    }
}

proof fn lemma_lex_no_early_eof(s: Seq<u8>, i: int, context: Context)
    requires
        0 <= i <= s.len() < usize::MAX,
    ensures
        forall|k: int|
            0 <= k < lex_from(s, i, context).len() - 1 ==> (#[trigger] lex_from(s, i, context)[
                k]).kind != TokenKind::Eof,
    decreases s.len() - i,
{
    let t = lex_from(s, i, context);
    if i < s.len() && token_at(s, i, context) is Some {
        lemma_lex_unfold(s, i, context);
        let tk = token_at(s, i, context)->0;
        let j = i + tk.len;
        let rest = lex_from(s, j, next_context(context, tk.kind));
        lemma_lex_no_early_eof(s, j, next_context(context, tk.kind));
        assert forall|k: int| 0 <= k < t.len() - 1 implies (#[trigger] t[k]).kind
            != TokenKind::Eof by {
            if k > 0 {
                assert(t[k] == rest[k - 1]);
            }
        }
    }
}

/// Laid end to end, the tokens of a document that lexes to its end cover it
/// exactly: concatenating the bytes of every token gives back the input.
pub proof fn lemma_round_trip(s: Seq<u8>)
    requires
        s.len() < usize::MAX,
        is_complete(tokens_of(s)),
    ensures
        concat_text(s, tokens_of(s)) == s,
{
    lemma_lex_complete(s, 0, Context::Key);
    assert(s.subrange(0, s.len() as int) =~= s);
}

/// Each token starts where the one before it ends, the first at offset 0,
/// each at the line and column of its offset; `Eof` comes only last, at the
/// end of the input.
pub proof fn lemma_positions(s: Seq<u8>)
    requires
        s.len() < usize::MAX,
    ensures
        tokens_of(s).len() > 0 ==> tokens_of(s)[0].start == cursor_at(s, 0),
        forall|k: int|
            0 <= k < tokens_of(s).len() - 1 ==> #[trigger] tokens_of(s)[k + 1].start.byte_offset
                == tokens_of(s)[k].start.byte_offset + tokens_of(s)[k].len,
        forall|k: int|
            0 <= k < tokens_of(s).len() ==> (#[trigger] tokens_of(s)[k]).start == cursor_at(
                s,
                tokens_of(s)[k].start.byte_offset as int,
            ) && tokens_of(s)[k].start.byte_offset + tokens_of(s)[k].len <= s.len(),
        forall|k: int|
            0 <= k < tokens_of(s).len() - 1 ==> (#[trigger] tokens_of(s)[k]).kind != TokenKind::Eof,
        is_complete(tokens_of(s)) ==> tokens_of(s).last().start.byte_offset == s.len(),
{
    lemma_lex_offsets(s, 0, Context::Key);
    if is_complete(tokens_of(s)) {
        lemma_lex_complete(s, 0, Context::Key);
    } else {
        lemma_lex_no_early_eof(s, 0, Context::Key);
    }
}

pub fn next_token(s: &[u8], i: usize, context: Context) -> (r: Option<Token>)
    requires
        i <= s@.len(),
    ensures
        r == token_at(s@, i as int, context),
{
    proof {
        reveal(token_at);
    }
    let c = scan_comment(s, i);
    if c.is_some() {
        return c;
    }
    let c = scan_symbol(s, i);
    if c.is_some() {
        return c;
    }
    let c = scan_whitespace(s, i);
    if c.is_some() {
        return c;
    }
    match context {
        Context::Key => {
            let c = scan_key(s, i);
            if c.is_some() {
                return c;
            }
            let c = scan_boolean(s, i);
            if c.is_some() {
                return c;
            }
            let c = scan_null(s, i);
            if c.is_some() {
                return c;
            }
            scan_number(s, i)
        },
        Context::Value => {
            let c = scan_boolean(s, i);
            if c.is_some() {
                return c;
            }
            let c = scan_null(s, i);
            if c.is_some() {
                return c;
            }
            let c = scan_number(s, i);
            if c.is_some() {
                return c;
            }
            scan_text(s, i)
        },
    }
}

/// The token at the start of `input`, lexed in `context`.
pub fn token(input: &str, context: &Context) -> (r: Option<Token>)
    ensures
        r == token_at(input.spec_bytes(), 0, *context),
{
    next_token(input.as_bytes(), 0, *context)
}

pub fn next_context_exec(context: Context, kind: TokenKind) -> (r: Context)
    ensures
        r == next_context(context, kind),
{
    match kind {
        TokenKind::Colon => Context::Value,
        TokenKind::Whitespace | TokenKind::NewLine | TokenKind::LineComment
        | TokenKind::HashComment | TokenKind::BlockComment => context,
        _ => Context::Key,
    }
}

/// A lexer over one document, handing out one token at a time.
pub struct Tokens<'a> {
    input: &'a [u8],
    pos: usize,
    cursor: Cursor,
    context: Context,
    done: bool,
}

impl<'a> Tokens<'a> {
    /// The bytes of the document.
    pub closed spec fn source(&self) -> Seq<u8> {
        self.input@
    }

    pub closed spec fn wf(&self) -> bool {
        &&& self.pos <= self.input@.len() < usize::MAX
        &&& self.cursor == cursor_at(self.input@, self.pos as int)
        &&& self.done ==> self.pos == self.input@.len()
    }

    /// The tokens still to come.
    pub closed spec fn rest(&self) -> Seq<Span> {
        if self.done {
            seq![]
        } else {
            lex_from(self.input@, self.pos as int, self.context)
        }
    }

    /// A measure that every token handed out decreases.
    pub closed spec fn progress(&self) -> nat {
        ((self.input@.len() - self.pos) + if self.done { 0int } else { 1int }) as nat
    }

    /// A lexer at the start of `input`, in key context.
    pub fn parse(input: &'a str) -> (r: Tokens<'a>)
        requires
            input.spec_bytes().len() < usize::MAX,
        ensures
            r.wf(),
            r.source() == input.spec_bytes(),
            r.rest() == tokens_of(input.spec_bytes()),
    {
        let bytes = input.as_bytes();
        Tokens { input: bytes, pos: 0, cursor: Cursor::start(), context: Context::Key, done: false }
    }

    /// The next token, or `None` once the stream has ended.
    pub fn next(&mut self) -> (r: Option<Span>)
        requires
            old(self).wf(),
        ensures
            final(self).wf(),
            final(self).source() == old(self).source(),
            match r {
                Some(span) => old(self).rest() == seq![span] + final(self).rest()
                    && final(self).progress() < old(self).progress(),
                None => old(self).rest() == Seq::<Span>::empty() && final(self).rest() == Seq::<
                    Span,
                >::empty(),
            },
    {
        let ghost s = self.input@;
        if self.pos >= self.input.len() {
            if self.done {
                return None;
            }
            self.done = true;
            return Some(Span { kind: TokenKind::Eof, start: self.cursor, len: 0 });
        }
        let t = match next_token(self.input, self.pos, self.context) {
            Some(t) => t,
            None => return None,
        };
        proof { lemma_token_bounds(s, self.pos as int, self.context); }
        let start = self.cursor;
        let end = self.pos + t.len;
        self.cursor = advance_cursor(self.input, start, self.pos, end);
        self.pos = end;
        self.context = next_context_exec(self.context, t.kind);
        Some(Span { kind: t.kind, start, len: t.len })
    }

    /// All the tokens still to come, in order.
    pub fn collect(self) -> (r: Vec<Span>)
        requires
            self.wf(),
        ensures
            r@ == self.rest(),
    {
        let ghost all = self.rest();
        let mut lexer = self;
        let mut out: Vec<Span> = Vec::new();
        loop
            invariant
                lexer.wf(),
                all == self.rest(),
                all == out@ + lexer.rest(),
            decreases lexer.progress(),
        {
            match lexer.next() {
                Some(span) => {
                    out.push(span);
                    assert(all =~= out@ + lexer.rest());
                },
                None => {
                    assert(all =~= out@);
                    return out;
                },
            }
        }
    }
}

/// The token stream of `input`.
pub fn tokenize(input: &str) -> (r: Vec<Span>)
    requires
        input.spec_bytes().len() < usize::MAX,
    ensures
        r@ == tokens_of(input.spec_bytes()),
{
    Tokens::parse(input).collect()
}

} // verus!
