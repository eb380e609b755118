//! The tree builder: recursive descent over the token stream.
//!
//! ```text
//! File    := HIDDEN* Object HIDDEN* EOF
//! Object  := '{' HIDDEN_LINE* Member* HIDDEN* '}'  |  Member*     (root only, no braces)
//! Member  := Key HIDDEN* ':' HIDDEN* Value HIDDEN_LINE* ','? HIDDEN_LINE* (NewLine | EOF)? HIDDEN*
//! Array   := '[' HIDDEN_LINE* (HIDDEN* Value HIDDEN_LINE* ','? HIDDEN_LINE* (NewLine | EOF)?)* HIDDEN* ']'
//! Value   := Object | Array | scalar
//! ```
//!
//! HIDDEN is whitespace, newlines and comments; HIDDEN_LINE the same without
//! newlines. The first missing mandatory token ends the parse with an error.
use vstd::prelude::*;
use vstd::string::StringSliceAdditionalSpecFns;
use crate::ast::{
    flat_array, flat_array_member, flat_array_members, flat_object, flat_map_member,
    flat_map_members, flat_one, flat_opt, flat_value, opt_spans, Array, ArrayMember, Object,
    MapMember, Node, Value,
};
use crate::lexer::{
    concat_text, is_complete, is_trivia, lemma_positions, lemma_round_trip, tokenize, tokens_of,
};
use crate::token::{advance_cursor, cursor_at, Cursor, Span, TokenKind};

verus! {

/// Classes of token that the grammar accepts at some point.
#[derive(Clone, Copy, Debug, PartialEq, Eq, Structural)]
pub enum Class {
    /// Whitespace, newlines and comments.
    Hidden,
    /// Whitespace and comments, but not newlines.
    HiddenLine,
    /// Tokens that can be the key of a map member.
    Key,
    /// Tokens that can be a scalar value.
    Scalar,
    /// Tokens that can start a value: a scalar, `{` or `[`.
    ValueStart,
    /// A comma or a newline.
    Separator,
    /// A newline or the end of input.
    LineEnd,
    /// Exactly one kind.
    Is(TokenKind),
}

pub open spec fn in_class(c: Class, k: TokenKind) -> bool {
    match c {
        Class::Hidden => is_trivia(k),
        Class::HiddenLine => is_trivia(k) && k != TokenKind::NewLine,
        Class::Key => k == TokenKind::TextSingle || k == TokenKind::TextDouble || k
            == TokenKind::TextUnquoted,
        Class::Scalar => k == TokenKind::Boolean || k == TokenKind::Integer || k == TokenKind::Float
            || k == TokenKind::TextSingle || k == TokenKind::TextDouble || k == TokenKind::TextMulti
            || k == TokenKind::TextUnquoted || k == TokenKind::Null,
        Class::ValueStart => k == TokenKind::Boolean || k == TokenKind::Integer || k
            == TokenKind::Float || k == TokenKind::TextSingle || k == TokenKind::TextDouble || k
            == TokenKind::TextMulti || k == TokenKind::TextUnquoted || k == TokenKind::Null || k
            == TokenKind::OpenBrace || k == TokenKind::OpenBracket,
        Class::Separator => k == TokenKind::Comma || k == TokenKind::NewLine,
        Class::LineEnd => k == TokenKind::NewLine || k == TokenKind::Eof,
        Class::Is(x) => k == x,
    }
}

pub open spec fn all_in(v: Seq<Span>, c: Class) -> bool {
    forall|i: int| 0 <= i < v.len() ==> in_class(c, #[trigger] v[i].kind)
}

/// Trivia on one line, possibly ended by a newline or the end of input.
pub open spec fn line_trivia(v: Seq<Span>) -> bool {
    forall|i: int|
        0 <= i < v.len() ==> in_class(Class::HiddenLine, #[trigger] v[i].kind) || (i == v.len() - 1
            && in_class(Class::LineEnd, v[i].kind))
}

/// The comma slot after a member: trivia on the member's line, the comma if
/// there is one, and the newline or end of input that ends the line.
pub open spec fn wf_comma(n: Node<Option<Span>>) -> bool {
    &&& all_in(n.before@, Class::HiddenLine)
    &&& (n.inner is None ==> n.before@.len() == 0)
    &&& (n.inner matches Some(c) ==> c.kind == TokenKind::Comma)
    &&& line_trivia(n.after@)
}

pub open spec fn wf_map_member(n: Node<MapMember>) -> bool
    decreases n,
{
    &&& all_in(n.before@, Class::Hidden)
    &&& in_class(Class::Key, n.inner.key.kind)
    &&& all_in(n.inner.colon.before@, Class::Hidden)
    &&& n.inner.colon.inner.kind == TokenKind::Colon
    &&& all_in(n.inner.colon.after@, Class::Hidden)
    &&& wf_value(n.inner.value)
    &&& wf_comma(n.inner.comma)
    &&& all_in(n.after@, Class::Hidden)
}

pub open spec fn wf_map_members(ms: Seq<Node<MapMember>>) -> bool
    decreases ms,
{
    if ms.len() == 0 {
        true
    } else {
        wf_map_members(ms.drop_last()) && wf_map_member(ms.last())
    }
}

/// A map inside a value: both braces present.
pub open spec fn wf_inner_map(m: Object) -> bool
    decreases m,
{
    &&& m.open_brace.before@.len() == 0
    &&& m.open_brace.inner matches Some(b) && b.kind == TokenKind::OpenBrace
    &&& all_in(m.open_brace.after@, Class::HiddenLine)
    &&& wf_map_members(m.members@)
    &&& all_in(m.close_brace.before@, Class::Hidden)
    &&& m.close_brace.inner matches Some(b) && b.kind == TokenKind::CloseBrace
    &&& m.close_brace.after@.len() == 0
}

pub open spec fn wf_array_member(n: Node<ArrayMember>) -> bool
    decreases n,
{
    &&& all_in(n.before@, Class::Hidden)
    &&& wf_value(n.inner.value)
    &&& wf_comma(n.inner.comma)
    &&& n.after@.len() == 0
}

pub open spec fn wf_array_members(ms: Seq<Node<ArrayMember>>) -> bool
    decreases ms,
{
    if ms.len() == 0 {
        true
    } else {
        wf_array_members(ms.drop_last()) && wf_array_member(ms.last())
    }
}

pub open spec fn wf_array(a: Array) -> bool
    decreases a,
{
    &&& a.open_bracket.before@.len() == 0
    &&& a.open_bracket.inner.kind == TokenKind::OpenBracket
    &&& all_in(a.open_bracket.after@, Class::HiddenLine)
    &&& wf_array_members(a.members@)
    &&& all_in(a.close_bracket.before@, Class::Hidden)
    &&& a.close_bracket.inner.kind == TokenKind::CloseBracket
    &&& a.close_bracket.after@.len() == 0
}

pub open spec fn wf_value(v: Value) -> bool
    decreases v,
{
    match v {
        Value::Object(m) => wf_inner_map(m),
        Value::Array(a) => wf_array(a),
        Value::Value(s) => in_class(Class::Scalar, s.kind),
    }
}

/// The root map: braces both present or both absent, trivia before the
/// opening brace, and the end of input last.
pub open spec fn wf_root(m: Object) -> bool {
    &&& all_in(m.open_brace.before@, Class::Hidden)
    &&& (m.open_brace.inner matches Some(b) ==> b.kind == TokenKind::OpenBrace)
    &&& all_in(m.open_brace.after@, Class::HiddenLine)
    &&& wf_map_members(m.members@)
    &&& all_in(m.close_brace.before@, Class::Hidden)
    &&& (m.close_brace.inner is Some <==> m.open_brace.inner is Some)
    &&& (m.close_brace.inner matches Some(b) ==> b.kind == TokenKind::CloseBrace)
    &&& forall|i: int|
        0 <= i < m.close_brace.after@.len() ==> is_trivia(
            #[trigger] m.close_brace.after@[i].kind,
        ) || (i == m.close_brace.after@.len() - 1 && m.close_brace.after@[i].kind
            == TokenKind::Eof)
}

/// What the parser expected where it stopped.
#[derive(Clone, Copy, Debug, PartialEq, Eq, Structural)]
pub enum Expected {
    /// A map, an array or a scalar.
    Value,
    /// A token of this kind.
    Token(TokenKind),
}

/// A structural error: what was expected, the kind of the token found there
/// (`None` where the text there could not be read as a token), and where.
#[derive(Clone, Copy, Debug, PartialEq, Eq, Structural)]
pub struct ParseError {
    pub expected: Expected,
    pub got: Option<TokenKind>,
    pub cursor: Cursor,
}

/// The token at index `p`; past the end, the final `Eof` again if the
/// stream has one.
pub open spec fn peek_at(t: Seq<Span>, p: int) -> Option<Span> {
    if 0 <= p < t.len() {
        Some(t[p])
    } else if is_complete(t) {
        Some(t.last())
    } else {
        None
    }
}

/// The error for expecting `expected` at index `p`; `stop` is where lexing
/// stopped.
pub open spec fn error_at(t: Seq<Span>, stop: Cursor, p: int, expected: Expected) -> ParseError {
    match peek_at(t, p) {
        Some(s) => ParseError { expected, got: Some(s.kind), cursor: s.start },
        None => ParseError { expected, got: None, cursor: stop },
    }
}

/// The error for a failure of the grammar.
pub open spec fn fault(t: Seq<Span>, stop: Cursor, f: (int, Expected)) -> ParseError {
    error_at(t, stop, f.0, f.1)
}

/// Where lexing stopped: the end of the last token.
pub open spec fn stop_offset(t: Seq<Span>) -> int {
    if t.len() == 0 {
        0
    } else {
        t.last().start.byte_offset + t.last().len
    }
}

/// Whether the token at index `p` exists and is of class `c`.
pub open spec fn is_at(t: Seq<Span>, p: int, c: Class) -> bool {
    0 <= p < t.len() && in_class(c, t[p].kind)
}

/// First index at or after `p` whose token is not of class `c`.
pub open spec fn skip_end(t: Seq<Span>, p: int, c: Class) -> int
    decreases t.len() - p,
{
    if is_at(t, p, c) {
        skip_end(t, p + 1, c)
    } else {
        p
    }
}

/// Whether `from < to <= t.len()`: the grammar moved forward.
pub open spec fn forward(t: Seq<Span>, from: int, to: int) -> bool {
    from < to <= t.len()
}

/// End of the comma slot that starts at `p`.
pub open spec fn comma_end(t: Seq<Span>, p: int) -> int {
    let q1 = skip_end(t, p, Class::HiddenLine);
    let q2 = if is_at(t, q1, Class::Is(TokenKind::Comma)) {
        skip_end(t, q1 + 1, Class::HiddenLine)
    } else {
        q1
    };
    if is_at(t, q2, Class::LineEnd) {
        q2 + 1
    } else {
        q2
    }
}

/// The members of an object from `p` on: the index where the first token
/// that is neither trivia nor a key stands, or the first failure as the
/// index of the token and what was expected there.
pub open spec fn members_end(t: Seq<Span>, p: int) -> Result<int, (int, Expected)>
    decreases t.len() - p, 0int,
{
    let q1 = skip_end(t, p, Class::Hidden);
    if !is_at(t, q1, Class::Key) {
        Ok(q1)
    } else {
        let q2 = skip_end(t, q1 + 1, Class::Hidden);
        if !is_at(t, q2, Class::Is(TokenKind::Colon)) {
            Err((q2, Expected::Token(TokenKind::Colon)))
        } else {
            let q3 = skip_end(t, q2 + 1, Class::Hidden);
            if !forward(t, p, q3) {
                Err((q3, Expected::Value))
            } else {
                match value_end(t, q3) {
                    Err(f) => Err(f),
                    Ok(None) => Err((q3, Expected::Value)),
                    Ok(Some(q4)) => {
                        let q6 = skip_end(t, comma_end(t, q4), Class::Hidden);
                        if !forward(t, p, q6) {
                            Err((q6, Expected::Value))
                        } else {
                            members_end(t, q6)
                        }
                    },
                }
            }
        }
    }
}

/// An object with braces that starts at `p`, which holds a `{`.
pub open spec fn object_end(t: Seq<Span>, p: int) -> Result<int, (int, Expected)>
    decreases t.len() - p, 0int,
{
    let q1 = skip_end(t, p + 1, Class::HiddenLine);
    if !forward(t, p, q1) {
        Err((q1, Expected::Value))
    } else {
        match members_end(t, q1) {
            Err(f) => Err(f),
            Ok(q2) => {
                let q3 = skip_end(t, q2, Class::Hidden);
                if is_at(t, q3, Class::Is(TokenKind::CloseBrace)) {
                    Ok(q3 + 1)
                } else {
                    Err((q3, Expected::Token(TokenKind::CloseBrace)))
                }
            },
        }
    }
}

/// The values of an array from `q` on: the index where the first token that
/// is neither trivia nor the start of a value stands, or the first failure.
pub open spec fn elements_end(t: Seq<Span>, q: int) -> Result<int, (int, Expected)>
    decreases t.len() - q, 2int,
{
    let qb = skip_end(t, q, Class::Hidden);
    if !(q <= qb <= t.len()) {
        Err((qb, Expected::Value))
    } else {
        match value_end(t, qb) {
            Err(f) => Err(f),
            Ok(None) => Ok(qb),
            Ok(Some(qv)) => {
                let qc = comma_end(t, qv);
                if !forward(t, q, qc) {
                    Err((qc, Expected::Value))
                } else {
                    elements_end(t, qc)
                }
            },
        }
    }
}

/// An array that starts at `p`, which holds a `[`.
pub open spec fn array_end(t: Seq<Span>, p: int) -> Result<int, (int, Expected)>
    decreases t.len() - p, 0int,
{
    let q1 = skip_end(t, p + 1, Class::HiddenLine);
    if !forward(t, p, q1) {
        Err((q1, Expected::Value))
    } else {
        match elements_end(t, q1) {
            Err(f) => Err(f),
            Ok(q2) => {
                let q3 = skip_end(t, q2, Class::Hidden);
                if is_at(t, q3, Class::Is(TokenKind::CloseBracket)) {
                    Ok(q3 + 1)
                } else {
                    Err((q3, Expected::Token(TokenKind::CloseBracket)))
                }
            },
        }
    }
}

/// A value at `p`: its end, `None` where no value starts there, or the
/// first failure inside it.
pub open spec fn value_end(t: Seq<Span>, p: int) -> Result<Option<int>, (int, Expected)>
    decreases t.len() - p, 1int,
{
    if is_at(t, p, Class::Is(TokenKind::OpenBrace)) {
        match object_end(t, p) {
            Ok(q) => Ok(Some(q)),
            Err(f) => Err(f),
        }
    } else if is_at(t, p, Class::Is(TokenKind::OpenBracket)) {
        match array_end(t, p) {
            Ok(q) => Ok(Some(q)),
            Err(f) => Err(f),
        }
    } else if is_at(t, p, Class::Scalar) {
        Ok(Some(p + 1))
    } else {
        Ok(None)
    }
}

/// What follows the root members, which end at `q4`: the closing brace
/// where `braced`, trivia, and the end of input.
pub open spec fn root_tail(t: Seq<Span>, braced: bool, q4: int) -> Result<(), (int, Expected)> {
    let q5 = skip_end(t, q4, Class::Hidden);
    if braced && !is_at(t, q5, Class::Is(TokenKind::CloseBrace)) {
        Err((q5, Expected::Token(TokenKind::CloseBrace)))
    } else {
        let q6 = if braced { q5 + 1 } else { q5 };
        let q7 = skip_end(t, q6, Class::Hidden);
        if is_at(t, q7, Class::Is(TokenKind::Eof)) || (q7 >= t.len() && is_complete(t)) {
            Ok(())
        } else {
            Err((q7, Expected::Token(TokenKind::Eof)))
        }
    }
}

/// Whether the root has an opening brace.
pub open spec fn root_braced(t: Seq<Span>) -> bool {
    is_at(t, skip_end(t, 0, Class::Hidden), Class::Is(TokenKind::OpenBrace))
}

/// Where the root members start.
pub open spec fn root_members_start(t: Seq<Span>) -> int {
    let q1 = skip_end(t, 0, Class::Hidden);
    skip_end(t, if root_braced(t) { q1 + 1 } else { q1 }, Class::HiddenLine)
}

/// The grammar of a whole document over its tokens: `Ok` where the tokens
/// form a document, else the first failure.
pub open spec fn document(t: Seq<Span>) -> Result<(), (int, Expected)> {
    match members_end(t, root_members_start(t)) {
        Err(f) => Err(f),
        Ok(q4) => root_tail(t, root_braced(t), q4),
    }
}

/// The comma slot `n` sits at index `p`: it covers the tokens up to
/// `comma_end(t, p)` and holds a comma exactly where the grammar finds one.
pub open spec fn comma_fit(t: Seq<Span>, p: int, n: Node<Option<Span>>) -> bool {
    let q1 = skip_end(t, p, Class::HiddenLine);
    &&& flat_opt(n) == t.subrange(p, comma_end(t, p))
    &&& (n.inner is Some <==> is_at(t, q1, Class::Is(TokenKind::Comma)))
    &&& (n.inner is Some ==> n.before@ == t.subrange(p, q1))
    &&& (n.inner is None ==> n.before@.len() == 0)
}

/// Where the tree builder places each token of a member that starts at
/// index `q`: all trivia before the key, the key, the colon with the
/// trivia around it, the value, the comma slot, and all trivia after it.
/// The index after the member, or `None` where `n` is not placed so.
pub open spec fn member_fit(t: Seq<Span>, q: int, n: Node<MapMember>) -> Option<int>
    decreases n,
{
    let q1 = skip_end(t, q, Class::Hidden);
    let q2 = skip_end(t, q1 + 1, Class::Hidden);
    let q3 = skip_end(t, q2 + 1, Class::Hidden);
    if n.before@ == t.subrange(q, q1) && is_at(t, q1, Class::Key) && n.inner.key == t[q1]
        && n.inner.colon.before@ == t.subrange(q1 + 1, q2) && is_at(
        t,
        q2,
        Class::Is(TokenKind::Colon),
    ) && n.inner.colon.inner == t[q2] && n.inner.colon.after@ == t.subrange(q2 + 1, q3) {
        match value_fit(t, q3, n.inner.value) {
            Some(q4) => {
                let q5 = comma_end(t, q4);
                let q6 = skip_end(t, q5, Class::Hidden);
                if comma_fit(t, q4, n.inner.comma) && n.after@ == t.subrange(q5, q6) {
                    Some(q6)
                } else {
                    None
                }
            },
            None => None,
        }
    } else {
        None
    }
}

/// Members placed one after the other from index `p`; the index after the
/// last.
pub open spec fn members_fit(t: Seq<Span>, p: int, ms: Seq<Node<MapMember>>) -> Option<int>
    decreases ms,
{
    if ms.len() == 0 {
        Some(p)
    } else {
        match members_fit(t, p, ms.drop_last()) {
            Some(q) => member_fit(t, q, ms.last()),
            None => None,
        }
    }
}

/// An array element placed at index `q`: all trivia before its value, the
/// value, and the comma slot.
pub open spec fn element_fit(t: Seq<Span>, q: int, n: Node<ArrayMember>) -> Option<int>
    decreases n,
{
    let qb = skip_end(t, q, Class::Hidden);
    if n.before@ == t.subrange(q, qb) && n.after@.len() == 0 {
        match value_fit(t, qb, n.inner.value) {
            Some(qv) => if comma_fit(t, qv, n.inner.comma) {
                Some(comma_end(t, qv))
            } else {
                None
            },
            None => None,
        }
    } else {
        None
    }
}

pub open spec fn elements_fit(t: Seq<Span>, p: int, ms: Seq<Node<ArrayMember>>) -> Option<int>
    decreases ms,
{
    if ms.len() == 0 {
        Some(p)
    } else {
        match elements_fit(t, p, ms.drop_last()) {
            Some(q) => element_fit(t, q, ms.last()),
            None => None,
        }
    }
}

/// An object with braces placed at index `p`: the brace, the trivia on its
/// line, the members, all trivia before the closing brace, and the brace.
pub open spec fn object_fit(t: Seq<Span>, p: int, m: Object) -> Option<int>
    decreases m,
{
    let q1 = skip_end(t, p + 1, Class::HiddenLine);
    if is_at(t, p, Class::Is(TokenKind::OpenBrace)) && m.open_brace.before@.len() == 0
        && m.open_brace.inner == Some(t[p]) && m.open_brace.after@ == t.subrange(p + 1, q1) {
        match members_fit(t, q1, m.members@) {
            Some(q2) => {
                let q3 = skip_end(t, q2, Class::Hidden);
                if m.close_brace.before@ == t.subrange(q2, q3) && is_at(
                    t,
                    q3,
                    Class::Is(TokenKind::CloseBrace),
                ) && m.close_brace.inner == Some(t[q3]) && m.close_brace.after@.len() == 0 {
                    Some(q3 + 1)
                } else {
                    None
                }
            },
            None => None,
        }
    } else {
        None
    }
}

/// An array placed at index `p`, laid out as an object is.
pub open spec fn array_fit(t: Seq<Span>, p: int, a: Array) -> Option<int>
    decreases a,
{
    let q1 = skip_end(t, p + 1, Class::HiddenLine);
    if is_at(t, p, Class::Is(TokenKind::OpenBracket)) && a.open_bracket.before@.len() == 0
        && a.open_bracket.inner == t[p] && a.open_bracket.after@ == t.subrange(p + 1, q1) {
        match elements_fit(t, q1, a.members@) {
            Some(q2) => {
                let q3 = skip_end(t, q2, Class::Hidden);
                if a.close_bracket.before@ == t.subrange(q2, q3) && is_at(
                    t,
                    q3,
                    Class::Is(TokenKind::CloseBracket),
                ) && a.close_bracket.inner == t[q3] && a.close_bracket.after@.len() == 0 {
                    Some(q3 + 1)
                } else {
                    None
                }
            },
            None => None,
        }
    } else {
        None
    }
}

pub open spec fn value_fit(t: Seq<Span>, p: int, v: Value) -> Option<int>
    decreases v,
{
    match v {
        Value::Object(m) => object_fit(t, p, m),
        Value::Array(a) => array_fit(t, p, a),
        Value::Value(s) => if is_at(t, p, Class::Scalar) && s == t[p] {
            Some(p + 1)
        } else {
            None
        },
    }
}

/// The opening node of the root placed at the start of `t`: every trivia
/// token before the root, the brace where there is one, and the trivia on
/// its line.
pub open spec fn root_open_fit(t: Seq<Span>, n: Node<Option<Span>>) -> bool {
    let q1 = skip_end(t, 0, Class::Hidden);
    let q2 = if root_braced(t) { q1 + 1 } else { q1 };
    &&& n.before@ == t.subrange(0, q1)
    &&& n.inner == (if root_braced(t) { Some(t[q1]) } else { None })
    &&& n.after@ == t.subrange(q2, root_members_start(t))
}

/// The closing node of the root placed after the members, which end at
/// `q4`: all trivia up to the brace where there is one, and the rest of `t`,
/// the end of input included, after it.
pub open spec fn root_close_fit(t: Seq<Span>, braced: bool, q4: int, n: Node<Option<Span>>) -> bool {
    let q5 = skip_end(t, q4, Class::Hidden);
    let q6 = if braced { q5 + 1 } else { q5 };
    &&& n.before@ == t.subrange(q4, q5)
    &&& n.inner == (if braced { Some(t[q5]) } else { None })
    &&& n.after@ == t.subrange(q6, t.len() as int)
}

/// The root placed over all of `t`.
pub open spec fn root_fit(t: Seq<Span>, m: Object) -> bool {
    &&& root_open_fit(t, m.open_brace)
    &&& match members_fit(t, root_members_start(t), m.members@) {
        Some(q4) => root_close_fit(t, root_braced(t), q4, m.close_brace),
        None => false,
    }
}

/// The first member placed in a list sits where the list starts.
pub proof fn lemma_members_fit_first(t: Seq<Span>, p: int, ms: Seq<Node<MapMember>>)
    requires
        ms.len() > 0,
        members_fit(t, p, ms) is Some,
    ensures
        member_fit(t, p, ms[0]) is Some,
    decreases ms.len(),
{
    assert(members_fit(t, p, ms.drop_last()) is Some);
    if ms.len() > 1 {
        lemma_members_fit_first(t, p, ms.drop_last());
        assert(ms.drop_last()[0] == ms[0]);
    } else {
        assert(ms.drop_last() =~= Seq::<Node<MapMember>>::empty());
        assert(members_fit(t, p, ms.drop_last()) == Some(p));
        assert(ms.last() == ms[0]);
    }
}

pub proof fn lemma_skip_end(t: Seq<Span>, p: int, c: Class)
    requires
        0 <= p <= t.len(),
    ensures
        p <= skip_end(t, p, c) <= t.len(),
        !is_at(t, skip_end(t, p, c), c),
        forall|k: int| p <= k < skip_end(t, p, c) ==> #[trigger] is_at(t, k, c),
    decreases t.len() - p,
{
    if is_at(t, p, c) {
        lemma_skip_end(t, p + 1, c);
    }
}

pub proof fn lemma_join(t: Seq<Span>, a: int, b: int, c: int)
    requires
        0 <= a <= b <= c <= t.len(),
    ensures
        t.subrange(a, b) + t.subrange(b, c) == t.subrange(a, c),
{
    assert(t.subrange(a, b) + t.subrange(b, c) =~= t.subrange(a, c));
}

pub fn in_class_exec(c: Class, k: TokenKind) -> (r: bool)
    ensures
        r == in_class(c, k),
{
    match c {
        Class::Hidden => match k {
            TokenKind::Whitespace | TokenKind::NewLine | TokenKind::LineComment
            | TokenKind::HashComment | TokenKind::BlockComment => true,
            _ => false,
        },
        Class::HiddenLine => match k {
            TokenKind::Whitespace | TokenKind::LineComment | TokenKind::HashComment
            | TokenKind::BlockComment => true,
            _ => false,
        },
        Class::Key => match k {
            TokenKind::TextSingle | TokenKind::TextDouble | TokenKind::TextUnquoted => true,
            _ => false,
        },
        Class::Scalar => match k {
            TokenKind::Boolean | TokenKind::Integer | TokenKind::Float | TokenKind::TextSingle
            | TokenKind::TextDouble | TokenKind::TextMulti | TokenKind::TextUnquoted
            | TokenKind::Null => true,
            _ => false,
        },
        Class::ValueStart => match k {
            TokenKind::Boolean | TokenKind::Integer | TokenKind::Float | TokenKind::TextSingle
            | TokenKind::TextDouble | TokenKind::TextMulti | TokenKind::TextUnquoted
            | TokenKind::Null | TokenKind::OpenBrace | TokenKind::OpenBracket => true,
            _ => false,
        },
        Class::Separator => match k {
            TokenKind::Comma | TokenKind::NewLine => true,
            _ => false,
        },
        Class::LineEnd => match k {
            TokenKind::NewLine | TokenKind::Eof => true,
            _ => false,
        },
        Class::Is(x) => k == x,
    }
}

/// The token at `p`, if it is of class `c`.
fn eat(t: &Vec<Span>, p: usize, c: Class) -> (r: Option<Span>)
    ensures
        r matches Some(s) ==> p < t@.len() && s == t@[p as int] && in_class(c, s.kind),
        r is Some <==> is_at(t@, p as int, c),
        t@.len() <= usize::MAX,
{
    if p < t.len() && in_class_exec(c, t[p].kind) {
        Some(t[p])
    } else {
        None
    }
}

/// The tokens of class `c` from `p` on, up to the first that is not.
fn skip(t: &Vec<Span>, p: usize, c: Class) -> (r: (Vec<Span>, usize))
    requires
        p <= t@.len(),
    ensures
        r.1 == skip_end(t@, p as int, c),
        p <= r.1 <= t@.len(),
        r.0@ == t@.subrange(p as int, r.1 as int),
        all_in(r.0@, c),
        t@.len() <= usize::MAX,
{
    let mut out: Vec<Span> = Vec::new();
    let mut q = p;
    while q < t.len() && in_class_exec(c, t[q].kind)
        invariant
            p <= q <= t@.len(),
            skip_end(t@, q as int, c) == skip_end(t@, p as int, c),
            out@ == t@.subrange(p as int, q as int),
            all_in(out@, c),
        decreases t@.len() - q,
    {
        out.push(t[q]);
        q = q + 1;
        assert(out@ =~= t@.subrange(p as int, q as int));
    }
    (out, q)
}

fn fail(t: &Vec<Span>, stop: Cursor, p: usize, expected: Expected) -> (e: ParseError)
    ensures
        e == error_at(t@, stop, p as int, expected),
{
    if p < t.len() {
        ParseError { expected, got: Some(t[p].kind), cursor: t[p].start }
    } else if t.len() > 0 && t[t.len() - 1].kind == TokenKind::Eof {
        let last = t[t.len() - 1];
        ParseError { expected, got: Some(last.kind), cursor: last.start }
    } else {
        ParseError { expected, got: None, cursor: stop }
    }
}

fn expect(t: &Vec<Span>, stop: Cursor, p: usize, kind: TokenKind) -> (r: Result<Span, ParseError>)
    requires
        p <= t@.len(),
    ensures
        r matches Ok(s) ==> p < t@.len() && s == t@[p as int] && s.kind == kind,
        r is Ok <==> is_at(t@, p as int, Class::Is(kind)),
        r matches Err(e) ==> e == error_at(t@, stop, p as int, Expected::Token(kind)),
{
    match eat(t, p, Class::Is(kind)) {
        Some(s) => Ok(s),
        None => Err(fail(t, stop, p, Expected::Token(kind))),
    }
}

/// The comma slot after a value at `p`: its trivia, the comma if any, and
/// the newline or end of input that ends the line.
fn parse_comma(t: &Vec<Span>, p: usize) -> (r: (Node<Option<Span>>, usize))
    requires
        p <= t@.len(),
    ensures
        r.1 == comma_end(t@, p as int),
        p <= r.1 <= t@.len(),
        flat_opt(r.0) == t@.subrange(p as int, r.1 as int),
        wf_comma(r.0),
        comma_fit(t@, p as int, r.0),
{
    let (line, q1) = skip(t, p, Class::HiddenLine);
    let comma = eat(t, q1, Class::Is(TokenKind::Comma));
    let (before, mut after, q2) = match comma {
        Some(_) => {
            let (after, q2) = skip(t, q1 + 1, Class::HiddenLine);
            (line, after, q2)
        },
        None => (Vec::new(), line, q1),
    };
    let mut q = q2;
    if let Some(end) = eat(t, q2, Class::LineEnd) {
        after.push(end);
        q = q2 + 1;
        assert(after@ =~= t@.subrange(if comma is Some { q1 + 1 } else { p as int }, q as int));
    }
    let node = Node { before, inner: comma, after };
    proof {
        if comma is Some {
            lemma_join(t@, p as int, q1 as int, q1 + 1);
            assert(opt_spans(comma) =~= t@.subrange(q1 as int, q1 + 1));
            lemma_join(t@, p as int, q1 + 1, q as int);
            assert(flat_opt(node) =~= t@.subrange(p as int, q as int));
        } else {
            assert(flat_opt(node) =~= t@.subrange(p as int, q as int));
        }
        assert(line_trivia(node.after@));
    }
    (node, q)
}

/// The members of an object from `p` on, and the trivia after the last one.
fn parse_members(t: &Vec<Span>, stop: Cursor, p: usize) -> (r: Result<
    (Vec<Node<MapMember>>, Vec<Span>, usize),
    ParseError,
>)
    requires
        p <= t@.len(),
    ensures
        r matches Ok((ms, left, q)) ==> {
            &&& members_end(t@, p as int) == Ok::<int, (int, Expected)>(q as int)
            &&& p <= q <= t@.len()
            &&& p + left@.len() <= q
            &&& members_fit(t@, p as int, ms@) == Some((q - left@.len()) as int)
            &&& left@ == t@.subrange(q - left@.len(), q as int)
            &&& q == skip_end(t@, q - left@.len(), Class::Hidden)
            &&& flat_map_members(ms@) + left@ == t@.subrange(p as int, q as int)
            &&& wf_map_members(ms@)
            &&& all_in(left@, Class::Hidden)
        },
        r matches Err(e) ==> members_end(t@, p as int) matches Err(f) && e == fault(t@, stop, f),
    decreases t@.len() - p, 0int,
{
    let mut members: Vec<Node<MapMember>> = Vec::new();
    let mut q = p;
    assert(flat_map_members(members@) =~= t@.subrange(p as int, q as int));
    loop
        invariant
            p <= q <= t@.len(),
            members_fit(t@, p as int, members@) == Some(q as int),
            members_end(t@, q as int) == members_end(t@, p as int),
            flat_map_members(members@) == t@.subrange(p as int, q as int),
            wf_map_members(members@),
        decreases t@.len() - q,
    {
        let (before, q1) = skip(t, q, Class::Hidden);
        let key = match eat(t, q1, Class::Key) {
            Some(k) => k,
            None => {
                proof {
                    lemma_join(t@, p as int, q as int, q1 as int);
                }
                return Ok((members, before, q1));
            },
        };
        let (colon_before, q2) = skip(t, q1 + 1, Class::Hidden);
        let colon = match expect(t, stop, q2, TokenKind::Colon) {
            Ok(c) => c,
            Err(e) => return Err(e),
        };
        let (colon_after, q3) = skip(t, q2 + 1, Class::Hidden);
        assert(forward(t@, q as int, q3 as int));
        let (value, q4) = match expect_value(t, stop, q3) {
            Ok(v) => v,
            Err(e) => return Err(e),
        };
        let (comma, q5) = parse_comma(t, q4);
        let (after, q6) = skip(t, q5, Class::Hidden);
        assert(forward(t@, q as int, q6 as int));
        assert(members_end(t@, q as int) == members_end(t@, q6 as int));
        let colon = Node { before: colon_before, inner: colon, after: colon_after };
        let node = Node { before, inner: MapMember { key, colon, value, comma }, after };
        proof {
            let s = t@;
            assert(seq![key] =~= s.subrange(q1 as int, q1 + 1));
            assert(seq![colon.inner] =~= s.subrange(q2 as int, q2 + 1));
            lemma_join(s, q1 + 1, q2 as int, q2 + 1);
            lemma_join(s, q1 + 1, q2 + 1, q3 as int);
            lemma_join(s, q as int, q1 as int, q1 + 1);
            lemma_join(s, q as int, q1 + 1, q3 as int);
            lemma_join(s, q as int, q3 as int, q4 as int);
            lemma_join(s, q as int, q4 as int, q5 as int);
            lemma_join(s, q as int, q5 as int, q6 as int);
            assert(flat_map_member(node) == s.subrange(q as int, q6 as int));
            assert(wf_map_member(node));
            assert(member_fit(s, q as int, node) == Some(q6 as int));
        }
        let ghost old_members = members@;
        members.push(node);
        proof {
            assert(members@.drop_last() =~= old_members);
            assert(members@.last() == node);
            assert(members_fit(t@, p as int, members@) == Some(q6 as int));
            lemma_join(t@, p as int, q as int, q6 as int);
        }
        q = q6;
    }
}

/// Concatenation of two lists of trivia.
fn join_trivia(a: Vec<Span>, b: Vec<Span>) -> (r: Vec<Span>)
    ensures
        r@ == a@ + b@,
{
    let mut a = a;
    let mut b = b;
    a.append(&mut b);
    a
}

/// An object with braces, if one starts at `p`.
#[verifier::rlimit(30)]
fn parse_inner_object(t: &Vec<Span>, stop: Cursor, p: usize) -> (r: Result<
    Option<(Object, usize)>,
    ParseError,
>)
    requires
        p <= t@.len(),
    ensures
        r matches Ok(None) ==> !is_at(t@, p as int, Class::Is(TokenKind::OpenBrace)),
        r matches Ok(Some((m, q))) ==> {
            &&& is_at(t@, p as int, Class::Is(TokenKind::OpenBrace))
            &&& object_end(t@, p as int) == Ok::<int, (int, Expected)>(q as int)
            &&& object_fit(t@, p as int, m) == Some(q as int)
            &&& p < q <= t@.len()
            &&& flat_object(m) == t@.subrange(p as int, q as int)
            &&& wf_inner_map(m)
        },
        r matches Err(e) ==> is_at(t@, p as int, Class::Is(TokenKind::OpenBrace)) && (object_end(
            t@,
            p as int,
        ) matches Err(f) && e == fault(t@, stop, f)),
    decreases t@.len() - p, 0int,
{
    let open = match eat(t, p, Class::Is(TokenKind::OpenBrace)) {
        Some(b) => b,
        None => return Ok(None),
    };
    let (open_after, q1) = skip(t, p + 1, Class::HiddenLine);
    assert(forward(t@, p as int, q1 as int));
    let (members, left, q2) = match parse_members(t, stop, q1) {
        Ok(x) => x,
        Err(e) => return Err(e),
    };
    let (more, q3) = skip(t, q2, Class::Hidden);
    let close = match expect(t, stop, q3, TokenKind::CloseBrace) {
        Ok(c) => c,
        Err(e) => return Err(e),
    };
    assert(object_end(t@, p as int) == Ok::<int, (int, Expected)>(q3 + 1));
    proof {
        lemma_skip_end(t@, q2 - left@.len(), Class::Hidden);
        assert(q3 == q2);
        assert(more@ =~= Seq::<Span>::empty());
    }
    let ghost left_v = left@;
    let close_before = join_trivia(left, more);
    let m = Object {
        open_brace: Node { before: Vec::new(), inner: Some(open), after: open_after },
        members,
        close_brace: Node { before: close_before, inner: Some(close), after: Vec::new() },
    };
    proof {
        let s = t@;
        let q4 = q3 + 1;
        assert(flat_opt(m.open_brace) =~= s.subrange(p as int, q1 as int));
        assert(flat_opt(m.close_brace) =~= left_v + s.subrange(q2 as int, q4));
        assert(all_in(m.close_brace.before@, Class::Hidden));
        lemma_join(s, q1 as int, q2 as int, q3 as int);
        lemma_join(s, q1 as int, q3 as int, q4);
        lemma_join(s, p as int, q1 as int, q4);
        assert(flat_object(m) =~= s.subrange(p as int, q4));
        assert(m.close_brace.before@ =~= left_v);
        assert(object_fit(s, p as int, m) == Some(q4));
    }
    Ok(Some((m, q3 + 1)))
}

/// An array, if one starts at `p`.
fn parse_array(t: &Vec<Span>, stop: Cursor, p: usize) -> (r: Result<
    Option<(Array, usize)>,
    ParseError,
>)
    requires
        p <= t@.len(),
    ensures
        r matches Ok(None) ==> !is_at(t@, p as int, Class::Is(TokenKind::OpenBracket)),
        r matches Ok(Some((a, q))) ==> {
            &&& is_at(t@, p as int, Class::Is(TokenKind::OpenBracket))
            &&& array_end(t@, p as int) == Ok::<int, (int, Expected)>(q as int)
            &&& array_fit(t@, p as int, a) == Some(q as int)
            &&& p < q <= t@.len()
            &&& flat_array(a) == t@.subrange(p as int, q as int)
            &&& wf_array(a)
        },
        r matches Err(e) ==> is_at(t@, p as int, Class::Is(TokenKind::OpenBracket)) && (array_end(
            t@,
            p as int,
        ) matches Err(f) && e == fault(t@, stop, f)),
    decreases t@.len() - p, 0int,
{
    let open = match eat(t, p, Class::Is(TokenKind::OpenBracket)) {
        Some(b) => b,
        None => return Ok(None),
    };
    let (open_after, q1) = skip(t, p + 1, Class::HiddenLine);
    let mut members: Vec<Node<ArrayMember>> = Vec::new();
    let mut q = q1;
    assert(flat_array_members(members@) =~= t@.subrange(q1 as int, q as int));
    let mut left: Vec<Span> = Vec::new();
    let mut q2: usize = q1;
    loop
        invariant
            p < q1 <= q <= t@.len(),
            q1 == skip_end(t@, p + 1, Class::HiddenLine),
            is_at(t@, p as int, Class::Is(TokenKind::OpenBracket)),
            elements_fit(t@, q1 as int, members@) == Some(q as int),
            elements_end(t@, q as int) == elements_end(t@, q1 as int),
            flat_array_members(members@) == t@.subrange(q1 as int, q as int),
            wf_array_members(members@),
        ensures
            p < q1 <= q <= q2 <= t@.len(),
            elements_end(t@, q1 as int) == Ok::<int, (int, Expected)>(q2 as int),
            flat_array_members(members@) == t@.subrange(q1 as int, q as int),
            wf_array_members(members@),
            left@ == t@.subrange(q as int, q2 as int),
            q2 == skip_end(t@, q as int, Class::Hidden),
            elements_fit(t@, q1 as int, members@) == Some(q as int),
            all_in(left@, Class::Hidden),
        decreases t@.len() - q,
    {
        let (before, qb) = skip(t, q, Class::Hidden);
        let (value, qv) = match parse_value(t, stop, qb) {
            Ok(Some(v)) => v,
            Ok(None) => {
                left = before;
                q2 = qb;
                break ;
            },
            Err(e) => {
                assert(elements_end(t@, q as int) == Err::<int, (int, Expected)>(
                    value_end(t@, qb as int)->Err_0,
                ));
                assert(forward(t@, p as int, q1 as int));
                assert(elements_end(t@, q1 as int) == elements_end(t@, q as int));
                assert(array_end(t@, p as int) == Err::<int, (int, Expected)>(
                    value_end(t@, qb as int)->Err_0,
                ));
                return Err(e);
            },
        };
        let (comma, qc) = parse_comma(t, qv);
        assert(forward(t@, q as int, qc as int));
        assert(elements_end(t@, q as int) == elements_end(t@, qc as int));
        let node = Node { before, inner: ArrayMember { value, comma }, after: Vec::new() };
        proof {
            let s = t@;
            lemma_join(s, q as int, qb as int, qv as int);
            lemma_join(s, q as int, qv as int, qc as int);
            assert(flat_array_member(node) =~= s.subrange(q as int, qc as int));
            assert(wf_array_member(node));
            assert(element_fit(s, q as int, node) == Some(qc as int));
        }
        let ghost old_members = members@;
        members.push(node);
        proof {
            assert(members@.drop_last() =~= old_members);
            assert(members@.last() == node);
            assert(elements_fit(t@, q1 as int, members@) == Some(qc as int));
            lemma_join(t@, q1 as int, q as int, qc as int);
        }
        q = qc;
    }
    let (more, q3) = skip(t, q2, Class::Hidden);
    let close = match expect(t, stop, q3, TokenKind::CloseBracket) {
        Ok(c) => c,
        Err(e) => return Err(e),
    };
    let ghost left_v = left@;
    let close_before = join_trivia(left, more);
    let a = Array {
        open_bracket: Node { before: Vec::new(), inner: open, after: open_after },
        members,
        close_bracket: Node { before: close_before, inner: close, after: Vec::new() },
    };
    proof {
        let s = t@;
        let q4 = q3 + 1;
        assert(flat_one(a.open_bracket) =~= s.subrange(p as int, q1 as int));
        assert(flat_one(a.close_bracket) =~= left_v + s.subrange(q2 as int, q4));
        assert(all_in(a.close_bracket.before@, Class::Hidden));
        lemma_join(s, q1 as int, q as int, q2 as int);
        lemma_join(s, q1 as int, q2 as int, q4);
        lemma_join(s, p as int, q1 as int, q4);
        assert(flat_array(a) =~= s.subrange(p as int, q4));
        lemma_skip_end(s, q as int, Class::Hidden);
        assert(q3 == q2);
        assert(more@ =~= Seq::<Span>::empty());
        assert(a.close_bracket.before@ =~= left_v);
        assert(array_fit(s, p as int, a) == Some(q4));
    }
    Ok(Some((a, q3 + 1)))
}

/// A value, if one starts at `p`.
fn parse_value(t: &Vec<Span>, stop: Cursor, p: usize) -> (r: Result<
    Option<(Value, usize)>,
    ParseError,
>)
    requires
        p <= t@.len(),
    ensures
        r matches Ok(None) ==> value_end(t@, p as int) == Ok::<Option<int>, (int, Expected)>(
            None,
        ),
        r matches Ok(Some((v, q))) ==> {
            &&& value_end(t@, p as int) == Ok::<Option<int>, (int, Expected)>(Some(q as int))
            &&& value_fit(t@, p as int, v) == Some(q as int)
            &&& p < q <= t@.len()
            &&& flat_value(v) == t@.subrange(p as int, q as int)
            &&& wf_value(v)
        },
        r matches Err(e) ==> value_end(t@, p as int) matches Err(f) && e == fault(t@, stop, f),
    decreases t@.len() - p, 1int,
{
    match parse_inner_object(t, stop, p) {
        Ok(Some((m, q))) => return Ok(Some((Value::Object(m), q))),
        Ok(None) => {},
        Err(e) => return Err(e),
    }
    match parse_array(t, stop, p) {
        Ok(Some((a, q))) => return Ok(Some((Value::Array(a), q))),
        Ok(None) => {},
        Err(e) => return Err(e),
    }
    match eat(t, p, Class::Scalar) {
        Some(s) => {
            assert(seq![s] =~= t@.subrange(p as int, p + 1));
            Ok(Some((Value::Value(s), p + 1)))
        },
        None => Ok(None),
    }
}

/// The value that must start at `p`.
fn expect_value(t: &Vec<Span>, stop: Cursor, p: usize) -> (r: Result<(Value, usize), ParseError>)
    requires
        p <= t@.len(),
    ensures
        r matches Ok((v, q)) ==> {
            &&& value_end(t@, p as int) == Ok::<Option<int>, (int, Expected)>(Some(q as int))
            &&& value_fit(t@, p as int, v) == Some(q as int)
            &&& p < q <= t@.len()
            &&& flat_value(v) == t@.subrange(p as int, q as int)
            &&& wf_value(v)
        },
        r matches Err(e) ==> match value_end(t@, p as int) {
            Err(f) => e == fault(t@, stop, f),
            Ok(None) => e == error_at(t@, stop, p as int, Expected::Value),
            Ok(Some(_)) => false,
        },
    decreases t@.len() - p, 2int,
{
    match parse_value(t, stop, p) {
        Ok(Some(x)) => Ok(x),
        Ok(None) => Err(fail(t, stop, p, Expected::Value)),
        Err(e) => Err(e),
    }
}

/// The trivia before the root and its opening brace, if any.
fn parse_root_open(t: &Vec<Span>) -> (r: (Node<Option<Span>>, usize))
    ensures
        r.1 == root_members_start(t@),
        r.0.inner is Some <==> root_braced(t@),
        root_open_fit(t@, r.0),
        r.1 <= t@.len(),
        flat_opt(r.0) == t@.subrange(0, r.1 as int),
        all_in(r.0.before@, Class::Hidden),
        r.0.inner matches Some(b) ==> b.kind == TokenKind::OpenBrace,
        all_in(r.0.after@, Class::HiddenLine),
{
    let (before, q1) = skip(t, 0, Class::Hidden);
    let open = eat(t, q1, Class::Is(TokenKind::OpenBrace));
    let q2: usize = if open.is_some() { q1 + 1 } else { q1 };
    let (after, q3) = skip(t, q2, Class::HiddenLine);
    let node = Node { before, inner: open, after };
    proof {
        let s = t@;
        assert(opt_spans(open) =~= s.subrange(q1 as int, q2 as int));
        lemma_join(s, 0, q1 as int, q2 as int);
        lemma_join(s, 0, q2 as int, q3 as int);
        assert(flat_opt(node) =~= s.subrange(0, q3 as int));
    }
    (node, q3)
}

/// The closing brace of the root (present exactly when `braced`), the
/// trivia around it, and the end of input.
fn parse_root_close(t: &Vec<Span>, stop: Cursor, braced: bool, left: Vec<Span>, p: usize) -> (r:
    Result<Node<Option<Span>>, ParseError>)
    requires
        p <= t@.len(),
        all_in(left@, Class::Hidden),
        left@.len() <= p,
        left@ == t@.subrange(p - left@.len(), p as int),
        p == skip_end(t@, p - left@.len(), Class::Hidden),
        forall|k: int| 0 <= k < t@.len() - 1 ==> (#[trigger] t@[k]).kind != TokenKind::Eof,
    ensures
        r is Ok <==> root_tail(t@, braced, p as int) is Ok,
        r matches Ok(n) ==> root_close_fit(t@, braced, p - left@.len(), n),
        r matches Err(e) ==> root_tail(t@, braced, p as int) matches Err(f) && e == fault(
            t@,
            stop,
            f,
        ),
        r matches Ok(n) ==> {
            &&& flat_opt(n) == left@ + t@.subrange(p as int, t@.len() as int)
            &&& is_complete(t@)
            &&& all_in(n.before@, Class::Hidden)
            &&& (n.inner is Some <==> braced)
            &&& (n.inner matches Some(b) ==> b.kind == TokenKind::CloseBrace)
            &&& forall|i: int|
                0 <= i < n.after@.len() ==> is_trivia(#[trigger] n.after@[i].kind) || (i
                    == n.after@.len() - 1 && n.after@[i].kind == TokenKind::Eof)
        },
{
    let (more, q1) = skip(t, p, Class::Hidden);
    let mut close: Option<Span> = None;
    let mut q2: usize = q1;
    if braced {
        match expect(t, stop, q1, TokenKind::CloseBrace) {
            Ok(c) => {
                close = Some(c);
                q2 = q1 + 1;
            },
            Err(e) => return Err(e),
        }
    }
    let (mut after, q3) = skip(t, q2, Class::Hidden);
    let ghost trivia = after@;
    let mut q4: usize = q3;
    if q3 < t.len() && t[q3].kind == TokenKind::Eof {
        after.push(t[q3]);
        q4 = q3 + 1;
    } else if q3 < t.len() || !(t.len() > 0 && t[t.len() - 1].kind == TokenKind::Eof) {
        return Err(fail(t, stop, q3, Expected::Token(TokenKind::Eof)));
    }
    let ghost left_v = left@;
    let before = join_trivia(left, more);
    let node = Node { before, inner: close, after };
    proof {
        let s = t@;
        assert(q4 == s.len());
        assert(opt_spans(close) =~= s.subrange(q1 as int, q2 as int));
        assert(after@ =~= s.subrange(q2 as int, q4 as int));
        lemma_join(s, p as int, q1 as int, q2 as int);
        lemma_join(s, p as int, q2 as int, q4 as int);
        assert(flat_opt(node) =~= left_v + s.subrange(p as int, q4 as int));
        assert(all_in(node.before@, Class::Hidden));
        lemma_skip_end(s, p - left_v.len(), Class::Hidden);
        assert(q1 == p);
        assert(node.before@ =~= s.subrange(p - left_v.len(), q1 as int));
        assert(root_close_fit(s, braced, p - left_v.len(), node));
        assert forall|i: int| 0 <= i < node.after@.len() implies is_trivia(
            #[trigger] node.after@[i].kind,
        ) || (i == node.after@.len() - 1 && node.after@[i].kind == TokenKind::Eof) by {
            if i < trivia.len() {
                assert(node.after@[i] == trivia[i]);
            }
        }
    }
    Ok(node)
}

/// The whole document: optional braces around the root members, then the
/// end of input.
fn parse_root(t: &Vec<Span>, stop: Cursor) -> (r: Result<Object, ParseError>)
    requires
        forall|k: int| 0 <= k < t@.len() - 1 ==> (#[trigger] t@[k]).kind != TokenKind::Eof,
    ensures
        r is Ok <==> document(t@) is Ok,
        r matches Ok(m) ==> flat_object(m) == t@ && wf_root(m) && is_complete(t@) && root_fit(
            t@,
            m,
        ),
        r matches Err(e) ==> document(t@) matches Err(f) && e == fault(t@, stop, f),
{
    let (open, q1) = parse_root_open(t);
    let braced = open.inner.is_some();
    let (members, left, q2) = match parse_members(t, stop, q1) {
        Ok(x) => x,
        Err(e) => return Err(e),
    };
    let close = match parse_root_close(t, stop, braced, left, q2) {
        Ok(n) => n,
        Err(e) => return Err(e),
    };
    let m = Object { open_brace: open, members, close_brace: close };
    proof {
        let s = t@;
        lemma_join(s, q1 as int, q2 as int, s.len() as int);
        lemma_join(s, 0, q1 as int, s.len() as int);
        assert(flat_object(m) =~= s.subrange(0, s.len() as int));
        assert(s.subrange(0, s.len() as int) =~= s);
    }
    Ok(m)
}

/// Where lexing stopped in `s`, given its tokens `t`.
fn stop_cursor(s: &[u8], t: &Vec<Span>) -> (r: Cursor)
    requires
        s@.len() < usize::MAX,
        t@ == tokens_of(s@),
    ensures
        r == cursor_at(s@, stop_offset(t@)),
{
    proof {
        lemma_positions(s@);
    }
    if t.len() == 0 {
        return Cursor::start();
    }
    let last = t[t.len() - 1];
    proof {
        assert(t@[t@.len() - 1] == t@.last());
    }
    let from = last.start.byte_offset;
    advance_cursor(s, last.start, from, from + last.len)
}

/// The tree of a document holds its bytes exactly: concatenating the bytes
/// of every token of the tree, trivia included, in document order, gives
/// back the input.
pub proof fn lemma_tree_round_trip(s: Seq<u8>, m: Object)
    requires
        s.len() < usize::MAX,
        is_complete(tokens_of(s)),
        flat_object(m) == tokens_of(s),
    ensures
        concat_text(s, flat_object(m)) == s,
{
    lemma_round_trip(s);
}

/// The tree builder.
pub struct Parser;

impl Parser {
    /// `m` is the tree of the document `s`.
    pub open spec fn parse_spec(s: Seq<u8>, m: Object) -> bool {
        &&& is_complete(tokens_of(s))
        &&& flat_object(m) == tokens_of(s)
        &&& wf_root(m)
        &&& root_fit(tokens_of(s), m)
    }

    /// `e` is the error that the tree builder reports on the document `s`.
    pub open spec fn error_spec(s: Seq<u8>, e: ParseError) -> bool {
        document(tokens_of(s)) matches Err(f) && e == fault(
            tokens_of(s),
            cursor_at(s, stop_offset(tokens_of(s))),
            f,
        )
    }

    /// The tree of `input`, or the first structural error in it.
    ///
    /// The tree holds every token of the input, the final `Eof` included,
    /// each once and in document order.
    pub fn parse(input: &str) -> (r: Result<Object, ParseError>)
        requires
            input.spec_bytes().len() < usize::MAX,
        ensures
            r is Ok <==> document(tokens_of(input.spec_bytes())) is Ok,
            r matches Ok(m) ==> Parser::parse_spec(input.spec_bytes(), m),
            r matches Err(e) ==> Parser::error_spec(input.spec_bytes(), e),
    {
        let tokens = tokenize(input);
        let bytes = input.as_bytes();
        proof {
            lemma_positions(input.spec_bytes());
        }
        let stop = stop_cursor(bytes, &tokens);
        parse_root(&tokens, stop)
    }
}

} // verus!
