//! The linter: a walk over the tree that reports style violations.
use vstd::prelude::*;
use vstd::string::StringSliceAdditionalSpecFns;
use crate::ast::{Array, ArrayMember, MapMember, Node, Object, Value};
use crate::config::{AllowDeny, AllowDenyRequire, Config};
use crate::lexer::tokens_of;
use crate::lexer::lemma_positions;
use crate::parser::{
    document, is_at, lemma_members_fit_first, lemma_skip_end, root_braced, root_members_start, skip_end,
    Class, ParseError, Parser,
};
use crate::token::cursor_at;
use crate::token::{Cursor, Span, TokenKind};

verus! {

/// Kinds of style violation.
#[derive(Clone, Copy, Debug, PartialEq, Eq, Structural)]
pub enum LintKind {
    ImplicitBraces,
    MissingComma,
    TrailingComma,
    TrailingWhitespace,
}

/// Where a violation is: its start and its length in bytes.
#[derive(Clone, Copy, Debug, PartialEq, Eq, Structural)]
pub struct LintSpan {
    pub start: Cursor,
    pub len: usize,
}

/// One style violation.
#[derive(Clone, Copy, Debug, PartialEq, Eq, Structural)]
pub struct Lint {
    pub kind: LintKind,
    pub span: LintSpan,
}

/// `a + b`, or `usize::MAX` where that does not fit.
pub open spec fn sat_add(a: usize, b: usize) -> usize {
    if a + b > usize::MAX {
        usize::MAX
    } else {
        (a + b) as usize
    }
}

pub open spec fn lint_of(kind: LintKind, start: Cursor, len: usize) -> Lint {
    Lint { kind, span: LintSpan { start, len } }
}

/// Trailing whitespace in one list of trivia, from index `i` on, with the
/// run of whitespace seen so far: a run is reported when a newline or the end
/// of input follows it, and dropped when anything else does.
pub open spec fn whitespace_scan(v: Seq<Span>, i: int, pending: Option<LintSpan>) -> Seq<Lint>
    decreases v.len() - i,
{
    if i < 0 || i >= v.len() {
        seq![]
    } else if v[i].kind == TokenKind::Whitespace {
        let run = match pending {
            Some(p) => LintSpan { start: p.start, len: sat_add(p.len, v[i].len) },
            None => LintSpan { start: v[i].start, len: v[i].len },
        };
        whitespace_scan(v, i + 1, Some(run))
    } else if v[i].kind == TokenKind::NewLine || v[i].kind == TokenKind::Eof {
        match pending {
            Some(p) => seq![Lint { kind: LintKind::TrailingWhitespace, span: p }]
                + whitespace_scan(v, i + 1, None),
            None => whitespace_scan(v, i + 1, None),
        }
    } else {
        whitespace_scan(v, i + 1, None)
    }
}

pub open spec fn whitespace_lints(c: Config, v: Seq<Span>) -> Seq<Lint> {
    if c.trailing_whitespace == AllowDeny::Allow {
        seq![]
    } else {
        whitespace_scan(v, 0, None)
    }
}

/// Trailing whitespace in the trivia before and after a node.
pub open spec fn node_lints<T>(c: Config, n: Node<T>) -> Seq<Lint> {
    whitespace_lints(c, n.before@) + whitespace_lints(c, n.after@)
}

/// Where a root brace would go: just after the trivia before the root,
/// which is where the first token after that trivia starts.
pub open spec fn brace_slot(m: Object) -> Cursor {
    if m.open_brace.after@.len() > 0 {
        m.open_brace.after@[0].start
    } else if m.members@.len() > 0 {
        map_member_start(m.members@[0])
    } else if m.close_brace.before@.len() > 0 {
        m.close_brace.before@[0].start
    } else if m.close_brace.after@.len() > 0 {
        m.close_brace.after@[0].start
    } else {
        Cursor { line: 1, column: 1, byte_offset: 0 }
    }
}

/// The offset where the trivia before the root of `s` ends.
pub open spec fn leading_trivia_end(s: Seq<u8>) -> int {
    let t = tokens_of(s);
    let q = skip_end(t, 0, Class::Hidden);
    if q == 0 {
        0
    } else {
        t[q - 1].start.byte_offset + t[q - 1].len
    }
}

/// Where a required root brace is reported is the position just after the
/// trivia before the root: the offset where that trivia ends, with its line
/// and column.
pub proof fn lemma_brace_slot_after_trivia(s: Seq<u8>, m: Object)
    requires
        s.len() < usize::MAX,
        Parser::parse_spec(s, m),
        m.open_brace.inner is None,
    ensures
        brace_slot(m) == cursor_at(s, leading_trivia_end(s)),
{
    let t = tokens_of(s);
    lemma_positions(s);
    lemma_skip_end(t, 0, Class::Hidden);
    let q1 = skip_end(t, 0, Class::Hidden);
    if q1 == t.len() {
        assert(is_at(t, t.len() - 1, Class::Hidden));
    }
    assert(q1 < t.len());
    assert(!root_braced(t));
    assert(!is_at(t, q1, Class::HiddenLine));
    assert(root_members_start(t) == q1);
    assert(m.open_brace.after@ =~= Seq::<Span>::empty());
    if m.members@.len() > 0 {
        lemma_members_fit_first(t, q1, m.members@);
        assert(m.members@[0].before@ =~= Seq::<Span>::empty());
    } else {
        assert(m.close_brace.before@ =~= Seq::<Span>::empty());
        assert(m.close_brace.after@[0] == t[q1]);
    }
    assert(brace_slot(m) == t[q1].start);
    if q1 > 0 {
        let k = q1 - 1;
        assert(t[k + 1].start.byte_offset == t[k].start.byte_offset + t[k].len);
    }
}

pub open spec fn root_brace_lints(c: Config, m: Object) -> Seq<Lint> {
    match (c.root_braces, m.open_brace.inner) {
        (AllowDenyRequire::Deny, Some(b)) => seq![lint_of(LintKind::ImplicitBraces, b.start, b.len)],
        (AllowDenyRequire::Require, None) => seq![
            lint_of(LintKind::ImplicitBraces, brace_slot(m), 0),
        ],
        _ => seq![],
    }
}

/// Where a comma would go in a comma slot: the first trivia of the slot, or
/// `next` (the start of what follows) where the slot is empty.
pub open spec fn comma_slot(n: Node<Option<Span>>, next: Cursor) -> Cursor {
    if n.before@.len() > 0 {
        n.before@[0].start
    } else if n.after@.len() > 0 {
        n.after@[0].start
    } else {
        next
    }
}

pub open spec fn ends_line(v: Seq<Span>) -> bool {
    exists|i: int| 0 <= i < v.len() && (v[i].kind == TokenKind::NewLine || v[i].kind == TokenKind::Eof)
}

/// The comma slot of a final member. Only a slot followed by a newline or
/// the end of input is checked.
pub open spec fn trailing_comma_lints(c: Config, n: Node<Option<Span>>) -> Seq<Lint> {
    if c.trailing_commas == AllowDenyRequire::Allow || !ends_line(n.after@) {
        seq![]
    } else {
        match (c.trailing_commas, n.inner) {
            (AllowDenyRequire::Deny, Some(x)) => seq![lint_of(LintKind::TrailingComma, x.start, x.len)],
            (AllowDenyRequire::Require, None) => seq![
                lint_of(LintKind::TrailingComma, comma_slot(n, Cursor { line: 1, column: 1, byte_offset: 0 }), 0),
            ],
            _ => seq![],
        }
    }
}

/// The comma slot of a member that is not the final one; `next` is where the
/// next member starts.
pub open spec fn missing_comma_lints(c: Config, n: Node<Option<Span>>, next: Cursor) -> Seq<Lint> {
    if c.missing_commas == AllowDeny::Deny && n.inner is None {
        seq![lint_of(LintKind::MissingComma, comma_slot(n, next), 0)]
    } else {
        seq![]
    }
}

/// Where a value starts, when nothing precedes it in its node.
pub open spec fn value_start(v: Value) -> Cursor {
    match v {
        Value::Object(m) => match m.open_brace.inner {
            Some(b) => b.start,
            None => Cursor { line: 1, column: 1, byte_offset: 0 },
        },
        Value::Array(a) => a.open_bracket.inner.start,
        Value::Value(s) => s.start,
    }
}

pub open spec fn map_member_start(n: Node<MapMember>) -> Cursor {
    if n.before@.len() > 0 {
        n.before@[0].start
    } else {
        n.inner.key.start
    }
}

pub open spec fn array_member_start(n: Node<ArrayMember>) -> Cursor {
    if n.before@.len() > 0 {
        n.before@[0].start
    } else {
        value_start(n.inner.value)
    }
}

/// The lints of an object in document order: its open brace, each member,
/// then its close brace.
/// member in order.
pub open spec fn object_lints(c: Config, m: Object) -> Seq<Lint>
    decreases m, 0int,
{
    node_lints(c, m.open_brace) + map_members_lints(c, m.members@, 0) + node_lints(c, m.close_brace)
}

/// The lints of the members of an object from index `i` on. For each: the
/// trivia around it and around its comma slot, its value, then its comma.
pub open spec fn map_members_lints(c: Config, ms: Seq<Node<MapMember>>, i: int) -> Seq<Lint>
    decreases ms, ms.len() - i,
{
    if i < 0 || i >= ms.len() {
        seq![]
    } else {
        let n = ms[i];
        let comma = if i == ms.len() - 1 {
            trailing_comma_lints(c, n.inner.comma)
        } else {
            missing_comma_lints(c, n.inner.comma, map_member_start(ms[i + 1]))
        };
        node_lints(c, n) + node_lints(c, n.inner.comma) + value_lints(c, n.inner.value) + comma
            + map_members_lints(c, ms, i + 1)
    }
}

/// The lints of the members of an array from index `i` on.
pub open spec fn array_members_lints(c: Config, ms: Seq<Node<ArrayMember>>, i: int) -> Seq<Lint>
    decreases ms, ms.len() - i,
{
    if i < 0 || i >= ms.len() {
        seq![]
    } else {
        let n = ms[i];
        let comma = if i == ms.len() - 1 {
            trailing_comma_lints(c, n.inner.comma)
        } else {
            missing_comma_lints(c, n.inner.comma, array_member_start(ms[i + 1]))
        };
        node_lints(c, n) + node_lints(c, n.inner.comma) + value_lints(c, n.inner.value) + comma
            + array_members_lints(c, ms, i + 1)
    }
}

pub open spec fn value_lints(c: Config, v: Value) -> Seq<Lint>
    decreases v, 0int,
{
    match v {
        Value::Object(m) => object_lints(c, m),
        Value::Array(a) => array_members_lints(c, a.members@, 0),
        Value::Value(_) => seq![],
    }
}

/// All the lints of a document's tree, in the order the walk finds them.
pub open spec fn root_lints(c: Config, m: Object) -> Seq<Lint> {
    root_brace_lints(c, m) + object_lints(c, m)
}

fn line_ends(v: &Vec<Span>) -> (r: bool)
    ensures
        r == ends_line(v@),
{
    let mut i: usize = 0;
    while i < v.len()
        invariant
            i <= v@.len(),
            forall|k: int| 0 <= k < i ==> v@[k].kind != TokenKind::NewLine && v@[k].kind != TokenKind::Eof,
        decreases v@.len() - i,
    {
        if v[i].kind == TokenKind::NewLine || v[i].kind == TokenKind::Eof {
            return true;
        }
        i = i + 1;
    }
    false
}

fn slot_of(n: &Node<Option<Span>>, next: Cursor) -> (r: Cursor)
    ensures
        r == comma_slot(*n, next),
{
    if n.before.len() > 0 {
        n.before[0].start
    } else if n.after.len() > 0 {
        n.after[0].start
    } else {
        next
    }
}

fn value_start_of(v: &Value) -> (r: Cursor)
    ensures
        r == value_start(*v),
{
    match v {
        Value::Object(m) => match m.open_brace.inner {
            Some(b) => b.start,
            None => Cursor::start(),
        },
        Value::Array(a) => a.open_bracket.inner.start,
        Value::Value(s) => s.start,
    }
}

/// The walk over a tree, collecting lints under a configuration.
pub struct Linter {
    config: Config,
    lints: Vec<Lint>,
}

impl Linter {
    /// The lints of `input` under `config`, or the parse error that stopped it.
    pub fn lint(config: Config, input: &str) -> (r: Result<Vec<Lint>, ParseError>)
        requires
            input.spec_bytes().len() < usize::MAX,
        ensures
            r is Ok <==> document(tokens_of(input.spec_bytes())) is Ok,
            r matches Ok(lints) ==> exists|m: Object|
                #[trigger] Parser::parse_spec(input.spec_bytes(), m) && lints@ == root_lints(config, m),
            r matches Err(e) ==> Parser::error_spec(input.spec_bytes(), e),
    {
        let tree = match Parser::parse(input) {
            Ok(m) => m,
            Err(e) => return Err(e),
        };
        Ok(Linter::lint_tree(config, &tree))
    }

    /// The lints of the tree of a document under `config`, in the order of a
    /// depth-first walk: the root braces, then each object's braces and each
    /// member with its value.
    pub fn lint_tree(config: Config, tree: &Object) -> (r: Vec<Lint>)
        ensures
            r@ == root_lints(config, *tree),
    {
        let mut linter = Linter { config, lints: Vec::new() };
        linter.lint_root(tree);
        assert(linter.lints@ =~= root_lints(config, *tree));
        linter.lints
    }

    fn push(&mut self, lint: Lint)
        ensures
            final(self).config == old(self).config,
            final(self).lints@ == old(self).lints@.push(lint),
    {
        self.lints.push(lint);
    }

    fn lint_root(&mut self, m: &Object)
        ensures
            final(self).config == old(self).config,
            final(self).lints@ == old(self).lints@ + root_lints(old(self).config, *m),
    {
        let ghost start = self.lints@;
        self.lint_root_braces(m);
        self.lint_object(m);
        assert(self.lints@ =~= start + root_lints(self.config, *m));
    }

    fn lint_root_braces(&mut self, m: &Object)
        ensures
            final(self).config == old(self).config,
            final(self).lints@ == old(self).lints@ + root_brace_lints(old(self).config, *m),
    {
        let ghost start = self.lints@;
        match self.config.root_braces {
            AllowDenyRequire::Deny => {
                if let Some(b) = m.open_brace.inner {
                    self.push(Lint { kind: LintKind::ImplicitBraces, span: LintSpan { start: b.start, len: b.len } });
                }
            },
            AllowDenyRequire::Require => {
                if m.open_brace.inner.is_none() {
                    let start = if m.open_brace.after.len() > 0 {
                        m.open_brace.after[0].start
                    } else if m.members.len() > 0 {
                        let first = &m.members[0];
                        if first.before.len() > 0 {
                            first.before[0].start
                        } else {
                            first.inner.key.start
                        }
                    } else if m.close_brace.before.len() > 0 {
                        m.close_brace.before[0].start
                    } else if m.close_brace.after.len() > 0 {
                        m.close_brace.after[0].start
                    } else {
                        Cursor::start()
                    };
                    self.push(Lint { kind: LintKind::ImplicitBraces, span: LintSpan { start, len: 0 } });
                }
            },
            AllowDenyRequire::Allow => {},
        }
        assert(self.lints@ =~= start + root_brace_lints(self.config, *m));
    }

    fn lint_whitespace(&mut self, v: &Vec<Span>)
        ensures
            final(self).config == old(self).config,
            final(self).lints@ == old(self).lints@ + whitespace_lints(old(self).config, v@),
    {
        if self.config.trailing_whitespace == AllowDeny::Allow {
            assert(self.lints@ =~= old(self).lints@ + whitespace_lints(self.config, v@));
            return;
        }
        let ghost start = self.lints@;
        let mut pending: Option<LintSpan> = None;
        let mut i: usize = 0;
        assert(whitespace_lints(self.config, v@) == whitespace_scan(v@, 0, None));
        while i < v.len()
            invariant
                i <= v@.len(),
                self.config == old(self).config,
                self.config.trailing_whitespace != AllowDeny::Allow,
                start == old(self).lints@,
                start + whitespace_scan(v@, 0, None) == self.lints@ + whitespace_scan(v@, i as int, pending),
            decreases v@.len() - i,
        {
            let s = v[i];
            let ghost before_lints = self.lints@;
            let ghost old_pending = pending;
            if s.kind == TokenKind::Whitespace {
                pending = match pending {
                    Some(p) => Some(LintSpan { start: p.start, len: p.len.saturating_add(s.len) }),
                    None => Some(LintSpan { start: s.start, len: s.len }),
                };
            } else if s.kind == TokenKind::NewLine || s.kind == TokenKind::Eof {
                if let Some(p) = pending {
                    self.push(Lint { kind: LintKind::TrailingWhitespace, span: p });
                    assert(self.lints@ + whitespace_scan(v@, i + 1, None) =~= before_lints
                        + whitespace_scan(v@, i as int, old_pending));
                }
                pending = None;
            } else {
                pending = None;
            }
            i = i + 1;
        }
        assert(self.lints@ =~= start + whitespace_scan(v@, 0, None));
    }

    fn lint_node<T>(&mut self, n: &Node<T>)
        ensures
            final(self).config == old(self).config,
            final(self).lints@ == old(self).lints@ + node_lints(old(self).config, *n),
    {
        self.lint_whitespace(&n.before);
        self.lint_whitespace(&n.after);
        assert(self.lints@ =~= old(self).lints@ + node_lints(self.config, *n));
    }

    fn lint_trailing_comma(&mut self, n: &Node<Option<Span>>)
        ensures
            final(self).config == old(self).config,
            final(self).lints@ == old(self).lints@ + trailing_comma_lints(old(self).config, *n),
    {
        if self.config.trailing_commas == AllowDenyRequire::Allow || !line_ends(&n.after) {
            assert(self.lints@ =~= old(self).lints@ + trailing_comma_lints(self.config, *n));
            return;
        }
        match (self.config.trailing_commas, n.inner) {
            (AllowDenyRequire::Deny, Some(x)) => {
                self.push(Lint { kind: LintKind::TrailingComma, span: LintSpan { start: x.start, len: x.len } });
            },
            (AllowDenyRequire::Require, None) => {
                let start = slot_of(n, Cursor::start());
                self.push(Lint { kind: LintKind::TrailingComma, span: LintSpan { start, len: 0 } });
            },
            _ => {},
        }
        assert(self.lints@ =~= old(self).lints@ + trailing_comma_lints(self.config, *n));
    }

    fn lint_missing_comma(&mut self, n: &Node<Option<Span>>, next: Cursor)
        ensures
            final(self).config == old(self).config,
            final(self).lints@ == old(self).lints@ + missing_comma_lints(old(self).config, *n, next),
    {
        if self.config.missing_commas == AllowDeny::Deny && n.inner.is_none() {
            let start = slot_of(n, next);
            self.push(Lint { kind: LintKind::MissingComma, span: LintSpan { start, len: 0 } });
        }
        assert(self.lints@ =~= old(self).lints@ + missing_comma_lints(self.config, *n, next));
    }

    fn lint_object(&mut self, m: &Object)
        ensures
            final(self).config == old(self).config,
            final(self).lints@ == old(self).lints@ + object_lints(old(self).config, *m),
        decreases m, 0int,
    {
        let ghost start = self.lints@;
        self.lint_node(&m.open_brace);
        let ghost mid = self.lints@;
        let ms = &m.members;
        let mut i: usize = 0;
        while i < ms.len()
            invariant
                i <= ms@.len(),
                self.config == old(self).config,
                ms == &m.members,
                mid + map_members_lints(self.config, ms@, 0) == self.lints@ + map_members_lints(self.config, ms@, i as int),
            decreases ms@.len() - i,
        {
            let ghost before_lints = self.lints@;
            proof {
                assert(decreases_to!(*m => m.members));
                assert(decreases_to!(m.members => m.members@));
                assert(decreases_to!(m.members@ => m.members@[i as int]));
            }
            self.lint_map_member(ms, i);
            assert(self.lints@ + map_members_lints(self.config, ms@, i + 1) =~= before_lints
                + map_members_lints(self.config, ms@, i as int));
            i = i + 1;
        }
        assert(self.lints@ =~= mid + map_members_lints(self.config, ms@, 0));
        self.lint_node(&m.close_brace);
        assert(self.lints@ =~= start + object_lints(self.config, *m));
    }

    fn lint_array(&mut self, a: &Array)
        ensures
            final(self).config == old(self).config,
            final(self).lints@ == old(self).lints@ + array_members_lints(old(self).config, a.members@, 0),
        decreases a, 0int,
    {
        let ghost start = self.lints@;
        let ms = &a.members;
        let mut i: usize = 0;
        while i < ms.len()
            invariant
                i <= ms@.len(),
                self.config == old(self).config,
                ms == &a.members,
                start + array_members_lints(self.config, ms@, 0) == self.lints@ + array_members_lints(self.config, ms@, i as int),
            decreases ms@.len() - i,
        {
            let ghost before_lints = self.lints@;
            proof {
                assert(decreases_to!(*a => a.members));
                assert(decreases_to!(a.members => a.members@));
                assert(decreases_to!(a.members@ => a.members@[i as int]));
            }
            self.lint_array_member(ms, i);
            assert(self.lints@ + array_members_lints(self.config, ms@, i + 1) =~= before_lints
                + array_members_lints(self.config, ms@, i as int));
            i = i + 1;
        }
        assert(self.lints@ =~= start + array_members_lints(self.config, ms@, 0));
    }

    fn lint_map_member(&mut self, ms: &Vec<Node<MapMember>>, i: usize)
        requires
            i < ms@.len(),
        ensures
            final(self).config == old(self).config,
            final(self).lints@ == old(self).lints@ + ({
                let c = old(self).config;
                let n = ms@[i as int];
                let comma = if i == ms@.len() - 1 {
                    trailing_comma_lints(c, n.inner.comma)
                } else {
                    missing_comma_lints(c, n.inner.comma, map_member_start(ms@[i + 1]))
                };
                node_lints(c, n) + node_lints(c, n.inner.comma) + value_lints(c, n.inner.value)
                    + comma
            }),
        decreases ms@[i as int], 2int,
    {
        let ghost start = self.lints@;
        let n = &ms[i];
        self.lint_node(n);
        self.lint_node(&n.inner.comma);
        proof {
            assert(decreases_to!(ms@[i as int] => ms@[i as int].inner));
            assert(decreases_to!(ms@[i as int].inner => ms@[i as int].inner.value));
        }
        self.lint_value(&n.inner.value);
        if i == ms.len() - 1 {
            self.lint_trailing_comma(&n.inner.comma);
        } else {
            let nx = &ms[i + 1];
            let next = if nx.before.len() > 0 {
                nx.before[0].start
            } else {
                nx.inner.key.start
            };
            self.lint_missing_comma(&n.inner.comma, next);
        }
        assert(self.lints@ =~= start + ({
            let c = self.config;
            let n = ms@[i as int];
            let comma = if i == ms@.len() - 1 {
                trailing_comma_lints(c, n.inner.comma)
            } else {
                missing_comma_lints(c, n.inner.comma, map_member_start(ms@[i + 1]))
            };
            node_lints(c, n) + node_lints(c, n.inner.comma) + value_lints(c, n.inner.value)
                + comma
        }));
    }

    fn lint_array_member(&mut self, ms: &Vec<Node<ArrayMember>>, i: usize)
        requires
            i < ms@.len(),
        ensures
            final(self).config == old(self).config,
            final(self).lints@ == old(self).lints@ + ({
                let c = old(self).config;
                let n = ms@[i as int];
                let comma = if i == ms@.len() - 1 {
                    trailing_comma_lints(c, n.inner.comma)
                } else {
                    missing_comma_lints(c, n.inner.comma, array_member_start(ms@[i + 1]))
                };
                node_lints(c, n) + node_lints(c, n.inner.comma) + value_lints(c, n.inner.value)
                    + comma
            }),
        decreases ms@[i as int], 2int,
    {
        let ghost start = self.lints@;
        let n = &ms[i];
        self.lint_node(n);
        self.lint_node(&n.inner.comma);
        proof {
            assert(decreases_to!(ms@[i as int] => ms@[i as int].inner));
            assert(decreases_to!(ms@[i as int].inner => ms@[i as int].inner.value));
        }
        self.lint_value(&n.inner.value);
        if i == ms.len() - 1 {
            self.lint_trailing_comma(&n.inner.comma);
        } else {
            let nx = &ms[i + 1];
            let next = if nx.before.len() > 0 {
                nx.before[0].start
            } else {
                value_start_of(&nx.inner.value)
            };
            self.lint_missing_comma(&n.inner.comma, next);
        }
        assert(self.lints@ =~= start + ({
            let c = self.config;
            let n = ms@[i as int];
            let comma = if i == ms@.len() - 1 {
                trailing_comma_lints(c, n.inner.comma)
            } else {
                missing_comma_lints(c, n.inner.comma, array_member_start(ms@[i + 1]))
            };
            node_lints(c, n) + node_lints(c, n.inner.comma) + value_lints(c, n.inner.value)
                + comma
        }));
    }

    fn lint_value(&mut self, v: &Value)
        ensures
            final(self).config == old(self).config,
            final(self).lints@ == old(self).lints@ + value_lints(old(self).config, *v),
        decreases v, 1int,
    {
        match v {
            Value::Object(m) => self.lint_object(m),
            Value::Array(a) => self.lint_array(a),
            Value::Value(_) => {
                assert(self.lints@ =~= old(self).lints@ + value_lints(self.config, *v));
            },
        }
    }
}

} // verus!
