//! The resilient tree builder: a flat stream of events (open a tree, close
//! it, take a token) from which a tree is built afterwards.
//!
//! Trees are opened as error trees and get their real kind when they close,
//! so malformed input gives a tree with error nodes in place instead of
//! stopping. Lexing follows a stack of contexts: a value pushes the value
//! context, a mapping the key context, and the current token is lexed again
//! when the top of the stack changes.
use vstd::prelude::*;
use vstd::string::StringSliceAdditionalSpecFns;
use crate::lexer::{lemma_token_bounds, next_token, token_at, Context};
use crate::parser::{in_class, in_class_exec, Class};
use crate::token::{Token, TokenKind};

verus! {

/// Kinds of tree that make up the parsed structure.
#[derive(Clone, Copy, Debug, PartialEq, Eq, Structural)]
pub enum TreeKind {
    /// A tree that was not parsed successfully.
    ErrorTree,
    /// The whole file, comments and the like included.
    File,
    /// An object (a map), with or without braces.
    Object,
    /// One `key: value` of a map.
    Mapping,
    /// An array of values.
    Array,
}

/// Parsing events.
#[derive(Clone, Copy, Debug, PartialEq, Eq, Structural)]
pub enum Event {
    /// Open a new tree of the given kind.
    Open { kind: TreeKind },
    /// Close the tree opened last.
    Close,
    /// Take this token from the input.
    Advance { token: Token },
}

/// A tree of the parsed structure.
#[derive(Debug)]
pub struct Tree {
    pub kind: TreeKind,
    pub children: Vec<Child>,
}

/// A child of a tree: a token or another tree.
#[derive(Debug)]
pub enum Child {
    Token(Token),
    Tree(Tree),
}

/// The tokens of a tree, in order.
pub open spec fn tree_tokens(t: Tree) -> Seq<Token>
    decreases t,
{
    children_tokens(t.children@)
}

pub open spec fn children_tokens(cs: Seq<Child>) -> Seq<Token>
    decreases cs,
{
    if cs.len() == 0 {
        seq![]
    } else {
        children_tokens(cs.drop_last()) + child_tokens(cs.last())
    }
}

pub open spec fn child_tokens(c: Child) -> Seq<Token>
    decreases c,
{
    match c {
        Child::Token(t) => seq![t],
        Child::Tree(t) => tree_tokens(t),
    }
}

/// The events that describe a tree: its open, its children, its close.
pub open spec fn tree_events(t: Tree) -> Seq<Event>
    decreases t,
{
    seq![Event::Open { kind: t.kind }] + children_events(t.children@) + seq![Event::Close]
}

pub open spec fn children_events(cs: Seq<Child>) -> Seq<Event>
    decreases cs,
{
    if cs.len() == 0 {
        seq![]
    } else {
        children_events(cs.drop_last()) + child_events(cs.last())
    }
}

pub open spec fn child_events(c: Child) -> Seq<Event>
    decreases c,
{
    match c {
        Child::Token(t) => seq![Event::Advance { token: t }],
        Child::Tree(t) => tree_events(t),
    }
}

/// The events of a tree still open: its open and its children so far.
pub open spec fn open_events(t: Tree) -> Seq<Event> {
    seq![Event::Open { kind: t.kind }] + children_events(t.children@)
}

/// The events of a stack of open trees, bottom first.
pub open spec fn stack_events(st: Seq<Tree>) -> Seq<Event>
    decreases st.len(),
{
    if st.len() == 0 {
        seq![]
    } else {
        stack_events(st.drop_last()) + open_events(st.last())
    }
}

/// The tokens of a stack of trees, bottom first.
pub open spec fn stack_tokens(st: Seq<Tree>) -> Seq<Token>
    decreases st.len(),
{
    if st.len() == 0 {
        seq![]
    } else {
        stack_tokens(st.drop_last()) + tree_tokens(st.last())
    }
}

/// The tokens taken by the first `n` events, in order.
pub open spec fn event_tokens(ev: Seq<Event>, n: int) -> Seq<Token>
    decreases n,
{
    if n <= 0 {
        seq![]
    } else {
        event_tokens(ev, n - 1) + match ev[n - 1] {
            Event::Advance { token } => seq![token],
            _ => seq![],
        }
    }
}

/// +1 for an open, -1 for a close.
pub open spec fn shape(e: Event) -> int {
    match e {
        Event::Open { .. } => 1,
        Event::Close => -1,
        Event::Advance { .. } => 0,
    }
}

/// Trees open after the first `n` events.
pub open spec fn depth(ev: Seq<Event>, n: int) -> int
    decreases n,
{
    if n <= 0 {
        0
    } else {
        depth(ev, n - 1) + shape(ev[n - 1])
    }
}

/// Bytes taken by the first `n` events.
pub open spec fn taken(ev: Seq<Event>, n: int) -> int
    decreases n,
{
    if n <= 0 {
        0
    } else {
        taken(ev, n - 1) + match ev[n - 1] {
            Event::Advance { token } => token.len as int,
            _ => 0,
        }
    }
}

/// The events from `a` to `b` form whole trees and tokens: they never close
/// more than they open, and open as many as they close.
pub open spec fn balanced(ev: Seq<Event>, a: int, b: int) -> bool {
    &&& 0 <= a <= b <= ev.len()
    &&& forall|n: int| a <= n <= b ==> #[trigger] depth(ev, n) >= depth(ev, a)
    &&& depth(ev, b) == depth(ev, a)
}

/// The events from `a` to `b` make one tree of kind `kind`: its open first,
/// its close last, and every event in between inside it.
pub open spec fn one_tree(ev: Seq<Event>, a: int, b: int, kind: TreeKind) -> bool {
    &&& 0 <= a
    &&& a + 2 <= b <= ev.len()
    &&& ev[a] == (Event::Open { kind })
    &&& ev[b - 1] == Event::Close
    &&& forall|n: int| a < n < b ==> #[trigger] depth(ev, n) > depth(ev, a)
    &&& depth(ev, b) == depth(ev, a)
}

/// The events from `a` to `b` all take tokens of class `c`.
pub open spec fn advances_in(ev: Seq<Event>, a: int, b: int, c: Class) -> bool {
    forall|n: int|
        a <= n < b ==> (#[trigger] ev[n] matches Event::Advance { token } && in_class(c, token.kind))
}

/// An event that may stand among the children of a map: a mapping or an
/// error tree opening, or a token of trivia, a comma or a newline.
pub open spec fn map_child(e: Event) -> bool {
    match e {
        Event::Open { kind } => kind == TreeKind::Mapping || kind == TreeKind::ErrorTree,
        Event::Advance { token } => in_class(Class::Hidden, token.kind) || in_class(
            Class::Separator,
            token.kind,
        ),
        Event::Close => false,
    }
}

/// Every event from `a` to `b` at the level of `a` may stand among the
/// children of a map.
pub open spec fn map_children(ev: Seq<Event>, a: int, b: int) -> bool {
    forall|n: int| a <= n < b && #[trigger] depth(ev, n) == depth(ev, a) ==> map_child(ev[n])
}

pub proof fn lemma_tree_is_map_child(ev: Seq<Event>, a: int, b: int, kind: TreeKind)
    requires
        one_tree(ev, a, b, kind),
        kind == TreeKind::Mapping || kind == TreeKind::ErrorTree,
    ensures
        map_children(ev, a, b),
{
}

pub proof fn lemma_advances_are_map_children(ev: Seq<Event>, a: int, b: int, c: Class)
    requires
        advances_in(ev, a, b, c),
        c == Class::Hidden || c == Class::HiddenLine || c == Class::Separator,
    ensures
        map_children(ev, a, b),
{
    assert forall|n: int| a <= n < b && #[trigger] depth(ev, n) == depth(ev, a) implies map_child(
        ev[n],
    ) by {
        assert(ev[n] matches Event::Advance { token } && in_class(c, token.kind));
    }
}

/// The events make one tree: an open first, a close last, and every event
/// in between inside it.
pub open spec fn is_tree(ev: Seq<Event>) -> bool {
    &&& ev.len() >= 2
    &&& ev[0] is Open
    &&& forall|n: int| 0 < n < ev.len() ==> #[trigger] depth(ev, n) >= 1
    &&& depth(ev, ev.len() as int) == 0
}

pub proof fn lemma_depth_prefix(a: Seq<Event>, b: Seq<Event>, n: int)
    requires
        0 <= n <= a.len(),
        n <= b.len(),
        a.subrange(0, n) == b.subrange(0, n),
    ensures
        depth(a, n) == depth(b, n),
        taken(a, n) == taken(b, n),
    decreases n,
{
    if n > 0 {
        assert(a[n - 1] == a.subrange(0, n)[n - 1]);
        assert(b[n - 1] == b.subrange(0, n)[n - 1]);
        assert(a.subrange(0, n - 1) =~= a.subrange(0, n).subrange(0, n - 1));
        assert(b.subrange(0, n - 1) =~= b.subrange(0, n).subrange(0, n - 1));
        lemma_depth_prefix(a, b, n - 1);
    }
}

/// Giving an open event another kind changes neither depths nor bytes taken.
pub proof fn lemma_depth_retag(ev: Seq<Event>, i: int, kind: TreeKind, n: int)
    requires
        0 <= i < ev.len(),
        ev[i] is Open,
        0 <= n <= ev.len(),
    ensures
        depth(ev.update(i, Event::Open { kind }), n) == depth(ev, n),
        taken(ev.update(i, Event::Open { kind }), n) == taken(ev, n),
    decreases n,
{
    if n > 0 {
        lemma_depth_retag(ev, i, kind, n - 1);
    }
}

/// Opening an event and closing it later around whole trees and tokens
/// gives whole trees and tokens again, with every event in between inside.
pub proof fn lemma_wrap(ev0: Seq<Event>, ev1: Seq<Event>, kind: TreeKind)
    requires
        ev1.len() > ev0.len(),
        ev1.subrange(0, ev0.len() as int) == ev0,
        ev1[ev0.len() as int] is Open,
        balanced(ev1, ev0.len() as int + 1, ev1.len() as int),
    ensures
        ({
            let m = ev0.len() as int;
            let ev2 = ev1.update(m, Event::Open { kind }).push(Event::Close);
            &&& ev2.subrange(0, m) == ev0
            &&& balanced(ev2, m, ev2.len() as int)
            &&& forall|n: int| m < n < ev2.len() ==> #[trigger] depth(ev2, n) > depth(ev2, m)
            &&& taken(ev2, ev2.len() as int) == taken(ev1, ev1.len() as int)
        }),
{
    let m = ev0.len() as int;
    let ev1b = ev1.update(m, Event::Open { kind });
    let ev2 = ev1b.push(Event::Close);
    assert(ev2.subrange(0, m) =~= ev0);
    assert forall|n: int| 0 <= n <= ev1.len() implies depth(ev2, n) == depth(ev1, n) && taken(
        ev2,
        n,
    ) == taken(ev1, n) by {
        lemma_depth_retag(ev1, m, kind, n);
        assert(ev2.subrange(0, n) =~= ev1b.subrange(0, n));
        lemma_depth_prefix(ev2, ev1b, n);
    }
    assert(depth(ev1, m + 1) == depth(ev1, m) + 1);
    assert forall|n: int| m < n < ev2.len() implies #[trigger] depth(ev2, n) > depth(ev2, m) by {
        assert(depth(ev1, n) >= depth(ev1, m + 1));
    }
    assert(depth(ev2, ev2.len() as int) == depth(ev2, ev1.len() as int) - 1);
    assert(taken(ev2, ev2.len() as int) == taken(ev2, ev1.len() as int));
    assert forall|n: int| m <= n <= ev2.len() implies #[trigger] depth(ev2, n) >= depth(ev2, m) by {
        if n > m && n < ev2.len() {
            assert(depth(ev2, n) > depth(ev2, m));
        }
    }
}

/// The event at index `i`, if it takes a token, takes the token that some
/// context lexes where it stands.
pub open spec fn lexed_at(s: Seq<u8>, ev: Seq<Event>, i: int) -> bool {
    ev[i] matches Event::Advance { token } ==> exists|c: Context|
        token_at(s, taken(ev, i), c) == Some(token)
}

/// A mark for an open event, to give it its kind when the tree closes.
#[derive(Clone, Copy, Debug, PartialEq, Eq, Structural)]
struct MarkOpened {
    index: usize,
}

/// The token at `p` in `s` lexed in `context`; `None` at the end of input
/// or where no recogniser matches.
pub open spec fn lexed(s: Seq<u8>, p: int, context: Context) -> Option<Token> {
    if p < s.len() {
        token_at(s, p, context)
    } else {
        None
    }
}

/// Parser that turns a document into a stream of events.
///
/// Every token it takes is in the stream, in order; where some text cannot
/// be read as a token, the stream takes the input up to it.
pub struct Parser<'a> {
    input: &'a [u8],
    pos: usize,
    current: Option<Token>,
    context: Vec<Context>,
    events: Vec<Event>,
}

impl<'a> Parser<'a> {
    pub closed spec fn wf(&self) -> bool {
        &&& self.pos <= self.input@.len() < usize::MAX
        &&& self.context@.len() >= 1
        &&& self.current == lexed(self.input@, self.pos as int, self.context@.last())
        &&& taken(self.events@, self.events@.len() as int) == self.pos
        &&& forall|i: int|
            0 <= i < self.events@.len() ==> #[trigger] lexed_at(self.input@, self.events@, i)
    }

    /// `self` came from `old` by whole trees and tokens, with the same
    /// input and contexts.
    pub closed spec fn extends(&self, old: Parser<'a>) -> bool {
        &&& self.wf()
        &&& self.input@ == old.input@
        &&& self.context@ == old.context@
        &&& old.pos <= self.pos
        &&& old.events@.len() <= self.events@.len()
        &&& self.events@.subrange(0, old.events@.len() as int) == old.events@
        &&& balanced(self.events@, old.events@.len() as int, self.events@.len() as int)
    }

    pub closed spec fn at_end(&self) -> bool {
        self.current is None
    }

    /// Map children from `s0` up to `x`, then from `x` up to `y`, are map
    /// children from `s0` up to `y`.
    proof fn lemma_children_step(s0: Parser<'a>, x: Parser<'a>, y: Parser<'a>)
        requires
            x.extends(s0),
            y.extends(x),
            map_children(x.events@, s0.events@.len() as int, x.events@.len() as int),
            map_children(y.events@, x.events@.len() as int, y.events@.len() as int),
        ensures
            map_children(y.events@, s0.events@.len() as int, y.events@.len() as int),
    {
        let a = s0.events@.len() as int;
        let b = x.events@.len() as int;
        assert forall|n: int| 0 <= n <= b implies depth(y.events@, n) == depth(x.events@, n) by {
            assert(y.events@.subrange(0, n) =~= x.events@.subrange(0, n));
            lemma_depth_prefix(y.events@, x.events@, n);
        }
        assert forall|n: int|
            a <= n < y.events@.len() && #[trigger] depth(y.events@, n) == depth(y.events@, a)
            implies map_child(y.events@[n]) by {
            if n < b {
                Parser::lemma_extends_keeps(x, y, n);
                assert(depth(x.events@, n) == depth(x.events@, a));
            } else {
                assert(depth(y.events@, n) == depth(y.events@, b));
            }
        }
    }

    proof fn lemma_extends_keeps(x: Parser<'a>, y: Parser<'a>, i: int)
        requires
            y.extends(x),
            0 <= i < x.events@.len(),
        ensures
            y.events@[i] == x.events@[i],
    {
        assert(y.events@.subrange(0, x.events@.len() as int)[i] == y.events@[i]);
    }

    proof fn lemma_extends_refl(&self)
        requires
            self.wf(),
        ensures
            self.extends(*self),
    {
        assert(self.events@.subrange(0, self.events@.len() as int) =~= self.events@);
    }

    proof fn lemma_extends_trans(a: Parser<'a>, b: Parser<'a>, c: Parser<'a>)
        requires
            b.extends(a),
            c.extends(b),
        ensures
            c.extends(a),
    {
        let la = a.events@.len() as int;
        let lb = b.events@.len() as int;
        assert(c.events@.subrange(0, la) =~= c.events@.subrange(0, lb).subrange(0, la));
        assert forall|n: int| 0 <= n <= lb implies depth(c.events@, n) == depth(b.events@, n) by {
            assert(c.events@.subrange(0, n) =~= b.events@.subrange(0, n));
            lemma_depth_prefix(c.events@, b.events@, n);
        }
        assert forall|n: int| la <= n <= c.events@.len() implies #[trigger] depth(c.events@, n)
            >= depth(c.events@, la) by {
            if n <= lb {
                assert(depth(b.events@, n) >= depth(b.events@, la));
            } else {
                assert(depth(c.events@, n) >= depth(c.events@, lb));
            }
        }
    }

    /// The events of `input`: one tree of kind `File`, whose tokens take
    /// the input from its start, up to its end or to the first offset where
    /// no token can be read in the context there. Each token taken is the
    /// one that the lexer reads at its offset, in the context of that point.
    pub fn parse(input: &'a str) -> (r: Vec<Event>)
        requires
            input.spec_bytes().len() < usize::MAX,
        ensures
            is_tree(r@),
            r@[0] == (Event::Open { kind: TreeKind::File }),
            0 <= taken(r@, r@.len() as int) <= input.spec_bytes().len(),
            taken(r@, r@.len() as int) < input.spec_bytes().len() ==> exists|c: Context|
                token_at(input.spec_bytes(), taken(r@, r@.len() as int), c) is None,
            forall|i: int| 0 <= i < r@.len() ==> #[trigger] lexed_at(input.spec_bytes(), r@, i),
    {
        let bytes = input.as_bytes();
        let mut context: Vec<Context> = Vec::new();
        context.push(Context::Key);
        let current = if 0 < bytes.len() {
            next_token(bytes, 0, Context::Key)
        } else {
            None
        };
        let mut p = Parser { input: bytes, pos: 0, current, context, events: Vec::new() };
        file(&mut p);
        p.events
    }

    /// A tree opened on `s0` (giving `s1`), filled (giving `s2`) and closed
    /// (giving `s3`) extends `s0`.
    proof fn lemma_closed(s0: Parser<'a>, s1: Parser<'a>, s2: Parser<'a>, s3: Parser<'a>, kind: TreeKind)
        requires
            s0.wf(),
            s1.events@ == s0.events@.push(Event::Open { kind: TreeKind::ErrorTree }),
            s1.input@ == s0.input@,
            s1.context@ == s0.context@,
            s1.pos == s0.pos,
            s2.extends(s1),
            s3.wf(),
            s3.events@ == s2.events@.update(s0.events@.len() as int, Event::Open { kind }).push(
                Event::Close,
            ),
            s3.input@ == s2.input@,
            s3.context@ == s2.context@,
            s3.pos == s2.pos,
        ensures
            s3.extends(s0),
            one_tree(s3.events@, s0.events@.len() as int, s3.events@.len() as int, kind),
    {
        let ev0 = s0.events@;
        let ev1 = s2.events@;
        let m = ev0.len() as int;
        assert(ev1.subrange(0, m) =~= s1.events@.subrange(0, m));
        assert(s1.events@.subrange(0, m) =~= ev0);
        assert(ev1[m] == s1.events@[m]);
        lemma_wrap(ev0, ev1, kind);
    }

    /// Work done under a pushed context, once the context is popped, extends
    /// the state before the push.
    proof fn lemma_recontext(s0: Parser<'a>, s1: Parser<'a>, s2: Parser<'a>, s3: Parser<'a>)
        requires
            s0.wf(),
            s1.events@ == s0.events@,
            s1.input@ == s0.input@,
            s1.pos == s0.pos,
            s1.context@.drop_last() == s0.context@,
            s2.extends(s1),
            s3.wf(),
            s3.events@ == s2.events@,
            s3.input@ == s2.input@,
            s3.pos == s2.pos,
            s3.context@ == s2.context@.drop_last(),
        ensures
            s3.extends(s0),
    {
    }

    /// Opens a tree, as an error tree until it is closed.
    fn open(&mut self) -> (m: MarkOpened)
        requires
            old(self).wf(),
        ensures
            final(self).wf(),
            m.index == old(self).events@.len(),
            final(self).events@ == old(self).events@.push(Event::Open { kind: TreeKind::ErrorTree }),
            final(self).input@ == old(self).input@,
            final(self).pos == old(self).pos,
            final(self).current == old(self).current,
            final(self).context@ == old(self).context@,
    {
        let m = MarkOpened { index: self.events.len() };
        self.events.push(Event::Open { kind: TreeKind::ErrorTree });
        proof {
            assert(self.events@.subrange(0, m.index as int) =~= old(self).events@);
            assert(old(self).events@.subrange(0, m.index as int) =~= old(self).events@);
            lemma_depth_prefix(self.events@, old(self).events@, m.index as int);
            assert forall|i: int| 0 <= i < self.events@.len() implies #[trigger] lexed_at(
                self.input@,
                self.events@,
                i,
            ) by {
                if i < m.index {
                    assert(self.events@.subrange(0, i) =~= old(self).events@.subrange(0, i));
                    lemma_depth_prefix(self.events@, old(self).events@, i);
                    assert(lexed_at(self.input@, old(self).events@, i));
                }
            }
        }
        m
    }

    /// Closes the tree opened at `m`, giving it its kind.
    fn close(&mut self, m: MarkOpened, kind: TreeKind)
        requires
            old(self).wf(),
            m.index < old(self).events@.len(),
            old(self).events@[m.index as int] is Open,
        ensures
            final(self).wf(),
            final(self).events@ == old(self).events@.update(m.index as int, Event::Open { kind }).push(
                Event::Close,
            ),
            final(self).input@ == old(self).input@,
            final(self).pos == old(self).pos,
            final(self).current == old(self).current,
            final(self).context@ == old(self).context@,
    {
        self.events.set(m.index, Event::Open { kind });
        self.events.push(Event::Close);
        proof {
            let ev1 = old(self).events@;
            let ev1b = ev1.update(m.index as int, Event::Open { kind });
            lemma_depth_retag(ev1, m.index as int, kind, ev1.len() as int);
            assert(self.events@.subrange(0, ev1.len() as int) =~= ev1b);
            assert(ev1b.subrange(0, ev1.len() as int) =~= ev1b);
            lemma_depth_prefix(self.events@, ev1b, ev1.len() as int);
            assert forall|i: int| 0 <= i < self.events@.len() implies #[trigger] lexed_at(
                self.input@,
                self.events@,
                i,
            ) by {
                if i < ev1.len() && i != m.index {
                    lemma_depth_retag(ev1, m.index as int, kind, i);
                    assert(self.events@.subrange(0, i) =~= ev1b.subrange(0, i));
                    lemma_depth_prefix(self.events@, ev1b, i);
                    assert(lexed_at(self.input@, ev1, i));
                }
            }
        }
    }

    fn relex_token(&mut self)
        requires
            old(self).pos <= old(self).input@.len(),
            old(self).context@.len() >= 1,
        ensures
            final(self).current == lexed(final(self).input@, final(self).pos as int, final(self).context@.last()),
            final(self).input@ == old(self).input@,
            final(self).pos == old(self).pos,
            final(self).context@ == old(self).context@,
            final(self).events@ == old(self).events@,
    {
        let top = self.context[self.context.len() - 1];
        if self.pos < self.input.len() {
            self.current = next_token(self.input, self.pos, top);
        } else {
            self.current = None;
        }
    }

    /// Takes the current token.
    fn advance(&mut self)
        requires
            old(self).wf(),
            old(self).current is Some,
        ensures
            final(self).wf(),
            final(self).events@ == old(self).events@.push(Event::Advance { token: old(self).current->0 }),
            final(self).input@ == old(self).input@,
            final(self).pos == old(self).pos + old(self).current->0.len,
            final(self).pos > old(self).pos,
            final(self).context@ == old(self).context@,
    {
        let token = match self.current {
            Some(t) => t,
            None => return,
        };
        proof {
            lemma_token_bounds(self.input@, self.pos as int, self.context@.last());
        }
        self.events.push(Event::Advance { token });
        proof {
            assert(self.events@.subrange(0, old(self).events@.len() as int) =~= old(self).events@);
            assert(old(self).events@.subrange(0, old(self).events@.len() as int)
                =~= old(self).events@);
            lemma_depth_prefix(self.events@, old(self).events@, old(self).events@.len() as int);
            let n = old(self).events@.len() as int;
            assert forall|i: int| 0 <= i < self.events@.len() implies #[trigger] lexed_at(
                self.input@,
                self.events@,
                i,
            ) by {
                if i < n {
                    assert(self.events@.subrange(0, i) =~= old(self).events@.subrange(0, i));
                    lemma_depth_prefix(self.events@, old(self).events@, i);
                    assert(lexed_at(self.input@, old(self).events@, i));
                } else {
                    let c = old(self).context@.last();
                    assert(token_at(self.input@, taken(self.events@, i), c) == Some(token));
                }
            }
        }
        self.pos = self.pos + token.len;
        self.relex_token();
    }

    fn eof(&self) -> (r: bool)
        ensures
            r == self.at_end(),
    {
        self.current.is_none()
    }

    fn at(&self, kind: TokenKind) -> (r: bool)
        ensures
            r == (self.current matches Some(t) && t.kind == kind),
    {
        match self.current {
            Some(t) => t.kind == kind,
            None => false,
        }
    }

    fn at_any(&self, c: Class) -> (r: bool)
        ensures
            r == (self.current matches Some(t) && in_class(c, t.kind)),
    {
        match self.current {
            Some(t) => in_class_exec(c, t.kind),
            None => false,
        }
    }

    /// Takes the current token if it is of class `c`.
    fn eat_any(&mut self, c: Class) -> (r: bool)
        requires
            old(self).wf(),
        ensures
            final(self).extends(*old(self)),
            r == (old(self).current matches Some(t) && in_class(c, t.kind)),
            r ==> final(self).events@ == old(self).events@.push(
                Event::Advance { token: old(self).current->0 },
            ),
            !r ==> final(self).events@ == old(self).events@,
            r ==> final(self).pos > old(self).pos,
            !r ==> final(self).pos == old(self).pos && final(self).current == old(self).current,
    {
        if self.at_any(c) {
            self.advance();
            proof {
                let n = old(self).events@.len() as int;
                assert(self.events@.subrange(0, n) =~= old(self).events@);
                assert(depth(self.events@, n + 1) == depth(self.events@, n));
            }
            true
        } else {
            proof {
                self.lemma_extends_refl();
            }
            false
        }
    }

    /// Takes the current token if it is of this kind.
    fn eat(&mut self, kind: TokenKind) -> (r: bool)
        requires
            old(self).wf(),
        ensures
            final(self).extends(*old(self)),
            r == (old(self).current matches Some(t) && t.kind == kind),
            r ==> final(self).events@ == old(self).events@.push(
                Event::Advance { token: old(self).current->0 },
            ),
            !r ==> final(self).events@ == old(self).events@,
            r ==> final(self).pos > old(self).pos,
            !r ==> final(self).pos == old(self).pos && final(self).current == old(self).current,
    {
        self.eat_any(Class::Is(kind))
    }

    /// Takes tokens for as long as they are of class `c`.
    fn eat_all(&mut self, c: Class)
        requires
            old(self).wf(),
        ensures
            final(self).extends(*old(self)),
            advances_in(final(self).events@, old(self).events@.len() as int, final(self).events@.len() as int, c),
    {
        let ghost start = *self;
        proof {
            self.lemma_extends_refl();
        }
        loop
            invariant
                self.extends(start),
                advances_in(self.events@, start.events@.len() as int, self.events@.len() as int, c),
            decreases self.input@.len() - self.pos,
        {
            let ghost before = *self;
            let more = self.eat_any(c);
            proof {
                Parser::lemma_extends_trans(start, before, *self);
                if more {
                    assert forall|n: int|
                        start.events@.len() <= n < self.events@.len() implies (
                        #[trigger] self.events@[n] matches Event::Advance { token } && in_class(
                            c,
                            token.kind,
                        )) by {
                        if n < before.events@.len() {
                            assert(self.events@[n] == before.events@[n]);
                        }
                    }
                }
            }
            if !more {
                break;
            }
        }
    }

    /// Takes the current token if it is of this kind; leaves it otherwise.
    fn expect(&mut self, kind: TokenKind)
        requires
            old(self).wf(),
        ensures
            final(self).extends(*old(self)),
            (old(self).current matches Some(t) && t.kind == kind) ==> final(self).events@
                == old(self).events@.push(Event::Advance { token: old(self).current->0 }),
            (old(self).current matches Some(t) && t.kind == kind) ==> final(self).pos > old(self).pos,
    {
        let _ = self.eat(kind);
    }

    /// Takes the current token if it is of class `c`; leaves it otherwise.
    fn expect_some(&mut self, c: Class)
        requires
            old(self).wf(),
        ensures
            final(self).extends(*old(self)),
            (old(self).current matches Some(t) && in_class(c, t.kind)) ==> final(self).events@
                == old(self).events@.push(Event::Advance { token: old(self).current->0 }),
            !(old(self).current matches Some(t) && in_class(c, t.kind)) ==> final(self).events@
                == old(self).events@,
    {
        let _ = self.eat_any(c);
    }

    /// Takes the current token inside an error tree.
    fn advance_with_error(&mut self)
        requires
            old(self).wf(),
            old(self).current is Some,
        ensures
            final(self).extends(*old(self)),
            final(self).pos > old(self).pos,
            one_tree(
                final(self).events@,
                old(self).events@.len() as int,
                final(self).events@.len() as int,
                TreeKind::ErrorTree,
            ),
    {
        let ghost ev0 = self.events@;
        let m = self.open();
        self.advance();
        proof {
            let n = ev0.len() as int;
            assert(self.events@.subrange(0, n) =~= ev0);
            assert(depth(self.events@, n + 2) == depth(self.events@, n + 1));
        }
        let ghost ev1 = self.events@;
        self.close(m, TreeKind::ErrorTree);
        proof {
            lemma_wrap(ev0, ev1, TreeKind::ErrorTree);
        }
    }

    fn push_context(&mut self, context: Context)
        requires
            old(self).wf(),
        ensures
            final(self).wf(),
            final(self).context@ == old(self).context@.push(context),
            final(self).input@ == old(self).input@,
            final(self).pos == old(self).pos,
            final(self).events@ == old(self).events@,
    {
        let top = self.context[self.context.len() - 1];
        self.context.push(context);
        if top != context {
            self.relex_token();
        }
    }

    fn pop_context(&mut self)
        requires
            old(self).wf(),
            old(self).context@.len() >= 2,
        ensures
            final(self).wf(),
            final(self).context@ == old(self).context@.drop_last(),
            final(self).input@ == old(self).input@,
            final(self).pos == old(self).pos,
            final(self).events@ == old(self).events@,
    {
        let popped = self.context.pop();
        let top = self.context[self.context.len() - 1];
        if popped != Some(top) {
            self.relex_token();
        }
    }
}

impl Tree {
    /// A tree with one more child.
    fn with_child(self, c: Child) -> (r: Tree)
        ensures
            r.kind == self.kind,
            tree_tokens(r) == tree_tokens(self) + child_tokens(c),
            open_events(r) == open_events(self) + child_events(c),
    {
        let ghost before = self.children@;
        let mut t = self;
        t.children.push(c);
        proof {
            assert(t.children@.drop_last() =~= before);
            assert(open_events(t) =~= open_events(self) + child_events(c));
        }
        t
    }

    /// The tree that a stream of events describes: each open and its close
    /// become one tree of that kind, each token a leaf, in order, so that
    /// the tree describes the events again.
    pub fn build(events: Vec<Event>) -> (r: Tree)
        requires
            is_tree(events@),
        ensures
            events@[0] == (Event::Open { kind: r.kind }),
            tree_events(r) == events@,
            tree_tokens(r) == event_tokens(events@, events@.len() as int),
    {
        let n = events.len();
        let ghost root = events@[0];
        let mut stack: Vec<Tree> = Vec::new();
        let mut i: usize = 0;
        while i < n - 1
            invariant
                i <= n - 1,
                n == events@.len(),
                is_tree(events@),
                root == events@[0],
                stack@.len() == depth(events@, i as int),
                i > 0 ==> root == (Event::Open { kind: stack@[0].kind }),
                stack_tokens(stack@) == event_tokens(events@, i as int),
                stack_events(stack@) == events@.subrange(0, i as int),
            decreases n - 1 - i,
        {
            proof {
                assert(depth(events@, i + 1) >= 1);
            }
            let ghost st = stack@;
            match events[i] {
                Event::Open { kind } => {
                    stack.push(Tree { kind, children: Vec::new() });
                    proof {
                        assert(stack@.drop_last() =~= st);
                        assert(tree_tokens(stack@.last()) =~= Seq::<Token>::empty());
                        assert(stack_tokens(stack@) =~= stack_tokens(st));
                        assert(open_events(stack@.last()) =~= seq![Event::Open { kind }]);
                        assert(stack_events(stack@) =~= events@.subrange(0, i + 1));
                    }
                },
                Event::Close => {
                    let done = stack.pop().unwrap();
                    let top = stack.pop().unwrap();
                    let ghost rest = stack@;
                    let ghost done_t = tree_tokens(done);
                    let ghost top_t = tree_tokens(top);
                    let ghost done_e = open_events(done);
                    let ghost top_e = open_events(top);
                    let top = top.with_child(Child::Tree(done));
                    stack.push(top);
                    proof {
                        let below = st.drop_last();
                        assert(st.last() == done);
                        assert(below =~= rest.push(st[st.len() - 2]));
                        assert(below.drop_last() =~= rest);
                        assert(stack_tokens(st) == stack_tokens(below) + done_t);
                        assert(stack_tokens(below) == stack_tokens(rest) + top_t);
                        assert(child_tokens(Child::Tree(done)) == done_t);
                        assert(stack@.drop_last() =~= rest);
                        assert(stack_tokens(stack@) == stack_tokens(rest) + (top_t + done_t));
                        assert(stack_tokens(stack@) =~= stack_tokens(st));
                        assert(stack_events(st) == stack_events(below) + done_e);
                        assert(stack_events(below) == stack_events(rest) + top_e);
                        assert(child_events(Child::Tree(done)) == tree_events(done));
                        assert(tree_events(done) =~= done_e + seq![Event::Close]);
                        assert(stack_events(stack@) == stack_events(rest) + open_events(stack@.last()));
                        assert(events@[i as int] == Event::Close);
                        assert(events@.subrange(0, i + 1) =~= events@.subrange(0, i as int) + seq![Event::Close]);
                        assert(stack_events(stack@) =~= stack_events(st) + seq![Event::Close]);
                        assert(stack_events(stack@) =~= events@.subrange(0, i + 1));
                    }
                },
                Event::Advance { token } => {
                    let top = stack.pop().unwrap();
                    let ghost rest = stack@;
                    let top = top.with_child(Child::Token(token));
                    stack.push(top);
                    proof {
                        assert(st.drop_last() =~= rest);
                        assert(stack@.drop_last() =~= rest);
                        assert(stack_tokens(stack@) =~= stack_tokens(st) + seq![token]);
                        assert(events@[i as int] == (Event::Advance { token }));
                        assert(events@.subrange(0, i + 1) =~= events@.subrange(0, i as int) + seq![Event::Advance { token }]);
                        assert(stack_events(stack@) =~= stack_events(st) + seq![Event::Advance { token }]);
                        assert(stack_events(stack@) =~= events@.subrange(0, i + 1));
                    }
                },
            }
            i = i + 1;
        }
        proof {
            assert(depth(events@, n as int) == depth(events@, n - 1) + shape(events@[n - 1]));
            assert(event_tokens(events@, n as int) =~= event_tokens(events@, n - 1));
            assert(depth(events@, n - 1) >= 1);
            assert(stack@.len() == 1);
            assert(stack@.drop_last() =~= Seq::<Tree>::empty());
            assert(stack_tokens(stack@.drop_last()) == Seq::<Token>::empty());
            assert(stack_tokens(stack@) =~= tree_tokens(stack@.last()));
            assert(stack_events(stack@.drop_last()) == Seq::<Event>::empty());
            assert(stack_events(stack@) =~= open_events(stack@.last()));
            assert(events@[n - 1] == Event::Close);
            assert(tree_events(stack@.last()) =~= events@);
        }
        stack.pop().unwrap()
    }
}

/// A whole document: trivia, the root map with or without braces, and
/// whatever follows it, each stray token in an error tree.
fn file(p: &mut Parser)
    requires
        old(p).wf(),
        old(p).events@.len() == 0,
    ensures
        final(p).wf(),
        final(p).input@ == old(p).input@,
        final(p).at_end(),
        is_tree(final(p).events@),
        final(p).events@[0] == (Event::Open { kind: TreeKind::File }),
{
    let ghost s0 = *p;
    let m = p.open();
    let ghost s1 = *p;
    p.eat_all(Class::Hidden);
    let ghost a = *p;
    if p.at(TokenKind::OpenBrace) {
        map(p);
    } else if p.at_any(Class::Key) {
        root_map(p);
    } else if !p.eof() {
        p.advance_with_error();
    } else {
        proof {
            p.lemma_extends_refl();
        }
    }
    proof {
        Parser::lemma_extends_trans(s1, a, *p);
    }
    loop
        invariant
            p.extends(s1),
        ensures
            p.extends(s1),
            p.at_end(),
        decreases p.input@.len() - p.pos,
    {
        let ghost b = *p;
        if p.eof() {
            break;
        }
        if p.at_any(Class::Hidden) {
            p.advance();
            proof {
                let n = b.events@.len() as int;
                assert(p.events@.subrange(0, n) =~= b.events@);
                assert(depth(p.events@, n + 1) == depth(p.events@, n));
            }
        } else {
            p.advance_with_error();
        }
        proof {
            Parser::lemma_extends_trans(s1, b, *p);
        }
    }
    let ghost s2 = *p;
    p.close(m, TreeKind::File);
    proof {
        Parser::lemma_closed(s0, s1, s2, *p, TreeKind::File);
        let ev1 = s2.events@;
        assert(ev1.subrange(0, 0) =~= s0.events@);
        assert(ev1[0] == s1.events@[0]);
        lemma_wrap(s0.events@, ev1, TreeKind::File);
        let ev = p.events@;
        assert forall|n: int| 0 < n < ev.len() implies #[trigger] depth(ev, n) >= 1 by {
            assert(depth(ev, n) > depth(ev, 0));
        }
    }
}

/// The root map without braces: members up to the end of input.
fn root_map(p: &mut Parser)
    requires
        old(p).wf(),
    ensures
        final(p).extends(*old(p)),
        one_tree(final(p).events@, old(p).events@.len() as int, final(p).events@.len() as int, TreeKind::Object),
{
    let ghost s0 = *p;
    let m = p.open();
    let ghost s1 = *p;
    proof {
        p.lemma_extends_refl();
    }
    while !p.eof()
        invariant
            p.extends(s1),
        decreases p.input@.len() - p.pos,
    {
        let ghost b = *p;
        let more = map_step(p, false);
        proof {
            Parser::lemma_extends_trans(s1, b, *p);
        }
        if !more {
            break;
        }
    }
    let ghost s2 = *p;
    p.close(m, TreeKind::Object);
    proof {
        Parser::lemma_closed(s0, s1, s2, *p, TreeKind::Object);
    }
}

/// A map with braces, at its `{`.
fn map(p: &mut Parser)
    requires
        old(p).wf(),
        old(p).current matches Some(t) && t.kind == TokenKind::OpenBrace,
    ensures
        final(p).extends(*old(p)),
        one_tree(final(p).events@, old(p).events@.len() as int, final(p).events@.len() as int, TreeKind::Object),
        final(p).events@[old(p).events@.len() as int + 1] == (Event::Advance { token: old(p).current->0 }),
        final(p).pos > old(p).pos,
    decreases old(p).input@.len() - old(p).pos, 1int,
{
    let ghost s0 = *p;
    let m = p.open();
    let ghost s1 = *p;
    p.expect(TokenKind::OpenBrace);
    let ghost head = Event::Advance { token: s0.current->0 };
    while !p.eof()
        invariant
            p.extends(s1),
            p.events@.len() > s1.events@.len(),
            p.events@[s1.events@.len() as int] == head,
            s1.events@.len() == s0.events@.len() + 1,
            p.input@ == old(p).input@,
            p.pos > old(p).pos,
        decreases p.input@.len() - p.pos,
    {
        let ghost b = *p;
        let more = map_step(p, true);
        proof {
            Parser::lemma_extends_trans(s1, b, *p);
            Parser::lemma_extends_keeps(b, *p, s1.events@.len() as int);
        }
        if !more {
            break;
        }
    }
    let ghost c = *p;
    p.expect(TokenKind::CloseBrace);
    proof {
        Parser::lemma_extends_trans(s1, c, *p);
        Parser::lemma_extends_keeps(c, *p, s1.events@.len() as int);
    }
    let ghost s2 = *p;
    p.close(m, TreeKind::Object);
    proof {
        Parser::lemma_closed(s0, s1, s2, *p, TreeKind::Object);
    }
}

/// One turn of a map's member loop: `false` where the map ends here.
fn map_step(p: &mut Parser, braces: bool) -> (more: bool)
    requires
        old(p).wf(),
    ensures
        final(p).extends(*old(p)),
        map_children(final(p).events@, old(p).events@.len() as int, final(p).events@.len() as int),
        more ==> final(p).pos > old(p).pos,
    decreases old(p).input@.len() - old(p).pos, 4int,
{
    let ghost s0 = *p;
    let start = p.pos;
    p.eat_all(Class::Hidden);
    proof {
        lemma_advances_are_map_children(p.events@, s0.events@.len() as int, p.events@.len() as int, Class::Hidden);
    }
    if p.eof() {
        return false;
    }
    let ghost b = *p;
    if p.at(TokenKind::CloseBrace) {
        if braces {
            return false;
        }
        p.advance_with_error();
        proof {
            lemma_tree_is_map_child(p.events@, b.events@.len() as int, p.events@.len() as int, TreeKind::ErrorTree);
            Parser::lemma_children_step(s0, b, *p);
            Parser::lemma_extends_trans(s0, b, *p);
        }
        return true;
    }
    if p.at_any(Class::Key) {
        mapping(p);
        proof {
            lemma_tree_is_map_child(p.events@, b.events@.len() as int, p.events@.len() as int, TreeKind::Mapping);
            Parser::lemma_children_step(s0, b, *p);
            Parser::lemma_extends_trans(s0, b, *p);
        }
        let ghost c = *p;
        p.eat_all(Class::HiddenLine);
        proof {
            lemma_advances_are_map_children(p.events@, c.events@.len() as int, p.events@.len() as int, Class::HiddenLine);
            Parser::lemma_children_step(s0, c, *p);
            Parser::lemma_extends_trans(s0, c, *p);
        }
        if !p.at(TokenKind::CloseBrace) && !p.eof() {
            let ghost d = *p;
            p.expect_some(Class::Separator);
            proof {
                assert(advances_in(p.events@, d.events@.len() as int, p.events@.len() as int, Class::Separator));
                lemma_advances_are_map_children(p.events@, d.events@.len() as int, p.events@.len() as int, Class::Separator);
                Parser::lemma_children_step(s0, d, *p);
                Parser::lemma_extends_trans(s0, d, *p);
            }
        }
    } else {
        p.advance_with_error();
        proof {
            lemma_tree_is_map_child(p.events@, b.events@.len() as int, p.events@.len() as int, TreeKind::ErrorTree);
            Parser::lemma_children_step(s0, b, *p);
            Parser::lemma_extends_trans(s0, b, *p);
        }
    }
    if p.pos == start {
        if p.eof() {
            return false;
        }
        let ghost e = *p;
        p.advance_with_error();
        proof {
            lemma_tree_is_map_child(p.events@, e.events@.len() as int, p.events@.len() as int, TreeKind::ErrorTree);
            Parser::lemma_children_step(s0, e, *p);
            Parser::lemma_extends_trans(s0, e, *p);
        }
    }
    true
}

/// A mapping `key: value`, lexed in the key context.
fn mapping(p: &mut Parser)
    requires
        old(p).wf(),
    ensures
        final(p).extends(*old(p)),
        one_tree(final(p).events@, old(p).events@.len() as int, final(p).events@.len() as int, TreeKind::Mapping),
    decreases old(p).input@.len() - old(p).pos, 3int,
{
    let ghost s0 = *p;
    p.push_context(Context::Key);
    let ghost s1 = *p;
    let m = p.open();
    let ghost s2 = *p;
    proof {
        p.lemma_extends_refl();
    }
    let ghost a = *p;
    p.expect_some(Class::Key);
    let ghost b = *p;
    p.eat_all(Class::Hidden);
    proof {
        Parser::lemma_extends_trans(a, b, *p);
    }
    let ghost c = *p;
    p.expect(TokenKind::Colon);
    proof {
        Parser::lemma_extends_trans(a, c, *p);
    }
    let ghost d = *p;
    p.eat_all(Class::Hidden);
    proof {
        Parser::lemma_extends_trans(a, d, *p);
    }
    let ghost e = *p;
    if p.at_any(Class::ValueStart) {
        value(p);
    } else if !p.eof() {
        p.advance_with_error();
    } else {
        proof {
            p.lemma_extends_refl();
        }
    }
    proof {
        Parser::lemma_extends_trans(a, e, *p);
    }
    let ghost s3 = *p;
    p.close(m, TreeKind::Mapping);
    let ghost s4 = *p;
    p.pop_context();
    proof {
        Parser::lemma_closed(s1, s2, s3, s4, TreeKind::Mapping);
        assert(s1.context@.drop_last() =~= s0.context@);
        Parser::lemma_recontext(s0, s1, s4, *p);
    }
}

/// An array, at its `[`.
fn array(p: &mut Parser)
    requires
        old(p).wf(),
        old(p).current matches Some(t) && t.kind == TokenKind::OpenBracket,
    ensures
        final(p).extends(*old(p)),
        one_tree(final(p).events@, old(p).events@.len() as int, final(p).events@.len() as int, TreeKind::Array),
        final(p).events@[old(p).events@.len() as int + 1] == (Event::Advance { token: old(p).current->0 }),
        final(p).pos > old(p).pos,
    decreases old(p).input@.len() - old(p).pos, 1int,
{
    let ghost s0 = *p;
    let m = p.open();
    let ghost s1 = *p;
    p.expect(TokenKind::OpenBracket);
    let ghost head = Event::Advance { token: s0.current->0 };
    while !p.eof()
        invariant
            p.extends(s1),
            p.events@.len() > s1.events@.len(),
            p.events@[s1.events@.len() as int] == head,
            s1.events@.len() == s0.events@.len() + 1,
            p.input@ == old(p).input@,
            p.pos > old(p).pos,
        decreases p.input@.len() - p.pos,
    {
        let ghost b = *p;
        let start = p.pos;
        p.eat_all(Class::Hidden);
        if p.at(TokenKind::CloseBracket) {
            proof {
                Parser::lemma_extends_trans(s1, b, *p);
                Parser::lemma_extends_keeps(b, *p, s1.events@.len() as int);
            }
            break;
        }
        let ghost c = *p;
        if p.at_any(Class::ValueStart) {
            value(p);
            let ghost d = *p;
            p.eat_all(Class::HiddenLine);
            proof {
                Parser::lemma_extends_trans(c, d, *p);
            }
            if !p.at(TokenKind::CloseBracket) && !p.eof() {
                let ghost e = *p;
                p.expect_some(Class::Separator);
                proof {
                    Parser::lemma_extends_trans(c, e, *p);
                }
            }
        } else if !p.eof() {
            p.advance_with_error();
        } else {
            proof {
                p.lemma_extends_refl();
            }
        }
        proof {
            Parser::lemma_extends_trans(b, c, *p);
        }
        if p.pos == start {
            if p.eof() {
                proof {
                    Parser::lemma_extends_trans(s1, b, *p);
                Parser::lemma_extends_keeps(b, *p, s1.events@.len() as int);
                }
                break;
            }
            let ghost f = *p;
            p.advance_with_error();
            proof {
                Parser::lemma_extends_trans(b, f, *p);
            }
        }
        proof {
            Parser::lemma_extends_trans(s1, b, *p);
                Parser::lemma_extends_keeps(b, *p, s1.events@.len() as int);
        }
    }
    let ghost g = *p;
    p.expect(TokenKind::CloseBracket);
    proof {
        Parser::lemma_extends_trans(s1, g, *p);
        Parser::lemma_extends_keeps(g, *p, s1.events@.len() as int);
    }
    let ghost s2 = *p;
    p.close(m, TreeKind::Array);
    proof {
        Parser::lemma_closed(s0, s1, s2, *p, TreeKind::Array);
    }
}

/// A value, lexed in the value context.
fn value(p: &mut Parser)
    requires
        old(p).wf(),
    ensures
        final(p).extends(*old(p)),
        ({
            let a = old(p).events@.len() as int;
            let b = final(p).events@.len() as int;
            match lexed(old(p).input@, old(p).pos as int, Context::Value) {
                Some(x) => if x.kind == TokenKind::OpenBrace {
                    one_tree(final(p).events@, a, b, TreeKind::Object)
                } else if x.kind == TokenKind::OpenBracket {
                    one_tree(final(p).events@, a, b, TreeKind::Array)
                } else if in_class(Class::Scalar, x.kind) {
                    final(p).events@ == old(p).events@.push(Event::Advance { token: x })
                } else {
                    final(p).events@ == old(p).events@
                },
                None => final(p).events@ == old(p).events@,
            }
        }),
    decreases old(p).input@.len() - old(p).pos, 2int,
{
    let ghost s0 = *p;
    p.push_context(Context::Value);
    let ghost s1 = *p;
    proof {
        p.lemma_extends_refl();
    }
    if p.at(TokenKind::OpenBrace) {
        map(p);
    } else if p.at(TokenKind::OpenBracket) {
        array(p);
    } else {
        p.expect_some(Class::ValueStart);
    }
    let ghost s2 = *p;
    p.pop_context();
    proof {
        assert(s1.context@.drop_last() =~= s0.context@);
        Parser::lemma_recontext(s0, s1, s2, *p);
    }
}

} // verus!
