//! What it means for a document to satisfy a denied or required rule, and
//! the proof that the linter reports nothing for a rule that is satisfied.
use vstd::prelude::*;
use crate::ast::{
    flat_array, flat_array_member, flat_array_members, flat_map_member, flat_map_members,
    flat_object, flat_one, flat_opt, flat_value, opt_spans, ArrayMember, MapMember, Node, Object,
    Value,
};
use crate::config::{AllowDeny, AllowDenyRequire, Config};
use crate::linter::{
    array_member_start, array_members_lints, ends_line, map_member_start, map_members_lints,
    missing_comma_lints, node_lints, object_lints, root_brace_lints, root_lints,
    sat_add, trailing_comma_lints, value_lints, whitespace_lints, whitespace_scan, Lint, LintKind,
    LintSpan,
};
use crate::token::{Cursor, Span, TokenKind};

verus! {

/// No lint of kind `k` in `v`.
pub open spec fn none_of(v: Seq<Lint>, k: LintKind) -> bool {
    forall|j: int| 0 <= j < v.len() ==> (#[trigger] v[j]).kind != k
}

/// Whether `v[k]` is whitespace and `v[k + 1]` a newline or the end of input.
pub open spec fn blank_before_end(v: Seq<Span>, k: int) -> bool {
    v[k].kind == TokenKind::Whitespace && (v[k + 1].kind == TokenKind::NewLine || v[k + 1].kind
        == TokenKind::Eof)
}

/// No whitespace token directly before a newline or the end of input.
pub open spec fn no_trailing_blanks(v: Seq<Span>) -> bool {
    forall|k: int| 0 <= k < v.len() - 1 ==> !#[trigger] blank_before_end(v, k)
}

/// Whether `p` holds of the comma slot of every member of every map and
/// array in the object, with whether the member is the last of its list.
pub open spec fn object_slots(m: Object, p: spec_fn(Node<Option<Span>>, bool) -> bool) -> bool
    decreases m, 0int,
{
    map_slots(m.members@, 0, p)
}

pub open spec fn map_slots(
    ms: Seq<Node<MapMember>>,
    i: int,
    p: spec_fn(Node<Option<Span>>, bool) -> bool,
) -> bool
    decreases ms, ms.len() - i,
{
    if i < 0 || i >= ms.len() {
        true
    } else {
        p(ms[i].inner.comma, i == ms.len() - 1) && value_slots(ms[i].inner.value, p) && map_slots(
            ms,
            i + 1,
            p,
        )
    }
}

pub open spec fn array_slots(
    ms: Seq<Node<ArrayMember>>,
    i: int,
    p: spec_fn(Node<Option<Span>>, bool) -> bool,
) -> bool
    decreases ms, ms.len() - i,
{
    if i < 0 || i >= ms.len() {
        true
    } else {
        p(ms[i].inner.comma, i == ms.len() - 1) && value_slots(ms[i].inner.value, p)
            && array_slots(ms, i + 1, p)
    }
}

pub open spec fn value_slots(v: Value, p: spec_fn(Node<Option<Span>>, bool) -> bool) -> bool
    decreases v, 0int,
{
    match v {
        Value::Object(m) => object_slots(m, p),
        Value::Array(a) => array_slots(a.members@, 0, p),
        Value::Value(_) => true,
    }
}

/// Every member but the last of its list has a comma.
pub open spec fn comma_present(n: Node<Option<Span>>, last: bool) -> bool {
    last || n.inner is Some
}

/// No last member whose line ends after it has a comma.
pub open spec fn no_trailing_comma(n: Node<Option<Span>>, last: bool) -> bool {
    !last || !ends_line(n.after@) || n.inner is None
}

/// Every last member whose line ends after it has a comma.
pub open spec fn trailing_comma_present(n: Node<Option<Span>>, last: bool) -> bool {
    !last || !ends_line(n.after@) || n.inner is Some
}

pub open spec fn comma_part(c: Config, n: Node<Option<Span>>, last: bool, next: Cursor) -> Seq<
    Lint,
> {
    if last {
        trailing_comma_lints(c, n)
    } else {
        missing_comma_lints(c, n, next)
    }
}

proof fn lemma_none_of_concat(a: Seq<Lint>, b: Seq<Lint>, k: LintKind)
    requires
        none_of(a, k),
        none_of(b, k),
    ensures
        none_of(a + b, k),
{
    assert forall|j: int| 0 <= j < (a + b).len() implies (#[trigger] (a + b)[j]).kind != k by {
        if j >= a.len() {
            assert((a + b)[j] == b[j - a.len()]);
        }
    }
}

proof fn lemma_no_blanks_split(a: Seq<Span>, b: Seq<Span>)
    requires
        no_trailing_blanks(a + b),
    ensures
        no_trailing_blanks(a),
        no_trailing_blanks(b),
{
    let s = a + b;
    assert forall|k: int| 0 <= k < a.len() - 1 implies !#[trigger] blank_before_end(a, k) by {
        assert(s[k] == a[k] && s[k + 1] == a[k + 1]);
        assert(!blank_before_end(s, k));
    }
    assert forall|k: int| 0 <= k < b.len() - 1 implies !#[trigger] blank_before_end(b, k) by {
        let k2 = k + a.len();
        assert(s[k2] == b[k] && s[k2 + 1] == b[k + 1]);
        assert(!blank_before_end(s, k2));
    }
}

/// The scan of trivia only ever reports trailing whitespace.
proof fn lemma_scan_kind(v: Seq<Span>, i: int, pending: Option<LintSpan>)
    ensures
        forall|j: int|
            0 <= j < whitespace_scan(v, i, pending).len() ==> (#[trigger] whitespace_scan(
                v,
                i,
                pending,
            )[j]).kind == LintKind::TrailingWhitespace,
    decreases v.len() - i,
{
    if 0 <= i < v.len() {
        if v[i].kind == TokenKind::Whitespace {
            let run = match pending {
                Some(p) => LintSpan { start: p.start, len: sat_add(p.len, v[i].len) },
                None => LintSpan { start: v[i].start, len: v[i].len },
            };
            lemma_scan_kind(v, i + 1, Some(run));
        } else {
            lemma_scan_kind(v, i + 1, None);
            let rest = whitespace_scan(v, i + 1, None);
            if (v[i].kind == TokenKind::NewLine || v[i].kind == TokenKind::Eof) && pending is Some {
                let l = Lint { kind: LintKind::TrailingWhitespace, span: pending->0 };
                assert forall|j: int| 0 <= j < (seq![l] + rest).len() implies (#[trigger] (seq![l]
                    + rest)[j]).kind == LintKind::TrailingWhitespace by {
                    if j > 0 {
                        assert((seq![l] + rest)[j] == rest[j - 1]);
                    }
                }
            }
        }
    }
}

/// With no whitespace before a line end, the scan reports nothing.
proof fn lemma_scan_quiet(v: Seq<Span>, i: int, pending: Option<LintSpan>)
    requires
        no_trailing_blanks(v),
        0 <= i,
        pending is Some ==> 0 < i <= v.len() && v[i - 1].kind == TokenKind::Whitespace,
    ensures
        whitespace_scan(v, i, pending) == Seq::<Lint>::empty(),
    decreases v.len() - i,
{
    if i < v.len() {
        if v[i].kind == TokenKind::Whitespace {
            let run = match pending {
                Some(p) => LintSpan { start: p.start, len: sat_add(p.len, v[i].len) },
                None => LintSpan { start: v[i].start, len: v[i].len },
            };
            lemma_scan_quiet(v, i + 1, Some(run));
        } else {
            if pending is Some && (v[i].kind == TokenKind::NewLine || v[i].kind == TokenKind::Eof) {
                let k = i - 1;
                assert(v[k + 1] == v[i]);
                assert(blank_before_end(v, k));
            }
            lemma_scan_quiet(v, i + 1, None);
        }
    }
}

proof fn lemma_node_kind<T>(c: Config, n: Node<T>, k: LintKind)
    requires
        k != LintKind::TrailingWhitespace,
    ensures
        none_of(node_lints(c, n), k),
{
    lemma_scan_kind(n.before@, 0, None);
    lemma_scan_kind(n.after@, 0, None);
    assert(none_of(whitespace_lints(c, n.before@), k));
    assert(none_of(whitespace_lints(c, n.after@), k));
    lemma_none_of_concat(whitespace_lints(c, n.before@), whitespace_lints(c, n.after@), k);
}

proof fn lemma_node_quiet<T>(c: Config, n: Node<T>)
    requires
        no_trailing_blanks(n.before@),
        no_trailing_blanks(n.after@),
    ensures
        none_of(node_lints(c, n), LintKind::TrailingWhitespace),
{
    lemma_scan_quiet(n.before@, 0, None);
    lemma_scan_quiet(n.after@, 0, None);
    assert(node_lints(c, n) =~= Seq::<Lint>::empty());
}

proof fn lemma_comma_kinds(c: Config, n: Node<Option<Span>>, last: bool, next: Cursor)
    ensures
        none_of(comma_part(c, n, last, next), LintKind::TrailingWhitespace),
        none_of(comma_part(c, n, last, next), LintKind::ImplicitBraces),
{
}

/// Whether every comma slot that satisfies `p` gives no lint of kind `k`.
pub open spec fn slot_rule(c: Config, k: LintKind, p: spec_fn(Node<Option<Span>>, bool) -> bool) -> bool {
    forall|n: Node<Option<Span>>, last: bool, next: Cursor|
        p(n, last) ==> none_of(#[trigger] comma_part(c, n, last, next), k)
}

proof fn lemma_object_slots(
    c: Config,
    m: Object,
    k: LintKind,
    p: spec_fn(Node<Option<Span>>, bool) -> bool,
)
    requires
        k != LintKind::TrailingWhitespace,
        slot_rule(c, k, p),
        object_slots(m, p),
    ensures
        none_of(object_lints(c, m), k),
    decreases m, 0int,
{
    lemma_node_kind(c, m.open_brace, k);
    lemma_node_kind(c, m.close_brace, k);
    assert(decreases_to!(m => m.members));
    assert(decreases_to!(m.members => m.members@));
    lemma_map_slots(c, m.members@, 0, k, p);
    lemma_none_of_concat(node_lints(c, m.open_brace), map_members_lints(c, m.members@, 0), k);
    lemma_none_of_concat(
        node_lints(c, m.open_brace) + map_members_lints(c, m.members@, 0),
        node_lints(c, m.close_brace),
        k,
    );
}

proof fn lemma_map_slots(
    c: Config,
    ms: Seq<Node<MapMember>>,
    i: int,
    k: LintKind,
    p: spec_fn(Node<Option<Span>>, bool) -> bool,
)
    requires
        k != LintKind::TrailingWhitespace,
        slot_rule(c, k, p),
        map_slots(ms, i, p),
    ensures
        none_of(map_members_lints(c, ms, i), k),
    decreases ms, ms.len() - i,
{
    if 0 <= i < ms.len() {
        let n = ms[i];
        let last = i == ms.len() - 1;
        let next = if last {
            Cursor { line: 1, column: 1, byte_offset: 0 }
        } else {
            map_member_start(ms[i + 1])
        };
        assert(p(n.inner.comma, last));
        let comma = comma_part(c, n.inner.comma, last, next);
        assert(none_of(comma, k));
        lemma_node_kind(c, n, k);
        lemma_node_kind(c, n.inner.comma, k);
        assert(decreases_to!(ms => ms[i]));
        lemma_value_slots(c, n.inner.value, k, p);
        lemma_map_slots(c, ms, i + 1, k, p);
        let a = node_lints(c, n);
        let b = node_lints(c, n.inner.comma);
        let d = value_lints(c, n.inner.value);
        lemma_none_of_concat(a, b, k);
        lemma_none_of_concat(a + b, d, k);
        lemma_none_of_concat(a + b + d, comma, k);
        lemma_none_of_concat(a + b + d + comma, map_members_lints(c, ms, i + 1), k);
    }
}

proof fn lemma_array_slots(
    c: Config,
    ms: Seq<Node<ArrayMember>>,
    i: int,
    k: LintKind,
    p: spec_fn(Node<Option<Span>>, bool) -> bool,
)
    requires
        k != LintKind::TrailingWhitespace,
        slot_rule(c, k, p),
        array_slots(ms, i, p),
    ensures
        none_of(array_members_lints(c, ms, i), k),
    decreases ms, ms.len() - i,
{
    if 0 <= i < ms.len() {
        let n = ms[i];
        let last = i == ms.len() - 1;
        let next = if last {
            Cursor { line: 1, column: 1, byte_offset: 0 }
        } else {
            array_member_start(ms[i + 1])
        };
        assert(p(n.inner.comma, last));
        let comma = comma_part(c, n.inner.comma, last, next);
        assert(none_of(comma, k));
        lemma_node_kind(c, n, k);
        lemma_node_kind(c, n.inner.comma, k);
        assert(decreases_to!(ms => ms[i]));
        lemma_value_slots(c, n.inner.value, k, p);
        lemma_array_slots(c, ms, i + 1, k, p);
        let a = node_lints(c, n);
        let b = node_lints(c, n.inner.comma);
        let d = value_lints(c, n.inner.value);
        lemma_none_of_concat(a, b, k);
        lemma_none_of_concat(a + b, d, k);
        lemma_none_of_concat(a + b + d, comma, k);
        lemma_none_of_concat(a + b + d + comma, array_members_lints(c, ms, i + 1), k);
    }
}

proof fn lemma_value_slots(
    c: Config,
    v: Value,
    k: LintKind,
    p: spec_fn(Node<Option<Span>>, bool) -> bool,
)
    requires
        k != LintKind::TrailingWhitespace,
        slot_rule(c, k, p),
        value_slots(v, p),
    ensures
        none_of(value_lints(c, v), k),
    decreases v, 0int,
{
    match v {
        Value::Object(m) => lemma_object_slots(c, m, k, p),
        Value::Array(a) => {
            assert(decreases_to!(a => a.members));
            assert(decreases_to!(a.members => a.members@));
            lemma_array_slots(c, a.members@, 0, k, p);
        },
        Value::Value(_) => {},
    }
}

proof fn lemma_map_members_split(ms: Seq<Node<MapMember>>)
    requires
        no_trailing_blanks(flat_map_members(ms)),
    ensures
        forall|j: int| 0 <= j < ms.len() ==> no_trailing_blanks(flat_map_member(#[trigger] ms[j])),
    decreases ms.len(),
{
    if ms.len() > 0 {
        lemma_no_blanks_split(flat_map_members(ms.drop_last()), flat_map_member(ms.last()));
        lemma_map_members_split(ms.drop_last());
        assert forall|j: int| 0 <= j < ms.len() implies no_trailing_blanks(
            flat_map_member(#[trigger] ms[j]),
        ) by {
            if j < ms.len() - 1 {
                assert(ms[j] == ms.drop_last()[j]);
            }
        }
    }
}

proof fn lemma_array_members_split(ms: Seq<Node<ArrayMember>>)
    requires
        no_trailing_blanks(flat_array_members(ms)),
    ensures
        forall|j: int| 0 <= j < ms.len() ==> no_trailing_blanks(flat_array_member(#[trigger] ms[j])),
    decreases ms.len(),
{
    if ms.len() > 0 {
        lemma_no_blanks_split(flat_array_members(ms.drop_last()), flat_array_member(ms.last()));
        lemma_array_members_split(ms.drop_last());
        assert forall|j: int| 0 <= j < ms.len() implies no_trailing_blanks(
            flat_array_member(#[trigger] ms[j]),
        ) by {
            if j < ms.len() - 1 {
                assert(ms[j] == ms.drop_last()[j]);
            }
        }
    }
}

proof fn lemma_opt_split(n: Node<Option<Span>>)
    requires
        no_trailing_blanks(flat_opt(n)),
    ensures
        no_trailing_blanks(n.before@),
        no_trailing_blanks(n.after@),
{
    lemma_no_blanks_split(n.before@ + opt_spans(n.inner), n.after@);
    lemma_no_blanks_split(n.before@, opt_spans(n.inner));
}

/// The walk reports no implicit braces below the root, and no trailing
/// whitespace where the tokens have none.
proof fn lemma_object_blanks(c: Config, m: Object)
    ensures
        none_of(object_lints(c, m), LintKind::ImplicitBraces),
        no_trailing_blanks(flat_object(m)) ==> none_of(
            object_lints(c, m),
            LintKind::TrailingWhitespace,
        ),
    decreases m, 0int,
{
    let tw = LintKind::TrailingWhitespace;
    let ib = LintKind::ImplicitBraces;
    assert(decreases_to!(m => m.members));
    assert(decreases_to!(m.members => m.members@));
    let quiet = no_trailing_blanks(flat_object(m));
    if quiet {
        lemma_no_blanks_split(
            flat_opt(m.open_brace) + flat_map_members(m.members@),
            flat_opt(m.close_brace),
        );
        lemma_no_blanks_split(flat_opt(m.open_brace), flat_map_members(m.members@));
        lemma_opt_split(m.open_brace);
        lemma_opt_split(m.close_brace);
        lemma_map_members_split(m.members@);
        lemma_node_quiet(c, m.open_brace);
        lemma_node_quiet(c, m.close_brace);
    }
    lemma_map_blanks(c, m.members@, 0);
    lemma_node_kind(c, m.open_brace, ib);
    lemma_node_kind(c, m.close_brace, ib);
    let a = node_lints(c, m.open_brace);
    let b = map_members_lints(c, m.members@, 0);
    let d = node_lints(c, m.close_brace);
    lemma_none_of_concat(a, b, ib);
    lemma_none_of_concat(a + b, d, ib);
    if quiet {
        lemma_none_of_concat(a, b, tw);
        lemma_none_of_concat(a + b, d, tw);
    }
}

proof fn lemma_map_blanks(c: Config, ms: Seq<Node<MapMember>>, i: int)
    ensures
        none_of(map_members_lints(c, ms, i), LintKind::ImplicitBraces),
        (forall|j: int| 0 <= j < ms.len() ==> no_trailing_blanks(flat_map_member(#[trigger] ms[j])))
            ==> none_of(map_members_lints(c, ms, i), LintKind::TrailingWhitespace),
    decreases ms, ms.len() - i,
{
    let tw = LintKind::TrailingWhitespace;
    let ib = LintKind::ImplicitBraces;
    if 0 <= i < ms.len() {
        let n = ms[i];
        let last = i == ms.len() - 1;
        let next = if last {
            Cursor { line: 1, column: 1, byte_offset: 0 }
        } else {
            map_member_start(ms[i + 1])
        };
        let quiet = forall|j: int|
            0 <= j < ms.len() ==> no_trailing_blanks(flat_map_member(#[trigger] ms[j]));
        assert(decreases_to!(ms => ms[i]));
        lemma_value_blanks(c, n.inner.value);
        lemma_map_blanks(c, ms, i + 1);
        lemma_comma_kinds(c, n.inner.comma, last, next);
        lemma_node_kind(c, n, ib);
        lemma_node_kind(c, n.inner.comma, ib);
        let a = node_lints(c, n);
        let b = node_lints(c, n.inner.comma);
        let d = value_lints(c, n.inner.value);
        let e = comma_part(c, n.inner.comma, last, next);
        let r = map_members_lints(c, ms, i + 1);
        lemma_none_of_concat(a, b, ib);
        lemma_none_of_concat(a + b, d, ib);
        lemma_none_of_concat(a + b + d, e, ib);
        lemma_none_of_concat(a + b + d + e, r, ib);
        if quiet {
            assert(no_trailing_blanks(flat_map_member(n)));
            let upto_key = n.before@ + seq![n.inner.key];
            let upto_colon = upto_key + flat_one(n.inner.colon);
            let upto_value = upto_colon + flat_value(n.inner.value);
            let upto_comma = upto_value + flat_opt(n.inner.comma);
            lemma_no_blanks_split(upto_comma, n.after@);
            lemma_no_blanks_split(upto_value, flat_opt(n.inner.comma));
            lemma_no_blanks_split(upto_colon, flat_value(n.inner.value));
            lemma_no_blanks_split(upto_key, flat_one(n.inner.colon));
            lemma_no_blanks_split(n.before@, seq![n.inner.key]);
            lemma_opt_split(n.inner.comma);
            lemma_node_quiet(c, n);
            lemma_node_quiet(c, n.inner.comma);
            lemma_none_of_concat(a, b, tw);
            lemma_none_of_concat(a + b, d, tw);
            lemma_none_of_concat(a + b + d, e, tw);
            lemma_none_of_concat(a + b + d + e, r, tw);
        }
    }
}

proof fn lemma_array_blanks(c: Config, ms: Seq<Node<ArrayMember>>, i: int)
    ensures
        none_of(array_members_lints(c, ms, i), LintKind::ImplicitBraces),
        (forall|j: int| 0 <= j < ms.len() ==> no_trailing_blanks(flat_array_member(#[trigger] ms[j])))
            ==> none_of(array_members_lints(c, ms, i), LintKind::TrailingWhitespace),
    decreases ms, ms.len() - i,
{
    let tw = LintKind::TrailingWhitespace;
    let ib = LintKind::ImplicitBraces;
    if 0 <= i < ms.len() {
        let n = ms[i];
        let last = i == ms.len() - 1;
        let next = if last {
            Cursor { line: 1, column: 1, byte_offset: 0 }
        } else {
            array_member_start(ms[i + 1])
        };
        let quiet = forall|j: int|
            0 <= j < ms.len() ==> no_trailing_blanks(flat_array_member(#[trigger] ms[j]));
        assert(decreases_to!(ms => ms[i]));
        lemma_value_blanks(c, n.inner.value);
        lemma_array_blanks(c, ms, i + 1);
        lemma_comma_kinds(c, n.inner.comma, last, next);
        lemma_node_kind(c, n, ib);
        lemma_node_kind(c, n.inner.comma, ib);
        let a = node_lints(c, n);
        let b = node_lints(c, n.inner.comma);
        let d = value_lints(c, n.inner.value);
        let e = comma_part(c, n.inner.comma, last, next);
        let r = array_members_lints(c, ms, i + 1);
        lemma_none_of_concat(a, b, ib);
        lemma_none_of_concat(a + b, d, ib);
        lemma_none_of_concat(a + b + d, e, ib);
        lemma_none_of_concat(a + b + d + e, r, ib);
        if quiet {
            assert(no_trailing_blanks(flat_array_member(n)));
            let upto_value = n.before@ + flat_value(n.inner.value);
            let upto_comma = upto_value + flat_opt(n.inner.comma);
            lemma_no_blanks_split(upto_comma, n.after@);
            lemma_no_blanks_split(upto_value, flat_opt(n.inner.comma));
            lemma_no_blanks_split(n.before@, flat_value(n.inner.value));
            lemma_opt_split(n.inner.comma);
            lemma_node_quiet(c, n);
            lemma_node_quiet(c, n.inner.comma);
            lemma_none_of_concat(a, b, tw);
            lemma_none_of_concat(a + b, d, tw);
            lemma_none_of_concat(a + b + d, e, tw);
            lemma_none_of_concat(a + b + d + e, r, tw);
        }
    }
}

proof fn lemma_value_blanks(c: Config, v: Value)
    ensures
        none_of(value_lints(c, v), LintKind::ImplicitBraces),
        no_trailing_blanks(flat_value(v)) ==> none_of(
            value_lints(c, v),
            LintKind::TrailingWhitespace,
        ),
    decreases v, 0int,
{
    match v {
        Value::Object(m) => lemma_object_blanks(c, m),
        Value::Array(a) => {
            assert(decreases_to!(a => a.members));
            assert(decreases_to!(a.members => a.members@));
            if no_trailing_blanks(flat_value(v)) {
                lemma_no_blanks_split(
                    flat_one(a.open_bracket) + flat_array_members(a.members@),
                    flat_one(a.close_bracket),
                );
                lemma_no_blanks_split(flat_one(a.open_bracket), flat_array_members(a.members@));
                lemma_array_members_split(a.members@);
            }
            lemma_array_blanks(c, a.members@, 0);
        },
        Value::Value(_) => {},
    }
}

/// Linting a document that already satisfies a denied or required rule
/// yields no lint of that rule.
///
/// Root braces are satisfied by their absence (denied) or presence
/// (required); trailing whitespace by no whitespace token directly before a
/// newline or the end of input; missing commas by a comma after every member
/// but the last of each list; trailing commas by the absence (denied) or
/// presence (required) of a comma after each last member whose line ends
/// after it.
pub proof fn lemma_satisfied_rules_are_silent(c: Config, m: Object)
    ensures
        c.root_braces == AllowDenyRequire::Deny && m.open_brace.inner is None ==> none_of(
            root_lints(c, m),
            LintKind::ImplicitBraces,
        ),
        c.root_braces == AllowDenyRequire::Require && m.open_brace.inner is Some ==> none_of(
            root_lints(c, m),
            LintKind::ImplicitBraces,
        ),
        c.trailing_whitespace == AllowDeny::Deny && no_trailing_blanks(flat_object(m)) ==> none_of(
            root_lints(c, m),
            LintKind::TrailingWhitespace,
        ),
        c.missing_commas == AllowDeny::Deny && object_slots(m, |n, last| comma_present(n, last))
            ==> none_of(root_lints(c, m), LintKind::MissingComma),
        c.trailing_commas == AllowDenyRequire::Deny && object_slots(
            m,
            |n, last| no_trailing_comma(n, last),
        ) ==> none_of(root_lints(c, m), LintKind::TrailingComma),
        c.trailing_commas == AllowDenyRequire::Require && object_slots(
            m,
            |n, last| trailing_comma_present(n, last),
        ) ==> none_of(root_lints(c, m), LintKind::TrailingComma),
{
    lemma_object_blanks(c, m);
    let head = root_brace_lints(c, m);
    let body = object_lints(c, m);
    assert(none_of(head, LintKind::TrailingWhitespace));
    assert(none_of(head, LintKind::MissingComma));
    assert(none_of(head, LintKind::TrailingComma));
    if c.root_braces == AllowDenyRequire::Deny && m.open_brace.inner is None
        || c.root_braces == AllowDenyRequire::Require && m.open_brace.inner is Some {
        assert(head == Seq::<Lint>::empty());
        lemma_none_of_concat(head, body, LintKind::ImplicitBraces);
    }
    if c.trailing_whitespace == AllowDeny::Deny && no_trailing_blanks(flat_object(m)) {
        lemma_none_of_concat(head, body, LintKind::TrailingWhitespace);
    }
    let mc = |n: Node<Option<Span>>, last: bool| comma_present(n, last);
    if c.missing_commas == AllowDeny::Deny && object_slots(m, mc) {
        assert(slot_rule(c, LintKind::MissingComma, mc));
        lemma_object_slots(c, m, LintKind::MissingComma, mc);
        lemma_none_of_concat(head, body, LintKind::MissingComma);
    }
    let td = |n: Node<Option<Span>>, last: bool| no_trailing_comma(n, last);
    if c.trailing_commas == AllowDenyRequire::Deny && object_slots(m, td) {
        assert(slot_rule(c, LintKind::TrailingComma, td));
        lemma_object_slots(c, m, LintKind::TrailingComma, td);
        lemma_none_of_concat(head, body, LintKind::TrailingComma);
    }
    let tr = |n: Node<Option<Span>>, last: bool| trailing_comma_present(n, last);
    if c.trailing_commas == AllowDenyRequire::Require && object_slots(m, tr) {
        assert(slot_rule(c, LintKind::TrailingComma, tr));
        lemma_object_slots(c, m, LintKind::TrailingComma, tr);
        lemma_none_of_concat(head, body, LintKind::TrailingComma);
    }
}

} // verus!
