//! The concrete syntax tree: every significant token together with the
//! trivia (whitespace, newlines, comments) around it.
use vstd::prelude::*;
use crate::lexer::is_trivia;
use crate::token::{Span, TokenKind};

verus! {

/// A significant element with the trivia before and after it.
#[derive(Debug)]
pub struct Node<T> {
    pub before: Vec<Span>,
    pub inner: T,
    pub after: Vec<Span>,
}

impl<T> Node<T> {
    pub fn new(before: Vec<Span>, inner: T, after: Vec<Span>) -> (r: Node<T>)
        ensures
            r.before@ == before@,
            r.inner == inner,
            r.after@ == after@,
    {
        Node { before, inner, after }
    }
}

/// An object (a map). Only the root object may leave out its braces.
#[derive(Debug)]
pub struct Object {
    pub open_brace: Node<Option<Span>>,
    pub members: Vec<Node<MapMember>>,
    pub close_brace: Node<Option<Span>>,
}

/// One `key: value` of a map, with the comma after it if there is one.
#[derive(Debug)]
pub struct MapMember {
    pub key: Span,
    pub colon: Node<Span>,
    pub value: Value,
    pub comma: Node<Option<Span>>,
}

/// An array, with both brackets.
#[derive(Debug)]
pub struct Array {
    pub open_bracket: Node<Span>,
    pub members: Vec<Node<ArrayMember>>,
    pub close_bracket: Node<Span>,
}

/// One value of an array, with the comma after it if there is one.
#[derive(Debug)]
pub struct ArrayMember {
    pub value: Value,
    pub comma: Node<Option<Span>>,
}

/// A value: a map, an array, or one scalar token.
#[derive(Debug)]
pub enum Value {
    Object(Object),
    Array(Array),
    Value(Span),
}

pub open spec fn opt_spans(o: Option<Span>) -> Seq<Span> {
    match o {
        Some(s) => seq![s],
        None => seq![],
    }
}

pub open spec fn flat_opt(n: Node<Option<Span>>) -> Seq<Span> {
    n.before@ + opt_spans(n.inner) + n.after@
}

pub open spec fn flat_one(n: Node<Span>) -> Seq<Span> {
    n.before@ + seq![n.inner] + n.after@
}

/// Every token of a map, in document order.
pub open spec fn flat_object(m: Object) -> Seq<Span>
    decreases m,
{
    flat_opt(m.open_brace) + flat_map_members(m.members@) + flat_opt(m.close_brace)
}

pub open spec fn flat_map_members(ms: Seq<Node<MapMember>>) -> Seq<Span>
    decreases ms,
{
    if ms.len() == 0 {
        seq![]
    } else {
        flat_map_members(ms.drop_last()) + flat_map_member(ms.last())
    }
}

pub open spec fn flat_map_member(n: Node<MapMember>) -> Seq<Span>
    decreases n,
{
    n.before@ + seq![n.inner.key] + flat_one(n.inner.colon) + flat_value(n.inner.value) + flat_opt(
        n.inner.comma,
    ) + n.after@
}

/// Every token of an array, in document order.
pub open spec fn flat_array(a: Array) -> Seq<Span>
    decreases a,
{
    flat_one(a.open_bracket) + flat_array_members(a.members@) + flat_one(a.close_bracket)
}

pub open spec fn flat_array_members(ms: Seq<Node<ArrayMember>>) -> Seq<Span>
    decreases ms,
{
    if ms.len() == 0 {
        seq![]
    } else {
        flat_array_members(ms.drop_last()) + flat_array_member(ms.last())
    }
}

pub open spec fn flat_array_member(n: Node<ArrayMember>) -> Seq<Span>
    decreases n,
{
    n.before@ + flat_value(n.inner.value) + flat_opt(n.inner.comma) + n.after@
}

/// Every token of a value, in document order.
pub open spec fn flat_value(v: Value) -> Seq<Span>
    decreases v,
{
    match v {
        Value::Object(m) => flat_object(m),
        Value::Array(a) => flat_array(a),
        Value::Value(s) => seq![s],
    }
}

} // verus!
