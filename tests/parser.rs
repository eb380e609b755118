use hjson_lint::{
    tokenize, Cursor, Expected, Node, Object, ParseError, Parser, Span, TokenKind, Value,
};

fn push_opt(out: &mut Vec<Span>, n: &Node<Option<Span>>) {
    out.extend(n.before.iter().copied());
    out.extend(n.inner.iter().copied());
    out.extend(n.after.iter().copied());
}

fn push_one(out: &mut Vec<Span>, n: &Node<Span>) {
    out.extend(n.before.iter().copied());
    out.push(n.inner);
    out.extend(n.after.iter().copied());
}

fn push_value(out: &mut Vec<Span>, v: &Value) {
    match v {
        Value::Object(m) => push_object(out, m),
        Value::Array(a) => {
            push_one(out, &a.open_bracket);
            for n in &a.members {
                out.extend(n.before.iter().copied());
                push_value(out, &n.inner.value);
                push_opt(out, &n.inner.comma);
                out.extend(n.after.iter().copied());
            }
            push_one(out, &a.close_bracket);
        }
        Value::Value(s) => out.push(*s),
    }
}

fn push_object(out: &mut Vec<Span>, m: &Object) {
    push_opt(out, &m.open_brace);
    for n in &m.members {
        out.extend(n.before.iter().copied());
        out.push(n.inner.key);
        push_one(out, &n.inner.colon);
        push_value(out, &n.inner.value);
        push_opt(out, &n.inner.comma);
        out.extend(n.after.iter().copied());
    }
    push_opt(out, &m.close_brace);
}

fn flatten(m: &Object) -> Vec<Span> {
    let mut out = Vec::new();
    push_object(&mut out, m);
    out
}

#[test]
fn tree_holds_every_token_once() {
    let inputs = [
        "'foo': 3",
        "{\n}",
        "  # head\n{ a: [1, 2,\n 3 ] // tail\n  b: { c: 'x y z' }\n}\n  ",
        "a: '''\nmulti\n'''\nb: [\n]\n",
        "x: -1.5e3,\n",
    ];
    for input in inputs {
        let tree = Parser::parse(input).unwrap();
        assert_eq!(flatten(&tree), tokenize(input));
        let mut rebuilt = String::new();
        for s in flatten(&tree) {
            rebuilt.push_str(&input[s.start.byte_offset..s.start.byte_offset + s.len]);
        }
        assert_eq!(rebuilt, input);
    }
}

#[test]
fn root_braces_are_optional() {
    let bare = Parser::parse("a: 1\nb: 2").unwrap();
    assert!(bare.open_brace.inner.is_none());
    assert!(bare.close_brace.inner.is_none());
    assert_eq!(bare.members.len(), 2);
    let braced = Parser::parse("{ a: 1, b: 2 }").unwrap();
    assert_eq!(braced.open_brace.inner.map(|s| s.kind), Some(TokenKind::OpenBrace));
    assert_eq!(braced.close_brace.inner.map(|s| s.kind), Some(TokenKind::CloseBrace));
    assert_eq!(braced.members.len(), 2);
    assert!(braced.members[0].inner.comma.inner.is_some());
    assert!(braced.members[1].inner.comma.inner.is_none());
}

#[test]
fn values_are_classified() {
    let tree = Parser::parse("a: true\nb: [null, 'x']\nc: {d: 1}\ne: 2.5\n").unwrap();
    let kinds: Vec<&str> = tree
        .members
        .iter()
        .map(|n| match &n.inner.value {
            Value::Object(_) => "object",
            Value::Array(_) => "array",
            Value::Value(s) if s.kind == TokenKind::Boolean => "boolean",
            Value::Value(s) if s.kind == TokenKind::Float => "float",
            Value::Value(_) => "other",
        })
        .collect();
    assert_eq!(kinds, vec!["boolean", "array", "object", "float"]);
}

fn error(input: &str) -> ParseError {
    Parser::parse(input).unwrap_err()
}

#[test]
fn missing_colon_is_an_error() {
    let e = error("'foo' 3");
    assert_eq!(e.expected, Expected::Token(TokenKind::Colon));
    assert_eq!(e.got, Some(TokenKind::TextUnquoted));
    assert_eq!(e.cursor, Cursor::new(1, 7, 6));
}

#[test]
fn missing_value_is_an_error() {
    let e = error("'a': ");
    assert_eq!(e.expected, Expected::Value);
    assert_eq!(e.got, Some(TokenKind::Eof));
    assert_eq!(e.cursor, Cursor::new(1, 6, 5));
}

#[test]
fn missing_close_brace_is_an_error() {
    let e = error("{'a': 1");
    assert_eq!(e.expected, Expected::Token(TokenKind::CloseBrace));
    assert_eq!(e.got, Some(TokenKind::Eof));
    assert_eq!(e.cursor, Cursor::new(1, 8, 7));
}

#[test]
fn missing_close_bracket_is_an_error() {
    let e = error("'a': [1");
    assert_eq!(e.expected, Expected::Token(TokenKind::CloseBracket));
    assert_eq!(e.got, Some(TokenKind::Eof));
}

#[test]
fn text_after_the_root_is_an_error() {
    let e = error("'a': 1 }");
    assert_eq!(e.expected, Expected::Token(TokenKind::Eof));
    assert_eq!(e.got, Some(TokenKind::CloseBrace));
    assert_eq!(e.cursor, Cursor::new(1, 8, 7));
}

#[test]
fn unreadable_text_is_an_error() {
    let e = error("'a");
    assert_eq!(e.got, None);
    assert_eq!(e.cursor, Cursor::new(1, 1, 0));
    let e = error("a: 1\nb: 'x");
    assert_eq!(e.expected, Expected::Value);
    assert_eq!(e.got, None);
    assert_eq!(e.cursor, Cursor::new(2, 4, 8));
}
