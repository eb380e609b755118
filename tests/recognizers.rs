use hjson_lint::{
    Boolean, Comment, Key, Null, Number, Symbol, Text, Token, TokenKind, Whitespace,
};

fn tok(kind: TokenKind, len: usize) -> Option<Token> {
    Some(Token::new(kind, len))
}

#[test]
fn boolean_boolean() {
    assert_eq!(Boolean::parse("true"), tok(TokenKind::Boolean, 4));
    assert_eq!(Boolean::parse("false"), tok(TokenKind::Boolean, 5));
    assert_eq!(Boolean::parse("true "), tok(TokenKind::Boolean, 4));
    assert_eq!(Boolean::parse(" true"), None);
    assert_eq!(Boolean::parse(""), None);
}

#[test]
fn keyword_boolean() {
    assert_eq!(Boolean::parse("true"), Some(TokenKind::Boolean.with_len(4)));
    assert_eq!(Boolean::parse("false"), Some(TokenKind::Boolean.with_len(5)));
    assert_eq!(Boolean::parse("true "), Some(TokenKind::Boolean.with_len(4)));
}

#[test]
fn keyword_null() {
    assert_eq!(Null::parse("null"), Some(TokenKind::Null.with_len(4)));
    assert_eq!(Null::parse("null "), Some(TokenKind::Null.with_len(4)));
}

#[test]
fn keyword_invalid() {
    for input in ["foo", " true", ""] {
        assert_eq!(Boolean::parse(input), None);
        assert_eq!(Null::parse(input), None);
    }
}

#[test]
fn null_null() {
    assert_eq!(Null::parse("null"), tok(TokenKind::Null, 4));
    assert_eq!(Null::parse("null "), tok(TokenKind::Null, 4));
    assert_eq!(Null::parse(" null"), None);
    assert_eq!(Null::parse(""), None);
}

#[test]
fn comment_line() {
    assert_eq!(Comment::parse("//"), tok(TokenKind::LineComment, 2));
    assert_eq!(Comment::parse("// foo"), tok(TokenKind::LineComment, 6));
    assert_eq!(Comment::parse("//\nbar\n"), tok(TokenKind::LineComment, 2));
    assert_eq!(Comment::parse("// foo\nbar\n"), tok(TokenKind::LineComment, 6));
}

#[test]
fn comment_block() {
    assert_eq!(Comment::parse("/**/"), tok(TokenKind::BlockComment, 4));
    assert_eq!(Comment::parse("/* foo */"), tok(TokenKind::BlockComment, 9));
    assert_eq!(Comment::parse("/* foo\nbar */\n"), tok(TokenKind::BlockComment, 13));
    assert_eq!(Comment::parse("/* foo */\nbar\n"), tok(TokenKind::BlockComment, 9));
}

#[test]
fn comment_hash() {
    assert_eq!(Comment::parse("#"), tok(TokenKind::HashComment, 1));
    assert_eq!(Comment::parse("# foo"), tok(TokenKind::HashComment, 5));
    assert_eq!(Comment::parse("#\nbar\n"), tok(TokenKind::HashComment, 1));
    assert_eq!(Comment::parse("# foo\nbar\n"), tok(TokenKind::HashComment, 5));
}

#[test]
fn comment_unclosed() {
    assert_eq!(Comment::parse("/* foo"), None);
    assert_eq!(Comment::parse("/*/"), None);
}

#[test]
fn key_single_quote() {
    assert_eq!(Key::parse("''"), tok(TokenKind::TextSingle, 2));
    assert_eq!(Key::parse("'foo'"), tok(TokenKind::TextSingle, 5));
    assert_eq!(Key::parse("'a'b"), tok(TokenKind::TextSingle, 3));
    assert_eq!(Key::parse(r#"'a\'b'"#), tok(TokenKind::TextSingle, 6));
}

#[test]
fn key_double_quote() {
    assert_eq!(Key::parse(r#""""#), tok(TokenKind::TextDouble, 2));
    assert_eq!(Key::parse(r#""foo""#), tok(TokenKind::TextDouble, 5));
    assert_eq!(Key::parse(r#""a"b"#), tok(TokenKind::TextDouble, 3));
    assert_eq!(Key::parse(r#""a\"b""#), tok(TokenKind::TextDouble, 6));
}

#[test]
fn key_unquoted() {
    assert_eq!(Key::parse("foo"), tok(TokenKind::TextUnquoted, 3));
    assert_eq!(Key::parse("foo.bar"), tok(TokenKind::TextUnquoted, 7));
    assert_eq!(Key::parse("foo_bar"), tok(TokenKind::TextUnquoted, 7));
    assert_eq!(Key::parse("foo "), tok(TokenKind::TextUnquoted, 3));
    assert_eq!(Key::parse("foo\t"), tok(TokenKind::TextUnquoted, 3));
    assert_eq!(Key::parse("foo\nbar\n"), tok(TokenKind::TextUnquoted, 3));
    assert_eq!(Key::parse("foo bar"), tok(TokenKind::TextUnquoted, 3));
    assert_eq!(Key::parse("foo,bar"), tok(TokenKind::TextUnquoted, 3));
    assert_eq!(Key::parse("foo:bar"), tok(TokenKind::TextUnquoted, 3));
    assert_eq!(Key::parse("foo[bar"), tok(TokenKind::TextUnquoted, 3));
    assert_eq!(Key::parse("foo]bar"), tok(TokenKind::TextUnquoted, 3));
    assert_eq!(Key::parse("foo{bar"), tok(TokenKind::TextUnquoted, 3));
    assert_eq!(Key::parse("foo}bar"), tok(TokenKind::TextUnquoted, 3));
}

#[test]
fn key_unclosed() {
    assert_eq!(Key::parse("'foo"), None);
    assert_eq!(Key::parse(r#""foo"#), None);
}

#[test]
fn number_float() {
    let cases = [
        "123.456",
        "-123.456",
        "0.0",
        "0.123",
        "-0.123",
        "123.456e789",
        "123.456E789",
        "123.456e+789",
        "123.456E+789",
        "123.456e-789",
        "123.456E-789",
    ];
    for case in cases {
        assert_eq!(Number::parse(case), tok(TokenKind::Float, case.len()));
    }
    // An exponent only follows a fraction: without one, the text is not a
    // number.
    for case in ["123e456", "123E456", "123e+456", "123E+456", "123e-456", "123E-456"] {
        assert_eq!(Number::parse(case), None);
    }
    let partial_cases = [
        "123.123e",
        "123.123E",
        "123.123+",
        "123.123-",
        "123.123e+",
        "123.123E+",
        "123.123e-",
        "123.123E-",
    ];
    for case in partial_cases {
        assert_eq!(Number::parse(case), None);
    }
}

#[test]
fn number_integer() {
    for case in ["0", "-0", "123", "-123"] {
        assert_eq!(Number::parse(case), tok(TokenKind::Integer, case.len()));
    }
    for case in ["0123", "123e", "123E", "123.", "123.e", "123.E"] {
        assert_eq!(Number::parse(case), None);
    }
}

#[test]
fn number_invalid() {
    let bad_cases = [
        "-", "+123", "0123", "-0123", "123.", "0.", "-0.", ".123", "-.123", "123.e123", "123.E123",
        "123e", "123E", "123.123e", "123.123E", "123.123e+", "123.123E+", "123.123e-", "123.123E-",
    ];
    for case in bad_cases {
        assert_eq!(Number::parse(case), None);
    }
}

#[test]
fn number_terminate() {
    assert!(Number::parse("5 ").is_some());
    assert!(Number::parse("5}").is_some());
    assert!(Number::parse("5 }").is_some());
    assert!(Number::parse("5  \t}").is_some());
}

#[test]
fn number_followed_by_text_is_rejected() {
    assert_eq!(Number::parse("20 apples"), None);
    assert_eq!(Number::parse("20\napples"), tok(TokenKind::Integer, 2));
    assert_eq!(Number::parse("-1.5e3,"), tok(TokenKind::Float, 6));
}

#[test]
fn symbol_valid() {
    let symbols = [
        ("{", TokenKind::OpenBrace),
        ("}", TokenKind::CloseBrace),
        ("[", TokenKind::OpenBracket),
        ("]", TokenKind::CloseBracket),
        (":", TokenKind::Colon),
        (",", TokenKind::Comma),
    ];
    for (s, symbol) in symbols {
        assert_eq!(Symbol::parse(s), tok(symbol, 1));
    }
}

#[test]
fn symbol_invalid() {
    for invalid in ["!", " {", "x"] {
        assert_eq!(Symbol::parse(invalid), None);
    }
}

#[test]
fn text_single_quote() {
    assert_eq!(Text::parse("''"), tok(TokenKind::TextSingle, 2));
    assert_eq!(Text::parse("'foo'"), tok(TokenKind::TextSingle, 5));
    assert_eq!(Text::parse("'a'b"), tok(TokenKind::TextSingle, 3));
    assert_eq!(Text::parse(r#"'a\'b'"#), tok(TokenKind::TextSingle, 6));
}

#[test]
fn text_double_quote() {
    assert_eq!(Text::parse(r#""""#), tok(TokenKind::TextDouble, 2));
    assert_eq!(Text::parse(r#""foo""#), tok(TokenKind::TextDouble, 5));
    assert_eq!(Text::parse(r#""a"b"#), tok(TokenKind::TextDouble, 3));
    assert_eq!(Text::parse(r#""a\"b""#), tok(TokenKind::TextDouble, 6));
}

#[test]
fn text_multi_line() {
    assert_eq!(Text::parse("'''foo'''"), tok(TokenKind::TextMulti, 9));
    assert_eq!(Text::parse("'''\nfoo\n'''\n"), tok(TokenKind::TextMulti, 11));
    assert_eq!(Text::parse("'''a'''b"), tok(TokenKind::TextMulti, 7));
    assert_eq!(Text::parse(r#"'''a\'b'''"#), tok(TokenKind::TextMulti, 10));
}

#[test]
fn text_unquoted() {
    assert_eq!(Text::parse("foo"), tok(TokenKind::TextUnquoted, 3));
    assert_eq!(Text::parse("foo "), tok(TokenKind::TextUnquoted, 3));
    assert_eq!(Text::parse("foo\t"), tok(TokenKind::TextUnquoted, 3));
    assert_eq!(Text::parse("foo\nbar\n"), tok(TokenKind::TextUnquoted, 3));
}

#[test]
fn text_unclosed() {
    assert_eq!(Text::parse("'foo"), None);
    assert_eq!(Text::parse(r#""foo"#), None);
    assert_eq!(Text::parse("'''foo"), None);
}

#[test]
fn whitespace_whitespace() {
    assert_eq!(Whitespace::parse(" "), tok(TokenKind::Whitespace, 1));
    assert_eq!(Whitespace::parse("\t"), tok(TokenKind::Whitespace, 1));
    assert_eq!(Whitespace::parse("\n"), tok(TokenKind::NewLine, 1));
    assert_eq!(Whitespace::parse(" \t\n"), tok(TokenKind::Whitespace, 2));
    assert_eq!(Whitespace::parse("a \t\n"), None);
    // The end of input is not whitespace: the lexer gives it its own token.
    assert_eq!(Whitespace::parse(""), None);
    let eof = hjson_lint::tokenize("");
    assert_eq!(eof.len(), 1);
    assert_eq!(eof[0].kind, TokenKind::Eof);
    assert_eq!(eof[0].len, 0);
}
