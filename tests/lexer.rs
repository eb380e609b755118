use hjson_lint::{token, tokenize, Context, Cursor, Span, Token, TokenKind, Tokens};

fn span(kind: TokenKind, line: usize, column: usize, byte_offset: usize, len: usize) -> Span {
    Span::new(kind, Cursor::new(line, column, byte_offset), len)
}

const TYPICAL: &str = "foo: bar\n'baz': https://example.com\n// comment\nkey: \"value\" // comment\nmultiline: '''\n    lots\n    of '\n    text\n'''\n";

#[test]
fn iter_typical() {
    let expected_tokens = [
        Token::new(TokenKind::TextUnquoted, 3),
        Token::new(TokenKind::Colon, 1),
        Token::new(TokenKind::Whitespace, 1),
        Token::new(TokenKind::TextUnquoted, 3),
        Token::new(TokenKind::NewLine, 1),
        Token::new(TokenKind::TextSingle, 5),
        Token::new(TokenKind::Colon, 1),
        Token::new(TokenKind::Whitespace, 1),
        Token::new(TokenKind::TextUnquoted, 19),
        Token::new(TokenKind::NewLine, 1),
        Token::new(TokenKind::LineComment, 10),
        Token::new(TokenKind::NewLine, 1),
        Token::new(TokenKind::TextUnquoted, 3),
        Token::new(TokenKind::Colon, 1),
        Token::new(TokenKind::Whitespace, 1),
        Token::new(TokenKind::TextDouble, 7),
        Token::new(TokenKind::Whitespace, 1),
        Token::new(TokenKind::LineComment, 10),
        Token::new(TokenKind::NewLine, 1),
        Token::new(TokenKind::TextUnquoted, 9),
        Token::new(TokenKind::Colon, 1),
        Token::new(TokenKind::Whitespace, 1),
        Token::new(TokenKind::TextMulti, 34),
        Token::new(TokenKind::NewLine, 1),
        Token::new(TokenKind::Eof, 0),
    ];
    let expected_cursors = [
        Cursor::new(1, 1, 0),
        Cursor::new(1, 4, 3),
        Cursor::new(1, 5, 4),
        Cursor::new(1, 6, 5),
        Cursor::new(1, 9, 8),
        Cursor::new(2, 1, 9),
        Cursor::new(2, 6, 14),
        Cursor::new(2, 7, 15),
        Cursor::new(2, 8, 16),
        Cursor::new(2, 27, 35),
        Cursor::new(3, 1, 36),
        Cursor::new(3, 11, 46),
        Cursor::new(4, 1, 47),
        Cursor::new(4, 4, 50),
        Cursor::new(4, 5, 51),
        Cursor::new(4, 6, 52),
        Cursor::new(4, 13, 59),
        Cursor::new(4, 14, 60),
        Cursor::new(4, 24, 70),
        Cursor::new(5, 1, 71),
        Cursor::new(5, 10, 80),
        Cursor::new(5, 11, 81),
        Cursor::new(5, 12, 82),
        Cursor::new(9, 4, 116),
        Cursor::new(10, 1, 117),
    ];
    let tokens = Tokens::parse(TYPICAL).collect();
    assert_eq!(tokens.len(), expected_tokens.len());
    for ((got, cursor), token) in tokens.iter().zip(expected_cursors).zip(expected_tokens) {
        assert_eq!(*got, Span::new(token.kind, cursor, token.len));
    }
}

#[test]
fn iter_string_not_number() {
    let tokens = Tokens::parse("foo: 20 apples").collect();
    let expected = [
        span(TokenKind::TextUnquoted, 1, 1, 0, 3),
        span(TokenKind::Colon, 1, 4, 3, 1),
        span(TokenKind::Whitespace, 1, 5, 4, 1),
        span(TokenKind::TextUnquoted, 1, 6, 5, 9),
        span(TokenKind::Eof, 1, 15, 14, 0),
    ];
    assert_eq!(tokens, expected.to_vec());
}

#[test]
fn iter_number_key() {
    let tokens = Tokens::parse("10: 'foo'").collect();
    let expected = [
        span(TokenKind::TextUnquoted, 1, 1, 0, 2),
        span(TokenKind::Colon, 1, 3, 2, 1),
        span(TokenKind::Whitespace, 1, 4, 3, 1),
        span(TokenKind::TextSingle, 1, 5, 4, 5),
        span(TokenKind::Eof, 1, 10, 9, 0),
    ];
    assert_eq!(tokens, expected.to_vec());
}

#[test]
fn eof_is_handed_out_once() {
    let mut lexer = Tokens::parse("a");
    assert_eq!(lexer.next(), Some(span(TokenKind::TextUnquoted, 1, 1, 0, 1)));
    assert_eq!(lexer.next(), Some(span(TokenKind::Eof, 1, 2, 1, 0)));
    assert_eq!(lexer.next(), None);
    assert_eq!(lexer.next(), None);
}

#[test]
fn unreadable_text_ends_the_stream() {
    // An unterminated quote matches no recogniser: no `Eof` follows.
    let tokens = tokenize("a: 'foo");
    assert_eq!(
        tokens,
        vec![
            span(TokenKind::TextUnquoted, 1, 1, 0, 1),
            span(TokenKind::Colon, 1, 2, 1, 1),
            span(TokenKind::Whitespace, 1, 3, 2, 1),
        ]
    );
}

#[test]
fn context_decides_keywords() {
    assert_eq!(token("true: 1", &Context::Key), Some(Token::new(TokenKind::TextUnquoted, 4)));
    assert_eq!(token("true", &Context::Value), Some(Token::new(TokenKind::Boolean, 4)));
    assert_eq!(token("10: x", &Context::Key), Some(Token::new(TokenKind::TextUnquoted, 2)));
    assert_eq!(token("10", &Context::Value), Some(Token::new(TokenKind::Integer, 2)));
    assert_eq!(token("nullable", &Context::Value), Some(Token::new(TokenKind::Null, 4)));
    assert_eq!(token("a b  \n", &Context::Value), Some(Token::new(TokenKind::TextUnquoted, 3)));
    assert_eq!(token("'x", &Context::Value), None);
}

#[test]
fn context_after_trivia_is_kept() {
    let tokens = tokenize("a: # c\n  true");
    let kinds: Vec<TokenKind> = tokens.iter().map(|s| s.kind).collect();
    assert_eq!(
        kinds,
        vec![
            TokenKind::TextUnquoted,
            TokenKind::Colon,
            TokenKind::Whitespace,
            TokenKind::HashComment,
            TokenKind::NewLine,
            TokenKind::Whitespace,
            TokenKind::Boolean,
            TokenKind::Eof,
        ]
    );
}

#[test]
fn tokens_cover_the_input_exactly() {
    for input in [TYPICAL, "", "{ 'a': [1, 2.5e3, null]\n  /* c */ b: x y  \n}\t", "k: '''\nx\n'''"] {
        let tokens = tokenize(input);
        assert_eq!(tokens.last().map(|s| s.kind), Some(TokenKind::Eof));
        let mut rebuilt = String::new();
        for s in &tokens {
            rebuilt.push_str(&input[s.start.byte_offset..s.start.byte_offset + s.len]);
        }
        assert_eq!(rebuilt, input);
    }
}

#[test]
fn tokens_are_contiguous() {
    let tokens = tokenize(TYPICAL);
    assert_eq!(tokens[0].start, Cursor::new(1, 1, 0));
    for pair in tokens.windows(2) {
        assert_eq!(pair[1].start.byte_offset, pair[0].start.byte_offset + pair[0].len);
    }
    assert_eq!(tokens.last().unwrap().start.byte_offset, TYPICAL.len());
}

#[test]
fn cursor_starts_at_line_one_column_one() {
    assert_eq!(Cursor::default(), Cursor::new(1, 1, 0));
    assert_eq!(Cursor::start(), Cursor::default());
    assert_eq!(TokenKind::Comma.with_len(1), Token::new(TokenKind::Comma, 1));
}
