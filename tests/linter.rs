use hjson_lint::{AllowDeny, AllowDenyRequire, Config, Cursor, Lint, LintKind, LintSpan, Linter};

fn lint(kind: LintKind, line: usize, column: usize, byte_offset: usize, len: usize) -> Lint {
    Lint { kind, span: LintSpan { start: Cursor { line, column, byte_offset }, len } }
}

fn trailing_ws(line: usize, column: usize, byte_offset: usize, len: usize) -> Lint {
    lint(LintKind::TrailingWhitespace, line, column, byte_offset, len)
}

#[test]
fn allow_trailing_whitespace() {
    let conf = Config { trailing_whitespace: AllowDeny::Allow, ..Default::default() };
    assert!(Linter::lint(conf, "'foo': 3").unwrap().is_empty());
    assert!(Linter::lint(conf, "'foo': 3  \t").unwrap().is_empty());
}

#[test]
fn deny_trailing_whitespace() {
    let conf = Config { trailing_whitespace: AllowDeny::Deny, ..Default::default() };
    // No trailing whitespace.
    assert_eq!(Linter::lint(conf, "'foo': 3").unwrap(), Vec::new());
    // New lines don't count as trailing whitespace.
    assert_eq!(Linter::lint(conf, "'foo': 3\n'bar': 5").unwrap(), Vec::new());
    // Trailing whitespace terminated by EOF.
    assert_eq!(
        Linter::lint(conf, "'foo': 3  \t").unwrap(),
        vec![lint(LintKind::TrailingWhitespace, 1, 9, 8, 3)]
    );
    // Trailing whitespace terminated by new line.
    assert_eq!(
        Linter::lint(conf, "'foo': 3  \t\n'bar': 5").unwrap(),
        vec![lint(LintKind::TrailingWhitespace, 1, 9, 8, 3)]
    );
    // Not trailing whitespace if it's closed by the map on the same line.
    assert_eq!(Linter::lint(conf, "{ 'foo': 3  \t}").unwrap(), Vec::new());
}

#[test]
fn allow_root_braces() {
    let conf = Config { root_braces: AllowDenyRequire::Allow, ..Default::default() };
    assert!(Linter::lint(conf, "{ 'foo': 3 }").unwrap().is_empty());
    assert!(Linter::lint(conf, "'foo': 3").unwrap().is_empty());
}

#[test]
fn deny_root_braces() {
    let conf = Config { root_braces: AllowDenyRequire::Deny, ..Default::default() };
    assert_eq!(Linter::lint(conf, "'foo': 3").unwrap(), Vec::new());
    assert_eq!(
        Linter::lint(conf, "{ 'foo': 3 }").unwrap(),
        vec![lint(LintKind::ImplicitBraces, 1, 1, 0, 1)]
    );
}

#[test]
fn require_root_braces() {
    let conf = Config { root_braces: AllowDenyRequire::Require, ..Default::default() };
    assert_eq!(Linter::lint(conf, "{ 'foo': 3 }").unwrap(), Vec::new());
    assert_eq!(
        Linter::lint(conf, "'foo': 3").unwrap(),
        vec![lint(LintKind::ImplicitBraces, 1, 1, 0, 0)]
    );
}

// The default configuration denies trailing whitespace, so blanks before a
// newline are reported beside the rule under test.
#[test]
fn allow_trailing_commas() {
    let conf = Config { trailing_commas: AllowDenyRequire::Allow, ..Default::default() };
    assert!(Linter::lint(conf, "'foo': 3").unwrap().is_empty());
    assert!(Linter::lint(conf, "'foo': 3,").unwrap().is_empty());
    assert!(Linter::lint(conf, "{ 'foo': 3 }").unwrap().is_empty());
    assert!(Linter::lint(conf, "{ 'foo': 3, }").unwrap().is_empty());
    assert!(Linter::lint(conf, "'foo': 3\n").unwrap().is_empty());
    assert_eq!(Linter::lint(conf, "'foo': 3 \t\n").unwrap(), vec![trailing_ws(1, 9, 8, 2)]);
    assert!(Linter::lint(conf, "'foo': 3,\n").unwrap().is_empty());
    assert_eq!(Linter::lint(conf, "'foo': 3, \t\n").unwrap(), vec![trailing_ws(1, 10, 9, 2)]);
    assert!(Linter::lint(conf, "'a': [ 3 ]").unwrap().is_empty());
    assert!(Linter::lint(conf, "'a': [ 3, ]").unwrap().is_empty());
    assert!(Linter::lint(conf, "'a': [ 3\n]").unwrap().is_empty());
    assert_eq!(Linter::lint(conf, "'a': [ 3 \t\n]").unwrap(), vec![trailing_ws(1, 9, 8, 2)]);
    assert!(Linter::lint(conf, "'a': [ 3,\n]").unwrap().is_empty());
    assert_eq!(Linter::lint(conf, "'a': [ 3, \t\n]").unwrap(), vec![trailing_ws(1, 10, 9, 2)]);
}

#[test]
fn deny_trailing_commas() {
    let conf = Config { trailing_commas: AllowDenyRequire::Deny, ..Default::default() };

    // No trailing commas for maps.
    assert!(Linter::lint(conf, "'foo': 3").unwrap().is_empty());
    assert_eq!(Linter::lint(conf, "'foo': 3 \t\n").unwrap(), vec![trailing_ws(1, 9, 8, 2)]);
    assert!(Linter::lint(conf, "{ 'foo': 3 \t}").unwrap().is_empty());
    assert!(Linter::lint(conf, "{ 'foo': 3,\n'bar': 5\n}").unwrap().is_empty());

    // No trailing commas for arrays.
    assert!(Linter::lint(conf, "'a': [ 3 ]").unwrap().is_empty());
    assert!(Linter::lint(conf, "'a': [ 3\n]").unwrap().is_empty());
    assert_eq!(Linter::lint(conf, "'a': [ 3 \t\n]").unwrap(), vec![trailing_ws(1, 9, 8, 2)]);
    assert!(Linter::lint(conf, "'a': [ 3, 5 ]").unwrap().is_empty());
    assert!(Linter::lint(conf, "'a': [ 3,\n5\n]").unwrap().is_empty());
    assert_eq!(Linter::lint(conf, "'a': [ 3, 5 \t\n]").unwrap(), vec![trailing_ws(1, 12, 11, 2)]);

    // Single map member with trailing comma.
    assert_eq!(
        Linter::lint(conf, "'foo': 3,").unwrap(),
        vec![lint(LintKind::TrailingComma, 1, 9, 8, 1)]
    );
    // Two map members, only one comma is trailing.
    assert_eq!(
        Linter::lint(conf, "'foo': 3,\n'bar': 5,").unwrap(),
        vec![lint(LintKind::TrailingComma, 2, 9, 18, 1)]
    );
    // Single array member with a trailing comma.
    assert_eq!(
        Linter::lint(conf, "'a': [\n3,\n]").unwrap(),
        vec![lint(LintKind::TrailingComma, 2, 2, 8, 1)]
    );
    // Two array members, only one comma is trailing.
    assert_eq!(
        Linter::lint(conf, "'a': [\n3,\n5,\n]").unwrap(),
        vec![lint(LintKind::TrailingComma, 3, 2, 11, 1)]
    );

    // Trailing commas closed on the same line are not checked.
    assert_eq!(Linter::lint(conf, "{ 'foo': 3, }").unwrap(), Vec::new());
    assert_eq!(Linter::lint(conf, "{ 'a': [ 3, ] }").unwrap(), Vec::new());
}

#[test]
fn require_trailing_commas() {
    let conf = Config { trailing_commas: AllowDenyRequire::Require, ..Default::default() };

    // Trailing comma provided.
    assert!(Linter::lint(conf, "{ 'foo': 3,\n}").unwrap().is_empty());
    assert_eq!(Linter::lint(conf, "{ 'foo': 3, \t\n}").unwrap(), vec![trailing_ws(1, 12, 11, 2)]);
    assert!(Linter::lint(conf, "{ 'a': [ 3,\n] }").unwrap().is_empty());
    assert_eq!(Linter::lint(conf, "{ 'a': [ 3, \t\n] }").unwrap(), vec![trailing_ws(1, 12, 11, 2)]);

    let missing = lint(LintKind::TrailingComma, 1, 9, 8, 0);
    let lints = vec![missing];
    // One map member, trailing comma not provided.
    assert_eq!(Linter::lint(conf, "'foo': 3").unwrap(), lints);
    assert_eq!(Linter::lint(conf, "'foo': 3\n").unwrap(), lints);
    assert_eq!(Linter::lint(conf, "'foo': 3 \t\n").unwrap(), vec![trailing_ws(1, 9, 8, 2), missing]);
    // One array member, trailing comma not provided.
    assert_eq!(Linter::lint(conf, "'a': [ 3\n],").unwrap(), lints);
    assert_eq!(Linter::lint(conf, "'a': [ 3 \t\n],").unwrap(), vec![trailing_ws(1, 9, 8, 2), missing]);

    let missing = lint(LintKind::TrailingComma, 2, 7, 14, 0);
    let lints = vec![missing];
    // Two map members, trailing comma not provided.
    assert_eq!(Linter::lint(conf, "'x': 3,\n'y': 5").unwrap(), lints);
    assert_eq!(Linter::lint(conf, "'x': 3,\n'y': 5\n").unwrap(), lints);
    assert_eq!(
        Linter::lint(conf, "'x': 3,\n'y': 5 \t\n").unwrap(),
        vec![trailing_ws(2, 7, 14, 2), missing]
    );

    let missing = lint(LintKind::TrailingComma, 2, 2, 14, 0);
    let lints = vec![missing];
    // Two array members, trailing comma not provided.
    assert_eq!(Linter::lint(conf, "'a': [ 1234,\n5\n],").unwrap(), lints);
    assert_eq!(
        Linter::lint(conf, "'a': [ 1234,\n5 \t\n],").unwrap(),
        vec![trailing_ws(2, 2, 14, 2), missing]
    );

    // Trailing commas closed on the same line are not checked.
    assert_eq!(Linter::lint(conf, "{ 'foo': 3 }").unwrap(), Vec::new());
    assert_eq!(Linter::lint(conf, "{ 'a': [ 3 ] }").unwrap(), Vec::new());
}

#[test]
fn allow_missing_commas() {
    let conf = Config { missing_commas: AllowDeny::Allow, ..Default::default() };
    assert!(Linter::lint(conf, "'x': 3, 'y': 5").unwrap().is_empty());
    assert!(Linter::lint(conf, "'x': 3,\n'y': 5").unwrap().is_empty());
    assert!(Linter::lint(conf, "'x': 3\n'y': 5").unwrap().is_empty());
}

#[test]
fn deny_missing_commas() {
    let conf = Config { missing_commas: AllowDeny::Deny, ..Default::default() };

    // No missing commas.
    assert!(Linter::lint(conf, "'x': 3, 'y': 5").unwrap().is_empty());
    assert!(Linter::lint(conf, "'x': 3,\n'y': 5").unwrap().is_empty());

    let missing = lint(LintKind::MissingComma, 1, 7, 6, 0);
    // Missing comma (implicit by newline).
    assert_eq!(Linter::lint(conf, "'x': 3\n'y': 5").unwrap(), vec![missing]);
    assert_eq!(
        Linter::lint(conf, "'x': 3 \t\n'y': 5").unwrap(),
        vec![trailing_ws(1, 7, 6, 2), missing]
    );
}

#[test]
fn missing_comma_between_members_on_one_line() {
    let conf = Config { missing_commas: AllowDeny::Deny, ..Default::default() };
    // No trivia at all between the array and the next key: the comma would
    // go right before the key.
    assert_eq!(
        Linter::lint(conf, "'a': [1]'b': 2").unwrap(),
        vec![lint(LintKind::MissingComma, 1, 9, 8, 0)]
    );
    assert_eq!(
        Linter::lint(conf, "'a': [1\n2]").unwrap(),
        vec![lint(LintKind::MissingComma, 1, 8, 7, 0)]
    );
}

#[test]
fn default_config_quoted_member_is_clean() {
    assert_eq!(Linter::lint(Config::default(), "'foo': 3").unwrap(), Vec::new());
}

#[test]
fn trailing_blanks_before_end_of_input() {
    assert_eq!(
        Linter::lint(Config::default(), "'foo': 3  \t").unwrap(),
        vec![lint(LintKind::TrailingWhitespace, 1, 9, 8, 3)]
    );
}

#[test]
fn denied_root_braces_span_the_first_brace() {
    let conf = Config { root_braces: AllowDenyRequire::Deny, ..Default::default() };
    assert_eq!(
        Linter::lint(conf, "{ 'foo': 3 }").unwrap(),
        vec![lint(LintKind::ImplicitBraces, 1, 1, 0, 1)]
    );
}

#[test]
fn required_root_braces_after_leading_trivia() {
    let conf = Config { root_braces: AllowDenyRequire::Require, ..Default::default() };
    assert_eq!(
        Linter::lint(conf, "'foo': 3").unwrap(),
        vec![lint(LintKind::ImplicitBraces, 1, 1, 0, 0)]
    );
    // After a newline, the brace would open the next line.
    assert_eq!(
        Linter::lint(conf, "# head\n'foo': 3").unwrap(),
        vec![lint(LintKind::ImplicitBraces, 2, 1, 7, 0)]
    );
    // Otherwise it would follow the last trivia.
    assert_eq!(
        Linter::lint(conf, "/* c */'foo': 3").unwrap(),
        vec![lint(LintKind::ImplicitBraces, 1, 8, 7, 0)]
    );
}

#[test]
fn required_trailing_comma_right_after_last_value() {
    let conf = Config { trailing_commas: AllowDenyRequire::Require, ..Default::default() };
    assert_eq!(
        Linter::lint(conf, "'x': 3,\n'y': 5").unwrap(),
        vec![lint(LintKind::TrailingComma, 2, 7, 14, 0)]
    );
}

#[test]
fn strict_config_reports_every_relaxation() {
    let conf = Config::strict();
    assert_eq!(conf.root_braces, AllowDenyRequire::Require);
    assert_eq!(conf.missing_commas, AllowDeny::Deny);
    assert_eq!(
        Linter::lint(conf, "'x': 3\n'y': 5,\n").unwrap(),
        vec![
            lint(LintKind::ImplicitBraces, 1, 1, 0, 0),
            lint(LintKind::MissingComma, 1, 7, 6, 0),
            lint(LintKind::TrailingComma, 2, 7, 13, 1),
        ]
    );
    assert_eq!(Linter::lint(conf, "{\n  \"x\": 3,\n  \"y\": 5\n}\n").unwrap(), Vec::new());
}

#[test]
fn satisfied_rules_report_nothing() {
    let conf = Config::strict();
    let clean = "{\n  \"a\": [1, 2],\n  \"b\": {\"c\": null}\n}";
    assert_eq!(Linter::lint(conf, clean).unwrap(), Vec::new());
    let conf = Config { root_braces: AllowDenyRequire::Deny, ..Default::default() };
    assert_eq!(Linter::lint(conf, "a: 1\nb: 2").unwrap(), Vec::new());
}

#[test]
fn nested_lints_come_in_walk_order() {
    let conf = Config { missing_commas: AllowDeny::Deny, ..Default::default() };
    assert_eq!(
        Linter::lint(conf, "a: [\n1\n2\n]\nb: 3").unwrap(),
        vec![
            lint(LintKind::MissingComma, 2, 2, 6, 0),
            lint(LintKind::MissingComma, 4, 2, 10, 0),
        ]
    );
}

#[test]
fn lint_surfaces_parse_errors() {
    assert!(Linter::lint(Config::default(), "'a' 3").is_err());
    assert!(Linter::lint(Config::default(), "{ 'a': 3").is_err());
}

#[test]
fn lint_tree_matches_lint() {
    let input = "a: [\n1\n2\n]\nb: 3  ";
    let conf = Config::strict();
    let tree = hjson_lint::Parser::parse(input).unwrap();
    assert_eq!(Linter::lint_tree(conf, &tree), Linter::lint(conf, input).unwrap());
    assert_eq!(Linter::lint_tree(conf, &tree).len(), 4);
}

#[test]
fn lints_come_in_document_order() {
    assert_eq!(
        Linter::lint(Config::default(), "{ 'a': 1  \n}  \n").unwrap(),
        vec![trailing_ws(1, 9, 8, 2), trailing_ws(2, 2, 12, 2)]
    );
}

#[test]
fn required_root_brace_after_a_comment_over_two_lines() {
    let conf = Config { root_braces: AllowDenyRequire::Require, ..Default::default() };
    assert_eq!(
        Linter::lint(conf, "/* a\nb */'foo': 3").unwrap(),
        vec![lint(LintKind::ImplicitBraces, 2, 5, 9, 0)]
    );
}
