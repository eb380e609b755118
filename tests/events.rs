use hjson_lint::events::{Child, Event, Parser, Tree, TreeKind};
use hjson_lint::TokenKind;

fn taken(events: &[Event]) -> usize {
    events
        .iter()
        .map(|e| match e {
            Event::Advance { token } => token.len,
            _ => 0,
        })
        .sum()
}

fn depth_ok(events: &[Event]) -> bool {
    let mut depth: i64 = 0;
    for (i, e) in events.iter().enumerate() {
        match e {
            Event::Open { .. } => depth += 1,
            Event::Close => depth -= 1,
            Event::Advance { .. } => {}
        }
        if depth < 0 || (depth == 0 && i + 1 != events.len()) {
            return false;
        }
    }
    depth == 0
}

#[test]
fn events_take_the_whole_input() {
    for input in ["a: 1\nb: [true, 2]", "{ a: { b: x } }\n", "", "# c\n} a: 1", "[1, 2]"] {
        let events = Parser::parse(input);
        assert_eq!(events[0], Event::Open { kind: TreeKind::File });
        assert!(depth_ok(&events));
        assert_eq!(taken(&events), input.len());
    }
}

#[test]
fn events_stop_at_unreadable_text() {
    let events = Parser::parse("a: 'x");
    assert!(depth_ok(&events));
    assert_eq!(taken(&events), 3);
}

fn kinds(tree: &Tree) -> Vec<String> {
    tree.children
        .iter()
        .map(|c| match c {
            Child::Token(t) => format!("{:?}", t.kind),
            Child::Tree(t) => format!("{:?}", t.kind),
        })
        .collect()
}

#[test]
fn tree_of_a_document() {
    let tree = Tree::build(Parser::parse("a: 1\nb: [true, 2]"));
    assert_eq!(tree.kind, TreeKind::File);
    assert_eq!(kinds(&tree), vec!["Object"]);
    let Child::Tree(object) = &tree.children[0] else { panic!("expected a tree") };
    assert_eq!(kinds(object), vec!["Mapping", "NewLine", "Mapping"]);
    let Child::Tree(first) = &object.children[0] else { panic!("expected a tree") };
    assert_eq!(kinds(first), vec!["TextUnquoted", "Colon", "Whitespace", "Integer"]);
    let Child::Tree(second) = &object.children[2] else { panic!("expected a tree") };
    assert_eq!(kinds(second), vec!["TextUnquoted", "Colon", "Whitespace", "Array"]);
    let Child::Tree(array) = &second.children[3] else { panic!("expected a tree") };
    assert_eq!(
        kinds(array),
        vec!["OpenBracket", "Boolean", "Comma", "Whitespace", "Integer", "CloseBracket"]
    );
}

#[test]
fn stray_tokens_become_error_trees() {
    let tree = Tree::build(Parser::parse("} a: 1"));
    assert_eq!(tree.kind, TreeKind::File);
    let Child::Tree(first) = &tree.children[0] else { panic!("expected a tree") };
    assert_eq!(first.kind, TreeKind::ErrorTree);
    match &first.children[0] {
        Child::Token(t) => assert_eq!(t.kind, TokenKind::CloseBrace),
        Child::Tree(_) => panic!("expected a token"),
    }
}
