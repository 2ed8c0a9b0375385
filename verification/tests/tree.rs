use iris_language_tools::options::SkipReason;
use iris_language_tools::preflight::{closure_header, syntax};
use iris_language_tools::spacing::{append_source, commas, generic_start, Spacing};
use iris_language_tools::tokens::{Kind, Piece};
use iris_language_tools::tree::{build, ends_expression, header_continues, role, Node, Role};

fn code(text: &str) -> Piece<'_> {
    Piece { text, kind: Kind::Code, start: 0, end: 0 }
}

fn newline() -> Piece<'static> {
    Piece { text: "\n", kind: Kind::Newline, start: 0, end: 0 }
}

fn comment(text: &str) -> Piece<'_> {
    Piece { text, kind: Kind::Comment, start: 0, end: 0 }
}

/// Code pieces for the words of `source`, with `\n` as line breaks.
fn pieces(source: &str) -> Vec<Piece<'_>> {
    source
        .split(' ')
        .filter(|word| !word.is_empty())
        .map(|word| if word == "\n" { newline() } else { code(word) })
        .collect()
}

fn never(_: &str) -> bool {
    false
}

fn types(probe: &str) -> bool {
    probe.starts_with("let value: Box<") || probe.starts_with("let value: Map<")
}

fn roles(nodes: &[Node<'_>]) -> Vec<Role> {
    let mut found = Vec::new();
    for node in nodes {
        if let Node::Group(group) = node {
            found.push(group.role);
            found.extend(roles(&group.children));
        }
    }
    found
}

#[test]
fn builds_groups_with_roles_from_their_headers() {
    let source = pieces("fun f ( x ) { if ready { call ( 1 ) [ 0 ] } } let m = %{ } let b = { | x | ; x } property p { get ; }");
    let nodes = build(&source, &never).unwrap();
    assert_eq!(
        roles(&nodes),
        vec![Role::List, Role::Body, Role::Body, Role::List, Role::Index, Role::List, Role::Closure, Role::Accessors]
    );
    let mut text = String::new();
    append_source(&nodes, &mut text);
    assert_eq!(text, "fun f (x ){if ready {call (1 )[0 ]}}let m = %{}let b = {| x | ; x }property p {get ; }");
}

#[test]
fn refuses_trees_whose_delimiters_do_not_match() {
    assert_eq!(build(&pieces("( ]"), &never).unwrap_err(), SkipReason::MismatchedDelimiter);
    assert_eq!(build(&pieces("}"), &never).unwrap_err(), SkipReason::MismatchedDelimiter);
    assert_eq!(build(&pieces("{ ( )"), &never).unwrap_err(), SkipReason::UnclosedDelimiter);
    let deep = vec![code("("); 129];
    assert_eq!(build(&deep, &never).unwrap_err(), SkipReason::NestingLimit);
    let exact: Vec<_> = std::iter::repeat(code("(")).take(128).chain(std::iter::repeat(code(")")).take(128)).collect();
    assert!(build(&exact, &never).is_ok());
}

#[test]
fn keeps_literal_and_comment_delimiters_as_leaves() {
    let source = vec![code("{"), Piece { text: "\"}\"", kind: Kind::Literal, start: 1, end: 4 }, comment("// )"), code("}")];
    let nodes = build(&source, &never).unwrap();
    assert_eq!(nodes.len(), 1);
    let Node::Group(group) = &nodes[0] else { panic!("a group") };
    assert_eq!(group.children.len(), 2);
    assert!(group.children[1].comment());
}

#[test]
fn ends_expressions_on_names_literals_and_closers() {
    for text in ["x", "ready?", "value!", ")", "]", "}", "\"s\"", "'c'", ">", "_", "\u{e9}"] {
        assert!(ends_expression(text), "{text}");
    }
    for text in ["", "let", "return", "await", "in", "+", "(", ","] {
        assert!(!ends_expression(text), "{text}");
    }
}

#[test]
fn asks_the_parser_only_for_plausible_generic_lists() {
    let nodes = build(&pieces("let x : Box < Integer > = item"), &never).unwrap();
    assert!(generic_start(&nodes, 4, &types));
    assert!(!generic_start(&nodes, 4, &never));
    assert!(!generic_start(&nodes, 3, &types));
    let compared = build(&pieces("a < b > c"), &never).unwrap();
    assert!(!generic_start(&compared, 1, &|_: &str| true));
}

#[test]
fn separates_items_at_commas_outside_generic_lists() {
    let nodes = build(&pieces("Map < K , V > , x , y"), &never).unwrap();
    assert_eq!(commas(&nodes, &types), vec![6, 8]);
    assert_eq!(commas(&nodes, &never), vec![3, 6, 8]);
}

#[test]
fn continues_headers_after_clauses_and_open_generics() {
    let nodes = build(&pieces("class A \n extends B"), &never).unwrap();
    assert!(header_continues(&nodes, 2, &never));
    let ended = build(&pieces("let a = b \n extends"), &never).unwrap();
    assert!(!header_continues(&ended, 4, &never));
    let plain = build(&pieces("class A \n B"), &never).unwrap();
    assert!(!header_continues(&plain, 2, &never));
    assert_eq!(role("{", &plain[..2], &never), Role::Body);
    assert_eq!(role("(", &pieces_nodes("if"), &never), Role::Parens);
    assert_eq!(role("(", &pieces_nodes("call"), &never), Role::List);
}

fn pieces_nodes(word: &str) -> Vec<Node<'_>> {
    vec![Node::Token(code(word))]
}

#[test]
fn finds_closure_header_terminators() {
    let body = build(&pieces("| x | ; x"), &never).unwrap();
    assert_eq!(closure_header(&body), Ok(Some(3)));
    let arrow = build(&pieces("| x | - > Integer \n x"), &never).unwrap();
    assert_eq!(closure_header(&arrow), Ok(Some(6)));
    let missing = build(&pieces("| x | x"), &never).unwrap();
    assert_eq!(closure_header(&missing), Err(SkipReason::ParseDiagnostics));
    let none = build(&pieces("x + 1"), &never).unwrap();
    assert_eq!(closure_header(&none), Ok(None));
    let tree = build(&pieces("let f = { | x | x }"), &never).unwrap();
    assert_eq!(syntax(&tree), Err(SkipReason::ParseDiagnostics));
    let fine = build(&pieces("let f = { || ; 2 }"), &never).unwrap();
    assert_eq!(syntax(&fine), Ok(()));
}

#[test]
fn spaces_tokens_by_their_roles() {
    let mut spacing = Spacing::default();
    let mut line = String::new();
    for (text, following) in [("let", ""), ("x", ""), (":", ""), ("Box", ""), ("<", "<generic>"), ("T", ""), (">", ""), ("=", ""), ("-", ""), ("1", ""), ("+", ""), ("f", ""), ("(", ""), ("2", ""), (")", "")] {
        if spacing.gap(text, following) {
            line.push(' ');
        }
        line.push_str(text);
    }
    assert_eq!(line, "let x: Box<T> = -1 + f(2)");
    assert!(spacing.complete_expression());
    spacing.gap("+", "");
    assert!(spacing.continuation());
    assert!(!spacing.complete_expression());
    spacing.comment_boundary();
    assert!(!spacing.continuation());
    spacing.reset();
    assert!(!spacing.gap("x", ""));
    spacing.group_end(")");
    assert!(spacing.complete_expression());
}

#[test]
fn refuses_missing_closure_header_terminators_instead_of_repairing_them() {
    let source = "let f={|x| x}";
    let words: Vec<Piece<'_>> = [(0, 3), (4, 5), (5, 6), (6, 7), (7, 8), (8, 9), (9, 10), (11, 12), (12, 13)]
        .iter()
        .map(|&(lo, hi)| Piece { text: &source[lo..hi], kind: Kind::Code, start: lo, end: hi })
        .collect();
    let tree = build(&words, &never).unwrap();
    assert_eq!(syntax(&tree), Err(SkipReason::ParseDiagnostics));
}

#[test]
fn comment_boundary_acts_as_a_written_line_break() {
    let mut spacing = Spacing::default();
    spacing.gap("a", "");
    spacing.gap("+", "");
    spacing.comment_boundary();
    assert!(!spacing.continuation());
    assert!(!spacing.complete_expression());
    assert!(spacing.gap("x", ""));
    let mut fresh = Spacing::default();
    fresh.gap("a", "");
    fresh.reset();
    assert!(!fresh.gap("x", ""));
}

#[test]
fn no_space_before_tight_texts_or_after_tight_texts() {
    let mut spacing = Spacing::default();
    assert!(!spacing.gap("x", ""));
    assert!(!spacing.gap(",", ""));
    assert!(spacing.gap("y", ""));
    assert!(!spacing.gap(".", ""));
    assert!(!spacing.gap("z", ""));
    spacing.gap("(", "");
    assert!(!spacing.gap("w", ""));
}
