use iris_language_tools::layout::indent;
use iris_language_tools::options::{FormatOptions, SkipReason};
use iris_language_tools::safety::{check_source, closing, Delimiters, Token, TokenKind};
use iris_language_tools::tokens::{comment, scan, verify, Kind, Lexeme, Piece};

fn lexeme(kind: TokenKind, offset: usize, end: usize) -> Lexeme {
    Lexeme { kind, offset, end }
}

fn code(text: &str) -> Piece<'_> {
    Piece { text, kind: Kind::Code, start: 0, end: 0 }
}

#[test]
fn scans_tokens_comments_and_collapsed_line_breaks() {
    let source = "\u{feff}let s = \"x\" // note\r\n\n  /* a /* b */ */ x";
    let lexemes = [
        lexeme(TokenKind::Other(1), 3, 6),
        lexeme(TokenKind::Other(2), 7, 8),
        lexeme(TokenKind::Other(3), 9, 10),
        lexeme(TokenKind::StringLiteral, 11, 14),
        lexeme(TokenKind::Newline, 22, 24),
        lexeme(TokenKind::Newline, 24, 25),
        lexeme(TokenKind::Other(4), 43, 44),
    ];
    let pieces = scan(source, true, &lexemes).unwrap();
    let shape: Vec<(&str, Kind)> = pieces.iter().map(|piece| (piece.text, piece.kind)).collect();
    assert_eq!(
        shape,
        vec![
            ("let", Kind::Code),
            ("s", Kind::Code),
            ("=", Kind::Code),
            ("\"x\"", Kind::Literal),
            ("// note", Kind::Comment),
            ("\n", Kind::Newline),
            ("/* a /* b */ */", Kind::Comment),
            ("x", Kind::Code),
        ]
    );
    assert_eq!((pieces[3].start, pieces[3].end), (11, 14));
}

#[test]
fn refuses_scans_that_cannot_be_protected() {
    assert_eq!(scan("x", false, &[]).unwrap_err(), SkipReason::LexicalDiagnostics);
    assert_eq!(scan("/* open", true, &[]).unwrap_err(), SkipReason::UncertainProtectedRange);
    assert_eq!(scan("a \\\nb", true, &[lexeme(TokenKind::Other(0), 0, 1)]).unwrap_err(), SkipReason::Continuation);
    assert_eq!(scan("a ?", true, &[lexeme(TokenKind::Other(0), 0, 1)]).unwrap_err(), SkipReason::UncertainProtectedRange);
}

#[test]
fn normalizes_line_comment_markers() {
    assert_eq!(comment("//note"), "// note");
    assert_eq!(comment("///  doc"), "/// doc");
    assert_eq!(comment("// \t"), "//");
    assert_eq!(comment("/* block */"), "/* block */");
    assert_eq!(comment("#! shebang"), "#! shebang");
}

#[test]
fn verifies_that_protected_and_significant_pieces_survive() {
    let original = [code("let"), code("x"), code(";"), Piece { text: "//a", kind: Kind::Comment, start: 0, end: 0 }];
    let candidate = [code("let"), code("x"), Piece { text: "// a", kind: Kind::Comment, start: 0, end: 0 }];
    assert_eq!(verify(&original, &candidate), Ok(()));
    let renamed = [code("let"), code("y"), Piece { text: "// a", kind: Kind::Comment, start: 0, end: 0 }];
    assert_eq!(verify(&original, &renamed), Err(SkipReason::TokenMismatch));
    let lost = [code("let"), code("x")];
    assert_eq!(verify(&original, &lost), Err(SkipReason::TokenMismatch));
}

#[test]
fn checks_sources_before_lexing() {
    assert_eq!(check_source("let x = 1"), Ok(()));
    assert_eq!(check_source("1 + \\\n2"), Err(SkipReason::Continuation));
    assert_eq!(check_source("let s = r#\"x\"#"), Err(SkipReason::UnsupportedLiteral));
    assert_eq!(check_source("let s = \"${x}\""), Err(SkipReason::UnsupportedLiteral));
    assert_eq!(check_source("for r in rows"), Ok(()));
    assert_eq!(check_source(&"x".repeat(256 * 1024 + 1)), Err(SkipReason::InputLimit));
}

#[test]
fn tracks_delimiters_up_to_the_nesting_limit() {
    let source = "{[()]}";
    let kinds = [TokenKind::LeftBrace, TokenKind::SourceCharacter, TokenKind::LeftParen, TokenKind::RightParen, TokenKind::SourceCharacter, TokenKind::RightBrace];
    let mut delimiters = Delimiters::new();
    let mut depths = Vec::new();
    for (offset, kind) in kinds.into_iter().enumerate() {
        delimiters.consume(Token { kind, offset }, source).unwrap();
        depths.push(delimiters.depth());
    }
    assert_eq!(depths, vec![1, 2, 3, 2, 1, 0]);
    assert_eq!(closing(Token { kind: TokenKind::SourceCharacter, offset: 4 }, source), Some(b']'));
    assert_eq!(closing(Token { kind: TokenKind::SourceCharacter, offset: 1 }, source), None);
    let mut wrong = Delimiters::new();
    wrong.consume(Token { kind: TokenKind::LeftParen, offset: 0 }, "(]").unwrap();
    assert_eq!(wrong.consume(Token { kind: TokenKind::SourceCharacter, offset: 1 }, "(]"), Err(SkipReason::MismatchedDelimiter));
    assert_eq!(wrong.depth(), 1);
    let deep = "(".repeat(129);
    let mut full = Delimiters::new();
    for offset in 0..128 {
        full.consume(Token { kind: TokenKind::LeftParen, offset }, &deep).unwrap();
    }
    assert_eq!(full.consume(Token { kind: TokenKind::LeftParen, offset: 128 }, &deep), Err(SkipReason::NestingLimit));
}

#[test]
fn indents_lines_by_open_delimiters_and_moves_tokens() {
    let source = "f {\nx\n}";
    let tokens = [
        Token { kind: TokenKind::Other(0), offset: 0 },
        Token { kind: TokenKind::LeftBrace, offset: 2 },
        Token { kind: TokenKind::Newline, offset: 3 },
        Token { kind: TokenKind::Other(0), offset: 4 },
        Token { kind: TokenKind::Newline, offset: 5 },
        Token { kind: TokenKind::RightBrace, offset: 6 },
    ];
    let (output, mapped) = indent(source, &tokens, FormatOptions::new(4, false).unwrap()).unwrap();
    assert_eq!(output, "f {\n\tx\n}");
    assert_eq!(mapped.iter().map(|token| token.offset).collect::<Vec<_>>(), vec![0, 2, 3, 5, 6, 7]);
    let (again, _) = indent(&output, &mapped, FormatOptions::new(4, false).unwrap()).unwrap();
    assert_eq!(again, output);
}

#[test]
fn keeps_option_values() {
    let options = FormatOptions::new(3, false).unwrap();
    assert_eq!((options.tab_size(), options.insert_spaces()), (3, false));
}

#[test]
fn normalizing_a_comment_twice_changes_nothing_more() {
    for text in ["//x", "///  doc", "//\t", "////x", "//   /x", "# not a comment", "/* block */"] {
        let once = comment(text);
        assert_eq!(comment(&once), once);
    }
    assert_eq!(comment("//x"), "// x");
    assert_eq!(comment("/* block */"), "/* block */");
}
