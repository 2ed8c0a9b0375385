use iris_language_tools::format::{format_document as step, format_with, FormatEvent, FormatStep, Lexed};
use iris_language_tools::options::{FormatOptions, FormatOutcome, InvalidTabSize, SkipReason};
use iris_language_tools::safety::{Token, TokenKind};

// The lexer of the Iris language is not a dependency of this crate. These
// tests drive the stepwise formatter with a small stand-in that reports,
// for the fixtures below, the tokens and diagnostics the real lexer reports:
// comments and blanks make no tokens, literals are single tokens, and
// malformed numbers, escapes, unclosed literals and comments, stray
// backslashes and non-ASCII code outside literals are diagnostics.
fn lex(source: &str) -> Lexed {
    let b = source.as_bytes();
    let n = b.len();
    let mut tokens = Vec::new();
    let mut clean = true;
    let mut i = 0;
    let mut operand = false;
    if b.starts_with(&[0xEF, 0xBB, 0xBF]) {
        i = 3;
    }
    if b[i..].starts_with(b"#!") {
        while i < n && b[i] != b'\r' && b[i] != b'\n' {
            i += 1;
        }
    }
    let mut other = |tokens: &mut Vec<Token>, at: usize| {
        tokens.push(Token { kind: TokenKind::Other(0), offset: at });
    };
    while i < n {
        let c = b[i];
        let next = if i + 1 < n { b[i + 1] } else { 0 };
        match c {
            b' ' | b'\t' => i += 1,
            b'\r' | b'\n' => {
                tokens.push(Token { kind: TokenKind::Newline, offset: i });
                i += if c == b'\r' && next == b'\n' { 2 } else { 1 };
                operand = false;
            }
            b'/' if next == b'/' => {
                while i < n && b[i] != b'\r' && b[i] != b'\n' {
                    i += 1;
                }
            }
            b'/' if next == b'*' => {
                let mut depth = 1;
                i += 2;
                while depth > 0 && i + 1 < n {
                    if b[i] == b'/' && b[i + 1] == b'*' {
                        depth += 1;
                        i += 2;
                    } else if b[i] == b'*' && b[i + 1] == b'/' {
                        depth -= 1;
                        i += 2;
                    } else {
                        i += 1;
                    }
                }
                if depth > 0 {
                    clean = false;
                    i = n;
                }
            }
            b'/' if !operand => {
                let start = i;
                i += 1;
                while i < n && b[i] != b'/' && b[i] != b'\r' && b[i] != b'\n' {
                    i += if b[i] == b'\\' { 2 } else { 1 };
                }
                if i >= n || b[i] != b'/' {
                    clean = false;
                    i = n;
                } else {
                    i += 1;
                    while i < n && b[i].is_ascii_alphabetic() {
                        i += 1;
                    }
                    tokens.push(Token { kind: TokenKind::RegexLiteral, offset: start });
                    operand = true;
                }
            }
            b'"' | b'\'' => {
                let (end, ok) = literal(b, i);
                clean &= ok;
                tokens.push(Token { kind: TokenKind::StringLiteral, offset: i });
                i = end;
                operand = true;
            }
            b'b' | b'm' if next == b'"' || (c == b'm' && next == b'b' && i + 2 < n && b[i + 2] == b'"') => {
                let (kind, quote) = if c == b'b' {
                    (TokenKind::BytesLiteral, i + 1)
                } else if next == b'b' {
                    (TokenKind::ByteArrayLiteral, i + 2)
                } else {
                    (TokenKind::MutableStringLiteral, i + 1)
                };
                let (end, ok) = literal(b, quote);
                clean &= ok;
                tokens.push(Token { kind, offset: i });
                i = end;
                operand = true;
            }
            b'{' | b'}' | b'(' | b')' | b'[' | b']' => {
                let kind = match c {
                    b'{' => TokenKind::LeftBrace,
                    b'}' => TokenKind::RightBrace,
                    b'(' => TokenKind::LeftParen,
                    b')' => TokenKind::RightParen,
                    _ => TokenKind::SourceCharacter,
                };
                tokens.push(Token { kind, offset: i });
                operand = matches!(c, b'}' | b')' | b']');
                i += 1;
            }
            b'%' if next == b'{' => {
                tokens.push(Token { kind: TokenKind::HashOpen, offset: i });
                operand = false;
                i += 2;
            }
            b'0'..=b'9' => {
                let start = i;
                while i < n && (b[i].is_ascii_alphanumeric() || b[i] == b'_' || (b[i] == b'.' && i + 1 < n && b[i + 1].is_ascii_alphanumeric())) {
                    i += 1;
                }
                if source[start..i].contains("__") {
                    clean = false;
                }
                if i + 1 < n && (b[i] == b'+' || b[i] == b'-') && b[i + 1].is_ascii_digit() {
                    clean = false;
                }
                other(&mut tokens, start);
                operand = true;
            }
            b'a'..=b'z' | b'A'..=b'Z' | b'_' => {
                let start = i;
                while i < n && (b[i].is_ascii_alphanumeric() || b[i] == b'_') {
                    i += 1;
                }
                other(&mut tokens, start);
                operand = true;
            }
            b'\\' => {
                clean = false;
                i += 1;
            }
            _ if c >= 0x80 => {
                clean = false;
                i += 1;
            }
            _ => {
                other(&mut tokens, i);
                operand = false;
                i += 1;
            }
        }
    }
    Lexed { clean, tokens }
}

/// Scans a quoted literal whose quote is at `at`: where it ends, and
/// whether it is closed and holds only known escapes.
fn literal(b: &[u8], at: usize) -> (usize, bool) {
    let quote = b[at];
    let mut i = at + 1;
    while i < b.len() {
        if b[i] == b'\\' {
            if i + 1 >= b.len() || !b"ntr0\\\"'$u".contains(&b[i + 1]) {
                return (b.len(), false);
            }
            i += 2;
        } else if b[i] == quote {
            return (i + 1, true);
        } else {
            i += 1;
        }
    }
    (b.len(), false)
}

fn format_document(source: &str, options: FormatOptions) -> FormatOutcome {
    let mut event = FormatEvent::Start;
    loop {
        match step(source, options, event) {
            FormatStep::Done(outcome) => return outcome,
            FormatStep::LexSource => event = FormatEvent::SourceLexed(lex(source)),
            FormatStep::LexCandidate { output, mapped } => {
                let relexed = lex(&output);
                event = FormatEvent::CandidateLexed { output, mapped, relexed };
            }
        }
    }
}

#[test]
fn dedents_closing_line_when_it_also_opens_another_block() {
    let source = "fun f() {\nif ready {\nprint(1)\n   } else {\nprint(2)\n}\n}";

    let actual = format_document(source, FormatOptions::new(2, true).unwrap());

    assert_eq!(
        actual,
        FormatOutcome::Changed(
            "fun f() {\n  if ready {\n    print(1)\n  } else {\n    print(2)\n  }\n}".into()
        )
    );
}

#[test]
fn preserves_protected_crlf_lines_when_first_comment_byte_looks_like_code() {
    let source = "fun f() {\r\n/* comment\r\nprint(9) }\r\n*/\r\nprint(1)\r\n}";

    let actual = format_document(source, FormatOptions::new(2, true).unwrap());

    assert_eq!(
        actual,
        FormatOutcome::Changed(
            "fun f() {\r\n/* comment\r\nprint(9) }\r\n*/\r\n  print(1)\r\n}".into()
        )
    );
}

#[test]
fn indents_delimiters_when_lines_start_with_multiple_closers() {
    let source = "fun f() {\nlet data = %{\nkey: [\ncall(\n1\n)]\n}\n   }";
    let options = FormatOptions::new(2, true).unwrap();

    let actual = format_document(source, options);

    assert_eq!(
        actual,
        FormatOutcome::Changed(
            "fun f() {\n  let data = %{\n    key: [\n      call(\n        1\n    )]\n  }\n}".into()
        )
    );
}

#[test]
fn preserves_line_endings_when_source_mixes_crlf_cr_and_lf() {
    let source = "fun f() {\r\nprint(1  +  2)\rprint(1 + 2)\n  }\r\n";

    let actual = format_document(source, FormatOptions::new(2, true).unwrap());

    assert_eq!(
        actual,
        FormatOutcome::Changed("fun f() {\r\n  print(1  +  2)\r  print(1 + 2)\n}\r\n".into())
    );
}

#[test]
fn preserves_comments_and_blanks_when_block_comments_contain_fake_delimiters() {
    let source = "fun f() {\n \t// { fake\n \t\n/* (\n  } [\n /* nested */\n */ print(1)\nprint(2) /* }\n   ) */\n  }";

    let actual = format_document(source, FormatOptions::new(2, true).unwrap());

    assert_eq!(actual, FormatOutcome::Changed(
        "fun f() {\n \t// { fake\n \t\n/* (\n  } [\n /* nested */\n */ print(1)\n  print(2) /* }\n   ) */\n}".into()
    ));
}

#[test]
fn preserves_bom_and_shebang_when_formatting_following_code() {
    let source = "\u{feff}#!/usr/bin/env iris\r\nfun f() {\nprint(1)\n}";

    let actual = format_document(source, FormatOptions::new(1, true).unwrap());

    assert_eq!(
        actual,
        FormatOutcome::Changed("\u{feff}#!/usr/bin/env iris\r\nfun f() {\n print(1)\n}".into())
    );
}

#[test]
fn preserves_bom_when_first_code_line_has_indentation() {
    let source = "\u{feff}  fun f() {\nprint(1)\n}";

    let actual = format_document(source, FormatOptions::new(2, true).unwrap());

    assert_eq!(
        actual,
        FormatOutcome::Changed("\u{feff}fun f() {\n  print(1)\n}".into())
    );
}

#[test]
fn preserves_inline_bytes_when_tokens_are_spacing_sensitive() {
    let lines = [
        "print(1  +  2)",
        "print(1 + 2)",
        "let n = 0x1.fp3f32",
        "pkg::Thing.ready?",
        "property fun value!=(x) {}",
        "value!==other",
        "let value: Box<Array<String>> = item",
        "left >> right",
        "let pattern = /[{}()]+/im",
        "let n = 1/2",
        "let s = \"} [ ( // /*\"",
        "let b = b\"hi\"",
        "let m = m\"text\"",
        "let bytes = mb\"data\"",
        "let quote = '\"'",
        "let escaped = \"\\\"}\"",
    ];
    for line in lines {
        let source = format!("fun f() {{\n{line}\n}}");

        let actual = format_document(&source, FormatOptions::new(2, true).unwrap());

        assert_eq!(
            actual,
            FormatOutcome::Changed(format!("fun f() {{\n  {line}\n}}")),
            "{line}"
        );
    }
}

#[test]
fn is_idempotent_when_options_and_newlines_vary() {
    for tab_size in 1..=16 {
        for insert_spaces in [true, false] {
            for newline in ["\n", "\r\n", "\r"] {
                let options = FormatOptions::new(tab_size, insert_spaces).unwrap();
                let source = format!("fun f() {{{newline}print({newline}1{newline}){newline}}}");
                let FormatOutcome::Changed(formatted) = format_document(&source, options) else {
                    panic!("fixture must change");
                };

                let actual = format_document(&formatted, options);

                assert_eq!(actual, FormatOutcome::Unchanged);
                let unit = if insert_spaces {
                    " ".repeat(usize::try_from(tab_size).unwrap())
                } else {
                    "\t".into()
                };
                assert_eq!(
                    formatted,
                    format!(
                        "fun f() {{{newline}{unit}print({newline}{unit}{unit}1{newline}{unit}){newline}}}"
                    )
                );
            }
        }
    }
}

#[test]
fn returns_unchanged_when_document_needs_no_indentation() {
    for source in ["", " \t", "// hi\r\n", "print(1 + 2)", "\u{feff}", "{}\n"] {
        let actual = format_document(source, FormatOptions::new(4, true).unwrap());

        assert_eq!(actual, FormatOutcome::Unchanged);
    }
}

#[test]
fn rejects_options_when_tab_size_is_outside_bounds() {
    for tab_size in [0, 17, u32::MAX] {
        let actual = FormatOptions::new(tab_size, true);

        assert_eq!(actual, Err(InvalidTabSize(tab_size)));
    }
}

#[test]
fn skips_literals_when_protected_spans_are_ambiguous() {
    for literal in [
        "r\"raw\"",
        "r#\"raw\"#",
        "br##\"raw\"##",
        "mr'raw'",
        "mbr\"raw\"",
        "\"\"\"triple\"\"\"",
        "'''triple'''",
        "\"${value}\"",
        "m\"${value}\"",
        "\"\"\"\n  body\n  \"\"\"",
    ] {
        let source = format!("fun f() {{\nlet text = {literal}\n}}");

        let actual = format_document(&source, FormatOptions::new(2, true).unwrap());

        assert_eq!(
            actual,
            FormatOutcome::Skipped(SkipReason::UnsupportedLiteral),
            "{literal}"
        );
    }
}

#[test]
fn skips_continuations_when_newline_is_escaped() {
    for newline in ["\n", "\r\n", "\r"] {
        let source = format!("fun f() {{\n1 + \\{newline}2\n}}");

        let actual = format_document(&source, FormatOptions::new(2, true).unwrap());

        assert_eq!(actual, FormatOutcome::Skipped(SkipReason::Continuation));
    }
}

#[test]
fn skips_source_when_lexer_reports_diagnostics() {
    for source in [
        "fun f() {\n1__0\n}",
        "/* open",
        "\"unclosed",
        "let bad = \\",
        "\"\\q\"",
        "\u{200b}",
        "fun f() {\nprint(1+2)\n}",
    ] {
        let actual = format_document(source, FormatOptions::new(2, true).unwrap());

        assert_eq!(
            actual,
            FormatOutcome::Skipped(SkipReason::LexicalDiagnostics),
            "{source}"
        );
    }
}

#[test]
fn skips_source_when_delimiters_do_not_match() {
    for source in ["{\n)", "[\n}", "%{\n]", "(\n]", "}", "([)]"] {
        let actual = format_document(source, FormatOptions::new(2, true).unwrap());

        assert_eq!(
            actual,
            FormatOutcome::Skipped(SkipReason::MismatchedDelimiter)
        );
    }
}

#[test]
fn skips_source_when_delimiters_remain_open() {
    for source in ["{\nprint(1)", "[", "%{", "("] {
        let actual = format_document(source, FormatOptions::new(2, true).unwrap());

        assert_eq!(
            actual,
            FormatOutcome::Skipped(SkipReason::UnclosedDelimiter)
        );
    }
}

#[test]
fn skips_input_when_byte_budget_is_exceeded() {
    let source = " ".repeat(256 * 1024 + 1);

    let actual = format_document(&source, FormatOptions::new(2, true).unwrap());

    assert_eq!(actual, FormatOutcome::Skipped(SkipReason::InputLimit));
}

#[test]
fn accepts_input_when_byte_budget_is_exact() {
    let source = " ".repeat(256 * 1024);

    let actual = format_document(&source, FormatOptions::new(2, true).unwrap());

    assert_eq!(actual, FormatOutcome::Unchanged);
}

#[test]
fn skips_nesting_when_stack_budget_is_exceeded() {
    let source = format!("{}{}", "(".repeat(129), ")".repeat(129));

    let actual = format_document(&source, FormatOptions::new(2, true).unwrap());

    assert_eq!(actual, FormatOutcome::Skipped(SkipReason::NestingLimit));
}

#[test]
fn accepts_nesting_when_stack_budget_is_exact() {
    let source = format!("{}\nx\n{}", "(".repeat(128), ")".repeat(128));

    let actual = format_document(&source, FormatOptions::new(1, false).unwrap());

    assert_eq!(
        actual,
        FormatOutcome::Changed(format!(
            "{}\n{}x\n{}",
            "(".repeat(128),
            "\t".repeat(128),
            ")".repeat(128)
        ))
    );
}

#[test]
fn skips_output_when_indentation_expansion_exceeds_budget() {
    let source = format!(
        "{}\n{}{}",
        "{".repeat(128),
        "x\n".repeat(600),
        "}".repeat(128)
    );

    let actual = format_document(&source, FormatOptions::new(16, true).unwrap());

    assert_eq!(actual, FormatOutcome::Skipped(SkipReason::OutputLimit));
}

#[test]
fn rejects_output_expansion_when_fixed_indentation_exceeds_one_mib() {
    let depth = 8;
    let source = format!("{}{}{}", "if ready{".repeat(depth), "x\n".repeat(65_000), "}".repeat(depth));
    assert!(source.len() < 256 * 1024);
    assert_eq!(
        format_with(&source, FormatOptions::new(2, true).unwrap(), &|text: &str| lex(text)),
        FormatOutcome::Skipped(SkipReason::OutputLimit)
    );
}

#[test]
fn running_the_steps_with_a_lexer_matches_the_step_protocol() {
    let options = FormatOptions::new(2, true).unwrap();
    for source in ["fun f() {\nx\n}", "x", "fun f() {\n  x\n}", "\\\n"] {
        assert_eq!(format_with(source, options, &|text: &str| lex(text)), format_document(source, options));
    }
}
