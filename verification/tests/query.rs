use iris_language_tools::hover::Span;
use iris_language_tools::markup::Format;
use iris_language_tools::positions::{LineIndex, Position};
use iris_language_tools::query::{
    completion_kind, hint_bounds, hints_in, plan, span_range, CompletionAnswer, CompletionContext,
    CompletionEntry, CompletionItemInfo, CompletionKind, CompletionResult, Fallback, HintEntry,
    InlayHintInfo, ItemKind, Operation, Plan,
};
use iris_language_tools::semantics::QueryError;
use iris_language_tools::signature_help::Options;

fn item(label: &str, kind: CompletionKind, start: usize, end: usize) -> CompletionItemInfo {
    CompletionItemInfo {
        label: label.to_string(),
        detail: None,
        kind,
        replace: Span { start, end },
    }
}

fn keywords(words: &[&str]) -> Vec<String> {
    words.iter().map(|w| w.to_string()).collect()
}

#[test]
fn span_range_maps_both_ends() {
    let index = LineIndex::new("ab\ncd");
    assert_eq!(
        span_range(&index, Span { start: 1, end: 4 }),
        Ok((Position::new(0, 1), Position::new(1, 1)))
    );
}

#[test]
fn span_range_rejects_reversed_and_outside_spans() {
    let index = LineIndex::new("ab\ncd");
    assert_eq!(span_range(&index, Span { start: 3, end: 1 }), Err(QueryError::Target));
    assert_eq!(span_range(&index, Span { start: 1, end: 9 }), Err(QueryError::Target));
}

#[test]
fn completion_kinds_collapse_to_client_kinds() {
    assert_eq!(completion_kind(CompletionKind::Parameter), ItemKind::Variable);
    assert_eq!(completion_kind(CompletionKind::TypeAlias), ItemKind::Class);
    assert_eq!(completion_kind(CompletionKind::Contract), ItemKind::Interface);
    assert_eq!(completion_kind(CompletionKind::Property), ItemKind::Property);
}

#[test]
fn completion_items_replace_their_range_and_keywords_are_deduplicated() {
    let index = LineIndex::new("let va");
    let context = CompletionContext { index: &index, cursor: Position::new(0, 6), inventory_complete: true };
    let result = CompletionResult {
        items: vec![item("value", CompletionKind::Variable, 4, 6)],
        allow_keywords: true,
        is_incomplete: false,
    };
    let answer = context
        .response(result, &keywords(&["let", "value", "if", "let"]))
        .unwrap();
    assert_eq!(
        answer,
        CompletionAnswer {
            entries: vec![
                CompletionEntry::Item {
                    label: "value".to_string(),
                    detail: None,
                    kind: ItemKind::Variable,
                    start: Position::new(0, 4),
                    end: Position::new(0, 6),
                },
                CompletionEntry::Keyword(0),
                CompletionEntry::Keyword(2),
            ],
            plain: false,
            is_incomplete: false,
        }
    );
}

#[test]
fn keyword_only_completion_is_a_plain_list_when_inventory_is_complete() {
    let index = LineIndex::new("");
    let result = || CompletionResult { items: vec![], allow_keywords: true, is_incomplete: false };
    let complete = CompletionContext { index: &index, cursor: Position::new(0, 0), inventory_complete: true };
    let answer = complete.response(result(), &keywords(&["fn"])).unwrap();
    assert!(answer.plain);
    assert_eq!(answer.entries, vec![CompletionEntry::Keyword(0)]);
    let partial = CompletionContext { index: &index, cursor: Position::new(0, 0), inventory_complete: false };
    let answer = partial.response(result(), &keywords(&["fn"])).unwrap();
    assert!(!answer.plain);
    assert!(answer.is_incomplete);
}

#[test]
fn keywords_are_left_out_when_not_allowed() {
    let index = LineIndex::new("x");
    let context = CompletionContext { index: &index, cursor: Position::new(0, 1), inventory_complete: true };
    let result = CompletionResult {
        items: vec![item("x", CompletionKind::Constant, 0, 1)],
        allow_keywords: false,
        is_incomplete: true,
    };
    let answer = context.response(result, &keywords(&["fn"])).unwrap();
    assert_eq!(answer.entries.len(), 1);
    assert!(!answer.plain);
    assert!(answer.is_incomplete);
}

#[test]
fn completion_fails_when_a_range_misses_the_cursor() {
    let index = LineIndex::new("ab\ncd");
    let context = CompletionContext { index: &index, cursor: Position::new(1, 1), inventory_complete: true };
    let on_other_line = CompletionResult {
        items: vec![item("ab", CompletionKind::Variable, 0, 2)],
        allow_keywords: true,
        is_incomplete: false,
    };
    assert_eq!(context.response(on_other_line, &[]), Err(QueryError::Target));
    let across_lines = CompletionResult {
        items: vec![item("ab", CompletionKind::Variable, 1, 4)],
        allow_keywords: true,
        is_incomplete: false,
    };
    assert_eq!(context.response(across_lines, &[]), Err(QueryError::Target));
}

#[test]
fn plans_follow_inventory_and_file() {
    let p = Position::new(0, 0);
    assert_eq!(plan(&Operation::References(p, true), false, true, false), Plan::Incomplete);
    assert_eq!(plan(&Operation::Hover(p, Format::Markdown), false, true, false), Plan::Run);
    assert_eq!(plan(&Operation::Definition(p), true, false, true), Plan::Incomplete);
    assert_eq!(plan(&Operation::Completion(p), true, false, false), Plan::Answer(Fallback::Keywords));
    assert_eq!(
        plan(&Operation::SignatureHelp(p, Options::default()), true, false, false),
        Plan::Answer(Fallback::Null)
    );
    assert_eq!(plan(&Operation::Hints(p, p), true, false, false), Plan::Answer(Fallback::Empty));
}

#[test]
fn hint_bounds_need_ordered_positions() {
    let index = LineIndex::new("ab\ncd");
    assert_eq!(hint_bounds(&index, Position::new(0, 1), Position::new(1, 2)), Ok((1, 5)));
    assert_eq!(hint_bounds(&index, Position::new(1, 0), Position::new(0, 0)), Err(QueryError::Position));
    assert_eq!(hint_bounds(&index, Position::new(0, 0), Position::new(4, 0)), Err(QueryError::Position));
}

#[test]
fn hints_outside_the_range_are_dropped() {
    let index = LineIndex::new("ab\ncd");
    let hints = vec![
        InlayHintInfo { offset: 0, label: "a".to_string() },
        InlayHintInfo { offset: 3, label: "b".to_string() },
        InlayHintInfo { offset: 5, label: "c".to_string() },
    ];
    assert_eq!(
        hints_in(&index, 1, 5, &hints),
        Ok(vec![HintEntry { position: Position::new(1, 0), label: "b".to_string() }])
    );
}

#[test]
fn hint_without_position_fails() {
    let index = LineIndex::new("\u{e9}");
    let hints = vec![InlayHintInfo { offset: 1, label: "x".to_string() }];
    assert_eq!(hints_in(&index, 0, 2, &hints), Err(QueryError::Target));
}

#[test]
fn marks_keyword_response_incomplete_when_workspace_inventory_is_partial() {
    let text = "let value = 1";
    let index = LineIndex::new(text);
    let cursor = Position::new(0, 0);
    assert_eq!(plan(&Operation::Completion(cursor), false, true, false), Plan::Run);
    let context = CompletionContext { index: &index, cursor, inventory_complete: false };
    let analysis = CompletionResult { items: vec![], allow_keywords: true, is_incomplete: false };

    let when = context.response(analysis, &keywords(&["let"])).unwrap();

    assert!(!when.plain);
    assert!(when.is_incomplete);
    assert_eq!(when.entries, vec![CompletionEntry::Keyword(0)]);
}
