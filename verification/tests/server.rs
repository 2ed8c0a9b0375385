use iris_language_tools::documents::{ChangeError, ContentChange, Documents};
use iris_language_tools::formatting::{admission, is_current, reply, Admission, Reply};
use iris_language_tools::hover::{
    kind_label, render, render_docs, DocumentationInfo, HoverDetail, HoverInfo, HoverKind,
    ParameterCategory, Span,
};
use iris_language_tools::markup::{Format, MAX_BYTES};
use iris_language_tools::options::{FormatOutcome, SkipReason};
use iris_language_tools::positions::{position, LineIndex, Position};
use iris_language_tools::semantics::{
    failure_code, Admission as Dispatch, Completion, Failure as SemanticFailure, Ledger, QueryError,
    Ticket,
};
use iris_language_tools::worker::{input_within_limit, Budget, ChildState, Failure, WorkerClock, WorkerEvent};
use iris_language_tools::worker_protocol::{
    decode_frame, encode_frame, frame_length, outcome_of, FrameError, Outcome, INPUT_LIMIT,
    OUTPUT_LIMIT,
};

#[test]
fn maps_utf16_when_source_contains_bom_and_astral_scalars() {
    let text = "\u{feff}a\u{1f600}z";
    let actual = position(text, 8);
    assert_eq!(actual, Some(Position::new(0, 4)));
}

#[test]
fn maps_physical_lines_when_source_mixes_newlines() {
    let text = "a\r\nb\rc\nd";
    let actual: Vec<_> = (0..=text.len()).map(|offset| position(text, offset)).collect();
    assert_eq!(
        actual,
        [(0, 0), (0, 1), (0, 1), (1, 0), (1, 1), (2, 0), (2, 1), (3, 0), (3, 1)]
            .map(|(line, column)| Some(Position::new(line, column)))
    );
}

#[test]
fn rejects_offsets_when_outside_scalar_boundaries() {
    let text = "\u{1f600}";
    let actual = [1, 2, 3, 5].map(|offset| position(text, offset));
    assert_eq!(actual, [None; 4]);
}

#[test]
fn line_index_agrees_with_position_for_every_offset() {
    let text = "a\r\nb\u{1f600}\rc\nd\u{e9}x";
    let index = LineIndex::new(text);
    for offset in 0..=text.len() + 1 {
        assert_eq!(index.position(offset), position(text, offset), "{offset}");
    }
}

#[test]
fn line_index_finds_offsets_of_positions() {
    let text = "a\u{1f600}b\nxy\r\nz";
    let index = LineIndex::new(text);
    assert_eq!(index.byte_offset(Position::new(0, 0)), Some(0));
    assert_eq!(index.byte_offset(Position::new(0, 1)), Some(1));
    assert_eq!(index.byte_offset(Position::new(0, 2)), None);
    assert_eq!(index.byte_offset(Position::new(0, 3)), Some(5));
    assert_eq!(index.byte_offset(Position::new(0, 9)), Some(6));
    assert_eq!(index.byte_offset(Position::new(1, 2)), Some(9));
    assert_eq!(index.byte_offset(Position::new(2, 0)), Some(11));
    assert_eq!(index.byte_offset(Position::new(3, 0)), None);
    for offset in [0, 1, 5, 6, 7, 8, 9, 11, 12] {
        let at = index.position(offset).unwrap();
        assert_eq!(index.byte_offset(at), Some(offset));
    }
}

fn opened() -> (Documents, String) {
    let mut documents = Documents::new();
    let uri = String::from("untitled:document");
    documents.open(uri.clone(), Some("untitled"), 4, "current".into());
    (documents, uri)
}

fn whole(text: &str) -> ContentChange {
    ContentChange { text: text.into(), ranged: false }
}

#[test]
fn preserves_text_when_versions_are_stale_or_equal() {
    let (mut documents, uri) = opened();
    for version in [3, 4] {
        assert_eq!(documents.change(&uri, version, vec![whole("stale")]), Ok(false));
        assert_eq!(documents.get(&uri).unwrap().text, "current");
    }
}

#[test]
fn uses_last_full_replacement_when_changes_are_ordered() {
    let (mut documents, uri) = opened();
    documents.change(&uri, 5, vec![whole("first"), whole("last")]).unwrap();
    let document = documents.get(&uri).unwrap();
    assert_eq!((&*document.text, document.version), ("last", 5));
}

#[test]
fn preserves_document_when_incremental_change_is_rejected() {
    let (mut documents, uri) = opened();
    let changes = vec![whole("new"), ContentChange { text: "bad".into(), ranged: true }];
    assert_eq!(documents.change(&uri, 5, changes), Err(ChangeError::IncrementalChange));
    assert_eq!(documents.get(&uri).unwrap().text, "current");
}

#[test]
fn forgets_document_when_closed() {
    let (mut documents, uri) = opened();
    let removed = documents.close(&uri);
    assert_eq!(removed.unwrap().text, "current");
    assert!(documents.get(&uri).is_none());
}

#[test]
fn replaces_generation_when_same_uri_and_version_are_reopened() {
    let (mut documents, uri) = opened();
    let generation = documents.get(&uri).unwrap().generation;
    documents.close(&uri);

    documents.open(uri.clone(), Some("untitled"), 4, "current".into());

    assert_ne!(generation, documents.get(&uri).unwrap().generation);
}

#[test]
fn refuses_documents_with_other_schemes_or_already_open() {
    let (mut documents, uri) = opened();
    assert_eq!(documents.open("http://x/a".into(), Some("http"), 1, "a".into()), None);
    assert_eq!(documents.open("nothing".into(), None, 1, "a".into()), None);
    assert_eq!(documents.open(uri.clone(), Some("untitled"), 9, "other".into()), None);
    assert_eq!(documents.get(&uri).unwrap().text, "current");
    assert_eq!(documents.open("file:///a".into(), Some("file"), 1, "a".into()), Some("file:///a".into()));
    assert_eq!(documents.len(), 2);
}

#[test]
fn ignores_changes_to_documents_that_are_not_open() {
    let (mut documents, _) = opened();
    assert_eq!(documents.change("untitled:other", 9, vec![whole("x")]), Ok(false));
}

fn info(signature: &str, label: Option<&str>) -> HoverInfo {
    HoverInfo {
        span: Span { start: 0, end: 1 },
        signature: signature.into(),
        type_label: label.map(str::to_owned),
        kind: HoverKind::Method,
        owner: None,
        details: vec![],
        docs: None,
    }
}

#[test]
fn preserves_plaintext_when_signature_contains_markup_and_linebreaks() {
    let given = info("fun read(value = 'a  b\r\n`[go](command:run)` <b>&')", None);

    let when = render(&given, Format::Plaintext);

    assert_eq!(when.value, format!("{}\n\nKind: Method", given.signature));
    assert_eq!(when.kind, Format::Plaintext);
}

#[test]
fn fences_source_when_markdown_contains_links_html_and_fences() {
    let given = info("[go](command:run) <b>&amp;\n```\n# title", None);

    let when = render(&given, Format::Markdown);

    assert_eq!(
        when.value,
        "````iris\n[go](command:run) <b>&amp;\n```\n# title\n````\n\n**Kind:** Method"
    );
}

#[test]
fn bounds_output_when_fencing_large_backtick_runs() {
    let given = info(&"`".repeat(100_000), None);

    let when = render(&given, Format::Markdown);

    assert!(when.value.len() <= MAX_BYTES);
    let lines: Vec<_> = when.value.lines().collect();
    let fence = lines[0].strip_suffix("iris").unwrap();
    assert_eq!(lines[2], fence);
    assert!(lines[1].ends_with("..."));
    assert!(fence.len() > lines[1].trim_end_matches('.').len());
}

#[test]
fn preserves_scalar_boundaries_when_unicode_exceeds_budget() {
    let given = info(&"\u{1f600}".repeat(3000), None);
    for format in [Format::Plaintext, Format::Markdown] {
        let when = render(&given, format);

        assert!(when.value.len() <= MAX_BYTES);
        assert!(when.value.contains("..."));
        assert!(when.value.contains('\u{1f600}'));
    }
}

#[test]
fn displays_kind_when_signature_already_contains_type() {
    for (signature, label, expected) in [
        ("let item: Integer", Some("Integer"), "let item: Integer"),
        ("fun read() -> String", Some("String"), "fun read() -> String"),
        ("*values: Integer", Some("Array<Integer>"), "*values: Integer\n\nType: Array<Integer>"),
        ("class Box", None, "class Box"),
    ] {
        let given = info(signature, label);

        let when = render(&given, Format::Plaintext);

        assert_eq!(when.value, format!("{expected}\n\nKind: Method"));
    }
}

#[test]
fn separates_metadata_and_literal_docs_when_source_has_rich_details() {
    let mut given = info("public fun read() -> String", Some("String"));
    given.owner = Some("Core::Box".into());
    given.details = vec![HoverDetail::ReturnType("String".into())];
    given.docs = Some(DocumentationInfo {
        text: "Read safely.\n\n![image](https://example.test/a) <b> [run](command:run)\n@param stays plain".into(),
        truncated: false,
    });

    let when = render(&given, Format::Markdown);

    assert!(when.value.starts_with("```iris\npublic fun read() -> String\n```"));
    assert!(when.value.contains("**Owner:** Core\\:\\:Box"));
    assert!(when.value.contains("**Declared return:** String"));
    assert!(when.value.contains("\n\n---\n\n**Documentation**\n\nRead safely\\.\n\n\\!\\[image\\]"));
    assert!(!when.value.contains("<b>"));
    assert!(!when.value.contains("[run](command:run)"));
    assert!(when.value.contains("\\@param stays plain"));
}

#[test]
fn keeps_plaintext_docs_when_plaintext_is_negotiated() {
    let given = DocumentationInfo {
        text: "<b> [run](command:run)\n\n@param plain".into(),
        truncated: false,
    };

    let when = render_docs(&given, Format::Plaintext);

    assert_eq!(when.value, given.text);
    assert_eq!(when.kind, Format::Plaintext);
}

#[test]
fn escapes_complete_scalars_when_documentation_exceeds_final_budget() {
    let given = DocumentationInfo {
        text: "😀[x](command:run)<img src='https://example.test'>".repeat(4000),
        truncated: false,
    };

    let when = render_docs(&given, Format::Markdown);

    assert!(when.value.len() <= MAX_BYTES);
    assert!(when.value.ends_with("..."));
    assert!(!when.value.ends_with("\\..."));
    assert!(!when.value.contains("<img"));
    assert!(!when.value.contains("[x]("));
}

#[test]
fn marks_analysis_truncation_when_documentation_was_already_bounded() {
    let given = DocumentationInfo { text: "Partial text".into(), truncated: true };

    let when = render_docs(&given, Format::Markdown);

    assert_eq!(when.value, "Partial text...");
}

#[test]
fn reserves_balanced_sections_when_every_field_is_large() {
    let mut given = info(&"😀`".repeat(9000), None);
    given.owner = Some("[owner](command:run)".repeat(9000));
    given.docs = Some(DocumentationInfo { text: "<img>".repeat(9000), truncated: false });

    let when = render(&given, Format::Markdown);

    assert!(when.value.len() <= MAX_BYTES);
    let fence = when.value.lines().next().unwrap().strip_suffix("iris").unwrap();
    assert!(when.value.contains(&format!("\n{fence}\n")));
    assert_eq!(when.value.matches("**").count() % 2, 0);
    assert!(!when.value.contains("<img>"));
}

#[test]
fn keeps_entities_and_escapes_atomic_when_budget_ends_at_each_boundary() {
    for padding in 0..24 {
        let given = DocumentationInfo {
            text: format!("{}<>&\\[😀", "x".repeat(MAX_BYTES - padding)),
            truncated: false,
        };

        let when = render_docs(&given, Format::Markdown);

        assert!(when.value.len() <= MAX_BYTES);
        let suffix = when.value.trim_end_matches('.');
        for partial in ["&", "&l", "&lt", "&g", "&gt", "&a", "&am", "&amp"] {
            assert!(!suffix.ends_with(partial));
        }
        assert_eq!(suffix.chars().rev().take_while(|scalar| *scalar == '\\').count() % 2, 0);
    }
}

#[test]
fn negotiates_first_supported_format_when_client_lists_preferences() {
    for (formats, expected) in [
        (vec![Format::Markdown, Format::Plaintext], Format::Markdown),
        (vec![Format::Plaintext, Format::Markdown], Format::Plaintext),
        (vec![], Format::Plaintext),
    ] {
        assert_eq!(Format::negotiate(&formats), expected);
    }
    assert_eq!(Format::default(), Format::Plaintext);
}

#[test]
fn labels_every_detail_in_order() {
    let mut given = info("fun f(x)", None);
    given.kind = HoverKind::Parameter;
    given.details = vec![
        HoverDetail::ValueType("Integer".into()),
        HoverDetail::ParameterCategory(ParameterCategory::KeywordRest),
    ];

    let when = render(&given, Format::Plaintext);

    assert_eq!(when.value, "fun f(x)\n\nKind: Parameter\n\nType: Integer\n\nParameter: Keyword rest");
    assert_eq!(kind_label(HoverKind::TypeAlias), "Type alias");
}

#[test]
fn frames_round_trip_when_payload_fits() {
    let payload = b"\"let x = 1\"".to_vec();
    let frame = encode_frame(&payload, OUTPUT_LIMIT).unwrap();
    assert_eq!(&frame[..4], &[0, 0, 0, 11]);
    assert_eq!(decode_frame(&frame, OUTPUT_LIMIT), Ok(payload));
}

#[test]
fn rejects_frames_beyond_their_limit_or_cut_short() {
    assert_eq!(frame_length(u32::MAX.to_be_bytes(), OUTPUT_LIMIT), Err(FrameError::ExceedsLimit));
    assert_eq!(frame_length([0, 0, 1, 0], OUTPUT_LIMIT), Ok(256));
    assert_eq!(encode_frame(&[1, 2, 3], 2), Err(FrameError::ExceedsLimit));
    assert_eq!(decode_frame(&[0, 0, 0, 5, 1, 2], 32), Err(FrameError::Truncated));
    assert_eq!(decode_frame(&[0, 0], 32), Err(FrameError::Truncated));
}

#[test]
fn reports_skip_reasons_by_name() {
    assert_eq!(outcome_of(FormatOutcome::Skipped(SkipReason::TokenMismatch)), Outcome::Skipped("TokenMismatch".into()));
    assert_eq!(outcome_of(FormatOutcome::Unchanged), Outcome::Unchanged);
    assert_eq!(outcome_of(FormatOutcome::Changed("x".into())), Outcome::Changed("x".into()));
}

#[test]
fn refuses_sources_beyond_the_input_limit() {
    assert_eq!(input_within_limit(&"x".repeat(INPUT_LIMIT + 1)), Err(Failure::InputLimit));
    assert_eq!(input_within_limit(&"x".repeat(INPUT_LIMIT)), Ok(()));
}

#[test]
fn starts_the_computation_deadline_when_the_worker_becomes_ready() {
    let mut clock = WorkerClock::start(0, Budget::default());
    assert_eq!(clock.deadline, 45_000);
    let result = clock.poll(vec![WorkerEvent::Ready(100)], 101, ChildState::Running);
    assert_eq!(result, None);
    assert!(clock.ready);
    assert_eq!(clock.deadline, 2_100);
}

#[test]
fn times_out_by_phase_when_deadlines_pass() {
    let mut starting = WorkerClock::start(0, Budget::default());
    assert_eq!(starting.poll(vec![], 45_000, ChildState::Running), Some(Err(Failure::StartupTimeout)));
    let mut late = WorkerClock::start(0, Budget::default());
    assert_eq!(late.poll(vec![WorkerEvent::Ready(45_001)], 45_001, ChildState::Running), Some(Err(Failure::StartupTimeout)));
    let mut computing = WorkerClock::start(0, Budget::default());
    let events = vec![WorkerEvent::Ready(10), WorkerEvent::Finished(Ok(Outcome::Unchanged), 3_010)];
    assert_eq!(computing.poll(events, 3_010, ChildState::Running), Some(Err(Failure::ComputationTimeout)));
}

#[test]
fn reports_results_crashes_and_lost_processes() {
    let mut done = WorkerClock::start(0, Budget::default());
    let events = vec![WorkerEvent::Ready(10), WorkerEvent::Finished(Ok(Outcome::Unchanged), 20)];
    assert_eq!(done.poll(events, 20, ChildState::Running), Some(Ok(Outcome::Unchanged)));
    let mut crashed = WorkerClock::start(0, Budget::default());
    assert_eq!(crashed.poll(vec![], 5, ChildState::Failed), Some(Err(Failure::Crash)));
    let mut lost = WorkerClock::start(0, Budget::default());
    assert_eq!(lost.poll(vec![], 5, ChildState::Unknown), Some(Err(Failure::Transport)));
}

#[test]
fn admits_formatting_only_for_valid_idle_open_documents() {
    assert_eq!(admission(0, Some("x"), false), Admission::InvalidTabSize);
    assert_eq!(admission(17, None, false), Admission::InvalidTabSize);
    assert_eq!(admission(2, None, false), Admission::NoDocument);
    assert_eq!(admission(2, Some("x"), true), Admission::Skip(Failure::Busy));
    assert_eq!(admission(2, Some(&"x".repeat(INPUT_LIMIT + 1)), false), Admission::Skip(Failure::InputLimit));
    assert_eq!(admission(2, Some("a\nbc"), false), Admission::Start { end: Position::new(1, 2) });
}

#[test]
fn replies_with_one_edit_or_none() {
    let end = Position::new(3, 1);
    assert_eq!(reply(Ok(Outcome::Changed("y".into())), end), Reply::Edit { end, new_text: "y".into() });
    assert_eq!(reply(Ok(Outcome::Unchanged), end), Reply::Empty);
    assert_eq!(reply(Ok(Outcome::Skipped("TokenMismatch".into())), end), Reply::Skipped("TokenMismatch".into()));
    assert_eq!(reply(Err(Failure::Stale), end), Reply::Skipped("Stale".into()));
}

#[test]
fn recognizes_current_documents_by_version_and_generation() {
    let (mut documents, uri) = opened();
    let generation = documents.get(&uri).unwrap().generation;
    assert!(is_current(&documents, &uri, 4, generation));
    documents.change(&uri, 5, vec![whole("next")]).unwrap();
    assert!(!is_current(&documents, &uri, 4, generation));
    assert!(!is_current(&documents, "untitled:other", 4, generation));
}

#[test]
fn answers_each_semantic_request_once() {
    let mut ledger = Ledger::new();
    let Ok(Dispatch::Dispatch(ticket)) = ledger.admission() else {
        panic!("the first request is dispatched");
    };
    assert_eq!(ticket, Ticket(0));
    ledger.record(ticket, None);
    assert!(ledger.answer(ticket));
    assert!(!ledger.answer(ticket));
    assert_eq!(ledger.complete(ticket), Completion::Answered);
    assert_eq!(ledger.complete(ticket), Completion::Unknown);
    assert_eq!(ledger.len(), 0);
}

#[test]
fn bounds_outstanding_semantic_requests() {
    let mut ledger = Ledger::new();
    for expected in 0..32 {
        let Ok(Dispatch::Dispatch(ticket)) = ledger.admission() else {
            panic!("within capacity");
        };
        assert_eq!(ticket, Ticket(expected));
        ledger.record(ticket, None);
    }
    assert_eq!(ledger.admission(), Ok(Dispatch::Busy));
    assert_eq!(ledger.answer_all().len(), 32);
    assert!(ledger.answer_all().is_empty());
    assert_eq!(ledger.complete(Ticket(7)), Completion::Answered);
    assert_eq!(ledger.len(), 31);
}

#[test]
fn marks_requests_stale_when_the_epoch_changes() {
    let (documents, uri) = opened();
    let mut ledger = Ledger::new();
    let Ok(Dispatch::Dispatch(ticket)) = ledger.admission() else {
        panic!("dispatched");
    };
    let document = documents.get(&uri).unwrap();
    ledger.record(ticket, Some(iris_language_tools::semantics::Stamp { version: document.version, generation: document.generation }));
    assert!(ledger.is_current(0, &documents, &uri));
    ledger.changed().unwrap();
    assert!(!ledger.is_current(0, &documents, &uri));
    assert_eq!(ledger.complete(ticket), Completion::Respond);
}

#[test]
fn maps_semantic_failures_to_error_codes() {
    assert_eq!(failure_code(SemanticFailure::Cancelled), -32800);
    assert_eq!(failure_code(SemanticFailure::Query(QueryError::Position)), -32602);
    assert_eq!(failure_code(SemanticFailure::Query(QueryError::Target)), -32803);
    assert_eq!(failure_code(SemanticFailure::Workspace), -32803);
    assert_eq!(failure_code(SemanticFailure::Identity), -32803);
}
