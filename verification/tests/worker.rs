use iris_language_tools::worker::{input_within_limit, Budget, ChildState, Failure, WorkerClock, WorkerEvent};
use iris_language_tools::worker_protocol::{decode_frame, encode_frame, Outcome, INPUT_LIMIT, OUTPUT_LIMIT};

#[test]
fn rejects_input_when_source_exceeds_limit() {
    let source = "x".repeat(INPUT_LIMIT + 1);
    let result = input_within_limit(&source);
    assert!(matches!(result, Err(Failure::InputLimit)));
}

#[test]
fn rejects_frame_when_advertised_output_exceeds_limit() {
    let input = u32::MAX.to_be_bytes();
    let result = decode_frame(&input, OUTPUT_LIMIT);
    assert!(result.is_err());
}

#[test]
fn separates_computation_deadline_when_worker_becomes_ready() {
    let mut worker = WorkerClock::start(0, Budget::default());
    let at = 7;
    worker.ready = true;
    worker.deadline = at;
    let result = worker.poll(Vec::new(), at, ChildState::Running);
    assert!(matches!(result, Some(Err(Failure::ComputationTimeout))));
}

#[test]
fn reports_startup_timeout_when_worker_never_announces_readiness() {
    let mut worker = WorkerClock::start(0, Budget::default());
    let now = 3;
    worker.deadline = now;
    let result = worker.poll(Vec::new(), now, ChildState::Running);
    assert!(matches!(result, Some(Err(Failure::StartupTimeout))));
}

#[test]
fn reads_valid_outcome_when_transport_round_trips() {
    let payload = serde_json::to_vec(&serde_json::Value::Object(
        [("Changed".to_string(), serde_json::Value::String("let x = 1\n".into()))]
            .into_iter()
            .collect(),
    ))
    .unwrap();
    let bytes = encode_frame(&payload, OUTPUT_LIMIT).unwrap();
    let read = decode_frame(&bytes, OUTPUT_LIMIT).unwrap();
    let value: serde_json::Value = serde_json::from_slice(&read).unwrap();
    let outcome = match value.get("Changed").and_then(|text| text.as_str()) {
        Some(text) => Outcome::Changed(text.to_string()),
        None => Outcome::Unchanged,
    };
    assert!(matches!(outcome, Outcome::Changed(text) if text == "let x = 1\n"));
}

#[test]
fn starts_computation_budget_when_ready_event_arrives_before_startup_deadline() {
    let mut worker = WorkerClock::start(1_000, Budget::default());
    let ready = 1_500;

    let result = worker.poll(vec![WorkerEvent::Ready(ready)], ready, ChildState::Running);

    assert!(result.is_none());
    assert_eq!(worker.deadline, ready + 2_000);
}

#[test]
fn rejects_completed_output_when_computation_deadline_was_exceeded() {
    let mut worker = WorkerClock::start(1_000, Budget::default());
    let ready = 1_500;
    let events = vec![
        WorkerEvent::Ready(ready),
        WorkerEvent::Finished(Ok(Outcome::Unchanged), ready + 3_000),
    ];

    let result = worker.poll(events, ready + 3_000, ChildState::Running);

    assert!(matches!(result, Some(Err(Failure::ComputationTimeout))));
}
