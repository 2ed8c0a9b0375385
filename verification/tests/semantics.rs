use iris_language_tools::documents::Documents;
use iris_language_tools::semantics::{
    notification, Admission, Completion, Ledger, Stamp, Ticket, WorkspaceNotification,
    CAPACITY, CONTENT_MODIFIED, REQUEST_CANCELLED, SERVER_BUSY,
};

const URI: &str = "untitled:test";

/// Admits and records one request for `URI`, stamped with the document as
/// `documents` has it.
fn request(ledger: &mut Ledger, documents: &Documents) -> Ticket {
    let Ok(Admission::Dispatch(ticket)) = ledger.admission() else {
        panic!("the request is dispatched");
    };
    let document = documents
        .get(URI)
        .map(|document| Stamp { version: document.version, generation: document.generation });
    ledger.record(ticket, document);
    ticket
}

/// The codes sent, as the coordinator polls, for outstanding requests
/// that are no longer current.
fn expire(ledger: &mut Ledger, documents: &Documents) -> Vec<i32> {
    let mut sent = Vec::new();
    for index in 0..ledger.len() {
        if ledger.expire(index, documents, URI) {
            sent.push(CONTENT_MODIFIED);
        }
    }
    sent
}

#[test]
fn responds_once_when_cancelled_job_finishes_later() {
    let mut given = Ledger::new();
    let documents = Documents::new();
    let ticket = request(&mut given, &documents);
    let cancelled = given.answer(ticket);
    assert!(cancelled);
    let mut sent = vec![REQUEST_CANCELLED];
    assert_eq!(given.complete(ticket), Completion::Answered);
    sent.extend(expire(&mut given, &documents));
    assert_eq!(sent, vec![-32800]);
}

#[test]
fn rejects_stale_result_when_workspace_epoch_changes() {
    let mut given = Ledger::new();
    let documents = Documents::new();
    let ticket = request(&mut given, &documents);
    given.changed().unwrap();
    let sent = expire(&mut given, &documents);
    assert_eq!(given.complete(ticket), Completion::Answered);
    assert_eq!(sent, vec![-32801]);
}

#[test]
fn bounds_outstanding_work_when_cancelled_jobs_await_acknowledgement() {
    let mut given = Ledger::new();
    let documents = Documents::new();
    for _ in 0..32 {
        let ticket = request(&mut given, &documents);
        assert!(given.answer(ticket));
        assert_eq!(REQUEST_CANCELLED, -32800);
    }
    assert_eq!(given.admission(), Ok(Admission::Busy));
    assert_eq!(SERVER_BUSY, -32802);
    assert_eq!(given.len(), CAPACITY);
}

#[test]
fn cancels_all_pending_when_shutdown_is_accepted() {
    let mut given = Ledger::new();
    let documents = Documents::new();
    let ticket = request(&mut given, &documents);
    let cancelled = given.answer_all();
    assert_eq!(cancelled, vec![ticket.0]);
    assert_eq!(REQUEST_CANCELLED, -32800);
}

#[test]
fn rejects_generation_when_document_reopens_at_same_version_without_epoch_change() {
    let mut given = Ledger::new();
    let mut documents = Documents::new();
    documents.open(URI.to_string(), Some("untitled"), 1, String::new());
    let ticket = request(&mut given, &documents);
    documents.close(URI);
    documents.open(URI.to_string(), Some("untitled"), 1, String::new());
    let sent = expire(&mut given, &documents);
    assert_eq!(given.complete(ticket), Completion::Answered);
    assert_eq!(sent, vec![-32801]);
}

fn strings(items: &[&str]) -> Vec<String> {
    items.iter().map(|item| item.to_string()).collect()
}

#[test]
fn folder_changes_update_roots_and_advance_the_epoch() {
    let mut ledger = Ledger::new();
    let mut roots = strings(&["file:///a", "file:///b", "file:///c"]);
    let event = WorkspaceNotification::FoldersChanged {
        removed: strings(&["file:///b"]),
        added: strings(&["file:///a", "file:///d", "file:///d"]),
    };
    assert_eq!(notification(&mut ledger, &mut roots, event), Ok(()));
    assert_eq!(roots, strings(&["file:///a", "file:///c", "file:///d"]));
    assert_eq!(ledger.epoch().0, 1);
}

#[test]
fn only_input_changes_advance_the_epoch() {
    let mut ledger = Ledger::new();
    let mut roots = strings(&["file:///a"]);
    let quiet = WorkspaceNotification::WatchedFilesChanged { changes: 0 };
    assert_eq!(notification(&mut ledger, &mut roots, quiet), Ok(()));
    assert_eq!(notification(&mut ledger, &mut roots, WorkspaceNotification::Other), Ok(()));
    assert_eq!(ledger.epoch().0, 0);
    let files = WorkspaceNotification::WatchedFilesChanged { changes: 2 };
    assert_eq!(notification(&mut ledger, &mut roots, files), Ok(()));
    assert_eq!(notification(&mut ledger, &mut roots, WorkspaceNotification::Saved), Ok(()));
    assert_eq!(ledger.epoch().0, 2);
    assert_eq!(roots, strings(&["file:///a"]));
}
