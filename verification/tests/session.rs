use iris_language_tools::session::{
    on_notification, on_request, NotificationAction, Phase, RequestAction, INVALID_REQUEST, NOT_INITIALIZED,
};

#[test]
fn a_session_serves_only_between_start_and_shutdown_and_exits_cleanly_after_shutdown() {
    let mut phase = Phase::Initialize;
    assert_eq!(on_request(phase, "shutdown", true).1, RequestAction::Refuse(NOT_INITIALIZED));
    let (next, action) = on_request(phase, "initialize", true);
    assert_eq!(action, RequestAction::Initialize);
    phase = next;
    assert_eq!(on_request(phase, "textDocument/completion", true).1, RequestAction::Refuse(NOT_INITIALIZED));
    assert_eq!(on_notification(phase, "initialized", true), NotificationAction::Start);
    phase = Phase::Running;
    assert_eq!(on_request(phase, "textDocument/completion", true).1, RequestAction::Complete);
    assert_eq!(on_notification(phase, "exit", true), NotificationAction::Exit { success: false });
    let (next, action) = on_request(phase, "shutdown", true);
    assert_eq!(action, RequestAction::ShutDown);
    phase = next;
    assert_eq!(on_request(phase, "textDocument/completion", true).1, RequestAction::Refuse(INVALID_REQUEST));
    assert_eq!(on_notification(phase, "exit", true), NotificationAction::Exit { success: true });
}
