use vstd::prelude::*;

use crate::semantics::INVALID_PARAMS;
use crate::text::str_eq;

verus! {

/// The error code for a request before the session is initialized.
pub const NOT_INITIALIZED: i32 = -32002;

/// The error code for a request after shutdown.
pub const INVALID_REQUEST: i32 = -32600;

/// The error code for a method the server does not serve.
pub const METHOD_NOT_FOUND: i32 = -32601;

/// Where a session stands in the protocol's lifecycle.
#[derive(Clone, Copy, Debug, PartialEq, Eq, Structural)]
pub enum Phase {
    Initialize,
    Initialized,
    Running,
    Shutdown,
}

/// What to do with a request.
#[derive(Clone, Copy, Debug, PartialEq, Eq, Structural)]
pub enum RequestAction {
    /// Answer the `initialize` request with the server's capabilities.
    Initialize,
    /// Answer `shutdown`.
    ShutDown,
    /// Answer a completion request with the keywords.
    Complete,
    /// Hand the request to the formatter.
    Format,
    /// Answer with this error code.
    Refuse(i32),
}

/// What to do with a notification.
#[derive(Clone, Copy, Debug, PartialEq, Eq, Structural)]
pub enum NotificationAction {
    /// End the session; successfully only after a shutdown.
    Exit { success: bool },
    /// The client is initialized: requests may now be served.
    Start,
    /// Cancel the pending formatting request it names.
    Cancel,
    /// Apply it to the open documents.
    Documents,
    /// Nothing.
    Ignore,
}

/// The answer to a request with `method` in `phase`, whose parameters
/// decode (`params_ok`) or not, and the phase after it: only `initialize`
/// is served before initialization, nothing while awaiting the
/// `initialized` notification or after shutdown; a running session serves
/// formatting, completion and `shutdown`; parameters that do not decode are
/// invalid, and other methods are not found.
pub open spec fn spec_request(phase: Phase, method: Seq<char>, params_ok: bool) -> (Phase, RequestAction) {
    match phase {
        Phase::Initialize => if method != "initialize"@ {
            (phase, RequestAction::Refuse(NOT_INITIALIZED))
        } else if !params_ok {
            (phase, RequestAction::Refuse(INVALID_PARAMS))
        } else {
            (Phase::Initialized, RequestAction::Initialize)
        },
        Phase::Initialized => (phase, RequestAction::Refuse(NOT_INITIALIZED)),
        Phase::Running => if method == "textDocument/formatting"@ {
            (phase, RequestAction::Format)
        } else if method == "shutdown"@ {
            if params_ok {
                (Phase::Shutdown, RequestAction::ShutDown)
            } else {
                (phase, RequestAction::Refuse(INVALID_PARAMS))
            }
        } else if method == "textDocument/completion"@ {
            if params_ok {
                (phase, RequestAction::Complete)
            } else {
                (phase, RequestAction::Refuse(INVALID_PARAMS))
            }
        } else {
            (phase, RequestAction::Refuse(METHOD_NOT_FOUND))
        },
        Phase::Shutdown => (phase, RequestAction::Refuse(INVALID_REQUEST)),
    }
}

/// Decides a request; see [`spec_request`].
pub fn on_request(phase: Phase, method: &str, params_ok: bool) -> (result: (Phase, RequestAction))
    ensures
        result == spec_request(phase, method@, params_ok),
{
    match phase {
        Phase::Initialize => if !str_eq(method, "initialize") {
            (phase, RequestAction::Refuse(NOT_INITIALIZED))
        } else if !params_ok {
            (phase, RequestAction::Refuse(INVALID_PARAMS))
        } else {
            (Phase::Initialized, RequestAction::Initialize)
        },
        Phase::Initialized => (phase, RequestAction::Refuse(NOT_INITIALIZED)),
        Phase::Running => if str_eq(method, "textDocument/formatting") {
            (phase, RequestAction::Format)
        } else if str_eq(method, "shutdown") {
            if params_ok {
                (Phase::Shutdown, RequestAction::ShutDown)
            } else {
                (phase, RequestAction::Refuse(INVALID_PARAMS))
            }
        } else if str_eq(method, "textDocument/completion") {
            if params_ok {
                (phase, RequestAction::Complete)
            } else {
                (phase, RequestAction::Refuse(INVALID_PARAMS))
            }
        } else {
            (phase, RequestAction::Refuse(METHOD_NOT_FOUND))
        },
        Phase::Shutdown => (phase, RequestAction::Refuse(INVALID_REQUEST)),
    }
}

/// The action for a notification with `method` in `phase`: `exit` ends the
/// session at any time; `initialized` starts it once initialized (when its
/// parameters decode); a running session cancels on `$/cancelRequest` and
/// applies everything else to its documents; nothing else happens.
pub open spec fn spec_notification(phase: Phase, method: Seq<char>, params_ok: bool) -> NotificationAction {
    if method == "exit"@ {
        NotificationAction::Exit { success: phase == Phase::Shutdown }
    } else {
        match phase {
            Phase::Initialized => if method == "initialized"@ && params_ok {
                NotificationAction::Start
            } else {
                NotificationAction::Ignore
            },
            Phase::Running => if method == "$/cancelRequest"@ {
                NotificationAction::Cancel
            } else {
                NotificationAction::Documents
            },
            _ => NotificationAction::Ignore,
        }
    }
}

/// Decides a notification; see [`spec_notification`].
pub fn on_notification(phase: Phase, method: &str, params_ok: bool) -> (result: NotificationAction)
    ensures
        result == spec_notification(phase, method@, params_ok),
{
    if str_eq(method, "exit") {
        return NotificationAction::Exit { success: phase == Phase::Shutdown };
    }
    match phase {
        Phase::Initialized => if str_eq(method, "initialized") && params_ok {
            NotificationAction::Start
        } else {
            NotificationAction::Ignore
        },
        Phase::Running => if str_eq(method, "$/cancelRequest") {
            NotificationAction::Cancel
        } else {
            NotificationAction::Documents
        },
        _ => NotificationAction::Ignore,
    }
}

/// The phase after a notification's action.
pub open spec fn after_notification(phase: Phase, action: NotificationAction) -> Phase {
    if action == NotificationAction::Start {
        Phase::Running
    } else {
        phase
    }
}

/// The lifecycle only moves forward: no request or notification takes a
/// session back to an earlier phase, and a session that has shut down
/// stays shut down.
pub proof fn law_lifecycle_moves_forward(phase: Phase, method: Seq<char>, params_ok: bool)
    ensures
        rank(spec_request(phase, method, params_ok).0) >= rank(phase),
        rank(after_notification(phase, spec_notification(phase, method, params_ok))) >= rank(phase),
        phase == Phase::Shutdown ==> spec_request(phase, method, params_ok).0 == Phase::Shutdown,
{
}

/// The order of the phases.
pub open spec fn rank(phase: Phase) -> int {
    match phase {
        Phase::Initialize => 0,
        Phase::Initialized => 1,
        Phase::Running => 2,
        Phase::Shutdown => 3,
    }
}

/// A message of a session, as the decisions see it: a request or a
/// notification, its method, and whether its parameters decode.
pub struct Incoming {
    pub request: bool,
    pub method: Seq<char>,
    pub params_ok: bool,
}

/// The phase after one message.
pub open spec fn phase_after(phase: Phase, message: Incoming) -> Phase {
    if message.request {
        spec_request(phase, message.method, message.params_ok).0
    } else {
        after_notification(phase, spec_notification(phase, message.method, message.params_ok))
    }
}

/// The phase of a session that started uninitialized and took the first
/// `k` messages.
pub open spec fn phase_at(messages: Seq<Incoming>, k: int) -> Phase
    decreases k,
{
    if k <= 0 {
        Phase::Initialize
    } else {
        phase_after(phase_at(messages, k - 1), messages[k - 1])
    }
}

/// Message `j` is an `initialized` notification that started the session.
pub open spec fn started_at(messages: Seq<Incoming>, j: int) -> bool {
    &&& !messages[j].request
    &&& spec_notification(phase_at(messages, j), messages[j].method, messages[j].params_ok)
        == NotificationAction::Start
}

/// Message `j` is a `shutdown` request that the session accepted.
pub open spec fn shut_down_at(messages: Seq<Incoming>, j: int) -> bool {
    &&& messages[j].request
    &&& spec_request(phase_at(messages, j), messages[j].method, messages[j].params_ok).1
        == RequestAction::ShutDown
}

/// Over a whole run of messages: a session serves requests (rather than
/// refusing them as not initialized) exactly once an `initialized`
/// notification has started it; it is shut down exactly once a `shutdown`
/// request has been accepted, and then refuses every request as invalid;
/// before it starts, every request but an `initialize` in the first phase
/// is refused as not initialized; and an `exit` ends it successfully exactly
/// when a shutdown was accepted before it.
pub proof fn law_session_run(messages: Seq<Incoming>, k: int)
    requires
        0 <= k < messages.len(),
    ensures
        rank(phase_at(messages, k)) >= 2 <==> exists|j: int| 0 <= j < k && #[trigger] started_at(messages, j),
        phase_at(messages, k) == Phase::Shutdown <==> exists|j: int| 0 <= j < k && #[trigger] shut_down_at(messages, j),
        messages[k].request && rank(phase_at(messages, k)) < 2 && !(phase_at(messages, k) == Phase::Initialize
            && messages[k].method == "initialize"@) ==> spec_request(phase_at(messages, k), messages[k].method, messages[k].params_ok).1
            == RequestAction::Refuse(NOT_INITIALIZED),
        messages[k].request && phase_at(messages, k) == Phase::Shutdown ==> spec_request(phase_at(messages, k), messages[k].method, messages[k].params_ok).1
            == RequestAction::Refuse(INVALID_REQUEST),
        !messages[k].request && messages[k].method == "exit"@ ==> spec_notification(phase_at(messages, k), messages[k].method, messages[k].params_ok)
            == (NotificationAction::Exit { success: exists|j: int| 0 <= j < k && #[trigger] shut_down_at(messages, j) }),
    decreases k,
{
    reveal_strlit("exit");
    reveal_strlit("initialized");
    reveal_strlit("initialize");
    reveal_strlit("shutdown");
    reveal_strlit("textDocument/formatting");
    reveal_strlit("textDocument/completion");
    if k > 0 {
        law_session_run(messages, k - 1);
        let before = phase_at(messages, k - 1);
        let m = messages[k - 1];
        law_lifecycle_moves_forward(before, m.method, m.params_ok);
        if rank(phase_at(messages, k)) >= 2 && rank(before) < 2 {
            assert(started_at(messages, k - 1));
        }
        if exists|j: int| 0 <= j < k && #[trigger] started_at(messages, j) {
            let j = choose|j: int| 0 <= j < k && #[trigger] started_at(messages, j);
            if j < k - 1 {
                assert(exists|i: int| 0 <= i < k - 1 && #[trigger] started_at(messages, i));
            }
        }
        if phase_at(messages, k) == Phase::Shutdown && before != Phase::Shutdown {
            assert(shut_down_at(messages, k - 1));
        }
        if exists|j: int| 0 <= j < k && #[trigger] shut_down_at(messages, j) {
            let j = choose|j: int| 0 <= j < k && #[trigger] shut_down_at(messages, j);
            if j < k - 1 {
                assert(exists|i: int| 0 <= i < k - 1 && #[trigger] shut_down_at(messages, i));
            }
        }
    }
}

/// The request methods the server advertises in its capabilities, besides
/// the lifecycle's own `initialize` and `shutdown`.
pub open spec fn advertised(method: Seq<char>) -> bool {
    method == "textDocument/formatting"@ || method == "textDocument/completion"@
}

/// A running session serves what it advertises: a formatting request always
/// goes to the formatter, whatever its parameters, and a completion request
/// with parameters that decode is answered; neither is ever reported as a
/// method not found. Only methods that are not advertised (nor `shutdown`)
/// are not found.
pub proof fn law_running_serves_advertised(method: Seq<char>, params_ok: bool)
    ensures
        method == "textDocument/formatting"@ ==> spec_request(Phase::Running, method, params_ok)
            == (Phase::Running, RequestAction::Format),
        method == "textDocument/completion"@ && params_ok ==> spec_request(Phase::Running, method, params_ok).1
            == RequestAction::Complete,
        advertised(method) ==> spec_request(Phase::Running, method, params_ok).1 != RequestAction::Refuse(
            METHOD_NOT_FOUND,
        ),
        spec_request(Phase::Running, method, params_ok).1 == RequestAction::Refuse(METHOD_NOT_FOUND)
            ==> !advertised(method) && method != "shutdown"@,
        spec_request(Phase::Running, method, params_ok).0 == Phase::Running || method == "shutdown"@,
{
    reveal_strlit("textDocument/formatting");
    reveal_strlit("textDocument/completion");
    reveal_strlit("shutdown");
    assert("textDocument/formatting"@[13] != "textDocument/completion"@[13]);
    assert("textDocument/formatting"@ != "textDocument/completion"@);
    assert("shutdown"@.len() != "textDocument/completion"@.len());
    assert("shutdown"@ != "textDocument/completion"@);
}

} // verus!
