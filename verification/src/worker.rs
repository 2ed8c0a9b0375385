use vstd::prelude::*;

use crate::worker_protocol::{Outcome, INPUT_LIMIT};
use vstd::string::StringSliceAdditionalSpecFns;

verus! {

/// How long a formatting worker may take: to announce that it is ready,
/// and then to answer, in milliseconds.
#[derive(Clone, Copy, Debug, PartialEq, Eq, Structural)]
pub struct Budget {
    pub startup: u64,
    pub computation: u64,
}

impl Default for Budget {
    fn default() -> (result: Self)
        ensures
            result == (Budget { startup: 45000, computation: 2000 }),
    {
        Budget { startup: 45000, computation: 2000 }
    }
}

/// Why a formatting worker gave no outcome.
#[derive(Clone, Copy, Debug, PartialEq, Eq, Structural)]
pub enum Failure {
    InputLimit,
    Spawn,
    Transport,
    StartupTimeout,
    ComputationTimeout,
    Crash,
    Busy,
    Stale,
}

/// The name of a failure, as it is reported.
pub open spec fn failure_name(failure: Failure) -> Seq<char> {
    match failure {
        Failure::InputLimit => "InputLimit"@,
        Failure::Spawn => "Spawn"@,
        Failure::Transport => "Transport"@,
        Failure::StartupTimeout => "StartupTimeout"@,
        Failure::ComputationTimeout => "ComputationTimeout"@,
        Failure::Crash => "Crash"@,
        Failure::Busy => "Busy"@,
        Failure::Stale => "Stale"@,
    }
}

impl Failure {
    /// The name of this failure, as it is reported.
    pub fn name(&self) -> (result: &'static str)
        ensures
            result@ == failure_name(*self),
    {
        match self {
            Failure::InputLimit => "InputLimit",
            Failure::Spawn => "Spawn",
            Failure::Transport => "Transport",
            Failure::StartupTimeout => "StartupTimeout",
            Failure::ComputationTimeout => "ComputationTimeout",
            Failure::Crash => "Crash",
            Failure::Busy => "Busy",
            Failure::Stale => "Stale",
        }
    }
}

/// A source may be handed to a worker only if it is within the input limit.
pub fn input_within_limit(source: &str) -> (result: Result<(), Failure>)
    ensures
        source.spec_bytes().len() > INPUT_LIMIT ==> result == Err::<(), Failure>(Failure::InputLimit),
        source.spec_bytes().len() <= INPUT_LIMIT ==> result == Ok::<(), Failure>(()),
{
    if source.as_bytes().len() > INPUT_LIMIT {
        Err(Failure::InputLimit)
    } else {
        Ok(())
    }
}

/// What the transport of a worker reports, with the time it happened, in
/// milliseconds.
pub enum WorkerEvent {
    Ready(u64),
    Finished(Result<Outcome, Failure>, u64),
}

/// How the worker's process stands when it is polled.
#[derive(Clone, Copy, Debug, PartialEq, Eq, Structural)]
pub enum ChildState {
    /// Still running, or exited successfully.
    Running,
    /// Exited with a failure status.
    Failed,
    /// Its status could not be read.
    Unknown,
}

/// The deadline of a worker: before it is ready, the startup deadline;
/// afterwards, the computation deadline that its readiness started.
#[derive(Clone, Copy, Debug, PartialEq, Eq, Structural)]
pub struct WorkerClock {
    pub deadline: u64,
    pub ready: bool,
    pub budget: Budget,
}

/// What a poll yields: an answer, or nothing yet; and the clock after it.
pub open spec fn timeout_of(clock: WorkerClock) -> Failure {
    if clock.ready {
        Failure::ComputationTimeout
    } else {
        Failure::StartupTimeout
    }
}

/// A clock whose events can be handled without overflow.
pub open spec fn events_fit(clock: WorkerClock, events: Seq<WorkerEvent>) -> bool {
    forall|k: int|
        0 <= k < events.len() ==> (#[trigger] events[k] matches WorkerEvent::Ready(at) ==> at
            + clock.budget.computation <= u64::MAX)
}

/// Handling `events[k..]` in order from `clock`: a readiness after the
/// deadline is a startup timeout, and otherwise starts the computation
/// deadline; a result after the deadline is a timeout, and otherwise is
/// the answer. With no answer from the events, the answer is a timeout
/// once `now` reaches the deadline, a crash when the process failed, a
/// transport failure when its status is unknown, and nothing otherwise.
pub open spec fn spec_poll(
    clock: WorkerClock,
    events: Seq<WorkerEvent>,
    k: int,
    now: u64,
    child: ChildState,
) -> (WorkerClock, Option<Result<Outcome, Failure>>)
    decreases events.len() - k,
{
    if k < 0 || k >= events.len() {
        if now >= clock.deadline {
            (clock, Some(Err(timeout_of(clock))))
        } else if child == ChildState::Failed {
            (clock, Some(Err(Failure::Crash)))
        } else if child == ChildState::Unknown {
            (clock, Some(Err(Failure::Transport)))
        } else {
            (clock, None)
        }
    } else {
        match events[k] {
            WorkerEvent::Ready(at) => if at > clock.deadline {
                (clock, Some(Err(Failure::StartupTimeout)))
            } else {
                spec_poll(
                    WorkerClock {
                        deadline: (at + clock.budget.computation) as u64,
                        ready: true,
                        ..clock
                    },
                    events,
                    k + 1,
                    now,
                    child,
                )
            },
            WorkerEvent::Finished(result, at) => if at > clock.deadline {
                (clock, Some(Err(timeout_of(clock))))
            } else {
                (clock, Some(result))
            },
        }
    }
}

impl WorkerClock {
    /// The clock of a worker started at `now`.
    pub fn start(now: u64, budget: Budget) -> (result: Self)
        requires
            now + budget.startup <= u64::MAX,
        ensures
            result == (WorkerClock { deadline: (now + budget.startup) as u64, ready: false, budget }),
    {
        WorkerClock { deadline: now + budget.startup, ready: false, budget }
    }

    /// Handles the events that arrived since the last poll; see [`spec_poll`].
    #[verifier::loop_isolation(false)]
    pub fn poll(&mut self, events: Vec<WorkerEvent>, now: u64, child: ChildState) -> (result: Option<
        Result<Outcome, Failure>,
    >)
        requires
            events_fit(*old(self), events@),
        ensures
            (*final(self), result) == spec_poll(*old(self), events@, 0, now, child),
    {
        let mut events = events;
        let ghost all = events@;
        let mut k: usize = 0;
        let n = events.len();
        assert(events@ =~= all.subrange(0, n as int));
        while k < n
            invariant
                n == all.len(),
                k <= n,
                events@ == all.subrange(k as int, n as int),
                forall|j: int|
                    0 <= j < all.len() ==> (#[trigger] all[j] matches WorkerEvent::Ready(at) ==> at
                        + self.budget.computation <= u64::MAX),
                self.budget == old(self).budget,
                spec_poll(*old(self), all, 0, now, child) == spec_poll(*self, all, k as int, now, child),
            decreases n - k,
        {
            let event = events.remove(0);
            assert(event == all[k as int]);
            assert(events@ =~= all.subrange(k + 1, n as int));
            match event {
                WorkerEvent::Ready(at) => {
                    if at > self.deadline {
                        return Some(Err(Failure::StartupTimeout));
                    }
                    self.ready = true;
                    self.deadline = at + self.budget.computation;
                },
                WorkerEvent::Finished(result, at) => {
                    if at > self.deadline {
                        return Some(Err(self.timeout()));
                    }
                    return Some(result);
                },
            }
            k = k + 1;
        }
        if now >= self.deadline {
            return Some(Err(self.timeout()));
        }
        match child {
            ChildState::Failed => Some(Err(Failure::Crash)),
            ChildState::Unknown => Some(Err(Failure::Transport)),
            ChildState::Running => None,
        }
    }

    fn timeout(&self) -> (result: Failure)
        ensures
            result == timeout_of(*self),
    {
        if self.ready {
            Failure::ComputationTimeout
        } else {
            Failure::StartupTimeout
        }
    }
}

} // verus!
