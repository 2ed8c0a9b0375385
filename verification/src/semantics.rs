use vstd::prelude::*;

use crate::documents::Documents;
use crate::text::{contains_string, lemma_string_views, string_views};

verus! {

/// The most semantic requests that may be outstanding at once.
pub const CAPACITY: usize = 32;

/// A generation of the workspace's inputs; it advances whenever they change.
#[derive(Clone, Copy, Debug, PartialEq, Eq, Structural)]
pub struct Epoch(pub u64);

/// The number that ties a semantic job to the request it answers.
#[derive(Clone, Copy, Debug, PartialEq, Eq, Structural)]
pub struct Ticket(pub u64);

/// Why a query could not be answered.
#[derive(Clone, Copy, Debug, PartialEq, Eq, Structural)]
pub enum QueryError {
    /// The position is outside the document or splits a UTF-16 surrogate pair.
    Position,
    /// The workspace inventory is incomplete.
    Incomplete,
    /// The semantic target is outside its source.
    Target,
}

/// Why a semantic job failed.
#[derive(Clone, Copy, Debug, PartialEq, Eq, Structural)]
pub enum Failure {
    Cancelled,
    Query(QueryError),
    Workspace,
    Identity,
}

/// JSON-RPC error codes the coordinator answers with.
pub const REQUEST_CANCELLED: i32 = -32800;
pub const CONTENT_MODIFIED: i32 = -32801;
pub const SERVER_BUSY: i32 = -32802;
pub const WORKER_UNAVAILABLE: i32 = -32803;
pub const INVALID_PARAMS: i32 = -32602;

/// The error code a failed job is answered with.
pub open spec fn spec_failure_code(failure: Failure) -> i32 {
    match failure {
        Failure::Cancelled => REQUEST_CANCELLED,
        Failure::Query(QueryError::Position) => INVALID_PARAMS,
        _ => WORKER_UNAVAILABLE,
    }
}

/// The error code a failed job is answered with.
pub fn failure_code(failure: Failure) -> (result: i32)
    ensures
        result == spec_failure_code(failure),
{
    match failure {
        Failure::Cancelled => REQUEST_CANCELLED,
        Failure::Query(QueryError::Position) => INVALID_PARAMS,
        _ => WORKER_UNAVAILABLE,
    }
}

/// Which opening of a document, at which version, a request concerns.
#[derive(Clone, Copy, Debug, PartialEq, Eq, Structural)]
pub struct Stamp {
    pub version: i32,
    pub generation: u64,
}

/// An outstanding request: its ticket, whether it has been answered, the
/// epoch it was made in, and the document (version and generation) it
/// concerns, if that document was open.
#[derive(Clone, Copy, Debug, PartialEq, Eq, Structural)]
pub struct Pending {
    pub ticket: u64,
    pub answered: bool,
    pub epoch: u64,
    pub document: Option<Stamp>,
}

/// The requests handed to the semantic worker whose jobs have not come back.
pub struct Ledger {
    pending: Vec<Pending>,
    epoch: u64,
    next_ticket: u64,
}

/// The ledger as plain values.
pub struct LedgerView {
    pub pending: Seq<Pending>,
    pub epoch: u64,
    pub next_ticket: u64,
}

impl View for Ledger {
    type V = LedgerView;

    closed spec fn view(&self) -> LedgerView {
        LedgerView { pending: self.pending@, epoch: self.epoch, next_ticket: self.next_ticket }
    }
}

/// At most [`CAPACITY`] requests are outstanding, each with its own ticket,
/// and every ticket is below the next one.
pub open spec fn ledger_wf(l: LedgerView) -> bool {
    &&& l.pending.len() <= CAPACITY
    &&& forall|i: int, j: int|
        0 <= i < j < l.pending.len() ==> l.pending[i].ticket != l.pending[j].ticket
    &&& forall|i: int| 0 <= i < l.pending.len() ==> #[trigger] l.pending[i].ticket < l.next_ticket
}

/// What becomes of a request that decoded.
#[derive(Clone, Copy, Debug, PartialEq, Eq, Structural)]
pub enum Admission {
    /// Too many requests are outstanding: answer with [`SERVER_BUSY`].
    Busy,
    /// Hand the job to the worker under this ticket.
    Dispatch(Ticket),
}

/// Tickets ran out; the coordinator cannot go on.
#[derive(Clone, Copy, Debug, PartialEq, Eq, Structural)]
pub struct Exhausted;

/// What to do with a job that came back.
#[derive(Clone, Copy, Debug, PartialEq, Eq, Structural)]
pub enum Completion {
    /// No outstanding request has its ticket.
    Unknown,
    /// Its request was already answered; nothing more is sent.
    Answered,
    /// Answer its request with the job's result.
    Respond,
}

/// The outstanding request for `document` (its version and generation,
/// when it is open) is still current in `epoch`.
pub open spec fn spec_current(p: Pending, epoch: u64, document: Option<Stamp>) -> bool {
    p.epoch == epoch && p.document == document
}

/// The tickets of `pending`, in order, that are not yet answered and for
/// which `keep` fails.
pub open spec fn unanswered(pending: Seq<Pending>) -> Seq<u64>
    decreases pending.len(),
{
    if pending.len() == 0 {
        Seq::empty()
    } else {
        unanswered(pending.drop_last()) + if pending.last().answered {
            Seq::empty()
        } else {
            seq![pending.last().ticket]
        }
    }
}

/// The requests with the one of `ticket` marked answered.
pub open spec fn mark_answered(pending: Seq<Pending>, ticket: u64) -> Seq<Pending> {
    pending.map_values(
        |p: Pending|
            if p.ticket == ticket {
                Pending { answered: true, ..p }
            } else {
                p
            },
    )
}

/// The request of `ticket` is outstanding and not yet answered.
pub open spec fn awaits_answer(pending: Seq<Pending>, ticket: u64) -> bool {
    exists|i: int| 0 <= i < pending.len() && pending[i].ticket == ticket && !pending[i].answered
}

/// Every request marked answered.
pub open spec fn all_answered(pending: Seq<Pending>) -> Seq<Pending> {
    pending.map_values(|p: Pending| Pending { answered: true, ..p })
}

impl Ledger {
    /// No requests, in the first epoch, with the first ticket next.
    pub fn new() -> (result: Self)
        ensures
            result@ == (LedgerView { pending: Seq::empty(), epoch: 0, next_ticket: 0 }),
            ledger_wf(result@),
    {
        Ledger { pending: Vec::new(), epoch: 0, next_ticket: 0 }
    }

    /// The current epoch.
    pub fn epoch(&self) -> (result: Epoch)
        ensures
            result == Epoch(self@.epoch),
    {
        Epoch(self.epoch)
    }

    /// The workspace's inputs changed: the epoch advances.
    pub fn changed(&mut self) -> (result: Result<(), Exhausted>)
        requires
            ledger_wf(old(self)@),
        ensures
            ledger_wf(final(self)@),
            old(self)@.epoch == u64::MAX ==> result == Err::<(), Exhausted>(Exhausted) && final(self)@ == old(self)@,
            old(self)@.epoch < u64::MAX ==> result == Ok::<(), Exhausted>(()) && final(self)@
                == (LedgerView { epoch: (old(self)@.epoch + 1) as u64, ..old(self)@ }),
    {
        if self.epoch == u64::MAX {
            return Err(Exhausted);
        }
        self.epoch = self.epoch + 1;
        Ok(())
    }

    /// A request decoded: it is refused while [`CAPACITY`] requests are
    /// outstanding, and otherwise takes the next ticket.
    pub fn admission(&mut self) -> (result: Result<Admission, Exhausted>)
        requires
            ledger_wf(old(self)@),
        ensures
            ledger_wf(final(self)@),
            old(self)@.pending.len() == CAPACITY ==> result == Ok::<Admission, Exhausted>(
                Admission::Busy,
            ) && final(self)@ == old(self)@,
            old(self)@.pending.len() < CAPACITY && old(self)@.next_ticket == u64::MAX ==> result
                == Err::<Admission, Exhausted>(Exhausted) && final(self)@ == old(self)@,
            old(self)@.pending.len() < CAPACITY && old(self)@.next_ticket < u64::MAX ==> result
                == Ok::<Admission, Exhausted>(Admission::Dispatch(Ticket(old(self)@.next_ticket)))
                && final(self)@ == (LedgerView {
                next_ticket: (old(self)@.next_ticket + 1) as u64,
                ..old(self)@
            }),
    {
        if self.pending.len() == CAPACITY {
            return Ok(Admission::Busy);
        }
        if self.next_ticket == u64::MAX {
            return Err(Exhausted);
        }
        let ticket = Ticket(self.next_ticket);
        self.next_ticket = self.next_ticket + 1;
        Ok(Admission::Dispatch(ticket))
    }

    /// The worker took the job of `ticket`, a ticket that [`Ledger::admission`]
    /// handed out and that is not yet recorded: the request is outstanding.
    pub fn record(&mut self, ticket: Ticket, document: Option<Stamp>)
        requires
            ledger_wf(old(self)@),
            old(self)@.pending.len() < CAPACITY,
            ticket.0 < old(self)@.next_ticket,
            forall|i: int| 0 <= i < old(self)@.pending.len() ==> old(self)@.pending[i].ticket != ticket.0,
        ensures
            ledger_wf(final(self)@),
            final(self)@ == (LedgerView {
                pending: old(self)@.pending.push(
                    Pending { ticket: ticket.0, answered: false, epoch: old(self)@.epoch, document },
                ),
                ..old(self)@
            }),
    {
        self.pending.push(Pending { ticket: ticket.0, answered: false, epoch: self.epoch, document });
    }

    fn position_of(&self, ticket: u64) -> (result: Option<usize>)
        ensures
            match result {
                Some(i) => i < self@.pending.len() && self@.pending[i as int].ticket == ticket,
                None => forall|i: int| 0 <= i < self@.pending.len() ==> self@.pending[i].ticket != ticket,
            },
    {
        let n = self.pending.len();
        let mut i: usize = 0;
        while i < n
            invariant
                n == self.pending@.len(),
                i <= n,
                forall|j: int| 0 <= j < i ==> self.pending@[j].ticket != ticket,
            decreases n - i,
        {
            if self.pending[i].ticket == ticket {
                return Some(i);
            }
            i = i + 1;
        }
        None
    }

    /// Marks the request of `ticket` answered; whether it was outstanding
    /// and unanswered, in which case the caller sends the one answer.
    pub fn answer(&mut self, ticket: Ticket) -> (result: bool)
        requires
            ledger_wf(old(self)@),
        ensures
            ledger_wf(final(self)@),
            final(self)@ == (LedgerView {
                pending: mark_answered(old(self)@.pending, ticket.0),
                ..old(self)@
            }),
            result == awaits_answer(old(self)@.pending, ticket.0),
    {
        match self.position_of(ticket.0) {
            None => {
                assert(self@.pending =~= mark_answered(old(self)@.pending, ticket.0));
                false
            },
            Some(i) => {
                let entry = self.pending[i];
                let was = entry.answered;
                self.pending.set(i, Pending { answered: true, ..entry });
                proof {
                    assert forall|a: int, b: int|
                        0 <= a < b < self@.pending.len() implies self@.pending[a].ticket
                        != self@.pending[b].ticket by {
                        assert(old(self)@.pending[a].ticket == self@.pending[a].ticket);
                        assert(old(self)@.pending[b].ticket == self@.pending[b].ticket);
                    }
                    assert forall|j: int| 0 <= j < self@.pending.len() implies #[trigger] self@.pending[j].ticket
                        < self@.next_ticket by {
                        assert(old(self)@.pending[j].ticket < old(self)@.next_ticket);
                    }
                    assert forall|j: int| 0 <= j < old(self)@.pending.len() implies #[trigger] self@.pending[j]
                        == mark_answered(old(self)@.pending, ticket.0)[j] by {
                        if j != i {
                            assert(old(self)@.pending[j].ticket != old(self)@.pending[i as int].ticket);
                        }
                    }
                    assert(self@.pending =~= mark_answered(old(self)@.pending, ticket.0));
                    if awaits_answer(old(self)@.pending, ticket.0) {
                        let j = choose|j: int| 0 <= j < old(self)@.pending.len() && old(self)@.pending[j].ticket == ticket.0 && !old(self)@.pending[j].answered;
                        if j != i {
                            assert(old(self)@.pending[j].ticket != old(self)@.pending[i as int].ticket);
                        }
                    }
                }
                !was
            },
        }
    }

    /// Whether the outstanding request at `index` is still current in the
    /// ledger's epoch for its document, as `documents` has it now.
    pub fn is_current(&self, index: usize, documents: &Documents, uri: &str) -> (result: bool)
        requires
            index < self@.pending.len(),
            documents.wf(),
        ensures
            result == spec_current(
                self@.pending[index as int],
                self@.epoch,
                if documents.spec_map().contains_key(uri@) {
                    Some(
                        Stamp {
                            version: documents.spec_map()[uri@].version,
                            generation: documents.spec_map()[uri@].generation,
                        },
                    )
                } else {
                    None
                },
            ),
    {
        let p = self.pending[index];
        let now = match documents.get(uri) {
            Some(d) => Some(Stamp { version: d.version, generation: d.generation }),
            None => None,
        };
        p.epoch == self.epoch && match (p.document, now) {
            (Some(a), Some(b)) => a.version == b.version && a.generation == b.generation,
            (None, None) => true,
            _ => false,
        }
    }

    /// A job came back: the request of its ticket is no longer
    /// outstanding. It is answered unless that already happened.
    pub fn complete(&mut self, ticket: Ticket) -> (result: Completion)
        requires
            ledger_wf(old(self)@),
        ensures
            ledger_wf(final(self)@),
            final(self)@.epoch == old(self)@.epoch,
            final(self)@.next_ticket == old(self)@.next_ticket,
            (forall|i: int| 0 <= i < old(self)@.pending.len() ==> old(self)@.pending[i].ticket != ticket.0)
                ==> result == Completion::Unknown && final(self)@ == old(self)@,
            forall|i: int|
                0 <= i < old(self)@.pending.len() && old(self)@.pending[i].ticket == ticket.0 ==> {
                    &&& final(self)@.pending == old(self)@.pending.remove(i)
                    &&& result == if old(self)@.pending[i].answered {
                        Completion::Answered
                    } else {
                        Completion::Respond
                    }
                },
    {
        match self.position_of(ticket.0) {
            None => Completion::Unknown,
            Some(i) => {
                let entry = self.pending.remove(i);
                proof {
                    let old_pending = old(self)@.pending;
                    assert forall|a: int, b: int|
                        0 <= a < b < self@.pending.len() implies self@.pending[a].ticket
                        != self@.pending[b].ticket by {
                        let a0 = if a < i { a } else { a + 1 };
                        let b0 = if b < i { b } else { b + 1 };
                        assert(self@.pending[a] == old_pending[a0]);
                        assert(self@.pending[b] == old_pending[b0]);
                    }
                    assert forall|j: int| 0 <= j < self@.pending.len() implies #[trigger] self@.pending[j].ticket
                        < self@.next_ticket by {
                        let j0 = if j < i { j } else { j + 1 };
                        assert(self@.pending[j] == old_pending[j0]);
                    }
                    assert forall|k: int| 0 <= k < old_pending.len() && old_pending[k].ticket == ticket.0
                        implies k == i by {
                        if k != i {
                            assert(old_pending[k].ticket != old_pending[i as int].ticket);
                        }
                    }
                }
                if entry.answered {
                    Completion::Answered
                } else {
                    Completion::Respond
                }
            },
        }
    }

    /// The outstanding request at `index` lost its currency (its epoch or
    /// its document changed): it is marked answered. Whether the caller
    /// owes it the one answer, which says that the content was modified.
    pub fn expire(&mut self, index: usize, documents: &Documents, uri: &str) -> (result: bool)
        requires
            ledger_wf(old(self)@),
            index < old(self)@.pending.len(),
            documents.wf(),
        ensures
            ledger_wf(final(self)@),
            ({
                let p = old(self)@.pending[index as int];
                let current = spec_current(
                    p,
                    old(self)@.epoch,
                    if documents.spec_map().contains_key(uri@) {
                        Some(
                            Stamp {
                                version: documents.spec_map()[uri@].version,
                                generation: documents.spec_map()[uri@].generation,
                            },
                        )
                    } else {
                        None
                    },
                );
                &&& current ==> final(self)@ == old(self)@ && !result
                &&& !current ==> final(self)@ == (LedgerView {
                    pending: mark_answered(old(self)@.pending, p.ticket),
                    ..old(self)@
                }) && result == !p.answered
            }),
    {
        if self.is_current(index, documents, uri) {
            return false;
        }
        let ticket = self.pending[index].ticket;
        proof {
            let pending = self@.pending;
            if awaits_answer(pending, ticket) {
                let j = choose|j: int| 0 <= j < pending.len() && pending[j].ticket == ticket && !pending[j].answered;
                if j != index {
                    if j < index {
                        assert(pending[j].ticket != pending[index as int].ticket);
                    } else {
                        assert(pending[index as int].ticket != pending[j].ticket);
                    }
                }
            }
        }
        self.answer(Ticket(ticket))
    }

    /// Marks every outstanding request answered; the tickets of those that
    /// were not, in order, which the caller answers once each.
    pub fn answer_all(&mut self) -> (result: Vec<u64>)
        requires
            ledger_wf(old(self)@),
        ensures
            ledger_wf(final(self)@),
            final(self)@ == (LedgerView { pending: all_answered(old(self)@.pending), ..old(self)@ }),
            result@ == unanswered(old(self)@.pending),
    {
        let n = self.pending.len();
        let mut result: Vec<u64> = Vec::new();
        let mut i: usize = 0;
        while i < n
            invariant
                n == old(self)@.pending.len(),
                i <= n,
                self@.epoch == old(self)@.epoch,
                self@.next_ticket == old(self)@.next_ticket,
                self@.pending.len() == n,
                forall|j: int| 0 <= j < i ==> #[trigger] self@.pending[j] == (Pending { answered: true, ..old(self)@.pending[j] }),
                forall|j: int| i <= j < n ==> #[trigger] self@.pending[j] == old(self)@.pending[j],
                result@ == unanswered(old(self)@.pending.subrange(0, i as int)),
            decreases n - i,
        {
            let entry = self.pending[i];
            if !entry.answered {
                result.push(entry.ticket);
            }
            self.pending.set(i, Pending { answered: true, ..entry });
            proof {
                let prefix = old(self)@.pending.subrange(0, i + 1);
                assert(prefix.drop_last() =~= old(self)@.pending.subrange(0, i as int));
                assert(prefix.last() == old(self)@.pending[i as int]);
            }
            i = i + 1;
        }
        proof {
            assert(old(self)@.pending.subrange(0, n as int) =~= old(self)@.pending);
            assert(self@.pending =~= all_answered(old(self)@.pending));
            assert forall|a: int, b: int|
                0 <= a < b < self@.pending.len() implies self@.pending[a].ticket
                != self@.pending[b].ticket by {
                assert(self@.pending[a].ticket == old(self)@.pending[a].ticket);
                assert(self@.pending[b].ticket == old(self)@.pending[b].ticket);
            }
            assert forall|j: int| 0 <= j < self@.pending.len() implies #[trigger] self@.pending[j].ticket
                < self@.next_ticket by {
                assert(self@.pending[j].ticket == old(self)@.pending[j].ticket);
            }
        }
        result
    }

    /// Forgets every outstanding request (the worker is gone).
    pub fn clear(&mut self)
        requires
            ledger_wf(old(self)@),
        ensures
            ledger_wf(final(self)@),
            final(self)@ == (LedgerView { pending: Seq::empty(), ..old(self)@ }),
    {
        self.pending = Vec::new();
    }

    /// How many requests are outstanding.
    pub fn len(&self) -> (result: usize)
        ensures
            result == self@.pending.len(),
    {
        self.pending.len()
    }
}

/// A request is answered at most once: once its ticket has been answered,
/// answering it again reports nothing to send, and neither does its job
/// coming back; answering everything leaves nothing to answer.
pub proof fn law_answered_at_most_once(pending: Seq<Pending>, ticket: u64, other: u64)
    ensures
        !awaits_answer(mark_answered(pending, ticket), ticket),
        awaits_answer(mark_answered(pending, ticket), other) ==> awaits_answer(pending, other),
        !awaits_answer(all_answered(pending), other),
{
    if awaits_answer(mark_answered(pending, ticket), other) {
        let i = choose|i: int| 0 <= i < mark_answered(pending, ticket).len() && mark_answered(pending, ticket)[i].ticket == other && !mark_answered(pending, ticket)[i].answered;
        assert(pending[i].ticket == other && !pending[i].answered);
    }
}

/// The roots of `roots` that `removed` does not name, in order.
pub open spec fn without(roots: Seq<Seq<char>>, removed: Seq<Seq<char>>) -> Seq<Seq<char>>
    decreases roots.len(),
{
    if roots.len() == 0 {
        Seq::empty()
    } else {
        let rest = without(roots.drop_last(), removed);
        if removed.contains(roots.last()) {
            rest
        } else {
            rest.push(roots.last())
        }
    }
}

/// `roots` with each of `added` that it does not hold yet appended, in
/// order.
pub open spec fn with_added(roots: Seq<Seq<char>>, added: Seq<Seq<char>>) -> Seq<Seq<char>>
    decreases added.len(),
{
    if added.len() == 0 {
        roots
    } else {
        let before = with_added(roots, added.drop_last());
        if before.contains(added.last()) {
            before
        } else {
            before.push(added.last())
        }
    }
}

/// A notification about the workspace, with what it carries.
pub enum WorkspaceNotification {
    /// Workspace folders were removed and added.
    FoldersChanged { removed: Vec<String>, added: Vec<String> },
    /// Watched files changed; how many changes were reported.
    WatchedFilesChanged { changes: usize },
    /// A document was saved.
    Saved,
    /// Any other notification.
    Other,
}

/// The notification changes the inputs of semantic requests.
pub open spec fn changes_inputs(notification: WorkspaceNotification) -> bool {
    match notification {
        WorkspaceNotification::FoldersChanged { .. } => true,
        WorkspaceNotification::WatchedFilesChanged { changes } => changes > 0,
        WorkspaceNotification::Saved => true,
        WorkspaceNotification::Other => false,
    }
}

/// The roots after a notification: folder changes drop the removed roots
/// and then append each added one not yet present.
pub open spec fn roots_after(roots: Seq<Seq<char>>, notification: WorkspaceNotification) -> Seq<Seq<char>> {
    match notification {
        WorkspaceNotification::FoldersChanged { removed, added } => with_added(
            without(roots, string_views(removed@)),
            string_views(added@),
        ),
        _ => roots,
    }
}

fn remove_roots(roots: &Vec<String>, removed: &Vec<String>) -> (result: Vec<String>)
    ensures
        string_views(result@) == without(string_views(roots@), string_views(removed@)),
{
    let n = roots.len();
    let mut kept: Vec<String> = Vec::new();
    let mut k: usize = 0;
    proof {
        lemma_string_views(roots@);
    }
    while k < n
        invariant
            n == roots@.len(),
            k <= n,
            string_views(roots@).len() == n,
            forall|i: int| 0 <= i < n ==> #[trigger] string_views(roots@)[i] == roots@[i]@,
            string_views(kept@) == without(string_views(roots@).subrange(0, k as int), string_views(removed@)),
        decreases n - k,
    {
        let ghost before = kept@;
        let ghost prefix = string_views(roots@).subrange(0, k + 1);
        assert(prefix.drop_last() =~= string_views(roots@).subrange(0, k as int));
        assert(prefix.last() == roots@[k as int]@);
        if !contains_string(removed, roots[k].as_str()) {
            kept.push(roots[k].clone());
            proof {
                lemma_string_views(before);
                lemma_string_views(kept@);
                assert(string_views(kept@) =~= string_views(before).push(roots@[k as int]@));
            }
        }
        k = k + 1;
    }
    assert(string_views(roots@).subrange(0, n as int) =~= string_views(roots@));
    kept
}

fn add_roots(roots: &mut Vec<String>, added: Vec<String>)
    ensures
        string_views(final(roots)@) == with_added(string_views(old(roots)@), string_views(added@)),
{
    let n = added.len();
    let ghost start = string_views(roots@);
    let mut k: usize = 0;
    proof {
        lemma_string_views(added@);
    }
    while k < n
        invariant
            n == added@.len(),
            k <= n,
            string_views(added@).len() == n,
            forall|i: int| 0 <= i < n ==> #[trigger] string_views(added@)[i] == added@[i]@,
            string_views(roots@) == with_added(start, string_views(added@).subrange(0, k as int)),
        decreases n - k,
    {
        let ghost before = roots@;
        let ghost prefix = string_views(added@).subrange(0, k + 1);
        assert(prefix.drop_last() =~= string_views(added@).subrange(0, k as int));
        assert(prefix.last() == added@[k as int]@);
        if !contains_string(roots, added[k].as_str()) {
            roots.push(added[k].clone());
            proof {
                lemma_string_views(before);
                lemma_string_views(roots@);
                assert(string_views(roots@) =~= string_views(before).push(added@[k as int]@));
            }
        }
        k = k + 1;
    }
    assert(string_views(added@).subrange(0, n as int) =~= string_views(added@));
}

/// Takes in a notification about the workspace: folder changes update the
/// roots; folder changes, reported file changes and saves advance the
/// epoch, so that answers computed from older inputs are refused.
pub fn notification(ledger: &mut Ledger, roots: &mut Vec<String>, event: WorkspaceNotification) -> (result:
    Result<(), Exhausted>)
    requires
        ledger_wf(old(ledger)@),
    ensures
        ledger_wf(final(ledger)@),
        string_views(final(roots)@) == roots_after(string_views(old(roots)@), event),
        !changes_inputs(event) ==> result == Ok::<(), Exhausted>(()) && final(ledger)@ == old(ledger)@,
        changes_inputs(event) && old(ledger)@.epoch == u64::MAX ==> result == Err::<(), Exhausted>(
            Exhausted,
        ) && final(ledger)@ == old(ledger)@,
        changes_inputs(event) && old(ledger)@.epoch < u64::MAX ==> result == Ok::<(), Exhausted>(())
            && final(ledger)@ == (LedgerView { epoch: (old(ledger)@.epoch + 1) as u64, ..old(ledger)@ }),
{
    match event {
        WorkspaceNotification::FoldersChanged { removed, added } => {
            let mut kept = remove_roots(roots, &removed);
            add_roots(&mut kept, added);
            *roots = kept;
            ledger.changed()
        },
        WorkspaceNotification::WatchedFilesChanged { changes } => {
            if changes > 0 {
                ledger.changed()
            } else {
                Ok(())
            }
        },
        WorkspaceNotification::Saved => ledger.changed(),
        WorkspaceNotification::Other => Ok(()),
    }
}

} // verus!
