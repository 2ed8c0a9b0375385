use vstd::prelude::*;

use crate::documents::Documents;
use crate::positions::{position, spec_position, Position};
use crate::worker::{failure_name, Failure};
use crate::worker_protocol::{Outcome, INPUT_LIMIT};
use vstd::string::StringSliceAdditionalSpecFns;

verus! {

/// What becomes of a formatting request.
#[derive(Debug, PartialEq, Eq)]
pub enum Admission {
    /// The tab size is outside `1..=16`: the request is an invalid-params error.
    InvalidTabSize,
    /// The document is not open: the answer is no edits.
    NoDocument,
    /// The document is left as it is for this reason; the answer is no edits.
    Skip(Failure),
    /// A worker formats the document, whose end is at `end`.
    Start { end: Position },
}

/// The admission of a request with `tab_size` for the open document with
/// `text` (`None` when it is not open), while another request is
/// `busy` or not.
pub open spec fn spec_admission(tab_size: u32, text: Option<Seq<u8>>, busy: bool) -> Admission {
    if !(1 <= tab_size <= 16) {
        Admission::InvalidTabSize
    } else {
        match text {
            None => Admission::NoDocument,
            Some(b) => if busy {
                Admission::Skip(Failure::Busy)
            } else if b.len() > INPUT_LIMIT {
                Admission::Skip(Failure::InputLimit)
            } else {
                match spec_position(b, b.len() as int) {
                    None => Admission::Skip(Failure::InputLimit),
                    Some(end) => Admission::Start { end },
                }
            },
        }
    }
}

/// Decides what becomes of a formatting request; see [`spec_admission`].
pub fn admission(tab_size: u32, text: Option<&str>, busy: bool) -> (result: Admission)
    ensures
        result == spec_admission(
            tab_size,
            match text {
                Some(t) => Some(t.spec_bytes()),
                None => None,
            },
            busy,
        ),
{
    if !(1 <= tab_size && tab_size <= 16) {
        return Admission::InvalidTabSize;
    }
    let text = match text {
        None => return Admission::NoDocument,
        Some(text) => text,
    };
    if busy {
        return Admission::Skip(Failure::Busy);
    }
    let n = text.as_bytes().len();
    if n > INPUT_LIMIT {
        return Admission::Skip(Failure::InputLimit);
    }
    match position(text, n) {
        None => Admission::Skip(Failure::InputLimit),
        Some(end) => Admission::Start { end },
    }
}

/// The answer to a formatting request once its worker is done.
#[derive(Debug, PartialEq, Eq)]
pub enum Reply {
    /// One edit that replaces the document from its start to `end`.
    Edit { end: Position, new_text: String },
    /// No edits.
    Empty,
    /// No edits, and the reason is logged.
    Skipped(String),
}

/// The answer for what the worker gave: the new text as one edit over the
/// whole document, no edits when nothing changed, and no edits with the
/// reason logged otherwise.
pub fn reply(result: Result<Outcome, Failure>, end: Position) -> (answer: Reply)
    ensures
        match result {
            Ok(Outcome::Changed(text)) => answer == Reply::Edit { end, new_text: text },
            Ok(Outcome::Unchanged) => answer == Reply::Empty,
            Ok(Outcome::Skipped(reason)) => answer == Reply::Skipped(reason),
            Err(failure) => answer matches Reply::Skipped(reason) && reason@ == failure_name(failure),
        },
{
    match result {
        Ok(Outcome::Changed(new_text)) => Reply::Edit { end, new_text },
        Ok(Outcome::Unchanged) => Reply::Empty,
        Ok(Outcome::Skipped(reason)) => Reply::Skipped(reason),
        Err(failure) => Reply::Skipped(failure.name().to_owned()),
    }
}

/// Whether a pending request still concerns the document it was made for:
/// the document is open with the same version and generation.
pub fn is_current(documents: &Documents, uri: &str, version: i32, generation: u64) -> (result:
    bool)
    requires
        documents.wf(),
    ensures
        result == (documents.spec_map().contains_key(uri@) && documents.spec_map()[uri@].version
            == version && documents.spec_map()[uri@].generation == generation),
{
    match documents.get(uri) {
        Some(document) => document.version == version && document.generation == generation,
        None => false,
    }
}

} // verus!
