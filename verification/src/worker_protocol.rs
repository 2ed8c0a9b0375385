use vstd::prelude::*;

use crate::options::{FormatOutcome, SkipReason};

verus! {

/// The largest source a worker accepts, in bytes.
pub const INPUT_LIMIT: usize = 262144;

/// The largest reply frame a worker may send, in bytes.
pub const OUTPUT_LIMIT: usize = 1048576;

/// The largest request frame: a source encoded as a JSON string, where one
/// byte may take six, and the quotes.
pub const REQUEST_LIMIT: usize = 1572896;

/// A worker's reply: the formatted text, no change, or why it skipped.
#[derive(Debug, PartialEq, Eq)]
pub enum Outcome {
    Changed(String),
    Unchanged,
    Skipped(String),
}

/// The worker's announcement that it is ready for its request.
#[derive(Debug, PartialEq, Eq)]
pub enum Ready {
    Ready,
}

/// Why a frame is refused.
#[derive(Clone, Copy, Debug, PartialEq, Eq, Structural)]
pub enum FrameError {
    /// The frame is longer than the limit the reader or writer was given.
    ExceedsLimit,
    /// The frame's length does not fit the four-byte header.
    TooLong,
    /// The bytes end before the frame does.
    Truncated,
}

/// The four big-endian bytes of `n`.
pub open spec fn be_bytes(n: u32) -> Seq<u8> {
    seq![(n >> 24u32) as u8, (n >> 16u32) as u8, (n >> 8u32) as u8, n as u8]
}

/// The number that four big-endian bytes stand for.
pub open spec fn be_value(h0: u8, h1: u8, h2: u8, h3: u8) -> u32 {
    ((h0 as u32) << 24u32) | ((h1 as u32) << 16u32) | ((h2 as u32) << 8u32) | (h3 as u32)
}

pub proof fn lemma_be_round_trip(n: u32)
    ensures
        be_value(be_bytes(n)[0], be_bytes(n)[1], be_bytes(n)[2], be_bytes(n)[3]) == n,
{
    let h0 = (n >> 24u32) as u8;
    let h1 = (n >> 16u32) as u8;
    let h2 = (n >> 8u32) as u8;
    let h3 = n as u8;
    assert(((h0 as u32) << 24u32) | ((h1 as u32) << 16u32) | ((h2 as u32) << 8u32) | (h3 as u32)
        == n) by (bit_vector)
        requires
            h0 == (n >> 24u32) as u8,
            h1 == (n >> 16u32) as u8,
            h2 == (n >> 8u32) as u8,
            h3 == n as u8,
    ;
}

/// The frame for `payload`: its length as four big-endian bytes, then the
/// payload.
pub open spec fn spec_frame(payload: Seq<u8>) -> Seq<u8> {
    be_bytes(payload.len() as u32) + payload
}

/// Frames `payload`, which may be at most `limit` bytes long.
pub fn encode_frame(payload: &[u8], limit: usize) -> (result: Result<Vec<u8>, FrameError>)
    ensures
        payload@.len() > limit ==> result == Err::<Vec<u8>, FrameError>(FrameError::ExceedsLimit),
        payload@.len() <= limit && payload@.len() > u32::MAX ==> result == Err::<
            Vec<u8>,
            FrameError,
        >(FrameError::TooLong),
        payload@.len() <= limit && payload@.len() <= u32::MAX ==> (result matches Ok(frame)
            && frame@ == spec_frame(payload@)),
{
    if payload.len() > limit {
        return Err(FrameError::ExceedsLimit);
    }
    if payload.len() > 4294967295usize {
        return Err(FrameError::TooLong);
    }
    let n = payload.len() as u32;
    let mut frame: Vec<u8> = Vec::new();
    frame.push((n >> 24u32) as u8);
    frame.push((n >> 16u32) as u8);
    frame.push((n >> 8u32) as u8);
    frame.push(n as u8);
    let mut i: usize = 0;
    while i < payload.len()
        invariant
            i <= payload@.len(),
            frame@ == be_bytes(n) + payload@.subrange(0, i as int),
        decreases payload@.len() - i,
    {
        frame.push(payload[i]);
        i = i + 1;
        assert(frame@ =~= be_bytes(n) + payload@.subrange(0, i as int));
    }
    assert(payload@.subrange(0, payload@.len() as int) =~= payload@);
    Ok(frame)
}

/// The payload length that a frame header announces, if it is within `limit`.
pub fn frame_length(header: [u8; 4], limit: usize) -> (result: Result<usize, FrameError>)
    ensures
        be_value(header@[0], header@[1], header@[2], header@[3]) > limit ==> result == Err::<
            usize,
            FrameError,
        >(FrameError::ExceedsLimit),
        be_value(header@[0], header@[1], header@[2], header@[3]) <= limit ==> result == Ok::<
            usize,
            FrameError,
        >(be_value(header@[0], header@[1], header@[2], header@[3]) as usize),
{
    let length = ((header[0] as u32) << 24u32) | ((header[1] as u32) << 16u32) | ((header[2] as u32)
        << 8u32) | (header[3] as u32);
    if length as usize > limit {
        return Err(FrameError::ExceedsLimit);
    }
    Ok(length as usize)
}

/// The payload of the frame at the start of `bytes`, if its announced
/// length is within `limit` and the bytes hold all of it.
pub fn decode_frame(bytes: &[u8], limit: usize) -> (result: Result<Vec<u8>, FrameError>)
    ensures
        bytes@.len() < 4 ==> result == Err::<Vec<u8>, FrameError>(FrameError::Truncated),
        bytes@.len() >= 4 ==> {
            let n = be_value(bytes@[0], bytes@[1], bytes@[2], bytes@[3]) as int;
            &&& n > limit ==> result == Err::<Vec<u8>, FrameError>(FrameError::ExceedsLimit)
            &&& n <= limit && bytes@.len() < 4 + n ==> result == Err::<Vec<u8>, FrameError>(
                FrameError::Truncated,
            )
            &&& n <= limit && bytes@.len() >= 4 + n ==> (result matches Ok(payload) && payload@
                == bytes@.subrange(4, 4 + n))
        },
{
    if bytes.len() < 4 {
        return Err(FrameError::Truncated);
    }
    let n = match frame_length([bytes[0], bytes[1], bytes[2], bytes[3]], limit) {
        Ok(n) => n,
        Err(e) => return Err(e),
    };
    if bytes.len() - 4 < n {
        return Err(FrameError::Truncated);
    }
    let mut payload: Vec<u8> = Vec::new();
    let mut i: usize = 0;
    let len = bytes.len();
    while i < n
        invariant
            len == bytes@.len(),
            4 + n <= bytes@.len(),
            i <= n,
            payload@ == bytes@.subrange(4, 4 + i),
        decreases n - i,
    {
        payload.push(bytes[4 + i]);
        i = i + 1;
        assert(payload@ =~= bytes@.subrange(4, 4 + i));
    }
    Ok(payload)
}

/// Reading back a frame gives the payload that was framed, for every
/// payload within the limit.
pub proof fn law_frame_round_trip(payload: Seq<u8>, limit: int)
    requires
        payload.len() <= limit,
        payload.len() <= u32::MAX,
    ensures
        ({
            let frame = spec_frame(payload);
            let n = be_value(frame[0], frame[1], frame[2], frame[3]) as int;
            &&& frame.len() >= 4
            &&& n == payload.len()
            &&& n <= limit
            &&& frame.subrange(4, 4 + n) == payload
        }),
{
    lemma_be_round_trip(payload.len() as u32);
    let frame = spec_frame(payload);
    assert(frame.subrange(4, 4 + payload.len() as int) =~= payload);
}

/// The name of a skip reason, as a worker reports it.
pub open spec fn reason_name(reason: SkipReason) -> Seq<char> {
    match reason {
        SkipReason::InputLimit => "InputLimit"@,
        SkipReason::OutputLimit => "OutputLimit"@,
        SkipReason::NestingLimit => "NestingLimit"@,
        SkipReason::UnsupportedLiteral => "UnsupportedLiteral"@,
        SkipReason::Continuation => "Continuation"@,
        SkipReason::LexicalDiagnostics => "LexicalDiagnostics"@,
        SkipReason::MismatchedDelimiter => "MismatchedDelimiter"@,
        SkipReason::UnclosedDelimiter => "UnclosedDelimiter"@,
        SkipReason::UncertainProtectedRange => "UncertainProtectedRange"@,
        SkipReason::TokenMismatch => "TokenMismatch"@,
        SkipReason::ParseDiagnostics => "ParseDiagnostics"@,
    }
}

/// The name of a skip reason, as a worker reports it.
pub fn skip_reason_name(reason: SkipReason) -> (result: &'static str)
    ensures
        result@ == reason_name(reason),
{
    match reason {
        SkipReason::InputLimit => "InputLimit",
        SkipReason::OutputLimit => "OutputLimit",
        SkipReason::NestingLimit => "NestingLimit",
        SkipReason::UnsupportedLiteral => "UnsupportedLiteral",
        SkipReason::Continuation => "Continuation",
        SkipReason::LexicalDiagnostics => "LexicalDiagnostics",
        SkipReason::MismatchedDelimiter => "MismatchedDelimiter",
        SkipReason::UnclosedDelimiter => "UnclosedDelimiter",
        SkipReason::UncertainProtectedRange => "UncertainProtectedRange",
        SkipReason::TokenMismatch => "TokenMismatch",
        SkipReason::ParseDiagnostics => "ParseDiagnostics",
    }
}

/// The reply a worker sends for a formatting outcome.
pub fn outcome_of(outcome: FormatOutcome) -> (result: Outcome)
    ensures
        match outcome {
            FormatOutcome::Changed(text) => result == Outcome::Changed(text),
            FormatOutcome::Unchanged => result == Outcome::Unchanged,
            FormatOutcome::Skipped(reason) => result matches Outcome::Skipped(name) && name@
                == reason_name(reason),
        },
{
    match outcome {
        FormatOutcome::Changed(text) => Outcome::Changed(text),
        FormatOutcome::Unchanged => Outcome::Unchanged,
        FormatOutcome::Skipped(reason) => Outcome::Skipped(skip_reason_name(reason).to_owned()),
    }
}

} // verus!
