use vstd::prelude::*;

use crate::layout::{indent, spec_indent, tokens_fit};
use crate::text::string_bytes;
use crate::options::{FormatOptions, FormatOutcome, SkipReason};
use crate::safety::{byte_at, check_source, spec_check_source, Token, TokenKind};
use vstd::string::StringSliceAdditionalSpecFns;

verus! {

/// What the lexer reports of a text: whether it produced no diagnostic, and
/// its tokens in source order.
pub struct Lexed {
    pub clean: bool,
    pub tokens: Vec<Token>,
}

/// The next thing a caller does to finish formatting a document.
pub enum FormatStep {
    /// Lex the source, then call [`format_source_lexed`].
    LexSource,
    /// Lex this candidate text, then call [`format_candidate_lexed`] with it
    /// and the tokens it is expected to have.
    LexCandidate { output: String, mapped: Vec<Token> },
    /// Formatting is finished.
    Done(FormatOutcome),
}

/// A formatting outcome over bytes.
pub enum SpecOutcome {
    Changed(Seq<u8>),
    Unchanged,
    Skipped(SkipReason),
}

/// The outcome of formatting the source bytes `b`, where the lexer reports
/// (`clean`, `tokens`) for the source and (`clean2`, `tokens2`) for the
/// re-indented text: the source must pass the byte-level preflight and lex
/// cleanly; the re-indented text must lex cleanly into exactly the moved
/// tokens; an output equal to the source is reported as unchanged.
pub open spec fn spec_format(
    b: Seq<u8>,
    options: FormatOptions,
    clean: bool,
    tokens: Seq<Token>,
    clean2: bool,
    tokens2: Seq<Token>,
) -> SpecOutcome {
    match spec_check_source(b) {
        Err(reason) => SpecOutcome::Skipped(reason),
        Ok(_) => if !clean {
            SpecOutcome::Skipped(SkipReason::LexicalDiagnostics)
        } else if !tokens_fit(b, tokens) {
            SpecOutcome::Skipped(SkipReason::TokenMismatch)
        } else {
            match spec_indent(b, tokens, options) {
                Err(reason) => SpecOutcome::Skipped(reason),
                Ok((output, mapped)) => if !clean2 || tokens2 != mapped {
                    SpecOutcome::Skipped(SkipReason::TokenMismatch)
                } else if output == b {
                    SpecOutcome::Unchanged
                } else {
                    SpecOutcome::Changed(output)
                },
            }
        },
    }
}

/// What a caller hands back to [`format_document`] at each step.
pub enum FormatEvent {
    /// Formatting begins.
    Start,
    /// The lexer's report for the source.
    SourceLexed(Lexed),
    /// The lexer's report for the candidate of a [`FormatStep::LexCandidate`].
    CandidateLexed { output: String, mapped: Vec<Token>, relexed: Lexed },
}

/// Re-indents a document one step at a time: the caller lexes what a
/// [`FormatStep`] asks for and hands the report back as the next event, until
/// the step is [`FormatStep::Done`].
pub fn format_document(source: &str, options: FormatOptions, event: FormatEvent) -> (step:
    FormatStep)
    requires
        options.wf(),
    ensures
        event is Start ==> match spec_check_source(source.spec_bytes()) {
            Err(reason) => step == FormatStep::Done(FormatOutcome::Skipped(reason)),
            Ok(_) => step == FormatStep::LexSource,
        },
        event matches FormatEvent::SourceLexed(lexed) ==> {
            &&& !lexed.clean ==> step == FormatStep::Done(
                FormatOutcome::Skipped(SkipReason::LexicalDiagnostics),
            )
            &&& lexed.clean && !tokens_fit(source.spec_bytes(), lexed.tokens@) ==> step
                == FormatStep::Done(FormatOutcome::Skipped(SkipReason::TokenMismatch))
            &&& lexed.clean && tokens_fit(source.spec_bytes(), lexed.tokens@) ==> match spec_indent(
                source.spec_bytes(),
                lexed.tokens@,
                options,
            ) {
                Err(reason) => step == FormatStep::Done(FormatOutcome::Skipped(reason)),
                Ok((output, mapped)) => step matches FormatStep::LexCandidate { output: o, mapped: m }
                    && string_bytes(o) == output && m@ == mapped,
            }
        },
        event matches FormatEvent::CandidateLexed { output, mapped, relexed } ==> step
            == FormatStep::Done(
            if !relexed.clean || relexed.tokens@ != mapped@ {
                FormatOutcome::Skipped(SkipReason::TokenMismatch)
            } else if string_bytes(output) == source.spec_bytes() {
                FormatOutcome::Unchanged
            } else {
                FormatOutcome::Changed(output)
            },
        ),
{
    match event {
        FormatEvent::Start => format_start(source),
        FormatEvent::SourceLexed(lexed) => format_source_lexed(source, options, lexed),
        FormatEvent::CandidateLexed { output, mapped, relexed } => FormatStep::Done(
            format_candidate_lexed(source, output, mapped, relexed),
        ),
    }
}

/// A formatting outcome as bytes.
pub open spec fn outcome_view(outcome: FormatOutcome) -> SpecOutcome {
    match outcome {
        FormatOutcome::Changed(text) => SpecOutcome::Changed(string_bytes(text)),
        FormatOutcome::Unchanged => SpecOutcome::Unchanged,
        FormatOutcome::Skipped(reason) => SpecOutcome::Skipped(reason),
    }
}

/// A lexer that the caller supplies: it can be asked about any text.
pub open spec fn sound_lexer<F: Fn(&str) -> Lexed>(lex: F) -> bool {
    forall|text: &str| #[trigger] lex.requires((text,))
}

/// `first` and `second` are what `lex` reported in a run of the steps of
/// [`format_document`] on `source`: `first` for the source, whenever the
/// source passes the preflight; `second` for the re-indented candidate,
/// whenever there is one.
pub open spec fn lexed_in_run<F: Fn(&str) -> Lexed>(
    lex: F,
    source: &str,
    options: FormatOptions,
    first: Lexed,
    second: Lexed,
) -> bool {
    let b = source.spec_bytes();
    &&& spec_check_source(b) is Ok ==> lex.ensures((source,), first)
    &&& (spec_check_source(b) is Ok && first.clean && tokens_fit(b, first.tokens@)) ==> match spec_indent(
        b,
        first.tokens@,
        options,
    ) {
        Ok((output, _)) => exists|candidate: &str| candidate.spec_bytes() == output && #[trigger] lex.ensures(
            (candidate,),
            second,
        ),
        Err(_) => true,
    }
}

/// Formats `source` by running the steps of [`format_document`] with `lex`
/// as the lexer: the outcome is [`spec_format`] of the source and of the
/// reports the lexer gave for the source and for the re-indented candidate.
pub fn format_with<F: Fn(&str) -> Lexed>(source: &str, options: FormatOptions, lex: &F) -> (outcome:
    FormatOutcome)
    requires
        options.wf(),
        sound_lexer(*lex),
    ensures
        exists|first: Lexed, second: Lexed|
            #[trigger] lexed_in_run(*lex, source, options, first, second) && outcome_view(outcome)
                == spec_format(source.spec_bytes(), options, first.clean, first.tokens@, second.clean, second.tokens@),
{
    let ghost b = source.spec_bytes();
    if let FormatStep::Done(outcome) = format_start(source) {
        proof {
            let none = vstd::pervasive::arbitrary::<Lexed>();
            assert(lexed_in_run(*lex, source, options, none, none));
        }
        return outcome;
    }
    let first = lex(source);
    let ghost reported = first;
    assert(lex.ensures((source,), reported));
    match format_source_lexed(source, options, first) {
        FormatStep::LexCandidate { output, mapped } => {
            let candidate = output.as_str();
            let second = lex(candidate);
            let ghost again = second;
            proof {
                assert(candidate.spec_bytes() == string_bytes(output));
                assert(lexed_in_run(*lex, source, options, reported, again));
            }
            format_candidate_lexed(source, output, mapped, second)
        },
        FormatStep::Done(outcome) => {
            proof {
                let none = vstd::pervasive::arbitrary::<Lexed>();
                assert(lexed_in_run(*lex, source, options, reported, none));
            }
            outcome
        },
        FormatStep::LexSource => {
            proof {
                assert(false);
            }
            FormatOutcome::Unchanged
        },
    }
}

/// Starts formatting: runs the byte-level preflight.
pub fn format_start(source: &str) -> (step: FormatStep)
    ensures
        match spec_check_source(source.spec_bytes()) {
            Err(reason) => step == FormatStep::Done(FormatOutcome::Skipped(reason)),
            Ok(_) => step == FormatStep::LexSource,
        },
{
    match check_source(source) {
        Err(reason) => FormatStep::Done(FormatOutcome::Skipped(reason)),
        Ok(()) => FormatStep::LexSource,
    }
}

/// Continues once the source is lexed: a source with lexical diagnostics is
/// skipped, and so is one whose tokens do not fit it (out of order, or a
/// closing delimiter that is not its own byte); otherwise it is re-indented
/// and the candidate must be lexed.
pub fn format_source_lexed(source: &str, options: FormatOptions, lexed: Lexed) -> (step:
    FormatStep)
    requires
        options.wf(),
    ensures
        !lexed.clean ==> step == FormatStep::Done(FormatOutcome::Skipped(SkipReason::LexicalDiagnostics)),
        lexed.clean && !tokens_fit(source.spec_bytes(), lexed.tokens@) ==> step == FormatStep::Done(
            FormatOutcome::Skipped(SkipReason::TokenMismatch),
        ),
        lexed.clean && tokens_fit(source.spec_bytes(), lexed.tokens@) ==> match spec_indent(
            source.spec_bytes(),
            lexed.tokens@,
            options,
        ) {
            Err(reason) => step == FormatStep::Done(FormatOutcome::Skipped(reason)),
            Ok((output, mapped)) => step matches FormatStep::LexCandidate { output: o, mapped: m }
                && string_bytes(o) == output && m@ == mapped,
        },
{
    if !lexed.clean {
        return FormatStep::Done(FormatOutcome::Skipped(SkipReason::LexicalDiagnostics));
    }
    if !tokens_fit_source(source, lexed.tokens.as_slice()) {
        return FormatStep::Done(FormatOutcome::Skipped(SkipReason::TokenMismatch));
    }
    match indent(source, lexed.tokens.as_slice(), options) {
        Err(reason) => FormatStep::Done(FormatOutcome::Skipped(reason)),
        Ok((output, mapped)) => FormatStep::LexCandidate { output, mapped },
    }
}

fn same_bytes(a: &[u8], b: &[u8]) -> (result: bool)
    ensures
        result == (a@ == b@),
{
    if a.len() != b.len() {
        return false;
    }
    let mut i: usize = 0;
    while i < a.len()
        invariant
            a@.len() == b@.len(),
            i <= a@.len(),
            forall|k: int| 0 <= k < i ==> a@[k] == b@[k],
        decreases a@.len() - i,
    {
        if a[i] != b[i] {
            return false;
        }
        i = i + 1;
    }
    assert(a@ =~= b@);
    true
}

fn same_tokens(a: &[Token], b: &[Token]) -> (result: bool)
    ensures
        result == (a@ == b@),
{
    if a.len() != b.len() {
        return false;
    }
    let mut i: usize = 0;
    while i < a.len()
        invariant
            a@.len() == b@.len(),
            i <= a@.len(),
            forall|k: int| 0 <= k < i ==> a@[k] == b@[k],
        decreases a@.len() - i,
    {
        if a[i] != b[i] {
            return false;
        }
        i = i + 1;
    }
    assert(a@ =~= b@);
    true
}

/// Finishes once the candidate is lexed: it is accepted only when it lexes
/// cleanly into exactly the tokens the layout moved.
pub fn format_candidate_lexed(source: &str, output: String, mapped: Vec<Token>, relexed: Lexed) -> (outcome:
    FormatOutcome)
    ensures
        outcome == if !relexed.clean || relexed.tokens@ != mapped@ {
            FormatOutcome::Skipped(SkipReason::TokenMismatch)
        } else if string_bytes(output) == source.spec_bytes() {
            FormatOutcome::Unchanged
        } else {
            FormatOutcome::Changed(output)
        },
{
    if !relexed.clean || !same_tokens(relexed.tokens.as_slice(), mapped.as_slice()) {
        return FormatOutcome::Skipped(SkipReason::TokenMismatch);
    }
    if same_bytes(output.as_str().as_bytes(), source.as_bytes()) {
        FormatOutcome::Unchanged
    } else {
        FormatOutcome::Changed(output)
    }
}

/// Whether the lexer's tokens meet what the layout pass relies on.
pub fn tokens_fit_source(source: &str, tokens: &[Token]) -> (result: bool)
    ensures
        result == tokens_fit(source.spec_bytes(), tokens@),
{
    let b = source.as_bytes();
    let n = tokens.len();
    let mut i: usize = 0;
    while i < n
        invariant
            n == tokens@.len(),
            b@ == source.spec_bytes(),
            i <= n,
            forall|x: int, y: int| 0 <= x < y < i ==> tokens@[x].offset < tokens@[y].offset,
            forall|x: int|
                0 <= x < i ==> (#[trigger] tokens@[x].kind == TokenKind::RightBrace ==> byte_at(
                    b@,
                    tokens@[x].offset as int,
                ) == Some(125u8)) && (tokens@[x].kind == TokenKind::RightParen ==> byte_at(
                    b@,
                    tokens@[x].offset as int,
                ) == Some(41u8)),
        decreases n - i,
    {
        let token = tokens[i];
        if i > 0 && tokens[i - 1].offset >= token.offset {
            return false;
        }
        let sits = match token.kind {
            TokenKind::RightBrace => token.offset < b.len() && b[token.offset] == 125,
            TokenKind::RightParen => token.offset < b.len() && b[token.offset] == 41,
            _ => true,
        };
        if !sits {
            return false;
        }
        i = i + 1;
    }
    true
}

} // verus!
