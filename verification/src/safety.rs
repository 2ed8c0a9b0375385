use vstd::prelude::*;

use crate::ascii::{
    BACKSLASH, CR, DOLLAR, DOUBLE_QUOTE, HASH, LEFT_BRACE, LEFT_BRACKET, LF, LOWER_R, RIGHT_BRACE,
    RIGHT_BRACKET, RIGHT_PAREN, SINGLE_QUOTE,
};
use crate::options::SkipReason;
use vstd::string::StringSliceAdditionalSpecFns;

verus! {

/// Largest source, in bytes, that the formatter accepts.
pub const INPUT_LIMIT: usize = 262144;

/// Largest formatted output, in bytes.
pub const OUTPUT_LIMIT: usize = 1048576;

/// Deepest delimiter nesting that the formatter tracks.
pub const NESTING_LIMIT: usize = 128;

/// A backslash immediately followed by a line break at byte `i`.
pub open spec fn continuation_at(b: Seq<u8>, i: int) -> bool {
    0 <= i && i + 1 < b.len() && b[i] == 92u8 && (b[i + 1] == 13u8 || b[i + 1] == 10u8)
}

/// The source escapes a line break.
pub open spec fn has_continuation(b: Seq<u8>) -> bool {
    exists|i: int| #[trigger] continuation_at(b, i)
}

/// Every byte in `lo..hi` is `#`.
pub open spec fn all_hashes(b: Seq<u8>, lo: int, hi: int) -> bool {
    forall|k: int| lo <= k < hi ==> b[k] == 35u8
}

/// A raw-literal opener at byte `i`: `r`, any number of `#`, then a quote.
pub open spec fn raw_opener_at(b: Seq<u8>, i: int) -> bool {
    &&& 0 <= i < b.len()
    &&& b[i] == 114u8
    &&& exists|j: int| #![trigger b[j]]
        i < j < b.len() && all_hashes(b, i + 1, j) && (b[j] == 39u8 || b[j] == 34u8)
}

/// A literal form that the formatter does not rewrite starts at byte `i`:
/// a triple quote, an interpolation opener `${`, or a raw-literal opener.
pub open spec fn unsupported_literal_at(b: Seq<u8>, i: int) -> bool {
    ||| (0 <= i && i + 2 < b.len() && b[i] == 34u8 && b[i + 1] == 34u8 && b[i + 2] == 34u8)
    ||| (0 <= i && i + 2 < b.len() && b[i] == 39u8 && b[i + 1] == 39u8 && b[i + 2] == 39u8)
    ||| (0 <= i && i + 1 < b.len() && b[i] == 36u8 && b[i + 1] == 123u8)
    ||| raw_opener_at(b, i)
}

pub open spec fn has_unsupported_literal(b: Seq<u8>) -> bool {
    exists|i: int| #[trigger] unsupported_literal_at(b, i)
}

/// The verdict of the byte-level preflight on a source of bytes `b`.
pub open spec fn spec_check_source(b: Seq<u8>) -> Result<(), SkipReason> {
    if b.len() > INPUT_LIMIT {
        Err(SkipReason::InputLimit)
    } else if has_continuation(b) {
        Err(SkipReason::Continuation)
    } else if has_unsupported_literal(b) {
        Err(SkipReason::UnsupportedLiteral)
    } else {
        Ok(())
    }
}

/// Rejects sources that are too large, that escape line breaks, or that
/// contain literal forms whose extent the formatter cannot be sure of.
pub fn check_source(source: &str) -> (result: Result<(), SkipReason>)
    ensures
        result == spec_check_source(source.spec_bytes()),
{
    let bytes = source.as_bytes();
    let ghost b = source.spec_bytes();
    if bytes.len() > INPUT_LIMIT {
        return Err(SkipReason::InputLimit);
    }
    let n = bytes.len();
    let mut i: usize = 0;
    while i + 1 < n
        invariant
            bytes@ == b,
            b == source.spec_bytes(),
            n == b.len(),
            n <= INPUT_LIMIT,
            i <= n,
            forall|k: int| 0 <= k < i ==> !continuation_at(b, k),
        decreases n - i,
    {
        if bytes[i] == BACKSLASH && (bytes[i + 1] == CR || bytes[i + 1] == LF) {
            assert(continuation_at(b, i as int));
            return Err(SkipReason::Continuation);
        }
        i = i + 1;
    }
    assert(!has_continuation(b));
    let mut i: usize = 0;
    while i < n
        invariant
            bytes@ == b,
            b == source.spec_bytes(),
            n == b.len(),
            n <= INPUT_LIMIT,
            !has_continuation(b),
            forall|k: int| 0 <= k < i ==> !unsupported_literal_at(b, k),
        decreases n - i,
    {
        let c = bytes[i];
        if i + 2 < n && c == DOUBLE_QUOTE && bytes[i + 1] == DOUBLE_QUOTE && bytes[i + 2] == DOUBLE_QUOTE {
            assert(unsupported_literal_at(b, i as int));
            return Err(SkipReason::UnsupportedLiteral);
        }
        if i + 2 < n && c == SINGLE_QUOTE && bytes[i + 1] == SINGLE_QUOTE && bytes[i + 2] == SINGLE_QUOTE {
            assert(unsupported_literal_at(b, i as int));
            return Err(SkipReason::UnsupportedLiteral);
        }
        if i + 1 < n && c == DOLLAR && bytes[i + 1] == LEFT_BRACE {
            assert(unsupported_literal_at(b, i as int));
            return Err(SkipReason::UnsupportedLiteral);
        }
        if c == LOWER_R {
            let mut j = i + 1;
            while j < n && bytes[j] == HASH
                invariant
                    bytes@ == b,
                    n == b.len(),
                    i < j <= n,
                    all_hashes(b, i + 1, j as int),
                decreases n - j,
            {
                j = j + 1;
            }
            if j < n && (bytes[j] == SINGLE_QUOTE || bytes[j] == DOUBLE_QUOTE) {
                assert(raw_opener_at(b, i as int));
                assert(unsupported_literal_at(b, i as int));
                return Err(SkipReason::UnsupportedLiteral);
            }
            assert(!raw_opener_at(b, i as int)) by {
                if raw_opener_at(b, i as int) {
                    let w = choose|w: int|
                        #![trigger b[w]]
                        i < w < b.len() && all_hashes(b, i + 1, w) && (b[w] == 39u8 || b[w]
                            == 34u8);
                    if w < j {
                        assert(b[w] == 35u8);
                    } else if w > j {
                        assert(b[j as int] == 35u8);
                    }
                }
            }
        }
        i = i + 1;
    }
    Ok(())
}

/// The token categories that the layout logic tells apart; every other kind
/// of token is carried as an opaque identifier.
#[derive(Clone, Copy, Debug, PartialEq, Eq, Structural)]
pub enum TokenKind {
    Newline,
    LeftBrace,
    RightBrace,
    HashOpen,
    LeftParen,
    RightParen,
    SourceCharacter,
    StringLiteral,
    MutableStringLiteral,
    BytesLiteral,
    ByteArrayLiteral,
    RegexLiteral,
    Other(u32),
}

/// A lexical token: its kind and the byte offset at which it starts.
#[derive(Clone, Copy, Debug, PartialEq, Eq, Structural)]
pub struct Token {
    pub kind: TokenKind,
    pub offset: usize,
}

/// The byte at `i`, if `i` is inside `b`.
pub open spec fn byte_at(b: Seq<u8>, i: int) -> Option<u8> {
    if 0 <= i < b.len() {
        Some(b[i])
    } else {
        None
    }
}

/// The closer that a token opens, if it opens a delimiter.
pub open spec fn opener_of(token: Token, b: Seq<u8>) -> Option<u8> {
    match token.kind {
        TokenKind::LeftBrace | TokenKind::HashOpen => Some(125u8),
        TokenKind::LeftParen => Some(41u8),
        TokenKind::SourceCharacter => if byte_at(b, token.offset as int) == Some(91u8) {
            Some(93u8)
        } else {
            None
        },
        _ => None,
    }
}

/// The closer that a token is, if it closes a delimiter.
pub open spec fn closer_of(token: Token, b: Seq<u8>) -> Option<u8> {
    match token.kind {
        TokenKind::RightBrace => Some(125u8),
        TokenKind::RightParen => Some(41u8),
        TokenKind::SourceCharacter => if byte_at(b, token.offset as int) == Some(93u8) {
            Some(93u8)
        } else {
            None
        },
        _ => None,
    }
}

/// The stack of expected closers after one more token.
pub open spec fn spec_consume(stack: Seq<u8>, token: Token, b: Seq<u8>) -> Result<
    Seq<u8>,
    SkipReason,
> {
    match opener_of(token, b) {
        Some(closer) => if stack.len() >= NESTING_LIMIT {
            Err(SkipReason::NestingLimit)
        } else {
            Ok(stack.push(closer))
        },
        None => match closer_of(token, b) {
            Some(closer) => if stack.len() == 0 || stack.last() != closer {
                Err(SkipReason::MismatchedDelimiter)
            } else {
                Ok(stack.drop_last())
            },
            None => Ok(stack),
        },
    }
}

/// Reads the source byte at `offset`, if any.
fn get_byte(bytes: &[u8], offset: usize) -> (result: Option<u8>)
    ensures
        result == byte_at(bytes@, offset as int),
{
    if offset < bytes.len() {
        Some(bytes[offset])
    } else {
        None
    }
}

/// Which closer, if any, a token is.
pub fn closing(token: Token, source: &str) -> (result: Option<u8>)
    ensures
        result == closer_of(token, source.spec_bytes()),
{
    match token.kind {
        TokenKind::RightBrace => Some(RIGHT_BRACE),
        TokenKind::RightParen => Some(RIGHT_PAREN),
        TokenKind::SourceCharacter => {
            if get_byte(source.as_bytes(), token.offset) == Some(RIGHT_BRACKET) {
                Some(RIGHT_BRACKET)
            } else {
                None
            }
        },
        _ => None,
    }
}

/// Which closer, if any, a token opens.
fn opening(token: Token, bytes: &[u8]) -> (result: Option<u8>)
    ensures
        result == opener_of(token, bytes@),
{
    match token.kind {
        TokenKind::LeftBrace | TokenKind::HashOpen => Some(RIGHT_BRACE),
        TokenKind::LeftParen => Some(RIGHT_PAREN),
        TokenKind::SourceCharacter => {
            if get_byte(bytes, token.offset) == Some(LEFT_BRACKET) {
                Some(RIGHT_BRACKET)
            } else {
                None
            }
        },
        _ => None,
    }
}

/// A bounded stack of the closers that the open delimiters expect.
pub struct Delimiters {
    closers: Vec<u8>,
}

impl View for Delimiters {
    type V = Seq<u8>;

    closed spec fn view(&self) -> Seq<u8> {
        self.closers@
    }
}

impl Delimiters {
    /// No delimiter is open and none is deeper than the nesting limit.
    pub open spec fn wf(&self) -> bool {
        self@.len() <= NESTING_LIMIT
    }

    /// An empty stack.
    pub fn new() -> (result: Self)
        ensures
            result@ == Seq::<u8>::empty(),
            result.wf(),
    {
        Delimiters { closers: Vec::new() }
    }

    /// How many delimiters are open.
    pub fn depth(&self) -> (result: usize)
        ensures
            result == self@.len(),
    {
        self.closers.len()
    }

    /// Tracks one token: pushes the closer that an opener expects, pops a
    /// matching closer, and leaves the stack alone for any other token.
    pub fn consume(&mut self, token: Token, source: &str) -> (result: Result<(), SkipReason>)
        requires
            old(self).wf(),
        ensures
            final(self).wf(),
            spec_consume(old(self)@, token, source.spec_bytes()) matches Ok(stack) ==> result
                is Ok && final(self)@ == stack,
            spec_consume(old(self)@, token, source.spec_bytes()) matches Err(e) ==> result
                == Err::<(), SkipReason>(e) && final(self)@ == old(self)@,
    {
        self.consume_bytes(token, source.as_bytes())
    }

    pub(crate) fn consume_bytes(&mut self, token: Token, bytes: &[u8]) -> (result: Result<
        (),
        SkipReason,
    >)
        requires
            old(self).wf(),
        ensures
            final(self).wf(),
            spec_consume(old(self)@, token, bytes@) matches Ok(stack) ==> result is Ok
                && final(self)@ == stack,
            spec_consume(old(self)@, token, bytes@) matches Err(e) ==> result == Err::<
                (),
                SkipReason,
            >(e) && final(self)@ == old(self)@,
    {
        match opening(token, bytes) {
            Some(closer) => {
                if self.closers.len() >= NESTING_LIMIT {
                    return Err(SkipReason::NestingLimit);
                }
                self.closers.push(closer);
                Ok(())
            },
            None => {
                let found = match token.kind {
                    TokenKind::RightBrace => Some(RIGHT_BRACE),
                    TokenKind::RightParen => Some(RIGHT_PAREN),
                    TokenKind::SourceCharacter => {
                        if get_byte(bytes, token.offset) == Some(RIGHT_BRACKET) {
                            Some(RIGHT_BRACKET)
                        } else {
                            None
                        }
                    },
                    _ => None,
                };
                assert(found == closer_of(token, bytes@));
                match found {
                    Some(closer) => {
                        let depth = self.closers.len();
                        if depth == 0 || self.closers[depth - 1] != closer {
                            return Err(SkipReason::MismatchedDelimiter);
                        }
                        self.closers.pop();
                        Ok(())
                    },
                    None => Ok(()),
                }
            },
        }
    }
}

} // verus!
