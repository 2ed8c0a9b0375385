use vstd::prelude::*;

use crate::ascii::{BACKSLASH, CR, HASH, LF, SPACE, TAB};
use crate::layout::{lemma_skip_blanks, skip_blanks};
use crate::options::SkipReason;
use crate::safety::TokenKind;
use crate::text::{
    all_ascii, lemma_ascii_valid, lemma_subrange_valid, string_bytes, string_from_utf8,
    lemma_encode_ascii_char, is_blank, is_line_break, lemma_boundary_after_ascii, lemma_boundary_after_ascii_run, substr,
};
use vstd::string::StringSliceAdditionalSpecFns;
use vstd::utf8::{
    decode_utf8_encode_utf8, valid_utf8_concat, encode_utf8_valid_utf8, is_char_boundary, is_char_boundary_iff_not_is_continuation_byte,
    is_char_boundary_start_end_of_seq, valid_utf8,
};

verus! {

pub const SLASH: u8 = 47;
pub const STAR: u8 = 42;
pub const BANG: u8 = 33;

/// What a piece of source text is.
#[derive(Clone, Copy, Debug, PartialEq, Eq, Structural)]
pub enum Kind {
    Code,
    Literal,
    Comment,
    Newline,
}

/// A piece of source text: a token, a comment, or a line break. Pieces
/// that come from tokens carry their byte span.
#[derive(Clone, Copy, Debug)]
pub struct Piece<'a> {
    pub text: &'a str,
    pub kind: Kind,
    pub start: usize,
    pub end: usize,
}

/// A piece as bytes.
pub struct PieceView {
    pub kind: Kind,
    pub text: Seq<u8>,
    pub start: int,
    pub end: int,
}

impl<'a> View for Piece<'a> {
    type V = PieceView;

    open spec fn view(&self) -> PieceView {
        PieceView {
            kind: self.kind,
            text: self.text.spec_bytes(),
            start: self.start as int,
            end: self.end as int,
        }
    }
}

pub open spec fn views(pieces: Seq<Piece>) -> Seq<PieceView> {
    pieces.map_values(|p: Piece| p@)
}

/// The single line break that stands for a run of line breaks.
pub open spec fn newline_piece() -> PieceView {
    PieceView { kind: Kind::Newline, text: seq![LF], start: 0, end: 0 }
}

/// The last piece is a line break.
pub open spec fn ends_with_newline(pieces: Seq<PieceView>) -> bool {
    pieces.len() > 0 && pieces.last().kind == Kind::Newline
}

/// First line break at or after `i`, or the end of the text.
pub open spec fn break_or_end(b: Seq<u8>, i: int) -> int
    decreases b.len() - i,
{
    if i >= b.len() {
        b.len() as int
    } else if is_line_break(b[i]) {
        i
    } else {
        break_or_end(b, i + 1)
    }
}

/// Where a nested block comment ends, scanning from `cursor` with `depth`
/// comments open; `None` when it does not end.
pub open spec fn block_end(b: Seq<u8>, cursor: int, depth: nat) -> Option<int>
    decreases b.len() - cursor,
{
    if depth == 0 {
        Some(cursor)
    } else if cursor < 0 || cursor + 1 >= b.len() {
        None
    } else if b[cursor] == SLASH && b[cursor + 1] == STAR {
        block_end(b, cursor + 2, depth + 1)
    } else if b[cursor] == STAR && b[cursor + 1] == SLASH {
        block_end(b, cursor + 2, (depth - 1) as nat)
    } else {
        block_end(b, cursor + 1, depth)
    }
}

pub open spec fn starts_line_comment(b: Seq<u8>, i: int) -> bool {
    0 <= i && i + 1 < b.len() && ((b[i] == SLASH && b[i + 1] == SLASH) || (b[i] == HASH && b[i
        + 1] == BANG))
}

pub open spec fn starts_block_comment(b: Seq<u8>, i: int) -> bool {
    0 <= i && i + 1 < b.len() && b[i] == SLASH && b[i + 1] == STAR
}

pub open spec fn escapes_line_break(b: Seq<u8>, i: int) -> bool {
    0 <= i && i + 1 < b.len() && b[i] == BACKSLASH && (b[i + 1] == LF || b[i + 1] == CR)
}

pub open spec fn comment_piece(b: Seq<u8>, lo: int, hi: int) -> PieceView {
    PieceView { kind: Kind::Comment, text: b.subrange(lo, hi), start: 0, end: 0 }
}

pub proof fn lemma_break_or_end(b: Seq<u8>, i: int)
    requires
        0 <= i <= b.len(),
    ensures
        i <= break_or_end(b, i) <= b.len(),
        forall|k: int| i <= k < break_or_end(b, i) ==> !#[trigger] is_line_break(b[k]),
        break_or_end(b, i) < b.len() ==> is_line_break(b[break_or_end(b, i)]),
    decreases b.len() - i,
{
    if i < b.len() && !is_line_break(b[i]) {
        lemma_break_or_end(b, i + 1);
    }
}

pub proof fn lemma_block_end(b: Seq<u8>, cursor: int, depth: nat)
    requires
        0 <= cursor,
        2 <= cursor || depth == 0,
        cursor <= b.len(),
    ensures
        block_end(b, cursor, depth) matches Some(w) ==> cursor <= w <= b.len() && (depth > 0
            ==> b[w - 2] == STAR && b[w - 1] == SLASH),
    decreases b.len() - cursor,
{
    if depth != 0 && cursor + 1 < b.len() {
        if b[cursor] == SLASH && b[cursor + 1] == STAR {
            lemma_block_end(b, cursor + 2, depth + 1);
        } else if b[cursor] == STAR && b[cursor + 1] == SLASH {
            lemma_block_end(b, cursor + 2, (depth - 1) as nat);
        } else {
            lemma_block_end(b, cursor + 1, depth);
        }
    }
}

/// The pieces of the text between tokens, from byte `i` on: comments, and
/// one line-break piece per run of line breaks (none when the previous
/// piece already is one). Blanks vanish; anything else is refused.
pub open spec fn spec_trivia(b: Seq<u8>, i: int, last_newline: bool) -> Result<
    Seq<PieceView>,
    SkipReason,
>
    decreases b.len() - i,
{
    if i < 0 || i >= b.len() {
        Ok(Seq::empty())
    } else if is_blank(b[i]) {
        proof {
            lemma_skip_blanks(b, i, b.len() as int);
        }
        spec_trivia(b, skip_blanks(b, i, b.len() as int), last_newline)
    } else if is_line_break(b[i]) {
        let w = if b[i] == CR && i + 1 < b.len() && b[i + 1] == LF {
            i + 2
        } else {
            i + 1
        };
        let pushed = if last_newline {
            Seq::empty()
        } else {
            seq![newline_piece()]
        };
        match spec_trivia(b, w, true) {
            Ok(rest) => Ok(pushed + rest),
            Err(e) => Err(e),
        }
    } else if starts_line_comment(b, i) {
        proof {
            lemma_break_or_end(b, i);
        }
        let w = break_or_end(b, i);
        match spec_trivia(b, w, false) {
            Ok(rest) => Ok(seq![comment_piece(b, i, w)] + rest),
            Err(e) => Err(e),
        }
    } else if starts_block_comment(b, i) {
        proof {
            lemma_block_end(b, i + 2, 1);
        }
        match block_end(b, i + 2, 1) {
            None => Err(SkipReason::UncertainProtectedRange),
            Some(w) => match spec_trivia(b, w, false) {
                Ok(rest) => Ok(seq![comment_piece(b, i, w)] + rest),
                Err(e) => Err(e),
            },
        }
    } else if escapes_line_break(b, i) {
        Err(SkipReason::Continuation)
    } else {
        Err(SkipReason::UncertainProtectedRange)
    }
}

fn push_piece<'a>(pieces: &mut Vec<Piece<'a>>, piece: Piece<'a>)
    ensures
        views(final(pieces)@) == views(old(pieces)@).push(piece@),
        final(pieces)@ == old(pieces)@.push(piece),
{
    pieces.push(piece);
    assert(views(pieces@) =~= views(old(pieces)@).push(piece@));
}

/// The single line-break piece.
fn newline_text() -> (text: &'static str)
    ensures
        text.spec_bytes() == seq![LF],
{
    let text = "\n";
    proof {
        reveal_strlit("\n");
        assert(text@ =~= seq!['\n']);
        lemma_encode_ascii_char('\n');
    }
    text
}

/// Splits the text between two tokens into pieces; see [`spec_trivia`].
pub(crate) fn trivia<'a>(text: &'a str, pieces: &mut Vec<Piece<'a>>) -> (result: Result<
    (),
    SkipReason,
>)
    ensures
        match spec_trivia(text.spec_bytes(), 0, ends_with_newline(views(old(pieces)@))) {
            Ok(added) => result is Ok && views(final(pieces)@) == views(old(pieces)@) + added,
            Err(e) => result == Err::<(), SkipReason>(e),
        },
{
    let b = text.as_bytes();
    let ghost bs = b@;
    proof {
        encode_utf8_valid_utf8(text@);
        is_char_boundary_start_end_of_seq(bs);
    }
    let n = b.len();
    let ghost start_views = views(pieces@);
    let ghost ln0 = ends_with_newline(start_views);
    let ghost total = spec_trivia(bs, 0, ln0);
    let mut last_newline = pieces.len() > 0 && matches!(pieces[pieces.len() - 1].kind, Kind::Newline);
    let ghost mut added: Seq<PieceView> = Seq::empty();
    let mut i: usize = 0;
    assert(start_views + added =~= start_views);
    while i < n
        invariant
            b@ == bs,
            bs == text.spec_bytes(),
            start_views == views(old(pieces)@),
            ln0 == ends_with_newline(start_views),
            n == bs.len(),
            valid_utf8(bs),
            i <= n,
            is_char_boundary(bs, i as int),
            is_char_boundary(bs, n as int),
            views(pieces@) == start_views + added,
            last_newline == ends_with_newline(views(pieces@)),
            total == spec_trivia(bs, 0, ln0),
            total == match spec_trivia(bs, i as int, last_newline) {
                Ok(rest) => Ok(added + rest),
                Err(e) => Err(e),
            },
        decreases n - i,
    {
        let c = b[i];
        if c == SPACE || c == TAB {
            let mut j = i;
            while j < n && (b[j] == SPACE || b[j] == TAB)
                invariant
                    i <= j <= n,
                    n == bs.len(),
                    b@ == bs,
                    skip_blanks(bs, i as int, n as int) == skip_blanks(bs, j as int, n as int),
                    forall|k: int| i <= k < j ==> #[trigger] bs[k] < 128,
                decreases n - j,
            {
                j = j + 1;
            }
            proof {
                lemma_boundary_after_ascii_run(bs, i as int, j as int);
                assert(skip_blanks(bs, j as int, n as int) == j);
                assert(spec_trivia(bs, i as int, last_newline) == spec_trivia(
                    bs,
                    j as int,
                    last_newline,
                ));
            }
            i = j;
        } else if c == CR || c == LF {
            let w = if c == CR && i + 1 < n && b[i + 1] == LF {
                i + 2
            } else {
                i + 1
            };
            proof {
                lemma_boundary_after_ascii(bs, i as int);
                if w == i + 2 {
                    lemma_boundary_after_ascii(bs, i + 1);
                }
            }
            let ghost old_added = added;
            if !last_newline {
                let piece = Piece { text: newline_text(), kind: Kind::Newline, start: 0, end: 0 };
                push_piece(pieces, piece);
                proof {
                    added = added.push(newline_piece());
                }
            }
            proof {
                if let Ok(rest) = spec_trivia(bs, w as int, true) {
                    if !last_newline {
                        assert(old_added + (seq![newline_piece()] + rest) =~= added + rest);
                    } else {
                        assert(Seq::<PieceView>::empty() + rest =~= rest);
                    }
                }
            }
            assert(spec_trivia(bs, i as int, last_newline) == match spec_trivia(bs, w as int, true) {
                Ok(rest) => Ok(
                    (if last_newline {
                        Seq::empty()
                    } else {
                        seq![newline_piece()]
                    }) + rest,
                ),
                Err(e) => Err(e),
            });
            last_newline = true;
            i = w;
        } else if i + 1 < n && ((c == SLASH && b[i + 1] == SLASH) || (c == HASH && b[i + 1]
            == BANG)) {
            let mut w = i;
            while w < n && !(b[w] == CR || b[w] == LF)
                invariant
                    i <= w <= n,
                    n == bs.len(),
                    b@ == bs,
                    break_or_end(bs, i as int) == break_or_end(bs, w as int),
                decreases n - w,
            {
                w = w + 1;
            }
            proof {
                if w < n {
                    is_char_boundary_iff_not_is_continuation_byte(bs, w as int);
                }
            }
            let piece = Piece { text: substr(text, i, w), kind: Kind::Comment, start: 0, end: 0 };
            push_piece(pieces, piece);
            proof {
                assert(piece@ == comment_piece(bs, i as int, w as int));
                let old_added = added;
                added = added.push(piece@);
                if let Ok(rest) = spec_trivia(bs, w as int, false) {
                    assert(old_added + (seq![piece@] + rest) =~= added + rest);
                }
            }
            last_newline = false;
            i = w;
        } else if i + 1 < n && c == SLASH && b[i + 1] == STAR {
            let mut cursor = i + 2;
            let mut depth: usize = 1;
            while depth > 0 && n - cursor > 1
                invariant
                    i + 2 <= cursor <= n,
                    n == bs.len(),
                    b@ == bs,
                    depth <= cursor,
                    block_end(bs, i + 2, 1) == block_end(bs, cursor as int, depth as nat),
                decreases n - cursor,
            {
                if b[cursor] == SLASH && b[cursor + 1] == STAR {
                    depth = depth + 1;
                    cursor = cursor + 2;
                } else if b[cursor] == STAR && b[cursor + 1] == SLASH {
                    depth = depth - 1;
                    cursor = cursor + 2;
                } else {
                    cursor = cursor + 1;
                }
            }
            if depth != 0 {
                return Err(SkipReason::UncertainProtectedRange);
            }
            proof {
                lemma_block_end(bs, i + 2, 1);
                is_char_boundary_iff_not_is_continuation_byte(bs, cursor - 1);
                lemma_boundary_after_ascii(bs, cursor - 1);
            }
            let piece = Piece {
                text: substr(text, i, cursor),
                kind: Kind::Comment,
                start: 0,
                end: 0,
            };
            push_piece(pieces, piece);
            proof {
                assert(piece@ == comment_piece(bs, i as int, cursor as int));
                let old_added = added;
                added = added.push(piece@);
                if let Ok(rest) = spec_trivia(bs, cursor as int, false) {
                    assert(old_added + (seq![piece@] + rest) =~= added + rest);
                }
            }
            last_newline = false;
            i = cursor;
        } else if i + 1 < n && c == BACKSLASH && (b[i + 1] == LF || b[i + 1] == CR) {
            return Err(SkipReason::Continuation);
        } else {
            return Err(SkipReason::UncertainProtectedRange);
        }
    }
    assert(added + Seq::<PieceView>::empty() =~= added);
    Ok(())
}

/// Length of the comment marker that a normalized line comment keeps:
/// `///` for documentation comments, otherwise `//`.
pub open spec fn marker_len(b: Seq<u8>) -> int {
    if b.len() >= 3 && b[0] == SLASH && b[1] == SLASH && b[2] == SLASH {
        3
    } else {
        2
    }
}

/// A line comment written the canonical way: the marker, one space, then
/// the text without the blanks that followed the marker; a comment with no
/// text is the bare marker. Any other text is kept as it is.
pub open spec fn spec_comment(b: Seq<u8>) -> Seq<u8> {
    let m = marker_len(b);
    if b.len() >= 2 && b[0] == SLASH && b[1] == SLASH {
        let k = skip_blanks(b, m, b.len() as int);
        if k == b.len() {
            b.subrange(0, m)
        } else {
            b.subrange(0, m) + seq![SPACE] + b.subrange(k, b.len() as int)
        }
    } else {
        b
    }
}

/// Normalizes the spacing after a line comment's marker; see [`spec_comment`].
pub fn comment(text: &str) -> (result: String)
    ensures
        string_bytes(result) == spec_comment(text.spec_bytes()),
{
    let b = text.as_bytes();
    let ghost bs = b@;
    proof {
        encode_utf8_valid_utf8(text@);
        is_char_boundary_start_end_of_seq(bs);
    }
    let n = b.len();
    let mut out: Vec<u8> = Vec::new();
    if n >= 2 && b[0] == SLASH && b[1] == SLASH {
        let m: usize = if n >= 3 && b[2] == SLASH {
            3
        } else {
            2
        };
        let mut k = m;
        while k < n && (b[k] == SPACE || b[k] == TAB)
            invariant
                m <= k <= n,
                n == bs.len(),
                b@ == bs,
                skip_blanks(bs, m as int, n as int) == skip_blanks(bs, k as int, n as int),
                forall|j: int| m <= j < k ==> #[trigger] bs[j] < 128,
            decreases n - k,
        {
            k = k + 1;
        }
        assert(skip_blanks(bs, k as int, n as int) == k);
        let mut j: usize = 0;
        while j < m
            invariant
                j <= m <= n,
                m <= 3,
                n == bs.len(),
                b@ == bs,
                out@ == bs.subrange(0, j as int),
            decreases m - j,
        {
            out.push(b[j]);
            j = j + 1;
            assert(out@ =~= bs.subrange(0, j as int));
        }
        if k < n {
            out.push(SPACE);
            let ghost head = out@;
            let mut j = k;
            while j < n
                invariant
                    k <= j <= n,
                    n == bs.len(),
                    b@ == bs,
                    out@ == head + bs.subrange(k as int, j as int),
                decreases n - j,
            {
                out.push(b[j]);
                j = j + 1;
                assert(out@ =~= head + bs.subrange(k as int, j as int));
            }
        }
        proof {
            is_char_boundary_iff_not_is_continuation_byte(bs, 0);
            lemma_boundary_after_ascii_run(bs, 0, m as int);
            lemma_boundary_after_ascii_run(bs, m as int, k as int);
            lemma_subrange_valid(bs, 0, m as int);
            if k < n {
                lemma_subrange_valid(bs, k as int, n as int);
                assert(all_ascii(seq![SPACE]));
                lemma_ascii_valid(seq![SPACE]);
                valid_utf8_concat(bs.subrange(0, m as int), seq![SPACE]);
                valid_utf8_concat(
                    bs.subrange(0, m as int) + seq![SPACE],
                    bs.subrange(k as int, n as int),
                );
                assert(out@ =~= bs.subrange(0, m as int) + seq![SPACE] + bs.subrange(
                    k as int,
                    n as int,
                ));
            }
        }
    } else {
        let mut j: usize = 0;
        while j < n
            invariant
                j <= n,
                n == bs.len(),
                b@ == bs,
                out@ == bs.subrange(0, j as int),
            decreases n - j,
        {
            out.push(b[j]);
            j = j + 1;
            assert(out@ =~= bs.subrange(0, j as int));
        }
        assert(out@ =~= bs);
    }
    let ghost bytes = out@;
    let result = string_from_utf8(out);
    proof {
        decode_utf8_encode_utf8(bytes);
    }
    result
}

/// A protected piece: a literal's text, or a comment's normalized text.
pub open spec fn protected_item(p: PieceView) -> Seq<(Kind, Seq<u8>)> {
    match p.kind {
        Kind::Literal => seq![(Kind::Literal, p.text)],
        Kind::Comment => seq![(Kind::Comment, spec_comment(p.text))],
        _ => Seq::empty(),
    }
}

/// The literals and normalized comments of a piece sequence, in order.
pub open spec fn spec_protected(ps: Seq<PieceView>) -> Seq<(Kind, Seq<u8>)>
    decreases ps.len(),
{
    if ps.len() == 0 {
        Seq::empty()
    } else {
        spec_protected(ps.drop_last()) + protected_item(ps.last())
    }
}

/// A separator that layout may add or drop: `;` or `,`.
pub open spec fn is_separator(text: Seq<u8>) -> bool {
    text == seq![59u8] || text == seq![44u8]
}

pub open spec fn significant_item(p: PieceView) -> Seq<Seq<u8>> {
    if p.kind == Kind::Code && !is_separator(p.text) {
        seq![p.text]
    } else {
        Seq::empty()
    }
}

/// The code of a piece sequence other than separators, in order.
pub open spec fn spec_significant(ps: Seq<PieceView>) -> Seq<Seq<u8>>
    decreases ps.len(),
{
    if ps.len() == 0 {
        Seq::empty()
    } else {
        spec_significant(ps.drop_last()) + significant_item(ps.last())
    }
}

/// Whether a candidate keeps the original's literals and comments, and its
/// code other than separators, in the same order.
pub open spec fn spec_verify(original: Seq<PieceView>, candidate: Seq<PieceView>) -> Result<
    (),
    SkipReason,
> {
    if spec_protected(original) != spec_protected(candidate) || spec_significant(original)
        != spec_significant(candidate) {
        Err(SkipReason::TokenMismatch)
    } else {
        Ok(())
    }
}

fn bytes_of(text: &str) -> (result: Vec<u8>)
    ensures
        result@ == text.spec_bytes(),
{
    let b = text.as_bytes();
    let mut out: Vec<u8> = Vec::new();
    let mut i: usize = 0;
    while i < b.len()
        invariant
            i <= b@.len(),
            out@ == b@.subrange(0, i as int),
        decreases b@.len() - i,
    {
        out.push(b[i]);
        i = i + 1;
        assert(out@ =~= b@.subrange(0, i as int));
    }
    assert(out@ =~= b@);
    out
}

fn protected_of(pieces: &[Piece]) -> (result: Vec<(Kind, Vec<u8>)>)
    ensures
        result@.map_values(|x: (Kind, Vec<u8>)| (x.0, x.1@)) == spec_protected(views(pieces@)),
{
    let mut out: Vec<(Kind, Vec<u8>)> = Vec::new();
    let mut i: usize = 0;
    while i < pieces.len()
        invariant
            i <= pieces@.len(),
            out@.map_values(|x: (Kind, Vec<u8>)| (x.0, x.1@)) == spec_protected(
                views(pieces@).take(i as int),
            ),
        decreases pieces@.len() - i,
    {
        let piece = pieces[i];
        let ghost before = out@;
        assert(views(pieces@).take(i + 1).drop_last() =~= views(pieces@).take(i as int));
        assert(views(pieces@).take(i + 1).last() == piece@);
        match piece.kind {
            Kind::Literal => {
                out.push((Kind::Literal, bytes_of(piece.text)));
            },
            Kind::Comment => {
                let normalized = comment(piece.text);
                out.push((Kind::Comment, bytes_of(normalized.as_str())));
            },
            _ => {},
        }
        assert(out@.map_values(|x: (Kind, Vec<u8>)| (x.0, x.1@)) =~= before.map_values(
            |x: (Kind, Vec<u8>)| (x.0, x.1@),
        ) + protected_item(piece@));
        i = i + 1;
    }
    assert(views(pieces@).take(pieces@.len() as int) =~= views(pieces@));
    out
}

fn significant_of(pieces: &[Piece]) -> (result: Vec<Vec<u8>>)
    ensures
        result@.map_values(|x: Vec<u8>| x@) == spec_significant(views(pieces@)),
{
    let mut out: Vec<Vec<u8>> = Vec::new();
    let mut i: usize = 0;
    while i < pieces.len()
        invariant
            i <= pieces@.len(),
            out@.map_values(|x: Vec<u8>| x@) == spec_significant(views(pieces@).take(i as int)),
        decreases pieces@.len() - i,
    {
        let piece = pieces[i];
        let ghost before = out@;
        assert(views(pieces@).take(i + 1).drop_last() =~= views(pieces@).take(i as int));
        assert(views(pieces@).take(i + 1).last() == piece@);
        let text = bytes_of(piece.text);
        let separator = text.len() == 1 && (text[0] == 59 || text[0] == 44);
        assert(separator == is_separator(piece@.text)) by {
            if text@.len() == 1 {
                if text@[0] == 59u8 {
                    assert(text@ =~= seq![59u8]);
                } else if text@[0] == 44u8 {
                    assert(text@ =~= seq![44u8]);
                }
            }
        }
        if matches!(piece.kind, Kind::Code) && !separator {
            out.push(text);
        }
        assert(out@.map_values(|x: Vec<u8>| x@) =~= before.map_values(|x: Vec<u8>| x@)
            + significant_item(piece@));
        i = i + 1;
    }
    assert(views(pieces@).take(pieces@.len() as int) =~= views(pieces@));
    out
}

fn same_bytes(a: &Vec<u8>, b: &Vec<u8>) -> (result: bool)
    ensures
        result == (a@ == b@),
{
    if a.len() != b.len() {
        return false;
    }
    let mut i: usize = 0;
    while i < a.len()
        invariant
            a@.len() == b@.len(),
            i <= a@.len(),
            forall|k: int| 0 <= k < i ==> a@[k] == b@[k],
        decreases a@.len() - i,
    {
        if a[i] != b[i] {
            return false;
        }
        i = i + 1;
    }
    assert(a@ =~= b@);
    true
}

/// Checks that a candidate layout keeps what must not change; see
/// [`spec_verify`].
pub fn verify(original: &[Piece], candidate: &[Piece]) -> (result: Result<(), SkipReason>)
    ensures
        result == spec_verify(views(original@), views(candidate@)),
{
    let first = protected_of(original);
    let second = protected_of(candidate);
    let ghost f = first@.map_values(|x: (Kind, Vec<u8>)| (x.0, x.1@));
    let ghost g = second@.map_values(|x: (Kind, Vec<u8>)| (x.0, x.1@));
    if first.len() != second.len() {
        assert(f.len() != g.len());
        return Err(SkipReason::TokenMismatch);
    }
    let mut i: usize = 0;
    while i < first.len()
        invariant
            first@.len() == second@.len(),
            f == first@.map_values(|x: (Kind, Vec<u8>)| (x.0, x.1@)),
            g == second@.map_values(|x: (Kind, Vec<u8>)| (x.0, x.1@)),
            f == spec_protected(views(original@)),
            g == spec_protected(views(candidate@)),
            i <= first@.len(),
            forall|k: int| 0 <= k < i ==> f[k] == g[k],
        decreases first@.len() - i,
    {
        let same_kind = match (first[i].0, second[i].0) {
            (Kind::Code, Kind::Code) => true,
            (Kind::Literal, Kind::Literal) => true,
            (Kind::Comment, Kind::Comment) => true,
            (Kind::Newline, Kind::Newline) => true,
            _ => false,
        };
        if !same_kind || !same_bytes(&first[i].1, &second[i].1) {
            assert(f[i as int] != g[i as int]);
            return Err(SkipReason::TokenMismatch);
        }
        assert(f[i as int] == g[i as int]);
        i = i + 1;
    }
    assert(f =~= g);
    let first = significant_of(original);
    let second = significant_of(candidate);
    let ghost f = first@.map_values(|x: Vec<u8>| x@);
    let ghost g = second@.map_values(|x: Vec<u8>| x@);
    if first.len() != second.len() {
        assert(f.len() != g.len());
        return Err(SkipReason::TokenMismatch);
    }
    let mut i: usize = 0;
    while i < first.len()
        invariant
            first@.len() == second@.len(),
            f == first@.map_values(|x: Vec<u8>| x@),
            g == second@.map_values(|x: Vec<u8>| x@),
            f == spec_significant(views(original@)),
            g == spec_significant(views(candidate@)),
            spec_protected(views(original@)) == spec_protected(views(candidate@)),
            i <= first@.len(),
            forall|k: int| 0 <= k < i ==> f[k] == g[k],
        decreases first@.len() - i,
    {
        if !same_bytes(&first[i], &second[i]) {
            assert(f[i as int] != g[i as int]);
            return Err(SkipReason::TokenMismatch);
        }
        i = i + 1;
    }
    assert(f =~= g);
    Ok(())
}

/// A token as the lexer reports it with its extent: kind, and the byte
/// range it covers.
#[derive(Clone, Copy, Debug, PartialEq, Eq, Structural)]
pub struct Lexeme {
    pub kind: TokenKind,
    pub offset: usize,
    pub end: usize,
}

/// The length of the byte-order mark that `b` starts with, if any.
pub open spec fn leading_bom(b: Seq<u8>) -> int {
    if b.len() >= 3 && b[0] == 0xEFu8 && b[1] == 0xBBu8 && b[2] == 0xBFu8 {
        3
    } else {
        0
    }
}

/// Literal tokens are protected pieces; all other tokens are code.
pub open spec fn piece_kind(kind: TokenKind) -> Kind {
    match kind {
        TokenKind::StringLiteral | TokenKind::MutableStringLiteral | TokenKind::BytesLiteral
        | TokenKind::ByteArrayLiteral | TokenKind::RegexLiteral => Kind::Literal,
        _ => Kind::Code,
    }
}

/// From lexeme `k` on, with the previous token ending at `end`: every
/// token other than a line break lies within `b` between character
/// boundaries, after the previous one.
pub open spec fn spans_fit(b: Seq<u8>, lexemes: Seq<Lexeme>, k: int, end: int) -> bool
    decreases lexemes.len() - k,
{
    if k < 0 || k >= lexemes.len() {
        true
    } else if lexemes[k].kind == TokenKind::Newline {
        spans_fit(b, lexemes, k + 1, end)
    } else {
        let l = lexemes[k];
        &&& end <= l.offset <= l.end <= b.len()
        &&& is_char_boundary(b, l.offset as int)
        &&& is_char_boundary(b, l.end as int)
        &&& spans_fit(b, lexemes, k + 1, l.end as int)
    }
}

/// The pieces of `b` from lexeme `k` on, after the pieces `acc` and with
/// the previous token ending at `end`: the trivia before each token other
/// than a line break, then the token; finally the trivia after the last.
pub open spec fn scan_from(
    b: Seq<u8>,
    lexemes: Seq<Lexeme>,
    k: int,
    end: int,
    acc: Seq<PieceView>,
) -> Result<Seq<PieceView>, SkipReason>
    decreases lexemes.len() - k,
{
    if k < 0 || k >= lexemes.len() {
        match spec_trivia(b.subrange(end, b.len() as int), 0, ends_with_newline(acc)) {
            Ok(added) => Ok(acc + added),
            Err(e) => Err(e),
        }
    } else if lexemes[k].kind == TokenKind::Newline {
        scan_from(b, lexemes, k + 1, end, acc)
    } else {
        let l = lexemes[k];
        match spec_trivia(b.subrange(end, l.offset as int), 0, ends_with_newline(acc)) {
            Err(e) => Err(e),
            Ok(added) => scan_from(
                b,
                lexemes,
                k + 1,
                l.end as int,
                acc + added + seq![
                    PieceView {
                        kind: piece_kind(l.kind),
                        text: b.subrange(l.offset as int, l.end as int),
                        start: l.offset as int,
                        end: l.end as int,
                    },
                ],
            ),
        }
    }
}

/// The pieces of a source the lexer reported on: refused when the lexer
/// reported diagnostics; otherwise the trivia and tokens in order, after
/// any byte-order mark.
pub open spec fn spec_scan(b: Seq<u8>, clean: bool, lexemes: Seq<Lexeme>) -> Result<
    Seq<PieceView>,
    SkipReason,
> {
    if !clean {
        Err(SkipReason::LexicalDiagnostics)
    } else {
        scan_from(b, lexemes, 0, leading_bom(b), Seq::empty())
    }
}

/// Splits a source into pieces from what the lexer reported on it: whether
/// it is free of diagnostics, and its tokens with their extents. See
/// [`spec_scan`].
pub fn scan<'a>(source: &'a str, clean: bool, lexemes: &[Lexeme]) -> (result: Result<
    Vec<Piece<'a>>,
    SkipReason,
>)
    requires
        clean ==> spans_fit(source.spec_bytes(), lexemes@, 0, leading_bom(source.spec_bytes())),
    ensures
        match spec_scan(source.spec_bytes(), clean, lexemes@) {
            Ok(pieces) => result matches Ok(p) && views(p@) == pieces,
            Err(e) => result matches Err(r) && r == e,
        },
{
    if !clean {
        return Err(SkipReason::LexicalDiagnostics);
    }
    let b = source.as_bytes();
    let ghost bs = b@;
    proof {
        encode_utf8_valid_utf8(source@);
        is_char_boundary_start_end_of_seq(bs);
    }
    let n = b.len();
    let mut end: usize = if n >= 3 && b[0] == 0xEF && b[1] == 0xBB && b[2] == 0xBF {
        3
    } else {
        0
    };
    proof {
        if end == 3 {
            reveal_with_fuel(is_char_boundary, 2);
            crate::positions::lemma_scalar_step(bs, 0);
        }
    }
    let mut pieces: Vec<Piece<'a>> = Vec::new();
    let count = lexemes.len();
    let mut k: usize = 0;
    assert(views(pieces@) =~= Seq::<PieceView>::empty());
    while k < count
        invariant
            b@ == bs,
            bs == source.spec_bytes(),
            n == bs.len(),
            count == lexemes@.len(),
            k <= count,
            clean,
            end <= n,
            valid_utf8(bs),
            is_char_boundary(bs, end as int),
            spans_fit(bs, lexemes@, k as int, end as int),
            scan_from(bs, lexemes@, 0, leading_bom(bs), Seq::empty()) == scan_from(
                bs,
                lexemes@,
                k as int,
                end as int,
                views(pieces@),
            ),
        decreases count - k,
    {
        let l = lexemes[k];
        if l.kind != TokenKind::Newline {
            let gap = substr(source, end, l.offset);
            let ghost before = views(pieces@);
            assert(gap.spec_bytes() == bs.subrange(end as int, l.offset as int));
            match trivia(gap, &mut pieces) {
                Err(e) => return Err(e),
                Ok(()) => {},
            }
            let kind = match l.kind {
                TokenKind::StringLiteral | TokenKind::MutableStringLiteral
                | TokenKind::BytesLiteral | TokenKind::ByteArrayLiteral
                | TokenKind::RegexLiteral => Kind::Literal,
                _ => Kind::Code,
            };
            let ghost middle = views(pieces@);
            let piece = Piece { text: substr(source, l.offset, l.end), kind, start: l.offset, end: l.end };
            push_piece(&mut pieces, piece);
            proof {
                let added = spec_trivia(
                    bs.subrange(end as int, l.offset as int),
                    0,
                    ends_with_newline(before),
                ).unwrap();
                assert(middle == before + added);
                assert(piece@ == PieceView {
                    kind: piece_kind(l.kind),
                    text: bs.subrange(l.offset as int, l.end as int),
                    start: l.offset as int,
                    end: l.end as int,
                });
                assert(views(pieces@) =~= before + added + seq![piece@]);
            }
            end = l.end;
        }
        k = k + 1;
    }
    let rest = substr(source, end, n);
    match trivia(rest, &mut pieces) {
        Err(e) => return Err(e),
        Ok(()) => {},
    }
    Ok(pieces)
}

/// Normalizing a comment's spacing twice is the same as once, and text that
/// is not a line comment is left as it is.
pub proof fn law_comment_normal(b: Seq<u8>)
    ensures
        spec_comment(spec_comment(b)) == spec_comment(b),
        !(b.len() >= 2 && b[0] == SLASH && b[1] == SLASH) ==> spec_comment(b) == b,
{
    if b.len() >= 2 && b[0] == SLASH && b[1] == SLASH {
        let m = marker_len(b);
        let k = skip_blanks(b, m, b.len() as int);
        lemma_skip_blanks(b, m, b.len() as int);
        let c = spec_comment(b);
        if k == b.len() {
            assert(c =~= b.subrange(0, m));
            assert(marker_len(c) == m);
            assert(skip_blanks(c, m, c.len() as int) == m);
        } else {
            let rest = b.subrange(k, b.len() as int);
            assert(c =~= b.subrange(0, m) + seq![SPACE] + rest);
            assert(c[m] == SPACE);
            assert(c[m + 1] == b[k]);
            assert(marker_len(c) == m);
            assert(skip_blanks(c, m + 1, c.len() as int) == m + 1);
            assert(skip_blanks(c, m, c.len() as int) == m + 1);
            assert(c.subrange(0, m) =~= b.subrange(0, m));
            assert(c.subrange(m + 1, c.len() as int) =~= rest);
        }
    }
}

} // verus!
