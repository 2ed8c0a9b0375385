use vstd::prelude::*;

use crate::ascii::{CR, LF, RIGHT_BRACKET, SPACE, TAB};
use crate::options::{FormatOptions, SkipReason};
use vstd::string::StringSliceAdditionalSpecFns;
use crate::safety::{
    byte_at, closer_of, spec_consume, Delimiters, Token, TokenKind, NESTING_LIMIT, OUTPUT_LIMIT,
};
use crate::text::{
    string_bytes, string_from_utf8, all_ascii, all_blank, is_blank, is_line_break, lemma_ascii_valid, lemma_boundary_after_ascii,
    lemma_boundary_after_ascii_run, lemma_repeat_ascii, lemma_subrange_valid, repeat,
};
use vstd::utf8::{
    decode_utf8, decode_utf8_encode_utf8, encode_utf8, encode_utf8_valid_utf8, is_char_boundary, is_char_boundary_iff_not_is_continuation_byte,
    is_char_boundary_start_end_of_seq, length_of_first_scalar, pop_first_scalar, valid_utf8,
    valid_utf8_concat,
};

verus! {

/// One indentation level: `tab_size` spaces, or one tab.
pub open spec fn unit_of(options: FormatOptions) -> Seq<u8> {
    if options.spec_insert_spaces() {
        Seq::new(options.spec_tab_size() as nat, |i: int| SPACE)
    } else {
        seq![TAB]
    }
}

/// What the lexer's tokens must satisfy for the layout pass: they are in
/// strictly increasing order of offset, and each closing brace or
/// parenthesis token sits on its own byte.
pub open spec fn tokens_fit(b: Seq<u8>, t: Seq<Token>) -> bool {
    &&& forall|i: int, j: int| 0 <= i < j < t.len() ==> t[i].offset < t[j].offset
    &&& forall|i: int|
        0 <= i < t.len() ==> (#[trigger] t[i].kind == TokenKind::RightBrace ==> byte_at(
            b,
            t[i].offset as int,
        ) == Some(125u8)) && (t[i].kind == TokenKind::RightParen ==> byte_at(
            b,
            t[i].offset as int,
        ) == Some(41u8))
}

/// End (exclusive) of the physical line that starts at `i`: just past the
/// first carriage return or line feed, or the end of the text.
pub open spec fn line_end(b: Seq<u8>, i: int) -> int
    decreases b.len() - i,
{
    if i >= b.len() {
        b.len() as int
    } else if is_line_break(b[i]) {
        i + 1
    } else {
        line_end(b, i + 1)
    }
}

/// Length of the byte-order mark that opens the line `start..end`, if any.
pub open spec fn bom_len(b: Seq<u8>, start: int, end: int) -> int {
    if start == 0 && end >= 3 && b.len() >= 3 && b[0] == 0xEFu8 && b[1] == 0xBBu8 && b[2]
        == 0xBFu8 {
        3
    } else {
        0
    }
}

/// First position at or after `i` and before `end` that holds no blank.
pub open spec fn skip_blanks(b: Seq<u8>, i: int, end: int) -> int
    decreases end - i,
{
    if i < end && is_blank(b[i]) {
        skip_blanks(b, i + 1, end)
    } else {
        i
    }
}

/// Index of the first token at or after `i` that starts at or after `end`.
pub open spec fn tokens_before(t: Seq<Token>, i: int, end: int) -> int
    decreases t.len() - i,
{
    if 0 <= i < t.len() && t[i].offset < end {
        tokens_before(t, i + 1, end)
    } else {
        i
    }
}

/// How many tokens from `i` close a delimiter with only blanks before them,
/// scanning from byte `closer_end`.
pub open spec fn leading_closers(
    b: Seq<u8>,
    t: Seq<Token>,
    i: int,
    hi: int,
    closer_end: int,
) -> int
    decreases hi - i,
{
    if 0 <= i < hi && i < t.len() && closer_of(t[i], b) is Some && all_blank(
        b,
        closer_end,
        t[i].offset as int,
    ) {
        1 + leading_closers(b, t, i + 1, hi, t[i].offset + 1)
    } else {
        0
    }
}

/// The closer stack after tokens `i..hi`.
pub open spec fn consume_all(stack: Seq<u8>, t: Seq<Token>, i: int, hi: int, b: Seq<u8>) -> Result<
    Seq<u8>,
    SkipReason,
>
    decreases hi - i,
{
    if i >= hi || i < 0 || i >= t.len() {
        Ok(stack)
    } else {
        match spec_consume(stack, t[i], b) {
            Ok(next) => consume_all(next, t, i + 1, hi, b),
            Err(e) => Err(e),
        }
    }
}

/// Tokens `i..hi` moved so that `content_start` lands on `base`.
pub open spec fn map_tokens(t: Seq<Token>, i: int, hi: int, content_start: int, base: int) -> Result<
    Seq<Token>,
    SkipReason,
>
    decreases hi - i,
{
    if i >= hi || i < 0 || i >= t.len() {
        Ok(Seq::empty())
    } else if t[i].offset < content_start {
        Err(SkipReason::UncertainProtectedRange)
    } else {
        match map_tokens(t, i + 1, hi, content_start, base) {
            Ok(rest) => Ok(
                seq![Token { kind: t[i].kind, offset: (base + t[i].offset - content_start) as usize }]
                    + rest,
            ),
            Err(e) => Err(e),
        }
    }
}

/// The layout pass after some lines: the text written, the tokens moved
/// with it, the closers still expected, and the first token not yet placed.
pub struct IndentState {
    pub output: Seq<u8>,
    pub mapped: Seq<Token>,
    pub stack: Seq<u8>,
    pub next: int,
}

/// Where the parts of the line that starts at `start` lie, with the first
/// token not yet placed at `next`: the end of the line, the end of its
/// tokens, the length of its byte-order mark, where its content starts,
/// whether it is re-indented, and how many closers lead it.
pub struct LineParts {
    pub end: int,
    pub hi: int,
    pub bom: int,
    pub content_start: int,
    pub eligible: bool,
    pub leading: int,
}

pub open spec fn line_parts(b: Seq<u8>, t: Seq<Token>, start: int, next: int) -> LineParts {
    let end = line_end(b, start);
    let hi = tokens_before(t, next, end);
    let bom = bom_len(b, start, end);
    let content_start = skip_blanks(b, start + bom, end);
    LineParts {
        end,
        hi,
        bom,
        content_start,
        eligible: 0 <= next < hi && t[next].kind != TokenKind::Newline && t[next].offset
            == content_start,
        leading: leading_closers(b, t, next, hi, content_start),
    }
}

/// Indentation levels of a line with `depth` open delimiters.
pub open spec fn line_levels(parts: LineParts, depth: int) -> nat {
    if parts.eligible {
        (depth - parts.leading) as nat
    } else {
        0
    }
}

/// Length of the indentation written before the line's content.
pub open spec fn line_prefix(parts: LineParts, start: int, levels: nat, unit: Seq<u8>) -> int {
    if parts.eligible {
        parts.bom + levels * unit.len()
    } else {
        parts.content_start - start
    }
}

/// The text written for the line.
pub open spec fn line_piece(b: Seq<u8>, parts: LineParts, start: int, levels: nat, unit: Seq<u8>) -> Seq<u8> {
    if parts.eligible {
        b.subrange(start, start + parts.bom) + repeat(unit, levels) + b.subrange(
            parts.content_start,
            parts.end,
        )
    } else {
        b.subrange(start, parts.end)
    }
}

/// Lays out the line that starts at `start`.
///
/// A line whose first non-blank byte starts a token (other than a line
/// break) is re-indented: one unit per open delimiter, less one for each
/// closer that leads the line. Any other line is copied as it is.
pub open spec fn step_line(b: Seq<u8>, t: Seq<Token>, unit: Seq<u8>, start: int, st: IndentState) -> Result<
    IndentState,
    SkipReason,
> {
    let parts = line_parts(b, t, start, st.next);
    let depth = st.stack.len() as int;
    match consume_all(st.stack, t, st.next, parts.hi, b) {
        Err(e) => Err(e),
        Ok(stack) => if parts.eligible && depth < parts.leading {
            Err(SkipReason::MismatchedDelimiter)
        } else {
            let levels = line_levels(parts, depth);
            let new_prefix = line_prefix(parts, start, levels, unit);
            if st.output.len() + new_prefix + (parts.end - parts.content_start) > OUTPUT_LIMIT {
                Err(SkipReason::OutputLimit)
            } else {
                match map_tokens(
                    t,
                    st.next,
                    parts.hi,
                    parts.content_start,
                    st.output.len() + new_prefix,
                ) {
                    Err(e) => Err(e),
                    Ok(moved) => Ok(
                        IndentState {
                            output: st.output + line_piece(b, parts, start, levels, unit),
                            mapped: st.mapped + moved,
                            stack,
                            next: parts.hi,
                        },
                    ),
                }
            }
        },
    }
}

pub proof fn lemma_line_end_bounds(b: Seq<u8>, i: int)
    requires
        0 <= i < b.len(),
    ensures
        i < line_end(b, i) <= b.len(),
    decreases b.len() - i,
{
    if !is_line_break(b[i]) {
        if i + 1 < b.len() {
            lemma_line_end_bounds(b, i + 1);
        } else {
            assert(line_end(b, i + 1) == b.len());
        }
    }
}

/// Lays out every line from `start` on.
pub open spec fn run_lines(b: Seq<u8>, t: Seq<Token>, unit: Seq<u8>, start: int, st: IndentState) -> Result<
    IndentState,
    SkipReason,
>
    decreases b.len() - start,
{
    if start < 0 || start >= b.len() {
        Ok(st)
    } else {
        proof {
            lemma_line_end_bounds(b, start);
        }
        match step_line(b, t, unit, start, st) {
            Ok(next) => run_lines(b, t, unit, line_end(b, start), next),
            Err(e) => Err(e),
        }
    }
}

pub open spec fn initial_state() -> IndentState {
    IndentState { output: Seq::empty(), mapped: Seq::empty(), stack: Seq::empty(), next: 0 }
}

/// Re-indents the source bytes `b` with lexer tokens `t`: the output text
/// and the tokens moved to their places in it, or why the source is left
/// as it is.
pub open spec fn spec_indent(b: Seq<u8>, t: Seq<Token>, options: FormatOptions) -> Result<
    (Seq<u8>, Seq<Token>),
    SkipReason,
> {
    match run_lines(b, t, unit_of(options), 0, initial_state()) {
        Ok(st) => if st.stack.len() != 0 {
            Err(SkipReason::UnclosedDelimiter)
        } else {
            Ok((st.output, st.mapped))
        },
        Err(e) => Err(e),
    }
}

/// Tokens from `i` up to `tokens_before(t, i, end)` all start before `end`.
pub proof fn lemma_tokens_before(t: Seq<Token>, i: int, end: int)
    requires
        0 <= i <= t.len(),
    ensures
        i <= tokens_before(t, i, end) <= t.len(),
        forall|j: int| i <= j < tokens_before(t, i, end) ==> t[j].offset < end,
        tokens_before(t, i, end) < t.len() ==> t[tokens_before(t, i, end)].offset >= end,
    decreases t.len() - i,
{
    if i < t.len() && t[i].offset < end {
        lemma_tokens_before(t, i + 1, end);
    }
}

/// The bytes skipped by `skip_blanks` are blanks.
pub proof fn lemma_skip_blanks(b: Seq<u8>, i: int, end: int)
    requires
        0 <= i <= end <= b.len(),
    ensures
        i <= skip_blanks(b, i, end) <= end,
        forall|k: int| i <= k < skip_blanks(b, i, end) ==> #[trigger] is_blank(b[k]),
        skip_blanks(b, i, end) < end ==> !is_blank(b[skip_blanks(b, i, end)]),
    decreases end - i,
{
    if i < end && is_blank(b[i]) {
        lemma_skip_blanks(b, i + 1, end);
    }
}

/// No byte of a line other than its last is a line break, and the last is
/// one unless the line ends the text.
pub proof fn lemma_line_end_breaks(b: Seq<u8>, i: int)
    requires
        0 <= i < b.len(),
    ensures
        forall|k: int| i <= k < line_end(b, i) - 1 ==> !#[trigger] is_line_break(b[k]),
        line_end(b, i) < b.len() ==> is_line_break(b[line_end(b, i) - 1]),
        line_end(b, i) == b.len() ==> (is_line_break(b[b.len() - 1]) || !is_line_break(
            b[b.len() - 1],
        )),
    decreases b.len() - i,
{
    lemma_line_end_bounds(b, i);
    if !is_line_break(b[i]) && i + 1 < b.len() {
        lemma_line_end_breaks(b, i + 1);
    }
}

fn find_line_end(b: &[u8], start: usize) -> (end: usize)
    requires
        start < b@.len(),
    ensures
        end == line_end(b@, start as int),
        start < end <= b@.len(),
{
    let mut i = start;
    while i < b.len() && !(b[i] == CR || b[i] == LF)
        invariant
            start <= i <= b@.len(),
            line_end(b@, start as int) == line_end(b@, i as int),
        decreases b@.len() - i,
    {
        i = i + 1;
    }
    proof {
        lemma_line_end_bounds(b@, start as int);
    }
    if i < b.len() {
        i + 1
    } else {
        i
    }
}

fn find_tokens_before(t: &[Token], i: usize, end: usize) -> (hi: usize)
    requires
        i <= t@.len(),
    ensures
        hi == tokens_before(t@, i as int, end as int),
        i <= hi <= t@.len(),
{
    let mut j = i;
    while j < t.len() && t[j].offset < end
        invariant
            i <= j <= t@.len(),
            tokens_before(t@, i as int, end as int) == tokens_before(t@, j as int, end as int),
        decreases t@.len() - j,
    {
        j = j + 1;
    }
    j
}

fn bom_prefix(b: &[u8], start: usize, end: usize) -> (r: usize)
    ensures
        r == bom_len(b@, start as int, end as int),
{
    if start == 0 && end >= 3 && b.len() >= 3 && b[0] == 0xEF && b[1] == 0xBB && b[2] == 0xBF {
        3
    } else {
        0
    }
}

fn skip_blank_bytes(b: &[u8], i: usize, end: usize) -> (r: usize)
    requires
        i <= end <= b@.len(),
    ensures
        r == skip_blanks(b@, i as int, end as int),
        i <= r <= end,
{
    let mut j = i;
    while j < end && (b[j] == SPACE || b[j] == TAB)
        invariant
            i <= j <= end,
            end <= b@.len(),
            skip_blanks(b@, i as int, end as int) == skip_blanks(b@, j as int, end as int),
        decreases end - j,
    {
        j = j + 1;
    }
    j
}

/// Whether every byte in `lo..hi` is blank.
fn blank_range(b: &[u8], lo: usize, hi: usize) -> (r: bool)
    requires
        hi <= b@.len(),
    ensures
        r == all_blank(b@, lo as int, hi as int),
{
    let mut k = lo;
    while k < hi
        invariant
            hi <= b@.len(),
            lo <= k,
            forall|j: int| lo <= j < k ==> #[trigger] is_blank(b@[j]),
        decreases hi - k,
    {
        if !(b[k] == SPACE || b[k] == TAB) {
            assert(!is_blank(b@[k as int]));
            return false;
        }
        k = k + 1;
    }
    true
}

fn count_leading_closers(b: &[u8], t: &[Token], i: usize, hi: usize, closer_end: usize) -> (r:
    usize)
    requires
        tokens_fit(b@, t@),
        i <= hi <= t@.len(),
    ensures
        r == leading_closers(b@, t@, i as int, hi as int, closer_end as int),
        r <= hi - i,
{
    let mut j = i;
    let mut count: usize = 0;
    let mut ce = closer_end;
    loop
        invariant
            tokens_fit(b@, t@),
            i <= j <= hi <= t@.len(),
            count == j - i,
            count + leading_closers(b@, t@, j as int, hi as int, ce as int) == leading_closers(
                b@,
                t@,
                i as int,
                hi as int,
                closer_end as int,
            ),
        ensures
            count == leading_closers(b@, t@, i as int, hi as int, closer_end as int),
            count <= hi - i,
        decreases hi - j,
    {
        if j >= hi {
            return count;
        }
        let token = t[j];
        let closer = match token.kind {
            TokenKind::RightBrace => true,
            TokenKind::RightParen => true,
            TokenKind::SourceCharacter => token.offset < b.len() && b[token.offset]
                == RIGHT_BRACKET,
            _ => false,
        };
        assert(closer == closer_of(token, b@) is Some);
        if !closer {
            return count;
        }
        assert(token.offset < b@.len()) by {
            assert(t@[j as int] == token);
        }
        assert(b@.len() == b.len());
        if !blank_range(b, ce, token.offset) {
            return count;
        }
        count = count + 1;
        ce = token.offset + 1;
        j = j + 1;
    }
}

/// Appends `b[lo..hi]` to `out`.
fn append_range(out: &mut Vec<u8>, b: &[u8], lo: usize, hi: usize)
    requires
        lo <= hi <= b@.len(),
    ensures
        final(out)@ == old(out)@ + b@.subrange(lo as int, hi as int),
{
    let ghost before = out@;
    let mut k = lo;
    while k < hi
        invariant
            lo <= k <= hi <= b@.len(),
            out@ == before + b@.subrange(lo as int, k as int),
        decreases hi - k,
    {
        out.push(b[k]);
        k = k + 1;
        assert(out@ =~= before + b@.subrange(lo as int, k as int));
    }
}

/// Appends `k` copies of `unit` to `out`.
fn append_repeat(out: &mut Vec<u8>, unit: &[u8], k: usize)
    ensures
        final(out)@ == old(out)@ + repeat(unit@, k as nat),
{
    let ghost before = out@;
    let mut i: usize = 0;
    while i < k
        invariant
            i <= k,
            out@ == before + repeat(unit@, i as nat),
        decreases k - i,
    {
        append_range(out, unit, 0, unit.len());
        assert(unit@.subrange(0, unit@.len() as int) =~= unit@);
        i = i + 1;
        assert(out@ =~= before + repeat(unit@, i as nat));
    }
}

/// The layout pass in progress.
pub(crate) struct LayoutState {
    pub(crate) output: Vec<u8>,
    pub(crate) mapped: Vec<Token>,
    pub(crate) delimiters: Delimiters,
    pub(crate) next: usize,
}

impl LayoutState {
    pub(crate) closed spec fn state(&self) -> IndentState {
        IndentState {
            output: self.output@,
            mapped: self.mapped@,
            stack: self.delimiters@,
            next: self.next as int,
        }
    }

    pub(crate) closed spec fn inv(&self) -> bool {
        &&& self.delimiters.wf()
        &&& self.output@.len() <= OUTPUT_LIMIT
    }
}

/// A line's replacement text is valid UTF-8 when the source is.
proof fn lemma_piece_valid(
    b: Seq<u8>,
    unit: Seq<u8>,
    start: int,
    end: int,
    bom: int,
    content_start: int,
    levels: nat,
)
    requires
        valid_utf8(b),
        0 <= start < b.len(),
        end == line_end(b, start),
        bom == bom_len(b, start, end),
        content_start == skip_blanks(b, start + bom, end),
        is_char_boundary(b, start),
        all_ascii(unit),
    ensures
        is_char_boundary(b, end),
        start + bom <= content_start <= end,
        valid_utf8(b.subrange(start, end)),
        valid_utf8(
            b.subrange(start, start + bom) + repeat(unit, levels) + b.subrange(content_start, end),
        ),
{
    lemma_line_end_bounds(b, start);
    lemma_line_end_breaks(b, start);
    if end == b.len() {
        is_char_boundary_start_end_of_seq(b);
    } else {
        is_char_boundary_iff_not_is_continuation_byte(b, end - 1);
        lemma_boundary_after_ascii(b, end - 1);
    }
    if bom == 3 {
        reveal_with_fuel(is_char_boundary, 2);
        assert(length_of_first_scalar(b) == 3);
        assert(is_char_boundary(pop_first_scalar(b), 0));
        assert(is_char_boundary(b, 3));
    }
    lemma_skip_blanks(b, start + bom, end);
    assert forall|k: int| start + bom <= k < content_start implies #[trigger] b[k] < 128 by {
        assert(is_blank(b[k]));
    }
    lemma_boundary_after_ascii_run(b, start + bom, content_start);
    lemma_subrange_valid(b, start, end);
    lemma_subrange_valid(b, start, start + bom);
    lemma_subrange_valid(b, content_start, end);
    lemma_repeat_ascii(unit, levels);
    lemma_ascii_valid(repeat(unit, levels));
    valid_utf8_concat(b.subrange(start, start + bom), repeat(unit, levels));
    valid_utf8_concat(
        b.subrange(start, start + bom) + repeat(unit, levels),
        b.subrange(content_start, end),
    );
}

/// Lays out one line; see [`step_line`].
#[verifier::loop_isolation(false)]
fn indent_line(b: &[u8], t: &[Token], unit: &[u8], start: usize, st: &mut LayoutState) -> (r:
    Result<usize, SkipReason>)
    requires
        start < b@.len(),
        tokens_fit(b@, t@),
        old(st).next <= t@.len(),
        old(st).inv(),
        1 <= unit@.len() <= 16,
        all_ascii(unit@),
        valid_utf8(b@),
        is_char_boundary(b@, start as int),
        valid_utf8(old(st).output@),
    ensures
        match step_line(b@, t@, unit@, start as int, old(st).state()) {
            Ok(next) => {
                &&& r == Ok::<usize, SkipReason>(line_end(b@, start as int) as usize)
                &&& final(st).state() == next
                &&& final(st).inv()
                &&& final(st).next <= t@.len()
                &&& valid_utf8(final(st).output@)
                &&& is_char_boundary(b@, line_end(b@, start as int))
            },
            Err(e) => r == Err::<usize, SkipReason>(e),
        },
{
    let ghost old_state = st.state();
    let end = find_line_end(b, start);
    let next = st.next;
    let hi = find_tokens_before(t, next, end);
    proof {
        lemma_tokens_before(t@, next as int, end as int);
    }
    let bom = bom_prefix(b, start, end);
    let content_start = skip_blank_bytes(b, start + bom, end);
    let eligible = next < hi && !matches!(t[next].kind, TokenKind::Newline) && t[next].offset
        == content_start;
    let depth = st.delimiters.depth();
    let leading = count_leading_closers(b, t, next, hi, content_start);
    let mut j = next;
    while j < hi
        invariant
            next <= j <= hi <= t@.len(),
            st.delimiters.wf(),
            st.output@ == old_state.output,
            st.mapped@ == old_state.mapped,
            st.next == next,
            consume_all(old_state.stack, t@, next as int, hi as int, b@) == consume_all(
                st.delimiters@,
                t@,
                j as int,
                hi as int,
                b@,
            ),
        decreases hi - j,
    {
        match st.delimiters.consume_bytes(t[j], b) {
            Err(e) => {
                assert(consume_all(old_state.stack, t@, next as int, hi as int, b@) == Err::<
                    Seq<u8>,
                    SkipReason,
                >(e));
                assert(step_line(b@, t@, unit@, start as int, old_state) == Err::<
                    IndentState,
                    SkipReason,
                >(e));
                return Err(e);
            },
            Ok(()) => {},
        }
        j = j + 1;
    }
    if eligible && depth < leading {
        return Err(SkipReason::MismatchedDelimiter);
    }
    let levels: usize = if eligible {
        depth - leading
    } else {
        0
    };
    assert(levels <= NESTING_LIMIT);
    assert(levels * unit@.len() <= 2048) by (nonlinear_arith)
        requires
            levels <= 128,
            unit@.len() <= 16,
    ;
    let new_prefix: usize = if eligible {
        bom + levels * unit.len()
    } else {
        content_start - start
    };
    let out_len = st.output.len();
    let content_len = end - content_start;
    if new_prefix > OUTPUT_LIMIT - out_len || content_len > OUTPUT_LIMIT - out_len - new_prefix {
        return Err(SkipReason::OutputLimit);
    }
    let base = out_len + new_prefix;
    let mut moved: Vec<Token> = Vec::new();
    let mut k = next;
    while k < hi
        invariant
            next <= k <= hi <= t@.len(),
            base + content_len <= OUTPUT_LIMIT,
            content_len == end - content_start,
            forall|i: int| next <= i < hi ==> t@[i].offset < end,
            map_tokens(t@, next as int, hi as int, content_start as int, base as int) == (match map_tokens(
                t@,
                k as int,
                hi as int,
                content_start as int,
                base as int,
            ) {
                Ok(rest) => Ok(moved@ + rest),
                Err(e) => Err(e),
            }),
        decreases hi - k,
    {
        let token = t[k];
        if token.offset < content_start {
            assert(map_tokens(t@, next as int, hi as int, content_start as int, base as int) == Err::<
                Seq<Token>,
                SkipReason,
            >(SkipReason::UncertainProtectedRange));
            return Err(SkipReason::UncertainProtectedRange);
        }
        let ghost before = moved@;
        let placed = Token { kind: token.kind, offset: base + (token.offset - content_start) };
        moved.push(placed);
        proof {
            let tail = map_tokens(t@, k + 1, hi as int, content_start as int, base as int);
            if let Ok(rest) = tail {
                assert(before + (seq![placed] + rest) =~= moved@ + rest);
            }
        }
        k = k + 1;
    }
    assert(moved@ + Seq::<Token>::empty() =~= moved@);
    proof {
        lemma_piece_valid(b@, unit@, start as int, end as int, bom as int, content_start as int, levels as nat);
    }
    let ghost piece = if eligible {
        b@.subrange(start as int, start + bom) + repeat(unit@, levels as nat) + b@.subrange(
            content_start as int,
            end as int,
        )
    } else {
        b@.subrange(start as int, end as int)
    };
    let ghost out_before = st.output@;
    if eligible {
        append_range(&mut st.output, b, start, start + bom);
        append_repeat(&mut st.output, unit, levels);
        append_range(&mut st.output, b, content_start, end);
    } else {
        append_range(&mut st.output, b, start, end);
    }
    assert(st.output@ =~= out_before + piece);
    proof {
        lemma_repeat_ascii(unit@, levels as nat);
        valid_utf8_concat(out_before, piece);
    }
    st.mapped.append(&mut moved);
    st.next = hi;
    Ok(end)
}

/// Builds one indentation level.
fn make_unit(options: FormatOptions) -> (unit: Vec<u8>)
    requires
        options.wf(),
    ensures
        unit@ == unit_of(options),
        1 <= unit@.len() <= 16,
        all_ascii(unit@),
{
    let mut unit: Vec<u8> = Vec::new();
    let size = options.tab_size();
    if options.insert_spaces() {
        let mut i: u8 = 0;
        while i < size
            invariant
                i <= size,
                unit@ == Seq::new(i as nat, |k: int| SPACE),
            decreases size - i,
        {
            unit.push(SPACE);
            i = i + 1;
            assert(unit@ =~= Seq::new(i as nat, |k: int| SPACE));
        }
    } else {
        unit.push(TAB);
        assert(unit@ =~= seq![TAB]);
    }
    unit
}

/// Re-indents every line of `source` whose first non-blank byte starts a
/// token: one unit per delimiter still open at the start of the line, less
/// one per closer that leads the line. Other lines, and everything after the
/// indentation, are kept byte for byte. Also returns the tokens moved to
/// their offsets in the output.
pub fn indent(source: &str, tokens: &[Token], options: FormatOptions) -> (result: Result<
    (String, Vec<Token>),
    SkipReason,
>)
    requires
        options.wf(),
        tokens_fit(source.spec_bytes(), tokens@),
    ensures
        match result {
            Ok((output, moved)) => spec_indent(source.spec_bytes(), tokens@, options) == Ok::<
                (Seq<u8>, Seq<Token>),
                SkipReason,
            >((string_bytes(output), moved@)),
            Err(e) => spec_indent(source.spec_bytes(), tokens@, options) == Err::<
                (Seq<u8>, Seq<Token>),
                SkipReason,
            >(e),
        },
{
    let b = source.as_bytes();
    proof {
        encode_utf8_valid_utf8(source@);
        is_char_boundary_start_end_of_seq(b@);
    }
    let unit = make_unit(options);
    let mut st = LayoutState {
        output: Vec::new(),
        mapped: Vec::new(),
        delimiters: Delimiters::new(),
        next: 0,
    };
    assert(st.state() == initial_state());
    let mut start: usize = 0;
    while start < b.len()
        invariant
            b@ == source.spec_bytes(),
            tokens_fit(b@, tokens@),
            unit@ == unit_of(options),
            1 <= unit@.len() <= 16,
            all_ascii(unit@),
            valid_utf8(b@),
            start <= b@.len(),
            is_char_boundary(b@, start as int),
            st.inv(),
            st.next <= tokens@.len(),
            valid_utf8(st.output@),
            run_lines(b@, tokens@, unit@, 0, initial_state()) == run_lines(
                b@,
                tokens@,
                unit@,
                start as int,
                st.state(),
            ),
        decreases b@.len() - start,
    {
        proof {
            lemma_line_end_bounds(b@, start as int);
        }
        match indent_line(b, tokens, &unit, start, &mut st) {
            Ok(end) => {
                start = end;
            },
            Err(e) => {
                return Err(e);
            },
        }
    }
    if st.delimiters.depth() != 0 {
        return Err(SkipReason::UnclosedDelimiter);
    }
    let LayoutState { output, mapped, .. } = st;
    let ghost bytes = output@;
    let text = string_from_utf8(output);
    proof {
        decode_utf8_encode_utf8(bytes);
    }
    Ok((text, mapped))
}

} // verus!
