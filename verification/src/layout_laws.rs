use vstd::prelude::*;

use crate::layout::{
    bom_len, consume_all, initial_state, leading_closers, lemma_line_end_bounds,
    lemma_line_end_breaks, lemma_skip_blanks, lemma_tokens_before, line_end, line_levels,
    line_parts, line_piece, line_prefix, map_tokens, run_lines, skip_blanks, spec_indent,
    step_line, tokens_before, tokens_fit, unit_of, IndentState, LineParts,
};
use crate::options::{FormatOptions, SkipReason};
use crate::format::{spec_format, SpecOutcome};
use crate::safety::{
    all_hashes, byte_at, closer_of, continuation_at, has_continuation, has_unsupported_literal,
    raw_opener_at, spec_consume, unsupported_literal_at, Token, TokenKind, INPUT_LIMIT,
    OUTPUT_LIMIT,
};
use crate::text::{all_blank, is_blank, is_line_break, repeat};

verus! {

/// Every byte of `unit` is blank.
pub open spec fn blank_unit(unit: Seq<u8>) -> bool {
    unit.len() >= 1 && forall|k: int| 0 <= k < unit.len() ==> #[trigger] is_blank(unit[k])
}

/// The text opens with a byte-order mark.
pub open spec fn starts_with_bom(b: Seq<u8>) -> bool {
    b.len() >= 3 && b[0] == 0xEFu8 && b[1] == 0xBBu8 && b[2] == 0xBFu8
}

/// `out[p + shift] == b[p]` for every `p` in `lo..hi`.
pub open spec fn shifted(b: Seq<u8>, out: Seq<u8>, lo: int, hi: int, shift: int) -> bool {
    forall|p: int|
        lo <= p < hi ==> 0 <= p + shift < out.len() && 0 <= p < b.len() && #[trigger] out[p
            + shift] == b[p]
}

/// The state of the second pass that corresponds to a first-pass state.
pub open spec fn again(st: IndentState) -> IndentState {
    IndentState { output: st.output, mapped: st.mapped, stack: st.stack, next: st.mapped.len() as int }
}

proof fn lemma_map_tokens(t: Seq<Token>, i: int, hi: int, cs: int, base: int, e: int)
    requires
        0 <= i <= hi <= t.len(),
        0 <= base,
        base + (e - cs) <= OUTPUT_LIMIT,
        forall|k: int| i <= k < hi ==> t[k].offset < e,
        map_tokens(t, i, hi, cs, base) is Ok,
    ensures
        ({
            let moved = map_tokens(t, i, hi, cs, base)->Ok_0;
            &&& moved.len() == hi - i
            &&& forall|k: int|
                0 <= k < moved.len() ==> #[trigger] moved[k].kind == t[i + k].kind
                    && moved[k].offset == base + t[i + k].offset - cs && t[i + k].offset >= cs
        }),
    decreases hi - i,
{
    if i < hi {
        lemma_map_tokens(t, i + 1, hi, cs, base, e);
        let rest = map_tokens(t, i + 1, hi, cs, base)->Ok_0;
        let moved = map_tokens(t, i, hi, cs, base)->Ok_0;
        assert forall|k: int| 0 <= k < moved.len() implies #[trigger] moved[k].kind == t[i
            + k].kind && moved[k].offset == base + t[i + k].offset - cs && t[i + k].offset
            >= cs by {
            if k > 0 {
                assert(moved[k] == rest[k - 1]);
            }
        }
    }
}

proof fn lemma_map_identity(m: Seq<Token>, j: int, hi: int, c: int)
    requires
        0 <= j <= hi <= m.len(),
        forall|k: int| j <= k < hi ==> m[k].offset >= c,
    ensures
        map_tokens(m, j, hi, c, c) == Ok::<Seq<Token>, SkipReason>(m.subrange(j, hi)),
    decreases hi - j,
{
    if j < hi {
        lemma_map_identity(m, j + 1, hi, c);
        assert(seq![Token { kind: m[j].kind, offset: (c + m[j].offset - c) as usize }] + m.subrange(
            j + 1,
            hi,
        ) =~= m.subrange(j, hi));
    } else {
        assert(m.subrange(j, hi) =~= Seq::<Token>::empty());
    }
}

proof fn lemma_tokens_before_exact(m: Seq<Token>, j: int, len: int, e: int)
    requires
        0 <= j,
        0 <= len,
        j + len <= m.len(),
        forall|k: int| j <= k < j + len ==> m[k].offset < e,
        j + len < m.len() ==> m[j + len].offset >= e,
    ensures
        tokens_before(m, j, e) == j + len,
    decreases len,
{
    if len > 0 {
        lemma_tokens_before_exact(m, j + 1, len - 1, e);
    }
}

proof fn lemma_skip_blanks_exact(x: Seq<u8>, i: int, j: int, e: int)
    requires
        0 <= i <= j <= e <= x.len(),
        forall|k: int| i <= k < j ==> #[trigger] is_blank(x[k]),
        j < e ==> !is_blank(x[j]),
    ensures
        skip_blanks(x, i, e) == j,
    decreases j - i,
{
    if i < j {
        assert(is_blank(x[i]));
        lemma_skip_blanks_exact(x, i + 1, j, e);
    }
}

proof fn lemma_line_end_exact(x: Seq<u8>, i: int, e: int)
    requires
        0 <= i < e <= x.len(),
        forall|k: int| i <= k < e - 1 ==> !#[trigger] is_line_break(x[k]),
        e < x.len() ==> is_line_break(x[e - 1]),
    ensures
        line_end(x, i) == e,
    decreases e - i,
{
    if i < e - 1 {
        assert(!is_line_break(x[i]));
        lemma_line_end_exact(x, i + 1, e);
    } else if e == x.len() && !is_line_break(x[i]) {
        assert(line_end(x, i + 1) == x.len());
    }
}

proof fn lemma_consume_shift(
    stack: Seq<u8>,
    t: Seq<Token>,
    i: int,
    hi: int,
    b: Seq<u8>,
    m: Seq<Token>,
    j: int,
    out: Seq<u8>,
)
    requires
        0 <= i <= hi <= t.len(),
        0 <= j,
        j + (hi - i) <= m.len(),
        forall|k: int|
            0 <= k < hi - i ==> (#[trigger] m[j + k]).kind == t[i + k].kind && byte_at(
                out,
                m[j + k].offset as int,
            ) == byte_at(b, t[i + k].offset as int),
    ensures
        consume_all(stack, m, j, j + (hi - i), out) == consume_all(stack, t, i, hi, b),
    decreases hi - i,
{
    if i < hi {
        assert(m[j + 0].kind == t[i + 0].kind);
        assert(spec_consume(stack, m[j], out) == spec_consume(stack, t[i], b));
        match spec_consume(stack, t[i], b) {
            Ok(next) => {
                assert forall|k: int| 0 <= k < hi - (i + 1) implies (#[trigger] m[(j + 1)
                    + k]).kind == t[(i + 1) + k].kind && byte_at(
                    out,
                    m[(j + 1) + k].offset as int,
                ) == byte_at(b, t[(i + 1) + k].offset as int) by {
                    assert(m[(j + 1) + k] == m[j + (k + 1)]);
                    assert(t[(i + 1) + k] == t[i + (k + 1)]);
                }
                lemma_consume_shift(next, t, i + 1, hi, b, m, j + 1, out);
            },
            Err(_) => {},
        }
    }
}

proof fn lemma_leading_shift(
    b: Seq<u8>,
    t: Seq<Token>,
    i: int,
    hi: int,
    ce: int,
    out: Seq<u8>,
    m: Seq<Token>,
    j: int,
    shift: int,
    lo: int,
    e: int,
)
    requires
        0 <= i <= hi <= t.len(),
        0 <= j,
        j + (hi - i) <= m.len(),
        lo <= ce <= e,
        shifted(b, out, lo, e, shift),
        forall|k: int|
            0 <= k < hi - i ==> (#[trigger] m[j + k]).kind == t[i + k].kind && m[j + k].offset
                == t[i + k].offset + shift && lo <= t[i + k].offset < e,
    ensures
        leading_closers(out, m, j, j + (hi - i), ce + shift) == leading_closers(b, t, i, hi, ce),
    decreases hi - i,
{
    if i < hi {
        assert(m[j + 0].kind == t[i + 0].kind);
        let off = t[i].offset as int;
        assert(out[off + shift] == b[off]);
        assert(closer_of(m[j], out) == closer_of(t[i], b));
        assert(all_blank(out, ce + shift, off + shift) == all_blank(b, ce, off)) by {
            if all_blank(b, ce, off) {
                assert forall|k: int| ce + shift <= k < off + shift implies #[trigger] is_blank(
                    out[k],
                ) by {
                    assert(out[(k - shift) + shift] == b[k - shift]);
                    assert(is_blank(b[k - shift]));
                }
            }
            if all_blank(out, ce + shift, off + shift) {
                assert forall|k: int| ce <= k < off implies #[trigger] is_blank(b[k]) by {
                    assert(out[k + shift] == b[k]);
                    assert(is_blank(out[k + shift]));
                }
            }
        }
        if closer_of(t[i], b) is Some && all_blank(b, ce, off) {
            assert forall|k: int| 0 <= k < hi - (i + 1) implies (#[trigger] m[(j + 1) + k]).kind
                == t[(i + 1) + k].kind && m[(j + 1) + k].offset == t[(i + 1) + k].offset + shift
                && lo <= t[(i + 1) + k].offset < e by {
                assert(m[(j + 1) + k] == m[j + (k + 1)]);
                assert(t[(i + 1) + k] == t[i + (k + 1)]);
            }
            lemma_leading_shift(b, t, i + 1, hi, off + 1, out, m, j + 1, shift, lo, e);
            assert(m[j].offset + 1 == (off + 1) + shift);
        }
    }
}

proof fn lemma_repeat_blank(u: Seq<u8>, k: nat)
    requires
        blank_unit(u),
    ensures
        repeat(u, k).len() == k * u.len(),
        forall|j: int| 0 <= j < repeat(u, k).len() ==> #[trigger] is_blank(repeat(u, k)[j]),
    decreases k,
{
    if k > 0 {
        lemma_repeat_blank(u, (k - 1) as nat);
        let r = repeat(u, (k - 1) as nat);
        assert(repeat(u, k) == r + u);
        assert forall|j: int| 0 <= j < (r + u).len() implies #[trigger] is_blank((r + u)[j]) by {
            if j < r.len() {
                assert((r + u)[j] == r[j]);
            } else {
                assert((r + u)[j] == u[j - r.len()]);
            }
        }
        let a: int = (k - 1) as int;
        let n: int = u.len() as int;
        assert(a * n + n == (a + 1) * n) by (nonlinear_arith);
    } else {
        assert(0 * u.len() == 0) by (nonlinear_arith);
    }
}

/// What a successful layout of one line consists of.
proof fn lemma_step_unfold(b: Seq<u8>, t: Seq<Token>, u: Seq<u8>, start: int, st: IndentState)
    requires
        0 <= start < b.len(),
        0 <= st.next <= t.len(),
        blank_unit(u),
        step_line(b, t, u, start, st) is Ok,
    ensures
        ({
            let p = line_parts(b, t, start, st.next);
            let levels = line_levels(p, st.stack.len() as int);
            let np = line_prefix(p, start, levels, u);
            let base = st.output.len() + np;
            let moved = map_tokens(t, st.next, p.hi, p.content_start, base)->Ok_0;
            let piece = line_piece(b, p, start, levels, u);
            &&& p.end == line_end(b, start)
            &&& start < p.end <= b.len()
            &&& st.next <= p.hi <= t.len()
            &&& start + p.bom <= p.content_start <= p.end
            &&& (p.bom == 3 ==> start == 0 && starts_with_bom(b))
            &&& (start == 0 && starts_with_bom(b) ==> p.bom == 3)
            &&& forall|k: int| start + p.bom <= k < p.content_start ==> #[trigger] is_blank(b[k])
            &&& (p.content_start < p.end ==> !is_blank(b[p.content_start]))
            &&& forall|k: int| start <= k < p.end - 1 ==> !#[trigger] is_line_break(b[k])
            &&& (p.end < b.len() ==> is_line_break(b[p.end - 1]))
            &&& (p.eligible ==> st.next < p.hi && t[st.next].offset == p.content_start
                && t[st.next].kind != TokenKind::Newline && p.content_start < p.end)
            &&& (!p.eligible && st.next < p.hi ==> (t[st.next].offset != p.content_start
                || t[st.next].kind == TokenKind::Newline))
            &&& np >= 0
            &&& (!p.eligible ==> np == p.content_start - start)
            &&& piece.len() == np + (p.end - p.content_start)
            &&& piece.len() > 0
            &&& base + (p.end - p.content_start) <= OUTPUT_LIMIT
            &&& moved.len() == p.hi - st.next
            &&& forall|k: int|
                0 <= k < moved.len() ==> #[trigger] moved[k].kind == t[st.next + k].kind
                    && moved[k].offset == base + t[st.next + k].offset - p.content_start
                    && p.content_start <= t[st.next + k].offset < p.end
            &&& consume_all(st.stack, t, st.next, p.hi, b) is Ok
            &&& !(p.eligible && st.stack.len() < p.leading)
            &&& step_line(b, t, u, start, st)->Ok_0 == IndentState {
                output: st.output + piece,
                mapped: st.mapped + moved,
                stack: consume_all(st.stack, t, st.next, p.hi, b)->Ok_0,
                next: p.hi,
            }
        }),
{
    let p = line_parts(b, t, start, st.next);
    lemma_line_end_bounds(b, start);
    lemma_line_end_breaks(b, start);
    lemma_tokens_before(t, st.next, p.end);
    lemma_skip_blanks(b, start + p.bom, p.end);
    let levels = line_levels(p, st.stack.len() as int);
    lemma_repeat_blank(u, levels);
    let np = line_prefix(p, start, levels, u);
    let base = st.output.len() + np;
    assert(0 <= levels * u.len()) by (nonlinear_arith);
    lemma_map_tokens(t, st.next, p.hi, p.content_start, base, p.end);
    if start == 0 && starts_with_bom(b) {
        assert(!is_line_break(b[0]) && !is_line_break(b[1]) && !is_line_break(b[2]));
        assert(line_end(b, 0) == line_end(b, 1));
        assert(line_end(b, 1) == line_end(b, 2));
        assert(line_end(b, 2) == line_end(b, 3));
        lemma_line_end_bounds(b, 0);
    }
}

/// Running the layout only ever appends: earlier output and moved tokens
/// stay as they are, and every token moved later lands at or after the
/// output written so far.
pub proof fn lemma_run_extends(b: Seq<u8>, t: Seq<Token>, u: Seq<u8>, start: int, st: IndentState)
    requires
        0 <= start,
        0 <= st.next <= t.len(),
        blank_unit(u),
        run_lines(b, t, u, start, st) is Ok,
    ensures
        ({
            let fin = run_lines(b, t, u, start, st)->Ok_0;
            &&& st.output.len() <= fin.output.len()
            &&& fin.output.subrange(0, st.output.len() as int) == st.output
            &&& st.mapped.len() <= fin.mapped.len()
            &&& fin.mapped.subrange(0, st.mapped.len() as int) == st.mapped
            &&& forall|k: int|
                st.mapped.len() <= k < fin.mapped.len() ==> #[trigger] fin.mapped[k].offset
                    >= st.output.len()
            &&& start >= b.len() ==> fin == st
        }),
    decreases b.len() - start,
{
    let fin = run_lines(b, t, u, start, st)->Ok_0;
    if start < b.len() {
        lemma_step_unfold(b, t, u, start, st);
        let st2 = step_line(b, t, u, start, st)->Ok_0;
        let p = line_parts(b, t, start, st.next);
        let levels = line_levels(p, st.stack.len() as int);
        let np = line_prefix(p, start, levels, u);
        let base = st.output.len() + np;
        let moved = map_tokens(t, st.next, p.hi, p.content_start, base)->Ok_0;
        lemma_run_extends(b, t, u, p.end, st2);
        assert(st2.output.subrange(0, st.output.len() as int) =~= st.output);
        assert(fin.output.subrange(0, st.output.len() as int) =~= st2.output.subrange(
            0,
            st.output.len() as int,
        ));
        assert(st2.mapped.subrange(0, st.mapped.len() as int) =~= st.mapped);
        assert(fin.mapped.subrange(0, st.mapped.len() as int) =~= st2.mapped.subrange(
            0,
            st.mapped.len() as int,
        ));
        assert forall|k: int| st.mapped.len() <= k < fin.mapped.len() implies #[trigger] fin.mapped[k].offset
            >= st.output.len() by {
            if k < st2.mapped.len() {
                assert(fin.mapped[k] == fin.mapped.subrange(0, st2.mapped.len() as int)[k]);
                let q = k - st.mapped.len();
                assert(fin.mapped[k] == moved[q]);
                assert(moved[q].kind == t[st.next + q].kind);
            }
        }
    }
}

/// The first pass, one line at a time, against the text and tokens it
/// produced: where the line's copy starts and ends, and its tokens.
pub open spec fn copied(
    b: Seq<u8>,
    t: Seq<Token>,
    u: Seq<u8>,
    start: int,
    st: IndentState,
    out: Seq<u8>,
    m: Seq<Token>,
) -> bool {
    let p = line_parts(b, t, start, st.next);
    let levels = line_levels(p, st.stack.len() as int);
    let np = line_prefix(p, start, levels, u);
    let base = st.output.len() + np;
    let moved = map_tokens(t, st.next, p.hi, p.content_start, base)->Ok_0;
    let piece = line_piece(b, p, start, levels, u);
    let ostart = st.output.len() as int;
    let oend = ostart + piece.len();
    &&& oend <= out.len()
    &&& (p.end == b.len() ==> oend == out.len())
    &&& forall|k: int| 0 <= k < piece.len() ==> #[trigger] out[ostart + k] == piece[k]
    &&& st.mapped.len() + moved.len() <= m.len()
    &&& forall|k: int| 0 <= k < moved.len() ==> #[trigger] m[st.mapped.len() + k] == moved[k]
    &&& (st.mapped.len() + moved.len() < m.len() ==> m[(st.mapped.len() + moved.len()) as int].offset
        >= oend)
}

/// The second pass finds the same parts in the copy of a line.
proof fn lemma_parts_again(
    b: Seq<u8>,
    t: Seq<Token>,
    u: Seq<u8>,
    start: int,
    st: IndentState,
    out: Seq<u8>,
    m: Seq<Token>,
)
    requires
        0 <= start < b.len(),
        0 <= st.next <= t.len(),
        blank_unit(u),
        (start == 0) == (st.output.len() == 0),
        step_line(b, t, u, start, st) is Ok,
        copied(b, t, u, start, st, out, m),
        start == 0 && starts_with_bom(out) ==> starts_with_bom(b),
    ensures
        ({
            let p = line_parts(b, t, start, st.next);
            let levels = line_levels(p, st.stack.len() as int);
            let np = line_prefix(p, start, levels, u);
            let base = st.output.len() + np;
            let piece = line_piece(b, p, start, levels, u);
            let ostart = st.output.len() as int;
            let next2 = st.mapped.len() as int;
            let p2 = line_parts(out, m, ostart, next2);
            &&& p2.end == ostart + piece.len()
            &&& p2.hi == next2 + (p.hi - st.next)
            &&& p2.bom == p.bom
            &&& p2.content_start == base
            &&& p2.eligible == p.eligible
            &&& p2.leading == p.leading
            &&& shifted(b, out, p.content_start, p.end, base - p.content_start)
        }),
{
    lemma_step_unfold(b, t, u, start, st);
    let p = line_parts(b, t, start, st.next);
    let levels = line_levels(p, st.stack.len() as int);
    lemma_repeat_blank(u, levels);
    let rep = repeat(u, levels);
    let np = line_prefix(p, start, levels, u);
    let base = st.output.len() + np;
    let moved = map_tokens(t, st.next, p.hi, p.content_start, base)->Ok_0;
    let piece = line_piece(b, p, start, levels, u);
    let ostart = st.output.len() as int;
    let oend = ostart + piece.len();
    let next2 = st.mapped.len() as int;
    let cs = p.content_start;
    let end = p.end;
    let shift = base - cs;
    assert(shifted(b, out, cs, end, shift)) by {
        assert forall|q: int| cs <= q < end implies 0 <= q + shift < out.len() && 0 <= q
            < b.len() && #[trigger] out[q + shift] == b[q] by {
            let k = np + (q - cs);
            assert(out[ostart + k] == piece[k]);
            if p.eligible {
                assert(piece[k] == b[q]);
            } else {
                assert(piece[k] == b[start + k]);
            }
        }
    }
    // End of the line.
    assert forall|k: int| ostart <= k < oend - 1 implies !#[trigger] is_line_break(out[k]) by {
        let q = k - ostart;
        assert(out[ostart + q] == piece[q]);
        if p.eligible {
            if q < p.bom {
                assert(piece[q] == b[start + q]);
            } else if q < p.bom + rep.len() {
                assert(piece[q] == rep[q - p.bom]);
                assert(is_blank(rep[q - p.bom]));
            } else {
                assert(piece[q] == b[cs + (q - p.bom - rep.len())]);
            }
        } else {
            assert(piece[q] == b[start + q]);
        }
    }
    assert(oend < out.len() ==> is_line_break(out[oend - 1])) by {
        if oend < out.len() {
            assert(out[ostart + (piece.len() - 1)] == piece[piece.len() - 1]);
            assert(piece[piece.len() - 1] == b[end - 1]);
        }
    }
    lemma_line_end_exact(out, ostart, oend);
    // Tokens of the line.
    assert forall|k: int| next2 <= k < next2 + moved.len() implies m[k].offset < oend by {
        assert(m[next2 + (k - next2)] == moved[k - next2]);
        assert(moved[k - next2].kind == t[st.next + (k - next2)].kind);
    }
    lemma_tokens_before_exact(m, next2, moved.len() as int, oend);
    // Byte-order mark.
    assert(bom_len(out, ostart, oend) == p.bom) by {
        if ostart == 0 && oend >= 3 && out.len() >= 3 {
            assert(out[ostart + 0] == piece[0]);
            assert(out[ostart + 1] == piece[1]);
            assert(out[ostart + 2] == piece[2]);
            if !p.eligible {
                assert(piece[0] == b[0] && piece[1] == b[1] && piece[2] == b[2]);
            } else if p.bom == 3 {
                assert(piece[0] == b[0] && piece[1] == b[1] && piece[2] == b[2]);
            }
        }
    }
    // Start of the content.
    assert forall|k: int| ostart + p.bom <= k < base implies #[trigger] is_blank(out[k]) by {
        let q = k - ostart;
        assert(out[ostart + q] == piece[q]);
        if p.eligible {
            assert(piece[q] == rep[q - p.bom]);
        } else {
            assert(piece[q] == b[start + q]);
            assert(is_blank(b[start + q]));
        }
    }
    assert(base < oend ==> !is_blank(out[base])) by {
        if base < oend {
            assert(out[cs + shift] == b[cs]);
        }
    }
    lemma_skip_blanks_exact(out, ostart + p.bom, base, oend);
    // Eligibility.
    if st.next < p.hi {
        assert(m[next2 + 0] == moved[0]);
        assert(moved[0].kind == t[st.next + 0].kind);
    }
    // Leading closers.
    assert forall|k: int| 0 <= k < p.hi - st.next implies (#[trigger] m[next2 + k]).kind
        == t[st.next + k].kind && m[next2 + k].offset == t[st.next + k].offset + shift && cs
        <= t[st.next + k].offset < end by {
        assert(m[next2 + k] == moved[k]);
        assert(moved[k].kind == t[st.next + k].kind);
    }
    lemma_leading_shift(b, t, st.next, p.hi, cs, out, m, next2, shift, cs, end);
}

/// The second pass lays out a line's copy exactly as the first pass wrote it.
proof fn lemma_step_again(
    b: Seq<u8>,
    t: Seq<Token>,
    u: Seq<u8>,
    start: int,
    st: IndentState,
    out: Seq<u8>,
    m: Seq<Token>,
)
    requires
        0 <= start < b.len(),
        0 <= st.next <= t.len(),
        blank_unit(u),
        (start == 0) == (st.output.len() == 0),
        step_line(b, t, u, start, st) is Ok,
        copied(b, t, u, start, st, out, m),
        start == 0 && starts_with_bom(out) ==> starts_with_bom(b),
    ensures
        ({
            let st2 = step_line(b, t, u, start, st)->Ok_0;
            &&& line_end(out, st.output.len() as int) == st2.output.len()
            &&& st.output.len() < st2.output.len()
            &&& step_line(out, m, u, st.output.len() as int, again(st)) == Ok::<
                IndentState,
                SkipReason,
            >(again(st2))
        }),
{
    lemma_step_unfold(b, t, u, start, st);
    lemma_parts_again(b, t, u, start, st, out, m);
    let p = line_parts(b, t, start, st.next);
    let levels = line_levels(p, st.stack.len() as int);
    lemma_repeat_blank(u, levels);
    let np = line_prefix(p, start, levels, u);
    let base = st.output.len() + np;
    let moved = map_tokens(t, st.next, p.hi, p.content_start, base)->Ok_0;
    let piece = line_piece(b, p, start, levels, u);
    let ostart = st.output.len() as int;
    let oend = ostart + piece.len();
    let next2 = st.mapped.len() as int;
    let cs = p.content_start;
    let end = p.end;
    let shift = base - cs;
    let p2 = line_parts(out, m, ostart, next2);
    let len = p.hi - st.next;
    assert forall|k: int| 0 <= k < len implies (#[trigger] m[next2 + k]).kind == t[st.next
        + k].kind && byte_at(out, m[next2 + k].offset as int) == byte_at(
        b,
        t[st.next + k].offset as int,
    ) by {
        assert(m[next2 + k] == moved[k]);
        assert(moved[k].kind == t[st.next + k].kind);
        let off = t[st.next + k].offset as int;
        assert(out[off + shift] == b[off]);
    }
    lemma_consume_shift(st.stack, t, st.next, p.hi, b, m, next2, out);
    assert forall|k: int| next2 <= k < next2 + len implies m[k].offset >= base by {
        assert(m[next2 + (k - next2)] == moved[k - next2]);
        assert(moved[k - next2].kind == t[st.next + (k - next2)].kind);
    }
    lemma_map_identity(m, next2, next2 + len, base);
    assert(m.subrange(next2, next2 + len) =~= moved) by {
        assert forall|k: int| 0 <= k < len implies m.subrange(next2, next2 + len)[k]
            == moved[k] by {
            assert(m[next2 + k] == moved[k]);
        }
    }
    assert(line_levels(p2, st.stack.len() as int) == levels);
    assert(line_prefix(p2, ostart, levels, u) == np);
    let piece2 = line_piece(out, p2, ostart, levels, u);
    assert(piece2 =~= piece) by {
        assert forall|k: int| 0 <= k < piece.len() implies piece2[k] == piece[k] by {
            assert(out[ostart + k] == piece[k]);
        }
    }
}

/// The second pass over the whole remaining text reproduces the first.
proof fn lemma_run_again(b: Seq<u8>, t: Seq<Token>, u: Seq<u8>, start: int, st: IndentState)
    requires
        0 <= start,
        0 <= st.next <= t.len(),
        blank_unit(u),
        (start == 0) == (st.output.len() == 0),
        run_lines(b, t, u, start, st) is Ok,
        start == 0 && starts_with_bom(run_lines(b, t, u, start, st)->Ok_0.output) ==> starts_with_bom(
            b,
        ),
    ensures
        ({
            let fin = run_lines(b, t, u, start, st)->Ok_0;
            run_lines(fin.output, fin.mapped, u, st.output.len() as int, again(st)) == Ok::<
                IndentState,
                SkipReason,
            >(again(fin))
        }),
    decreases b.len() - start,
{
    let fin = run_lines(b, t, u, start, st)->Ok_0;
    let out = fin.output;
    let m = fin.mapped;
    lemma_run_extends(b, t, u, start, st);
    if start < b.len() {
        lemma_step_unfold(b, t, u, start, st);
        let st2 = step_line(b, t, u, start, st)->Ok_0;
        let p = line_parts(b, t, start, st.next);
        let levels = line_levels(p, st.stack.len() as int);
        let np = line_prefix(p, start, levels, u);
        let base = st.output.len() + np;
        let moved = map_tokens(t, st.next, p.hi, p.content_start, base)->Ok_0;
        let piece = line_piece(b, p, start, levels, u);
        let ostart = st.output.len() as int;
        let next2 = st.mapped.len() as int;
        assert(run_lines(b, t, u, p.end, st2) == Ok::<IndentState, SkipReason>(fin));
        lemma_run_extends(b, t, u, p.end, st2);
        assert(copied(b, t, u, start, st, out, m)) by {
            assert forall|k: int| 0 <= k < piece.len() implies #[trigger] out[ostart + k]
                == piece[k] by {
                assert(out.subrange(0, st2.output.len() as int)[ostart + k] == st2.output[ostart
                    + k]);
            }
            assert forall|k: int| 0 <= k < moved.len() implies #[trigger] m[next2 + k]
                == moved[k] by {
                assert(m.subrange(0, st2.mapped.len() as int)[next2 + k] == st2.mapped[next2
                    + k]);
            }
            if st2.mapped.len() < m.len() {
                assert(m[st2.mapped.len() as int].offset >= st2.output.len());
            }
        }
        lemma_step_again(b, t, u, start, st, out, m);
        lemma_run_again(b, t, u, p.end, st2);
    }
}

/// Re-indenting is idempotent: laying out the output again, with the tokens
/// moved to it, gives back the same output and tokens. It holds unless the
/// output would newly start with a byte-order mark that the source did not
/// start with.
pub proof fn lemma_indent_idempotent(b: Seq<u8>, t: Seq<Token>, options: FormatOptions)
    requires
        options.wf(),
        spec_indent(b, t, options) is Ok,
        starts_with_bom(spec_indent(b, t, options)->Ok_0.0) ==> starts_with_bom(b),
    ensures
        spec_indent(spec_indent(b, t, options)->Ok_0.0, spec_indent(b, t, options)->Ok_0.1, options)
            == spec_indent(b, t, options),
{
    let u = unit_of(options);
    assert(blank_unit(u)) by {
        if options.spec_insert_spaces() {
            assert forall|k: int| 0 <= k < u.len() implies #[trigger] is_blank(u[k]) by {}
        } else {
            assert(is_blank(u[0]));
        }
    }
    let fin = run_lines(b, t, u, 0, initial_state())->Ok_0;
    lemma_run_again(b, t, u, 0, initial_state());
    assert(again(initial_state()) == initial_state());
}

/// A pattern that the preflight rejects, found in a copied stretch of the
/// output, is found at the matching place of the source.
proof fn lemma_pattern_in_copy(b: Seq<u8>, out: Seq<u8>, lo: int, hi: int, shift: int, i: int)
    requires
        0 <= lo <= hi <= b.len(),
        shifted(b, out, lo, hi, shift),
        hi + shift == out.len() || is_line_break(out[hi + shift - 1]),
        lo + shift <= i < hi + shift,
        hi + shift <= out.len(),
    ensures
        continuation_at(out, i) ==> continuation_at(b, i - shift),
        unsupported_literal_at(out, i) ==> unsupported_literal_at(b, i - shift),
{
    let q = i - shift;
    assert(out[q + shift] == b[q]);
    if continuation_at(out, i) {
        assert(i + 1 < hi + shift);
        assert(out[(q + 1) + shift] == b[q + 1]);
    }
    if unsupported_literal_at(out, i) {
        if i + 2 < out.len() && out[i] == 34u8 && out[i + 1] == 34u8 && out[i + 2] == 34u8 {
            assert(i + 2 < hi + shift);
            assert(out[(q + 1) + shift] == b[q + 1]);
            assert(out[(q + 2) + shift] == b[q + 2]);
        } else if i + 2 < out.len() && out[i] == 39u8 && out[i + 1] == 39u8 && out[i + 2] == 39u8 {
            assert(i + 2 < hi + shift);
            assert(out[(q + 1) + shift] == b[q + 1]);
            assert(out[(q + 2) + shift] == b[q + 2]);
        } else if i + 1 < out.len() && out[i] == 36u8 && out[i + 1] == 123u8 {
            assert(i + 1 < hi + shift);
            assert(out[(q + 1) + shift] == b[q + 1]);
        } else {
            assert(raw_opener_at(out, i));
            let j = choose|j: int|
                #![trigger out[j]]
                i < j < out.len() && all_hashes(out, i + 1, j) && (out[j] == 39u8 || out[j]
                    == 34u8);
            assert(j < hi + shift) by {
                if j >= hi + shift {
                    let k = hi + shift - 1;
                    if k > i {
                        assert(out[k] == 35u8);
                    }
                }
            }
            assert(out[(j - shift) + shift] == b[j - shift]);
            assert(all_hashes(b, q + 1, j - shift)) by {
                assert forall|k: int| q + 1 <= k < j - shift implies b[k] == 35u8 by {
                    assert(out[k + shift] == b[k]);
                    assert(out[k + shift] == 35u8);
                }
            }
            assert(raw_opener_at(b, q));
        }
    }
}

/// The copy of one line holds no pattern that the preflight rejects when
/// the source holds none.
proof fn lemma_patterns_line(
    b: Seq<u8>,
    t: Seq<Token>,
    u: Seq<u8>,
    start: int,
    st: IndentState,
    out: Seq<u8>,
    m: Seq<Token>,
)
    requires
        0 <= start < b.len(),
        0 <= st.next <= t.len(),
        blank_unit(u),
        step_line(b, t, u, start, st) is Ok,
        copied(b, t, u, start, st, out, m),
        !has_continuation(b),
        !has_unsupported_literal(b),
    ensures
        forall|i: int|
            st.output.len() <= i < step_line(b, t, u, start, st)->Ok_0.output.len() ==> !continuation_at(
                out,
                i,
            ) && !unsupported_literal_at(out, i),
{
    lemma_step_unfold(b, t, u, start, st);
    let p = line_parts(b, t, start, st.next);
    let levels = line_levels(p, st.stack.len() as int);
    lemma_repeat_blank(u, levels);
    let rep = repeat(u, levels);
    let np = line_prefix(p, start, levels, u);
    let base = st.output.len() + np;
    let piece = line_piece(b, p, start, levels, u);
    let ostart = st.output.len() as int;
    let oend = ostart + piece.len();
    let cs = p.content_start;
    let end = p.end;
    let shift = base - cs;
    let lo = if p.eligible {
        cs
    } else {
        start
    };
    assert(shifted(b, out, lo, end, shift)) by {
        assert forall|q: int| lo <= q < end implies 0 <= q + shift < out.len() && 0 <= q
            < b.len() && #[trigger] out[q + shift] == b[q] by {
            let k = q + shift - ostart;
            assert(out[ostart + k] == piece[k]);
            if p.eligible {
                assert(piece[k] == b[q]);
            } else {
                assert(piece[k] == b[start + k]);
            }
        }
    }
    assert(end + shift == oend);
    assert(oend < out.len() ==> is_line_break(out[oend - 1])) by {
        if oend < out.len() {
            assert(out[ostart + (piece.len() - 1)] == piece[piece.len() - 1]);
            assert(piece[piece.len() - 1] == b[end - 1]);
        }
    }
    assert forall|i: int| ostart <= i < oend implies !continuation_at(out, i)
        && !unsupported_literal_at(out, i) by {
        if i < lo + shift {
            let k = i - ostart;
            assert(out[ostart + k] == piece[k]);
            if k < p.bom {
                assert(piece[k] == b[start + k]);
                assert(start == 0 && k < 3);
            } else {
                assert(piece[k] == rep[k - p.bom]);
                assert(is_blank(rep[k - p.bom]));
            }
        } else {
            lemma_pattern_in_copy(b, out, lo, end, shift, i);
            if continuation_at(out, i) {
                assert(continuation_at(b, i - shift));
            }
            if unsupported_literal_at(out, i) {
                assert(unsupported_literal_at(b, i - shift));
            }
        }
    }
}

/// The whole output holds no pattern that the preflight rejects when the
/// source holds none.
proof fn lemma_patterns_run(b: Seq<u8>, t: Seq<Token>, u: Seq<u8>, start: int, st: IndentState)
    requires
        0 <= start,
        0 <= st.next <= t.len(),
        blank_unit(u),
        run_lines(b, t, u, start, st) is Ok,
        !has_continuation(b),
        !has_unsupported_literal(b),
    ensures
        ({
            let fin = run_lines(b, t, u, start, st)->Ok_0;
            forall|i: int|
                st.output.len() <= i < fin.output.len() ==> !continuation_at(fin.output, i)
                    && !unsupported_literal_at(fin.output, i)
        }),
    decreases b.len() - start,
{
    let fin = run_lines(b, t, u, start, st)->Ok_0;
    let out = fin.output;
    let m = fin.mapped;
    lemma_run_extends(b, t, u, start, st);
    if start < b.len() {
        lemma_step_unfold(b, t, u, start, st);
        let st2 = step_line(b, t, u, start, st)->Ok_0;
        let p = line_parts(b, t, start, st.next);
        let levels = line_levels(p, st.stack.len() as int);
        let np = line_prefix(p, start, levels, u);
        let base = st.output.len() + np;
        let moved = map_tokens(t, st.next, p.hi, p.content_start, base)->Ok_0;
        let piece = line_piece(b, p, start, levels, u);
        let ostart = st.output.len() as int;
        let next2 = st.mapped.len() as int;
        assert(run_lines(b, t, u, p.end, st2) == Ok::<IndentState, SkipReason>(fin));
        lemma_run_extends(b, t, u, p.end, st2);
        assert(copied(b, t, u, start, st, out, m)) by {
            assert forall|k: int| 0 <= k < piece.len() implies #[trigger] out[ostart + k]
                == piece[k] by {
                assert(out.subrange(0, st2.output.len() as int)[ostart + k] == st2.output[ostart
                    + k]);
            }
            assert forall|k: int| 0 <= k < moved.len() implies #[trigger] m[next2 + k]
                == moved[k] by {
                assert(m.subrange(0, st2.mapped.len() as int)[next2 + k] == st2.mapped[next2
                    + k]);
            }
            if st2.mapped.len() < m.len() {
                assert(m[st2.mapped.len() as int].offset >= st2.output.len());
            }
        }
        lemma_patterns_line(b, t, u, start, st, out, m);
        lemma_patterns_run(b, t, u, p.end, st2);
    }
}

/// Formatting is idempotent: when a document is formatted into a new text,
/// formatting that text again (whose lexing gives the same answer both
/// times, in order and with each closing delimiter on its byte) reports it
/// unchanged. It holds unless the new text is longer than
/// the input limit, or newly starts with a byte-order mark.
pub proof fn lemma_format_idempotent(
    b: Seq<u8>,
    options: FormatOptions,
    tokens: Seq<Token>,
    tokens2: Seq<Token>,
)
    requires
        options.wf(),
        spec_format(b, options, true, tokens, true, tokens2) is Changed,
        spec_format(b, options, true, tokens, true, tokens2)->Changed_0.len() <= INPUT_LIMIT,
        starts_with_bom(spec_format(b, options, true, tokens, true, tokens2)->Changed_0)
            ==> starts_with_bom(b),
        tokens_fit(spec_format(b, options, true, tokens, true, tokens2)->Changed_0, tokens2),
    ensures
        spec_format(
            spec_format(b, options, true, tokens, true, tokens2)->Changed_0,
            options,
            true,
            tokens2,
            true,
            tokens2,
        ) == SpecOutcome::Unchanged,
{
    let out = spec_format(b, options, true, tokens, true, tokens2)->Changed_0;
    assert(spec_indent(b, tokens, options) == Ok::<(Seq<u8>, Seq<Token>), SkipReason>(
        (out, tokens2),
    ));
    lemma_indent_idempotent(b, tokens, options);
    let u = unit_of(options);
    assert(blank_unit(u)) by {
        if options.spec_insert_spaces() {
            assert forall|k: int| 0 <= k < u.len() implies #[trigger] is_blank(u[k]) by {}
        } else {
            assert(is_blank(u[0]));
        }
    }
    lemma_patterns_run(b, tokens, u, 0, initial_state());
    assert(!has_continuation(out)) by {
        if has_continuation(out) {
            let i = choose|i: int| #[trigger] continuation_at(out, i);
        }
    }
    assert(!has_unsupported_literal(out)) by {
        if has_unsupported_literal(out) {
            let i = choose|i: int| #[trigger] unsupported_literal_at(out, i);
        }
    }
}

} // verus!

verus! {

/// `out` is the text from `start` on as re-indenting may write it, with
/// `widths` the indentation written before each line: every line of the
/// source, in order, becomes its byte-order mark, then that many blanks,
/// then the line from its first byte that is not blank through its break.
pub open spec fn reindents(b: Seq<u8>, start: int, out: Seq<u8>, widths: Seq<int>) -> bool
    decreases b.len() - start,
{
    if start < 0 || start >= b.len() {
        out.len() == 0 && widths.len() == 0
    } else {
        proof {
            lemma_line_end_bounds(b, start);
        }
        let end = line_end(b, start);
        let bom = bom_len(b, start, end);
        let cs = skip_blanks(b, start + bom, end);
        &&& widths.len() > 0
        &&& widths[0] >= 0
        &&& bom + widths[0] + (end - cs) <= out.len()
        &&& out.subrange(0, bom) == b.subrange(start, start + bom)
        &&& all_blank(out, bom, bom + widths[0])
        &&& out.subrange(bom + widths[0], bom + widths[0] + (end - cs)) == b.subrange(cs, end)
        &&& reindents(
            b,
            end,
            out.subrange(bom + widths[0] + (end - cs), out.len() as int),
            widths.drop_first(),
        )
    }
}

proof fn lemma_run_reindents(b: Seq<u8>, t: Seq<Token>, u: Seq<u8>, start: int, st: IndentState) -> (widths: Seq<int>)
    requires
        0 <= start,
        0 <= st.next <= t.len(),
        blank_unit(u),
        run_lines(b, t, u, start, st) is Ok,
    ensures
        ({
            let fin = run_lines(b, t, u, start, st)->Ok_0;
            reindents(b, start, fin.output.subrange(st.output.len() as int, fin.output.len() as int), widths)
        }),
    decreases b.len() - start,
{
    let fin = run_lines(b, t, u, start, st)->Ok_0;
    lemma_run_extends(b, t, u, start, st);
    if start >= b.len() {
        assert(fin.output.subrange(st.output.len() as int, fin.output.len() as int) =~= Seq::<u8>::empty());
        Seq::empty()
    } else {
        lemma_step_unfold(b, t, u, start, st);
        let st2 = step_line(b, t, u, start, st)->Ok_0;
        let p = line_parts(b, t, start, st.next);
        let levels = line_levels(p, st.stack.len() as int);
        let np = line_prefix(p, start, levels, u);
        let piece = line_piece(b, p, start, levels, u);
        let rest = lemma_run_reindents(b, t, u, p.end, st2);
        lemma_run_extends(b, t, u, p.end, st2);
        let out = fin.output.subrange(st.output.len() as int, fin.output.len() as int);
        let k = np - p.bom;
        assert(fin == run_lines(b, t, u, p.end, st2)->Ok_0);
        assert(st2.output == st.output + piece);
        assert(out.subrange(0, piece.len() as int) =~= piece) by {
            assert(fin.output.subrange(0, st2.output.len() as int) == st2.output);
            assert forall|j: int| 0 <= j < piece.len() implies out.subrange(0, piece.len() as int)[j]
                == piece[j] by {
                assert(out[j] == fin.output[st.output.len() + j]);
                assert(fin.output[st.output.len() + j] == fin.output.subrange(
                    0,
                    st2.output.len() as int,
                )[st.output.len() + j]);
                assert(st2.output[st.output.len() + j] == piece[j]);
            }
        }
        assert(out.subrange(piece.len() as int, out.len() as int) =~= fin.output.subrange(
            st2.output.len() as int,
            fin.output.len() as int,
        ));
        if p.eligible {
            lemma_repeat_blank(u, levels);
            assert(levels * u.len() >= 0) by (nonlinear_arith);
            assert(k == repeat(u, levels).len());
            assert(piece == b.subrange(start, start + p.bom) + repeat(u, levels) + b.subrange(
                p.content_start,
                p.end,
            ));
            assert(piece.subrange(p.bom + k, piece.len() as int) =~= b.subrange(p.content_start, p.end));
            assert(out.subrange(0, p.bom) =~= piece.subrange(0, p.bom));
            assert(out.subrange(p.bom + k, p.bom + k + (p.end - p.content_start)) =~= piece.subrange(
                p.bom + k,
                piece.len() as int,
            ));
            assert forall|j: int| p.bom <= j < p.bom + k implies #[trigger] is_blank(out[j]) by {
                assert(out[j] == piece[j]);
                assert(piece[j] == repeat(u, levels)[j - p.bom]);
            }
        } else {
            assert(piece == b.subrange(start, p.end));
            assert(out.subrange(0, p.bom) =~= b.subrange(start, start + p.bom)) by {
                assert forall|j: int| 0 <= j < p.bom implies out.subrange(0, p.bom)[j] == b.subrange(
                    start,
                    start + p.bom,
                )[j] by {
                    assert(out[j] == out.subrange(0, piece.len() as int)[j]);
                }
            }
            assert(out.subrange(p.bom + k, p.bom + k + (p.end - p.content_start)) =~= b.subrange(
                p.content_start,
                p.end,
            )) by {
                assert forall|j: int| 0 <= j < p.end - p.content_start implies out.subrange(
                    p.bom + k,
                    p.bom + k + (p.end - p.content_start),
                )[j] == b.subrange(p.content_start, p.end)[j] by {
                    assert(out[p.bom + k + j] == out.subrange(0, piece.len() as int)[p.bom + k + j]);
                    assert(piece[p.bom + k + j] == b[start + p.bom + k + j]);
                }
            }
            assert forall|j: int| p.bom <= j < p.bom + k implies #[trigger] is_blank(out[j]) by {
                assert(out[j] == out.subrange(0, piece.len() as int)[j]);
                assert(piece[j] == b[start + j]);
            }
        }
        let widths = seq![k] + rest;
        assert(widths.drop_first() =~= rest);
        assert(piece.len() == p.bom + k + (p.end - p.content_start));
        assert(out.subrange(p.bom + k + (p.end - p.content_start), out.len() as int) =~= fin.output.subrange(
            st2.output.len() as int,
            fin.output.len() as int,
        ));
        assert(widths[0] == k && k >= 0);
        assert(p.bom + k + (p.end - p.content_start) <= out.len());
        assert(out.subrange(0, p.bom) == b.subrange(start, start + p.bom));
        assert(all_blank(out, p.bom, p.bom + k));
        assert(out.subrange(p.bom + k, p.bom + k + (p.end - p.content_start)) == b.subrange(p.content_start, p.end));
        assert(reindents(b, p.end, out.subrange(p.bom + k + (p.end - p.content_start), out.len() as int), widths.drop_first()));
        assert(reindents(b, start, out, widths));
        widths
    }
}

/// Re-indenting changes nothing but indentation: each line of the source
/// appears in the output in order, with its byte-order mark and everything
/// from its first byte that is not blank through its line break; only the
/// blanks between them may differ.
pub proof fn law_only_indentation_changes(b: Seq<u8>, t: Seq<Token>, options: FormatOptions)
    requires
        options.wf(),
        spec_indent(b, t, options) is Ok,
    ensures
        exists|widths: Seq<int>| reindents(b, 0, spec_indent(b, t, options)->Ok_0.0, widths),
{
    let u = unit_of(options);
    assert(blank_unit(u)) by {
        if options.spec_insert_spaces() {
            assert forall|k: int| 0 <= k < u.len() implies #[trigger] is_blank(u[k]) by {}
        } else {
            assert(is_blank(u[0]));
        }
    }
    let widths = lemma_run_reindents(b, t, u, 0, initial_state());
    let fin = run_lines(b, t, u, 0, initial_state())->Ok_0;
    assert(fin.output.subrange(0, fin.output.len() as int) =~= fin.output);
    assert(spec_indent(b, t, options)->Ok_0.0 == fin.output);
    assert(reindents(b, 0, spec_indent(b, t, options)->Ok_0.0, widths));
}

} // verus!
