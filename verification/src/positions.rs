use vstd::prelude::*;

use crate::ascii::{CR, LF};
use vstd::string::StringSliceAdditionalSpecFns;
use crate::text::lemma_subrange_valid;
use vstd::utf8::{
    decode_first_scalar, decode_utf8, encode_utf8_valid_utf8, is_char_boundary, is_continuation_byte, is_leading_byte_width_1, is_leading_byte_width_2,
    is_leading_byte_width_3, length_of_first_scalar, pop_first_scalar, valid_utf8,
};

verus! {

/// A place in a document: a zero-based line and a column counted in UTF-16
/// code units.
#[derive(Clone, Copy, Debug, PartialEq, Eq, Structural)]
pub struct Position {
    pub line: u32,
    pub character: u32,
}

impl Position {
    pub fn new(line: u32, character: u32) -> (result: Self)
        ensures
            result == (Position { line, character }),
    {
        Position { line, character }
    }
}

/// How many bytes the UTF-8 scalar that starts with `c` takes.
pub open spec fn scalar_width(c: u8) -> int {
    if c < 0x80 {
        1
    } else if c < 0xE0 {
        2
    } else if c < 0xF0 {
        3
    } else {
        4
    }
}

/// How many UTF-16 code units the scalar that starts with `c` takes.
pub open spec fn utf16_width(c: u8) -> int {
    if c >= 0xF0 {
        2
    } else {
        1
    }
}

/// In valid UTF-8, the scalar that starts at a character boundary `i`
/// takes `scalar_width(b[i])` bytes, ends at a boundary, and is valid UTF-8
/// by itself.
pub proof fn lemma_scalar_step(b: Seq<u8>, i: int)
    requires
        valid_utf8(b),
        0 <= i < b.len(),
        is_char_boundary(b, i),
    ensures
        i + scalar_width(b[i]) <= b.len(),
        is_char_boundary(b, i + scalar_width(b[i])),
        valid_utf8(b.subrange(i, i + scalar_width(b[i]))),
    decreases b.len(),
{
    reveal_with_fuel(is_char_boundary, 2);
    let k = length_of_first_scalar(b);
    let rest = pop_first_scalar(b);
    if i == 0 {
        assert(k == scalar_width(b[0])) by {
            if is_leading_byte_width_1(b[0]) {
            } else if is_leading_byte_width_2(b[0]) {
            } else if is_leading_byte_width_3(b[0]) {
            } else {
            }
        }
        assert(is_char_boundary(rest, 0));
    } else {
        assert(is_char_boundary(rest, i - k));
        assert(rest.len() == b.len() - k);
        assert(rest[i - k] == b[i]);
        lemma_scalar_step(rest, i - k);
    }
    lemma_subrange_valid(b, i, i + scalar_width(b[i]));
}

pub open spec fn fits_u32(n: int) -> bool {
    n <= u32::MAX
}

/// Walking the bytes `b` from `i` at (`line`, `column`) up to `offset`:
/// `\r\n`, `\r` and `\n` each end a line (an offset between `\r` and `\n`
/// stays on the `\r`'s line); other scalars add their UTF-16 width to the
/// column. `None` when a count leaves `u32`.
pub open spec fn walk(b: Seq<u8>, offset: int, i: int, line: int, column: int) -> Option<(int, int)>
    decreases b.len() + 4 - i,
{
    if i < 0 || i >= offset || i >= b.len() {
        Some((line, column))
    } else if b[i] == CR && i + 1 < b.len() && b[i + 1] == LF {
        if i + 1 == offset {
            Some((line, column))
        } else if !fits_u32(line + 1) {
            None
        } else {
            walk(b, offset, i + 2, line + 1, 0)
        }
    } else if b[i] == CR || b[i] == LF {
        if !fits_u32(line + 1) {
            None
        } else {
            walk(b, offset, i + 1, line + 1, 0)
        }
    } else if !fits_u32(column + utf16_width(b[i])) {
        None
    } else {
        walk(b, offset, i + scalar_width(b[i]), line, column + utf16_width(b[i]))
    }
}

/// The position of byte `offset` in `b`; `None` when it is not a character
/// boundary of `b` or a count leaves `u32`.
pub open spec fn spec_position(b: Seq<u8>, offset: int) -> Option<Position> {
    if !is_char_boundary(b, offset) {
        None
    } else {
        match walk(b, offset, 0, 0, 0) {
            Some((line, column)) => Some(Position { line: line as u32, character: column as u32 }),
            None => None,
        }
    }
}

fn byte_scalar_width(c: u8) -> (result: usize)
    ensures
        result == scalar_width(c),
{
    if c < 0x80 {
        1
    } else if c < 0xE0 {
        2
    } else if c < 0xF0 {
        3
    } else {
        4
    }
}

fn byte_utf16_width(c: u8) -> (result: u32)
    ensures
        result == utf16_width(c),
{
    if c >= 0xF0 {
        2
    } else {
        1
    }
}

/// The line and UTF-16 column of byte `offset` in `text`; see
/// [`spec_position`].
pub fn position(text: &str, offset: usize) -> (result: Option<Position>)
    ensures
        result == spec_position(text.spec_bytes(), offset as int),
{
    if !text.is_char_boundary(offset) {
        return None;
    }
    proof {
        encode_utf8_valid_utf8(text@);
    }
    let b = text.as_bytes();
    let n = b.len();
    let mut i: usize = 0;
    let mut line: u32 = 0;
    let mut column: u32 = 0;
    while i < offset
        invariant
            b@ == text.spec_bytes(),
            n == b@.len(),
            offset <= n,
            i <= offset,
            walk(b@, offset as int, 0, 0, 0) == walk(b@, offset as int, i as int, line as int, column as int),
        ensures
            walk(b@, offset as int, 0, 0, 0) == Some((line as int, column as int)),
        decreases offset - i,
    {
        let c = b[i];
        let ghost before = i;
        if c == CR && i + 1 < n && b[i + 1] == LF {
            if i + 1 == offset {
                break;
            }
            if line == u32::MAX {
                return None;
            }
            line = line + 1;
            column = 0;
            i = i + 2;
        } else if c == CR || c == LF {
            if line == u32::MAX {
                return None;
            }
            line = line + 1;
            column = 0;
            i = i + 1;
        } else {
            let u = byte_utf16_width(c);
            if column > u32::MAX - u {
                return None;
            }
            column = column + u;
            let w = byte_scalar_width(c);
            i = if w <= offset - i {
                i + w
            } else {
                offset
            };
            assert(walk(b@, offset as int, before + w, line as int, column as int) == walk(
                b@,
                offset as int,
                i as int,
                line as int,
                column as int,
            ));
        }
    }
    Some(Position { line, character: column })
}

/// The byte ranges of the lines of `b` from `i` on, the current line
/// starting at `start`; a line ends before `\r\n`, `\r` or `\n`.
pub open spec fn lines_from(b: Seq<u8>, i: int, start: int) -> Seq<(int, int)>
    decreases b.len() - i,
{
    if i < 0 || i >= b.len() {
        seq![(start, b.len() as int)]
    } else if b[i] == CR && i + 1 < b.len() && b[i + 1] == LF {
        seq![(start, i)] + lines_from(b, i + 2, i + 2)
    } else if b[i] == CR || b[i] == LF {
        seq![(start, i)] + lines_from(b, i + 1, i + 1)
    } else {
        lines_from(b, i + 1, start)
    }
}

/// The lines of `b`.
pub open spec fn spec_lines(b: Seq<u8>) -> Seq<(int, int)> {
    lines_from(b, 0, 0)
}

/// The first line from `k` on that starts after `offset`, or the count.
pub open spec fn first_line_after(lines: Seq<(int, int)>, offset: int, k: int) -> int
    decreases lines.len() - k,
{
    if k < 0 || k >= lines.len() {
        lines.len() as int
    } else if lines[k].0 > offset {
        k
    } else {
        first_line_after(lines, offset, k + 1)
    }
}

/// UTF-16 code units of the scalars of `b[i..hi]`, added to `count`;
/// `None` once the total leaves `u32`.
pub open spec fn utf16_upto(b: Seq<u8>, i: int, hi: int, count: int) -> Option<int>
    decreases b.len() + 4 - i,
{
    if i < 0 || i >= hi || i >= b.len() {
        Some(count)
    } else if !fits_u32(count + utf16_width(b[i])) {
        None
    } else {
        utf16_upto(b, i + scalar_width(b[i]), hi, count + utf16_width(b[i]))
    }
}

/// A count that starts within `u32` stays within it.
pub proof fn lemma_utf16_upto_bound(b: Seq<u8>, i: int, hi: int, count: int)
    requires
        0 <= count <= u32::MAX,
    ensures
        utf16_upto(b, i, hi, count) matches Some(c) ==> count <= c <= u32::MAX,
    decreases b.len() + 4 - i,
{
    if !(i < 0 || i >= hi || i >= b.len()) && fits_u32(count + utf16_width(b[i])) {
        lemma_utf16_upto_bound(b, i + scalar_width(b[i]), hi, count + utf16_width(b[i]));
    }
}

/// Where UTF-16 column `target` falls in the line `b[i..end]` that has
/// `column` units before `i`: past the end it is the end; inside a
/// surrogate pair, or past `u32`, there is none.
pub open spec fn column_offset(b: Seq<u8>, i: int, end: int, column: int, target: int) -> Option<
    int,
>
    decreases b.len() + 4 - i,
{
    if i < 0 || i >= end || i >= b.len() {
        Some(end)
    } else if column == target {
        Some(i)
    } else if !fits_u32(column + utf16_width(b[i])) || column + utf16_width(b[i]) > target {
        None
    } else {
        column_offset(b, i + scalar_width(b[i]), end, column + utf16_width(b[i]), target)
    }
}

/// The lines of a text, for turning byte offsets into positions and back.
#[derive(Debug)]
pub struct LineIndex<'text> {
    text: &'text str,
    lines: Vec<(usize, usize)>,
}

impl<'text> LineIndex<'text> {
    /// The text's bytes.
    pub closed spec fn bytes(&self) -> Seq<u8> {
        self.text.spec_bytes()
    }

    /// The byte ranges of its lines.
    pub closed spec fn ranges(&self) -> Seq<(int, int)> {
        self.lines@.map_values(|r: (usize, usize)| (r.0 as int, r.1 as int))
    }

    /// The index was built from its text: the ranges are the lines of its
    /// bytes, which are UTF-8.
    pub closed spec fn wf(&self) -> bool {
        self.ranges() == spec_lines(self.bytes()) && valid_utf8(self.bytes())
    }

    /// Splits `text` into lines.
    pub fn new(text: &'text str) -> (result: Self)
        ensures
            result.bytes() == text.spec_bytes(),
            result.ranges() == spec_lines(text.spec_bytes()),
            result.wf(),
    {
        proof {
            encode_utf8_valid_utf8(text@);
        }
        let b = text.as_bytes();
        let n = b.len();
        let mut lines: Vec<(usize, usize)> = Vec::new();
        let mut start: usize = 0;
        let mut i: usize = 0;
        while i < n
            invariant
                b@ == text.spec_bytes(),
                n == b@.len(),
                start <= i <= n,
                lines@.map_values(|r: (usize, usize)| (r.0 as int, r.1 as int)) + lines_from(
                    b@,
                    i as int,
                    start as int,
                ) == spec_lines(b@),
            decreases n - i,
        {
            let ghost old_lines = lines@;
            let c = b[i];
            if c == CR || c == LF {
                lines.push((start, i));
                proof {
                    assert(lines@.map_values(|r: (usize, usize)| (r.0 as int, r.1 as int))
                        =~= old_lines.map_values(|r: (usize, usize)| (r.0 as int, r.1 as int)).push(
                        (start as int, i as int),
                    ));
                }
                if c == CR && i + 1 < n && b[i + 1] == LF {
                    i = i + 2;
                } else {
                    i = i + 1;
                }
                start = i;
            } else {
                i = i + 1;
            }
        }
        lines.push((start, n));
        proof {
            assert(lines@.map_values(|r: (usize, usize)| (r.0 as int, r.1 as int)) =~= spec_lines(
                b@,
            ));
        }
        LineIndex { text, lines }
    }

    /// The position of byte `offset`: the line whose range starts last at
    /// or before it, and the UTF-16 units from that line's start to the
    /// offset (or to the line's end, for an offset inside a `\r\n`).
    pub open spec fn spec_position_of(&self, offset: int) -> Option<Position> {
        let ranges = self.ranges();
        let line = first_line_after(ranges, offset, 0) - 1;
        if !is_char_boundary(self.bytes(), offset) || line < 0 || line >= ranges.len()
            || !fits_u32(line) {
            None
        } else {
            let (lo, end) = ranges[line];
            let hi = if offset < end {
                offset
            } else {
                end
            };
            match utf16_upto(self.bytes(), lo, hi, 0) {
                Some(column) => Some(Position { line: line as u32, character: column as u32 }),
                None => None,
            }
        }
    }

    /// The position of byte `offset`; see [`LineIndex::spec_position_of`].
    pub fn position(&self, offset: usize) -> (result: Option<Position>)
        ensures
            result == self.spec_position_of(offset as int),
    {
        if !self.text.is_char_boundary(offset) {
            return None;
        }
        let count = self.lines.len();
        let mut k: usize = 0;
        while k < count
            invariant
                count == self.lines@.len(),
                k <= count,
                first_line_after(self.ranges(), offset as int, 0) == first_line_after(
                    self.ranges(),
                    offset as int,
                    k as int,
                ),
            ensures
                first_line_after(self.ranges(), offset as int, 0) == k,
            decreases count - k,
        {
            if self.lines[k].0 > offset {
                break;
            }
            k = k + 1;
        }
        if k == 0 || k - 1 > u32::MAX as usize {
            return None;
        }
        let line = k - 1;
        let (lo, end) = self.lines[line];
        let hi = if offset < end {
            offset
        } else {
            end
        };
        let b = self.text.as_bytes();
        let n = b.len();
        let mut i = lo;
        let mut column: u32 = 0;
        assert(self.ranges()[line as int] == (lo as int, end as int));
        while i < hi && i < n
            invariant
                b@ == self.bytes(),
                n == b@.len(),
                self.spec_position_of(offset as int) == match utf16_upto(
                    b@,
                    i as int,
                    hi as int,
                    column as int,
                ) {
                    Some(c) => Some(Position { line: line as u32, character: c as u32 }),
                    None => None,
                },
            decreases n - i,
        {
            let u = byte_utf16_width(b[i]);
            if column > u32::MAX - u {
                return None;
            }
            column = column + u;
            let w = byte_scalar_width(b[i]);
            let ghost before = i;
            i = if w <= n - i {
                i + w
            } else {
                n
            };
            assert(utf16_upto(b@, before + w, hi as int, column as int) == utf16_upto(
                b@,
                i as int,
                hi as int,
                column as int,
            ));
        }
        Some(Position { line: line as u32, character: column })
    }

    /// The byte offset of `position`; see [`column_offset`]. `None` for a
    /// line past the last one or a column inside a surrogate pair.
    pub open spec fn spec_byte_offset(&self, position: Position) -> Option<int> {
        let ranges = self.ranges();
        if position.line >= ranges.len() {
            None
        } else {
            let (lo, end) = ranges[position.line as int];
            column_offset(self.bytes(), lo, end, 0, position.character as int)
        }
    }

    /// The byte offset of `position`; see [`LineIndex::spec_byte_offset`].
    pub fn byte_offset(&self, position: Position) -> (result: Option<usize>)
        ensures
            match self.spec_byte_offset(position) {
                Some(o) => result == Some(o as usize),
                None => result is None,
            },
            result matches Some(o) ==> self.spec_byte_offset(position) == Some(o as int),
    {
        let line = position.line as usize;
        if line >= self.lines.len() {
            return None;
        }
        let (lo, end) = self.lines[line];
        let b = self.text.as_bytes();
        let n = b.len();
        let target = position.character;
        let mut i = lo;
        let mut column: u32 = 0;
        assert(self.ranges()[line as int] == (lo as int, end as int));
        while i < end && i < n
            invariant
                b@ == self.bytes(),
                n == b@.len(),
                self.spec_byte_offset(position) == column_offset(
                    b@,
                    i as int,
                    end as int,
                    column as int,
                    target as int,
                ),
            decreases n - i,
        {
            if column == target {
                return Some(i);
            }
            let u = byte_utf16_width(b[i]);
            if column > u32::MAX - u || column + u > target {
                return None;
            }
            column = column + u;
            let w = byte_scalar_width(b[i]);
            let ghost before = i;
            i = if w <= n - i {
                i + w
            } else {
                n
            };
            assert(column_offset(b@, before + w, end as int, column as int, target as int)
                == column_offset(b@, i as int, end as int, column as int, target as int));
        }
        Some(end)
    }
}

/// In UTF-8, a byte below `0x80` starts a scalar of its own.
proof fn lemma_ascii_boundary(b: Seq<u8>, j: int)
    requires
        valid_utf8(b),
        0 <= j < b.len(),
        b[j] < 0x80,
    ensures
        is_char_boundary(b, j),
    decreases b.len(),
{
    if j > 0 {
        let k = length_of_first_scalar(b);
        let rest = pop_first_scalar(b);
        if j < k {
            assert(is_continuation_byte(b[j]));
        } else {
            assert(rest[j - k] == b[j]);
            lemma_ascii_boundary(rest, j - k);
        }
    }
}

/// In UTF-8, the scalar that starts at one boundary ends at or before any
/// later boundary.
proof fn lemma_boundary_gap(b: Seq<u8>, i: int, o: int)
    requires
        valid_utf8(b),
        is_char_boundary(b, i),
        is_char_boundary(b, o),
        0 <= i < o,
    ensures
        i + scalar_width(b[i]) <= o,
    decreases b.len(),
{
    reveal_with_fuel(is_char_boundary, 2);
    let k = length_of_first_scalar(b);
    let rest = pop_first_scalar(b);
    assert(k == scalar_width(b[0])) by {
        if is_leading_byte_width_1(b[0]) {
        } else if is_leading_byte_width_2(b[0]) {
        } else if is_leading_byte_width_3(b[0]) {
        } else {
        }
    }
    if i > 0 {
        assert(rest[i - k] == b[i]);
        lemma_boundary_gap(rest, i - k, o - k);
    }
}

/// A line break ends the line that ends at `end`, and the next line
/// starts at `next`, right after it.
pub open spec fn breaks(b: Seq<u8>, end: int, next: int) -> bool {
    ||| next == end + 2 && 0 <= end && end + 1 < b.len() && b[end] == CR && b[end + 1] == LF
    ||| next == end + 1 && 0 <= end < b.len() && (b[end] == CR || b[end] == LF)
}

/// The ranges `lines` start at `start` and end at the end of `b`, each in
/// order, and a line break stands between each and the next.
pub open spec fn lines_shaped(b: Seq<u8>, lines: Seq<(int, int)>, start: int) -> bool {
    &&& lines.len() >= 1
    &&& lines[0].0 == start
    &&& lines.last().1 == b.len()
    &&& forall|k: int| 0 <= k < lines.len() ==> #[trigger] lines[k].0 <= lines[k].1 <= b.len()
    &&& forall|k: int| 0 <= k < lines.len() - 1 ==> #[trigger] breaks(b, lines[k].1, lines[k + 1].0)
}

proof fn lemma_lines_shape(b: Seq<u8>, i: int, start: int)
    requires
        0 <= start <= i <= b.len(),
    ensures
        lines_shaped(b, lines_from(b, i, start), start),
    decreases b.len() - i,
{
    let s = lines_from(b, i, start);
    if i >= b.len() {
    } else if b[i] == CR && i + 1 < b.len() && b[i + 1] == LF {
        let r = lines_from(b, i + 2, i + 2);
        lemma_lines_shape(b, i + 2, i + 2);
        assert(s == seq![(start, i)] + r);
        assert forall|k: int| 0 <= k < s.len() implies #[trigger] s[k].0 <= s[k].1 <= b.len() by {
            if k > 0 {
                assert(s[k] == r[k - 1]);
            }
        }
        assert forall|k: int| 0 <= k < s.len() - 1 implies #[trigger] breaks(b, s[k].1, s[k + 1].0) by {
            if k > 0 {
                assert(s[k] == r[k - 1]);
                assert(s[k + 1] == r[k]);
                assert(breaks(b, r[k - 1].1, r[k - 1 + 1].0));
            }
        }
    } else if b[i] == CR || b[i] == LF {
        let r = lines_from(b, i + 1, i + 1);
        lemma_lines_shape(b, i + 1, i + 1);
        assert(s == seq![(start, i)] + r);
        assert forall|k: int| 0 <= k < s.len() implies #[trigger] s[k].0 <= s[k].1 <= b.len() by {
            if k > 0 {
                assert(s[k] == r[k - 1]);
            }
        }
        assert forall|k: int| 0 <= k < s.len() - 1 implies #[trigger] breaks(b, s[k].1, s[k + 1].0) by {
            if k > 0 {
                assert(s[k] == r[k - 1]);
                assert(s[k + 1] == r[k]);
                assert(breaks(b, r[k - 1].1, r[k - 1 + 1].0));
            }
        }
    } else {
        lemma_lines_shape(b, i + 1, start);
    }
}

proof fn lemma_first_line_after(lines: Seq<(int, int)>, offset: int, k: int)
    requires
        0 <= k <= lines.len(),
    ensures
        k <= first_line_after(lines, offset, k) <= lines.len(),
        forall|j: int| k <= j < first_line_after(lines, offset, k) ==> #[trigger] lines[j].0 <= offset,
        first_line_after(lines, offset, k) < lines.len() ==> lines[first_line_after(lines, offset, k)].0
            > offset,
    decreases lines.len() - k,
{
    if k < lines.len() && lines[k].0 <= offset {
        lemma_first_line_after(lines, offset, k + 1);
    }
}

/// Counting the UTF-16 units from a boundary `i` up to a later boundary
/// `o` on the same line, and then looking that count up from `i`, finds `o`.
proof fn lemma_column_round_trip(b: Seq<u8>, i: int, o: int, end: int, column: int, target: int)
    requires
        valid_utf8(b),
        is_char_boundary(b, i),
        is_char_boundary(b, o),
        0 <= i <= o <= end <= b.len(),
        0 <= column <= u32::MAX,
        utf16_upto(b, i, o, column) == Some(target),
    ensures
        column_offset(b, i, end, column, target) == Some(o),
    decreases o - i,
{
    if i < o {
        let next = i + scalar_width(b[i]);
        let counted = column + utf16_width(b[i]);
        lemma_utf16_upto_bound(b, next, o, counted);
        lemma_boundary_gap(b, i, o);
        lemma_scalar_step(b, i);
        lemma_column_round_trip(b, next, o, end, counted, target);
    }
}

/// The offset falls between the `\r` and `\n` of a line break.
pub open spec fn splits_line_break(b: Seq<u8>, offset: int) -> bool {
    0 < offset < b.len() && b[offset - 1] == CR && b[offset] == LF
}

/// An offset that has a position, and that does not fall between the `\r`
/// and `\n` of a line break, turns back into itself from that position.
pub proof fn law_offset_round_trip(index: LineIndex, offset: int)
    requires
        index.wf(),
        index.spec_position_of(offset) is Some,
        !splits_line_break(index.bytes(), offset),
    ensures
        index.spec_byte_offset(index.spec_position_of(offset).unwrap()) == Some(offset),
{
    let b = index.bytes();
    let ranges = index.ranges();
    lemma_lines_shape(b, 0, 0);
    lemma_first_line_after(ranges, offset, 0);
    let r = first_line_after(ranges, offset, 0);
    let line = r - 1;
    let (lo, end) = ranges[line];
    assert(lo <= offset);
    assert(offset <= end) by {
        if line + 1 < ranges.len() {
            assert(breaks(b, ranges[line].1, ranges[line + 1].0));
        }
    }
    let hi = if offset < end {
        offset
    } else {
        end
    };
    assert(hi == offset);
    let column = utf16_upto(b, lo, hi, 0).unwrap();
    lemma_utf16_upto_bound(b, lo, hi, 0);
    assert(is_char_boundary(b, lo)) by {
        if line > 0 {
            assert(breaks(b, ranges[line - 1].1, ranges[line - 1 + 1].0));
            lemma_ascii_boundary(b, lo - 1);
            lemma_scalar_step(b, lo - 1);
        }
    }
    lemma_column_round_trip(b, lo, offset, end, 0, column);
}

/// In UTF-8, the bytes after the first of a scalar are continuation bytes.
proof fn lemma_continuation(b: Seq<u8>, i: int, t: int)
    requires
        valid_utf8(b),
        0 <= i < b.len(),
        is_char_boundary(b, i),
        0 < t < scalar_width(b[i]),
    ensures
        i + t < b.len(),
        b[i + t] >= 0x80,
    decreases b.len(),
{
    reveal_with_fuel(is_char_boundary, 2);
    let k = length_of_first_scalar(b);
    let rest = pop_first_scalar(b);
    assert(k == scalar_width(b[0])) by {
        if is_leading_byte_width_1(b[0]) {
        } else if is_leading_byte_width_2(b[0]) {
        } else if is_leading_byte_width_3(b[0]) {
        } else {
        }
    }
    if i == 0 {
        assert(is_continuation_byte(b[t]));
    } else {
        assert(rest[i - k] == b[i]);
        lemma_continuation(rest, i - k, t);
        assert(rest[i - k + t] == b[i + t]);
    }
}

/// Bytes that are no line break do not change the lines that follow.
proof fn lemma_lines_skip(b: Seq<u8>, i: int, j: int, start: int)
    requires
        0 <= i <= j <= b.len(),
        forall|t: int| i <= t < j ==> b[t] != CR && b[t] != LF,
    ensures
        lines_from(b, i, start) == lines_from(b, j, start),
    decreases j - i,
{
    if i < j {
        lemma_lines_skip(b, i + 1, j, start);
    }
}

/// The first line from `i` on ends at or after `i`.
proof fn lemma_first_end(b: Seq<u8>, i: int, start: int)
    requires
        0 <= i <= b.len(),
    ensures
        lines_from(b, i, start)[0].1 >= i,
        lines_from(b, i, start)[0].0 == start,
    decreases b.len() - i,
{
    if i < b.len() && !(b[i] == CR || b[i] == LF) {
        lemma_first_end(b, i + 1, start);
    }
}

/// Looking past a first line that starts at or before `offset`.
proof fn lemma_first_line_shift(first: (int, int), rest: Seq<(int, int)>, offset: int, k: int)
    requires
        0 <= k <= rest.len(),
    ensures
        first_line_after(seq![first] + rest, offset, k + 1) == 1 + first_line_after(rest, offset, k),
    decreases rest.len() - k,
{
    let all = seq![first] + rest;
    if k < rest.len() {
        assert(all[k + 1] == rest[k]);
        if rest[k].0 <= offset {
            lemma_first_line_shift(first, rest, offset, k + 1);
        }
    }
}

/// Where a walk from byte `i` (on the line that starts at `start`, with
/// `line` lines and `column` units counted) ends up: on the line of
/// `offset` among the lines from `i` on, at the units up to `offset` or the
/// line's end.
pub open spec fn walk_lands(b: Seq<u8>, offset: int, i: int, start: int, line: int, column: int) -> Option<(int, int)> {
    let rest = lines_from(b, i, start);
    let l = first_line_after(rest, offset, 0) - 1;
    let lo = rest[l].0;
    let end = rest[l].1;
    let hi = if offset < end {
        offset
    } else {
        end
    };
    let units = if l == 0 {
        utf16_upto(b, i, hi, column)
    } else {
        utf16_upto(b, lo, hi, 0)
    };
    match units {
        Some(c) => Some((line + l, c)),
        None => None,
    }
}

proof fn lemma_walk_lines(b: Seq<u8>, offset: int, i: int, start: int, line: int, column: int)
    requires
        valid_utf8(b),
        b.len() <= u32::MAX,
        is_char_boundary(b, i),
        is_char_boundary(b, offset),
        0 <= start <= i <= offset,
        0 <= line,
        0 <= column,
        line + column <= i,
    ensures
        walk(b, offset, i, line, column) == walk_lands(b, offset, i, start, line, column),
        walk_lands(b, offset, i, start, line, column) is Some,
        first_line_after(lines_from(b, i, start), offset, 0) >= 1,
        line + first_line_after(lines_from(b, i, start), offset, 0) - 1 <= offset,
    decreases offset - i,
{
    reveal_with_fuel(is_char_boundary, 2);
    let rest = lines_from(b, i, start);
    assert(offset <= b.len());
    lemma_lines_shape(b, i, start);
    lemma_first_end(b, i, start);
    lemma_first_line_after(rest, offset, 0);
    if i >= offset {
        if rest.len() > 1 {
            assert(breaks(b, rest[0int].1, rest[0int + 1].0));
        }
    } else if b[i] == CR && i + 1 < b.len() && b[i + 1] == LF {
        let tail = lines_from(b, i + 2, i + 2);
        assert(rest == seq![(start, i)] + tail);
        lemma_lines_shape(b, i + 2, i + 2);
        if i + 1 == offset {
            assert(rest[1] == tail[0]);
        } else {
            lemma_ascii_boundary(b, i + 1);
            lemma_scalar_step(b, i + 1);
            lemma_boundary_gap(b, i, offset);
            lemma_walk_lines(b, offset, i + 2, i + 2, line + 1, 0);
            lemma_first_line_shift((start, i), tail, offset, 0);
            lemma_first_line_after(tail, offset, 0);
            let l = first_line_after(tail, offset, 0) - 1;
            assert(rest[l + 1] == tail[l]);
        }
    } else if b[i] == CR || b[i] == LF {
        let tail = lines_from(b, i + 1, i + 1);
        assert(rest == seq![(start, i)] + tail);
        lemma_lines_shape(b, i + 1, i + 1);
        lemma_scalar_step(b, i);
        lemma_walk_lines(b, offset, i + 1, i + 1, line + 1, 0);
        lemma_first_line_shift((start, i), tail, offset, 0);
        lemma_first_line_after(tail, offset, 0);
        let l = first_line_after(tail, offset, 0) - 1;
        assert(rest[l + 1] == tail[l]);
    } else {
        let w = scalar_width(b[i]);
        lemma_scalar_step(b, i);
        lemma_boundary_gap(b, i, offset);
        assert forall|t: int| i <= t < i + w implies b[t] != CR && b[t] != LF by {
            if t > i {
                lemma_continuation(b, i, t - i);
            }
        }
        lemma_lines_skip(b, i, i + w, start);
        lemma_first_end(b, i + w, start);
        lemma_walk_lines(b, offset, i + w, start, line, column + utf16_width(b[i]));
    }
}

/// For a text of at most `u32::MAX` bytes, the index and the walk over the
/// text agree on the position of every offset.
pub proof fn law_index_agrees_with_walk(index: LineIndex, offset: int)
    requires
        index.wf(),
        index.bytes().len() <= u32::MAX,
    ensures
        index.spec_position_of(offset) == spec_position(index.bytes(), offset),
{
    let b = index.bytes();
    if is_char_boundary(b, offset) {
        assert(0 <= offset <= b.len()) by {
            reveal_with_fuel(is_char_boundary, 2);
        }
        assert(is_char_boundary(b, 0));
        lemma_walk_lines(b, offset, 0, 0, 0, 0);
        lemma_first_end(b, 0, 0);
        lemma_lines_shape(b, 0, 0);
        lemma_first_line_after(index.ranges(), offset, 0);
    }
}

/// The UTF-16 code units of a character: two for a character beyond the
/// Basic Multilingual Plane, one for any other.
pub open spec fn char_units(c: char) -> int {
    if (c as u32) >= 0x10000 {
        2
    } else {
        1
    }
}

/// The UTF-16 code units of a sequence of characters.
pub open spec fn units(cs: Seq<char>) -> int
    decreases cs.len(),
{
    if cs.len() == 0 {
        0
    } else {
        char_units(cs[0]) + units(cs.drop_first())
    }
}

proof fn lemma_units_nonneg(cs: Seq<char>)
    ensures
        units(cs) >= 0,
    decreases cs.len(),
{
    if cs.len() > 0 {
        lemma_units_nonneg(cs.drop_first());
    }
}

/// The first scalar of UTF-8 bytes: its width in bytes is what its first
/// byte says, and it takes as many UTF-16 units as its first byte says.
proof fn lemma_first_scalar_units(s: Seq<u8>)
    requires
        valid_utf8(s),
        s.len() > 0,
    ensures
        length_of_first_scalar(s) == scalar_width(s[0]),
        scalar_width(s[0]) <= s.len(),
        utf16_width(s[0]) == char_units(decode_first_scalar(s) as char),
{
    let b0 = s[0];
    if is_leading_byte_width_1(b0) {
        let v = (b0 & 0x7F) as u32;
        assert(v < 0x80) by (bit_vector)
            requires
                v == (b0 & 0x7F) as u32,
        ;
    } else if is_leading_byte_width_2(b0) {
        let b1 = s[1];
        let v = (((b0 & 0x1F) as u32) << 6) | ((b1 & 0x3F) as u32);
        assert(v <= 0x7FF) by (bit_vector)
            requires
                v == (((b0 & 0x1F) as u32) << 6) | ((b1 & 0x3F) as u32),
        ;
    } else if is_leading_byte_width_3(b0) {
        let b1 = s[1];
        let b2 = s[2];
        let v = (((b0 & 0x0F) as u32) << 12) | (((b1 & 0x3F) as u32) << 6) | ((b2 & 0x3F) as u32);
        assert(v <= 0xFFFF) by (bit_vector)
            requires
                v == (((b0 & 0x0F) as u32) << 12) | (((b1 & 0x3F) as u32) << 6) | ((b2 & 0x3F) as u32),
        ;
    } else {
    }
}

/// Counting UTF-16 units over whole scalars of valid UTF-8 adds up the
/// units of the characters the bytes decode to.
proof fn lemma_utf16_upto_units(b: Seq<u8>, i: int, hi: int, count: int)
    requires
        0 <= i <= hi <= b.len(),
        valid_utf8(b.subrange(i, hi)),
        0 <= count,
        count + units(decode_utf8(b.subrange(i, hi))) <= u32::MAX,
    ensures
        utf16_upto(b, i, hi, count) == Some(count + units(decode_utf8(b.subrange(i, hi)))),
    decreases hi - i,
{
    let s = b.subrange(i, hi);
    if i < hi {
        lemma_first_scalar_units(s);
        let k = scalar_width(b[i]);
        let rest = pop_first_scalar(s);
        assert(rest =~= b.subrange(i + k, hi));
        let first = decode_first_scalar(s) as char;
        assert(decode_utf8(s) == seq![first] + decode_utf8(rest));
        assert((seq![first] + decode_utf8(rest)).drop_first() =~= decode_utf8(rest));
        lemma_units_nonneg(decode_utf8(rest));
        lemma_utf16_upto_units(b, i + k, hi, count + utf16_width(b[i]));
    }
}

/// The walk along a stretch without line breaks adds up the UTF-16 units
/// of the characters it passes.
proof fn lemma_walk_units(b: Seq<u8>, offset: int, i: int, line: int, column: int)
    requires
        0 <= i <= offset <= b.len(),
        valid_utf8(b.subrange(i, offset)),
        forall|k: int| i <= k < offset ==> b[k] != CR && b[k] != LF,
        0 <= column,
        column + units(decode_utf8(b.subrange(i, offset))) <= u32::MAX,
    ensures
        walk(b, offset, i, line, column) == Some((line, column + units(decode_utf8(b.subrange(i, offset))))),
    decreases offset - i,
{
    let s = b.subrange(i, offset);
    if i < offset {
        lemma_first_scalar_units(s);
        let k = scalar_width(b[i]);
        let rest = pop_first_scalar(s);
        assert(rest =~= b.subrange(i + k, offset));
        let first = decode_first_scalar(s) as char;
        assert(decode_utf8(s) == seq![first] + decode_utf8(rest));
        assert((seq![first] + decode_utf8(rest)).drop_first() =~= decode_utf8(rest));
        lemma_units_nonneg(decode_utf8(rest));
        lemma_walk_units(b, offset, i + k, line, column + utf16_width(b[i]));
    }
}

/// A column counts UTF-16 code units: between two character boundaries,
/// the count is one for each character of the Basic Multilingual Plane and
/// two for each character beyond it; so on a first line without breaks,
/// the position of an offset has that many units as its column.
pub proof fn law_columns_count_utf16_units(b: Seq<u8>, lo: int, hi: int)
    requires
        valid_utf8(b),
        0 <= lo <= hi,
        is_char_boundary(b, lo),
        is_char_boundary(b, hi),
        units(decode_utf8(b.subrange(lo, hi))) <= u32::MAX,
    ensures
        utf16_upto(b, lo, hi, 0) == Some(units(decode_utf8(b.subrange(lo, hi)))),
        lo == 0 && (forall|k: int| 0 <= k < hi ==> b[k] != CR && b[k] != LF) ==> spec_position(b, hi)
            == Some(Position { line: 0, character: units(decode_utf8(b.subrange(0, hi))) as u32 }),
{
    assert(hi <= b.len()) by {
        reveal_with_fuel(is_char_boundary, 2);
    }
    crate::text::lemma_subrange_valid(b, lo, hi);
    lemma_utf16_upto_units(b, lo, hi, 0);
    if lo == 0 && (forall|k: int| 0 <= k < hi ==> b[k] != CR && b[k] != LF) {
        lemma_walk_units(b, hi, 0, 0, 0);
    }
}

} // verus!
