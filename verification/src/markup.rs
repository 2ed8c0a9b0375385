use vstd::prelude::*;

use crate::positions::{lemma_scalar_step, scalar_width};
use crate::text::{string_bytes, string_from_utf8};
use vstd::string::StringSliceAdditionalSpecFns;
use vstd::utf8::{
    decode_utf8_encode_utf8, encode_utf8_valid_utf8, is_char_boundary,
    is_char_boundary_start_end_of_seq, valid_utf8, valid_utf8_concat,
};

verus! {

/// The most bytes a card holds.
pub const MAX_BYTES: usize = 8192;

/// The markup a client reads.
#[derive(Clone, Copy, Debug, PartialEq, Eq, Structural)]
pub enum Format {
    Markdown,
    Plaintext,
}

impl Default for Format {
    fn default() -> (result: Self)
        ensures
            result == Format::Plaintext,
    {
        Format::Plaintext
    }
}

/// Rendered markup: its kind and its text.
#[derive(Debug, PartialEq, Eq)]
pub struct Markup {
    pub kind: Format,
    pub value: String,
}

/// A card of markup under construction, bounded to [`MAX_BYTES`]; once full
/// it takes no more text.
pub struct Card {
    value: Vec<u8>,
    format: Format,
    full: bool,
}

/// A card as plain values.
pub struct CardView {
    pub value: Seq<u8>,
    pub format: Format,
    pub full: bool,
}

impl View for Card {
    type V = CardView;

    closed spec fn view(&self) -> CardView {
        CardView { value: self.value@, format: self.format, full: self.full }
    }
}

/// The three dots that mark text that was cut.
pub open spec fn ellipsis() -> Seq<u8> {
    seq![46u8, 46u8, 46u8]
}

/// ASCII punctuation.
pub open spec fn ascii_punctuation(c: u8) -> bool {
    (33 <= c <= 47) || (58 <= c <= 64) || (91 <= c <= 96) || (123 <= c <= 126)
}

/// The HTML entity that stands for `c` in Markdown.
pub open spec fn entity(markdown: bool, c: u8) -> Option<Seq<u8>> {
    if !markdown {
        None
    } else if c == 60 {
        Some(seq![38u8, 108u8, 116u8, 59u8])
    } else if c == 62 {
        Some(seq![38u8, 103u8, 116u8, 59u8])
    } else if c == 38 {
        Some(seq![38u8, 97u8, 109u8, 112u8, 59u8])
    } else {
        None
    }
}

/// What the scalar at `t[i]` is written as: its entity, or itself, with a
/// backslash before ASCII punctuation in Markdown.
pub open spec fn written(t: Seq<u8>, i: int, markdown: bool) -> Seq<u8> {
    match entity(markdown, t[i]) {
        Some(e) => e,
        None => if markdown && ascii_punctuation(t[i]) {
            seq![92u8] + t.subrange(i, i + scalar_width(t[i]))
        } else {
            t.subrange(i, i + scalar_width(t[i]))
        },
    }
}

/// Writing the scalars of `t` from `i` after `value`: each is written while
/// the card stays three bytes under its bound; the first that does not fit
/// is replaced by three dots and the card is full.
pub open spec fn literal_from(t: Seq<u8>, i: int, value: Seq<u8>, markdown: bool) -> (Seq<u8>, bool)
    decreases t.len() + 4 - i,
{
    if i < 0 || i >= t.len() {
        (value, false)
    } else if value.len() + written(t, i, markdown).len() > MAX_BYTES - 3 {
        (value + ellipsis(), true)
    } else {
        literal_from(t, i + scalar_width(t[i]), value + written(t, i, markdown), markdown)
    }
}

/// Writing the text `t` on a card; `truncated` text gets three dots after it.
pub open spec fn spec_literal(card: CardView, t: Seq<u8>, truncated: bool) -> CardView {
    if card.full {
        card
    } else {
        let (value, full) = literal_from(t, 0, card.value, card.format == Format::Markdown);
        if full {
            CardView { value, full: true, ..card }
        } else if truncated {
            CardView { value: value + ellipsis(), ..card }
        } else {
            CardView { value, ..card }
        }
    }
}

/// Opening a section with `prefix`: refused on a full card; a prefix that
/// would leave less than three bytes fills the card with three dots.
pub open spec fn spec_section(card: CardView, prefix: Seq<u8>) -> (CardView, bool) {
    if card.full {
        (card, false)
    } else if card.value.len() + prefix.len() + 3 > MAX_BYTES {
        (CardView { value: card.value + ellipsis(), full: true, ..card }, false)
    } else {
        (CardView { value: card.value + prefix, ..card }, true)
    }
}

/// The prefix of a field with the label `label`.
pub open spec fn field_prefix(format: Format, label: Seq<u8>) -> Seq<u8> {
    match format {
        Format::Markdown => "\n\n**".spec_bytes() + label + ":** ".spec_bytes(),
        Format::Plaintext => "\n\n".spec_bytes() + label + ": ".spec_bytes(),
    }
}

/// A field: its section, then its text.
pub open spec fn spec_field(card: CardView, label: Seq<u8>, text: Seq<u8>) -> CardView {
    let (opened, ok) = spec_section(card, field_prefix(card.format, label));
    if ok {
        spec_literal(opened, text, false)
    } else {
        opened
    }
}

/// The prefix of the documentation section.
pub open spec fn documentation_prefix(format: Format) -> Seq<u8> {
    match format {
        Format::Markdown => "\n\n---\n\n**Documentation**\n\n".spec_bytes(),
        Format::Plaintext => "\n\nDocumentation\n\n".spec_bytes(),
    }
}

/// The documentation section.
pub open spec fn spec_documentation(card: CardView, text: Seq<u8>, truncated: bool) -> CardView {
    let (opened, ok) = spec_section(card, documentation_prefix(card.format));
    if ok {
        spec_literal(opened, text, truncated)
    } else {
        opened
    }
}

/// Where a Markdown signature is cut, and the longest run of backticks
/// before the cut: scalars are taken while the fenced block, with fences
/// one backtick longer than any run and at least three, fits half a card.
pub open spec fn signature_cut(t: Seq<u8>, i: int, run: int, longest: int) -> (int, int)
    decreases t.len() + 4 - i,
{
    if i < 0 || i >= t.len() {
        (i, longest)
    } else {
        let run2 = if t[i] == 96 {
            run + 1
        } else {
            0
        };
        let candidate = if longest >= run2 {
            longest
        } else {
            run2
        };
        let fence = if candidate + 1 >= 3 {
            candidate + 1
        } else {
            3
        };
        if i + scalar_width(t[i]) + 2 * fence + 9 > MAX_BYTES / 2 {
            (i, longest)
        } else {
            signature_cut(t, i + scalar_width(t[i]), run2, candidate)
        }
    }
}

/// The language name that opens a code block, and its line break.
pub open spec fn info_string() -> Seq<u8> {
    seq![105u8, 114u8, 105u8, 115u8, 10u8]
}

/// `k` backticks.
pub open spec fn backticks(k: nat) -> Seq<u8> {
    Seq::new(k, |j: int| 96u8)
}

/// Writing a signature: in plain text as a literal; in Markdown as an
/// `iris` code block fenced by backticks, cut with three dots when it does
/// not fit half a card.
pub open spec fn spec_signature(card: CardView, t: Seq<u8>) -> CardView {
    match card.format {
        Format::Plaintext => spec_literal(card, t, false),
        Format::Markdown => {
            let (end, longest) = signature_cut(t, 0, 0, 0);
            let fence = backticks(
                if longest + 1 >= 3 {
                    (longest + 1) as nat
                } else {
                    3
                },
            );
            let cut = if end < t.len() {
                ellipsis()
            } else {
                Seq::empty()
            };
            CardView {
                value: card.value + fence + info_string() + t.subrange(0, end) + cut
                    + seq![10u8] + fence,
                ..card
            }
        },
    }
}

/// A card within its bound: a full card holds at most [`MAX_BYTES`]; one
/// that is not full leaves room for three dots.
pub open spec fn bounded(card: CardView) -> bool {
    &&& card.full ==> card.value.len() <= MAX_BYTES
    &&& !card.full ==> card.value.len() <= MAX_BYTES - 3
}

proof fn lemma_literal_from_bound(t: Seq<u8>, i: int, value: Seq<u8>, markdown: bool)
    requires
        value.len() <= MAX_BYTES - 3,
    ensures
        ({
            let (v, full) = literal_from(t, i, value, markdown);
            &&& full ==> v.len() <= MAX_BYTES
            &&& !full ==> v.len() <= MAX_BYTES - 3
        }),
    decreases t.len() + 4 - i,
{
    if !(i < 0 || i >= t.len()) && value.len() + written(t, i, markdown).len() <= MAX_BYTES - 3 {
        lemma_literal_from_bound(t, i + scalar_width(t[i]), value + written(t, i, markdown), markdown);
    }
}

/// Writing text keeps a card within its bound; text marked as truncated
/// may take the last three bytes.
pub proof fn lemma_literal_bound(card: CardView, t: Seq<u8>, truncated: bool)
    requires
        bounded(card),
    ensures
        spec_literal(card, t, truncated).value.len() <= MAX_BYTES,
        !truncated ==> bounded(spec_literal(card, t, truncated)),
{
    if !card.full {
        lemma_literal_from_bound(t, 0, card.value, card.format == Format::Markdown);
    }
}

/// Opening a section keeps a card within its bound.
pub proof fn lemma_section_bound(card: CardView, prefix: Seq<u8>)
    requires
        bounded(card),
    ensures
        bounded(spec_section(card, prefix).0),
        spec_section(card, prefix).0.format == card.format,
{
}

/// A field keeps a card within its bound.
pub proof fn lemma_field_bound(card: CardView, label: Seq<u8>, text: Seq<u8>)
    requires
        bounded(card),
    ensures
        bounded(spec_field(card, label, text)),
        spec_field(card, label, text).format == card.format,
{
    lemma_section_bound(card, field_prefix(card.format, label));
    let (opened, ok) = spec_section(card, field_prefix(card.format, label));
    if ok {
        lemma_literal_bound(opened, text, false);
    }
}

/// The documentation section keeps a card within [`MAX_BYTES`].
pub proof fn lemma_documentation_bound(card: CardView, text: Seq<u8>, truncated: bool)
    requires
        bounded(card),
    ensures
        spec_documentation(card, text, truncated).value.len() <= MAX_BYTES,
{
    lemma_section_bound(card, documentation_prefix(card.format));
    let (opened, ok) = spec_section(card, documentation_prefix(card.format));
    if ok {
        lemma_literal_bound(opened, text, truncated);
    }
}

/// The width of the fences around a signature whose longest backtick run
/// is `longest`.
pub open spec fn fence_width(longest: int) -> int {
    if longest + 1 >= 3 {
        longest + 1
    } else {
        3
    }
}

proof fn lemma_signature_cut_bound(t: Seq<u8>, i: int, run: int, longest: int)
    requires
        0 <= i,
        0 <= run,
        0 <= longest,
        (i == 0 && longest == 0) || i + 2 * fence_width(longest) + 9 <= MAX_BYTES / 2,
    ensures
        ({
            let (end, l) = signature_cut(t, i, run, longest);
            &&& 0 <= end
            &&& 0 <= l
            &&& (end == 0 && l == 0) || end + 2 * fence_width(l) + 9 <= MAX_BYTES / 2
        }),
    decreases t.len() + 4 - i,
{
    if !(i < 0 || i >= t.len()) {
        let run2 = if t[i] == 96 {
            run + 1
        } else {
            0
        };
        let candidate = if longest >= run2 {
            longest
        } else {
            run2
        };
        if i + scalar_width(t[i]) + 2 * fence_width(candidate) + 9 <= MAX_BYTES / 2 {
            lemma_signature_cut_bound(t, i + scalar_width(t[i]), run2, candidate);
        }
    }
}

/// A signature on an empty card keeps it within its bound.
pub proof fn lemma_signature_bound(format: Format, t: Seq<u8>)
    requires
        valid_utf8(t),
    ensures
        bounded(spec_signature(CardView { value: Seq::empty(), format, full: false }, t)),
        spec_signature(CardView { value: Seq::empty(), format, full: false }, t).format == format,
{
    let empty = CardView { value: Seq::empty(), format, full: false };
    match format {
        Format::Plaintext => {
            lemma_literal_bound(empty, t, false);
        },
        Format::Markdown => {
            lemma_signature_cut_bound(t, 0, 0, 0);
            let (end, longest) = signature_cut(t, 0, 0, 0);
            assert(end <= t.len()) by {
                is_char_boundary_start_end_of_seq(t);
                lemma_signature_cut_end(t, 0, 0, 0);
            }
        },
    }
}

proof fn lemma_signature_cut_end(t: Seq<u8>, i: int, run: int, longest: int)
    requires
        0 <= i <= t.len(),
        valid_utf8(t),
        is_char_boundary(t, i),
    ensures
        signature_cut(t, i, run, longest).0 <= t.len(),
    decreases t.len() + 4 - i,
{
    if i < t.len() {
        let run2 = if t[i] == 96 {
            run + 1
        } else {
            0
        };
        let candidate = if longest >= run2 {
            longest
        } else {
            run2
        };
        if i + scalar_width(t[i]) + 2 * fence_width(candidate) + 9 <= MAX_BYTES / 2 {
            lemma_scalar_step(t, i);
            lemma_signature_cut_end(t, i + scalar_width(t[i]), run2, candidate);
        }
    }
}

proof fn lemma_ascii_bytes_valid(b: Seq<u8>)
    requires
        forall|k: int| 0 <= k < b.len() ==> #[trigger] b[k] < 128,
    ensures
        valid_utf8(b),
{
    crate::text::lemma_ascii_valid(b);
}

impl Card {
    /// Every card holds valid UTF-8.
    pub closed spec fn wf(&self) -> bool {
        valid_utf8(self.value@)
    }

    /// An empty card for `format`.
    pub fn new(format: Format) -> (result: Self)
        ensures
            result.wf(),
            result@ == (CardView { value: Seq::empty(), format, full: false }),
    {
        let result = Card { value: Vec::new(), format, full: false };
        proof {
            lemma_ascii_bytes_valid(Seq::<u8>::empty());
        }
        result
    }

    fn append(&mut self, tail: &[u8])
        requires
            valid_utf8(tail@),
            old(self).wf(),
        ensures
            final(self).wf(),
            final(self)@ == (CardView { value: old(self)@.value + tail@, ..old(self)@ }),
    {
        let mut i: usize = 0;
        while i < tail.len()
            invariant
                i <= tail@.len(),
                self.value@ == old(self).value@ + tail@.subrange(0, i as int),
                self.format == old(self).format,
                self.full == old(self).full,
            decreases tail@.len() - i,
        {
            self.value.push(tail[i]);
            i = i + 1;
            assert(self.value@ =~= old(self).value@ + tail@.subrange(0, i as int));
        }
        assert(tail@.subrange(0, tail@.len() as int) =~= tail@);
        proof {
            valid_utf8_concat(old(self).value@, tail@);
        }
    }

    fn append_str(&mut self, tail: &str)
        requires
            old(self).wf(),
        ensures
            final(self).wf(),
            final(self)@ == (CardView { value: old(self)@.value + tail.spec_bytes(), ..old(self)@ }),
    {
        proof {
            encode_utf8_valid_utf8(tail@);
        }
        self.append(tail.as_bytes());
    }

    fn append_ellipsis(&mut self)
        requires
            old(self).wf(),
        ensures
            final(self).wf(),
            final(self)@ == (CardView { value: old(self)@.value + ellipsis(), ..old(self)@ }),
    {
        let dots: [u8; 3] = [46u8, 46u8, 46u8];
        proof {
            assert(dots@ =~= ellipsis());
            lemma_ascii_bytes_valid(dots@);
        }
        self.append(dots.as_slice());
    }

    /// Writes `text`, escaped for the card's format, while it fits; see
    /// [`spec_literal`].
    pub fn literal(&mut self, text: &str, truncated: bool)
        requires
            old(self).wf(),
        ensures
            final(self).wf(),
            final(self)@ == spec_literal(old(self)@, text.spec_bytes(), truncated),
    {
        if self.full {
            return;
        }
        let t = text.as_bytes();
        let n = t.len();
        let markdown = self.format == Format::Markdown;
        proof {
            encode_utf8_valid_utf8(text@);
        }
        let mut i: usize = 0;
        while i < n
            invariant
                t@ == text.spec_bytes(),
                n == t@.len(),
                i <= n,
                valid_utf8(t@),
                is_char_boundary(t@, i as int),
                self.wf(),
                !self.full,
                !old(self).full,
                self.format == old(self).format,
                markdown == (self.format == Format::Markdown),
                literal_from(t@, 0, old(self).value@, markdown) == literal_from(
                    t@,
                    i as int,
                    self.value@,
                    markdown,
                ),
            decreases n - i,
        {
            let c = t[i];
            proof {
                lemma_scalar_step(t@, i as int);
            }
            let w: usize = if c < 0x80 {
                1
            } else if c < 0xE0 {
                2
            } else if c < 0xF0 {
                3
            } else {
                4
            };
            let replacement: Option<Vec<u8>> = if !markdown {
                None
            } else if c == 60 {
                Some(vec![38u8, 108u8, 116u8, 59u8])
            } else if c == 62 {
                Some(vec![38u8, 103u8, 116u8, 59u8])
            } else if c == 38 {
                Some(vec![38u8, 97u8, 109u8, 112u8, 59u8])
            } else {
                None
            };
            let escape = markdown && replacement.is_none() && ((33 <= c && c <= 47) || (58 <= c && c
                <= 64) || (91 <= c && c <= 96) || (123 <= c && c <= 126));
            let length = match &replacement {
                Some(e) => e.len(),
                None => if escape {
                    w + 1
                } else {
                    w
                },
            };
            proof {
                if replacement is Some {
                    assert(replacement.unwrap()@ =~= entity(markdown, c).unwrap());
                }
                assert(length == written(t@, i as int, markdown).len());
            }
            if length > MAX_BYTES - 3 || self.value.len() > MAX_BYTES - 3 - length {
                self.append_ellipsis();
                self.full = true;
                return;
            }
            let ghost before = self.value@;
            match replacement {
                Some(e) => {
                    proof {
                        assert forall|j: int| 0 <= j < e@.len() implies #[trigger] e@[j] < 128 by {
                        }
                        lemma_ascii_bytes_valid(e@);
                    }
                    self.append(e.as_slice());
                },
                None => {
                    if escape {
                        let slash: [u8; 1] = [92u8];
                        proof {
                            lemma_ascii_bytes_valid(slash@);
                        }
                        self.append(slash.as_slice());
                    }
                    let piece = slice_bytes(t, i, i + w);
                    self.append(piece);
                },
            }
            assert(self.value@ =~= before + written(t@, i as int, markdown));
            i = i + w;
        }
        if truncated {
            self.append_ellipsis();
        }
    }

    /// Opens a section with `prefix`; see [`spec_section`].
    fn section(&mut self, prefix: &[u8]) -> (result: bool)
        requires
            old(self).wf(),
            valid_utf8(prefix@),
        ensures
            final(self).wf(),
            (final(self)@, result) == spec_section(old(self)@, prefix@),
    {
        if self.full {
            return false;
        }
        if prefix.len() > MAX_BYTES || self.value.len() > MAX_BYTES - prefix.len() || MAX_BYTES
            - prefix.len() - self.value.len() < 3 {
            self.append_ellipsis();
            self.full = true;
            return false;
        }
        self.append(prefix);
        true
    }

    /// Writes a labelled field; see [`spec_field`].
    pub fn field(&mut self, label: &str, text: &str)
        requires
            old(self).wf(),
        ensures
            final(self).wf(),
            final(self)@ == spec_field(old(self)@, label.spec_bytes(), text.spec_bytes()),
    {
        let mut prefix = Card { value: Vec::new(), format: self.format, full: false };
        proof {
            lemma_ascii_bytes_valid(Seq::<u8>::empty());
        }
        match self.format {
            Format::Markdown => {
                prefix.append_str("\n\n**");
                prefix.append_str(label);
                prefix.append_str(":** ");
            },
            Format::Plaintext => {
                prefix.append_str("\n\n");
                prefix.append_str(label);
                prefix.append_str(": ");
            },
        }
        assert(prefix.value@ =~= field_prefix(self.format, label.spec_bytes()));
        if self.section(prefix.value.as_slice()) {
            self.literal(text, false);
        }
    }

    /// Writes the documentation section; see [`spec_documentation`].
    pub fn documentation(&mut self, text: &str, truncated: bool)
        requires
            old(self).wf(),
        ensures
            final(self).wf(),
            final(self)@ == spec_documentation(old(self)@, text.spec_bytes(), truncated),
    {
        let prefix = match self.format {
            Format::Markdown => "\n\n---\n\n**Documentation**\n\n",
            Format::Plaintext => "\n\nDocumentation\n\n",
        };
        proof {
            encode_utf8_valid_utf8(prefix@);
        }
        if self.section(prefix.as_bytes()) {
            self.literal(text, truncated);
        }
    }

    /// Writes a signature; see [`spec_signature`].
    pub fn signature(&mut self, signature: &str)
        requires
            old(self).wf(),
        ensures
            final(self).wf(),
            final(self)@ == spec_signature(old(self)@, signature.spec_bytes()),
    {
        match self.format {
            Format::Plaintext => {
                self.literal(signature, false);
            },
            Format::Markdown => self.fenced_signature(signature),
        }
    }

    fn fenced_signature(&mut self, signature: &str)
        requires
            old(self).wf(),
            old(self)@.format == Format::Markdown,
        ensures
            final(self).wf(),
            final(self)@ == spec_signature(old(self)@, signature.spec_bytes()),
    {
        let t = signature.as_bytes();
        let n = t.len();
        proof {
            encode_utf8_valid_utf8(signature@);
        }
        let mut end: usize = 0;
        let mut run: usize = 0;
        let mut longest: usize = 0;
        while end < n
            invariant
                t@ == signature.spec_bytes(),
                n == t@.len(),
                end <= n,
                end <= MAX_BYTES / 2,
                valid_utf8(t@),
                is_char_boundary(t@, end as int),
                run <= end,
                longest <= end,
                signature_cut(t@, 0, 0, 0) == signature_cut(
                    t@,
                    end as int,
                    run as int,
                    longest as int,
                ),
            ensures
                end <= n,
                is_char_boundary(t@, end as int),
                signature_cut(t@, 0, 0, 0) == (end as int, longest as int),
            decreases n - end,
        {
            let c = t[end];
            proof {
                lemma_scalar_step(t@, end as int);
            }
            let run2 = if c == 96 {
                run + 1
            } else {
                0
            };
            let candidate = if longest >= run2 {
                longest
            } else {
                run2
            };
            let fence = if candidate + 1 >= 3 {
                candidate + 1
            } else {
                3
            };
            let w: usize = if c < 0x80 {
                1
            } else if c < 0xE0 {
                2
            } else if c < 0xF0 {
                3
            } else {
                4
            };
            if end + w + 2 * fence + 9 > MAX_BYTES / 2 {
                break;
            }
            longest = candidate;
            run = run2;
            end = end + w;
        }
        let width = if longest + 1 >= 3 {
            longest + 1
        } else {
            3
        };
        let mut fence: Vec<u8> = Vec::new();
        let mut k: usize = 0;
        while k < width
            invariant
                k <= width,
                fence@ == backticks(k as nat),
            decreases width - k,
        {
            fence.push(96u8);
            k = k + 1;
            assert(fence@ =~= backticks(k as nat));
        }
        proof {
            assert forall|j: int| 0 <= j < fence@.len() implies #[trigger] fence@[j] < 128 by {
            }
            lemma_ascii_bytes_valid(fence@);
        }
        self.append(fence.as_slice());
        let info: [u8; 5] = [105u8, 114u8, 105u8, 115u8, 10u8];
        proof {
            assert(info@ =~= info_string());
            lemma_ascii_bytes_valid(info@);
        }
        self.append(info.as_slice());
        proof {
            crate::text::lemma_subrange_valid(t@, 0, end as int);
            is_char_boundary_start_end_of_seq(t@);
        }
        self.append(slice_bytes(t, 0, end));
        if end < n {
            self.append_ellipsis();
        }
        let newline: [u8; 1] = [10u8];
        proof {
            lemma_ascii_bytes_valid(newline@);
        }
        self.append(newline.as_slice());
        self.append(fence.as_slice());
        proof {
            let cut = if end < n {
                ellipsis()
            } else {
                Seq::<u8>::empty()
            };
            assert(self@.value =~= old(self)@.value + fence@ + info_string() + t@.subrange(
                0,
                end as int,
            ) + cut + seq![10u8] + fence@);
        }
    }

    /// The finished markup.
    pub fn finish(self) -> (result: Markup)
        requires
            self.wf(),
        ensures
            result.kind == self@.format,
            string_bytes(result.value) == self@.value,
    {
        let ghost bytes = self.value@;
        let value = string_from_utf8(self.value);
        proof {
            decode_utf8_encode_utf8(bytes);
        }
        Markup { kind: self.format, value }
    }
}

fn slice_bytes(b: &[u8], lo: usize, hi: usize) -> (result: &[u8])
    requires
        lo <= hi <= b@.len(),
    ensures
        result@ == b@.subrange(lo as int, hi as int),
{
    let (head, _) = b.split_at(hi);
    let (_, mid) = head.split_at(lo);
    mid
}

} // verus!
