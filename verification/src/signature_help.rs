use vstd::prelude::*;

use crate::hover::{render_docs, DocumentationInfo, ParameterCategory, Span};
use crate::markup::{spec_literal, CardView, Format, Markup};
use crate::positions::{lemma_utf16_upto_bound, scalar_width, utf16_upto, utf16_width};
use crate::text::{string_bytes, string_from_utf8};
use vstd::string::StringSliceAdditionalSpecFns;
use vstd::utf8::{encode_utf8_valid_utf8, is_char_boundary};

verus! {

/// How signature help is rendered for a client: the format of its
/// documentation, and whether parameter labels are given as UTF-16 offsets.
#[derive(Clone, Copy, Debug, PartialEq, Eq, Structural)]
pub struct Options {
    pub format: Format,
    pub label_offsets: bool,
}

impl Default for Options {
    fn default() -> (result: Self)
        ensures
            result == (Options { format: Format::Plaintext, label_offsets: false }),
    {
        Options { format: Format::Plaintext, label_offsets: false }
    }
}

impl Options {
    /// The first documentation format the client lists (plain text when it
    /// lists none), and offsets only when the client says it supports them.
    pub fn negotiate(preferred: &[Format], label_offset_support: Option<bool>) -> (result: Self)
        ensures
            result.format == if preferred@.len() > 0 {
                preferred@[0]
            } else {
                Format::Plaintext
            },
            result.label_offsets == (label_offset_support == Some(true)),
    {
        Options {
            format: if preferred.len() > 0 {
                preferred[0]
            } else {
                Format::Plaintext
            },
            label_offsets: match label_offset_support {
                Some(b) => b,
                None => false,
            },
        }
    }
}

/// A parameter of a signature: its label as a byte range of the
/// signature's label, its name and category, and its documentation.
#[derive(Clone, Debug, PartialEq, Eq)]
pub struct SignatureParameterInfo {
    pub label: Span,
    pub name: String,
    pub category: ParameterCategory,
    pub docs: Option<DocumentationInfo>,
}

/// A candidate signature.
#[derive(Clone, Debug, PartialEq, Eq)]
pub struct SignatureInfo {
    pub label: String,
    pub docs: Option<DocumentationInfo>,
    pub parameters: Vec<SignatureParameterInfo>,
    pub active_parameter: Option<usize>,
}

/// What the analysis knows at a call.
#[derive(Debug, PartialEq, Eq)]
pub struct SignatureHelpInfo {
    pub signatures: Vec<SignatureInfo>,
    pub active_signature: usize,
}

/// A parameter label as a client reads it.
#[derive(Debug, PartialEq, Eq)]
pub enum ParameterLabel {
    Simple(String),
    LabelOffsets([u32; 2]),
}

/// A rendered parameter.
#[derive(Debug, PartialEq, Eq)]
pub struct ParameterInformation {
    pub label: ParameterLabel,
    pub documentation: Option<Markup>,
}

/// A rendered signature.
#[derive(Debug, PartialEq, Eq)]
pub struct SignatureInformation {
    pub label: String,
    pub documentation: Option<Markup>,
    pub parameters: Option<Vec<ParameterInformation>>,
    pub active_parameter: Option<u32>,
}

/// Rendered signature help.
#[derive(Debug, PartialEq, Eq)]
pub struct SignatureHelp {
    pub signatures: Vec<SignatureInformation>,
    pub active_signature: Option<u32>,
    pub active_parameter: Option<u32>,
}

/// A parameter label as plain values.
pub enum LabelView {
    Simple(Seq<u8>),
    Offsets(int, int),
}

/// The bytes of `b` from `lo` to `hi`, when both are character boundaries
/// in order.
pub open spec fn byte_range(b: Seq<u8>, lo: int, hi: int) -> Option<Seq<u8>> {
    if lo <= hi && hi <= b.len() && is_char_boundary(b, lo) && is_char_boundary(b, hi) {
        Some(b.subrange(lo, hi))
    } else {
        None
    }
}

/// The label of a parameter spanning `span` of the signature label `b`:
/// its text, or its UTF-16 offsets; `None` when the span is not a range of
/// `b` or an offset leaves `u32`.
pub open spec fn spec_label(b: Seq<u8>, span: Span, offsets: bool) -> Option<LabelView> {
    match byte_range(b, span.start as int, span.end as int) {
        None => None,
        Some(text) => if !offsets {
            Some(LabelView::Simple(text))
        } else {
            match utf16_upto(b, 0, span.start as int, 0) {
                None => None,
                Some(start) => match utf16_upto(b, span.start as int, span.end as int, start) {
                    None => None,
                    Some(end) => Some(LabelView::Offsets(start, end)),
                },
            }
        },
    }
}

/// Every parameter of `signature` from `k` on has a label.
pub open spec fn labels_from(signature: SignatureInfo, k: int, offsets: bool) -> bool
    decreases signature.parameters@.len() - k,
{
    if k < 0 || k >= signature.parameters@.len() {
        true
    } else {
        spec_label(string_bytes(signature.label), signature.parameters@[k].label, offsets) is Some
            && labels_from(signature, k + 1, offsets)
    }
}

/// A signature renders: it has no parameters or an active one that exists
/// (and, among several candidates, fits `u32`), and every parameter label
/// is a range of its label.
pub open spec fn renders(signature: SignatureInfo, offsets: bool, multiple: bool) -> bool {
    &&& signature.active_parameter matches Some(i) ==> i < signature.parameters@.len()
    &&& multiple ==> (signature.active_parameter matches Some(i) ==> i <= u32::MAX)
    &&& signature.active_parameter is None ==> signature.parameters@.len() == 0
    &&& labels_from(signature, 0, offsets)
}

/// Signature help renders: the active signature exists, its active
/// parameter fits `u32`, the active signature index fits `u32`, and every
/// candidate renders.
pub open spec fn help_renders(info: SignatureHelpInfo, options: Options) -> bool {
    &&& info.active_signature < info.signatures@.len()
    &&& info.active_signature <= u32::MAX
    &&& forall|k: int|
        0 <= k < info.signatures@.len() ==> renders(
            #[trigger] info.signatures@[k],
            options.label_offsets,
            info.signatures@.len() > 1,
        )
    &&& info.signatures@[info.active_signature as int].active_parameter matches Some(i) ==> i
        <= u32::MAX
}

/// The rendered documentation of `docs`, as plain values.
pub open spec fn docs_view(docs: Option<DocumentationInfo>, format: Format) -> Option<Seq<u8>> {
    match docs {
        Some(d) => Some(
            spec_literal(
                CardView { value: Seq::empty(), format, full: false },
                string_bytes(d.text),
                d.truncated,
            ).value,
        ),
        None => None,
    }
}

/// A rendered documentation as plain values.
pub open spec fn markup_view(markup: Option<Markup>) -> Option<Seq<u8>> {
    match markup {
        Some(m) => Some(string_bytes(m.value)),
        None => None,
    }
}

/// A rendered label as plain values.
pub open spec fn label_view(label: ParameterLabel) -> LabelView {
    match label {
        ParameterLabel::Simple(text) => LabelView::Simple(string_bytes(text)),
        ParameterLabel::LabelOffsets(offsets) => LabelView::Offsets(offsets@[0] as int, offsets@[1] as int),
    }
}

/// `rendered` is the rendering of `signature`: same label, its docs, each
/// parameter with its label and docs, and its active parameter only when
/// there are several candidates.
pub open spec fn renders_as(
    rendered: SignatureInformation,
    signature: SignatureInfo,
    options: Options,
    multiple: bool,
) -> bool {
    &&& rendered.label == signature.label
    &&& markup_view(rendered.documentation) == docs_view(signature.docs, options.format)
    &&& rendered.parameters matches Some(parameters) && parameters@.len()
        == signature.parameters@.len() && forall|k: int|
        0 <= k < parameters@.len() ==> {
            &&& Some(label_view(#[trigger] parameters@[k].label)) == spec_label(
                string_bytes(signature.label),
                signature.parameters@[k].label,
                options.label_offsets,
            )
            &&& markup_view(parameters@[k].documentation) == docs_view(
                signature.parameters@[k].docs,
                options.format,
            )
        }
    &&& rendered.active_parameter == if multiple {
        match signature.active_parameter {
            Some(i) => Some(i as u32),
            None => None,
        }
    } else {
        None
    }
}

/// The number of UTF-16 code units of `b[lo..hi]` after `count`, if the
/// total fits `u32`.
fn utf16_count(b: &[u8], lo: usize, hi: usize, count: u32) -> (result: Option<u32>)
    requires
        lo <= hi <= b@.len(),
    ensures
        match utf16_upto(b@, lo as int, hi as int, count as int) {
            Some(c) => result == Some(c as u32) && count <= c <= u32::MAX,
            None => result is None,
        },
{
    proof {
        lemma_utf16_upto_bound(b@, lo as int, hi as int, count as int);
    }
    let n = b.len();
    let mut i = lo;
    let mut column = count;
    while i < hi && i < n
        invariant
            n == b@.len(),
            hi <= n,
            utf16_upto(b@, lo as int, hi as int, count as int) == utf16_upto(
                b@,
                i as int,
                hi as int,
                column as int,
            ),
        decreases n - i,
    {
        let c = b[i];
        let u: u32 = if c >= 0xF0 {
            2
        } else {
            1
        };
        if column > u32::MAX - u {
            return None;
        }
        column = column + u;
        let w: usize = if c < 0x80 {
            1
        } else if c < 0xE0 {
            2
        } else if c < 0xF0 {
            3
        } else {
            4
        };
        let ghost before = i;
        i = if w <= n - i {
            i + w
        } else {
            n
        };
        assert(utf16_upto(b@, before + w, hi as int, column as int) == utf16_upto(
            b@,
            i as int,
            hi as int,
            column as int,
        ));
    }
    Some(column)
}

fn copy_range(b: &[u8], lo: usize, hi: usize) -> (result: Vec<u8>)
    requires
        lo <= hi <= b@.len(),
    ensures
        result@ == b@.subrange(lo as int, hi as int),
{
    let mut out: Vec<u8> = Vec::new();
    let mut i = lo;
    while i < hi
        invariant
            lo <= i <= hi <= b@.len(),
            out@ == b@.subrange(lo as int, i as int),
        decreases hi - i,
    {
        out.push(b[i]);
        i = i + 1;
        assert(out@ =~= b@.subrange(lo as int, i as int));
    }
    out
}

fn render_label(label: &str, span: Span, offsets: bool) -> (result: Option<ParameterLabel>)
    ensures
        match spec_label(label.spec_bytes(), span, offsets) {
            Some(view) => result matches Some(l) && label_view(l) == view,
            None => result is None,
        },
{
    let b = label.as_bytes();
    if !(span.start <= span.end && span.end <= b.len() && label.is_char_boundary(span.start)
        && label.is_char_boundary(span.end)) {
        return None;
    }
    if !offsets {
        proof {
            encode_utf8_valid_utf8(label@);
            crate::text::lemma_subrange_valid(b@, span.start as int, span.end as int);
            vstd::utf8::decode_utf8_encode_utf8(b@.subrange(span.start as int, span.end as int));
        }
        let text = string_from_utf8(copy_range(b, span.start, span.end));
        return Some(ParameterLabel::Simple(text));
    }
    let start = match utf16_count(b, 0, span.start, 0) {
        Some(start) => start,
        None => return None,
    };
    let end = match utf16_count(b, span.start, span.end, start) {
        Some(end) => end,
        None => return None,
    };
    let offsets: [u32; 2] = [start, end];
    assert(offsets@ =~= seq![start, end]);
    Some(ParameterLabel::LabelOffsets(offsets))
}

fn render_markup(docs: &Option<DocumentationInfo>, format: Format) -> (result: Option<Markup>)
    ensures
        markup_view(result) == docs_view(*docs, format),
{
    match docs {
        Some(d) => Some(render_docs(d, format)),
        None => None,
    }
}

fn render_signature(signature: &SignatureInfo, options: Options, multiple: bool) -> (result: Option<
    SignatureInformation,
>)
    ensures
        renders(*signature, options.label_offsets, multiple) ==> (result matches Some(r) && renders_as(
            r,
            *signature,
            options,
            multiple,
        )),
        !renders(*signature, options.label_offsets, multiple) ==> result is None,
{
    match signature.active_parameter {
        Some(index) => if index >= signature.parameters.len() || (multiple && index
            > 4294967295usize) {
            return None;
        },
        None => if signature.parameters.len() > 0 {
            return None;
        },
    }
    let n = signature.parameters.len();
    let mut parameters: Vec<ParameterInformation> = Vec::new();
    let mut k: usize = 0;
    while k < n
        invariant
            n == signature.parameters@.len(),
            k <= n,
            parameters@.len() == k,
            labels_from(*signature, 0, options.label_offsets) == labels_from(
                *signature,
                k as int,
                options.label_offsets,
            ),
            forall|j: int|
                0 <= j < k ==> {
                    &&& Some(label_view(#[trigger] parameters@[j].label)) == spec_label(
                        string_bytes(signature.label),
                        signature.parameters@[j].label,
                        options.label_offsets,
                    )
                    &&& markup_view(parameters@[j].documentation) == docs_view(
                        signature.parameters@[j].docs,
                        options.format,
                    )
                },
        decreases n - k,
    {
        let parameter = &signature.parameters[k];
        let label = match render_label(signature.label.as_str(), parameter.label, options.label_offsets) {
            Some(label) => label,
            None => return None,
        };
        let documentation = render_markup(&parameter.docs, options.format);
        parameters.push(ParameterInformation { label, documentation });
        k = k + 1;
    }
    let active_parameter = if multiple {
        match signature.active_parameter {
            Some(index) => Some(index as u32),
            None => None,
        }
    } else {
        None
    };
    Some(
        SignatureInformation {
            label: signature.label.clone(),
            documentation: render_markup(&signature.docs, options.format),
            parameters: Some(parameters),
            active_parameter,
        },
    )
}

/// Renders signature help: `None` unless [`help_renders`]; otherwise every
/// candidate rendered in order, the active signature, and the active
/// parameter of the active signature.
pub fn render(info: SignatureHelpInfo, options: Options) -> (result: Option<SignatureHelp>)
    ensures
        help_renders(info, options) ==> (result matches Some(help) && {
            &&& help.signatures@.len() == info.signatures@.len()
            &&& forall|k: int|
                0 <= k < help.signatures@.len() ==> renders_as(
                    #[trigger] help.signatures@[k],
                    info.signatures@[k],
                    options,
                    info.signatures@.len() > 1,
                )
            &&& help.active_signature == Some(info.active_signature as u32)
            &&& help.active_parameter == match info.signatures@[info.active_signature as int].active_parameter {
                Some(i) => Some(i as u32),
                None => None,
            }
        }),
        !help_renders(info, options) ==> result is None,
{
    let count = info.signatures.len();
    if info.active_signature >= count {
        return None;
    }
    let active = &info.signatures[info.active_signature];
    let active_parameter = match active.active_parameter {
        Some(index) => {
            if index >= active.parameters.len() || index > 4294967295usize {
                return None;
            }
            Some(index as u32)
        },
        None => {
            if active.parameters.len() > 0 {
                return None;
            }
            None
        },
    };
    let multiple = count > 1;
    let mut signatures: Vec<SignatureInformation> = Vec::new();
    let mut k: usize = 0;
    while k < count
        invariant
            count == info.signatures@.len(),
            multiple == (count > 1),
            k <= count,
            signatures@.len() == k,
            forall|j: int| 0 <= j < k ==> renders(#[trigger] info.signatures@[j], options.label_offsets, multiple),
            forall|j: int|
                0 <= j < k ==> renders_as(
                    #[trigger] signatures@[j],
                    info.signatures@[j],
                    options,
                    multiple,
                ),
        decreases count - k,
    {
        let rendered = match render_signature(&info.signatures[k], options, multiple) {
            Some(rendered) => rendered,
            None => return None,
        };
        signatures.push(rendered);
        k = k + 1;
    }
    if info.active_signature > 4294967295usize {
        return None;
    }
    Some(
        SignatureHelp {
            signatures,
            active_signature: Some(info.active_signature as u32),
            active_parameter,
        },
    )
}

} // verus!
