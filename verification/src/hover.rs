use vstd::prelude::*;

use crate::markup::{
    bounded, lemma_documentation_bound, lemma_field_bound, lemma_literal_bound,
    lemma_signature_bound, spec_documentation, spec_field, spec_literal, spec_signature, Card,
    CardView, Format, Markup, MAX_BYTES,
};
use vstd::utf8::encode_utf8_valid_utf8;
use crate::text::string_bytes;
use vstd::string::StringSliceAdditionalSpecFns;

verus! {

/// What a hovered name is.
#[derive(Clone, Copy, Debug, PartialEq, Eq, Structural)]
pub enum HoverKind {
    Class,
    Module,
    Contract,
    TypeAlias,
    Binding,
    Constant,
    Global,
    Shared,
    Property,
    Method,
    Parameter,
    TypeParameter,
    PatternBinding,
}

/// How a parameter is passed.
#[derive(Clone, Copy, Debug, PartialEq, Eq, Structural)]
pub enum ParameterCategory {
    Positional,
    Rest,
    Keyword,
    KeywordRest,
    Block,
}

/// A detail of a hovered name.
#[derive(Debug, PartialEq, Eq)]
pub enum HoverDetail {
    ReturnType(String),
    ValueType(String),
    ParameterCategory(ParameterCategory),
}

/// Documentation text, and whether it was cut short.
#[derive(Clone, Debug, PartialEq, Eq)]
pub struct DocumentationInfo {
    pub text: String,
    pub truncated: bool,
}

/// A byte range of a source.
#[derive(Clone, Copy, Debug, PartialEq, Eq, Structural)]
pub struct Span {
    pub start: usize,
    pub end: usize,
}

/// What the analysis knows of a hovered name.
#[derive(Debug, PartialEq, Eq)]
pub struct HoverInfo {
    pub span: Span,
    pub signature: String,
    pub type_label: Option<String>,
    pub kind: HoverKind,
    pub owner: Option<String>,
    pub details: Vec<HoverDetail>,
    pub docs: Option<DocumentationInfo>,
}

/// The label of a kind of name.
pub open spec fn kind_text(kind: HoverKind) -> Seq<char> {
    match kind {
        HoverKind::Class => "Class"@,
        HoverKind::Module => "Module"@,
        HoverKind::Contract => "Contract"@,
        HoverKind::TypeAlias => "Type alias"@,
        HoverKind::Binding => "Variable"@,
        HoverKind::Constant => "Constant"@,
        HoverKind::Global => "Global"@,
        HoverKind::Shared => "Shared"@,
        HoverKind::Property => "Property"@,
        HoverKind::Method => "Method"@,
        HoverKind::Parameter => "Parameter"@,
        HoverKind::TypeParameter => "Type parameter"@,
        HoverKind::PatternBinding => "Pattern binding"@,
    }
}

/// The label of a kind of name.
pub fn kind_label(kind: HoverKind) -> (result: &'static str)
    ensures
        result@ == kind_text(kind),
{
    match kind {
        HoverKind::Class => "Class",
        HoverKind::Module => "Module",
        HoverKind::Contract => "Contract",
        HoverKind::TypeAlias => "Type alias",
        HoverKind::Binding => "Variable",
        HoverKind::Constant => "Constant",
        HoverKind::Global => "Global",
        HoverKind::Shared => "Shared",
        HoverKind::Property => "Property",
        HoverKind::Method => "Method",
        HoverKind::Parameter => "Parameter",
        HoverKind::TypeParameter => "Type parameter",
        HoverKind::PatternBinding => "Pattern binding",
    }
}

/// The label of a parameter category.
pub open spec fn category_text(category: ParameterCategory) -> Seq<char> {
    match category {
        ParameterCategory::Positional => "Positional"@,
        ParameterCategory::Rest => "Rest"@,
        ParameterCategory::Keyword => "Keyword"@,
        ParameterCategory::KeywordRest => "Keyword rest"@,
        ParameterCategory::Block => "Block"@,
    }
}

fn category_label(category: ParameterCategory) -> (result: &'static str)
    ensures
        result@ == category_text(category),
{
    match category {
        ParameterCategory::Positional => "Positional",
        ParameterCategory::Rest => "Rest",
        ParameterCategory::Keyword => "Keyword",
        ParameterCategory::KeywordRest => "Keyword rest",
        ParameterCategory::Block => "Block",
    }
}

/// `needle` occurs in `hay`.
pub open spec fn occurs_in(hay: Seq<u8>, needle: Seq<u8>) -> bool {
    exists|k: int| 0 <= k && k + needle.len() <= hay.len() && #[trigger] hay.subrange(k, k + needle.len()) == needle
}

fn contains_bytes(hay: &[u8], needle: &[u8]) -> (result: bool)
    ensures
        result == occurs_in(hay@, needle@),
{
    let n = hay.len();
    let m = needle.len();
    if m > n {
        proof {
            assert forall|k: int| 0 <= k && k + m <= n implies #[trigger] hay@.subrange(k, k + m)
                != needle@ by {
            }
        }
        return false;
    }
    let mut k: usize = 0;
    while k <= n - m
        invariant
            m <= n,
            n == hay@.len(),
            m == needle@.len(),
            k <= n - m + 1,
            forall|j: int| 0 <= j < k ==> #[trigger] hay@.subrange(j, j + m) != needle@,
        decreases n - m + 1 - k,
    {
        let mut i: usize = 0;
        while i < m
            invariant
                m <= n,
                n == hay@.len(),
                m == needle@.len(),
                k <= n - m,
                i <= m,
                forall|x: int| 0 <= x < i ==> hay@[k + x] == needle@[x],
            ensures
                i <= m,
                forall|x: int| 0 <= x < i ==> hay@[k + x] == needle@[x],
                i == m || hay@[k + i] != needle@[i as int],
            decreases m - i,
        {
            if hay[k + i] != needle[i] {
                break;
            }
            i = i + 1;
        }
        if i == m {
            assert(hay@.subrange(k as int, k + m) =~= needle@);
            return true;
        }
        assert(hay@.subrange(k as int, k + m)[i as int] != needle@[i as int]);
        k = k + 1;
    }
    false
}

/// The card after the details `details[k..]`, each as its field.
pub open spec fn details_from(card: CardView, details: Seq<HoverDetail>, k: int) -> CardView
    decreases details.len() - k,
{
    if k < 0 || k >= details.len() {
        card
    } else {
        let next = match details[k] {
            HoverDetail::ReturnType(label) => spec_field(
                card,
                "Declared return".spec_bytes(),
                string_bytes(label),
            ),
            HoverDetail::ValueType(label) => spec_field(card, "Type".spec_bytes(), string_bytes(label)),
            HoverDetail::ParameterCategory(category) => spec_field(
                card,
                "Parameter".spec_bytes(),
                crate::text::chars_bytes(category_text(category)),
            ),
        };
        details_from(next, details, k + 1)
    }
}

/// The hover card for `info`: the signature; its type when there are no
/// details, the type label is not empty and the signature does not show it;
/// the kind; the owner; each detail; the documentation.
pub open spec fn spec_render(info: HoverInfo, format: Format) -> CardView {
    let detailed = details_from(spec_render_owned(info, format), info.details@, 0);
    match info.docs {
        Some(docs) => spec_documentation(detailed, string_bytes(docs.text), docs.truncated),
        None => detailed,
    }
}

proof fn lemma_details_bound(card: CardView, details: Seq<HoverDetail>, k: int)
    requires
        bounded(card),
    ensures
        bounded(details_from(card, details, k)),
    decreases details.len() - k,
{
    if !(k < 0 || k >= details.len()) {
        match details[k] {
            HoverDetail::ReturnType(label) => lemma_field_bound(
                card,
                "Declared return".spec_bytes(),
                string_bytes(label),
            ),
            HoverDetail::ValueType(label) => lemma_field_bound(
                card,
                "Type".spec_bytes(),
                string_bytes(label),
            ),
            HoverDetail::ParameterCategory(category) => lemma_field_bound(
                card,
                "Parameter".spec_bytes(),
                crate::text::chars_bytes(category_text(category)),
            ),
        }
        let next = match details[k] {
            HoverDetail::ReturnType(label) => spec_field(
                card,
                "Declared return".spec_bytes(),
                string_bytes(label),
            ),
            HoverDetail::ValueType(label) => spec_field(card, "Type".spec_bytes(), string_bytes(label)),
            HoverDetail::ParameterCategory(category) => spec_field(
                card,
                "Parameter".spec_bytes(),
                crate::text::chars_bytes(category_text(category)),
            ),
        };
        lemma_details_bound(next, details, k + 1);
    }
}

/// Every hover card fits in [`MAX_BYTES`], whatever the sizes of its parts.
pub proof fn law_render_is_bounded(info: HoverInfo, format: Format)
    ensures
        spec_render(info, format).value.len() <= MAX_BYTES,
{
    encode_utf8_valid_utf8(info.signature@);
    lemma_signature_bound(format, string_bytes(info.signature));
    let empty = CardView { value: Seq::empty(), format, full: false };
    let signed = spec_signature(empty, string_bytes(info.signature));
    match info.type_label {
        Some(label) => lemma_field_bound(signed, "Type".spec_bytes(), string_bytes(label)),
        None => {},
    }
    let typed = match info.type_label {
        Some(label) => if info.details@.len() == 0 && string_bytes(label).len() > 0 && !occurs_in(
            string_bytes(info.signature),
            string_bytes(label),
        ) {
            spec_field(signed, "Type".spec_bytes(), string_bytes(label))
        } else {
            signed
        },
        None => signed,
    };
    lemma_field_bound(typed, "Kind".spec_bytes(), crate::text::chars_bytes(kind_text(info.kind)));
    let kinded = spec_field(typed, "Kind".spec_bytes(), crate::text::chars_bytes(kind_text(info.kind)));
    match info.owner {
        Some(owner) => lemma_field_bound(kinded, "Owner".spec_bytes(), string_bytes(owner)),
        None => {},
    }
    let owned = spec_render_owned(info, format);
    lemma_details_bound(owned, info.details@, 0);
    let detailed = details_from(owned, info.details@, 0);
    match info.docs {
        Some(docs) => lemma_documentation_bound(detailed, string_bytes(docs.text), docs.truncated),
        None => {},
    }
}

/// Renders the hover card for `info`; see [`spec_render`].
pub fn render(info: &HoverInfo, format: Format) -> (result: Markup)
    ensures
        result.kind == format,
        string_bytes(result.value) == spec_render(*info, format).value,
        string_bytes(result.value).len() <= MAX_BYTES,
{
    proof {
        law_render_is_bounded(*info, format);
    }
    let mut card = Card::new(format);
    card.signature(info.signature.as_str());
    match &info.type_label {
        Some(label) => {
            if info.details.len() == 0 && label.as_str().as_bytes().len() > 0 && !contains_bytes(
                info.signature.as_str().as_bytes(),
                label.as_str().as_bytes(),
            ) {
                card.field("Type", label.as_str());
            }
        },
        None => {},
    }
    card.field("Kind", kind_label(info.kind));
    match &info.owner {
        Some(owner) => card.field("Owner", owner.as_str()),
        None => {},
    }
    let n = info.details.len();
    let mut k: usize = 0;
    while k < n
        invariant
            n == info.details@.len(),
            k <= n,
            card.wf(),
            card@.format == format,
            details_from(
                card@,
                info.details@,
                k as int,
            ) == details_from(spec_render_owned(*info, format), info.details@, 0),
        decreases n - k,
    {
        match &info.details[k] {
            HoverDetail::ReturnType(label) => card.field("Declared return", label.as_str()),
            HoverDetail::ValueType(label) => card.field("Type", label.as_str()),
            HoverDetail::ParameterCategory(category) => card.field(
                "Parameter",
                category_label(*category),
            ),
        }
        k = k + 1;
    }
    match &info.docs {
        Some(docs) => card.documentation(docs.text.as_str(), docs.truncated),
        None => {},
    }
    card.finish()
}

/// The card of [`spec_render`] before its details and documentation.
pub open spec fn spec_render_owned(info: HoverInfo, format: Format) -> CardView {
    let empty = CardView { value: Seq::empty(), format, full: false };
    let signed = spec_signature(empty, string_bytes(info.signature));
    let typed = match info.type_label {
        Some(label) => if info.details@.len() == 0 && string_bytes(label).len() > 0 && !occurs_in(
            string_bytes(info.signature),
            string_bytes(label),
        ) {
            spec_field(signed, "Type".spec_bytes(), string_bytes(label))
        } else {
            signed
        },
        None => signed,
    };
    let kinded = spec_field(typed, "Kind".spec_bytes(), crate::text::chars_bytes(kind_text(info.kind)));
    match info.owner {
        Some(owner) => spec_field(kinded, "Owner".spec_bytes(), string_bytes(owner)),
        None => kinded,
    }
}

/// Renders documentation alone as a card.
pub fn render_docs(docs: &DocumentationInfo, format: Format) -> (result: Markup)
    ensures
        result.kind == format,
        string_bytes(result.value) == spec_literal(
            CardView { value: Seq::empty(), format, full: false },
            string_bytes(docs.text),
            docs.truncated,
        ).value,
        string_bytes(result.value).len() <= MAX_BYTES,
{
    proof {
        lemma_literal_bound(CardView { value: Seq::empty(), format, full: false }, string_bytes(docs.text), docs.truncated);
    }
    let mut card = Card::new(format);
    card.literal(docs.text.as_str(), docs.truncated);
    card.finish()
}

impl Format {
    /// The format a client asks for first, or plain text when it names none.
    pub fn negotiate(preferred: &[Format]) -> (result: Format)
        ensures
            result == if preferred@.len() > 0 {
                preferred@[0]
            } else {
                Format::Plaintext
            },
    {
        if preferred.len() > 0 {
            preferred[0]
        } else {
            Format::Plaintext
        }
    }
}

/// Each kind of hovered entity has a label of its own: no two kinds share a
/// label, and no label is empty.
pub proof fn law_kind_labels_distinct(a: HoverKind, b: HoverKind)
    ensures
        kind_text(a) == kind_text(b) ==> a == b,
        kind_text(a).len() > 0,
{
    reveal_strlit("Class");
    reveal_strlit("Module");
    reveal_strlit("Contract");
    reveal_strlit("Type alias");
    reveal_strlit("Variable");
    reveal_strlit("Constant");
    reveal_strlit("Global");
    reveal_strlit("Shared");
    reveal_strlit("Property");
    reveal_strlit("Method");
    reveal_strlit("Parameter");
    reveal_strlit("Type parameter");
    reveal_strlit("Pattern binding");
    if kind_text(a) == kind_text(b) {
        let t = kind_text(a);
        assert(t.len() == kind_text(b).len());
        assert(t[0] == kind_text(b)[0]);
        if t.len() > 1 {
            assert(t[1] == kind_text(b)[1]);
        }
        if t.len() > 3 {
            assert(t[3] == kind_text(b)[3]);
        }
    }
}

} // verus!
