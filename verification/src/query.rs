use vstd::prelude::*;

use crate::hover::Span;
use crate::markup::Format;
use crate::signature_help::Options;
use crate::positions::{LineIndex, Position};
use crate::semantics::QueryError;
use crate::text::{contains_string, lemma_string_views, string_views};

verus! {

/// The range between the positions of a span's ends; the span must be in
/// order and both ends must have positions.
pub open spec fn spec_span_range(index: LineIndex, span: Span) -> Result<(Position, Position), QueryError> {
    if span.start > span.end {
        Err(QueryError::Target)
    } else {
        match (index.spec_position_of(span.start as int), index.spec_position_of(span.end as int)) {
            (Some(start), Some(end)) => Ok((start, end)),
            _ => Err(QueryError::Target),
        }
    }
}

/// The range of a span; see [`spec_span_range`].
pub fn span_range(index: &LineIndex, span: Span) -> (result: Result<(Position, Position), QueryError>)
    ensures
        result == spec_span_range(*index, span),
{
    if span.start > span.end {
        return Err(QueryError::Target);
    }
    let start = match index.position(span.start) {
        Some(start) => start,
        None => return Err(QueryError::Target),
    };
    let end = match index.position(span.end) {
        Some(end) => end,
        None => return Err(QueryError::Target),
    };
    Ok((start, end))
}

/// What a semantic request asks, with its position (or range) and options.
#[derive(Clone, Copy, Debug, PartialEq, Eq)]
pub enum Operation {
    Definition(Position),
    References(Position, bool),
    Completion(Position),
    Hints(Position, Position),
    Hover(Position, Format),
    SignatureHelp(Position, Options),
}

/// The answer to a request on a file the workspace does not hold: the
/// keyword list, nothing, or an empty list.
#[derive(Clone, Copy, Debug, PartialEq, Eq, Structural)]
pub enum Fallback {
    Keywords,
    Null,
    Empty,
}

/// How a request proceeds before the analysis is asked.
#[derive(Clone, Copy, Debug, PartialEq, Eq, Structural)]
pub enum Plan {
    /// The inventory is incomplete in a way that decides the request.
    Incomplete,
    /// The file is unknown; this is the answer.
    Answer(Fallback),
    /// Ask the analysis.
    Run,
}

/// The answer for an unknown file.
pub open spec fn spec_fallback(operation: Operation) -> Fallback {
    match operation {
        Operation::Completion(_) => Fallback::Keywords,
        Operation::Hover(_, _) | Operation::SignatureHelp(_, _) => Fallback::Null,
        Operation::Definition(_) | Operation::References(_, _) | Operation::Hints(_, _) => Fallback::Empty,
    }
}

/// How a request proceeds: references need a complete inventory; an
/// unknown file with an inventory issue of its own is incomplete, and any
/// other unknown file has its fallback answer.
pub open spec fn spec_plan(operation: Operation, inventory_complete: bool, known: bool, file_issue: bool) -> Plan {
    if operation is References && !inventory_complete {
        Plan::Incomplete
    } else if !known && file_issue {
        Plan::Incomplete
    } else if !known {
        Plan::Answer(spec_fallback(operation))
    } else {
        Plan::Run
    }
}

/// How a request on a file proceeds; see [`spec_plan`].
pub fn plan(operation: &Operation, inventory_complete: bool, known: bool, file_issue: bool) -> (result: Plan)
    ensures
        result == spec_plan(*operation, inventory_complete, known, file_issue),
{
    if matches!(operation, Operation::References(_, _)) && !inventory_complete {
        return Plan::Incomplete;
    }
    if !known {
        if file_issue {
            return Plan::Incomplete;
        }
        return Plan::Answer(match operation {
            Operation::Completion(_) => Fallback::Keywords,
            Operation::Hover(_, _) | Operation::SignatureHelp(_, _) => Fallback::Null,
            Operation::Definition(_) | Operation::References(_, _) | Operation::Hints(_, _) => Fallback::Empty,
        });
    }
    Plan::Run
}

/// The byte range of a hints request: the offsets of both ends, which
/// must exist and be in order.
pub open spec fn spec_hint_bounds(index: LineIndex, start: Position, end: Position) -> Result<(int, int), QueryError> {
    match (index.spec_byte_offset(start), index.spec_byte_offset(end)) {
        (Some(lo), Some(hi)) => if lo > hi {
            Err(QueryError::Position)
        } else {
            Ok((lo, hi))
        },
        _ => Err(QueryError::Position),
    }
}

/// The byte range of a hints request; see [`spec_hint_bounds`].
pub fn hint_bounds(index: &LineIndex, start: Position, end: Position) -> (result: Result<(usize, usize), QueryError>)
    ensures
        match result {
            Ok((lo, hi)) => spec_hint_bounds(*index, start, end) == Ok::<(int, int), QueryError>((lo as int, hi as int)),
            Err(e) => spec_hint_bounds(*index, start, end) == Err::<(int, int), QueryError>(e),
        },
{
    let lo = match index.byte_offset(start) {
        Some(lo) => lo,
        None => return Err(QueryError::Position),
    };
    let hi = match index.byte_offset(end) {
        Some(hi) => hi,
        None => return Err(QueryError::Position),
    };
    if lo > hi {
        return Err(QueryError::Position);
    }
    Ok((lo, hi))
}

/// A hint the analysis offers: the byte it stands at and its label.
#[derive(Clone, Debug, PartialEq, Eq)]
pub struct InlayHintInfo {
    pub offset: usize,
    pub label: String,
}

/// A hint of the answer: its position and label.
#[derive(Debug, PartialEq, Eq)]
pub struct HintEntry {
    pub position: Position,
    pub label: String,
}

/// The position and label of each hint.
pub open spec fn hint_views(hints: Seq<HintEntry>) -> Seq<(Position, Seq<char>)> {
    hints.map_values(|h: HintEntry| (h.position, h.label@))
}

/// The hints inside `lo..hi`, in order, each at its position; `None` where
/// one of them has no position.
pub open spec fn spec_hints(index: LineIndex, lo: int, hi: int, hints: Seq<InlayHintInfo>) -> Option<Seq<(Position, Seq<char>)>>
    decreases hints.len(),
{
    if hints.len() == 0 {
        Some(Seq::empty())
    } else {
        let rest = spec_hints(index, lo, hi, hints.drop_last());
        let hint = hints.last();
        if !(lo <= hint.offset < hi) {
            rest
        } else {
            match (rest, index.spec_position_of(hint.offset as int)) {
                (Some(r), Some(p)) => Some(r.push((p, hint.label@))),
                _ => None,
            }
        }
    }
}

/// The hints inside `lo..hi`, each at its position; see [`spec_hints`].
/// A hint inside the range with no position fails the request.
pub fn hints_in(index: &LineIndex, lo: usize, hi: usize, hints: &[InlayHintInfo]) -> (result: Result<Vec<HintEntry>, QueryError>)
    ensures
        match spec_hints(*index, lo as int, hi as int, hints@) {
            Some(h) => result matches Ok(v) && hint_views(v@) == h,
            None => result == Err::<Vec<HintEntry>, QueryError>(QueryError::Target),
        },
{
    let n = hints.len();
    let mut out: Vec<HintEntry> = Vec::new();
    let mut k: usize = 0;
    while k < n
        invariant
            n == hints@.len(),
            k <= n,
            spec_hints(*index, lo as int, hi as int, hints@.subrange(0, k as int)) == Some(hint_views(out@)),
        decreases n - k,
    {
        assert(hints@.subrange(0, k + 1).drop_last() =~= hints@.subrange(0, k as int));
        let hint = &hints[k];
        if lo <= hint.offset && hint.offset < hi {
            let position = match index.position(hint.offset) {
                Some(p) => p,
                None => {
                    proof {
                        lemma_hints_fail(*index, lo as int, hi as int, hints@, k as int);
                    }
                    return Err(QueryError::Target);
                },
            };
            let ghost before = out@;
            out.push(HintEntry { position, label: hint.label.clone() });
            proof {
                assert(hint_views(out@) =~= hint_views(before).push((position, hint.label@)));
            }
        }
        k = k + 1;
    }
    assert(hints@.subrange(0, n as int) =~= hints@);
    Ok(out)
}

/// Once a prefix of the hints fails, every longer prefix fails.
proof fn lemma_hints_fail(index: LineIndex, lo: int, hi: int, hints: Seq<InlayHintInfo>, k: int)
    requires
        0 <= k < hints.len(),
        spec_hints(index, lo, hi, hints.subrange(0, k + 1)) is None,
    ensures
        spec_hints(index, lo, hi, hints) is None,
    decreases hints.len() - k,
{
    if k + 1 < hints.len() {
        assert(hints.subrange(0, k + 2).drop_last() =~= hints.subrange(0, k + 1));
        lemma_hints_fail(index, lo, hi, hints, k + 1);
    } else {
        assert(hints.subrange(0, k + 1) =~= hints);
    }
}

/// What a completion candidate is.
#[derive(Clone, Copy, Debug, PartialEq, Eq, Structural)]
pub enum CompletionKind {
    Variable,
    Parameter,
    Constant,
    TypeParameter,
    Class,
    TypeAlias,
    Module,
    Contract,
    Method,
    Property,
}

/// How a client shows a completion item.
#[derive(Clone, Copy, Debug, PartialEq, Eq, Structural)]
pub enum ItemKind {
    Variable,
    Constant,
    TypeParameter,
    Class,
    Module,
    Interface,
    Method,
    Property,
}

/// How a client shows a completion candidate.
pub open spec fn spec_item_kind(kind: CompletionKind) -> ItemKind {
    match kind {
        CompletionKind::Variable | CompletionKind::Parameter => ItemKind::Variable,
        CompletionKind::Constant => ItemKind::Constant,
        CompletionKind::TypeParameter => ItemKind::TypeParameter,
        CompletionKind::Class | CompletionKind::TypeAlias => ItemKind::Class,
        CompletionKind::Module => ItemKind::Module,
        CompletionKind::Contract => ItemKind::Interface,
        CompletionKind::Method => ItemKind::Method,
        CompletionKind::Property => ItemKind::Property,
    }
}

/// How a client shows a completion candidate.
pub fn completion_kind(kind: CompletionKind) -> (result: ItemKind)
    ensures
        result == spec_item_kind(kind),
{
    match kind {
        CompletionKind::Variable | CompletionKind::Parameter => ItemKind::Variable,
        CompletionKind::Constant => ItemKind::Constant,
        CompletionKind::TypeParameter => ItemKind::TypeParameter,
        CompletionKind::Class | CompletionKind::TypeAlias => ItemKind::Class,
        CompletionKind::Module => ItemKind::Module,
        CompletionKind::Contract => ItemKind::Interface,
        CompletionKind::Method => ItemKind::Method,
        CompletionKind::Property => ItemKind::Property,
    }
}

/// A candidate the analysis offers: its label, detail and kind, and the
/// span of source it replaces.
#[derive(Clone, Debug, PartialEq, Eq)]
pub struct CompletionItemInfo {
    pub label: String,
    pub detail: Option<String>,
    pub kind: CompletionKind,
    pub replace: Span,
}

/// What the analysis offers at a cursor.
#[derive(Clone, Debug, PartialEq, Eq)]
pub struct CompletionResult {
    pub items: Vec<CompletionItemInfo>,
    pub allow_keywords: bool,
    pub is_incomplete: bool,
}

/// One entry of a completion answer.
#[derive(Debug, PartialEq, Eq)]
pub enum CompletionEntry {
    /// A candidate, replacing the range from `start` to `end` with its label.
    Item { label: String, detail: Option<String>, kind: ItemKind, start: Position, end: Position },
    /// The keyword at this index of the keyword list.
    Keyword(usize),
}

/// A completion answer: its entries, whether it is a plain list (rather
/// than a list that says whether it is complete), and whether it is
/// incomplete.
#[derive(Debug, PartialEq, Eq)]
pub struct CompletionAnswer {
    pub entries: Vec<CompletionEntry>,
    pub plain: bool,
    pub is_incomplete: bool,
}

/// A position at or before another, line first.
pub open spec fn not_after(a: Position, b: Position) -> bool {
    a.line < b.line || (a.line == b.line && a.character <= b.character)
}

/// The range of a candidate is usable: on one line, around the cursor.
pub open spec fn usable(start: Position, end: Position, cursor: Position) -> bool {
    start.line == end.line && not_after(start, cursor) && not_after(cursor, end)
}

/// Every candidate from `k` on has a usable range.
pub open spec fn items_usable(index: LineIndex, items: Seq<CompletionItemInfo>, cursor: Position, k: int) -> bool
    decreases items.len() - k,
{
    if k < 0 || k >= items.len() {
        true
    } else {
        match spec_span_range(index, items[k].replace) {
            Ok((start, end)) => usable(start, end, cursor) && items_usable(index, items, cursor, k + 1),
            Err(_) => false,
        }
    }
}

/// Keyword `k` is kept: no candidate has its label, and no keyword before
/// it has the same label.
pub open spec fn keyword_kept(keywords: Seq<Seq<char>>, seen: Seq<Seq<char>>, k: int) -> bool {
    0 <= k < keywords.len() && !seen.contains(keywords[k]) && forall|j: int|
        0 <= j < k ==> keywords[j] != keywords[k]
}

/// Whether the entry `e` answers candidate `item`, replacing the range
/// from `start` to `end`.
pub open spec fn entry_for(e: CompletionEntry, item: CompletionItemInfo, start: Position, end: Position) -> bool {
    e == CompletionEntry::Item {
        label: item.label,
        detail: item.detail,
        kind: spec_item_kind(item.kind),
        start,
        end,
    }
}

/// Whether the entry `e` answers candidate `item`, replacing the range of
/// its span.
pub open spec fn entry_placed(index: LineIndex, e: CompletionEntry, item: CompletionItemInfo) -> bool {
    match spec_span_range(index, item.replace) {
        Ok((start, end)) => entry_for(e, item, start, end),
        Err(_) => false,
    }
}

/// The labels of the candidates.
pub open spec fn item_labels(items: Seq<CompletionItemInfo>) -> Seq<Seq<char>> {
    items.map_values(|i: CompletionItemInfo| i.label@)
}

/// The indices of the keywords before `k` that are kept, in order.
pub open spec fn kept_indices(keywords: Seq<Seq<char>>, seen: Seq<Seq<char>>, k: int) -> Seq<int>
    decreases k,
{
    if k <= 0 {
        Seq::empty()
    } else if keyword_kept(keywords, seen, k - 1) {
        kept_indices(keywords, seen, k - 1).push(k - 1)
    } else {
        kept_indices(keywords, seen, k - 1)
    }
}

/// The labels of the keywords before `k` that are kept, in order.
pub open spec fn kept_labels(keywords: Seq<Seq<char>>, seen: Seq<Seq<char>>, k: int) -> Seq<Seq<char>>
    decreases k,
{
    if k <= 0 {
        Seq::empty()
    } else if keyword_kept(keywords, seen, k - 1) {
        kept_labels(keywords, seen, k - 1).push(keywords[k - 1])
    } else {
        kept_labels(keywords, seen, k - 1)
    }
}

/// A label among the kept keywords before `k` is the label of a keyword
/// before `k`.
proof fn lemma_kept_from(keywords: Seq<Seq<char>>, seen: Seq<Seq<char>>, k: int, x: Seq<char>)
    requires
        kept_labels(keywords, seen, k).contains(x),
    ensures
        exists|j: int| 0 <= j < k && keywords[j] == x,
    decreases k,
{
    if k > 0 {
        let prev = kept_labels(keywords, seen, k - 1);
        if keyword_kept(keywords, seen, k - 1) && keywords[k - 1] == x {
        } else {
            if keyword_kept(keywords, seen, k - 1) {
                let kept = kept_labels(keywords, seen, k);
                let i = choose|i: int| 0 <= i < kept.len() && kept[i] == x;
                assert(kept == prev.push(keywords[k - 1]));
                assert(prev[i] == x);
            }
            lemma_kept_from(keywords, seen, k - 1, x);
        }
    }
}

/// A label that no candidate has and that some keyword before `k` has is
/// among the kept keywords before `k`.
proof fn lemma_earlier_kept(keywords: Seq<Seq<char>>, seen: Seq<Seq<char>>, k: int, x: Seq<char>)
    requires
        0 <= k <= keywords.len(),
        !seen.contains(x),
        exists|j: int| 0 <= j < k && keywords[j] == x,
    ensures
        kept_labels(keywords, seen, k).contains(x),
    decreases k,
{
    let prev = kept_labels(keywords, seen, k - 1);
    let kept = kept_labels(keywords, seen, k);
    if keywords[k - 1] == x && keyword_kept(keywords, seen, k - 1) {
        assert(kept == prev.push(x));
        assert(kept[prev.len() as int] == x);
    } else {
        if keywords[k - 1] != x {
            let j = choose|j: int| 0 <= j < k && keywords[j] == x;
            assert(j < k - 1);
        }
        lemma_earlier_kept(keywords, seen, k - 1, x);
        let i = choose|i: int| 0 <= i < prev.len() && prev[i] == x;
        if keyword_kept(keywords, seen, k - 1) {
            assert(kept == prev.push(keywords[k - 1]));
        }
        assert(kept[i] == x);
    }
}

/// A keyword is fresh against the candidates and the kept keywords before
/// it exactly when it is kept.
proof fn lemma_fresh_is_kept(keywords: Seq<Seq<char>>, seen: Seq<Seq<char>>, k: int)
    requires
        0 <= k < keywords.len(),
    ensures
        !(seen + kept_labels(keywords, seen, k)).contains(keywords[k]) <==> keyword_kept(keywords, seen, k),
{
    let kept = kept_labels(keywords, seen, k);
    let x = keywords[k];
    if (seen + kept).contains(x) {
        let i = choose|i: int| 0 <= i < (seen + kept).len() && (seen + kept)[i] == x;
        if i < seen.len() {
            assert(seen[i] == x);
        } else {
            assert(kept[i - seen.len()] == x);
            lemma_kept_from(keywords, seen, k, x);
        }
    } else if !keyword_kept(keywords, seen, k) {
        if seen.contains(x) {
            let i = choose|i: int| 0 <= i < seen.len() && seen[i] == x;
            assert((seen + kept)[i] == x);
        } else {
            lemma_earlier_kept(keywords, seen, k, x);
            let i = choose|i: int| 0 <= i < kept.len() && kept[i] == x;
            assert((seen + kept)[seen.len() + i] == x);
        }
    }
}

/// Where a completion request stands: the text's line index, the cursor,
/// and whether the keyword inventory is complete.
pub struct CompletionContext<'index, 'text> {
    pub index: &'index LineIndex<'text>,
    pub cursor: Position,
    pub inventory_complete: bool,
}

impl<'index, 'text> CompletionContext<'index, 'text> {
    /// The answer to a completion request at the cursor: the analysis's
    /// candidates, each replacing its range; then, where keywords are allowed,
    /// the first of each keyword label that no candidate has, in the order of
    /// the keyword list. A candidate whose range cannot be placed or does not
    /// surround the self.cursor on one line makes the whole request fail. With no
    /// candidates, keywords allowed and a complete inventory, the answer is a
    /// plain list; otherwise it says whether it is incomplete.
    pub fn response(
        &self,
        result: CompletionResult,
        keywords: &[String],
    ) -> (answer: Result<CompletionAnswer, QueryError>)
        ensures
            !items_usable(*self.index, result.items@, self.cursor, 0) ==> answer == Err::<
                CompletionAnswer,
                QueryError,
            >(QueryError::Target),
            items_usable(*self.index, result.items@, self.cursor, 0) ==> (answer matches Ok(a) && {
                let n = result.items@.len();
                let kept = if result.allow_keywords {
                    kept_indices(string_views(keywords@), item_labels(result.items@), keywords@.len() as int)
                } else {
                    Seq::empty()
                };
                &&& a.plain == (n == 0 && result.allow_keywords && self.inventory_complete)
                &&& a.is_incomplete == (result.is_incomplete || !self.inventory_complete)
                &&& a.entries@.len() == n + kept.len()
                &&& forall|k: int|
                    0 <= k < n ==> entry_placed(*self.index, #[trigger] a.entries@[k], result.items@[k])
                &&& forall|k: int|
                    0 <= k < kept.len() ==> #[trigger] a.entries@[n + k] == CompletionEntry::Keyword(kept[k] as usize)
            }),
    {
        let n = result.items.len();
        let keyword_only = n == 0 && result.allow_keywords;
        let mut entries: Vec<CompletionEntry> = Vec::new();
        let mut labels: Vec<String> = Vec::new();
        let mut k: usize = 0;
        while k < n
            invariant
                n == result.items@.len(),
                k <= n,
                entries@.len() == k,
                string_views(labels@) == item_labels(result.items@.subrange(0, k as int)),
                items_usable(*self.index, result.items@, self.cursor, 0) == items_usable(*self.index, result.items@, self.cursor, k as int),
                forall|j: int|
                    0 <= j < k ==> entry_placed(*self.index, #[trigger] entries@[j], result.items@[j]),
            decreases n - k,
        {
            let item = &result.items[k];
            let (start, end) = match span_range(self.index, item.replace) {
                Ok(range) => range,
                Err(e) => return Err(e),
            };
            let after_start = start.line < self.cursor.line || (start.line == self.cursor.line && start.character <= self.cursor.character);
            let before_end = self.cursor.line < end.line || (self.cursor.line == end.line && self.cursor.character <= end.character);
            if start.line != end.line || !after_start || !before_end {
                return Err(QueryError::Target);
            }
            let ghost before = labels@;
            labels.push(item.label.clone());
            proof {
                lemma_string_views(before);
                lemma_string_views(labels@);
                let next = item_labels(result.items@.subrange(0, k + 1));
                assert forall|i: int| 0 <= i < k + 1 implies #[trigger] string_views(labels@)[i] == next[i] by {
                    if i < k {
                        assert(string_views(before)[i] == item_labels(result.items@.subrange(0, k as int))[i]);
                    }
                }
                assert(string_views(labels@) =~= next);
            }
            let detail = match &item.detail {
                Some(text) => Some(text.clone()),
                None => None,
            };
            entries.push(CompletionEntry::Item {
                label: item.label.clone(),
                detail,
                kind: completion_kind(item.kind),
                start,
                end,
            });
            k = k + 1;
        }
        proof {
            assert(result.items@.subrange(0, n as int) =~= result.items@);
        }
        let ghost words = string_views(keywords@);
        let ghost seen = item_labels(result.items@);
        if result.allow_keywords {
            let count = keywords.len();
            let mut j: usize = 0;
            while j < count
                invariant
                    n == result.items@.len(),
                    count == keywords@.len(),
                    words == string_views(keywords@),
                    words.len() == count,
                    j <= count,
                    entries@.len() == n + kept_indices(words, seen, j as int).len(),
                    forall|i: int|
                        0 <= i < n ==> entry_placed(*self.index, #[trigger] entries@[i], result.items@[i]),
                    forall|i: int|
                        0 <= i < kept_indices(words, seen, j as int).len() ==> #[trigger] entries@[n + i]
                            == CompletionEntry::Keyword(kept_indices(words, seen, j as int)[i] as usize),
                    string_views(labels@) == seen + kept_labels(words, seen, j as int),
                decreases count - j,
            {
                let label = keywords[j].as_str();
                let fresh = !contains_string(&labels, label);
                proof {
                    lemma_fresh_is_kept(words, seen, j as int);
                    assert(words[j as int] == keywords@[j as int]@);
                }
                let ghost before = kept_indices(words, seen, j as int);
                if fresh {
                    let ghost old_labels = labels@;
                    labels.push(keywords[j].clone());
                    entries.push(CompletionEntry::Keyword(j));
                    proof {
                        lemma_string_views(old_labels);
                        lemma_string_views(labels@);
                        let next = seen + kept_labels(words, seen, j + 1);
                        assert forall|i: int| 0 <= i < labels@.len() implies #[trigger] string_views(labels@)[i] == next[i] by {
                            if i < old_labels.len() {
                                assert(string_views(old_labels)[i] == (seen + kept_labels(words, seen, j as int))[i]);
                            }
                        }
                        assert(string_views(labels@) =~= next);
                        assert forall|i: int|
                            0 <= i < kept_indices(words, seen, j + 1).len() implies #[trigger] entries@[n + i]
                                == CompletionEntry::Keyword(kept_indices(words, seen, j + 1)[i] as usize) by {
                            if i < before.len() {
                                assert(entries@[n + i] == CompletionEntry::Keyword(before[i] as usize));
                            }
                        }
                    }
                }
                j = j + 1;
            }
        }
        Ok(CompletionAnswer {
            entries,
            plain: keyword_only && self.inventory_complete,
            is_incomplete: result.is_incomplete || !self.inventory_complete,
        })
    }

}

/// Two analysis kinds collapse into one client kind: a parameter shows as a
/// variable, a type alias as a class.
pub open spec fn collapsed(a: CompletionKind, b: CompletionKind) -> bool {
    (a == CompletionKind::Variable && b == CompletionKind::Parameter) || (a == CompletionKind::Parameter
        && b == CompletionKind::Variable) || (a == CompletionKind::Class && b
        == CompletionKind::TypeAlias) || (a == CompletionKind::TypeAlias && b == CompletionKind::Class)
}

/// Completion kinds keep their distinctions for the client: two analysis
/// kinds show the same way only if they are the same kind or one of the
/// collapsed pairs (parameter and variable; type alias and class). A
/// contract shows as an interface, and no other analysis kind does; a
/// method shows as a method and a property as a property.
pub proof fn law_completion_kinds_distinct(a: CompletionKind, b: CompletionKind)
    ensures
        spec_item_kind(a) == spec_item_kind(b) ==> a == b || collapsed(a, b),
        spec_item_kind(a) == ItemKind::Interface <==> a == CompletionKind::Contract,
        spec_item_kind(a) == ItemKind::Method <==> a == CompletionKind::Method,
        spec_item_kind(a) == ItemKind::Property <==> a == CompletionKind::Property,
{
}

} // verus!
