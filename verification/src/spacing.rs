use vstd::prelude::*;

use crate::text::{alphabetic, is_alphabetic, str_eq};
use vstd::string::StringExecFns;
use crate::tree::{ends_expression, is_comment, leading_keyword, node_text, spec_ends_expression, Node};
use vstd::string::StrSliceExecFns;

verus! {

/// Two `:` tokens that touch in the source, read from the first.
pub open spec fn adjacent_colon(nodes: Seq<Node>, i: int) -> bool {
    &&& 0 <= i && i + 1 < nodes.len()
    &&& nodes[i] matches Node::Token(piece) && piece.text@ == ":"@
    &&& nodes[i + 1] matches Node::Token(next) && next.text@ == ":"@
    &&& nodes[i] matches Node::Token(piece) && nodes[i + 1] matches Node::Token(next) && piece.end
        == next.start
}

/// The source text of `nodes[i..]` with a space after every token but the
/// first of two touching colons; groups are written as their opening text,
/// their children and their closing text.
pub open spec fn source_from(nodes: Seq<Node>, i: int) -> Seq<char>
    decreases nodes, nodes.len() - i,
{
    if i < 0 || i >= nodes.len() {
        Seq::empty()
    } else {
        let rest = source_from(nodes, i + 1);
        match nodes[i] {
            Node::Token(piece) => if adjacent_colon(nodes, i) {
                piece.text@ + rest
            } else {
                piece.text@ + " "@ + rest
            },
            Node::Group(group) => {
                proof {
                    assert(decreases_to!(nodes => nodes[i]));
                }
                group.open@ + source_from(group.children@, 0) + group.close@ + rest
            },
        }
    }
}

/// Appends the source text of `nodes` to `output`; see [`source_from`].
pub fn append_source(nodes: &[Node], output: &mut String)
    ensures
        final(output)@ == old(output)@ + source_from(nodes@, 0),
    decreases nodes@,
{
    let n = nodes.len();
    let mut i: usize = 0;
    proof {
        reveal_strlit(" ");
    }
    while i < n
        invariant
            n == nodes@.len(),
            i <= n,
            output@ + source_from(nodes@, i as int) == old(output)@ + source_from(nodes@, 0),
        decreases n - i,
    {
        match &nodes[i] {
            Node::Token(piece) => {
                output.append(piece.text);
                let adjacent = str_eq(piece.text, ":") && i + 1 < n && match &nodes[i + 1] {
                    Node::Token(next) => str_eq(next.text, ":") && piece.end == next.start,
                    Node::Group(_) => false,
                };
                if !adjacent {
                    output.append(" ");
                }
            },
            Node::Group(group) => {
                output.append(group.open);
                proof {
                    assert(decreases_to!(nodes@ => nodes@[i as int]));
                }
                append_source(group.children.as_slice(), output);
                output.append(group.close);
            },
        }
        i = i + 1;
    }
}


/// A parser verdict that the caller supplies: it can be asked about any
/// text, and texts with the same characters always get the same answer.
pub open spec fn consistent<F: Fn(&str) -> bool>(accepts: F) -> bool {
    &&& forall|p: &str| #[trigger] accepts.requires((p,))
    &&& forall|p: &str, q: &str, r1: bool, r2: bool|
        #![trigger accepts.ensures((p,), r1), accepts.ensures((q,), r2)]
        p@ == q@ && accepts.ensures((p,), r1) && accepts.ensures((q,), r2) ==> r1 == r2
}

/// What a consistent verdict answers for `text`.
pub open spec fn verdict<F: Fn(&str) -> bool>(accepts: F, text: Seq<char>) -> bool {
    forall|p: &str, r: bool| #[trigger] accepts.ensures((p,), r) && p@ == text ==> r
}

/// The verdict of `accepts` as a function of the text.
pub open spec fn oracle<F: Fn(&str) -> bool>(accepts: F) -> spec_fn(Seq<char>) -> bool {
    |text: Seq<char>| verdict(accepts, text)
}

fn ask<F: Fn(&str) -> bool>(accepts: &F, probe: &str) -> (result: bool)
    requires
        consistent(*accepts),
    ensures
        result == verdict(*accepts, probe@),
{
    let result = accepts(probe);
    assert(accepts.ensures((probe,), result));
    result
}

/// How far a closing `>` or `>>` lowers the nesting of angle brackets.
pub open spec fn angle_width(t: Seq<char>) -> nat {
    if t == ">"@ {
        1
    } else {
        2
    }
}

/// A `>` right after a `-` is an arrow, not a closing angle bracket.
pub open spec fn arrow_head(nodes: Seq<Node>, lo: int, j: int) -> bool {
    j > lo && node_text(nodes[j]) == ">"@ && node_text(nodes[j - 1]) == "-"@
}

/// Where the angle brackets opened at `nodes[lo]` close, scanning from `j`
/// with `depth` open; `None` when `;`, `=` or `{` comes first or the nodes end.
pub open spec fn angle_end(nodes: Seq<Node>, lo: int, j: int, depth: nat) -> Option<int>
    decreases nodes.len() - j,
{
    if j < 0 || j >= nodes.len() {
        None
    } else {
        let t = node_text(nodes[j]);
        if t == "<"@ {
            angle_end(nodes, lo, j + 1, depth + 1)
        } else if arrow_head(nodes, lo, j) {
            angle_end(nodes, lo, j + 1, depth)
        } else if t == ">"@ || t == ">>"@ {
            let d: nat = if depth >= angle_width(t) {
                (depth - angle_width(t)) as nat
            } else {
                0
            };
            if d == 0 {
                Some(j)
            } else {
                angle_end(nodes, lo, j + 1, d)
            }
        } else if t == ";"@ || t == "="@ || t == "{"@ {
            None
        } else {
            angle_end(nodes, lo, j + 1, depth)
        }
    }
}

/// A text that holds a line break.
pub open spec fn has_line_break(t: Seq<char>) -> bool {
    exists|k: int| 0 <= k < t.len() && (t[k] == '\r' || t[k] == '\n')
}

/// What follows from `j` on: the first node that is not a comment on one
/// line, read as `"\n"` when it is a comment spanning lines; empty at the end.
pub open spec fn following_text(nodes: Seq<Node>, j: int) -> Seq<char>
    decreases nodes.len() - j,
{
    if j < 0 || j >= nodes.len() {
        Seq::empty()
    } else if is_comment(nodes[j]) {
        if has_line_break(node_text(nodes[j])) {
            "\n"@
        } else {
            following_text(nodes, j + 1)
        }
    } else {
        node_text(nodes[j])
    }
}

/// Texts that may follow a generic argument list.
pub open spec fn may_follow_generic(t: Seq<char>) -> bool {
    t.len() == 0 || t == "\n"@ || t == ","@ || t == "("@ || t == ")"@ || t
        == "]"@ || t == ":"@ || t == "="@ || t == "{"@ || t == "."@ || t == ".."@ || t == ";"@
        || t == "?"@ || t == "where"@ || t == "extends"@ || t == "implements"@
}

/// The declaration that is handed to the parser to test a generic
/// argument list `nodes[lo..=end]` after the name `nodes[lo - 1]`.
pub open spec fn generic_probe(nodes: Seq<Node>, lo: int, end: int) -> Seq<char> {
    "let value: "@ + node_text(nodes[lo - 1]) + source_from(nodes.subrange(lo, end + 1), 0)
}

/// `nodes[index]` is a `<` after some node that opens angle brackets which
/// close before `;`, `=` or `{`, are followed by a text that may follow a
/// type, and the parser accepts as the type of a declaration.
pub open spec fn spec_generic_start(
    nodes: Seq<Node>,
    index: int,
    accepts: spec_fn(Seq<char>) -> bool,
) -> bool {
    &&& 0 < index < nodes.len()
    &&& node_text(nodes[index]) == "<"@
    &&& angle_end(nodes, index, index, 0) matches Some(end) && may_follow_generic(
        following_text(nodes, end + 1),
    ) && accepts(generic_probe(nodes, index, end))
}

fn is_may_follow_generic(t: &str) -> (result: bool)
    ensures
        result == may_follow_generic(t@),
{
    t.unicode_len() == 0 || str_eq(t, "\n") || str_eq(t, ",") || str_eq(t, "(") || str_eq(t, ")")
        || str_eq(t, "]") || str_eq(t, ":") || str_eq(t, "=") || str_eq(t, "{") || str_eq(t, ".")
        || str_eq(t, "..") || str_eq(t, ";") || str_eq(t, "?") || str_eq(t, "where") || str_eq(
        t,
        "extends",
    ) || str_eq(t, "implements")
}

fn text_has_line_break(t: &str) -> (result: bool)
    ensures
        result == has_line_break(t@),
{
    let n = t.unicode_len();
    let mut k: usize = 0;
    while k < n
        invariant
            n == t@.len(),
            k <= n,
            forall|x: int| 0 <= x < k ==> !(t@[x] == '\r' || t@[x] == '\n'),
        decreases n - k,
    {
        let c = t.get_char(k);
        if c == '\r' || c == '\n' {
            return true;
        }
        k = k + 1;
    }
    false
}

fn find_angle_end(nodes: &[Node], index: usize) -> (result: Option<usize>)
    requires
        index < nodes@.len(),
    ensures
        match angle_end(nodes@, index as int, index as int, 0) {
            Some(e) => result == Some(e as usize) && index <= e < nodes@.len(),
            None => result is None,
        },
{
    let n = nodes.len();
    let mut j = index;
    let mut depth: usize = 0;
    while j < n
        invariant
            n == nodes@.len(),
            index <= j <= n,
            depth <= j - index,
            angle_end(nodes@, index as int, index as int, 0) == angle_end(
                nodes@,
                index as int,
                j as int,
                depth as nat,
            ),
        decreases n - j,
    {
        let t = nodes[j].text();
        if str_eq(t, "<") {
            depth = depth + 1;
        } else if j > index && str_eq(t, ">") && str_eq(nodes[j - 1].text(), "-") {
        } else if str_eq(t, ">") || str_eq(t, ">>") {
            let w: usize = if str_eq(t, ">") {
                1
            } else {
                2
            };
            depth = if depth >= w {
                depth - w
            } else {
                0
            };
            if depth == 0 {
                return Some(j);
            }
        } else if str_eq(t, ";") || str_eq(t, "=") || str_eq(t, "{") {
            return None;
        }
        j = j + 1;
    }
    None
}

fn find_following<'a>(nodes: &[Node<'a>], j: usize) -> (result: &'a str)
    ensures
        result@ == following_text(nodes@, j as int),
{
    let n = nodes.len();
    let mut k = j;
    while k < n
        invariant
            n == nodes@.len(),
            j <= k,
            following_text(nodes@, j as int) == following_text(nodes@, k as int),
        decreases n - k,
    {
        if nodes[k].comment() {
            if text_has_line_break(nodes[k].text()) {
                proof {
                    reveal_strlit("\n");
                }
                return "\n";
            }
        } else {
            return nodes[k].text();
        }
        k = k + 1;
    }
    proof {
        reveal_strlit("");
    }
    ""
}

/// Whether `nodes[index]` opens a generic argument list; see
/// [`spec_generic_start`]. The parser is asked through `accepts`.
pub fn generic_start<F: Fn(&str) -> bool>(nodes: &[Node], index: usize, accepts: &F) -> (result:
    bool)
    requires
        index < nodes@.len(),
        consistent(*accepts),
    ensures
        result == spec_generic_start(nodes@, index as int, oracle(*accepts)),
{
    if !str_eq(nodes[index].text(), "<") || index == 0 {
        return false;
    }
    let end = match find_angle_end(nodes, index) {
        Some(end) => end,
        None => return false,
    };
    let following = find_following(nodes, end + 1);
    if !is_may_follow_generic(following) {
        return false;
    }
    let mut probe = String::new();
    probe.append("let value: ");
    probe.append(nodes[index - 1].text());
    let ghost before = probe@;
    let tail = slice_range(nodes, index, end + 1);
    append_source(tail, &mut probe);
    proof {
        assert(probe@ == generic_probe(nodes@, index as int, end as int));
    }
    ask(accepts, probe.as_str())
}

fn slice_range<'b, 'a>(nodes: &'b [Node<'a>], lo: usize, hi: usize) -> (result: &'b [Node<'a>])
    requires
        lo <= hi <= nodes@.len(),
    ensures
        result@ == nodes@.subrange(lo as int, hi as int),
{
    let (head, _) = nodes.split_at(hi);
    let (_, mid) = head.split_at(lo);
    mid
}

/// Lowers an angle-bracket depth by what the closing text `t` closes, not
/// below zero.
pub open spec fn close_angles(depth: nat, t: Seq<char>) -> nat {
    if depth >= angle_width(t) {
        (depth - angle_width(t)) as nat
    } else {
        0
    }
}

/// The positions from `i` on of the commas that separate items: those
/// outside generic argument lists, with `depth` lists open at `i`.
pub open spec fn commas_from(
    nodes: Seq<Node>,
    i: int,
    depth: nat,
    accepts: spec_fn(Seq<char>) -> bool,
) -> Seq<int>
    decreases nodes.len() - i,
{
    if i < 0 || i >= nodes.len() {
        Seq::empty()
    } else {
        let t = node_text(nodes[i]);
        if t == "<"@ && (depth > 0 || spec_generic_start(nodes, i, accepts)) {
            commas_from(nodes, i + 1, depth + 1, accepts)
        } else if arrow_head(nodes, 0, i) {
            commas_from(nodes, i + 1, depth, accepts)
        } else if t == ">"@ || t == ">>"@ {
            commas_from(nodes, i + 1, close_angles(depth, t), accepts)
        } else if t == ","@ && depth == 0 {
            seq![i] + commas_from(nodes, i + 1, depth, accepts)
        } else {
            commas_from(nodes, i + 1, depth, accepts)
        }
    }
}

/// The positions of the commas in `nodes` that separate items.
pub open spec fn spec_commas(nodes: Seq<Node>, accepts: spec_fn(Seq<char>) -> bool) -> Seq<int> {
    commas_from(nodes, 0, 0, accepts)
}

/// The positions, in order, of the commas that separate the items of a
/// list; see [`spec_commas`]. The parser is asked through `accepts`.
pub fn commas<F: Fn(&str) -> bool>(nodes: &[Node], accepts: &F) -> (result: Vec<usize>)
    requires
        consistent(*accepts),
    ensures
        result@.map_values(|x: usize| x as int) == spec_commas(nodes@, oracle(*accepts)),
{
    let n = nodes.len();
    let mut depth: usize = 0;
    let mut result: Vec<usize> = Vec::new();
    let mut index: usize = 0;
    while index < n
        invariant
            n == nodes@.len(),
            index <= n,
            depth <= index,
            consistent(*accepts),
            result@.map_values(|x: usize| x as int) + commas_from(
                nodes@,
                index as int,
                depth as nat,
                oracle(*accepts),
            ) == spec_commas(nodes@, oracle(*accepts)),
        decreases n - index,
    {
        let t = nodes[index].text();
        let ghost before = result@;
        if str_eq(t, "<") && (depth > 0 || generic_start(nodes, index, accepts)) {
            depth = depth + 1;
        } else if index > 0 && str_eq(t, ">") && str_eq(nodes[index - 1].text(), "-") {
        } else if str_eq(t, ">") || str_eq(t, ">>") {
            let w: usize = if str_eq(t, ">") {
                1
            } else {
                2
            };
            depth = if depth >= w {
                depth - w
            } else {
                0
            };
        } else if str_eq(t, ",") && depth == 0 {
            result.push(index);
            proof {
                assert(result@.map_values(|x: usize| x as int) =~= before.map_values(
                    |x: usize| x as int,
                ).push(index as int));
            }
        }
        index = index + 1;
    }
    result
}

/// What the previous token was to the one that follows it.
#[derive(Clone, Copy, Debug, PartialEq, Eq, Structural)]
pub enum PreviousRole {
    Plain,
    Selector,
    Operator,
}

/// The state that decides whether a space goes before the next token.
#[derive(Debug)]
pub struct Spacing {
    previous: String,
    tight_after: bool,
    generic_depth: usize,
    closure_header: bool,
    previous_role: PreviousRole,
}

/// A [`Spacing`] as plain values.
pub struct SpacingView {
    pub previous: Seq<char>,
    pub tight_after: bool,
    pub generic_depth: nat,
    pub closure_header: bool,
    pub previous_role: PreviousRole,
}

impl View for Spacing {
    type V = SpacingView;

    closed spec fn view(&self) -> SpacingView {
        SpacingView {
            previous: self.previous@,
            tight_after: self.tight_after,
            generic_depth: self.generic_depth as nat,
            closure_header: self.closure_header,
            previous_role: self.previous_role,
        }
    }
}

/// The state at the start of a line of code: nothing written yet.
pub open spec fn fresh_spacing() -> SpacingView {
    SpacingView {
        previous: Seq::empty(),
        tight_after: false,
        generic_depth: 0,
        closure_header: false,
        previous_role: PreviousRole::Plain,
    }
}

/// The previous token is an operator that expects an operand.
pub open spec fn spec_continuation(s: SpacingView) -> bool {
    s.previous_role == PreviousRole::Operator && !s.tight_after
}

/// What has been written so far ends a complete expression.
pub open spec fn spec_complete_expression(s: SpacingView) -> bool {
    s.generic_depth == 0 && !s.tight_after && !spec_continuation(s) && spec_ends_expression(
        s.previous,
    )
}

/// Binary and assignment operators, and the type-test words.
pub open spec fn spec_is_operator(t: Seq<char>) -> bool {
    t == "="@ || t == "+"@ || t == "-"@ || t == "*"@ || t == "/"@ || t == "**"@ || t == "=="@
        || t == "!="@ || t == "&&"@ || t == "||"@ || t == "&"@ || t == "|"@ || t == "^"@ || t
        == "<="@ || t == ">="@ || t == "<"@ || t == ">"@ || t == "<=>"@ || t == "=~"@ || t
        == "!~"@ || t == "<<"@ || t == ">>"@ || t == "+="@ || t == "-="@ || t == "*="@ || t
        == "/="@ || t == "**="@ || t == "&="@ || t == "|="@ || t == "^="@ || t == "<<="@ || t
        == ">>="@ || t == "&&="@ || t == "||="@ || t == "is"@ || t == "as"@ || t == "as?"@ || t
        == "..="@ || t == "..<"@
}

/// Texts that never have a space before them.
pub open spec fn tight_before(t: Seq<char>) -> bool {
    t == ","@ || t == ";"@ || t == ")"@ || t == "]"@ || t == "::"@ || t == "."@ || t == ".."@
        || t == "?"@
}

/// Texts that never have a space after them.
pub open spec fn tight_after_text(t: Seq<char>) -> bool {
    t == "."@ || t == ".."@ || t == "::"@ || t == "@"@ || t == "@@"@ || t == "$"@ || t == "("@
        || t == "["@
}

/// Writing `text`, followed by `following`, opens one more level of angle
/// brackets.
pub open spec fn opens_generic(s: SpacingView, text: Seq<char>, following: Seq<char>) -> bool {
    text == "<"@ && (following == "<generic>"@ || s.generic_depth > 0)
}

/// Writing `text`, followed by `following`, after the state `s`: whether a
/// space goes before it, and the state after it.
pub open spec fn spec_gap(s: SpacingView, text: Seq<char>, following: Seq<char>) -> (
    SpacingView,
    bool,
) {
    let previous = s.previous;
    let cont = spec_continuation(s);
    let ends = spec_ends_expression(previous);
    let prefix = (text == "!"@ || text == "~"@ || text == "+"@ || text == "-"@) && (!ends || cont);
    let suffix = text == "!"@ && !cont && ends && previous.len() > 0 && (alphabetic(
        previous[0],
    ) || previous[0] == '_');
    let channel = (text == "*"@ || text == "**"@ || text == "&"@) && (previous.len() == 0
        || previous == "("@ || previous == ","@);
    let symbol = text == ":"@ && (!ends || previous == ":"@);
    let arrow_tail = text == ">"@ && (previous == "-"@ || previous == "="@);
    let generic_open = text == "<"@ && (following == "<generic>"@ || s.generic_depth > 0);
    let generic_close = (text == ">"@ || text == ">>"@) && s.generic_depth > 0 && !arrow_tail;
    let header_bar = text == "|"@ && (s.closure_header || previous == "{"@);
    let gap = previous.len() > 0 && !s.tight_after && !tight_before(text) && (text != ":"@
        || symbol) && !arrow_tail && !generic_open && !generic_close && !suffix && !(header_bar
        && s.closure_header) && !((text == "("@ || text == "["@) && (ends || s.previous_role
        == PreviousRole::Selector));
    let opened: nat = if generic_open {
        s.generic_depth + 1
    } else {
        s.generic_depth
    };
    let depth = if generic_close {
        close_angles(opened, text)
    } else {
        opened
    };
    let header = if header_bar {
        !s.closure_header
    } else {
        s.closure_header
    };
    let tight = !arrow_tail && (tight_after_text(text) || prefix || channel || symbol
        || generic_open || (header_bar && header));
    let role = if previous == "."@ || previous == ".."@ || previous == "fun"@ {
        PreviousRole::Selector
    } else if (spec_is_operator(text) || (text == "?"@ && previous == "as"@)) && !generic_open
        && !generic_close && !arrow_tail {
        PreviousRole::Operator
    } else {
        PreviousRole::Plain
    };
    (
        SpacingView {
            previous: text,
            tight_after: tight,
            generic_depth: depth,
            closure_header: header,
            previous_role: role,
        },
        gap,
    )
}

impl Default for Spacing {
    fn default() -> (result: Self)
        ensures
            result@ == fresh_spacing(),
    {
        Spacing {
            previous: String::new(),
            tight_after: false,
            generic_depth: 0,
            closure_header: false,
            previous_role: PreviousRole::Plain,
        }
    }
}

fn is_operator(t: &str) -> (result: bool)
    ensures
        result == spec_is_operator(t@),
{
    str_eq(t, "=") || str_eq(t, "+") || str_eq(t, "-") || str_eq(t, "*") || str_eq(t, "/")
        || str_eq(t, "**") || str_eq(t, "==") || str_eq(t, "!=") || str_eq(t, "&&") || str_eq(
        t,
        "||",
    ) || str_eq(t, "&") || str_eq(t, "|") || str_eq(t, "^") || str_eq(t, "<=") || str_eq(t, ">=")
        || str_eq(t, "<") || str_eq(t, ">") || str_eq(t, "<=>") || str_eq(t, "=~") || str_eq(
        t,
        "!~",
    ) || str_eq(t, "<<") || str_eq(t, ">>") || str_eq(t, "+=") || str_eq(t, "-=") || str_eq(
        t,
        "*=",
    ) || str_eq(t, "/=") || str_eq(t, "**=") || str_eq(t, "&=") || str_eq(t, "|=") || str_eq(
        t,
        "^=",
    ) || str_eq(t, "<<=") || str_eq(t, ">>=") || str_eq(t, "&&=") || str_eq(t, "||=") || str_eq(
        t,
        "is",
    ) || str_eq(t, "as") || str_eq(t, "as?") || str_eq(t, "..=") || str_eq(t, "..<")
}

impl Spacing {
    /// The previous token is an operator that still expects its operand.
    pub fn continuation(&self) -> (result: bool)
        ensures
            result == spec_continuation(self@),
    {
        self.previous_role == PreviousRole::Operator && !self.tight_after
    }

    /// Forgets everything written so far.
    pub fn reset(&mut self)
        ensures
            final(self)@ == fresh_spacing(),
    {
        *self = Spacing::default();
    }

    /// What has been written so far ends a complete expression.
    pub fn complete_expression(&self) -> (result: bool)
        ensures
            result == spec_complete_expression(self@),
    {
        self.generic_depth == 0 && !self.tight_after && !self.continuation() && ends_expression(
            self.previous.as_str(),
        )
    }

    /// A comment ended the line: start afresh, remembering only the break.
    pub fn comment_boundary(&mut self)
        ensures
            final(self)@ == (SpacingView { previous: "\n"@, ..fresh_spacing() }),
    {
        self.reset();
        self.previous.append("\n");
        assert(self.previous@ =~= "\n"@) by {
            reveal_strlit("\n");
        }
    }

    /// Whether a space goes before `text`, which `following` comes after;
    /// records `text` as written. See [`spec_gap`].
    pub fn gap(&mut self, text: &str, following: &str) -> (result: bool)
        requires
            opens_generic(old(self)@, text@, following@) ==> old(self)@.generic_depth < usize::MAX,
        ensures
            (final(self)@, result) == spec_gap(old(self)@, text@, following@),
    {
        let previous = self.previous.as_str();
        let cont = self.continuation();
        let ends = ends_expression(previous);
        let prefix = (str_eq(text, "!") || str_eq(text, "~") || str_eq(text, "+") || str_eq(
            text,
            "-",
        )) && (!ends || cont);
        let first_word = previous.unicode_len() > 0 && {
            let first = previous.get_char(0);
            is_alphabetic(first) || first == '_'
        };
        let suffix = str_eq(text, "!") && !cont && ends && first_word;
        let channel = (str_eq(text, "*") || str_eq(text, "**") || str_eq(text, "&")) && (
        previous.unicode_len() == 0 || str_eq(previous, "(") || str_eq(previous, ","));
        let symbol = str_eq(text, ":") && (!ends || str_eq(previous, ":"));
        let arrow_tail = str_eq(text, ">") && (str_eq(previous, "-") || str_eq(previous, "="));
        let generic_open = str_eq(text, "<") && (str_eq(following, "<generic>")
            || self.generic_depth > 0);
        let generic_close = (str_eq(text, ">") || str_eq(text, ">>")) && self.generic_depth > 0
            && !arrow_tail;
        let header_bar = str_eq(text, "|") && (self.closure_header || str_eq(previous, "{"));
        let tight_before_text = str_eq(text, ",") || str_eq(text, ";") || str_eq(text, ")")
            || str_eq(text, "]") || str_eq(text, "::") || str_eq(text, ".") || str_eq(text, "..")
            || str_eq(text, "?");
        let gap = previous.unicode_len() > 0 && !self.tight_after && !tight_before_text && (
        !str_eq(text, ":") || symbol) && !arrow_tail && !generic_open && !generic_close && !suffix
            && !(header_bar && self.closure_header) && !((str_eq(text, "(") || str_eq(text, "["))
            && (ends || self.previous_role == PreviousRole::Selector));
        let selector = str_eq(previous, ".") || str_eq(previous, "..") || str_eq(previous, "fun");
        let operator = is_operator(text) || (str_eq(text, "?") && str_eq(previous, "as"));
        if generic_open {
            self.generic_depth = self.generic_depth + 1;
        }
        if generic_close {
            let w: usize = if str_eq(text, ">") {
                1
            } else {
                2
            };
            self.generic_depth = if self.generic_depth >= w {
                self.generic_depth - w
            } else {
                0
            };
        }
        if header_bar {
            self.closure_header = !self.closure_header;
        }
        self.tight_after = (str_eq(text, ".") || str_eq(text, "..") || str_eq(text, "::")
            || str_eq(text, "@") || str_eq(text, "@@") || str_eq(text, "$") || str_eq(text, "(")
            || str_eq(text, "[")) || prefix || channel || symbol || generic_open || (header_bar
            && self.closure_header);
        if arrow_tail {
            self.tight_after = false;
        }
        self.previous_role = if selector {
            PreviousRole::Selector
        } else if operator && !generic_open && !generic_close && !arrow_tail {
            PreviousRole::Operator
        } else {
            PreviousRole::Plain
        };
        self.previous = text.to_owned();
        gap
    }

    /// A group closed with `close`.
    pub fn group_end(&mut self, close: &str)
        ensures
            final(self)@ == (SpacingView {
                previous: close@,
                tight_after: false,
                previous_role: PreviousRole::Plain,
                ..old(self)@
            }),
    {
        self.previous = close.to_owned();
        self.tight_after = false;
        self.previous_role = PreviousRole::Plain;
    }
}

/// A comment boundary acts as a line break written just before: whatever
/// the state was, afterwards no operator awaits an operand, no expression
/// is complete, and the next text gets a space before it unless it never
/// takes one or opens a generic; after a reset, nothing gets a space.
pub proof fn law_comment_boundary(text: Seq<char>, following: Seq<char>)
    ensures
        !spec_continuation(SpacingView { previous: "\n"@, ..fresh_spacing() }),
        !spec_complete_expression(SpacingView { previous: "\n"@, ..fresh_spacing() }),
        spec_gap(SpacingView { previous: "\n"@, ..fresh_spacing() }, text, following).1 == (
        !tight_before(text) && !(text == "<"@ && following == "<generic>"@)),
        !spec_gap(fresh_spacing(), text, following).1,
{
    reveal_strlit("\n");
    reveal_strlit("-");
    reveal_strlit("=");
    reveal_strlit("{");
    reveal_strlit(":");
    reveal_strlit("(");
    reveal_strlit(",");
    let after = SpacingView { previous: "\n"@, ..fresh_spacing() };
    assert(after.previous.last() == '\n');
    assert(!leading_keyword(after.previous)) by {
        reveal_strlit("let");
        reveal_strlit("mut");
        reveal_strlit("in");
        reveal_strlit("is");
        reveal_strlit("as");
        reveal_strlit("const");
        reveal_strlit("return");
        reveal_strlit("raise");
        reveal_strlit("yield");
        reveal_strlit("await");
    }
    assert(!spec_ends_expression(after.previous));
}

/// No space ever goes before a text that never takes one, nor before
/// anything at the start of the output or right after a reset, nor right
/// after a text that never takes one after it.
pub proof fn law_gap_tight(s: SpacingView, before: Seq<char>, ahead: Seq<char>, text: Seq<char>, following: Seq<char>)
    ensures
        tight_before(text) ==> !spec_gap(s, text, following).1,
        !spec_gap(fresh_spacing(), text, following).1,
        tight_after_text(before) ==> !spec_gap(spec_gap(s, before, ahead).0, text, following).1,
{
    reveal_strlit(">");
    reveal_strlit(".");
    reveal_strlit("..");
    reveal_strlit("::");
    reveal_strlit("@");
    reveal_strlit("@@");
    reveal_strlit("$");
    reveal_strlit("(");
    reveal_strlit("[");
    if tight_after_text(before) {
        assert(">"@.len() == 1 && ">"@[0] == '>');
        assert(before != ">"@) by {
            if before == "."@ {
                assert(before[0] == '.');
            } else if before == "@"@ {
                assert(before[0] == '@');
            } else if before == "$"@ {
                assert(before[0] == '$');
            } else if before == "("@ {
                assert(before[0] == '(');
            } else if before == "["@ {
                assert(before[0] == '[');
            } else {
                assert(before.len() == 2);
            }
        }
        assert(spec_gap(s, before, ahead).0.tight_after);
    }
}

} // verus!
