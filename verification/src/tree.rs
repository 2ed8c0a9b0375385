use vstd::prelude::*;

use crate::options::SkipReason;
use crate::safety::NESTING_LIMIT;
use crate::spacing::{
    arrow_head, close_angles, consistent, generic_start, oracle, spec_generic_start,
};
use crate::text::{alphanumeric, is_alphanumeric, str_eq};
use crate::tokens::{Kind, Piece};
use vstd::string::StrSliceExecFns;

verus! {

/// How a bracketed group is laid out.
#[derive(Clone, Copy, Debug, PartialEq, Eq, Structural)]
pub enum Role {
    Body,
    Closure,
    Accessors,
    List,
    Parens,
    Index,
}

/// A bracketed group: its opening and closing text, its role and what it holds.
#[derive(Debug)]
pub struct Group<'a> {
    pub open: &'a str,
    pub close: &'a str,
    pub role: Role,
    pub children: Vec<Node<'a>>,
}

/// A piece outside any bracket pair of its level, or a bracketed group.
#[derive(Debug)]
pub enum Node<'a> {
    Token(Piece<'a>),
    Group(Group<'a>),
}

/// The text a node starts with: a token's text or a group's opening text.
pub open spec fn node_text(node: Node) -> Seq<char> {
    match node {
        Node::Token(piece) => piece.text@,
        Node::Group(group) => group.open@,
    }
}

/// A line-break token.
pub open spec fn is_newline(node: Node) -> bool {
    node matches Node::Token(piece) && piece.kind == Kind::Newline
}

/// A comment token.
pub open spec fn is_comment(node: Node) -> bool {
    node matches Node::Token(piece) && piece.kind == Kind::Comment
}

impl<'a> Node<'a> {
    /// The text this node starts with.
    pub fn text(&self) -> (result: &'a str)
        ensures
            result@ == node_text(*self),
    {
        match self {
            Node::Token(piece) => piece.text,
            Node::Group(group) => group.open,
        }
    }

    /// Whether this node is a line break.
    pub fn newline(&self) -> (result: bool)
        ensures
            result == is_newline(*self),
    {
        match self {
            Node::Token(piece) => piece.kind == Kind::Newline,
            Node::Group(_) => false,
        }
    }

    /// Whether this node is a comment.
    pub fn comment(&self) -> (result: bool)
        ensures
            result == is_comment(*self),
    {
        match self {
            Node::Token(piece) => piece.kind == Kind::Comment,
            Node::Group(_) => false,
        }
    }
}

/// Characters after which an expression may end, besides alphanumerics.
pub open spec fn closes_expression(c: char) -> bool {
    c == '_' || c == '?' || c == '!' || c == ')' || c == ']' || c == '}' || c == '"' || c
        == '\'' || c == '>'
}

/// Words that never end an expression.
pub open spec fn leading_keyword(t: Seq<char>) -> bool {
    t == "let"@ || t == "mut"@ || t == "const"@ || t == "return"@ || t == "raise"@ || t
        == "yield"@ || t == "in"@ || t == "is"@ || t == "as"@ || t == "await"@
}

/// A text that can end an expression: its last character is alphanumeric or
/// one of `_?!)]}"'>`, and it is not a keyword that introduces one.
pub open spec fn spec_ends_expression(t: Seq<char>) -> bool {
    &&& t.len() > 0
    &&& (alphanumeric(t.last()) || closes_expression(t.last()))
    &&& !leading_keyword(t)
}

fn is_leading_keyword(text: &str) -> (result: bool)
    ensures
        result == leading_keyword(text@),
{
    str_eq(text, "let") || str_eq(text, "mut") || str_eq(text, "const") || str_eq(text, "return")
        || str_eq(text, "raise") || str_eq(text, "yield") || str_eq(text, "in") || str_eq(
        text,
        "is",
    ) || str_eq(text, "as") || str_eq(text, "await")
}

/// Whether `text` can end an expression; see [`spec_ends_expression`].
pub fn ends_expression(text: &str) -> (result: bool)
    ensures
        result == spec_ends_expression(text@),
{
    let n = text.unicode_len();
    if n == 0 {
        return false;
    }
    let last = text.get_char(n - 1);
    let closing = last == '_' || last == '?' || last == '!' || last == ')' || last == ']' || last
        == '}' || last == '"' || last == '\'' || last == '>';
    (is_alphanumeric(last) || closing) && !is_leading_keyword(text)
}


/// A node that is neither a line break nor a comment.
pub open spec fn significant(node: Node) -> bool {
    !is_newline(node) && !is_comment(node)
}

/// The last significant node at or before `k`.
pub open spec fn significant_before(nodes: Seq<Node>, k: int) -> Option<int>
    decreases k + 1,
{
    if k < 0 || k >= nodes.len() {
        None
    } else if significant(nodes[k]) {
        Some(k)
    } else {
        significant_before(nodes, k - 1)
    }
}

/// The first significant node at or after `k`.
pub open spec fn significant_after(nodes: Seq<Node>, k: int) -> Option<int>
    decreases nodes.len() - k,
{
    if k < 0 || k >= nodes.len() {
        None
    } else if significant(nodes[k]) {
        Some(k)
    } else {
        significant_after(nodes, k + 1)
    }
}

/// The text of the node at an optional position, empty for none.
pub open spec fn text_at(nodes: Seq<Node>, at: Option<int>) -> Seq<char> {
    match at {
        Some(k) => node_text(nodes[k]),
        None => Seq::empty(),
    }
}

/// Words that continue a declaration header onto a new line.
pub open spec fn clause_word(t: Seq<char>) -> bool {
    t == "extends"@ || t == "for"@ || t == "mixin"@ || t == "where"@ || t == "meta"@
}

/// Words that start a declaration whose header may span lines.
pub open spec fn declaration_word(t: Seq<char>) -> bool {
    t == "fun"@ || t == "class"@ || t == "module"@ || t == "contract"@ || t == "property"@
}

/// Texts that end the search for a declaration header.
pub open spec fn header_stop(t: Seq<char>) -> bool {
    t == ";"@ || t == "{"@ || t == "let"@ || t == "return"@ || t == "raise"@ || t == "yield"@
        || t == "="@
}

/// The significant text before the line break at `index`.
pub open spec fn previous_text(nodes: Seq<Node>, index: int) -> Seq<char> {
    text_at(nodes, significant_before(nodes, index - 1))
}

/// The significant text after the line break at `index`.
pub open spec fn next_text(nodes: Seq<Node>, index: int) -> Seq<char> {
    text_at(nodes, significant_after(nodes, index + 1))
}

/// The line break at `index` follows `->`.
pub open spec fn after_arrow(nodes: Seq<Node>, index: int) -> bool {
    &&& previous_text(nodes, index) == ">"@
    &&& significant_before(nodes, index - 1) matches Some(p) && text_at(
        nodes,
        significant_before(nodes, p - 1),
    ) == "-"@
}

/// The texts around the line break at `index` suggest that a header goes on.
pub open spec fn continuation_hint(nodes: Seq<Node>, index: int) -> bool {
    let previous = previous_text(nodes, index);
    let next = next_text(nodes, index);
    clause_word(next) || clause_word(previous) || after_arrow(nodes, index) || previous == ":"@
        || previous == "&"@ || previous == "|"@ || previous == "<"@ || previous == ">"@
        || previous == ">>"@ || previous == ","@ || next == ">"@ || next == ">>"@ || next == ","@
        || next == "&"@ || next == "|"@
}

/// The generic argument lists still open at `nodes[hi]`, counted from `j`
/// with `depth` open.
pub open spec fn angles_open(
    nodes: Seq<Node>,
    j: int,
    hi: int,
    depth: nat,
    accepts: spec_fn(Seq<char>) -> bool,
) -> nat
    decreases hi - j,
{
    if j < 0 || j >= hi || j >= nodes.len() {
        depth
    } else {
        let t = node_text(nodes[j]);
        if t == "<"@ && (depth > 0 || spec_generic_start(nodes, j, accepts)) {
            angles_open(nodes, j + 1, hi, depth + 1, accepts)
        } else if arrow_head(nodes, 0, j) {
            angles_open(nodes, j + 1, hi, depth, accepts)
        } else if t == ">"@ || t == ">>"@ {
            angles_open(nodes, j + 1, hi, close_angles(depth, t), accepts)
        } else {
            angles_open(nodes, j + 1, hi, depth, accepts)
        }
    }
}

/// Some node in `lo..hi` is a clause word.
pub open spec fn has_clause(nodes: Seq<Node>, lo: int, hi: int) -> bool {
    exists|k: int| lo <= k < hi && clause_word(#[trigger] node_text(nodes[k]))
}

/// Within the declaration that starts at `start`, the line break at `index`
/// continues the header.
pub open spec fn header_goes_on(
    nodes: Seq<Node>,
    index: int,
    start: int,
    accepts: spec_fn(Seq<char>) -> bool,
) -> bool {
    let previous = previous_text(nodes, index);
    clause_word(next_text(nodes, index)) || clause_word(previous) || after_arrow(nodes, index)
        || angles_open(nodes, start, index, 0, accepts) > 0 || previous == ":"@ || previous
        == "&"@ || previous == "|"@ || (previous == ","@ && has_clause(nodes, start, index))
}

/// Searching back from `k` for the declaration the line break at `index`
/// belongs to.
pub open spec fn header_search(
    nodes: Seq<Node>,
    index: int,
    k: int,
    accepts: spec_fn(Seq<char>) -> bool,
) -> bool
    decreases k + 1,
{
    if k < 0 || k >= nodes.len() {
        false
    } else if declaration_word(node_text(nodes[k])) {
        header_goes_on(nodes, index, k, accepts)
    } else if header_stop(node_text(nodes[k])) {
        false
    } else {
        header_search(nodes, index, k - 1, accepts)
    }
}

/// The line break at `index` continues a declaration header: the texts
/// around it suggest so, and the nearest declaration word before it (with
/// no `;`, `{`, `let`, `return`, `raise`, `yield` or `=` in between) has a
/// header that is still open there.
pub open spec fn spec_header_continues(
    nodes: Seq<Node>,
    index: int,
    accepts: spec_fn(Seq<char>) -> bool,
) -> bool {
    continuation_hint(nodes, index) && header_search(nodes, index, index - 1, accepts)
}

fn find_significant_before(nodes: &[Node], k: usize) -> (result: Option<usize>)
    requires
        k <= nodes@.len(),
    ensures
        match significant_before(nodes@, k - 1) {
            Some(p) => result == Some(p as usize) && 0 <= p < k,
            None => result is None,
        },
{
    let mut j = k;
    while j > 0
        invariant
            j <= k <= nodes@.len(),
            significant_before(nodes@, k - 1) == significant_before(nodes@, j - 1),
        decreases j,
    {
        if !nodes[j - 1].newline() && !nodes[j - 1].comment() {
            return Some(j - 1);
        }
        j = j - 1;
    }
    None
}

fn find_significant_after(nodes: &[Node], k: usize) -> (result: Option<usize>)
    ensures
        match significant_after(nodes@, k as int) {
            Some(p) => result == Some(p as usize) && k <= p < nodes@.len(),
            None => result is None,
        },
{
    let n = nodes.len();
    let mut j = k;
    while j < n
        invariant
            n == nodes@.len(),
            k <= j,
            significant_after(nodes@, k as int) == significant_after(nodes@, j as int),
        decreases n - j,
    {
        if !nodes[j].newline() && !nodes[j].comment() {
            return Some(j);
        }
        j = j + 1;
    }
    None
}

fn text_of<'a>(nodes: &[Node<'a>], at: Option<usize>) -> (result: &'a str)
    requires
        at matches Some(k) ==> k < nodes@.len(),
    ensures
        match at {
            Some(k) => result@ == node_text(nodes@[k as int]),
            None => result@ == Seq::<char>::empty(),
        },
{
    match at {
        Some(k) => nodes[k].text(),
        None => {
            proof {
                reveal_strlit("");
            }
            ""
        },
    }
}

fn is_clause_word(t: &str) -> (result: bool)
    ensures
        result == clause_word(t@),
{
    str_eq(t, "extends") || str_eq(t, "for") || str_eq(t, "mixin") || str_eq(t, "where")
        || str_eq(t, "meta")
}

fn is_declaration_word(t: &str) -> (result: bool)
    ensures
        result == declaration_word(t@),
{
    str_eq(t, "fun") || str_eq(t, "class") || str_eq(t, "module") || str_eq(t, "contract")
        || str_eq(t, "property")
}

fn is_header_stop(t: &str) -> (result: bool)
    ensures
        result == header_stop(t@),
{
    str_eq(t, ";") || str_eq(t, "{") || str_eq(t, "let") || str_eq(t, "return") || str_eq(
        t,
        "raise",
    ) || str_eq(t, "yield") || str_eq(t, "=")
}

fn count_open_angles<F: Fn(&str) -> bool>(
    nodes: &[Node],
    start: usize,
    hi: usize,
    accepts: &F,
) -> (result: usize)
    requires
        start <= hi <= nodes@.len(),
        consistent(*accepts),
    ensures
        result == angles_open(nodes@, start as int, hi as int, 0, oracle(*accepts)),
{
    let mut depth: usize = 0;
    let mut j = start;
    while j < hi
        invariant
            start <= j <= hi <= nodes@.len(),
            depth <= j - start,
            consistent(*accepts),
            angles_open(nodes@, start as int, hi as int, 0, oracle(*accepts)) == angles_open(
                nodes@,
                j as int,
                hi as int,
                depth as nat,
                oracle(*accepts),
            ),
        decreases hi - j,
    {
        let t = nodes[j].text();
        if str_eq(t, "<") && (depth > 0 || generic_start(nodes, j, accepts)) {
            depth = depth + 1;
        } else if j > 0 && str_eq(t, ">") && str_eq(nodes[j - 1].text(), "-") {
        } else if str_eq(t, ">") || str_eq(t, ">>") {
            let w: usize = if str_eq(t, ">") {
                1
            } else {
                2
            };
            depth = if depth >= w {
                depth - w
            } else {
                0
            };
        }
        j = j + 1;
    }
    depth
}

fn any_clause(nodes: &[Node], lo: usize, hi: usize) -> (result: bool)
    requires
        lo <= hi <= nodes@.len(),
    ensures
        result == has_clause(nodes@, lo as int, hi as int),
{
    let mut k = lo;
    while k < hi
        invariant
            lo <= k <= hi <= nodes@.len(),
            forall|x: int| lo <= x < k ==> !clause_word(#[trigger] node_text(nodes@[x])),
        decreases hi - k,
    {
        if is_clause_word(nodes[k].text()) {
            return true;
        }
        k = k + 1;
    }
    false
}

/// Whether the line break at `index` continues a declaration header; see
/// [`spec_header_continues`]. The parser is asked through `accepts`.
pub fn header_continues<F: Fn(&str) -> bool>(nodes: &[Node], index: usize, accepts: &F) -> (result:
    bool)
    requires
        index < nodes@.len(),
        consistent(*accepts),
    ensures
        result == spec_header_continues(nodes@, index as int, oracle(*accepts)),
{
    let p = find_significant_before(nodes, index);
    let previous = text_of(nodes, p);
    let arrow = match p {
        Some(p) => str_eq(previous, ">") && str_eq(
            text_of(nodes, find_significant_before(nodes, p)),
            "-",
        ),
        None => false,
    };
    let n = nodes.len();
    let next = text_of(nodes, find_significant_after(nodes, index + 1));
    assert(previous@ == previous_text(nodes@, index as int));
    assert(next@ == next_text(nodes@, index as int));
    assert(arrow == after_arrow(nodes@, index as int));
    let hint = is_clause_word(next) || is_clause_word(previous) || arrow || str_eq(previous, ":")
        || str_eq(previous, "&") || str_eq(previous, "|") || str_eq(previous, "<") || str_eq(
        previous,
        ">",
    ) || str_eq(previous, ">>") || str_eq(previous, ",") || str_eq(next, ">") || str_eq(
        next,
        ">>",
    ) || str_eq(next, ",") || str_eq(next, "&") || str_eq(next, "|");
    if !hint {
        return false;
    }
    let mut k = index;
    while k > 0
        invariant
            k <= index < nodes@.len(),
            consistent(*accepts),
            previous@ == previous_text(nodes@, index as int),
            next@ == next_text(nodes@, index as int),
            arrow == after_arrow(nodes@, index as int),
            continuation_hint(nodes@, index as int),
            header_search(nodes@, index as int, index - 1, oracle(*accepts)) == header_search(
                nodes@,
                index as int,
                k - 1,
                oracle(*accepts),
            ),
        decreases k,
    {
        let t = nodes[k - 1].text();
        if is_declaration_word(t) {
            let start = k - 1;
            let depth = count_open_angles(nodes, start, index, accepts);
            return is_clause_word(next) || is_clause_word(previous) || arrow || depth > 0
                || str_eq(previous, ":") || str_eq(previous, "&") || str_eq(previous, "|") || (
            str_eq(previous, ",") && any_clause(nodes, start, index));
        }
        if is_header_stop(t) {
            return false;
        }
        k = k - 1;
    }
    false
}

/// The closing text of the last node, or its text for a token; empty when
/// there is none.
pub open spec fn last_close(before: Seq<Node>) -> Seq<char> {
    if before.len() == 0 {
        Seq::empty()
    } else {
        match before.last() {
            Node::Token(piece) => piece.text@,
            Node::Group(group) => group.close@,
        }
    }
}

/// Words after which `(` opens a condition or an operand, not arguments.
pub open spec fn control_word(t: Seq<char>) -> bool {
    t == "if"@ || t == "while"@ || t == "catch"@ || t == "match"@ || t == "return"@
}

/// Words that make a following `{` a body.
pub open spec fn body_word(t: Seq<char>) -> bool {
    t == "fun"@ || t == "class"@ || t == "module"@ || t == "contract"@ || t == "if"@ || t
        == "else"@ || t == "while"@ || t == "for"@ || t == "match"@ || t == "try"@ || t
        == "catch"@ || t == "finally"@
}

/// A group that holds statements or accessors.
pub open spec fn block_group(node: Node) -> bool {
    node matches Node::Group(group) && (group.role == Role::Body || group.role == Role::Closure
        || group.role == Role::Accessors)
}

/// The last node at or before `k` that is not a line break; -1 for none.
pub open spec fn last_non_newline(before: Seq<Node>, k: int) -> int
    decreases k + 1,
{
    if k < 0 || k >= before.len() {
        -1
    } else if is_newline(before[k]) {
        last_non_newline(before, k - 1)
    } else {
        k
    }
}

/// `before[k]` belongs to the header of a `{` that follows `before`.
pub open spec fn in_header(before: Seq<Node>, k: int, accepts: spec_fn(Seq<char>) -> bool) -> bool {
    &&& !is_newline(before[k]) || spec_header_continues(before, k, accepts)
    &&& !(node_text(before[k]) == ";"@ || node_text(before[k]) == "{"@)
    &&& !block_group(before[k])
}

/// Where the header that ends at `k` starts: the header runs back over
/// nodes that belong to it.
pub open spec fn header_start(before: Seq<Node>, k: int, accepts: spec_fn(Seq<char>) -> bool) -> int
    decreases k + 1,
{
    if k < 0 || k >= before.len() {
        k + 1
    } else if in_header(before, k, accepts) {
        header_start(before, k - 1, accepts)
    } else {
        k + 1
    }
}

/// Some node in `lo..hi` has the text `word`.
pub open spec fn has_text(before: Seq<Node>, lo: int, hi: int, word: Seq<char>) -> bool {
    exists|k: int| lo <= k < hi && #[trigger] node_text(before[k]) == word
}

/// Some node in `lo..hi` has a body word.
pub open spec fn has_body_word(before: Seq<Node>, lo: int, hi: int) -> bool {
    exists|k: int| lo <= k < hi && body_word(#[trigger] node_text(before[k]))
}

/// The role of a `{` group after `before`: accessors when its header says
/// `property` but not `fun`, a body when the header has a body word, and a
/// closure otherwise.
pub open spec fn brace_role(before: Seq<Node>, accepts: spec_fn(Seq<char>) -> bool) -> Role {
    let top = last_non_newline(before, before.len() - 1);
    let lo = header_start(before, top, accepts);
    let hi = top + 1;
    if has_text(before, lo, hi, "property"@) && !has_text(before, lo, hi, "fun"@) {
        Role::Accessors
    } else if has_body_word(before, lo, hi) {
        Role::Body
    } else {
        Role::Closure
    }
}

/// The role of a group that opens with `open` after the nodes `before`.
pub open spec fn spec_role(
    open: Seq<char>,
    before: Seq<Node>,
    accepts: spec_fn(Seq<char>) -> bool,
) -> Role {
    let previous = last_close(before);
    if open == "["@ && spec_ends_expression(previous) {
        Role::Index
    } else if open == "%{"@ || open == "["@ {
        Role::List
    } else if open == "("@ && spec_ends_expression(previous) && !control_word(previous) {
        Role::List
    } else if open == "{"@ {
        brace_role(before, accepts)
    } else {
        Role::Parens
    }
}

fn is_body_word(t: &str) -> (result: bool)
    ensures
        result == body_word(t@),
{
    str_eq(t, "fun") || str_eq(t, "class") || str_eq(t, "module") || str_eq(t, "contract")
        || str_eq(t, "if") || str_eq(t, "else") || str_eq(t, "while") || str_eq(t, "for")
        || str_eq(t, "match") || str_eq(t, "try") || str_eq(t, "catch") || str_eq(t, "finally")
}

fn is_block_group(node: &Node) -> (result: bool)
    ensures
        result == block_group(*node),
{
    match node {
        Node::Group(group) => group.role == Role::Body || group.role == Role::Closure
            || group.role == Role::Accessors,
        Node::Token(_) => false,
    }
}

fn brace_role_of<F: Fn(&str) -> bool>(before: &[Node], accepts: &F) -> (result: Role)
    requires
        consistent(*accepts),
    ensures
        result == brace_role(before@, oracle(*accepts)),
{
    let n = before.len();
    let mut top = n;
    while top > 0
        invariant
            top <= n == before@.len(),
            last_non_newline(before@, n - 1) == last_non_newline(before@, top - 1),
        ensures
            top == 0 || !is_newline(before@[top - 1]),
            last_non_newline(before@, n - 1) == last_non_newline(before@, top - 1),
        decreases top,
    {
        if !before[top - 1].newline() {
            break;
        }
        top = top - 1;
    }
    assert(last_non_newline(before@, n - 1) == top - 1);
    let mut lo = top;
    while lo > 0
        invariant
            lo <= top <= n == before@.len(),
            consistent(*accepts),
            header_start(before@, top - 1, oracle(*accepts)) == header_start(
                before@,
                lo - 1,
                oracle(*accepts),
            ),
        ensures
            lo <= top,
            lo == 0 || !in_header(before@, lo - 1, oracle(*accepts)),
            header_start(before@, top - 1, oracle(*accepts)) == header_start(
                before@,
                lo - 1,
                oracle(*accepts),
            ),
        decreases lo,
    {
        let node = &before[lo - 1];
        let t = node.text();
        let belongs = (!node.newline() || header_continues(before, lo - 1, accepts)) && !(str_eq(
            t,
            ";",
        ) || str_eq(t, "{")) && !is_block_group(node);
        if !belongs {
            break;
        }
        lo = lo - 1;
    }
    let mut property = false;
    let mut fun = false;
    let mut body = false;
    let mut k = lo;
    while k < top
        invariant
            lo <= k <= top <= before@.len(),
            property == has_text(before@, lo as int, k as int, "property"@),
            fun == has_text(before@, lo as int, k as int, "fun"@),
            body == has_body_word(before@, lo as int, k as int),
        decreases top - k,
    {
        let t = before[k].text();
        property = property || str_eq(t, "property");
        fun = fun || str_eq(t, "fun");
        body = body || is_body_word(t);
        k = k + 1;
    }
    if property && !fun {
        Role::Accessors
    } else if body {
        Role::Body
    } else {
        Role::Closure
    }
}

fn last_close_of<'a>(before: &[Node<'a>]) -> (result: &'a str)
    ensures
        result@ == last_close(before@),
{
    let n = before.len();
    if n == 0 {
        proof {
            reveal_strlit("");
        }
        return "";
    }
    match &before[n - 1] {
        Node::Token(piece) => piece.text,
        Node::Group(group) => group.close,
    }
}

/// The role of a group that opens with `open` after the nodes `before`;
/// see [`spec_role`]. The parser is asked through `accepts`.
pub fn role<F: Fn(&str) -> bool>(open: &str, before: &[Node], accepts: &F) -> (result: Role)
    requires
        consistent(*accepts),
    ensures
        result == spec_role(open@, before@, oracle(*accepts)),
{
    let previous = last_close_of(before);
    if str_eq(open, "[") && ends_expression(previous) {
        Role::Index
    } else if str_eq(open, "%{") || str_eq(open, "[") {
        Role::List
    } else if str_eq(open, "(") && ends_expression(previous) && !(str_eq(previous, "if")
        || str_eq(previous, "while") || str_eq(previous, "catch") || str_eq(previous, "match")
        || str_eq(previous, "return")) {
        Role::List
    } else if str_eq(open, "{") {
        brace_role_of(before, accepts)
    } else {
        Role::Parens
    }
}

/// The closing text that a code piece opens a group for: `}` after `{` or
/// `%{`, `)` after `(`, `]` after `[`.
pub open spec fn opens_group(piece: Piece) -> Option<Seq<char>> {
    if piece.kind != Kind::Code {
        None
    } else if piece.text@ == "{"@ || piece.text@ == "%{"@ {
        Some("}"@)
    } else if piece.text@ == "("@ {
        Some(")"@)
    } else if piece.text@ == "["@ {
        Some("]"@)
    } else {
        None
    }
}

/// A code piece that closes a group.
pub open spec fn closes_group(piece: Piece) -> bool {
    piece.kind == Kind::Code && (piece.text@ == "}"@ || piece.text@ == ")"@ || piece.text@
        == "]"@)
}

/// A piece as the tree sees it: an opening, a closing, or a leaf.
pub enum Shape<'a> {
    Open(Seq<char>),
    Close(Seq<char>),
    Leaf(Piece<'a>),
}

pub open spec fn shape<'a>(piece: Piece<'a>) -> Shape<'a> {
    if opens_group(piece) is Some {
        Shape::Open(piece.text@)
    } else if closes_group(piece) {
        Shape::Close(piece.text@)
    } else {
        Shape::Leaf(piece)
    }
}

pub open spec fn shapes<'a>(pieces: Seq<Piece<'a>>) -> Seq<Shape<'a>> {
    pieces.map_values(|p: Piece<'a>| shape(p))
}

/// The pieces that `nodes[i..]` stand for, groups read as their opening,
/// their children and their closing.
pub open spec fn flat_from<'a>(nodes: Seq<Node<'a>>, i: int) -> Seq<Shape<'a>>
    decreases nodes, nodes.len() - i,
{
    if i < 0 || i >= nodes.len() {
        Seq::empty()
    } else {
        let rest = flat_from(nodes, i + 1);
        match nodes[i] {
            Node::Token(piece) => seq![Shape::Leaf(piece)] + rest,
            Node::Group(group) => {
                proof {
                    assert(decreases_to!(nodes => nodes[i]));
                }
                seq![Shape::Open(group.open@)] + flat_from(group.children@, 0) + seq![
                    Shape::Close(group.close@),
                ] + rest
            },
        }
    }
}

/// `nodes[i]` is a token, or a group whose closing text matches its
/// opening, whose role is the one its preceding siblings give it, and whose
/// children are well formed too.
pub open spec fn node_ok(nodes: Seq<Node>, i: int, accepts: spec_fn(Seq<char>) -> bool) -> bool
    decreases nodes, 0int,
{
    if i < 0 || i >= nodes.len() {
        true
    } else {
        match nodes[i] {
        Node::Token(_) => true,
        Node::Group(group) => {
            &&& opens_group(Piece { text: group.open, kind: Kind::Code, start: 0, end: 0 })
                == Some(group.close@)
            &&& group.role == spec_role(group.open@, nodes.subrange(0, i), accepts)
            &&& {
                proof {
                    assert(decreases_to!(nodes => nodes[i]));
                }
                wf_from(group.children@, 0, accepts)
            }
        },
        }
    }
}

/// Every node of `nodes[i..]` is well formed; see [`node_ok`].
pub open spec fn wf_from(nodes: Seq<Node>, i: int, accepts: spec_fn(Seq<char>) -> bool) -> bool
    decreases nodes, nodes.len() - i + 1,
{
    if i < 0 || i >= nodes.len() {
        true
    } else {
        node_ok(nodes, i, accepts) && wf_from(nodes, i + 1, accepts)
    }
}

/// Reading pieces from `i` on with the closing texts `stack` expected: the
/// first delimiter error, if any.
pub open spec fn delimiter_error(pieces: Seq<Piece>, i: int, stack: Seq<Seq<char>>) -> Option<
    SkipReason,
>
    decreases pieces.len() - i,
{
    if i < 0 || i >= pieces.len() {
        if stack.len() > 0 {
            Some(SkipReason::UnclosedDelimiter)
        } else {
            None
        }
    } else {
        let piece = pieces[i];
        match opens_group(piece) {
            Some(close) => if stack.len() >= NESTING_LIMIT {
                Some(SkipReason::NestingLimit)
            } else {
                delimiter_error(pieces, i + 1, stack.push(close))
            },
            None => if closes_group(piece) {
                if stack.len() == 0 || stack.last() != piece.text@ {
                    Some(SkipReason::MismatchedDelimiter)
                } else {
                    delimiter_error(pieces, i + 1, stack.drop_last())
                }
            } else {
                delimiter_error(pieces, i + 1, stack)
            },
        }
    }
}

pub proof fn lemma_flat_push<'a>(nodes: Seq<Node<'a>>, node: Node<'a>, i: int)
    requires
        0 <= i <= nodes.len(),
    ensures
        flat_from(nodes.push(node), i) == flat_from(nodes, i) + flat_from(seq![node], 0),
    decreases nodes.len() - i,
{
    let pushed = nodes.push(node);
    if i == nodes.len() {
        assert(flat_from(nodes, i) == Seq::<Shape>::empty());
        assert(flat_from(pushed, i + 1) == Seq::<Shape>::empty());
        assert(flat_from(seq![node], 1) == Seq::<Shape>::empty());
        assert(pushed[i] == seq![node][0]);
        assert(flat_from(pushed, i) =~= flat_from(seq![node], 0));
    } else {
        lemma_flat_push(nodes, node, i + 1);
        assert(pushed[i] == nodes[i]);
        assert(flat_from(pushed, i) =~= flat_from(nodes, i) + flat_from(seq![node], 0));
    }
}

pub proof fn lemma_wf_push(nodes: Seq<Node>, node: Node, i: int, accepts: spec_fn(Seq<char>) -> bool)
    requires
        0 <= i <= nodes.len(),
        wf_from(nodes, i, accepts),
        node_ok(nodes.push(node), nodes.len() as int, accepts),
    ensures
        wf_from(nodes.push(node), i, accepts),
    decreases nodes.len() - i,
{
    let pushed = nodes.push(node);
    if i < nodes.len() {
        lemma_wf_push(nodes, node, i + 1, accepts);
        assert(pushed[i] == nodes[i]);
        assert(pushed.subrange(0, i) =~= nodes.subrange(0, i));
        assert(node_ok(pushed, i, accepts) == node_ok(nodes, i, accepts));
    } else {
        assert(wf_from(pushed, i + 1, accepts));
    }
}

/// The shapes of the groups that are still open, outermost first.
pub open spec fn pending<'a>(stack: Seq<Group<'a>>) -> Seq<Shape<'a>>
    decreases stack.len(),
{
    if stack.len() == 0 {
        Seq::empty()
    } else {
        pending(stack.drop_last()) + seq![Shape::Open(stack.last().open@)] + flat_from(
            stack.last().children@,
            0,
        )
    }
}

/// The children that an open group at level `k` was opened after.
pub open spec fn parent_children<'a>(stack: Seq<Group<'a>>, root: Seq<Node<'a>>, k: int) -> Seq<Node<'a>> {
    if k == 0 {
        root
    } else {
        stack[k - 1].children@
    }
}

/// The open group at level `k` matches its opening, has the role its
/// preceding siblings give it, and has well-formed children.
pub open spec fn level_ok(
    stack: Seq<Group>,
    root: Seq<Node>,
    k: int,
    accepts: spec_fn(Seq<char>) -> bool,
) -> bool {
    &&& opens_group(Piece { text: stack[k].open, kind: Kind::Code, start: 0, end: 0 }) == Some(
        stack[k].close@,
    )
    &&& stack[k].role == spec_role(stack[k].open@, parent_children(stack, root, k), accepts)
    &&& wf_from(stack[k].children@, 0, accepts)
}

fn group_closer(piece: Piece) -> (result: Option<&'static str>)
    ensures
        match opens_group(piece) {
            Some(c) => result matches Some(r) && r@ == c,
            None => result is None,
        },
{
    proof {
        reveal_strlit("}");
        reveal_strlit(")");
        reveal_strlit("]");
    }
    if piece.kind != Kind::Code {
        None
    } else if str_eq(piece.text, "{") || str_eq(piece.text, "%{") {
        Some("}")
    } else if str_eq(piece.text, "(") {
        Some(")")
    } else if str_eq(piece.text, "[") {
        Some("]")
    } else {
        None
    }
}

fn is_group_closer(piece: Piece) -> (result: bool)
    ensures
        result == closes_group(piece),
{
    piece.kind == Kind::Code && (str_eq(piece.text, "}") || str_eq(piece.text, ")") || str_eq(
        piece.text,
        "]",
    ))
}

/// The closing texts the open groups expect, outermost first.
pub open spec fn expected_closers(stack: Seq<Group>) -> Seq<Seq<char>> {
    stack.map_values(|g: Group| g.close@)
}

/// Builds the tree of bracketed groups over `pieces`. The result flattens
/// back to exactly the pieces, and every group is well formed; a delimiter
/// that does not match, one left open, or nesting deeper than the limit is
/// refused. The parser is asked through `accepts`.
pub fn build<'a, F: Fn(&str) -> bool>(pieces: &[Piece<'a>], accepts: &F) -> (result: Result<
    Vec<Node<'a>>,
    SkipReason,
>)
    requires
        consistent(*accepts),
    ensures
        match delimiter_error(pieces@, 0, Seq::empty()) {
            Some(e) => result == Err::<Vec<Node<'a>>, SkipReason>(e),
            None => result matches Ok(nodes) && flat_from(nodes@, 0) == shapes(pieces@) && wf_from(
                nodes@,
                0,
                oracle(*accepts),
            ),
        },
{
    let ghost acc = oracle(*accepts);
    let n = pieces.len();
    let mut stack: Vec<Group<'a>> = Vec::new();
    let mut root: Vec<Node<'a>> = Vec::new();
    let mut i: usize = 0;
    assert(pending(stack@) =~= Seq::<Shape>::empty());
    assert(expected_closers(stack@) =~= Seq::<Seq<char>>::empty());
    while i < n
        invariant
            n == pieces@.len(),
            i <= n,
            consistent(*accepts),
            acc == oracle(*accepts),
            stack@.len() <= NESTING_LIMIT,
            delimiter_error(pieces@, 0, Seq::empty()) == delimiter_error(
                pieces@,
                i as int,
                expected_closers(stack@),
            ),
            flat_from(root@, 0) + pending(stack@) == shapes(pieces@.subrange(0, i as int)),
            wf_from(root@, 0, acc),
            forall|k: int| 0 <= k < stack@.len() ==> #[trigger] level_ok(stack@, root@, k, acc),
        decreases n - i,
    {
        let piece = pieces[i];
        let ghost before_shapes = shapes(pieces@.subrange(0, i as int));
        assert(shapes(pieces@.subrange(0, i + 1)) =~= before_shapes.push(shape(piece)));
        match group_closer(piece) {
            Some(close) => {
                let depth = stack.len();
                let role = if depth > 0 {
                    role(piece.text, stack[depth - 1].children.as_slice(), accepts)
                } else {
                    role(piece.text, root.as_slice(), accepts)
                };
                if depth == NESTING_LIMIT {
                    return Err(SkipReason::NestingLimit);
                }
                let ghost old_stack = stack@;
                stack.push(Group { open: piece.text, close, role, children: Vec::new() });
                proof {
                    assert(stack@.drop_last() == old_stack);
                    assert(flat_from(stack@.last().children@, 0) =~= Seq::<Shape>::empty());
                    assert(pending(stack@) =~= pending(old_stack) + seq![Shape::Open(piece.text@)]);
                    assert(expected_closers(stack@) =~= expected_closers(old_stack).push(close@));
                    assert forall|k: int| 0 <= k < stack@.len() implies #[trigger] level_ok(
                        stack@,
                        root@,
                        k,
                        acc,
                    ) by {
                        if k < old_stack.len() {
                            assert(stack@[k] == old_stack[k]);
                            assert(level_ok(old_stack, root@, k, acc));
                            if k > 0 {
                                assert(stack@[k - 1] == old_stack[k - 1]);
                            }
                        } else {
                            if k > 0 {
                                assert(stack@[k - 1] == old_stack[k - 1]);
                            }
                        }
                    }
                }
            },
            None => {
                if is_group_closer(piece) {
                    if stack.len() == 0 {
                        return Err(SkipReason::MismatchedDelimiter);
                    }
                    let ghost old_stack = stack@;
                    let group = stack.pop().unwrap();
                    assert(expected_closers(old_stack).last() == group.close@);
                    if !str_eq(group.close, piece.text) {
                        return Err(SkipReason::MismatchedDelimiter);
                    }
                    proof {
                        assert(expected_closers(stack@) =~= expected_closers(old_stack).drop_last());
                        assert(level_ok(old_stack, root@, old_stack.len() - 1, acc));
                    }
                    let ghost popped = stack@;
                    proof {
                        let m = old_stack.len() - 1;
                        let parent = parent_children(popped, root@, popped.len() as int);
                        assert(parent == parent_children(old_stack, root@, m)) by {
                            if m > 0 {
                                assert(popped[m - 1] == old_stack[m - 1]);
                            }
                        }
                        assert(parent.push(Node::Group(group)).subrange(0, parent.len() as int)
                            =~= parent);
                        assert(parent.push(Node::Group(group))[parent.len() as int] == Node::Group(
                            group,
                        ));
                        assert forall|k: int| 0 <= k < popped.len() implies #[trigger] level_ok(
                            popped,
                            root@,
                            k,
                            acc,
                        ) by {
                            assert(popped[k] == old_stack[k]);
                            assert(level_ok(old_stack, root@, k, acc));
                            if k > 0 {
                                assert(popped[k - 1] == old_stack[k - 1]);
                            }
                        }
                    }
                    add_child(&mut stack, &mut root, Node::Group(group), Ghost(acc));
                    proof {
                        assert(pending(old_stack) == pending(popped) + seq![Shape::Open(group.open@)]
                            + flat_from(group.children@, 0));
                        let one = seq![Node::Group(group)];
                        assert(flat_from(one, 1) =~= Seq::<Shape>::empty());
                        assert(flat_from(one, 0) =~= seq![Shape::Open(group.open@)] + flat_from(
                            group.children@,
                            0,
                        ) + seq![Shape::Close(group.close@)]);
                        assert(shape(piece) == Shape::Close(piece.text@));
                    }
                } else {
                    proof {
                        let parent = parent_children(stack@, root@, stack@.len() as int);
                        assert(parent.push(Node::Token(piece))[parent.len() as int] == Node::Token(
                            piece,
                        ));
                    }
                    add_child(&mut stack, &mut root, Node::Token(piece), Ghost(acc));
                    proof {
                        let one = seq![Node::Token(piece)];
                        assert(flat_from(one, 1) =~= Seq::<Shape>::empty());
                        assert(flat_from(one, 0) =~= seq![Shape::Leaf(piece)]);
                    }
                }
            },
        }
        i = i + 1;
    }
    if stack.len() > 0 {
        return Err(SkipReason::UnclosedDelimiter);
    }
    assert(pending(stack@) =~= Seq::<Shape>::empty());
    assert(pieces@.subrange(0, n as int) =~= pieces@);
    assert(flat_from(root@, 0) =~= shapes(pieces@));
    Ok(root)
}

/// Adds a finished node to the innermost open group, or to the top level.
fn add_child<'a>(
    stack: &mut Vec<Group<'a>>,
    root: &mut Vec<Node<'a>>,
    node: Node<'a>,
    Ghost(acc): Ghost<spec_fn(Seq<char>) -> bool>,
)
    requires
        wf_from(old(root)@, 0, acc),
        forall|k: int| 0 <= k < old(stack)@.len() ==> #[trigger] level_ok(old(stack)@, old(root)@, k, acc),
        node_ok(
            parent_children(old(stack)@, old(root)@, old(stack)@.len() as int).push(node),
            parent_children(old(stack)@, old(root)@, old(stack)@.len() as int).len() as int,
            acc,
        ),
    ensures
        final(stack)@.len() == old(stack)@.len(),
        expected_closers(final(stack)@) == expected_closers(old(stack)@),
        flat_from(final(root)@, 0) + pending(final(stack)@) == flat_from(old(root)@, 0) + pending(
            old(stack)@,
        ) + flat_from(seq![node], 0),
        wf_from(final(root)@, 0, acc),
        forall|k: int| 0 <= k < final(stack)@.len() ==> #[trigger] level_ok(final(stack)@, final(root)@, k, acc),
{
    let ghost old_root = root@;
    let ghost old_stack = stack@;
    if stack.len() > 0 {
        let mut top = stack.pop().unwrap();
        let ghost old_children = top.children@;
        let ghost m = old_stack.len() - 1;
        proof {
            assert(level_ok(old_stack, old_root, m, acc));
            lemma_flat_push(old_children, node, 0);
            lemma_wf_push(old_children, node, 0, acc);
        }
        top.children.push(node);
        stack.push(top);
        proof {
            assert(stack@.drop_last() == old_stack.drop_last());
            assert(pending(stack@) == pending(old_stack.drop_last()) + seq![Shape::Open(top.open@)]
                + flat_from(top.children@, 0));
            assert(pending(stack@) =~= pending(old_stack) + flat_from(seq![node], 0));
            assert(expected_closers(stack@) =~= expected_closers(old_stack));
            assert forall|k: int| 0 <= k < stack@.len() implies #[trigger] level_ok(
                stack@,
                root@,
                k,
                acc,
            ) by {
                assert(level_ok(old_stack, old_root, k, acc));
                if k > 0 {
                    assert(stack@[k - 1] == old_stack[k - 1]);
                }
            }
        }
    } else {
        proof {
            lemma_flat_push(old_root, node, 0);
            lemma_wf_push(old_root, node, 0, acc);
        }
        root.push(node);
        proof {
            assert(pending(stack@) =~= Seq::<Shape>::empty());
        }
    }
}

} // verus!
