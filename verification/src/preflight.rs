use vstd::prelude::*;

use crate::options::SkipReason;
use crate::text::str_eq;
use crate::tree::{is_comment, is_newline, node_text, significant_after, Node, Role};

verus! {

/// The first node at or after `k` whose text is `t`.
pub open spec fn text_after(nodes: Seq<Node>, k: int, t: Seq<char>) -> Option<int>
    decreases nodes.len() - k,
{
    if k < 0 || k >= nodes.len() {
        None
    } else if node_text(nodes[k]) == t {
        Some(k)
    } else {
        text_after(nodes, k + 1, t)
    }
}

/// A line break or a `;`.
pub open spec fn terminates(node: Node) -> bool {
    is_newline(node) || node_text(node) == ";"@
}

/// The first line break or `;` at or after `k`.
pub open spec fn terminator_after(nodes: Seq<Node>, k: int) -> Option<int>
    decreases nodes.len() - k,
{
    if k < 0 || k >= nodes.len() {
        None
    } else if terminates(nodes[k]) {
        Some(k)
    } else {
        terminator_after(nodes, k + 1)
    }
}

/// The first node at or after `k` that is not a comment.
pub open spec fn non_comment_after(nodes: Seq<Node>, k: int) -> Option<int>
    decreases nodes.len() - k,
{
    if k < 0 || k >= nodes.len() {
        None
    } else if !is_comment(nodes[k]) {
        Some(k)
    } else {
        non_comment_after(nodes, k + 1)
    }
}

/// Where the parameter header of a closure body ends, if the body has one.
/// A header is `||` or `|...|` as the first significant node; it must be
/// followed by `->` and a return type up to a line break or `;`, or else
/// (past comments) directly by a line break or `;`. The position of that
/// line break or `;` is returned; a header that does not end so is refused.
pub open spec fn spec_closure_header(nodes: Seq<Node>) -> Result<Option<int>, SkipReason> {
    match significant_after(nodes, 0) {
        None => Ok(None),
        Some(start) => {
            let first = node_text(nodes[start]);
            let close = if first == "||"@ {
                Some(start)
            } else if first == "|"@ {
                text_after(nodes, start + 1, "|"@)
            } else {
                None
            };
            if first != "||"@ && first != "|"@ {
                Ok(None)
            } else {
                match close {
                    None => Err(SkipReason::ParseDiagnostics),
                    Some(close) => {
                        let after = close + 1;
                        if after < nodes.len() && node_text(nodes[after]) == "-"@ {
                            match terminator_after(nodes, after) {
                                Some(t) => Ok(Some(t)),
                                None => Err(SkipReason::ParseDiagnostics),
                            }
                        } else {
                            match non_comment_after(nodes, after) {
                                Some(next) => if terminates(nodes[next]) {
                                    Ok(Some(next))
                                } else {
                                    Err(SkipReason::ParseDiagnostics)
                                },
                                None => Err(SkipReason::ParseDiagnostics),
                            }
                        }
                    },
                }
            }
        },
    }
}

fn find_text(nodes: &[Node], k: usize, t: &str) -> (result: Option<usize>)
    ensures
        match text_after(nodes@, k as int, t@) {
            Some(p) => result == Some(p as usize) && k <= p < nodes@.len(),
            None => result is None,
        },
{
    let n = nodes.len();
    let mut j = k;
    while j < n
        invariant
            n == nodes@.len(),
            k <= j,
            text_after(nodes@, k as int, t@) == text_after(nodes@, j as int, t@),
        decreases n - j,
    {
        if str_eq(nodes[j].text(), t) {
            return Some(j);
        }
        j = j + 1;
    }
    None
}

fn find_terminator(nodes: &[Node], k: usize) -> (result: Option<usize>)
    ensures
        match terminator_after(nodes@, k as int) {
            Some(p) => result == Some(p as usize) && k <= p < nodes@.len(),
            None => result is None,
        },
{
    let n = nodes.len();
    let mut j = k;
    while j < n
        invariant
            n == nodes@.len(),
            k <= j,
            terminator_after(nodes@, k as int) == terminator_after(nodes@, j as int),
        decreases n - j,
    {
        if nodes[j].newline() || str_eq(nodes[j].text(), ";") {
            return Some(j);
        }
        j = j + 1;
    }
    None
}

fn find_non_comment(nodes: &[Node], k: usize) -> (result: Option<usize>)
    ensures
        match non_comment_after(nodes@, k as int) {
            Some(p) => result == Some(p as usize) && k <= p < nodes@.len(),
            None => result is None,
        },
{
    let n = nodes.len();
    let mut j = k;
    while j < n
        invariant
            n == nodes@.len(),
            k <= j,
            non_comment_after(nodes@, k as int) == non_comment_after(nodes@, j as int),
        decreases n - j,
    {
        if !nodes[j].comment() {
            return Some(j);
        }
        j = j + 1;
    }
    None
}

fn find_significant(nodes: &[Node]) -> (result: Option<usize>)
    ensures
        match significant_after(nodes@, 0) {
            Some(p) => result == Some(p as usize) && 0 <= p < nodes@.len(),
            None => result is None,
        },
{
    let n = nodes.len();
    let mut j: usize = 0;
    while j < n
        invariant
            n == nodes@.len(),
            significant_after(nodes@, 0) == significant_after(nodes@, j as int),
        decreases n - j,
    {
        if !nodes[j].newline() && !nodes[j].comment() {
            return Some(j);
        }
        j = j + 1;
    }
    None
}

/// Where the parameter header of a closure body ends; see
/// [`spec_closure_header`].
pub fn closure_header(nodes: &[Node]) -> (result: Result<Option<usize>, SkipReason>)
    ensures
        match spec_closure_header(nodes@) {
            Ok(None) => result == Ok::<Option<usize>, SkipReason>(None),
            Ok(Some(p)) => result == Ok::<Option<usize>, SkipReason>(Some(p as usize)),
            Err(e) => result == Err::<Option<usize>, SkipReason>(e),
        },
{
    let start = match find_significant(nodes) {
        Some(start) => start,
        None => return Ok(None),
    };
    let first = nodes[start].text();
    let close = if str_eq(first, "||") {
        start
    } else if str_eq(first, "|") {
        match find_text(nodes, start + 1, "|") {
            Some(close) => close,
            None => return Err(SkipReason::ParseDiagnostics),
        }
    } else {
        return Ok(None);
    };
    let after = close + 1;
    if after < nodes.len() && str_eq(nodes[after].text(), "-") {
        match find_terminator(nodes, after) {
            Some(t) => Ok(Some(t)),
            None => Err(SkipReason::ParseDiagnostics),
        }
    } else {
        match find_non_comment(nodes, after) {
            Some(next) => if nodes[next].newline() || str_eq(nodes[next].text(), ";") {
                Ok(Some(next))
            } else {
                Err(SkipReason::ParseDiagnostics)
            },
            None => Err(SkipReason::ParseDiagnostics),
        }
    }
}

/// The first refusal met when checking, in order, every closure body in
/// `nodes[i..]` and below for a well-formed parameter header.
pub open spec fn syntax_from(nodes: Seq<Node>, i: int) -> Result<(), SkipReason>
    decreases nodes, nodes.len() - i,
{
    if i < 0 || i >= nodes.len() {
        Ok(())
    } else {
        match nodes[i] {
            Node::Token(_) => syntax_from(nodes, i + 1),
            Node::Group(group) => {
                proof {
                    assert(decreases_to!(nodes => nodes[i]));
                }
                let header = if group.role == Role::Closure {
                    match spec_closure_header(group.children@) {
                        Err(e) => Err(e),
                        Ok(_) => Ok(()),
                    }
                } else {
                    Ok(())
                };
                match header {
                    Err(e) => Err(e),
                    Ok(_) => match syntax_from(group.children@, 0) {
                        Err(e) => Err(e),
                        Ok(_) => syntax_from(nodes, i + 1),
                    },
                }
            },
        }
    }
}

/// Checks every closure body in the tree for a well-formed parameter
/// header; see [`syntax_from`].
pub fn syntax(nodes: &[Node]) -> (result: Result<(), SkipReason>)
    ensures
        result == syntax_from(nodes@, 0),
    decreases nodes@,
{
    let n = nodes.len();
    let mut i: usize = 0;
    while i < n
        invariant
            n == nodes@.len(),
            i <= n,
            syntax_from(nodes@, 0) == syntax_from(nodes@, i as int),
        decreases n - i,
    {
        if let Node::Group(group) = &nodes[i] {
            if group.role == Role::Closure {
                if let Err(e) = closure_header(group.children.as_slice()) {
                    return Err(e);
                }
            }
            proof {
                assert(decreases_to!(nodes@ => nodes@[i as int]));
            }
            if let Err(e) = syntax(group.children.as_slice()) {
                return Err(e);
            }
        }
        i = i + 1;
    }
    Ok(())
}

} // verus!
