//! Reading one line of an edge list: a pattern takes the line apart, and
//! the nodes get their ids as their names come up.

use crate::NodeId;
use regex::Regex;
use std::collections::HashMap;
use vstd::prelude::*;
use vstd::std_specs::hash::obeys_key_model;

verus! {

/// The compiled pattern of the regex crate; nothing is known of what it holds.
#[verifier::external_type_specification]
#[verifier::external_body]
pub struct ExRegex(Regex);

/// The error with which the regex crate refuses a pattern.
#[verifier::external_type_specification]
#[verifier::external_body]
pub struct ExRegexError(regex::Error);

/// Whether `pattern` is a regular expression that the regex crate compiles.
pub uninterp spec fn compiles(pattern: Seq<char>) -> bool;

/// What the group named `group` holds in the first match of `pattern` in
/// `line`; nothing if the pattern does not match the line, has no group of
/// that name, or matches without that group taking part.
pub uninterp spec fn captured(pattern: Seq<char>, line: Seq<char>, group: Seq<char>) -> Option<
    Seq<char>,
>;

/// A compiled pattern for the lines of an edge list, together with its text.
pub struct LinePattern {
    text: String,
    regex: Regex,
}

/// The pattern is not a regular expression, or one too large to compile.
#[derive(Clone, Copy, Debug, PartialEq, Eq, Structural)]
pub enum PatternError {
    Invalid,
}

/// The nodes of a line as ids, and the cost and the capacity as the line
/// gives them, where it gives them.
#[derive(Debug)]
pub struct ParsedLine {
    pub from: NodeId,
    pub to: NodeId,
    pub cost: Option<String>,
    pub cap: Option<String>,
}

impl LinePattern {
    /// The text that the pattern was compiled from.
    pub closed spec fn text(&self) -> Seq<char> {
        self.text@
    }
}

/// The name of the group that holds the cost of an arc.
pub open spec fn cost_group() -> Seq<char> {
    "cost"@
}

/// The name of the group that holds the capacity of an arc.
pub open spec fn cap_group() -> Seq<char> {
    "cap"@
}

/// `found` is the text `wanted`, or both are missing.
pub open spec fn same_text(found: Option<String>, wanted: Option<Seq<char>>) -> bool {
    match found {
        Some(text) => wanted == Some(text@),
        None => wanted.is_none(),
    }
}

/// Calls `Regex::new` of the regex crate. The contract claims that whether
/// the call succeeds depends on the pattern alone: it fails on a pattern
/// that is not valid, or whose program exceeds the crate's size limit.
#[verifier::external_body]
fn compile(pattern: &str) -> (r: Result<Regex, regex::Error>)
    ensures
        r.is_ok() == compiles(pattern@),
{
    Regex::new(pattern)
}

/// Calls `Regex::captures` of the regex crate on the line, and
/// `Captures::name` on what it finds. The contract claims that the text
/// handed back is that of the named group in the first match of the
/// pattern, and depends on pattern, line and name alone; it holds of a
/// `LinePattern` that `parse_pattern` made, whose text is the one that its
/// regex was compiled from.
#[verifier::external_body]
fn capture(pattern: &LinePattern, line: &str, group: &str) -> (r: Option<String>)
    ensures
        same_text(r, captured(pattern.text(), line@, group@)),
{
    match pattern.regex.captures(line) {
        Some(groups) => match groups.name(group) {
            Some(found) => Some(found.as_str().to_string()),
            None => None,
        },
        None => None,
    }
}

/// Compiles the pattern by which the lines of an edge list are taken apart.
pub fn parse_pattern(p: &str) -> (r: Result<LinePattern, PatternError>)
    ensures
        r.is_ok() == compiles(p@),
        r.is_ok() ==> r.unwrap().text() == p@,
{
    match compile(p) {
        Ok(regex) => Ok(LinePattern { text: p.to_owned(), regex }),
        Err(_) => Err(PatternError::Invalid),
    }
}

/// Hands out the next free node id and moves the counter on.
pub fn inc_node_counter(next_node: &mut NodeId) -> (id: NodeId)
    requires
        *old(next_node) < u32::MAX,
    ensures
        id == *old(next_node),
        *final(next_node) == *old(next_node) + 1,
{
    *next_node += 1;
    *next_node - 1
}

/// Gives a node its id: the one under which its name is known already, or,
/// for a name seen for the first time, the next free one. Ids come out
/// dense, in the order in which the names are first seen.
pub fn assign_node_id(known: Option<NodeId>, next_node: &mut NodeId) -> (id: NodeId)
    requires
        known.is_none() ==> *old(next_node) < u32::MAX,
    ensures
        match known {
            Some(seen) => id == seen && *final(next_node) == *old(next_node),
            None => id == *old(next_node) && *final(next_node) == *old(next_node) + 1,
        },
{
    match known {
        Some(seen) => seen,
        None => inc_node_counter(next_node),
    }
}

/// What looking `name` up among the names seen so far and entering it does:
/// a name that `before` holds keeps its id, and map and counter stay as they
/// are; a new name gets the counter's value `next` as id, the map holds it
/// from then on, and the counter moves on by one.
pub open spec fn entered(
    before: Map<String, NodeId>,
    name: String,
    next: NodeId,
    id: NodeId,
    after: Map<String, NodeId>,
    next_after: NodeId,
) -> bool {
    if before.contains_key(name) {
        id == before[name] && after == before && next_after == next
    } else {
        id == next && after == before.insert(name, id) && next_after == next + 1
    }
}

/// Looks the name up among the names seen so far, and enters it with the
/// next free id if it is new. Whatever the map answers, the counter stays or
/// moves on by one; what the map answers is known where its keys behave as
/// the keys of a hash table should, which is not proved of `String`.
fn node_id(name: String, node_to_id: &mut HashMap<String, NodeId>, next_node: &mut NodeId) -> (id:
    NodeId)
    requires
        *old(next_node) < u32::MAX,
    ensures
        *final(next_node) == *old(next_node) || (id == *old(next_node) && *final(next_node) == *old(
            next_node,
        ) + 1),
        obeys_key_model::<String>() ==> entered(
            old(node_to_id)@,
            name,
            *old(next_node),
            id,
            final(node_to_id)@,
            *final(next_node),
        ),
{
    broadcast use vstd::std_specs::hash::group_hash_axioms;

    let known = match node_to_id.get(&name) {
        Some(id) => Some(*id),
        None => None,
    };
    let id = assign_node_id(known, next_node);
    if known.is_none() {
        node_to_id.insert(name, id);
    }
    id
}

/// The text of a group, and the empty text where the line has none.
fn text_or_empty(found: Option<String>) -> (text: String)
    ensures
        text@ == match found {
            Some(given) => given@,
            None => Seq::<char>::empty(),
        },
{
    match found {
        Some(given) => given,
        None => String::new(),
    }
}

/// The ids of a line's two nodes are in keeping with the counter: a node
/// whose name is new has the counter's value as id, the source before the
/// target, and the counter moves on by one for each new name.
pub open spec fn ids_in_keeping(before: NodeId, from: NodeId, to: NodeId, after: NodeId) -> bool {
    ||| after == before
    ||| after == before + 1 && (from == before || to == before)
    ||| after == before + 2 && from == before && to == before + 1
}

/// Takes one line of an edge list apart: the groups `from` and `to` of the
/// pattern name the two nodes, which get their ids from `node_to_id`, new
/// names the next free ones; the groups `cost` and `cap` are handed back as
/// the line gives them. A line that the pattern does not match names the
/// node with the empty name twice.
pub fn parse_line(
    line: &str,
    regex: &LinePattern,
    node_to_id: &mut HashMap<String, NodeId>,
    next_node: &mut NodeId,
) -> (edge: ParsedLine)
    requires
        *old(next_node) < u32::MAX - 1,
    ensures
        same_text(edge.cost, captured(regex.text(), line@, cost_group())),
        same_text(edge.cap, captured(regex.text(), line@, cap_group())),
        ids_in_keeping(*old(next_node), edge.from, edge.to, *final(next_node)),
{
    let from_s = text_or_empty(capture(regex, line, "from"));
    let to_s = text_or_empty(capture(regex, line, "to"));
    let cost = capture(regex, line, "cost");
    let cap = capture(regex, line, "cap");
    let from = node_id(from_s, node_to_id, next_node);
    let to = node_id(to_s, node_to_id, next_node);
    ParsedLine { from, to, cost, cap }
}

} // verus!
