//! Choosing an algorithm, and putting its result into rows of node names.

use crate::{Cost, NodeId};
use std::collections::HashMap;
use vstd::prelude::*;

verus! {

broadcast use vstd::std_specs::hash::group_hash_axioms;

/// The algorithms that a caller can ask for.
#[allow(non_camel_case_types)]
#[derive(Clone, Copy, Debug, PartialEq, Eq, Structural)]
pub enum Algorithm {
    dijkstra,
    pagerank,
}

/// At most this many rows of a result are shown.
pub const MAX_ROWS: usize = 100;

/// The name under which node `i` is shown: its own, or `NONE` for an id that
/// has no name, as the invalid id has none.
pub open spec fn node_name(i: NodeId, id_to_node: Map<NodeId, String>) -> Seq<char> {
    if id_to_node.contains_key(i) {
        id_to_node[i]@
    } else {
        "NONE"@
    }
}

/// Returns the name of node `i`, and `NONE` for an id without a name.
pub fn get_node_name(i: &NodeId, id_to_node: &HashMap<NodeId, String>) -> (name: String)
    ensures
        name@ == node_name(*i, id_to_node@),
{
    match id_to_node.get(i) {
        Some(name) => name.clone(),
        None => "NONE".to_owned(),
    }
}

/// One row of a shortest-path result.
pub struct PathRow {
    /// Name of the predecessor on the shortest path.
    pub from_node: String,
    /// Name of the node that the row is about.
    pub to_node: String,
    /// Cost of the shortest path to the node.
    pub cost: Cost,
}

/// Puts a shortest-path result into rows, one for each node in the order of
/// the ids, the first `MAX_ROWS` of them: the name of the predecessor, the
/// name of the node and the cost of the path.
pub fn dijkstra_rows(
    pred: &Vec<NodeId>,
    cost: &Vec<Cost>,
    id_to_node: &HashMap<NodeId, String>,
) -> (rows: Vec<PathRow>)
    requires
        pred.len() == cost.len(),
        pred.len() <= u32::MAX,
    ensures
        rows.len() == if pred.len() < MAX_ROWS {
            pred.len()
        } else {
            MAX_ROWS
        },
        forall|i: int|
            0 <= i < rows.len() ==> (#[trigger] rows[i]).from_node@ == node_name(
                pred[i],
                id_to_node@,
            ) && rows[i].to_node@ == node_name(i as NodeId, id_to_node@) && rows[i].cost == cost[i],
{
    let shown = if pred.len() < MAX_ROWS {
        pred.len()
    } else {
        MAX_ROWS
    };
    let mut rows: Vec<PathRow> = Vec::with_capacity(shown);
    let mut i: usize = 0;
    while i < shown
        invariant
            i <= shown,
            shown <= pred.len(),
            pred.len() == cost.len(),
            pred.len() <= u32::MAX,
            rows.len() == i,
            forall|l: int|
                0 <= l < i ==> (#[trigger] rows[l]).from_node@ == node_name(pred[l], id_to_node@)
                    && rows[l].to_node@ == node_name(l as NodeId, id_to_node@) && rows[l].cost
                    == cost[l],
        decreases shown - i,
    {
        let to_id = i as NodeId;
        let from_node = get_node_name(&pred[i], id_to_node);
        let to_node = get_node_name(&to_id, id_to_node);
        rows.push(PathRow { from_node, to_node, cost: cost[i] });
        i += 1;
    }
    rows
}

} // verus!
