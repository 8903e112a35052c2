//! The part of rank propagation that reads the network: who passes rank on
//! to whom.

use crate::{Network, NodeId};
use vstd::prelude::*;

verus! {

/// The neighbours of node `i` as positions in a list of ranks.
pub open spec fn targets<N: Network>(net: &N, i: NodeId) -> Seq<usize> {
    Seq::new(net.successors(i).len(), |k: int| net.successors(i)[k] as usize)
}

/// Converts the network into an adjacency list that is faster to walk: for
/// each node the nodes that it passes rank on to, one entry for each arc.
pub fn build_adj_list<N: Network>(network: &N) -> (adj_list: Vec<Vec<usize>>)
    ensures
        adj_list.len() == network.node_count(),
        forall|i: int|
            0 <= i < adj_list.len() ==> (#[trigger] adj_list[i])@ == targets(network, i as NodeId),
        forall|i: int, k: int|
            0 <= i < adj_list.len() && 0 <= k < adj_list[i].len() ==> (#[trigger] adj_list[i][k])
                < network.node_count(),
{
    let n = network.num_nodes();
    let mut adj_list: Vec<Vec<usize>> = Vec::with_capacity(n);
    let mut i: usize = 0;
    while i < n
        invariant
            i <= n,
            n == network.node_count(),
            n <= u32::MAX,
            adj_list.len() == i,
            forall|l: int|
                0 <= l < i ==> (#[trigger] adj_list[l])@ == targets(network, l as NodeId),
            forall|l: int, k: int|
                0 <= l < i && 0 <= k < adj_list[l].len() ==> (#[trigger] adj_list[l][k]) < n,
        decreases n - i,
    {
        let adj_nodes = network.adjacent(i as NodeId);
        let mut i_th_adj_nodes: Vec<usize> = Vec::with_capacity(adj_nodes.len());
        let mut k: usize = 0;
        while k < adj_nodes.len()
            invariant
                k <= adj_nodes.len(),
                i_th_adj_nodes.len() == k,
                forall|l: int| 0 <= l < adj_nodes.len() ==> adj_nodes[l] < n,
                forall|l: int| 0 <= l < k ==> i_th_adj_nodes[l] == adj_nodes[l] as usize,
            decreases adj_nodes.len() - k,
        {
            i_th_adj_nodes.push(adj_nodes[k] as usize);
            k += 1;
        }
        proof {
            assert(i_th_adj_nodes@ =~= targets(network, i as NodeId));
        }
        adj_list.push(i_th_adj_nodes);
        i += 1;
    }
    adj_list
}

/// The number of arcs that leave each node. A node without arcs passes no
/// rank on.
pub fn out_degrees<N: Network>(network: &N) -> (degrees: Vec<usize>)
    ensures
        degrees.len() == network.node_count(),
        forall|i: int|
            0 <= i < degrees.len() ==> #[trigger] degrees[i] == network.successors(
                i as NodeId,
            ).len(),
{
    let n = network.num_nodes();
    let mut degrees: Vec<usize> = Vec::with_capacity(n);
    let mut i: usize = 0;
    while i < n
        invariant
            i <= n,
            n == network.node_count(),
            n <= u32::MAX,
            degrees.len() == i,
            forall|l: int|
                0 <= l < i ==> #[trigger] degrees[l] == network.successors(l as NodeId).len(),
        decreases n - i,
    {
        let out_deg = network.adjacent(i as NodeId).len();
        degrees.push(out_deg);
        i += 1;
    }
    degrees
}

} // verus!
