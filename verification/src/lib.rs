//! Algorithms on small directed networks whose arcs carry a cost and a
//! capacity: a compact adjacency representation, breadth-first and depth-first
//! search, and Dijkstra's shortest paths over an array or a binary heap.
//!
//! Costs and capacities are unsigned integers, so that every statement about
//! them can be proved.

use vstd::prelude::*;

pub mod alg_runner;
pub mod algorithms;
pub mod collections;
pub mod compact_star;
pub mod grouping;
pub mod heaps;
pub mod parse_text;

verus! {

/// Dense identifier of a node: a network of `n` nodes uses `0..n`, and `n`
/// itself stands for "no node".
pub type NodeId = u32;

/// Cost (length) of an arc.
pub type Cost = u64;

/// Capacity of an arc.
pub type Capacity = u64;

pub type NodeVec = Vec<NodeId>;

pub type CostVec = Vec<Cost>;

/// A directed network of nodes `0..n` whose arcs carry a cost and a capacity.
///
/// The algorithms of this crate read a network through this interface only.
/// What each query returns is fixed by the spec functions; the queries also
/// promise what the algorithms rely on: that every neighbour is a node, and
/// that an arc to each neighbour can be looked up.
pub trait Network {
    /// Number of nodes; it doubles as the id that stands for "no node".
    spec fn node_count(&self) -> nat;

    /// Number of arcs.
    spec fn arc_count(&self) -> nat;

    /// The heads of the arcs that leave `i`, in the order in which the arcs
    /// are stored; parallel arcs give the same head more than once.
    spec fn successors(&self, i: NodeId) -> Seq<NodeId>;

    /// Cost of the first stored arc from `from` to `to`.
    spec fn arc_cost(&self, from: NodeId, to: NodeId) -> Option<Cost>;

    /// Capacity of the first stored arc from `from` to `to`.
    spec fn arc_capacity(&self, from: NodeId, to: NodeId) -> Option<Capacity>;

    /// A finite cost that stands for "unreachable".
    spec fn cost_bound(&self) -> Cost;

    /// Returns the nodes adjacent to `i`, identified by their id.
    fn adjacent(&self, i: NodeId) -> (adj: Vec<NodeId>)
        ensures
            adj@ == self.successors(i),
            forall|k: int| 0 <= k < adj.len() ==> adj[k] < self.node_count(),
            i >= self.node_count() ==> adj.len() == 0,
    ;

    fn cost(&self, from: NodeId, to: NodeId) -> (c: Option<Cost>)
        ensures
            c == self.arc_cost(from, to),
            c.is_some() == self.successors(from).contains(to),
    ;

    fn capacity(&self, from: NodeId, to: NodeId) -> (c: Option<Capacity>)
        ensures
            c == self.arc_capacity(from, to),
            c.is_some() == self.successors(from).contains(to),
    ;

    fn num_nodes(&self) -> (n: usize)
        ensures
            n == self.node_count(),
            n <= u32::MAX,
    ;

    fn num_arcs(&self) -> (m: usize)
        ensures
            m == self.arc_count(),
    ;

    /// Returns the id that no node has, used as default and stop value.
    fn invalid_id(&self) -> (id: NodeId)
        ensures
            id == self.node_count(),
    ;

    fn infinity(&self) -> (c: Cost)
        ensures
            c == self.cost_bound(),
    ;
}

/// A list of `n` copies of `value`.
pub(crate) fn filled<T: Copy>(value: T, n: usize) -> (v: Vec<T>)
    ensures
        v@ == Seq::new(n as nat, |i: int| value),
{
    let mut v: Vec<T> = Vec::with_capacity(n);
    let mut i: usize = 0;
    while i < n
        invariant
            i <= n,
            v.len() == i,
            forall|l: int| 0 <= l < i ==> v[l] == value,
        decreases n - i,
    {
        v.push(value);
        i += 1;
    }
    assert(v@ =~= Seq::new(n as nat, |i: int| value));
    v
}

} // verus!
