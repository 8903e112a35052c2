//! Walks through a network, and what can be reached along them.

use crate::{Network, NodeId};
use vstd::prelude::*;

verus! {

/// `p` is a walk: a list of at least one node, each joined to the next by
/// an arc of the network.
pub open spec fn is_walk<N: Network>(net: &N, p: Seq<NodeId>) -> bool {
    &&& p.len() >= 1
    &&& forall|k: int| 0 <= k < p.len() ==> #[trigger] p[k] < net.node_count()
    &&& forall|k: int|
        0 <= k < p.len() - 1 ==> (#[trigger] net.successors(p[k])).contains(p[k + 1])
}

/// `p` is a walk that begins at `from` and ends at `to`.
pub open spec fn walk_between<N: Network>(net: &N, p: Seq<NodeId>, from: NodeId, to: NodeId) -> bool {
    is_walk(net, p) && p[0] == from && p[p.len() - 1] == to
}

/// Some walk leads from `from` to `to`.
pub open spec fn reachable<N: Network>(net: &N, from: NodeId, to: NodeId) -> bool {
    exists|p: Seq<NodeId>| walk_between(net, p, from, to)
}

/// The nodes marked in `marks` include, with each node, all its neighbours.
pub open spec fn closed_under_arcs<N: Network>(net: &N, marks: Seq<bool>) -> bool {
    forall|u: NodeId, w: NodeId|
        u < net.node_count() && marks[u as int] && w < net.node_count() && (
        #[trigger] net.successors(u).contains(w)) ==> marks[w as int]
}

/// A node alone is a walk.
pub proof fn lemma_walk_single<N: Network>(net: &N, v: NodeId)
    requires
        v < net.node_count(),
    ensures
        walk_between(net, seq![v], v, v),
        reachable(net, v, v),
{
    assert(walk_between(net, seq![v], v, v));
}

/// A walk goes on along any arc that leaves its last node.
pub proof fn lemma_walk_extend<N: Network>(net: &N, p: Seq<NodeId>, from: NodeId, to: NodeId, next: NodeId)
    requires
        walk_between(net, p, from, to),
        next < net.node_count(),
        net.successors(to).contains(next),
    ensures
        walk_between(net, p.push(next), from, next),
        reachable(net, from, next),
{
    let q = p.push(next);
    assert forall|k: int| 0 <= k < q.len() - 1 implies (#[trigger] net.successors(q[k])).contains(
        q[k + 1],
    ) by {
        if k < p.len() - 1 {
            assert(q[k] == p[k]);
            assert(net.successors(p[k]).contains(p[k + 1]));
        }
    }
    assert(walk_between(net, q, from, next));
}

/// A walk cut before its last node is a walk, and an arc joins the two.
pub proof fn lemma_walk_shorten<N: Network>(net: &N, p: Seq<NodeId>, from: NodeId, to: NodeId)
    requires
        walk_between(net, p, from, to),
        p.len() >= 2,
    ensures
        walk_between(net, p.drop_last(), from, p[p.len() - 2]),
        net.successors(p[p.len() - 2]).contains(to),
{
    let q = p.drop_last();
    assert forall|k: int| 0 <= k < q.len() - 1 implies (#[trigger] net.successors(q[k])).contains(
        q[k + 1],
    ) by {
        assert(q[k] == p[k]);
        assert(net.successors(p[k]).contains(p[k + 1]));
    }
    assert(net.successors(p[p.len() - 2]).contains(p[p.len() - 2 + 1]));
}

/// A set of nodes that holds `start` and is closed under arcs holds every
/// node that a walk from `start` ends at.
pub proof fn lemma_closed_holds_walk<N: Network>(
    net: &N,
    marks: Seq<bool>,
    p: Seq<NodeId>,
    start: NodeId,
    v: NodeId,
)
    requires
        marks.len() == net.node_count(),
        marks[start as int],
        closed_under_arcs(net, marks),
        walk_between(net, p, start, v),
    ensures
        marks[v as int],
    decreases p.len(),
{
    if p.len() >= 2 {
        let u = p[p.len() - 2];
        lemma_walk_shorten(net, p, start, v);
        lemma_closed_holds_walk(net, marks, p.drop_last(), start, u);
        assert(net.successors(u).contains(v));
    }
}

} // verus!
