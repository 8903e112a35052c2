//! Dijkstra's algorithm step by step: which node is settled next, and what
//! settling a node does to the distances and predecessors.

use crate::algorithms::search_algorithms::marked;
use crate::algorithms::shortest_paths::arc_length;
use crate::{Cost, Network, NodeId};
use vstd::prelude::*;

verus! {

/// What Dijkstra's algorithm holds between two of its steps.
pub struct PathState {
    /// For each node the cost of the cheapest way to it that is known.
    pub dist: Seq<Cost>,
    /// For each node the node before it on that way.
    pub pred: Seq<NodeId>,
    /// Which nodes are settled.
    pub done: Seq<bool>,
}

/// The state made of the three lists.
pub open spec fn path_state(dist: Seq<Cost>, pred: Seq<NodeId>, done: Seq<bool>) -> PathState {
    PathState { dist, pred, done }
}

/// The state in which the algorithm begins: the source at distance 0, every
/// other node at the cost bound `inf`, no predecessors, nothing settled.
pub open spec fn path_start(n: nat, source: NodeId, inf: Cost) -> PathState {
    PathState {
        dist: Seq::new(
            n,
            |v: int|
                if v == source {
                    0 as Cost
                } else {
                    inf
                },
        ),
        pred: Seq::new(n, |v: int| n as NodeId),
        done: Seq::new(n, |v: int| false),
    }
}

/// Trying the arc from `i` to `j`: if the way through `i` is cheaper than
/// the one known to `j`, it is taken.
pub open spec fn relax_arc<N: Network>(net: &N, st: PathState, i: NodeId, j: NodeId) -> PathState {
    let through = st.dist[i as int] + arc_length(net, i, j);
    if j < st.dist.len() && through < st.dist[j as int] {
        PathState {
            dist: st.dist.update(j as int, through as Cost),
            pred: st.pred.update(j as int, i),
            done: st.done,
        }
    } else {
        st
    }
}

/// Trying the first `k` arcs that leave `i`, in their stored order.
pub open spec fn relax_arcs_upto<N: Network>(net: &N, st: PathState, i: NodeId, k: nat) -> PathState
    decreases k,
{
    if k == 0 {
        st
    } else {
        relax_arc(net, relax_arcs_upto(net, st, i, (k - 1) as nat), i, net.successors(i)[k - 1])
    }
}

/// Settling node `i`: it is marked, and all its arcs are tried.
pub open spec fn settle<N: Network>(net: &N, st: PathState, i: NodeId) -> PathState {
    relax_arcs_upto(
        net,
        path_state(st.dist, st.pred, st.done.update(i as int, true)),
        i,
        net.successors(i).len(),
    )
}

/// Node `i` is the one to settle next: of the nodes that are not settled it
/// is the nearest, and among equally near ones the one with the least id.
pub open spec fn is_nearest(st: PathState, i: int) -> bool {
    &&& 0 <= i < st.dist.len()
    &&& !st.done[i]
    &&& forall|v: int|
        0 <= v < st.dist.len() && !#[trigger] marked(st.done, v) ==> st.dist[i] < st.dist[v] || (
        st.dist[i] == st.dist[v] && i <= v)
}

/// The node to settle next.
pub open spec fn nearest(st: PathState) -> int {
    choose|i: int| is_nearest(st, i)
}

/// The state after `steps` nodes have been settled, each time the nearest.
pub open spec fn dijkstra_run<N: Network>(net: &N, st: PathState, steps: nat) -> PathState
    decreases steps,
{
    if steps == 0 {
        st
    } else {
        dijkstra_run(net, settle(net, st, nearest(st) as NodeId), (steps - 1) as nat)
    }
}

/// The state in which the algorithm ends: every node has been settled.
pub open spec fn dijkstra_outcome<N: Network>(net: &N, source: NodeId) -> PathState {
    dijkstra_run(
        net,
        path_start(net.node_count(), source, net.cost_bound()),
        net.node_count(),
    )
}

/// How many nodes are not settled.
pub open spec fn count_unsettled(done: Seq<bool>) -> nat
    decreases done.len(),
{
    if done.len() == 0 {
        0
    } else {
        count_unsettled(done.drop_last()) + if done.last() {
            0nat
        } else {
            1nat
        }
    }
}

/// Every node that is not settled stands at the cost bound, and no node
/// above it: whatever is settled from here on, no distance and no
/// predecessor changes.
pub open spec fn inert<N: Network>(net: &N, st: PathState) -> bool {
    &&& st.dist.len() == net.node_count()
    &&& st.pred.len() == net.node_count()
    &&& st.done.len() == net.node_count()
    &&& net.node_count() <= u32::MAX
    &&& forall|v: int| 0 <= v < st.dist.len() ==> #[trigger] st.dist[v] <= net.cost_bound()
    &&& forall|v: int|
        0 <= v < st.dist.len() && !#[trigger] marked(st.done, v) ==> st.dist[v] == net.cost_bound()
}

/// Only one node can be the one to settle next.
pub proof fn lemma_nearest_unique(st: PathState, i: int)
    requires
        is_nearest(st, i),
    ensures
        nearest(st) == i,
{
    let c = nearest(st);
    assert(is_nearest(st, c));
    assert(!marked(st.done, i));
    assert(!marked(st.done, c));
}

/// Settling a node leaves one node fewer that is not settled.
pub proof fn lemma_count_unsettled_settle(done: Seq<bool>, i: int)
    requires
        0 <= i < done.len(),
        !done[i],
    ensures
        count_unsettled(done.update(i, true)) + 1 == count_unsettled(done),
    decreases done.len(),
{
    let after = done.update(i, true);
    if i == done.len() - 1 {
        assert(after.drop_last() =~= done.drop_last());
    } else {
        lemma_count_unsettled_settle(done.drop_last(), i);
        assert(after.drop_last() =~= done.drop_last().update(i, true));
    }
}

/// Where no node is settled, all of them are left.
pub proof fn lemma_count_unsettled_none(done: Seq<bool>)
    requires
        forall|v: int| 0 <= v < done.len() ==> !done[v],
    ensures
        count_unsettled(done) == done.len(),
    decreases done.len(),
{
    if done.len() > 0 {
        lemma_count_unsettled_none(done.drop_last());
    }
}

/// Where a node is not settled, there is a least one.
proof fn lemma_least_unsettled(done: Seq<bool>) -> (i: int)
    requires
        count_unsettled(done) > 0,
    ensures
        0 <= i < done.len(),
        !done[i],
        forall|v: int| 0 <= v < i ==> done[v],
    decreases done.len(),
{
    if count_unsettled(done.drop_last()) > 0 {
        let i = lemma_least_unsettled(done.drop_last());
        assert(done.drop_last()[i] == done[i]);
        assert forall|v: int| 0 <= v < i implies done[v] by {
            assert(done.drop_last()[v] == done[v]);
        }
        i
    } else {
        let i = done.len() - 1;
        assert forall|v: int| 0 <= v < i implies done[v] by {
            lemma_all_settled(done.drop_last(), v);
        }
        i
    }
}

/// Where none is left, every node is settled.
proof fn lemma_all_settled(done: Seq<bool>, v: int)
    requires
        count_unsettled(done) == 0,
        0 <= v < done.len(),
    ensures
        done[v],
    decreases done.len(),
{
    if v < done.len() - 1 {
        lemma_all_settled(done.drop_last(), v);
    }
}

/// Trying the arcs of a node that stands at the cost bound changes nothing.
proof fn lemma_inert_relax<N: Network>(net: &N, st: PathState, i: NodeId, k: nat)
    requires
        st.dist.len() == net.node_count(),
        i < net.node_count(),
        st.dist[i as int] == net.cost_bound(),
        forall|v: int| 0 <= v < st.dist.len() ==> #[trigger] st.dist[v] <= net.cost_bound(),
    ensures
        relax_arcs_upto(net, st, i, k) == st,
    decreases k,
{
    if k > 0 {
        lemma_inert_relax(net, st, i, (k - 1) as nat);
        let j = net.successors(i)[k - 1];
        if j < st.dist.len() {
            assert(st.dist[j as int] <= net.cost_bound());
        }
    }
}

/// Settling a node of an inert state changes no distance and no predecessor.
pub proof fn lemma_inert_settle<N: Network>(net: &N, st: PathState, i: int)
    requires
        inert(net, st),
        0 <= i < net.node_count(),
        !st.done[i],
    ensures
        settle(net, st, i as NodeId) == path_state(st.dist, st.pred, st.done.update(i, true)),
        inert(net, settle(net, st, i as NodeId)),
{
    let marked_state = path_state(st.dist, st.pred, st.done.update(i, true));
    assert(!marked(st.done, i));
    lemma_inert_relax(net, marked_state, i as NodeId, net.successors(i as NodeId).len());
    assert forall|v: int|
        0 <= v < marked_state.dist.len() && !#[trigger] marked(
            marked_state.done,
            v,
        ) implies marked_state.dist[v] == net.cost_bound() by {
        assert(!marked(st.done, v));
    }
}

/// From an inert state on, no distance and no predecessor changes.
pub proof fn lemma_inert_run<N: Network>(net: &N, st: PathState, steps: nat)
    requires
        inert(net, st),
        steps <= count_unsettled(st.done),
    ensures
        dijkstra_run(net, st, steps).dist == st.dist,
        dijkstra_run(net, st, steps).pred == st.pred,
    decreases steps,
{
    if steps > 0 {
        let i = lemma_least_unsettled(st.done);
        assert(is_nearest(st, i)) by {
            assert(!marked(st.done, i));
            assert forall|v: int|
                0 <= v < st.dist.len() && !#[trigger] marked(st.done, v) implies st.dist[i]
                < st.dist[v] || (st.dist[i] == st.dist[v] && i <= v) by {
                if v < i {
                    assert(st.done[v]);
                }
            }
        }
        lemma_nearest_unique(st, i);
        lemma_inert_settle(net, st, i);
        lemma_count_unsettled_settle(st.done, i);
        lemma_inert_run(net, settle(net, st, i as NodeId), (steps - 1) as nat);
    }
}

} // verus!
