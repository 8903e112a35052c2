//! Dijkstra's algorithm for the shortest paths from one node, in two
//! strategies that give the same result: one scans an array for the
//! nearest node that is not settled, one takes it from a binary heap.

use crate::algorithms::search_algorithms::{found, marked};
use crate::algorithms::settling::{
    count_unsettled, dijkstra_outcome, dijkstra_run, inert, is_nearest,
    lemma_count_unsettled_none, lemma_count_unsettled_settle, lemma_inert_run, lemma_inert_settle,
    lemma_nearest_unique, path_start, path_state, relax_arc, relax_arcs_upto, settle,
};
use crate::algorithms::walks::{lemma_walk_extend, lemma_walk_shorten, lemma_walk_single, walk_between};
use crate::heaps::{is_minimum, min_entry, precedes, BinaryHeap, Heap, HeapMember};
use crate::{filled, Cost, CostVec, Network, NodeId, NodeVec};
use vstd::multiset::Multiset;
use vstd::prelude::*;

verus! {

/// The cost of going from `u` to `v` directly: the cost of the first stored
/// arc that joins them.
pub open spec fn arc_length<N: Network>(net: &N, u: NodeId, v: NodeId) -> int {
    match net.arc_cost(u, v) {
        Some(c) => c as int,
        None => 0,
    }
}

/// The cost of a walk: the sum of the costs of its steps.
pub open spec fn walk_cost<N: Network>(net: &N, p: Seq<NodeId>) -> int
    decreases p.len(),
{
    if p.len() <= 1 {
        0
    } else {
        walk_cost(net, p.drop_last()) + arc_length(net, p[p.len() - 2], p[p.len() - 1])
    }
}

/// Some walk from `from` to `to` costs exactly `c`.
pub open spec fn has_walk_of_cost<N: Network>(net: &N, from: NodeId, to: NodeId, c: int) -> bool {
    exists|p: Seq<NodeId>| #[trigger] walk_between(net, p, from, to) && walk_cost(net, p) == c
}

/// No walk from `from` to `to` costs less than `c`.
pub open spec fn no_walk_below<N: Network>(net: &N, from: NodeId, to: NodeId, c: int) -> bool {
    forall|p: Seq<NodeId>| #[trigger] walk_between(net, p, from, to) ==> walk_cost(net, p) >= c
}

/// `pred` and `dist` describe the shortest paths from `source`, with the
/// network's cost bound standing for "no path":
/// - the distance of a node is the cost of a cheapest walk from the source
///   to it, or the cost bound where there is no walk or none that costs less;
/// - the source has distance 0 and no predecessor;
/// - a node has a predecessor exactly if its distance is below the cost
///   bound and it is not the source; the predecessor then is the node
///   before it on a cheapest walk, itself the source or a node with a
///   predecessor.
pub open spec fn is_shortest_path_result<N: Network>(
    net: &N,
    source: NodeId,
    pred: Seq<NodeId>,
    dist: Seq<Cost>,
) -> bool {
    let n = net.node_count();
    let inf = net.cost_bound();
    &&& pred.len() == n
    &&& dist.len() == n
    &&& dist[source as int] == 0
    &&& pred[source as int] == n
    &&& forall|v: int| 0 <= v < n ==> #[trigger] dist[v] <= inf
    &&& forall|v: int|
        0 <= v < n ==> no_walk_below(net, source, v as NodeId, #[trigger] dist[v] as int)
    &&& forall|v: int| 0 <= v < n && !#[trigger] found(n, source, pred, v) ==> dist[v] == inf
    &&& forall|v: int|
        0 <= v < n && #[trigger] found(n, source, pred, v) ==> has_walk_of_cost(
            net,
            source,
            v as NodeId,
            dist[v] as int,
        )
    &&& forall|v: int|
        0 <= v < n && #[trigger] found(n, source, pred, v) && v != source ==> dist[v] < inf
            && pred[v] < n && (pred[v] == source || pred[pred[v] as int] != n)
            && net.successors(pred[v]).contains(v as NodeId) && dist[v] == dist[pred[v] as int]
            + arc_length(net, pred[v], v as NodeId)
}

/// Every arc that leaves `u` has been tried: no neighbour is farther than
/// `u` and the arc to it together.
pub open spec fn relaxed<N: Network>(net: &N, d: Seq<Cost>, u: NodeId) -> bool {
    forall|w: NodeId|
        w < net.node_count() && (#[trigger] net.successors(u).contains(w)) ==> d[w as int]
            <= d[u as int] + arc_length(net, u, w)
}

/// What holds of the tentative distances `d` and predecessors `pred` while
/// the nodes marked in `done` are settled; `cur` is the node whose arcs are
/// being tried, or -1 between two nodes.
pub open spec fn dijkstra_inv<N: Network>(
    net: &N,
    source: NodeId,
    d: Seq<Cost>,
    pred: Seq<NodeId>,
    done: Seq<bool>,
    cur: int,
) -> bool {
    let n = net.node_count();
    let inf = net.cost_bound();
    &&& source < n
    &&& n <= u32::MAX
    &&& d.len() == n
    &&& pred.len() == n
    &&& done.len() == n
    &&& d[source as int] == 0
    &&& pred[source as int] == n
    &&& forall|v: int| 0 <= v < n ==> #[trigger] d[v] <= inf
    &&& forall|v: int| 0 <= v < n && !#[trigger] found(n, source, pred, v) ==> d[v] == inf
    &&& forall|v: int|
        0 <= v < n && #[trigger] found(n, source, pred, v) ==> has_walk_of_cost(
            net,
            source,
            v as NodeId,
            d[v] as int,
        )
    &&& forall|v: int|
        0 <= v < n && #[trigger] found(n, source, pred, v) && v != source ==> d[v] < inf && pred[v]
            < n && done[pred[v] as int] && net.successors(pred[v]).contains(v as NodeId) && d[v]
            == d[pred[v] as int] + arc_length(net, pred[v], v as NodeId)
    &&& forall|u: int, v: int|
        0 <= u < n && 0 <= v < n && #[trigger] marked(done, u) && !#[trigger] marked(done, v)
            ==> d[u] <= d[v]
    &&& forall|u: int|
        0 <= u < n && #[trigger] marked(done, u) && u != cur ==> relaxed(net, d, u as NodeId)
    &&& cur >= 0 ==> cur < n && done[cur] && forall|u: int|
        0 <= u < n && #[trigger] marked(done, u) ==> d[u] <= d[cur]
}

/// A walk that goes on by one arc costs that arc more.
pub proof fn lemma_walk_cost_extend<N: Network>(net: &N, p: Seq<NodeId>, next: NodeId)
    requires
        p.len() >= 1,
    ensures
        walk_cost(net, p.push(next)) == walk_cost(net, p) + arc_length(net, p[p.len() - 1], next),
{
    assert(p.push(next).drop_last() =~= p);
}

/// The search begins with an invariant state: the source at distance 0,
/// every other node at the cost bound, and no node settled.
proof fn lemma_dijkstra_start<N: Network>(net: &N, source: NodeId, d: Seq<Cost>, pred: Seq<NodeId>, done: Seq<bool>)
    requires
        source < net.node_count(),
        net.node_count() <= u32::MAX,
        d.len() == net.node_count(),
        pred.len() == net.node_count(),
        done.len() == net.node_count(),
        forall|v: int| 0 <= v < d.len() ==> d[v] == if v == source {
            0
        } else {
            net.cost_bound()
        },
        forall|v: int| 0 <= v < pred.len() ==> pred[v] == net.node_count(),
        forall|v: int| 0 <= v < done.len() ==> !done[v],
    ensures
        dijkstra_inv(net, source, d, pred, done, -1),
{
    let n = net.node_count();
    lemma_walk_single(net, source);
    assert forall|v: int| 0 <= v < n && #[trigger] found(n, source, pred, v) implies has_walk_of_cost(
        net,
        source,
        v as NodeId,
        d[v] as int,
    ) by {
        assert(walk_between(net, seq![source], source, source));
        assert(walk_cost(net, seq![source]) == 0);
    }
}

/// Settling a node that is nearest among those not settled keeps the invariant.
proof fn lemma_settle<N: Network>(
    net: &N,
    source: NodeId,
    d: Seq<Cost>,
    pred: Seq<NodeId>,
    done: Seq<bool>,
    i: int,
)
    requires
        dijkstra_inv(net, source, d, pred, done, -1),
        0 <= i < net.node_count(),
        !done[i],
        forall|v: int| 0 <= v < net.node_count() && !#[trigger] marked(done, v) ==> d[i] <= d[v],
    ensures
        dijkstra_inv(net, source, d, pred, done.update(i, true), i),
{
    let n = net.node_count();
    let after = done.update(i, true);
    assert(!marked(done, i));
    assert forall|u: int, v: int|
        0 <= u < n && 0 <= v < n && #[trigger] marked(after, u) && !#[trigger] marked(
            after,
            v,
        ) implies d[u] <= d[v] by {
        assert(!marked(done, v));
        if u != i {
            assert(marked(done, u));
        }
    }
    assert forall|u: int| 0 <= u < n && #[trigger] marked(after, u) && u != i implies relaxed(
        net,
        d,
        u as NodeId,
    ) by {
        assert(marked(done, u));
    }
    assert forall|u: int| 0 <= u < n && #[trigger] marked(after, u) implies d[u] <= d[i] by {
        if u != i {
            assert(marked(done, u));
        }
    }
    assert forall|v: int|
        0 <= v < n && #[trigger] found(n, source, pred, v) && v != source implies after[pred[v] as int] by {
    }
}

/// Taking a cheaper way to `j` through the node `i` whose arcs are being
/// tried keeps the invariant.
proof fn lemma_relax_arc<N: Network>(
    net: &N,
    source: NodeId,
    d: Seq<Cost>,
    pred: Seq<NodeId>,
    done: Seq<bool>,
    i: NodeId,
    j: NodeId,
    through: Cost,
)
    requires
        dijkstra_inv(net, source, d, pred, done, i as int),
        j < net.node_count(),
        net.successors(i).contains(j),
        through == d[i as int] + arc_length(net, i, j),
        through < d[j as int],
    ensures
        dijkstra_inv(net, source, d.update(j as int, through), pred.update(j as int, i), done, i as int),
        !done[j as int],
        j != source,
        j != i,
{
    let n = net.node_count();
    let inf = net.cost_bound();
    let d2 = d.update(j as int, through);
    let pred2 = pred.update(j as int, i);
    assert(marked(done, i as int));
    if done[j as int] {
        assert(marked(done, j as int));
        assert(d[j as int] <= d[i as int]);
    }
    assert(!marked(done, j as int));
    assert(d[i as int] < inf) by {
        assert(d[j as int] <= inf);
    }
    assert(found(n, source, pred, i as int));
    assert(has_walk_of_cost(net, source, j, through as int)) by {
        let p = choose|p: Seq<NodeId>| #[trigger]
            walk_between(net, p, source, i) && walk_cost(net, p) == d[i as int];
        lemma_walk_extend(net, p, source, i, j);
        lemma_walk_cost_extend(net, p, j);
        assert(walk_between(net, p.push(j), source, j));
    }
    assert forall|v: int| 0 <= v < n && !#[trigger] found(n, source, pred2, v) implies d2[v]
        == inf by {
        assert(!found(n, source, pred, v));
    }
    assert forall|v: int| 0 <= v < n && #[trigger] found(n, source, pred2, v) implies has_walk_of_cost(
        net,
        source,
        v as NodeId,
        d2[v] as int,
    ) by {
        if v != j {
            assert(found(n, source, pred, v));
        }
    }
    assert forall|v: int| 0 <= v < n && #[trigger] found(n, source, pred2, v) && v != source implies d2[v]
        < inf && pred2[v] < n && done[pred2[v] as int] && net.successors(pred2[v]).contains(
        v as NodeId,
    ) && d2[v] == d2[pred2[v] as int] + arc_length(net, pred2[v], v as NodeId) by {
        if v != j {
            assert(found(n, source, pred, v));
            assert(marked(done, pred[v] as int));
        }
    }
    assert forall|u: int, v: int|
        0 <= u < n && 0 <= v < n && #[trigger] marked(done, u) && !#[trigger] marked(
            done,
            v,
        ) implies d2[u] <= d2[v] by {
        assert(d[u] <= d[i as int]);
    }
    assert forall|u: int| 0 <= u < n && #[trigger] marked(done, u) && u != i implies relaxed(
        net,
        d2,
        u as NodeId,
    ) by {
        assert(relaxed(net, d, u as NodeId));
        assert forall|w: NodeId|
            w < n && (#[trigger] net.successors(u as NodeId).contains(w)) implies d2[w as int]
            <= d2[u] + arc_length(net, u as NodeId, w) by {
            assert(d[w as int] <= d[u] + arc_length(net, u as NodeId, w));
        }
    }
}

/// When every arc of the node under hand has been tried, the node is done with.
proof fn lemma_relaxed_all<N: Network>(
    net: &N,
    source: NodeId,
    d: Seq<Cost>,
    pred: Seq<NodeId>,
    done: Seq<bool>,
    i: NodeId,
)
    requires
        dijkstra_inv(net, source, d, pred, done, i as int),
        relaxed(net, d, i),
    ensures
        dijkstra_inv(net, source, d, pred, done, -1),
{
    assert forall|u: int| 0 <= u < net.node_count() && #[trigger] marked(done, u) implies relaxed(
        net,
        d,
        u as NodeId,
    ) by {
        if u != i {
            assert(relaxed(net, d, u as NodeId));
        }
    }
}

/// Once every node that is not settled stands at the cost bound, no walk
/// from the source is cheaper than the distance of the node it ends at.
proof fn lemma_no_cheaper_walk<N: Network>(
    net: &N,
    source: NodeId,
    d: Seq<Cost>,
    pred: Seq<NodeId>,
    done: Seq<bool>,
    p: Seq<NodeId>,
    v: NodeId,
)
    requires
        dijkstra_inv(net, source, d, pred, done, -1),
        forall|u: int|
            0 <= u < net.node_count() && !#[trigger] marked(done, u) ==> d[u] == net.cost_bound(),
        walk_between(net, p, source, v),
    ensures
        walk_cost(net, p) >= d[v as int],
    decreases p.len(),
{
    if p.len() >= 2 {
        let u = p[p.len() - 2];
        lemma_walk_shorten(net, p, source, v);
        lemma_no_cheaper_walk(net, source, d, pred, done, p.drop_last(), u);
        assert(d[v as int] <= net.cost_bound());
        if done[u as int] {
            assert(marked(done, u as int));
            assert(relaxed(net, d, u));
            assert(net.successors(u).contains(v));
        } else {
            assert(!marked(done, u as int));
        }
    }
}

/// Once every node that is not settled stands at the cost bound, the
/// tentative distances are the distances.
proof fn lemma_dijkstra_done<N: Network>(
    net: &N,
    source: NodeId,
    d: Seq<Cost>,
    pred: Seq<NodeId>,
    done: Seq<bool>,
)
    requires
        dijkstra_inv(net, source, d, pred, done, -1),
        forall|u: int|
            0 <= u < net.node_count() && !#[trigger] marked(done, u) ==> d[u] == net.cost_bound(),
    ensures
        is_shortest_path_result(net, source, pred, d),
{
    let n = net.node_count();
    let inf = net.cost_bound();
    assert forall|v: int| 0 <= v < n implies no_walk_below(
        net,
        source,
        v as NodeId,
        #[trigger] d[v] as int,
    ) by {
        let target = v as NodeId;
        assert forall|p: Seq<NodeId>| #[trigger] walk_between(net, p, source, target) implies walk_cost(
            net,
            p,
        ) >= d[v] by {
            lemma_no_cheaper_walk(net, source, d, pred, done, p, target);
        }
    }
    assert forall|v: int| 0 <= v < n && #[trigger] found(n, source, pred, v) && v != source implies d[v]
        < inf && pred[v] < n && (pred[v] == source || pred[pred[v] as int] != n)
        && net.successors(pred[v]).contains(v as NodeId) && d[v] == d[pred[v] as int] + arc_length(
        net,
        pred[v],
        v as NodeId,
    ) by {
        let u = pred[v] as int;
        assert(d[u] < inf);
        if !found(n, source, pred, u) {
            assert(d[u] == inf);
        }
    }
}

/// Position `k` of `to_check` holds the first of its nodes that are nearest
/// by `distances`.
pub open spec fn is_first_nearest(to_check: Seq<NodeId>, distances: Seq<Cost>, k: int) -> bool {
    &&& 0 <= k < to_check.len()
    &&& forall|x: int|
        0 <= x < to_check.len() ==> distances[to_check[k] as int] <= distances[
            #[trigger] to_check[x] as int]
    &&& forall|x: int|
        0 <= x < k ==> distances[to_check[k] as int] < distances[#[trigger] to_check[x] as int]
}

/// Returns the first node of `to_check` that is nearest by `distances`, and
/// the invalid id where `to_check` is empty.
fn find_min(to_check: &NodeVec, distances: &CostVec) -> (min_id: NodeId)
    requires
        distances.len() <= u32::MAX,
        forall|x: int| 0 <= x < to_check.len() ==> to_check[x] < distances.len(),
    ensures
        to_check.len() == 0 ==> min_id == distances.len(),
        to_check.len() > 0 ==> exists|k: int|
            is_first_nearest(to_check@, distances@, k) && min_id == #[trigger] to_check[k],
{
    let mut min_id = distances.len() as NodeId;
    let ghost mut at: int = 0;
    let mut x: usize = 0;
    while x < to_check.len()
        invariant
            x <= to_check.len(),
            distances.len() <= u32::MAX,
            forall|y: int| 0 <= y < to_check.len() ==> to_check[y] < distances.len(),
            x == 0 ==> min_id == distances.len(),
            x > 0 ==> 0 <= at < x && min_id == to_check[at],
            forall|y: int|
                0 <= y < x ==> distances[min_id as int] <= distances[#[trigger] to_check[y] as int],
            forall|y: int|
                0 <= y < at ==> distances[min_id as int] < distances[#[trigger] to_check[y] as int],
        decreases to_check.len() - x,
    {
        let node = to_check[x];
        if x == 0 || distances[node as usize] < distances[min_id as usize] {
            min_id = node;
            proof {
                at = x as int;
            }
        }
        x += 1;
    }
    proof {
        if to_check.len() > 0 {
            assert(is_first_nearest(to_check@, distances@, at));
        }
    }
    min_id
}

/// Returns the last position of `list` that holds `node`, and 0 where none does.
pub fn find_min_index(list: &NodeVec, node: NodeId) -> (index: usize)
    ensures
        list@.contains(node) ==> index < list.len() && list[index as int] == node && forall|x: int|
            index < x < list.len() ==> list[x] != node,
        !list@.contains(node) ==> index == 0,
{
    let mut index: usize = 0;
    let mut i: usize = 0;
    while i < list.len()
        invariant
            i <= list.len(),
            (exists|x: int| 0 <= x < i && list[x] == node) ==> index < i && list[index as int]
                == node && forall|x: int| index < x < i ==> list[x] != node,
            (forall|x: int| 0 <= x < i ==> list[x] != node) ==> index == 0,
        decreases list.len() - i,
    {
        if list[i] == node {
            index = i;
        }
        i += 1;
    }
    index
}

/// Tries every arc that leaves the node `i` just settled: where the way
/// through `i` to a neighbour is cheaper than the one known, it is taken.
fn relax_arcs<N: Network>(
    network: &N,
    i: NodeId,
    pred: &mut NodeVec,
    d: &mut CostVec,
    Ghost(source): Ghost<NodeId>,
    Ghost(done): Ghost<Seq<bool>>,
)
    requires
        dijkstra_inv(network, source, old(d)@, old(pred)@, done, i as int),
    ensures
        dijkstra_inv(network, source, final(d)@, final(pred)@, done, -1),
        path_state(final(d)@, final(pred)@, done) == relax_arcs_upto(
            network,
            path_state(old(d)@, old(pred)@, done),
            i,
            network.successors(i).len(),
        ),
{
    let adj = network.adjacent(i);
    let ghost n = network.node_count();
    let ghost begun = path_state(d@, pred@, done);
    let mut k: usize = 0;
    while k < adj.len()
        invariant
            k <= adj.len(),
            n == network.node_count(),
            adj@ == network.successors(i),
            forall|l: int| 0 <= l < adj.len() ==> adj[l] < n,
            dijkstra_inv(network, source, d@, pred@, done, i as int),
            path_state(d@, pred@, done) == relax_arcs_upto(network, begun, i, k as nat),
            forall|l: int|
                0 <= l < k ==> d@[#[trigger] adj@[l] as int] <= d@[i as int] + arc_length(
                    network,
                    i,
                    adj@[l],
                ),
        decreases adj.len() - k,
    {
        let j = adj[k];
        assert(adj@[k as int] == j);
        let ghost before = path_state(d@, pred@, done);
        let cost = network.cost(i, j).unwrap();
        match d[i as usize].checked_add(cost) {
            Some(through) => {
                if through < d[j as usize] {
                    proof {
                        lemma_relax_arc(network, source, d@, pred@, done, i, j, through);
                    }
                    d.set(j as usize, through);
                    pred.set(j as usize, i);
                }
            },
            None => {},
        }
        proof {
            assert(path_state(d@, pred@, done) == relax_arc(network, before, i, j));
        }
        k += 1;
    }
    proof {
        assert(relaxed(network, d@, i)) by {
            assert forall|w: NodeId|
                w < n && (#[trigger] network.successors(i).contains(w)) implies d@[w as int]
                <= d@[i as int] + arc_length(network, i, w) by {
                let l = choose|l: int| 0 <= l < adj@.len() && adj@[l] == w;
                assert(d@[adj@[l] as int] <= d@[i as int] + arc_length(network, i, adj@[l]));
            }
        }
        lemma_relaxed_all(network, source, d@, pred@, done, i);
    }
}

/// Dijkstra's algorithm with an array: the nearest node that is not settled
/// is found by a scan of all of them.
///
/// Returns for each node its predecessor on a shortest path from `source`
/// and its distance. A node without a path from `source`, or with none that
/// costs less than the network's cost bound, has the invalid id as
/// predecessor, as `source` has, and the cost bound as distance.
pub fn vanilla_dijkstra<N: Network>(network: &N, source: NodeId) -> (r: (NodeVec, CostVec))
    requires
        source < network.node_count(),
    ensures
        is_shortest_path_result(network, source, r.0@, r.1@),
        r.0@ == dijkstra_outcome(network, source).pred,
        r.1@ == dijkstra_outcome(network, source).dist,
{
    let n = network.num_nodes();
    let mut temporary: NodeVec = Vec::with_capacity(n);
    let mut i: usize = 0;
    while i < n
        invariant
            i <= n,
            n <= u32::MAX,
            temporary.len() == i,
            forall|x: int| 0 <= x < i ==> temporary[x] == x,
        decreases n - i,
    {
        temporary.push(i as NodeId);
        i += 1;
    }
    let mut permanent: NodeVec = Vec::with_capacity(n);
    let mut pred: NodeVec = filled(network.invalid_id(), n);
    let mut d: CostVec = filled(network.infinity(), n);
    d.set(source as usize, 0);
    let ghost mut done = Seq::new(n as nat, |v: int| false);
    proof {
        lemma_dijkstra_start(network, source, d@, pred@, done);
        assert forall|v: int| 0 <= v < n implies (#[trigger] marked(done, v)
            <==> !temporary@.contains(v as NodeId)) by {
            assert(temporary@[v] == v);
        }
        let begun = path_start(n as nat, source, network.cost_bound());
        assert(d@ =~= begun.dist);
        assert(pred@ =~= begun.pred);
        assert(done =~= begun.done);
    }
    while permanent.len() < n
        invariant
            n == network.node_count(),
            permanent.len() + temporary.len() == n,
            forall|x: int, y: int|
                0 <= x < y < temporary.len() ==> #[trigger] temporary[x] < #[trigger] temporary[y],
            forall|x: int| 0 <= x < temporary.len() ==> temporary[x] < n,
            forall|v: int|
                0 <= v < n ==> (#[trigger] marked(done, v) <==> !temporary@.contains(v as NodeId)),
            dijkstra_inv(network, source, d@, pred@, done, -1),
            dijkstra_run(
                network,
                path_state(d@, pred@, done),
                (n - permanent.len()) as nat,
            ) == dijkstra_outcome(network, source),
        decreases n - permanent.len(),
    {
        let next_node = find_min(&temporary, &d);
        let index_in_temporary = find_min_index(&temporary, next_node);
        let ghost before = temporary@;
        let ghost state = path_state(d@, pred@, done);
        let removed = temporary.remove(index_in_temporary);
        permanent.push(removed);
        proof {
            let k = choose|k: int|
                is_first_nearest(before, d@, k) && next_node == #[trigger] before[k];
            assert(before.contains(next_node));
            assert(!marked(done, next_node as int));
            assert forall|v: int| 0 <= v < n && !#[trigger] marked(done, v) implies d@[next_node as int]
                < d@[v] || (d@[next_node as int] == d@[v] && next_node <= v) by {
                let x = choose|x: int| 0 <= x < before.len() && before[x] == v as NodeId;
                assert(d@[before[k] as int] <= d@[before[x] as int]);
                if x < k {
                    assert(d@[before[k] as int] < d@[before[x] as int]);
                } else if x > k {
                    assert(before[k] < before[x]);
                }
            }
            assert(is_nearest(state, next_node as int));
            lemma_nearest_unique(state, next_node as int);
            lemma_settle(network, source, d@, pred@, done, next_node as int);
            let earlier = done;
            done = done.update(next_node as int, true);
            let at = index_in_temporary as int;
            assert(before[at] == next_node);
            assert forall|x: int, y: int| 0 <= x < y < temporary.len() implies #[trigger] temporary[x]
                < #[trigger] temporary[y] by {
                let x0 = if x < at {
                    x
                } else {
                    x + 1
                };
                let y0 = if y < at {
                    y
                } else {
                    y + 1
                };
                assert(temporary@[x] == before[x0]);
                assert(temporary@[y] == before[y0]);
                assert(before[x0] < before[y0]);
            }
            assert forall|x: int| 0 <= x < temporary.len() implies temporary[x] < n by {
                if x < at {
                    assert(temporary@[x] == before[x]);
                } else {
                    assert(temporary@[x] == before[x + 1]);
                }
            }
            assert forall|v: int| 0 <= v < n implies (#[trigger] marked(done, v)
                <==> !temporary@.contains(v as NodeId)) by {
                let node = v as NodeId;
                assert(marked(earlier, v) <==> !before.contains(node));
                if temporary@.contains(node) {
                    let x = choose|x: int| 0 <= x < temporary@.len() && temporary@[x] == node;
                    if x < at {
                        assert(before[x] == node);
                        assert(before[x] < before[at]);
                    } else {
                        assert(before[x + 1] == node);
                        assert(before[at] < before[x + 1]);
                    }
                    assert(before.contains(node));
                    assert(v != next_node);
                }
                if before.contains(node) && v != next_node {
                    let x = choose|x: int| 0 <= x < before.len() && before[x] == node;
                    if x < at {
                        assert(temporary@[x] == node);
                    } else {
                        assert(temporary@[x - 1] == node);
                    }
                }
            }
        }
        relax_arcs(network, next_node, &mut pred, &mut d, Ghost(source), Ghost(done));
        proof {
            assert(path_state(d@, pred@, done) == settle(network, state, next_node));
        }
    }
    proof {
        assert forall|u: int| 0 <= u < n && !#[trigger] marked(done, u) implies d@[u]
            == network.cost_bound() by {
            assert(temporary@.contains(u as NodeId));
        }
        lemma_dijkstra_done(network, source, d@, pred@, done);
    }
    (pred, d)
}

/// What holds of the entries of the heap while the heap strategy runs: an
/// entry names a node at a cost that is no less than its tentative distance,
/// and every node that has been reached and is not settled has an entry at
/// exactly that distance. Entries at a higher cost are stale.
pub open spec fn heap_inv<N: Network>(
    net: &N,
    source: NodeId,
    entries: Multiset<HeapMember>,
    d: Seq<Cost>,
    done: Seq<bool>,
) -> bool {
    let n = net.node_count();
    let inf = net.cost_bound();
    &&& forall|e: HeapMember| #[trigger]
        entries.contains(e) ==> e.key < n && d[e.key as int] <= e.cost && (e.cost < inf || e.key
            == source)
    &&& forall|v: int|
        0 <= v < n && !#[trigger] marked(done, v) && (d[v] < inf || v == source)
            ==> entries.contains(HeapMember { key: v as NodeId, cost: d[v] })
}

/// The number of arcs that leave the nodes below `upto` that are not settled.
pub open spec fn pending_degree<N: Network>(net: &N, done: Seq<bool>, upto: nat) -> nat
    decreases upto,
{
    if upto == 0 {
        0
    } else {
        pending_degree(net, done, (upto - 1) as nat) + if done[upto - 1] {
            0nat
        } else {
            net.successors((upto - 1) as NodeId).len()
        }
    }
}

proof fn lemma_pending_degree_settle<N: Network>(net: &N, done: Seq<bool>, i: int, upto: nat)
    requires
        0 <= i < done.len(),
        !done[i],
        upto <= done.len(),
    ensures
        pending_degree(net, done.update(i, true), upto) + (if i < upto {
            net.successors(i as NodeId).len()
        } else {
            0nat
        }) == pending_degree(net, done, upto),
    decreases upto,
{
    if upto > 0 {
        lemma_pending_degree_settle(net, done, i, (upto - 1) as nat);
    }
}

/// An entry for a node at its new, lower distance keeps the heap in order
/// with the distances.
proof fn lemma_heap_insert<N: Network>(
    net: &N,
    source: NodeId,
    entries: Multiset<HeapMember>,
    d: Seq<Cost>,
    done: Seq<bool>,
    j: NodeId,
    through: Cost,
)
    requires
        heap_inv(net, source, entries, d, done),
        d.len() == net.node_count(),
        j < net.node_count(),
        through < d[j as int],
        d[j as int] <= net.cost_bound(),
    ensures
        heap_inv(
            net,
            source,
            entries.insert(HeapMember { key: j, cost: through }),
            d.update(j as int, through),
            done,
        ),
        entries.insert(HeapMember { key: j, cost: through }).len() == entries.len() + 1,
{
    broadcast use vstd::multiset::group_multiset_axioms;

    let n = net.node_count();
    let inf = net.cost_bound();
    let added = HeapMember { key: j, cost: through };
    let after = entries.insert(added);
    let d2 = d.update(j as int, through);
    assert forall|e: HeapMember| #[trigger] after.contains(e) implies e.key < n && d2[e.key as int]
        <= e.cost && (e.cost < inf || e.key == source) by {
        if e != added {
            assert(entries.contains(e));
        }
    }
    assert forall|v: int|
        0 <= v < n && !#[trigger] marked(done, v) && (d2[v] < inf || v == source) implies after.contains(
        HeapMember { key: v as NodeId, cost: d2[v] },
    ) by {
        if v != j {
            assert(entries.contains(HeapMember { key: v as NodeId, cost: d[v] }));
        }
    }
}

/// Taking the least entry out keeps the heap in order with the distances,
/// once its node counts as settled. If that node was not settled before,
/// the entry held its tentative distance, and no node that is not settled
/// is nearer.
proof fn lemma_heap_pop<N: Network>(
    net: &N,
    source: NodeId,
    entries: Multiset<HeapMember>,
    d: Seq<Cost>,
    done: Seq<bool>,
    e: HeapMember,
)
    requires
        heap_inv(net, source, entries, d, done),
        net.node_count() <= u32::MAX,
        d.len() == net.node_count(),
        done.len() == net.node_count(),
        forall|v: int| 0 <= v < net.node_count() ==> #[trigger] d[v] <= net.cost_bound(),
        is_minimum(entries, e),
    ensures
        e.key < net.node_count(),
        entries.remove(e).len() == entries.len() - 1,
        heap_inv(net, source, entries.remove(e), d, done.update(e.key as int, true)),
        !done[e.key as int] ==> forall|v: int|
            0 <= v < net.node_count() && !#[trigger] marked(done, v) ==> d[e.key as int] <= d[v],
        !done[e.key as int] && d[e.key as int] < net.cost_bound() ==> forall|v: int|
            0 <= v < net.node_count() && !#[trigger] marked(done, v) ==> d[e.key as int] < d[v] || (
            d[e.key as int] == d[v] && e.key <= v),
        !done[e.key as int] && d[e.key as int] == net.cost_bound() ==> e.key == source,
{
    broadcast use vstd::multiset::group_multiset_axioms;

    let n = net.node_count();
    let inf = net.cost_bound();
    let after = entries.remove(e);
    let settled = done.update(e.key as int, true);
    assert(entries.contains(e));
    assert(Multiset::singleton(e).subset_of(entries));
    assert forall|o: HeapMember| #[trigger] after.contains(o) implies o.key < n && d[o.key as int]
        <= o.cost && (o.cost < inf || o.key == source) by {
        assert(entries.contains(o));
    }
    assert forall|v: int|
        0 <= v < n && !#[trigger] marked(settled, v) && (d[v] < inf || v == source) implies after.contains(
        HeapMember { key: v as NodeId, cost: d[v] },
    ) by {
        assert(!marked(done, v));
        let own = HeapMember { key: v as NodeId, cost: d[v] };
        assert(entries.contains(own));
        assert(own != e);
        assert(Multiset::singleton(e).count(own) == 0);
    }
    if !done[e.key as int] {
        let i = e.key as int;
        assert(!marked(done, i));
        let own = HeapMember { key: e.key, cost: d[i] };
        assert(entries.contains(own));
        assert forall|v: int| 0 <= v < n && !#[trigger] marked(done, v) implies d[i] <= d[v] by {
            if d[v] < inf || v == source {
                assert(entries.contains(HeapMember { key: v as NodeId, cost: d[v] }));
            }
        }
        assert(e == own);
        if d[i] < inf {
            assert forall|v: int| 0 <= v < n && !#[trigger] marked(done, v) implies d[i] < d[v]
                || (d[i] == d[v] && e.key <= v) by {
                if d[v] < inf || v == source {
                    let other = HeapMember { key: v as NodeId, cost: d[v] };
                    assert(entries.contains(other));
                    assert(precedes(e, other));
                }
            }
        }
    }
}

/// Tries every arc that leaves the node `i` just settled: where the way
/// through `i` to a neighbour is cheaper than the one known, it is taken,
/// and the neighbour is entered in the heap at its new distance.
fn relax_arcs_into<N: Network>(
    network: &N,
    i: NodeId,
    pred: &mut NodeVec,
    d: &mut CostVec,
    heap: &mut BinaryHeap,
    Ghost(source): Ghost<NodeId>,
    Ghost(done): Ghost<Seq<bool>>,
)
    requires
        dijkstra_inv(network, source, old(d)@, old(pred)@, done, i as int),
        heap_inv(network, source, old(heap).entries(), old(d)@, done),
    ensures
        dijkstra_inv(network, source, final(d)@, final(pred)@, done, -1),
        heap_inv(network, source, final(heap).entries(), final(d)@, done),
        final(heap).entries().len() <= old(heap).entries().len() + network.successors(i).len(),
        path_state(final(d)@, final(pred)@, done) == relax_arcs_upto(
            network,
            path_state(old(d)@, old(pred)@, done),
            i,
            network.successors(i).len(),
        ),
{
    let adj = network.adjacent(i);
    let ghost n = network.node_count();
    let ghost begun = path_state(d@, pred@, done);
    let mut k: usize = 0;
    while k < adj.len()
        invariant
            k <= adj.len(),
            n == network.node_count(),
            adj@ == network.successors(i),
            forall|l: int| 0 <= l < adj.len() ==> adj[l] < n,
            dijkstra_inv(network, source, d@, pred@, done, i as int),
            heap_inv(network, source, heap.entries(), d@, done),
            heap.entries().len() <= old(heap).entries().len() + k,
            path_state(d@, pred@, done) == relax_arcs_upto(network, begun, i, k as nat),
            forall|l: int|
                0 <= l < k ==> d@[#[trigger] adj@[l] as int] <= d@[i as int] + arc_length(
                    network,
                    i,
                    adj@[l],
                ),
        decreases adj.len() - k,
    {
        let j = adj[k];
        assert(adj@[k as int] == j);
        let ghost before = path_state(d@, pred@, done);
        let cost = network.cost(i, j).unwrap();
        match d[i as usize].checked_add(cost) {
            Some(through) => {
                if through < d[j as usize] {
                    proof {
                        assert(d@[j as int] <= network.cost_bound());
                        lemma_relax_arc(network, source, d@, pred@, done, i, j, through);
                        lemma_heap_insert(network, source, heap.entries(), d@, done, j, through);
                    }
                    pred.set(j as usize, i);
                    d.set(j as usize, through);
                    heap.insert(j, through);
                }
            },
            None => {},
        }
        proof {
            assert(path_state(d@, pred@, done) == relax_arc(network, before, i, j));
        }
        k += 1;
    }
    proof {
        assert(relaxed(network, d@, i)) by {
            assert forall|w: NodeId|
                w < n && (#[trigger] network.successors(i).contains(w)) implies d@[w as int]
                <= d@[i as int] + arc_length(network, i, w) by {
                let l = choose|l: int| 0 <= l < adj@.len() && adj@[l] == w;
                assert(d@[adj@[l] as int] <= d@[i as int] + arc_length(network, i, adj@[l]));
            }
        }
        lemma_relaxed_all(network, source, d@, pred@, done, i);
    }
}

/// Dijkstra's algorithm with a binary heap: the nearest node that is not
/// settled is taken from a heap of (node, distance) entries. A node is
/// entered again whenever its distance improves; entries of nodes that are
/// settled already are passed over.
///
/// Returns for each node its predecessor on a shortest path from `source`
/// and its distance. A node without a path from `source`, or with none that
/// costs less than the network's cost bound, has the invalid id as
/// predecessor, as `source` has, and the cost bound as distance.
pub fn heap_dijkstra<N: Network>(network: &N, source: NodeId) -> (r: (NodeVec, CostVec))
    requires
        source < network.node_count(),
    ensures
        is_shortest_path_result(network, source, r.0@, r.1@),
        r.0@ == dijkstra_outcome(network, source).pred,
        r.1@ == dijkstra_outcome(network, source).dist,
{
    let n = network.num_nodes();
    let mut heap = BinaryHeap::new();
    let mut pred: NodeVec = filled(network.invalid_id(), n);
    let mut d: CostVec = filled(network.infinity(), n);
    let mut settled: Vec<bool> = filled(false, n);
    d.set(source as usize, 0);
    heap.insert(source, 0);
    let ghost mut left: nat = n as nat;
    proof {
        broadcast use vstd::multiset::group_multiset_axioms;

        lemma_dijkstra_start(network, source, d@, pred@, settled@);
        assert(heap.entries().contains(HeapMember { key: source, cost: 0 }));
        let begun = path_start(n as nat, source, network.cost_bound());
        assert(d@ =~= begun.dist);
        assert(pred@ =~= begun.pred);
        assert(settled@ =~= begun.done);
        lemma_count_unsettled_none(settled@);
    }
    while !heap.is_empty()
        invariant
            n == network.node_count(),
            dijkstra_inv(network, source, d@, pred@, settled@, -1),
            heap_inv(network, source, heap.entries(), d@, settled@),
            left == count_unsettled(settled@),
            dijkstra_run(network, path_state(d@, pred@, settled@), left).dist == dijkstra_outcome(
                network,
                source,
            ).dist,
            dijkstra_run(network, path_state(d@, pred@, settled@), left).pred == dijkstra_outcome(
                network,
                source,
            ).pred,
        decreases heap.entries().len() + pending_degree(network, settled@, n as nat),
    {
        let ghost least = min_entry(heap.entries());
        let ghost before = settled@;
        let ghost state = path_state(d@, pred@, settled@);
        let next_node = heap.find_min().unwrap();
        proof {
            lemma_heap_pop(network, source, heap.entries(), d@, settled@, least);
        }
        heap.delete_min();
        let i = next_node as usize;
        if !settled[i] {
            proof {
                lemma_settle(network, source, d@, pred@, settled@, i as int);
                lemma_pending_degree_settle(network, settled@, i as int, n as nat);
                lemma_count_unsettled_settle(settled@, i as int);
            }
            settled.set(i, true);
            relax_arcs_into(
                network,
                next_node,
                &mut pred,
                &mut d,
                &mut heap,
                Ghost(source),
                Ghost(settled@),
            );
            proof {
                let after = path_state(d@, pred@, settled@);
                assert(after == settle(network, state, next_node));
                if state.dist[i as int] < network.cost_bound() {
                    assert(!marked(state.done, i as int));
                    assert(is_nearest(state, i as int));
                    lemma_nearest_unique(state, i as int);
                } else {
                    assert(inert(network, state)) by {
                        assert(state.dist[source as int] == 0);
                        assert forall|v: int| 0 <= v < state.dist.len() implies #[trigger] state.dist[v]
                            == network.cost_bound() by {
                            assert(state.dist[v] <= network.cost_bound());
                        }
                    }
                    lemma_inert_settle(network, state, i as int);
                    lemma_inert_run(network, state, left);
                    lemma_inert_run(network, after, (left - 1) as nat);
                }
                left = (left - 1) as nat;
            }
        } else {
            proof {
                assert(before.update(i as int, true) =~= before);
            }
        }
    }
    proof {
        broadcast use vstd::multiset::group_multiset_axioms;

        assert forall|u: int| 0 <= u < n && !#[trigger] marked(settled@, u) implies d@[u]
            == network.cost_bound() by {
            if d@[u] < network.cost_bound() || u == source {
                assert(heap.entries().contains(HeapMember { key: u as NodeId, cost: d@[u] }));
            }
        }
        lemma_dijkstra_done(network, source, d@, pred@, settled@);
        lemma_inert_run(network, path_state(d@, pred@, settled@), left);
    }
    (pred, d)
}

/// Runs Dijkstra's algorithm from `source`, with a heap if `use_heap` is set
/// and with an array if not. Both give the same result.
pub fn dijkstra<N: Network>(network: &N, source: NodeId, use_heap: bool) -> (r: (NodeVec, CostVec))
    requires
        source < network.node_count(),
    ensures
        is_shortest_path_result(network, source, r.0@, r.1@),
        r.0@ == dijkstra_outcome(network, source).pred,
        r.1@ == dijkstra_outcome(network, source).dist,
{
    if use_heap {
        heap_dijkstra(network, source)
    } else {
        vanilla_dijkstra(network, source)
    }
}

/// The array strategy and the heap strategy return the same predecessors
/// and the same distances: what either returns is the outcome of settling
/// the nodes one by one, each time the nearest, and so is what the same
/// strategy returns when it is run again.
pub proof fn lemma_strategies_agree<N: Network>(
    net: &N,
    source: NodeId,
    by_array: (Seq<NodeId>, Seq<Cost>),
    by_heap: (Seq<NodeId>, Seq<Cost>),
)
    requires
        by_array.0 == dijkstra_outcome(net, source).pred,
        by_array.1 == dijkstra_outcome(net, source).dist,
        by_heap.0 == dijkstra_outcome(net, source).pred,
        by_heap.1 == dijkstra_outcome(net, source).dist,
    ensures
        by_array == by_heap,
{
}

/// Two descriptions of the shortest paths from one source give every node
/// the same distance, whichever cheapest walks their predecessors follow.
pub proof fn lemma_distances_agree<N: Network>(
    net: &N,
    source: NodeId,
    pred_a: Seq<NodeId>,
    dist_a: Seq<Cost>,
    pred_b: Seq<NodeId>,
    dist_b: Seq<Cost>,
)
    requires
        is_shortest_path_result(net, source, pred_a, dist_a),
        is_shortest_path_result(net, source, pred_b, dist_b),
    ensures
        dist_a == dist_b,
{
    let n = net.node_count();
    assert forall|v: int| 0 <= v < n implies dist_a[v] == dist_b[v] by {
        lemma_distance_bounded(net, source, pred_a, dist_a, pred_b, dist_b, v);
        lemma_distance_bounded(net, source, pred_b, dist_b, pred_a, dist_a, v);
    }
    assert(dist_a =~= dist_b);
}

proof fn lemma_distance_bounded<N: Network>(
    net: &N,
    source: NodeId,
    pred_a: Seq<NodeId>,
    dist_a: Seq<Cost>,
    pred_b: Seq<NodeId>,
    dist_b: Seq<Cost>,
    v: int,
)
    requires
        is_shortest_path_result(net, source, pred_a, dist_a),
        is_shortest_path_result(net, source, pred_b, dist_b),
        0 <= v < net.node_count(),
    ensures
        dist_b[v] <= dist_a[v],
{
    let n = net.node_count();
    let target = v as NodeId;
    assert(dist_b[v] <= net.cost_bound());
    if found(n, source, pred_a, v) {
        let p = choose|p: Seq<NodeId>| #[trigger]
            walk_between(net, p, source, target) && walk_cost(net, p) == dist_a[v];
        assert(no_walk_below(net, source, target, dist_b[v] as int));
    } else {
        assert(dist_a[v] == net.cost_bound());
    }
}

} // verus!
