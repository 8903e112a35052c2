//! Breadth-first and depth-first search, which are one algorithm run with a
//! queue or with a stack.

use crate::algorithms::walks::{
    closed_under_arcs, lemma_closed_holds_walk, lemma_walk_extend, lemma_walk_single, reachable,
    walk_between,
};
use crate::collections::{Collection, Queue, Stack};
use crate::{filled, Network, NodeId, NodeVec};
use vstd::prelude::*;

verus! {

/// What a search holds between two of its steps.
pub struct SearchState {
    /// The nodes under expansion, in the order in which they were found.
    pub pending: Seq<NodeId>,
    /// Which nodes have been found.
    pub marks: Seq<bool>,
    /// For each node the node from which it was found.
    pub pred: Seq<NodeId>,
    /// For each node its rank in the order of discovery.
    pub order: Seq<NodeId>,
    /// The rank given out last.
    pub next: int,
}

/// The first node of `adj` that is not marked.
pub open spec fn first_unmarked(adj: Seq<NodeId>, marks: Seq<bool>) -> Option<NodeId>
    decreases adj.len(),
{
    if adj.len() == 0 {
        None
    } else if !marks[adj[0] as int] {
        Some(adj[0])
    } else {
        first_unmarked(adj.drop_first(), marks)
    }
}

/// The state in which a search from `start` begins: only `start` is found,
/// and it alone is under expansion.
pub open spec fn search_start(n: nat, start: NodeId) -> SearchState {
    SearchState {
        pending: seq![start],
        marks: Seq::new(n, |v: int| v == start),
        pred: Seq::new(n, |v: int| n as NodeId),
        order: Seq::new(n, |v: int| 0 as NodeId),
        next: 0,
    }
}

/// The state after node `j` was found from node `i`.
pub open spec fn discovered(st: SearchState, i: NodeId, j: NodeId) -> SearchState {
    SearchState {
        pending: st.pending.push(j),
        marks: st.marks.update(j as int, true),
        pred: st.pred.update(j as int, i),
        order: st.order.update(j as int, (st.next + 1) as NodeId),
        next: st.next + 1,
    }
}

/// The state after the node at position `at` of the pending nodes was done with.
pub open spec fn retired(st: SearchState, at: int) -> SearchState {
    SearchState { pending: st.pending.remove(at), ..st }
}

/// One step of the search: the container shows a node without giving it up;
/// its first neighbour not yet found is marked, ranked and taken in; where
/// it has none, the node leaves the container.
pub open spec fn search_step<C: Collection, N: Network>(net: &N, st: SearchState) -> SearchState {
    let at = C::next_index(st.pending.len());
    let i = st.pending[at];
    match first_unmarked(net.successors(i), st.marks) {
        Some(j) => discovered(st, i, j),
        None => retired(st, at),
    }
}

/// The state after at most `steps` steps from `st`, fewer if the container
/// runs empty before.
pub open spec fn search_run<C: Collection, N: Network>(net: &N, st: SearchState, steps: nat) -> SearchState
    decreases steps,
{
    if steps == 0 || st.pending.len() == 0 {
        st
    } else {
        search_run::<C, N>(net, search_step::<C, N>(net, st), (steps - 1) as nat)
    }
}

/// The state in which the search from `start` ends. A search takes fewer
/// than two steps for each node.
pub open spec fn search_outcome<C: Collection, N: Network>(net: &N, start: NodeId) -> SearchState {
    search_run::<C, N>(net, search_start(net.node_count(), start), 2 * net.node_count())
}

/// Node `v` has been found: it is the start, or it has a predecessor.
pub open spec fn found(n: nat, start: NodeId, pred: Seq<NodeId>, v: int) -> bool {
    v == start || pred[v] != n
}

/// Some node that was found has rank `r`.
pub open spec fn rank_taken(n: nat, start: NodeId, pred: Seq<NodeId>, order: Seq<NodeId>, r: int) -> bool {
    exists|u: int| 0 <= u < n && #[trigger] found(n, start, pred, u) && order[u] == r
}

/// `pred` and `order` describe a search of the network from `start`:
/// - exactly the nodes that can be reached from `start` are found;
/// - the start has no predecessor and rank 0;
/// - every other node that was found has as predecessor a node found before
///   it, from which an arc leads to it;
/// - a node that was not found has the rank 0 that it began with;
/// - the nodes found have different ranks, and the ranks leave no gap.
pub open spec fn is_search_result<N: Network>(
    net: &N,
    start: NodeId,
    pred: Seq<NodeId>,
    order: Seq<NodeId>,
) -> bool {
    let n = net.node_count();
    &&& pred.len() == n
    &&& order.len() == n
    &&& pred[start as int] == n
    &&& order[start as int] == 0
    &&& forall|v: int|
        0 <= v < n ==> (#[trigger] found(n, start, pred, v) <==> reachable(net, start, v as NodeId))
    &&& forall|v: int|
        0 <= v < n && #[trigger] found(n, start, pred, v) && v != start ==> pred[v] < n && (
        pred[v] == start || pred[pred[v] as int] != n) && net.successors(pred[v]).contains(
            v as NodeId,
        ) && order[pred[v] as int] < order[v]
    &&& forall|v: int| 0 <= v < n && !#[trigger] found(n, start, pred, v) ==> order[v] == 0
    &&& forall|u: int, v: int|
        0 <= u < n && 0 <= v < n && #[trigger] found(n, start, pred, u) && #[trigger] found(
            n,
            start,
            pred,
            v,
        ) && u != v ==> order[u] != order[v]
    &&& forall|r: int, s: int|
        0 <= r <= s && #[trigger] rank_taken(n, start, pred, order, s) ==> #[trigger] rank_taken(
            n,
            start,
            pred,
            order,
            r,
        )
}

/// How many nodes are marked.
pub open spec fn count_marked(marks: Seq<bool>) -> nat
    decreases marks.len(),
{
    if marks.len() == 0 {
        0
    } else {
        count_marked(marks.drop_last()) + if marks.last() {
            1nat
        } else {
            0nat
        }
    }
}

/// Node `v` is marked.
pub open spec fn marked(marks: Seq<bool>, v: int) -> bool {
    marks[v]
}

/// Every neighbour of `v` is marked.
pub open spec fn neighbours_marked<N: Network>(net: &N, marks: Seq<bool>, v: NodeId) -> bool {
    forall|w: NodeId|
        w < net.node_count() && (#[trigger] net.successors(v).contains(w)) ==> marks[w as int]
}

/// What holds of a search from `start` between any two of its steps;
/// `visit` lists the nodes found, in the order of their discovery.
pub open spec fn search_inv<N: Network>(
    net: &N,
    start: NodeId,
    st: SearchState,
    visit: Seq<NodeId>,
) -> bool {
    let n = net.node_count();
    &&& start < n
    &&& n <= u32::MAX
    &&& st.marks.len() == n
    &&& st.pred.len() == n
    &&& st.order.len() == n
    &&& 0 <= st.next
    &&& count_marked(st.marks) == st.next + 1
    &&& st.marks[start as int]
    &&& st.pred[start as int] == n
    &&& st.order[start as int] == 0
    &&& forall|x: int|
        0 <= x < st.pending.len() ==> #[trigger] st.pending[x] < n && st.marks[st.pending[x] as int]
    &&& forall|v: int|
        0 <= v < n ==> (#[trigger] marked(st.marks, v) <==> (st.pred[v] != n || v == start))
    &&& forall|v: int|
        0 <= v < n && #[trigger] marked(st.marks, v) ==> reachable(net, start, v as NodeId)
    &&& forall|v: int|
        0 <= v < n && #[trigger] marked(st.marks, v) ==> st.pending.contains(v as NodeId)
            || neighbours_marked(net, st.marks, v as NodeId)
    &&& forall|v: int|
        0 <= v < n && #[trigger] marked(st.marks, v) && v != start ==> st.pred[v] < n
            && st.marks[st.pred[v] as int] && net.successors(st.pred[v]).contains(v as NodeId)
            && st.order[st.pred[v] as int] < st.order[v]
    &&& forall|v: int| 0 <= v < n && !#[trigger] marked(st.marks, v) ==> st.order[v] == 0
    &&& visit.len() == st.next + 1
    &&& forall|r: int|
        0 <= r < visit.len() ==> #[trigger] visit[r] < n && st.marks[visit[r] as int]
            && st.order[visit[r] as int] == r
    &&& forall|v: int|
        0 <= v < n && #[trigger] marked(st.marks, v) ==> 0 <= st.order[v] < visit.len()
            && visit[st.order[v] as int] == v
}

/// The number of steps that a search in state `st` has at most before it.
pub open spec fn steps_left(n: nat, st: SearchState) -> int {
    2 * (n - st.next - 1) + st.pending.len()
}

proof fn lemma_count_marked_bound(marks: Seq<bool>)
    ensures
        count_marked(marks) <= marks.len(),
    decreases marks.len(),
{
    if marks.len() > 0 {
        lemma_count_marked_bound(marks.drop_last());
    }
}

proof fn lemma_count_marked_update(marks: Seq<bool>, j: int)
    requires
        0 <= j < marks.len(),
        !marks[j],
    ensures
        count_marked(marks.update(j, true)) == count_marked(marks) + 1,
    decreases marks.len(),
{
    let after = marks.update(j, true);
    if j == marks.len() - 1 {
        assert(after.drop_last() =~= marks.drop_last());
    } else {
        lemma_count_marked_update(marks.drop_last(), j);
        assert(after.drop_last() =~= marks.drop_last().update(j, true));
    }
}

proof fn lemma_count_marked_start(marks: Seq<bool>, start: int, upto: nat)
    requires
        upto <= marks.len(),
        forall|v: int| 0 <= v < marks.len() ==> marks[v] == (v == start),
    ensures
        count_marked(marks.subrange(0, upto as int)) == if 0 <= start < upto {
            1nat
        } else {
            0nat
        },
    decreases upto,
{
    if upto > 0 {
        lemma_count_marked_start(marks, start, (upto - 1) as nat);
        assert(marks.subrange(0, upto as int).drop_last() =~= marks.subrange(0, upto - 1));
    }
}

/// What the first unmarked node of a list is: it stands in the list and is
/// not marked; where there is none, every node of the list is marked.
pub proof fn lemma_first_unmarked(adj: Seq<NodeId>, marks: Seq<bool>)
    ensures
        match first_unmarked(adj, marks) {
            Some(j) => adj.contains(j) && !marks[j as int],
            None => forall|l: int| 0 <= l < adj.len() ==> marks[#[trigger] adj[l] as int],
        },
    decreases adj.len(),
{
    if adj.len() > 0 && marks[adj[0] as int] {
        let rest = adj.drop_first();
        lemma_first_unmarked(rest, marks);
        match first_unmarked(rest, marks) {
            Some(j) => {
                let l = choose|l: int| 0 <= l < rest.len() && rest[l] == j;
                assert(adj[l + 1] == j);
            },
            None => {
                assert forall|l: int| 0 <= l < adj.len() implies marks[#[trigger] adj[l] as int] by {
                    if l > 0 {
                        assert(rest[l - 1] == adj[l]);
                    }
                }
            },
        }
    } else if adj.len() > 0 {
        assert(adj[0] == adj[0]);
    }
}

/// A list whose first `k` nodes are marked has as first unmarked node the
/// one at position `k`, if that one is not marked, and none if `k` is its length.
proof fn lemma_first_unmarked_at(adj: Seq<NodeId>, marks: Seq<bool>, k: int)
    requires
        0 <= k <= adj.len(),
        forall|l: int| 0 <= l < k ==> marks[#[trigger] adj[l] as int],
        k < adj.len() ==> !marks[adj[k] as int],
    ensures
        first_unmarked(adj, marks) == if k < adj.len() {
            Some(adj[k])
        } else {
            None
        },
    decreases k,
{
    if k > 0 {
        let rest = adj.drop_first();
        assert(marks[adj[0] as int]);
        assert forall|l: int| 0 <= l < k - 1 implies marks[#[trigger] rest[l] as int] by {
            assert(rest[l] == adj[l + 1]);
        }
        lemma_first_unmarked_at(rest, marks, k - 1);
    }
}

/// The search begins in a state of which the invariant holds.
proof fn lemma_search_start<N: Network>(net: &N, start: NodeId)
    requires
        start < net.node_count(),
        net.node_count() <= u32::MAX,
    ensures
        search_inv(net, start, search_start(net.node_count(), start), seq![start]),
{
    let n = net.node_count();
    let st = search_start(n, start);
    lemma_count_marked_start(st.marks, start as int, n);
    assert(st.marks.subrange(0, n as int) =~= st.marks);
    lemma_walk_single(net, start);
    assert(st.pending[0] == start);
    assert forall|v: int| 0 <= v < n && #[trigger] marked(st.marks, v) implies st.pending.contains(
        v as NodeId,
    ) || neighbours_marked(net, st.marks, v as NodeId) by {
        assert(st.pending[0] == v);
    }
}

/// Finding a node keeps the invariant.
proof fn lemma_discover<N: Network>(
    net: &N,
    start: NodeId,
    st: SearchState,
    visit: Seq<NodeId>,
    at: int,
    j: NodeId,
)
    requires
        search_inv(net, start, st, visit),
        0 <= at < st.pending.len(),
        j < net.node_count(),
        !st.marks[j as int],
        net.successors(st.pending[at]).contains(j),
    ensures
        search_inv(net, start, discovered(st, st.pending[at], j), visit.push(j)),
        st.next + 2 <= net.node_count(),
{
    let n = net.node_count();
    let i = st.pending[at];
    let after = discovered(st, i, j);
    let seen = visit.push(j);
    lemma_count_marked_update(st.marks, j as int);
    lemma_count_marked_bound(after.marks);
    assert(marked(st.marks, i as int));
    assert(!marked(st.marks, j as int));
    assert(reachable(net, start, j)) by {
        let p = choose|p: Seq<NodeId>| walk_between(net, p, start, i);
        lemma_walk_extend(net, p, start, i, j);
    }
    assert forall|x: int| 0 <= x < after.pending.len() implies #[trigger] after.pending[x] < n
        && after.marks[after.pending[x] as int] by {
        if x < st.pending.len() {
            assert(after.pending[x] == st.pending[x]);
        }
    }
    assert forall|v: int| 0 <= v < n implies (#[trigger] marked(after.marks, v) <==> (after.pred[v]
        != n || v == start)) by {
        assert(marked(st.marks, v) <==> (st.pred[v] != n || v == start));
    }
    assert forall|v: int| 0 <= v < n && #[trigger] marked(after.marks, v) implies reachable(
        net,
        start,
        v as NodeId,
    ) by {
        if v != j {
            assert(marked(st.marks, v));
        }
    }
    assert forall|v: int| 0 <= v < n && #[trigger] marked(after.marks, v) implies after.pending.contains(
        v as NodeId,
    ) || neighbours_marked(net, after.marks, v as NodeId) by {
        if v == j {
            assert(after.pending[st.pending.len() as int] == j);
        } else {
            assert(marked(st.marks, v));
            if st.pending.contains(v as NodeId) {
                let x = choose|x: int| 0 <= x < st.pending.len() && st.pending[x] == v;
                assert(after.pending[x] == v);
            } else {
                assert(neighbours_marked(net, st.marks, v as NodeId));
            }
        }
    }
    assert forall|v: int| 0 <= v < n && #[trigger] marked(after.marks, v) && v != start implies after.pred[v]
        < n && after.marks[after.pred[v] as int] && net.successors(after.pred[v]).contains(
        v as NodeId,
    ) && after.order[after.pred[v] as int] < after.order[v] by {
        if v != j {
            assert(marked(st.marks, v));
        }
    }
    assert forall|v: int| 0 <= v < n && !#[trigger] marked(after.marks, v) implies after.order[v]
        == 0 by {
        assert(!marked(st.marks, v));
    }
    assert forall|r: int| 0 <= r < seen.len() implies #[trigger] seen[r] < n
        && after.marks[seen[r] as int] && after.order[seen[r] as int] == r by {
        if r < visit.len() {
            assert(seen[r] == visit[r]);
        }
    }
    assert forall|v: int| 0 <= v < n && #[trigger] marked(after.marks, v) implies 0
        <= after.order[v] < seen.len() && seen[after.order[v] as int] == v by {
        if v != j {
            assert(marked(st.marks, v));
            assert(seen[st.order[v] as int] == visit[st.order[v] as int]);
        }
    }
}

/// Giving up a node whose neighbours are all found keeps the invariant.
proof fn lemma_retire<N: Network>(
    net: &N,
    start: NodeId,
    st: SearchState,
    visit: Seq<NodeId>,
    at: int,
)
    requires
        search_inv(net, start, st, visit),
        0 <= at < st.pending.len(),
        neighbours_marked(net, st.marks, st.pending[at]),
    ensures
        search_inv(net, start, retired(st, at), visit),
{
    let n = net.node_count();
    let after = retired(st, at);
    assert forall|x: int| 0 <= x < after.pending.len() implies #[trigger] after.pending[x] < n
        && after.marks[after.pending[x] as int] by {
        if x < at {
            assert(after.pending[x] == st.pending[x]);
        } else {
            assert(after.pending[x] == st.pending[x + 1]);
        }
    }
    assert forall|v: int| 0 <= v < n && #[trigger] marked(after.marks, v) implies after.pending.contains(
        v as NodeId,
    ) || neighbours_marked(net, after.marks, v as NodeId) by {
        assert(marked(st.marks, v));
        if v != st.pending[at] && st.pending.contains(v as NodeId) {
            let x = choose|x: int| 0 <= x < st.pending.len() && st.pending[x] == v;
            if x < at {
                assert(after.pending[x] == v);
            } else {
                assert(after.pending[x - 1] == v);
            }
        }
    }
}

/// When no node is under expansion, exactly the nodes within reach of the
/// start are found, and the ranks describe the order of discovery.
proof fn lemma_search_done<N: Network>(net: &N, start: NodeId, st: SearchState, visit: Seq<NodeId>)
    requires
        search_inv(net, start, st, visit),
        st.pending.len() == 0,
    ensures
        is_search_result(net, start, st.pred, st.order),
{
    let n = net.node_count();
    assert(closed_under_arcs(net, st.marks)) by {
        assert forall|u: NodeId, w: NodeId|
            u < n && st.marks[u as int] && w < n && (#[trigger] net.successors(u).contains(
                w,
            )) implies st.marks[w as int] by {
            assert(marked(st.marks, u as int));
            assert(!st.pending.contains(u));
            assert(neighbours_marked(net, st.marks, u));
        }
    }
    assert forall|v: int| 0 <= v < n implies (#[trigger] found(n, start, st.pred, v) <==> reachable(
        net,
        start,
        v as NodeId,
    )) by {
        assert(marked(st.marks, v) <==> (st.pred[v] != n || v == start));
        let target = v as NodeId;
        if reachable(net, start, target) {
            let p = choose|p: Seq<NodeId>| walk_between(net, p, start, target);
            lemma_closed_holds_walk(net, st.marks, p, start, target);
        }
    }
    assert forall|v: int|
        0 <= v < n && #[trigger] found(n, start, st.pred, v) && v != start implies st.pred[v]
        < n && (st.pred[v] == start || st.pred[st.pred[v] as int] != n) && net.successors(
        st.pred[v],
    ).contains(v as NodeId) && st.order[st.pred[v] as int] < st.order[v] by {
        assert(marked(st.marks, v));
        assert(marked(st.marks, st.pred[v] as int));
    }
    assert forall|v: int| 0 <= v < n && !#[trigger] found(n, start, st.pred, v) implies st.order[v]
        == 0 by {
        assert(!marked(st.marks, v));
    }
    assert forall|u: int, v: int|
        0 <= u < n && 0 <= v < n && #[trigger] found(n, start, st.pred, u) && #[trigger] found(
            n,
            start,
            st.pred,
            v,
        ) && u != v implies st.order[u] != st.order[v] by {
        assert(marked(st.marks, u));
        assert(marked(st.marks, v));
    }
    assert forall|r: int, s: int|
        0 <= r <= s && #[trigger] rank_taken(n, start, st.pred, st.order, s) implies #[trigger] rank_taken(
        n,
        start,
        st.pred,
        st.order,
        r,
    ) by {
        let u = choose|u: int| 0 <= u < n && #[trigger] found(n, start, st.pred, u) && st.order[u] == s;
        assert(marked(st.marks, u));
        let w = visit[r] as int;
        assert(marked(st.marks, w));
        assert(found(n, start, st.pred, w));
    }
}

/// Returns the first node of `adj` that is not marked.
fn first_unvisited(adj: &Vec<NodeId>, marks: &Vec<bool>) -> (r: Option<NodeId>)
    requires
        forall|l: int| 0 <= l < adj.len() ==> adj[l] < marks.len(),
    ensures
        r == first_unmarked(adj@, marks@),
{
    let mut k: usize = 0;
    while k < adj.len()
        invariant
            k <= adj.len(),
            forall|l: int| 0 <= l < adj.len() ==> adj[l] < marks.len(),
            forall|l: int| 0 <= l < k ==> marks@[#[trigger] adj@[l] as int],
        decreases adj.len() - k,
    {
        let candidate = adj[k];
        if !marks[candidate as usize] {
            proof {
                lemma_first_unmarked_at(adj@, marks@, k as int);
            }
            return Some(candidate);
        }
        k += 1;
    }
    proof {
        lemma_first_unmarked_at(adj@, marks@, k as int);
    }
    None
}

/// Searches the network from `start` with `to_process` as the container of
/// the nodes under expansion, and returns the predecessor and the rank of
/// each node.
fn search<C: Collection, N: Network>(network: &N, to_process: &mut C, start: NodeId) -> (r: (
    NodeVec,
    NodeVec,
))
    requires
        start < network.node_count(),
        old(to_process).elements().len() == 0,
    ensures
        is_search_result(network, start, r.0@, r.1@),
        search_outcome::<C, N>(network, start).pending.len() == 0,
        r.0@ == search_outcome::<C, N>(network, start).pred,
        r.1@ == search_outcome::<C, N>(network, start).order,
        final(to_process).elements().len() == 0,
{
    let n = network.num_nodes();
    let no_pred = network.invalid_id();
    let mut pred: NodeVec = filled(no_pred, n);
    let mut order: NodeVec = filled(0, n);
    let mut marks: Vec<bool> = filled(false, n);
    let mut next: NodeId = 0;
    marks.set(start as usize, true);
    to_process.push(start);
    let ghost mut st = search_start(n as nat, start);
    let ghost mut visit = seq![start];
    let ghost mut steps: nat = 2 * (n as nat);
    proof {
        lemma_search_start(network, start);
        assert(marks@ =~= st.marks);
        assert(to_process.elements() =~= st.pending);
    }
    while !to_process.is_empty()
        invariant
            n == network.node_count(),
            no_pred == n,
            st.pending == to_process.elements(),
            st.marks == marks@,
            st.pred == pred@,
            st.order == order@,
            st.next == next,
            search_inv(network, start, st, visit),
            search_run::<C, N>(network, st, steps) == search_outcome::<C, N>(network, start),
            steps >= steps_left(n as nat, st),
        decreases steps_left(n as nat, st),
    {
        proof {
            C::next_index_in_range(st.pending.len());
            lemma_count_marked_bound(st.marks);
        }
        let ghost at = C::next_index(st.pending.len());
        let i = *to_process.peek().unwrap();
        let adj = network.adjacent(i);
        let candidate = first_unvisited(&adj, &marks);
        proof {
            lemma_first_unmarked(adj@, marks@);
        }
        match candidate {
            Some(j) => {
                proof {
                    let l = choose|l: int| 0 <= l < adj@.len() && adj@[l] == j;
                    assert(adj[l] < n);
                    lemma_discover(network, start, st, visit, at, j);
                    st = discovered(st, i, j);
                    visit = visit.push(j);
                }
                marks.set(j as usize, true);
                pred.set(j as usize, i);
                next += 1;
                order.set(j as usize, next);
                to_process.push(j);
            },
            None => {
                proof {
                    assert(neighbours_marked(network, st.marks, i)) by {
                        assert forall|w: NodeId|
                            w < n && (#[trigger] network.successors(i).contains(
                                w,
                            )) implies st.marks[w as int] by {
                            let l = choose|l: int| 0 <= l < adj@.len() && adj@[l] == w;
                            assert(marks@[adj@[l] as int]);
                        }
                    }
                    lemma_retire(network, start, st, visit, at);
                    st = retired(st, at);
                }
                to_process.pop();
            },
        }
        proof {
            steps = (steps - 1) as nat;
        }
    }
    proof {
        lemma_search_done(network, start, st, visit);
    }
    (pred, order)
}

/// Returns the result of a breadth-first search from node `start`: the
/// predecessor of each node on the way by which the search found it, and
/// the rank of each node in the order in which the nodes were found.
///
/// A node that the search did not reach has the invalid id as predecessor,
/// as the start has, and rank 0.
pub fn breadth_first_search<N: Network>(network: &N, start: NodeId) -> (r: (NodeVec, NodeVec))
    requires
        start < network.node_count(),
    ensures
        is_search_result(network, start, r.0@, r.1@),
        r.0@ == search_outcome::<Queue, N>(network, start).pred,
        r.1@ == search_outcome::<Queue, N>(network, start).order,
{
    let n = network.num_nodes();
    let mut queue = Queue::with_capacity(n);
    search(network, &mut queue, start)
}

/// Returns the result of a depth-first search from node `start`: the
/// predecessor of each node on the way by which the search found it, and
/// the rank of each node in the order in which the nodes were found.
///
/// A node that the search did not reach has the invalid id as predecessor,
/// as the start has, and rank 0.
pub fn depth_first_search<N: Network>(network: &N, start: NodeId) -> (r: (NodeVec, NodeVec))
    requires
        start < network.node_count(),
    ensures
        is_search_result(network, start, r.0@, r.1@),
        r.0@ == search_outcome::<Stack, N>(network, start).pred,
        r.1@ == search_outcome::<Stack, N>(network, start).order,
{
    let n = network.num_nodes();
    let mut stack = Stack::with_capacity(n);
    search(network, &mut stack, start)
}

/// A breadth-first and a depth-first search from the same start find the
/// same nodes, whatever the ways by which they find them.
pub proof fn lemma_searches_find_the_same<N: Network>(
    net: &N,
    start: NodeId,
    pred_a: Seq<NodeId>,
    order_a: Seq<NodeId>,
    pred_b: Seq<NodeId>,
    order_b: Seq<NodeId>,
)
    requires
        is_search_result(net, start, pred_a, order_a),
        is_search_result(net, start, pred_b, order_b),
    ensures
        forall|v: int|
            0 <= v < net.node_count() ==> (found(net.node_count(), start, pred_a, v) <==> found(
                net.node_count(),
                start,
                pred_b,
                v,
            )),
{
}

/// A search run again on the same network, from the same start and with the
/// same kind of container, returns the same predecessors and the same ranks.
pub proof fn lemma_search_repeats<C: Collection, N: Network>(
    net: &N,
    start: NodeId,
    first: (Seq<NodeId>, Seq<NodeId>),
    second: (Seq<NodeId>, Seq<NodeId>),
)
    requires
        first.0 == search_outcome::<C, N>(net, start).pred,
        first.1 == search_outcome::<C, N>(net, start).order,
        second.0 == search_outcome::<C, N>(net, start).pred,
        second.1 == search_outcome::<C, N>(net, start).order,
    ensures
        first == second,
{
}

} // verus!
