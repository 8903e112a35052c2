//! The compact star representation of a network: the arcs stored grouped by
//! their source node, with an index of where each node's arcs begin, and a
//! second index that groups the arcs by their target node.
//!
//! See Ahuja, Magnanti, Orlin: "Network Flows" for details.

use crate::grouping::{
    count_below, group_by_key, is_grouping, keys_below, lemma_grouping_offsets,
    lemma_positions_complete, lemma_positions_sound, positions_of,
};
use crate::{Capacity, Cost, CostVec, Network, NodeId, NodeVec};
use vstd::prelude::*;

verus! {

/// One arc: source, target, cost (length) and capacity.
pub type Edge = (NodeId, NodeId, Cost, Capacity);

/// The sources of a list of arcs.
pub open spec fn sources(edges: Seq<Edge>) -> Seq<NodeId> {
    Seq::new(edges.len(), |a: int| edges[a].0)
}

/// The targets of a list of arcs.
pub open spec fn heads(edges: Seq<Edge>) -> Seq<NodeId> {
    Seq::new(edges.len(), |a: int| edges[a].1)
}

/// The arcs of `edges` that leave node `i`, in the order in which they stand
/// in `edges`.
pub open spec fn arcs_leaving(edges: Seq<Edge>, i: int) -> Seq<Edge> {
    let at = positions_of(sources(edges), i);
    Seq::new(at.len(), |r: int| edges[at[r]])
}

/// `edges` sorted by source, arcs of one source keeping their order: the
/// arcs that leave node 0, then those that leave node 1, up to node `n - 1`.
pub open spec fn grouped_by_source(edges: Seq<Edge>, n: nat) -> Seq<Edge>
    decreases n,
{
    if n == 0 {
        Seq::empty()
    } else {
        grouped_by_source(edges, (n - 1) as nat) + arcs_leaving(edges, n - 1)
    }
}

/// The sum of the costs of `edges`.
pub open spec fn total_cost(edges: Seq<Edge>) -> int
    decreases edges.len(),
{
    if edges.len() == 0 {
        0
    } else {
        total_cost(edges.drop_last()) + edges.last().2
    }
}

/// The first position of `s` that holds `x`; the length of `s` if none does.
pub open spec fn first_position(s: Seq<NodeId>, x: NodeId) -> int
    decreases s.len(),
{
    if s.len() == 0 {
        0
    } else if s[0] == x {
        0
    } else {
        1 + first_position(s.drop_first(), x)
    }
}

/// A position before which `x` does not occur, and which holds `x` or ends
/// the list, is the first position of `x`.
pub proof fn lemma_first_position_is(s: Seq<NodeId>, x: NodeId, k: int)
    requires
        0 <= k <= s.len(),
        forall|l: int| 0 <= l < k ==> s[l] != x,
        k < s.len() ==> s[k] == x,
    ensures
        first_position(s, x) == k,
    decreases k,
{
    if k > 0 {
        let rest = s.drop_first();
        assert(s[0] != x);
        assert forall|l: int| 0 <= l < k - 1 implies rest[l] != x by {
            assert(rest[l] == s[l + 1]);
        }
        lemma_first_position_is(rest, x, k - 1);
    }
}

/// The first position of `x` lies in the list exactly if `x` occurs there;
/// it then holds `x`, and no earlier position does.
pub proof fn lemma_first_position(s: Seq<NodeId>, x: NodeId)
    ensures
        0 <= first_position(s, x) <= s.len(),
        first_position(s, x) < s.len() <==> s.contains(x),
        first_position(s, x) < s.len() ==> s[first_position(s, x)] == x,
        forall|l: int| 0 <= l < first_position(s, x) ==> s[l] != x,
    decreases s.len(),
{
    if s.len() > 0 && s[0] != x {
        let rest = s.drop_first();
        lemma_first_position(rest, x);
        let k = first_position(rest, x);
        assert forall|l: int| 0 <= l < k + 1 implies s[l] != x by {
            if l > 0 {
                assert(rest[l - 1] == s[l]);
            }
        }
        if k < rest.len() {
            assert(s[k + 1] == rest[k]);
        }
        if s.contains(x) {
            let l = choose|l: int| 0 <= l < s.len() && s[l] == x;
            assert(rest[l - 1] == x);
        }
    }
}

/// Why a list of arcs is not a network.
#[derive(Clone, Copy, Debug, PartialEq, Eq, Structural)]
pub enum BuildError {
    /// The node ids, and the id that stands for "no node", do not fit in `NodeId`.
    TooManyNodes,
    /// The positions of the arcs do not fit in `NodeId`.
    TooManyArcs,
    /// An arc names a node that is not among `0..n`.
    NodeOutOfRange,
    /// The sum of all costs, which stands for "unreachable", does not fit in `Cost`.
    CostOverflow,
}

/// The reason, if there is one, for which `edges` on `nodes` nodes is not a
/// network. When several apply, the first of the list is given.
pub open spec fn build_error(nodes: usize, edges: Seq<Edge>) -> Option<BuildError> {
    if nodes > u32::MAX {
        Some(BuildError::TooManyNodes)
    } else if edges.len() > u32::MAX {
        Some(BuildError::TooManyArcs)
    } else if exists|a: int| 0 <= a < edges.len() && !arc_in_range(nodes, #[trigger] edges[a]) {
        Some(BuildError::NodeOutOfRange)
    } else if total_cost(edges) > u64::MAX {
        Some(BuildError::CostOverflow)
    } else {
        None
    }
}

/// Both ends of `e` are nodes of a network of `nodes` nodes.
pub open spec fn arc_in_range(nodes: usize, e: Edge) -> bool {
    e.0 < nodes && e.1 < nodes
}

/// The parts of a compact star fit together: the arcs stand grouped by
/// source, `point` says where each group begins, every arc joins two nodes,
/// and `rpoint` with `trace` groups the arcs by target.
spec fn parts_wf(
    point: Seq<NodeId>,
    rpoint: Seq<NodeId>,
    tail: Seq<NodeId>,
    head: Seq<NodeId>,
    trace: Seq<NodeId>,
    costs: Seq<Cost>,
    capacities: Seq<Capacity>,
) -> bool {
    let n = point.len() - 1;
    let m = head.len();
    &&& point.len() >= 1
    &&& n <= u32::MAX
    &&& m <= u32::MAX
    &&& tail.len() == m
    &&& costs.len() == m
    &&& capacities.len() == m
    &&& keys_below(tail, n as nat)
    &&& keys_below(head, n as nat)
    &&& point[0] == 0
    &&& point[n] == m
    &&& forall|a: int, b: int| 0 <= a <= b <= n ==> #[trigger] point[a] <= #[trigger] point[b]
    &&& forall|a: int| 0 <= a < m ==> point[tail[a] as int] <= a < point[#[trigger] tail[a] + 1]
    &&& is_grouping(head, n as nat, rpoint, trace)
}

/// A network in compact star representation. It is built once and not
/// changed afterwards.
#[derive(Debug, PartialEq, Eq)]
pub struct CompactStar {
    point: NodeVec,
    rpoint: NodeVec,
    tail: NodeVec,
    head: NodeVec,
    trace: NodeVec,
    costs: CostVec,
    capacities: Vec<Capacity>,
    cost_sum: Cost,
}

impl CompactStar {
    /// The representation is consistent: the arcs stand grouped by source,
    /// `point` says where each group begins, every arc joins two nodes,
    /// and `rpoint` with `trace` groups the arcs by target.
    pub closed spec fn wf(&self) -> bool {
        parts_wf(
            self.point@,
            self.rpoint@,
            self.tail@,
            self.head@,
            self.trace@,
            self.costs@,
            self.capacities@,
        )
    }

    #[verifier::type_invariant]
    spec fn inv(&self) -> bool {
        self.wf()
    }

    /// The arcs in the order in which they are stored.
    pub closed spec fn arcs(&self) -> Seq<Edge> {
        Seq::new(
            self.head.len() as nat,
            |a: int| (self.tail@[a], self.head@[a], self.costs@[a], self.capacities@[a]),
        )
    }

    /// Where the arcs of each node begin among the stored arcs; one entry
    /// more than there are nodes.
    pub closed spec fn offsets(&self) -> Seq<NodeId> {
        self.point@
    }

    /// Where the arcs that enter each node begin in `reverse_order`.
    pub closed spec fn reverse_offsets(&self) -> Seq<NodeId> {
        self.rpoint@
    }

    /// The positions of the stored arcs, grouped by target.
    pub closed spec fn reverse_order(&self) -> Seq<NodeId> {
        self.trace@
    }

    /// The position among the stored arcs of the first arc from `from` to `to`.
    pub closed spec fn arc_index(&self, from: NodeId, to: NodeId) -> Option<int> {
        let s = self.successors(from);
        let k = first_position(s, to);
        if k < s.len() {
            Some(self.point@[from as int] + k)
        } else {
            None
        }
    }

    /// A well-formed star whose arcs are `given`, sorted as a grouping of
    /// their sources says, is the network of `given`.
    proof fn lemma_represents(self, nodes: usize, given: Seq<Edge>, order: Seq<NodeId>)
        requires
            self.wf(),
            self.point@.len() == nodes + 1,
            keys_below(sources(given), nodes as nat),
            is_grouping(sources(given), nodes as nat, self.point@, order),
            sorted_by(given, order, self.arcs()),
            self.cost_sum == total_cost(given),
        ensures
            represents(self, nodes, given),
    {
        let n = nodes as nat;
        let sorted = self.arcs();
        lemma_grouping_offsets(sources(given), n, self.point@, order);
        lemma_sorted_prefix(given, n, self.point@, order, sorted, n);
        assert(sorted.subrange(0, given.len() as int) =~= sorted);
        assert(heads(sorted) =~= self.head@);
        assert forall|i: NodeId| i < nodes implies #[trigger] self.successors(i) == heads(
            arcs_leaving(given, i as int),
        ) by {
            lemma_sorted_group(given, n, self.point@, order, sorted, i as int);
            assert(self.successors(i) =~= heads(arcs_leaving(given, i as int)));
        }
        assert forall|i: NodeId, j: NodeId| i < nodes implies (#[trigger] self.arc_cost(i, j)
            == match first_arc_to(arcs_leaving(given, i as int), j) {
            Some(e) => Some(e.2),
            None => None,
        }) by {
            self.lemma_lookup(nodes, given, order, i, j);
        }
        assert forall|i: NodeId, j: NodeId| i < nodes implies (#[trigger] self.arc_capacity(i, j)
            == match first_arc_to(arcs_leaving(given, i as int), j) {
            Some(e) => Some(e.3),
            None => None,
        }) by {
            self.lemma_lookup(nodes, given, order, i, j);
        }
    }

    /// Looking an arc up in the star finds the first arc to `j` among those
    /// that leave `i` in `given`.
    proof fn lemma_lookup(self, nodes: usize, given: Seq<Edge>, order: Seq<NodeId>, i: NodeId, j: NodeId)
        requires
            self.wf(),
            self.point@.len() == nodes + 1,
            keys_below(sources(given), nodes as nat),
            is_grouping(sources(given), nodes as nat, self.point@, order),
            sorted_by(given, order, self.arcs()),
            i < nodes,
        ensures
            self.successors(i) == heads(arcs_leaving(given, i as int)),
            match first_arc_to(arcs_leaving(given, i as int), j) {
                Some(e) => self.arc_cost(i, j) == Some(e.2) && self.arc_capacity(i, j) == Some(e.3),
                None => self.arc_cost(i, j).is_none() && self.arc_capacity(i, j).is_none(),
            },
    {
        let sorted = self.arcs();
        lemma_sorted_group(given, nodes as nat, self.point@, order, sorted, i as int);
        assert(self.successors(i) =~= heads(arcs_leaving(given, i as int)));
        lemma_first_position(self.successors(i), j);
        let k = first_position(self.successors(i), j);
        if k < self.successors(i).len() {
            let part = sorted.subrange(self.point@[i as int] as int, self.point@[i + 1] as int);
            assert(part[k] == sorted[self.point@[i as int] + k]);
        }
    }

    /// An empty network, of no nodes and no arcs, with room for the indexes
    /// of `nodes` nodes and for `edges` arcs.
    pub fn new(nodes: usize, edges: usize) -> (star: CompactStar)
        ensures
            star.wf(),
            star.node_count() == 0,
            star.arc_count() == 0,
            star.cost_bound() == 0,
    {
        let index_len = if nodes < usize::MAX {
            nodes + 1
        } else {
            nodes
        };
        let mut point: NodeVec = Vec::with_capacity(index_len);
        let mut rpoint: NodeVec = Vec::with_capacity(index_len);
        point.push(0);
        rpoint.push(0);
        let tail: NodeVec = Vec::with_capacity(edges);
        let head: NodeVec = Vec::with_capacity(edges);
        let trace: NodeVec = Vec::with_capacity(edges);
        let costs: CostVec = Vec::with_capacity(edges);
        let capacities: Vec<Capacity> = Vec::with_capacity(edges);
        proof {
            assert(count_below(head@, 0) == 0);
        }
        CompactStar { point, rpoint, tail, head, trace, costs, capacities, cost_sum: 0 }
    }

    /// Where the arcs of each node begin among the stored arcs.
    pub fn point(&self) -> (r: &NodeVec)
        ensures
            r@ == self.offsets(),
    {
        &self.point
    }

    /// Where the arcs that enter each node begin in `trace`.
    pub fn rpoint(&self) -> (r: &NodeVec)
        ensures
            r@ == self.reverse_offsets(),
    {
        &self.rpoint
    }

    /// The positions of the stored arcs, grouped by target.
    pub fn trace(&self) -> (r: &NodeVec)
        ensures
            r@ == self.reverse_order(),
    {
        &self.trace
    }

    /// The sources of the stored arcs.
    pub fn tail(&self) -> (r: &NodeVec)
        ensures
            r@ == sources(self.arcs()),
    {
        proof {
            use_type_invariant(self);
            assert(self.tail@ =~= sources(self.arcs()));
        }
        &self.tail
    }

    /// The targets of the stored arcs.
    pub fn head(&self) -> (r: &NodeVec)
        ensures
            r@ == heads(self.arcs()),
    {
        proof {
            assert(self.head@ =~= heads(self.arcs()));
        }
        &self.head
    }

    /// The costs of the stored arcs.
    pub fn costs(&self) -> (r: &CostVec)
        ensures
            r@ == Seq::new(self.arcs().len(), |a: int| self.arcs()[a].2),
    {
        proof {
            use_type_invariant(self);
            assert(self.costs@ =~= Seq::new(self.arcs().len(), |a: int| self.arcs()[a].2));
        }
        &self.costs
    }

    /// The capacities of the stored arcs.
    pub fn capacities(&self) -> (r: &Vec<Capacity>)
        ensures
            r@ == Seq::new(self.arcs().len(), |a: int| self.arcs()[a].3),
    {
        proof {
            use_type_invariant(self);
            assert(self.capacities@ =~= Seq::new(self.arcs().len(), |a: int| self.arcs()[a].3));
        }
        &self.capacities
    }

    /// Returns the position among the stored arcs of the first arc from
    /// `from` to `to`.
    pub fn get_head(&self, from: NodeId, to: NodeId) -> (r: Option<NodeId>)
        ensures
            match self.arc_index(from, to) {
                Some(a) => r == Some(a as NodeId) && 0 <= a < self.arc_count(),
                None => r.is_none(),
            },
            r.is_some() == self.successors(from).contains(to),
    {
        proof {
            use_type_invariant(self);
            lemma_first_position(self.successors(from), to);
        }
        let i = from as usize;
        if i >= self.point.len() - 1 {
            return None;
        }
        let lower = self.point[i] as usize;
        let upper = self.point[i + 1] as usize;
        let ghost s = self.successors(from);
        let mut index = lower;
        while index < upper
            invariant
                self.wf(),
                i == from,
                i < self.point.len() - 1,
                lower == self.point@[i as int],
                upper == self.point@[i + 1],
                lower <= index <= upper,
                s == self.head@.subrange(lower as int, upper as int),
                forall|l: int| 0 <= l < index - lower ==> s[l] != to,
            decreases upper - index,
        {
            assert(self.point@[i + 1] <= self.point@[self.point.len() - 1]);
            if self.head[index] == to {
                proof {
                    assert(s[index - lower] == to);
                    lemma_first_position_is(s, to, index - lower);
                }
                return Some(index as NodeId);
            }
            index += 1;
        }
        proof {
            lemma_first_position_is(s, to, upper - lower);
        }
        None
    }
}

/// The first arc of `arcs` that enters `to`.
pub open spec fn first_arc_to(arcs: Seq<Edge>, to: NodeId) -> Option<Edge> {
    let k = first_position(heads(arcs), to);
    if k < arcs.len() {
        Some(arcs[k])
    } else {
        None
    }
}

/// `star` is the network of `nodes` nodes whose arcs are `edges`.
pub open spec fn represents(star: CompactStar, nodes: usize, edges: Seq<Edge>) -> bool {
    &&& star.wf()
    &&& star.node_count() == nodes
    &&& star.arc_count() == edges.len()
    &&& star.cost_bound() == total_cost(edges)
    &&& star.arcs() == grouped_by_source(edges, nodes as nat)
    &&& star.offsets().len() == nodes + 1
    &&& forall|k: int|
        0 <= k <= nodes ==> #[trigger] star.offsets()[k] == count_below(sources(edges), k as nat)
    &&& forall|i: NodeId|
        i < nodes ==> #[trigger] star.successors(i) == heads(arcs_leaving(edges, i as int))
    &&& forall|i: NodeId, j: NodeId|
        i < nodes ==> #[trigger] star.arc_cost(i, j) == match first_arc_to(
            arcs_leaving(edges, i as int),
            j,
        ) {
            Some(e) => Some(e.2),
            None => None,
        }
    &&& forall|i: NodeId, j: NodeId|
        i < nodes ==> #[trigger] star.arc_capacity(i, j) == match first_arc_to(
            arcs_leaving(edges, i as int),
            j,
        ) {
            Some(e) => Some(e.3),
            None => None,
        }
    &&& is_grouping(heads(star.arcs()), nodes as nat, star.reverse_offsets(), star.reverse_order())
}

proof fn lemma_total_cost_step(edges: Seq<Edge>, t: int)
    requires
        0 <= t < edges.len(),
    ensures
        total_cost(edges.subrange(0, t + 1)) == total_cost(edges.subrange(0, t)) + edges[t].2,
{
    assert(edges.subrange(0, t + 1).drop_last() =~= edges.subrange(0, t));
}

proof fn lemma_total_cost_prefix(edges: Seq<Edge>, t: int)
    requires
        0 <= t <= edges.len(),
    ensures
        0 <= total_cost(edges.subrange(0, t)) <= total_cost(edges),
    decreases edges.len() - t,
{
    if t == edges.len() {
        assert(edges.subrange(0, t) =~= edges);
        lemma_total_cost_nonnegative(edges);
    } else {
        lemma_total_cost_prefix(edges, t + 1);
        lemma_total_cost_step(edges, t);
        lemma_total_cost_nonnegative(edges.subrange(0, t));
    }
}

proof fn lemma_total_cost_nonnegative(edges: Seq<Edge>)
    ensures
        0 <= total_cost(edges),
    decreases edges.len(),
{
    if edges.len() > 0 {
        lemma_total_cost_nonnegative(edges.drop_last());
    }
}

/// `sorted` lists the arcs of `edges` in the order that a grouping of their
/// sources gives.
spec fn sorted_by(edges: Seq<Edge>, order: Seq<NodeId>, sorted: Seq<Edge>) -> bool {
    &&& sorted.len() == edges.len()
    &&& order.len() == edges.len()
    &&& forall|a: int|
        0 <= a < edges.len() ==> 0 <= order[a] < edges.len() && #[trigger] sorted[a]
            == edges[order[a] as int]
}

proof fn lemma_sorted_group(
    edges: Seq<Edge>,
    n: nat,
    point: Seq<NodeId>,
    order: Seq<NodeId>,
    sorted: Seq<Edge>,
    k: int,
)
    requires
        keys_below(sources(edges), n),
        is_grouping(sources(edges), n, point, order),
        sorted_by(edges, order, sorted),
        0 <= k < n,
    ensures
        0 <= point[k] <= point[k + 1] <= edges.len(),
        sorted.subrange(point[k] as int, point[k + 1] as int) == arcs_leaving(edges, k),
{
    let keys = sources(edges);
    lemma_grouping_offsets(keys, n, point, order);
    lemma_positions_sound(keys, k);
    assert(point[k] + positions_of(keys, k).len() == point[k + 1]);
    assert(point[k + 1] <= point[n as int]);
    let part = sorted.subrange(point[k] as int, point[k + 1] as int);
    let want = arcs_leaving(edges, k);
    assert(part.len() == want.len());
    assert forall|r: int| 0 <= r < part.len() implies part[r] == want[r] by {
        assert(order[point[k] + r] == positions_of(keys, k)[r]);
        assert(part[r] == sorted[point[k] + r]);
    }
    assert(part =~= want);
}

proof fn lemma_sorted_prefix(
    edges: Seq<Edge>,
    n: nat,
    point: Seq<NodeId>,
    order: Seq<NodeId>,
    sorted: Seq<Edge>,
    k: nat,
)
    requires
        keys_below(sources(edges), n),
        is_grouping(sources(edges), n, point, order),
        sorted_by(edges, order, sorted),
        k <= n,
    ensures
        0 <= point[k as int] <= edges.len(),
        sorted.subrange(0, point[k as int] as int) == grouped_by_source(edges, k),
    decreases k,
{
    lemma_grouping_offsets(sources(edges), n, point, order);
    assert(point[k as int] <= point[n as int]);
    if k == 0 {
        assert(sorted.subrange(0, 0) =~= Seq::<Edge>::empty());
    } else {
        lemma_sorted_prefix(edges, n, point, order, sorted, (k - 1) as nat);
        lemma_sorted_group(edges, n, point, order, sorted, k - 1);
        assert(sorted.subrange(0, point[k as int] as int) =~= sorted.subrange(0, point[k - 1] as int)
            + sorted.subrange(point[k - 1] as int, point[k as int] as int));
    }
}

/// Each sorted arc stands in the group of its own source.
proof fn lemma_source_group(
    edges: Seq<Edge>,
    n: nat,
    point: Seq<NodeId>,
    order: Seq<NodeId>,
    sorted: Seq<Edge>,
    a: int,
)
    requires
        keys_below(sources(edges), n),
        is_grouping(sources(edges), n, point, order),
        sorted_by(edges, order, sorted),
        0 <= a < edges.len(),
    ensures
        sorted[a].0 < n,
        point[sorted[a].0 as int] <= a < point[sorted[a].0 + 1],
{
    let keys = sources(edges);
    lemma_grouping_offsets(keys, n, point, order);
    assert(sorted[a] == edges[order[a] as int]);
    assert(keys[order[a] as int] < n);
    let k = lemma_find_group(keys, n, point, order, a, n);
    lemma_sorted_group(edges, n, point, order, sorted, k);
    lemma_positions_sound(keys, k);
    let part = sorted.subrange(point[k] as int, point[k + 1] as int);
    assert(part[a - point[k]] == sorted[a]);
    assert(arcs_leaving(edges, k)[a - point[k]].0 == k);
}

/// Every position of the sorted list lies in the group of some node.
proof fn lemma_find_group(
    keys: Seq<NodeId>,
    n: nat,
    point: Seq<NodeId>,
    order: Seq<NodeId>,
    a: int,
    upto: nat,
) -> (k: int)
    requires
        keys_below(keys, n),
        is_grouping(keys, n, point, order),
        upto <= n,
        0 <= a < point[upto as int],
    ensures
        0 <= k < upto,
        point[k] <= a < point[k + 1],
    decreases upto,
{
    lemma_grouping_offsets(keys, n, point, order);
    assert(point[0] == 0);
    if point[upto - 1] <= a {
        upto - 1
    } else {
        lemma_find_group(keys, n, point, order, a, (upto - 1) as nat)
    }
}

/// The indexes and the sorted arcs that the construction computes fit together.
proof fn lemma_parts_wf(
    nodes: usize,
    given: Seq<Edge>,
    order: Seq<NodeId>,
    sorted: Seq<Edge>,
    point: Seq<NodeId>,
    rpoint: Seq<NodeId>,
    trace: Seq<NodeId>,
    costs: Seq<Cost>,
    capacities: Seq<Capacity>,
)
    requires
        nodes <= u32::MAX,
        given.len() <= u32::MAX,
        forall|a: int| 0 <= a < given.len() ==> arc_in_range(nodes, #[trigger] given[a]),
        is_grouping(sources(given), nodes as nat, point, order),
        sorted_by(given, order, sorted),
        is_grouping(heads(sorted), nodes as nat, rpoint, trace),
        costs.len() == given.len(),
        capacities.len() == given.len(),
    ensures
        parts_wf(point, rpoint, sources(sorted), heads(sorted), trace, costs, capacities),
{
    let n = nodes as nat;
    let tail = sources(sorted);
    assert(keys_below(sources(given), n));
    lemma_grouping_offsets(sources(given), n, point, order);
    assert(keys_below(tail, n)) by {
        assert forall|a: int| 0 <= a < tail.len() implies #[trigger] tail[a] < n by {
            assert(sorted[a] == given[order[a] as int]);
            assert(arc_in_range(nodes, given[order[a] as int]));
        }
    }
    assert forall|a: int| 0 <= a < sorted.len() implies point[tail[a] as int] <= a < point[
        #[trigger] tail[a] + 1] by {
        lemma_source_group(given, n, point, order, sorted, a);
    }
    assert(keys_below(heads(sorted), n)) by {
        assert forall|a: int| 0 <= a < sorted.len() implies #[trigger] heads(sorted)[a] < n by {
            assert(sorted[a] == given[order[a] as int]);
            assert(arc_in_range(nodes, given[order[a] as int]));
        }
    }
}

/// Checks that `edges` is a network on `nodes` nodes, and returns the
/// sources of the arcs and the sum of their costs.
fn check_arcs(nodes: usize, edges: &Vec<Edge>) -> (r: Result<(NodeVec, Cost), BuildError>)
    ensures
        match build_error(nodes, edges@) {
            Some(e) => r == Err::<(NodeVec, Cost), BuildError>(e),
            None => r.is_ok() && r.unwrap().0@ == sources(edges@) && r.unwrap().1 == total_cost(
                edges@,
            ),
        },
{
    if nodes > u32::MAX as usize {
        return Err(BuildError::TooManyNodes);
    }
    let m = edges.len();
    if m > u32::MAX as usize {
        return Err(BuildError::TooManyArcs);
    }
    let mut froms: NodeVec = Vec::with_capacity(m);
    let mut t: usize = 0;
    while t < m
        invariant
            t <= m,
            m == edges.len(),
            m <= u32::MAX,
            nodes <= u32::MAX,
            froms.len() == t,
            forall|a: int| 0 <= a < t ==> arc_in_range(nodes, #[trigger] edges@[a]),
            forall|a: int| 0 <= a < t ==> #[trigger] froms[a] == edges@[a].0,
        decreases m - t,
    {
        let e = edges[t];
        if e.0 as usize >= nodes || e.1 as usize >= nodes {
            assert(!arc_in_range(nodes, edges@[t as int]));
            return Err(BuildError::NodeOutOfRange);
        }
        froms.push(e.0);
        t += 1;
    }
    let mut cost_sum: Cost = 0;
    let mut t: usize = 0;
    while t < m
        invariant
            t <= m,
            m == edges.len(),
            m <= u32::MAX,
            nodes <= u32::MAX,
            forall|a: int| 0 <= a < m ==> arc_in_range(nodes, #[trigger] edges@[a]),
            cost_sum == total_cost(edges@.subrange(0, t as int)),
        decreases m - t,
    {
        proof {
            lemma_total_cost_step(edges@, t as int);
            lemma_total_cost_prefix(edges@, t + 1);
        }
        match cost_sum.checked_add(edges[t].2) {
            Some(sum) => {
                cost_sum = sum;
            },
            None => {
                return Err(BuildError::CostOverflow);
            },
        }
        t += 1;
    }
    proof {
        assert(edges@.subrange(0, m as int) =~= edges@);
        assert(froms@ =~= sources(edges@));
    }
    Ok((froms, cost_sum))
}

/// Lists the arcs of `edges` in the order that `order` gives.
fn arrange(edges: &Vec<Edge>, order: &NodeVec) -> (sorted: Vec<Edge>)
    requires
        order.len() == edges.len(),
        forall|a: int| 0 <= a < order.len() ==> #[trigger] order[a] < edges.len(),
    ensures
        sorted_by(edges@, order@, sorted@),
{
    let m = edges.len();
    let mut sorted: Vec<Edge> = Vec::with_capacity(m);
    let mut a: usize = 0;
    while a < m
        invariant
            a <= m,
            m == edges.len(),
            order.len() == m,
            forall|b: int| 0 <= b < m ==> #[trigger] order[b] < m,
            sorted.len() == a,
            forall|b: int| 0 <= b < a ==> #[trigger] sorted[b] == edges@[order[b] as int],
        decreases m - a,
    {
        sorted.push(edges[order[a] as usize]);
        a += 1;
    }
    sorted
}

/// Splits a list of arcs into the lists of their sources, targets, costs
/// and capacities.
fn columns(arcs: &Vec<Edge>) -> (r: (NodeVec, NodeVec, CostVec, Vec<Capacity>))
    ensures
        r.0@ == sources(arcs@),
        r.1@ == heads(arcs@),
        r.2@ == Seq::new(arcs@.len(), |a: int| arcs@[a].2),
        r.3@ == Seq::new(arcs@.len(), |a: int| arcs@[a].3),
{
    let m = arcs.len();
    let mut tail: NodeVec = Vec::with_capacity(m);
    let mut head: NodeVec = Vec::with_capacity(m);
    let mut costs: CostVec = Vec::with_capacity(m);
    let mut capacities: Vec<Capacity> = Vec::with_capacity(m);
    let mut a: usize = 0;
    while a < m
        invariant
            a <= m,
            m == arcs.len(),
            tail.len() == a,
            head.len() == a,
            costs.len() == a,
            capacities.len() == a,
            forall|b: int| 0 <= b < a ==> #[trigger] tail[b] == arcs@[b].0,
            forall|b: int| 0 <= b < a ==> #[trigger] head[b] == arcs@[b].1,
            forall|b: int| 0 <= b < a ==> #[trigger] costs[b] == arcs@[b].2,
            forall|b: int| 0 <= b < a ==> #[trigger] capacities[b] == arcs@[b].3,
        decreases m - a,
    {
        let e = arcs[a];
        tail.push(e.0);
        head.push(e.1);
        costs.push(e.2);
        capacities.push(e.3);
        a += 1;
    }
    proof {
        assert(tail@ =~= sources(arcs@));
        assert(head@ =~= heads(arcs@));
        assert(costs@ =~= Seq::new(arcs@.len(), |a: int| arcs@[a].2));
        assert(capacities@ =~= Seq::new(arcs@.len(), |a: int| arcs@[a].3));
    }
    (tail, head, costs, capacities)
}

/// Creates a network in compact star representation from a number of nodes
/// and a list of arcs.
///
/// `nodes` is the number of node ids in the network: the arcs may name the
/// nodes `0..nodes` and no others. `edges` holds (from, to, cost, capacity)
/// tuples; they are sorted by their from-node in place, arcs of one node
/// keeping their order, and stored so. Where the list is not a network, the
/// reason is returned and `edges` is left as it was.
pub fn compact_star_from_edge_vec(nodes: usize, edges: &mut Vec<Edge>) -> (r: Result<
    CompactStar,
    BuildError,
>)
    ensures
        match build_error(nodes, old(edges)@) {
            Some(e) => r == Err::<CompactStar, BuildError>(e) && final(edges)@ == old(edges)@,
            None => r.is_ok() && represents(r.unwrap(), nodes, old(edges)@) && final(edges)@
                == r.unwrap().arcs(),
        },
{
    let (froms, cost_sum) = match check_arcs(nodes, edges) {
        Ok(found) => found,
        Err(e) => {
            return Err(e);
        },
    };
    let ghost given = edges@;
    let (point, order) = group_by_key(&froms, nodes);
    let sorted = arrange(edges, &order);
    let (tail, head, costs, capacities) = columns(&sorted);
    proof {
        assert(keys_below(sources(given), nodes as nat)) by {
            assert forall|a: int| 0 <= a < given.len() implies #[trigger] sources(given)[a]
                < nodes by {
                assert(arc_in_range(nodes, given[a]));
            }
        }
        assert(keys_below(head@, nodes as nat)) by {
            assert forall|a: int| 0 <= a < head@.len() implies #[trigger] head@[a] < nodes by {
                assert(sorted@[a] == given[order@[a] as int]);
                assert(arc_in_range(nodes, given[order@[a] as int]));
            }
        }
    }
    let (rpoint, trace) = group_by_key(&head, nodes);
    proof {
        lemma_parts_wf(nodes, given, order@, sorted@, point@, rpoint@, trace@, costs@, capacities@);
    }
    *edges = sorted;
    let star = CompactStar { point, rpoint, tail, head, trace, costs, capacities, cost_sum };
    proof {
        assert(star.arcs() =~= edges@);
        star.lemma_represents(nodes, given, order@);
    }
    Ok(star)
}

/// The arcs that leave node `i` are the arcs of `edges` whose source is `i`,
/// each of them once, in the order in which they stand in `edges`:
/// `at` lists their positions.
pub proof fn lemma_arcs_leaving(edges: Seq<Edge>, i: int) -> (at: Seq<int>)
    ensures
        at.len() == arcs_leaving(edges, i).len(),
        forall|r: int|
            0 <= r < at.len() ==> 0 <= #[trigger] at[r] < edges.len() && edges[at[r]].0 == i
                && arcs_leaving(edges, i)[r] == edges[at[r]],
        forall|r: int, s: int| 0 <= r < s < at.len() ==> #[trigger] at[r] < #[trigger] at[s],
        forall|a: int| 0 <= a < edges.len() && (#[trigger] edges[a]).0 == i ==> at.contains(a),
{
    let keys = sources(edges);
    let at = positions_of(keys, i);
    lemma_positions_sound(keys, i);
    assert forall|a: int| 0 <= a < edges.len() && (#[trigger] edges[a]).0 == i implies at.contains(
        a,
    ) by {
        lemma_positions_complete(keys, i, a);
    }
    at
}

/// What holds of every network, however it was made: the arcs stand sorted
/// by source, the arcs of node `i` stand from `offsets[i]` up to
/// `offsets[i + 1]`, both indexes begin at 0, end at the number of arcs and
/// never fall, and every arc joins two nodes.
pub proof fn lemma_star_invariants(star: CompactStar)
    requires
        star.wf(),
    ensures
        star.arcs().len() == star.arc_count(),
        star.offsets().len() == star.node_count() + 1,
        star.reverse_offsets().len() == star.node_count() + 1,
        star.reverse_order().len() == star.arc_count(),
        star.offsets()[0] == 0,
        star.offsets()[star.node_count() as int] == star.arc_count(),
        star.reverse_offsets()[0] == 0,
        star.reverse_offsets()[star.node_count() as int] == star.arc_count(),
        forall|a: int, b: int|
            0 <= a <= b <= star.node_count() ==> #[trigger] star.offsets()[a]
                <= #[trigger] star.offsets()[b],
        forall|a: int, b: int|
            0 <= a <= b <= star.node_count() ==> #[trigger] star.reverse_offsets()[a]
                <= #[trigger] star.reverse_offsets()[b],
        forall|a: int, b: int|
            0 <= a <= b < star.arc_count() ==> (#[trigger] star.arcs()[a]).0
                <= (#[trigger] star.arcs()[b]).0,
        forall|a: int|
            0 <= a < star.arc_count() ==> (#[trigger] star.arcs()[a]).0 < star.node_count()
                && star.arcs()[a].1 < star.node_count(),
        forall|i: NodeId|
            i < star.node_count() ==> #[trigger] star.successors(i) == heads(
                star.arcs().subrange(star.offsets()[i as int] as int, star.offsets()[i + 1] as int),
            ),
        forall|i: NodeId| i >= star.node_count() ==> (#[trigger] star.successors(i)).len() == 0,
        forall|i: NodeId, j: NodeId| #[trigger]
            star.arc_index(i, j) == if first_position(star.successors(i), j) < star.successors(
                i,
            ).len() {
                Some(star.offsets()[i as int] + first_position(star.successors(i), j))
            } else {
                None
            },
        forall|i: NodeId, j: NodeId| #[trigger]
            star.arc_cost(i, j) == match star.arc_index(i, j) {
                Some(a) => Some(star.arcs()[a].2),
                None => None,
            },
        forall|i: NodeId, j: NodeId| #[trigger]
            star.arc_capacity(i, j) == match star.arc_index(i, j) {
                Some(a) => Some(star.arcs()[a].3),
                None => None,
            },
{
    let n = star.node_count();
    let point = star.point@;
    let tail = star.tail@;
    lemma_grouping_offsets(star.head@, n, star.rpoint@, star.trace@);
    assert forall|a: int, b: int| 0 <= a <= b < star.arc_count() implies (#[trigger] star.arcs()[a]).0
        <= (#[trigger] star.arcs()[b]).0 by {
        assert(point[tail[a] as int] <= a < point[tail[a] + 1]);
        assert(point[tail[b] as int] <= b < point[tail[b] + 1]);
        if tail[a] > tail[b] {
            assert(point[tail[b] + 1] <= point[tail[a] as int]);
        }
    }
    assert forall|a: int| 0 <= a < star.arc_count() implies (#[trigger] star.arcs()[a]).0 < n
        && star.arcs()[a].1 < n by {
        assert(tail[a] < n);
        assert(star.head@[a] < n);
    }
    assert forall|i: NodeId| i < n implies #[trigger] star.successors(i) == heads(
        star.arcs().subrange(point[i as int] as int, point[i + 1] as int),
    ) by {
        assert(point[i as int] <= point[i + 1]);
        assert(point[i + 1] <= point[n as int]);
        assert(star.successors(i) =~= heads(
            star.arcs().subrange(point[i as int] as int, point[i + 1] as int),
        ));
    }
    assert forall|i: NodeId, j: NodeId| #[trigger]
        star.arc_cost(i, j) == match star.arc_index(i, j) {
            Some(a) => Some(star.arcs()[a].2),
            None => None,
        } by {
        lemma_first_position(star.successors(i), j);
        if i < n {
            assert(point[i as int] <= point[i + 1]);
            assert(point[i + 1] <= point[n as int]);
        }
    }
    assert forall|i: NodeId, j: NodeId| #[trigger]
        star.arc_capacity(i, j) == match star.arc_index(i, j) {
            Some(a) => Some(star.arcs()[a].3),
            None => None,
        } by {
        lemma_first_position(star.successors(i), j);
        if i < n {
            assert(point[i as int] <= point[i + 1]);
            assert(point[i + 1] <= point[n as int]);
        }
    }
}

/// Two networks built from the same number of nodes and the same list of
/// arcs are alike in all that can be asked of them.
pub proof fn lemma_built_alike(a: CompactStar, b: CompactStar, nodes: usize, edges: Seq<Edge>)
    requires
        represents(a, nodes, edges),
        represents(b, nodes, edges),
    ensures
        a.node_count() == b.node_count(),
        a.arc_count() == b.arc_count(),
        a.cost_bound() == b.cost_bound(),
        a.arcs() == b.arcs(),
        a.offsets() == b.offsets(),
        a.reverse_offsets() == b.reverse_offsets(),
        a.reverse_order() == b.reverse_order(),
        forall|i: NodeId| i < nodes ==> #[trigger] a.successors(i) == b.successors(i),
        forall|i: NodeId, j: NodeId| i < nodes ==> #[trigger] a.arc_cost(i, j) == b.arc_cost(i, j),
        forall|i: NodeId, j: NodeId|
            i < nodes ==> #[trigger] a.arc_capacity(i, j) == b.arc_capacity(i, j),
{
    let n = nodes as nat;
    let keys = heads(a.arcs());
    assert(a.offsets() =~= b.offsets());
    assert(a.reverse_offsets() =~= b.reverse_offsets());
    assert(keys_below(keys, n)) by {
        assert forall|x: int| 0 <= x < keys.len() implies #[trigger] keys[x] < n by {
            assert(a.head@[x] < n);
        }
    }
    assert forall|x: int| 0 <= x < a.reverse_order().len() implies a.reverse_order()[x]
        == b.reverse_order()[x] by {
        lemma_grouping_offsets(keys, n, a.reverse_offsets(), a.reverse_order());
        let k = lemma_find_group(keys, n, a.reverse_offsets(), a.reverse_order(), x, n);
        let r = x - a.reverse_offsets()[k];
        assert(a.reverse_order()[a.reverse_offsets()[k] + r] == positions_of(keys, k)[r]);
        assert(b.reverse_order()[b.reverse_offsets()[k] + r] == positions_of(keys, k)[r]);
    }
    assert(a.reverse_order() =~= b.reverse_order());
    assert forall|i: NodeId| i < nodes implies #[trigger] a.successors(i) == b.successors(i) by {
        assert(b.successors(i) == heads(arcs_leaving(edges, i as int)));
    }
    assert forall|i: NodeId, j: NodeId| i < nodes implies #[trigger] a.arc_cost(i, j)
        == b.arc_cost(i, j) by {
        assert(b.arc_cost(i, j) == match first_arc_to(arcs_leaving(edges, i as int), j) {
            Some(e) => Some(e.2),
            None => None,
        });
    }
    assert forall|i: NodeId, j: NodeId| i < nodes implies #[trigger] a.arc_capacity(i, j)
        == b.arc_capacity(i, j) by {
        assert(b.arc_capacity(i, j) == match first_arc_to(arcs_leaving(edges, i as int), j) {
            Some(e) => Some(e.3),
            None => None,
        });
    }
}

impl Network for CompactStar {
    closed spec fn node_count(&self) -> nat {
        (self.point.len() - 1) as nat
    }

    closed spec fn arc_count(&self) -> nat {
        self.head.len() as nat
    }

    closed spec fn successors(&self, i: NodeId) -> Seq<NodeId> {
        if i < self.point.len() - 1 {
            self.head@.subrange(self.point@[i as int] as int, self.point@[i + 1] as int)
        } else {
            Seq::empty()
        }
    }

    closed spec fn arc_cost(&self, from: NodeId, to: NodeId) -> Option<Cost> {
        match self.arc_index(from, to) {
            Some(a) => Some(self.costs@[a]),
            None => None,
        }
    }

    closed spec fn arc_capacity(&self, from: NodeId, to: NodeId) -> Option<Capacity> {
        match self.arc_index(from, to) {
            Some(a) => Some(self.capacities@[a]),
            None => None,
        }
    }

    closed spec fn cost_bound(&self) -> Cost {
        self.cost_sum
    }

    fn adjacent(&self, from: NodeId) -> (adj: Vec<NodeId>) {
        proof {
            use_type_invariant(self);
        }
        let i = from as usize;
        let mut adj: Vec<NodeId> = Vec::new();
        if i >= self.point.len() - 1 {
            return adj;
        }
        let lower = self.point[i] as usize;
        let upper = self.point[i + 1] as usize;
        let mut index = lower;
        while index < upper
            invariant
                self.wf(),
                i < self.point.len() - 1,
                lower == self.point@[i as int],
                upper == self.point@[i + 1],
                lower <= index <= upper,
                adj@ == self.head@.subrange(lower as int, index as int),
                forall|k: int| 0 <= k < adj.len() ==> adj[k] < self.point.len() - 1,
            decreases upper - index,
        {
            assert(self.point@[i + 1] <= self.point@[self.point.len() - 1]);
            adj.push(self.head[index]);
            index += 1;
            assert(adj@ =~= self.head@.subrange(lower as int, index as int));
        }
        adj
    }

    fn cost(&self, from: NodeId, to: NodeId) -> (c: Option<Cost>) {
        proof {
            use_type_invariant(self);
        }
        match self.get_head(from, to) {
            Some(index) => Some(self.costs[index as usize]),
            None => None,
        }
    }

    fn capacity(&self, from: NodeId, to: NodeId) -> (c: Option<Capacity>) {
        proof {
            use_type_invariant(self);
        }
        match self.get_head(from, to) {
            Some(index) => Some(self.capacities[index as usize]),
            None => None,
        }
    }

    fn num_nodes(&self) -> (n: usize) {
        proof {
            use_type_invariant(self);
        }
        self.point.len() - 1
    }

    fn num_arcs(&self) -> (m: usize) {
        self.head.len()
    }

    fn invalid_id(&self) -> (id: NodeId) {
        proof {
            use_type_invariant(self);
        }
        (self.point.len() - 1) as NodeId
    }

    fn infinity(&self) -> (c: Cost) {
        self.cost_sum
    }
}

} // verus!
