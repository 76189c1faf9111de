//! The A* walk: a greedy single path from a start node towards a goal node
//! over a pool of edges that each step depletes.
//!
//! From the current node, every incident edge not yet used is a candidate;
//! the walk takes the candidate with the least `f = g + h`. Among equal `f`
//! it takes the greater `g`, that is the smaller `h`: the candidate
//! estimated nearer the goal; among equal `g` and `h`, the edge placed later
//! in the graph. Taking an edge removes it from the pool together with every
//! edge equal to it in value (same endpoints, weight and properties), so no
//! such edge is used again, from either end. This is not textbook A*: it
//! does not reopen nodes, and it can dead-end where a path exists.

use vstd::prelude::*;
use vstd::set_lib::*;

use crate::distance::DistanceFunction;
use crate::graph::{node_coords, weight_total, Graph};
use crate::types::{
    edge_cmp, edges_alike, int_cmp, same_value_spec, Edge, NoNavigablePathError, PropertyValue,
    WeightOption,
};

verus! {

/// One traversed edge, with the path cost `g` from the start through it and
/// the heuristic estimate `h` from its far end to the goal.
#[derive(Debug, Clone, PartialEq, Eq)]
pub struct Hop {
    pub edge: Edge,
    pub g: i64,
    pub h: u64,
}

impl Hop {
    pub fn new(edge: Edge, g: i64, h: u64) -> (r: Hop)
        ensures
            r.edge == edge,
            r.g == g,
            r.h == h,
    {
        Hop { edge, g, h }
    }

    /// The combined cost `f = g + h`.
    pub fn f(&self) -> (r: i128)
        ensures
            r == self.g + self.h,
    {
        self.g as i128 + self.h as i128
    }
}

/// The order of hops: by edge weight first, then by `g`, then by `h`.
pub open spec fn hop_cmp(a: Hop, b: Hop) -> Option<std::cmp::Ordering> {
    match edge_cmp(a.edge, b.edge) {
        Some(std::cmp::Ordering::Equal) => if a.g != b.g {
            Some(int_cmp(a.g as int, b.g as int))
        } else {
            Some(int_cmp(a.h as int, b.h as int))
        },
        other => other,
    }
}

impl PartialOrd for Hop {
    fn partial_cmp(&self, other: &Hop) -> (r: Option<std::cmp::Ordering>) {
        match self.edge.partial_cmp(&other.edge) {
            Some(std::cmp::Ordering::Equal) => if self.g != other.g {
                Some(if self.g < other.g {
                    std::cmp::Ordering::Less
                } else {
                    std::cmp::Ordering::Greater
                })
            } else if self.h < other.h {
                Some(std::cmp::Ordering::Less)
            } else if self.h > other.h {
                Some(std::cmp::Ordering::Greater)
            } else {
                Some(std::cmp::Ordering::Equal)
            },
            o => o,
        }
    }
}

impl vstd::std_specs::cmp::PartialOrdSpecImpl for Hop {
    open spec fn obeys_partial_cmp_spec() -> bool {
        true
    }

    open spec fn partial_cmp_spec(&self, o: &Hop) -> Option<std::cmp::Ordering> {
        hop_cmp(*self, *o)
    }
}

/// Where the walk stands: the current node, the cost so far, the edges used
/// in order, and for each hop its cost so far and heuristic estimate.
pub struct WalkState {
    pub current: int,
    pub g: int,
    pub path: Seq<int>,
    pub gs: Seq<int>,
    pub hs: Seq<int>,
}

/// The walk before its first step.
pub open spec fn initial_state(start: int) -> WalkState {
    WalkState { current: start, g: 0, path: Seq::empty(), gs: Seq::empty(), hs: Seq::empty() }
}

/// The heuristic that A* uses: a distance function from each node to the
/// goal, or an estimate given for each node.
#[derive(Debug, Clone, PartialEq, Eq)]
pub enum Heuristic {
    /// The distance from the node to the goal.
    Distance(DistanceFunction),
    /// Entry `v` is the estimate from node `v` to the goal.
    Estimates(Vec<u64>),
}

/// The heuristic estimate from node `v` to node `goal` by `h`.
#[verifier::opaque]
pub open spec fn heuristic_estimate(graph: &Graph, h: Heuristic, v: int, goal: int) -> int {
    match h {
        Heuristic::Distance(d) => d.spec_of(graph.nodes@[v].coordinates@, graph.nodes@[goal].coordinates@),
        Heuristic::Estimates(table) => table@[v] as int,
    }
}

impl Heuristic {
    /// The heuristic gives an estimate that a `u64` holds for every node of
    /// the graph: the distance fits, or the table has an entry for each node.
    pub open spec fn usable(&self, graph: &Graph, goal: int) -> bool {
        match self {
            Heuristic::Distance(d) => forall|v: int|
                0 <= v < graph.nodes.len() ==> d.fits(
                    #[trigger] graph.nodes@[v].coordinates@,
                    graph.nodes@[goal].coordinates@,
                ),
            Heuristic::Estimates(table) => table.len() == graph.nodes.len(),
        }
    }

    /// The estimate from node `v` to node `goal`.
    pub fn estimate(&self, graph: &Graph, v: usize, goal: usize) -> (r: u64)
        requires
            self.usable(graph, goal as int),
            v < graph.nodes.len(),
            goal < graph.nodes.len(),
        ensures
            r == heuristic_estimate(graph, *self, v as int, goal as int),
    {
        proof {
            reveal(heuristic_estimate);
        }
        match self {
            Heuristic::Distance(d) => d.distance(&graph.nodes[v], &graph.nodes[goal]),
            Heuristic::Estimates(table) => table[v],
        }
    }
}

/// Edge `e` is equal in value to an edge on `path`: the walk has used it up.
pub open spec fn used_up(graph: &Graph, path: Seq<int>, e: int) -> bool {
    exists|k: int| 0 <= k < path.len() && #[trigger] edges_alike(graph.edges@[path[k]], graph.edges@[e])
}

/// Edge `e` touches the current node and is not used up.
pub open spec fn is_candidate(graph: &Graph, s: WalkState, e: int) -> bool {
    0 <= e < graph.edges.len() && graph.edges@[e].touches(s.current) && !used_up(graph, s.path, e)
}

proof fn lemma_alike_refl(e: Edge)
    ensures
        edges_alike(e, e),
{
    assert forall|j: int| 0 <= j < e.properties@.len() implies (#[trigger] e.properties@[j]).0@
        == e.properties@[j].0@ && same_value_spec(e.properties@[j].1, e.properties@[j].1) by {
        match e.properties@[j].1 {
            PropertyValue::String(x) => {},
            PropertyValue::Integer(x) => {},
            PropertyValue::Boolean(x) => {},
        }
    }
}

/// A candidate is not on the path.
proof fn lemma_candidate_off_path(graph: &Graph, s: WalkState, e: int)
    requires
        is_candidate(graph, s, e),
    ensures
        !s.path.contains(e),
{
    if s.path.contains(e) {
        let k = choose|k: int| 0 <= k < s.path.len() && s.path[k] == e;
        lemma_alike_refl(graph.edges@[e]);
        assert(edges_alike(graph.edges@[s.path[k]], graph.edges@[e]));
    }
}

/// Taking edge `b` uses up exactly the edges equal to it in value.
proof fn lemma_used_up_push(graph: &Graph, path: Seq<int>, b: int, y: int)
    ensures
        used_up(graph, path.push(b), y) <==> (used_up(graph, path, y) || edges_alike(
            graph.edges@[b],
            graph.edges@[y],
        )),
{
    let q = path.push(b);
    if used_up(graph, q, y) {
        let k = choose|k: int| 0 <= k < q.len() && #[trigger] edges_alike(graph.edges@[q[k]], graph.edges@[y]);
        if k < path.len() {
            assert(q[k] == path[k]);
        }
    }
    if used_up(graph, path, y) {
        let k = choose|k: int| 0 <= k < path.len() && #[trigger] edges_alike(graph.edges@[path[k]], graph.edges@[y]);
        assert(q[k] == path[k]);
        assert(edges_alike(graph.edges@[q[k]], graph.edges@[y]));
    }
    if edges_alike(graph.edges@[b], graph.edges@[y]) {
        assert(q[path.len() as int] == b);
        assert(edges_alike(graph.edges@[q[path.len() as int]], graph.edges@[y]));
    }
}

/// The cost so far after taking edge `e`.
pub open spec fn cand_g(graph: &Graph, s: WalkState, e: int) -> int {
    s.g + graph.edge_weight(e)
}

/// The heuristic estimate from the far end of edge `e` to the goal.
pub open spec fn cand_h(graph: &Graph, h: Heuristic, s: WalkState, goal: int, e: int) -> int {
    heuristic_estimate(graph, h, graph.edges@[e].other_spec(s.current), goal)
}

/// Candidate `a` ranks no later than candidate `b`: lower `f` first, then
/// greater `g`, then lower `h`, then later position.
pub open spec fn precedes(graph: &Graph, h: Heuristic, s: WalkState, goal: int, a: int, b: int) -> bool {
    let ga = cand_g(graph, s, a);
    let gb = cand_g(graph, s, b);
    let ha = cand_h(graph, h, s, goal, a);
    let hb = cand_h(graph, h, s, goal, b);
    ga + ha < gb + hb || (ga + ha == gb + hb && (ga > gb || (ga == gb && (ha < hb || (ha == hb
        && a >= b)))))
}

/// Edge `e` is the candidate that the walk takes next.
pub open spec fn is_best(graph: &Graph, h: Heuristic, s: WalkState, goal: int, e: int) -> bool {
    is_candidate(graph, s, e) && forall|x: int|
        #[trigger] is_candidate(graph, s, x) ==> precedes(graph, h, s, goal, e, x)
}

/// Some edge can be taken from `s`.
pub open spec fn has_candidate(graph: &Graph, s: WalkState) -> bool {
    exists|e: int| #[trigger] is_candidate(graph, s, e)
}

/// The state after taking the best candidate.
pub open spec fn step(graph: &Graph, h: Heuristic, s: WalkState, goal: int) -> WalkState {
    let e = choose|e: int| is_best(graph, h, s, goal, e);
    WalkState {
        current: graph.edges@[e].other_spec(s.current),
        g: cand_g(graph, s, e),
        path: s.path.push(e),
        gs: s.gs.push(cand_g(graph, s, e)),
        hs: s.hs.push(cand_h(graph, h, s, goal, e)),
    }
}

/// The walk from `s` for at most `fuel` more steps: the state at the goal,
/// or `None` where it runs out of candidates first.
pub open spec fn walk(graph: &Graph, h: Heuristic, goal: int, s: WalkState, fuel: nat) -> Option<WalkState>
    decreases fuel,
{
    if s.current == goal {
        Some(s)
    } else if fuel == 0 || !has_candidate(graph, s) {
        None
    } else {
        walk(graph, h, goal, step(graph, h, s, goal), (fuel - 1) as nat)
    }
}

/// The outcome of A* from `start` to `goal` with heuristic `h`. Each step
/// uses an edge, so as many steps as there are edges suffice.
pub open spec fn a_star_spec_with(graph: &Graph, h: Heuristic, start: int, goal: int) -> Option<
    WalkState,
> {
    walk(graph, h, goal, initial_state(start), graph.edges.len() as nat)
}

/// The outcome of A* from `start` to `goal` with the graph's distance
/// function as the heuristic.
pub open spec fn a_star_spec(graph: &Graph, start: int, goal: int) -> Option<WalkState> {
    a_star_spec_with(graph, Heuristic::Distance(graph.distance_function), start, goal)
}

/// The sum of the weights of the edges on a path.
pub open spec fn path_weight(graph: &Graph, path: Seq<int>) -> int
    decreases path.len(),
{
    if path.len() == 0 {
        0
    } else {
        path_weight(graph, path.drop_last()) + graph.edge_weight(path.last())
    }
}

/// The sum of the weights of the edges among the first `n` that are in `used`.
pub open spec fn sum_in(graph: &Graph, used: Set<int>, n: nat) -> int
    decreases n,
{
    if n == 0 {
        0
    } else {
        sum_in(graph, used, (n - 1) as nat) + if used.contains(n - 1) {
            graph.edge_weight(n - 1)
        } else {
            0
        }
    }
}

/// What holds of every state the walk reaches.
pub open spec fn state_ok(graph: &Graph, s: WalkState) -> bool {
    &&& 0 <= s.current < graph.nodes.len()
    &&& s.path.no_duplicates()
    &&& forall|k: int| 0 <= k < s.path.len() ==> 0 <= #[trigger] s.path[k] < graph.edges.len()
    &&& forall|i: int, j: int|
        0 <= i < j < s.path.len() ==> !edges_alike(graph.edges@[#[trigger] s.path[i]], graph.edges@[#[trigger] s.path[j]])
    &&& s.g == path_weight(graph, s.path)
    &&& s.gs.len() == s.path.len()
    &&& s.hs.len() == s.path.len()
    &&& s.path.len() > 0 ==> s.gs.last() == s.g
}

pub(crate) proof fn lemma_sum_in_insert(graph: &Graph, used: Set<int>, e: int, n: nat)
    requires
        !used.contains(e),
        0 <= e,
    ensures
        sum_in(graph, used.insert(e), n) == sum_in(graph, used, n) + if e < n {
            graph.edge_weight(e)
        } else {
            0
        },
    decreases n,
{
    if n > 0 {
        lemma_sum_in_insert(graph, used, e, (n - 1) as nat);
    }
}

proof fn lemma_sum_in_bound(graph: &Graph, used: Set<int>, n: nat)
    requires
        graph.wf(),
        n <= graph.edges.len(),
    ensures
        -weight_total(graph.edges@.take(n as int)) <= sum_in(graph, used, n) <= weight_total(
            graph.edges@.take(n as int),
        ),
    decreases n,
{
    if n > 0 {
        lemma_sum_in_bound(graph, used, (n - 1) as nat);
        assert(graph.edges@.take(n as int).drop_last() =~= graph.edges@.take(n - 1));
    }
}

proof fn lemma_path_weight_is_sum(graph: &Graph, path: Seq<int>, used: Set<int>)
    requires
        graph.wf(),
        path.no_duplicates(),
        forall|k: int| 0 <= k < path.len() ==> 0 <= #[trigger] path[k] < graph.edges.len(),
        forall|x: int| used.contains(x) <==> path.contains(x),
    ensures
        path_weight(graph, path) == sum_in(graph, used, graph.edges.len() as nat),
    decreases path.len(),
{
    if path.len() == 0 {
        assert(used =~= Set::<int>::empty());
        lemma_sum_empty(graph, graph.edges.len() as nat);
    } else {
        let rest = path.drop_last();
        let e = path.last();
        let used2 = used.remove(e);
        assert forall|x: int| used2.contains(x) <==> rest.contains(x) by {
            if rest.contains(x) {
                let k = choose|k: int| 0 <= k < rest.len() && rest[k] == x;
                assert(path[k] == x);
                assert(k != path.len() - 1);
            }
            if used2.contains(x) {
                let k = choose|k: int| 0 <= k < path.len() && path[k] == x;
                assert(k != path.len() - 1);
                assert(rest[k] == x);
            }
        }
        assert(path[path.len() - 1] == e);
        lemma_path_weight_is_sum(graph, rest, used2);
        lemma_sum_in_insert(graph, used2, e, graph.edges.len() as nat);
        assert(used2.insert(e) =~= used);
    }
}

proof fn lemma_sum_empty(graph: &Graph, n: nat)
    ensures
        sum_in(graph, Set::empty(), n) == 0,
    decreases n,
{
    if n > 0 {
        lemma_sum_empty(graph, (n - 1) as nat);
    }
}

/// Taking an unused edge keeps the cost within an `i64`.
proof fn lemma_cost_fits(graph: &Graph, path: Seq<int>, e: int)
    requires
        graph.wf(),
        path.no_duplicates(),
        forall|k: int| 0 <= k < path.len() ==> 0 <= #[trigger] path[k] < graph.edges.len(),
        0 <= e < graph.edges.len(),
        !path.contains(e),
    ensures
        i64::MIN <= path_weight(graph, path) + graph.edge_weight(e) <= i64::MAX,
{
    let used = path.to_set();
    assert forall|x: int| used.contains(x) <==> path.contains(x) by {}
    lemma_path_weight_is_sum(graph, path, used);
    lemma_sum_in_insert(graph, used, e, graph.edges.len() as nat);
    lemma_sum_in_bound(graph, used.insert(e), graph.edges.len() as nat);
    lemma_sum_in_bound(graph, used, graph.edges.len() as nat);
    assert(graph.edges@.take(graph.edges.len() as int) =~= graph.edges@);
}

/// A path of distinct edges of the graph is no longer than the edge list,
/// and shorter where some edge is left over.
proof fn lemma_path_len(graph: &Graph, path: Seq<int>, e: int)
    requires
        path.no_duplicates(),
        forall|k: int| 0 <= k < path.len() ==> 0 <= #[trigger] path[k] < graph.edges.len(),
        0 <= e < graph.edges.len(),
        !path.contains(e),
    ensures
        path.len() < graph.edges.len(),
{
    let all = set_int_range(0, graph.edges.len() as int);
    lemma_int_range(0, graph.edges.len() as int);
    path.unique_seq_to_set();
    assert(path.to_set().subset_of(all));
    path.to_set().lemma_subset_not_in_lt(all, e);
}

/// Among the candidates, one ranks no later than all the others.
proof fn lemma_best_exists(graph: &Graph, h: Heuristic, s: WalkState, goal: int)
    requires
        has_candidate(graph, s),
    ensures
        exists|e: int| is_best(graph, h, s, goal, e),
{
    let x = choose|x: int| is_candidate(graph, s, x);
    lemma_best_below(graph, h, s, goal, graph.edges.len() as int, x);
    let e = choose|e: int|
        is_candidate(graph, s, e) && e < graph.edges.len() && forall|y: int|
            #[trigger] is_candidate(graph, s, y) && y < graph.edges.len() ==> precedes(graph, h,
                s,
                goal,
                e,
                y,
            );
    assert(is_best(graph, h, s, goal, e));
}

proof fn lemma_best_below(graph: &Graph, h: Heuristic, s: WalkState, goal: int, k: int, x: int)
    requires
        is_candidate(graph, s, x),
        x < k,
        k <= graph.edges.len(),
    ensures
        exists|e: int|
            is_candidate(graph, s, e) && e < k && forall|y: int|
                #[trigger] is_candidate(graph, s, y) && y < k ==> precedes(graph, h, s, goal, e, y),
    decreases k,
{
    if x == k - 1 && !(exists|z: int| is_candidate(graph, s, z) && z < k - 1) {
        assert forall|y: int| #[trigger] is_candidate(graph, s, y) && y < k implies precedes(graph, h,
            s,
            goal,
            x,
            y,
        ) by {
            assert(y == x);
        }
    } else {
        let z = if x < k - 1 {
            x
        } else {
            choose|z: int| is_candidate(graph, s, z) && z < k - 1
        };
        lemma_best_below(graph, h, s, goal, k - 1, z);
        let e = choose|e: int|
            is_candidate(graph, s, e) && e < k - 1 && forall|y: int|
                #[trigger] is_candidate(graph, s, y) && y < k - 1 ==> precedes(graph, h, s, goal, e, y);
        if is_candidate(graph, s, k - 1) && !precedes(graph, h, s, goal, e, k - 1) {
            assert forall|y: int| #[trigger] is_candidate(graph, s, y) && y < k implies precedes(graph, h,
                s,
                goal,
                k - 1,
                y,
            ) by {
                if y < k - 1 {
                    assert(precedes(graph, h, s, goal, e, y));
                }
            }
        } else {
            assert forall|y: int| #[trigger] is_candidate(graph, s, y) && y < k implies precedes(graph, h,
                s,
                goal,
                e,
                y,
            ) by {}
        }
    }
}

/// At most one candidate is the best.
proof fn lemma_best_unique(graph: &Graph, h: Heuristic, s: WalkState, goal: int, a: int, b: int)
    requires
        is_best(graph, h, s, goal, a),
        is_best(graph, h, s, goal, b),
    ensures
        a == b,
{
    assert(precedes(graph, h, s, goal, a, b));
    assert(precedes(graph, h, s, goal, b, a));
}

/// A step from a well-formed state with a candidate gives a well-formed state.
proof fn lemma_step_ok(graph: &Graph, h: Heuristic, s: WalkState, goal: int)
    requires
        graph.wf(),
        state_ok(graph, s),
        has_candidate(graph, s),
    ensures
        state_ok(graph, step(graph, h, s, goal)),
        is_best(graph, h, s, goal, step(graph, h, s, goal).path.last()),
{
    lemma_best_exists(graph, h, s, goal);
    let e = choose|e: int| is_best(graph, h, s, goal, e);
    let t = step(graph, h, s, goal);
    lemma_candidate_off_path(graph, s, e);
    assert(crate::graph::ends_ok(graph.edges@[e].shape(), graph.nodes.len() as int));
    assert(t.path.drop_last() =~= s.path);
    assert(t.path.last() == e);
    assert forall|i: int, j: int| 0 <= i < t.path.len() && 0 <= j < t.path.len() && i != j implies t.path[i] != t.path[j] by {
        if i == t.path.len() - 1 {
            assert(!s.path.contains(e));
            assert(s.path[j] == t.path[j]);
        } else if j == t.path.len() - 1 {
            assert(!s.path.contains(e));
            assert(s.path[i] == t.path[i]);
        }
    }
    assert forall|k: int| 0 <= k < t.path.len() implies 0 <= #[trigger] t.path[k] < graph.edges.len() by {
        if k < s.path.len() {
            assert(t.path[k] == s.path[k]);
        }
    }
    assert forall|i: int, j: int| 0 <= i < j < t.path.len() implies !edges_alike(
        graph.edges@[#[trigger] t.path[i]],
        graph.edges@[#[trigger] t.path[j]],
    ) by {
        assert(t.path[i] == s.path[i]);
        if j == t.path.len() - 1 {
            if edges_alike(graph.edges@[s.path[i]], graph.edges@[e]) {
                assert(used_up(graph, s.path, e));
            }
        } else {
            assert(t.path[j] == s.path[j]);
        }
    }
}

proof fn lemma_walk_ok(graph: &Graph, h: Heuristic, goal: int, s: WalkState, fuel: nat)
    requires
        graph.wf(),
        state_ok(graph, s),
    ensures
        walk(graph, h, goal, s, fuel) matches Some(t) ==> state_ok(graph, t) && t.current == goal,
    decreases fuel,
{
    if s.current != goal && fuel > 0 && has_candidate(graph, s) {
        lemma_step_ok(graph, h, s, goal);
        lemma_walk_ok(graph, h, goal, step(graph, h, s, goal), (fuel - 1) as nat);
    }
}

/// A* from a node to itself takes no step and succeeds.
pub proof fn lemma_a_star_start_is_goal(graph: &Graph, h: Heuristic, v: int)
    ensures
        a_star_spec_with(graph, h, v, v) == Some(initial_state(v)),
        initial_state(v).path.len() == 0,
{
}

/// A* over a graph without edges, between two different nodes, fails.
pub proof fn lemma_a_star_without_edges(graph: &Graph, h: Heuristic, start: int, goal: int)
    requires
        graph.edges.len() == 0,
        start != goal,
    ensures
        a_star_spec_with(graph, h, start, goal) is None,
{
}

/// A successful A* walk ends at the goal, uses no edge twice, nor two edges
/// equal in value, and its cost so far, which is the last hop's `g`, is the
/// sum of the weights of the edges it used.
pub proof fn lemma_a_star_path(graph: &Graph, h: Heuristic, start: int, goal: int)
    requires
        graph.wf(),
        0 <= start < graph.nodes.len(),
    ensures
        a_star_spec_with(graph, h, start, goal) matches Some(t) ==> {
            &&& t.current == goal
            &&& t.path.no_duplicates()
            &&& forall|k: int| 0 <= k < t.path.len() ==> 0 <= #[trigger] t.path[k] < graph.edges.len()
            &&& forall|i: int, j: int|
                0 <= i < j < t.path.len() ==> !edges_alike(
                    graph.edges@[#[trigger] t.path[i]],
                    graph.edges@[#[trigger] t.path[j]],
                )
            &&& t.g == path_weight(graph, t.path)
            &&& t.path.len() > 0 ==> t.gs.last() == path_weight(graph, t.path)
        },
{
    lemma_walk_ok(graph, h, goal, initial_state(start), graph.edges.len() as nat);
}

/// Finds a path from the start node towards the goal node by the A* walk,
/// with the graph's distance function as the heuristic.
pub fn a_star(graph: &Graph, start_node_index: usize, goal_node_index: usize) -> (r: Result<
    Vec<Hop>,
    NoNavigablePathError,
>)
    requires
        graph.wf(),
        start_node_index < graph.nodes.len(),
        goal_node_index < graph.nodes.len(),
    ensures
        match r {
            Ok(hops) => a_star_spec(graph, start_node_index as int, goal_node_index as int) matches Some(
                t,
            ) && hops.len() == t.path.len() && forall|k: int|
                0 <= k < hops.len() ==> {
                    &&& (#[trigger] hops@[k]).edge.same(&graph.edges@[t.path[k]])
                    &&& hops@[k].g == t.gs[k]
                    &&& hops@[k].h == t.hs[k]
                },
            Err(e) => {
                &&& a_star_spec(graph, start_node_index as int, goal_node_index as int) is None
                &&& e.start_node.same(&graph.nodes@[start_node_index as int])
                &&& e.goal_node.same(&graph.nodes@[goal_node_index as int])
            },
        },
{
    proof {
        let c = node_coords(graph.nodes@);
        assert forall|v: int| 0 <= v < graph.nodes.len() implies graph.distance_function.fits(
            #[trigger] graph.nodes@[v].coordinates@,
            graph.nodes@[goal_node_index as int].coordinates@,
        ) by {
            assert(c[v] == graph.nodes@[v].coordinates@);
            assert(c[goal_node_index as int] == graph.nodes@[goal_node_index as int].coordinates@);
        }
    }
    let heuristic = Heuristic::Distance(graph.distance_function);
    a_star_with_heuristic(graph, start_node_index, goal_node_index, &heuristic)
}

/// Finds a path from the start node towards the goal node by the A* walk,
/// with the given heuristic.
pub fn a_star_with_heuristic(
    graph: &Graph,
    start_node_index: usize,
    goal_node_index: usize,
    heuristic: &Heuristic,
) -> (r: Result<Vec<Hop>, NoNavigablePathError>)
    requires
        graph.wf(),
        start_node_index < graph.nodes.len(),
        goal_node_index < graph.nodes.len(),
        heuristic.usable(graph, goal_node_index as int),
    ensures
        match r {
            Ok(hops) => a_star_spec_with(
                graph,
                *heuristic,
                start_node_index as int,
                goal_node_index as int,
            ) matches Some(t) && hops.len() == t.path.len() && forall|k: int|
                0 <= k < hops.len() ==> {
                    &&& (#[trigger] hops@[k]).edge.same(&graph.edges@[t.path[k]])
                    &&& hops@[k].g == t.gs[k]
                    &&& hops@[k].h == t.hs[k]
                },
            Err(e) => {
                &&& a_star_spec_with(
                    graph,
                    *heuristic,
                    start_node_index as int,
                    goal_node_index as int,
                ) is None
                &&& e.start_node.same(&graph.nodes@[start_node_index as int])
                &&& e.goal_node.same(&graph.nodes@[goal_node_index as int])
            },
        },
{
    let goal = goal_node_index;
    let adjacency = graph.adjacency_indices();
    let n_edges = graph.edges.len();
    let mut used: Vec<bool> = Vec::new();
    let mut i: usize = 0;
    while i < n_edges
        invariant
            i <= n_edges,
            used.len() == i,
            forall|k: int| 0 <= k < i ==> !used@[k],
        decreases n_edges - i,
    {
        used.push(false);
        i = i + 1;
    }

    let mut hops: Vec<Hop> = Vec::new();
    let mut current = start_node_index;
    let mut g: i64 = 0;
    let ghost mut s = initial_state(start_node_index as int);
    let ghost spec_result = a_star_spec_with(graph, *heuristic, start_node_index as int, goal as int);

    while current != goal
        invariant
            graph.wf(),
            goal == goal_node_index,
            goal < graph.nodes.len(),
            start_node_index < graph.nodes.len(),
            n_edges == graph.edges.len(),
            adjacency.len() == graph.nodes.len(),
            forall|v: int| 0 <= v < adjacency.len() ==> graph.is_incidence_list(v, #[trigger] adjacency@[v]@),
            used.len() == n_edges,
            forall|e: int| 0 <= e < n_edges ==> (used@[e] <==> used_up(graph, s.path, e)),
            state_ok(graph, s),
            s.current == current,
            s.g == g,
            s.path.len() <= n_edges,
            spec_result == a_star_spec_with(graph, *heuristic, start_node_index as int, goal as int),
            heuristic.usable(graph, goal as int),
            spec_result == walk(graph, *heuristic, goal as int, s, (n_edges - s.path.len()) as nat),
            hops.len() == s.path.len(),
            forall|k: int|
                0 <= k < hops.len() ==> {
                    &&& (#[trigger] hops@[k]).edge.same(&graph.edges@[s.path[k]])
                    &&& hops@[k].g == s.gs[k]
                    &&& hops@[k].h == s.hs[k]
                },
        decreases n_edges - s.path.len(),
    {
        let list = &adjacency[current];
        let mut best: Option<(usize, i128, i64, u64)> = None;
        let mut j: usize = 0;
        while j < list.len()
            invariant
                graph.wf(),
                goal < graph.nodes.len(),
                n_edges == graph.edges.len(),
                graph.is_incidence_list(current as int, list@),
                used.len() == n_edges,
                forall|e: int| 0 <= e < n_edges ==> (used@[e] <==> used_up(graph, s.path, e)),
                state_ok(graph, s),
                s.current == current,
                s.g == g,
                heuristic.usable(graph, goal as int),
                j <= list.len(),
                match best {
                    Some((b, f, bg, bh)) => {
                        &&& is_candidate(graph, s, b as int)
                        &&& bg == cand_g(graph, s, b as int)
                        &&& bh == cand_h(graph, *heuristic, s, goal as int, b as int)
                        &&& f == bg + bh
                        &&& forall|k: int|
                            0 <= k < j && is_candidate(graph, s, #[trigger] list@[k] as int)
                                ==> precedes(graph, *heuristic, s, goal as int, b as int, list@[k] as int)
                    },
                    None => forall|k: int| 0 <= k < j ==> !is_candidate(graph, s, #[trigger] list@[k] as int),
                },
            decreases list.len() - j,
        {
            let e = list[j];
            if !used[e] {
                assert(is_candidate(graph, s, e as int));
                proof {
                    lemma_candidate_off_path(graph, s, e as int);
                    lemma_cost_fits(graph, s.path, e as int);
                }
                let w = match graph.edges[e].weight {
                    WeightOption::Specified(w) => w,
                    WeightOption::Computed => 0,
                };
                let g2 = g + w;
                let other = graph.edges[e].index_of_other_node(current);
                assert(crate::graph::ends_ok(graph.edges@[e as int].shape(), graph.nodes.len() as int));
                let h = heuristic.estimate(graph, other, goal);
                let f = g2 as i128 + h as i128;
                let better = match best {
                    None => true,
                    Some((b, bf, bg, bh)) => f < bf || (f == bf && (g2 > bg || (g2 == bg && (h < bh
                        || (h == bh && e > b))))),
                };
                if better {
                    best = Some((e, f, g2, h));
                }
            }
            j = j + 1;
        }

        match best {
            None => {
                proof {
                    assert(!has_candidate(graph, s)) by {
                        if has_candidate(graph, s) {
                            let x = choose|x: int| is_candidate(graph, s, x);
                            assert(list@.contains(x as usize));
                            let k = choose|k: int| 0 <= k < list@.len() && list@[k] == x as usize;
                            assert(!is_candidate(graph, s, list@[k] as int));
                        }
                    }
                }
                return Err(
                    NoNavigablePathError::new(
                        graph.nodes[start_node_index].copied(),
                        graph.nodes[goal].copied(),
                    ),
                );
            },
            Some((b, _f, bg, bh)) => {
                proof {
                    assert forall|x: int| #[trigger] is_candidate(graph, s, x) implies precedes(graph, *heuristic,
                        s,
                        goal as int,
                        b as int,
                        x,
                    ) by {
                        assert(list@.contains(x as usize));
                        let k = choose|k: int| 0 <= k < list@.len() && list@[k] == x as usize;
                        assert(precedes(graph, *heuristic, s, goal as int, b as int, list@[k] as int));
                    }
                    assert(is_best(graph, *heuristic, s, goal as int, b as int));
                    lemma_candidate_off_path(graph, s, b as int);
                    lemma_path_len(graph, s.path, b as int);
                    lemma_step_ok(graph, *heuristic, s, goal as int);
                    lemma_best_unique(graph, *heuristic, s, goal as int, b as int, step(graph, *heuristic, s, goal as int).path.last());
                }
                let other = graph.edges[b].index_of_other_node(current);
                let ghost t = step(graph, *heuristic, s, goal as int);
                proof {
                    assert(t.path.last() == b);
                    assert(t.path =~= s.path.push(b as int));
                }
                let mut x: usize = 0;
                while x < n_edges
                    invariant
                        n_edges == graph.edges.len(),
                        used.len() == n_edges,
                        b < n_edges,
                        t.path == s.path.push(b as int),
                        x <= n_edges,
                        forall|y: int| 0 <= y < x ==> (used@[y] <==> used_up(graph, t.path, y)),
                        forall|y: int| x <= y < n_edges ==> (used@[y] <==> used_up(graph, s.path, y)),
                    decreases n_edges - x,
                {
                    proof {
                        lemma_used_up_push(graph, s.path, b as int, x as int);
                    }
                    if graph.edges[b].alike(&graph.edges[x]) {
                        used.set(x, true);
                    } else {
                        assert(used@[x as int] <==> used_up(graph, t.path, x as int));
                    }
                    x = x + 1;
                }
                hops.push(Hop::new(graph.edges[b].copied(), bg, bh));
                current = other;
                g = bg;
                proof {
                    s = t;
                }
            },
        }
    }
    Ok(hops)
}

} // verus!
