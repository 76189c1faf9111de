//! Prim's minimum spanning tree: grow a tree from a start node by the
//! lightest valid edge that leaves it.

use vstd::prelude::*;
use vstd::set_lib::*;

use crate::graph::Graph;
use crate::types::{Edge, NoNavigablePathError, WeightOption};

verus! {

/// Which edges Prim may use.
#[derive(Debug, Clone, PartialEq, Eq)]
pub enum ValidEdgeFunction {
    /// Entry `e` says whether edge `e` may be used; edges past the end of
    /// the table may not.
    Specified(Vec<bool>),
    /// Every edge may be used.
    AlwaysValid,
}

impl ValidEdgeFunction {
    /// Edge `e` may be used.
    pub open spec fn allows(&self, e: int) -> bool {
        match self {
            ValidEdgeFunction::Specified(table) => 0 <= e < table.len() && table@[e],
            ValidEdgeFunction::AlwaysValid => true,
        }
    }

    /// The table of a predicate evaluated on every edge of the graph.
    pub fn from_predicate<F: Fn(&Graph, &Edge) -> bool>(graph: &Graph, predicate: F) -> (r: ValidEdgeFunction)
        requires
            forall|e: int| 0 <= e < graph.edges.len() ==> predicate.requires((graph, &graph.edges@[e])),
        ensures
            r matches ValidEdgeFunction::Specified(table) && table.len() == graph.edges.len()
                && forall|e: int|
                0 <= e < graph.edges.len() ==> predicate.ensures(
                    (graph, &graph.edges@[e]),
                    #[trigger] table@[e],
                ),
    {
        let mut table: Vec<bool> = Vec::new();
        let mut e: usize = 0;
        while e < graph.edges.len()
            invariant
                e <= graph.edges.len(),
                table.len() == e,
                forall|i: int| 0 <= i < graph.edges.len() ==> predicate.requires((graph, &graph.edges@[i])),
                forall|i: int| 0 <= i < e ==> predicate.ensures((graph, &graph.edges@[i]), #[trigger] table@[i]),
            decreases graph.edges.len() - e,
        {
            let ok = predicate(graph, &graph.edges[e]);
            table.push(ok);
            e = e + 1;
        }
        ValidEdgeFunction::Specified(table)
    }

    fn allows_exec(&self, e: usize) -> (r: bool)
        ensures
            r == self.allows(e as int),
    {
        match self {
            ValidEdgeFunction::Specified(table) => e < table.len() && table[e],
            ValidEdgeFunction::AlwaysValid => true,
        }
    }
}

/// Accepts every edge.
pub fn edge_is_always_valid(graph: &Graph, edge: &Edge) -> (r: bool)
    ensures
        r,
{
    true
}

/// Where Prim stands: the nodes in the tree, the edges dropped because they
/// would close a cycle, and the tree's edges in the order they were added.
pub struct PrimState {
    pub in_tree: Set<int>,
    pub dropped: Set<int>,
    pub chosen: Seq<int>,
}

/// The tree holds only the start node.
pub open spec fn prim_initial(start: int) -> PrimState {
    PrimState { in_tree: set![start], dropped: Set::empty(), chosen: Seq::empty() }
}

/// Edge `e` has been neither added to the tree nor dropped.
pub open spec fn is_open(graph: &Graph, st: PrimState, e: int) -> bool {
    0 <= e < graph.edges.len() && !st.chosen.contains(e) && !st.dropped.contains(e)
}

/// Edge `e` is open, may be used, and has an endpoint in the tree.
pub open spec fn is_frontier(graph: &Graph, st: PrimState, valid: ValidEdgeFunction, e: int) -> bool {
    &&& is_open(graph, st, e)
    &&& valid.allows(e)
    &&& (st.in_tree.contains(graph.edges@[e].lo()) || st.in_tree.contains(graph.edges@[e].hi()))
}

/// Edge `e` is the frontier edge of least weight, ties to the lower position.
pub open spec fn is_lightest(graph: &Graph, st: PrimState, valid: ValidEdgeFunction, e: int) -> bool {
    is_frontier(graph, st, valid, e) && forall|x: int|
        #[trigger] is_frontier(graph, st, valid, x) ==> x == e || graph.sorts_before(e, x)
}

/// Some frontier edge exists.
pub open spec fn has_frontier(graph: &Graph, st: PrimState, valid: ValidEdgeFunction) -> bool {
    exists|e: int| #[trigger] is_frontier(graph, st, valid, e)
}

/// Every node is in the tree.
pub open spec fn spans(graph: &Graph, st: PrimState) -> bool {
    forall|v: int| 0 <= v < graph.nodes.len() ==> #[trigger] st.in_tree.contains(v)
}

/// The state after considering the lightest frontier edge: dropped where
/// both its ends are in the tree already, else added with its new node.
pub open spec fn prim_step(graph: &Graph, st: PrimState, valid: ValidEdgeFunction) -> PrimState {
    let e = choose|e: int| is_lightest(graph, st, valid, e);
    let lo = graph.edges@[e].lo();
    let hi = graph.edges@[e].hi();
    if st.in_tree.contains(lo) && st.in_tree.contains(hi) {
        PrimState { in_tree: st.in_tree, dropped: st.dropped.insert(e), chosen: st.chosen }
    } else {
        PrimState {
            in_tree: st.in_tree.insert(if st.in_tree.contains(lo) { hi } else { lo }),
            dropped: st.dropped,
            chosen: st.chosen.push(e),
        }
    }
}

/// Prim from `st` for at most `fuel` more steps: the state once the tree
/// spans the graph, or `None` where no frontier edge is left first.
pub open spec fn prim_walk(graph: &Graph, valid: ValidEdgeFunction, st: PrimState, fuel: nat) -> Option<
    PrimState,
>
    decreases fuel,
{
    if spans(graph, st) {
        Some(st)
    } else if fuel == 0 || !has_frontier(graph, st, valid) {
        None
    } else {
        prim_walk(graph, valid, prim_step(graph, st, valid), (fuel - 1) as nat)
    }
}

/// The outcome of Prim from `start`. Each step adds or drops an edge, so as
/// many steps as there are edges suffice.
pub open spec fn prim_spec(graph: &Graph, start: int, valid: ValidEdgeFunction) -> Option<PrimState> {
    prim_walk(graph, valid, prim_initial(start), graph.edges.len() as nat)
}

/// What holds of every state Prim reaches.
pub open spec fn prim_ok(graph: &Graph, st: PrimState) -> bool {
    &&& st.in_tree.finite()
    &&& forall|v: int| #[trigger] st.in_tree.contains(v) ==> 0 <= v < graph.nodes.len()
    &&& st.chosen.no_duplicates()
    &&& forall|k: int| 0 <= k < st.chosen.len() ==> 0 <= #[trigger] st.chosen[k] < graph.edges.len()
    &&& forall|e: int| #[trigger] st.dropped.contains(e) ==> 0 <= e < graph.edges.len() && !st.chosen.contains(e)
    &&& st.dropped.finite()
    &&& st.chosen.len() + 1 == st.in_tree.len()
    &&& forall|k: int|
        0 <= k < st.chosen.len() ==> st.in_tree.contains(graph.edges@[#[trigger] st.chosen[k]].lo())
            && st.in_tree.contains(graph.edges@[st.chosen[k]].hi())
    &&& forall|e: int|
        #[trigger] st.dropped.contains(e) ==> st.in_tree.contains(graph.edges@[e].lo())
            && st.in_tree.contains(graph.edges@[e].hi())
}

proof fn lemma_lightest_below(graph: &Graph, st: PrimState, valid: ValidEdgeFunction, k: int, x: int)
    requires
        is_frontier(graph, st, valid, x),
        x < k,
        k <= graph.edges.len(),
    ensures
        exists|e: int|
            is_frontier(graph, st, valid, e) && e < k && forall|y: int|
                #[trigger] is_frontier(graph, st, valid, y) && y < k ==> y == e || graph.sorts_before(e, y),
    decreases k,
{
    if x == k - 1 && !(exists|z: int| is_frontier(graph, st, valid, z) && z < k - 1) {
        assert forall|y: int| #[trigger] is_frontier(graph, st, valid, y) && y < k implies y == x
            || graph.sorts_before(x, y) by {
            assert(y == x);
        }
    } else {
        let z = if x < k - 1 {
            x
        } else {
            choose|z: int| is_frontier(graph, st, valid, z) && z < k - 1
        };
        lemma_lightest_below(graph, st, valid, k - 1, z);
        let e = choose|e: int|
            is_frontier(graph, st, valid, e) && e < k - 1 && forall|y: int|
                #[trigger] is_frontier(graph, st, valid, y) && y < k - 1 ==> y == e || graph.sorts_before(e, y);
        if is_frontier(graph, st, valid, k - 1) && !graph.sorts_before(e, k - 1) {
            assert forall|y: int| #[trigger] is_frontier(graph, st, valid, y) && y < k implies y == k - 1
                || graph.sorts_before(k - 1, y) by {
                if y < k - 1 {
                    assert(y == e || graph.sorts_before(e, y));
                }
            }
        } else {
            assert forall|y: int| #[trigger] is_frontier(graph, st, valid, y) && y < k implies y == e
                || graph.sorts_before(e, y) by {}
        }
    }
}

proof fn lemma_lightest_exists(graph: &Graph, st: PrimState, valid: ValidEdgeFunction)
    requires
        has_frontier(graph, st, valid),
    ensures
        exists|e: int| is_lightest(graph, st, valid, e),
{
    let x = choose|x: int| is_frontier(graph, st, valid, x);
    lemma_lightest_below(graph, st, valid, graph.edges.len() as int, x);
    let e = choose|e: int|
        is_frontier(graph, st, valid, e) && e < graph.edges.len() && forall|y: int|
            #[trigger] is_frontier(graph, st, valid, y) && y < graph.edges.len() ==> y == e
                || graph.sorts_before(e, y);
    assert(is_lightest(graph, st, valid, e));
}

proof fn lemma_lightest_unique(graph: &Graph, st: PrimState, valid: ValidEdgeFunction, a: int, b: int)
    requires
        is_lightest(graph, st, valid, a),
        is_lightest(graph, st, valid, b),
    ensures
        a == b,
{
    assert(a == b || graph.sorts_before(a, b));
    assert(a == b || graph.sorts_before(b, a));
}

pub(crate) proof fn lemma_prim_step_ok(graph: &Graph, st: PrimState, valid: ValidEdgeFunction)
    requires
        graph.wf(),
        prim_ok(graph, st),
        has_frontier(graph, st, valid),
    ensures
        prim_ok(graph, prim_step(graph, st, valid)),
        is_lightest(graph, st, valid, choose|e: int| is_lightest(graph, st, valid, e)),
        prim_step(graph, st, valid).chosen.len() + prim_step(graph, st, valid).dropped.len() == st.chosen.len()
            + st.dropped.len() + 1,
{
    lemma_lightest_exists(graph, st, valid);
    let e = choose|e: int| is_lightest(graph, st, valid, e);
    let t = prim_step(graph, st, valid);
    assert(crate::graph::ends_ok(graph.edges@[e].shape(), graph.nodes.len() as int));
    let lo = graph.edges@[e].lo();
    let hi = graph.edges@[e].hi();
    if st.in_tree.contains(lo) && st.in_tree.contains(hi) {
        assert(!st.dropped.contains(e));
    } else {
        let v = if st.in_tree.contains(lo) { hi } else { lo };
        assert(!st.in_tree.contains(v));
        assert(t.chosen.drop_last() =~= st.chosen);
        assert(t.chosen.last() == e);
        assert forall|i: int, j: int| 0 <= i < t.chosen.len() && 0 <= j < t.chosen.len() && i != j implies t.chosen[i] != t.chosen[j] by {
            if i == t.chosen.len() - 1 {
                assert(st.chosen[j] == t.chosen[j]);
            } else if j == t.chosen.len() - 1 {
                assert(st.chosen[i] == t.chosen[i]);
            }
        }
        assert forall|k: int| 0 <= k < t.chosen.len() implies 0 <= #[trigger] t.chosen[k] < graph.edges.len() by {
            if k < st.chosen.len() {
                assert(t.chosen[k] == st.chosen[k]);
            }
        }
        assert forall|x: int| #[trigger] t.dropped.contains(x) implies 0 <= x < graph.edges.len() && !t.chosen.contains(x) by {
            if t.chosen.contains(x) {
                let k = choose|k: int| 0 <= k < t.chosen.len() && t.chosen[k] == x;
                if k < st.chosen.len() {
                    assert(st.chosen[k] == x);
                }
            }
        }
    }
}

proof fn lemma_prim_walk_ok(graph: &Graph, valid: ValidEdgeFunction, st: PrimState, fuel: nat)
    requires
        graph.wf(),
        prim_ok(graph, st),
    ensures
        prim_walk(graph, valid, st, fuel) matches Some(t) ==> prim_ok(graph, t) && spans(graph, t),
    decreases fuel,
{
    if !spans(graph, st) && fuel > 0 && has_frontier(graph, st, valid) {
        lemma_prim_step_ok(graph, st, valid);
        lemma_prim_walk_ok(graph, valid, prim_step(graph, st, valid), (fuel - 1) as nat);
    }
}

/// Edge `e` joins nodes `u` and `v`.
pub open spec fn joins(graph: &Graph, e: int, u: int, v: int) -> bool {
    0 <= e < graph.edges.len() && ((graph.edges@[e].lo() == u && graph.edges@[e].hi() == v) || (
    graph.edges@[e].lo() == v && graph.edges@[e].hi() == u))
}

/// An edge listed in `edges` joins the `k`-th node of `path` to the next.
pub open spec fn step_over(graph: &Graph, edges: Set<int>, path: Seq<int>, k: int) -> bool {
    exists|e: int| #[trigger] joins(graph, e, path[k], path[k + 1]) && edges.contains(e)
}

/// `path` is a walk that follows only edges listed in `edges`.
pub open spec fn is_walk_over(graph: &Graph, edges: Set<int>, path: Seq<int>) -> bool {
    &&& path.len() > 0
    &&& forall|k: int| 0 <= k < path.len() ==> 0 <= #[trigger] path[k] < graph.nodes.len()
    &&& forall|k: int| 0 <= k < path.len() - 1 ==> #[trigger] step_over(graph, edges, path, k)
}

/// Some walk over `edges` leads from `u` to `v`.
pub open spec fn reaches_over(graph: &Graph, edges: Set<int>, u: int, v: int) -> bool {
    exists|path: Seq<int>| #[trigger] is_walk_over(graph, edges, path) && path[0] == u && path.last() == v
}

/// The positions of all the graph's edges.
pub open spec fn all_edges(graph: &Graph) -> Set<int> {
    Set::new(|e: int| 0 <= e < graph.edges.len())
}

/// Every node can be reached from every other by a walk.
pub open spec fn connected(graph: &Graph) -> bool {
    forall|u: int, v: int|
        0 <= u < graph.nodes.len() && 0 <= v < graph.nodes.len() ==> #[trigger] reaches_over(
            graph,
            all_edges(graph),
            u,
            v,
        )
}

/// A walk that stands inside a set of nodes at its `i`-th node and ends
/// outside the set has an edge that leaves the set.
proof fn lemma_walk_leaves(graph: &Graph, edges: Set<int>, inside: Set<int>, path: Seq<int>, i: int)
    requires
        is_walk_over(graph, edges, path),
        0 <= i < path.len(),
        inside.contains(path[i]),
        !inside.contains(path.last()),
    ensures
        exists|e: int|
            0 <= e < graph.edges.len() && inside.contains(graph.edges@[e].lo()) != inside.contains(
                graph.edges@[e].hi(),
            ),
    decreases path.len() - i,
{
    assert(i < path.len() - 1);
    assert(step_over(graph, edges, path, i));
    let e = choose|e: int| #[trigger] joins(graph, e, path[i], path[i + 1]) && edges.contains(e);
    if !inside.contains(path[i + 1]) {
        assert(inside.contains(graph.edges@[e].lo()) != inside.contains(graph.edges@[e].hi()));
    } else {
        lemma_walk_leaves(graph, edges, inside, path, i + 1);
    }
}

proof fn lemma_prim_walk_spans(graph: &Graph, st: PrimState, start: int, fuel: nat)
    requires
        graph.wf(),
        connected(graph),
        prim_ok(graph, st),
        st.in_tree.contains(start),
        fuel + st.chosen.len() + st.dropped.len() >= graph.edges.len(),
    ensures
        prim_walk(graph, ValidEdgeFunction::AlwaysValid, st, fuel) is Some,
    decreases fuel,
{
    let valid = ValidEdgeFunction::AlwaysValid;
    if !spans(graph, st) {
        let v = choose|v: int| 0 <= v < graph.nodes.len() && !st.in_tree.contains(v);
        assert(0 <= start < graph.nodes.len());
        assert(reaches_over(graph, all_edges(graph), start, v));
        let path = choose|path: Seq<int>|
            #[trigger] is_walk_over(graph, all_edges(graph), path) && path[0] == start && path.last() == v;
        lemma_walk_leaves(graph, all_edges(graph), st.in_tree, path, 0);
        let e = choose|e: int| 0 <= e < graph.edges.len() && st.in_tree.contains(graph.edges@[e].lo()) != st.in_tree.contains(graph.edges@[e].hi());
        if st.chosen.contains(e) {
            let k = choose|k: int| 0 <= k < st.chosen.len() && st.chosen[k] == e;
            assert(st.in_tree.contains(graph.edges@[st.chosen[k]].lo()));
        }
        assert(!st.dropped.contains(e));
        assert(is_frontier(graph, st, valid, e));
        lemma_open_count(graph, st, e);
        lemma_prim_step_ok(graph, st, valid);
        let t = prim_step(graph, st, valid);
        assert(t.in_tree.contains(start));
        lemma_prim_walk_spans(graph, t, start, (fuel - 1) as nat);
    }
}

/// On a connected graph, Prim with every edge allowed succeeds from any
/// start node.
pub proof fn lemma_prim_spans_connected(graph: &Graph, start: int)
    requires
        graph.wf(),
        connected(graph),
        0 <= start < graph.nodes.len(),
    ensures
        prim_spec(graph, start, ValidEdgeFunction::AlwaysValid) is Some,
{
    let st = prim_initial(start);
    assert(st.in_tree.len() == 1);
    lemma_prim_walk_spans(graph, st, start, graph.edges.len() as nat);
}

/// A tree that spans the graph holds one edge fewer than the graph has
/// nodes, each edge once.
pub proof fn lemma_prim_edge_count(graph: &Graph, start: int, valid: ValidEdgeFunction)
    requires
        graph.wf(),
        0 <= start < graph.nodes.len(),
    ensures
        prim_spec(graph, start, valid) matches Some(t) ==> {
            &&& t.chosen.no_duplicates()
            &&& t.chosen.len() == graph.nodes.len() - 1
            &&& forall|k: int| 0 <= k < t.chosen.len() ==> 0 <= #[trigger] t.chosen[k] < graph.edges.len()
        },
{
    let st = prim_initial(start);
    assert(st.in_tree.len() == 1);
    lemma_prim_walk_ok(graph, valid, st, graph.edges.len() as nat);
    if let Some(t) = prim_spec(graph, start, valid) {
        let all = set_int_range(0, graph.nodes.len() as int);
        lemma_int_range(0, graph.nodes.len() as int);
        assert(t.in_tree =~= all);
    }
}

/// Every node in the tree is reached from `start` by a walk over the tree's
/// edges.
pub open spec fn tree_reaches(graph: &Graph, st: PrimState, start: int) -> bool {
    forall|v: int| #[trigger] st.in_tree.contains(v) ==> reaches_over(graph, st.chosen.to_set(), start, v)
}

proof fn lemma_walk_over_grow(graph: &Graph, edges: Set<int>, more: Set<int>, path: Seq<int>)
    requires
        is_walk_over(graph, edges, path),
        forall|x: int| edges.contains(x) ==> more.contains(x),
    ensures
        is_walk_over(graph, more, path),
{
    assert forall|k: int| 0 <= k < path.len() - 1 implies #[trigger] step_over(graph, more, path, k) by {
        assert(step_over(graph, edges, path, k));
        let e = choose|e: int| #[trigger] joins(graph, e, path[k], path[k + 1]) && edges.contains(e);
        assert(more.contains(e));
    }
}

proof fn lemma_walk_over_extend(graph: &Graph, edges: Set<int>, path: Seq<int>, q: Seq<int>, v: int, e: int)
    requires
        is_walk_over(graph, edges, path),
        q == path.push(v),
        0 <= v < graph.nodes.len(),
        joins(graph, e, path.last(), v),
        edges.contains(e),
    ensures
        is_walk_over(graph, edges, q),
        q[0] == path[0],
        q.last() == v,
{
    assert forall|k: int| 0 <= k < q.len() implies 0 <= #[trigger] q[k] < graph.nodes.len() by {
        if k < path.len() {
            assert(q[k] == path[k]);
        }
    }
    assert forall|k: int| 0 <= k < q.len() - 1 implies #[trigger] step_over(graph, edges, q, k) by {
        if k < path.len() - 1 {
            assert(q[k] == path[k] && q[k + 1] == path[k + 1]);
            assert(step_over(graph, edges, path, k));
            let x = choose|x: int| #[trigger] joins(graph, x, path[k], path[k + 1]) && edges.contains(x);
            assert(joins(graph, x, q[k], q[k + 1]));
        } else {
            assert(q[k] == path.last() && q[k + 1] == v);
            assert(joins(graph, e, q[k], q[k + 1]));
        }
    }
}

proof fn lemma_step_reaches(graph: &Graph, st: PrimState, valid: ValidEdgeFunction, start: int)
    requires
        graph.wf(),
        prim_ok(graph, st),
        has_frontier(graph, st, valid),
        tree_reaches(graph, st, start),
    ensures
        tree_reaches(graph, prim_step(graph, st, valid), start),
{
    lemma_prim_step_ok(graph, st, valid);
    let e = choose|e: int| is_lightest(graph, st, valid, e);
    let t = prim_step(graph, st, valid);
    assert(crate::graph::ends_ok(graph.edges@[e].shape(), graph.nodes.len() as int));
    let lo = graph.edges@[e].lo();
    let hi = graph.edges@[e].hi();
    if !(st.in_tree.contains(lo) && st.in_tree.contains(hi)) {
        let (u, v) = if st.in_tree.contains(lo) { (lo, hi) } else { (hi, lo) };
        assert(t.chosen == st.chosen.push(e));
        assert forall|x: int| st.chosen.to_set().contains(x) implies t.chosen.to_set().contains(x) by {
            let k = choose|k: int| 0 <= k < st.chosen.len() && st.chosen[k] == x;
            assert(t.chosen[k] == x);
        }
        assert(t.chosen[t.chosen.len() - 1] == e);
        assert forall|w: int| #[trigger] t.in_tree.contains(w) implies reaches_over(graph, t.chosen.to_set(), start, w) by {
            if w == v {
                assert(st.in_tree.contains(u));
                let p = choose|path: Seq<int>| #[trigger] is_walk_over(graph, st.chosen.to_set(), path) && path[0] == start && path.last() == u;
                lemma_walk_over_grow(graph, st.chosen.to_set(), t.chosen.to_set(), p);
                lemma_walk_over_extend(graph, t.chosen.to_set(), p, p.push(v), v, e);
                assert(is_walk_over(graph, t.chosen.to_set(), p.push(v)));
            } else {
                assert(st.in_tree.contains(w));
                let p = choose|path: Seq<int>| #[trigger] is_walk_over(graph, st.chosen.to_set(), path) && path[0] == start && path.last() == w;
                lemma_walk_over_grow(graph, st.chosen.to_set(), t.chosen.to_set(), p);
                assert(is_walk_over(graph, t.chosen.to_set(), p));
            }
        }
    }
}

proof fn lemma_prim_walk_reaches(graph: &Graph, valid: ValidEdgeFunction, st: PrimState, start: int, fuel: nat)
    requires
        graph.wf(),
        prim_ok(graph, st),
        tree_reaches(graph, st, start),
    ensures
        prim_walk(graph, valid, st, fuel) matches Some(t) ==> tree_reaches(graph, t, start),
    decreases fuel,
{
    if !spans(graph, st) && fuel > 0 && has_frontier(graph, st, valid) {
        lemma_prim_step_ok(graph, st, valid);
        lemma_step_reaches(graph, st, valid, start);
        lemma_prim_walk_reaches(graph, valid, prim_step(graph, st, valid), start, (fuel - 1) as nat);
    }
}

/// A successful Prim tree connects the start node to every node of the
/// graph through the tree's own edges; with its edge count, one fewer than
/// the nodes, it is a spanning tree.
pub proof fn lemma_prim_tree_spans(graph: &Graph, start: int, valid: ValidEdgeFunction)
    requires
        graph.wf(),
        0 <= start < graph.nodes.len(),
    ensures
        prim_spec(graph, start, valid) matches Some(t) ==> forall|v: int|
            0 <= v < graph.nodes.len() ==> #[trigger] reaches_over(graph, t.chosen.to_set(), start, v),
{
    let st = prim_initial(start);
    assert(st.in_tree.len() == 1);
    let single = seq![start];
    assert(is_walk_over(graph, st.chosen.to_set(), single));
    assert(tree_reaches(graph, st, start)) by {
        assert forall|v: int| #[trigger] st.in_tree.contains(v) implies reaches_over(graph, st.chosen.to_set(), start, v) by {
            assert(v == start);
            assert(single.last() == v);
        }
    }
    lemma_prim_walk_reaches(graph, valid, st, start, graph.edges.len() as nat);
    lemma_prim_walk_ok(graph, valid, st, graph.edges.len() as nat);
    if let Some(t) = prim_spec(graph, start, valid) {
        assert forall|v: int| 0 <= v < graph.nodes.len() implies #[trigger] reaches_over(graph, t.chosen.to_set(), start, v) by {
            assert(t.in_tree.contains(v));
        }
    }
}

/// Builds a minimum spanning tree from the start node by Prim's algorithm;
/// the result is the set of the tree's edge positions.
pub fn prim(graph: &Graph, start_node_index: usize, edge_validation_function: ValidEdgeFunction) -> (r: Result<
    std::collections::HashSet<usize>,
    NoNavigablePathError,
>)
    requires
        graph.wf(),
        start_node_index < graph.nodes.len(),
    ensures
        match r {
            Ok(tree) => prim_spec(graph, start_node_index as int, edge_validation_function) matches Some(t)
                && (forall|e: usize| tree@.contains(e) <==> t.chosen.contains(e as int))
                && tree@.finite() && tree@.len() == t.chosen.len(),
            Err(err) => {
                &&& prim_spec(graph, start_node_index as int, edge_validation_function) is None
                &&& err.start_node.same(&graph.nodes@[start_node_index as int])
                &&& err.goal_node.same(&graph.nodes@[start_node_index as int])
            },
        },
{
    let ghost valid = edge_validation_function;
    let n = graph.nodes.len();
    let n_edges = graph.edges.len();
    let mut in_tree: Vec<bool> = Vec::new();
    let mut v: usize = 0;
    while v < n
        invariant
            v <= n,
            in_tree.len() == v,
            forall|u: int| 0 <= u < v ==> (in_tree@[u] <==> u == start_node_index),
        decreases n - v,
    {
        in_tree.push(v == start_node_index);
        v = v + 1;
    }
    let mut closed: Vec<bool> = Vec::new();
    let mut e: usize = 0;
    while e < n_edges
        invariant
            e <= n_edges,
            closed.len() == e,
            forall|x: int| 0 <= x < e ==> !closed@[x],
        decreases n_edges - e,
    {
        closed.push(false);
        e = e + 1;
    }
    let mut tree: std::collections::HashSet<usize> = std::collections::HashSet::new();
    let mut remaining: usize = n - 1;
    let ghost mut st = prim_initial(start_node_index as int);
    let ghost spec_result = prim_spec(graph, start_node_index as int, valid);
    assert(st.in_tree.len() == 1);

    while remaining > 0
        invariant
            graph.wf(),
            n == graph.nodes.len(),
            n_edges == graph.edges.len(),
            start_node_index < n,
            in_tree.len() == n,
            closed.len() == n_edges,
            forall|u: int| 0 <= u < n ==> (in_tree@[u] <==> st.in_tree.contains(u)),
            forall|x: int| 0 <= x < n_edges ==> (closed@[x] <==> (st.chosen.contains(x) || st.dropped.contains(x))),
            forall|x: usize| tree@.contains(x) <==> st.chosen.contains(x as int),
            tree@.finite(),
            tree@.len() == st.chosen.len(),
            prim_ok(graph, st),
            valid == edge_validation_function,
            remaining == n - st.in_tree.len(),
            st.chosen.len() + st.dropped.len() <= n_edges,
            spec_result == prim_spec(graph, start_node_index as int, valid),
            spec_result == prim_walk(graph, valid, st, (n_edges - st.chosen.len() - st.dropped.len()) as nat),
        decreases n_edges - st.chosen.len() - st.dropped.len(),
    {
        let mut best: Option<usize> = None;
        let mut x: usize = 0;
        while x < n_edges
            invariant
                graph.wf(),
                n == graph.nodes.len(),
                n_edges == graph.edges.len(),
                in_tree.len() == n,
                closed.len() == n_edges,
                forall|u: int| 0 <= u < n ==> (in_tree@[u] <==> st.in_tree.contains(u)),
                forall|y: int| 0 <= y < n_edges ==> (closed@[y] <==> (st.chosen.contains(y) || st.dropped.contains(y))),
                x <= n_edges,
                valid == edge_validation_function,
                match best {
                    Some(b) => b < x && is_frontier(graph, st, valid, b as int) && forall|y: int|
                        0 <= y < x && #[trigger] is_frontier(graph, st, valid, y) ==> y == b || graph.sorts_before(b as int, y),
                    None => forall|y: int| 0 <= y < x ==> !#[trigger] is_frontier(graph, st, valid, y),
                },
            decreases n_edges - x,
        {
            if !closed[x] && edge_validation_function.allows_exec(x) {
                let lo = graph.edges[x].node_indices[0];
                let hi = graph.edges[x].node_indices[1];
                assert(crate::graph::ends_ok(graph.edges@[x as int].shape(), n as int));
                if in_tree[lo] || in_tree[hi] {
                    let lighter = match best {
                        None => true,
                        Some(b) => weight_of(graph, x) < weight_of(graph, b),
                    };
                    if lighter {
                        best = Some(x);
                    }
                }
            }
            x = x + 1;
        }
        match best {
            None => {
                proof {
                    assert(!has_frontier(graph, st, valid));
                    assert(!spans(graph, st)) by {
                        let all = set_int_range(0, n as int);
                        lemma_int_range(0, n as int);
                        if spans(graph, st) {
                            assert(all.subset_of(st.in_tree));
                            lemma_len_subset(all, st.in_tree);
                        }
                    }
                }
                return Err(
                    NoNavigablePathError::new(
                        graph.nodes[start_node_index].copied(),
                        graph.nodes[start_node_index].copied(),
                    ),
                );
            },
            Some(b) => {
                proof {
                    assert(is_lightest(graph, st, valid, b as int));
                    lemma_prim_step_ok(graph, st, valid);
                    let c = choose|e: int| is_lightest(graph, st, valid, e);
                    lemma_lightest_unique(graph, st, valid, b as int, c);
                    assert(!spans(graph, st)) by {
                        let all = set_int_range(0, n as int);
                        lemma_int_range(0, n as int);
                        if spans(graph, st) {
                            assert(all.subset_of(st.in_tree));
                            lemma_len_subset(all, st.in_tree);
                        }
                    }
                    lemma_open_count(graph, st, b as int);
                }
                let lo = graph.edges[b].node_indices[0];
                let hi = graph.edges[b].node_indices[1];
                closed.set(b, true);
                if in_tree[lo] && in_tree[hi] {
                    proof {
                        let t = prim_step(graph, st, valid);
                        st = t;
                    }
                } else {
                    let new_node = if in_tree[lo] {
                        hi
                    } else {
                        lo
                    };
                    in_tree.set(new_node, true);
                    let ghost before = tree@;
                    assert(!before.contains(b));
                    tree.insert(b);
                    remaining = remaining - 1;
                    proof {
                        let t = prim_step(graph, st, valid);
                        assert(t.chosen.last() == b as int);
                        assert(t.chosen.drop_last() =~= st.chosen);
                        assert forall|y: int| t.chosen.contains(y) <==> (st.chosen.contains(y) || y == b) by {
                            if t.chosen.contains(y) {
                                let k = choose|k: int| 0 <= k < t.chosen.len() && t.chosen[k] == y;
                                if k < st.chosen.len() {
                                    assert(st.chosen[k] == y);
                                }
                            }
                            if st.chosen.contains(y) {
                                let k = choose|k: int| 0 <= k < st.chosen.len() && st.chosen[k] == y;
                                assert(t.chosen[k] == y);
                            }
                            if y == b {
                                assert(t.chosen[t.chosen.len() - 1] == y);
                            }
                        }
                        st = t;
                    }
                }
            },
        }
    }
    proof {
        let all = set_int_range(0, n as int);
        lemma_int_range(0, n as int);
        assert(st.in_tree.subset_of(all));
        lemma_subset_equality(st.in_tree, all);
        assert(spans(graph, st));
    }
    Ok(tree)
}

/// The weight of edge `e` as a number.
fn weight_of(graph: &Graph, e: usize) -> (r: i64)
    requires
        e < graph.edges.len(),
        graph.wf(),
    ensures
        r == graph.edge_weight(e as int),
{
    match graph.edges[e].weight {
        WeightOption::Specified(w) => w,
        WeightOption::Computed => 0,
    }
}

/// While an edge is open, fewer edges have been added or dropped than the
/// graph has.
proof fn lemma_open_count(graph: &Graph, st: PrimState, b: int)
    requires
        prim_ok(graph, st),
        is_open(graph, st, b),
    ensures
        st.chosen.len() + st.dropped.len() < graph.edges.len(),
{
    let all = set_int_range(0, graph.edges.len() as int);
    lemma_int_range(0, graph.edges.len() as int);
    st.chosen.unique_seq_to_set();
    let used = st.chosen.to_set().union(st.dropped);
    lemma_len_union(st.chosen.to_set(), st.dropped);
    assert(st.chosen.to_set().disjoint(st.dropped));
    lemma_set_disjoint_lens(st.chosen.to_set(), st.dropped);
    assert(used.subset_of(all));
    used.lemma_subset_not_in_lt(all, b);
}

} // verus!
