//! Prim's tree is a minimum spanning tree: it weighs no more than any
//! spanning tree built from the edges it may use.
//!
//! The proof keeps, along the run, a spanning tree that holds every edge
//! Prim has added so far and weighs no more than the tree it is compared
//! with. When Prim adds an edge the kept tree lacks, the kept tree's path
//! between that edge's ends leaves Prim's tree by some edge that is no
//! lighter; swapping the two keeps a spanning tree.

use vstd::prelude::*;
use vstd::set_lib::*;

use crate::a_star::{lemma_sum_in_insert, sum_in};
use crate::prim::{
    has_frontier, is_frontier, is_lightest, is_walk_over, joins, lemma_prim_edge_count,
    lemma_prim_step_ok, lemma_prim_tree_spans, prim_initial, prim_ok, prim_spec, prim_step,
    prim_walk, reaches_over, spans, step_over, PrimState, ValidEdgeFunction,
};
use crate::graph::Graph;

verus! {

/// A spanning tree: edges of the graph, one fewer than the nodes, that
/// connect every node to every other.
pub open spec fn is_spanning_tree(graph: &Graph, tree: Set<int>) -> bool {
    &&& tree.finite()
    &&& tree.len() + 1 == graph.nodes.len()
    &&& forall|e: int| #[trigger] tree.contains(e) ==> 0 <= e < graph.edges.len()
    &&& forall|u: int, v: int|
        0 <= u < graph.nodes.len() && 0 <= v < graph.nodes.len() ==> #[trigger] reaches_over(
            graph,
            tree,
            u,
            v,
        )
}

/// The sum of the weights of a set of edges.
pub open spec fn tree_weight(graph: &Graph, tree: Set<int>) -> int {
    sum_in(graph, tree, graph.edges.len() as nat)
}

/// Every edge of `tree` may be used.
pub open spec fn all_allowed(valid: ValidEdgeFunction, tree: Set<int>) -> bool {
    forall|e: int| #[trigger] tree.contains(e) ==> valid.allows(e)
}

proof fn lemma_joins_ends(graph: &Graph, e: int, a: int, b: int, c: int, d: int)
    requires
        joins(graph, e, a, b),
        joins(graph, e, c, d),
    ensures
        (a == c && b == d) || (a == d && b == c),
{
}

proof fn lemma_reach_refl(graph: &Graph, edges: Set<int>, a: int)
    requires
        0 <= a < graph.nodes.len(),
    ensures
        reaches_over(graph, edges, a, a),
{
    let p = seq![a];
    assert(is_walk_over(graph, edges, p));
}

proof fn lemma_reach_step(graph: &Graph, edges: Set<int>, e: int, a: int, b: int)
    requires
        joins(graph, e, a, b),
        edges.contains(e),
        graph.wf(),
    ensures
        reaches_over(graph, edges, a, b),
{
    assert(crate::graph::ends_ok(graph.edges@[e].shape(), graph.nodes.len() as int));
    let p = seq![a, b];
    let k: int = 0;
    assert(p[k] == a && p[k + 1] == b);
    assert(joins(graph, e, p[k], p[k + 1]));
    assert(step_over(graph, edges, p, k));
    assert(is_walk_over(graph, edges, p));
}

proof fn lemma_walk_concat(graph: &Graph, edges: Set<int>, p: Seq<int>, q: Seq<int>, r: Seq<int>)
    requires
        is_walk_over(graph, edges, p),
        is_walk_over(graph, edges, q),
        p.last() == q[0],
        r == p + q.drop_first(),
    ensures
        is_walk_over(graph, edges, r),
        r[0] == p[0],
        r.last() == q.last(),
{
    let n = p.len() as int;
    assert forall|k: int| 0 <= k < r.len() implies 0 <= #[trigger] r[k] < graph.nodes.len() by {
        if k < n {
            assert(r[k] == p[k]);
        } else {
            assert(r[k] == q[k - n + 1]);
        }
    }
    assert forall|k: int| 0 <= k < r.len() - 1 implies #[trigger] step_over(graph, edges, r, k) by {
        if k < n - 1 {
            assert(step_over(graph, edges, p, k));
            assert(r[k] == p[k] && r[k + 1] == p[k + 1]);
            let e = choose|e: int| #[trigger] joins(graph, e, p[k], p[k + 1]) && edges.contains(e);
            assert(joins(graph, e, r[k], r[k + 1]));
        } else {
            let j = k - n + 1;
            assert(step_over(graph, edges, q, j));
            assert(r[k] == q[j]) by {
                if k == n - 1 {
                    assert(r[k] == p.last());
                } else {
                    assert(r[k] == q[k - n + 1]);
                }
            }
            assert(r[k + 1] == q[j + 1]);
            let e = choose|e: int| #[trigger] joins(graph, e, q[j], q[j + 1]) && edges.contains(e);
            assert(joins(graph, e, r[k], r[k + 1]));
        }
    }
    if q.len() == 1 {
        assert(r =~= p);
    }
}

proof fn lemma_reach_trans(graph: &Graph, edges: Set<int>, a: int, b: int, c: int)
    requires
        reaches_over(graph, edges, a, b),
        reaches_over(graph, edges, b, c),
    ensures
        reaches_over(graph, edges, a, c),
{
    let p = choose|p: Seq<int>| #[trigger] is_walk_over(graph, edges, p) && p[0] == a && p.last() == b;
    let q = choose|q: Seq<int>| #[trigger] is_walk_over(graph, edges, q) && q[0] == b && q.last() == c;
    lemma_walk_concat(graph, edges, p, q, p + q.drop_first());
}

proof fn lemma_reach_sym(graph: &Graph, edges: Set<int>, a: int, b: int)
    requires
        reaches_over(graph, edges, a, b),
    ensures
        reaches_over(graph, edges, b, a),
{
    let p = choose|p: Seq<int>| #[trigger] is_walk_over(graph, edges, p) && p[0] == a && p.last() == b;
    let n = p.len() as int;
    let r = Seq::new(p.len(), |i: int| p[n - 1 - i]);
    assert forall|k: int| 0 <= k < r.len() implies 0 <= #[trigger] r[k] < graph.nodes.len() by {
        assert(r[k] == p[n - 1 - k]);
    }
    assert forall|k: int| 0 <= k < r.len() - 1 implies #[trigger] step_over(graph, edges, r, k) by {
        let j = n - 2 - k;
        assert(step_over(graph, edges, p, j));
        let e = choose|e: int| #[trigger] joins(graph, e, p[j], p[j + 1]) && edges.contains(e);
        assert(r[k] == p[j + 1] && r[k + 1] == p[j]);
        assert(joins(graph, e, r[k], r[k + 1]));
    }
    assert(is_walk_over(graph, edges, r));
    assert(r[0] == b && r.last() == a);
}

proof fn lemma_walk_take(graph: &Graph, edges: Set<int>, p: Seq<int>, m: int)
    requires
        is_walk_over(graph, edges, p),
        1 <= m <= p.len(),
    ensures
        is_walk_over(graph, edges, p.take(m)),
{
    let r = p.take(m);
    assert forall|k: int| 0 <= k < r.len() implies 0 <= #[trigger] r[k] < graph.nodes.len() by {
        assert(r[k] == p[k]);
    }
    assert forall|k: int| 0 <= k < r.len() - 1 implies #[trigger] step_over(graph, edges, r, k) by {
        assert(step_over(graph, edges, p, k));
        let e = choose|e: int| #[trigger] joins(graph, e, p[k], p[k + 1]) && edges.contains(e);
        assert(r[k] == p[k] && r[k + 1] == p[k + 1]);
        assert(joins(graph, e, r[k], r[k + 1]));
    }
}

proof fn lemma_walk_skip(graph: &Graph, edges: Set<int>, p: Seq<int>, m: int)
    requires
        is_walk_over(graph, edges, p),
        0 <= m < p.len(),
    ensures
        is_walk_over(graph, edges, p.skip(m)),
{
    let r = p.skip(m);
    assert forall|k: int| 0 <= k < r.len() implies 0 <= #[trigger] r[k] < graph.nodes.len() by {
        assert(r[k] == p[k + m]);
    }
    assert forall|k: int| 0 <= k < r.len() - 1 implies #[trigger] step_over(graph, edges, r, k) by {
        assert(step_over(graph, edges, p, k + m));
        let e = choose|e: int| #[trigger] joins(graph, e, p[k + m], p[k + m + 1]) && edges.contains(e);
        assert(r[k] == p[k + m] && r[k + 1] == p[k + m + 1]);
        assert(joins(graph, e, r[k], r[k + 1]));
    }
}

/// A walk can be shortened to one that visits no node twice.
proof fn lemma_simple_walk(graph: &Graph, edges: Set<int>, p: Seq<int>)
    requires
        is_walk_over(graph, edges, p),
    ensures
        exists|q: Seq<int>|
            #[trigger] is_walk_over(graph, edges, q) && q[0] == p[0] && q.last() == p.last()
                && q.no_duplicates(),
    decreases p.len(),
{
    if !p.no_duplicates() {
        let (i, j) = choose|i: int, j: int| 0 <= i < p.len() && 0 <= j < p.len() && i != j && p[i] == p[j];
        let (a, b) = if i < j { (i, j) } else { (j, i) };
        let head = p.take(a + 1);
        let tail = p.skip(b);
        lemma_walk_take(graph, edges, p, a + 1);
        lemma_walk_skip(graph, edges, p, b);
        let r = head + tail.drop_first();
        lemma_walk_concat(graph, edges, head, tail, r);
        assert(tail.last() == p.last());
        lemma_simple_walk(graph, edges, r);
    }
}

/// A walk that starts inside a set of nodes and ends outside it has a first
/// step out.
proof fn lemma_first_exit(inside: Set<int>, p: Seq<int>, i: int)
    requires
        0 <= i < p.len(),
        forall|k: int| 0 <= k <= i ==> inside.contains(#[trigger] p[k]),
        !inside.contains(p.last()),
    ensures
        exists|j: int|
            i <= j < p.len() - 1 && (forall|k: int| 0 <= k <= j ==> inside.contains(#[trigger] p[k]))
                && !inside.contains(#[trigger] p[j + 1]),
    decreases p.len() - i,
{
    if i == p.len() - 1 {
        assert(p[i] == p.last());
    } else if !inside.contains(p[i + 1]) {
        assert(!inside.contains(p[i + 1]));
    } else {
        lemma_first_exit(inside, p, i + 1);
    }
}

/// Along a walk, each step of which is bridged in `to`, the ends are
/// joined in `to`.
proof fn lemma_reroute(graph: &Graph, from: Set<int>, to: Set<int>, q: Seq<int>, j: int)
    requires
        graph.wf(),
        is_walk_over(graph, from, q),
        0 <= j < q.len(),
        forall|g: int, a: int, b: int|
            #[trigger] joins(graph, g, a, b) && from.contains(g) ==> reaches_over(graph, to, a, b),
    ensures
        reaches_over(graph, to, q[0], q[j]),
    decreases j,
{
    if j == 0 {
        lemma_reach_refl(graph, to, q[0]);
    } else {
        lemma_reroute(graph, from, to, q, j - 1);
        assert(step_over(graph, from, q, j - 1));
        let g = choose|g: int| #[trigger] joins(graph, g, q[j - 1], q[j]) && from.contains(g);
        lemma_reach_trans(graph, to, q[0], q[j - 1], q[j]);
    }
}

/// Swapping into a spanning tree an edge `e` that it lacks, for an edge `f`
/// that leaves a set of nodes on the tree's path between `e`'s ends, keeps a
/// spanning tree, with the weight changed by the difference of the two.
proof fn lemma_exchange(graph: &Graph, m: Set<int>, inside: Set<int>, e: int, u: int, v: int) -> (f: int)
    requires
        graph.wf(),
        is_spanning_tree(graph, m),
        !m.contains(e),
        joins(graph, e, u, v),
        inside.contains(u),
        !inside.contains(v),
    ensures
        m.contains(f),
        inside.contains(graph.edges@[f].lo()) != inside.contains(graph.edges@[f].hi()),
        is_spanning_tree(graph, m.remove(f).insert(e)),
        tree_weight(graph, m.remove(f).insert(e)) == tree_weight(graph, m) - graph.edge_weight(f)
            + graph.edge_weight(e),
{
    let n = graph.nodes.len();
    assert(crate::graph::ends_ok(graph.edges@[e].shape(), n as int));
    assert(reaches_over(graph, m, u, v));
    let any_walk = choose|p: Seq<int>| #[trigger] is_walk_over(graph, m, p) && p[0] == u && p.last() == v;
    lemma_simple_walk(graph, m, any_walk);
    let p = choose|q: Seq<int>|
        #[trigger] is_walk_over(graph, m, q) && q[0] == any_walk[0] && q.last() == any_walk.last() && q.no_duplicates();
    lemma_first_exit(inside, p, 0);
    let i = choose|j: int|
        0 <= j < p.len() - 1 && (forall|k: int| 0 <= k <= j ==> inside.contains(#[trigger] p[k]))
            && !inside.contains(#[trigger] p[j + 1]);
    assert(step_over(graph, m, p, i));
    let f = choose|g: int| #[trigger] joins(graph, g, p[i], p[i + 1]) && m.contains(g);
    let x = p[i];
    let y = p[i + 1];
    let m2 = m.remove(f).insert(e);
    assert(inside.contains(x));
    // Every step of `p` but the `i`-th follows an edge other than `f`.
    assert forall|k: int| 0 <= k < p.len() - 1 && k != i implies #[trigger] step_over(graph, m2, p, k) by {
        assert(step_over(graph, m, p, k));
        let g = choose|g: int| #[trigger] joins(graph, g, p[k], p[k + 1]) && m.contains(g);
        if g == f {
            lemma_joins_ends(graph, f, p[k], p[k + 1], x, y);
            assert(p[k] == p[i] || p[k + 1] == p[i]);
            if p[k] == p[i] {
                assert(k == i);
            } else {
                assert(k + 1 == i);
                assert(p[k] == p[i + 1]);
                assert(k == i + 1);
            }
        }
        assert(m2.contains(g));
    }
    // So `x` reaches `u` and `y` reaches `v` without `f`.
    let head = p.take(i + 1);
    assert forall|k: int| 0 <= k < head.len() implies 0 <= #[trigger] head[k] < n by {
        assert(head[k] == p[k]);
    }
    assert forall|k: int| 0 <= k < head.len() - 1 implies #[trigger] step_over(graph, m2, head, k) by {
        assert(step_over(graph, m2, p, k));
        let g = choose|g: int| #[trigger] joins(graph, g, p[k], p[k + 1]) && m2.contains(g);
        assert(head[k] == p[k] && head[k + 1] == p[k + 1]);
        assert(joins(graph, g, head[k], head[k + 1]));
    }
    assert(is_walk_over(graph, m2, head));
    assert(head[0] == u && head.last() == x);
    let tail = p.skip(i + 1);
    assert forall|k: int| 0 <= k < tail.len() implies 0 <= #[trigger] tail[k] < n by {
        assert(tail[k] == p[k + i + 1]);
    }
    assert forall|k: int| 0 <= k < tail.len() - 1 implies #[trigger] step_over(graph, m2, tail, k) by {
        assert(step_over(graph, m2, p, k + i + 1));
        let g = choose|g: int| #[trigger] joins(graph, g, p[k + i + 1], p[k + i + 2]) && m2.contains(g);
        assert(tail[k] == p[k + i + 1] && tail[k + 1] == p[k + i + 2]);
        assert(joins(graph, g, tail[k], tail[k + 1]));
    }
    assert(is_walk_over(graph, m2, tail));
    assert(tail[0] == y && tail.last() == v);
    lemma_reach_sym(graph, m2, u, x);
    lemma_reach_step(graph, m2, e, u, v);
    lemma_reach_sym(graph, m2, y, v);
    lemma_reach_trans(graph, m2, x, u, v);
    lemma_reach_trans(graph, m2, x, v, y);
    lemma_reach_sym(graph, m2, x, y);
    // Every edge of `m` is bridged in `m2`.
    assert forall|g: int, a: int, b: int| #[trigger] joins(graph, g, a, b) && m.contains(g) implies reaches_over(graph, m2, a, b) by {
        if g == f {
            lemma_joins_ends(graph, f, a, b, x, y);
        } else {
            lemma_reach_step(graph, m2, g, a, b);
        }
    }
    assert forall|a: int, b: int| 0 <= a < n && 0 <= b < n implies #[trigger] reaches_over(graph, m2, a, b) by {
        assert(reaches_over(graph, m, a, b));
        let q = choose|q: Seq<int>| #[trigger] is_walk_over(graph, m, q) && q[0] == a && q.last() == b;
        lemma_reroute(graph, m, m2, q, q.len() - 1);
    }
    assert(m.remove(f).len() + 1 == m.len());
    assert(!m.remove(f).contains(e));
    assert(m2.len() == m.len());
    assert(crate::graph::ends_ok(graph.edges@[f].shape(), n as int));
    lemma_sum_in_insert(graph, m.remove(f), f, graph.edges.len() as nat);
    assert(m.remove(f).insert(f) =~= m);
    lemma_sum_in_insert(graph, m.remove(f), e, graph.edges.len() as nat);
    f
}

proof fn lemma_walk_minimum(
    graph: &Graph,
    valid: ValidEdgeFunction,
    st: PrimState,
    fuel: nat,
    m: Set<int>,
    s: Set<int>,
)
    requires
        graph.wf(),
        prim_ok(graph, st),
        is_spanning_tree(graph, m),
        all_allowed(valid, m),
        st.chosen.to_set().subset_of(m),
        tree_weight(graph, m) <= tree_weight(graph, s),
    ensures
        prim_walk(graph, valid, st, fuel) matches Some(t) ==> tree_weight(graph, t.chosen.to_set())
            <= tree_weight(graph, s),
    decreases fuel,
{
    if spans(graph, st) {
        let all = set_int_range(0, graph.nodes.len() as int);
        lemma_int_range(0, graph.nodes.len() as int);
        assert(st.in_tree =~= all);
        st.chosen.unique_seq_to_set();
        lemma_subset_equality(st.chosen.to_set(), m);
    } else if fuel > 0 && has_frontier(graph, st, valid) {
        lemma_prim_step_ok(graph, st, valid);
        let e = choose|e: int| is_lightest(graph, st, valid, e);
        let t = prim_step(graph, st, valid);
        let lo = graph.edges@[e].lo();
        let hi = graph.edges@[e].hi();
        if st.in_tree.contains(lo) && st.in_tree.contains(hi) {
            lemma_walk_minimum(graph, valid, t, (fuel - 1) as nat, m, s);
        } else {
            assert(t.chosen == st.chosen.push(e));
            assert forall|x: int| t.chosen.to_set().contains(x) implies st.chosen.to_set().contains(x) || x == e by {
                let k = choose|k: int| 0 <= k < t.chosen.len() && t.chosen[k] == x;
                if k < st.chosen.len() {
                    assert(st.chosen[k] == x);
                }
            }
            if m.contains(e) {
                lemma_walk_minimum(graph, valid, t, (fuel - 1) as nat, m, s);
            } else {
                let (u, v) = if st.in_tree.contains(lo) { (lo, hi) } else { (hi, lo) };
                let f = lemma_exchange(graph, m, st.in_tree, e, u, v);
                let m2 = m.remove(f).insert(e);
                // `f` leaves Prim's tree, so Prim has neither added nor dropped it.
                if st.chosen.contains(f) {
                    let k = choose|k: int| 0 <= k < st.chosen.len() && st.chosen[k] == f;
                    assert(st.in_tree.contains(graph.edges@[st.chosen[k]].lo()));
                }
                assert(!st.dropped.contains(f));
                assert(is_frontier(graph, st, valid, f));
                assert(f == e || graph.sorts_before(e, f));
                assert(st.chosen.to_set().subset_of(m.remove(f)));
                assert(all_allowed(valid, m2));
                lemma_walk_minimum(graph, valid, t, (fuel - 1) as nat, m2, s);
            }
        }
    }
}

/// Prim's tree is a spanning tree, and weighs no more than any spanning
/// tree whose edges Prim may use: with every edge allowed, it is a minimum
/// spanning tree.
pub proof fn lemma_prim_minimum(graph: &Graph, start: int, valid: ValidEdgeFunction, s: Set<int>)
    requires
        graph.wf(),
        0 <= start < graph.nodes.len(),
        is_spanning_tree(graph, s),
        all_allowed(valid, s),
    ensures
        prim_spec(graph, start, valid) matches Some(t) ==> {
            &&& is_spanning_tree(graph, t.chosen.to_set())
            &&& tree_weight(graph, t.chosen.to_set()) <= tree_weight(graph, s)
        },
{
    let st = prim_initial(start);
    assert(st.in_tree.len() == 1);
    assert(st.chosen.to_set() =~= Set::<int>::empty());
    lemma_walk_minimum(graph, valid, st, graph.edges.len() as nat, s, s);
    lemma_prim_edge_count(graph, start, valid);
    lemma_prim_tree_spans(graph, start, valid);
    if let Some(t) = prim_spec(graph, start, valid) {
        let tree = t.chosen.to_set();
        t.chosen.unique_seq_to_set();
        assert forall|u: int, v: int| 0 <= u < graph.nodes.len() && 0 <= v < graph.nodes.len() implies #[trigger] reaches_over(graph, tree, u, v) by {
            assert(reaches_over(graph, tree, start, u));
            assert(reaches_over(graph, tree, start, v));
            lemma_reach_sym(graph, tree, start, u);
            lemma_reach_trans(graph, tree, u, start, v);
        }
        assert forall|e: int| #[trigger] tree.contains(e) implies 0 <= e < graph.edges.len() by {
            let k = choose|k: int| 0 <= k < t.chosen.len() && t.chosen[k] == e;
        }
    }
}

} // verus!
