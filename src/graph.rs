//! Graphs: construction from nodes and edges or from edge definitions,
//! with every edge's weight resolved, and the adjacency views derived from
//! a built graph.

use vstd::prelude::*;

use crate::distance::DistanceFunction;
use crate::edge_weight::EdgeWeightFunction;
use crate::types::{
    magnitude, copy_coordinates, copy_properties, cost_per_unit_spec, same_coordinates, Edge, EdgeDefinition,
    Node, Properties, WeightOption,
};

verus! {

/// Why a graph could not be built.
#[derive(Debug, Clone, Copy, PartialEq, Eq)]
pub enum GraphError {
    /// The edge names a node position out of range, or joins a node to itself.
    InvalidEdge { edge_index: usize },
    /// The node's dimension differs from that of the first node.
    DimensionMismatch { node_index: usize },
    /// The distance between some pair of nodes does not fit in a `u64`.
    DistanceOverflow,
    /// The weight function gives no weight for the edge.
    UnresolvedWeight { edge_index: usize },
    /// The magnitudes of the edge weights sum to more than an `i64` holds.
    WeightOverflow,
}

/// What construction reads of an edge: its endpoints, its declared weight
/// and its cost per unit.
pub struct EdgeShape {
    pub lo: int,
    pub hi: int,
    pub declared: WeightOption,
    pub cost: int,
}

impl Edge {
    /// What construction reads of this edge.
    pub open spec fn shape(&self) -> EdgeShape {
        EdgeShape {
            lo: self.lo(),
            hi: self.hi(),
            declared: self.weight,
            cost: cost_per_unit_spec(self.properties@),
        }
    }
}

/// The shapes of a list of edges.
pub open spec fn shapes_of(edges: Seq<Edge>) -> Seq<EdgeShape> {
    Seq::new(edges.len(), |i: int| edges[i].shape())
}

/// The coordinate vectors of a list of nodes.
pub open spec fn node_coords(nodes: Seq<Node>) -> Seq<Seq<i64>> {
    Seq::new(nodes.len(), |i: int| nodes[i].coordinates@)
}

/// The edge joins two distinct nodes among `n`.
pub open spec fn ends_ok(s: EdgeShape, n: int) -> bool {
    0 <= s.lo < n && 0 <= s.hi < n && s.lo != s.hi
}

/// Every edge joins two distinct nodes among `n`.
pub open spec fn all_ends_ok(shapes: Seq<EdgeShape>, n: int) -> bool {
    forall|i: int| 0 <= i < shapes.len() ==> ends_ok(#[trigger] shapes[i], n)
}

/// Every node has the dimension of the first.
pub open spec fn dims_ok(c: Seq<Seq<i64>>) -> bool {
    forall|i: int| 0 <= i < c.len() ==> (#[trigger] c[i]).len() == c[0].len()
}

/// The distance between any two nodes fits.
pub open spec fn distances_ok(c: Seq<Seq<i64>>, dist: DistanceFunction) -> bool {
    forall|i: int, j: int| 0 <= i < c.len() && 0 <= j < c.len() ==> dist.fits(#[trigger] c[i], #[trigger] c[j])
}

/// The weight that the weight function gives an edge of this shape.
pub open spec fn shape_weight(
    c: Seq<Seq<i64>>,
    dist: DistanceFunction,
    strat: EdgeWeightFunction,
    s: EdgeShape,
) -> Option<int> {
    strat.resolve(dist, c[s.lo], c[s.hi], s.declared, s.cost)
}

/// Every edge gets a weight.
pub open spec fn all_resolved(
    c: Seq<Seq<i64>>,
    dist: DistanceFunction,
    strat: EdgeWeightFunction,
    shapes: Seq<EdgeShape>,
) -> bool {
    forall|i: int| 0 <= i < shapes.len() ==> (#[trigger] shape_weight(c, dist, strat, shapes[i])) is Some
}

/// The sum of the magnitudes of the resolved weights of the first `n` edges.
pub open spec fn resolved_total(
    c: Seq<Seq<i64>>,
    dist: DistanceFunction,
    strat: EdgeWeightFunction,
    shapes: Seq<EdgeShape>,
    n: nat,
) -> int
    decreases n,
{
    if n == 0 {
        0
    } else {
        resolved_total(c, dist, strat, shapes, (n - 1) as nat) + match shape_weight(
            c,
            dist,
            strat,
            shapes[n - 1],
        ) {
            Some(w) => magnitude(w),
            None => 0,
        }
    }
}

/// The sum of the magnitudes of the weights of a list of edges: a bound on
/// the sum of the weights of any of them.
pub open spec fn weight_total(edges: Seq<Edge>) -> int
    decreases edges.len(),
{
    if edges.len() == 0 {
        0
    } else {
        weight_total(edges.drop_last()) + magnitude(edges.last().weight_spec())
    }
}

/// Whether `r` is what building a graph from nodes with coordinates `c` and
/// edges of shapes `shapes` gives: the first failing check, in the order
/// edges, dimensions, distances, weights, total weight, names the error;
/// with none failing, the graph holds the nodes and the edges with their
/// resolved weights.
pub open spec fn build_outcome(
    c: Seq<Seq<i64>>,
    shapes: Seq<EdgeShape>,
    dist: DistanceFunction,
    strat: EdgeWeightFunction,
    r: Result<Graph, GraphError>,
) -> bool {
    let n = c.len() as int;
    match r {
        Ok(g) => {
            &&& all_ends_ok(shapes, n)
            &&& dims_ok(c)
            &&& distances_ok(c, dist)
            &&& all_resolved(c, dist, strat, shapes)
            &&& resolved_total(c, dist, strat, shapes, shapes.len()) <= i64::MAX
            &&& g.wf()
            &&& node_coords(g.nodes@) == c
            &&& g.edges.len() == shapes.len()
            &&& g.distance_function == dist
            &&& g.edge_weight_function == strat
            &&& forall|i: int|
                0 <= i < shapes.len() ==> {
                    &&& (#[trigger] g.edges@[i]).lo() == shapes[i].lo
                    &&& g.edges@[i].hi() == shapes[i].hi
                    &&& shape_weight(c, dist, strat, shapes[i]) == Some(g.edges@[i].weight_spec())
                }
        },
        Err(GraphError::InvalidEdge { edge_index }) => {
            &&& edge_index < shapes.len()
            &&& !ends_ok(shapes[edge_index as int], n)
            &&& forall|j: int| 0 <= j < edge_index ==> ends_ok(#[trigger] shapes[j], n)
        },
        Err(GraphError::DimensionMismatch { node_index }) => {
            &&& all_ends_ok(shapes, n)
            &&& node_index < n
            &&& c[node_index as int].len() != c[0].len()
            &&& forall|j: int| 0 <= j < node_index ==> (#[trigger] c[j]).len() == c[0].len()
        },
        Err(GraphError::DistanceOverflow) => {
            &&& all_ends_ok(shapes, n)
            &&& dims_ok(c)
            &&& !distances_ok(c, dist)
        },
        Err(GraphError::UnresolvedWeight { edge_index }) => {
            &&& all_ends_ok(shapes, n)
            &&& dims_ok(c)
            &&& distances_ok(c, dist)
            &&& edge_index < shapes.len()
            &&& shape_weight(c, dist, strat, shapes[edge_index as int]) is None
            &&& forall|j: int|
                0 <= j < edge_index ==> (#[trigger] shape_weight(c, dist, strat, shapes[j])) is Some
        },
        Err(GraphError::WeightOverflow) => {
            &&& all_ends_ok(shapes, n)
            &&& dims_ok(c)
            &&& distances_ok(c, dist)
            &&& all_resolved(c, dist, strat, shapes)
            &&& resolved_total(c, dist, strat, shapes, shapes.len()) > i64::MAX
        },
    }
}

/// The endpoint coordinates of a list of edge definitions, two per
/// definition, in order.
pub open spec fn endpoints(defs: Seq<EdgeDefinition>) -> Seq<Seq<i64>>
    decreases defs.len(),
{
    if defs.len() == 0 {
        Seq::empty()
    } else {
        endpoints(defs.drop_last()).push(defs.last().0[0]@).push(defs.last().0[1]@)
    }
}

/// The distinct points of a sequence, in order of first appearance.
pub open spec fn distinct_points(s: Seq<Seq<i64>>) -> Seq<Seq<i64>>
    decreases s.len(),
{
    if s.len() == 0 {
        Seq::empty()
    } else {
        let d = distinct_points(s.drop_last());
        if d.contains(s.last()) {
            d
        } else {
            d.push(s.last())
        }
    }
}

/// The position of point `p` in `pts`.
pub open spec fn position_of(pts: Seq<Seq<i64>>, p: Seq<i64>) -> int {
    choose|k: int| 0 <= k < pts.len() && pts[k] == p
}

/// The shape of the edge that a definition gives, over the node list `pts`.
pub open spec fn definition_shape(pts: Seq<Seq<i64>>, d: EdgeDefinition) -> EdgeShape {
    let a = position_of(pts, d.0[0]@);
    let b = position_of(pts, d.0[1]@);
    EdgeShape {
        lo: if a <= b { a } else { b },
        hi: if a <= b { b } else { a },
        declared: d.1,
        cost: cost_per_unit_spec(d.2@),
    }
}

/// The nodes that a list of edge definitions gives: its distinct endpoints,
/// in order of first appearance.
pub open spec fn definition_points(defs: Seq<EdgeDefinition>) -> Seq<Seq<i64>> {
    distinct_points(endpoints(defs))
}

/// The edge shapes that a list of edge definitions gives.
pub open spec fn definition_shapes(defs: Seq<EdgeDefinition>) -> Seq<EdgeShape> {
    Seq::new(defs.len(), |i: int| definition_shape(definition_points(defs), defs[i]))
}

/// The distinct points hold no point twice and hold exactly the points of
/// the sequence.
pub proof fn lemma_distinct_points(s: Seq<Seq<i64>>)
    ensures
        distinct_points(s).no_duplicates(),
        forall|p: Seq<i64>| s.contains(p) <==> distinct_points(s).contains(p),
    decreases s.len(),
{
    if s.len() > 0 {
        let t = s.drop_last();
        lemma_distinct_points(t);
        let d = distinct_points(t);
        let ds = distinct_points(s);
        assert forall|p: Seq<i64>| s.contains(p) <==> ds.contains(p) by {
            if s.contains(p) {
                let k = choose|k: int| 0 <= k < s.len() && s[k] == p;
                if k < s.len() - 1 {
                    assert(t[k] == p);
                    assert(t.contains(p));
                    assert(d.contains(p));
                    let j = choose|j: int| 0 <= j < d.len() && d[j] == p;
                    if !d.contains(s.last()) {
                        assert(ds[j] == p);
                    }
                } else if !d.contains(s.last()) {
                    assert(ds[d.len() as int] == p);
                }
            }
            if ds.contains(p) {
                let j = choose|j: int| 0 <= j < ds.len() && ds[j] == p;
                if j < d.len() {
                    assert(d[j] == p);
                    assert(t.contains(p));
                    let k = choose|k: int| 0 <= k < t.len() && t[k] == p;
                    assert(s[k] == p);
                } else {
                    assert(s[s.len() - 1] == p);
                }
            }
        }
    }
}

/// The coordinate vectors held in a list of points.
pub open spec fn point_views(v: Seq<Vec<i64>>) -> Seq<Seq<i64>> {
    Seq::new(v.len(), |i: int| v[i]@)
}

/// The position of `p` among `points`, if it is there.
fn find_point(points: &Vec<Vec<i64>>, p: &Vec<i64>) -> (r: Option<usize>)
    ensures
        r matches Some(k) ==> k < points.len() && point_views(points@)[k as int] == p@,
        r is None ==> !point_views(points@).contains(p@),
{
    let mut k: usize = 0;
    while k < points.len()
        invariant
            k <= points.len(),
            forall|j: int| 0 <= j < k ==> point_views(points@)[j] != p@,
        decreases points.len() - k,
    {
        if same_coordinates(&points[k], p) {
            return Some(k);
        }
        k = k + 1;
    }
    None
}

/// Appends `p` to `points` unless it is there already.
fn add_point(points: &mut Vec<Vec<i64>>, p: &Vec<i64>)
    ensures
        point_views(final(points)@) == if point_views(old(points)@).contains(p@) {
            point_views(old(points)@)
        } else {
            point_views(old(points)@).push(p@)
        },
{
    match find_point(points, p) {
        Some(k) => {},
        None => {
            let ghost before = point_views(points@);
            points.push(copy_coordinates(p));
            assert(point_views(points@) =~= before.push(p@));
        },
    }
}

/// A graph: nodes, edges that refer to nodes by position, graph properties,
/// the distance function and the edge weight function it was built with.
#[derive(Debug, Clone)]
pub struct Graph {
    pub nodes: Vec<Node>,
    pub edges: Vec<Edge>,
    pub properties: Properties,
    pub distance_function: DistanceFunction,
    pub edge_weight_function: EdgeWeightFunction,
}

impl Graph {
    /// A built graph: each edge joins two distinct nodes and carries a
    /// resolved weight, all nodes share one dimension, the distance between
    /// any two nodes fits in a `u64`, and the magnitudes of all weights sum
    /// to no more than an `i64` holds.
    pub open spec fn wf(&self) -> bool {
        let c = node_coords(self.nodes@);
        &&& forall|i: int|
            0 <= i < self.edges.len() ==> {
                &&& ends_ok((#[trigger] self.edges@[i]).shape(), self.nodes.len() as int)
                &&& self.edges@[i].weight is Specified
            }
        &&& dims_ok(c)
        &&& distances_ok(c, self.distance_function)
        &&& weight_total(self.edges@) <= i64::MAX
    }

    /// The weight of edge `e` as a number.
    pub open spec fn edge_weight(&self, e: int) -> int {
        self.edges@[e].weight_spec()
    }

    /// Edge `a` sorts before edge `b`: lower weight, then lower position.
    pub open spec fn sorts_before(&self, a: int, b: int) -> bool {
        self.edge_weight(a) < self.edge_weight(b) || (self.edge_weight(a) == self.edge_weight(b)
            && a < b)
    }

    /// `list` holds the edges among the first `m` that touch node `v`, each
    /// once, in ascending order of weight and then position.
    pub open spec fn is_incidence_upto(&self, v: int, list: Seq<usize>, m: int) -> bool {
        &&& forall|k: int|
            0 <= k < list.len() ==> (#[trigger] list[k]) < m && self.edges@[list[k] as int].touches(v)
        &&& forall|e: int|
            0 <= e < m && (#[trigger] self.edges@[e]).touches(v) ==> list.contains(e as usize)
        &&& forall|k: int, l: int|
            0 <= k < l < list.len() ==> self.sorts_before(#[trigger] list[k] as int, #[trigger] list[l] as int)
    }

    /// `list` holds the edges that touch node `v`, each once, in ascending
    /// order of weight and then position.
    pub open spec fn is_incidence_list(&self, v: int, list: Seq<usize>) -> bool {
        self.is_incidence_upto(v, list, self.edges.len() as int)
    }

    fn weight_number(&self, e: usize) -> (r: i64)
        requires
            e < self.edges.len(),
            self.wf(),
        ensures
            r == self.edge_weight(e as int),
    {
        match self.edges[e].weight {
            WeightOption::Specified(w) => w,
            WeightOption::Computed => 0,
        }
    }

    /// Inserts edge `e` into `list`, keeping it ordered by weight and then
    /// position.
    fn insert_by_weight(&self, list: &mut Vec<usize>, e: usize, Ghost(v): Ghost<int>)
        requires
            self.wf(),
            e < self.edges.len(),
            self.edges@[e as int].touches(v),
            self.is_incidence_upto(v, old(list)@, e as int),
        ensures
            self.is_incidence_upto(v, final(list)@, e + 1),
    {
        let we = self.weight_number(e);
        let mut p: usize = 0;
        while p < list.len()
            invariant
                self.wf(),
                e < self.edges.len(),
                p <= list.len(),
                self.is_incidence_upto(v, list@, e as int),
                forall|k: int| 0 <= k < p ==> self.sorts_before(#[trigger] list@[k] as int, e as int),
                we == self.edge_weight(e as int),
            ensures
                p == list.len() || self.edge_weight(list@[p as int] as int) > we,
            decreases list.len() - p,
        {
            let x = list[p];
            assert(x < e);
            if self.weight_number(x) > we {
                break;
            }
            assert(self.sorts_before(list@[p as int] as int, e as int));
            p = p + 1;
        }
        let ghost before = list@;
        proof {
            assert forall|k: int| p <= k < before.len() implies self.sorts_before(e as int, #[trigger] before[k] as int) by {
                if k > p {
                    assert(self.sorts_before(before[p as int] as int, before[k] as int));
                }
            }
        }
        list.insert(p, e);
        proof {
            let after = list@;
            assert forall|x: int| 0 <= x < e + 1 && (#[trigger] self.edges@[x]).touches(v) implies after.contains(x as usize) by {
                if x == e {
                    assert(after[p as int] == e);
                } else {
                    let k = choose|k: int| 0 <= k < before.len() && before[k] == x as usize;
                    if k < p {
                        assert(after[k] == before[k]);
                    } else {
                        assert(after[k + 1] == before[k]);
                    }
                }
            }
            assert forall|k: int, l: int| 0 <= k < l < after.len() implies self.sorts_before(#[trigger] after[k] as int, #[trigger] after[l] as int) by {
                if l < p {
                    assert(after[k] == before[k] && after[l] == before[l]);
                } else if l == p {
                    assert(after[k] == before[k]);
                } else if k < p {
                    assert(after[k] == before[k] && after[l] == before[l - 1]);
                } else if k == p {
                    assert(after[l] == before[l - 1]);
                } else {
                    assert(after[k] == before[k - 1] && after[l] == before[l - 1]);
                }
            }
        }
    }

    /// For each node, the positions of the edges that touch it, ascending by
    /// weight and then position.
    pub fn adjacency_indices(&self) -> (r: Vec<Vec<usize>>)
        requires
            self.wf(),
        ensures
            r.len() == self.nodes.len(),
            forall|v: int| 0 <= v < r.len() ==> self.is_incidence_list(v, #[trigger] r@[v]@),
    {
        let n = self.nodes.len();
        let mut adj: Vec<Vec<usize>> = Vec::new();
        let mut v: usize = 0;
        while v < n
            invariant
                v <= n,
                adj.len() == v,
                forall|u: int| 0 <= u < v ==> (#[trigger] adj@[u])@.len() == 0,
            decreases n - v,
        {
            adj.push(Vec::new());
            v = v + 1;
        }
        let mut e: usize = 0;
        while e < self.edges.len()
            invariant
                self.wf(),
                n == self.nodes.len(),
                e <= self.edges.len(),
                adj.len() == n,
                forall|u: int| 0 <= u < n ==> self.is_incidence_upto(u, #[trigger] adj@[u]@, e as int),
            decreases self.edges.len() - e,
        {
            let lo = self.edges[e].node_indices[0];
            let hi = self.edges[e].node_indices[1];
            assert(ends_ok(self.edges@[e as int].shape(), n as int));
            let ghost adj0 = adj@;
            self.insert_by_weight(&mut adj[lo], e, Ghost(lo as int));
            let ghost adj1 = adj@;
            assert forall|u: int| 0 <= u < n && u != lo && u != hi implies self.is_incidence_upto(u, #[trigger] adj1[u]@, e + 1) by {
                assert(adj1[u] == adj0[u]);
            }
            assert(adj1[hi as int] == adj0[hi as int]);
            self.insert_by_weight(&mut adj[hi], e, Ghost(hi as int));
            assert forall|u: int| 0 <= u < n implies self.is_incidence_upto(u, #[trigger] adj@[u]@, e + 1) by {
                if u != hi {
                    assert(adj@[u] == adj1[u]);
                }
                if u == lo {
                    assert(adj1[u] == adj1[lo as int]);
                }
            }
            e = e + 1;
        }
        adj
    }

    /// For each node, by position, the edges that touch it, ascending by
    /// weight and then by position in the graph.
    pub fn adjacency_map(&self) -> (r: Vec<Vec<Edge>>)
        requires
            self.wf(),
        ensures
            r.len() == self.nodes.len(),
            exists|ix: Seq<Seq<usize>>|
                {
                    &&& ix.len() == self.nodes.len()
                    &&& forall|v: int|
                        0 <= v < ix.len() ==> {
                            &&& self.is_incidence_list(v, #[trigger] ix[v])
                            &&& r@[v].len() == ix[v].len()
                            &&& forall|k: int|
                                0 <= k < ix[v].len() ==> (#[trigger] r@[v]@[k]).same(
                                    &self.edges@[ix[v][k] as int],
                                )
                        }
                },
    {
        let adj = self.adjacency_indices();
        let ghost ix = Seq::new(adj@.len(), |v: int| adj@[v]@);
        let mut r: Vec<Vec<Edge>> = Vec::new();
        let mut v: usize = 0;
        while v < adj.len()
            invariant
                self.wf(),
                adj.len() == self.nodes.len(),
                forall|u: int| 0 <= u < adj.len() ==> self.is_incidence_list(u, #[trigger] adj@[u]@),
                ix == Seq::new(adj@.len(), |u: int| adj@[u]@),
                v <= adj.len(),
                r.len() == v,
                forall|u: int|
                    0 <= u < v ==> {
                        &&& (#[trigger] r@[u]).len() == ix[u].len()
                        &&& forall|k: int|
                            0 <= k < ix[u].len() ==> (#[trigger] r@[u]@[k]).same(&self.edges@[ix[u][k] as int])
                    },
            decreases adj.len() - v,
        {
            let list = &adj[v];
            let mut edges: Vec<Edge> = Vec::new();
            let mut k: usize = 0;
            while k < list.len()
                invariant
                    self.wf(),
                    list@ == ix[v as int],
                    self.is_incidence_list(v as int, list@),
                    k <= list.len(),
                    edges.len() == k,
                    forall|j: int| 0 <= j < k ==> (#[trigger] edges@[j]).same(&self.edges@[list@[j] as int]),
                decreases list.len() - k,
            {
                let e = list[k];
                edges.push(self.edges[e].copied());
                k = k + 1;
            }
            r.push(edges);
            v = v + 1;
        }
        assert(forall|u: int| 0 <= u < ix.len() ==> self.is_incidence_list(u, #[trigger] ix[u]));
        r
    }

    /// Builds a graph from nodes and edges and resolves every edge's weight
    /// with the weight function (the declared weight where none is given).
    #[verifier::loop_isolation(false)]
    pub fn new(
        nodes: Vec<Node>,
        edges: Vec<Edge>,
        properties: Properties,
        distance_function: DistanceFunction,
        edge_weight_function: Option<EdgeWeightFunction>,
    ) -> (r: Result<Graph, GraphError>)
        ensures
            build_outcome(
                node_coords(nodes@),
                shapes_of(edges@),
                distance_function,
                match edge_weight_function {
                    Some(f) => f,
                    None => EdgeWeightFunction::Specified,
                },
                r,
            ),
            r matches Ok(g) ==> {
                &&& g.nodes@ == nodes@
                &&& g.properties@ == properties@
                &&& forall|i: int|
                    0 <= i < edges.len() ==> (#[trigger] g.edges@[i]).properties@
                        == edges@[i].properties@
            },
    {
        let strat = match edge_weight_function {
            Some(f) => f,
            None => EdgeWeightFunction::Specified,
        };
        let ghost c = node_coords(nodes@);
        let ghost shapes = shapes_of(edges@);
        let mut graph = Graph {
            nodes,
            edges,
            properties,
            distance_function,
            edge_weight_function: strat,
        };
        let n = graph.nodes.len();

        let mut i: usize = 0;
        while i < graph.edges.len()
            invariant
                i <= graph.edges.len(),
                n == graph.nodes.len(),
                shapes == shapes_of(graph.edges@),
                forall|j: int| 0 <= j < i ==> ends_ok(#[trigger] shapes[j], n as int),
            decreases graph.edges.len() - i,
        {
            let e = &graph.edges[i];
            if !(e.node_indices[0] < n && e.node_indices[1] < n && e.node_indices[0] != e.node_indices[1]) {
                return Err(GraphError::InvalidEdge { edge_index: i });
            }
            i = i + 1;
        }

        if n > 0 {
            let d0 = graph.nodes[0].coordinates.len();
            let mut k: usize = 0;
            while k < n
                invariant
                    k <= n,
                    n == graph.nodes.len(),
                    c == node_coords(graph.nodes@),
                    d0 == c[0].len(),
                    forall|j: int| 0 <= j < k ==> (#[trigger] c[j]).len() == c[0].len(),
                decreases n - k,
            {
                if graph.nodes[k].coordinates.len() != d0 {
                    return Err(GraphError::DimensionMismatch { node_index: k });
                }
                k = k + 1;
            }
        }

        let mut a: usize = 0;
        while a < n
            invariant
                a <= n,
                n == graph.nodes.len(),
                c == node_coords(graph.nodes@),
                forall|x: int, y: int| 0 <= x < a && 0 <= y < n ==> distance_function.fits(#[trigger] c[x], #[trigger] c[y]),
            decreases n - a,
        {
            let mut b: usize = 0;
            while b < n
                invariant
                    a < n,
                    b <= n,
                    n == graph.nodes.len(),
                    c == node_coords(graph.nodes@),
                    forall|x: int, y: int| 0 <= x < a && 0 <= y < n ==> distance_function.fits(#[trigger] c[x], #[trigger] c[y]),
                    forall|y: int| 0 <= y < b ==> distance_function.fits(c[a as int], #[trigger] c[y]),
                decreases n - b,
            {
                if distance_function.checked(&graph.nodes[a].coordinates, &graph.nodes[b].coordinates).is_none() {
                    proof {
                        assert(c[a as int] == graph.nodes@[a as int].coordinates@);
                        assert(c[b as int] == graph.nodes@[b as int].coordinates@);
                        assert(!distance_function.fits(c[a as int], c[b as int]));
                        assert(dims_ok(c));
                    }
                    return Err(GraphError::DistanceOverflow);
                }
                b = b + 1;
            }
            a = a + 1;
        }

        let mut weights: Vec<i64> = Vec::new();
        let mut i: usize = 0;
        while i < graph.edges.len()
            invariant
                i <= graph.edges.len(),
                n == graph.nodes.len(),
                c == node_coords(graph.nodes@),
                shapes == shapes_of(graph.edges@),
                graph.distance_function == distance_function,
                graph.edge_weight_function == strat,
                all_ends_ok(shapes, n as int),
                weights.len() == i,
                forall|j: int| 0 <= j < i ==> shape_weight(c, distance_function, strat, #[trigger] shapes[j]) == Some(weights@[j] as int),
            decreases graph.edges.len() - i,
        {
            assert(ends_ok(shapes[i as int], n as int));
            match strat.weight(&graph, &graph.edges[i]) {
                Some(w) => {
                    weights.push(w);
                },
                None => {
                    return Err(GraphError::UnresolvedWeight { edge_index: i });
                },
            }
            i = i + 1;
        }

        let mut total: u128 = 0;
        let mut rebuilt: Vec<Edge> = Vec::new();
        let mut i: usize = 0;
        while i < graph.edges.len()
            invariant
                i <= graph.edges.len(),
                n == graph.nodes.len(),
                c == node_coords(graph.nodes@),
                shapes == shapes_of(graph.edges@),
                all_ends_ok(shapes, n as int),
                weights.len() == graph.edges.len(),
                forall|j: int| 0 <= j < weights.len() ==> shape_weight(c, distance_function, strat, #[trigger] shapes[j]) == Some(weights@[j] as int),
                rebuilt.len() == i,
                total == resolved_total(c, distance_function, strat, shapes, i as nat),
                total == weight_total(rebuilt@),
                total <= i64::MAX,
                forall|j: int| 0 <= j < i ==> {
                    &&& (#[trigger] rebuilt@[j]).lo() == shapes[j].lo
                    &&& rebuilt@[j].hi() == shapes[j].hi
                    &&& rebuilt@[j].weight == WeightOption::Specified(weights@[j])
                    &&& rebuilt@[j].properties@ == graph.edges@[j].properties@
                },
            decreases graph.edges.len() - i,
        {
            let w = weights[i];
            let size: u128 = if w < 0 {
                (0 - (w as i128)) as u128
            } else {
                w as u128
            };
            if total + size > i64::MAX as u128 {
                proof {
                    lemma_resolved_total_monotone(c, distance_function, strat, shapes, (i + 1) as nat, shapes.len());
                }
                return Err(GraphError::WeightOverflow);
            }
            total = total + size;
            let e = &graph.edges[i];
            let ne = Edge {
                node_indices: [e.node_indices[0], e.node_indices[1]],
                weight: WeightOption::Specified(w),
                properties: copy_properties(&e.properties),
            };
            let ghost before = rebuilt@;
            rebuilt.push(ne);
            proof {
                assert(rebuilt@.drop_last() =~= before);
            }
            i = i + 1;
        }
        graph.edges = rebuilt;
        proof {
            assert forall|j: int| 0 <= j < shapes.len() implies (#[trigger] shape_weight(c, distance_function, strat, shapes[j])) is Some by {
                assert(shape_weight(c, distance_function, strat, shapes[j]) == Some(weights@[j] as int));
            }
            assert forall|j: int| 0 <= j < graph.edges.len() implies ends_ok((#[trigger] graph.edges@[j]).shape(), n as int) by {
                assert(ends_ok(shapes[j], n as int));
            }
        }
        Ok(graph)
    }

    /// Builds a graph from edge definitions: the endpoints become nodes, one
    /// per distinct coordinate vector in order of first appearance, and each
    /// definition becomes an edge between its endpoints' nodes; then weights
    /// are resolved as in `new`.
    pub fn from_edge_definitions(
        edge_definitions: Vec<EdgeDefinition>,
        properties: Properties,
        distance_function: DistanceFunction,
        edge_weight_function: Option<EdgeWeightFunction>,
    ) -> (r: Result<Graph, GraphError>)
        ensures
            build_outcome(
                definition_points(edge_definitions@),
                definition_shapes(edge_definitions@),
                distance_function,
                match edge_weight_function {
                    Some(f) => f,
                    None => EdgeWeightFunction::Specified,
                },
                r,
            ),
            r matches Ok(g) ==> {
                &&& g.properties@ == properties@
                &&& forall|k: int| 0 <= k < g.nodes.len() ==> (#[trigger] g.nodes@[k]).properties@.len() == 0
                &&& forall|i: int|
                    0 <= i < edge_definitions.len() ==> (#[trigger] g.edges@[i]).properties@
                        == edge_definitions@[i].2@
            },
    {
        let ghost defs = edge_definitions@;
        let mut points: Vec<Vec<i64>> = Vec::new();
        let mut i: usize = 0;
        while i < edge_definitions.len()
            invariant
                i <= edge_definitions.len(),
                defs == edge_definitions@,
                point_views(points@) == distinct_points(endpoints(defs.take(i as int))),
            decreases edge_definitions.len() - i,
        {
            let d = &edge_definitions[i];
            proof {
                let t = defs.take(i as int);
                let t1 = defs.take(i + 1);
                assert(t1.drop_last() =~= t);
                assert(t1.last() == defs[i as int]);
                let e = endpoints(t);
                assert(e.push(d.0[0]@).push(d.0[1]@).drop_last() =~= e.push(d.0[0]@));
                assert(e.push(d.0[0]@).drop_last() =~= e);
            }
            add_point(&mut points, &d.0[0]);
            add_point(&mut points, &d.0[1]);
            proof {
                let t = defs.take(i as int);
                let t1 = defs.take(i + 1);
                let e = endpoints(t);
                assert(endpoints(t1) == e.push(d.0[0]@).push(d.0[1]@));
                assert(distinct_points(e.push(d.0[0]@)) == {
                    let x = distinct_points(e);
                    if x.contains(d.0[0]@) {
                        x
                    } else {
                        x.push(d.0[0]@)
                    }
                });
            }
            i = i + 1;
        }
        proof {
            assert(defs.take(defs.len() as int) =~= defs);
            lemma_distinct_points(endpoints(defs));
        }
        let ghost pts = definition_points(defs);

        let mut nodes: Vec<Node> = Vec::new();
        let mut k: usize = 0;
        while k < points.len()
            invariant
                k <= points.len(),
                point_views(points@) == pts,
                nodes.len() == k,
                forall|j: int| 0 <= j < k ==> (#[trigger] nodes@[j]).coordinates@ == pts[j] && nodes@[j].properties@.len() == 0,
            decreases points.len() - k,
        {
            nodes.push(Node::new(copy_coordinates(&points[k]), Vec::new()));
            k = k + 1;
        }

        let mut edges: Vec<Edge> = Vec::new();
        let mut i: usize = 0;
        while i < edge_definitions.len()
            invariant
                i <= edge_definitions.len(),
                defs == edge_definitions@,
                point_views(points@) == pts,
                pts == definition_points(defs),
                pts.no_duplicates(),
                forall|p: Seq<i64>| endpoints(defs).contains(p) <==> pts.contains(p),
                edges.len() == i,
                forall|j: int| 0 <= j < i ==> (#[trigger] edges@[j]).shape() == definition_shapes(defs)[j] && edges@[j].properties@ == defs[j].2@,
            decreases edge_definitions.len() - i,
        {
            let d = &edge_definitions[i];
            proof {
                lemma_endpoints_contain(defs, i as int);
            }
            let a = match find_point(&points, &d.0[0]) {
                Some(a) => a,
                None => 0,
            };
            let b = match find_point(&points, &d.0[1]) {
                Some(b) => b,
                None => 0,
            };
            proof {
                let pa = position_of(pts, d.0[0]@);
                let pb = position_of(pts, d.0[1]@);
                assert(pts[a as int] == d.0[0]@);
                assert(pts[b as int] == d.0[1]@);
                assert(pts[pa] == d.0[0]@);
                assert(pts[pb] == d.0[1]@);
                assert(pa == a);
                assert(pb == b);
            }
            let e = Edge::new([a, b], d.1, copy_properties(&d.2));
            edges.push(e);
            i = i + 1;
        }
        proof {
            assert(node_coords(nodes@) =~= pts);
            assert(shapes_of(edges@) =~= definition_shapes(defs));
        }
        Graph::new(nodes, edges, properties, distance_function, edge_weight_function)
    }
}

/// Two results that both meet `build_outcome` for the same input agree: on
/// success or the error, and on a success's node count and edges.
pub proof fn lemma_build_outcome_unique(
    c: Seq<Seq<i64>>,
    shapes: Seq<EdgeShape>,
    dist: DistanceFunction,
    strat: EdgeWeightFunction,
    r1: Result<Graph, GraphError>,
    r2: Result<Graph, GraphError>,
)
    requires
        build_outcome(c, shapes, dist, strat, r1),
        build_outcome(c, shapes, dist, strat, r2),
    ensures
        r1 is Ok <==> r2 is Ok,
        r1 is Err ==> r1 == r2,
        r1 matches Ok(g1) ==> r2 matches Ok(g2) ==> {
            &&& g1.nodes.len() == g2.nodes.len()
            &&& g1.edges.len() == g2.edges.len()
            &&& forall|i: int|
                0 <= i < g1.edges.len() ==> {
                    &&& (#[trigger] g1.edges@[i]).lo() == g2.edges@[i].lo()
                    &&& g1.edges@[i].hi() == g2.edges@[i].hi()
                    &&& g1.edges@[i].weight_spec() == g2.edges@[i].weight_spec()
                }
        },
{
    let n = c.len() as int;
    match (r1, r2) {
        (Err(GraphError::InvalidEdge { edge_index: a }), Err(GraphError::InvalidEdge { edge_index: b })) => {
            if a < b {
                assert(ends_ok(shapes[a as int], n));
            } else if b < a {
                assert(ends_ok(shapes[b as int], n));
            }
        },
        (Err(GraphError::DimensionMismatch { node_index: a }), Err(GraphError::DimensionMismatch { node_index: b })) => {
            if a < b {
                assert(c[a as int].len() == c[0].len());
            } else if b < a {
                assert(c[b as int].len() == c[0].len());
            }
        },
        (Err(GraphError::UnresolvedWeight { edge_index: a }), Err(GraphError::UnresolvedWeight { edge_index: b })) => {
            if a < b {
                assert(shape_weight(c, dist, strat, shapes[a as int]) is Some);
            } else if b < a {
                assert(shape_weight(c, dist, strat, shapes[b as int]) is Some);
            }
        },
        (Err(GraphError::InvalidEdge { edge_index: a }), _) => {
            assert(!ends_ok(shapes[a as int], n));
        },
        (_, Err(GraphError::InvalidEdge { edge_index: b })) => {
            assert(!ends_ok(shapes[b as int], n));
        },
        (Err(GraphError::DimensionMismatch { node_index: a }), _) => {
            assert(c[a as int].len() != c[0].len());
        },
        (_, Err(GraphError::DimensionMismatch { node_index: b })) => {
            assert(c[b as int].len() != c[0].len());
        },
        (Err(GraphError::UnresolvedWeight { edge_index: a }), _) => {
            assert(shape_weight(c, dist, strat, shapes[a as int]) is None);
        },
        (_, Err(GraphError::UnresolvedWeight { edge_index: b })) => {
            assert(shape_weight(c, dist, strat, shapes[b as int]) is None);
        },
        (Ok(g1), Ok(g2)) => {
            assert(node_coords(g1.nodes@).len() == node_coords(g2.nodes@).len());
        },
        _ => {},
    }
}

/// Building from edge definitions gives one node per distinct endpoint,
/// no two at the same coordinates, and one edge per definition; and it
/// ends as building from the explicit nodes and edges that the definitions
/// describe does: with the same error, or with as many nodes and edges,
/// joining the same positions with the same weights.
pub proof fn lemma_definitions_build_like_explicit(
    defs: Seq<EdgeDefinition>,
    nodes: Seq<Node>,
    edges: Seq<Edge>,
    dist: DistanceFunction,
    strat: EdgeWeightFunction,
    from_definitions: Result<Graph, GraphError>,
    explicit: Result<Graph, GraphError>,
)
    requires
        build_outcome(definition_points(defs), definition_shapes(defs), dist, strat, from_definitions),
        build_outcome(node_coords(nodes), shapes_of(edges), dist, strat, explicit),
        node_coords(nodes) == definition_points(defs),
        shapes_of(edges) == definition_shapes(defs),
    ensures
        from_definitions matches Ok(g) ==> {
            &&& node_coords(g.nodes@) == definition_points(defs)
            &&& node_coords(g.nodes@).no_duplicates()
            &&& forall|p: Seq<i64>| endpoints(defs).contains(p) <==> node_coords(g.nodes@).contains(p)
            &&& g.edges.len() == defs.len()
        },
        from_definitions is Ok <==> explicit is Ok,
        from_definitions is Err ==> from_definitions == explicit,
        from_definitions matches Ok(g1) ==> explicit matches Ok(g2) ==> {
            &&& g1.nodes.len() == g2.nodes.len()
            &&& g1.edges.len() == g2.edges.len()
            &&& forall|i: int|
                0 <= i < g1.edges.len() ==> {
                    &&& (#[trigger] g1.edges@[i]).lo() == g2.edges@[i].lo()
                    &&& g1.edges@[i].hi() == g2.edges@[i].hi()
                    &&& g1.edges@[i].weight_spec() == g2.edges@[i].weight_spec()
                }
        },
{
    lemma_distinct_points(endpoints(defs));
    lemma_build_outcome_unique(
        definition_points(defs),
        definition_shapes(defs),
        dist,
        strat,
        from_definitions,
        explicit,
    );
}

proof fn lemma_endpoints_contain(defs: Seq<EdgeDefinition>, i: int)
    requires
        0 <= i < defs.len(),
    ensures
        endpoints(defs).contains(defs[i].0[0]@),
        endpoints(defs).contains(defs[i].0[1]@),
    decreases defs.len(),
{
    let t = defs.drop_last();
    let e = endpoints(t);
    let full = endpoints(defs);
    if i == defs.len() - 1 {
        assert(full[e.len() as int] == defs[i].0[0]@);
        assert(full[e.len() as int + 1] == defs[i].0[1]@);
    } else {
        lemma_endpoints_contain(t, i);
        assert(t[i] == defs[i]);
        let k0 = choose|k: int| 0 <= k < e.len() && e[k] == defs[i].0[0]@;
        let k1 = choose|k: int| 0 <= k < e.len() && e[k] == defs[i].0[1]@;
        assert(full[k0] == e[k0]);
        assert(full[k1] == e[k1]);
    }
}

proof fn lemma_resolved_total_monotone(
    c: Seq<Seq<i64>>,
    dist: DistanceFunction,
    strat: EdgeWeightFunction,
    shapes: Seq<EdgeShape>,
    k: nat,
    m: nat,
)
    requires
        k <= m,
    ensures
        resolved_total(c, dist, strat, shapes, k) <= resolved_total(c, dist, strat, shapes, m),
    decreases m - k,
{
    if k < m {
        lemma_resolved_total_monotone(c, dist, strat, shapes, k, (m - 1) as nat);
        let w = match shape_weight(c, dist, strat, shapes[m - 1]) {
            Some(w) => magnitude(w),
            None => 0,
        };
        assert(w >= 0);
    }
}

} // verus!
