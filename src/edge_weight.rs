//! Edge weight functions: how a graph resolves each edge's weight when it
//! is built.

use vstd::prelude::*;

use crate::distance::DistanceFunction;
use crate::graph::Graph;
use crate::types::{copy_properties, cost_per_unit, Edge, Node, WeightOption};

verus! {

/// A named edge weight function.
#[derive(Debug, Clone, Copy, PartialEq, Eq)]
pub enum EdgeWeightFunction {
    /// The edge's declared weight, unchanged.
    Specified,
    /// The distance between the endpoints times the edge's cost per unit.
    LengthCostPerUnit,
}

impl EdgeWeightFunction {
    /// The weight this function gives an edge whose endpoints have
    /// coordinates `a` and `b`, whose declared weight is `declared` and whose
    /// cost per unit is `cost`; `None` where it gives no weight that an `i64`
    /// holds.
    pub open spec fn resolve(
        self,
        dist: DistanceFunction,
        a: Seq<i64>,
        b: Seq<i64>,
        declared: WeightOption,
        cost: int,
    ) -> Option<int> {
        match self {
            EdgeWeightFunction::Specified => match declared {
                WeightOption::Specified(w) => Some(w as int),
                WeightOption::Computed => None,
            },
            EdgeWeightFunction::LengthCostPerUnit => {
                let w = dist.spec_of(a, b) * cost;
                if dist.fits(a, b) && i64::MIN <= w <= i64::MAX {
                    Some(w)
                } else {
                    None
                }
            },
        }
    }

    /// The weight this function gives `edge` of `graph`.
    pub open spec fn weight_spec(self, graph: &Graph, edge: &Edge) -> Option<int> {
        self.resolve(
            graph.distance_function,
            graph.nodes@[edge.lo()].coordinates@,
            graph.nodes@[edge.hi()].coordinates@,
            edge.weight,
            crate::types::cost_per_unit_spec(edge.properties@),
        )
    }

    /// The weight this function gives `edge` of `graph`, if any.
    pub fn weight(&self, graph: &Graph, edge: &Edge) -> (r: Option<i64>)
        requires
            edge.hi() < graph.nodes.len(),
            edge.lo() < graph.nodes.len(),
        ensures
            r is Some <==> self.weight_spec(graph, edge) is Some,
            r matches Some(w) ==> self.weight_spec(graph, edge) == Some(w as int),
    {
        match self {
            EdgeWeightFunction::Specified => specified_edge_weight(graph, edge),
            EdgeWeightFunction::LengthCostPerUnit => length_cost_per_unit(graph, edge),
        }
    }
}

/// The edge's declared weight, unchanged; `None` where it is still to be
/// computed.
pub fn specified_edge_weight(graph: &Graph, edge: &Edge) -> (r: Option<i64>)
    ensures
        r == match edge.weight {
            WeightOption::Specified(w) => Some(w),
            WeightOption::Computed => None::<i64>,
        },
{
    match edge.weight {
        WeightOption::Specified(w) => Some(w),
        WeightOption::Computed => None,
    }
}

/// The distance between the edge's endpoints, by the graph's distance
/// function, times the edge's `cost_per_unit` property (1 where that is
/// absent or not an integer), negative costs included; `None` where the
/// distance or the product does not fit in an `i64`.
pub fn length_cost_per_unit(graph: &Graph, edge: &Edge) -> (r: Option<i64>)
    requires
        edge.hi() < graph.nodes.len(),
        edge.lo() < graph.nodes.len(),
    ensures
        r is Some <==> EdgeWeightFunction::LengthCostPerUnit.weight_spec(graph, edge) is Some,
        r matches Some(w) ==> EdgeWeightFunction::LengthCostPerUnit.weight_spec(graph, edge) == Some(
            w as int,
        ),
{
    let cost = cost_per_unit(&edge.properties);
    let a = &graph.nodes[edge.node_indices[0]];
    let b = &graph.nodes[edge.node_indices[1]];
    match graph.distance_function.checked(&a.coordinates, &b.coordinates) {
        Some(d) => {
            assert((d as int) * (cost as int) <= i128::MAX && (d as int) * (cost as int) >= i128::MIN)
                by (nonlinear_arith)
                requires
                    0 <= d <= u64::MAX,
                    i64::MIN <= cost <= i64::MAX,
            ;
            let w = (d as i128) * (cost as i128);
            if i64::MIN as i128 <= w && w <= i64::MAX as i128 {
                Some(w as i64)
            } else {
                None
            }
        },
        None => None,
    }
}

/// The edges with every declared weight replaced by what `weight` gives for
/// the edge over `nodes`: a custom weight function, whose results a graph
/// then takes as specified weights.
pub fn weights_from_function<F: Fn(&Vec<Node>, &Edge) -> i64>(nodes: &Vec<Node>, edges: &Vec<Edge>, weight: F) -> (r: Vec<Edge>)
    requires
        forall|i: int| 0 <= i < edges.len() ==> weight.requires((nodes, &edges@[i])),
    ensures
        r.len() == edges.len(),
        forall|i: int|
            0 <= i < edges.len() ==> {
                &&& (#[trigger] r@[i]).node_indices == edges@[i].node_indices
                &&& r@[i].properties@ == edges@[i].properties@
                &&& r@[i].weight matches WeightOption::Specified(w) && weight.ensures((nodes, &edges@[i]), w)
            },
{
    let mut r: Vec<Edge> = Vec::new();
    let mut i: usize = 0;
    while i < edges.len()
        invariant
            i <= edges.len(),
            r.len() == i,
            forall|k: int| 0 <= k < edges.len() ==> weight.requires((nodes, &edges@[k])),
            forall|k: int|
                0 <= k < i ==> {
                    &&& (#[trigger] r@[k]).node_indices == edges@[k].node_indices
                    &&& r@[k].properties@ == edges@[k].properties@
                    &&& r@[k].weight matches WeightOption::Specified(w) && weight.ensures((nodes, &edges@[k]), w)
                },
        decreases edges.len() - i,
    {
        let e = &edges[i];
        let w = weight(nodes, e);
        r.push(Edge {
            node_indices: [e.node_indices[0], e.node_indices[1]],
            weight: WeightOption::Specified(w),
            properties: copy_properties(&e.properties),
        });
        i = i + 1;
    }
    r
}

} // verus!
