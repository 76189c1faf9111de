use std::collections::HashSet;

use modgeosys_graph::a_star::{a_star, a_star_with_heuristic, Heuristic, Hop};
use modgeosys_graph::distance::DistanceFunction;
use modgeosys_graph::edge_weight::EdgeWeightFunction;
use modgeosys_graph::prim::{edge_is_always_valid, prim, ValidEdgeFunction};
use modgeosys_graph::graph::Graph;
use modgeosys_graph::types::{Edge, EdgeDefinition, Node, PropertyValue, Properties, WeightOption};

fn cost(c: i64) -> Properties {
    [("cost_per_unit".to_string(), PropertyValue::Integer(c))].iter().cloned().collect()
}

fn valid_nodes() -> Vec<Node> {
    vec![
        Node::new(vec![0, 0], Vec::new()),
        Node::new(vec![0, 2], Vec::new()),
        Node::new(vec![1, 0], Vec::new()),
        Node::new(vec![2, 1], Vec::new()),
        Node::new(vec![2, 3], Vec::new()),
    ]
}

fn edges_with_weights(weights: [i64; 5]) -> Vec<Edge> {
    let ends = [[0, 1], [0, 2], [2, 3], [1, 4], [3, 4]];
    ends.iter().zip(weights.iter()).map(|(e, w)| Edge::new(*e, WeightOption::Specified(*w), Vec::new())).collect()
}

fn valid_graph1() -> Graph {
    Graph::new(valid_nodes(), edges_with_weights([2, 1, 1, 3, 1]), Vec::new(), DistanceFunction::Manhattan, None).unwrap()
}

fn valid_graph2() -> Graph {
    Graph::new(valid_nodes(), edges_with_weights([3, 1, 1, 3, 1]), Vec::new(), DistanceFunction::Manhattan, None).unwrap()
}

fn valid_graph_from_edge_definitions() -> Graph {
    let edge_definitions = vec![
        EdgeDefinition([vec![0, 0], vec![0, 2]], WeightOption::Computed, cost(2)),
        EdgeDefinition([vec![0, 0], vec![1, 0]], WeightOption::Computed, cost(1)),
        EdgeDefinition([vec![1, 0], vec![2, 1]], WeightOption::Computed, cost(1)),
        EdgeDefinition([vec![0, 2], vec![2, 3]], WeightOption::Computed, cost(3)),
        EdgeDefinition([vec![2, 1], vec![2, 3]], WeightOption::Computed, cost(1)),
    ];
    Graph::from_edge_definitions(edge_definitions, Vec::new(), DistanceFunction::Manhattan, Some(EdgeWeightFunction::LengthCostPerUnit))
        .unwrap()
}

#[test]
fn test_hop_creation() {
    let hop = Hop::new(Edge::new([1, 2], WeightOption::Specified(10), Vec::new()), 5, 5);
    assert_eq!(hop.edge, Edge::new([1, 2], WeightOption::Specified(10), Vec::new()));
    assert_eq!(hop.g, 5);
    assert_eq!(hop.h, 5);
}

#[test]
fn test_edge_creation_with_valid_parameters() {
    let hop = Hop::new(Edge::new([1, 2], WeightOption::Specified(10), Vec::new()), 5, 5);
    assert_eq!(hop.edge.weight, WeightOption::Specified(10));
    assert_eq!(hop.edge.node_indices, [1, 2]);
    assert_eq!(hop.g, 5);
    assert_eq!(hop.h, 5);
}

#[test]
fn test_hop_f_calculation() {
    let hop = Hop::new(Edge::new([1, 2], WeightOption::Specified(10), Vec::new()), 5, 5);
    assert_eq!(hop.f(), 10);
}

#[test]
fn test_edge_f_calculation() {
    let hop = Hop::new(Edge::new([1, 2], WeightOption::Specified(10), Vec::new()), 5, 5);
    assert_eq!(hop.f(), 10);
}

#[test]
fn hop_f_does_not_overflow() {
    let hop = Hop::new(Edge::new([1, 2], WeightOption::Specified(1), Vec::new()), i64::MAX, u64::MAX);
    assert_eq!(hop.f(), i64::MAX as i128 + u64::MAX as i128);
    let below = Hop::new(Edge::new([1, 2], WeightOption::Specified(-4), Vec::new()), -4, 1);
    assert_eq!(below.f(), -3);
}

#[test]
fn test_hop_equality() {
    let hop1 = Hop::new(Edge::new([1, 2], WeightOption::Specified(10), Vec::new()), 5, 5);
    let hop2 = Hop::new(Edge::new([1, 2], WeightOption::Specified(10), Vec::new()), 5, 5);
    assert_eq!(hop1, hop2);
}

#[test]
fn a_star_test_a_star_finds_shortest_path_manhattan_graph1() {
    let expected = vec![
        Hop::new(Edge::new([0, 1], WeightOption::Specified(2), Vec::new()), 2, 3),
        Hop::new(Edge::new([1, 4], WeightOption::Specified(3), Vec::new()), 5, 0),
    ];

    assert_eq!(a_star(&valid_graph1(), 0, 4).unwrap(), expected);
}

#[test]
fn test_a_star_finds_shortest_path_manhattan_graph_from_edge_definitions() {
    let expected = vec![
        Hop::new(Edge::new([0, 2], WeightOption::Specified(1), cost(1)), 1, 4),
        Hop::new(Edge::new([2, 3], WeightOption::Specified(2), cost(1)), 3, 2),
        Hop::new(Edge::new([3, 4], WeightOption::Specified(2), cost(1)), 5, 0),
    ];

    assert_eq!(a_star(&valid_graph_from_edge_definitions(), 0, 4).unwrap(), expected);
}

#[test]
fn a_star_test_a_star_finds_shortest_path_manhattan_graph2() {
    let expected = vec![
        Hop::new(Edge::new([0, 2], WeightOption::Specified(1), Vec::new()), 1, 4),
        Hop::new(Edge::new([2, 3], WeightOption::Specified(1), Vec::new()), 2, 2),
        Hop::new(Edge::new([3, 4], WeightOption::Specified(1), Vec::new()), 3, 0),
    ];

    assert_eq!(a_star(&valid_graph2(), 0, 4).unwrap(), expected);
}

#[test]
fn a_star_test_a_star_with_no_path_manhattan() {
    let nodes = valid_nodes();
    let edges: Vec<Edge> = Vec::new();

    assert!(a_star(&Graph::new(nodes, edges, Vec::new(), DistanceFunction::Manhattan, None).unwrap(), 0, 3).is_err());
}

#[test]
fn a_star_test_a_star_with_single_node_path_manhattan() {
    let nodes = vec![Node::new(vec![0, 0], Vec::new())];
    let edges: Vec<Edge> = Vec::new();

    let expected: Vec<Hop> = Vec::new();

    assert_eq!(a_star(&Graph::new(nodes, edges, Vec::new(), DistanceFunction::Manhattan, None).unwrap(), 0, 0).unwrap(), expected);
}

#[test]
fn a_star_without_edges_names_start_and_goal() {
    let graph = Graph::new(valid_nodes(), Vec::new(), Vec::new(), DistanceFunction::Manhattan, None).unwrap();
    let err = a_star(&graph, 1, 4).unwrap_err();
    assert_eq!(err.start_node, Node::new(vec![0, 2], Vec::new()));
    assert_eq!(err.goal_node, Node::new(vec![2, 3], Vec::new()));
}

#[test]
fn a_star_from_goal_to_goal_on_a_full_graph_is_empty() {
    assert_eq!(a_star(&valid_graph1(), 3, 3).unwrap(), Vec::new());
}

#[test]
fn a_star_uses_no_edge_twice_and_sums_its_weights() {
    let graph = valid_graph1();
    for start in 0..5 {
        for goal in 0..5 {
            if let Ok(hops) = a_star(&graph, start, goal) {
                let mut seen: Vec<Edge> = Vec::new();
                let mut total = 0;
                for hop in &hops {
                    assert!(!seen.contains(&hop.edge));
                    seen.push(hop.edge.clone());
                    if let WeightOption::Specified(w) = hop.edge.weight {
                        total += w;
                    }
                    assert_eq!(hop.g, total);
                }
            }
        }
    }
}

#[test]
fn a_star_dead_ends_once_edges_are_used_up() {
    // A path 0 - 1 - 2 with a spur 1 - 3 of lower cost: from 0 the walk goes
    // to 1, then into the spur at 3, where its only edge has been used.
    let nodes = vec![
        Node::new(vec![0, 0], Vec::new()),
        Node::new(vec![1, 0], Vec::new()),
        Node::new(vec![2, 0], Vec::new()),
        Node::new(vec![1, 0], Vec::new()),
    ];
    let edges = vec![
        Edge::new([0, 1], WeightOption::Specified(1), Vec::new()),
        Edge::new([1, 2], WeightOption::Specified(5), Vec::new()),
        Edge::new([1, 3], WeightOption::Specified(0), Vec::new()),
    ];
    let graph = Graph::new(nodes, edges, Vec::new(), DistanceFunction::Manhattan, None).unwrap();
    assert!(a_star(&graph, 0, 2).is_err());
}

#[test]
fn a_star_breaks_ties_of_f_towards_the_goal() {
    // From node 0 both edges give f = 4; the one with the greater g, nearer
    // the goal, wins.
    let nodes = vec![
        Node::new(vec![0, 0], Vec::new()),
        Node::new(vec![0, 1], Vec::new()),
        Node::new(vec![0, 3], Vec::new()),
        Node::new(vec![0, 4], Vec::new()),
    ];
    let edges = vec![
        Edge::new([0, 1], WeightOption::Specified(1), Vec::new()),
        Edge::new([0, 2], WeightOption::Specified(3), Vec::new()),
        Edge::new([1, 3], WeightOption::Specified(3), Vec::new()),
        Edge::new([2, 3], WeightOption::Specified(1), Vec::new()),
    ];
    let graph = Graph::new(nodes, edges, Vec::new(), DistanceFunction::Manhattan, None).unwrap();
    let hops = a_star(&graph, 0, 3).unwrap();
    assert_eq!(hops[0].edge.node_indices, [0, 2]);
    assert_eq!((hops[0].g, hops[0].h), (3, 1));
    assert_eq!(hops[1].edge.node_indices, [2, 3]);
    assert_eq!((hops[1].g, hops[1].h), (4, 0));
}

#[test]
fn test_prim_finds_minimum_spanning_tree() {
    let expected = HashSet::from([0, 1, 2, 4]);
    let result = prim(&valid_graph1(), 0, ValidEdgeFunction::AlwaysValid).unwrap();

    assert_eq!(result.len(), 4);
    assert_eq!(result, expected);
    assert_eq!(
        result
            .iter()
            .map(|index| match valid_graph1().edges[*index].weight {
                WeightOption::Specified(w) => w,
                WeightOption::Computed => 0,
            })
            .sum::<i64>(),
        5
    );
}

#[test]
fn test_prim_finds_minimum_spanning_tree_from_edge_definitions() {
    let expected = HashSet::from([0, 1, 2, 4]);
    let result = prim(&valid_graph_from_edge_definitions(), 0, ValidEdgeFunction::AlwaysValid).unwrap();

    assert_eq!(result.len(), 4);
    assert_eq!(result, expected);
    assert_eq!(
        result
            .iter()
            .map(|index| match valid_graph_from_edge_definitions().edges[*index].weight {
                WeightOption::Specified(w) => w,
                WeightOption::Computed => 0,
            })
            .sum::<i64>(),
        9
    );
}

#[test]
fn concrete_scenario_a_star_and_prim() {
    let graph = valid_graph1();
    let hops = a_star(&graph, 0, 4).unwrap();
    assert_eq!(hops.len(), 2);
    assert_eq!((hops[0].edge.node_indices, hops[0].g, hops[0].h), ([0, 1], 2, 3));
    assert_eq!((hops[1].edge.node_indices, hops[1].g, hops[1].h), ([1, 4], 5, 0));
    let tree = prim(&graph, 0, ValidEdgeFunction::AlwaysValid).unwrap();
    let mut ends: Vec<([usize; 2], WeightOption)> = tree.iter().map(|i| (graph.edges[*i].node_indices, graph.edges[*i].weight)).collect();
    ends.sort_by_key(|(e, _)| *e);
    assert_eq!(
        ends,
        vec![
            ([0, 1], WeightOption::Specified(2)),
            ([0, 2], WeightOption::Specified(1)),
            ([2, 3], WeightOption::Specified(1)),
            ([3, 4], WeightOption::Specified(1)),
        ]
    );
}

#[test]
fn prim_from_any_start_gives_the_same_weight() {
    let graph = valid_graph1();
    for start in 0..5 {
        let tree = prim(&graph, start, ValidEdgeFunction::AlwaysValid).unwrap();
        assert_eq!(tree.len(), graph.nodes.len() - 1);
        let total: i64 = tree
            .iter()
            .map(|i| match graph.edges[*i].weight {
                WeightOption::Specified(w) => w,
                WeightOption::Computed => 0,
            })
            .sum();
        assert_eq!(total, 5);
    }
}

#[test]
fn prim_on_a_disconnected_graph_fails_naming_the_start_twice() {
    let edges = vec![Edge::new([0, 1], WeightOption::Specified(1), Vec::new())];
    let graph = Graph::new(valid_nodes(), edges, Vec::new(), DistanceFunction::Manhattan, None).unwrap();
    let err = prim(&graph, 1, ValidEdgeFunction::AlwaysValid).unwrap_err();
    assert_eq!(err.start_node, Node::new(vec![0, 2], Vec::new()));
    assert_eq!(err.goal_node, Node::new(vec![0, 2], Vec::new()));
}

#[test]
fn prim_on_a_single_node_is_empty() {
    let graph = Graph::new(vec![Node::new(vec![4, 4], Vec::new())], Vec::new(), Vec::new(), DistanceFunction::Manhattan, None).unwrap();
    assert!(prim(&graph, 0, ValidEdgeFunction::AlwaysValid).unwrap().is_empty());
}

#[test]
fn prim_skips_edges_the_table_rejects() {
    let graph = valid_graph1();
    let valid = ValidEdgeFunction::from_predicate(&graph, |_g: &Graph, e: &Edge| e.node_indices != [0, 2]);
    assert_eq!(valid, ValidEdgeFunction::Specified(vec![true, false, true, true, true]));
    let tree = prim(&graph, 0, valid).unwrap();
    assert_eq!(tree, HashSet::from([0, 2, 3, 4]));
    let all = ValidEdgeFunction::from_predicate(&graph, edge_is_always_valid);
    assert_eq!(prim(&graph, 0, all).unwrap(), HashSet::from([0, 1, 2, 4]));
    let none = ValidEdgeFunction::Specified(Vec::new());
    assert!(prim(&graph, 0, none).is_err());
}

#[test]
fn prim_drops_edges_that_close_a_cycle() {
    // A triangle whose lightest edges are considered first: the third edge
    // joins two nodes already in the tree and is dropped.
    let nodes = vec![
        Node::new(vec![0, 0], Vec::new()),
        Node::new(vec![1, 0], Vec::new()),
        Node::new(vec![0, 1], Vec::new()),
        Node::new(vec![5, 5], Vec::new()),
    ];
    let edges = vec![
        Edge::new([0, 1], WeightOption::Specified(1), Vec::new()),
        Edge::new([1, 2], WeightOption::Specified(1), Vec::new()),
        Edge::new([0, 2], WeightOption::Specified(1), Vec::new()),
        Edge::new([2, 3], WeightOption::Specified(7), Vec::new()),
    ];
    let graph = Graph::new(nodes, edges, Vec::new(), DistanceFunction::Manhattan, None).unwrap();
    assert_eq!(prim(&graph, 0, ValidEdgeFunction::AlwaysValid).unwrap(), HashSet::from([0, 1, 3]));
}

#[test]
fn a_star_takes_the_later_of_two_equal_edges() {
    let nodes = vec![Node::new(vec![0, 0], Vec::new()), Node::new(vec![0, 1], Vec::new())];
    let edges = vec![
        Edge::new([0, 1], WeightOption::Specified(1), cost(7)),
        Edge::new([0, 1], WeightOption::Specified(1), cost(8)),
    ];
    let graph = Graph::new(nodes, edges, Vec::new(), DistanceFunction::Manhattan, None).unwrap();
    let hops = a_star(&graph, 0, 1).unwrap();
    assert_eq!(hops, vec![Hop::new(Edge::new([0, 1], WeightOption::Specified(1), cost(8)), 1, 0)]);
}

#[test]
fn a_star_with_another_heuristic() {
    let graph = valid_graph1();
    let squared = a_star_with_heuristic(&graph, 0, 4, &Heuristic::Distance(DistanceFunction::SquaredEuclidean)).unwrap();
    assert_eq!(
        squared,
        vec![
            Hop::new(Edge::new([0, 1], WeightOption::Specified(2), Vec::new()), 2, 5),
            Hop::new(Edge::new([1, 4], WeightOption::Specified(3), Vec::new()), 5, 0),
        ]
    );
    let euclidean = a_star_with_heuristic(&graph, 0, 4, &Heuristic::Distance(DistanceFunction::Euclidean)).unwrap();
    assert_eq!(
        euclidean,
        vec![
            Hop::new(Edge::new([0, 1], WeightOption::Specified(2), Vec::new()), 2, 2),
            Hop::new(Edge::new([1, 4], WeightOption::Specified(3), Vec::new()), 5, 0),
        ]
    );
    assert_eq!(a_star_with_heuristic(&graph, 0, 4, &Heuristic::Distance(DistanceFunction::Manhattan)).unwrap(), a_star(&graph, 0, 4).unwrap());
}

#[test]
fn a_star_with_a_table_of_estimates() {
    let graph = valid_graph1();
    // With no estimate at all the walk follows g alone: from 0 the lighter
    // edge to 2, then on to 3 and 4.
    let zero = a_star_with_heuristic(&graph, 0, 4, &Heuristic::Estimates(vec![0, 0, 0, 0, 0])).unwrap();
    assert_eq!(
        zero,
        vec![
            Hop::new(Edge::new([0, 2], WeightOption::Specified(1), Vec::new()), 1, 0),
            Hop::new(Edge::new([2, 3], WeightOption::Specified(1), Vec::new()), 2, 0),
            Hop::new(Edge::new([3, 4], WeightOption::Specified(1), Vec::new()), 3, 0),
        ]
    );
    // A large estimate at node 2 turns the walk through node 1.
    let steer = a_star_with_heuristic(&graph, 0, 4, &Heuristic::Estimates(vec![0, 0, 9, 0, 0])).unwrap();
    assert_eq!(steer[0].edge.node_indices, [0, 1]);
    assert_eq!((steer[0].g, steer[0].h), (2, 0));
    assert_eq!(steer[1].edge.node_indices, [1, 4]);
}

#[test]
fn negative_weights_take_part_in_search_and_trees() {
    let graph = Graph::new(valid_nodes(), edges_with_weights([2, -1, 1, 3, 1]), Vec::new(), DistanceFunction::Manhattan, None).unwrap();
    let hops = a_star(&graph, 0, 4).unwrap();
    assert_eq!((hops[0].edge.node_indices, hops[0].g, hops[0].h), ([0, 2], -1, 4));
    assert_eq!((hops[1].edge.node_indices, hops[1].g, hops[1].h), ([2, 3], 0, 2));
    assert_eq!((hops[2].edge.node_indices, hops[2].g, hops[2].h), ([3, 4], 1, 0));
    let tree = prim(&graph, 0, ValidEdgeFunction::AlwaysValid).unwrap();
    assert_eq!(tree, HashSet::from([0, 1, 2, 4]));
}

#[test]
fn hops_order_by_edge_then_g_then_h() {
    let light = Edge::new([0, 1], WeightOption::Specified(1), Vec::new());
    let heavy = Edge::new([0, 1], WeightOption::Specified(2), Vec::new());
    assert!(Hop::new(light.clone(), 9, 9) < Hop::new(heavy.clone(), 0, 0));
    assert!(Hop::new(light.clone(), 1, 5) < Hop::new(light.clone(), 2, 0));
    assert!(Hop::new(light.clone(), 1, 5) > Hop::new(light.clone(), 1, 4));
    let elsewhere = Edge::new([0, 2], WeightOption::Specified(1), Vec::new());
    assert!(Hop::new(light.clone(), 5, 0) > Hop::new(elsewhere, 1, 0));
    assert_eq!(Hop::new(light.clone(), 1, 5).partial_cmp(&Hop::new(light, 1, 5)), Some(std::cmp::Ordering::Equal));
}

#[test]
fn a_star_uses_up_every_copy_of_a_taken_edge() {
    let nodes = vec![
        Node::new(vec![0, 0], Vec::new()),
        Node::new(vec![1, 0], Vec::new()),
        Node::new(vec![0, 1], Vec::new()),
    ];
    let edges = vec![
        Edge::new([0, 1], WeightOption::Specified(1), Vec::new()),
        Edge::new([0, 1], WeightOption::Specified(1), Vec::new()),
        Edge::new([0, 2], WeightOption::Specified(10), Vec::new()),
    ];
    let graph = Graph::new(nodes, edges, Vec::new(), DistanceFunction::Manhattan, None).unwrap();
    // From 0 the walk takes an edge to 1; both copies are then used, and node
    // 1 has nowhere left to go.
    assert!(a_star(&graph, 0, 2).is_err());
}
