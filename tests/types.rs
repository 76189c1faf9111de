use modgeosys_graph::distance::DistanceFunction;
use modgeosys_graph::edge_weight::{length_cost_per_unit, specified_edge_weight, weights_from_function, EdgeWeightFunction};
use modgeosys_graph::graph::{Graph, GraphError};
use modgeosys_graph::types::{cost_per_unit, Edge, EdgeDefinition, Node, PropertyValue, Properties, WeightOption};

fn cost(c: i64) -> Properties {
    [("cost_per_unit".to_string(), PropertyValue::Integer(c))].iter().cloned().collect()
}

fn valid_nodes() -> Vec<Node> {
    vec![
        Node::new(vec![0, 0], Vec::new()),
        Node::new(vec![0, 2], Vec::new()),
        Node::new(vec![1, 0], Vec::new()),
        Node::new(vec![2, 1], Vec::new()),
        Node::new(vec![2, 3], Vec::new()),
    ]
}

fn valid_edges1() -> Vec<Edge> {
    vec![
        Edge::new([0, 1], WeightOption::Specified(2), Vec::new()),
        Edge::new([0, 2], WeightOption::Specified(1), Vec::new()),
        Edge::new([2, 3], WeightOption::Specified(1), Vec::new()),
        Edge::new([1, 4], WeightOption::Specified(3), Vec::new()),
        Edge::new([3, 4], WeightOption::Specified(1), Vec::new()),
    ]
}

fn valid_edges1_with_computed_weights() -> Vec<Edge> {
    vec![
        Edge::new([0, 1], WeightOption::Specified(4), cost(2)),
        Edge::new([0, 2], WeightOption::Specified(1), cost(1)),
        Edge::new([2, 3], WeightOption::Specified(2), cost(1)),
        Edge::new([1, 4], WeightOption::Specified(9), cost(3)),
        Edge::new([3, 4], WeightOption::Specified(2), cost(1)),
    ]
}

fn valid_edges3() -> Vec<Edge> {
    vec![
        Edge::new([0, 1], WeightOption::Computed, cost(2)),
        Edge::new([0, 2], WeightOption::Computed, cost(1)),
        Edge::new([2, 3], WeightOption::Computed, cost(1)),
        Edge::new([1, 4], WeightOption::Computed, cost(3)),
        Edge::new([3, 4], WeightOption::Computed, cost(1)),
    ]
}

fn valid_edges3_with_computed_weights() -> Vec<Edge> {
    valid_edges1_with_computed_weights()
}

fn valid_graph1() -> Graph {
    Graph::new(valid_nodes(), valid_edges1(), Vec::new(), DistanceFunction::Manhattan, None).unwrap()
}

fn valid_graph3() -> Graph {
    Graph::new(
        valid_nodes(),
        valid_edges3(),
        Vec::new(),
        DistanceFunction::Manhattan,
        Some(EdgeWeightFunction::LengthCostPerUnit),
    )
    .unwrap()
}

fn valid_edge_definitions() -> Vec<EdgeDefinition> {
    vec![
        EdgeDefinition([vec![0, 0], vec![0, 2]], WeightOption::Computed, cost(2)),
        EdgeDefinition([vec![0, 0], vec![1, 0]], WeightOption::Computed, cost(1)),
        EdgeDefinition([vec![1, 0], vec![2, 1]], WeightOption::Computed, cost(1)),
        EdgeDefinition([vec![0, 2], vec![2, 3]], WeightOption::Computed, cost(3)),
        EdgeDefinition([vec![2, 1], vec![2, 3]], WeightOption::Computed, cost(1)),
    ]
}

fn valid_graph_from_edge_definitions() -> Graph {
    Graph::from_edge_definitions(
        valid_edge_definitions(),
        Vec::new(),
        DistanceFunction::Manhattan,
        Some(EdgeWeightFunction::LengthCostPerUnit),
    )
    .unwrap()
}

#[test]
fn test_node_equality() {
    let node1 = Node::new(vec![0, 0], Vec::new());
    let node2 = Node::new(vec![0, 0], Vec::new());
    assert_eq!(node1, node2);
}

#[test]
fn test_node_inequality() {
    let node1 = Node::new(vec![0, 0], Vec::new());
    let node2 = Node::new(vec![0, 1], Vec::new());
    assert_ne!(node1, node2);
}

#[test]
fn node_equality_ignores_properties() {
    let node1 = Node::new(vec![3, -4], Vec::new());
    let node2 = Node::new(vec![3, -4], vec![("name".to_string(), PropertyValue::String("x".to_string()))]);
    assert_eq!(node1, node2);
    assert_ne!(Node::new(vec![3], Vec::new()), Node::new(vec![3, 0], Vec::new()));
}

#[test]
fn test_edge_creation_() {
    let edge = Edge::new([1, 2], WeightOption::Specified(10), Vec::new());
    assert_eq!(edge.node_indices, [1, 2]);
    assert_eq!(edge.weight, WeightOption::Specified(10));
}

#[test]
fn edge_creation_orders_its_endpoints() {
    let edge = Edge::new([7, 3], WeightOption::Specified(1), Vec::new());
    assert_eq!(edge.node_indices, [3, 7]);
    assert_eq!(edge, Edge::new([3, 7], WeightOption::Specified(1), Vec::new()));
}

#[test]
fn test_edge_index_of_other_node() {
    let edge = Edge::new([1, 2], WeightOption::Specified(10), Vec::new());
    assert_eq!(edge.index_of_other_node(1), 2);
    assert_eq!(edge.index_of_other_node(2), 1);
}

#[test]
fn test_edge_coordinates_of_other() {
    let edge = Edge::new([2, 1], WeightOption::Specified(10), Vec::new());
    assert_eq!(edge.index_of_other_node(1), 2);
    assert_eq!(edge.index_of_other_node(2), 1);
}

#[test]
fn types_test_edge_equality() {
    let edge_1 = Edge::new([1, 2], WeightOption::Specified(10), Vec::new());
    let edge_2 = Edge::new([1, 2], WeightOption::Specified(10), Vec::new());
    assert_eq!(edge_1, edge_2);
}

#[test]
fn test_edge_inequality() {
    let edge_1 = Edge::new([1, 2], WeightOption::Specified(10), Vec::new());
    let edge_2 = Edge::new([1, 3], WeightOption::Specified(10), Vec::new());
    assert_ne!(edge_1, edge_2);
}

#[test]
fn test_graph_creation() {
    assert_eq!(valid_graph1().nodes, valid_nodes());
    assert_eq!(valid_graph1().edges, valid_edges1());
    assert_eq!(valid_graph1().properties, Vec::new());
}

#[test]
fn test_graph_creation_with_edge_weight_function() {
    let graph = valid_graph3();

    assert_eq!(graph.nodes, valid_nodes());
    assert_eq!(graph.edges, valid_edges3_with_computed_weights());
    assert_eq!(graph.properties, Vec::new());
}

#[test]
fn test_graph_creation_from_edge_definitions() {
    let graph = valid_graph_from_edge_definitions();

    assert_eq!(graph.nodes, valid_nodes());
    assert_eq!(graph.edges, valid_edges1_with_computed_weights());
    assert_eq!(graph.properties, Vec::new());
}

#[test]
fn types_test_graph_adjacency_map() {
    let graph = valid_graph1();

    let adjacency_map = graph.adjacency_map();

    assert_eq!(adjacency_map.len(), 5);

    assert_eq!(
        adjacency_map[0],
        vec![
            Edge::new([0, 2], WeightOption::Specified(1), Vec::new()),
            Edge::new([0, 1], WeightOption::Specified(2), Vec::new())
        ]
    );
    assert_eq!(
        adjacency_map[1],
        vec![
            Edge::new([0, 1], WeightOption::Specified(2), Vec::new()),
            Edge::new([1, 4], WeightOption::Specified(3), Vec::new())
        ]
    );
    assert_eq!(
        adjacency_map[2],
        vec![
            Edge::new([0, 2], WeightOption::Specified(1), Vec::new()),
            Edge::new([2, 3], WeightOption::Specified(1), Vec::new())
        ]
    );
    assert_eq!(
        adjacency_map[3],
        vec![
            Edge::new([2, 3], WeightOption::Specified(1), Vec::new()),
            Edge::new([3, 4], WeightOption::Specified(1), Vec::new())
        ]
    );
    assert_eq!(
        adjacency_map[4],
        vec![
            Edge::new([3, 4], WeightOption::Specified(1), Vec::new()),
            Edge::new([1, 4], WeightOption::Specified(3), Vec::new())
        ]
    );
}

#[test]
fn adjacency_indices_sort_by_weight_then_position() {
    let graph = valid_graph1();
    let adjacency = graph.adjacency_indices();
    assert_eq!(adjacency, vec![vec![1, 0], vec![0, 3], vec![1, 2], vec![2, 4], vec![4, 3]]);
}

#[test]
fn types_test_graph_adjacency_matrix() {
    let graph = valid_graph1();

    let adjacency_matrix = graph.adjacency_matrix();

    assert_eq!(adjacency_matrix.shape(), [5, 5]);

    assert_eq!(
        adjacency_matrix.to_rows(),
        vec![
            vec![None, Some(2), Some(1), None, None],
            vec![Some(2), None, None, None, Some(3)],
            vec![Some(1), None, None, Some(1), None],
            vec![None, None, Some(1), None, Some(1)],
            vec![None, Some(3), None, Some(1), None],
        ]
    );
}

#[test]
fn adjacency_matrix_of_a_graph_without_nodes_is_empty() {
    let graph = Graph::new(Vec::new(), Vec::new(), Vec::new(), DistanceFunction::Manhattan, None).unwrap();
    let m = graph.adjacency_matrix();
    assert_eq!(m.shape(), [0, 0]);
    assert_eq!(m.to_rows(), Vec::<Vec<Option<i64>>>::new());
    assert!(graph.adjacency_map().is_empty());
}

#[test]
fn edge_definitions_share_nodes_like_explicit_construction() {
    let from_definitions = valid_graph_from_edge_definitions();
    let explicit = valid_graph3();
    assert_eq!(from_definitions.nodes.len(), 5);
    assert_eq!(from_definitions.nodes.len(), explicit.nodes.len());
    assert_eq!(from_definitions.edges.len(), explicit.edges.len());
    assert_eq!(from_definitions.edges, explicit.edges);
}

#[test]
fn edge_definitions_keep_first_seen_order_of_nodes() {
    let defs = vec![
        EdgeDefinition([vec![5, 5], vec![1, 1]], WeightOption::Specified(3), Vec::new()),
        EdgeDefinition([vec![1, 1], vec![9, 9]], WeightOption::Specified(4), Vec::new()),
    ];
    let graph = Graph::from_edge_definitions(defs, Vec::new(), DistanceFunction::Manhattan, None).unwrap();
    assert_eq!(graph.nodes, vec![Node::new(vec![5, 5], Vec::new()), Node::new(vec![1, 1], Vec::new()), Node::new(vec![9, 9], Vec::new())]);
    assert_eq!(graph.edges[0].node_indices, [0, 1]);
    assert_eq!(graph.edges[1].node_indices, [1, 2]);
    assert_eq!(graph.edges[1].weight, WeightOption::Specified(4));
}

#[test]
fn construction_rejects_an_edge_out_of_range() {
    let edges = vec![
        Edge::new([0, 1], WeightOption::Specified(1), Vec::new()),
        Edge::new([0, 5], WeightOption::Specified(1), Vec::new()),
    ];
    let r = Graph::new(valid_nodes(), edges, Vec::new(), DistanceFunction::Manhattan, None);
    assert_eq!(r.unwrap_err(), GraphError::InvalidEdge { edge_index: 1 });
}

#[test]
fn construction_rejects_a_self_loop() {
    let edges = vec![Edge::new([2, 2], WeightOption::Specified(1), Vec::new())];
    let r = Graph::new(valid_nodes(), edges, Vec::new(), DistanceFunction::Manhattan, None);
    assert_eq!(r.unwrap_err(), GraphError::InvalidEdge { edge_index: 0 });
    let defs = vec![EdgeDefinition([vec![1, 1], vec![1, 1]], WeightOption::Specified(1), Vec::new())];
    let r = Graph::from_edge_definitions(defs, Vec::new(), DistanceFunction::Manhattan, None);
    assert_eq!(r.unwrap_err(), GraphError::InvalidEdge { edge_index: 0 });
}

#[test]
fn construction_rejects_mixed_dimensions() {
    let mut nodes = valid_nodes();
    nodes.push(Node::new(vec![1, 2, 3], Vec::new()));
    let r = Graph::new(nodes, valid_edges1(), Vec::new(), DistanceFunction::Manhattan, None);
    assert_eq!(r.unwrap_err(), GraphError::DimensionMismatch { node_index: 5 });
}

#[test]
fn construction_rejects_distances_that_overflow() {
    let nodes = vec![Node::new(vec![i64::MIN, 0], Vec::new()), Node::new(vec![i64::MAX, 1], Vec::new())];
    let r = Graph::new(nodes, Vec::new(), Vec::new(), DistanceFunction::Manhattan, None);
    assert_eq!(r.unwrap_err(), GraphError::DistanceOverflow);
}

#[test]
fn construction_rejects_a_weight_left_to_compute_without_a_weight_function() {
    let r = Graph::new(valid_nodes(), valid_edges3(), Vec::new(), DistanceFunction::Manhattan, None);
    assert_eq!(r.unwrap_err(), GraphError::UnresolvedWeight { edge_index: 0 });
}

#[test]
fn a_negative_cost_per_unit_gives_a_negative_weight() {
    let edges = vec![
        Edge::new([0, 1], WeightOption::Computed, cost(1)),
        Edge::new([1, 4], WeightOption::Computed, cost(-1)),
    ];
    let graph = Graph::new(valid_nodes(), edges, Vec::new(), DistanceFunction::Manhattan, Some(EdgeWeightFunction::LengthCostPerUnit))
        .unwrap();
    assert_eq!(graph.edges[0].weight, WeightOption::Specified(2));
    assert_eq!(graph.edges[1].weight, WeightOption::Specified(-3));
    let computed = Edge::new([1, 4], WeightOption::Computed, cost(-4));
    assert_eq!(length_cost_per_unit(&graph, &computed), Some(-12));
}

#[test]
fn construction_rejects_a_computed_weight_out_of_range() {
    let nodes = vec![Node::new(vec![0], Vec::new()), Node::new(vec![i64::MAX], Vec::new())];
    let edges = vec![Edge::new([0, 1], WeightOption::Computed, cost(2))];
    let r = Graph::new(nodes, edges, Vec::new(), DistanceFunction::Manhattan, Some(EdgeWeightFunction::LengthCostPerUnit));
    assert_eq!(r.unwrap_err(), GraphError::UnresolvedWeight { edge_index: 0 });
}

#[test]
fn construction_bounds_the_magnitudes_of_weights() {
    let edges = vec![Edge::new([0, 1], WeightOption::Specified(i64::MIN), Vec::new())];
    let r = Graph::new(valid_nodes(), edges, Vec::new(), DistanceFunction::Manhattan, None);
    assert_eq!(r.unwrap_err(), GraphError::WeightOverflow);
    let edges = vec![
        Edge::new([0, 1], WeightOption::Specified(i64::MAX), Vec::new()),
        Edge::new([1, 2], WeightOption::Specified(-1), Vec::new()),
    ];
    let r = Graph::new(valid_nodes(), edges, Vec::new(), DistanceFunction::Manhattan, None);
    assert_eq!(r.unwrap_err(), GraphError::WeightOverflow);
}

#[test]
fn edges_order_by_weight_alone() {
    let a = Edge::new([3, 4], WeightOption::Specified(1), Vec::new());
    let b = Edge::new([0, 1], WeightOption::Specified(2), Vec::new());
    let c = Edge::new([0, 2], WeightOption::Specified(2), Vec::new());
    let pending = Edge::new([5, 6], WeightOption::Computed, Vec::new());
    assert!(a < b);
    assert!(pending < a);
    assert_eq!(b.partial_cmp(&c), Some(std::cmp::Ordering::Equal));
    let tagged = Edge::new([3, 4], WeightOption::Specified(1), cost(2));
    assert_eq!(a.partial_cmp(&tagged), Some(std::cmp::Ordering::Equal));
}

#[test]
fn construction_rejects_weights_whose_sum_overflows() {
    let edges = vec![
        Edge::new([0, 1], WeightOption::Specified(i64::MAX), Vec::new()),
        Edge::new([1, 2], WeightOption::Specified(1), Vec::new()),
    ];
    let r = Graph::new(valid_nodes(), edges, Vec::new(), DistanceFunction::Manhattan, None);
    assert_eq!(r.unwrap_err(), GraphError::WeightOverflow);
}

#[test]
fn weight_functions_on_single_edges() {
    let graph = valid_graph1();
    let computed = Edge::new([1, 4], WeightOption::Computed, cost(3));
    assert_eq!(specified_edge_weight(&graph, &computed), None);
    assert_eq!(specified_edge_weight(&graph, &graph.edges[3]), Some(3));
    assert_eq!(length_cost_per_unit(&graph, &computed), Some(9));
    let plain = Edge::new([1, 4], WeightOption::Computed, Vec::new());
    assert_eq!(length_cost_per_unit(&graph, &plain), Some(3));
    let flagged = Edge::new([1, 4], WeightOption::Computed, vec![("cost_per_unit".to_string(), PropertyValue::Boolean(true))]);
    assert_eq!(length_cost_per_unit(&graph, &flagged), Some(3));
}

#[test]
fn cost_per_unit_takes_the_first_entry_of_that_name() {
    let props = vec![
        ("other".to_string(), PropertyValue::Integer(9)),
        ("cost_per_unit".to_string(), PropertyValue::Integer(5)),
        ("cost_per_unit".to_string(), PropertyValue::Integer(7)),
    ];
    assert_eq!(cost_per_unit(&props), 5);
    assert_eq!(cost_per_unit(&Vec::new()), 1);
}

#[test]
fn nodes_order_lexicographically_by_coordinates() {
    let a = Node::new(vec![0, 5], Vec::new());
    let b = Node::new(vec![1, 0], Vec::new());
    let c = Node::new(vec![1, 0, 0], Vec::new());
    assert!(a < b);
    assert!(b < c);
    assert!(c > a);
    assert_eq!(b.partial_cmp(&Node::new(vec![1, 0], vec![("k".to_string(), PropertyValue::Integer(1))])), Some(std::cmp::Ordering::Equal));
    let mut nodes = vec![c.clone(), a.clone(), b.clone()];
    nodes.sort_by(|x, y| x.partial_cmp(y).unwrap());
    assert_eq!(nodes, vec![a, b, c]);
}

#[test]
fn a_custom_weight_function_sets_specified_weights() {
    let nodes = valid_nodes();
    let edges = valid_edges3();
    let weighed = weights_from_function(&nodes, &edges, |ns: &Vec<Node>, e: &Edge| {
        let a = &ns[e.node_indices[0]].coordinates;
        let b = &ns[e.node_indices[1]].coordinates;
        (a[0] - b[0]) * (a[0] - b[0]) - 1
    });
    let graph = Graph::new(nodes, weighed, Vec::new(), DistanceFunction::Manhattan, None).unwrap();
    let weights: Vec<WeightOption> = graph.edges.iter().map(|e| e.weight).collect();
    assert_eq!(
        weights,
        vec![
            WeightOption::Specified(-1),
            WeightOption::Specified(0),
            WeightOption::Specified(0),
            WeightOption::Specified(3),
            WeightOption::Specified(-1),
        ]
    );
    assert_eq!(graph.edges[3].properties, cost(3));
}
