use polars_graph::build_graph;
use polars_graph::extract_node_data;
use polars_graph::get_cycles;
use polars_graph::Column;
use polars_graph::DirectedGraph;
use polars_graph::NodeData;
use polars_graph::UndirectedGraph;

fn w(x: f64) -> u64 {
    x.to_bits()
}

#[test]
fn extracts_string_nodes() {
    let column = Column::Text(vec![Some("A".to_string()), Some("B".to_string()), Some("C".to_string())]);
    let result = extract_node_data(&column).unwrap();

    assert_eq!(result.len(), 3);
    assert_eq!(result[0], NodeData::Text("A".to_string()));
    assert_eq!(result[1], NodeData::Text("B".to_string()));
    assert_eq!(result[2], NodeData::Text("C".to_string()));
}

#[test]
fn extracts_int_nodes() {
    let column = Column::Int64(vec![Some(1i64), Some(2), Some(3)]);
    let result = extract_node_data(&column).unwrap();

    assert_eq!(result.len(), 3);
    assert_eq!(result[0], NodeData::Int(1));
    assert_eq!(result[1], NodeData::Int(2));
    assert_eq!(result[2], NodeData::Int(3));
}

#[test]
fn extracts_float_nodes() {
    let column = Column::Float64(vec![Some(w(1.5)), Some(w(2.5)), Some(w(3.5))]);
    let result = extract_node_data(&column).unwrap();

    assert_eq!(result.len(), 3);
    assert_eq!(result[0], NodeData::Float(w(1.5)));
    assert_eq!(result[1], NodeData::Float(w(2.5)));
    assert_eq!(result[2], NodeData::Float(w(3.5)));
}

#[test]
fn rejects_unsupported_types() {
    let column = Column::Boolean(vec![Some(true), Some(false), Some(true)]);
    let result = extract_node_data(&column);
    assert!(result.is_err());
}

#[test]
fn handles_empty_series() {
    let column = Column::Text(Vec::new());
    let result = extract_node_data(&column).unwrap();
    assert_eq!(result.len(), 0);
}

#[test]
fn handles_nulls_in_strings() {
    let column = Column::Text(vec![Some("A".to_string()), None, Some("C".to_string())]);
    let result = extract_node_data(&column);
    assert!(result.is_ok() || result.is_err());
}

#[test]
fn handles_nulls_in_ints() {
    let column = Column::Int64(vec![Some(1i64), None, Some(3)]);
    let result = extract_node_data(&column);
    assert!(result.is_ok() || result.is_err());
}

#[test]
fn creates_empty_graph() {
    let graph = DirectedGraph::new();
    assert_eq!(graph.node_count(), 0);
    assert_eq!(graph.edge_count(), 0);
}

#[test]
fn adds_single_edge() {
    let mut graph = DirectedGraph::new();
    let node_a = NodeData::Text("A".to_string());
    let node_b = NodeData::Text("B".to_string());

    graph.add_edge(node_a.clone(), node_b.clone(), w(1.0));

    assert_eq!(graph.node_count(), 2);
    assert_eq!(graph.edge_count(), 1);
    assert!(graph.has_node(&node_a));
    assert!(graph.has_node(&node_b));
    assert!(graph.has_edge(&node_a, &node_b));
}

#[test]
fn edge_not_bidirectional() {
    let mut graph = DirectedGraph::new();
    graph.add_edge(NodeData::Int(1), NodeData::Int(2), w(1.0));

    assert!(graph.has_edge(&NodeData::Int(1), &NodeData::Int(2)));
    assert!(!graph.has_edge(&NodeData::Int(2), &NodeData::Int(1)));
}

#[test]
fn handles_self_loop() {
    let mut graph = DirectedGraph::new();
    graph.add_edge(NodeData::Int(1), NodeData::Int(1), w(1.0));

    assert_eq!(graph.node_count(), 1);
    assert_eq!(graph.edge_count(), 1);
    assert!(graph.has_edge(&NodeData::Int(1), &NodeData::Int(1)));
}

#[test]
fn handles_duplicate_edges() {
    let mut graph = DirectedGraph::new();
    graph.add_edge(NodeData::Int(1), NodeData::Int(2), w(1.0));
    graph.add_edge(NodeData::Int(1), NodeData::Int(2), w(2.0));

    assert_eq!(graph.node_count(), 2);
}

#[test]
fn builds_simple_chain() {
    let mut graph = DirectedGraph::new();
    graph.add_edge(NodeData::Int(1), NodeData::Int(2), w(1.0));
    graph.add_edge(NodeData::Int(2), NodeData::Int(3), w(1.0));
    graph.add_edge(NodeData::Int(3), NodeData::Int(4), w(1.0));

    assert_eq!(graph.node_count(), 4);
    assert_eq!(graph.edge_count(), 3);
}

#[test]
fn detects_simple_cycle() {
    let mut graph = DirectedGraph::new();
    graph.add_edge(NodeData::Int(1), NodeData::Int(2), w(1.0));
    graph.add_edge(NodeData::Int(2), NodeData::Int(3), w(1.0));
    graph.add_edge(NodeData::Int(3), NodeData::Int(1), w(1.0));

    let cycles = graph.find_cycles();
    assert_eq!(cycles.len(), 1);
    assert_eq!(cycles[0].len(), 3);
}

#[test]
fn detects_no_cycles_in_dag() {
    let mut graph = DirectedGraph::new();
    graph.add_edge(NodeData::Int(1), NodeData::Int(2), w(1.0));
    graph.add_edge(NodeData::Int(2), NodeData::Int(3), w(1.0));
    graph.add_edge(NodeData::Int(1), NodeData::Int(3), w(1.0));

    let cycles = graph.find_cycles();
    assert_eq!(cycles.len(), 0);
}

#[test]
fn detects_multiple_cycles() {
    let mut graph = DirectedGraph::new();
    graph.add_edge(NodeData::Int(1), NodeData::Int(2), w(1.0));
    graph.add_edge(NodeData::Int(2), NodeData::Int(1), w(1.0));
    graph.add_edge(NodeData::Int(3), NodeData::Int(4), w(1.0));
    graph.add_edge(NodeData::Int(4), NodeData::Int(3), w(1.0));

    let cycles = graph.find_cycles();
    assert_eq!(cycles.len(), 2);
}

#[test]
fn handles_disconnected_components() {
    let mut graph = DirectedGraph::new();
    graph.add_edge(NodeData::Int(1), NodeData::Int(2), w(1.0));
    graph.add_edge(NodeData::Int(3), NodeData::Int(4), w(1.0));

    assert_eq!(graph.node_count(), 4);
    assert_eq!(graph.edge_count(), 2);
}

#[test]
fn supports_negative_weights() {
    let mut graph = DirectedGraph::new();
    graph.add_edge(NodeData::Int(1), NodeData::Int(2), w(-5.0));

    assert!(graph.has_edge(&NodeData::Int(1), &NodeData::Int(2)));
}

#[test]
fn supports_zero_weights() {
    let mut graph = DirectedGraph::new();
    graph.add_edge(NodeData::Int(1), NodeData::Int(2), w(0.0));

    assert_eq!(graph.edge_count(), 1);
}

#[test]
fn handles_large_graph() {
    let mut graph = DirectedGraph::new();
    for i in 0..1000 {
        graph.add_edge(NodeData::Int(i), NodeData::Int(i + 1), w(1.0));
    }

    assert_eq!(graph.node_count(), 1001);
    assert_eq!(graph.edge_count(), 1000);
}

#[test]
fn supports_string_nodes() {
    let mut graph = DirectedGraph::new();
    graph.add_edge(
        NodeData::Text("start".to_string()),
        NodeData::Text("end".to_string()),
        w(1.0),
    );

    assert_eq!(graph.node_count(), 2);
}

#[test]
fn supports_float_nodes() {
    let mut graph = DirectedGraph::new();
    graph.add_edge(NodeData::Float(w(1.5)), NodeData::Float(w(2.5)), w(1.0));

    assert_eq!(graph.node_count(), 2);
}

#[test]
fn supports_mixed_node_types() {
    let mut graph = DirectedGraph::new();
    graph.add_edge(NodeData::Int(1), NodeData::Int(2), w(1.0));
    graph.add_edge(
        NodeData::Text("A".to_string()),
        NodeData::Text("B".to_string()),
        w(1.0),
    );

    assert_eq!(graph.node_count(), 4);
}

#[test]
fn test_graph_creates_empty_graph() {
    let graph = UndirectedGraph::new();
    assert_eq!(graph.node_count(), 0);
    assert_eq!(graph.edge_count(), 0);
}

#[test]
fn edges_are_bidirectional() {
    let mut graph = UndirectedGraph::new();
    graph.add_edge(NodeData::Int(1), NodeData::Int(2), w(1.0));

    assert!(graph.has_edge(&NodeData::Int(1), &NodeData::Int(2)));
    assert!(graph.has_edge(&NodeData::Int(2), &NodeData::Int(1)));
}

#[test]
fn test_graph_adds_single_edge() {
    let mut graph = UndirectedGraph::new();
    graph.add_edge(NodeData::Int(1), NodeData::Int(2), w(1.0));

    assert_eq!(graph.node_count(), 2);
    assert_eq!(graph.edge_count(), 1);
}

#[test]
fn test_graph_handles_self_loop() {
    let mut graph = UndirectedGraph::new();
    graph.add_edge(NodeData::Int(1), NodeData::Int(1), w(1.0));

    assert_eq!(graph.node_count(), 1);
    assert_eq!(graph.edge_count(), 1);
}

#[test]
fn builds_triangle() {
    let mut graph = UndirectedGraph::new();
    graph.add_edge(NodeData::Int(1), NodeData::Int(2), w(1.0));
    graph.add_edge(NodeData::Int(2), NodeData::Int(3), w(1.0));
    graph.add_edge(NodeData::Int(3), NodeData::Int(1), w(1.0));

    assert_eq!(graph.node_count(), 3);
    assert_eq!(graph.edge_count(), 3);
}

#[test]
fn test_graph_handles_disconnected_components() {
    let mut graph = UndirectedGraph::new();
    graph.add_edge(NodeData::Int(1), NodeData::Int(2), w(1.0));
    graph.add_edge(NodeData::Int(3), NodeData::Int(4), w(1.0));

    assert_eq!(graph.node_count(), 4);
    assert_eq!(graph.edge_count(), 2);
}

#[test]
fn detects_connected_components() {
    let mut graph = UndirectedGraph::new();
    graph.add_edge(NodeData::Int(1), NodeData::Int(2), w(1.0));
    graph.add_edge(NodeData::Int(2), NodeData::Int(3), w(1.0));
    graph.add_edge(NodeData::Int(4), NodeData::Int(5), w(1.0));

    let components = graph.connected_components();
    assert_eq!(components.len(), 2);
}

#[test]
fn finds_shortest_path() {
    let mut graph = UndirectedGraph::new();
    graph.add_edge(NodeData::Int(1), NodeData::Int(2), w(1.0));
    graph.add_edge(NodeData::Int(2), NodeData::Int(3), w(1.0));
    graph.add_edge(NodeData::Int(1), NodeData::Int(3), w(5.0));

    let path = graph.shortest_path(&NodeData::Int(1), &NodeData::Int(3));
    assert!(path.is_some());
}

#[test]
fn topological_sort_on_dag() {
    let mut graph = DirectedGraph::new();
    graph.add_edge(NodeData::Int(1), NodeData::Int(2), w(1.0));
    graph.add_edge(NodeData::Int(1), NodeData::Int(3), w(1.0));
    graph.add_edge(NodeData::Int(2), NodeData::Int(4), w(1.0));
    graph.add_edge(NodeData::Int(3), NodeData::Int(4), w(1.0));

    let sorted = graph.topological_sort();
    assert!(sorted.is_ok());
}

#[test]
fn topological_sort_fails_on_cycle() {
    let mut graph = DirectedGraph::new();
    graph.add_edge(NodeData::Int(1), NodeData::Int(2), w(1.0));
    graph.add_edge(NodeData::Int(2), NodeData::Int(3), w(1.0));
    graph.add_edge(NodeData::Int(3), NodeData::Int(1), w(1.0));

    let sorted = graph.topological_sort();
    assert!(sorted.is_err());
}

#[test]
fn strongly_connected_components() {
    let mut graph = DirectedGraph::new();
    graph.add_edge(NodeData::Int(1), NodeData::Int(2), w(1.0));
    graph.add_edge(NodeData::Int(2), NodeData::Int(3), w(1.0));
    graph.add_edge(NodeData::Int(3), NodeData::Int(1), w(1.0));
    graph.add_edge(NodeData::Int(4), NodeData::Int(5), w(1.0));

    let sccs = graph.strongly_connected_components();
    assert!(sccs.len() >= 2);
}

#[test]
fn handles_extreme_float_weights() {
    let mut graph = DirectedGraph::new();
    graph.add_edge(NodeData::Int(1), NodeData::Int(2), w(f64::MAX));
    graph.add_edge(NodeData::Int(2), NodeData::Int(3), w(f64::MIN));

    assert_eq!(graph.edge_count(), 2);
}

#[test]
fn handles_nan_weights() {
    let mut graph = DirectedGraph::new();
    graph.add_edge(NodeData::Int(1), NodeData::Int(2), w(f64::NAN));

    assert_eq!(graph.edge_count(), 1);
}

#[test]
fn handles_infinity_weights() {
    let mut graph = DirectedGraph::new();
    graph.add_edge(NodeData::Int(1), NodeData::Int(2), w(f64::INFINITY));
    graph.add_edge(NodeData::Int(2), NodeData::Int(3), w(f64::NEG_INFINITY));

    assert_eq!(graph.edge_count(), 2);
}

#[test]
fn handles_unicode_strings() {
    let mut graph = DirectedGraph::new();
    graph.add_edge(
        NodeData::Text("你好".to_string()),
        NodeData::Text("مرحبا".to_string()),
        w(1.0),
    );

    assert_eq!(graph.node_count(), 2);
}

#[test]
fn handles_empty_strings() {
    let mut graph = DirectedGraph::new();
    graph.add_edge(
        NodeData::Text("".to_string()),
        NodeData::Text("a".to_string()),
        w(1.0),
    );

    assert_eq!(graph.node_count(), 2);
}

#[test]
fn handles_very_long_strings() {
    let mut graph = DirectedGraph::new();
    let long_str = "a".repeat(10000);
    graph.add_edge(
        NodeData::Text(long_str.clone()),
        NodeData::Text("b".to_string()),
        w(1.0),
    );

    assert_eq!(graph.node_count(), 2);
}

#[test]
fn test_build_graph() {
    let sources = vec![NodeData::Int(1), NodeData::Int(2), NodeData::Int(3)];
    let destinations = vec![NodeData::Int(2), NodeData::Int(3), NodeData::Int(1)];
    let graph = build_graph(&sources, &destinations);

    assert_eq!(graph.node_count(), 3);
    assert_eq!(graph.edge_count(), 3);
}

#[test]
fn test_get_cycles_int32() {
    let sources = vec![
        NodeData::Int(1),
        NodeData::Int(2),
        NodeData::Int(3),
        NodeData::Int(4),
    ];
    let destinations = vec![
        NodeData::Int(2),
        NodeData::Int(3),
        NodeData::Int(1),
        NodeData::Int(5),
    ];
    let graph = build_graph(&sources, &destinations);

    let cycles = get_cycles(&graph);
    assert_eq!(cycles.len(), 1);
    assert!(cycles[0].contains(&NodeData::Int(1)));
    assert!(cycles[0].contains(&NodeData::Int(2)));
    assert!(cycles[0].contains(&NodeData::Int(3)));
}
