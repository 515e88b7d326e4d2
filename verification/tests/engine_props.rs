use polars_graph::extract_node_data;
use polars_graph::Column;
use polars_graph::DirectedGraph;
use polars_graph::GraphError;
use polars_graph::NodeData;
use polars_graph::UndirectedGraph;
use polars_graph::DEFAULT_WEIGHT_BITS;

fn w(x: f64) -> u64 {
    x.to_bits()
}

fn int_col(xs: &[Option<i64>]) -> Vec<Option<NodeData>> {
    xs.iter().map(|o| o.map(NodeData::Int)).collect()
}

#[test]
fn default_weight_is_one() {
    assert_eq!(DEFAULT_WEIGHT_BITS, w(1.0));
}

#[test]
fn dedup_counts_distinct_values_only() {
    let sources = int_col(&[Some(1), Some(2), Some(1), Some(2)]);
    let destinations = int_col(&[Some(2), Some(1), Some(2), Some(3)]);
    let graph = DirectedGraph::from_columns(&sources, &destinations, None).unwrap();

    assert_eq!(graph.node_count(), 3);
    assert_eq!(graph.edge_count(), 4);
}

#[test]
fn int_and_float_one_are_distinct_nodes() {
    let mut graph = DirectedGraph::new();
    graph.add_edge(NodeData::Int(1), NodeData::Float(w(1.0)), w(1.0));

    assert_eq!(graph.node_count(), 2);
    assert!(!graph.has_edge(&NodeData::Int(1), &NodeData::Int(1)));
}

#[test]
fn null_rows_contribute_no_edge() {
    let sources = int_col(&[Some(1), None, Some(3)]);
    let destinations = int_col(&[Some(2), Some(9), Some(4)]);
    let graph = DirectedGraph::from_columns(&sources, &destinations, None).unwrap();

    // the null source drops the middle row's edge, but 9 is still a node
    assert_eq!(graph.edge_count(), 2);
    assert_eq!(graph.node_count(), 5);
    assert!(graph.has_edge(&NodeData::Int(1), &NodeData::Int(2)));
    assert!(!graph.has_edge(&NodeData::Int(9), &NodeData::Int(9)));
}

#[test]
fn null_weight_drops_the_row() {
    let sources = int_col(&[Some(1), Some(2)]);
    let destinations = int_col(&[Some(2), Some(3)]);
    let weights = vec![Some(w(1.0)), None];
    let graph = DirectedGraph::from_columns(&sources, &destinations, Some(&weights)).unwrap();

    assert_eq!(graph.edge_count(), 1);
    assert!(graph.has_edge(&NodeData::Int(1), &NodeData::Int(2)));
    assert!(!graph.has_edge(&NodeData::Int(2), &NodeData::Int(3)));
}

#[test]
fn length_mismatch_is_missing_data() {
    let sources = int_col(&[Some(1), Some(2)]);
    let destinations = int_col(&[Some(2)]);
    let result = DirectedGraph::from_columns(&sources, &destinations, None);

    assert!(matches!(result, Err(GraphError::MissingData(_))));
}

#[test]
fn weight_length_mismatch_is_missing_data() {
    let sources = int_col(&[Some(1)]);
    let destinations = int_col(&[Some(2)]);
    let weights = vec![Some(w(1.0)), Some(w(2.0))];
    let result = UndirectedGraph::from_columns(&sources, &destinations, Some(&weights));

    assert!(matches!(result, Err(GraphError::MissingData(_))));
}

#[test]
fn unsupported_column_is_invalid_data_type() {
    let column = Column::Other("Date".to_string());
    let result = extract_node_data(&column);

    assert!(matches!(result, Err(GraphError::InvalidDataType(_))));
}

#[test]
fn cycle_group_holds_exactly_its_members() {
    let mut graph = DirectedGraph::new();
    graph.add_edge(NodeData::Int(1), NodeData::Int(2), w(1.0));
    graph.add_edge(NodeData::Int(2), NodeData::Int(3), w(1.0));
    graph.add_edge(NodeData::Int(3), NodeData::Int(1), w(1.0));

    let cycles = graph.find_cycles();
    assert_eq!(cycles.len(), 1);
    assert_eq!(cycles[0].len(), 3);
    assert!(cycles[0].contains(&NodeData::Int(1)));
    assert!(cycles[0].contains(&NodeData::Int(2)));
    assert!(cycles[0].contains(&NodeData::Int(3)));
}

#[test]
fn disjoint_cycles_form_two_groups() {
    let mut graph = DirectedGraph::new();
    graph.add_edge(NodeData::Int(1), NodeData::Int(2), w(1.0));
    graph.add_edge(NodeData::Int(2), NodeData::Int(1), w(1.0));
    graph.add_edge(NodeData::Int(3), NodeData::Int(4), w(1.0));
    graph.add_edge(NodeData::Int(4), NodeData::Int(3), w(1.0));

    let cycles = graph.find_cycles();
    assert_eq!(cycles.len(), 2);
    for group in &cycles {
        assert_eq!(group.len(), 2);
    }
    let first_has_one = cycles[0].contains(&NodeData::Int(1));
    let (pair, other) = if first_has_one {
        (&cycles[0], &cycles[1])
    } else {
        (&cycles[1], &cycles[0])
    };
    assert!(pair.contains(&NodeData::Int(1)) && pair.contains(&NodeData::Int(2)));
    assert!(other.contains(&NodeData::Int(3)) && other.contains(&NodeData::Int(4)));
}

#[test]
fn self_loop_alone_is_not_reported_as_cycle() {
    let mut graph = DirectedGraph::new();
    graph.add_edge(NodeData::Int(1), NodeData::Int(1), w(1.0));

    let cycles = graph.find_cycles();
    assert_eq!(cycles.len(), 0);
}

#[test]
fn topological_order_respects_every_edge() {
    let mut graph = DirectedGraph::new();
    graph.add_edge(NodeData::Int(1), NodeData::Int(2), w(1.0));
    graph.add_edge(NodeData::Int(1), NodeData::Int(3), w(1.0));
    graph.add_edge(NodeData::Int(2), NodeData::Int(4), w(1.0));
    graph.add_edge(NodeData::Int(3), NodeData::Int(4), w(1.0));

    let sorted = graph.topological_sort().unwrap();
    assert_eq!(sorted.len(), 4);
    let pos = |v: i64| sorted.iter().position(|n| *n == NodeData::Int(v)).unwrap();
    assert!(pos(1) < pos(2));
    assert!(pos(1) < pos(3));
    assert!(pos(2) < pos(4));
    assert!(pos(3) < pos(4));
}

#[test]
fn topological_sort_reports_cycle_detected() {
    let mut graph = DirectedGraph::new();
    graph.add_edge(NodeData::Int(1), NodeData::Int(2), w(1.0));
    graph.add_edge(NodeData::Int(2), NodeData::Int(3), w(1.0));
    graph.add_edge(NodeData::Int(3), NodeData::Int(1), w(1.0));

    let sorted = graph.topological_sort();
    assert!(matches!(sorted, Err(GraphError::CycleDetected(_))));
}

#[test]
fn self_loop_blocks_topological_sort() {
    let mut graph = DirectedGraph::new();
    graph.add_edge(NodeData::Int(1), NodeData::Int(1), w(1.0));

    assert!(matches!(
        graph.topological_sort(),
        Err(GraphError::CycleDetected(_))
    ));
}

#[test]
fn empty_graph_sorts_to_empty_order() {
    let graph = DirectedGraph::new();
    let sorted = graph.topological_sort().unwrap();
    assert_eq!(sorted.len(), 0);
}

#[test]
fn components_partition_two_disjoint_edges() {
    let mut graph = UndirectedGraph::new();
    graph.add_edge(NodeData::Int(1), NodeData::Int(2), w(1.0));
    graph.add_edge(NodeData::Int(3), NodeData::Int(4), w(1.0));

    let components = graph.connected_components();
    assert_eq!(components.len(), 2);
    for group in &components {
        assert_eq!(group.len(), 2);
    }
    let total: usize = components.iter().map(|g| g.len()).sum();
    assert_eq!(total, graph.node_count());
}

#[test]
fn isolated_node_is_its_own_component() {
    let sources = int_col(&[Some(1), None]);
    let destinations = int_col(&[Some(2), Some(7)]);
    let graph = UndirectedGraph::from_columns(&sources, &destinations, None).unwrap();

    let components = graph.connected_components();
    assert_eq!(components.len(), 2);
    assert!(components.iter().any(|g| g.len() == 1 && g.contains(&NodeData::Int(7))));
}

#[test]
fn shortest_path_prefers_cheaper_detour() {
    let mut graph = UndirectedGraph::new();
    graph.add_edge(NodeData::Int(1), NodeData::Int(2), w(1.0));
    graph.add_edge(NodeData::Int(2), NodeData::Int(3), w(1.0));
    graph.add_edge(NodeData::Int(1), NodeData::Int(3), w(5.0));

    let (path, total) = graph
        .shortest_path(&NodeData::Int(1), &NodeData::Int(3))
        .unwrap();
    assert_eq!(
        path,
        vec![NodeData::Int(1), NodeData::Int(2), NodeData::Int(3)]
    );
    assert_eq!(total, w(2.0));
}

#[test]
fn shortest_path_to_missing_node_is_none() {
    let mut graph = UndirectedGraph::new();
    graph.add_edge(NodeData::Int(1), NodeData::Int(2), w(1.0));

    assert!(graph
        .shortest_path(&NodeData::Int(1), &NodeData::Int(9))
        .is_none());
}

#[test]
fn shortest_path_between_components_is_none() {
    let mut graph = UndirectedGraph::new();
    graph.add_edge(NodeData::Int(1), NodeData::Int(2), w(1.0));
    graph.add_edge(NodeData::Int(3), NodeData::Int(4), w(1.0));

    assert!(graph
        .shortest_path(&NodeData::Int(1), &NodeData::Int(4))
        .is_none());
}

#[test]
fn shortest_path_to_itself_is_trivial() {
    let mut graph = UndirectedGraph::new();
    graph.add_edge(NodeData::Int(1), NodeData::Int(2), w(1.0));

    let (path, total) = graph
        .shortest_path(&NodeData::Int(1), &NodeData::Int(1))
        .unwrap();
    assert_eq!(path, vec![NodeData::Int(1)]);
    assert_eq!(total, w(0.0));
}

#[test]
fn from_columns_uses_given_weights() {
    let sources = int_col(&[Some(1), Some(2)]);
    let destinations = int_col(&[Some(2), Some(3)]);
    let weights = vec![Some(w(2.5)), Some(w(0.5))];
    let graph = UndirectedGraph::from_columns(&sources, &destinations, Some(&weights)).unwrap();

    let (path, total) = graph
        .shortest_path(&NodeData::Int(1), &NodeData::Int(3))
        .unwrap();
    assert_eq!(
        path,
        vec![NodeData::Int(1), NodeData::Int(2), NodeData::Int(3)]
    );
    assert_eq!(total, w(3.0));
}

#[test]
fn text_columns_build_text_nodes() {
    let sources = vec![Some(NodeData::Text("a".to_string()))];
    let destinations = vec![Some(NodeData::Text("b".to_string()))];
    let graph = DirectedGraph::from_columns(&sources, &destinations, None).unwrap();

    assert!(graph.has_edge(
        &NodeData::Text("a".to_string()),
        &NodeData::Text("b".to_string())
    ));
    assert!(!graph.has_edge(
        &NodeData::Text("b".to_string()),
        &NodeData::Text("a".to_string())
    ));
}

#[test]
fn has_cycles_finds_cycle_groups() {
    let s = Column::Int64(vec![Some(1), Some(2), Some(3)]);
    let d = Column::Int64(vec![Some(2), Some(3), Some(1)]);
    let cycles = polars_graph::has_cycles(&s, &d).unwrap();
    assert_eq!(cycles.len(), 1);
    assert_eq!(cycles[0].len(), 3);
}

#[test]
fn has_cycles_on_dag_is_empty() {
    let s = Column::Int64(vec![Some(1), Some(2), Some(1)]);
    let d = Column::Int64(vec![Some(2), Some(3), Some(3)]);
    let cycles = polars_graph::has_cycles(&s, &d).unwrap();
    assert_eq!(cycles.len(), 0);
}

#[test]
fn has_cycles_rejects_mixed_column_kinds() {
    let s = Column::Int64(vec![Some(1)]);
    let d = Column::Text(vec![Some("a".to_string())]);
    assert!(matches!(
        polars_graph::has_cycles(&s, &d),
        Err(GraphError::InvalidDataType(_))
    ));
}

#[test]
fn has_cycles_works_on_text_columns() {
    let s = Column::Text(vec![Some("a".to_string()), Some("b".to_string())]);
    let d = Column::Text(vec![Some("b".to_string()), Some("a".to_string())]);
    let cycles = polars_graph::has_cycles(&s, &d).unwrap();
    assert_eq!(cycles.len(), 1);
    assert!(cycles[0].contains(&NodeData::Text("a".to_string())));
    assert!(cycles[0].contains(&NodeData::Text("b".to_string())));
}

#[test]
fn has_cycles_works_on_float_columns() {
    let s = Column::Float64(vec![Some(w(1.5)), Some(w(2.5))]);
    let d = Column::Float64(vec![Some(w(2.5)), Some(w(1.5))]);
    let cycles = polars_graph::has_cycles(&s, &d).unwrap();
    assert_eq!(cycles.len(), 1);
    assert_eq!(cycles[0].len(), 2);
}

#[test]
fn all_nans_are_one_node() {
    let a = f64::NAN.to_bits();
    let b = f64::NAN.to_bits() | 1;
    let sa = extract_node_data(&Column::Float64(vec![Some(a)])).unwrap();
    let sb = extract_node_data(&Column::Float64(vec![Some(b)])).unwrap();
    assert_eq!(sa[0], sb[0]);
    assert_eq!(NodeData::from_float_bits(a), NodeData::from_float_bits(b));
}

#[test]
fn both_zeroes_are_one_node() {
    assert_eq!(
        NodeData::from_float_bits((0.0f64).to_bits()),
        NodeData::from_float_bits((-0.0f64).to_bits())
    );
    let mut graph = DirectedGraph::new();
    graph.add_edge(
        NodeData::from_float_bits((0.0f64).to_bits()),
        NodeData::from_float_bits((-0.0f64).to_bits()),
        w(1.0),
    );
    assert_eq!(graph.node_count(), 1);
}

#[test]
fn nan_nodes_merge_in_cycle_query() {
    let a = f64::NAN.to_bits();
    let b = f64::NAN.to_bits() | 1;
    let s = Column::Float64(vec![Some(a), Some(w(1.0))]);
    let d = Column::Float64(vec![Some(w(1.0)), Some(b)]);
    let cycles = polars_graph::has_cycles(&s, &d).unwrap();
    assert_eq!(cycles.len(), 1);
    assert_eq!(cycles[0].len(), 2);
}

#[test]
fn has_cycles_pairs_rows_not_values() {
    // a null in either cell drops the whole row, so no edge is built here
    let s = Column::Int64(vec![Some(1), None]);
    let d = Column::Int64(vec![None, Some(2)]);
    let cycles = polars_graph::has_cycles(&s, &d).unwrap();
    assert_eq!(cycles.len(), 0);
}

#[test]
fn has_cycles_accepts_unequal_null_counts() {
    let s = Column::Int64(vec![Some(1), Some(2), None]);
    let d = Column::Int64(vec![Some(2), None, Some(1)]);
    let cycles = polars_graph::has_cycles(&s, &d).unwrap();
    assert_eq!(cycles.len(), 0);
}

#[test]
fn has_cycles_rejects_unequal_lengths() {
    let s = Column::Int64(vec![Some(1), Some(2)]);
    let d = Column::Int64(vec![Some(2)]);
    assert!(matches!(
        polars_graph::has_cycles(&s, &d),
        Err(GraphError::MissingData(_))
    ));
}

#[test]
fn topological_failure_payload_names_stuck_nodes() {
    let mut graph = DirectedGraph::new();
    graph.add_edge(NodeData::Int(1), NodeData::Int(2), w(1.0));
    graph.add_edge(NodeData::Int(2), NodeData::Int(1), w(1.0));

    match graph.topological_sort() {
        Err(GraphError::CycleDetected(stuck)) => {
            assert!(!stuck.is_empty());
            assert!(stuck.contains(&NodeData::Int(1)));
            assert!(stuck.contains(&NodeData::Int(2)));
        },
        _ => panic!("expected CycleDetected"),
    }
}

#[test]
fn raw_nan_patterns_merge_in_from_columns() {
    let a = f64::NAN.to_bits();
    let b = f64::NAN.to_bits() | 1;
    let sources = vec![Some(NodeData::Float(a))];
    let destinations = vec![Some(NodeData::Float(b))];
    let graph = DirectedGraph::from_columns(&sources, &destinations, None).unwrap();
    assert_eq!(graph.node_count(), 1);
    assert!(graph.has_edge(&NodeData::Float(a), &NodeData::Float(a)));
}
