use arboreal::digraph::DiGraph;
use arboreal::graph_components::{Edge, GraphError, Node};

fn label(text: &str) -> Option<String> {
    Some(text.to_string())
}

fn three_nodes() -> DiGraph {
    let mut g = DiGraph::new();
    for id in 1..=3u16 {
        g.insert_node(Node::bare(id)).unwrap();
    }
    g
}

#[test]
fn test_valid() {
    let mut obj = DiGraph::new();
    let id1 = 7;
    let id2 = 42;
    obj.insert_node(Node::new(id1, label("This is node 7"))).unwrap();
    obj.insert_node(Node::new(id2, label("This is node 42"))).unwrap();
    obj.insert_edge(Edge::new(id1, id2, label("Edge from 7 to 42"))).unwrap();
    assert_eq!(obj.in_degree(id1), Some(0));
    assert_eq!(obj.out_degree(id1), Some(1));
    assert_eq!(obj.in_degree(id2), Some(1));
    assert_eq!(obj.out_degree(id2), Some(0));
    assert!(obj.is_connected());
    assert_eq!(obj.get_source(), Ok(&Node::new(7, label("This is node 7"))));
    assert_eq!(obj.sink_node_ids(), vec![42]);
}

#[test]
fn test_auto_edge_drop() {
    let obj = DiGraph::new();
    assert!(obj.all_node_ids().is_empty());
    let mut example_obj = DiGraph::from_terminal_pairs(vec![
        (1, 2),
        (1, 3),
        (4, 3),
        (3, 5),
        (5, 6),
        (6, 7),
        (3, 7),
        (8, 4),
        (2, 8),
    ]);
    assert_eq!(example_obj.all_node_ids(), vec![1, 2, 3, 4, 5, 6, 7, 8]);
    assert_eq!(example_obj.nodes_unreachable_from(1), Vec::<u16>::new());
    assert_eq!(example_obj.nodes_unreachable_from(2), vec![1]);
    assert_eq!(example_obj.nodes_unreachable_from(3), vec![1, 2, 4, 8]);
    assert_eq!(example_obj.nodes_unreachable_from(42), vec![1, 2, 3, 4, 5, 6, 7, 8]);
    let before = example_obj.all_edge_pairs();
    assert_eq!(example_obj.remove_node(3), Ok(Node::bare(3)));
    assert_eq!(example_obj.all_edge_pairs(), vec![(1, 2), (2, 8), (5, 6), (6, 7), (8, 4)]);
    assert_eq!(example_obj.nodes_unreachable_from(1), vec![5, 6, 7]);
    example_obj.undo().unwrap();
    assert_eq!(example_obj.all_edge_pairs(), before);
    assert_eq!(example_obj.all_node_ids(), vec![1, 2, 3, 4, 5, 6, 7, 8]);
}

#[test]
fn bulk_load_is_not_undoable() {
    let mut g = DiGraph::from_terminal_pairs(vec![(1, 2), (2, 3)]);
    g.undo().unwrap();
    assert_eq!(g.all_edge_pairs(), vec![(1, 2), (2, 3)]);
    assert_eq!(g.all_node_ids(), vec![1, 2, 3]);
}

#[test]
fn remove_node_cascades_and_undo_restores_order() {
    let mut g = three_nodes();
    g.insert_edge(Edge::bare(1, 2)).unwrap();
    g.insert_edge(Edge::bare(2, 3)).unwrap();
    assert_eq!(g.remove_node(2), Ok(Node::bare(2)));
    assert_eq!(g.all_node_ids(), vec![1, 3]);
    assert!(g.all_edge_pairs().is_empty());
    assert_eq!(g.in_degree(3), Some(0));
    assert_eq!(g.out_degree(1), Some(0));
    g.undo().unwrap();
    assert_eq!(g.all_node_ids(), vec![1, 2, 3]);
    assert_eq!(g.all_edge_pairs(), vec![(1, 2), (2, 3)]);
    assert_eq!(g.in_degree(2), Some(1));
    assert_eq!(g.out_degree(2), Some(1));
}

#[test]
fn get_source_errors() {
    let g = DiGraph::new();
    assert_eq!(g.get_source(), Err(GraphError::NoSource));
    let mut g = DiGraph::new();
    g.insert_node(Node::bare(1)).unwrap();
    g.insert_node(Node::bare(2)).unwrap();
    assert_eq!(g.get_source(), Err(GraphError::MultipleSources));
    assert_eq!(g.source_node_ids(), vec![1, 2]);
}

#[test]
fn edge_with_implicit_nodes_undoes_in_one_step() {
    let mut g = DiGraph::new();
    g.insert_edge_with_nodes(5, 6).unwrap();
    assert_eq!(g.all_node_ids(), vec![5, 6]);
    assert_eq!(g.all_edge_pairs(), vec![(5, 6)]);
    assert_eq!(g.get_node(5), Some(&Node::bare(5)));
    g.undo().unwrap();
    assert!(g.all_node_ids().is_empty());
    assert!(g.all_edge_pairs().is_empty());
}

#[test]
fn implicit_nodes_spare_existing_node_on_undo() {
    let mut g = DiGraph::new();
    g.insert_node(Node::new(5, label("kept"))).unwrap();
    g.insert_edge_with_nodes(5, 6).unwrap();
    g.undo().unwrap();
    assert_eq!(g.all_node_ids(), vec![5]);
    assert_eq!(g.get_node(5), Some(&Node::new(5, label("kept"))));
    assert!(g.all_edge_pairs().is_empty());
}

#[test]
fn implicit_self_loop_creates_one_node() {
    let mut g = DiGraph::new();
    g.insert_edge_with_nodes(4, 4).unwrap();
    assert_eq!(g.all_node_ids(), vec![4]);
    assert_eq!(g.in_degree(4), Some(1));
    assert_eq!(g.out_degree(4), Some(1));
    g.undo().unwrap();
    assert!(g.all_node_ids().is_empty());
}

#[test]
fn unreachable_from_member_and_stranger() {
    let mut g = three_nodes();
    g.insert_edge(Edge::bare(1, 2)).unwrap();
    assert_eq!(g.nodes_unreachable_from(1), vec![3]);
    assert_eq!(g.nodes_unreachable_from(99), vec![1, 2, 3]);
}

#[test]
fn insert_node_along_moves_payload() {
    let mut g = DiGraph::new();
    g.insert_node(Node::bare(1)).unwrap();
    g.insert_node(Node::bare(2)).unwrap();
    g.insert_edge(Edge::new(1, 2, label("P"))).unwrap();
    g.insert_node_along(10, 1, 2).unwrap();
    assert_eq!(g.get_edge(1, 10), Some(&Edge::new(1, 10, label("P"))));
    assert_eq!(g.get_edge(10, 2), Some(&Edge::bare(10, 2)));
    assert_eq!(g.get_edge(1, 2), None);
    assert_eq!(g.get_node(10), Some(&Node::bare(10)));
    g.undo().unwrap();
    assert_eq!(g.get_edge(1, 2), Some(&Edge::new(1, 2, label("P"))));
    assert_eq!(g.get_node(10), None);
    assert_eq!(g.all_edge_pairs(), vec![(1, 2)]);
    assert_eq!(g.all_node_ids(), vec![1, 2]);
}

#[test]
fn every_error_variant_leaves_graph_unchanged() {
    let mut g = three_nodes();
    g.insert_edge(Edge::bare(1, 2)).unwrap();
    assert_eq!(g.insert_node(Node::bare(1)), Err(GraphError::DuplicateId(1)));
    assert_eq!(g.insert_edge(Edge::bare(1, 2)), Err(GraphError::DuplicateEdge(1, 2)));
    assert_eq!(g.insert_edge(Edge::bare(1, 9)), Err(GraphError::MissingEndpoint(1, 9)));
    assert_eq!(g.remove_edge(2, 1), Err(GraphError::EdgeNotFound(2, 1)));
    assert_eq!(g.remove_node(9), Err(GraphError::NodeNotFound(9)));
    assert_eq!(g.insert_edge_with_nodes(1, 2), Err(GraphError::DuplicateEdge(1, 2)));
    assert_eq!(g.insert_node_along(3, 1, 2), Err(GraphError::DuplicateId(3)));
    assert_eq!(g.insert_node_along(7, 2, 3), Err(GraphError::EdgeNotFound(2, 3)));
    assert_eq!(g.all_node_ids(), vec![1, 2, 3]);
    assert_eq!(g.all_edge_pairs(), vec![(1, 2)]);
    g.undo().unwrap();
    assert!(g.all_edge_pairs().is_empty());
}

#[test]
fn reverse_edges_coexist() {
    let mut g = three_nodes();
    g.insert_edge(Edge::bare(1, 2)).unwrap();
    g.insert_edge(Edge::bare(2, 1)).unwrap();
    assert_eq!(g.all_edge_pairs(), vec![(1, 2), (2, 1)]);
    assert_eq!(g.source_node_ids(), vec![3]);
    assert_eq!(g.sink_node_ids(), vec![3]);
}

#[test]
fn undo_after_each_mutation_restores() {
    let mut g = DiGraph::from_terminal_pairs(vec![(1, 2), (2, 3), (3, 1)]);
    let nodes = g.all_node_ids();
    let pairs = g.all_edge_pairs();
    let degrees: Vec<(Option<usize>, Option<usize>)> =
        nodes.iter().map(|&v| (g.in_degree(v), g.out_degree(v))).collect();
    let check = |g: &DiGraph| {
        assert_eq!(g.all_node_ids(), nodes);
        assert_eq!(g.all_edge_pairs(), pairs);
        let now: Vec<(Option<usize>, Option<usize>)> =
            nodes.iter().map(|&v| (g.in_degree(v), g.out_degree(v))).collect();
        assert_eq!(now, degrees);
    };
    g.insert_node(Node::bare(4)).unwrap();
    g.undo().unwrap();
    check(&g);
    g.remove_node(1).unwrap();
    g.undo().unwrap();
    check(&g);
    g.insert_edge(Edge::bare(1, 3)).unwrap();
    g.undo().unwrap();
    check(&g);
    g.remove_edge(2, 3).unwrap();
    g.undo().unwrap();
    check(&g);
    g.insert_edge_with_nodes(3, 9).unwrap();
    g.undo().unwrap();
    check(&g);
    g.insert_node_along(5, 3, 1).unwrap();
    g.undo().unwrap();
    check(&g);
}

#[test]
fn bounded_history_keeps_earliest_change() {
    let capacity: usize = 3;
    let mut g = DiGraph::with_history_limit(capacity);
    for id in 0..(capacity as u16 + 1) {
        g.insert_node(Node::bare(id)).unwrap();
    }
    for _ in 0..capacity {
        g.undo().unwrap();
    }
    assert_eq!(g.all_node_ids(), vec![0]);
    g.undo().unwrap();
    assert_eq!(g.all_node_ids(), vec![0]);
}

#[test]
fn disabled_history_undoes_nothing() {
    let mut g = DiGraph::with_history_limit(0);
    g.insert_node(Node::bare(1)).unwrap();
    g.undo().unwrap();
    assert_eq!(g.all_node_ids(), vec![1]);
}

#[test]
fn degrees_follow_edges() {
    let mut g = DiGraph::from_terminal_pairs(vec![(1, 2), (1, 3), (2, 3)]);
    assert_eq!((g.in_degree(3), g.out_degree(1)), (Some(2), Some(2)));
    assert_eq!(g.in_degree(9), None);
    assert_eq!(g.out_degree(9), None);
    g.remove_edge(1, 3).unwrap();
    assert_eq!((g.in_degree(3), g.out_degree(1)), (Some(1), Some(1)));
    g.remove_node(2).unwrap();
    assert_eq!((g.in_degree(3), g.out_degree(1)), (Some(0), Some(0)));
}

#[test]
fn connectivity() {
    let g = DiGraph::from_terminal_pairs(vec![(1, 2), (2, 3)]);
    assert!(g.is_connected());
    let g = DiGraph::from_terminal_pairs(vec![(1, 2), (3, 2)]);
    assert!(!g.is_connected());
    let g = DiGraph::from_terminal_pairs(vec![(1, 2), (2, 3), (3, 2), (4, 4)]);
    assert!(!g.is_connected());
    assert_eq!(g.get_source(), Ok(&Node::bare(1)));
}

#[test]
fn edges_never_dangle() {
    let mut g = DiGraph::from_terminal_pairs(vec![(1, 2), (2, 3), (3, 4), (4, 1)]);
    g.remove_node(2).unwrap();
    g.insert_node_along(9, 3, 4).unwrap();
    g.remove_node(4).unwrap();
    let ids = g.all_node_ids();
    assert_eq!(ids, vec![1, 3, 9]);
    for (start, end) in g.all_edge_pairs() {
        assert!(ids.contains(&start) && ids.contains(&end));
    }
    assert_eq!(g.all_edge_pairs(), vec![(3, 9)]);
}

#[test]
fn rebuild_from_parts() {
    let nodes = vec![Node::bare(2), Node::new(1, label("one"))];
    let edges = vec![Edge::new(2, 1, label("back")), Edge::bare(1, 2)];
    let mut g = DiGraph::from_parts(nodes.clone(), edges.clone()).unwrap();
    assert_eq!(g.edge_list(), &edges);
    assert_eq!(g.get_node(1), Some(&Node::new(1, label("one"))));
    assert_eq!(g.in_degree(1), Some(1));
    g.undo().unwrap();
    assert_eq!(g.edge_list(), &edges);
    let dup_node = vec![Node::bare(1), Node::bare(1)];
    assert_eq!(DiGraph::from_parts(dup_node, vec![]).err(), Some(GraphError::DuplicateId(1)));
    let dup_edge = vec![Edge::bare(1, 2), Edge::bare(1, 2)];
    assert_eq!(
        DiGraph::from_parts(nodes.clone(), dup_edge).err(),
        Some(GraphError::DuplicateEdge(1, 2))
    );
    let dangling = vec![Edge::bare(1, 3)];
    assert_eq!(
        DiGraph::from_parts(nodes, dangling).err(),
        Some(GraphError::MissingEndpoint(1, 3))
    );
}

#[test]
fn new_graph_has_no_name_and_empty_undo_keeps_it() {
    let mut g = DiGraph::new();
    assert_eq!(g.name, None);
    g.name = Some("kept".to_string());
    g.undo().unwrap();
    assert_eq!(g.name, Some("kept".to_string()));
    g.insert_node(Node::bare(1)).unwrap();
    g.undo().unwrap();
    assert_eq!(g.name, Some("kept".to_string()));
}

#[test]
fn undo_of_node_removal_appends_cascade_in_order() {
    let mut g = DiGraph::from_terminal_pairs(vec![(1, 2), (3, 4), (2, 3)]);
    g.remove_node(2).unwrap();
    assert_eq!(g.edge_list(), &vec![Edge::bare(3, 4)]);
    g.undo().unwrap();
    assert_eq!(
        g.edge_list(),
        &vec![Edge::bare(3, 4), Edge::bare(1, 2), Edge::bare(2, 3)]
    );
}

#[test]
fn rebuild_reports_first_offence() {
    let nodes = vec![Node::bare(1), Node::bare(1)];
    let edges = vec![Edge::bare(1, 9)];
    assert_eq!(DiGraph::from_parts(nodes, edges).err(), Some(GraphError::DuplicateId(1)));
    let nodes = vec![Node::bare(1), Node::bare(2)];
    let edges = vec![Edge::bare(1, 9), Edge::bare(1, 2), Edge::bare(1, 2)];
    assert_eq!(
        DiGraph::from_parts(nodes, edges).err(),
        Some(GraphError::MissingEndpoint(1, 9))
    );
}
