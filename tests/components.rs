use arboreal::graph_components::{DirEdge, Edge, GraphChange, GraphError, Nodal, Node};
use arboreal::graph_ref::{
    check_add_edge, check_add_edge_with_nodes, check_add_node, check_node_degrees,
    check_remove_edge, check_remove_node, collect_reachable_neighbors, edge_index,
};
use arboreal::history::HistoryDeque;
use std::collections::HashMap;

#[test]
fn node_and_edge_helpers() {
    let mut n = Node::new(3, Some("x".to_string()));
    n.empty();
    assert_eq!(n, Node::bare(3));
    let mut e = Edge::new(1, 2, Some("y".to_string()));
    e.reverse();
    assert_eq!(e, Edge::new(2, 1, Some("y".to_string())));
    e.empty();
    assert_eq!(e, Edge::bare(2, 1));
    assert_eq!(n.clone(), n);
}

#[test]
fn capability_traits() {
    let n = <Node as Nodal>::bare(8);
    assert_eq!(n.node_id(), 8);
    let mut e = <Edge as DirEdge>::bare(1, 2);
    e.change_start(5);
    e.change_end(6);
    assert_eq!(e.terminal_ids(), (5, 6));
    assert_eq!((e.start_id(), e.end_id()), (5, 6));
}

#[test]
fn change_accessors() {
    let c = GraphChange::RemoveNode(Node::bare(1), vec![Edge::bare(1, 2)]);
    assert_eq!(c.try_get_node(), Ok(Node::bare(1)));
    assert_eq!(c.try_get_edge_vec(), Ok(vec![Edge::bare(1, 2)]));
    assert_eq!(c.try_get_edge(), Err(GraphError::WrongChangeKind));
    let c = GraphChange::AddEdgeWith(Edge::bare(1, 2), Some(1), None);
    assert_eq!(c.try_get_edge_with_nodes(), Ok((Edge::bare(1, 2), Some(1), None)));
    assert_eq!(c.try_get_edge(), Ok(Edge::bare(1, 2)));
    let c = GraphChange::Failure(GraphError::NoSource);
    assert_eq!(c.try_get_node(), Err(GraphError::NoSource));
    assert_eq!(c.try_get_edge_vec(), Err(GraphError::NoSource));
}

#[test]
fn validation_functions() {
    let mut nodes = HashMap::new();
    nodes.insert(1u16, Node::bare(1));
    nodes.insert(2u16, Node::bare(2));
    let edges = vec![Edge::bare(1, 2), Edge::bare(2, 2)];
    assert_eq!(edge_index(&edges, 2, 2), Some(1));
    assert_eq!(edge_index(&edges, 2, 1), None);
    assert_eq!(check_node_degrees(&edges, 2), (2, 1));
    assert_eq!(
        check_add_node(&nodes, Node::bare(1)),
        GraphChange::Failure(GraphError::DuplicateId(1))
    );
    assert_eq!(check_add_node(&nodes, Node::bare(3)), GraphChange::AddNode(Node::bare(3)));
    assert_eq!(
        check_remove_node(&nodes, &edges, 2),
        GraphChange::RemoveNode(Node::bare(2), vec![Edge::bare(1, 2), Edge::bare(2, 2)])
    );
    assert_eq!(
        check_add_edge(&nodes, &edges, Edge::bare(2, 1)),
        GraphChange::AddEdge(Edge::bare(2, 1))
    );
    assert_eq!(
        check_add_edge(&nodes, &edges, Edge::bare(2, 5)),
        GraphChange::Failure(GraphError::MissingEndpoint(2, 5))
    );
    assert_eq!(
        check_add_edge_with_nodes(&nodes, &edges, 2, 5),
        GraphChange::AddEdgeWith(Edge::bare(2, 5), None, Some(5))
    );
    assert_eq!(
        check_remove_edge(&edges, 1, 2),
        GraphChange::RemoveEdge(Edge::bare(1, 2))
    );
    assert_eq!(
        check_remove_edge(&edges, 1, 1),
        GraphChange::Failure(GraphError::EdgeNotFound(1, 1))
    );
}

#[test]
fn reachability_skips_listed_ids() {
    let mut after = HashMap::new();
    after.insert(1u16, vec![2u16]);
    after.insert(2u16, vec![3u16]);
    after.insert(3u16, vec![1u16]);
    let mut census = Vec::new();
    collect_reachable_neighbors(&mut census, 1, &after);
    census.sort();
    assert_eq!(census, vec![1, 2, 3]);
    let mut census = vec![2];
    collect_reachable_neighbors(&mut census, 1, &after);
    assert_eq!(census, vec![2, 1]);
}

#[test]
fn history_deque_evicts_oldest() {
    let mut h = HistoryDeque::new(2);
    assert_eq!(h.register_change(GraphChange::AddNode(Node::bare(1))), None);
    assert_eq!(h.register_change(GraphChange::AddNode(Node::bare(2))), None);
    assert_eq!(h.len(), 2);
    assert_eq!(
        h.register_change(GraphChange::AddNode(Node::bare(3))),
        Some(GraphChange::AddNode(Node::bare(1)))
    );
    assert_eq!(h.pop_change(), Some(GraphChange::AddNode(Node::bare(3))));
    assert_eq!(h.len(), 1);
    h.clear_history();
    assert_eq!(h.len(), 0);
    assert_eq!(h.pop_change(), None);
    let d = HistoryDeque::default();
    assert_eq!(d.len(), 0);
}

#[test]
fn self_loop_record_names_both_terminals() {
    let nodes: HashMap<u16, Node> = HashMap::new();
    let edges: Vec<Edge> = Vec::new();
    assert_eq!(
        check_add_edge_with_nodes(&nodes, &edges, 4, 4),
        GraphChange::AddEdgeWith(Edge::bare(4, 4), Some(4), Some(4))
    );
}

#[test]
fn remove_edge_record_takes_first_match() {
    let edges = vec![
        Edge::bare(3, 3),
        Edge::new(1, 2, Some("first".to_string())),
        Edge::new(1, 2, Some("second".to_string())),
    ];
    assert_eq!(
        check_remove_edge(&edges, 1, 2),
        GraphChange::RemoveEdge(Edge::new(1, 2, Some("first".to_string())))
    );
}

#[test]
fn reachability_adds_each_id_once() {
    let mut after = HashMap::new();
    after.insert(1u16, vec![2u16, 3u16]);
    after.insert(2u16, vec![3u16, 1u16]);
    after.insert(3u16, vec![2u16]);
    let mut census = vec![7];
    collect_reachable_neighbors(&mut census, 1, &after);
    assert_eq!(census.len(), 4);
    let mut sorted = census.clone();
    sorted.sort();
    sorted.dedup();
    assert_eq!(sorted, vec![1, 2, 3, 7]);
    assert_eq!(census[0], 7);
}
