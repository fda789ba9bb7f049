use rustlibraries::graph::{Graph, GraphError};

#[test]
fn builds_undirected_csr_graph() {
    let graph = Graph::from_edges(4, &[(0, 1), (0, 2), (2, 3)], false).unwrap();
    assert_eq!(graph.node_count(), 4);
    assert_eq!(graph.edge_count(), 3);
    assert_eq!(graph.neighbors(0).unwrap(), &[1, 2]);
    assert_eq!(graph.neighbors(2).unwrap(), &[0, 3]);
}

#[test]
fn computes_bfs_distances() {
    let graph = Graph::from_edges(5, &[(0, 1), (1, 2), (0, 3)], false).unwrap();
    assert_eq!(
        graph.bfs_distances(0).unwrap(),
        vec![Some(0), Some(1), Some(2), Some(1), None]
    );
}

#[test]
fn computes_connected_components() {
    let graph = Graph::from_edges(6, &[(0, 1), (1, 2), (4, 5)], false).unwrap();
    assert_eq!(
        graph.connected_components(),
        vec![vec![0, 1, 2], vec![3], vec![4, 5]]
    );
}

#[test]
fn rejects_out_of_bounds_edges() {
    let err = Graph::from_edges(2, &[(0, 2)], false).unwrap_err();
    assert_eq!(
        err,
        GraphError::NodeOutOfBounds {
            node: 2,
            node_count: 2
        }
    );
}

#[test]
fn graph_error_messages_name_the_fields() {
    let err = rustlibraries::graph::GraphError::NodeOutOfBounds { node: 7, node_count: 3 };
    assert_eq!(err.message(), "node 7 is outside graph with 3 nodes");
    assert_eq!(rustlibraries::graph::GraphError::EmptyGraph.message(), "graph requires at least one node");
}

#[test]
fn components_list_nodes_in_breadth_first_order() {
    let graph = Graph::from_edges(6, &[(0, 1), (1, 4), (0, 3), (3, 5), (2, 2)], false).unwrap();
    assert_eq!(graph.connected_components(), vec![vec![0, 1, 3, 4, 5], vec![2]]);
}
