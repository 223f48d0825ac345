use rust_qsim::dijkstra::AltOptions;
use rust_qsim::graph::{ForwardBackwardRoutingGraph, GraphError};
use rust_qsim::path::extract_link_path;
use rust_qsim::landmarks::{choose_landmarks, number_of_landmarks};
use rust_qsim::network::{Network, NetworkLink, NetworkNode};
use rust_qsim::network_converter::{
    convert_network_for_mode, convert_network_with_modes, has_links_at_ends,
};
use std::collections::HashMap;

const CAR: u64 = 1;
const BIKE: u64 = 2;

/// Builds a network from its node ids and its links (id, from, to, modes); every node lists
/// the links that leave and enter it.
fn network(node_ids: &[u64], links: &[(u64, u64, u64, Vec<u64>)]) -> Network {
    let mut nodes: Vec<NetworkNode> = node_ids
        .iter()
        .map(|id| NetworkNode { id: *id, in_links: Vec::new(), out_links: Vec::new() })
        .collect();
    let mut by_id = HashMap::new();
    for (id, from, to, modes) in links {
        for node in nodes.iter_mut() {
            if node.id == *from {
                node.out_links.push(*id);
            }
            if node.id == *to {
                node.in_links.push(*id);
            }
        }
        by_id.insert(*id, NetworkLink { id: *id, from: *from, to: *to, modes: modes.clone() });
    }
    Network { nodes, links: by_id }
}

/// The triangle network: node 0 without links, and six links between nodes 1, 2 and 3.
fn get_triangle_test_network() -> Network {
    network(
        &[0, 1, 2, 3],
        &[
            (1, 1, 2, vec![CAR]),
            (2, 1, 3, vec![CAR]),
            (3, 2, 2, vec![CAR]),
            (4, 2, 3, vec![CAR]),
            (5, 3, 1, vec![CAR]),
            (6, 3, 2, vec![CAR]),
        ],
    )
}

fn net_to_graph(network: &Network) -> ForwardBackwardRoutingGraph {
    convert_network_for_mode(network, None)
}

#[test]
fn test_outgoing_edges() {
    let network = get_triangle_test_network();
    let graph = net_to_graph(&network);
    let outgoing_edges = graph.outgoing_edges(1);
    assert_eq!(outgoing_edges, [1, 2]);
}

#[test]
fn test_incoming_edges() {
    let network = get_triangle_test_network();
    let graph = net_to_graph(&network);
    let incoming_edges = graph.incoming_edges(3);
    assert_eq!(incoming_edges, [2, 4]);
}

#[test]
fn test_outgoing_edges_as_idx() {
    let network = get_triangle_test_network();
    let graph = net_to_graph(&network);
    let node_idx = graph.get_node_idx_from_id(1);
    let outgoing_indices = graph.outgoing_edges_as_idx(node_idx);
    let outgoing_ids = graph.outgoing_edges(1);
    assert_eq!(outgoing_indices.len(), outgoing_ids.len());
    for (i, index) in outgoing_indices.iter().enumerate() {
        assert_eq!(graph.get_link_id(*index).unwrap(), outgoing_ids[i]);
    }
}

#[test]
fn test_incoming_edges_as_idx() {
    let network = get_triangle_test_network();
    let graph = net_to_graph(&network);
    let node_idx = graph.get_node_idx_from_id(2);
    let incoming_indices = graph.incoming_edges_as_idx(node_idx);
    let incoming_ids = graph.incoming_edges(2);
    assert_eq!(incoming_indices.len(), incoming_ids.len());
    for (i, index) in incoming_indices.iter().enumerate() {
        assert_eq!(graph.get_link_id(*index).unwrap(), incoming_ids[i]);
    }
}

#[test]
fn test_get_end_node_valid_link() {
    let network = get_triangle_test_network();
    let graph = net_to_graph(&network);
    let outgoing_links = graph.outgoing_edges(1);
    assert!(!outgoing_links.is_empty(), "Node 1 should have outgoing links");
    let true_end_nodes = vec![2u64, 3];
    for (link_id, true_end_node) in outgoing_links.iter().zip(true_end_nodes) {
        let result = graph.get_end_node(*link_id);
        assert!(result.is_ok(), "get_end_node should succeed for valid link");
        assert_eq!(result.unwrap(), true_end_node);
    }
}

#[test]
fn test_get_end_node_invalid_link_returns_error() {
    let network = get_triangle_test_network();
    let graph = net_to_graph(&network);
    let result = graph.get_end_node(999);
    assert!(result.is_err(), "get_end_node should return error for invalid link");
    match result.unwrap_err() {
        GraphError::LinkIdNotFound(_) => {}
        _ => panic!("Expected LinkNotFound error"),
    }
}

#[test]
fn test_get_start_node_valid_link() {
    let network = get_triangle_test_network();
    let graph = net_to_graph(&network);
    let outgoing_links = graph.outgoing_edges(1);
    assert!(!outgoing_links.is_empty());
    for link_id in outgoing_links {
        let result = graph.get_start_node(*link_id);
        assert!(result.is_ok(), "get_start_node should succeed for valid link");
        assert_eq!(result.unwrap(), 1);
    }
}

#[test]
fn test_get_start_node_invalid_link_returns_error() {
    let network = get_triangle_test_network();
    let graph = net_to_graph(&network);
    let result = graph.get_start_node(999);
    assert!(result.is_err(), "get_start_node should return error for invalid link");
}

#[test]
fn test_link_id_to_idx_roundtrip() {
    let network = get_triangle_test_network();
    let graph = net_to_graph(&network);
    let outgoing_links = graph.outgoing_edges(1);
    for link_id in outgoing_links {
        let link_idx = graph.get_link_idx_from_id(*link_id).unwrap();
        let link_id_roundtrip = graph.get_link_id_from_idx(link_idx).unwrap();
        assert_eq!(*link_id, link_id_roundtrip, "Link ID roundtrip should be idempotent");
    }
}

#[test]
fn test_node_id_to_idx_roundtrip() {
    let network = get_triangle_test_network();
    let graph = net_to_graph(&network);
    let node_idx = graph.get_node_idx_from_id(1);
    let node_id_roundtrip = graph.get_node_id_from_idx(node_idx);
    assert_eq!(1, node_id_roundtrip.unwrap(), "Node ID roundtrip should be idempotent");
}

#[test]
fn test_get_end_node_as_idx_valid_edges() {
    let network = get_triangle_test_network();
    let graph = net_to_graph(&network);
    let true_end_node_indices = vec![vec![], vec![2, 3], vec![2, 3], vec![1, 2]];
    for node_idx in 0..graph.num_nodes() {
        let outgoing_edge_indices = graph.outgoing_edges_as_idx(node_idx);
        for (j, edge_idx) in outgoing_edge_indices.iter().enumerate() {
            let end_node = graph.get_end_node_as_idx(*edge_idx).unwrap();
            assert_eq!(end_node, true_end_node_indices[node_idx][j]);
        }
    }
}

#[test]
fn test_get_end_node_as_idx_invalid_edge() {
    let network = get_triangle_test_network();
    let graph = net_to_graph(&network);
    assert_eq!(graph.get_end_node_as_idx(999), Err(GraphError::LinkIndexNotFound(999)));
}

#[test]
fn test_get_start_node_as_idx_invalid_edge() {
    let network = get_triangle_test_network();
    let graph = net_to_graph(&network);
    assert_eq!(graph.get_start_node_as_idx(999), Err(GraphError::LinkIndexNotFound(999)));
}

#[test]
fn test_get_start_node_as_idx() {
    let network = get_triangle_test_network();
    let graph = net_to_graph(&network);
    for node_idx in 0..graph.num_nodes() {
        let outgoing_edge_indices = graph.outgoing_edges_as_idx(node_idx);
        for edge_idx in outgoing_edge_indices {
            let start_node = graph.get_start_node_as_idx(edge_idx).unwrap();
            assert_eq!(start_node, node_idx, "Start node should match the source node");
        }
    }
}

#[test]
fn triangle_network_lists_each_link_at_both_ends() {
    assert!(has_links_at_ends(&get_triangle_test_network()));
}

#[test]
fn a_link_missing_from_its_start_node_breaks_the_listing() {
    let mut network = get_triangle_test_network();
    for node in network.nodes.iter_mut() {
        node.out_links.retain(|l| *l != 1);
    }
    assert!(!has_links_at_ends(&network));
}

#[test]
fn test_simple_network() {
    let network = get_triangle_test_network();
    let graph = convert_network_for_mode(&network, None);
    assert_eq!(graph.forward_graph.first_out, vec![0usize, 0, 2, 4, 6]);
    assert_eq!(graph.forward_graph.head, vec![2usize, 3, 2, 3, 1, 2]);
    assert_eq!(graph.forward_link_id_by_index.len(), 6);
    assert_eq!(graph.backward_graph.first_out, vec![0usize, 0, 1, 4, 6]);
    assert_eq!(graph.backward_graph.head, vec![3usize, 1, 2, 3, 1, 2]);
    assert_eq!(graph.backward_link_id_by_index.len(), 6);
}

#[test]
fn test_simple_network_with_modes() {
    let network = network(
        &[0, 1, 2, 3],
        &[
            (1, 1, 2, vec![BIKE]),
            (2, 1, 3, vec![CAR]),
            (3, 2, 2, vec![CAR, BIKE]),
            (4, 2, 1, vec![CAR]),
            (5, 2, 3, vec![BIKE]),
            (6, 3, 1, vec![BIKE]),
            (7, 3, 2, vec![CAR]),
        ],
    );
    let mut graph_by_mode = convert_network_with_modes(&network, &vec![CAR, BIKE]);
    assert_eq!(graph_by_mode.keys().len(), 2);

    let car_graph = graph_by_mode.remove(&CAR).unwrap();
    assert_eq!(car_graph.forward_graph.first_out, vec![0, 0, 1, 3, 4]);
    assert_eq!(car_graph.forward_graph.head, vec![3, 2, 1, 2]);
    assert_eq!(car_graph.forward_link_id_by_index.len(), 4);

    let bike_graph = graph_by_mode.remove(&BIKE).unwrap();
    assert_eq!(bike_graph.forward_graph.first_out, vec![0, 0, 1, 3, 4]);
    assert_eq!(bike_graph.forward_graph.head, vec![2, 2, 3, 1]);
    assert_eq!(bike_graph.forward_link_id_by_index.len(), 4);
}

#[test]
fn test_all_links_in_both_directions() {
    let network = get_triangle_test_network();
    let graph = net_to_graph(&network);
    let forward_links = &graph.forward_link_id_by_index;
    let backward_links = &graph.backward_link_id_by_index;
    assert_eq!(forward_links.len(), backward_links.len());
    for forward_link in forward_links {
        assert!(backward_links.iter().any(|bl| bl == forward_link));
    }
}

#[test]
fn mode_filter_keeps_only_links_of_the_mode() {
    let network = get_triangle_test_network();
    let walk = 99;
    let graph = convert_network_for_mode(&network, Some(walk));
    assert!(graph.forward_link_id_by_index.is_empty());
    assert!(graph.backward_link_id_by_index.is_empty());
    assert_eq!(graph.forward_graph.first_out, vec![0usize, 0, 0, 0, 0]);
    assert_eq!(graph.num_nodes(), 4);
}

#[test]
fn incoming_edges_end_at_their_node() {
    let network = get_triangle_test_network();
    let graph = net_to_graph(&network);
    for node_idx in 0..graph.num_nodes() {
        for edge in graph.incoming_edges_as_idx(node_idx) {
            assert_eq!(graph.get_end_node_as_idx(edge), Ok(node_idx));
        }
    }
}

#[test]
fn backward_link_index_of_unknown_forward_index_is_an_error() {
    let network = get_triangle_test_network();
    let graph = net_to_graph(&network);
    assert_eq!(graph.get_backward_link_index(6), Err(GraphError::LinkIndexNotFound(6)));
    let forward_of_link_5 = graph.get_link_idx_from_id(5).unwrap();
    let backward = graph.get_backward_link_index(forward_of_link_5).unwrap();
    assert_eq!(graph.backward_link_id_by_index[backward], 5);
}

#[test]
fn node_and_link_lookups_by_id() {
    let network = get_triangle_test_network();
    let graph = net_to_graph(&network);
    assert_eq!(graph.node(2).unwrap().out_links, vec![3, 4]);
    assert_eq!(graph.node(7).unwrap_err(), GraphError::NodeIdNotFound(7));
    assert_eq!(graph.edge(6).unwrap().to, 2);
    assert_eq!(graph.edge(60).unwrap_err(), GraphError::LinkIdNotFound(60));
    assert_eq!(graph.get_node_from_idx(3).unwrap().id, 3);
    assert_eq!(graph.get_node_from_idx(4).unwrap_err(), GraphError::NodeIndexNotFound(4));
    assert_eq!(graph.get_link_from_idx(0).unwrap().id, 1);
    assert_eq!(graph.get_link_from_idx(6).unwrap_err(), GraphError::LinkIndexNotFound(6));
}

#[test]
fn graph_errors_name_the_missing_id_or_index() {
    assert_eq!(GraphError::LinkIdNotFound(17).to_message(), "no link with id 17 found in the graph");
    assert_eq!(GraphError::NodeIdNotFound(0).to_message(), "no node with id 0 found in the graph");
    assert_eq!(
        GraphError::LinkIndexNotFound(999).to_message(),
        "no link with index 999 found in the graph"
    );
    assert_eq!(
        GraphError::NodeIndexNotFound(1234567890).to_message(),
        "no node with index 1234567890 found in the graph."
    );
    assert_eq!(
        GraphError::LinkIdNotFound(u64::MAX).to_message(),
        format!("no link with id {} found in the graph", u64::MAX)
    );
}

#[test]
fn one_landmark_per_sixteen_nodes_up_to_sixteen() {
    assert_eq!(number_of_landmarks(0), 0);
    assert_eq!(number_of_landmarks(1), 1);
    assert_eq!(number_of_landmarks(16), 1);
    assert_eq!(number_of_landmarks(17), 2);
    assert_eq!(number_of_landmarks(255), 16);
    assert_eq!(number_of_landmarks(256), 16);
    assert_eq!(number_of_landmarks(10_000), 16);
}

#[test]
fn landmark_choice_on_the_triangle_network_is_node_three() {
    let graph = net_to_graph(&get_triangle_test_network());
    // The generator's seed is fixed, so the choice is the same in every run.
    assert_eq!(choose_landmarks(&graph), vec![3]);
}

#[test]
fn parent_links_recorded_by_the_search_give_the_link_path() {
    let graph = net_to_graph(&get_triangle_test_network());
    // From link 5 (3 -> 1) to link 4 (2 -> 3): node 2 is reached from node 1 through link 1.
    let node_2 = graph.get_node_idx_from_id(2);
    let link_1 = graph.get_link_idx_from_id(1).unwrap();
    let mut options = AltOptions::new(node_2, vec![None; graph.num_nodes()]);
    assert!(options.reached_end(node_2));
    options.set_parent_opt(node_2, link_1);
    let parents = options.build_result();
    assert_eq!(extract_link_path(&graph, 4, 5, parents), Ok(Some(vec![1])));
}
