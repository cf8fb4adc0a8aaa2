//! Graph utilities: reconstruction, bridge detection, node removal and the
//! network-type filter.

use ips_core::graph_utils::{construct_graph, filter_network, find_bridges, remove_node};
use ips_core::ips::compute_degrees;
use ips_core::nodes::{Addr, GeoCoordinates, NetworkType, Node};

fn graph_node(ip: u128, betweenness: i64, connections: Vec<usize>) -> Node {
    Node {
        addr: Addr { ip, port: 1234 },
        network_type: NetworkType::Unknown,
        betweenness,
        closeness: 0,
        connections,
        geolocation: None,
    }
}

#[test]
fn construct_graph_test() {
    let nodes = vec![
        graph_node(0, 0, vec![1, 2]),
        graph_node(1, 0, vec![0, 2]),
        graph_node(2, 0, vec![0, 1]),
    ];

    let graph = construct_graph(&nodes);
    assert!(graph.contains(nodes[0].addr, nodes[1].addr));
    assert!(graph.contains(nodes[1].addr, nodes[0].addr));
    assert!(graph.contains(nodes[0].addr, nodes[2].addr));
    assert!(graph.contains(nodes[1].addr, nodes[2].addr));

    let degrees = compute_degrees(&nodes);
    assert_eq!(degrees, vec![2, 2, 2]);
}

#[test]
fn find_bridges_test() {
    let nodes = vec![
        graph_node(0, 1_000_000, vec![1, 2]),
        graph_node(1, 1_500_000, vec![0, 2, 3]),
        graph_node(2, 1_300_000, vec![1, 3]),
        graph_node(3, 3_100_000, vec![1, 2, 4]),
        graph_node(4, 3_200_000, vec![3, 5, 7]),
        graph_node(5, 1_000_000, vec![4, 6]),
        graph_node(6, 1_200_000, vec![5, 7]),
        graph_node(7, 1_400_000, vec![4, 6]),
    ];

    // Median betweenness is 1.35, threshold 1.6875: only nodes 3 and 4
    // exceed it, and they are adjacent.
    let bridges = find_bridges(&nodes, 1_250_000);
    assert!(bridges.is_bridge(3, 4));
    assert!(bridges.is_bridge(4, 3));
    for v in 0..8 {
        if v != 4 {
            assert!(!bridges.is_bridge(3, v));
        }
        if v != 3 {
            assert!(!bridges.is_bridge(4, v));
        }
    }
}

#[test]
fn remove_node_test() {
    // A path 0 - 1 - 2 with an extra edge 0 - 3; removing node 1 drops its
    // edges and shifts the higher indices down.
    let mut nodes = vec![
        graph_node(0, 0, vec![1, 3]),
        graph_node(1, 0, vec![0, 2]),
        graph_node(2, 0, vec![1]),
        graph_node(3, 0, vec![0]),
    ];
    remove_node(&mut nodes, 1);
    assert_eq!(nodes.len(), 3);
    assert_eq!(nodes[0].addr.ip, 0);
    assert_eq!(nodes[1].addr.ip, 2);
    assert_eq!(nodes[2].addr.ip, 3);
    assert_eq!(nodes[0].connections, vec![2]);
    assert_eq!(nodes[1].connections, Vec::<usize>::new());
    assert_eq!(nodes[2].connections, vec![0]);
}

fn typed_node(ip: u128, network_type: NetworkType, connections: Vec<usize>) -> Node {
    Node {
        addr: Addr { ip, port: 1234 },
        network_type,
        betweenness: 0,
        closeness: 0,
        connections,
        geolocation: Some(GeoCoordinates { latitude: 0, longitude: 0 }),
    }
}

#[test]
fn filter_network_test() {
    // Four nodes, two of them Zcash; filtering keeps the Zcash pair and
    // their mutual edge under new indices.
    let nodes = vec![
        typed_node(1, NetworkType::Unknown, vec![1, 2]),
        typed_node(2, NetworkType::Zcash, vec![0, 2, 3]),
        typed_node(3, NetworkType::Unknown, vec![0, 1, 3]),
        typed_node(4, NetworkType::Zcash, vec![1, 2]),
    ];
    let filtered = filter_network(&nodes, NetworkType::Zcash);
    assert_eq!(filtered.len(), 2);
    assert_eq!(filtered[0].addr.ip, 2);
    assert_eq!(filtered[1].addr.ip, 4);
    assert_eq!(filtered[0].connections, vec![1]);
    assert_eq!(filtered[1].connections, vec![0]);
}

#[test]
fn filter_network_self_loop_test() {
    // A kept node whose only neighbors are filtered out receives a
    // connection to itself so that it stays present.
    let nodes = vec![
        typed_node(1, NetworkType::Zcash, vec![1]),
        typed_node(2, NetworkType::Unknown, vec![0]),
        typed_node(3, NetworkType::Zcash, vec![]),
    ];
    let filtered = filter_network(&nodes, NetworkType::Zcash);
    assert_eq!(filtered.len(), 2);
    assert_eq!(filtered[0].connections, vec![0]);
    assert_eq!(filtered[1].connections, vec![1]);
}

#[test]
fn scale_preserved_after_remove_test() {
    // The degree of every surviving node drops by exactly its edges to the
    // removed vertex.
    let mut nodes = vec![
        graph_node(0, 0, vec![1, 2, 3]),
        graph_node(1, 0, vec![0, 2, 3]),
        graph_node(2, 0, vec![0, 1, 3]),
        graph_node(3, 0, vec![0, 1, 2]),
    ];
    let before = compute_degrees(&nodes);
    assert_eq!(before, vec![3, 3, 3, 3]);
    remove_node(&mut nodes, 0);
    let after = compute_degrees(&nodes);
    assert_eq!(after, vec![2, 2, 2]);
}
