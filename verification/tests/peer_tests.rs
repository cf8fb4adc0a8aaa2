//! Peer-list generation from node connection lists.

use ips_core::nodes::{Addr, NetworkType, Node};
use ips_core::peer::Peer;

fn peer_node(ip: u128, connections: Vec<usize>) -> Node {
    Node {
        addr: Addr { ip, port: 1234 },
        network_type: NetworkType::Unknown,
        betweenness: 0,
        closeness: 0,
        connections,
        geolocation: None,
    }
}

#[test]
fn generate_peerlist_for_node_test() {
    let nodes = vec![
        peer_node(1, vec![1, 2]),
        peer_node(2, vec![0, 2]),
        peer_node(3, vec![0, 1]),
    ];

    let peer = Peer::generate_peerlist(&nodes[0], &nodes);
    assert_eq!(peer.list.len(), 2);
    assert!(peer.list.contains(&nodes[1].addr));
    assert!(peer.list.contains(&nodes[2].addr));
}

#[test]
fn generate_peerlist_skips_self_and_out_of_range_test() {
    // A connection pointing at the node's own address or outside the
    // vector is skipped.
    let nodes = vec![peer_node(1, vec![0, 1, 7]), peer_node(2, vec![0])];
    let peer = Peer::generate_peerlist(&nodes[0], &nodes);
    assert_eq!(peer.list, vec![nodes[1].addr]);
}

#[test]
fn generate_all_peerlists_test() {
    let nodes = vec![peer_node(1, vec![1]), peer_node(2, vec![0])];
    let peers = Peer::generate_all_peerlists(&nodes);
    assert_eq!(peers.len(), 2);
    assert_eq!(peers[0].ip, nodes[0].addr);
    assert_eq!(peers[0].list, vec![nodes[1].addr]);
    assert_eq!(peers[1].list, vec![nodes[0].addr]);
}
