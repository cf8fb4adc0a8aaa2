//! The Intelligent Peer Sharing pipeline: state building, ratings, island
//! detection, the integrity probe and the MCDA phase.

use ips_core::config::{
    GeoLocationMode, IPSConfiguration, MultiCriteriaAnalysisWeights,
};
use ips_core::graph_utils::find_bridges;
use ips_core::ips::{location_rating, Ips, IpsError};
use ips_core::nodes::{create_histograms, Addr, NetworkType, Node};
use ips_core::statistics::generate_statistics;
use ips_core::UNIT;

fn ips_node(ip: u128, betweenness: i64, closeness: i64, connections: Vec<usize>) -> Node {
    Node {
        addr: Addr { ip, port: 1234 },
        network_type: NetworkType::Zcash,
        betweenness,
        closeness,
        connections,
        geolocation: None,
    }
}

fn off_config() -> IPSConfiguration {
    IPSConfiguration { geolocation: GeoLocationMode::Off, ..Default::default() }
}

fn triangle() -> Vec<Node> {
    vec![
        ips_node(0, 0, 0, vec![1, 2]),
        ips_node(1 << 32, 0, 0, vec![0, 2]),
        ips_node(2 << 32, 0, 0, vec![0, 1]),
    ]
}

#[test]
fn ips_rate_node_test() {
    let ips = Ips::new(IPSConfiguration::default());
    let nodes = triangle();
    let eigenvalues = vec![0, 0, 0];
    let state = ips.generate_state(&nodes, &eigenvalues).unwrap();

    // Every factor series of a triangle is degenerate (all values equal),
    // and a degenerate range scales to 0, so the rating is 0.
    assert_eq!(ips.rate_node(&nodes[0], &state), 0);
}

#[test]
fn rate_node_distinct_factors_test() {
    // A path of three nodes: the middle node has the maximum degree and
    // betweenness, the ends the minimum; with only the degree and
    // betweenness weights set, the middle node's rating is exactly
    // 100 * (w_degree + w_betweenness) and the ends' is 0.
    let config = IPSConfiguration {
        geolocation: GeoLocationMode::Off,
        mcda_weights: MultiCriteriaAnalysisWeights {
            location: 0,
            degree: 250_000,
            eigenvector: 0,
            betweenness: 250_000,
            closeness: 0,
        },
        ..Default::default()
    };
    let ips = Ips::new(config);
    let nodes = vec![
        ips_node(1, 0, 0, vec![1]),
        ips_node(2, 1 * UNIT, 0, vec![0, 2]),
        ips_node(3, 0, 0, vec![1]),
    ];
    let eigenvalues = vec![0, 0, 0];
    let state = ips.generate_state(&nodes, &eigenvalues).unwrap();

    // 100 * 1.0 * 0.25 + 100 * 1.0 * 0.25 = 50, in millionths.
    assert_eq!(ips.rate_node(&nodes[1], &state), 50 * UNIT);
    assert_eq!(ips.rate_node(&nodes[0], &state), 0);
}

#[test]
fn degree_avg_triangle_test() {
    let ips = Ips::new(off_config());
    let nodes = triangle();
    let state = ips.generate_state(&nodes, &vec![0, 0, 0]).unwrap();
    assert_eq!(
        ips_core::statistics::degree_centrality_avg(&state.degrees),
        2 * UNIT
    );
}

#[test]
fn ips_detect_islands_test_no_islands() {
    let ips = Ips::new(off_config());
    let mut nodes = Vec::new();
    for i in 0..10u128 {
        nodes.push(ips_node(i, 0, 0, Vec::new()));
    }
    for i in 0..10 {
        for j in 0..10 {
            if i == j {
                continue;
            }
            nodes[i].connections.push(j);
            nodes[j].connections.push(i);
        }
    }

    let islands = ips.detect_islands(&nodes);
    assert_eq!(islands.len(), 1);
}

#[test]
fn ips_detect_islands_test() {
    let ips = Ips::new(off_config());
    let mut nodes = Vec::new();
    for i in 0..10u128 {
        nodes.push(ips_node(i, 0, 0, Vec::new()));
    }
    // Each node is connected only to itself: each node is an island.
    for i in 0..10 {
        nodes[i].connections.push(i);
        nodes[i].connections.push(i);
    }

    let islands = ips.detect_islands(&nodes);
    assert_eq!(islands.len(), nodes.len());
}

#[test]
fn check_islands_test() {
    let ips = Ips::new(off_config());
    // Two islands of 5 nodes each in a 10-node network: both are massive
    // (threshold is 1), so the run must be refused.
    let islands = vec![vec![0, 1, 2, 3, 4], vec![5, 6, 7, 8, 9]];
    assert_eq!(
        ips.check_islands(&islands, 10),
        Err(IpsError::MultipleMassiveIslands)
    );

    // One massive island plus a tiny one passes.
    let islands = vec![vec![0, 1, 2, 3, 4, 5, 6, 7, 8], vec![9]];
    assert_eq!(ips.check_islands(&islands, 10), Ok(1));
}

#[test]
fn generate_state_empty_test() {
    let ips = Ips::new(off_config());
    let nodes: Vec<Node> = Vec::new();
    let eigenvalues: Vec<i64> = Vec::new();
    assert_eq!(
        ips.generate_state(&nodes, &eigenvalues).err(),
        Some(IpsError::EmptySeries)
    );
}

#[test]
fn bridges_star_test() {
    // A star of five: the center's betweenness is highest, the leaves'
    // zero; the median is zero, and no edge has both endpoints strictly
    // above the threshold, so no bridge survives.
    let nodes = vec![
        ips_node(0, 6 * UNIT, 0, vec![1, 2, 3, 4]),
        ips_node(1, 0, 0, vec![0]),
        ips_node(2, 0, 0, vec![0]),
        ips_node(3, 0, 0, vec![0]),
        ips_node(4, 0, 0, vec![0]),
    ];
    let bridges = find_bridges(&nodes, 1_250_000);
    for v in 1..5 {
        assert!(!bridges.is_bridge(0, v));
        assert!(!bridges.is_bridge(v, 0));
    }
}

fn two_cliques() -> Vec<Node> {
    // Two 4-cliques {0..3} and {4..7} joined by the edge (3, 4); the
    // joining endpoints carry the high betweenness.
    let mut nodes = Vec::new();
    for i in 0..8u128 {
        let b = if i == 3 || i == 4 { 9 * UNIT } else { 1 * UNIT };
        nodes.push(ips_node(i, b, 1 * UNIT, Vec::new()));
    }
    for i in 0..4 {
        for j in 0..4 {
            if i != j {
                nodes[i].connections.push(j);
            }
        }
    }
    for i in 4..8 {
        for j in 4..8 {
            if i != j {
                nodes[i].connections.push(j);
            }
        }
    }
    nodes[3].connections.push(4);
    nodes[4].connections.push(3);
    nodes
}

#[test]
fn bridges_two_cliques_test() {
    let nodes = two_cliques();
    // Median betweenness 1.0, threshold 1.25: exactly the edge (3, 4) has
    // both endpoints above it.
    let bridges = find_bridges(&nodes, 1_250_000);
    assert!(bridges.is_bridge(3, 4));
    assert!(bridges.is_bridge(4, 3));
    assert!(!bridges.is_bridge(0, 1));
}

#[test]
fn mcda_preserves_bridge_test() {
    let ips = Ips::new(off_config());
    let nodes = two_cliques();
    let eigenvalues = vec![0; 8];
    let state = ips.generate_state(&nodes, &eigenvalues).unwrap();
    let bridges = find_bridges(&nodes, 1_250_000);
    let distances: Vec<Vec<Option<u64>>> = Vec::new();
    let final_nodes = ips.mcda_phase(&state, state.nodes.clone(), &bridges, &distances);

    // The bridge edge survives the whole MCDA phase in both directions.
    assert!(final_nodes[3].connections.contains(&4));
    assert!(final_nodes[4].connections.contains(&3));

    // No node ends up connected to itself.
    for (i, node) in final_nodes.iter().enumerate() {
        assert!(!node.connections.contains(&i));
    }

    // The change quotas cap the drift: each node's connection set changes
    // by at most 2 * change_no_more elements.
    for i in 0..8 {
        let before: std::collections::BTreeSet<usize> =
            nodes[i].connections.iter().copied().collect();
        let after: std::collections::BTreeSet<usize> =
            final_nodes[i].connections.iter().copied().collect();
        let diff = before.symmetric_difference(&after).count();
        assert!(diff <= 4, "node {i} changed by {diff}");
    }
}

#[test]
fn check_and_fix_integrity_robust_test() {
    let ips = Ips::new(off_config());
    // A complete graph of five stays connected when its hottest node is
    // removed, so the probe reports integrity and changes nothing.
    let mut nodes = Vec::new();
    for i in 0..5u128 {
        nodes.push(ips_node(i, (i as i64) * UNIT, 0, Vec::new()));
    }
    for i in 0..5 {
        for j in 0..5 {
            if i != j {
                nodes[i].connections.push(j);
            }
        }
    }
    let mut state = ips.generate_state(&nodes, &vec![0; 5]).unwrap();
    let before: Vec<Vec<usize>> = state.nodes.iter().map(|n| n.connections.clone()).collect();
    assert!(ips.check_and_fix_integrity_upon_removal(&mut state));
    let after: Vec<Vec<usize>> = state.nodes.iter().map(|n| n.connections.clone()).collect();
    assert_eq!(before, after);
}

#[test]
fn check_and_fix_integrity_repair_test() {
    let ips = Ips::new(off_config());
    // Two 4-cliques joined only through a central hub: removing the hub
    // (the highest-betweenness tenth of nine nodes) leaves two massive
    // islands, so the probe repairs the original state by connecting the
    // hub's two lowest-betweenness neighbors.
    let mut nodes = Vec::new();
    for i in 0..9u128 {
        let b = if i == 4 { 9 * UNIT } else { 1 * UNIT };
        nodes.push(ips_node(i, b, 0, Vec::new()));
    }
    for i in 0..4 {
        for j in 0..4 {
            if i != j {
                nodes[i].connections.push(j);
            }
        }
    }
    for i in 5..9 {
        for j in 5..9 {
            if i != j {
                nodes[i].connections.push(j);
            }
        }
    }
    for i in 0..9 {
        if i != 4 {
            nodes[i].connections.push(4);
            nodes[4].connections.push(i);
        }
    }
    let mut state = ips.generate_state(&nodes, &vec![0; 9]).unwrap();
    assert!(!ips.check_and_fix_integrity_upon_removal(&mut state));
    // The hub's two lowest-betweenness neighbors (ties go to the first
    // occurrence) received a mutual edge.
    let a = *state.nodes[4].connections.first().unwrap();
    assert_eq!(state.nodes[a].connections.last(), Some(&1));
    assert_eq!(state.nodes[1].connections.last(), Some(&a));
}

#[test]
fn location_rating_test() {
    // PreferCloser: 100 below the threshold distance, then 66.66.., then
    // 33.33.., then 0 (all in millionths).
    let km = 1000u32; // threshold distance 1_000_000 m
    assert_eq!(
        location_rating(GeoLocationMode::PreferCloser, 999_999, km),
        100_000_000
    );
    assert_eq!(
        location_rating(GeoLocationMode::PreferCloser, 1_500_000, km),
        66_666_666
    );
    assert_eq!(
        location_rating(GeoLocationMode::PreferCloser, 2_500_000, km),
        33_333_333
    );
    assert_eq!(
        location_rating(GeoLocationMode::PreferCloser, 3_000_000, km),
        0
    );
    // PreferDistant: 0 below half the threshold, 50 below it, else 100.
    assert_eq!(
        location_rating(GeoLocationMode::PreferDistant, 499_999, km),
        0
    );
    assert_eq!(
        location_rating(GeoLocationMode::PreferDistant, 700_000, km),
        50_000_000
    );
    assert_eq!(
        location_rating(GeoLocationMode::PreferDistant, 1_000_000, km),
        100_000_000
    );
    assert_eq!(location_rating(GeoLocationMode::Off, 0, km), 0);
}

#[test]
fn create_histograms_test() {
    let nodes = triangle();
    let histograms = create_histograms(&nodes);
    assert_eq!(histograms.len(), 3);
    assert_eq!(histograms[0].label.as_str(), "betweenness");
    assert_eq!(histograms[1].label.as_str(), "closeness");
    assert_eq!(histograms[2].label.as_str(), "degree");
    // All values of the triangle are equal, so every histogram is
    // degenerate.
    for h in &histograms {
        assert_eq!(h.counts.len(), 256);
        assert_eq!(h.max_count, 0);
    }
}

#[test]
fn generate_statistics_test() {
    let ips = Ips::new(off_config());
    let nodes = vec![
        ips_node(1, 2 * UNIT, 1 * UNIT, vec![1]),
        ips_node(2, 4 * UNIT, 3 * UNIT, vec![0]),
    ];
    let state = ips.generate_state(&nodes, &vec![5 * UNIT, 7 * UNIT]).unwrap();
    let stats = generate_statistics(&state);
    assert_eq!(stats.nodes_count, 2);
    assert_eq!(stats.degree_average, 1 * UNIT);
    assert_eq!(stats.degree_median, 1 * UNIT);
    assert_eq!(stats.degree_min, 1 * UNIT);
    assert_eq!(stats.degree_max, 1 * UNIT);
    assert_eq!(stats.betweenness_average, 3 * UNIT);
    assert_eq!(stats.betweenness_median, 3 * UNIT);
    assert_eq!(stats.betweenness_min, 2 * UNIT);
    assert_eq!(stats.betweenness_max, 4 * UNIT);
    assert_eq!(stats.closeness_average, 2 * UNIT);
    assert_eq!(stats.closeness_median, 2 * UNIT);
    assert_eq!(stats.eigenvector_average, 6 * UNIT);
    assert_eq!(stats.eigenvector_median, 6 * UNIT);
    assert_eq!(stats.eigenvector_min, 5 * UNIT);
    assert_eq!(stats.eigenvector_max, 7 * UNIT);
}
