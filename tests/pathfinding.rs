use std::collections::HashMap;

use mesh_control::command::{Command, LinkReport, SignalData};
use mesh_control::graph::AdjacencyMap;
use mesh_control::pathfinding::{
    compute_edge_weight_proportionalised, compute_next_hops_map, dijkstra, MAX_HOPS,
};
use mesh_control::route_update::SignalCollector;
use mesh_control::settings::AppSettings;

fn settings(cost: u32, hops: u32) -> AppSettings {
    AppSettings::new(10, 10, cost, hops)
}

/// Gateway 10 hears 1 and 2; node 2 hears 3.
fn sample_graph() -> AdjacencyMap {
    let mut adj = AdjacencyMap::new();
    adj.add_node(1);
    adj.add_node(3);
    adj.set_link(10, 1, compute_edge_weight_proportionalised(-60, 1000));
    adj.set_link(10, 2, compute_edge_weight_proportionalised(-80, 500));
    adj.set_link(2, 3, compute_edge_weight_proportionalised(-50, 1500));
    adj
}

#[test]
fn edge_weight_values() {
    assert_eq!(compute_edge_weight_proportionalised(-60, 1000), Some(5000 * MAX_HOPS));
    assert_eq!(compute_edge_weight_proportionalised(-80, 500), Some(75000));
    assert_eq!(compute_edge_weight_proportionalised(0, 3000), Some(-30000));
    assert_eq!(compute_edge_weight_proportionalised(-120, -2000), Some(140000));
    assert_eq!(compute_edge_weight_proportionalised(-50, -2001), None);
}

#[test]
fn update_routes_happy_path_table() {
    let adj = sample_graph();
    let table = compute_next_hops_map(&settings(1000, 0), &adj, &vec![10]);
    let mut expected = HashMap::new();
    expected.insert(1, vec![10]);
    expected.insert(2, vec![10]);
    expected.insert(3, vec![2]);
    assert_eq!(table, expected);
}

#[test]
fn update_routes_happy_path_from_signal_reports() {
    let mut collector = SignalCollector::new();
    let reports = vec![
        SignalData {
            to: 10,
            is_gateway: true,
            links: vec![
                LinkReport { from: 1, rssi: -60, snr: 1000 },
                LinkReport { from: 2, rssi: -80, snr: 500 },
            ],
        },
        SignalData { to: 2, is_gateway: false, links: vec![LinkReport { from: 3, rssi: -50, snr: 1500 }] },
        SignalData { to: 1, is_gateway: false, links: vec![] },
        SignalData { to: 3, is_gateway: false, links: vec![] },
    ];
    for r in reports {
        collector.collect(&Command::<()>::SignalData(r));
    }
    collector.collect(&Command::<()>::GetMeshSettingsRequest);
    let table = collector.next_hops(&settings(1000, 0));
    assert_eq!(table.len(), 3);
    assert_eq!(table[&1], vec![10]);
    assert_eq!(table[&2], vec![10]);
    assert_eq!(table[&3], vec![2]);
}

#[test]
fn dijkstra_records_from_gateway() {
    let adj = sample_graph();
    let table = dijkstra(&settings(1000, 0), &adj, &vec![10], 10);
    assert_eq!(table.len(), 4);
    assert_eq!(table[&10].total_cost, Some(0));
    assert_eq!(table[&10].previous, None);
    assert_eq!(table[&1].previous, Some(10));
    assert_eq!(table[&1].total_distance, Some(50000));
    assert_eq!(table[&1].total_cost, Some(50_000_000));
    assert_eq!(table[&3].previous, Some(2));
    assert_eq!(table[&3].hop_count, 2);
    assert_eq!(table[&3].total_distance, Some(75000 + 35000));
}

#[test]
fn hop_weight_changes_route_choice() {
    // node 5 hears gateway-side nodes: gateway 10 hears 1 (cheap) and 5 (expensive);
    // 1 hears 5 (cheap). With cost only, 5 goes via 1; with a large hop weight, direct.
    let mut adj = AdjacencyMap::new();
    adj.set_link(10, 1, Some(1000));
    adj.set_link(10, 5, Some(5000));
    adj.set_link(1, 5, Some(1000));
    adj.add_node(5);
    let by_cost = compute_next_hops_map(&settings(1000, 0), &adj, &vec![10]);
    assert_eq!(by_cost[&5], vec![1]);
    let by_hops = compute_next_hops_map(&settings(1000, 1000), &adj, &vec![10]);
    assert_eq!(by_hops[&5], vec![10]);
}

#[test]
fn next_hops_sorted_by_cost_across_gateways() {
    // two gateways both hear node 1, gateway 20 over the better link
    let mut adj = AdjacencyMap::new();
    adj.set_link(10, 1, Some(9000));
    adj.set_link(20, 1, Some(2000));
    adj.add_node(1);
    let table = compute_next_hops_map(&settings(1000, 0), &adj, &vec![10, 20]);
    assert_eq!(table.len(), 1);
    assert_eq!(table[&1], vec![20, 10]);
    assert!(!table.contains_key(&10));
    assert!(!table.contains_key(&20));
}

#[test]
fn gateways_are_not_relays() {
    // gateway 20 hears node 1 and gateway 10 hears gateway 20: node 1 cannot reach 10 through 20
    let mut adj = AdjacencyMap::new();
    adj.set_link(10, 20, Some(100));
    adj.set_link(20, 1, Some(100));
    adj.add_node(1);
    let table = compute_next_hops_map(&settings(1000, 0), &adj, &vec![10, 20]);
    assert_eq!(table.len(), 1);
    assert_eq!(table[&1], vec![20]);
}

#[test]
fn missing_gateway_gives_empty_table() {
    let adj = sample_graph();
    let table = compute_next_hops_map(&settings(1000, 0), &adj, &vec![10, 99]);
    assert!(table.is_empty());
}

#[test]
fn unusable_links_give_empty_table() {
    let mut adj = AdjacencyMap::new();
    adj.set_link(10, 1, compute_edge_weight_proportionalised(-60, -2500));
    adj.set_link(1, 2, compute_edge_weight_proportionalised(-70, -3000));
    adj.add_node(2);
    let table = compute_next_hops_map(&settings(1000, 500), &adj, &vec![10]);
    assert!(table.is_empty());
}

#[test]
fn no_gateways_gives_empty_table() {
    let adj = sample_graph();
    let table = compute_next_hops_map(&settings(1000, 0), &adj, &vec![]);
    assert!(table.is_empty());
}
