use graph_stats::components::connected_components;
use graph_stats::degree::{
    calculate_degree_centrality, calculate_graph_density, calculate_node_degrees, Ratio,
};
use graph_stats::graph::Graph;
use graph_stats::ingest::build_graph;
use graph_stats::partition::detect_communities;
use graph_stats::triangles::count_triangles;
use petgraph::graph::UnGraph;
use std::collections::HashMap;

fn graph_of(nodes: &[u64], edges: &[(u64, u64)]) -> Graph {
    let mut graph = Graph::new();
    let mut node_indices = HashMap::new();
    for node in nodes {
        let index = graph.add_node(*node);
        node_indices.insert(*node, index);
    }
    for (a, b) in edges {
        let ia = graph.add_node(*a);
        let ib = graph.add_node(*b);
        node_indices.insert(*a, ia);
        node_indices.insert(*b, ib);
        graph.add_edge(ia, ib);
    }
    graph
}

fn ratio(num: u128, den: u128) -> Ratio {
    Ratio { num, den }
}

fn petgraph_components(graph: &Graph) -> usize {
    let mut pg = UnGraph::<u64, ()>::new_undirected();
    let mut idx = Vec::new();
    for i in 0..graph.node_count() {
        idx.push(pg.add_node(graph.node_id(i)));
    }
    for k in 0..graph.edge_count() {
        let (a, b) = graph.edge(k);
        pg.add_edge(idx[a], idx[b], ());
    }
    petgraph::algo::connected_components(&pg)
}

fn distinct(labels: &[usize]) -> usize {
    let mut seen: Vec<usize> = labels.to_vec();
    seen.sort();
    seen.dedup();
    seen.len()
}

#[test]
fn test_detect_communities() {
    let graph = graph_of(&[1, 2, 3, 4], &[(1, 2), (2, 3), (3, 4)]);
    let communities = detect_communities(&graph);
    // every node gets its own label, connected or not
    assert_eq!(communities[0], 0);
    assert_eq!(communities[1], 1);
    assert_eq!(communities[2], 2);
    assert_eq!(communities[3], 3);
}

#[test]
fn test_node_degree_analysis() {
    let graph = graph_of(&[1, 2, 3, 4], &[(1, 2), (2, 3)]);
    let node_degrees = calculate_node_degrees(&graph);
    assert_eq!(node_degrees[0], 1);
    assert_eq!(node_degrees[1], 2);
    assert_eq!(node_degrees[2], 1);
    assert_eq!(node_degrees[3], 0);
}

#[test]
fn test_connected_components_analysis() {
    // six nodes in two groups of three, with no edges added
    let graph = graph_of(&[1, 2, 3, 4, 5, 6], &[]);
    let (labels, count) = connected_components(&graph);
    assert_eq!(count, 6);
    assert_eq!(distinct(&labels), count);
    assert_eq!(count, petgraph_components(&graph));
}

#[test]
fn two_triangles_are_two_components() {
    let graph = graph_of(&[], &[(1, 2), (2, 3), (3, 1), (4, 5), (5, 6), (6, 4)]);
    let (labels, count) = connected_components(&graph);
    assert_eq!(count, 2);
    assert_eq!(count, petgraph_components(&graph));
    assert_eq!(labels, vec![0, 0, 0, 1, 1, 1]);
}

#[test]
fn components_follow_paths() {
    let graph = graph_of(&[10, 20, 30, 40, 50], &[(10, 30), (30, 50), (20, 40)]);
    let (labels, count) = connected_components(&graph);
    assert_eq!(count, 2);
    assert_eq!(count, petgraph_components(&graph));
    assert_eq!(labels[0], labels[2]);
    assert_eq!(labels[2], labels[4]);
    assert_eq!(labels[1], labels[3]);
    assert_ne!(labels[0], labels[1]);
}

#[test]
fn handshake_with_self_loops_and_parallel_edges() {
    let graph = graph_of(&[], &[(1, 2), (1, 2), (3, 3), (2, 3), (4, 4)]);
    let degrees = calculate_node_degrees(&graph);
    assert_eq!(degrees, vec![2, 3, 3, 2]);
    let sum: usize = degrees.iter().sum();
    assert_eq!(sum, 2 * graph.edge_count());
}

#[test]
fn degree_scenario_with_isolated_node() {
    let graph = graph_of(&[1, 2, 3, 4], &[(1, 2), (2, 3)]);
    assert_eq!(calculate_node_degrees(&graph), vec![1, 2, 1, 0]);
}

#[test]
fn triangle_count_of_path_is_zero() {
    let graph = graph_of(&[], &[(1, 2), (2, 3), (3, 4)]);
    assert_eq!(count_triangles(&graph), 0);
}

#[test]
fn triangle_count_of_three_cycle_is_one() {
    let graph = graph_of(&[], &[(1, 2), (2, 3), (3, 1)]);
    assert_eq!(count_triangles(&graph), 1);
}

#[test]
fn triangle_count_of_complete_four_graph() {
    let graph = graph_of(&[], &[(1, 2), (1, 3), (1, 4), (2, 3), (2, 4), (3, 4)]);
    assert_eq!(count_triangles(&graph), 4);
}

#[test]
fn triangle_count_ignores_parallel_edges() {
    let graph = graph_of(&[], &[(1, 2), (2, 1), (2, 3), (3, 1)]);
    assert_eq!(count_triangles(&graph), 1);
}

#[test]
fn closing_a_path_adds_one_triangle() {
    let path = graph_of(&[], &[(1, 2), (2, 3)]);
    assert_eq!(count_triangles(&path), 0);
    let closed = graph_of(&[], &[(1, 2), (2, 3), (3, 1)]);
    assert_eq!(count_triangles(&closed), 1);
}

#[test]
fn triangle_count_of_two_triangles_sharing_an_edge() {
    let graph = graph_of(&[], &[(1, 2), (2, 3), (3, 1), (2, 4), (3, 4)]);
    assert_eq!(count_triangles(&graph), 2);
}

#[test]
fn density_of_small_graphs() {
    assert_eq!(calculate_graph_density(&graph_of(&[], &[])), ratio(0, 1));
    assert_eq!(calculate_graph_density(&graph_of(&[7], &[])), ratio(0, 1));
    assert_eq!(calculate_graph_density(&graph_of(&[1, 2], &[])), ratio(0, 2));
    // path on four nodes: 2 * 3 / (4 * 3)
    let path = graph_of(&[], &[(1, 2), (2, 3), (3, 4)]);
    assert_eq!(calculate_graph_density(&path), ratio(6, 12));
    // complete graph on three nodes: density one
    let full = graph_of(&[], &[(1, 2), (2, 3), (3, 1)]);
    assert_eq!(calculate_graph_density(&full), ratio(6, 6));
}

#[test]
fn centrality_is_degree_over_n_minus_one() {
    let graph = graph_of(&[1, 2, 3, 4], &[(1, 2), (2, 3)]);
    let c = calculate_degree_centrality(&graph);
    assert_eq!(c, vec![ratio(1, 3), ratio(2, 3), ratio(1, 3), ratio(0, 3)]);
    for r in &c {
        assert!(r.num <= r.den);
    }
}

#[test]
fn centrality_of_single_node_is_zero() {
    let graph = graph_of(&[5], &[]);
    assert_eq!(calculate_degree_centrality(&graph), vec![ratio(0, 1)]);
    let looped = graph_of(&[], &[(5, 5)]);
    assert_eq!(calculate_degree_centrality(&looped), vec![ratio(0, 1)]);
}

#[test]
fn empty_graph_gives_empty_results() {
    let graph = Graph::new();
    assert_eq!(graph.node_count(), 0);
    assert_eq!(calculate_node_degrees(&graph), Vec::<usize>::new());
    assert_eq!(calculate_degree_centrality(&graph), Vec::<Ratio>::new());
    assert_eq!(detect_communities(&graph), Vec::<usize>::new());
    assert_eq!(count_triangles(&graph), 0);
    assert_eq!(connected_components(&graph), (Vec::new(), 0));
}

#[test]
fn partition_labels_are_distinct_regardless_of_edges() {
    let graph = graph_of(&[], &[(1, 2), (2, 3), (3, 1), (4, 5)]);
    let labels = detect_communities(&graph);
    assert_eq!(labels.len(), 5);
    assert_eq!(distinct(&labels), 5);
}

#[test]
fn analyzers_repeat_identically() {
    let graph = graph_of(&[9], &[(1, 2), (2, 3), (3, 1), (3, 4), (4, 4), (1, 2)]);
    assert_eq!(calculate_node_degrees(&graph), calculate_node_degrees(&graph));
    assert_eq!(calculate_degree_centrality(&graph), calculate_degree_centrality(&graph));
    assert_eq!(calculate_graph_density(&graph), calculate_graph_density(&graph));
    assert_eq!(count_triangles(&graph), count_triangles(&graph));
    assert_eq!(detect_communities(&graph), detect_communities(&graph));
    assert_eq!(connected_components(&graph), connected_components(&graph));
}

#[test]
fn add_node_is_idempotent() {
    let mut graph = Graph::new();
    assert_eq!(graph.add_node(42), 0);
    assert_eq!(graph.add_node(7), 1);
    assert_eq!(graph.add_node(42), 0);
    assert_eq!(graph.node_count(), 2);
    assert_eq!(graph.index_of(7), Some(1));
    assert_eq!(graph.index_of(8), None);
    assert_eq!(graph.node_id(1), 7);
}

#[test]
fn neighbors_list_every_endpoint_occurrence() {
    let graph = graph_of(&[], &[(1, 1), (1, 2), (1, 2)]);
    assert_eq!(graph.neighbors(0), &vec![0, 0, 1, 1]);
    assert_eq!(graph.neighbors(1), &vec![0, 0]);
    assert_eq!(graph.edge_count(), 3);
}

#[test]
fn build_graph_indexes_in_first_seen_order() {
    let g = build_graph(&vec![(30, 10), (10, 20), (20, 30), (40, 40)]);
    assert_eq!(g.node_count(), 4);
    assert_eq!(g.node_id(0), 30);
    assert_eq!(g.node_id(1), 10);
    assert_eq!(g.node_id(2), 20);
    assert_eq!(g.node_id(3), 40);
    assert_eq!(g.edge(0), (0, 1));
    assert_eq!(g.edge(3), (3, 3));
    // the self-loop closes no triangle
    assert_eq!(count_triangles(&g), 1);
}
