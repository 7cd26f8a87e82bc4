use std::collections::{HashMap, HashSet};

use citation_graph::{
    bfs_traversal, build_graph, calculate_graph_density, compute_degree_centrality, dfs_traversal,
    top_10_highly_connected_nodes, top_k_highly_connected_nodes, CitationGraph, Density,
    TraversalError,
};

// A cycle over three nodes: 1 -> 2 -> 3 -> 1.
fn create_test_graph() -> CitationGraph {
    build_graph(&[(1, 2), (2, 3), (3, 1)])
}

fn as_float(density: Density) -> f64 {
    density.links as f64 / density.ordered_pairs as f64
}

#[test]
fn test_calculate_graph_density() {
    let graph = create_test_graph();
    let density = as_float(calculate_graph_density(&graph));
    let expected_density = 3.0 / (3.0 * (3.0 - 1.0)); // 3 edges, 3 nodes
    assert_eq!(density, expected_density);
}

#[test]
fn test_top_10_highly_connected_nodes() {
    let graph = create_test_graph();
    let top_10 = top_10_highly_connected_nodes(&graph);
    assert_eq!(top_10.len(), 3); // The test graph has 3 nodes
}

#[test]
fn test_dfs_traversal() {
    let graph = create_test_graph();
    let start_node = 1;
    let dfs_result = dfs_traversal(&graph, start_node).unwrap();
    assert_eq!(dfs_result, HashSet::from([1, 2, 3])); // Should visit all nodes
}

#[test]
fn test_bfs_traversal() {
    let graph = create_test_graph();
    let start_node = 1;
    let bfs_result = bfs_traversal(&graph, start_node).unwrap();
    assert_eq!(bfs_result, HashSet::from([1, 2, 3])); // Should visit all nodes
}

#[test]
fn cycle_has_three_nodes_and_three_edges() {
    let graph = create_test_graph();
    assert_eq!(graph.node_count(), 3);
    assert_eq!(graph.edge_count(), 3);
}

#[test]
fn cycle_density_is_one_half() {
    let graph = create_test_graph();
    assert_eq!(calculate_graph_density(&graph), Density { links: 3, ordered_pairs: 6 });
    assert_eq!(as_float(calculate_graph_density(&graph)), 0.5);
}

#[test]
fn unknown_start_node_is_an_error() {
    let graph = create_test_graph();
    assert_eq!(dfs_traversal(&graph, 999), Err(TraversalError::NodeNotFound(999)));
    assert_eq!(bfs_traversal(&graph, 999), Err(TraversalError::NodeNotFound(999)));
}

#[test]
fn traversal_of_empty_graph_is_an_error() {
    let graph = build_graph(&[]);
    assert_eq!(dfs_traversal(&graph, 0), Err(TraversalError::NodeNotFound(0)));
    assert_eq!(bfs_traversal(&graph, 0), Err(TraversalError::NodeNotFound(0)));
}

#[test]
fn empty_edge_list_gives_empty_graph() {
    let graph = build_graph(&[]);
    assert_eq!(graph.node_count(), 0);
    assert_eq!(graph.edge_count(), 0);
    assert!(compute_degree_centrality(&graph).is_empty());
    assert!(top_10_highly_connected_nodes(&graph).is_empty());
    assert_eq!(calculate_graph_density(&graph), Density { links: 0, ordered_pairs: 1 });
}

#[test]
fn nodes_are_indexed_in_first_seen_order() {
    let graph = build_graph(&[(30, 10), (20, 30), (10, 40)]);
    assert_eq!(graph.node_count(), 4);
    assert_eq!(graph.index_of(30), Some(0));
    assert_eq!(graph.index_of(10), Some(1));
    assert_eq!(graph.index_of(20), Some(2));
    assert_eq!(graph.index_of(40), Some(3));
    assert_eq!(graph.index_of(50), None);
}

#[test]
fn parallel_edges_and_self_loops_are_kept() {
    let graph = build_graph(&[(1, 2), (1, 2), (2, 2), (1, 2)]);
    assert_eq!(graph.node_count(), 2);
    assert_eq!(graph.edge_count(), 4);
    let centrality = compute_degree_centrality(&graph);
    assert_eq!(centrality, HashMap::from([(1, 3), (2, 1)]));
}

#[test]
fn extreme_identifiers_are_accepted() {
    let graph = build_graph(&[(u64::MAX, 0), (0, u64::MAX)]);
    assert_eq!(graph.node_count(), 2);
    assert_eq!(graph.edge_count(), 2);
    assert_eq!(dfs_traversal(&graph, u64::MAX), Ok(HashSet::from([0, u64::MAX])));
}

#[test]
fn degree_counts_outgoing_links_only() {
    let graph = build_graph(&[(1, 2), (1, 3), (1, 4), (2, 3), (4, 1)]);
    let centrality = compute_degree_centrality(&graph);
    assert_eq!(centrality, HashMap::from([(1, 3), (2, 1), (3, 0), (4, 1)]));
}

#[test]
fn node_without_outgoing_links_has_degree_zero() {
    let graph = build_graph(&[(7, 8)]);
    let centrality = compute_degree_centrality(&graph);
    assert_eq!(centrality.get(&8), Some(&0));
    assert_eq!(centrality.get(&7), Some(&1));
    assert_eq!(centrality.len(), 2);
}

#[test]
fn degrees_add_up_to_edge_count() {
    let edges = [(1, 2), (2, 3), (3, 1), (1, 3), (1, 3), (4, 4), (5, 1), (2, 5)];
    let graph = build_graph(&edges);
    let centrality = compute_degree_centrality(&graph);
    let total: usize = centrality.values().sum();
    assert_eq!(total, graph.edge_count());
    assert_eq!(total, edges.len());
}

#[test]
fn top_k_ranks_by_degree_then_by_identifier() {
    // Degrees: 1 -> 3, 2 -> 1, 3 -> 0, 4 -> 1, 9 -> 2.
    let graph = build_graph(&[(1, 2), (1, 3), (1, 4), (2, 3), (4, 1), (9, 1), (9, 2)]);
    let top = top_k_highly_connected_nodes(&graph, 10);
    assert_eq!(top, vec![(1, 3), (9, 2), (2, 1), (4, 1), (3, 0)]);
    let top = top_k_highly_connected_nodes(&graph, 3);
    assert_eq!(top, vec![(1, 3), (9, 2), (2, 1)]);
    let top = top_k_highly_connected_nodes(&graph, 1);
    assert_eq!(top, vec![(1, 3)]);
}

#[test]
fn top_k_of_equal_degrees_goes_by_identifier() {
    let graph = build_graph(&[(3, 1), (2, 3), (1, 2)]);
    let top = top_k_highly_connected_nodes(&graph, 2);
    assert_eq!(top, vec![(1, 1), (2, 1)]);
    assert_eq!(top_10_highly_connected_nodes(&graph), vec![(1, 1), (2, 1), (3, 1)]);
}

#[test]
fn top_k_length_is_the_smaller_of_k_and_node_count() {
    let graph = build_graph(&[(1, 2), (2, 3), (3, 4), (4, 5)]);
    for k in 0..8 {
        let top = top_k_highly_connected_nodes(&graph, k);
        assert_eq!(top.len(), k.min(5));
        for pair in top.windows(2) {
            assert!(pair[0].1 >= pair[1].1);
        }
    }
}

#[test]
fn top_k_of_zero_is_empty() {
    let graph = create_test_graph();
    assert!(top_k_highly_connected_nodes(&graph, 0).is_empty());
}

#[test]
fn top_10_keeps_ten_of_many() {
    // Node i has i outgoing links, for i in 1..=15; node 0 has none.
    let mut edges = Vec::new();
    for i in 1..=15u64 {
        for _ in 0..i {
            edges.push((i, 0));
        }
    }
    let graph = build_graph(&edges);
    let top = top_10_highly_connected_nodes(&graph);
    let expected: Vec<(u64, usize)> = (6..=15u64).rev().map(|i| (i, i as usize)).collect();
    assert_eq!(top, expected);
}

#[test]
fn density_of_single_node_is_zero() {
    let graph = build_graph(&[(5, 5), (5, 5)]);
    assert_eq!(graph.node_count(), 1);
    assert_eq!(calculate_graph_density(&graph), Density { links: 0, ordered_pairs: 1 });
    assert_eq!(as_float(calculate_graph_density(&graph)), 0.0);
}

#[test]
fn density_of_complete_graph_is_one() {
    let graph = build_graph(&[(1, 2), (2, 1), (1, 3), (3, 1), (2, 3), (3, 2)]);
    assert_eq!(calculate_graph_density(&graph), Density { links: 6, ordered_pairs: 6 });
    assert_eq!(as_float(calculate_graph_density(&graph)), 1.0);
}

#[test]
fn density_with_parallel_edges_can_exceed_one() {
    let graph = build_graph(&[(1, 2), (1, 2), (1, 2), (2, 1)]);
    assert_eq!(calculate_graph_density(&graph), Density { links: 4, ordered_pairs: 2 });
    assert_eq!(as_float(calculate_graph_density(&graph)), 2.0);
}

#[test]
fn density_with_self_loops_can_exceed_one() {
    // No two of these edges are parallel, but two of them are self-loops.
    let graph = build_graph(&[(1, 1), (1, 2), (2, 1), (2, 2)]);
    assert_eq!(calculate_graph_density(&graph), Density { links: 4, ordered_pairs: 2 });
    assert_eq!(as_float(calculate_graph_density(&graph)), 2.0);
}

#[test]
fn density_of_simple_graphs_is_between_zero_and_one() {
    let graphs: [&[(u64, u64)]; 4] = [
        &[(1, 2)],
        &[(1, 2), (2, 3), (3, 4)],
        &[(1, 2), (2, 1), (3, 4), (4, 3), (1, 3)],
        &[(1, 2), (1, 3), (1, 4), (1, 5), (5, 1)],
    ];
    for edges in graphs {
        let density = as_float(calculate_graph_density(&build_graph(edges)));
        assert!(0.0 <= density && density <= 1.0);
    }
}

#[test]
fn traversal_follows_link_direction() {
    // 1 -> 2 -> 3, and 4 -> 2.
    let graph = build_graph(&[(1, 2), (2, 3), (4, 2)]);
    assert_eq!(dfs_traversal(&graph, 1), Ok(HashSet::from([1, 2, 3])));
    assert_eq!(dfs_traversal(&graph, 2), Ok(HashSet::from([2, 3])));
    assert_eq!(dfs_traversal(&graph, 3), Ok(HashSet::from([3])));
    assert_eq!(dfs_traversal(&graph, 4), Ok(HashSet::from([2, 3, 4])));
    assert_eq!(bfs_traversal(&graph, 1), Ok(HashSet::from([1, 2, 3])));
    assert_eq!(bfs_traversal(&graph, 2), Ok(HashSet::from([2, 3])));
    assert_eq!(bfs_traversal(&graph, 3), Ok(HashSet::from([3])));
    assert_eq!(bfs_traversal(&graph, 4), Ok(HashSet::from([2, 3, 4])));
}

#[test]
fn traversal_passes_cycles_parallel_edges_and_self_loops() {
    let graph = build_graph(&[(1, 1), (1, 2), (1, 2), (2, 1), (2, 3), (3, 3), (3, 2), (7, 8)]);
    assert_eq!(dfs_traversal(&graph, 1), Ok(HashSet::from([1, 2, 3])));
    assert_eq!(bfs_traversal(&graph, 1), Ok(HashSet::from([1, 2, 3])));
    assert_eq!(dfs_traversal(&graph, 7), Ok(HashSet::from([7, 8])));
    assert_eq!(bfs_traversal(&graph, 8), Ok(HashSet::from([8])));
}

#[test]
fn traversal_result_holds_start() {
    let graph = build_graph(&[(1, 2), (3, 4), (4, 5), (5, 3)]);
    for start in [1, 2, 3, 4, 5] {
        assert!(dfs_traversal(&graph, start).unwrap().contains(&start));
        assert!(bfs_traversal(&graph, start).unwrap().contains(&start));
    }
}

#[test]
fn depth_first_and_breadth_first_agree() {
    let edges = [
        (1, 2), (1, 3), (2, 4), (3, 4), (4, 5), (5, 2), (6, 1), (7, 7), (8, 9), (9, 8), (4, 10),
        (10, 11), (11, 4), (12, 1),
    ];
    let graph = build_graph(&edges);
    for start in 0..14 {
        assert_eq!(dfs_traversal(&graph, start), bfs_traversal(&graph, start));
    }
    assert_eq!(dfs_traversal(&graph, 6), Ok(HashSet::from([6, 1, 2, 3, 4, 5, 10, 11])));
    assert_eq!(dfs_traversal(&graph, 8), Ok(HashSet::from([8, 9])));
}

#[test]
fn traversal_of_a_long_chain_reaches_its_end() {
    let edges: Vec<(u64, u64)> = (0..5000u64).map(|i| (i, i + 1)).collect();
    let graph = build_graph(&edges);
    let reached = dfs_traversal(&graph, 0).unwrap();
    assert_eq!(reached.len(), 5001);
    assert_eq!(bfs_traversal(&graph, 0).unwrap(), reached);
    assert_eq!(bfs_traversal(&graph, 4999).unwrap(), HashSet::from([4999, 5000]));
}
