use graph_stats::graph::Graph;
use graph_stats::loader::load_edge_list;
use graph_stats::parse::parse_edge_line;

fn lines(texts: &[&str]) -> Vec<Vec<u8>> {
    texts.iter().map(|t| t.as_bytes().to_vec()).collect()
}

fn load(texts: &[&str]) -> (Graph, Vec<usize>) {
    load_edge_list(&lines(texts))
}

/// The edge list of the reference test graph: a directed 4-cycle.
fn cycle_lines() -> Vec<Vec<u8>> {
    lines(&["0 1", "1 2", "2 3", "3 0"])
}

fn average_separation(g: &Graph) -> f64 {
    let (td, tp) = g.separation_totals().expect("aggregate overflow");
    if tp > 0 {
        td as f64 / tp as f64
    } else {
        0.0
    }
}

fn average_clustering(g: &Graph) -> f64 {
    let fractions = g.clustering_fractions();
    let n = fractions.len();
    if n == 0 {
        return 0.0;
    }
    let mut sum = 0.0f64;
    for &(closed, possible) in fractions.iter() {
        if possible > 0 {
            sum += closed as f64 / possible as f64;
        }
    }
    sum / n as f64
}

#[test]
fn test_read_graph_from_file() {
    let (graph, skipped) = load_edge_list(&cycle_lines());
    assert_eq!(graph.node_count(), 4);
    assert_eq!(graph.edge_count(), 4);
    assert!(skipped.is_empty());
}

#[test]
fn test_average_degree_of_separation() {
    let (graph, _) = load_edge_list(&cycle_lines());
    let avg_degree = average_separation(&graph);
    assert_eq!(avg_degree, 1.5);
}

#[test]
fn test_largest_degree_of_separation() {
    let (graph, _) = load_edge_list(&cycle_lines());
    let max_degree = graph.largest_degree_of_separation();
    assert_eq!(max_degree, 3);
}

#[test]
fn test_clustering_coefficient() {
    let (graph, _) = load_edge_list(&cycle_lines());
    let coeff = average_clustering(&graph);
    assert_eq!(coeff, 0.0);
}

#[test]
fn test_empty_input() {
    let (graph, skipped) = load(&[]);
    assert_eq!(graph.node_count(), 0);
    assert_eq!(graph.edge_count(), 0);
    assert!(skipped.is_empty());
    assert_eq!(average_separation(&graph), 0.0);
    assert_eq!(graph.largest_degree_of_separation(), 0);
    assert_eq!(average_clustering(&graph), 0.0);
    assert_eq!(graph.highest_degree_node(), None);
    assert_eq!(graph.lowest_degree_node(), None);
}

#[test]
fn test_malformed_line_amid_valid_lines() {
    let (graph, skipped) = load(&["0 1", "a b c", "1 2"]);
    assert_eq!(skipped, vec![2]);
    assert_eq!(graph.node_count(), 3);
    assert_eq!(graph.edge_count(), 2);
}

#[test]
fn test_star_graph_clustering() {
    let (graph, _) = load(&["0 1", "0 2", "0 3"]);
    assert_eq!(graph.node_count(), 4);
    let fractions = graph.clustering_fractions();
    // The center has three distinct leaves and no edge among them.
    assert_eq!(fractions[0], (0, 3));
    assert_eq!(fractions[1], (0, 0));
    assert_eq!(average_clustering(&graph), 0.0);
    assert_eq!(graph.highest_degree_node(), Some(0));
    assert_eq!(graph.lowest_degree_node(), Some(1));
}

#[test]
fn test_duplicate_lines_count_edges_not_nodes() {
    let (graph, _) = load(&["5 7", "5 7"]);
    assert_eq!(graph.edge_count(), 2);
    assert_eq!(graph.node_count(), 2);
}

#[test]
fn test_counts_over_distinct_identifiers() {
    let (graph, skipped) = load(&["100 200", "200 300"]);
    assert_eq!(graph.node_count(), 3);
    assert_eq!(graph.edge_count(), 2);
    assert!(skipped.is_empty());
}

#[test]
fn test_parse_edge_line_forms() {
    assert_eq!(parse_edge_line(&b"7 9".to_vec()), Some((7, 9)));
    assert_eq!(parse_edge_line(&b"  3   4  ".to_vec()), Some((3, 4)));
    assert_eq!(parse_edge_line(&b"\t8 9\t".to_vec()), Some((8, 9)));
    assert_eq!(parse_edge_line(&b"10".to_vec()), None);
    assert_eq!(parse_edge_line(&b"1 2 3".to_vec()), None);
    assert_eq!(parse_edge_line(&b"".to_vec()), None);
    assert_eq!(parse_edge_line(&b"1 -2".to_vec()), None);
    assert_eq!(parse_edge_line(&b"x 2".to_vec()), None);
    assert_eq!(
        parse_edge_line(&b"18446744073709551615 0".to_vec()),
        Some((u64::MAX, 0))
    );
    assert_eq!(parse_edge_line(&b"18446744073709551616 0".to_vec()), None);
}

#[test]
fn test_skipped_line_numbers_are_one_based() {
    let (_, skipped) = load(&["", "0 1", "junk", "2 3", "4"]);
    assert_eq!(skipped, vec![1, 3, 5]);
}

#[test]
fn test_bfs_depths() {
    let (graph, _) = load(&["0 1", "0 2"]);
    let from_center = graph.bfs_depths(0);
    assert_eq!(from_center, vec![Some(0), Some(1), Some(1)]);
    let from_leaf = graph.bfs_depths(1);
    assert_eq!(from_leaf, vec![None, Some(0), None]);
}

#[test]
fn test_bfs_depth_grows_one_per_hop() {
    let (graph, _) = load(&["0 1", "1 2", "2 3"]);
    let depths = graph.bfs_depths(0);
    assert_eq!(depths, vec![Some(0), Some(1), Some(2), Some(3)]);
}

#[test]
fn test_disconnected_components() {
    let (graph, _) = load(&["0 1", "2 3"]);
    let (td, tp) = graph.separation_totals().unwrap();
    assert_eq!(td, 2);
    assert_eq!(tp, 6);
    assert_eq!(graph.largest_degree_of_separation(), 1);
}

#[test]
fn test_triangle_clustering() {
    let (graph, _) = load(&["0 1", "0 2", "1 2"]);
    let fractions = graph.clustering_fractions();
    assert_eq!(fractions[0], (1, 1));
    assert_eq!(fractions[1], (0, 0));
    assert_eq!(fractions[2], (0, 0));
    let coeff = average_clustering(&graph);
    assert!(coeff > 0.3333 && coeff < 0.3334);
}

#[test]
fn test_parallel_edges_deduplicated_for_clustering() {
    let (graph, _) = load(&["0 1", "0 1", "0 2", "1 2"]);
    let fractions = graph.clustering_fractions();
    // The repeated neighbor collapses: two distinct neighbors, one closed pair.
    assert_eq!(fractions[0], (1, 1));
    // Parallel edges still count toward the out-degree.
    assert_eq!(graph.highest_degree_node(), Some(0));
    assert_eq!(graph.edge_count(), 4);
    assert_eq!(graph.node_count(), 3);
}

#[test]
fn test_self_loop() {
    let (graph, _) = load(&["4 4"]);
    assert_eq!(graph.node_count(), 1);
    assert_eq!(graph.edge_count(), 1);
    let (td, tp) = graph.separation_totals().unwrap();
    assert_eq!(td, 0);
    assert_eq!(tp, 1);
    assert_eq!(graph.largest_degree_of_separation(), 0);
}

#[test]
fn test_extreme_nodes_ties_take_first() {
    let (graph, _) = load(&["1 2", "3 2"]);
    // Out-degrees by discovery order: 1 (for id 1), 0 (for id 2), 1 (for id 3).
    assert_eq!(graph.highest_degree_node(), Some(1));
    assert_eq!(graph.lowest_degree_node(), Some(2));
}

#[test]
fn test_relabeling_preserves_statistics() {
    let (graph_a, _) = load(&["0 1", "1 2", "0 2", "2 0"]);
    let (graph_b, _) = load(&["40 51", "51 62", "40 62", "62 40"]);
    assert_eq!(graph_a.node_count(), graph_b.node_count());
    assert_eq!(graph_a.edge_count(), graph_b.edge_count());
    assert_eq!(graph_a.separation_totals(), graph_b.separation_totals());
    assert_eq!(
        graph_a.largest_degree_of_separation(),
        graph_b.largest_degree_of_separation()
    );
    assert_eq!(graph_a.clustering_fractions(), graph_b.clustering_fractions());
    assert_eq!(graph_a.highest_degree_node(), Some(0));
    assert_eq!(graph_b.highest_degree_node(), Some(40));
}

#[test]
fn test_statistics_report() {
    let (graph, _) = load_edge_list(&cycle_lines());
    let report = graph.statistics();
    assert_eq!(report.node_count, 4);
    assert_eq!(report.edge_count, 4);
    assert_eq!(report.separation, Some((24, 16)));
    assert_eq!(report.largest_separation, 3);
    assert_eq!(report.clustering.len(), 4);
    assert_eq!(report.highest_degree, Some(0));
    assert_eq!(report.lowest_degree, Some(0));
    assert_eq!(report.clustering[0], (0, 0));
}
