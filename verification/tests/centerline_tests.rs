use vice_classic::centerline::{check_inventory, trace_pixel_graph, PixelEdge};
use vice_classic::refusals::LineArtRefusal;

fn degrees(clusters: usize, edges: &[PixelEdge]) -> Vec<usize> {
    let mut degree = vec![0; clusters];
    for edge in edges {
        degree[edge.start] += 1;
        degree[edge.end] += 1;
    }
    degree
}

#[test]
fn a_t_skeleton_walks_three_edges_from_one_junction_cluster() {
    let mut skeleton = vec![false; 9 * 9];
    for x in 1..8 {
        skeleton[4 * 9 + x] = true;
    }
    for y in 1..5 {
        skeleton[y * 9 + 4] = true;
    }
    let graph = trace_pixel_graph(&skeleton, 9, 9).unwrap();
    assert!(!graph.over_budget);
    assert_eq!(graph.edges.len(), 3);
    assert_eq!(
        degrees(graph.clusters.len(), &graph.edges)
            .iter()
            .filter(|d| **d == 3)
            .count(),
        1
    );
    assert_eq!(check_inventory(&graph), Ok(()));
}

#[test]
fn the_t_edges_run_from_each_arm_to_the_junction() {
    let mut skeleton = vec![false; 9 * 9];
    for x in 1..8 {
        skeleton[4 * 9 + x] = true;
    }
    for y in 1..5 {
        skeleton[y * 9 + 4] = true;
    }
    let graph = trace_pixel_graph(&skeleton, 9, 9).unwrap();
    assert_eq!(graph.clusters, vec![vec![13], vec![31, 39, 40, 41], vec![37], vec![43]]);
    assert_eq!(
        graph.edges,
        vec![
            PixelEdge { start: 0, end: 1, pixels: vec![13, 22, 31] },
            PixelEdge { start: 1, end: 2, pixels: vec![39, 38, 37] },
            PixelEdge { start: 1, end: 3, pixels: vec![41, 42, 43] },
        ]
    );
}

#[test]
fn a_ring_without_nodes_is_anchored_at_its_smallest_pixel_and_walked_once() {
    let mut skeleton = vec![false; 5 * 5];
    for (x, y) in [(2, 0), (1, 1), (3, 1), (0, 2), (4, 2), (1, 3), (3, 3), (2, 4)] {
        skeleton[y * 5 + x] = true;
    }
    let graph = trace_pixel_graph(&skeleton, 5, 5).unwrap();
    assert_eq!(graph.clusters, vec![vec![2]]);
    assert_eq!(
        graph.edges,
        vec![PixelEdge { start: 0, end: 0, pixels: vec![2, 6, 10, 16, 22, 18, 14, 8, 2] }]
    );
}

#[test]
fn no_node_pixel_and_no_edge_are_isolated_dots() {
    assert_eq!(
        trace_pixel_graph(&vec![false; 9], 3, 3),
        Err(LineArtRefusal::IsolatedDot)
    );
    let mut dot = vec![false; 9];
    dot[4] = true;
    let graph = trace_pixel_graph(&dot, 3, 3).unwrap();
    assert_eq!(graph.clusters, vec![vec![4]]);
    assert!(graph.edges.is_empty());
    assert_eq!(check_inventory(&graph), Err(LineArtRefusal::IsolatedDot));
}

#[test]
fn an_empty_grid_is_an_isolated_dot() {
    assert_eq!(trace_pixel_graph(&vec![], 0, 5).err(), Some(LineArtRefusal::IsolatedDot));
    assert_eq!(trace_pixel_graph(&vec![], 5, 0).err(), Some(LineArtRefusal::IsolatedDot));
}
