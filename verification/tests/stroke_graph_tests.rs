use vice_classic::stroke_graph::{add_cycle_anchors, link, neighbors, node_clusters};

fn t_skeleton() -> Vec<bool> {
    let mut skeleton = vec![false; 9 * 9];
    for x in 1..8 {
        skeleton[4 * 9 + x] = true;
    }
    for y in 1..5 {
        skeleton[y * 9 + 4] = true;
    }
    skeleton
}

#[test]
fn neighbours_are_the_set_pixels_of_the_block_in_row_major_order() {
    let s = t_skeleton();
    assert_eq!(neighbors(4 * 9 + 4, &s, 9, 9), vec![3 * 9 + 4, 4 * 9 + 3, 4 * 9 + 5]);
    assert_eq!(neighbors(4 * 9 + 1, &s, 9, 9), vec![4 * 9 + 2]);
    // A corner pixel only looks inside the grid.
    let all = vec![true; 9];
    assert_eq!(neighbors(0, &all, 3, 3), vec![1, 3, 4]);
    assert_eq!(neighbors(8, &all, 3, 3), vec![4, 5, 7]);
    assert_eq!(neighbors(4, &all, 3, 3), vec![0, 1, 2, 3, 5, 6, 7, 8]);
}

#[test]
fn a_link_orders_its_ends() {
    assert_eq!(link(7, 3), (3, 7));
    assert_eq!(link(3, 7), (3, 7));
    assert_eq!(link(5, 5), (5, 5));
}

#[test]
fn the_t_skeleton_has_three_ends_and_one_junction_cluster() {
    let s = t_skeleton();
    let nodes: Vec<bool> = (0..s.len())
        .map(|i| s[i] && neighbors(i, &s, 9, 9).len() != 2)
        .collect();
    let clusters = node_clusters(&nodes, 9, 9);
    // The ends of the bar, the top of the stem, and the junction block.
    assert_eq!(clusters.len(), 4);
    assert_eq!(clusters[0], vec![9 + 4]);
    assert!(clusters.iter().any(|c| c == &vec![4 * 9 + 1]));
    assert!(clusters.iter().any(|c| c == &vec![4 * 9 + 7]));
    for pair in clusters.windows(2) {
        assert!(pair[0][0] < pair[1][0]);
    }
    for c in &clusters {
        assert!(c.windows(2).all(|w| w[0] < w[1]));
    }
}

#[test]
fn a_closed_loop_gets_one_anchor_at_its_smallest_pixel() {
    // A 3x3 ring in a 5x5 grid, and an isolated dot.
    let mut s = vec![false; 25];
    for i in [6usize, 7, 8, 11, 13, 16, 17, 18, 24] {
        s[i] = true;
    }
    let mut nodes = vec![false; 25];
    add_cycle_anchors(&s, 5, 5, &mut nodes);
    let marked: Vec<usize> = (0..25).filter(|i| nodes[*i]).collect();
    assert_eq!(marked, vec![6]);
    // A component that already holds a node gets no anchor.
    let mut nodes = vec![false; 25];
    nodes[17] = true;
    add_cycle_anchors(&s, 5, 5, &mut nodes);
    let marked: Vec<usize> = (0..25).filter(|i| nodes[*i]).collect();
    assert_eq!(marked, vec![17]);
}

#[test]
fn node_clusters_partition_the_marked_pixels_into_components() {
    let mut nodes = vec![false; 16];
    for i in [0usize, 1, 5, 10, 15, 3] {
        nodes[i] = true;
    }
    let clusters = node_clusters(&nodes, 4, 4);
    assert_eq!(clusters, vec![vec![0, 1, 5, 10, 15], vec![3]]);
    assert!(node_clusters(&vec![false; 16], 4, 4).is_empty());
}

#[test]
fn a_zero_width_grid_has_no_clusters_and_no_anchors() {
    assert!(node_clusters(&vec![], 0, 3).is_empty());
    let mut nodes: Vec<bool> = vec![];
    add_cycle_anchors(&vec![], 0, 3, &mut nodes);
    assert!(nodes.is_empty());
}
