use vice_classic::refusals::LineArtRefusal;
use vice_classic::topology::{check_connected, split_plan, vertex_degrees};

#[test]
fn bends_become_vertices_and_edges_become_pieces() {
    let edges = vec![(0, 1, 2), (1, 2, 4), (2, 2, 3)];
    let plan = split_plan(3, &edges).expect("within budget");
    assert_eq!(plan.new_points, vec![(1, 1), (1, 2), (2, 1)]);
    assert_eq!(
        plan.pieces,
        vec![(0, 1, 0), (1, 3, 1), (3, 4, 1), (4, 2, 1), (2, 5, 2), (5, 2, 2)]
    );
    let degrees = vertex_degrees(6, &plan.pieces);
    assert_eq!(degrees, vec![1, 2, 3, 2, 2, 2]);
    assert_eq!(check_connected(&degrees), Ok(()));
}

#[test]
fn a_vertex_no_piece_reaches_is_refused() {
    assert_eq!(vertex_degrees(3, &vec![(0, 2, 0)]), vec![1, 0, 1]);
    assert_eq!(
        check_connected(&vec![1, 0, 1]),
        Err(LineArtRefusal::Graph { detail: "unconnected skeleton node cluster".to_string() })
    );
}

#[test]
fn splitting_stops_at_the_graph_budget() {
    assert!(split_plan(4094, &vec![(0, 1, 4)]).is_ok());
    assert_eq!(split_plan(4095, &vec![(0, 1, 4)]).err(), Some(LineArtRefusal::GraphBudget));
    let mut edges = vec![(0, 1, 2); 4096];
    assert_eq!(split_plan(2, &edges).map(|p| p.pieces.len()).ok(), Some(4096));
    edges.push((0, 1, 3));
    assert_eq!(split_plan(2, &edges).err(), Some(LineArtRefusal::GraphBudget));
}
