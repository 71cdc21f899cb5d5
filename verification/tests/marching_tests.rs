use vice_classic::boundary::{ChainStatus, Lattice};
use vice_classic::linking::link_segments;
use vice_classic::marching::{chain_status, first_stray_chain, marching_segments};

#[test]
fn a_single_raised_pixel_gives_one_closed_diamond() {
    let above = vec![false, false, false, false, true, false, false, false, false];
    let joined = vec![false; 4];
    let (segments, saddles) = marching_segments(&above, &joined, 3, 3);
    assert_eq!(segments, vec![(7, 2), (7, 3), (2, 10), (10, 3)]);
    assert_eq!(saddles, 0);
    let chains = link_segments(&segments);
    assert_eq!(chains, vec![(vec![7, 2, 10, 3, 7], true)]);
    assert_eq!(first_stray_chain(&Lattice { w: 3, h: 3 }, &chains), None);
}

#[test]
fn a_raised_column_gives_one_open_chain_from_border_to_border() {
    let above = vec![true, false, false, true, false, false];
    let joined = vec![false; 2];
    let (segments, saddles) = marching_segments(&above, &joined, 3, 2);
    assert_eq!(segments, vec![(0, 2)]);
    assert_eq!(saddles, 0);
    let chains = link_segments(&segments);
    assert_eq!(chains, vec![(vec![0, 2], false)]);
    assert_eq!(first_stray_chain(&Lattice { w: 3, h: 2 }, &chains), None);
}

#[test]
fn a_diagonal_cell_is_a_saddle_resolved_by_the_cell_mean() {
    let above = vec![true, false, false, true];
    let (joined_segments, saddles) = marching_segments(&above, &vec![true], 2, 2);
    assert_eq!(joined_segments, vec![(2, 0), (3, 1)]);
    assert_eq!(saddles, 1);
    let (split_segments, saddles) = marching_segments(&above, &vec![false], 2, 2);
    assert_eq!(split_segments, vec![(2, 1), (0, 3)]);
    assert_eq!(saddles, 1);
    assert_eq!(
        chain_status(saddles),
        ChainStatus::Ambiguous { saddle_cells: 1 }
    );
    assert_eq!(chain_status(0), ChainStatus::WellFormed);
}

#[test]
fn a_grid_too_small_for_a_cell_has_no_segments() {
    let (segments, saddles) = marching_segments(&vec![true, false], &vec![], 2, 1);
    assert!(segments.is_empty());
    assert_eq!(saddles, 0);
    assert!(link_segments(&segments).is_empty());
}

#[test]
fn open_chains_are_linked_before_loops_and_every_segment_once() {
    // A loop 1-2-3-1 and an open run 7-5-9, listed loop first.
    let segments = vec![(1, 2), (2, 3), (3, 1), (5, 7), (9, 5)];
    let chains = link_segments(&segments);
    assert_eq!(
        chains,
        vec![(vec![7, 5, 9], false), (vec![1, 2, 3, 1], true)]
    );
    let steps: usize = chains.iter().map(|(p, _)| p.len() - 1).sum();
    assert_eq!(steps, segments.len());
}

#[test]
fn an_open_chain_ending_inside_the_image_is_stray() {
    let lat = Lattice { w: 3, h: 3 };
    let chains = vec![(vec![0, 1, 0], true), (vec![5, 6], false), (vec![3, 0], false)];
    assert_eq!(first_stray_chain(&lat, &chains), Some(2));
    assert_eq!(first_stray_chain(&lat, &chains[..2].to_vec()), None);
}

/// The flags an alpha field gives the extraction at `level`: which pixel centres
/// lie at or above it, and which cells have their mean at or above it. Alpha is
/// quantized to 8 bits, as an image stores it.
fn flags(size: usize, alpha: impl Fn(usize, usize) -> f64, level: f64) -> (Vec<bool>, Vec<bool>) {
    let a: Vec<f64> = (0..size * size)
        .map(|i| (alpha(i % size, i / size).clamp(0.0, 1.0) * 255.0).round() / 255.0)
        .collect();
    let above = a.iter().map(|v| *v >= level).collect();
    let mut joined = Vec::new();
    for j in 0..size - 1 {
        for i in 0..size - 1 {
            let mean = 0.25
                * (a[j * size + i] + a[j * size + i + 1] + a[(j + 1) * size + i + 1]
                    + a[(j + 1) * size + i]);
            joined.push(mean >= level);
        }
    }
    (above, joined)
}

fn disc(size: usize, c: f64, r: f64) -> impl Fn(usize, usize) -> f64 {
    move |x, y| {
        let d = (x as f64 + 0.5 - c).hypot(y as f64 + 0.5 - c);
        (r + 0.5 - d).clamp(0.0, 1.0)
    }
}

#[test]
fn a_disc_yields_one_closed_chain_through_every_segment() {
    let (above, joined) = flags(32, disc(32, 16.0, 10.0), 0.5);
    let (segments, saddles) = marching_segments(&above, &joined, 32, 32);
    let chains = link_segments(&segments);
    assert_eq!(chains.len(), 1, "one shape, one boundary");
    assert!(chains[0].1);
    assert_eq!(chain_status(saddles), ChainStatus::WellFormed);
}

#[test]
fn a_saddle_configuration_is_reported_as_ambiguous() {
    let (above, joined) = flags(16, |x, y| if (x + y) % 2 == 0 { 1.0 } else { 0.0 }, 0.5);
    let (_, saddles) = marching_segments(&above, &joined, 16, 16);
    match chain_status(saddles) {
        ChainStatus::Ambiguous { saddle_cells } => assert!(saddle_cells > 10, "{saddle_cells}"),
        other => panic!("{other:?}"),
    }
    // Control: a clean disc is not ambiguous, or the status would be constant.
    let (above, joined) = flags(32, disc(32, 16.0, 10.0), 0.5);
    let (_, saddles) = marching_segments(&above, &joined, 32, 32);
    assert_eq!(chain_status(saddles), ChainStatus::WellFormed);
}

#[test]
fn a_shape_crossing_the_border_gives_an_open_chain_that_ends_there() {
    let (above, joined) = flags(24, |x, _| if x < 12 { 1.0 } else { 0.0 }, 0.5);
    let (segments, _) = marching_segments(&above, &joined, 24, 24);
    let chains = link_segments(&segments);
    assert_eq!(chains.len(), 1);
    assert!(!chains[0].1);
    // 23 cells from the top row of centres to the bottom one.
    assert_eq!(chains[0].0.len(), 24);
    assert_eq!(first_stray_chain(&Lattice { w: 24, h: 24 }, &chains), None);
}

#[test]
fn a_chain_ending_in_the_interior_is_refused_rather_than_closed() {
    let lat = Lattice { w: 8, h: 8 };
    // An interior vertical edge: not on the outer ring.
    let interior = lat.v_edge(3, 3);
    assert!(!lat.on_border(interior));
    assert!(lat.on_border(lat.v_edge(0, 3)));
    assert!(lat.on_border(lat.h_edge(3, 0)));
    assert!(!lat.on_border(lat.h_edge(3, 3)));
    // A chain ending there is the one refused.
    let chains = vec![(vec![lat.h_edge(3, 0), interior], false)];
    assert_eq!(first_stray_chain(&lat, &chains), Some(0));
}

#[test]
fn a_field_that_never_crosses_the_level_gives_no_segments() {
    for value in [0.0, 1.0] {
        let (above, joined) = flags(16, |_, _| value, 0.5);
        let (segments, saddles) = marching_segments(&above, &joined, 16, 16);
        assert!(segments.is_empty());
        assert_eq!(saddles, 0);
        assert!(link_segments(&segments).is_empty());
    }
}

#[test]
fn an_open_walk_takes_the_first_unused_segment_at_every_vertex() {
    // Vertices 1 and 9 end the run; vertex 2 is passed twice, through the loop 2-4-6-2.
    let segments = vec![(4, 2), (2, 6), (6, 4), (2, 9), (1, 2)];
    let chains = link_segments(&segments);
    assert_eq!(chains, vec![(vec![1, 2, 4, 6, 2, 9], false)]);
}

#[test]
fn open_chains_start_from_their_lowest_free_end_in_increasing_order() {
    let segments = vec![(8, 3), (6, 5), (5, 4)];
    let chains = link_segments(&segments);
    assert_eq!(chains, vec![(vec![3, 8], false), (vec![4, 5, 6], false)]);
}

#[test]
fn open_chains_end_where_exactly_one_segment_touches() {
    // Two runs and a loop, no vertex touched more than twice.
    let segments = vec![(10, 11), (20, 21), (11, 12), (30, 31), (31, 32), (32, 30), (21, 22)];
    let chains = link_segments(&segments);
    let touches = |v: u64| segments.iter().filter(|s| s.0 == v).count()
        + segments.iter().filter(|s| s.1 == v).count();
    for (path, closed) in &chains {
        if !*closed {
            let (first, last) = (path[0], path[path.len() - 1]);
            assert_ne!(first, last);
            assert_eq!(touches(first), 1);
            assert_eq!(touches(last), 1);
        }
    }
    assert_eq!(
        chains,
        vec![
            (vec![10, 11, 12], false),
            (vec![20, 21, 22], false),
            (vec![30, 31, 32, 30], true)
        ]
    );
}
