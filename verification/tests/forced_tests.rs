use vice_classic::forced::{forced_bounds, ForcedShapeRefusal};

#[test]
fn forced_spans_run_between_consecutive_bounds() {
    assert_eq!(forced_bounds(3, &vec![4, 9], 20), Ok(vec![0, 4, 9, 20]));
    assert_eq!(forced_bounds(1, &vec![], 7), Ok(vec![0, 7]));
}

#[test]
fn a_forced_shape_is_refused_on_lengths_before_breakpoints() {
    assert_eq!(
        forced_bounds(2, &vec![4, 9], 20),
        Err(ForcedShapeRefusal::ShapeMismatch { families: 2, breakpoints: 2 })
    );
    assert_eq!(
        forced_bounds(0, &vec![], 20),
        Err(ForcedShapeRefusal::ShapeMismatch { families: 0, breakpoints: 0 })
    );
}

#[test]
fn the_first_breakpoint_out_of_range_is_reported() {
    assert_eq!(
        forced_bounds(4, &vec![4, 4, 30], 20),
        Err(ForcedShapeRefusal::BreakpointOutOfRange { breakpoint: 4, previous: 4, last_sample: 20 })
    );
    assert_eq!(
        forced_bounds(2, &vec![0], 20),
        Err(ForcedShapeRefusal::BreakpointOutOfRange { breakpoint: 0, previous: 0, last_sample: 20 })
    );
    assert_eq!(
        forced_bounds(3, &vec![5, 20], 20),
        Err(ForcedShapeRefusal::BreakpointOutOfRange { breakpoint: 20, previous: 5, last_sample: 20 })
    );
}
