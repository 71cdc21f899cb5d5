use vice_classic::grammar::SpanFamily::{CircularArc, Cubic, Line, Quad};
use vice_classic::grammar::{
    family_by_ord, family_is_representable, family_ord, free_scalars, jet_compatible,
    path_is_representable, tangent_is_free, ClosureMode, ClosureState, SpanFamily, JET_CLASSES,
};

#[test]
fn jet_classes_wrap_and_neighbours_are_compatible() {
    assert!(jet_compatible(0, JET_CLASSES - 1), "the wrap is compatible");
    assert!(jet_compatible(5, 6));
    assert!(!jet_compatible(5, 7));
    // A right angle is never compatible, at any rotation.
    for a in 0..JET_CLASSES {
        let b = (a + JET_CLASSES / 4) % JET_CLASSES;
        assert!(!jet_compatible(a, b), "{a} and {b}");
    }
}

/// The exact scalar counts, family by family, in both directions.
#[test]
fn sharing_a_tangent_removes_exactly_the_scalars_it_determines() {
    assert_eq!(free_scalars(Line, false, false), 0);
    assert_eq!(free_scalars(Line, true, true), 0);
    assert_eq!(free_scalars(CircularArc, false, false), 1);
    assert_eq!(free_scalars(CircularArc, true, false), 0);
    assert_eq!(free_scalars(CircularArc, true, true), 0);
    assert_eq!(free_scalars(Quad, false, false), 2);
    assert_eq!(free_scalars(Quad, true, false), 1);
    assert_eq!(free_scalars(Quad, true, true), 0);
    assert_eq!(free_scalars(Cubic, false, false), 4);
    assert_eq!(free_scalars(Cubic, true, false), 3);
    assert_eq!(free_scalars(Cubic, true, true), 2);
}

#[test]
fn compatibility_is_symmetric_and_reflexive() {
    for a in 0..JET_CLASSES {
        assert!(jet_compatible(a, a));
        for b in 0..JET_CLASSES {
            assert_eq!(jet_compatible(a, b), jet_compatible(b, a));
        }
    }
    assert!(jet_compatible(31, 0));
    assert!(!jet_compatible(30, 0));
}

#[test]
fn the_family_order_round_trips() {
    for f in [Line, CircularArc, Quad, Cubic] {
        assert_eq!(family_by_ord(family_ord(f)), f);
    }
    assert_eq!(family_ord(Line), 0);
    assert_eq!(family_ord(Cubic), 3);
    assert!(!tangent_is_free(Line));
    assert!(tangent_is_free(CircularArc));
}

#[test]
fn representability_of_shared_tangents() {
    assert!(!family_is_representable(Quad, false, true));
    assert!(family_is_representable(Quad, true, false));
    assert!(!family_is_representable(CircularArc, true, true));
    assert!(family_is_representable(CircularArc, true, false));
    assert!(family_is_representable(Cubic, true, true));
    assert!(family_is_representable(Line, true, true));
    // A quad smooth at both ends, and a smooth join between two lines, are refused.
    assert!(!path_is_representable(&vec![true, true], &vec![Cubic, Quad, Cubic]));
    assert!(path_is_representable(&vec![true, false], &vec![Cubic, Quad, Cubic]));
    assert!(!path_is_representable(&vec![false, true], &vec![Cubic, Line, Line]));
    assert!(path_is_representable(&vec![true, false], &vec![Cubic, Line, Line]));
    assert!(path_is_representable(&vec![], &vec![Quad]));
}

#[test]
fn closure_modes_and_states() {
    assert!(!ClosureMode::Open.is_closed());
    assert!(ClosureMode::Corner.is_closed());
    assert!(ClosureMode::Smooth.is_closed());
    assert!(ClosureMode::Smooth.is_smooth());
    assert!(!ClosureMode::Corner.is_smooth());
    let s = ClosureState {
        first_entry_class: 3,
        first_family_ord: 2,
        first_tail_shared: false,
    };
    assert!(s.after_join(true, true).first_tail_shared);
    assert!(!s.after_join(false, true).first_tail_shared);
    assert_eq!(s.after_join(true, true).first_entry_class, 3);
}

#[test]
fn only_a_smooth_closure_remembers_its_first_span() {
    assert_eq!(
        ClosureMode::Smooth.state_for_seed(5, Quad),
        Some(ClosureState {
            first_entry_class: 5,
            first_family_ord: 2,
            first_tail_shared: false,
        })
    );
    assert_eq!(ClosureMode::Corner.state_for_seed(5, Quad), None);
    assert_eq!(ClosureMode::Open.state_for_seed(0, Line), None);
}
