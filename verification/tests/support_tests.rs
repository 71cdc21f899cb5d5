use vice_classic::support::{
    combine_disjoint, DoubleCounted, ObservationSupport, SupportError, SurrogateRole,
};

fn range(lo: usize, hi: usize) -> Vec<usize> {
    (lo..hi).collect()
}

/// Two quantities over one image always share pixels, so combining them is
/// refused and the refusal counts the shared pixels.
#[test]
fn two_scores_over_the_same_image_cannot_be_added() {
    let a = ObservationSupport::whole_image("img", 100);
    let b = ObservationSupport::whole_image("img", 100);
    match combine_disjoint(SurrogateRole::Pruning, &a, SurrogateRole::Pruning, &b) {
        Err(DoubleCounted::SharedPixels { shared, pixels }) => {
            assert_eq!(shared, 100);
            assert_eq!(pixels, 100);
        }
        other => panic!("{other:?}"),
    }
    // Even one shared pixel is refused.
    let left = ObservationSupport::of_indices("img", 100, &range(0, 51)).unwrap();
    let right = ObservationSupport::of_indices("img", 100, &range(50, 100)).unwrap();
    assert!(matches!(
        combine_disjoint(SurrogateRole::Pruning, &left, SurrogateRole::Pruning, &right),
        Err(DoubleCounted::SharedPixels { shared: 1, .. })
    ));
}

/// Disjoint supports do combine, and the union is the support of the result.
#[test]
fn disjoint_supports_do_combine_and_carry_the_union() {
    let left = ObservationSupport::of_indices("img", 100, &range(0, 50)).unwrap();
    let right = ObservationSupport::of_indices("img", 100, &range(50, 100)).unwrap();
    let sum = combine_disjoint(
        SurrogateRole::ProposalCost,
        &left,
        SurrogateRole::ProposalCost,
        &right,
    )
    .expect("disjoint supports combine");
    assert_eq!(sum.covered(), 100);
    assert_ne!(sum.digest(), left.digest());
    assert_eq!(sum, ObservationSupport::whole_image("img", 100));
}

/// Different images are incomparable, not disjoint.
#[test]
fn scores_over_different_images_are_refused_rather_than_treated_as_disjoint() {
    let a = ObservationSupport::of_indices("A", 10, &range(0, 5)).unwrap();
    let b = ObservationSupport::of_indices("B", 10, &range(5, 10)).unwrap();
    match combine_disjoint(SurrogateRole::Diagnostic, &a, SurrogateRole::Diagnostic, &b) {
        Err(DoubleCounted::DifferentImages { a, b }) => {
            assert_eq!(a, "A");
            assert_eq!(b, "B");
        }
        other => panic!("{other:?}"),
    }
}

#[test]
fn roles_do_not_mix() {
    let a = ObservationSupport::of_indices("img", 10, &range(0, 5)).unwrap();
    let b = ObservationSupport::of_indices("img", 10, &range(5, 10)).unwrap();
    assert_eq!(
        combine_disjoint(SurrogateRole::Pruning, &a, SurrogateRole::TrustRegion, &b),
        Err(DoubleCounted::DifferentRoles {
            a: "pruning",
            b: "trust_region"
        })
    );
}

/// The support is a set, and the digest is a function of that set.
#[test]
fn the_support_is_a_set_and_its_digest_follows_it() {
    let s = ObservationSupport::of_indices("img", 10, &[3usize, 3, 7]).unwrap();
    assert_eq!(s.covered(), 2, "a repeated index is not a second member");
    assert!(s.contains(3) && s.contains(7) && !s.contains(4));
    let same = ObservationSupport::of_indices("img", 10, &[7usize, 3]).unwrap();
    assert_eq!(s.digest(), same.digest(), "order must not matter");
    let other = ObservationSupport::of_indices("img", 10, &[3usize, 8]).unwrap();
    assert_ne!(s.digest(), other.digest());
    assert_eq!(s.summary().covered, 2);
}

/// An out-of-range index is a typed refusal, not a silently dropped member.
#[test]
fn an_index_outside_the_image_is_refused_rather_than_dropped() {
    let e = ObservationSupport::of_indices("img", 10, &[3usize, 99]).unwrap_err();
    assert!(matches!(
        e,
        SupportError::OutOfRange {
            index: 99,
            pixels: 10
        }
    ));
    // The refusal is specific, not a constructor that rejects everything.
    assert_eq!(
        ObservationSupport::of_indices("img", 10, &[3usize, 9])
            .unwrap()
            .covered(),
        2
    );
    assert_eq!(ObservationSupport::whole_image("img", 10).covered(), 10);
}

#[test]
fn the_first_out_of_range_index_is_the_one_reported() {
    let e = ObservationSupport::of_indices("img", 10, &[1usize, 12, 40]).unwrap_err();
    assert_eq!(
        e,
        SupportError::OutOfRange {
            index: 12,
            pixels: 10
        }
    );
    // The pixel count itself is already outside.
    assert!(ObservationSupport::of_indices("img", 10, &[10usize]).is_err());
    assert!(ObservationSupport::of_indices("img", 0, &[]).is_ok());
}

#[test]
fn the_digest_is_the_sha256_of_the_documented_message() {
    let s = ObservationSupport::of_indices("img", 10, &[3usize, 7]).unwrap();
    assert_eq!(
        s.digest(),
        "7de1b6302e8ff468dc89ae8d985a8a0fb90aec1035cf2e6f47efbb953b37faa9"
    );
    let whole = ObservationSupport::whole_image("img", 100);
    assert_eq!(
        whole.digest(),
        "b8e52c5e3424d7cb4316cb1c38efec7dda56a1a4a4751b88717c4f954deee8b6"
    );
    let summary = whole.summary();
    assert_eq!(summary.image_sha256, "img");
    assert_eq!(summary.pixels, 100);
    assert_eq!(summary.covered, 100);
    assert_eq!(summary.digest, whole.digest());
}

#[test]
fn shared_pixels_counts_the_intersection_across_words() {
    let a = ObservationSupport::of_indices("img", 200, &range(60, 140)).unwrap();
    let b = ObservationSupport::of_indices("img", 200, &range(100, 200)).unwrap();
    assert_eq!(a.shared_pixels(&b), 40);
    assert_eq!(b.shared_pixels(&a), 40);
    let c = ObservationSupport::of_indices("other", 200, &range(100, 200)).unwrap();
    assert_eq!(a.shared_pixels(&c), 0);
    assert_eq!(a.pixels(), 200);
    assert_eq!(a.image_sha256(), "img");
    assert!(!a.contains(200) && !a.contains(59) && a.contains(60) && a.contains(139));
}

#[test]
fn a_union_keeps_each_side_and_counts_both() {
    let a = ObservationSupport::of_indices("img", 130, &[0usize, 64, 129]).unwrap();
    let b = ObservationSupport::of_indices("img", 130, &[1usize, 65, 128]).unwrap();
    let u = combine_disjoint(SurrogateRole::TrustRegion, &a, SurrogateRole::TrustRegion, &b)
        .unwrap();
    assert_eq!(u.covered(), 6);
    for i in [0usize, 1, 64, 65, 128, 129] {
        assert!(u.contains(i), "{i}");
    }
    assert!(!u.contains(2));
}

#[test]
fn every_role_has_its_snake_case_name() {
    assert_eq!(SurrogateRole::HypothesisGeneration.as_str(), "hypothesis_generation");
    assert_eq!(SurrogateRole::Pruning.as_str(), "pruning");
    assert_eq!(SurrogateRole::TrustRegion.as_str(), "trust_region");
    assert_eq!(SurrogateRole::ProposalCost.as_str(), "proposal_cost");
    assert_eq!(SurrogateRole::Diagnostic.as_str(), "diagnostic");
}

/// Two supports naming one image with different sizes still combine when they
/// share no pixel: the result keeps the first size and counts both.
#[test]
fn supports_of_different_sizes_over_one_image_combine_on_the_first_size() {
    let small = ObservationSupport::of_indices("img", 10, &range(0, 3)).unwrap();
    let large = ObservationSupport::of_indices("img", 100, &range(5, 8)).unwrap();
    let u = combine_disjoint(SurrogateRole::Pruning, &small, SurrogateRole::Pruning, &large)
        .expect("disjoint supports combine");
    assert_eq!(u.pixels(), 10);
    assert_eq!(u.image_sha256(), "img");
    assert_eq!(u.summary().covered, 6);
    assert_eq!(u, ObservationSupport::of_indices("img", 10, &[0, 1, 2, 5, 6, 7]).unwrap());
    let shared = ObservationSupport::of_indices("img", 100, &range(2, 4)).unwrap();
    assert!(matches!(
        combine_disjoint(SurrogateRole::Pruning, &small, SurrogateRole::Pruning, &shared),
        Err(DoubleCounted::SharedPixels { shared: 1, pixels: 10 })
    ));
}
