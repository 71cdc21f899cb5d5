use vice_classic::boundary::{ChainStatus, Lattice};
use vice_classic::formation::{check_agreement, exterior_name, ExteriorModel};
use vice_classic::corner::{corner_anchors, turning_scales, AnchorCandidate};
use vice_classic::mask::{channel_medians, contrast_histogram, foreground_mask, premul_codes};
use vice_classic::refusals::LineArtRefusal;
use vice_classic::palette::Flat2Kind;
use vice_classic::primitive::{LoopPrimitiveKind, LOOP_PRIMITIVE_KINDS};
use vice_classic::tally::bump;

#[test]
fn lattice_edges_have_distinct_identities_and_border_rings() {
    let lat = Lattice { w: 4, h: 3 };
    // Horizontal edges are numbered first, row by row.
    assert_eq!(lat.h_edge(0, 0), 0);
    assert_eq!(lat.h_edge(2, 2), 8);
    // Then vertical edges.
    assert_eq!(lat.v_edge(0, 0), 9);
    assert_eq!(lat.v_edge(3, 1), 16);
    let mut ids = Vec::new();
    for j in 0..3 {
        for i in 0..3 {
            ids.push(lat.h_edge(i, j));
            assert_eq!(lat.on_border(lat.h_edge(i, j)), j == 0 || j == 2);
        }
    }
    for j in 0..2 {
        for i in 0..4 {
            ids.push(lat.v_edge(i, j));
            assert_eq!(lat.on_border(lat.v_edge(i, j)), i == 0 || i == 3);
        }
    }
    let mut sorted = ids.clone();
    sorted.sort();
    sorted.dedup();
    assert_eq!(sorted.len(), ids.len());
    assert_eq!(ChainStatus::Ambiguous { saddle_cells: 2 }, ChainStatus::Ambiguous { saddle_cells: 2 });
}

#[test]
fn premultiplication_rounds_to_the_nearest_code() {
    assert_eq!(premul_codes([200, 100, 0, 255]), [200, 100, 0, 255]);
    assert_eq!(premul_codes([200, 100, 0, 0]), [0, 0, 0, 0]);
    // 255 * 128 / 255 = 128; 1 * 128 / 255 = 0.502 -> 1; 3 * 128 / 255 = 1.506 -> 2.
    assert_eq!(premul_codes([255, 1, 3, 128]), [128, 1, 2, 128]);
}

#[test]
fn the_turning_ladder_is_dyadic_and_fits_the_chain() {
    assert_eq!(turning_scales(0), Vec::<usize>::new());
    assert_eq!(turning_scales(2), Vec::<usize>::new());
    assert_eq!(turning_scales(3), vec![1]);
    assert_eq!(turning_scales(9), vec![1, 2, 4]);
    assert_eq!(turning_scales(8), vec![1, 2]);
    assert_eq!(turning_scales(100), vec![1, 2, 4, 8, 16, 32]);
}

#[test]
fn flat2_kinds_name_themselves_and_their_assumptions() {
    assert_eq!(Flat2Kind::FullBleedTwoFace.as_str(), "full_bleed_two_face");
    assert_eq!(Flat2Kind::OracleOverride.as_str(), "oracle_override");
    assert!(Flat2Kind::BorderSupportedBackground.assumes_border_is_background());
    assert!(!Flat2Kind::FullBleedTwoFace.assumes_border_is_background());
    assert!(Flat2Kind::OracleOverride.is_oracle_override());
    assert!(!Flat2Kind::LabelSwappedFullBleed.is_oracle_override());
}

#[test]
fn primitive_kinds_count_their_parameters() {
    assert_eq!(LoopPrimitiveKind::RoundedRect.free_parameters(), 6);
    assert_eq!(LoopPrimitiveKind::Circle.free_parameters(), 3);
    assert_eq!(LoopPrimitiveKind::Rect.angle_parameters(), 0);
    assert_eq!(LoopPrimitiveKind::Capsule.coordinate_parameters(), 4);
    assert_eq!(LoopPrimitiveKind::RegularPolygon.universe_name(), "regular_polygon");
    let names: Vec<&str> = LOOP_PRIMITIVE_KINDS.iter().map(|k| k.universe_name()).collect();
    assert_eq!(names.len(), 7);
    assert_eq!(names[3], "rotated_rect");
}

#[test]
fn bump_counts_by_name() {
    let mut acc: Vec<(&'static str, usize)> = Vec::new();
    bump(&mut acc, "line");
    bump(&mut acc, "arc");
    bump(&mut acc, "line");
    let owned = String::from("arc");
    let leaked: &'static str = Box::leak(owned.into_boxed_str());
    bump(&mut acc, leaked);
    assert_eq!(acc, vec![("line", 2), ("arc", 2)]);
}

#[test]
fn a_flat_image_has_no_contrast_and_a_histogram_counts_each_distance() {
    assert_eq!(contrast_histogram(&vec![0, 0, 0]), Err(LineArtRefusal::NoContrast));
    let h = contrast_histogram(&vec![0, 3, 3, 255]).unwrap();
    assert_eq!(h.len(), 256);
    assert_eq!(h[0], 1);
    assert_eq!(h[3], 2);
    assert_eq!(h[255], 1);
    assert_eq!(h.iter().sum::<u64>(), 4);
}

#[test]
fn the_foreground_is_strictly_above_the_threshold_and_never_empty_or_full() {
    assert_eq!(
        foreground_mask(&vec![0, 5, 9, 4], 4),
        Ok(vec![false, true, true, false])
    );
    assert_eq!(
        foreground_mask(&vec![0, 5, 9], 9),
        Err(LineArtRefusal::DegenerateForeground)
    );
    assert_eq!(
        foreground_mask(&vec![5, 6], 4),
        Err(LineArtRefusal::DegenerateForeground)
    );
}

#[test]
fn channel_medians_take_the_middle_of_each_sorted_channel() {
    let pixels = vec![[1, 2, 3, 4], [9, 9, 9, 9], [5, 0, 7, 255]];
    assert_eq!(channel_medians(&pixels, &vec![0, 1, 2]), [5, 2, 7, 9]);
    // With an even count the upper of the two middle entries is taken.
    assert_eq!(channel_medians(&pixels, &vec![0, 1]), [9, 9, 9, 9]);
    assert_eq!(channel_medians(&pixels, &vec![2]), [5, 0, 7, 255]);
    // An index may repeat; it counts each time.
    assert_eq!(channel_medians(&pixels, &vec![0, 0, 1]), [1, 2, 3, 4]);
}

fn candidates(keys: &[u64]) -> Vec<AnchorCandidate> {
    keys.iter()
        .enumerate()
        .map(|(i, k)| AnchorCandidate { sample: 10 * i, saliency_key: *k })
        .collect()
}

#[test]
fn anchors_are_strict_maxima_of_their_window() {
    let c = candidates(&[0, 5, 3, 7, 7, 1]);
    // Equal neighbours block each other; a zero saliency never anchors.
    assert_eq!(corner_anchors(&c, 1), vec![10]);
    // With no window every positive finite saliency anchors.
    assert_eq!(corner_anchors(&c, 0), vec![10, 20, 30, 40, 50]);
    // A saliency that is not a number blocks its window and never anchors itself.
    let blocked = candidates(&[u64::MAX, 5, 2]);
    assert_eq!(corner_anchors(&blocked, 1), Vec::<usize>::new());
    assert_eq!(corner_anchors(&blocked, 0), vec![10, 20]);
    assert!(corner_anchors(&Vec::new(), 3).is_empty());
}

#[test]
fn the_anchor_count_is_bounded_by_the_window() {
    let keys: Vec<u64> = (0..40u64).map(|i| 1 + (i * 7919) % 97).collect();
    let c = candidates(&keys);
    for hw in 0..6usize {
        let anchors = corner_anchors(&c, hw);
        assert!(anchors.len() <= (c.len() + hw) / (hw + 1));
        for pair in anchors.windows(2) {
            assert!((pair[1] - pair[0]) / 10 > hw);
        }
    }
}

#[test]
fn a_formation_and_its_palette_must_agree_about_the_exterior() {
    assert_eq!(check_agreement(ExteriorModel::Transparent, ExteriorModel::Transparent), Ok(()));
    assert_eq!(check_agreement(ExteriorModel::Opaque, ExteriorModel::Opaque), Ok(()));
    let e = check_agreement(ExteriorModel::Transparent, ExteriorModel::Opaque).unwrap_err();
    assert_eq!(e.formation, "transparent");
    assert_eq!(e.palette, "opaque");
    let e = check_agreement(ExteriorModel::Opaque, ExteriorModel::Transparent).unwrap_err();
    assert_eq!(e.formation, "opaque");
    assert_eq!(e.palette, "transparent");
    assert_eq!(exterior_name(ExteriorModel::Opaque), "opaque");
}
