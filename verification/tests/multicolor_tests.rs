use vice_classic::multicolor::{
    boundary_label_counts, canonical_digest, config_refusal, core_pixels, disagreeing_edges,
    encoded_distance_sq, initial_labels, label_component, nearest_label, TRANSPARENT_LABEL,
};
use vice_classic::refusals::MulticolorRefusal;

#[test]
fn a_configuration_is_refused_in_a_fixed_order() {
    assert_eq!(config_refusal(3, 5, 4, true, 4), None);
    assert_eq!(config_refusal(2, 5, 4, true, 10), Some(MulticolorRefusal::MalformedConfig));
    assert_eq!(config_refusal(4, 3, 4, true, 10), Some(MulticolorRefusal::MalformedConfig));
    assert_eq!(config_refusal(3, 5, 0, true, 10), Some(MulticolorRefusal::MalformedConfig));
    assert_eq!(config_refusal(3, 5, 4, false, 10), Some(MulticolorRefusal::MalformedConfig));
    assert_eq!(
        config_refusal(3, 65535, 4, true, 10),
        Some(MulticolorRefusal::LabelSpaceExhausted)
    );
    assert_eq!(
        config_refusal(3, 5, 4, true, 2),
        Some(MulticolorRefusal::TooFewSupportedModes { required: 3, found: 2 })
    );
    // A malformed range is reported before a label space it would also exhaust.
    assert_eq!(config_refusal(2, 65535, 4, true, 0), Some(MulticolorRefusal::MalformedConfig));
}

#[test]
fn disagreeing_edges_count_each_neighbour_pair_once_and_skip_transparency() {
    assert_eq!(disagreeing_edges(&vec![0, 1, 1, 1], 2, 2), 2);
    assert_eq!(disagreeing_edges(&vec![0, TRANSPARENT_LABEL, 1, 1], 2, 2), 1);
    assert_eq!(disagreeing_edges(&vec![3, 3, 3], 3, 1), 0);
    assert_eq!(disagreeing_edges(&vec![0, 1, 2, 0, 1, 2], 3, 2), 4);
    assert_eq!(disagreeing_edges(&vec![], 4, 0), 0);
}

#[test]
fn the_canonical_digest_hashes_keys_and_labels_in_order() {
    let keys = vec![[230, 30, 30], [30, 60, 230]];
    assert_eq!(
        canonical_digest(2, 1, &keys, &vec![0, 1]),
        "87cd30a42b92844379df684b240736b1ed84ce49397a2192a91fa1d9ff4ad0bc"
    );
    assert_eq!(
        canonical_digest(2, 1, &keys, &vec![1, 0]),
        "ec69fcb4cb979c3f8c35d93bf48b311ea6a3be1ef169d0300182035d4132c49a"
    );
}

fn grid() -> Vec<u16> {
    vec![0, 0, 1, 1, 0, 0, 1, 2, 3, 0, 1, 1]
}

#[test]
fn a_label_region_is_found_breadth_first_and_marked_seen() {
    let labels = grid();
    let mut seen = vec![false; labels.len()];
    let first = label_component(&labels, 4, 3, 0, &mut seen);
    assert_eq!(first, vec![0, 1, 4, 5, 9]);
    let second = label_component(&labels, 4, 3, 2, &mut seen);
    assert_eq!(second, vec![2, 3, 6, 10, 11]);
    let marked: Vec<usize> = (0..labels.len()).filter(|i| seen[*i]).collect();
    assert_eq!(marked, vec![0, 1, 2, 3, 4, 5, 6, 9, 10, 11]);
}

#[test]
fn seen_pixels_are_outside_every_later_region() {
    let labels = grid();
    let mut seen = vec![false; labels.len()];
    seen[1] = true;
    assert_eq!(label_component(&labels, 4, 3, 0, &mut seen), vec![0, 4, 5, 9]);
}

#[test]
fn core_pixels_have_region_neighbours_across_both_axes() {
    assert_eq!(core_pixels(&vec![0, 1, 4, 5, 9], 4, 3), vec![0, 1, 4, 5]);
    assert!(core_pixels(&vec![2, 3], 4, 3).is_empty());
    assert!(core_pixels(&vec![], 4, 3).is_empty());
}

#[test]
fn boundary_counts_tally_foreign_labels_in_label_order() {
    let mut labels = grid();
    let region = vec![0, 1, 4, 5, 9];
    assert_eq!(boundary_label_counts(&labels, &region, 4, 3, 0), vec![(1, 3), (3, 2)]);
    labels[8] = TRANSPARENT_LABEL;
    assert_eq!(boundary_label_counts(&labels, &region, 4, 3, 0), vec![(1, 3)]);
}

#[test]
fn key_distance_is_the_exact_sum_of_squared_channel_differences() {
    assert_eq!(encoded_distance_sq([0, 0, 0], [0, 0, 0]), 0);
    assert_eq!(encoded_distance_sq([10, 20, 30], [13, 16, 30]), 9 + 16);
    assert_eq!(encoded_distance_sq([0, 255, 0], [255, 0, 255]), 3 * 255 * 255);
    assert_eq!(encoded_distance_sq([200, 0, 7], [0, 200, 7]), 2 * 200 * 200);
}

#[test]
fn the_nearest_colour_wins_and_ties_go_to_the_lower_label() {
    let colors = vec![[0, 0, 0], [100, 100, 100], [200, 200, 200]];
    assert_eq!(nearest_label([90, 90, 90], &colors), 1);
    assert_eq!(nearest_label([255, 255, 255], &colors), 2);
    // Exactly half way between black and grey: the lower label.
    assert_eq!(nearest_label([50, 50, 50], &colors), 0);
    let repeated = vec![[9, 9, 9], [5, 5, 5], [5, 5, 5]];
    assert_eq!(nearest_label([5, 5, 5], &repeated), 1);
}

#[test]
fn pixels_without_evidence_start_transparent() {
    let colors = vec![[0, 0, 0], [255, 255, 255], [255, 0, 0]];
    let observed = vec![[10, 10, 10], [250, 240, 245], [200, 30, 20], [255, 255, 255]];
    let evidenced = vec![true, true, true, false];
    let labels = initial_labels(&observed, &evidenced, &colors);
    assert_eq!(labels, vec![0, 1, 2, TRANSPARENT_LABEL]);
}

#[test]
fn with_no_evidence_no_colour_is_needed() {
    let labels = initial_labels(&vec![[1, 2, 3], [4, 5, 6]], &vec![false, false], &vec![]);
    assert_eq!(labels, vec![TRANSPARENT_LABEL, TRANSPARENT_LABEL]);
}

#[test]
fn an_empty_label_field_has_nothing_to_count() {
    assert_eq!(disagreeing_edges(&vec![], 0, 4), 0);
    assert!(core_pixels(&vec![], 0, 4).is_empty());
    assert!(boundary_label_counts(&vec![], &vec![], 0, 4, 1).is_empty());
}
