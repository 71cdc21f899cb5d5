use vice_classic::skeleton::thin;

#[test]
fn a_three_pixel_bar_thins_to_one_connected_centerline() {
    let mut mask = vec![false; 9 * 9];
    for y in 3..6 {
        for x in 1..8 {
            mask[y * 9 + x] = true;
        }
    }
    let skeleton = thin(&mask, 9, 9);
    assert!(skeleton.iter().filter(|value| **value).count() >= 3);
    assert!(skeleton[4 * 9 + 4]);
}

#[test]
fn thinning_only_removes_interior_pixels() {
    let mut mask = vec![false; 7 * 6];
    for y in 0..6 {
        for x in 0..7 {
            mask[y * 7 + x] = (x + y) % 3 != 0 || x == 3;
        }
    }
    let skeleton = thin(&mask, 7, 6);
    assert_eq!(skeleton.len(), mask.len());
    for i in 0..mask.len() {
        let (x, y) = (i % 7, i / 7);
        if skeleton[i] {
            assert!(mask[i], "pixel {i} was added");
        }
        if x == 0 || y == 0 || x == 6 || y == 5 {
            assert_eq!(skeleton[i], mask[i], "border pixel {i} changed");
        }
    }
}

#[test]
fn a_narrow_grid_is_returned_unchanged() {
    let mask = vec![true, true, false, true, true, true];
    assert_eq!(thin(&mask, 2, 3), mask);
    assert_eq!(thin(&mask, 6, 1), mask);
}

#[test]
fn a_solid_block_thins_to_fewer_pixels_and_stays_thin() {
    let mut mask = vec![false; 7 * 7];
    for y in 1..6 {
        for x in 1..6 {
            mask[y * 7 + x] = true;
        }
    }
    let skeleton = thin(&mask, 7, 7);
    let before = mask.iter().filter(|v| **v).count();
    let after = skeleton.iter().filter(|v| **v).count();
    assert!(after < before);
    assert!(after >= 1);
    // Thinning a skeleton again changes nothing.
    assert_eq!(thin(&skeleton, 7, 7), skeleton);
}
