use darkroom_core::seam::{dilate_mask, neigh, reassign_horizontal, reassign_vertical, rect_overlap, seam_jobs, seam_order, IdMap, PairCoverage, SeamPair};

#[test]
fn owner_at_samples_the_nearest_lowres_cell() {
    let map = IdMap { ids: vec![1, 2, 3, 4, 5, 6], w: 3, h: 2 };
    assert_eq!(map.owner_at(0, 0, 300, 200), 1);
    assert_eq!(map.owner_at(299, 0, 300, 200), 3);
    assert_eq!(map.owner_at(150, 150, 300, 200), 5);
    assert_eq!(map.owner_at(900, 900, 300, 200), 6);
    assert_eq!(map.owner_at(5, 5, 1, 1), 1);
}

#[test]
fn neighbours_stay_inside_the_grid() {
    assert_eq!(neigh(0, 0, 3, 2), vec![(1, 0), (0, 1)]);
    assert_eq!(neigh(1, 1, 3, 3), vec![(0, 1), (2, 1), (1, 0), (1, 2)]);
    assert!(neigh(0, 0, 1, 1).is_empty());
}

#[test]
fn overlap_is_the_common_pixels() {
    assert_eq!(rect_overlap((0, 0, 10, 10), (5, 2, 10, 3)), Some((5, 2, 5, 3)));
    assert_eq!(rect_overlap((5, 2, 10, 3), (0, 0, 10, 10)), Some((5, 2, 5, 3)));
    assert_eq!(rect_overlap((0, 0, 5, 5), (5, 0, 5, 5)), None);
    assert_eq!(rect_overlap((0, 0, 0, 5), (0, 0, 5, 5)), None);
}

#[test]
fn vertical_seam_gives_left_side_to_its_majority_owner() {
    let t = true;
    let f = false;
    let ids = vec![0, 0, 1, 1, 1, 0, 0, 1, 1, 2, 0, 1, 1, 1, 1, 9, 9, 9, 9, 9];
    let cov = PairCoverage {
        has_i: vec![t, t, t, t, t, f, t, t, t],
        has_j: vec![t, t, t, t, f, t, f, t, t],
    };
    let mut a = ids.clone();
    reassign_vertical(&mut a, 5, &cov, 0, 1, (1, 0, 3, 3), &[2, 1, 3]);
    assert_eq!(a, vec![0, 1, 1, 0, 1, 0, 1, 0, 1, 2, 0, 0, 1, 1, 1, 9, 9, 9, 9, 9]);
    let mut b = ids.clone();
    reassign_vertical(&mut b, 5, &cov, 1, 0, (1, 0, 3, 3), &[0, 0, 0]);
    assert_eq!(b, vec![0, 0, 0, 0, 1, 0, 0, 1, 0, 2, 0, 1, 0, 0, 1, 9, 9, 9, 9, 9]);
}

#[test]
fn horizontal_seam_gives_top_side_to_its_majority_owner() {
    let t = true;
    let f = false;
    let ids = vec![1, 1, 1, 1, 1, 1, 0, 0, 1, 1, 0, 0, 0, 0, 2, 0, 0, 0, 0, 0];
    let cov = PairCoverage {
        has_i: vec![t, t, t, t, t, t, f, t, t, t, t, t],
        has_j: vec![t, f, t, t, t, t, t, t, t, t, t, f],
    };
    let mut a = ids.clone();
    reassign_horizontal(&mut a, 5, &cov, 0, 1, (0, 1, 4, 3), &[1, 0, 2, 3]);
    assert_eq!(a, vec![1, 1, 1, 1, 1, 0, 0, 0, 0, 1, 1, 1, 1, 0, 2, 1, 1, 1, 0, 0]);
    // A pair of one frame with itself leaves ownership as it was where that frame has data.
    let mut b = ids.clone();
    reassign_horizontal(&mut b, 5, &cov, 0, 0, (0, 1, 4, 3), &[1, 0, 2, 3]);
    assert_eq!(b, vec![1, 1, 1, 1, 1, 1, 0, 0, 1, 1, 0, 0, 0, 0, 2, 0, 0, 0, 0, 0]);
}

#[test]
fn dilation_grows_marks_by_a_square_window() {
    let (ow, oh) = (5, 4);
    let mut raw = vec![false; ow * oh];
    raw[1 * ow + 2] = true;
    let out = dilate_mask(&raw, ow, oh, 1);
    let want: Vec<bool> = (0..ow * oh)
        .map(|p| {
            let (x, y) = ((p % ow) as i64, (p / ow) as i64);
            (x - 2).abs() <= 1 && (y - 1).abs() <= 1
        })
        .collect();
    assert_eq!(out, want);
    // Clipped at the border, and radius 0 is the identity.
    let mut corner = vec![false; ow * oh];
    corner[0] = true;
    let grown = dilate_mask(&corner, ow, oh, 3);
    assert_eq!(grown.iter().filter(|&&b| b).count(), 16);
    assert_eq!(dilate_mask(&corner, ow, oh, 0), corner);
    assert_eq!(dilate_mask(&vec![false; ow * oh], ow, oh, 3), vec![false; ow * oh]);
}

#[test]
fn seams_are_cut_strongest_pair_first() {
    let p = |i, j, n_inliers| SeamPair { i, j, n_inliers };
    let pairs = [p(0, 1, 50), p(1, 2, 80), p(2, 3, 50), p(0, 3, 10)];
    assert_eq!(seam_order(&pairs), vec![1, 0, 2, 3]);
    assert!(seam_order(&[]).is_empty());
    // Slot 0 holds frame 3, slot 1 frame 0, slot 2 frame 1; frame 2 has no slot.
    let used = [3, 0, 1];
    let rects = [Some((0, 0, 10, 10)), Some((5, 0, 10, 10)), Some((8, 2, 10, 10))];
    assert_eq!(seam_jobs(&used, &pairs, &rects), vec![(1, 2, (8, 2, 7, 8)), (1, 0, (5, 0, 5, 10))]);
    // A slot without a canvas rectangle, or rectangles that do not meet, give no seam.
    let rects2 = [Some((0, 0, 10, 10)), Some((50, 50, 5, 5)), None];
    assert!(seam_jobs(&used, &pairs, &rects2).is_empty());
}
