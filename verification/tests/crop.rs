use darkroom_core::crop::{largest_in_histogram, largest_inscribed_rect};

#[test]
fn full_mask_is_whole_rect() {
    let (w, h) = (12, 8);
    let valid = vec![1u8; w * h];
    assert_eq!(largest_inscribed_rect(&valid, w, h), (0, 0, 12, 8));
}

#[test]
fn l_shape() {
    let (w, h) = (12usize, 8usize);
    let mut valid = vec![1u8; w * h];
    for y in 0..4 {
        for x in 0..4 {
            valid[y * w + x] = 0;
        }
    }
    let (x0, y0, cw, ch) = largest_inscribed_rect(&valid, w, h);
    assert_eq!((x0, y0, cw, ch), (4, 0, 8, 8));
}

#[test]
fn diagonal() {
    let (w, h) = (12usize, 8usize);
    let mut valid = vec![1u8; w * h];
    for d in 0..h {
        valid[d * w + d] = 0;
    }
    let (_, _, cw, ch) = largest_inscribed_rect(&valid, w, h);
    assert!(cw * ch > 0 && cw * ch < 96, "got {cw}x{ch}");
    assert!(cw * ch >= 32, "expected >= 32, got {cw}x{ch}");
}

#[test]
fn empty_mask_gives_zero_rect() {
    let valid = vec![0u8; 6 * 4];
    assert_eq!(largest_inscribed_rect(&valid, 6, 4), (0, 0, 0, 0));
}

#[test]
fn single_valid_pixel_is_a_unit_rect() {
    let mut valid = vec![0u8; 5 * 5];
    valid[2 * 5 + 3] = 1;
    assert_eq!(largest_inscribed_rect(&valid, 5, 5), (3, 2, 1, 1));
}

#[test]
fn histogram_rectangle_is_maximal() {
    // Heights 2,1,4,5,1,3,3: the largest rectangle is 4..5 tall over columns 2..4 (area 8).
    let (l, w, h, area) = largest_in_histogram(&[2, 1, 4, 5, 1, 3, 3]);
    assert_eq!(area, 8);
    assert_eq!((l, w, h), (2, 2, 4));
}

#[test]
fn histogram_of_zeros_is_empty() {
    assert_eq!(largest_in_histogram(&[0, 0, 0]), (0, 0, 0, 0));
}

#[test]
fn equal_rectangles_resolve_to_the_first_in_scan_order() {
    // Two 1×1 candidates on one row: the one ending first wins.
    assert_eq!(largest_inscribed_rect(&[1, 0, 1], 3, 1), (0, 0, 1, 1));
    // Two area-2 candidates ending on the bottom row: the column (ending first) wins over the row.
    assert_eq!(largest_inscribed_rect(&[1, 0, 1, 1], 2, 2), (0, 0, 1, 2));
    // An earlier bottom row wins over a later one.
    assert_eq!(largest_inscribed_rect(&[1, 1, 0, 0, 1, 1], 2, 3), (0, 0, 2, 1));
    // In one histogram: same right end, the taller one.
    assert_eq!(largest_in_histogram(&[1, 2]), (1, 1, 2, 2));
}
