use darkroom_core::pixels::{crop_rgba8, frame_canvas, histogram, identity_lut, padded_bpr, LUT_SIZE};

#[test]
fn identity_is_a_straight_ramp() {
    let lut = identity_lut();
    for i in 0..LUT_SIZE {
        assert_eq!(lut[i * 4], i as u8, "identity LUT must map i -> i");
    }
}

#[test]
fn identity_lut_is_opaque_grey() {
    let lut = identity_lut();
    assert_eq!(lut.len(), 1024);
    assert_eq!(&lut[4 * 77..4 * 78], &[77, 77, 77, 255]);
}

#[test]
fn counts_levels_per_channel() {
    let rgba = [10, 20, 30, 255, 10, 40, 30, 255];
    let h = histogram(&rgba);
    assert_eq!(h.r[10], 2);
    assert_eq!(h.g[20], 1);
    assert_eq!(h.g[40], 1);
    assert_eq!(h.b[30], 2);
    assert_eq!(h.r.iter().sum::<u32>(), 2);
}

#[test]
fn histogram_bins_sum_to_pixel_count_and_ignore_partial_pixel() {
    let rgba = [1, 2, 3, 4, 5, 6, 7, 8, 9, 9, 9];
    let h = histogram(&rgba);
    assert_eq!(h.r.len(), 256);
    assert_eq!(h.r.iter().sum::<u32>(), 2);
    assert_eq!(h.g.iter().sum::<u32>(), 2);
    assert_eq!(h.b.iter().sum::<u32>(), 2);
    assert_eq!(h.r[9], 0);
    assert_eq!(h.b[7], 1);
}

#[test]
fn padded_rows_are_aligned() {
    assert_eq!(padded_bpr(64), 256);
    assert_eq!(padded_bpr(65), 512);
    assert_eq!(padded_bpr(1), 256);
    assert_eq!(padded_bpr(0), 0);
}

#[test]
fn crop_copies_the_sub_rectangle() {
    // 3x2 image, pixel (x, y) = [x, y, 7, 9].
    let mut rgba = Vec::new();
    for y in 0..2u8 {
        for x in 0..3u8 {
            rgba.extend_from_slice(&[x, y, 7, 9]);
        }
    }
    let out = crop_rgba8(&rgba, 3, 1, 0, 2, 2);
    assert_eq!(out, vec![1, 0, 7, 9, 2, 0, 7, 9, 1, 1, 7, 9, 2, 1, 7, 9]);
    assert!(crop_rgba8(&rgba, 3, 0, 0, 0, 2).is_empty());
}

#[test]
fn frame_centres_the_image_on_the_border_colour() {
    // 1x1 red pixel on a 3x2 white canvas: offset ((3-1)/2, (2-1)/2) = (1, 0).
    let out = frame_canvas(&[255, 0, 0, 255], 1, 1, [9, 9, 9, 255], 3, 2);
    assert_eq!(out.len(), 3 * 2 * 4);
    assert_eq!(&out[0..4], &[9, 9, 9, 255]);
    assert_eq!(&out[4..8], &[255, 0, 0, 255]);
    assert_eq!(&out[8..12], &[9, 9, 9, 255]);
    assert!(out[12..].chunks(4).all(|p| p == [9, 9, 9, 255]));
}
